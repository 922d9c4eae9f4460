use meta_hybrid::hymofs::{
    ioctl_number, Direction, HymoCommand, HymoError, HymoFs, HymoRequest, HymoStatus, Payload,
    DEV_PATH, HYMO_IOC_MAGIC, LIST_CAPACITY,
};

const ALL: [HymoCommand; 10] = [
    HymoCommand::AddRule,
    HymoCommand::DelRule,
    HymoCommand::HideRule,
    HymoCommand::ClearAll,
    HymoCommand::GetVersion,
    HymoCommand::ListRules,
    HymoCommand::SetDebug,
    HymoCommand::ReorderMntId,
    HymoCommand::SetStealth,
    HymoCommand::HideOverlayXattrs,
];

#[test]
fn the_device_and_the_magic_are_fixed() {
    assert_eq!(DEV_PATH, "/dev/hymo_ctl");
    assert_eq!(HYMO_IOC_MAGIC, 0xE0);
    assert_eq!(LIST_CAPACITY, 32 * 1024);
}

#[test]
fn request_numbers_pack_their_fields() {
    assert_eq!(ioctl_number(Direction::NoData, 0, 0, 0), 0);
    assert_eq!(ioctl_number(Direction::Write, 0xE0, 1, 24), 0x4018_E001);
    assert_eq!(ioctl_number(Direction::Read, 0xE0, 6, 4), 0x8004_E006);
    assert_eq!(ioctl_number(Direction::ReadWrite, 0xE0, 7, 16), 0xC010_E007);
    assert_eq!(ioctl_number(Direction::ReadWrite, 0xFF, 0xFF, 0x3FFF), 0xFFFF_FFFF);
    // Only fourteen bits of the size count.
    assert_eq!(ioctl_number(Direction::Write, 0xE0, 1, 0x4000 + 24), 0x4018_E001);
    assert_eq!(ioctl_number(Direction::NoData, 0x54, 0x01, 0), 0x5401);
}

#[test]
fn the_commands_have_their_ordinals_and_directions() {
    let nrs: Vec<u8> = ALL.iter().map(|c| c.nr()).collect();
    assert_eq!(nrs, vec![1, 2, 3, 5, 6, 7, 8, 9, 10, 11]);
    let dirs: Vec<Direction> = ALL.iter().map(|c| c.dir()).collect();
    assert_eq!(
        dirs,
        vec![
            Direction::Write,
            Direction::Write,
            Direction::Write,
            Direction::NoData,
            Direction::Read,
            Direction::ReadWrite,
            Direction::Write,
            Direction::NoData,
            Direction::Write,
            Direction::Write,
        ]
    );
    let payloads: Vec<Payload> = ALL.iter().map(|c| c.carries()).collect();
    assert_eq!(
        payloads,
        vec![
            Payload::Rule,
            Payload::Rule,
            Payload::Rule,
            Payload::Nothing,
            Payload::Int,
            Payload::List,
            Payload::Int,
            Payload::Nothing,
            Payload::Int,
            Payload::Rule,
        ]
    );
}

#[test]
fn payload_sizes_follow_the_pointer_width() {
    assert_eq!(Payload::Nothing.byte_size(8), 0);
    assert_eq!(Payload::Int.byte_size(8), 4);
    assert_eq!(Payload::Rule.byte_size(8), 24);
    assert_eq!(Payload::List.byte_size(8), 16);
    assert_eq!(Payload::Rule.byte_size(4), 12);
    assert_eq!(Payload::List.byte_size(4), 8);
    assert_eq!(Payload::Int.byte_size(4), 4);
}

#[test]
fn the_commands_are_numbered_for_both_pointer_widths() {
    let wide: Vec<u32> = ALL.iter().map(|c| c.number(8)).collect();
    assert_eq!(
        wide,
        vec![
            0x4018_E001,
            0x4018_E002,
            0x4018_E003,
            0x0000_E005,
            0x8004_E006,
            0xC010_E007,
            0x4004_E008,
            0x0000_E009,
            0x4004_E00A,
            0x4018_E00B,
        ]
    );
    let narrow: Vec<u32> = ALL.iter().map(|c| c.number(4)).collect();
    assert_eq!(
        narrow,
        vec![
            0x400C_E001,
            0x400C_E002,
            0x400C_E003,
            0x0000_E005,
            0x8004_E006,
            0xC008_E007,
            0x4004_E008,
            0x0000_E009,
            0x4004_E00A,
            0x400C_E00B,
        ]
    );
}

#[test]
fn the_status_comes_from_presence_and_version() {
    assert_eq!(HymoFs::check_status(false, None, 5), HymoStatus::NotPresent);
    assert_eq!(HymoFs::check_status(false, Some(5), 5), HymoStatus::NotPresent);
    assert_eq!(HymoFs::check_status(true, Some(5), 5), HymoStatus::Available);
    assert_eq!(HymoFs::check_status(true, Some(4), 5), HymoStatus::ProtocolMismatch);
    assert_eq!(HymoFs::check_status(true, Some(6), 5), HymoStatus::ProtocolMismatch);
    assert_eq!(HymoFs::check_status(true, None, 5), HymoStatus::ProtocolMismatch);
    assert!(HymoFs::is_available(HymoStatus::Available));
    assert!(!HymoFs::is_available(HymoStatus::ProtocolMismatch));
    assert!(!HymoFs::is_available(HymoStatus::NotPresent));
}

#[test]
fn an_absent_redirector_has_a_blank_status() {
    let s = HymoFs::get_kernel_status(false, Some(7), Some("add /a /b 1\n"));
    assert!(!s.available);
    assert_eq!(s.protocol_version, 0);
    assert_eq!(s.config_version, 0);
    assert!(s.rules.redirects.is_empty());
    assert!(s.rules.hides.is_empty());
    assert!(s.rules.injects.is_empty());
    assert!(s.rules.xattr_sbs.is_empty());
    assert!(!s.stealth_active);
    assert!(!s.debug_active);
}

#[test]
fn the_status_without_a_list_has_the_version_only() {
    let s = HymoFs::get_kernel_status(true, Some(7), None);
    assert!(s.available);
    assert_eq!(s.protocol_version, 7);
    assert!(s.rules.redirects.is_empty());
    let s = HymoFs::get_kernel_status(true, None, None);
    assert!(s.available);
    assert_eq!(s.protocol_version, 0);
}

#[test]
fn the_list_of_rules_is_read_line_by_line() {
    let listing = "HymoFS Protocol: 12\nadd /mirror/system/bin/su /system/bin/su 0\n\nhide /system/xbin\nadd /a /b notanumber\nadd /short /line\nhide\nHymoFS Protocol\nHymoFS Version: 3\nunknown line here\n  add\t/x   /y  -7  extra\r\nhide /one /two\n";
    let s = HymoFs::get_kernel_status(true, Some(3), Some(listing));
    assert!(s.available);
    assert_eq!(s.protocol_version, 12);
    let redirects: Vec<(String, String, i32)> =
        s.rules.redirects.iter().map(|r| (r.src.clone(), r.target.clone(), r.type_)).collect();
    assert_eq!(
        redirects,
        vec![
            ("/mirror/system/bin/su".to_string(), "/system/bin/su".to_string(), 0),
            ("/a".to_string(), "/b".to_string(), 0),
            ("/x".to_string(), "/y".to_string(), -7),
        ]
    );
    assert_eq!(s.rules.hides, vec!["/system/xbin".to_string(), "/one".to_string()]);
    assert!(s.rules.injects.is_empty());
    assert!(s.rules.xattr_sbs.is_empty());
    assert_eq!(s.config_version, 0);
}

#[test]
fn a_protocol_line_without_a_number_gives_zero() {
    let s = HymoFs::get_kernel_status(true, Some(9), Some("HymoFS Protocol: v2"));
    assert_eq!(s.protocol_version, 0);
    let s = HymoFs::get_kernel_status(true, Some(9), Some("hymofs protocol: 4"));
    assert_eq!(s.protocol_version, 9);
    let s = HymoFs::get_kernel_status(true, None, Some("HymoFS Protocol: 4\nHymoFS Protocol: 5"));
    assert_eq!(s.protocol_version, 5);
}

#[test]
fn rules_are_refused_when_their_texts_hold_a_nul() {
    match HymoFs::add_rule("/system/bin/su", "/mirror/system/bin/su", 0) {
        Ok(HymoRequest::AddRule { src, target, type_ }) => {
            assert_eq!(src, "/mirror/system/bin/su");
            assert_eq!(target, "/system/bin/su");
            assert_eq!(type_, 0);
        }
        other => panic!("{:?}", other),
    }
    assert_eq!(HymoFs::add_rule("/t\0", "/s", 0).unwrap_err(), HymoError::InteriorNul);
    assert_eq!(HymoFs::add_rule("/t", "\0/s", 3).unwrap_err(), HymoError::InteriorNul);
    assert_eq!(HymoFs::hide_path("/a\0b").unwrap_err(), HymoError::InteriorNul);
    assert_eq!(HymoFs::hide_overlay_xattrs("\0").unwrap_err(), HymoError::InteriorNul);
    match HymoFs::hide_path("/system/xbin") {
        Ok(HymoRequest::HideRule { path }) => assert_eq!(path, "/system/xbin"),
        other => panic!("{:?}", other),
    }
    match HymoFs::hide_overlay_xattrs("/system/app") {
        Ok(HymoRequest::HideOverlayXattrs { path }) => assert_eq!(path, "/system/app"),
        other => panic!("{:?}", other),
    }
}

#[test]
fn switches_are_sent_as_one_and_zero() {
    assert!(matches!(HymoFs::set_debug(true), HymoRequest::SetDebug { value: 1 }));
    assert!(matches!(HymoFs::set_debug(false), HymoRequest::SetDebug { value: 0 }));
    assert!(matches!(HymoFs::set_stealth(true), HymoRequest::SetStealth { value: 1 }));
    assert!(matches!(HymoFs::set_stealth(false), HymoRequest::SetStealth { value: 0 }));
}

#[test]
fn every_request_goes_under_its_command() {
    assert_eq!(HymoFs::clear().command(), HymoCommand::ClearAll);
    assert_eq!(HymoFs::get_version().command(), HymoCommand::GetVersion);
    assert_eq!(HymoFs::reorder_mnt_id().command(), HymoCommand::ReorderMntId);
    assert_eq!(HymoFs::set_debug(true).command(), HymoCommand::SetDebug);
    assert_eq!(HymoFs::set_stealth(true).command(), HymoCommand::SetStealth);
    assert_eq!(HymoFs::add_rule("/t", "/s", 0).unwrap().command(), HymoCommand::AddRule);
    assert_eq!(HymoFs::hide_path("/p").unwrap().command(), HymoCommand::HideRule);
    assert_eq!(HymoFs::hide_overlay_xattrs("/p").unwrap().command(), HymoCommand::HideOverlayXattrs);
    match HymoFs::list_active_rules() {
        HymoRequest::ListRules { capacity } => assert_eq!(capacity, 32768),
        other => panic!("{:?}", other),
    }
    assert_eq!(HymoFs::list_active_rules().command(), HymoCommand::ListRules);
    assert_eq!(HymoFs::list_active_rules().command().number(8), 0xC010_E007);
}
