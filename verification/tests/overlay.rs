use meta_hybrid::error::{MountCause, MountOp};
use meta_hybrid::overlay::{
    do_mount_overlay, fits_page, lowerdir_text, mount_overlay, mount_overlayfs, overlay_progress,
    split_stages, stage_dir_name, MountWay, OverlayPlan, OverlayVerdict, StagedMount, PAGE_LIMIT,
    SAFE_CHUNK_SIZE,
};

fn strs(v: &[&str]) -> Vec<String> {
    v.iter().map(|s| s.to_string()).collect()
}

/// Two hundred module directories with paths of forty bytes each.
fn many_layers() -> Vec<String> {
    (0..200).map(|i| format!("/data/adb/modules/module_{:04}/system/lib", i)).collect()
}

fn direct(plan: OverlayPlan) -> meta_hybrid::overlay::OverlayCall {
    match plan {
        OverlayPlan::Direct(call) => call,
        OverlayPlan::Staged(_) => panic!("staged"),
    }
}

fn staged(plan: OverlayPlan) -> StagedMount {
    match plan {
        OverlayPlan::Staged(s) => s,
        OverlayPlan::Direct(_) => panic!("direct"),
    }
}

#[test]
fn the_limits_are_as_documented() {
    assert_eq!(PAGE_LIMIT, 4000);
    assert_eq!(SAFE_CHUNK_SIZE, 3500);
}

#[test]
fn the_layer_argument_lists_the_layers_from_the_top() {
    assert_eq!(lowerdir_text(&strs(&["/a", "/b"]), "/proc/self/fd/3"), "/a:/b:/proc/self/fd/3");
    assert_eq!(lowerdir_text(&Vec::new(), "/lowest"), "/lowest");
    assert_eq!(lowerdir_text(&strs(&["/only"]), ""), "/only:");
}

#[test]
fn the_layer_argument_must_stay_below_the_limit() {
    // 3 layers of 999 bytes and their colons: 3000 bytes; the lowest decides.
    let layer = "x".repeat(999);
    let layers = vec![layer.clone(), layer.clone(), layer.clone()];
    assert!(fits_page(&layers, &"y".repeat(999)));
    assert!(!fits_page(&layers, &"y".repeat(1000)));
    assert_eq!(lowerdir_text(&layers, &"y".repeat(1000)).len(), 4000);
    assert!(fits_page(&Vec::new(), &"y".repeat(3999)));
    assert!(!fits_page(&Vec::new(), &"y".repeat(4000)));
    // Bytes count, not characters.
    assert!(fits_page(&Vec::new(), &"\u{e9}".repeat(1999)));
    assert!(!fits_page(&Vec::new(), &"\u{e9}".repeat(2000)));
}

#[test]
fn a_short_mount_is_made_with_one_call() {
    let plan = mount_overlayfs(&strs(&["/m/a", "/m/b"]), "/proc/self/fd/5", None, None, "/system/app", false, "/run/staging");
    let call = direct(plan.unwrap());
    assert_eq!(call.lowerdir, "/m/a:/m/b:/proc/self/fd/5");
    assert_eq!(call.dest, "/system/app");
    assert_eq!(call.upperdir, None);
    assert_eq!(call.workdir, None);
    assert!(call.mark_unmountable);
    assert_eq!(call.data.unwrap(), "lowerdir=/m/a:/m/b:/proc/self/fd/5");
}

#[test]
fn the_classical_mount_data_names_all_directories() {
    let call = do_mount_overlay("/a:/b", Some("/up".to_string()), Some("/work".to_string()), "/dest", true);
    assert_eq!(call.data.unwrap(), "lowerdir=/a:/b,upperdir=/up,workdir=/work");
    assert_eq!(call.upperdir, Some("/up".to_string()));
    assert_eq!(call.workdir, Some("/work".to_string()));
    assert!(!call.mark_unmountable);
    assert_eq!(call.lowerdir, "/a:/b");
    assert_eq!(call.dest, "/dest");
}

#[test]
fn a_directory_for_writes_counts_only_with_its_partner() {
    let call = do_mount_overlay("/a", Some("/up".to_string()), None, "/dest", false);
    assert_eq!(call.upperdir, None);
    assert_eq!(call.workdir, None);
    assert_eq!(call.data.unwrap(), "lowerdir=/a");
    let call = do_mount_overlay("/a", None, Some("/work".to_string()), "/dest", false);
    assert_eq!(call.upperdir, None);
    assert_eq!(call.workdir, None);
    assert_eq!(call.data.unwrap(), "lowerdir=/a");
}

#[test]
fn mount_data_with_a_nul_is_refused() {
    let call = do_mount_overlay("/a\0b", None, None, "/dest", false);
    let e = call.data.unwrap_err();
    assert_eq!(e.op, MountOp::Union);
    assert_eq!(e.cause, MountCause::InteriorNul);
    assert_eq!(e.path, "/dest");
    assert_eq!(call.lowerdir, "/a\0b");
    let call = do_mount_overlay("/a", Some("/u\0".to_string()), Some("/w".to_string()), "/dest", false);
    assert!(call.data.is_err());
}

#[test]
fn layers_are_cut_into_stages_that_fit() {
    let layers = many_layers();
    assert!(layers.iter().all(|l| l.len() == 40));
    let stages = split_stages(&layers);
    // 85 layers take 85 * 41 = 3485 bytes, one more would take 3526.
    let sizes: Vec<usize> = stages.iter().map(|s| s.len()).collect();
    assert_eq!(sizes, vec![85, 85, 30]);
    let flat: Vec<String> = stages.iter().flatten().cloned().collect();
    assert_eq!(flat, layers);
    for s in &stages {
        let cost: usize = s.iter().map(|l| l.len() + 1).sum();
        assert!(cost <= SAFE_CHUNK_SIZE);
    }
}

#[test]
fn a_stage_is_closed_only_when_full() {
    assert_eq!(split_stages(&Vec::new()), Vec::<Vec<String>>::new());
    assert_eq!(split_stages(&strs(&["/a", "/b"])), vec![strs(&["/a", "/b"])]);
    // 3499 bytes and a colon fill a stage to the brim.
    let full = "f".repeat(3499);
    assert_eq!(split_stages(&vec![full.clone(), "x".to_string()]), vec![vec![full.clone()], strs(&["x"])]);
    let nearly = "n".repeat(3497);
    assert_eq!(split_stages(&vec![nearly.clone(), "x".to_string()]), vec![vec![nearly.clone(), "x".to_string()]]);
    assert_eq!(
        split_stages(&vec![nearly.clone(), "xy".to_string()]),
        vec![vec![nearly.clone()], strs(&["xy"])]
    );
}

#[test]
fn a_layer_too_long_for_a_stage_gets_a_stage_of_its_own() {
    let huge = "h".repeat(3600);
    let stages = split_stages(&vec![huge.clone(), "/a".to_string(), "/b".to_string()]);
    assert_eq!(stages, vec![vec![huge.clone()], strs(&["/a", "/b"])]);
    let stages = split_stages(&vec!["/a".to_string(), huge.clone(), "/b".to_string()]);
    assert_eq!(stages, vec![strs(&["/a"]), vec![huge.clone()], strs(&["/b"])]);
    assert!(stages.iter().all(|s| !s.is_empty()));
}

#[test]
fn stage_directories_are_named_by_time_and_index() {
    assert_eq!(stage_dir_name(1761681600123456789, 0), "stage_1761681600123456789_0");
    assert_eq!(stage_dir_name(0, 12), "stage_0_12");
}

#[test]
fn long_lowerdir_triggers_staging() {
    let layers = many_layers();
    let plan = mount_overlayfs(&layers, "/proc/self/fd/9", None, None, "/system/lib", false, "/run/staging")
        .unwrap();
    let mut run = staged(plan);
    assert!(!run.is_complete());
    assert!(run.rollback().is_empty());

    // The lowest thirty layers go first, over what was there.
    let first = run.next_stage(100).unwrap();
    assert!(!first.is_final);
    assert_eq!(first.call.dest, "/run/staging/stage_100_0");
    assert_eq!(first.call.lowerdir, lowerdir_text(&layers[170..].to_vec(), "/proc/self/fd/9"));
    assert_eq!(first.call.upperdir, None);
    assert!(first.call.mark_unmountable);
    // Asking again changes nothing.
    assert_eq!(run.next_stage(100).unwrap().call.dest, "/run/staging/stage_100_0");
    run.stage_mounted(&first.call.dest);
    assert_eq!(run.rollback(), strs(&["/run/staging/stage_100_0"]));

    let second = run.next_stage(200).unwrap();
    assert!(!second.is_final);
    assert_eq!(second.call.dest, "/run/staging/stage_200_1");
    assert_eq!(second.call.lowerdir, lowerdir_text(&layers[85..170].to_vec(), "/run/staging/stage_100_0"));
    run.stage_mounted(&second.call.dest);
    // Given up now, the scratch mounts go in the reverse order of their making.
    assert_eq!(run.rollback(), strs(&["/run/staging/stage_200_1", "/run/staging/stage_100_0"]));

    let last = run.next_stage(300).unwrap();
    assert!(last.is_final);
    assert_eq!(last.call.dest, "/system/lib");
    assert_eq!(last.call.lowerdir, lowerdir_text(&layers[..85].to_vec(), "/run/staging/stage_200_1"));
    assert!(last.call.lowerdir.len() < PAGE_LIMIT);
    // The third stage fails: both scratch mounts are still to be taken down.
    assert_eq!(run.rollback().len(), 2);
    assert!(!run.is_complete());

    // It succeeds: the mount stands and nothing is taken down.
    run.stage_mounted(&last.call.dest);
    assert!(run.is_complete());
    assert!(run.next_stage(400).is_none());
    assert!(run.rollback().is_empty());
    run.stage_mounted("/elsewhere");
    assert!(run.is_complete());
    assert!(run.rollback().is_empty());
}

#[test]
fn staging_is_refused_for_writable_unions() {
    let layers = many_layers();
    for (up, work) in [
        (Some("/up".to_string()), Some("/work".to_string())),
        (Some("/up".to_string()), None),
        (None, Some("/work".to_string())),
    ] {
        let e = mount_overlayfs(&layers, "/lowest", up, work, "/system/lib", false, "/run/staging")
            .unwrap_err();
        assert_eq!(e.op, MountOp::Union);
        assert_eq!(e.cause, MountCause::StagedReadWrite);
        assert_eq!(e.path, "/system/lib");
    }
    // A short mount takes them.
    let call = direct(
        mount_overlayfs(&strs(&["/a"]), "/lowest", Some("/up".to_string()), Some("/work".to_string()), "/d", false, "/run/staging")
            .unwrap(),
    );
    assert_eq!(call.upperdir, Some("/up".to_string()));
}

#[test]
fn a_staged_mount_without_layers_is_complete_at_once() {
    let lowest = "l".repeat(4000);
    let run = staged(mount_overlayfs(&Vec::new(), &lowest, None, None, "/d", true, "/run/staging").unwrap());
    assert!(run.is_complete());
    assert!(run.next_stage(1).is_none());
}

#[test]
fn a_staged_mount_of_one_stage_goes_to_the_destination() {
    let layers = vec!["a".repeat(2000), "b".repeat(1000)];
    let lowest = "l".repeat(2000);
    let mut run = staged(mount_overlayfs(&layers, &lowest, None, None, "/d", true, "/run/staging").unwrap());
    let only = run.next_stage(5).unwrap();
    assert!(only.is_final);
    assert_eq!(only.call.dest, "/d");
    assert!(!only.call.mark_unmountable);
    assert_eq!(only.call.lowerdir, lowerdir_text(&layers, &lowest));
    run.stage_mounted("/d");
    assert!(run.is_complete());
    assert!(run.rollback().is_empty());
}

#[test]
fn the_base_layer_is_reached_through_the_open_directory() {
    let call = direct(
        mount_overlay("/system/app", &strs(&["/m/a/system/app"]), None, None, false, 7, "/run/staging").unwrap(),
    );
    assert_eq!(call.lowerdir, "/m/a/system/app:/proc/self/fd/7");
    assert_eq!(call.dest, "/system/app");
    let call = direct(mount_overlay("/x", &Vec::new(), None, None, true, 1234, "/run/staging").unwrap());
    assert_eq!(call.lowerdir, "/proc/self/fd/1234");
    let run = staged(mount_overlay("/system/lib", &many_layers(), None, None, false, 3, "/run/staging").unwrap());
    assert!(!run.is_complete());
}

#[test]
fn the_modern_way_is_tried_first_and_the_classical_one_on_failure() {
    for disable in [false, true] {
        let call = do_mount_overlay("/a:/b", None, None, "/dest", disable);
        assert!(matches!(overlay_progress(&call, None, None), OverlayVerdict::Try(MountWay::Modern)));
        // Whatever is said of the classical way, the modern one comes first.
        assert!(matches!(
            overlay_progress(&call, None, Some(true)),
            OverlayVerdict::Try(MountWay::Modern)
        ));
        match overlay_progress(&call, Some(true), None) {
            OverlayVerdict::Mounted { tag } => assert_eq!(tag, !disable),
            other => panic!("{:?}", other),
        }
        assert!(matches!(
            overlay_progress(&call, Some(false), None),
            OverlayVerdict::Try(MountWay::Classical)
        ));
        match overlay_progress(&call, Some(false), Some(true)) {
            OverlayVerdict::Mounted { tag } => assert_eq!(tag, !disable),
            other => panic!("{:?}", other),
        }
        match overlay_progress(&call, Some(false), Some(false)) {
            OverlayVerdict::Failed(e) => {
                assert_eq!(e.op, MountOp::Union);
                assert_eq!(e.cause, MountCause::SystemCall);
                assert_eq!(e.path, "/dest");
            }
            other => panic!("{:?}", other),
        }
    }
}

#[test]
fn the_classical_way_is_not_tried_with_a_nul_in_its_options() {
    let call = do_mount_overlay("/a\0b", None, None, "/dest", false);
    assert!(matches!(overlay_progress(&call, None, None), OverlayVerdict::Try(MountWay::Modern)));
    for classical in [None, Some(true), Some(false)] {
        match overlay_progress(&call, Some(false), classical) {
            OverlayVerdict::Failed(e) => {
                assert_eq!(e.op, MountOp::Union);
                assert_eq!(e.cause, MountCause::InteriorNul);
                assert_eq!(e.path, "/dest");
            }
            other => panic!("{:?}", other),
        }
    }
    assert!(matches!(overlay_progress(&call, Some(true), None), OverlayVerdict::Mounted { tag: true }));
}

#[test]
fn a_failed_stage_takes_its_own_directory_down_too() {
    let layers = many_layers();
    let mut run =
        staged(mount_overlayfs(&layers, "/lowest", None, None, "/system/lib", false, "/run/staging").unwrap());
    assert!(run.next_is_intermediate());
    // The first stage fails after its directory was made.
    assert_eq!(run.rollback_failed("/run/staging/stage_1_0"), strs(&["/run/staging/stage_1_0"]));
    assert!(run.rollback().is_empty());
    run.stage_mounted("/run/staging/stage_1_0");
    assert!(run.next_is_intermediate());
    // The second stage fails: its directory goes first, then the mount below.
    assert_eq!(
        run.rollback_failed("/run/staging/stage_2_1"),
        strs(&["/run/staging/stage_2_1", "/run/staging/stage_1_0"])
    );
    run.stage_mounted("/run/staging/stage_2_1");
    // The last stage goes to the destination, which is no scratch directory.
    assert!(!run.next_is_intermediate());
    assert_eq!(
        run.rollback_failed("/system/lib"),
        strs(&["/run/staging/stage_2_1", "/run/staging/stage_1_0"])
    );
    run.stage_mounted("/system/lib");
    // On success the scratch mounts stay: the mount rests on them.
    assert!(!run.next_is_intermediate());
    assert!(run.rollback_failed("/system/lib").is_empty());
    assert!(run.rollback().is_empty());
}
