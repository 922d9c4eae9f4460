//! The bridge to the kernel-side redirector: how its requests are numbered,
//! what goes into each request, and how its answers are read. The requests
//! are made by the caller, one per opening of the device.

use vstd::prelude::*;
use crate::text::{
    has_nul, holds_nul, i32_of, lines_of, parse_i32, same_text, split_lines, split_words, texts,
    words_of,
};

verus! {

/// Path of the character device of the redirector.
pub const DEV_PATH: &'static str = "/dev/hymo_ctl";

/// The byte that marks the requests of the redirector.
pub const HYMO_IOC_MAGIC: u8 = 0xE0;

/// Size of the buffer that the list of active rules is read into.
pub const LIST_CAPACITY: usize = 32768;

/// In which direction a request moves data, as seen from the caller.
#[derive(Debug, Clone, Copy, PartialEq, Eq, Structural)]
pub enum Direction {
    NoData,
    Write,
    Read,
    ReadWrite,
}

impl Direction {
    /// The two bits that stand for the direction.
    pub open spec fn bits(self) -> u32 {
        match self {
            Direction::NoData => 0u32,
            Direction::Write => 1u32,
            Direction::Read => 2u32,
            Direction::ReadWrite => 3u32,
        }
    }

    /// The two bits that stand for the direction.
    pub fn to_bits(self) -> (r: u32)
        ensures
            r == self.bits(),
    {
        match self {
            Direction::NoData => 0,
            Direction::Write => 1,
            Direction::Read => 2,
            Direction::ReadWrite => 3,
        }
    }
}

/// The number of a request: the direction in the two highest bits, the size
/// of what is moved in the fourteen bits below, then the magic byte, then the
/// ordinal. Of the size only the lowest fourteen bits count.
pub open spec fn request_number(dir: Direction, magic: u8, nr: u8, size: u32) -> u32 {
    (dir.bits() << 30u32) | ((size & 0x3fffu32) << 16u32) | ((magic as u32) << 8u32) | (nr as u32)
}

/// Numbers a request.
pub fn ioctl_number(dir: Direction, magic: u8, nr: u8, size: u32) -> (r: u32)
    ensures
        r == request_number(dir, magic, nr, size),
{
    let d: u32 = dir.to_bits();
    (d << 30u32) | ((size & 0x3fffu32) << 16u32) | ((magic as u32) << 8u32) | (nr as u32)
}

/// The fields of a request number do not overlap: for a size below 2^14 the
/// number is the sum of the fields, each at its place, and each field can be
/// read back from it.
pub proof fn lemma_request_number_fields(dir: Direction, magic: u8, nr: u8, size: u32)
    requires
        size < 0x4000,
    ensures
        request_number(dir, magic, nr, size) == dir.bits() * 0x4000_0000 + size * 0x1_0000 + magic
            * 0x100 + nr,
        request_number(dir, magic, nr, size) & 0xffu32 == nr,
        (request_number(dir, magic, nr, size) >> 8u32) & 0xffu32 == magic,
        (request_number(dir, magic, nr, size) >> 16u32) & 0x3fffu32 == size,
        request_number(dir, magic, nr, size) >> 30u32 == dir.bits(),
{
    let d: u32 = dir.bits();
    let m: u32 = magic as u32;
    let n: u32 = nr as u32;
    let r: u32 = (d << 30u32) | ((size & 0x3fffu32) << 16u32) | (m << 8u32) | n;
    assert(r == d * 0x4000_0000 + size * 0x1_0000 + m * 0x100 + n && r & 0xffu32 == n && (r
        >> 8u32) & 0xffu32 == m && (r >> 16u32) & 0x3fffu32 == size && r >> 30u32 == d)
        by (bit_vector)
        requires
            r == (d << 30u32) | ((size & 0x3fffu32) << 16u32) | (m << 8u32) | n,
            d < 4,
            m < 256,
            n < 256,
            size < 0x4000,
    ;
}

/// What a request carries.
#[derive(Debug, Clone, Copy, PartialEq, Eq, Structural)]
pub enum Payload {
    /// Nothing.
    Nothing,
    /// A 32-bit integer.
    Int,
    /// A rule: two pointers to NUL-terminated texts and an integer.
    Rule,
    /// A buffer: a pointer and a length.
    List,
}

impl Payload {
    /// Bytes that the payload takes where a pointer takes `pointer_bytes`.
    /// A rule is padded to a whole number of pointers.
    pub open spec fn size(self, pointer_bytes: u8) -> u32 {
        match self {
            Payload::Nothing => 0u32,
            Payload::Int => 4u32,
            Payload::Rule => if pointer_bytes >= 8 {
                (3 * pointer_bytes) as u32
            } else {
                (2 * pointer_bytes + 4) as u32
            },
            Payload::List => (2 * pointer_bytes) as u32,
        }
    }

    /// Bytes that the payload takes where a pointer takes `pointer_bytes`.
    pub fn byte_size(self, pointer_bytes: u8) -> (r: u32)
        ensures
            r == self.size(pointer_bytes),
    {
        let p: u32 = pointer_bytes as u32;
        match self {
            Payload::Nothing => 0,
            Payload::Int => 4,
            Payload::Rule => if pointer_bytes >= 8 {
                3 * p
            } else {
                2 * p + 4
            },
            Payload::List => 2 * p,
        }
    }
}

/// The requests that the redirector understands.
#[derive(Debug, Clone, Copy, PartialEq, Eq, Structural)]
pub enum HymoCommand {
    AddRule,
    DelRule,
    HideRule,
    ClearAll,
    GetVersion,
    ListRules,
    SetDebug,
    ReorderMntId,
    SetStealth,
    HideOverlayXattrs,
}

impl HymoCommand {
    /// The ordinal of the command.
    pub open spec fn ordinal(self) -> u8 {
        match self {
            HymoCommand::AddRule => 1u8,
            HymoCommand::DelRule => 2u8,
            HymoCommand::HideRule => 3u8,
            HymoCommand::ClearAll => 5u8,
            HymoCommand::GetVersion => 6u8,
            HymoCommand::ListRules => 7u8,
            HymoCommand::SetDebug => 8u8,
            HymoCommand::ReorderMntId => 9u8,
            HymoCommand::SetStealth => 10u8,
            HymoCommand::HideOverlayXattrs => 11u8,
        }
    }

    /// The direction of the command.
    pub open spec fn direction(self) -> Direction {
        match self {
            HymoCommand::ClearAll => Direction::NoData,
            HymoCommand::ReorderMntId => Direction::NoData,
            HymoCommand::GetVersion => Direction::Read,
            HymoCommand::ListRules => Direction::ReadWrite,
            _ => Direction::Write,
        }
    }

    /// What the command carries.
    pub open spec fn payload(self) -> Payload {
        match self {
            HymoCommand::AddRule => Payload::Rule,
            HymoCommand::DelRule => Payload::Rule,
            HymoCommand::HideRule => Payload::Rule,
            HymoCommand::HideOverlayXattrs => Payload::Rule,
            HymoCommand::ClearAll => Payload::Nothing,
            HymoCommand::ReorderMntId => Payload::Nothing,
            HymoCommand::GetVersion => Payload::Int,
            HymoCommand::SetDebug => Payload::Int,
            HymoCommand::SetStealth => Payload::Int,
            HymoCommand::ListRules => Payload::List,
        }
    }

    /// The number under which the command is sent where a pointer takes
    /// `pointer_bytes`.
    pub open spec fn code(self, pointer_bytes: u8) -> u32 {
        request_number(
            self.direction(),
            HYMO_IOC_MAGIC,
            self.ordinal(),
            self.payload().size(pointer_bytes),
        )
    }

    /// The ordinal of the command.
    pub fn nr(self) -> (r: u8)
        ensures
            r == self.ordinal(),
    {
        match self {
            HymoCommand::AddRule => 1,
            HymoCommand::DelRule => 2,
            HymoCommand::HideRule => 3,
            HymoCommand::ClearAll => 5,
            HymoCommand::GetVersion => 6,
            HymoCommand::ListRules => 7,
            HymoCommand::SetDebug => 8,
            HymoCommand::ReorderMntId => 9,
            HymoCommand::SetStealth => 10,
            HymoCommand::HideOverlayXattrs => 11,
        }
    }

    /// The direction of the command.
    pub fn dir(self) -> (r: Direction)
        ensures
            r == self.direction(),
    {
        match self {
            HymoCommand::ClearAll => Direction::NoData,
            HymoCommand::ReorderMntId => Direction::NoData,
            HymoCommand::GetVersion => Direction::Read,
            HymoCommand::ListRules => Direction::ReadWrite,
            _ => Direction::Write,
        }
    }

    /// What the command carries.
    pub fn carries(self) -> (r: Payload)
        ensures
            r == self.payload(),
    {
        match self {
            HymoCommand::AddRule => Payload::Rule,
            HymoCommand::DelRule => Payload::Rule,
            HymoCommand::HideRule => Payload::Rule,
            HymoCommand::HideOverlayXattrs => Payload::Rule,
            HymoCommand::ClearAll => Payload::Nothing,
            HymoCommand::ReorderMntId => Payload::Nothing,
            HymoCommand::GetVersion => Payload::Int,
            HymoCommand::SetDebug => Payload::Int,
            HymoCommand::SetStealth => Payload::Int,
            HymoCommand::ListRules => Payload::List,
        }
    }

    /// The number under which the command is sent.
    pub fn number(self, pointer_bytes: u8) -> (r: u32)
        ensures
            r == self.code(pointer_bytes),
    {
        ioctl_number(self.dir(), HYMO_IOC_MAGIC, self.nr(), self.carries().byte_size(pointer_bytes))
    }
}

/// The numbers of the commands on a machine with pointers of eight bytes.
pub proof fn lemma_codes_with_wide_pointers()
    ensures
        HymoCommand::AddRule.code(8) == 0x4018_e001u32,
        HymoCommand::DelRule.code(8) == 0x4018_e002u32,
        HymoCommand::HideRule.code(8) == 0x4018_e003u32,
        HymoCommand::ClearAll.code(8) == 0x0000_e005u32,
        HymoCommand::GetVersion.code(8) == 0x8004_e006u32,
        HymoCommand::ListRules.code(8) == 0xc010_e007u32,
        HymoCommand::SetDebug.code(8) == 0x4004_e008u32,
        HymoCommand::ReorderMntId.code(8) == 0x0000_e009u32,
        HymoCommand::SetStealth.code(8) == 0x4004_e00au32,
        HymoCommand::HideOverlayXattrs.code(8) == 0x4018_e00bu32,
{
    assert((1u32 << 30u32) | ((24u32 & 0x3fffu32) << 16u32) | (0xe0u32 << 8u32) | 1u32
        == 0x4018_e001u32) by (bit_vector);
    assert((1u32 << 30u32) | ((24u32 & 0x3fffu32) << 16u32) | (0xe0u32 << 8u32) | 2u32
        == 0x4018_e002u32) by (bit_vector);
    assert((1u32 << 30u32) | ((24u32 & 0x3fffu32) << 16u32) | (0xe0u32 << 8u32) | 3u32
        == 0x4018_e003u32) by (bit_vector);
    assert((0u32 << 30u32) | ((0u32 & 0x3fffu32) << 16u32) | (0xe0u32 << 8u32) | 5u32
        == 0x0000_e005u32) by (bit_vector);
    assert((2u32 << 30u32) | ((4u32 & 0x3fffu32) << 16u32) | (0xe0u32 << 8u32) | 6u32
        == 0x8004_e006u32) by (bit_vector);
    assert((3u32 << 30u32) | ((16u32 & 0x3fffu32) << 16u32) | (0xe0u32 << 8u32) | 7u32
        == 0xc010_e007u32) by (bit_vector);
    assert((1u32 << 30u32) | ((4u32 & 0x3fffu32) << 16u32) | (0xe0u32 << 8u32) | 8u32
        == 0x4004_e008u32) by (bit_vector);
    assert((0u32 << 30u32) | ((0u32 & 0x3fffu32) << 16u32) | (0xe0u32 << 8u32) | 9u32
        == 0x0000_e009u32) by (bit_vector);
    assert((1u32 << 30u32) | ((4u32 & 0x3fffu32) << 16u32) | (0xe0u32 << 8u32) | 10u32
        == 0x4004_e00au32) by (bit_vector);
    assert((1u32 << 30u32) | ((24u32 & 0x3fffu32) << 16u32) | (0xe0u32 << 8u32) | 11u32
        == 0x4018_e00bu32) by (bit_vector);
}

/// Whether the redirector can be used.
#[derive(Debug, Clone, Copy, PartialEq, Eq, Structural)]
pub enum HymoStatus {
    /// It is there and speaks the expected protocol.
    Available,
    /// Its device is not there. Redirection is then left out without a word.
    NotPresent,
    /// It is there and speaks another protocol, or does not say which.
    /// Redirection is left out then too.
    ProtocolMismatch,
}

/// One redirection that the redirector holds.
#[derive(Debug, Clone)]
pub struct HymoRuleRedirect {
    pub src: String,
    pub target: String,
    pub type_: i32,
}

/// The rules that the redirector holds.
#[derive(Debug, Clone)]
pub struct HymoRules {
    pub redirects: Vec<HymoRuleRedirect>,
    pub hides: Vec<String>,
    pub injects: Vec<String>,
    pub xattr_sbs: Vec<String>,
}

/// What the redirector says of itself.
#[derive(Debug, Clone)]
pub struct HymoKernelStatus {
    pub available: bool,
    pub protocol_version: i32,
    pub config_version: i32,
    pub rules: HymoRules,
    pub stealth_active: bool,
    pub debug_active: bool,
}

/// The mathematical view of a redirection.
pub ghost struct RedirectView {
    pub src: Seq<char>,
    pub target: Seq<char>,
    pub type_: i32,
}

impl View for HymoRuleRedirect {
    type V = RedirectView;

    open spec fn view(&self) -> RedirectView {
        RedirectView { src: self.src@, target: self.target@, type_: self.type_ }
    }
}

/// The mathematical view of what the redirector says of itself.
#[verifier::ext_equal]
pub ghost struct KernelStatusView {
    pub available: bool,
    pub protocol_version: i32,
    pub config_version: i32,
    pub redirects: Seq<RedirectView>,
    pub hides: Seq<Seq<char>>,
    pub injects: Seq<Seq<char>>,
    pub xattr_sbs: Seq<Seq<char>>,
    pub stealth_active: bool,
    pub debug_active: bool,
}

impl View for HymoKernelStatus {
    type V = KernelStatusView;

    open spec fn view(&self) -> KernelStatusView {
        KernelStatusView {
            available: self.available,
            protocol_version: self.protocol_version,
            config_version: self.config_version,
            redirects: self.rules.redirects@.map_values(|r: HymoRuleRedirect| r@),
            hides: texts(self.rules.hides@),
            injects: texts(self.rules.injects@),
            xattr_sbs: texts(self.rules.xattr_sbs@),
            stealth_active: self.stealth_active,
            debug_active: self.debug_active,
        }
    }
}

/// The status of a redirector of which nothing is known but whether it is
/// there.
pub open spec fn blank_status(available: bool) -> KernelStatusView {
    KernelStatusView {
        available,
        protocol_version: 0,
        config_version: 0,
        redirects: Seq::empty(),
        hides: Seq::empty(),
        injects: Seq::empty(),
        xattr_sbs: Seq::empty(),
        stealth_active: false,
        debug_active: false,
    }
}

/// The number that a word writes out, or zero where it writes none.
pub open spec fn number_or_zero(word: Seq<char>) -> i32 {
    match i32_of(word) {
        Some(v) => v,
        None => 0,
    }
}

/// The status after one more line of the list of active rules was read.
/// `HymoFS Protocol: <n>` gives the protocol version, `add <src> <target>
/// <type>` a redirection, `hide <path>` a hidden path. Shorter lines of these
/// kinds, and all other lines, give nothing. Words behind those named are not
/// read.
pub open spec fn with_line(status: KernelStatusView, line: Seq<char>) -> KernelStatusView {
    let words = words_of(line);
    if words.len() == 0 {
        status
    } else if words[0] == "HymoFS"@ {
        if words.len() >= 3 && words[1] == "Protocol:"@ {
            KernelStatusView { protocol_version: number_or_zero(words[2]), ..status }
        } else {
            status
        }
    } else if words[0] == "add"@ {
        if words.len() >= 4 {
            KernelStatusView {
                redirects: status.redirects.push(
                    RedirectView {
                        src: words[1],
                        target: words[2],
                        type_: number_or_zero(words[3]),
                    },
                ),
                ..status
            }
        } else {
            status
        }
    } else if words[0] == "hide"@ {
        if words.len() >= 2 {
            KernelStatusView { hides: status.hides.push(words[1]), ..status }
        } else {
            status
        }
    } else {
        status
    }
}

/// The status after the lines were read, one after the other.
pub open spec fn with_lines(status: KernelStatusView, lines: Seq<Seq<char>>) -> KernelStatusView
    decreases lines.len(),
{
    if lines.len() == 0 {
        status
    } else {
        with_line(with_lines(status, lines.drop_last()), lines.last())
    }
}

/// What the redirector says of itself, from what was read of it: whether its
/// device is there, the version it answered with, and the list of its rules.
/// A version that could not be read counts as zero until the list names one.
pub open spec fn kernel_status(
    device_present: bool,
    version: Option<i32>,
    listing: Option<Seq<char>>,
) -> KernelStatusView {
    if !device_present {
        blank_status(false)
    } else {
        let start = KernelStatusView {
            protocol_version: match version {
                Some(v) => v,
                None => 0,
            },
            ..blank_status(true)
        };
        match listing {
            Some(text) => with_lines(start, lines_of(text)),
            None => start,
        }
    }
}

/// A request to the redirector, with what it carries.
#[derive(Debug, Clone)]
pub enum HymoRequest {
    /// Redirect reads of `target` to `src`.
    AddRule { src: String, target: String, type_: i32 },
    /// Make `path` appear absent.
    HideRule { path: String },
    /// Wipe all rules.
    ClearAll,
    /// Ask for the protocol version.
    GetVersion,
    /// Ask for the list of active rules, into a buffer of `capacity` bytes.
    ListRules { capacity: usize },
    /// Switch the debug output on (1) or off (0).
    SetDebug { value: i32 },
    /// Have the mount ids put in order.
    ReorderMntId,
    /// Switch the stealth mode on (1) or off (0).
    SetStealth { value: i32 },
    /// Hide the extended attributes that union mounts leave at `path`.
    HideOverlayXattrs { path: String },
}

/// Why a request cannot be made.
#[derive(Debug, Clone, Copy, PartialEq, Eq, Structural)]
pub enum HymoError {
    /// A text of the request holds a NUL character, so it cannot be handed
    /// over as a NUL-terminated string.
    InteriorNul,
}

impl HymoRequest {
    /// The command under which the request is sent.
    pub open spec fn command_of(self) -> HymoCommand {
        match self {
            HymoRequest::AddRule { .. } => HymoCommand::AddRule,
            HymoRequest::HideRule { .. } => HymoCommand::HideRule,
            HymoRequest::ClearAll => HymoCommand::ClearAll,
            HymoRequest::GetVersion => HymoCommand::GetVersion,
            HymoRequest::ListRules { .. } => HymoCommand::ListRules,
            HymoRequest::SetDebug { .. } => HymoCommand::SetDebug,
            HymoRequest::ReorderMntId => HymoCommand::ReorderMntId,
            HymoRequest::SetStealth { .. } => HymoCommand::SetStealth,
            HymoRequest::HideOverlayXattrs { .. } => HymoCommand::HideOverlayXattrs,
        }
    }

    /// The command under which the request is sent.
    pub fn command(&self) -> (r: HymoCommand)
        ensures
            r == self.command_of(),
    {
        match self {
            HymoRequest::AddRule { .. } => HymoCommand::AddRule,
            HymoRequest::HideRule { .. } => HymoCommand::HideRule,
            HymoRequest::ClearAll => HymoCommand::ClearAll,
            HymoRequest::GetVersion => HymoCommand::GetVersion,
            HymoRequest::ListRules { .. } => HymoCommand::ListRules,
            HymoRequest::SetDebug { .. } => HymoCommand::SetDebug,
            HymoRequest::ReorderMntId => HymoCommand::ReorderMntId,
            HymoRequest::SetStealth { .. } => HymoCommand::SetStealth,
            HymoRequest::HideOverlayXattrs { .. } => HymoCommand::HideOverlayXattrs,
        }
    }
}

/// The integer that a switch is sent as.
pub open spec fn switch_value(enable: bool) -> i32 {
    if enable {
        1
    } else {
        0
    }
}

/// The redirector, seen from user space. It has no state here: every request
/// stands for itself.
#[derive(Debug, Clone, Copy)]
pub struct HymoFs;

impl HymoFs {
    /// Whether the redirector can be used, from whether its device is there
    /// and the version it answered with. `expected` is the version of the
    /// protocol that the caller speaks.
    pub fn check_status(device_present: bool, version: Option<i32>, expected: i32) -> (r:
        HymoStatus)
        ensures
            !device_present ==> r == HymoStatus::NotPresent,
            device_present && version == Some(expected) ==> r == HymoStatus::Available,
            device_present && version != Some(expected) ==> r == HymoStatus::ProtocolMismatch,
    {
        if !device_present {
            HymoStatus::NotPresent
        } else {
            match version {
                Some(v) => if v == expected {
                    HymoStatus::Available
                } else {
                    HymoStatus::ProtocolMismatch
                },
                None => HymoStatus::ProtocolMismatch,
            }
        }
    }

    /// Whether requests are sent to the redirector: only where it is there
    /// and speaks the expected protocol.
    pub fn is_available(status: HymoStatus) -> (r: bool)
        ensures
            r == (status == HymoStatus::Available),
    {
        match status {
            HymoStatus::Available => true,
            _ => false,
        }
    }

    /// Reads what the redirector says of itself. `version` is its answer to
    /// the version request and `listing` its list of active rules, each
    /// where it gave one.
    pub fn get_kernel_status(device_present: bool, version: Option<i32>, listing: Option<&str>) -> (r:
        HymoKernelStatus)
        ensures
            r@ == kernel_status(
                device_present,
                version,
                match listing {
                    Some(text) => Some(text@),
                    None => None,
                },
            ),
    {
        let mut status = HymoKernelStatus {
            available: device_present,
            protocol_version: 0,
            config_version: 0,
            rules: HymoRules {
                redirects: Vec::new(),
                hides: Vec::new(),
                injects: Vec::new(),
                xattr_sbs: Vec::new(),
            },
            stealth_active: false,
            debug_active: false,
        };
        assert(status@ =~= blank_status(device_present));
        if !device_present {
            return status;
        }
        match version {
            Some(v) => {
                status.protocol_version = v;
            },
            None => {},
        }
        let text: &str = match listing {
            Some(t) => t,
            None => {
                assert(status@ =~= kernel_status(device_present, version, None));
                return status;
            },
        };
        let ghost start = status@;
        assert(start =~= KernelStatusView {
            protocol_version: match version {
                Some(v) => v,
                None => 0,
            },
            ..blank_status(true)
        });
        let lines: Vec<String> = split_lines(text);
        let mut i: usize = 0;
        assert(texts(lines@).take(0) =~= Seq::<Seq<char>>::empty());
        while i < lines.len()
            invariant
                i <= lines.len(),
                texts(lines@) == lines_of(text@),
                status@ == with_lines(start, texts(lines@).take(i as int)),
            decreases lines.len() - i,
        {
            assert(texts(lines@).take(i + 1).drop_last() =~= texts(lines@).take(i as int));
            assert(texts(lines@).take(i + 1).last() == lines@[i as int]@);
            let ghost before = status@;
            let parts: Vec<String> = split_words(lines[i].as_str());
            let ghost words = texts(parts@);
            if parts.len() > 0 {
                assert(words[0] == parts@[0]@);
                let head: &str = parts[0].as_str();
                if same_text(head, "HymoFS") {
                    if parts.len() >= 3 {
                        assert(words[1] == parts@[1]@);
                        assert(words[2] == parts@[2]@);
                        if same_text(parts[1].as_str(), "Protocol:") {
                            status.protocol_version = match parse_i32(parts[2].as_str()) {
                                Some(v) => v,
                                None => 0,
                            };
                        }
                    }
                } else if same_text(head, "add") {
                    if parts.len() >= 4 {
                        assert(words[1] == parts@[1]@);
                        assert(words[2] == parts@[2]@);
                        assert(words[3] == parts@[3]@);
                        let type_: i32 = match parse_i32(parts[3].as_str()) {
                            Some(v) => v,
                            None => 0,
                        };
                        status.rules.redirects.push(
                            HymoRuleRedirect {
                                src: parts[1].clone(),
                                target: parts[2].clone(),
                                type_,
                            },
                        );
                        assert(status@.redirects =~= before.redirects.push(
                            RedirectView { src: words[1], target: words[2], type_ },
                        ));
                    }
                } else if same_text(head, "hide") {
                    if parts.len() >= 2 {
                        assert(words[1] == parts@[1]@);
                        status.rules.hides.push(parts[1].clone());
                        assert(status@.hides =~= before.hides.push(words[1]));
                    }
                }
            }
            assert(status@ =~= with_line(before, lines@[i as int]@));
            i = i + 1;
        }
        assert(texts(lines@).take(i as int) =~= texts(lines@));
        status
    }

    /// The request for the protocol version.
    pub fn get_version() -> (r: HymoRequest)
        ensures
            r == HymoRequest::GetVersion,
    {
        HymoRequest::GetVersion
    }

    /// The request that wipes all rules.
    pub fn clear() -> (r: HymoRequest)
        ensures
            r == HymoRequest::ClearAll,
    {
        HymoRequest::ClearAll
    }

    /// The request that redirects reads of `target` to `src`. Refused where
    /// one of the two holds a NUL character.
    pub fn add_rule(target: &str, src: &str, type_val: i32) -> (r: Result<HymoRequest, HymoError>)
        ensures
            holds_nul(src@) || holds_nul(target@) ==> r == Err::<HymoRequest, HymoError>(
                HymoError::InteriorNul,
            ),
            !holds_nul(src@) && !holds_nul(target@) ==> r is Ok && r->Ok_0 is AddRule && r->Ok_0->src@
                == src@ && r->Ok_0->target@ == target@ && r->Ok_0->type_ == type_val,
    {
        if has_nul(src) || has_nul(target) {
            return Err(HymoError::InteriorNul);
        }
        Ok(
            HymoRequest::AddRule {
                src: String::from_str(src),
                target: String::from_str(target),
                type_: type_val,
            },
        )
    }

    /// The request that makes `path` appear absent. Refused where the path
    /// holds a NUL character.
    pub fn hide_path(path: &str) -> (r: Result<HymoRequest, HymoError>)
        ensures
            holds_nul(path@) ==> r == Err::<HymoRequest, HymoError>(HymoError::InteriorNul),
            !holds_nul(path@) ==> r is Ok && r->Ok_0 is HideRule && r->Ok_0->HideRule_path@ == path@,
    {
        if has_nul(path) {
            return Err(HymoError::InteriorNul);
        }
        Ok(HymoRequest::HideRule { path: String::from_str(path) })
    }

    /// The request for the list of active rules.
    pub fn list_active_rules() -> (r: HymoRequest)
        ensures
            r == (HymoRequest::ListRules { capacity: LIST_CAPACITY }),
    {
        HymoRequest::ListRules { capacity: LIST_CAPACITY }
    }

    /// The request that switches the debug output.
    pub fn set_debug(enable: bool) -> (r: HymoRequest)
        ensures
            r == (HymoRequest::SetDebug { value: switch_value(enable) }),
    {
        HymoRequest::SetDebug { value: if enable { 1 } else { 0 } }
    }

    /// The request that switches the stealth mode.
    pub fn set_stealth(enable: bool) -> (r: HymoRequest)
        ensures
            r == (HymoRequest::SetStealth { value: switch_value(enable) }),
    {
        HymoRequest::SetStealth { value: if enable { 1 } else { 0 } }
    }

    /// The request that hides the extended attributes that union mounts
    /// leave at `path`. Refused where the path holds a NUL character.
    pub fn hide_overlay_xattrs(path: &str) -> (r: Result<HymoRequest, HymoError>)
        ensures
            holds_nul(path@) ==> r == Err::<HymoRequest, HymoError>(HymoError::InteriorNul),
            !holds_nul(path@) ==> r is Ok && r->Ok_0 is HideOverlayXattrs && r->Ok_0->HideOverlayXattrs_path@
                == path@,
    {
        if has_nul(path) {
            return Err(HymoError::InteriorNul);
        }
        Ok(HymoRequest::HideOverlayXattrs { path: String::from_str(path) })
    }

    /// The request that has the mount ids put in order.
    pub fn reorder_mnt_id() -> (r: HymoRequest)
        ensures
            r == HymoRequest::ReorderMntId,
    {
        HymoRequest::ReorderMntId
    }
}

} // verus!
