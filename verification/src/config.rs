//! Settings that the planner and the executor read, and the names that the
//! layout of a module store fixes.

use vstd::prelude::*;
use crate::text::texts;

verus! {

/// Name of the marker file that switches a module off.
pub const DISABLE_FILE_NAME: &'static str = "disable";

/// Name of the marker file of a module that is about to be removed.
pub const REMOVE_FILE_NAME: &'static str = "remove";

/// Name of the marker file of a module that asks not to be mounted.
pub const SKIP_MOUNT_FILE_NAME: &'static str = "skipmount";

/// Name of the legacy rule file inside a module.
pub const LEGACY_RULES_FILE: &'static str = "mount_rules.txt";

/// Name of the structured rule file inside a module.
pub const STRUCTURED_RULES_FILE: &'static str = "hybrid_rules.json";

/// Directory that holds one structured rule file per module id, written by
/// the user.
pub const USER_RULES_DIR: &'static str = "/data/adb/meta-hybrid/rules";

/// What the caller configures.
#[derive(Debug, Clone)]
pub struct Config {
    /// Partition names to consider besides the built-in ones.
    pub partitions: Vec<String>,
    /// Rules out union mounts everywhere.
    pub force_ext4: bool,
    /// Mounts are not tagged as releasable.
    pub disable_umount: bool,
    /// Passed to the redirector.
    pub hymofs_debug: bool,
    /// Passed to the redirector.
    pub hymofs_stealth: bool,
}

/// The mathematical view of a `Config`.
pub ghost struct ConfigView {
    pub partitions: Seq<Seq<char>>,
    pub force_ext4: bool,
    pub disable_umount: bool,
    pub hymofs_debug: bool,
    pub hymofs_stealth: bool,
}

impl View for Config {
    type V = ConfigView;

    open spec fn view(&self) -> ConfigView {
        ConfigView {
            partitions: texts(self.partitions@),
            force_ext4: self.force_ext4,
            disable_umount: self.disable_umount,
            hymofs_debug: self.hymofs_debug,
            hymofs_stealth: self.hymofs_stealth,
        }
    }
}

impl Default for Config {
    fn default() -> (r: Config)
        ensures
            r@.partitions.len() == 0,
            !r@.force_ext4,
            !r@.disable_umount,
            !r@.hymofs_debug,
            !r@.hymofs_stealth,
    {
        Config {
            partitions: Vec::new(),
            force_ext4: false,
            disable_umount: false,
            hymofs_debug: false,
            hymofs_stealth: false,
        }
    }
}

/// The partitions that every device has, in the order in which they are
/// looked for.
pub open spec fn builtin_partition_names() -> Seq<Seq<char>> {
    seq!["system"@, "vendor"@, "product"@, "system_ext"@]
}

/// The built-in partition names.
pub fn builtin_partitions() -> (r: Vec<String>)
    ensures
        texts(r@) == builtin_partition_names(),
{
    let mut r: Vec<String> = Vec::new();
    r.push(String::from_str("system"));
    r.push(String::from_str("vendor"));
    r.push(String::from_str("product"));
    r.push(String::from_str("system_ext"));
    assert(texts(r@) =~= builtin_partition_names());
    r
}

} // verus!
