use meta_hybrid::config::{builtin_partitions, Config};
use meta_hybrid::lists::contains_name;
use meta_hybrid::diagnostics::{diagnose_plan, DiagnosticLevel};
use meta_hybrid::inventory::{Module, ModuleRules, MountMode};
use meta_hybrid::planner::{generate, insert_into_tree, MountPlan, SourceEntry};
use meta_hybrid::tree::{FileType, FsNode};

fn strs(v: &[&str]) -> Vec<String> {
    v.iter().map(|s| s.to_string()).collect()
}

fn module(id: &str, default_mode: MountMode) -> Module {
    let mut rules = ModuleRules::new();
    rules.default_mode = default_mode;
    Module { id: id.to_string(), source_path: format!("/data/adb/modules/{}", id), rules }
}

fn entry(relative: &str, file_type: FileType) -> SourceEntry {
    SourceEntry {
        relative: relative.to_string(),
        source_path: format!("/mnt/m/{}", relative),
        file_type,
    }
}

#[test]
fn a_skeleton_on_a_file_is_reported() {
    let modules = vec![module("m", MountMode::Magic)];
    let contents = vec![vec![
        entry("system/etc", FileType::Directory),
        entry("system/etc/hosts", FileType::File),
        entry("system/app", FileType::Directory),
    ]];
    let plan = generate(&Config::default(), &modules, &contents, &Vec::new());
    assert!(diagnose_plan(&plan, &Vec::new()).is_empty());
    let issues = diagnose_plan(&plan, &strs(&["/system/app", "/system/etc/hosts", "/system"]));
    assert_eq!(issues.len(), 1);
    assert_eq!(issues[0].level, DiagnosticLevel::Warning);
    assert_eq!(issues[0].context, "/system/app");
    assert_eq!(issues[0].message, "tmpfs skeleton planned on a path that is not a directory");
}

#[test]
fn nodes_without_a_strategy_are_reported() {
    let m = module("m", MountMode::Auto);
    let mut root = FsNode::new("/", "/".to_string());
    insert_into_tree(&mut root, "system/etc", "/s/etc", FileType::Directory, &m);
    let plan = MountPlan { root };
    let issues = diagnose_plan(&plan, &Vec::new());
    let contexts: Vec<&str> = issues.iter().map(|i| i.context.as_str()).collect();
    assert_eq!(contexts, vec!["/", "/system", "/system/etc"]);
    assert!(issues.iter().all(|i| i.level == DiagnosticLevel::Warning));
    assert!(issues.iter().all(|i| i.message == "node was left without a mount strategy"));
}

#[test]
fn a_sound_plan_has_no_finding() {
    let modules = vec![module("a", MountMode::Auto)];
    let contents = vec![vec![entry("system/app", FileType::Directory)]];
    let plan = generate(&Config::default(), &modules, &contents, &strs(&["/system/app"]));
    assert!(diagnose_plan(&plan, &strs(&["/system/app/file"])).is_empty());
}

#[test]
fn the_default_configuration_switches_nothing_on() {
    let c = Config::default();
    assert!(c.partitions.is_empty());
    assert!(!c.force_ext4);
    assert!(!c.disable_umount);
    assert!(!c.hymofs_debug);
    assert!(!c.hymofs_stealth);
}

#[test]
fn the_built_in_partitions_are_four() {
    assert_eq!(builtin_partitions(), strs(&["system", "vendor", "product", "system_ext"]));
    assert!(contains_name(&builtin_partitions(), "vendor"));
    assert!(!contains_name(&builtin_partitions(), "Vendor"));
    assert!(!contains_name(&Vec::new(), "vendor"));
}
