use meta_hybrid::config::Config;
use meta_hybrid::executor::{
    execute, exclusions_of, mirror_path, placeholders_of, schedule, steps_for, Environment,
    Execution, ExecutionResult, Step, REDIRECT_RULE_TYPE,
};
use meta_hybrid::inventory::{Module, ModuleRules, MountMode};
use meta_hybrid::planner::{generate, MountPlan, SourceEntry};
use meta_hybrid::tree::{FileType, FsNode};

fn strs(v: &[&str]) -> Vec<String> {
    v.iter().map(|s| s.to_string()).collect()
}

fn module(id: &str, default_mode: MountMode) -> Module {
    let mut rules = ModuleRules::new();
    rules.default_mode = default_mode;
    Module { id: id.to_string(), source_path: format!("/data/adb/modules/{}", id), rules }
}

fn entry(module: &str, relative: &str, file_type: FileType) -> SourceEntry {
    SourceEntry {
        relative: relative.to_string(),
        source_path: format!("/mnt/{}/{}", module, relative),
        file_type,
    }
}

fn find<'a>(node: &'a FsNode, path: &str) -> &'a FsNode {
    let mut current = node;
    for name in path.split('/').filter(|c| !c.is_empty()) {
        current = current.children.iter().find(|c| c.name == name).unwrap();
    }
    current
}

/// A short form of a step, for comparisons.
fn show(step: &Step) -> String {
    match step {
        Step::ClearRules => "clear".to_string(),
        Step::SetStealth { enable } => format!("stealth {}", enable),
        Step::SetDebug { enable } => format!("debug {}", enable),
        Step::EnsureMirror { path } => format!("mirror {}", path),
        Step::Overlay { target, lowerdirs, modules, .. } => {
            format!("overlay {} {:?} {:?}", target, lowerdirs, modules)
        }
        Step::Redirect { target, source, mirror, module, enabled } => {
            format!("redirect {} {} {} {:?} {}", target, source, mirror, module, enabled)
        }
        Step::Bind { target, source, module, .. } => {
            format!("bind {} {} {:?}", target, source, module)
        }
        Step::Skeleton { target, exclusions, module, span, .. } => {
            format!("skeleton {} {:?} {:?} {}", target, exclusions, module, span)
        }
        Step::Private { target } => format!("private {}", target),
    }
}

fn shown(steps: &[Step]) -> Vec<String> {
    steps.iter().map(show).collect()
}

/// Carries out a plan with an oracle that says at which paths a step fails.
fn run_all(mut run: Execution, fails: &[&str]) -> (Vec<String>, ExecutionResult) {
    let mut taken = Vec::new();
    loop {
        let ok = match run.current() {
            None => break,
            Some(step) => {
                taken.push(show(step));
                match step {
                    Step::Skeleton { target, .. }
                    | Step::Overlay { target, .. }
                    | Step::Bind { target, .. } => !fails.contains(&target.as_str()),
                    Step::Redirect { target, enabled, .. } => {
                        *enabled && !fails.contains(&target.as_str())
                    }
                    _ => true,
                }
            }
        };
        run.advance(ok);
    }
    assert!(run.is_done());
    (taken, run.result())
}

fn env(available: bool) -> Environment {
    Environment {
        redirector_available: available,
        mirror_dir: "/run/mirror".to_string(),
        disable_umount: false,
    }
}

fn mixed_plan() -> MountPlan {
    let mut b = module("b", MountMode::Magic);
    b.rules.set_rule("system/bin", MountMode::HymoFs);
    let modules = vec![module("a", MountMode::Auto), b, module("c", MountMode::Auto)];
    let contents = vec![
        vec![
            entry("a", "system/lib", FileType::Directory),
            entry("a", "system/lib/liba.so", FileType::File),
            entry("a", "vendor/etc", FileType::Directory),
        ],
        vec![
            entry("b", "system/app", FileType::Directory),
            entry("b", "system/app/New", FileType::Directory),
            entry("b", "system/app/New/New.apk", FileType::File),
            entry("b", "system/app/old.txt", FileType::File),
            entry("b", "system/bin/su", FileType::File),
        ],
        vec![
            entry("c", "system/lib", FileType::Directory),
            entry("c", "vendor/etc", FileType::Directory),
        ],
    ];
    let dirs = strs(&["/system", "/system/lib", "/system/app", "/vendor", "/vendor/etc"]);
    generate(&Config::default(), &modules, &contents, &dirs)
}

#[test]
fn the_copy_of_a_redirected_file_lies_below_the_mirror() {
    assert_eq!(mirror_path("/run/mirror", "/system/bin/su"), "/run/mirror/system/bin/su");
    assert_eq!(mirror_path("/run/mirror/", "//system/bin/su"), "/run/mirror/system/bin/su");
    assert_eq!(mirror_path("/run/mirror", "/"), "/run/mirror/");
}

#[test]
fn redirect_on_a_file_is_carried_out() {
    let modules = vec![module("c", MountMode::HymoFs)];
    let contents = vec![vec![
        entry("c", "system/bin", FileType::Directory),
        entry("c", "system/bin/su", FileType::File),
    ]];
    let plan = generate(&Config::default(), &modules, &contents, &strs(&["/system", "/system/bin"]));
    let mut config = Config::default();
    config.hymofs_stealth = true;
    let run = execute(&plan, &config, true, "/run/mirror");
    let (taken, result) = run_all(run, &[]);
    assert_eq!(
        taken,
        vec![
            "clear",
            "stealth true",
            "debug false",
            "mirror /run/mirror",
            "redirect /system/bin/su /mnt/c/system/bin/su /run/mirror/system/bin/su Some(\"c\") true",
        ]
    );
    assert_eq!(result.hymo_module_ids, strs(&["c"]));
    assert!(result.overlay_module_ids.is_empty());
    assert!(result.magic_module_ids.is_empty());
    assert_eq!(REDIRECT_RULE_TYPE, 0);
}

#[test]
fn without_the_redirector_redirections_are_neither_made_nor_recorded() {
    let modules = vec![module("c", MountMode::HymoFs)];
    let contents = vec![vec![entry("c", "system/bin/su", FileType::File)]];
    let plan = generate(&Config::default(), &modules, &contents, &Vec::new());
    let (taken, result) = run_all(execute(&plan, &Config::default(), false, "/run/mirror"), &[]);
    assert_eq!(
        taken,
        vec![
            "skeleton /system/bin [\"su\"] None 1",
            "redirect /system/bin/su /mnt/c/system/bin/su /run/mirror/system/bin/su Some(\"c\") false",
            "private /system/bin",
        ]
    );
    // Nothing was redirected, so no module is on record for it.
    assert!(result.hymo_module_ids.is_empty());
    assert!(result.overlay_module_ids.is_empty());
    assert!(result.magic_module_ids.is_empty());

    // Saying that the step went well does not put the module on record.
    let mut run = execute(&plan, &Config::default(), false, "/run/mirror");
    while run.current().is_some() {
        run.advance(true);
    }
    assert!(run.result().hymo_module_ids.is_empty());
}

#[test]
fn a_union_mount_covers_what_lies_below_it() {
    let plan = mixed_plan();
    let steps = steps_for(find(&plan.root, "/system/lib"), &env(true));
    assert_eq!(
        shown(&steps),
        vec!["overlay /system/lib [\"/mnt/a/system/lib\", \"/mnt/c/system/lib\"] [\"a\", \"c\"]"]
    );
}

#[test]
fn a_skeleton_comes_before_its_children_and_is_closed_after_them() {
    let plan = mixed_plan();
    let app = find(&plan.root, "/system/app");
    assert_eq!(exclusions_of(app), strs(&["New", "old.txt"]));
    let steps = steps_for(app, &env(true));
    assert_eq!(
        shown(&steps),
        vec![
            "skeleton /system/app [\"New\", \"old.txt\"] Some(\"b\") 4",
            "skeleton /system/app/New [\"New.apk\"] Some(\"b\") 1",
            "bind /system/app/New/New.apk /mnt/b/system/app/New/New.apk Some(\"b\")",
            "private /system/app/New",
            "bind /system/app/old.txt /mnt/b/system/app/old.txt Some(\"b\")",
            "private /system/app",
        ]
    );
}

#[test]
fn exclusions_are_the_children_that_do_not_pass_through() {
    let plan = mixed_plan();
    for path in ["/", "/system", "/system/app", "/system/bin", "/system/app/New", "/vendor"] {
        let node = find(&plan.root, path);
        let expected: Vec<String> = node
            .children
            .iter()
            .filter(|c| !matches!(c.strategy, meta_hybrid::tree::MountStrategy::Passthrough))
            .map(|c| c.name.clone())
            .collect();
        assert_eq!(exclusions_of(node), expected, "{}", path);
    }
    assert_eq!(exclusions_of(find(&plan.root, "/system")), strs(&["lib", "app", "bin"]));
}

#[test]
fn the_whole_plan_is_carried_out_in_order() {
    let plan = mixed_plan();
    let (taken, result) = run_all(execute(&plan, &Config::default(), true, "/run/mirror"), &[]);
    assert_eq!(
        taken,
        vec![
            "clear",
            "stealth false",
            "debug false",
            "mirror /run/mirror",
            "overlay /system/lib [\"/mnt/a/system/lib\", \"/mnt/c/system/lib\"] [\"a\", \"c\"]",
            "skeleton /system/app [\"New\", \"old.txt\"] Some(\"b\") 4",
            "skeleton /system/app/New [\"New.apk\"] Some(\"b\") 1",
            "bind /system/app/New/New.apk /mnt/b/system/app/New/New.apk Some(\"b\")",
            "private /system/app/New",
            "bind /system/app/old.txt /mnt/b/system/app/old.txt Some(\"b\")",
            "private /system/app",
            "skeleton /system/bin [\"su\"] None 1",
            "redirect /system/bin/su /mnt/b/system/bin/su /run/mirror/system/bin/su Some(\"b\") true",
            "private /system/bin",
            "overlay /vendor/etc [\"/mnt/a/vendor/etc\", \"/mnt/c/vendor/etc\"] [\"a\", \"c\"]",
        ]
    );
    assert_eq!(shown(&schedule(&plan, &Config::default(), true, "/run/mirror")), taken);
    assert_eq!(result.overlay_module_ids, strs(&["a", "c"]));
    assert_eq!(result.hymo_module_ids, strs(&["b"]));
    assert_eq!(result.magic_module_ids, strs(&["b"]));
}

#[test]
fn a_failed_skeleton_leaves_out_what_lies_below_it() {
    let plan = mixed_plan();
    let (taken, result) =
        run_all(execute(&plan, &Config::default(), true, "/run/mirror"), &["/system/app"]);
    assert_eq!(
        taken,
        vec![
            "clear",
            "stealth false",
            "debug false",
            "mirror /run/mirror",
            "overlay /system/lib [\"/mnt/a/system/lib\", \"/mnt/c/system/lib\"] [\"a\", \"c\"]",
            "skeleton /system/app [\"New\", \"old.txt\"] Some(\"b\") 4",
            "skeleton /system/bin [\"su\"] None 1",
            "redirect /system/bin/su /mnt/b/system/bin/su /run/mirror/system/bin/su Some(\"b\") true",
            "private /system/bin",
            "overlay /vendor/etc [\"/mnt/a/vendor/etc\", \"/mnt/c/vendor/etc\"] [\"a\", \"c\"]",
        ]
    );
    // The skeleton was not made, so its module is not on record for it.
    assert!(result.magic_module_ids.is_empty());
    assert_eq!(result.hymo_module_ids, strs(&["b"]));
    assert_eq!(result.overlay_module_ids, strs(&["a", "c"]));

    let (taken, result) = run_all(
        execute(&plan, &Config::default(), true, "/run/mirror"),
        &["/system/app/New", "/system/bin"],
    );
    assert_eq!(
        &taken[5..],
        &[
            "skeleton /system/app [\"New\", \"old.txt\"] Some(\"b\") 4",
            "skeleton /system/app/New [\"New.apk\"] Some(\"b\") 1",
            "bind /system/app/old.txt /mnt/b/system/app/old.txt Some(\"b\")",
            "private /system/app",
            "skeleton /system/bin [\"su\"] None 1",
            "overlay /vendor/etc [\"/mnt/a/vendor/etc\", \"/mnt/c/vendor/etc\"] [\"a\", \"c\"]",
        ]
    );
    // The redirection was never reached, so its module is not on record.
    assert!(result.hymo_module_ids.is_empty());
    // The skeleton of /system/app and the bind mount below it were made.
    assert_eq!(result.magic_module_ids, strs(&["b"]));
}

#[test]
fn a_failed_mount_is_not_recorded() {
    let plan = mixed_plan();
    let (taken, result) = run_all(
        execute(&plan, &Config::default(), true, "/run/mirror"),
        &["/system/lib", "/system/bin/su", "/system/app/old.txt", "/system/app/New/New.apk"],
    );
    // Every step is taken all the same.
    assert_eq!(taken.len(), 15);
    assert_eq!(result.overlay_module_ids, strs(&["a", "c"]));
    assert!(result.hymo_module_ids.is_empty());
    assert_eq!(result.magic_module_ids, strs(&["b"]));
    let (_, result) = run_all(
        execute(&plan, &Config::default(), true, "/run/mirror"),
        &["/system/lib", "/vendor/etc"],
    );
    assert!(result.overlay_module_ids.is_empty());
}

#[test]
fn the_record_is_sorted_and_free_of_duplicates() {
    let modules = vec![
        module("zeta", MountMode::Auto),
        module("alpha", MountMode::Auto),
        module("mid", MountMode::Auto),
        module("alpha2", MountMode::Magic),
    ];
    let contents = vec![
        vec![entry("zeta", "system/a", FileType::Directory), entry("zeta", "system/b", FileType::Directory)],
        vec![entry("alpha", "system/a", FileType::Directory), entry("alpha", "system/b", FileType::Directory)],
        vec![entry("mid", "system/b", FileType::Directory)],
        vec![entry("alpha2", "vendor/f", FileType::File), entry("alpha2", "vendor/g", FileType::File)],
    ];
    let dirs = strs(&["/system/a", "/system/b"]);
    let plan = generate(&Config::default(), &modules, &contents, &dirs);
    let (_, first) = run_all(execute(&plan, &Config::default(), false, "/run/mirror"), &[]);
    assert_eq!(first.overlay_module_ids, strs(&["alpha", "mid", "zeta"]));
    assert_eq!(first.magic_module_ids, strs(&["alpha2"]));
    assert!(first.hymo_module_ids.is_empty());
    // A second run on the same inputs gives the same record.
    let (_, second) = run_all(execute(&plan, &Config::default(), false, "/run/mirror"), &[]);
    assert_eq!(first.overlay_module_ids, second.overlay_module_ids);
    assert_eq!(first.hymo_module_ids, second.hymo_module_ids);
    assert_eq!(first.magic_module_ids, second.magic_module_ids);
}

#[test]
fn a_run_hands_out_each_step_until_told_to_move_on() {
    let plan = mixed_plan();
    let mut run = execute(&plan, &Config::default(), false, "/run/mirror");
    assert!(!run.is_done());
    let first = show(run.current().unwrap());
    assert_eq!(show(run.current().unwrap()), first);
    assert!(run.result().overlay_module_ids.is_empty());
    run.advance(false);
    // A failed union mount is not recorded and the run goes on behind it.
    assert!(run.result().overlay_module_ids.is_empty());
    assert_ne!(show(run.current().unwrap()), first);
    let mut again = execute(&plan, &Config::default(), false, "/run/mirror");
    again.advance(true);
    assert_eq!(again.result().overlay_module_ids, strs(&["a", "c"]));
}

#[test]
fn an_empty_plan_asks_for_nothing_but_the_prelude() {
    let plan = generate(&Config::default(), &Vec::new(), &Vec::new(), &Vec::new());
    let mut run = execute(&plan, &Config::default(), false, "/run/mirror");
    assert!(run.is_done());
    assert!(run.current().is_none());
    run.advance(true);
    assert!(run.is_done());
    let mut config = Config::default();
    config.hymofs_debug = true;
    let (taken, _) = run_all(execute(&plan, &config, true, "/m"), &[]);
    assert_eq!(taken, vec!["clear", "stealth false", "debug true", "mirror /m"]);
}

#[test]
fn nodes_without_a_strategy_are_walked_through() {
    let a = module("a", MountMode::Magic);
    let mut root = FsNode::new("/", "/".to_string());
    meta_hybrid::planner::insert_into_tree(&mut root, "system/f", "/s/f", FileType::File, &a);
    // Nothing was decided: every node is walked through and nothing is done.
    assert!(steps_for(&root, &env(true)).is_empty());
}

#[test]
fn mounts_are_tagged_as_the_configuration_says() {
    let plan = mixed_plan();
    for disable in [false, true] {
        let mut config = Config::default();
        config.disable_umount = disable;
        let steps = schedule(&plan, &config, true, "/run/mirror");
        let mut mounts = 0;
        for step in &steps {
            match step {
                Step::Overlay { disable_umount, .. }
                | Step::Bind { disable_umount, .. }
                | Step::Skeleton { disable_umount, .. } => {
                    mounts += 1;
                    assert_eq!(*disable_umount, disable);
                }
                _ => {}
            }
        }
        assert_eq!(mounts, 7);
    }
}

#[test]
fn two_hundred_modules_are_planned_as_one_union_mount() {
    let modules: Vec<Module> =
        (0..200).map(|i| module(&format!("module_{:04}", i), MountMode::Auto)).collect();
    let contents: Vec<Vec<SourceEntry>> = (0..200)
        .map(|i| {
            vec![SourceEntry {
                relative: "system/lib".to_string(),
                source_path: format!("/data/adb/modules/module_{:04}/system/lib", i),
                file_type: FileType::Directory,
            }]
        })
        .collect();
    let plan = generate(&Config::default(), &modules, &contents, &strs(&["/system", "/system/lib"]));
    // The planner does not care how long the layer argument gets.
    let steps = schedule(&plan, &Config::default(), false, "/run/mirror");
    assert_eq!(steps.len(), 1);
    let (target, lowerdirs) = match &steps[0] {
        Step::Overlay { target, lowerdirs, modules, .. } => {
            assert_eq!(modules.len(), 200);
            (target.clone(), lowerdirs.clone())
        }
        other => panic!("{:?}", other),
    };
    assert_eq!(target, "/system/lib");
    assert_eq!(lowerdirs.len(), 200);
    assert_eq!(lowerdirs[0], "/data/adb/modules/module_0000/system/lib");
    assert_eq!(lowerdirs[199], "/data/adb/modules/module_0199/system/lib");
    // The mount is then made in stages.
    let mount = meta_hybrid::overlay::mount_overlay(&target, &lowerdirs, None, None, false, 5, "/run/staging");
    match mount {
        Ok(meta_hybrid::overlay::OverlayPlan::Staged(run)) => assert!(!run.is_complete()),
        other => panic!("{:?}", other),
    }
    let (_, result) = run_all(execute(&plan, &Config::default(), false, "/run/mirror"), &[]);
    assert_eq!(result.overlay_module_ids.len(), 200);
    assert_eq!(result.overlay_module_ids[0], "module_0000");
    assert_eq!(result.overlay_module_ids[199], "module_0199");
}

#[test]
fn a_skeleton_knows_what_its_children_are_mounted_as() {
    let plan = mixed_plan();
    let kinds = |path: &str| -> Vec<(String, bool)> {
        placeholders_of(find(&plan.root, path)).iter().map(|p| (p.name.clone(), p.directory)).collect()
    };
    // A skeleton and a union mount stand on directories, a bind mount and a
    // redirection on files.
    assert_eq!(kinds("/system/app"), vec![("New".to_string(), true), ("old.txt".to_string(), false)]);
    assert_eq!(kinds("/system/bin"), vec![("su".to_string(), false)]);
    assert_eq!(
        kinds("/system"),
        vec![("lib".to_string(), true), ("app".to_string(), true), ("bin".to_string(), true)]
    );
    assert_eq!(kinds("/system/app/New"), vec![("New.apk".to_string(), false)]);
    assert!(kinds("/system/lib").is_empty());
    // The step carries them, for the names that it leaves out.
    let steps = steps_for(find(&plan.root, "/system/app"), &env(true));
    match &steps[0] {
        Step::Skeleton { exclusions, placeholders, .. } => {
            let names: Vec<String> = placeholders.iter().map(|p| p.name.clone()).collect();
            assert_eq!(&names, exclusions);
            assert!(placeholders[0].directory);
            assert!(!placeholders[1].directory);
        }
        other => panic!("{:?}", other),
    }
}

#[test]
fn a_new_child_of_a_skeleton_gets_a_placeholder_directory() {
    // /system/app holds Camera but no NewApp.
    let modules = vec![module("m", MountMode::Magic)];
    let contents = vec![vec![
        entry("m", "system/app", FileType::Directory),
        entry("m", "system/app/NewApp", FileType::Directory),
    ]];
    let plan = generate(&Config::default(), &modules, &contents, &strs(&["/system", "/system/app"]));
    let steps = schedule(&plan, &Config::default(), false, "/run/mirror");
    let (target, exclusions, placeholders) = match &steps[0] {
        Step::Skeleton { target, exclusions, placeholders, .. } => {
            (target.clone(), exclusions.clone(), placeholders.clone())
        }
        other => panic!("{:?}", other),
    };
    assert_eq!(target, "/system/app");
    assert_eq!(exclusions, strs(&["NewApp"]));
    let held = vec![meta_hybrid::magic::MirrorEntry {
        name: "Camera".to_string(),
        kind: meta_hybrid::magic::EntryKind::Directory,
    }];
    let restored = meta_hybrid::magic::populate_skeleton(&target, &exclusions, &held, "/run");
    assert!(matches!(&restored[0], meta_hybrid::magic::SkeletonOp::RestoreDir { to, .. } if to == "/system/app/Camera"));
    let made = meta_hybrid::magic::missing_placeholders(&target, &placeholders, &held);
    assert_eq!(made.len(), 1);
    assert!(matches!(&made[0], meta_hybrid::magic::SkeletonOp::NewDir { to } if to == "/system/app/NewApp"));
    // The child's own step comes behind the skeleton of its parent.
    assert!(matches!(&steps[1], Step::Skeleton { target, .. } if target == "/system/app/NewApp"));
}
