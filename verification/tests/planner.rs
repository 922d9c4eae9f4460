use meta_hybrid::config::Config;
use meta_hybrid::inventory::{Module, ModuleRules, MountMode};
use meta_hybrid::planner::{
    content_root, decide, generate, get_target_partitions, has_system_dir, in_target_partition,
    insert_into_tree, node_paths, preferred_content_root, resolve_tree, MountPlan, SourceEntry,
};
use meta_hybrid::visuals::sorted_child_order;
use meta_hybrid::tree::{FileType, FsNode, MountStrategy};

fn strs(v: &[&str]) -> Vec<String> {
    v.iter().map(|s| s.to_string()).collect()
}

fn module(id: &str, default_mode: MountMode) -> Module {
    let mut rules = ModuleRules::new();
    rules.default_mode = default_mode;
    Module { id: id.to_string(), source_path: format!("/data/adb/modules/{}", id), rules }
}

fn entry(module: &str, relative: &str, file_type: FileType) -> SourceEntry {
    SourceEntry {
        relative: relative.to_string(),
        source_path: format!("/mnt/{}/{}", module, relative),
        file_type,
    }
}

fn find<'a>(node: &'a FsNode, path: &str) -> &'a FsNode {
    let mut current = node;
    for name in path.split('/').filter(|c| !c.is_empty()) {
        current = current
            .children
            .iter()
            .find(|c| c.name == name)
            .unwrap_or_else(|| panic!("no node {} on the way to {}", name, path));
    }
    current
}

fn all_nodes<'a>(node: &'a FsNode, out: &mut Vec<&'a FsNode>) {
    out.push(node);
    for c in &node.children {
        all_nodes(c, out);
    }
}

fn lowerdirs(node: &FsNode) -> Vec<String> {
    match &node.strategy {
        MountStrategy::Overlay { lowerdirs } => lowerdirs.clone(),
        other => panic!("{} is {:?}", node.path, other),
    }
}

#[test]
fn target_partitions_are_the_known_ones_that_are_present() {
    let mut config = Config::default();
    config.partitions = strs(&["odm", "system", "my_part", "odm", "absent"]);
    let present = strs(&["my_part", "vendor", "junk", "system", "odm"]);
    assert_eq!(
        get_target_partitions(&config, &present),
        strs(&["system", "vendor", "odm", "my_part"])
    );
    assert_eq!(get_target_partitions(&config, &Vec::new()), Vec::<String>::new());
    assert_eq!(
        get_target_partitions(&Config::default(), &strs(&["system_ext", "product", "odm"])),
        strs(&["product", "system_ext"])
    );
}

#[test]
fn a_system_directory_is_one_that_is_listed() {
    let dirs = strs(&["/system", "/system/etc"]);
    assert!(has_system_dir("/system/etc", &dirs));
    assert!(!has_system_dir("/system/etc/hosts", &dirs));
    assert!(!has_system_dir("/system/", &dirs));
}

#[test]
fn the_content_root_is_the_first_that_exists() {
    let plain = module("a", MountMode::Auto);
    let redirected = module("c", MountMode::HymoFs);
    assert_eq!(preferred_content_root(&plain, "/run/mirror", "/mnt/store"), "/mnt/store/a");
    assert_eq!(preferred_content_root(&redirected, "/run/mirror", "/mnt/store"), "/run/mirror/c");
    assert_eq!(
        content_root(&plain, "/run/mirror", "/mnt/store", true, true),
        Some("/mnt/store/a".to_string())
    );
    assert_eq!(
        content_root(&redirected, "/run/mirror", "/mnt/store", true, false),
        Some("/run/mirror/c".to_string())
    );
    assert_eq!(
        content_root(&plain, "/run/mirror", "/mnt/store", false, true),
        Some("/data/adb/modules/a".to_string())
    );
    assert_eq!(content_root(&plain, "/run/mirror", "/mnt/store", false, false), None);
}

#[test]
fn inserting_makes_the_nodes_on_the_way() {
    let a = module("a", MountMode::Magic);
    let mut root = FsNode::new("/", "/".to_string());
    insert_into_tree(&mut root, "system/etc/hosts", "/mnt/a/system/etc/hosts", FileType::File, &a);
    let system = find(&root, "/system");
    assert_eq!(system.path, "/system");
    assert!(system.mutations.is_empty());
    let etc = find(&root, "/system/etc");
    assert_eq!(etc.path, "/system/etc");
    assert!(etc.mutations.is_empty());
    let hosts = find(&root, "/system/etc/hosts");
    assert_eq!(hosts.path, "/system/etc/hosts");
    assert_eq!(hosts.name, "hosts");
    assert_eq!(hosts.mutations.len(), 1);
    assert_eq!(hosts.mutations[0].module_id, "a");
    assert_eq!(hosts.mutations[0].source_path, "/mnt/a/system/etc/hosts");
    assert_eq!(hosts.mutations[0].file_type, FileType::File);
    assert_eq!(hosts.mutations[0].mode, MountMode::Magic);
    assert!(matches!(hosts.strategy, MountStrategy::Unresolved));
}

#[test]
fn inserting_nothing_changes_nothing() {
    let a = module("a", MountMode::Auto);
    let mut root = FsNode::new("/", "/".to_string());
    insert_into_tree(&mut root, "", "/mnt/a", FileType::Directory, &a);
    insert_into_tree(&mut root, "/", "/mnt/a", FileType::Directory, &a);
    assert!(root.children.is_empty());
    assert!(root.mutations.is_empty());
}

#[test]
fn the_mode_of_a_contribution_comes_from_the_rules() {
    let mut a = module("a", MountMode::Auto);
    a.rules.set_rule("system/bin", MountMode::HymoFs);
    let mut root = FsNode::new("/", "/".to_string());
    insert_into_tree(&mut root, "system/bin/su", "/s/su", FileType::File, &a);
    insert_into_tree(&mut root, "system/lib", "/s/lib", FileType::Directory, &a);
    assert_eq!(find(&root, "/system/bin/su").mutations[0].mode, MountMode::HymoFs);
    assert_eq!(find(&root, "/system/lib").mutations[0].mode, MountMode::Overlay);
}

#[test]
fn single_module_one_regular_file_override() {
    let modules = vec![module("a", MountMode::Auto)];
    let contents = vec![vec![
        entry("a", "system/etc", FileType::Directory),
        entry("a", "system/etc/hosts", FileType::File),
    ]];
    let dirs = strs(&["/", "/system", "/system/etc"]);
    let plan = generate(&Config::default(), &modules, &contents, &dirs);

    assert!(matches!(plan.root.strategy, MountStrategy::Passthrough));
    assert!(matches!(find(&plan.root, "/system").strategy, MountStrategy::Passthrough));
    // The file asks for a union mount, which only directories can have: it
    // passes through, and the directory above it carries the module's copy.
    assert!(matches!(find(&plan.root, "/system/etc/hosts").strategy, MountStrategy::Passthrough));
    assert_eq!(lowerdirs(find(&plan.root, "/system/etc")), strs(&["/mnt/a/system/etc"]));

    // Where the device has no such directory nothing is left to mount.
    let bare = generate(&Config::default(), &modules, &contents, &strs(&["/", "/system"]));
    assert!(matches!(find(&bare.root, "/system/etc").strategy, MountStrategy::Passthrough));
    assert!(matches!(find(&bare.root, "/system/etc/hosts").strategy, MountStrategy::Passthrough));

    // With a skeleton asked for, the directory becomes a tmpfs and the file a
    // bind mount of the module's copy.
    let magic = vec![module("a", MountMode::Magic)];
    let plan = generate(&Config::default(), &magic, &contents, &dirs);
    assert!(matches!(find(&plan.root, "/system").strategy, MountStrategy::Passthrough));
    assert!(matches!(find(&plan.root, "/system/etc").strategy, MountStrategy::Magic));
    match &find(&plan.root, "/system/etc/hosts").strategy {
        MountStrategy::Bind { source } => assert_eq!(source, "/mnt/a/system/etc/hosts"),
        other => panic!("{:?}", other),
    }
}

#[test]
fn a_file_alone_makes_its_directory_a_skeleton() {
    // Only the file is contributed and asks for a skeleton: the directory has
    // no contribution of its own and falls back to a skeleton for its child.
    let modules = vec![module("a", MountMode::Magic)];
    let contents = vec![vec![entry("a", "system/etc/hosts", FileType::File)]];
    let plan = generate(&Config::default(), &modules, &contents, &strs(&["/system", "/system/etc"]));
    assert!(matches!(find(&plan.root, "/system/etc").strategy, MountStrategy::Magic));
    assert!(matches!(find(&plan.root, "/system/etc/hosts").strategy, MountStrategy::Bind { .. }));
    assert!(matches!(find(&plan.root, "/system").strategy, MountStrategy::Passthrough));
}

#[test]
fn two_modules_same_directory() {
    let modules = vec![module("a", MountMode::Auto), module("b", MountMode::Auto)];
    let contents = vec![
        vec![entry("a", "system/app", FileType::Directory), entry("a", "system/app/X", FileType::Directory)],
        vec![entry("b", "system/app", FileType::Directory), entry("b", "system/app/X", FileType::Directory)],
    ];
    let dirs = strs(&["/system", "/system/app", "/system/app/X"]);
    let plan = generate(&Config::default(), &modules, &contents, &dirs);
    // The layers stand in the order in which the modules were read, the first
    // on top.
    assert_eq!(
        lowerdirs(find(&plan.root, "/system/app/X")),
        strs(&["/mnt/a/system/app/X", "/mnt/b/system/app/X"])
    );
    assert_eq!(
        lowerdirs(find(&plan.root, "/system/app")),
        strs(&["/mnt/a/system/app", "/mnt/b/system/app"])
    );
    let x = find(&plan.root, "/system/app/X");
    assert_eq!(x.mutations.len(), 2);
    assert_eq!(x.mutations[0].module_id, "a");
    assert_eq!(x.mutations[1].module_id, "b");

    let swapped = vec![module("b", MountMode::Auto), module("a", MountMode::Auto)];
    let swapped_contents = vec![contents[1].clone(), contents[0].clone()];
    let plan = generate(&Config::default(), &swapped, &swapped_contents, &dirs);
    assert_eq!(
        lowerdirs(find(&plan.root, "/system/app/X")),
        strs(&["/mnt/b/system/app/X", "/mnt/a/system/app/X"])
    );
}

#[test]
fn redirect_on_a_file() {
    let modules = vec![module("c", MountMode::HymoFs)];
    let contents = vec![vec![
        entry("c", "system/bin", FileType::Directory),
        entry("c", "system/bin/su", FileType::File),
    ]];
    let plan = generate(&Config::default(), &modules, &contents, &strs(&["/system", "/system/bin"]));
    match &find(&plan.root, "/system/bin/su").strategy {
        MountStrategy::Hymo { source } => assert_eq!(source, "/mnt/c/system/bin/su"),
        other => panic!("{:?}", other),
    }
    assert!(matches!(find(&plan.root, "/system/bin").strategy, MountStrategy::Passthrough));
}

#[test]
fn redirect_on_a_directory() {
    let modules = vec![module("c", MountMode::HymoFs)];
    let contents = vec![vec![
        entry("c", "system/etc", FileType::Directory),
        entry("c", "system/etc/hosts", FileType::File),
        entry("c", "system/etc/link", FileType::Symlink),
        entry("c", "system/etc/init", FileType::Directory),
        entry("c", "system/etc/init/x.rc", FileType::File),
    ]];
    let plan = generate(&Config::default(), &modules, &contents, &strs(&["/system", "/system/etc"]));
    assert!(matches!(find(&plan.root, "/system/etc").strategy, MountStrategy::Passthrough));
    assert!(matches!(find(&plan.root, "/system/etc/init").strategy, MountStrategy::Passthrough));
    assert!(matches!(find(&plan.root, "/system/etc/hosts").strategy, MountStrategy::Hymo { .. }));
    assert!(matches!(find(&plan.root, "/system/etc/link").strategy, MountStrategy::Hymo { .. }));
    assert!(matches!(find(&plan.root, "/system/etc/init/x.rc").strategy, MountStrategy::Hymo { .. }));
}

#[test]
fn tmpfs_skeleton_with_exclusion() {
    let modules = vec![module("m", MountMode::Magic)];
    let contents = vec![vec![
        entry("m", "system/app", FileType::Directory),
        entry("m", "system/app/NewApp", FileType::Directory),
        entry("m", "system/app/NewApp/NewApp.apk", FileType::File),
    ]];
    let plan = generate(&Config::default(), &modules, &contents, &strs(&["/system", "/system/app"]));
    assert!(matches!(find(&plan.root, "/system").strategy, MountStrategy::Passthrough));
    assert!(matches!(find(&plan.root, "/system/app").strategy, MountStrategy::Magic));
    assert!(matches!(find(&plan.root, "/system/app/NewApp").strategy, MountStrategy::Magic));
    match &find(&plan.root, "/system/app/NewApp/NewApp.apk").strategy {
        MountStrategy::Bind { source } => assert_eq!(source, "/mnt/m/system/app/NewApp/NewApp.apk"),
        other => panic!("{:?}", other),
    }
    let app = find(&plan.root, "/system/app");
    assert_eq!(meta_hybrid::executor::exclusions_of(app), strs(&["NewApp"]));
}

#[test]
fn union_mounts_can_be_ruled_out() {
    let modules = vec![module("a", MountMode::Auto)];
    let contents = vec![vec![
        entry("a", "system/app", FileType::Directory),
        entry("a", "system/app/X", FileType::Directory),
    ]];
    let mut config = Config::default();
    config.force_ext4 = true;
    let plan = generate(&config, &modules, &contents, &strs(&["/system", "/system/app", "/system/app/X"]));
    assert!(matches!(find(&plan.root, "/system/app").strategy, MountStrategy::Passthrough));
    assert!(matches!(find(&plan.root, "/system/app/X").strategy, MountStrategy::Passthrough));
}

#[test]
fn a_directory_that_the_device_lacks_is_not_overlaid() {
    let modules = vec![module("a", MountMode::Auto), module("m", MountMode::Magic)];
    let contents = vec![
        vec![entry("a", "system/new", FileType::Directory)],
        vec![entry("m", "system/new/file", FileType::File)],
    ];
    let plan = generate(&Config::default(), &modules, &contents, &strs(&["/system"]));
    // No union mount without a directory below it; the child has work to
    // do, so the directory becomes a skeleton.
    assert!(matches!(find(&plan.root, "/system/new").strategy, MountStrategy::Magic));
    assert!(matches!(find(&plan.root, "/system/new/file").strategy, MountStrategy::Bind { .. }));
}

#[test]
fn mixed_contributions_are_no_union_mount() {
    let modules = vec![module("a", MountMode::Auto), module("b", MountMode::Auto)];
    let contents = vec![
        vec![entry("a", "system/x", FileType::Directory)],
        vec![entry("b", "system/x", FileType::File)],
    ];
    let plan = generate(&Config::default(), &modules, &contents, &strs(&["/system", "/system/x"]));
    assert!(matches!(find(&plan.root, "/system/x").strategy, MountStrategy::Passthrough));
}

#[test]
fn the_first_contribution_decides() {
    let modules = vec![module("a", MountMode::HymoFs), module("b", MountMode::Magic)];
    let contents = vec![
        vec![entry("a", "system/bin/tool", FileType::File)],
        vec![entry("b", "system/bin/tool", FileType::File)],
    ];
    let plan = generate(&Config::default(), &modules, &contents, &strs(&["/system", "/system/bin"]));
    match &find(&plan.root, "/system/bin/tool").strategy {
        MountStrategy::Hymo { source } => assert_eq!(source, "/mnt/a/system/bin/tool"),
        other => panic!("{:?}", other),
    }
    // The child has work to do and the directory none of its own.
    assert!(matches!(find(&plan.root, "/system/bin").strategy, MountStrategy::Magic));
}

#[test]
fn partition_roots_pass_through() {
    let mut config = Config::default();
    config.partitions = strs(&["my_part"]);
    let modules = vec![module("m", MountMode::Magic)];
    let contents = vec![vec![
        entry("m", "system/f", FileType::File),
        entry("m", "my_part/f", FileType::File),
        entry("m", "system/system", FileType::Directory),
    ]];
    let plan = generate(&config, &modules, &contents, &Vec::new());
    assert!(matches!(plan.root.strategy, MountStrategy::Passthrough));
    assert!(matches!(find(&plan.root, "/system").strategy, MountStrategy::Passthrough));
    assert!(matches!(find(&plan.root, "/my_part").strategy, MountStrategy::Passthrough));
    // A partition name deeper in the tree is an ordinary node.
    assert!(matches!(find(&plan.root, "/system/system").strategy, MountStrategy::Magic));
    assert!(matches!(find(&plan.root, "/system/f").strategy, MountStrategy::Bind { .. }));
    assert!(matches!(find(&plan.root, "/my_part/f").strategy, MountStrategy::Bind { .. }));
}

#[test]
fn files_outside_the_target_partitions_are_passed_over() {
    let mut config = Config::default();
    config.partitions = strs(&["my_part"]);
    let modules = vec![module("m", MountMode::Magic)];
    let contents = vec![vec![
        entry("m", "other", FileType::Directory),
        entry("m", "other/f", FileType::File),
        entry("m", "module.prop", FileType::File),
        entry("m", "system", FileType::Directory),
        entry("m", "System/f", FileType::File),
        entry("m", "vendor/lib/x.so", FileType::File),
        entry("m", "/my_part//etc/", FileType::Directory),
    ]];
    let plan = generate(&config, &modules, &contents, &Vec::new());
    let names: Vec<&str> = plan.root.children.iter().map(|c| c.name.as_str()).collect();
    assert_eq!(names, vec!["vendor", "my_part"]);
    assert_eq!(plan.paths(), strs(&["/", "/vendor", "/vendor/lib", "/vendor/lib/x.so", "/my_part", "/my_part/etc"]));
    // Without the configured partition its files are passed over too.
    let plan = generate(&Config::default(), &modules, &contents, &Vec::new());
    assert_eq!(plan.paths(), strs(&["/", "/vendor", "/vendor/lib", "/vendor/lib/x.so"]));
    assert!(in_target_partition(&config, "my_part/etc"));
    assert!(!in_target_partition(&Config::default(), "my_part/etc"));
    assert!(in_target_partition(&config, "system_ext/a"));
    assert!(!in_target_partition(&config, "system"));
    assert!(!in_target_partition(&config, "system/"));
    assert!(!in_target_partition(&config, ""));
    assert!(!in_target_partition(&config, "data/system/x"));
}

#[test]
fn an_empty_plan_is_a_root_that_passes_through() {
    let plan = generate(&Config::default(), &Vec::new(), &Vec::new(), &Vec::new());
    assert_eq!(plan.root.name, "/");
    assert_eq!(plan.root.path, "/");
    assert!(plan.root.children.is_empty());
    assert!(matches!(plan.root.strategy, MountStrategy::Passthrough));
}

#[test]
fn modules_without_content_contribute_nothing() {
    let modules = vec![module("a", MountMode::Auto), module("b", MountMode::Auto)];
    let contents = vec![vec![entry("a", "system/x", FileType::Directory)]];
    let plan = generate(&Config::default(), &modules, &contents, &strs(&["/system/x"]));
    assert_eq!(find(&plan.root, "/system/x").mutations.len(), 1);
}

fn sample_plan() -> MountPlan {
    let mut hybrid = module("b", MountMode::Auto);
    hybrid.rules.set_rule("system/bin", MountMode::HymoFs);
    hybrid.rules.set_rule("vendor", MountMode::Magic);
    let modules = vec![module("a", MountMode::Auto), hybrid, module("c", MountMode::Ignore)];
    let contents = vec![
        vec![
            entry("a", "system/app", FileType::Directory),
            entry("a", "system/app/X", FileType::Directory),
            entry("a", "system/app/X/X.apk", FileType::File),
            entry("a", "system/etc", FileType::Directory),
            entry("a", "system/etc/hosts", FileType::File),
            entry("a", "product/overlay", FileType::Directory),
        ],
        vec![
            entry("b", "system/app", FileType::Directory),
            entry("b", "system/bin", FileType::Directory),
            entry("b", "system/bin/su", FileType::File),
            entry("b", "system/bin/sh", FileType::Symlink),
            entry("b", "vendor/lib", FileType::Directory),
            entry("b", "vendor/lib/libx.so", FileType::File),
            entry("b", "vendor/etc/cfg", FileType::File),
        ],
        vec![entry("c", "system/etc", FileType::Directory), entry("c", "system/lib64", FileType::File)],
    ];
    let dirs = strs(&["/", "/system", "/system/app", "/system/etc", "/vendor", "/vendor/lib", "/product"]);
    generate(&Config::default(), &modules, &contents, &dirs)
}

#[test]
fn no_node_of_a_plan_is_left_undecided() {
    let plan = sample_plan();
    let mut nodes = Vec::new();
    all_nodes(&plan.root, &mut nodes);
    assert!(nodes.len() > 15);
    for n in &nodes {
        assert!(!matches!(n.strategy, MountStrategy::Unresolved), "{}", n.path);
    }
    for p in ["/", "/system", "/vendor", "/product"] {
        assert!(matches!(find(&plan.root, p).strategy, MountStrategy::Passthrough), "{}", p);
    }
}

#[test]
fn union_mounts_of_a_plan_stack_directories_in_scan_order() {
    let plan = sample_plan();
    let mut nodes = Vec::new();
    all_nodes(&plan.root, &mut nodes);
    let mut seen = 0;
    for n in &nodes {
        if let MountStrategy::Overlay { lowerdirs } = &n.strategy {
            seen += 1;
            assert!(!lowerdirs.is_empty());
            let sources: Vec<String> = n.mutations.iter().map(|m| m.source_path.clone()).collect();
            assert_eq!(lowerdirs, &sources);
            assert!(n.mutations.iter().all(|m| m.file_type == FileType::Directory));
        }
    }
    assert!(seen >= 2);
    assert_eq!(
        lowerdirs(find(&plan.root, "/system/app")),
        strs(&["/mnt/a/system/app", "/mnt/b/system/app"])
    );
    assert_eq!(
        lowerdirs(find(&plan.root, "/system/etc")),
        strs(&["/mnt/a/system/etc", "/mnt/c/system/etc"])
    );
}

#[test]
fn redirected_nodes_of_a_plan_are_no_directories() {
    let plan = sample_plan();
    let mut nodes = Vec::new();
    all_nodes(&plan.root, &mut nodes);
    let mut seen = 0;
    for n in &nodes {
        if let MountStrategy::Hymo { source } = &n.strategy {
            seen += 1;
            assert_ne!(n.mutations[0].file_type, FileType::Directory);
            assert_eq!(&n.mutations[0].source_path, source);
        }
    }
    assert_eq!(seen, 2);
    assert!(matches!(find(&plan.root, "/system/bin").strategy, MountStrategy::Passthrough));
}

#[test]
fn deciding_a_node_reads_its_children() {
    let a = module("a", MountMode::Magic);
    let mut root = FsNode::new("/", "/".to_string());
    insert_into_tree(&mut root, "system/etc/hosts", "/s/hosts", FileType::File, &a);
    let config = Config::default();
    // Before the children are decided they count as having work to do.
    let etc = find(&root, "/system/etc");
    assert!(matches!(decide(etc, &config, &Vec::new()), MountStrategy::Magic));
    let hosts = find(&root, "/system/etc/hosts");
    assert!(matches!(decide(hosts, &config, &Vec::new()), MountStrategy::Bind { .. }));
    resolve_tree(&mut root, &config, &Vec::new());
    assert!(matches!(find(&root, "/system/etc").strategy, MountStrategy::Magic));
    // Resolving again changes nothing.
    resolve_tree(&mut root, &config, &Vec::new());
    assert!(matches!(find(&root, "/system/etc").strategy, MountStrategy::Magic));
    assert!(matches!(find(&root, "/system/etc/hosts").strategy, MountStrategy::Bind { .. }));
}

#[test]
fn children_are_ordered_by_name_for_display() {
    let a = module("a", MountMode::Magic);
    let mut root = FsNode::new("/", "/".to_string());
    for name in ["vendor", "system", "product", "System", "odm"] {
        insert_into_tree(&mut root, name, "/s", FileType::Directory, &a);
    }
    let order = sorted_child_order(&root);
    let names: Vec<&str> = order.iter().map(|i| root.children[*i].name.as_str()).collect();
    assert_eq!(names, vec!["System", "odm", "product", "system", "vendor"]);
    assert_eq!(sorted_child_order(&FsNode::new("x", "/x".to_string())), Vec::<usize>::new());
}

#[test]
fn a_plan_is_shown_as_a_tree() {
    let modules = vec![module("m", MountMode::Magic), module("h", MountMode::HymoFs)];
    let contents = vec![
        vec![
            entry("m", "system/app", FileType::Directory),
            entry("m", "system/app/New\"App", FileType::Directory),
            entry("m", "system/app/a.apk", FileType::File),
        ],
        vec![entry("h", "system/bin/su", FileType::File), entry("h", "vendor/x", FileType::Directory)],
    ];
    let plan = generate(&Config::default(), &modules, &contents, &strs(&["/system"]));
    let lines = plan.print_visuals();
    let expected = vec![
        ">> Mount Plan Visuals:",
        "[PASS] / -> \"/\"",
        "├── [PASS] system -> \"/system\"",
        "│   ├── [MAGIC] app -> \"/system/app\"",
        "│   │   ├── [MAGIC] New\"App -> \"/system/app/New\\\"App\"",
        "│   │   └── [BIND] a.apk -> \"/system/app/a.apk\"",
        "│   └── [MAGIC] bin -> \"/system/bin\"",
        "│       └── [HYMO] su -> \"/system/bin/su\"",
        "└── [PASS] vendor -> \"/vendor\"",
    ];
    assert_eq!(lines, expected);
}

#[test]
fn an_empty_plan_shows_its_root() {
    let plan = generate(&Config::default(), &Vec::new(), &Vec::new(), &Vec::new());
    assert_eq!(plan.print_visuals(), vec![">> Mount Plan Visuals:", "[PASS] / -> \"/\""]);
}

#[test]
fn conflicts_are_nodes_where_modes_disagree() {
    let mut b = module("b", MountMode::Auto);
    b.rules.set_rule("system/etc/hosts", MountMode::Magic);
    let modules = vec![module("a", MountMode::Auto), b, module("c", MountMode::HymoFs)];
    let contents = vec![
        vec![
            entry("a", "system/etc", FileType::Directory),
            entry("a", "system/etc/hosts", FileType::File),
            entry("a", "vendor/lib", FileType::Directory),
        ],
        vec![
            entry("b", "system/etc", FileType::Directory),
            entry("b", "system/etc/hosts", FileType::File),
            entry("b", "vendor/lib", FileType::Directory),
        ],
        vec![entry("c", "system/etc/hosts", FileType::File), entry("c", "product", FileType::Directory)],
    ];
    let plan = generate(&Config::default(), &modules, &contents, &Vec::new());
    let report = plan.analyze_conflicts();
    assert_eq!(report.details.len(), 1);
    assert_eq!(report.details[0].partition, "system");
    assert_eq!(report.details[0].relative_path, "etc/hosts");
    assert_eq!(report.details[0].contending_modules, strs(&["a", "b", "c"]));
}

#[test]
fn the_sample_plan_has_one_conflict() {
    let report = sample_plan().analyze_conflicts();
    // Only /system/etc has contributions of more than one mode.
    assert_eq!(report.details.len(), 1);
    assert_eq!(report.details[0].partition, "system");
    assert_eq!(report.details[0].relative_path, "etc");
    assert_eq!(report.details[0].contending_modules, strs(&["a", "c"]));
    let empty = generate(&Config::default(), &Vec::new(), &Vec::new(), &Vec::new());
    assert!(empty.analyze_conflicts().details.is_empty());
}

#[test]
fn a_file_touches_one_node_per_component() {
    assert_eq!(
        node_paths("system/etc/hosts"),
        strs(&["/system", "/system/etc", "/system/etc/hosts"])
    );
    assert_eq!(node_paths("/vendor//lib/"), strs(&["/vendor", "/vendor/lib"]));
    assert_eq!(node_paths(""), Vec::<String>::new());
    // These are the paths of the nodes that the file makes.
    let module = module("a", MountMode::Auto);
    let mut root = FsNode::new("/", "/".to_string());
    insert_into_tree(&mut root, "system/etc/hosts", "/s", FileType::File, &module);
    let plan = MountPlan { root };
    assert_eq!(plan.paths(), strs(&["/", "/system", "/system/etc", "/system/etc/hosts"]));
}

#[test]
fn the_paths_of_a_plan_come_parents_first() {
    let plan = sample_plan();
    let paths = plan.paths();
    assert_eq!(paths[0], "/");
    assert_eq!(paths[1], "/system");
    assert_eq!(paths[2], "/system/app");
    assert_eq!(paths[3], "/system/app/X");
    assert_eq!(paths[4], "/system/app/X/X.apk");
    assert_eq!(paths[5], "/system/etc");
    let mut nodes = Vec::new();
    all_nodes(&plan.root, &mut nodes);
    assert_eq!(paths.len(), nodes.len());
    let mut sorted = paths.clone();
    sorted.sort();
    sorted.dedup();
    assert_eq!(sorted.len(), paths.len());
}
