//! Planning: the contributions of all modules are merged into one virtual
//! tree, and every node of it gets the strategy by which it is made visible.

use vstd::prelude::*;
use crate::config::{builtin_partition_names, builtin_partitions, Config, ConfigView};
use crate::inventory::{mode_for, Module, ModuleView, MountMode};
use crate::lists::{concat_all, contains_name, holds_name};
use crate::text::{components_of, join_path, joined_path, same_text, split_components, texts};
use crate::plan_laws::{
    lemma_inserted_keeps_well_formed, lemma_planned_well_formed, lemma_resolved_keeps_well_formed,
};
use crate::tree::{
    child_position, children_with, leaf, mutation_views, well_formed, with_child, FileType,
    FsNode, MountStrategy, Mutation, MutationView, NodeView, StrategyView,
};

verus! {

/// The partitions to look at, of those in `present`: the built-in ones in
/// their own order, then the configured ones in theirs, none twice.
pub open spec fn target_partitions(
    configured: Seq<Seq<char>>,
    present: Seq<Seq<char>>,
) -> Seq<Seq<char>> {
    picked(builtin_partition_names() + configured, present)
}

/// The names of `wanted` that `present` holds, in order, each once.
pub open spec fn picked(wanted: Seq<Seq<char>>, present: Seq<Seq<char>>) -> Seq<Seq<char>>
    decreases wanted.len(),
{
    if wanted.len() == 0 {
        Seq::empty()
    } else {
        let before = picked(wanted.drop_last(), present);
        if holds_name(present, wanted.last()) && !holds_name(before, wanted.last()) {
            before.push(wanted.last())
        } else {
            before
        }
    }
}

/// What is picked is wanted, is present, and is picked once.
pub proof fn lemma_picked(wanted: Seq<Seq<char>>, present: Seq<Seq<char>>)
    ensures
        forall|i: int|
            0 <= i < picked(wanted, present).len() ==> holds_name(
                wanted,
                #[trigger] picked(wanted, present)[i],
            ) && holds_name(present, picked(wanted, present)[i]),
        forall|i: int, j: int|
            0 <= i < j < picked(wanted, present).len() ==> picked(wanted, present)[i] != picked(
                wanted,
                present,
            )[j],
        forall|name: Seq<char>|
            holds_name(wanted, name) && holds_name(present, name) ==> holds_name(
                picked(wanted, present),
                name,
            ),
    decreases wanted.len(),
{
    let out = picked(wanted, present);
    if wanted.len() > 0 {
        let init = wanted.drop_last();
        let before = picked(init, present);
        lemma_picked(init, present);
        assert forall|i: int| 0 <= i < out.len() implies holds_name(wanted, #[trigger] out[i])
            && holds_name(present, out[i]) by {
            if i < before.len() {
                assert(holds_name(init, before[i]));
                let w = choose|w: int| 0 <= w < init.len() && init[w] == before[i];
                assert(wanted[w] == out[i]);
            } else {
                assert(wanted[wanted.len() - 1] == out[i]);
            }
        }
        assert forall|i: int, j: int| 0 <= i < j < out.len() implies out[i] != out[j] by {
            if j == before.len() {
                assert(before[i] == out[i]);
            }
        }
        assert forall|name: Seq<char>|
            holds_name(wanted, name) && holds_name(present, name) implies holds_name(
            out,
            name,
        ) by {
            let w = choose|w: int| 0 <= w < wanted.len() && wanted[w] == name;
            if w < init.len() {
                assert(init[w] == name);
                assert(holds_name(before, name));
                let b = choose|b: int| 0 <= b < before.len() && before[b] == name;
                assert(out[b] == name);
            } else if holds_name(before, name) {
                let b = choose|b: int| 0 <= b < before.len() && before[b] == name;
                assert(out[b] == name);
            } else {
                assert(out[out.len() - 1] == name);
            }
        }
    }
}

/// The partitions of a module to look at. `present` names the directories
/// that the module's content root holds.
pub fn get_target_partitions(config: &Config, present: &Vec<String>) -> (targets: Vec<String>)
    ensures
        texts(targets@) == target_partitions(config@.partitions, texts(present@)),
{
    let builtin: Vec<String> = builtin_partitions();
    let mut targets: Vec<String> = Vec::new();
    let ghost wanted = builtin_partition_names() + config@.partitions;
    let mut i: usize = 0;
    assert(wanted.take(0) =~= Seq::<Seq<char>>::empty());
    assert(texts(targets@) =~= picked(wanted.take(0), texts(present@)));
    while i < builtin.len()
        invariant
            i <= builtin.len(),
            texts(builtin@) == builtin_partition_names(),
            wanted == builtin_partition_names() + config@.partitions,
            texts(targets@) == picked(wanted.take(i as int), texts(present@)),
        decreases builtin.len() - i,
    {
        assert(wanted.take(i + 1).drop_last() =~= wanted.take(i as int));
        assert(wanted.take(i + 1).last() == texts(builtin@)[i as int]);
        assert(texts(builtin@)[i as int] == builtin@[i as int]@);
        let name: &str = builtin[i].as_str();
        if contains_name(present, name) && !contains_name(&targets, name) {
            let ghost old_targets = targets@;
            targets.push(String::from_str(name));
            assert(texts(targets@) =~= texts(old_targets).push(name@));
        }
        i = i + 1;
    }
    let offset: usize = builtin.len();
    let mut j: usize = 0;
    while j < config.partitions.len()
        invariant
            j <= config.partitions.len(),
            offset == builtin_partition_names().len(),
            wanted == builtin_partition_names() + config@.partitions,
            texts(targets@) == picked(wanted.take(offset + j), texts(present@)),
        decreases config.partitions.len() - j,
    {
        assert(wanted.take(offset + j + 1).drop_last() =~= wanted.take(offset + j));
        assert(wanted.take(offset + j + 1).last() == config@.partitions[j as int]);
        assert(config@.partitions[j as int] == config.partitions@[j as int]@);
        let name: &str = config.partitions[j].as_str();
        if contains_name(present, name) && !contains_name(&targets, name) {
            let ghost old_targets = targets@;
            targets.push(String::from_str(name));
            assert(texts(targets@) =~= texts(old_targets).push(name@));
        }
        j = j + 1;
    }
    assert(wanted.take(offset + j) =~= wanted);
    targets
}

/// Whether the device has a directory at `path`, by the list of those that it
/// has.
pub fn has_system_dir(path: &str, system_dirs: &Vec<String>) -> (r: bool)
    ensures
        r == holds_name(texts(system_dirs@), path@),
{
    contains_name(system_dirs, path)
}

/// The tree after one contribution was put in: the nodes along `components`
/// are walked from `node` down and made where they are missing, each gets the
/// path that it has below `at`, and the last one gets the contribution. With
/// no component nothing changes.
pub open spec fn inserted(
    node: NodeView,
    components: Seq<Seq<char>>,
    at: Seq<char>,
    m: MutationView,
) -> NodeView
    decreases components.len(),
{
    if components.len() == 0 {
        node
    } else {
        let name = components[0];
        let path = joined_path(at, name);
        let found = children_with(node.children, node.path, name)[child_position(
            node.children,
            name,
        )];
        let placed = NodeView { path, ..found };
        let child = if components.len() == 1 {
            NodeView { mutations: placed.mutations.push(m), ..placed }
        } else {
            inserted(placed, components.skip(1), path, m)
        };
        with_child(node, name, child)
    }
}

fn insert_below(
    node: &mut FsNode,
    components: &Vec<String>,
    from: usize,
    at: String,
    mutation: Mutation,
)
    requires
        from <= components@.len(),
    ensures
        final(node)@ == inserted(old(node)@, texts(components@).skip(from as int), at@, mutation@),
    decreases components@.len() - from,
{
    let ghost rest = texts(components@).skip(from as int);
    if from == components.len() {
        return ;
    }
    assert(rest[0] == components@[from as int]@);
    assert(rest.skip(1) =~= texts(components@).skip(from + 1));
    let name: &str = components[from].as_str();
    let path: String = join_path(at.as_str(), name);
    let child: &mut FsNode = node.get_or_create_child(name);
    child.path = path.clone();
    if from + 1 == components.len() {
        child.insert_mutation(mutation);
    } else {
        insert_below(child, components, from + 1, path, mutation);
    }
}

/// The contribution that a module makes with one of its files.
pub open spec fn contribution(
    module: ModuleView,
    relative: Seq<char>,
    source: Seq<char>,
    file_type: FileType,
) -> MutationView {
    MutationView {
        module_id: module.id,
        source_path: source,
        file_type,
        mode: mode_for(module.rules, relative),
    }
}

/// Puts the file at `relative` below the module's content root into the tree
/// below `root`. `real_source` is where the file lies, `file_type` what it is.
pub fn insert_into_tree(
    root: &mut FsNode,
    relative: &str,
    real_source: &str,
    file_type: FileType,
    module: &Module,
)
    ensures
        final(root)@ == inserted(
            old(root)@,
            components_of(relative@),
            seq!['/'],
            contribution(module@, relative@, real_source@, file_type),
        ),
        well_formed(old(root)@) && old(root)@.path == seq!['/'] ==> well_formed(final(root)@),
        final(root)@.path == old(root)@.path,
        final(root)@.name == old(root)@.name,
{
    proof {
        if well_formed(root@) && root@.path == seq!['/'] {
            lemma_inserted_keeps_well_formed(
                root@,
                components_of(relative@),
                seq!['/'],
                contribution(module@, relative@, real_source@, file_type),
            );
        }
    }
    let components: Vec<String> = split_components(relative);
    let mutation = Mutation {
        module_id: module.id.clone(),
        source_path: String::from_str(real_source),
        file_type,
        mode: module.rules.get_mode(relative),
    };
    proof {
        reveal_strlit("/");
        assert("/"@ =~= seq!['/']);
        assert(texts(components@).skip(0) =~= texts(components@));
    }
    insert_below(root, &components, 0, String::from_str("/"), mutation);
}

/// `name` is a partition: a built-in one or one that was configured.
pub open spec fn is_partition_name(cfg: ConfigView, name: Seq<char>) -> bool {
    holds_name(builtin_partition_names(), name) || holds_name(cfg.partitions, name)
}

/// The node is the virtual root or the root of a partition. Nothing is ever
/// mounted at such a node.
pub open spec fn is_fixed(node: NodeView, cfg: ConfigView) -> bool {
    ||| node.name.len() == 0
    ||| node.name == seq!['/']
    ||| (is_partition_name(cfg, node.name) && node.path == seq!['/'] + node.name)
}

/// Every contribution is a directory.
pub open spec fn all_directories(m: Seq<MutationView>) -> bool {
    forall|i: int| 0 <= i < m.len() ==> (#[trigger] m[i]).file_type == FileType::Directory
}

/// Where the contributions lie, in their order.
pub open spec fn sources_of(m: Seq<MutationView>) -> Seq<Seq<char>> {
    m.map_values(|x: MutationView| x.source_path)
}

/// Some child has work to do at its own level.
pub open spec fn has_active_child(children: Seq<NodeView>) -> bool {
    exists|i: int|
        0 <= i < children.len() && (#[trigger] children[i]).strategy != StrategyView::Passthrough
}

/// The node can be a union mount: union mounts are not ruled out, it has
/// contributions, all of them directories, and the device has a directory at
/// its path.
pub open spec fn can_overlay(node: NodeView, cfg: ConfigView, system_dirs: Seq<Seq<char>>) -> bool {
    &&& !cfg.force_ext4
    &&& node.mutations.len() > 0
    &&& all_directories(node.mutations)
    &&& holds_name(system_dirs, node.path)
}

/// The strategy of a node whose children have theirs.
pub open spec fn decided(
    node: NodeView,
    cfg: ConfigView,
    system_dirs: Seq<Seq<char>>,
) -> StrategyView {
    if is_fixed(node, cfg) {
        StrategyView::Passthrough
    } else if node.mutations.len() > 0 && node.mutations[0].mode == MountMode::HymoFs {
        if node.mutations[0].file_type == FileType::Directory {
            StrategyView::Passthrough
        } else {
            StrategyView::Hymo { source: node.mutations[0].source_path }
        }
    } else if node.mutations.len() > 0 && node.mutations[0].mode == MountMode::Magic {
        if node.mutations[0].file_type == FileType::Directory {
            StrategyView::Magic
        } else {
            StrategyView::Bind { source: node.mutations[0].source_path }
        }
    } else if can_overlay(node, cfg, system_dirs) {
        StrategyView::Overlay { lowerdirs: sources_of(node.mutations) }
    } else if has_active_child(node.children) {
        StrategyView::Magic
    } else {
        StrategyView::Passthrough
    }
}

/// The tree with every node's strategy decided, children before parents.
pub open spec fn resolved(node: NodeView, cfg: ConfigView, system_dirs: Seq<Seq<char>>) -> NodeView
    decreases node,
{
    let below = NodeView {
        name: node.name,
        path: node.path,
        mutations: node.mutations,
        children: Seq::new(
            node.children.len(),
            |i: int|
                if 0 <= i < node.children.len() {
                    resolved(node.children[i], cfg, system_dirs)
                } else {
                    arbitrary()
                },
        ),
        strategy: node.strategy,
    };
    NodeView {
        name: below.name,
        path: below.path,
        mutations: below.mutations,
        children: below.children,
        strategy: decided(below, cfg, system_dirs),
    }
}

fn is_fixed_node(node: &FsNode, config: &Config) -> (r: bool)
    ensures
        r == is_fixed(node@, config@),
{
    let name: &str = node.name.as_str();
    proof {
        reveal_strlit("/");
        assert("/"@ =~= seq!['/']);
    }
    if name.unicode_len() == 0 || same_text(name, "/") {
        return true;
    }
    let builtin: Vec<String> = builtin_partitions();
    if contains_name(&builtin, name) || contains_name(&config.partitions, name) {
        let expected: String = join_path("/", name);
        assert(expected@ =~= seq!['/'] + name@);
        same_text(node.path.as_str(), expected.as_str())
    } else {
        false
    }
}

fn only_directories(mutations: &Vec<Mutation>) -> (r: bool)
    ensures
        r == all_directories(mutation_views(mutations@)),
{
    let mut i: usize = 0;
    while i < mutations.len()
        invariant
            i <= mutations.len(),
            forall|j: int|
                0 <= j < i ==> (#[trigger] mutation_views(mutations@)[j]).file_type
                    == FileType::Directory,
        decreases mutations.len() - i,
    {
        match mutations[i].file_type {
            FileType::Directory => {},
            _ => {
                assert(mutation_views(mutations@)[i as int].file_type != FileType::Directory);
                return false;
            },
        }
        i = i + 1;
    }
    true
}

fn source_list(mutations: &Vec<Mutation>) -> (r: Vec<String>)
    ensures
        texts(r@) == sources_of(mutation_views(mutations@)),
{
    let mut out: Vec<String> = Vec::new();
    let mut i: usize = 0;
    while i < mutations.len()
        invariant
            i <= mutations.len(),
            out@.len() == i,
            forall|j: int| 0 <= j < i ==> (#[trigger] out@[j])@ == mutations@[j].source_path@,
        decreases mutations.len() - i,
    {
        out.push(mutations[i].source_path.clone());
        i = i + 1;
    }
    assert(texts(out@) =~= sources_of(mutation_views(mutations@)));
    out
}

fn any_active_child(node: &FsNode) -> (r: bool)
    ensures
        r == has_active_child(node@.children),
{
    let mut i: usize = 0;
    while i < node.children.len()
        invariant
            i <= node.children.len(),
            forall|j: int|
                0 <= j < i ==> (#[trigger] node@.children[j]).strategy == StrategyView::Passthrough,
        decreases node.children.len() - i,
    {
        assert(node@.children[i as int] == node.children@[i as int]@);
        match &node.children[i].strategy {
            MountStrategy::Passthrough => {},
            _ => {
                return true;
            },
        }
        i = i + 1;
    }
    false
}

/// The strategy for `node`, whose children have theirs.
pub fn decide(node: &FsNode, config: &Config, system_dirs: &Vec<String>) -> (r: MountStrategy)
    ensures
        r@ == decided(node@, config@, texts(system_dirs@)),
{
    if is_fixed_node(node, config) {
        return MountStrategy::Passthrough;
    }
    if node.mutations.len() > 0 {
        let top: &Mutation = &node.mutations[0];
        assert(node@.mutations[0] == top@);
        match top.mode {
            MountMode::HymoFs => {
                match top.file_type {
                    FileType::Directory => {
                        return MountStrategy::Passthrough;
                    },
                    _ => {
                        return MountStrategy::Hymo { source: top.source_path.clone() };
                    },
                }
            },
            MountMode::Magic => {
                match top.file_type {
                    FileType::Directory => {
                        return MountStrategy::Magic;
                    },
                    _ => {
                        return MountStrategy::Bind { source: top.source_path.clone() };
                    },
                }
            },
            _ => {},
        }
    }
    if !config.force_ext4 && node.mutations.len() > 0 && only_directories(&node.mutations)
        && has_system_dir(node.path.as_str(), system_dirs) {
        return MountStrategy::Overlay { lowerdirs: source_list(&node.mutations) };
    }
    if any_active_child(node) {
        MountStrategy::Magic
    } else {
        MountStrategy::Passthrough
    }
}

/// Decides the strategy of every node below and at `node`, children first.
/// `system_dirs` lists the paths at which the device has a directory.
pub fn resolve_tree(node: &mut FsNode, config: &Config, system_dirs: &Vec<String>)
    ensures
        final(node)@ == resolved(old(node)@, config@, texts(system_dirs@)),
        well_formed(old(node)@) ==> well_formed(final(node)@),
    decreases *old(node),
{
    proof {
        if well_formed(node@) {
            lemma_resolved_keeps_well_formed(node@, config@, texts(system_dirs@));
        }
    }
    let n: usize = node.children.len();
    let mut i: usize = 0;
    while i < n
        invariant
            i <= n,
            n == node.children@.len(),
            n == old(node).children@.len(),
            node.name == old(node).name,
            node.path == old(node).path,
            node.mutations == old(node).mutations,
            node.strategy == old(node).strategy,
            forall|j: int|
                0 <= j < i ==> (#[trigger] node.children@[j])@ == resolved(
                    old(node).children@[j]@,
                    config@,
                    texts(system_dirs@),
                ),
            forall|j: int| i <= j < n ==> node.children@[j] == old(node).children@[j],
        decreases n - i,
    {
        resolve_tree(&mut node.children[i], config, system_dirs);
        i = i + 1;
    }
    let ghost want = resolved(old(node)@, config@, texts(system_dirs@));
    assert(node@.children =~= want.children);
    let strategy: MountStrategy = decide(node, config, system_dirs);
    let ghost below = node@;
    node.strategy = strategy;
    assert(node@.children =~= below.children);
}

/// One file of a module's content.
#[derive(Debug, Clone)]
pub struct SourceEntry {
    /// Path of the file below the module's content root.
    pub relative: String,
    /// Where the file lies.
    pub source_path: String,
    /// What the file is, symbolic links not followed.
    pub file_type: FileType,
}

/// The mathematical view of a file of a module's content.
pub ghost struct SourceEntryView {
    pub relative: Seq<char>,
    pub source_path: Seq<char>,
    pub file_type: FileType,
}

impl View for SourceEntry {
    type V = SourceEntryView;

    open spec fn view(&self) -> SourceEntryView {
        SourceEntryView {
            relative: self.relative@,
            source_path: self.source_path@,
            file_type: self.file_type,
        }
    }
}

/// The views of a list of files, in order.
pub open spec fn entry_views(s: Seq<SourceEntry>) -> Seq<SourceEntryView> {
    s.map_values(|e: SourceEntry| e@)
}

/// The views of the files of all modules.
pub open spec fn content_views(s: Seq<Vec<SourceEntry>>) -> Seq<Seq<SourceEntryView>> {
    s.map_values(|v: Vec<SourceEntry>| entry_views(v@))
}

/// The tree after the files of one module were put in, in their order.
pub open spec fn ingested(root: NodeView, module: ModuleView, entries: Seq<SourceEntryView>) -> NodeView
    decreases entries.len(),
{
    if entries.len() == 0 {
        root
    } else {
        let e = entries.last();
        inserted(
            ingested(root, module, entries.drop_last()),
            components_of(e.relative),
            seq!['/'],
            contribution(module, e.relative, e.source_path, e.file_type),
        )
    }
}

/// The tree after the files of all modules were put in, module by module.
/// A module without an entry in `contents` has no files.
pub open spec fn gathered(
    root: NodeView,
    modules: Seq<ModuleView>,
    contents: Seq<Seq<SourceEntryView>>,
) -> NodeView
    decreases modules.len(),
{
    if modules.len() == 0 {
        root
    } else {
        let k = modules.len() - 1;
        let before = gathered(root, modules.drop_last(), contents);
        if k < contents.len() {
            ingested(before, modules[k], contents[k])
        } else {
            before
        }
    }
}

/// The file at `relative` lies below a partition: its path starts with the
/// name of a partition and goes on behind it. Only such files are planned for;
/// the root of a partition is not among them.
pub open spec fn lies_in_partition(cfg: ConfigView, relative: Seq<char>) -> bool {
    let components = components_of(relative);
    components.len() >= 2 && is_partition_name(cfg, components[0])
}

/// The files among `entries` that lie below a partition, in their order.
pub open spec fn kept(cfg: ConfigView, entries: Seq<SourceEntryView>) -> Seq<SourceEntryView>
    decreases entries.len(),
{
    if entries.len() == 0 {
        Seq::empty()
    } else if lies_in_partition(cfg, entries.last().relative) {
        kept(cfg, entries.drop_last()).push(entries.last())
    } else {
        kept(cfg, entries.drop_last())
    }
}

/// The files of every module that lie below a partition.
pub open spec fn targeted(
    cfg: ConfigView,
    contents: Seq<Seq<SourceEntryView>>,
) -> Seq<Seq<SourceEntryView>> {
    Seq::new(contents.len(), |k: int| kept(cfg, contents[k]))
}

/// The plan for the given modules and their files. Files that lie below no
/// partition are passed over.
pub open spec fn planned(
    cfg: ConfigView,
    modules: Seq<ModuleView>,
    contents: Seq<Seq<SourceEntryView>>,
    system_dirs: Seq<Seq<char>>,
) -> NodeView {
    resolved(
        gathered(leaf(seq!['/'], seq!['/']), modules, targeted(cfg, contents)),
        cfg,
        system_dirs,
    )
}

/// Whether the file at `relative` lies below a partition.
pub fn in_target_partition(config: &Config, relative: &str) -> (r: bool)
    ensures
        r == lies_in_partition(config@, relative@),
{
    let components: Vec<String> = split_components(relative);
    if components.len() < 2 {
        return false;
    }
    assert(texts(components@)[0] == components@[0]@);
    let builtin: Vec<String> = builtin_partitions();
    contains_name(&builtin, components[0].as_str()) || contains_name(
        &config.partitions,
        components[0].as_str(),
    )
}

/// A resolved tree, ready to be carried out.
#[derive(Debug)]
pub struct MountPlan {
    pub root: FsNode,
}

impl View for MountPlan {
    type V = NodeView;

    open spec fn view(&self) -> NodeView {
        self.root@
    }
}

/// Which directory holds a module's content.
pub open spec fn chosen_content_root(
    module: ModuleView,
    mirror_dir: Seq<char>,
    storage_root: Seq<char>,
    preferred_exists: bool,
    source_exists: bool,
) -> Option<Seq<char>> {
    if preferred_exists {
        Some(preferred_root(module, mirror_dir, storage_root))
    } else if source_exists {
        Some(module.source_path)
    } else {
        None
    }
}

/// Where a module's content is looked for first: under its id in the mirror if
/// its default mode is redirection, in the storage otherwise.
pub open spec fn preferred_root(
    module: ModuleView,
    mirror_dir: Seq<char>,
    storage_root: Seq<char>,
) -> Seq<char> {
    if module.rules.default_mode == MountMode::HymoFs {
        joined_path(mirror_dir, module.id)
    } else {
        joined_path(storage_root, module.id)
    }
}

/// Where the content of `module` is looked for first.
pub fn preferred_content_root(module: &Module, mirror_dir: &str, storage_root: &str) -> (r: String)
    ensures
        r@ == preferred_root(module@, mirror_dir@, storage_root@),
{
    match module.rules.default_mode {
        MountMode::HymoFs => join_path(mirror_dir, module.id.as_str()),
        _ => join_path(storage_root, module.id.as_str()),
    }
}

/// The directory that holds the content of `module`: the preferred one where
/// it exists, else the module's own directory where that exists, else none,
/// and the module is left out.
pub fn content_root(
    module: &Module,
    mirror_dir: &str,
    storage_root: &str,
    preferred_exists: bool,
    source_exists: bool,
) -> (r: Option<String>)
    ensures
        match r {
            Some(path) => chosen_content_root(
                module@,
                mirror_dir@,
                storage_root@,
                preferred_exists,
                source_exists,
            ) == Some(path@),
            None => chosen_content_root(
                module@,
                mirror_dir@,
                storage_root@,
                preferred_exists,
                source_exists,
            ) is None,
        },
{
    if preferred_exists {
        Some(preferred_content_root(module, mirror_dir, storage_root))
    } else if source_exists {
        Some(module.source_path.clone())
    } else {
        None
    }
}

/// Builds the plan: puts the files of every module that lie below a
/// partition into an empty tree, module by module in the order given, and
/// decides the strategy of every node. `contents` holds the files of each
/// module, by the module's index; `system_dirs` lists the paths at which the
/// device has a directory.
pub fn generate(
    config: &Config,
    modules: &Vec<Module>,
    contents: &Vec<Vec<SourceEntry>>,
    system_dirs: &Vec<String>,
) -> (plan: MountPlan)
    ensures
        plan@ == planned(
            config@,
            crate::inventory::module_views(modules@),
            content_views(contents@),
            texts(system_dirs@),
        ),
        well_formed(plan@),
{
    proof {
        reveal_strlit("/");
        assert("/"@ =~= seq!['/']);
        lemma_planned_well_formed(
            config@,
            crate::inventory::module_views(modules@),
            content_views(contents@),
            texts(system_dirs@),
        );
    }
    let mut root: FsNode = FsNode::new("/", String::from_str("/"));
    let ghost start = root@;
    let ghost all = crate::inventory::module_views(modules@);
    let ghost files = targeted(config@, content_views(contents@));
    let mut i: usize = 0;
    assert(all.take(0) =~= Seq::<ModuleView>::empty());
    while i < modules.len()
        invariant
            i <= modules.len(),
            all == crate::inventory::module_views(modules@),
            files == targeted(config@, content_views(contents@)),
            root@ == gathered(start, all.take(i as int), files),
        decreases modules.len() - i,
    {
        assert(all.take(i + 1).drop_last() =~= all.take(i as int));
        assert(all.take(i + 1).last() == modules@[i as int]@);
        if i < contents.len() {
            let entries: &Vec<SourceEntry> = &contents[i];
            let module: &Module = &modules[i];
            let ghost before = root@;
            let ghost views = entry_views(entries@);
            assert(content_views(contents@)[i as int] == views);
            assert(files[i as int] == kept(config@, views));
            let mut j: usize = 0;
            assert(views.take(0) =~= Seq::<SourceEntryView>::empty());
            while j < entries.len()
                invariant
                    j <= entries.len(),
                    views == entry_views(entries@),
                    root@ == ingested(before, module@, kept(config@, views.take(j as int))),
                decreases entries.len() - j,
            {
                assert(views.take(j + 1).drop_last() =~= views.take(j as int));
                assert(views.take(j + 1).last() == entries@[j as int]@);
                let e: &SourceEntry = &entries[j];
                if in_target_partition(config, e.relative.as_str()) {
                    assert(kept(config@, views.take(j + 1)).drop_last() =~= kept(
                        config@,
                        views.take(j as int),
                    ));
                    insert_into_tree(
                        &mut root,
                        e.relative.as_str(),
                        e.source_path.as_str(),
                        e.file_type,
                        module,
                    );
                }
                j = j + 1;
            }
            assert(views.take(j as int) =~= views);
        }
        i = i + 1;
    }
    assert(all.take(i as int) =~= all);
    resolve_tree(&mut root, config, system_dirs);
    MountPlan { root }
}

/// The paths of the nodes along `components` below `at`, from the top down.
pub open spec fn paths_along(components: Seq<Seq<char>>, at: Seq<char>) -> Seq<Seq<char>>
    decreases components.len(),
{
    if components.len() == 0 {
        Seq::empty()
    } else {
        let path = joined_path(at, components[0]);
        seq![path] + paths_along(components.skip(1), path)
    }
}

/// The paths of the nodes that the file at `relative` makes or touches when
/// it is put into a tree: one per component. These are the paths of which the
/// planner has to know whether the device has a directory there.
pub fn node_paths(relative: &str) -> (r: Vec<String>)
    ensures
        texts(r@) == paths_along(components_of(relative@), seq!['/']),
{
    let components: Vec<String> = split_components(relative);
    let ghost comps = texts(components@);
    proof {
        reveal_strlit("/");
        assert("/"@ =~= seq!['/']);
    }
    let mut out: Vec<String> = Vec::new();
    let mut at: String = String::from_str("/");
    let mut i: usize = 0;
    assert(comps.skip(0) =~= comps);
    assert(texts(out@) + paths_along(comps.skip(0), at@) =~= paths_along(comps, seq!['/']));
    while i < components.len()
        invariant
            i <= components.len(),
            comps == texts(components@),
            texts(out@) + paths_along(comps.skip(i as int), at@) == paths_along(comps, seq!['/']),
        decreases components.len() - i,
    {
        let ghost rest = comps.skip(i as int);
        assert(rest[0] == components@[i as int]@);
        assert(rest.skip(1) =~= comps.skip(i + 1));
        let path: String = join_path(at.as_str(), components[i].as_str());
        let ghost old_out = out@;
        out.push(path.clone());
        assert(texts(out@) =~= texts(old_out).push(path@));
        assert(texts(old_out) + (seq![path@] + paths_along(rest.skip(1), path@)) =~= texts(out@)
            + paths_along(comps.skip(i + 1), path@));
        at = path;
        i = i + 1;
    }
    assert(paths_along(comps.skip(i as int), at@) =~= Seq::<Seq<char>>::empty());
    assert(texts(out@) + Seq::<Seq<char>>::empty() =~= texts(out@));
    out
}

/// The paths of the children's subtrees, child by child.
pub open spec fn child_paths(node: NodeView) -> Seq<Seq<Seq<char>>>
    decreases node, 0nat,
{
    Seq::new(
        node.children.len(),
        |i: int|
            if 0 <= i < node.children.len() {
                paths_of(node.children[i])
            } else {
                Seq::empty()
            },
    )
}

/// The paths of all nodes of the subtree at `node`, the node's own first.
pub open spec fn paths_of(node: NodeView) -> Seq<Seq<char>>
    decreases node, 1nat,
{
    seq![node.path] + concat_all(child_paths(node))
}

fn collect_paths(node: &FsNode) -> (r: Vec<String>)
    ensures
        texts(r@) == paths_of(node@),
    decreases node,
{
    let mut out: Vec<String> = Vec::new();
    out.push(node.path.clone());
    let ghost own = texts(out@);
    assert(own =~= seq![node@.path]);
    let ghost parts = child_paths(node@);
    let mut i: usize = 0;
    assert(parts.take(0) =~= Seq::<Seq<Seq<char>>>::empty());
    assert(texts(out@) =~= own + concat_all(parts.take(0)));
    while i < node.children.len()
        invariant
            i <= node.children.len(),
            parts == child_paths(node@),
            parts.len() == node.children@.len(),
            texts(out@) == own + concat_all(parts.take(i as int)),
        decreases node.children.len() - i,
    {
        assert(parts.take(i + 1).drop_last() =~= parts.take(i as int));
        assert(parts.take(i + 1).last() == parts[i as int]);
        assert(node@.children[i as int] == node.children@[i as int]@);
        let mut sub: Vec<String> = collect_paths(&node.children[i]);
        let ghost old_out = out@;
        let ghost added = sub@;
        out.append(&mut sub);
        assert(texts(out@) =~= texts(old_out) + texts(added));
        i = i + 1;
    }
    assert(parts.take(i as int) =~= parts);
    out
}

impl MountPlan {
    /// The paths of all nodes of the plan, parents before children.
    pub fn paths(&self) -> (r: Vec<String>)
        ensures
            texts(r@) == paths_of(self@),
    {
        collect_paths(&self.root)
    }
}

} // verus!
