//! Carrying out a plan: the steps that a plan asks for, in their order, and
//! the record of the modules that were made visible. The steps are handed
//! out one by one to a caller that makes the mounts and reports how each went.

use vstd::prelude::*;
use crate::config::{Config, ConfigView};
use crate::lists::{concat_all, holds_name, insert_unique, members, strictly_sorted};
use crate::magic::{
    entry_names, fresh_ops, lemma_every_exclusion_has_a_place, makes_place, placeholder_views,
    population, MirrorEntry, Placeholder, PlaceholderView,
};
use crate::planner::MountPlan;
use crate::text::{join_path, joined_path, strip_leading, texts, without_leading};
use crate::tree::{
    module_ids, FsNode, MountStrategy, Mutation, MutationView, NodeView, StrategyView,
};

verus! {

/// The type under which the redirections of a run are installed.
pub const REDIRECT_RULE_TYPE: i32 = 0;

/// One thing to do while a plan is carried out. Where a step makes a mount,
/// `disable_umount` says that the mount is not to be tagged as releasable.
#[derive(Debug)]
pub enum Step {
    /// Wipe the rules of the redirector.
    ClearRules,
    /// Switch the stealth mode of the redirector.
    SetStealth { enable: bool },
    /// Switch the debug output of the redirector.
    SetDebug { enable: bool },
    /// Make sure that the mirror directory exists.
    EnsureMirror { path: String },
    /// Union-mount `lowerdirs`, the first on top, over `target`.
    Overlay { target: String, lowerdirs: Vec<String>, modules: Vec<String>, disable_umount: bool },
    /// Copy `source` to `mirror` and redirect reads of `target` to the copy,
    /// by a rule of the type `REDIRECT_RULE_TYPE`. Nothing is done where the
    /// redirector is not `enabled`.
    Redirect { target: String, source: String, mirror: String, module: Option<String>, enabled: bool },
    /// Bind-mount `source` onto `target`.
    Bind { target: String, source: String, module: Option<String>, disable_umount: bool },
    /// Replace the directory `target` by a skeleton that leaves the entries
    /// named in `exclusions` as empty placeholders, and holds an empty place
    /// for each of `placeholders` that the directory lacked. The `span` steps
    /// that follow, and the `Private` step behind them, belong to what lies
    /// below `target`; they are left out where this step fails.
    Skeleton {
        target: String,
        exclusions: Vec<String>,
        placeholders: Vec<Placeholder>,
        module: Option<String>,
        span: usize,
        disable_umount: bool,
    },
    /// Stop mount events at `target` from spreading.
    Private { target: String },
}

/// The mathematical view of a step.
pub ghost enum StepView {
    ClearRules,
    SetStealth { enable: bool },
    SetDebug { enable: bool },
    EnsureMirror { path: Seq<char> },
    Overlay {
        target: Seq<char>,
        lowerdirs: Seq<Seq<char>>,
        modules: Seq<Seq<char>>,
        disable_umount: bool,
    },
    Redirect {
        target: Seq<char>,
        source: Seq<char>,
        mirror: Seq<char>,
        module: Option<Seq<char>>,
        enabled: bool,
    },
    Bind { target: Seq<char>, source: Seq<char>, module: Option<Seq<char>>, disable_umount: bool },
    Skeleton {
        target: Seq<char>,
        exclusions: Seq<Seq<char>>,
        placeholders: Seq<PlaceholderView>,
        module: Option<Seq<char>>,
        span: nat,
        disable_umount: bool,
    },
    Private { target: Seq<char> },
}

/// The view of an id that may be absent.
pub open spec fn opt_id(m: Option<String>) -> Option<Seq<char>> {
    match m {
        Some(s) => Some(s@),
        None => None,
    }
}

impl View for Step {
    type V = StepView;

    open spec fn view(&self) -> StepView {
        match self {
            Step::ClearRules => StepView::ClearRules,
            Step::SetStealth { enable } => StepView::SetStealth { enable: *enable },
            Step::SetDebug { enable } => StepView::SetDebug { enable: *enable },
            Step::EnsureMirror { path } => StepView::EnsureMirror { path: path@ },
            Step::Overlay { target, lowerdirs, modules, disable_umount } => StepView::Overlay {
                target: target@,
                lowerdirs: texts(lowerdirs@),
                modules: texts(modules@),
                disable_umount: *disable_umount,
            },
            Step::Redirect { target, source, mirror, module, enabled } => StepView::Redirect {
                target: target@,
                source: source@,
                mirror: mirror@,
                module: opt_id(*module),
                enabled: *enabled,
            },
            Step::Bind { target, source, module, disable_umount } => StepView::Bind {
                target: target@,
                source: source@,
                module: opt_id(*module),
                disable_umount: *disable_umount,
            },
            Step::Skeleton {
                target,
                exclusions,
                placeholders,
                module,
                span,
                disable_umount,
            } => StepView::Skeleton {
                target: target@,
                exclusions: texts(exclusions@),
                placeholders: placeholder_views(placeholders@),
                module: opt_id(*module),
                span: *span as nat,
                disable_umount: *disable_umount,
            },
            Step::Private { target } => StepView::Private { target: target@ },
        }
    }
}

/// The views of a list of steps, in order.
pub open spec fn step_views(s: Seq<Step>) -> Seq<StepView> {
    s.map_values(|x: Step| x@)
}

/// What a run has to know besides the plan.
#[derive(Debug, Clone)]
pub struct Environment {
    /// The redirector is there.
    pub redirector_available: bool,
    /// Where the copies of redirected files go.
    pub mirror_dir: String,
    /// Mounts are not tagged as releasable.
    pub disable_umount: bool,
}

/// The mathematical view of what a run has to know.
pub ghost struct EnvironmentView {
    pub available: bool,
    pub mirror_dir: Seq<char>,
    pub disable_umount: bool,
}

impl View for Environment {
    type V = EnvironmentView;

    open spec fn view(&self) -> EnvironmentView {
        EnvironmentView {
            available: self.redirector_available,
            mirror_dir: self.mirror_dir@,
            disable_umount: self.disable_umount,
        }
    }
}

/// What a run under `cfg` has to know.
pub open spec fn environment_of(
    cfg: ConfigView,
    available: bool,
    mirror_dir: Seq<char>,
) -> EnvironmentView {
    EnvironmentView { available, mirror_dir, disable_umount: cfg.disable_umount }
}

/// The id of the module whose contribution comes first.
pub open spec fn first_module(m: Seq<MutationView>) -> Option<Seq<char>> {
    if m.len() > 0 {
        Some(m[0].module_id)
    } else {
        None
    }
}

/// The names of the children that have work to do at their own level, in the
/// order of the children.
pub open spec fn active_names(children: Seq<NodeView>) -> Seq<Seq<char>>
    decreases children.len(),
{
    if children.len() == 0 {
        Seq::empty()
    } else if children.last().strategy != StrategyView::Passthrough {
        active_names(children.drop_last()).push(children.last().name)
    } else {
        active_names(children.drop_last())
    }
}

/// The names that a skeleton leaves out are those of the children whose
/// strategy is not to pass through.
pub proof fn lemma_exclusions_are_active_children(children: Seq<NodeView>)
    ensures
        forall|name: Seq<char>|
            members(active_names(children)).contains(name) <==> exists|i: int|
                0 <= i < children.len() && (#[trigger] children[i]).name == name && children[i].strategy
                    != StrategyView::Passthrough,
    decreases children.len(),
{
    let names = active_names(children);
    if children.len() > 0 {
        let init = children.drop_last();
        let before = active_names(init);
        lemma_exclusions_are_active_children(init);
        assert forall|name: Seq<char>|
            members(names).contains(name) <==> exists|i: int|
                0 <= i < children.len() && (#[trigger] children[i]).name == name && children[i].strategy
                    != StrategyView::Passthrough by {
            if members(names).contains(name) {
                let k = choose|k: int| 0 <= k < names.len() && names[k] == name;
                if k < before.len() {
                    assert(before[k] == name);
                    assert(members(before).contains(name));
                    let i = choose|i: int|
                        0 <= i < init.len() && (#[trigger] init[i]).name == name && init[i].strategy
                            != StrategyView::Passthrough;
                    assert(children[i].name == name);
                } else {
                    assert(children[children.len() - 1].name == name);
                }
            }
            if exists|i: int|
                0 <= i < children.len() && (#[trigger] children[i]).name == name && children[i].strategy
                    != StrategyView::Passthrough {
                let i = choose|i: int|
                    0 <= i < children.len() && (#[trigger] children[i]).name == name
                        && children[i].strategy != StrategyView::Passthrough;
                if i < init.len() {
                    assert(init[i].name == name);
                    assert(members(before).contains(name));
                    let k = choose|k: int| 0 <= k < before.len() && before[k] == name;
                    assert(names[k] == name);
                } else {
                    assert(names[names.len() - 1] == name);
                }
            }
        }
    }
}

/// What a node is mounted as: a union mount and a skeleton stand on a
/// directory, a bind mount and a redirection on a file; a node without a
/// mount of its own goes by its first contribution, and is a directory where
/// it has none.
pub open spec fn mounted_as_directory(node: NodeView) -> bool {
    match node.strategy {
        StrategyView::Overlay { .. } => true,
        StrategyView::Magic => true,
        StrategyView::Bind { .. } => false,
        StrategyView::Hymo { .. } => false,
        _ => node.mutations.len() == 0 || node.mutations[0].file_type
            == crate::tree::FileType::Directory,
    }
}

/// The children that have work to do at their own level, each with what it
/// is mounted as, in the order of the children.
pub open spec fn active_children(children: Seq<NodeView>) -> Seq<PlaceholderView>
    decreases children.len(),
{
    if children.len() == 0 {
        Seq::empty()
    } else if children.last().strategy != StrategyView::Passthrough {
        active_children(children.drop_last()).push(
            PlaceholderView {
                name: children.last().name,
                directory: mounted_as_directory(children.last()),
            },
        )
    } else {
        active_children(children.drop_last())
    }
}

/// Every child that has work to do is among the active children, under its
/// name and with what it is mounted as, and its name is among the names that
/// the skeleton leaves out.
pub proof fn lemma_active_child(children: Seq<NodeView>, i: int)
    requires
        0 <= i < children.len(),
        children[i].strategy != StrategyView::Passthrough,
    ensures
        holds_name(active_names(children), children[i].name),
        exists|k: int|
            0 <= k < active_children(children).len() && #[trigger] active_children(children)[k]
                == (PlaceholderView {
                name: children[i].name,
                directory: mounted_as_directory(children[i]),
            }),
    decreases children.len(),
{
    let names = active_names(children);
    let all = active_children(children);
    let init = children.drop_last();
    if i == children.len() - 1 {
        assert(names[names.len() - 1] == children[i].name);
        assert(all[all.len() - 1] == (PlaceholderView {
            name: children[i].name,
            directory: mounted_as_directory(children[i]),
        }));
    } else {
        lemma_active_child(init, i);
        assert(init[i] == children[i]);
        let n = choose|n: int|
            0 <= n < active_names(init).len() && active_names(init)[n] == children[i].name;
        assert(names[n] == children[i].name);
        let k = choose|k: int|
            0 <= k < active_children(init).len() && #[trigger] active_children(init)[k] == (
            PlaceholderView {
                name: children[i].name,
                directory: mounted_as_directory(children[i]),
            });
        assert(all[k] == active_children(init)[k]);
    }
}

/// A skeleton holds an empty place for every child that has work to do,
/// whatever the directory held before: what the skeleton step of a node and
/// the entries of its directory ask for leaves a place at the child's path,
/// and the step comes before every step of the child.
pub proof fn lemma_skeleton_prepares_mount_points(
    node: NodeView,
    env: EnvironmentView,
    mirror: Seq<char>,
    entries: Seq<MirrorEntry>,
    i: int,
)
    requires
        node.strategy is Magic,
        0 <= i < node.children.len(),
        node.children[i].strategy != StrategyView::Passthrough,
    ensures
        ({
            let step = steps_of(node, env)[0];
            let ops = population(mirror, step->Skeleton_target, step->Skeleton_exclusions, entries)
                + fresh_ops(step->Skeleton_target, step->placeholders, entry_names(entries));
            &&& step is Skeleton
            &&& step->Skeleton_target == node.path
            &&& exists|j: int|
                0 <= j < ops.len() && makes_place(
                    #[trigger] ops[j],
                    joined_path(node.path, node.children[i].name),
                )
        }),
{
    lemma_active_child(node.children, i);
    let wanted = active_children(node.children);
    let k = choose|k: int|
        0 <= k < wanted.len() && #[trigger] wanted[k] == (PlaceholderView {
            name: node.children[i].name,
            directory: mounted_as_directory(node.children[i]),
        });
    lemma_every_exclusion_has_a_place(
        mirror,
        node.path,
        active_names(node.children),
        wanted,
        entries,
        k,
    );
    let step = steps_of(node, env)[0];
    assert(step->Skeleton_target == node.path);
    assert(step->Skeleton_exclusions == active_names(node.children));
    assert(step->placeholders == wanted);
    let ops = population(mirror, node.path, active_names(node.children), entries) + fresh_ops(
        node.path,
        wanted,
        entry_names(entries),
    );
    let j = choose|j: int|
        0 <= j < ops.len() && makes_place(#[trigger] ops[j], joined_path(node.path, wanted[k].name));
    assert(makes_place(ops[j], joined_path(node.path, node.children[i].name)));
}

/// Where the copy of a redirected file lies: at its own path below the mirror
/// directory.
pub open spec fn mirror_path_of(mirror_dir: Seq<char>, target: Seq<char>) -> Seq<char> {
    joined_path(mirror_dir, without_leading(target, '/'))
}

/// The path of the copy of `target` below `mirror_dir`.
pub fn mirror_path(mirror_dir: &str, target: &str) -> (r: String)
    ensures
        r@ == mirror_path_of(mirror_dir@, target@),
{
    join_path(mirror_dir, strip_leading(target, '/'))
}

/// The steps that each child of `node` asks for, child by child.
pub open spec fn child_steps(node: NodeView, env: EnvironmentView) -> Seq<Seq<StepView>>
    decreases node, 0nat,
{
    Seq::new(
        node.children.len(),
        |i: int|
            if 0 <= i < node.children.len() {
                steps_of(node.children[i], env)
            } else {
                arbitrary()
            },
    )
}

/// The steps that the subtree at `node` asks for, the node's own before
/// those of what lies below it. Nodes that pass through, and nodes without a
/// strategy, ask for nothing themselves. A union mount covers all that lies
/// below it, so do a redirection and a bind mount. A skeleton is followed by
/// the steps of its children and closed by a `Private` step.
pub open spec fn steps_of(node: NodeView, env: EnvironmentView) -> Seq<StepView>
    decreases node, 1nat,
{
    let below = concat_all(child_steps(node, env));
    match node.strategy {
        StrategyView::Unresolved => below,
        StrategyView::Passthrough => below,
        StrategyView::Overlay { lowerdirs } => seq![
            StepView::Overlay {
                target: node.path,
                lowerdirs,
                modules: module_ids(node.mutations),
                disable_umount: env.disable_umount,
            },
        ],
        StrategyView::Hymo { source } => seq![
            StepView::Redirect {
                target: node.path,
                source,
                mirror: mirror_path_of(env.mirror_dir, node.path),
                module: first_module(node.mutations),
                enabled: env.available,
            },
        ],
        StrategyView::Bind { source } => seq![
            StepView::Bind {
                target: node.path,
                source,
                module: first_module(node.mutations),
                disable_umount: env.disable_umount,
            },
        ],
        StrategyView::Magic => seq![
            StepView::Skeleton {
                target: node.path,
                exclusions: active_names(node.children),
                placeholders: active_children(node.children),
                module: first_module(node.mutations),
                span: below.len(),
                disable_umount: env.disable_umount,
            },
        ] + below + seq![StepView::Private { target: node.path }],
    }
}

/// What is done before the first node where the redirector is there: its
/// rules are wiped, its switches set, and the mirror directory is made.
pub open spec fn prelude(cfg: ConfigView, available: bool, mirror_dir: Seq<char>) -> Seq<StepView> {
    if available {
        seq![
            StepView::ClearRules,
            StepView::SetStealth { enable: cfg.hymofs_stealth },
            StepView::SetDebug { enable: cfg.hymofs_debug },
            StepView::EnsureMirror { path: mirror_dir },
        ]
    } else {
        Seq::empty()
    }
}

/// All steps of a plan.
pub open spec fn schedule_of(
    plan: NodeView,
    cfg: ConfigView,
    available: bool,
    mirror_dir: Seq<char>,
) -> Seq<StepView> {
    prelude(cfg, available, mirror_dir) + steps_of(
        plan,
        environment_of(cfg, available, mirror_dir),
    )
}

fn ids_of(mutations: &Vec<Mutation>) -> (r: Vec<String>)
    ensures
        texts(r@) == module_ids(crate::tree::mutation_views(mutations@)),
{
    let mut out: Vec<String> = Vec::new();
    let mut i: usize = 0;
    while i < mutations.len()
        invariant
            i <= mutations.len(),
            out@.len() == i,
            forall|j: int| 0 <= j < i ==> (#[trigger] out@[j])@ == mutations@[j].module_id@,
        decreases mutations.len() - i,
    {
        out.push(mutations[i].module_id.clone());
        i = i + 1;
    }
    assert(texts(out@) =~= module_ids(crate::tree::mutation_views(mutations@)));
    out
}

fn first_id(mutations: &Vec<Mutation>) -> (r: Option<String>)
    ensures
        opt_id(r) == first_module(crate::tree::mutation_views(mutations@)),
{
    if mutations.len() > 0 {
        Some(mutations[0].module_id.clone())
    } else {
        None
    }
}

/// The names of the children of `node` that a skeleton at `node` leaves out.
pub fn exclusions_of(node: &FsNode) -> (r: Vec<String>)
    ensures
        texts(r@) == active_names(node@.children),
{
    let ghost children = node@.children;
    let mut out: Vec<String> = Vec::new();
    let mut i: usize = 0;
    assert(children.take(0) =~= Seq::<NodeView>::empty());
    assert(texts(out@) =~= active_names(children.take(0)));
    while i < node.children.len()
        invariant
            i <= node.children.len(),
            children == node@.children,
            texts(out@) == active_names(children.take(i as int)),
        decreases node.children.len() - i,
    {
        assert(children.take(i + 1).drop_last() =~= children.take(i as int));
        assert(children.take(i + 1).last() == node.children@[i as int]@);
        match &node.children[i].strategy {
            MountStrategy::Passthrough => {},
            _ => {
                let ghost old_out = out@;
                out.push(node.children[i].name.clone());
                assert(texts(out@) =~= texts(old_out).push(node.children@[i as int].name@));
            },
        }
        i = i + 1;
    }
    assert(children.take(i as int) =~= children);
    out
}

fn is_mounted_as_directory(node: &FsNode) -> (r: bool)
    ensures
        r == mounted_as_directory(node@),
{
    match &node.strategy {
        MountStrategy::Overlay { .. } => true,
        MountStrategy::Magic => true,
        MountStrategy::Bind { .. } => false,
        MountStrategy::Hymo { .. } => false,
        _ => {
            if node.mutations.len() == 0 {
                true
            } else {
                assert(node@.mutations[0] == node.mutations@[0]@);
                match node.mutations[0].file_type {
                    crate::tree::FileType::Directory => true,
                    _ => false,
                }
            }
        },
    }
}

/// The children of `node` that have work to do, each with what it is mounted
/// as.
pub fn placeholders_of(node: &FsNode) -> (r: Vec<Placeholder>)
    ensures
        placeholder_views(r@) == active_children(node@.children),
{
    let ghost children = node@.children;
    let mut out: Vec<Placeholder> = Vec::new();
    let mut i: usize = 0;
    assert(children.take(0) =~= Seq::<NodeView>::empty());
    assert(placeholder_views(out@) =~= active_children(children.take(0)));
    while i < node.children.len()
        invariant
            i <= node.children.len(),
            children == node@.children,
            placeholder_views(out@) == active_children(children.take(i as int)),
        decreases node.children.len() - i,
    {
        assert(children.take(i + 1).drop_last() =~= children.take(i as int));
        assert(children.take(i + 1).last() == node.children@[i as int]@);
        match &node.children[i].strategy {
            MountStrategy::Passthrough => {},
            _ => {
                let ghost old_out = out@;
                let p = Placeholder {
                    name: node.children[i].name.clone(),
                    directory: is_mounted_as_directory(&node.children[i]),
                };
                out.push(p);
                assert(placeholder_views(out@) =~= placeholder_views(old_out).push(
                    PlaceholderView {
                        name: node.children@[i as int].name@,
                        directory: mounted_as_directory(node.children@[i as int]@),
                    },
                ));
            },
        }
        i = i + 1;
    }
    assert(children.take(i as int) =~= children);
    out
}

/// The steps that the subtree at `node` asks for.
pub fn steps_for(node: &FsNode, env: &Environment) -> (r: Vec<Step>)
    ensures
        step_views(r@) == steps_of(node@, env@),
    decreases node,
{
    match &node.strategy {
        MountStrategy::Overlay { lowerdirs } => {
            let mut out: Vec<Step> = Vec::new();
            out.push(
                Step::Overlay {
                    target: node.path.clone(),
                    lowerdirs: lowerdirs.clone(),
                    modules: ids_of(&node.mutations),
                    disable_umount: env.disable_umount,
                },
            );
            assert(step_views(out@) =~= steps_of(node@, env@));
            return out;
        },
        MountStrategy::Hymo { source } => {
            let mut out: Vec<Step> = Vec::new();
            out.push(
                Step::Redirect {
                    target: node.path.clone(),
                    source: source.clone(),
                    mirror: mirror_path(env.mirror_dir.as_str(), node.path.as_str()),
                    module: first_id(&node.mutations),
                    enabled: env.redirector_available,
                },
            );
            assert(step_views(out@) =~= steps_of(node@, env@));
            return out;
        },
        MountStrategy::Bind { source } => {
            let mut out: Vec<Step> = Vec::new();
            out.push(
                Step::Bind {
                    target: node.path.clone(),
                    source: source.clone(),
                    module: first_id(&node.mutations),
                    disable_umount: env.disable_umount,
                },
            );
            assert(step_views(out@) =~= steps_of(node@, env@));
            return out;
        },
        _ => {},
    }
    let ghost parts = child_steps(node@, env@);
    let mut below: Vec<Step> = Vec::new();
    let mut i: usize = 0;
    assert(parts.take(0) =~= Seq::<Seq<StepView>>::empty());
    assert(step_views(below@) =~= concat_all(parts.take(0)));
    while i < node.children.len()
        invariant
            i <= node.children.len(),
            parts.len() == node.children@.len(),
            forall|k: int|
                0 <= k < parts.len() ==> #[trigger] parts[k] == steps_of(node.children@[k]@, env@),
            step_views(below@) == concat_all(parts.take(i as int)),
        decreases node.children.len() - i,
    {
        assert(parts.take(i + 1).drop_last() =~= parts.take(i as int));
        assert(parts.take(i + 1).last() == parts[i as int]);
        let mut sub: Vec<Step> = steps_for(&node.children[i], env);
        let ghost old_below = below@;
        let ghost added = sub@;
        below.append(&mut sub);
        assert(step_views(below@) =~= step_views(old_below) + step_views(added));
        i = i + 1;
    }
    assert(parts.take(i as int) =~= parts);
    match &node.strategy {
        MountStrategy::Magic => {
            let mut out: Vec<Step> = Vec::new();
            out.push(
                Step::Skeleton {
                    target: node.path.clone(),
                    exclusions: exclusions_of(node),
                    placeholders: placeholders_of(node),
                    module: first_id(&node.mutations),
                    span: below.len(),
                    disable_umount: env.disable_umount,
                },
            );
            let ghost head = out@;
            let ghost body = below@;
            out.append(&mut below);
            out.push(Step::Private { target: node.path.clone() });
            assert(step_views(out@) =~= step_views(head) + step_views(body) + seq![
                StepView::Private { target: node.path@ },
            ]);
            assert(step_views(out@) =~= steps_of(node@, env@));
            out
        },
        _ => below,
    }
}

/// The steps of a plan, in the order in which they are taken.
pub fn schedule(plan: &MountPlan, config: &Config, available: bool, mirror_dir: &str) -> (r: Vec<
    Step,
>)
    ensures
        step_views(r@) == schedule_of(plan@, config@, available, mirror_dir@),
{
    let mut out: Vec<Step> = Vec::new();
    if available {
        out.push(Step::ClearRules);
        out.push(Step::SetStealth { enable: config.hymofs_stealth });
        out.push(Step::SetDebug { enable: config.hymofs_debug });
        out.push(Step::EnsureMirror { path: String::from_str(mirror_dir) });
    }
    assert(step_views(out@) =~= prelude(config@, available, mirror_dir@));
    let env = Environment {
        redirector_available: available,
        mirror_dir: String::from_str(mirror_dir),
        disable_umount: config.disable_umount,
    };
    let ghost head = out@;
    let mut body: Vec<Step> = steps_for(&plan.root, &env);
    let ghost tail = body@;
    out.append(&mut body);
    assert(step_views(out@) =~= step_views(head) + step_views(tail));
    out
}

/// A skeleton comes before everything that is done below it: the steps of a
/// node that becomes a skeleton start with its `Skeleton` step, end with its
/// `Private` step, and hold the steps of its children between the two.
pub proof fn lemma_skeleton_comes_first(node: NodeView, env: EnvironmentView)
    requires
        node.strategy is Magic,
    ensures
        ({
            let steps = steps_of(node, env);
            let below = concat_all(child_steps(node, env));
            &&& steps.len() == below.len() + 2
            &&& steps[0] is Skeleton
            &&& steps[0]->Skeleton_target == node.path
            &&& steps[0]->Skeleton_exclusions == active_names(node.children)
            &&& steps[0]->placeholders == active_children(node.children)
            &&& steps[0]->span == below.len()
            &&& steps.subrange(1, steps.len() - 1) == below
            &&& steps.last() == StepView::Private { target: node.path }
        }),
{
    let steps = steps_of(node, env);
    let below = concat_all(child_steps(node, env));
    assert(steps.subrange(1, steps.len() - 1) =~= below);
}

/// A node with a union mount, a redirection or a bind mount asks for that one
/// step, whatever lies below it.
pub proof fn lemma_mounts_cover_subtrees(node: NodeView, env: EnvironmentView)
    requires
        node.strategy is Overlay || node.strategy is Hymo || node.strategy is Bind,
    ensures
        steps_of(node, env).len() == 1,
{
}

/// Rules are added to the redirector only where it is there, and then its
/// rules were wiped first.
pub proof fn lemma_rules_cleared_first(
    plan: NodeView,
    cfg: ConfigView,
    available: bool,
    mirror_dir: Seq<char>,
    k: int,
)
    requires
        0 <= k < schedule_of(plan, cfg, available, mirror_dir).len(),
        schedule_of(plan, cfg, available, mirror_dir)[k] is Redirect,
        schedule_of(plan, cfg, available, mirror_dir)[k]->enabled,
    ensures
        available,
        k >= 4,
        schedule_of(plan, cfg, available, mirror_dir)[0] == StepView::ClearRules,
{
    lemma_redirects_follow_availability(
        plan,
        environment_of(cfg, available, mirror_dir),
        k - prelude(cfg, available, mirror_dir).len(),
    );
}

/// Every redirection among the steps of a subtree is enabled as the
/// redirector is there.
pub proof fn lemma_redirects_follow_availability(node: NodeView, env: EnvironmentView, k: int)
    ensures
        0 <= k < steps_of(node, env).len() && steps_of(node, env)[k] is Redirect ==> steps_of(
            node,
            env,
        )[k]->enabled == env.available,
    decreases node,
{
    let steps = steps_of(node, env);
    if 0 <= k < steps.len() && steps[k] is Redirect {
        let parts = child_steps(node, env);
        let below = concat_all(parts);
        match node.strategy {
            StrategyView::Unresolved | StrategyView::Passthrough => {
                lemma_redirects_in_parts(node, env, parts.len() as int, k);
                assert(parts.take(parts.len() as int) =~= parts);
            },
            StrategyView::Magic => {
                assert(steps[k] == below[k - 1]);
                lemma_redirects_in_parts(node, env, parts.len() as int, k - 1);
                assert(parts.take(parts.len() as int) =~= parts);
            },
            _ => {},
        }
    }
}

/// The same of the steps of the first `n` children of a node.
pub proof fn lemma_redirects_in_parts(node: NodeView, env: EnvironmentView, n: int, k: int)
    requires
        0 <= n <= node.children.len(),
    ensures
        ({
            let steps = concat_all(child_steps(node, env).take(n));
            0 <= k < steps.len() && steps[k] is Redirect ==> steps[k]->enabled == env.available
        }),
    decreases node, n,
{
    let parts = child_steps(node, env);
    let steps = concat_all(parts.take(n));
    if n > 0 && 0 <= k < steps.len() {
        assert(parts.take(n).drop_last() =~= parts.take(n - 1));
        let before = concat_all(parts.take(n - 1));
        if k < before.len() {
            lemma_redirects_in_parts(node, env, n - 1, k);
        } else {
            assert(parts.take(n).last() == steps_of(node.children[n - 1], env));
            lemma_redirects_follow_availability(node.children[n - 1], env, k - before.len());
        }
    }
}

/// The `Skeleton` step at `k`, if there is one, is closed: the step that
/// lies `span` steps behind it is the `Private` step of the same directory.
pub open spec fn span_closes(steps: Seq<StepView>, k: int) -> bool {
    steps[k] is Skeleton ==> k + steps[k]->span + 1 < steps.len() && steps[k + steps[k]->span + 1]
        == (StepView::Private { target: steps[k]->Skeleton_target })
}

/// Every skeleton among the steps of a subtree is closed within them, so
/// that leaving out what lies below a failed skeleton never leaves out more.
pub proof fn lemma_span_closes(node: NodeView, env: EnvironmentView, k: int)
    requires
        0 <= k < steps_of(node, env).len(),
    ensures
        span_closes(steps_of(node, env), k),
    decreases node,
{
    let steps = steps_of(node, env);
    let parts = child_steps(node, env);
    let below = concat_all(parts);
    assert(parts.take(parts.len() as int) =~= parts);
    match node.strategy {
        StrategyView::Unresolved | StrategyView::Passthrough => {
            lemma_span_closes_in_parts(node, env, parts.len() as int, k);
        },
        StrategyView::Magic => {
            if 0 < k < steps.len() - 1 {
                lemma_span_closes_in_parts(node, env, parts.len() as int, k - 1);
                assert(steps[k] == below[k - 1]);
                if steps[k] is Skeleton {
                    let end = k - 1 + below[k - 1]->span + 1;
                    assert(steps[end + 1] == below[end]);
                }
            }
        },
        _ => {},
    }
}

/// The same of the steps of the first `n` children of a node.
pub proof fn lemma_span_closes_in_parts(node: NodeView, env: EnvironmentView, n: int, k: int)
    requires
        0 <= n <= node.children.len(),
        0 <= k < concat_all(child_steps(node, env).take(n)).len(),
    ensures
        span_closes(concat_all(child_steps(node, env).take(n)), k),
    decreases node, n,
{
    let parts = child_steps(node, env);
    let steps = concat_all(parts.take(n));
    if n > 0 {
        assert(parts.take(n).drop_last() =~= parts.take(n - 1));
        let before = concat_all(parts.take(n - 1));
        let last = parts.take(n).last();
        assert(last == steps_of(node.children[n - 1], env));
        assert(steps == before + last);
        if k < before.len() {
            lemma_span_closes_in_parts(node, env, n - 1, k);
            assert(steps[k] == before[k]);
            if steps[k] is Skeleton {
                let end = k + before[k]->span + 1;
                assert(steps[end] == before[end]);
            }
        } else {
            let j = k - before.len();
            lemma_span_closes(node.children[n - 1], env, j);
            assert(steps[k] == last[j]);
            if steps[k] is Skeleton {
                let end = j + last[j]->span + 1;
                assert(steps[before.len() + end] == last[end]);
            }
        }
    }
}

/// In the steps of a plan every skeleton is closed, so the step that follows
/// a failed skeleton is the one behind its `Private` step.
pub proof fn lemma_failed_skeleton_skips_its_subtree(
    plan: NodeView,
    cfg: ConfigView,
    available: bool,
    mirror_dir: Seq<char>,
    run: ExecutionView,
)
    requires
        run.steps == schedule_of(plan, cfg, available, mirror_dir),
        run.pc < run.steps.len(),
        run.steps[run.pc as int] is Skeleton,
    ensures
        span_closes(run.steps, run.pc as int),
        run.following(false) == run.pc + run.steps[run.pc as int]->span + 2,
        run.following(true) == run.pc + 1,
{
    let env = environment_of(cfg, available, mirror_dir);
    let head = prelude(cfg, available, mirror_dir);
    let body = steps_of(plan, env);
    let k = run.pc as int;
    assert(k >= head.len());
    lemma_span_closes(plan, env, k - head.len());
    assert(run.steps[k] == body[k - head.len()]);
    let end = k - head.len() + body[k - head.len()]->span + 1;
    assert(run.steps[head.len() + end] == body[end]);
}

/// Every mount that a plan asks for is tagged as releasable or not as the
/// configuration says.
pub proof fn lemma_mounts_follow_the_configuration(node: NodeView, env: EnvironmentView, k: int)
    ensures
        0 <= k < steps_of(node, env).len() ==> match steps_of(node, env)[k] {
            StepView::Overlay { disable_umount, .. } => disable_umount == env.disable_umount,
            StepView::Bind { disable_umount, .. } => disable_umount == env.disable_umount,
            StepView::Skeleton { disable_umount, .. } => disable_umount == env.disable_umount,
            _ => true,
        },
    decreases node,
{
    let steps = steps_of(node, env);
    if 0 <= k < steps.len() {
        let parts = child_steps(node, env);
        let below = concat_all(parts);
        assert(parts.take(parts.len() as int) =~= parts);
        match node.strategy {
            StrategyView::Unresolved | StrategyView::Passthrough => {
                lemma_mounts_in_parts(node, env, parts.len() as int, k);
            },
            StrategyView::Magic => {
                if 0 < k < steps.len() - 1 {
                    assert(steps[k] == below[k - 1]);
                    lemma_mounts_in_parts(node, env, parts.len() as int, k - 1);
                }
            },
            _ => {},
        }
    }
}

/// The same of the steps of the first `n` children of a node.
pub proof fn lemma_mounts_in_parts(node: NodeView, env: EnvironmentView, n: int, k: int)
    requires
        0 <= n <= node.children.len(),
    ensures
        ({
            let steps = concat_all(child_steps(node, env).take(n));
            0 <= k < steps.len() ==> match steps[k] {
                StepView::Overlay { disable_umount, .. } => disable_umount == env.disable_umount,
                StepView::Bind { disable_umount, .. } => disable_umount == env.disable_umount,
                StepView::Skeleton { disable_umount, .. } => disable_umount == env.disable_umount,
                _ => true,
            }
        }),
    decreases node, n,
{
    let parts = child_steps(node, env);
    let steps = concat_all(parts.take(n));
    if n > 0 && 0 <= k < steps.len() {
        assert(parts.take(n).drop_last() =~= parts.take(n - 1));
        let before = concat_all(parts.take(n - 1));
        if k < before.len() {
            lemma_mounts_in_parts(node, env, n - 1, k);
        } else {
            assert(parts.take(n).last() == steps_of(node.children[n - 1], env));
            lemma_mounts_follow_the_configuration(node.children[n - 1], env, k - before.len());
        }
    }
}

/// The durable record of a run: the ids of the modules whose contributions
/// were made visible, by the kind of strategy, each list sorted and without
/// duplicates.
#[derive(Debug, Clone)]
pub struct ExecutionResult {
    pub overlay_module_ids: Vec<String>,
    pub hymo_module_ids: Vec<String>,
    pub magic_module_ids: Vec<String>,
}

/// Two records of the same modules are the same record: each list is fixed
/// by what it holds, in whatever order the modules were recorded.
pub proof fn lemma_results_agree(a: ExecutionResult, b: ExecutionResult)
    requires
        strictly_sorted(texts(a.overlay_module_ids@)),
        strictly_sorted(texts(a.hymo_module_ids@)),
        strictly_sorted(texts(a.magic_module_ids@)),
        strictly_sorted(texts(b.overlay_module_ids@)),
        strictly_sorted(texts(b.hymo_module_ids@)),
        strictly_sorted(texts(b.magic_module_ids@)),
        members(texts(a.overlay_module_ids@)) == members(texts(b.overlay_module_ids@)),
        members(texts(a.hymo_module_ids@)) == members(texts(b.hymo_module_ids@)),
        members(texts(a.magic_module_ids@)) == members(texts(b.magic_module_ids@)),
    ensures
        texts(a.overlay_module_ids@) == texts(b.overlay_module_ids@),
        texts(a.hymo_module_ids@) == texts(b.hymo_module_ids@),
        texts(a.magic_module_ids@) == texts(b.magic_module_ids@),
{
    crate::lists::lemma_sorted_lists_agree(
        texts(a.overlay_module_ids@),
        texts(b.overlay_module_ids@),
    );
    crate::lists::lemma_sorted_lists_agree(texts(a.hymo_module_ids@), texts(b.hymo_module_ids@));
    crate::lists::lemma_sorted_lists_agree(texts(a.magic_module_ids@), texts(b.magic_module_ids@));
}

/// A plan that is being carried out: the steps, how far the caller has come,
/// and the modules on record so far.
#[derive(Debug)]
pub struct Execution {
    steps: Vec<Step>,
    pc: usize,
    overlay: Vec<String>,
    hymo: Vec<String>,
    magic: Vec<String>,
}

/// The mathematical view of a plan that is being carried out.
pub ghost struct ExecutionView {
    pub steps: Seq<StepView>,
    /// Index of the step to take next.
    pub pc: nat,
    /// The modules of the union mounts that were made.
    pub overlay: Set<Seq<char>>,
    /// The modules of the redirections that were installed.
    pub hymo: Set<Seq<char>>,
    /// The modules of the bind mounts and skeletons that were made.
    pub magic: Set<Seq<char>>,
}

/// The set with the id in it, where there is one.
pub open spec fn with_id(set: Set<Seq<char>>, id: Option<Seq<char>>) -> Set<Seq<char>> {
    match id {
        Some(m) => set.insert(m),
        None => set,
    }
}

impl ExecutionView {
    /// A run that has not begun.
    pub open spec fn started(steps: Seq<StepView>) -> ExecutionView {
        ExecutionView {
            steps,
            pc: 0,
            overlay: Set::empty(),
            hymo: Set::empty(),
            magic: Set::empty(),
        }
    }

    /// Nothing is left to do.
    pub open spec fn done(self) -> bool {
        self.pc >= self.steps.len()
    }

    /// The record after the next step was taken. The modules of a step go on
    /// record where the step made what it stands for: it succeeded, and, for
    /// a redirection, the redirector was there to take the rule. A step that
    /// failed and a redirection that was not enabled leave the record as it
    /// was.
    pub open spec fn credited(self, succeeded: bool) -> ExecutionView {
        if !succeeded {
            self
        } else {
            match self.steps[self.pc as int] {
                StepView::Overlay { modules, .. } => ExecutionView {
                    overlay: self.overlay.union(members(modules)),
                    ..self
                },
                StepView::Redirect { module, enabled, .. } => ExecutionView {
                    hymo: if enabled {
                        with_id(self.hymo, module)
                    } else {
                        self.hymo
                    },
                    ..self
                },
                StepView::Bind { module, .. } => ExecutionView {
                    magic: with_id(self.magic, module),
                    ..self
                },
                StepView::Skeleton { module, .. } => ExecutionView {
                    magic: with_id(self.magic, module),
                    ..self
                },
                _ => self,
            }
        }
    }

    /// Index of the step that follows the next one: the one behind it, but
    /// for a skeleton that failed, whose subtree is left out.
    pub open spec fn following(self, succeeded: bool) -> nat {
        match self.steps[self.pc as int] {
            StepView::Skeleton { span, .. } => if succeeded {
                self.pc + 1
            } else if self.pc + span + 2 <= self.steps.len() {
                self.pc + span + 2
            } else {
                self.steps.len()
            },
            _ => self.pc + 1,
        }
    }

    /// The run after the next step was taken and went as `succeeded` says.
    /// A failed step is not recorded; the run goes on behind it, or behind its
    /// subtree where it was a skeleton.
    pub open spec fn advanced(self, succeeded: bool) -> ExecutionView {
        if self.done() {
            self
        } else {
            ExecutionView { pc: self.following(succeeded), ..self.credited(succeeded) }
        }
    }
}

impl View for Execution {
    type V = ExecutionView;

    closed spec fn view(&self) -> ExecutionView {
        ExecutionView {
            steps: step_views(self.steps@),
            pc: self.pc as nat,
            overlay: members(texts(self.overlay@)),
            hymo: members(texts(self.hymo@)),
            magic: members(texts(self.magic@)),
        }
    }
}

fn credit(list: &mut Vec<String>, id: &Option<String>)
    requires
        strictly_sorted(texts(old(list)@)),
    ensures
        strictly_sorted(texts(final(list)@)),
        members(texts(final(list)@)) == with_id(members(texts(old(list)@)), opt_id(*id)),
{
    match id {
        Some(m) => {
            insert_unique(list, m.as_str());
        },
        None => {},
    }
}

fn credit_all(list: &mut Vec<String>, ids: &Vec<String>)
    requires
        strictly_sorted(texts(old(list)@)),
    ensures
        strictly_sorted(texts(final(list)@)),
        members(texts(final(list)@)) == members(texts(old(list)@)).union(members(texts(ids@))),
{
    let ghost start = members(texts(list@));
    let mut i: usize = 0;
    assert(texts(ids@).take(0) =~= Seq::<Seq<char>>::empty());
    assert(members(texts(ids@).take(0)) =~= Set::<Seq<char>>::empty());
    assert(start.union(members(texts(ids@).take(0))) =~= start);
    while i < ids.len()
        invariant
            i <= ids.len(),
            strictly_sorted(texts(list@)),
            members(texts(list@)) == start.union(members(texts(ids@).take(i as int))),
        decreases ids.len() - i,
    {
        insert_unique(list, ids[i].as_str());
        proof {
            let a = texts(ids@).take(i as int);
            let b = texts(ids@).take(i + 1);
            assert(b =~= a.push(ids@[i as int]@));
            assert forall|t: Seq<char>| members(b).contains(t) == members(a).insert(
                ids@[i as int]@,
            ).contains(t) by {
                if members(b).contains(t) {
                    let k = choose|k: int| 0 <= k < b.len() && b[k] == t;
                    if k < a.len() {
                        assert(a[k] == t);
                    }
                }
                if members(a).contains(t) {
                    let k = choose|k: int| 0 <= k < a.len() && a[k] == t;
                    assert(b[k] == t);
                }
                if t == ids@[i as int]@ {
                    assert(b[i as int] == t);
                }
            }
            assert(members(b) =~= members(a).insert(ids@[i as int]@));
            assert(start.union(members(a)).insert(ids@[i as int]@) =~= start.union(members(b)));
        }
        i = i + 1;
    }
    assert(texts(ids@).take(i as int) =~= texts(ids@));
}

impl Execution {
    /// The lists of modules are sorted and the position is inside the steps
    /// or at their end.
    #[verifier::type_invariant]
    spec fn wf(self) -> bool {
        &&& self.pc <= self.steps@.len()
        &&& strictly_sorted(texts(self.overlay@))
        &&& strictly_sorted(texts(self.hymo@))
        &&& strictly_sorted(texts(self.magic@))
    }

    /// Whether nothing is left to do.
    pub fn is_done(&self) -> (r: bool)
        ensures
            r == self@.done(),
    {
        self.pc >= self.steps.len()
    }

    /// The step to take next, if one is left.
    pub fn current(&self) -> (r: Option<&Step>)
        ensures
            self@.done() ==> r is None,
            !self@.done() ==> r is Some && r->0@ == self@.steps[self@.pc as int],
    {
        if self.pc < self.steps.len() {
            Some(&self.steps[self.pc])
        } else {
            None
        }
    }

    /// Records how the step handed out last went, and moves on. `succeeded`
    /// says that the step made what it stands for; a redirection that is not
    /// enabled makes nothing, whatever is said of it.
    pub fn advance(&mut self, succeeded: bool)
        ensures
            final(self)@ == old(self)@.advanced(succeeded),
    {
        proof {
            use_type_invariant(&*self);
        }
        if self.pc >= self.steps.len() {
            return ;
        }
        let n: usize = self.steps.len();
        let mut next: usize = self.pc + 1;
        assert(step_views(self.steps@)[self.pc as int] == self.steps@[self.pc as int]@);
        match &self.steps[self.pc] {
            Step::Overlay { modules, .. } => {
                if succeeded {
                    let mut list: Vec<String> = self.overlay.clone();
                    credit_all(&mut list, modules);
                    self.overlay = list;
                }
            },
            Step::Redirect { module, enabled, .. } => {
                if succeeded && *enabled {
                    let mut list: Vec<String> = self.hymo.clone();
                    credit(&mut list, module);
                    self.hymo = list;
                }
            },
            Step::Bind { module, .. } => {
                if succeeded {
                    let mut list: Vec<String> = self.magic.clone();
                    credit(&mut list, module);
                    self.magic = list;
                }
            },
            Step::Skeleton { module, span, .. } => {
                if succeeded {
                    let mut list: Vec<String> = self.magic.clone();
                    credit(&mut list, module);
                    self.magic = list;
                }
                if !succeeded {
                    let room: usize = n - self.pc;
                    next = if *span <= room && room - *span >= 2 {
                        self.pc + *span + 2
                    } else {
                        n
                    };
                }
            },
            _ => {},
        }
        self.pc = next;
    }

    /// The record of the run so far.
    pub fn result(&self) -> (r: ExecutionResult)
        ensures
            strictly_sorted(texts(r.overlay_module_ids@)),
            strictly_sorted(texts(r.hymo_module_ids@)),
            strictly_sorted(texts(r.magic_module_ids@)),
            members(texts(r.overlay_module_ids@)) == self@.overlay,
            members(texts(r.hymo_module_ids@)) == self@.hymo,
            members(texts(r.magic_module_ids@)) == self@.magic,
    {
        proof {
            use_type_invariant(self);
        }
        ExecutionResult {
            overlay_module_ids: self.overlay.clone(),
            hymo_module_ids: self.hymo.clone(),
            magic_module_ids: self.magic.clone(),
        }
    }
}

/// Begins to carry out `plan`. `redirector_available` says whether the
/// redirector is there; `mirror_dir` is where the copies of redirected files
/// go.
pub fn execute(plan: &MountPlan, config: &Config, redirector_available: bool, mirror_dir: &str) -> (run:
    Execution)
    ensures
        run@ == ExecutionView::started(
            schedule_of(plan@, config@, redirector_available, mirror_dir@),
        ),
{
    let run = Execution {
        steps: schedule(plan, config, redirector_available, mirror_dir),
        pc: 0,
        overlay: Vec::new(),
        hymo: Vec::new(),
        magic: Vec::new(),
    };
    assert(members(texts(run.overlay@)) =~= Set::<Seq<char>>::empty());
    assert(members(texts(run.hymo@)) =~= Set::<Seq<char>>::empty());
    assert(members(texts(run.magic@)) =~= Set::<Seq<char>>::empty());
    run
}

} // verus!
