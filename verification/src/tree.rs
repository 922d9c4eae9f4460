//! The virtual filesystem tree: one node per path that some module touches,
//! with the contributions made at that path and the strategy chosen for it.

use vstd::prelude::*;
use crate::inventory::MountMode;
use crate::text::{join_path, joined_path, same_text, texts};

verus! {

/// What kind of file a contribution is.
#[derive(Debug, Clone, Copy, PartialEq, Eq, Structural)]
pub enum FileType {
    File,
    Directory,
    Symlink,
}

/// One module's contribution at one path.
#[derive(Debug, Clone)]
pub struct Mutation {
    pub module_id: String,
    pub source_path: String,
    pub file_type: FileType,
    pub mode: MountMode,
}

/// The mathematical view of a contribution.
pub ghost struct MutationView {
    pub module_id: Seq<char>,
    pub source_path: Seq<char>,
    pub file_type: FileType,
    pub mode: MountMode,
}

impl View for Mutation {
    type V = MutationView;

    open spec fn view(&self) -> MutationView {
        MutationView {
            module_id: self.module_id@,
            source_path: self.source_path@,
            file_type: self.file_type,
            mode: self.mode,
        }
    }
}

/// The views of a list of contributions, in order.
pub open spec fn mutation_views(s: Seq<Mutation>) -> Seq<MutationView> {
    s.map_values(|m: Mutation| m@)
}

/// The ids of the modules that contributed, in order.
pub open spec fn module_ids(m: Seq<MutationView>) -> Seq<Seq<char>> {
    m.map_values(|x: MutationView| x.module_id)
}

/// How a node is made visible.
#[derive(Debug, Clone)]
pub enum MountStrategy {
    /// Not decided yet.
    Unresolved,
    /// Nothing is done at this level; the children carry the work.
    Passthrough,
    /// The contributed directories are stacked on the existing one, the first
    /// on top.
    Overlay { lowerdirs: Vec<String> },
    /// Reads of the path are redirected to `source`.
    Hymo { source: String },
    /// `source` is bind-mounted onto the path.
    Bind { source: String },
    /// The directory is replaced by a tmpfs skeleton.
    Magic,
}

/// The mathematical view of a strategy.
pub ghost enum StrategyView {
    Unresolved,
    Passthrough,
    Overlay { lowerdirs: Seq<Seq<char>> },
    Hymo { source: Seq<char> },
    Bind { source: Seq<char> },
    Magic,
}

impl View for MountStrategy {
    type V = StrategyView;

    open spec fn view(&self) -> StrategyView {
        match self {
            MountStrategy::Unresolved => StrategyView::Unresolved,
            MountStrategy::Passthrough => StrategyView::Passthrough,
            MountStrategy::Overlay { lowerdirs } => StrategyView::Overlay {
                lowerdirs: texts(lowerdirs@),
            },
            MountStrategy::Hymo { source } => StrategyView::Hymo { source: source@ },
            MountStrategy::Bind { source } => StrategyView::Bind { source: source@ },
            MountStrategy::Magic => StrategyView::Magic,
        }
    }
}

/// A node of the virtual tree.
#[derive(Debug)]
pub struct FsNode {
    /// Last component of `path`; `/` for the root.
    pub name: String,
    /// Absolute path that the node stands for.
    pub path: String,
    /// The contributions at this path, in the order in which the modules were
    /// read.
    pub mutations: Vec<Mutation>,
    /// The nodes one level below, in the order in which they were first
    /// touched.
    pub children: Vec<FsNode>,
    pub strategy: MountStrategy,
}

/// The mathematical view of a node and of all that lies below it.
#[verifier::ext_equal]
pub ghost struct NodeView {
    pub name: Seq<char>,
    pub path: Seq<char>,
    pub mutations: Seq<MutationView>,
    pub children: Seq<NodeView>,
    pub strategy: StrategyView,
}

/// A node without contributions, children or strategy.
pub open spec fn leaf(name: Seq<char>, path: Seq<char>) -> NodeView {
    NodeView {
        name,
        path,
        mutations: Seq::empty(),
        children: Seq::empty(),
        strategy: StrategyView::Unresolved,
    }
}

/// Index of the first node of `children` named `name`; their number if none
/// is.
pub open spec fn child_position(children: Seq<NodeView>, name: Seq<char>) -> int
    decreases children.len(),
{
    if children.len() == 0 {
        0
    } else if children[0].name == name {
        0
    } else {
        1 + child_position(children.skip(1), name)
    }
}

/// `children` with a fresh leaf named `name` below `parent_path` at their
/// end, unless one of them has that name already.
pub open spec fn children_with(
    children: Seq<NodeView>,
    parent_path: Seq<char>,
    name: Seq<char>,
) -> Seq<NodeView> {
    if child_position(children, name) < children.len() {
        children
    } else {
        children.push(leaf(name, joined_path(parent_path, name)))
    }
}

/// `parent` with its child named `name` replaced by `child`, the child added
/// at the end where `parent` has none of that name.
pub open spec fn with_child(parent: NodeView, name: Seq<char>, child: NodeView) -> NodeView {
    NodeView {
        name: parent.name,
        path: parent.path,
        mutations: parent.mutations,
        children: children_with(parent.children, parent.path, name).update(
            child_position(parent.children, name),
            child,
        ),
        strategy: parent.strategy,
    }
}

/// The position of a name is that of the first child of that name, and no
/// child before it has the name.
pub proof fn lemma_child_position(children: Seq<NodeView>, name: Seq<char>)
    ensures
        0 <= child_position(children, name) <= children.len(),
        child_position(children, name) < children.len() ==> children[child_position(
            children,
            name,
        )].name == name,
        forall|j: int|
            0 <= j < child_position(children, name) ==> (#[trigger] children[j]).name != name,
    decreases children.len(),
{
    if children.len() > 0 && children[0].name != name {
        let rest = children.skip(1);
        lemma_child_position(rest, name);
        assert forall|j: int| 0 <= j < child_position(children, name) implies (
        #[trigger] children[j]).name != name by {
            if j > 0 {
                assert(children[j] == rest[j - 1]);
            }
        }
    }
}

/// Where the first `n` children do not have the name and the next one has, or
/// there is no next one, `n` is the position of the name.
pub proof fn lemma_child_position_is(children: Seq<NodeView>, name: Seq<char>, n: int)
    requires
        0 <= n <= children.len(),
        forall|j: int| 0 <= j < n ==> (#[trigger] children[j]).name != name,
        n < children.len() ==> children[n].name == name,
    ensures
        child_position(children, name) == n,
    decreases n,
{
    if n > 0 {
        let rest = children.skip(1);
        assert forall|j: int| 0 <= j < n - 1 implies (#[trigger] rest[j]).name != name by {
            assert(rest[j] == children[j + 1]);
        }
        assert(children[0].name != name);
        lemma_child_position_is(rest, name, n - 1);
    }
}

impl FsNode {
    /// The view of the node, built from the views of its children.
    pub open spec fn model(self) -> NodeView
        decreases self,
    {
        NodeView {
            name: self.name@,
            path: self.path@,
            mutations: mutation_views(self.mutations@),
            children: Seq::new(
                self.children@.len(),
                |i: int|
                    if 0 <= i < self.children@.len() {
                        self.children@[i].model()
                    } else {
                        arbitrary()
                    },
            ),
            strategy: self.strategy@,
        }
    }
}

impl View for FsNode {
    type V = NodeView;

    open spec fn view(&self) -> NodeView {
        self.model()
    }
}

impl FsNode {
    /// A node without contributions, children or strategy.
    pub fn new(name: &str, path: String) -> (node: FsNode)
        ensures
            node@ == leaf(name@, path@),
    {
        let node = FsNode {
            name: String::from_str(name),
            path,
            mutations: Vec::new(),
            children: Vec::new(),
            strategy: MountStrategy::Unresolved,
        };
        assert(node@.children =~= Seq::<NodeView>::empty());
        assert(node@.mutations =~= Seq::<MutationView>::empty());
        node
    }

    /// Index of the first child named `name`, or the number of children.
    pub fn find_child(&self, name: &str) -> (k: usize)
        ensures
            k == child_position(self@.children, name@),
            k <= self.children@.len(),
    {
        let mut k: usize = 0;
        while k < self.children.len()
            invariant
                k <= self.children.len(),
                forall|j: int| 0 <= j < k ==> (#[trigger] self@.children[j]).name != name@,
            decreases self.children.len() - k,
        {
            assert(self@.children[k as int] == self.children@[k as int]@);
            if same_text(self.children[k].name.as_str(), name) {
                proof {
                    lemma_child_position_is(self@.children, name@, k as int);
                }
                return k;
            }
            k = k + 1;
        }
        proof {
            lemma_child_position_is(self@.children, name@, k as int);
        }
        k
    }

    /// The child named `name`, made as a leaf if there is none yet.
    pub fn get_or_create_child(&mut self, name: &str) -> (child: &mut FsNode)
        ensures
            child@ == children_with(old(self)@.children, old(self)@.path, name@)[child_position(
                old(self)@.children,
                name@,
            )],
            final(self)@.children =~= with_child(old(self)@, name@, final(child)@).children,
            final(self)@ == with_child(old(self)@, name@, final(child)@),
    {
        let k: usize = self.find_child(name);
        if k == self.children.len() {
            let fresh: FsNode = FsNode::new(name, join_path(self.path.as_str(), name));
            self.children.push(fresh);
        }
        let ghost expected = children_with(old(self)@.children, old(self)@.path, name@);
        assert(self@.children =~= expected);
        assert forall|i: int| 0 <= i < expected.len() implies (#[trigger] self.children@[i]).model()
            == expected[i] by {
            assert(self@.children[i] == self.children@[i].model());
        }
        &mut self.children[k]
    }

    /// Adds a contribution behind those already there.
    pub fn insert_mutation(&mut self, mutation: Mutation)
        ensures
            final(self)@ == (NodeView {
                mutations: old(self)@.mutations.push(mutation@),
                ..old(self)@
            }),
    {
        self.mutations.push(mutation);
        assert(self@.mutations =~= old(self)@.mutations.push(mutation@));
        assert(self@.children =~= old(self)@.children);
    }
}

/// Following `route`, a child index per level, from `n` down stays inside the
/// tree.
pub open spec fn reaches(n: NodeView, route: Seq<int>) -> bool
    decreases route.len(),
{
    route.len() == 0 || (0 <= route[0] < n.children.len() && reaches(
        n.children[route[0]],
        route.skip(1),
    ))
}

/// The node at the end of `route` from `n` down.
pub open spec fn node_at(n: NodeView, route: Seq<int>) -> NodeView
    decreases route.len(),
{
    if route.len() == 0 {
        n
    } else {
        node_at(n.children[route[0]], route.skip(1))
    }
}

/// The tree at `n` is in order: no two children of a node have one name,
/// and every child lies at the path of its parent, extended by its own name.
/// A tree that is built by looking children up by name, and making them where
/// they are missing, is of this kind.
pub open spec fn well_formed(n: NodeView) -> bool
    decreases n,
{
    &&& forall|i: int, j: int|
        0 <= i < j < n.children.len() ==> (#[trigger] n.children[i]).name != (
        #[trigger] n.children[j]).name
    &&& forall|i: int|
        0 <= i < n.children.len() ==> (#[trigger] n.children[i]).path == joined_path(
            n.path,
            n.children[i].name,
        )
    &&& forall|i: int| 0 <= i < n.children.len() ==> well_formed(#[trigger] n.children[i])
}

/// Putting a child of the name looked for in the place of the one found, or
/// at the end of the children where none was found, keeps a tree in order.
pub proof fn lemma_with_child_keeps_well_formed(parent: NodeView, name: Seq<char>, child: NodeView)
    requires
        well_formed(parent),
        well_formed(child),
        child.name == name,
        child.path == joined_path(parent.path, name),
    ensures
        well_formed(with_child(parent, name, child)),
{
    let k = child_position(parent.children, name);
    lemma_child_position(parent.children, name);
    let kids = children_with(parent.children, parent.path, name);
    let after = with_child(parent, name, child);
    assert(after.children == kids.update(k, child));
    assert forall|i: int, j: int| 0 <= i < j < after.children.len() implies (
    #[trigger] after.children[i]).name != (#[trigger] after.children[j]).name by {
        if k < parent.children.len() {
            assert(parent.children[k].name == name);
            if i != k {
                assert(after.children[i] == parent.children[i]);
            }
            if j != k {
                assert(after.children[j] == parent.children[j]);
            }
        } else {
            if i < k {
                assert(after.children[i] == parent.children[i]);
            }
            if j < k {
                assert(after.children[j] == parent.children[j]);
            }
        }
    }
    assert forall|i: int| 0 <= i < after.children.len() implies (
    #[trigger] after.children[i]).path == joined_path(after.path, after.children[i].name)
        && well_formed(after.children[i]) by {
        if i != k {
            assert(after.children[i] == parent.children[i]);
        }
    }
}

/// The child that a lookup by name finds or makes has that name, lies at
/// its place below the parent, and is in order where the parent is.
pub proof fn lemma_found_child(parent: NodeView, name: Seq<char>)
    requires
        well_formed(parent),
    ensures
        ({
            let found = children_with(parent.children, parent.path, name)[child_position(
                parent.children,
                name,
            )];
            &&& found.name == name
            &&& found.path == joined_path(parent.path, name)
            &&& well_formed(found)
        }),
{
    lemma_child_position(parent.children, name);
}


/// The node that is reached from `node` by the names in `path`, each looked
/// up among the children of the node before; none where a name is missing.
pub open spec fn lookup(node: NodeView, path: Seq<Seq<char>>) -> Option<NodeView>
    decreases path.len(),
{
    if path.len() == 0 {
        Some(node)
    } else {
        let k = child_position(node.children, path[0]);
        if k < node.children.len() {
            lookup(node.children[k], path.skip(1))
        } else {
            None
        }
    }
}

/// The contributions at the node that `path` leads to; none where there is
/// no such node.
pub open spec fn mutations_at(node: NodeView, path: Seq<Seq<char>>) -> Seq<MutationView> {
    match lookup(node, path) {
        Some(n) => n.mutations,
        None => Seq::empty(),
    }
}

/// Where children have the names that others had, in the same order, names
/// are found at the same positions.
pub proof fn lemma_child_position_by_names(a: Seq<NodeView>, b: Seq<NodeView>, name: Seq<char>)
    requires
        a.len() == b.len(),
        forall|i: int| 0 <= i < a.len() ==> (#[trigger] a[i]).name == b[i].name,
    ensures
        child_position(a, name) == child_position(b, name),
{
    lemma_child_position(b, name);
    let n = child_position(b, name);
    assert forall|j: int| 0 <= j < n implies (#[trigger] a[j]).name != name by {
        assert(b[j].name != name);
    }
    lemma_child_position_is(a, name, n);
}

/// After a child of the name `name` was put in its place, every name is
/// found where it was found before, and `name` is found at the child.
pub proof fn lemma_position_after_with_child(
    parent: NodeView,
    name: Seq<char>,
    child: NodeView,
    q: Seq<char>,
)
    requires
        child.name == name,
    ensures
        with_child(parent, name, child).children.len() >= parent.children.len(),
        q == name ==> child_position(with_child(parent, name, child).children, q)
            == child_position(parent.children, name) && child_position(parent.children, name)
            < with_child(parent, name, child).children.len(),
        q != name && child_position(parent.children, q) < parent.children.len()
            ==> child_position(with_child(parent, name, child).children, q) == child_position(
            parent.children,
            q,
        ),
        q != name && child_position(parent.children, q) >= parent.children.len()
            ==> child_position(with_child(parent, name, child).children, q) >= with_child(
            parent,
            name,
            child,
        ).children.len(),
{
    let old = parent.children;
    let k = child_position(old, name);
    lemma_child_position(old, name);
    lemma_child_position(old, q);
    let after = with_child(parent, name, child).children;
    let kq = child_position(old, q);
    if q == name {
        assert forall|j: int| 0 <= j < k implies (#[trigger] after[j]).name != q by {
            assert(after[j] == old[j]);
        }
        lemma_child_position_is(after, q, k);
    } else if kq < old.len() {
        assert forall|j: int| 0 <= j < kq implies (#[trigger] after[j]).name != q by {
            if j != k {
                assert(after[j] == old[j]);
            }
        }
        assert(kq != k);
        assert(after[kq] == old[kq]);
        lemma_child_position_is(after, q, kq);
    } else {
        assert forall|j: int| 0 <= j < after.len() implies (#[trigger] after[j]).name != q by {
            if j != k {
                assert(after[j] == old[j]);
            }
        }
        lemma_child_position_is(after, q, after.len() as int);
    }
}


/// The names of the nodes on `route` from `n` down, `n` itself left out.
pub open spec fn names_along(n: NodeView, route: Seq<int>) -> Seq<Seq<char>>
    decreases route.len(),
{
    if route.len() == 0 {
        Seq::empty()
    } else {
        seq![n.children[route[0]].name] + names_along(n.children[route[0]], route.skip(1))
    }
}

/// In a tree that is in order every node is found by the names that lead to
/// it.
pub proof fn lemma_route_lookup(n: NodeView, route: Seq<int>)
    requires
        well_formed(n),
        reaches(n, route),
    ensures
        lookup(n, names_along(n, route)) == Some(node_at(n, route)),
    decreases route.len(),
{
    if route.len() > 0 {
        let r = route[0];
        let child = n.children[r];
        let names = names_along(n, route);
        assert(names[0] == child.name);
        assert(names.skip(1) =~= names_along(child, route.skip(1)));
        assert forall|j: int| 0 <= j < r implies (#[trigger] n.children[j]).name != child.name by {
            assert(n.children[j].name != n.children[r].name);
        }
        lemma_child_position_is(n.children, child.name, r);
        lemma_route_lookup(child, route.skip(1));
    }
}

} // verus!
