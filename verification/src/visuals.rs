//! Showing a plan: the tree as lines of text, one per node that has work to
//! do or children, with the children of a node in the order of their names.

use vstd::prelude::*;
use crate::lists::concat_all;
use crate::planner::MountPlan;
use crate::text::{path_debug, path_debug_of, same_text, sorts_before, text_before, texts};
use crate::tree::{FsNode, MountStrategy, NodeView, StrategyView};

verus! {

/// Where a name goes into a list of children that is sorted by name: behind
/// all that do not sort after it. `order` holds indices into `children`.
pub open spec fn slot(children: Seq<NodeView>, order: Seq<int>, name: Seq<char>) -> int
    decreases order.len(),
{
    if order.len() == 0 {
        0
    } else if text_before(name, children[order[0]].name) {
        0
    } else {
        1 + slot(children, order.skip(1), name)
    }
}

/// The indices of the first `n` children, sorted by the names of the
/// children; children of one name keep their order.
pub open spec fn name_order(children: Seq<NodeView>, n: int) -> Seq<int>
    decreases n,
{
    if n <= 0 {
        Seq::empty()
    } else {
        let before = name_order(children, n - 1);
        before.insert(slot(children, before, children[n - 1].name), n - 1)
    }
}

/// Where the first `p` entries do not sort after the name and the next one
/// does, or there is none, `p` is the slot.
pub proof fn lemma_slot_is(children: Seq<NodeView>, order: Seq<int>, name: Seq<char>, p: int)
    requires
        0 <= p <= order.len(),
        forall|j: int| 0 <= j < p ==> !text_before(name, children[#[trigger] order[j]].name),
        p < order.len() ==> text_before(name, children[order[p]].name),
    ensures
        slot(children, order, name) == p,
    decreases p,
{
    if p > 0 {
        let rest = order.skip(1);
        assert(!text_before(name, children[order[0]].name));
        assert forall|j: int| 0 <= j < p - 1 implies !text_before(
            name,
            children[#[trigger] rest[j]].name,
        ) by {
            assert(rest[j] == order[j + 1]);
        }
        lemma_slot_is(children, rest, name, p - 1);
    }
}

/// The order holds indices of children, `n` of them.
pub proof fn lemma_name_order_indices(children: Seq<NodeView>, n: int)
    requires
        0 <= n <= children.len(),
    ensures
        name_order(children, n).len() == n,
        forall|i: int|
            0 <= i < n ==> 0 <= #[trigger] name_order(children, n)[i] < n,
    decreases n,
{
    if n > 0 {
        let before = name_order(children, n - 1);
        lemma_name_order_indices(children, n - 1);
        lemma_slot(children, before, children[n - 1].name);
    }
}

/// What the slot is: the entries before it do not sort after the name, and
/// the entry at it does.
pub proof fn lemma_slot(children: Seq<NodeView>, order: Seq<int>, name: Seq<char>)
    ensures
        0 <= slot(children, order, name) <= order.len(),
        forall|j: int|
            0 <= j < slot(children, order, name) ==> !text_before(
                name,
                children[#[trigger] order[j]].name,
            ),
        slot(children, order, name) < order.len() ==> text_before(
            name,
            children[order[slot(children, order, name)]].name,
        ),
    decreases order.len(),
{
    if order.len() > 0 && !text_before(name, children[order[0]].name) {
        let rest = order.skip(1);
        lemma_slot(children, rest, name);
        assert forall|j: int| 0 <= j < slot(children, order, name) implies !text_before(
            name,
            children[#[trigger] order[j]].name,
        ) by {
            if j > 0 {
                assert(order[j] == rest[j - 1]);
            }
        }
        if slot(children, order, name) < order.len() {
            assert(order[slot(children, order, name)] == rest[slot(children, rest, name)]);
        }
    }
}

/// The order goes by name: no child comes after one whose name sorts behind
/// its own. It holds every child once.
pub proof fn lemma_name_order_sorted(children: Seq<NodeView>, n: int)
    requires
        0 <= n <= children.len(),
    ensures
        name_order(children, n).len() == n,
        forall|i: int| 0 <= i < n ==> 0 <= #[trigger] name_order(children, n)[i] < n,
        forall|i: int, j: int|
            0 <= i < j < n ==> !text_before(
                children[#[trigger] name_order(children, n)[j]].name,
                children[#[trigger] name_order(children, n)[i]].name,
            ),
        forall|i: int, j: int|
            0 <= i < j < n ==> #[trigger] name_order(children, n)[i] != #[trigger] name_order(
                children,
                n,
            )[j],
    decreases n,
{
    lemma_name_order_indices(children, n);
    if n > 0 {
        let before = name_order(children, n - 1);
        let name = children[n - 1].name;
        let p = slot(children, before, name);
        let after = name_order(children, n);
        lemma_name_order_sorted(children, n - 1);
        lemma_slot(children, before, name);
        assert(after == before.insert(p, n - 1));
        assert forall|i: int, j: int| 0 <= i < j < n implies !text_before(
            children[#[trigger] after[j]].name,
            children[#[trigger] after[i]].name,
        ) by {
            if j == p {
                assert(after[i] == before[i]);
            } else if i == p {
                assert(after[j] == before[j - 1]);
                if text_before(children[after[j]].name, name) {
                    crate::text::lemma_text_before_transitive(
                        children[after[j]].name,
                        name,
                        children[before[p]].name,
                    );
                    if j - 1 == p {
                        crate::text::lemma_text_before_irreflexive(children[before[p]].name);
                    }
                }
            } else {
                let bi = if i < p { i } else { i - 1 };
                let bj = if j < p { j } else { j - 1 };
                assert(after[i] == before[bi] && after[j] == before[bj]);
            }
        }
        assert forall|i: int, j: int| 0 <= i < j < n implies #[trigger] after[i]
            != #[trigger] after[j] by {
            let bi = if i < p { i } else { i - 1 };
            let bj = if j < p { j } else { j - 1 };
            if i != p && j != p {
                assert(after[i] == before[bi] && after[j] == before[bj]);
            } else if i == p {
                assert(after[j] == before[bj]);
            } else {
                assert(after[i] == before[bi]);
            }
        }
    }
}

/// The indices of the children of `node`, sorted by the names of the
/// children.
pub fn sorted_child_order(node: &FsNode) -> (r: Vec<usize>)
    ensures
        r@.map_values(|i: usize| i as int) == name_order(node@.children, node@.children.len() as int),
{
    let ghost children = node@.children;
    let mut order: Vec<usize> = Vec::new();
    let mut n: usize = 0;
    assert(order@.map_values(|i: usize| i as int) =~= name_order(children, 0));
    while n < node.children.len()
        invariant
            n <= node.children.len(),
            children == node@.children,
            order@.map_values(|i: usize| i as int) == name_order(children, n as int),
        decreases node.children.len() - n,
    {
        let ghost before = order@.map_values(|i: usize| i as int);
        proof {
            lemma_name_order_indices(children, n as int);
        }
        assert(children[n as int] == node.children@[n as int]@);
        let name: &str = node.children[n].name.as_str();
        assert forall|i: int| 0 <= i < order@.len() implies #[trigger] order@[i] < n by {
            assert(before[i] == order@[i]);
        }
        let mut p: usize = 0;
        while p < order.len() && !sorts_before(name, node.children[order[p]].name.as_str())
            invariant
                p <= order.len(),
                n < node.children.len(),
                forall|i: int| 0 <= i < order@.len() ==> #[trigger] order@[i] < n,
                children == node@.children,
                name@ == children[n as int].name,
                before == order@.map_values(|i: usize| i as int),
                before.len() == n,
                forall|i: int| 0 <= i < n ==> 0 <= #[trigger] before[i] < n,
                forall|i: int|
                    0 <= i < children.len() ==> #[trigger] children[i] == node.children@[i]@,
                forall|j: int|
                    0 <= j < p ==> !text_before(name@, children[#[trigger] before[j]].name),
            decreases order.len() - p,
        {
            assert(before[p as int] == order@[p as int]);
            p = p + 1;
        }
        proof {
            if p < order.len() {
                assert(before[p as int] == order@[p as int]);
            }
            lemma_slot_is(children, before, name@, p as int);
        }
        let ghost old_order = order@;
        order.insert(p, n);
        assert(order@.map_values(|i: usize| i as int) =~= old_order.map_values(|i: usize| i as int).insert(
            p as int,
            n as int,
        ));
        n = n + 1;
    }
    order
}

/// The tag under which a strategy is shown.
pub open spec fn tag_of(strategy: StrategyView) -> Seq<char> {
    match strategy {
        StrategyView::Unresolved => "[UNRESOLVED]"@,
        StrategyView::Passthrough => "[PASS]"@,
        StrategyView::Overlay { .. } => "[OVERLAY]"@,
        StrategyView::Hymo { .. } => "[HYMO]"@,
        StrategyView::Bind { .. } => "[BIND]"@,
        StrategyView::Magic => "[MAGIC]"@,
    }
}

/// The tag under which a strategy is shown.
pub fn strategy_tag(strategy: &MountStrategy) -> (r: &'static str)
    ensures
        r@ == tag_of(strategy@),
{
    match strategy {
        MountStrategy::Unresolved => "[UNRESOLVED]",
        MountStrategy::Passthrough => "[PASS]",
        MountStrategy::Overlay { .. } => "[OVERLAY]",
        MountStrategy::Hymo { .. } => "[HYMO]",
        MountStrategy::Bind { .. } => "[BIND]",
        MountStrategy::Magic => "[MAGIC]",
    }
}

/// The node is shown with a line of its own: it has work to do, or children,
/// or is the root.
pub open spec fn has_line(node: NodeView) -> bool {
    node.strategy != StrategyView::Passthrough || node.children.len() > 0 || node.name == seq!['/']
}

/// What joins the line of a node to the lines above it.
pub open spec fn connector(node: NodeView, is_last: bool) -> Seq<char> {
    if node.name == seq!['/'] {
        Seq::empty()
    } else if is_last {
        "└── "@
    } else {
        "├── "@
    }
}

/// What the lines below a node are indented by, beyond the node's own
/// indent.
pub open spec fn indent(node: NodeView, is_last: bool) -> Seq<char> {
    if node.name == seq!['/'] {
        Seq::empty()
    } else if is_last {
        "    "@
    } else {
        "│   "@
    }
}

/// The line of a node: indent, connector, tag, name and path. `quoted` is the
/// path as it is shown.
pub open spec fn line_of(node: NodeView, prefix: Seq<char>, is_last: bool, quoted: Seq<char>) -> Seq<
    char,
> {
    prefix + connector(node, is_last) + tag_of(node.strategy) + " "@ + (if node.name.len() == 0 {
        "/"@
    } else {
        node.name
    }) + " -> "@ + quoted
}

/// Writes the line of `node`, with `quoted` for its path.
pub fn node_line(node: &FsNode, prefix: &str, is_last: bool, quoted: &str) -> (r: String)
    ensures
        r@ == line_of(node@, prefix@, is_last, quoted@),
{
    proof {
        reveal_strlit("/");
        assert("/"@ =~= seq!['/']);
    }
    let at_root: bool = same_text(node.name.as_str(), "/");
    let mut r: String = String::from_str(prefix);
    if !at_root {
        if is_last {
            r.append("└── ");
        } else {
            r.append("├── ");
        }
    }
    assert(r@ =~= prefix@ + connector(node@, is_last));
    r.append(strategy_tag(&node.strategy));
    r.append(" ");
    if node.name.as_str().unicode_len() == 0 {
        r.append("/");
    } else {
        r.append(node.name.as_str());
    }
    r.append(" -> ");
    r.append(quoted);
    r
}

/// The lines that each child of `node` takes, in the order of their names.
pub open spec fn child_lines(node: NodeView, prefix: Seq<char>) -> Seq<Seq<Seq<char>>>
    decreases node, 0nat,
{
    let order = name_order(node.children, node.children.len() as int);
    Seq::new(
        order.len(),
        |i: int|
            if 0 <= i < order.len() && 0 <= order[i] < node.children.len() {
                drawn(node.children[order[i]], prefix, i == order.len() - 1)
            } else {
                Seq::empty()
            },
    )
}

/// The lines that show the subtree at `node`: the node's own line, where it
/// has one, then the lines of its children, sorted by name and indented. A
/// node without name and children is not shown.
pub open spec fn drawn(node: NodeView, prefix: Seq<char>, is_last: bool) -> Seq<Seq<char>>
    decreases node, 1nat,
{
    if node.name.len() == 0 && node.children.len() == 0 {
        Seq::empty()
    } else {
        let own = if has_line(node) {
            seq![line_of(node, prefix, is_last, path_debug_of(node.path))]
        } else {
            Seq::empty()
        };
        own + concat_all(child_lines(node, prefix + indent(node, is_last)))
    }
}

/// The heading of a plan that is shown.
pub open spec fn heading() -> Seq<char> {
    ">> Mount Plan Visuals:"@
}

fn draw_node(node: &FsNode, prefix: &str, is_last: bool) -> (r: Vec<String>)
    ensures
        texts(r@) == drawn(node@, prefix@, is_last),
    decreases node,
{
    let mut out: Vec<String> = Vec::new();
    if node.name.as_str().unicode_len() == 0 && node.children.len() == 0 {
        assert(texts(out@) =~= drawn(node@, prefix@, is_last));
        return out;
    }
    proof {
        reveal_strlit("/");
        assert("/"@ =~= seq!['/']);
    }
    let at_root: bool = same_text(node.name.as_str(), "/");
    let shown: bool = match &node.strategy {
        MountStrategy::Passthrough => node.children.len() > 0 || at_root,
        _ => true,
    };
    if shown {
        let quoted: String = path_debug(node.path.as_str());
        out.push(node_line(node, prefix, is_last, quoted.as_str()));
    }
    let ghost own = texts(out@);
    assert(own =~= (if has_line(node@) {
        seq![line_of(node@, prefix@, is_last, path_debug_of(node@.path))]
    } else {
        Seq::empty()
    }));
    let mut below: String = String::from_str(prefix);
    if !at_root {
        if is_last {
            below.append("    ");
        } else {
            below.append("│   ");
        }
    }
    assert(below@ =~= prefix@ + indent(node@, is_last));
    let order: Vec<usize> = sorted_child_order(node);
    let ghost ord = name_order(node@.children, node@.children.len() as int);
    let ghost parts = child_lines(node@, below@);
    proof {
        lemma_name_order_indices(node@.children, node@.children.len() as int);
    }
    let mut i: usize = 0;
    assert(parts.take(0) =~= Seq::<Seq<Seq<char>>>::empty());
    assert(texts(out@) =~= own + concat_all(parts.take(0)));
    while i < order.len()
        invariant
            i <= order.len(),
            ord == order@.map_values(|k: usize| k as int),
            ord == name_order(node@.children, node@.children.len() as int),
            ord.len() == node.children@.len(),
            forall|k: int| 0 <= k < ord.len() ==> 0 <= #[trigger] ord[k] < node.children@.len(),
            parts == child_lines(node@, below@),
            parts.len() == ord.len(),
            texts(out@) == own + concat_all(parts.take(i as int)),
        decreases order.len() - i,
    {
        assert(parts.take(i + 1).drop_last() =~= parts.take(i as int));
        assert(parts.take(i + 1).last() == parts[i as int]);
        let k: usize = order[i];
        assert(ord[i as int] == k);
        assert(node@.children[k as int] == node.children@[k as int]@);
        let mut sub: Vec<String> = draw_node(&node.children[k], below.as_str(), i == order.len() - 1);
        let ghost old_out = out@;
        let ghost added = sub@;
        out.append(&mut sub);
        assert(texts(out@) =~= texts(old_out) + texts(added));
        i = i + 1;
    }
    assert(parts.take(i as int) =~= parts);
    out
}

impl MountPlan {
    /// The plan as a tree of lines, one per node that has work to do or
    /// children, under a heading. Each line shows the strategy, the name and
    /// the path of a node.
    pub fn print_visuals(&self) -> (lines: Vec<String>)
        ensures
            texts(lines@) == seq![heading()] + drawn(self@, Seq::empty(), true),
    {
        let mut out: Vec<String> = Vec::new();
        out.push(String::from_str(">> Mount Plan Visuals:"));
        let ghost head = out@;
        let mut body: Vec<String> = draw_node(&self.root, "", true);
        let ghost tail = body@;
        proof {
            reveal_strlit("");
            assert(""@ =~= Seq::<char>::empty());
        }
        out.append(&mut body);
        assert(texts(out@) =~= texts(head) + texts(tail));
        assert(texts(head) =~= seq![heading()]);
        out
    }
}

} // verus!
