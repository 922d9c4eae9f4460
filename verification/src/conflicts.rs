//! Conflicts: the nodes of a plan at which modules ask for different things.

use vstd::prelude::*;
use crate::inventory::MountMode;
use crate::lists::concat_all;
use crate::planner::MountPlan;
use crate::text::{join_path, joined_path, texts};
use crate::tree::{module_ids, mutation_views, FsNode, Mutation, MutationView, NodeView};

verus! {

/// A node at which more than one module contributes and the modules do not
/// ask for one and the same mode.
#[derive(Debug, Clone)]
pub struct ConflictEntry {
    /// The partition that the node lies in.
    pub partition: String,
    /// The path of the node below the root of its partition; empty for the
    /// root itself.
    pub relative_path: String,
    /// The ids of the modules that contribute, in the order in which they
    /// were read.
    pub contending_modules: Vec<String>,
}

/// The mathematical view of a conflict.
pub ghost struct ConflictView {
    pub partition: Seq<char>,
    pub relative_path: Seq<char>,
    pub contending_modules: Seq<Seq<char>>,
}

impl View for ConflictEntry {
    type V = ConflictView;

    open spec fn view(&self) -> ConflictView {
        ConflictView {
            partition: self.partition@,
            relative_path: self.relative_path@,
            contending_modules: texts(self.contending_modules@),
        }
    }
}

/// The views of a list of conflicts, in order.
pub open spec fn conflict_views(s: Seq<ConflictEntry>) -> Seq<ConflictView> {
    s.map_values(|e: ConflictEntry| e@)
}

/// The conflicts of a plan.
#[derive(Debug, Clone)]
pub struct ConflictReport {
    pub details: Vec<ConflictEntry>,
}

impl View for ConflictReport {
    type V = Seq<ConflictView>;

    open spec fn view(&self) -> Seq<ConflictView> {
        conflict_views(self.details@)
    }
}

impl Default for ConflictReport {
    fn default() -> (r: ConflictReport)
        ensures
            r@.len() == 0,
    {
        ConflictReport { details: Vec::new() }
    }
}

/// The contributions do not all ask for one mode.
pub open spec fn modes_disagree(m: Seq<MutationView>) -> bool {
    exists|i: int, j: int| 0 <= i < m.len() && 0 <= j < m.len() && m[i].mode != m[j].mode
}

/// Where a child lies, from where its parent lies: a child of the virtual
/// root is the root of the partition of its name; below that the partition
/// stays and the path grows by the name.
pub open spec fn child_place(
    at_root: bool,
    partition: Seq<char>,
    relative: Seq<char>,
    name: Seq<char>,
) -> (Seq<char>, Seq<char>) {
    if at_root {
        (name, Seq::empty())
    } else {
        (partition, joined_path(relative, name))
    }
}

/// The conflicts below each child of `node`.
pub open spec fn child_conflicts(
    node: NodeView,
    at_root: bool,
    partition: Seq<char>,
    relative: Seq<char>,
) -> Seq<Seq<ConflictView>>
    decreases node, 0nat,
{
    Seq::new(
        node.children.len(),
        |i: int|
            if 0 <= i < node.children.len() {
                let place = child_place(at_root, partition, relative, node.children[i].name);
                conflicts_of(node.children[i], false, place.0, place.1)
            } else {
                Seq::empty()
            },
    )
}

/// The conflicts in the subtree at `node`, the node's own first: one for
/// every node with two or more contributions whose modes are not all the
/// same. `at_root` says that the node is the virtual root, which lies in no
/// partition.
pub open spec fn conflicts_of(
    node: NodeView,
    at_root: bool,
    partition: Seq<char>,
    relative: Seq<char>,
) -> Seq<ConflictView>
    decreases node, 1nat,
{
    let own = if node.mutations.len() >= 2 && modes_disagree(node.mutations) {
        seq![
            ConflictView {
                partition,
                relative_path: relative,
                contending_modules: module_ids(node.mutations),
            },
        ]
    } else {
        Seq::empty()
    };
    own + concat_all(child_conflicts(node, at_root, partition, relative))
}

fn disagree(mutations: &Vec<Mutation>) -> (r: bool)
    ensures
        r == modes_disagree(mutation_views(mutations@)),
{
    let ghost m = mutation_views(mutations@);
    if mutations.len() == 0 {
        return false;
    }
    let first: MountMode = mutations[0].mode;
    assert(m[0] == mutations@[0]@);
    let mut i: usize = 1;
    while i < mutations.len()
        invariant
            1 <= i <= mutations.len(),
            m == mutation_views(mutations@),
            first == m[0].mode,
            forall|j: int| 0 <= j < i ==> (#[trigger] m[j]).mode == first,
        decreases mutations.len() - i,
    {
        assert(m[i as int] == mutations@[i as int]@);
        if mutations[i].mode != first {
            assert(m[i as int].mode != m[0].mode);
            return true;
        }
        i = i + 1;
    }
    false
}

fn collect_conflicts(node: &FsNode, at_root: bool, partition: &str, relative: &str) -> (r: Vec<
    ConflictEntry,
>)
    ensures
        conflict_views(r@) == conflicts_of(
            node@,
            at_root,
            partition@,
            relative@,
        ),
    decreases node,
{
    let mut out: Vec<ConflictEntry> = Vec::new();
    if node.mutations.len() >= 2 && disagree(&node.mutations) {
        let mut ids: Vec<String> = Vec::new();
        let mut k: usize = 0;
        while k < node.mutations.len()
            invariant
                k <= node.mutations.len(),
                ids@.len() == k,
                forall|j: int| 0 <= j < k ==> (#[trigger] ids@[j])@ == node.mutations@[j].module_id@,
            decreases node.mutations.len() - k,
        {
            ids.push(node.mutations[k].module_id.clone());
            k = k + 1;
        }
        assert(texts(ids@) =~= module_ids(node@.mutations));
        out.push(
            ConflictEntry {
                partition: String::from_str(partition),
                relative_path: String::from_str(relative),
                contending_modules: ids,
            },
        );
    }
    let ghost own = conflict_views(out@);
    assert(own =~= (if node@.mutations.len() >= 2 && modes_disagree(node@.mutations) {
        seq![
            ConflictView {
                partition: partition@,
                relative_path: relative@,
                contending_modules: module_ids(node@.mutations),
            },
        ]
    } else {
        Seq::empty()
    }));
    let ghost parts = child_conflicts(node@, at_root, partition@, relative@);
    let mut i: usize = 0;
    assert(parts.take(0) =~= Seq::<Seq<ConflictView>>::empty());
    assert(conflict_views(out@) =~= own + concat_all(parts.take(0)));
    while i < node.children.len()
        invariant
            i <= node.children.len(),
            parts == child_conflicts(node@, at_root, partition@, relative@),
            parts.len() == node.children@.len(),
            conflict_views(out@) == own + concat_all(parts.take(i as int)),
        decreases node.children.len() - i,
    {
        assert(parts.take(i + 1).drop_last() =~= parts.take(i as int));
        assert(parts.take(i + 1).last() == parts[i as int]);
        assert(node@.children[i as int] == node.children@[i as int]@);
        let child: &FsNode = &node.children[i];
        proof {
            reveal_strlit("");
            assert(""@ =~= Seq::<char>::empty());
        }
        let mut sub: Vec<ConflictEntry> = if at_root {
            collect_conflicts(child, false, child.name.as_str(), "")
        } else {
            let below: String = join_path(relative, child.name.as_str());
            collect_conflicts(child, false, partition, below.as_str())
        };
        let ghost old_out = out@;
        let ghost added = sub@;
        out.append(&mut sub);
        assert(conflict_views(out@) =~= conflict_views(old_out)
            + conflict_views(added));
        i = i + 1;
    }
    assert(parts.take(i as int) =~= parts);
    out
}

impl MountPlan {
    /// The nodes at which modules contend: those with two or more
    /// contributions that do not all ask for one mode, from the root down,
    /// each with the modules that contribute.
    pub fn analyze_conflicts(&self) -> (report: ConflictReport)
        ensures
            report@ == conflicts_of(self@, true, Seq::empty(), Seq::empty()),
    {
        proof {
            reveal_strlit("");
            assert(""@ =~= Seq::<char>::empty());
        }
        ConflictReport { details: collect_conflicts(&self.root, true, "", "") }
    }
}

} // verus!
