//! A look over a finished plan for nodes that will not do what was meant.
//! Nothing is mended here; the findings are for the caller to show.

use vstd::prelude::*;
use crate::lists::{concat_all, contains_name, holds_name};
use crate::planner::MountPlan;
use crate::text::texts;
use crate::tree::{FsNode, MountStrategy, NodeView};

verus! {

/// How much a finding matters.
#[derive(Debug, Clone, Copy, PartialEq, Eq, Structural)]
pub enum DiagnosticLevel {
    Info,
    Warning,
    Error,
}

/// One finding.
#[derive(Debug, Clone)]
pub struct DiagnosticIssue {
    pub level: DiagnosticLevel,
    /// The path of the node that the finding is about.
    pub context: String,
    pub message: String,
}

/// The mathematical view of a finding.
pub ghost struct IssueView {
    pub level: DiagnosticLevel,
    pub context: Seq<char>,
    pub message: Seq<char>,
}

impl View for DiagnosticIssue {
    type V = IssueView;

    open spec fn view(&self) -> IssueView {
        IssueView { level: self.level, context: self.context@, message: self.message@ }
    }
}

/// The views of a list of findings, in order.
pub open spec fn issue_views(s: Seq<DiagnosticIssue>) -> Seq<IssueView> {
    s.map_values(|x: DiagnosticIssue| x@)
}

/// What is said of a node without a strategy.
pub open spec fn unresolved_message() -> Seq<char> {
    "node was left without a mount strategy"@
}

/// What is said of a skeleton where the device has something that is no
/// directory.
pub open spec fn not_a_directory_message() -> Seq<char> {
    "tmpfs skeleton planned on a path that is not a directory"@
}

/// The findings at one node: a warning where it has no strategy, and a
/// warning where it becomes a skeleton and the device has something at its
/// path that is no directory.
pub open spec fn issues_at(node: NodeView, system_files: Seq<Seq<char>>) -> Seq<IssueView> {
    if node.strategy is Unresolved {
        seq![
            IssueView {
                level: DiagnosticLevel::Warning,
                context: node.path,
                message: unresolved_message(),
            },
        ]
    } else if node.strategy is Magic && holds_name(system_files, node.path) {
        seq![
            IssueView {
                level: DiagnosticLevel::Warning,
                context: node.path,
                message: not_a_directory_message(),
            },
        ]
    } else {
        Seq::empty()
    }
}

/// The findings below each child of `node`.
pub open spec fn child_issues(node: NodeView, system_files: Seq<Seq<char>>) -> Seq<Seq<IssueView>>
    decreases node, 0nat,
{
    Seq::new(
        node.children.len(),
        |i: int|
            if 0 <= i < node.children.len() {
                issues_of(node.children[i], system_files)
            } else {
                Seq::empty()
            },
    )
}

/// The findings in the subtree at `node`, the node's own first.
pub open spec fn issues_of(node: NodeView, system_files: Seq<Seq<char>>) -> Seq<IssueView>
    decreases node, 1nat,
{
    issues_at(node, system_files) + concat_all(child_issues(node, system_files))
}

fn diagnose_node(node: &FsNode, system_files: &Vec<String>) -> (r: Vec<DiagnosticIssue>)
    ensures
        issue_views(r@) == issues_of(node@, texts(system_files@)),
    decreases node,
{
    let mut out: Vec<DiagnosticIssue> = Vec::new();
    match &node.strategy {
        MountStrategy::Unresolved => {
            out.push(
                DiagnosticIssue {
                    level: DiagnosticLevel::Warning,
                    context: node.path.clone(),
                    message: String::from_str("node was left without a mount strategy"),
                },
            );
        },
        MountStrategy::Magic => {
            if contains_name(system_files, node.path.as_str()) {
                out.push(
                    DiagnosticIssue {
                        level: DiagnosticLevel::Warning,
                        context: node.path.clone(),
                        message: String::from_str(
                            "tmpfs skeleton planned on a path that is not a directory",
                        ),
                    },
                );
            }
        },
        _ => {},
    }
    let ghost own = issue_views(out@);
    assert(own =~= issues_at(node@, texts(system_files@)));
    let ghost parts = child_issues(node@, texts(system_files@));
    let mut i: usize = 0;
    assert(parts.take(0) =~= Seq::<Seq<IssueView>>::empty());
    assert(issue_views(out@) =~= own + concat_all(parts.take(0)));
    while i < node.children.len()
        invariant
            i <= node.children.len(),
            parts == child_issues(node@, texts(system_files@)),
            parts.len() == node.children@.len(),
            issue_views(out@) == own + concat_all(parts.take(i as int)),
        decreases node.children.len() - i,
    {
        assert(parts.take(i + 1).drop_last() =~= parts.take(i as int));
        assert(parts.take(i + 1).last() == parts[i as int]);
        assert(node@.children[i as int] == node.children@[i as int]@);
        let mut sub: Vec<DiagnosticIssue> = diagnose_node(&node.children[i], system_files);
        let ghost old_out = out@;
        let ghost added = sub@;
        out.append(&mut sub);
        assert(issue_views(out@) =~= issue_views(old_out) + issue_views(added));
        i = i + 1;
    }
    assert(parts.take(i as int) =~= parts);
    out
}

/// Looks over a plan. `system_files` lists the paths at which the device has
/// something that is no directory.
pub fn diagnose_plan(plan: &MountPlan, system_files: &Vec<String>) -> (r: Vec<DiagnosticIssue>)
    ensures
        issue_views(r@) == issues_of(plan@, texts(system_files@)),
{
    diagnose_node(&plan.root, system_files)
}

/// A plan that was resolved has no node without a strategy, so none of its
/// findings is about one.
pub proof fn lemma_resolved_nodes_are_not_reported(
    node: NodeView,
    cfg: crate::config::ConfigView,
    system_dirs: Seq<Seq<char>>,
    system_files: Seq<Seq<char>>,
)
    ensures
        issues_at(crate::planner::resolved(node, cfg, system_dirs), system_files).len() > 0
            ==> crate::planner::resolved(node, cfg, system_dirs).strategy is Magic,
{
}

} // verus!
