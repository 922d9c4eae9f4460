//! Tmpfs skeletons: a directory is replaced by a fresh tmpfs that shows what
//! the directory held, but for the entries that modules change, which are left
//! as empty placeholders to be mounted upon.

use vstd::prelude::*;
use crate::lists::{contains_name, holds_name};
use crate::text::{join_path, joined_path, strip_leading, texts, without_leading};

verus! {

/// What an entry of the directory is, symbolic links not followed.
#[derive(Debug, Clone, Copy, PartialEq, Eq, Structural)]
pub enum EntryKind {
    Directory,
    Symlink,
    Other,
}

/// One entry of the directory that a skeleton replaces.
#[derive(Debug, Clone)]
pub struct MirrorEntry {
    pub name: String,
    pub kind: EntryKind,
}

/// One thing to do while a skeleton is made. `from` lies in the mirror, `to`
/// in the skeleton.
#[derive(Debug, Clone)]
pub enum SkeletonOp {
    /// Make the mirror directory, with all that leads to it.
    CreateMirror { path: String },
    /// Bind-mount the directory into the mirror, so that what it held stays
    /// reachable.
    BindToMirror { from: String, to: String },
    /// Stop mount events at the mirror from spreading.
    PrivateMirror { path: String },
    /// Mount a fresh tmpfs at the directory.
    MountTmpfs { target: String },
    /// Give `to` the mode, the owner and the security context of `from`.
    CloneAttr { from: String, to: String },
    /// Make an empty directory with the attributes of `from`, to be mounted
    /// upon later.
    PlaceholderDir { from: String, to: String },
    /// Make an empty file with the attributes of `from`, to be mounted upon
    /// later.
    PlaceholderFile { from: String, to: String },
    /// Make a directory with the attributes of `from` and bind-mount `from`
    /// onto it.
    RestoreDir { from: String, to: String },
    /// Make a symbolic link that points where `from` points, with its
    /// security context.
    RestoreSymlink { from: String, to: String },
    /// Make an empty file with the attributes of `from` and bind-mount `from`
    /// onto it.
    RestoreFile { from: String, to: String },
    /// Make an empty directory for a child that the directory did not hold,
    /// to be mounted upon later.
    NewDir { to: String },
    /// Make an empty file for a child that the directory did not hold, to be
    /// mounted upon later.
    NewFile { to: String },
}

/// The mathematical view of a skeleton operation.
pub ghost enum SkeletonOpView {
    CreateMirror { path: Seq<char> },
    BindToMirror { from: Seq<char>, to: Seq<char> },
    PrivateMirror { path: Seq<char> },
    MountTmpfs { target: Seq<char> },
    CloneAttr { from: Seq<char>, to: Seq<char> },
    PlaceholderDir { from: Seq<char>, to: Seq<char> },
    PlaceholderFile { from: Seq<char>, to: Seq<char> },
    RestoreDir { from: Seq<char>, to: Seq<char> },
    RestoreSymlink { from: Seq<char>, to: Seq<char> },
    RestoreFile { from: Seq<char>, to: Seq<char> },
    NewDir { to: Seq<char> },
    NewFile { to: Seq<char> },
}

impl View for SkeletonOp {
    type V = SkeletonOpView;

    open spec fn view(&self) -> SkeletonOpView {
        match self {
            SkeletonOp::CreateMirror { path } => SkeletonOpView::CreateMirror { path: path@ },
            SkeletonOp::BindToMirror { from, to } => SkeletonOpView::BindToMirror {
                from: from@,
                to: to@,
            },
            SkeletonOp::PrivateMirror { path } => SkeletonOpView::PrivateMirror { path: path@ },
            SkeletonOp::MountTmpfs { target } => SkeletonOpView::MountTmpfs { target: target@ },
            SkeletonOp::CloneAttr { from, to } => SkeletonOpView::CloneAttr { from: from@, to: to@ },
            SkeletonOp::PlaceholderDir { from, to } => SkeletonOpView::PlaceholderDir {
                from: from@,
                to: to@,
            },
            SkeletonOp::PlaceholderFile { from, to } => SkeletonOpView::PlaceholderFile {
                from: from@,
                to: to@,
            },
            SkeletonOp::RestoreDir { from, to } => SkeletonOpView::RestoreDir {
                from: from@,
                to: to@,
            },
            SkeletonOp::RestoreSymlink { from, to } => SkeletonOpView::RestoreSymlink {
                from: from@,
                to: to@,
            },
            SkeletonOp::RestoreFile { from, to } => SkeletonOpView::RestoreFile {
                from: from@,
                to: to@,
            },
            SkeletonOp::NewDir { to } => SkeletonOpView::NewDir { to: to@ },
            SkeletonOp::NewFile { to } => SkeletonOpView::NewFile { to: to@ },
        }
    }
}

/// The views of a list of operations, in order.
pub open spec fn op_views(s: Seq<SkeletonOp>) -> Seq<SkeletonOpView> {
    s.map_values(|x: SkeletonOp| x@)
}

impl SkeletonOpView {
    /// The skeleton is given up where the operation fails. The other
    /// operations are tried and their failure is passed over.
    pub open spec fn is_fatal(self) -> bool {
        self is CreateMirror || self is BindToMirror || self is MountTmpfs
    }
}

impl SkeletonOp {
    /// Whether the skeleton is given up where the operation fails.
    pub fn is_fatal(&self) -> (r: bool)
        ensures
            r == self@.is_fatal(),
    {
        match self {
            SkeletonOp::CreateMirror { .. } => true,
            SkeletonOp::BindToMirror { .. } => true,
            SkeletonOp::MountTmpfs { .. } => true,
            _ => false,
        }
    }
}

/// Where the directory `target` is kept while a skeleton stands in its place:
/// at its own path below `mirror` in the run directory.
pub open spec fn mirror_of(run_dir: Seq<char>, target: Seq<char>) -> Seq<char> {
    joined_path(joined_path(run_dir, "mirror"@), without_leading(target, '/'))
}

/// The path at which `target` is kept while a skeleton stands in its place.
pub fn mirror_dir_of(run_dir: &str, target: &str) -> (r: String)
    ensures
        r@ == mirror_of(run_dir@, target@),
{
    let base: String = join_path(run_dir, "mirror");
    join_path(base.as_str(), strip_leading(target, '/'))
}

/// What is done before the entries are looked at: the directory is kept in
/// the mirror, the tmpfs is mounted in its place and gets the attributes of
/// what it replaces.
pub open spec fn preparation(run_dir: Seq<char>, target: Seq<char>) -> Seq<SkeletonOpView> {
    let mirror = mirror_of(run_dir, target);
    seq![
        SkeletonOpView::CreateMirror { path: mirror },
        SkeletonOpView::BindToMirror { from: target, to: mirror },
        SkeletonOpView::PrivateMirror { path: mirror },
        SkeletonOpView::MountTmpfs { target },
        SkeletonOpView::CloneAttr { from: mirror, to: target },
    ]
}

/// The operations that come before the entries of the directory are read.
pub fn prepare_skeleton(target: &str, run_dir: &str) -> (r: Vec<SkeletonOp>)
    ensures
        op_views(r@) == preparation(run_dir@, target@),
{
    let mirror: String = mirror_dir_of(run_dir, target);
    let mut out: Vec<SkeletonOp> = Vec::new();
    out.push(SkeletonOp::CreateMirror { path: mirror.clone() });
    out.push(SkeletonOp::BindToMirror { from: String::from_str(target), to: mirror.clone() });
    out.push(SkeletonOp::PrivateMirror { path: mirror.clone() });
    out.push(SkeletonOp::MountTmpfs { target: String::from_str(target) });
    out.push(SkeletonOp::CloneAttr { from: mirror, to: String::from_str(target) });
    assert(op_views(out@) =~= preparation(run_dir@, target@));
    out
}

/// What becomes of one entry: an entry that a module changes is left as an
/// empty placeholder of its kind, a directory where it is one and a file
/// otherwise; every other entry is restored from the mirror.
pub open spec fn entry_op(
    mirror: Seq<char>,
    target: Seq<char>,
    name: Seq<char>,
    kind: EntryKind,
    excluded: bool,
) -> SkeletonOpView {
    let from = joined_path(mirror, name);
    let to = joined_path(target, name);
    if excluded {
        if kind == EntryKind::Directory {
            SkeletonOpView::PlaceholderDir { from, to }
        } else {
            SkeletonOpView::PlaceholderFile { from, to }
        }
    } else if kind == EntryKind::Directory {
        SkeletonOpView::RestoreDir { from, to }
    } else if kind == EntryKind::Symlink {
        SkeletonOpView::RestoreSymlink { from, to }
    } else {
        SkeletonOpView::RestoreFile { from, to }
    }
}

/// The operations for the entries, one each, in their order.
pub open spec fn population(
    mirror: Seq<char>,
    target: Seq<char>,
    exclusions: Seq<Seq<char>>,
    entries: Seq<MirrorEntry>,
) -> Seq<SkeletonOpView> {
    Seq::new(
        entries.len(),
        |i: int|
            entry_op(
                mirror,
                target,
                entries[i].name@,
                entries[i].kind,
                holds_name(exclusions, entries[i].name@),
            ),
    )
}

/// The operations that fill the skeleton at `target`, one per entry of the
/// directory that it replaces. `entries` is what the mirror of the directory
/// holds; `exclusions` names the entries that modules change.
pub fn populate_skeleton(
    target: &str,
    exclusions: &Vec<String>,
    entries: &Vec<MirrorEntry>,
    run_dir: &str,
) -> (r: Vec<SkeletonOp>)
    ensures
        op_views(r@) == population(
            mirror_of(run_dir@, target@),
            target@,
            texts(exclusions@),
            entries@,
        ),
{
    let mirror: String = mirror_dir_of(run_dir, target);
    let mut out: Vec<SkeletonOp> = Vec::new();
    let mut i: usize = 0;
    while i < entries.len()
        invariant
            i <= entries.len(),
            mirror@ == mirror_of(run_dir@, target@),
            out@.len() == i,
            forall|j: int|
                0 <= j < i ==> (#[trigger] out@[j])@ == entry_op(
                    mirror@,
                    target@,
                    entries@[j].name@,
                    entries@[j].kind,
                    holds_name(texts(exclusions@), entries@[j].name@),
                ),
        decreases entries.len() - i,
    {
        let entry: &MirrorEntry = &entries[i];
        let from: String = join_path(mirror.as_str(), entry.name.as_str());
        let to: String = join_path(target, entry.name.as_str());
        let op: SkeletonOp = if contains_name(exclusions, entry.name.as_str()) {
            match entry.kind {
                EntryKind::Directory => SkeletonOp::PlaceholderDir { from, to },
                _ => SkeletonOp::PlaceholderFile { from, to },
            }
        } else {
            match entry.kind {
                EntryKind::Directory => SkeletonOp::RestoreDir { from, to },
                EntryKind::Symlink => SkeletonOp::RestoreSymlink { from, to },
                EntryKind::Other => SkeletonOp::RestoreFile { from, to },
            }
        };
        out.push(op);
        i = i + 1;
    }
    assert(op_views(out@) =~= population(
        mirror_of(run_dir@, target@),
        target@,
        texts(exclusions@),
        entries@,
    ));
    out
}

/// An entry that a module changes is never restored from the mirror, and an
/// entry that no module changes is never left empty.
pub proof fn lemma_exclusions_are_left_out(
    mirror: Seq<char>,
    target: Seq<char>,
    exclusions: Seq<Seq<char>>,
    entries: Seq<MirrorEntry>,
    i: int,
)
    requires
        0 <= i < entries.len(),
    ensures
        ({
            let op = population(mirror, target, exclusions, entries)[i];
            holds_name(exclusions, entries[i].name@) <==> (op is PlaceholderDir || op
                is PlaceholderFile)
        }),
{
}


/// A child of the directory that a module changes, and what it is mounted
/// as.
#[derive(Debug, Clone)]
pub struct Placeholder {
    pub name: String,
    /// The child is mounted as a directory; as a file otherwise.
    pub directory: bool,
}

/// The mathematical view of a placeholder.
pub ghost struct PlaceholderView {
    pub name: Seq<char>,
    pub directory: bool,
}

impl View for Placeholder {
    type V = PlaceholderView;

    open spec fn view(&self) -> PlaceholderView {
        PlaceholderView { name: self.name@, directory: self.directory }
    }
}

/// The views of a list of placeholders, in order.
pub open spec fn placeholder_views(s: Seq<Placeholder>) -> Seq<PlaceholderView> {
    s.map_values(|p: Placeholder| p@)
}

/// The names of the entries, in order.
pub open spec fn entry_names(entries: Seq<MirrorEntry>) -> Seq<Seq<char>> {
    entries.map_values(|e: MirrorEntry| e.name@)
}

/// The operations that make the mount points which the directory did not
/// hold: for every child that a module changes and that is not among `held`,
/// an empty directory or an empty file, as the child is mounted.
pub open spec fn fresh_ops(
    target: Seq<char>,
    wanted: Seq<PlaceholderView>,
    held: Seq<Seq<char>>,
) -> Seq<SkeletonOpView>
    decreases wanted.len(),
{
    if wanted.len() == 0 {
        Seq::empty()
    } else {
        let before = fresh_ops(target, wanted.drop_last(), held);
        let p = wanted.last();
        if holds_name(held, p.name) {
            before
        } else if p.directory {
            before.push(SkeletonOpView::NewDir { to: joined_path(target, p.name) })
        } else {
            before.push(SkeletonOpView::NewFile { to: joined_path(target, p.name) })
        }
    }
}

fn holds_entry(entries: &Vec<MirrorEntry>, name: &str) -> (r: bool)
    ensures
        r == holds_name(entry_names(entries@), name@),
{
    let mut i: usize = 0;
    while i < entries.len()
        invariant
            i <= entries.len(),
            forall|j: int| 0 <= j < i ==> entry_names(entries@)[j] != name@,
        decreases entries.len() - i,
    {
        if crate::text::same_text(entries[i].name.as_str(), name) {
            assert(entry_names(entries@)[i as int] == name@);
            return true;
        }
        i = i + 1;
    }
    false
}

/// The operations that make the mount points which the directory at `target`
/// did not hold. They come behind those of `populate_skeleton`, so that every
/// child that a module changes finds a place to be mounted upon.
pub fn missing_placeholders(
    target: &str,
    wanted: &Vec<Placeholder>,
    entries: &Vec<MirrorEntry>,
) -> (r: Vec<SkeletonOp>)
    ensures
        op_views(r@) == fresh_ops(target@, placeholder_views(wanted@), entry_names(entries@)),
{
    let ghost all = placeholder_views(wanted@);
    let mut out: Vec<SkeletonOp> = Vec::new();
    let mut i: usize = 0;
    assert(all.take(0) =~= Seq::<PlaceholderView>::empty());
    assert(op_views(out@) =~= fresh_ops(target@, all.take(0), entry_names(entries@)));
    while i < wanted.len()
        invariant
            i <= wanted.len(),
            all == placeholder_views(wanted@),
            op_views(out@) == fresh_ops(target@, all.take(i as int), entry_names(entries@)),
        decreases wanted.len() - i,
    {
        assert(all.take(i + 1).drop_last() =~= all.take(i as int));
        assert(all.take(i + 1).last() == wanted@[i as int]@);
        let p: &Placeholder = &wanted[i];
        if !holds_entry(entries, p.name.as_str()) {
            let to: String = join_path(target, p.name.as_str());
            let ghost old_out = out@;
            if p.directory {
                out.push(SkeletonOp::NewDir { to });
            } else {
                out.push(SkeletonOp::NewFile { to });
            }
            assert(op_views(out@) =~= op_views(old_out).push(out@.last()@));
        }
        i = i + 1;
    }
    assert(all.take(i as int) =~= all);
    out
}

/// The operation leaves an empty place at `to`, to be mounted upon.
pub open spec fn makes_place(op: SkeletonOpView, to: Seq<char>) -> bool {
    match op {
        SkeletonOpView::PlaceholderDir { to: t, .. } => t == to,
        SkeletonOpView::PlaceholderFile { to: t, .. } => t == to,
        SkeletonOpView::NewDir { to: t } => t == to,
        SkeletonOpView::NewFile { to: t } => t == to,
        _ => false,
    }
}

/// A child that the directory did not hold gets its mount point made.
pub proof fn lemma_fresh_ops_cover(
    target: Seq<char>,
    wanted: Seq<PlaceholderView>,
    held: Seq<Seq<char>>,
    k: int,
)
    requires
        0 <= k < wanted.len(),
        !holds_name(held, wanted[k].name),
    ensures
        exists|i: int|
            0 <= i < fresh_ops(target, wanted, held).len() && #[trigger] fresh_ops(
                target,
                wanted,
                held,
            )[i] == (if wanted[k].directory {
                SkeletonOpView::NewDir { to: joined_path(target, wanted[k].name) }
            } else {
                SkeletonOpView::NewFile { to: joined_path(target, wanted[k].name) }
            }),
    decreases wanted.len(),
{
    let ops = fresh_ops(target, wanted, held);
    let before = fresh_ops(target, wanted.drop_last(), held);
    if k == wanted.len() - 1 {
        assert(ops[ops.len() - 1] == (if wanted[k].directory {
            SkeletonOpView::NewDir { to: joined_path(target, wanted[k].name) }
        } else {
            SkeletonOpView::NewFile { to: joined_path(target, wanted[k].name) }
        }));
    } else {
        lemma_fresh_ops_cover(target, wanted.drop_last(), held, k);
        let i = choose|i: int|
            0 <= i < before.len() && #[trigger] before[i] == (if wanted[k].directory {
                SkeletonOpView::NewDir { to: joined_path(target, wanted[k].name) }
            } else {
                SkeletonOpView::NewFile { to: joined_path(target, wanted[k].name) }
            });
        assert(ops[i] == before[i]);
    }
}

/// Every child that a module changes has an empty place in the skeleton
/// once the skeleton is filled: the placeholder that stands for what the
/// directory held under its name, or a mount point that is made for it, a
/// directory where the child is mounted as one.
pub proof fn lemma_every_exclusion_has_a_place(
    mirror: Seq<char>,
    target: Seq<char>,
    exclusions: Seq<Seq<char>>,
    wanted: Seq<PlaceholderView>,
    entries: Seq<MirrorEntry>,
    k: int,
)
    requires
        0 <= k < wanted.len(),
        holds_name(exclusions, wanted[k].name),
    ensures
        ({
            let ops = population(mirror, target, exclusions, entries) + fresh_ops(
                target,
                wanted,
                entry_names(entries),
            );
            exists|i: int|
                0 <= i < ops.len() && makes_place(#[trigger] ops[i], joined_path(target, wanted[k].name))
        }),
        !holds_name(entry_names(entries), wanted[k].name) ==> exists|i: int|
            0 <= i < fresh_ops(target, wanted, entry_names(entries)).len() && #[trigger] fresh_ops(
                target,
                wanted,
                entry_names(entries),
            )[i] == (if wanted[k].directory {
                SkeletonOpView::NewDir { to: joined_path(target, wanted[k].name) }
            } else {
                SkeletonOpView::NewFile { to: joined_path(target, wanted[k].name) }
            }),
{
    let first = population(mirror, target, exclusions, entries);
    let second = fresh_ops(target, wanted, entry_names(entries));
    let ops = first + second;
    let name = wanted[k].name;
    let to = joined_path(target, name);
    if holds_name(entry_names(entries), name) {
        let j = choose|j: int| 0 <= j < entries.len() && entry_names(entries)[j] == name;
        assert(entries[j].name@ == name);
        assert(makes_place(first[j], to));
        assert(ops[j] == first[j]);
    } else {
        lemma_fresh_ops_cover(target, wanted, entry_names(entries), k);
        let i = choose|i: int|
            0 <= i < second.len() && #[trigger] second[i] == (if wanted[k].directory {
                SkeletonOpView::NewDir { to }
            } else {
                SkeletonOpView::NewFile { to }
            });
        assert(ops[first.len() + i] == second[i]);
        assert(makes_place(ops[first.len() + i], to));
    }
}

} // verus!
