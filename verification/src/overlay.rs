//! Union mounts: how the layers are written into the arguments of one mount
//! call, and how they are spread over a chain of intermediate mounts where
//! they do not fit one call.

use vstd::prelude::*;
use crate::error::{MountCause, MountError, MountOp};
use crate::lists::concat_all;
use crate::text::{
    byte_len, decimal_of, decimal_text, has_nul, holds_nul, join_path, joined_path,
    signed_decimal_of, signed_decimal_text, texts, utf8_len,
};

verus! {

/// Longest layer argument, in bytes, that is handed to one mount call.
pub const PAGE_LIMIT: usize = 4000;

/// Most bytes of layers that one stage of a staged mount takes.
pub const SAFE_CHUNK_SIZE: usize = 3500;

/// Bytes that the layers need in a layer argument, each with the colon behind
/// it.
pub open spec fn cost(layers: Seq<Seq<char>>) -> int
    decreases layers.len(),
{
    if layers.len() == 0 {
        0
    } else {
        cost(layers.drop_last()) + utf8_len(layers.last()) + 1
    }
}

/// The layers written one after the other, each with a colon behind it.
pub open spec fn stacked(layers: Seq<Seq<char>>) -> Seq<char>
    decreases layers.len(),
{
    if layers.len() == 0 {
        Seq::empty()
    } else {
        stacked(layers.drop_last()) + layers.last() + seq![':']
    }
}

/// The layer argument of a union mount: the layers from the top down,
/// separated by colons, the lowest last.
pub open spec fn lowerdir_of(layers: Seq<Seq<char>>, lowest: Seq<char>) -> Seq<char> {
    stacked(layers) + lowest
}

/// The cost of layers is never negative and grows with every layer.
pub proof fn lemma_cost_grows(layers: Seq<Seq<char>>, n: int)
    requires
        0 <= n <= layers.len(),
    ensures
        0 <= cost(layers.take(n)) <= cost(layers),
    decreases layers.len(),
{
    if n == layers.len() {
        assert(layers.take(n) =~= layers);
        if n > 0 {
            lemma_cost_grows(layers.drop_last(), n - 1);
        }
    } else {
        assert(layers.drop_last().take(n) =~= layers.take(n));
        lemma_cost_grows(layers.drop_last(), n);
    }
}

/// The layer argument fits one mount call.
pub open spec fn fits_one_call(layers: Seq<Seq<char>>, lowest: Seq<char>) -> bool {
    cost(layers) + utf8_len(lowest) < PAGE_LIMIT
}

/// Whether the layer argument fits one mount call.
pub fn fits_page(lower_dirs: &Vec<String>, lowest: &str) -> (r: bool)
    ensures
        r == fits_one_call(texts(lower_dirs@), lowest@),
{
    let ghost layers = texts(lower_dirs@);
    let mut total: usize = byte_len(lowest);
    if total >= PAGE_LIMIT {
        proof {
            lemma_cost_grows(layers, 0);
        }
        return false;
    }
    let mut i: usize = 0;
    assert(layers.take(0) =~= Seq::<Seq<char>>::empty());
    while i < lower_dirs.len()
        invariant
            i <= lower_dirs.len(),
            layers == texts(lower_dirs@),
            total == cost(layers.take(i as int)) + utf8_len(lowest@),
            total < PAGE_LIMIT,
        decreases lower_dirs.len() - i,
    {
        assert(layers.take(i + 1).drop_last() =~= layers.take(i as int));
        assert(layers.take(i + 1).last() == lower_dirs@[i as int]@);
        let len: usize = byte_len(lower_dirs[i].as_str());
        if len >= PAGE_LIMIT || total + len + 1 >= PAGE_LIMIT {
            proof {
                lemma_cost_grows(layers, i + 1);
            }
            return false;
        }
        total = total + len + 1;
        i = i + 1;
    }
    assert(layers.take(i as int) =~= layers);
    true
}

/// Writes the layer argument of a union mount.
pub fn lowerdir_text(lower_dirs: &Vec<String>, lowest: &str) -> (r: String)
    ensures
        r@ == lowerdir_of(texts(lower_dirs@), lowest@),
{
    let ghost layers = texts(lower_dirs@);
    let mut r: String = String::new();
    let mut i: usize = 0;
    assert(layers.take(0) =~= Seq::<Seq<char>>::empty());
    proof {
        reveal_strlit(":");
        assert(":"@ =~= seq![':']);
    }
    while i < lower_dirs.len()
        invariant
            i <= lower_dirs.len(),
            layers == texts(lower_dirs@),
            r@ == stacked(layers.take(i as int)),
            ":"@ == seq![':'],
        decreases lower_dirs.len() - i,
    {
        assert(layers.take(i + 1).drop_last() =~= layers.take(i as int));
        assert(layers.take(i + 1).last() == lower_dirs@[i as int]@);
        r.append(lower_dirs[i].as_str());
        r.append(":");
        i = i + 1;
    }
    assert(layers.take(i as int) =~= layers);
    r.append(lowest);
    r
}

/// The layers cut into stages, as far as they are closed, and the stage that
/// is still open. A layer goes into the open stage; the stage is closed first
/// where it holds something and would grow past the limit.
pub open spec fn packed(layers: Seq<Seq<char>>) -> (Seq<Seq<Seq<char>>>, Seq<Seq<char>>)
    decreases layers.len(),
{
    if layers.len() == 0 {
        (Seq::empty(), Seq::empty())
    } else {
        let (closed, open) = packed(layers.drop_last());
        let d = layers.last();
        if open.len() > 0 && cost(open) + utf8_len(d) + 1 > SAFE_CHUNK_SIZE {
            (closed.push(open), seq![d])
        } else {
            (closed, open.push(d))
        }
    }
}

/// The stages of a staged mount, the topmost layers first.
pub open spec fn stages_of(layers: Seq<Seq<char>>) -> Seq<Seq<Seq<char>>> {
    let (closed, open) = packed(layers);
    if open.len() > 0 {
        closed.push(open)
    } else {
        closed
    }
}

/// What holds of the stages while they are cut: laid end to end they are the
/// layers; none is empty; one that costs more than the limit holds a single
/// layer; and a stage was closed only where the layer behind it did not fit.
#[verifier::opaque]
pub open spec fn well_cut(stages: Seq<Seq<Seq<char>>>, layers: Seq<Seq<char>>) -> bool {
    &&& concat_all(stages) == layers
    &&& forall|k: int| 0 <= k < stages.len() ==> (#[trigger] stages[k]).len() > 0
    &&& forall|k: int|
        0 <= k < stages.len() && cost(#[trigger] stages[k]) > SAFE_CHUNK_SIZE ==> stages[k].len()
            == 1
    &&& forall|k: int|
        0 <= k < stages.len() - 1 ==> cost(#[trigger] stages[k]) + utf8_len(stages[k + 1][0]) + 1
            > SAFE_CHUNK_SIZE
}

/// The stages are well cut.
pub proof fn lemma_stages_well_cut(layers: Seq<Seq<char>>)
    ensures
        well_cut(stages_of(layers), layers),
        layers.len() > 0 ==> packed(layers).1.len() > 0,
    decreases layers.len(),
{
    reveal(well_cut);
    if layers.len() == 0 {
        assert(concat_all(stages_of(layers)) =~= layers);
    } else {
        let init = layers.drop_last();
        lemma_stages_well_cut(init);
        let (closed, open) = packed(init);
        let d = layers.last();
        let before = stages_of(init);
        let after = stages_of(layers);
        assert(layers =~= init.push(d));
        if open.len() > 0 && cost(open) + utf8_len(d) + 1 > SAFE_CHUNK_SIZE {
            assert(before == closed.push(open));
            assert(after == before.push(seq![d]));
            assert(after.drop_last() =~= before);
            assert(concat_all(after) =~= layers);
            assert(seq![d].drop_last() =~= Seq::<Seq<char>>::empty());
            assert(cost(Seq::<Seq<char>>::empty()) == 0);
            assert(cost(seq![d]) == utf8_len(d) + 1);
            assert forall|k: int| 0 <= k < after.len() - 1 implies cost(#[trigger] after[k])
                + utf8_len(after[k + 1][0]) + 1 > SAFE_CHUNK_SIZE by {
                if k < before.len() - 1 {
                    assert(after[k] == before[k]);
                    assert(after[k + 1] == before[k + 1]);
                }
            }
        } else if open.len() > 0 {
            assert(before == closed.push(open));
            assert(after == closed.push(open.push(d)));
            assert(after.drop_last() =~= closed);
            assert(before.drop_last() =~= closed);
            assert(concat_all(after) =~= layers);
            assert(open.push(d).drop_last() =~= open);
            assert forall|k: int| 0 <= k < after.len() implies (#[trigger] after[k]).len() > 0 by {
                if k < closed.len() {
                    assert(after[k] == before[k]);
                }
            }
            assert forall|k: int|
                0 <= k < after.len() && cost(#[trigger] after[k]) > SAFE_CHUNK_SIZE implies after[k].len()
                == 1 by {
                if k < closed.len() {
                    assert(after[k] == before[k]);
                }
            }
            assert forall|k: int| 0 <= k < after.len() - 1 implies cost(#[trigger] after[k])
                + utf8_len(after[k + 1][0]) + 1 > SAFE_CHUNK_SIZE by {
                assert(after[k] == before[k]);
                if k + 1 < closed.len() {
                    assert(after[k + 1] == before[k + 1]);
                } else {
                    assert(after[k + 1][0] == open[0]);
                    assert(before[k + 1][0] == open[0]);
                }
            }
        } else {
            assert(init.len() == 0);
            assert(closed.len() == 0);
            assert(after =~= seq![seq![d]]);
            assert(after.drop_last() =~= Seq::<Seq<Seq<char>>>::empty());
            assert(concat_all(after) =~= layers);
            assert(seq![d].drop_last() =~= Seq::<Seq<char>>::empty());
        }
    }
}

/// Parts laid end to end are the first part and then the rest laid end to
/// end.
pub proof fn lemma_concat_first<T>(parts: Seq<Seq<T>>)
    requires
        parts.len() > 0,
    ensures
        concat_all(parts) == parts[0] + concat_all(parts.skip(1)),
    decreases parts.len(),
{
    if parts.len() == 1 {
        assert(parts.drop_last() =~= Seq::<Seq<T>>::empty());
        assert(parts.skip(1) =~= Seq::<Seq<T>>::empty());
        assert(concat_all(parts) =~= parts[0] + concat_all(parts.skip(1)));
    } else {
        let init = parts.drop_last();
        lemma_concat_first(init);
        assert(init.skip(1) =~= parts.skip(1).drop_last());
        assert(parts.skip(1).last() == parts.last());
        assert(concat_all(parts) =~= parts[0] + concat_all(parts.skip(1)));
    }
}

/// Being well cut is handed down: without their first stage the stages are a
/// good cut of the layers behind it.
pub proof fn lemma_well_cut_rest(stages: Seq<Seq<Seq<char>>>, layers: Seq<Seq<char>>)
    requires
        well_cut(stages, layers),
        stages.len() > 0,
    ensures
        stages[0].len() > 0,
        stages[0] == layers.take(stages[0].len() as int),
        stages[0].len() <= layers.len(),
        well_cut(stages.skip(1), layers.skip(stages[0].len() as int)),
{
    reveal(well_cut);
    let rest = stages.skip(1);
    lemma_concat_first(stages);
    assert(layers.take(stages[0].len() as int) =~= stages[0]);
    assert(layers.skip(stages[0].len() as int) =~= concat_all(rest));
    assert forall|k: int| 0 <= k < rest.len() implies (#[trigger] rest[k]).len() > 0 by {
        assert(rest[k] == stages[k + 1]);
    }
    assert forall|k: int|
        0 <= k < rest.len() && cost(#[trigger] rest[k]) > SAFE_CHUNK_SIZE implies rest[k].len()
        == 1 by {
        assert(rest[k] == stages[k + 1]);
    }
    assert forall|k: int| 0 <= k < rest.len() - 1 implies cost(#[trigger] rest[k]) + utf8_len(
        rest[k + 1][0],
    ) + 1 > SAFE_CHUNK_SIZE by {
        assert(rest[k] == stages[k + 1]);
        assert(rest[k + 1] == stages[k + 2]);
    }
}

/// A first stage cannot be shorter than the first stage of another good cut
/// of the same layers.
pub proof fn lemma_first_stage_not_shorter(
    a: Seq<Seq<Seq<char>>>,
    b: Seq<Seq<Seq<char>>>,
    layers: Seq<Seq<char>>,
)
    requires
        well_cut(a, layers),
        well_cut(b, layers),
        a.len() > 0,
        b.len() > 0,
    ensures
        a[0].len() >= b[0].len(),
{
    reveal(well_cut);
    lemma_well_cut_rest(a, layers);
    lemma_well_cut_rest(b, layers);
    let n = a[0].len() as int;
    if n < b[0].len() {
        // The other first stage holds two layers or more, so it fits; but it
        // holds this one and the layer behind it, which do not fit together.
        assert(cost(b[0]) <= SAFE_CHUNK_SIZE);
        let rest = a.skip(1);
        assert(rest.len() > 0) by {
            if rest.len() == 0 {
                assert(concat_all(rest) =~= Seq::<Seq<char>>::empty());
            }
        }
        assert(rest[0] == a[1]);
        lemma_concat_first(rest);
        assert(rest[0].len() > 0);
        assert(layers.skip(n)[0] == rest[0][0]);
        assert(a[1][0] == layers[n]);
        assert(b[0][n] == layers[n]);
        assert(b[0].take(n) =~= a[0]);
        assert(b[0].take(n + 1).drop_last() =~= b[0].take(n));
        assert(b[0].take(n + 1).last() == layers[n]);
        assert(cost(b[0].take(n + 1)) == cost(a[0]) + utf8_len(layers[n]) + 1);
        lemma_cost_grows(b[0], n + 1);
    }
}

/// Well cut stages laid end to end are the layers.
pub proof fn lemma_well_cut_covers(stages: Seq<Seq<Seq<char>>>, layers: Seq<Seq<char>>)
    requires
        well_cut(stages, layers),
    ensures
        concat_all(stages) == layers,
        stages.len() == 0 <==> layers.len() == 0,
{
    reveal(well_cut);
    if stages.len() > 0 {
        lemma_concat_first(stages);
        assert(stages[0].len() > 0);
    }
}

/// The layers can be cut well in one way only: the stages are fixed by what
/// holds of them.
pub proof fn lemma_well_cut_unique(
    a: Seq<Seq<Seq<char>>>,
    b: Seq<Seq<Seq<char>>>,
    layers: Seq<Seq<char>>,
)
    requires
        well_cut(a, layers),
        well_cut(b, layers),
    ensures
        a == b,
    decreases a.len(),
{
    lemma_well_cut_covers(a, layers);
    lemma_well_cut_covers(b, layers);
    if a.len() == 0 {
        assert(a =~= b);
    } else {
        lemma_first_stage_not_shorter(a, b, layers);
        lemma_first_stage_not_shorter(b, a, layers);
        lemma_well_cut_rest(a, layers);
        lemma_well_cut_rest(b, layers);
        assert(a[0] == b[0]);
        lemma_well_cut_unique(a.skip(1), b.skip(1), layers.skip(a[0].len() as int));
        assert(a =~= seq![a[0]] + a.skip(1));
        assert(b =~= seq![b[0]] + b.skip(1));
    }
}

/// The stages that are cut are the one good cut of the layers.
pub proof fn lemma_stages_are_the_good_cut(stages: Seq<Seq<Seq<char>>>, layers: Seq<Seq<char>>)
    ensures
        well_cut(stages, layers) <==> stages == stages_of(layers),
{
    lemma_stages_well_cut(layers);
    if well_cut(stages, layers) {
        lemma_well_cut_unique(stages, stages_of(layers), layers);
    }
}

/// The views of a list of stages.
pub open spec fn stage_views(s: Seq<Vec<String>>) -> Seq<Seq<Seq<char>>> {
    s.map_values(|v: Vec<String>| texts(v@))
}

/// Cuts the layers into stages.
pub fn split_stages(lower_dirs: &Vec<String>) -> (r: Vec<Vec<String>>)
    ensures
        stage_views(r@) == stages_of(texts(lower_dirs@)),
        well_cut(stage_views(r@), texts(lower_dirs@)),
{
    let ghost layers = texts(lower_dirs@);
    proof {
        lemma_stages_well_cut(layers);
    }
    let mut closed: Vec<Vec<String>> = Vec::new();
    let mut open: Vec<String> = Vec::new();
    let mut open_cost: u128 = 0;
    let mut i: usize = 0;
    assert(layers.take(0) =~= Seq::<Seq<char>>::empty());
    assert(stage_views(closed@) =~= packed(layers.take(0)).0);
    assert(texts(open@) =~= packed(layers.take(0)).1);
    while i < lower_dirs.len()
        invariant
            i <= lower_dirs.len(),
            layers == texts(lower_dirs@),
            stage_views(closed@) == packed(layers.take(i as int)).0,
            texts(open@) == packed(layers.take(i as int)).1,
            open_cost == cost(texts(open@)),
            open_cost <= usize::MAX as u128 + SAFE_CHUNK_SIZE as u128 + 1,
        decreases lower_dirs.len() - i,
    {
        assert(layers.take(i + 1).drop_last() =~= layers.take(i as int));
        assert(layers.take(i + 1).last() == lower_dirs@[i as int]@);
        let dir: &String = &lower_dirs[i];
        let len: u128 = byte_len(dir.as_str()) as u128;
        if open.len() > 0 && open_cost + len + 1 > SAFE_CHUNK_SIZE as u128 {
            let ghost old_closed = closed@;
            let ghost old_open = open@;
            closed.push(open);
            assert(stage_views(closed@) =~= stage_views(old_closed).push(texts(old_open)));
            open = Vec::new();
            open_cost = 0;
            assert(texts(open@) =~= Seq::<Seq<char>>::empty());
            assert(cost(texts(open@)) == 0);
        }
        let ghost old_open = open@;
        open.push(dir.clone());
        assert(texts(open@) =~= texts(old_open).push(dir@));
        assert(texts(open@).drop_last() =~= texts(old_open));
        assert(texts(open@).last() == dir@);
        assert(cost(texts(open@)) == cost(texts(old_open)) + utf8_len(dir@) + 1);
        open_cost = open_cost + len + 1;
        i = i + 1;
    }
    assert(layers.take(i as int) =~= layers);
    if open.len() > 0 {
        let ghost old_closed = closed@;
        let ghost old_open = open@;
        closed.push(open);
        assert(stage_views(closed@) =~= stage_views(old_closed).push(texts(old_open)));
    }
    closed
}

/// One call of the union mount primitive.
#[derive(Debug)]
pub struct OverlayCall {
    /// The layer argument.
    pub lowerdir: String,
    /// The directory that takes the writes; given with `workdir` or not at
    /// all.
    pub upperdir: Option<String>,
    /// The scratch directory that goes with `upperdir`.
    pub workdir: Option<String>,
    /// Where to mount.
    pub dest: String,
    /// The option string for the classical mount call, which is used where the
    /// filesystem-configuration calls fail. An error where the string cannot
    /// be handed to a system call.
    pub data: Result<String, MountError>,
    /// Whether the mount is tagged as releasable afterwards.
    pub mark_unmountable: bool,
}

/// Both directories of a writable union, or neither.
pub open spec fn both(
    upperdir: Option<Seq<char>>,
    workdir: Option<Seq<char>>,
) -> Option<(Seq<char>, Seq<char>)> {
    match (upperdir, workdir) {
        (Some(u), Some(w)) => Some((u, w)),
        _ => None,
    }
}

/// The option string of the classical mount call.
pub open spec fn mount_data(lowerdir: Seq<char>, rw: Option<(Seq<char>, Seq<char>)>) -> Seq<char> {
    match rw {
        Some((u, w)) => "lowerdir="@ + lowerdir + ",upperdir="@ + u + ",workdir="@ + w,
        None => "lowerdir="@ + lowerdir,
    }
}

/// The view of a text that may be absent.
pub open spec fn opt_text(t: Option<String>) -> Option<Seq<char>> {
    match t {
        Some(s) => Some(s@),
        None => None,
    }
}

impl OverlayCall {
    /// The call is the one that mounts `lowerdir` at `dest` with the given
    /// directories for writes.
    pub open spec fn is_call(
        self,
        lowerdir: Seq<char>,
        upperdir: Option<Seq<char>>,
        workdir: Option<Seq<char>>,
        dest: Seq<char>,
        disable_umount: bool,
    ) -> bool {
        let rw = both(upperdir, workdir);
        let data = mount_data(lowerdir, rw);
        &&& self.lowerdir@ == lowerdir
        &&& both(opt_text(self.upperdir), opt_text(self.workdir)) == rw
        &&& (rw is None ==> self.upperdir is None && self.workdir is None)
        &&& self.dest@ == dest
        &&& self.mark_unmountable == !disable_umount
        &&& match self.data {
            Ok(text) => !holds_nul(data) && text@ == data,
            Err(e) => holds_nul(data) && e.op == MountOp::Union && e.cause
                == MountCause::InteriorNul && e.path@ == dest,
        }
    }
}

/// Describes the mount of `lowerdir_config` at `dest`. The directories for
/// writes count only where both are given; the caller passes those that exist.
pub fn do_mount_overlay(
    lowerdir_config: &str,
    upperdir: Option<String>,
    workdir: Option<String>,
    dest: &str,
    disable_umount: bool,
) -> (call: OverlayCall)
    ensures
        call.is_call(lowerdir_config@, opt_text(upperdir), opt_text(workdir), dest@, disable_umount),
{
    let mut data: String = String::from_str("lowerdir=");
    data.append(lowerdir_config);
    let (upper, work): (Option<String>, Option<String>) = match (upperdir, workdir) {
        (Some(u), Some(w)) => {
            data.append(",upperdir=");
            data.append(u.as_str());
            data.append(",workdir=");
            data.append(w.as_str());
            (Some(u), Some(w))
        },
        _ => (None, None),
    };
    let checked: Result<String, MountError> = if has_nul(data.as_str()) {
        Err(
            MountError {
                op: MountOp::Union,
                path: String::from_str(dest),
                cause: MountCause::InteriorNul,
            },
        )
    } else {
        Ok(data)
    };
    OverlayCall {
        lowerdir: String::from_str(lowerdir_config),
        upperdir: upper,
        workdir: work,
        dest: String::from_str(dest),
        data: checked,
        mark_unmountable: !disable_umount,
    }
}

/// One of the two ways in which a union mount is made.
#[derive(Debug, Clone, Copy, PartialEq, Eq, Structural)]
pub enum MountWay {
    /// By the filesystem-configuration calls.
    Modern,
    /// By the classical mount call with an option string.
    Classical,
}

/// What comes next while a union mount is made.
#[derive(Debug)]
pub enum OverlayVerdict {
    /// Make the mount in this way and say how it went.
    Try(MountWay),
    /// The mount stands. `tag` says whether it is to be tagged as releasable.
    Mounted { tag: bool },
    /// The mount cannot be made.
    Failed(MountError),
}

/// What comes next for `call`, from how the ways went that were tried: the
/// modern way is tried first; the classical way is tried once, after the
/// modern one failed, and only where its option string can be handed over;
/// the mount fails where both ways fail. `None` stands for a way that was not
/// tried yet.
pub open spec fn next_for(
    call: OverlayCall,
    modern: Option<bool>,
    classical: Option<bool>,
    r: OverlayVerdict,
) -> bool {
    match modern {
        None => r == OverlayVerdict::Try(MountWay::Modern),
        Some(true) => r == (OverlayVerdict::Mounted { tag: call.mark_unmountable }),
        Some(false) => match call.data {
            Err(e) => r is Failed && r->Failed_0.op == e.op && r->Failed_0.cause == e.cause
                && r->Failed_0.path@ == e.path@,
            Ok(_) => match classical {
                None => r == OverlayVerdict::Try(MountWay::Classical),
                Some(true) => r == (OverlayVerdict::Mounted { tag: call.mark_unmountable }),
                Some(false) => r is Failed && r->Failed_0.op == MountOp::Union
                    && r->Failed_0.cause == MountCause::SystemCall && r->Failed_0.path@
                    == call.dest@,
            },
        },
    }
}

/// Says what comes next while the mount `call` is made. `modern` and
/// `classical` say how each way went, where it was tried.
pub fn overlay_progress(call: &OverlayCall, modern: Option<bool>, classical: Option<bool>) -> (r:
    OverlayVerdict)
    ensures
        next_for(*call, modern, classical, r),
        modern is None ==> r == OverlayVerdict::Try(MountWay::Modern),
        modern == Some(true) ==> r == (OverlayVerdict::Mounted { tag: call.mark_unmountable }),
        modern == Some(false) && call.data is Err ==> r is Failed && r->Failed_0.cause
            == call.data->Err_0.cause,
        modern == Some(false) && call.data is Ok && classical is None ==> r == OverlayVerdict::Try(
            MountWay::Classical,
        ),
        modern == Some(false) && call.data is Ok && classical == Some(true) ==> r == (
        OverlayVerdict::Mounted { tag: call.mark_unmountable }),
        modern == Some(false) && call.data is Ok && classical == Some(false) ==> r is Failed
            && r->Failed_0.op == MountOp::Union && r->Failed_0.cause == MountCause::SystemCall
            && r->Failed_0.path@ == call.dest@,
{
    match modern {
        None => OverlayVerdict::Try(MountWay::Modern),
        Some(true) => OverlayVerdict::Mounted { tag: call.mark_unmountable },
        Some(false) => match &call.data {
            Err(e) => OverlayVerdict::Failed(
                MountError { op: e.op, path: e.path.clone(), cause: e.cause },
            ),
            Ok(_) => match classical {
                None => OverlayVerdict::Try(MountWay::Classical),
                Some(true) => OverlayVerdict::Mounted { tag: call.mark_unmountable },
                Some(false) => OverlayVerdict::Failed(
                    MountError {
                        op: MountOp::Union,
                        path: call.dest.clone(),
                        cause: MountCause::SystemCall,
                    },
                ),
            },
        },
    }
}

/// A mount that stands was made by one of the two ways, and the classical
/// way is never asked for before the modern one has failed.
pub proof fn lemma_modern_way_first(
    call: OverlayCall,
    modern: Option<bool>,
    classical: Option<bool>,
    r: OverlayVerdict,
)
    requires
        next_for(call, modern, classical, r),
    ensures
        r == OverlayVerdict::Try(MountWay::Classical) ==> modern == Some(false),
        r is Mounted ==> modern == Some(true) || (modern == Some(false) && classical == Some(
            true,
        )),
        r is Mounted ==> r->tag == call.mark_unmountable,
        r is Failed ==> modern == Some(false) && (call.data is Err || classical == Some(false)),
{
}

/// Name of the scratch directory of stage `index`, made at `timestamp_ns`.
pub open spec fn stage_name(timestamp_ns: nat, index: nat) -> Seq<char> {
    "stage_"@ + decimal_of(timestamp_ns) + "_"@ + decimal_of(index)
}

/// The name of the scratch directory of a stage.
pub fn stage_dir_name(timestamp_ns: u128, index: usize) -> (r: String)
    ensures
        r@ == stage_name(timestamp_ns as nat, index as nat),
{
    let mut r: String = String::from_str("stage_");
    r.append(decimal_text(timestamp_ns).as_str());
    r.append("_");
    r.append(decimal_text(index as u128).as_str());
    r
}

/// A union mount made in stages: the layers are cut into chunks, the last
/// chunk is mounted over the lowest layer in a scratch directory, every
/// earlier chunk over the mount before it, and the first chunk at the
/// destination.
#[derive(Debug)]
pub struct StagedMount {
    stages: Vec<Vec<String>>,
    base: String,
    dest: String,
    staging_root: String,
    done: usize,
    mounted: Vec<String>,
    disable_umount: bool,
}

/// The mathematical view of a staged mount under way.
pub ghost struct StagedView {
    /// The chunks, the topmost layers first.
    pub stages: Seq<Seq<Seq<char>>>,
    /// What the next stage is mounted over.
    pub base: Seq<char>,
    /// Where the last stage is mounted.
    pub dest: Seq<char>,
    /// Where the scratch directories are made.
    pub staging_root: Seq<char>,
    /// Number of stages mounted.
    pub done: nat,
    /// The scratch directories that have a mount on them, the oldest first.
    pub mounted: Seq<Seq<char>>,
    pub disable_umount: bool,
}

impl StagedView {
    /// All stages are mounted.
    pub open spec fn complete(self) -> bool {
        self.done >= self.stages.len()
    }

    /// The next stage is the one that goes to the destination.
    pub open spec fn at_final(self) -> bool {
        self.done + 1 == self.stages.len()
    }

    /// Where the next stage is mounted, if it is made at `timestamp_ns`.
    pub open spec fn target(self, timestamp_ns: nat) -> Seq<char> {
        if self.at_final() {
            self.dest
        } else {
            joined_path(self.staging_root, stage_name(timestamp_ns, self.done))
        }
    }

    /// The layers of the next stage.
    pub open spec fn chunk(self) -> Seq<Seq<char>> {
        self.stages[self.stages.len() - 1 - self.done]
    }

    /// The state after the next stage was mounted at `target`.
    pub open spec fn advanced(self, target: Seq<char>) -> StagedView {
        if self.complete() {
            self
        } else if self.at_final() {
            StagedView { done: self.done + 1, ..self }
        } else {
            StagedView {
                done: self.done + 1,
                base: target,
                mounted: self.mounted.push(target),
                ..self
            }
        }
    }

    /// What has to be unmounted and removed if the mount is given up now, in
    /// that order: every scratch mount, the newest first. Nothing once the
    /// mount is complete.
    pub open spec fn to_roll_back(self) -> Seq<Seq<char>> {
        if self.complete() {
            Seq::empty()
        } else {
            self.mounted.reverse()
        }
    }

    /// What has to be unmounted and removed when the next stage was tried at
    /// `target` and could not be mounted: the scratch directory that was made
    /// for it, unless the stage is the one that goes to the destination, and
    /// then every scratch mount, the newest first.
    pub open spec fn to_roll_back_failed(self, target: Seq<char>) -> Seq<Seq<char>> {
        if self.complete() || self.at_final() {
            self.to_roll_back()
        } else {
            seq![target] + self.mounted.reverse()
        }
    }

    /// The next stage needs a scratch directory.
    pub open spec fn intermediate(self) -> bool {
        !self.complete() && !self.at_final()
    }

    /// The state after stages were mounted at `targets`, one after the other.
    pub open spec fn after(self, targets: Seq<Seq<char>>) -> StagedView
        decreases targets.len(),
    {
        if targets.len() == 0 {
            self
        } else {
            self.after(targets.drop_last()).advanced(targets.last())
        }
    }
}

/// A staged mount that has not begun.
pub open spec fn fresh_staged(
    stages: Seq<Seq<Seq<char>>>,
    lowest: Seq<char>,
    dest: Seq<char>,
    staging_root: Seq<char>,
    disable_umount: bool,
) -> StagedView {
    StagedView {
        stages,
        base: lowest,
        dest,
        staging_root,
        done: 0,
        mounted: Seq::empty(),
        disable_umount,
    }
}

/// While a staged mount is under way, every scratch directory that was
/// mounted is among what is rolled back, the newest first, and each stage
/// stands on the one before it. Once the last stage is mounted nothing is
/// rolled back.
pub proof fn lemma_rollback_covers_stages(start: StagedView, targets: Seq<Seq<char>>)
    requires
        start.done == 0,
        start.mounted.len() == 0,
        targets.len() <= start.stages.len(),
    ensures
        start.after(targets).done == targets.len(),
        start.after(targets).stages == start.stages,
        targets.len() < start.stages.len() ==> start.after(targets).mounted == targets
            && start.after(targets).to_roll_back() == targets.reverse(),
        0 < targets.len() < start.stages.len() ==> start.after(targets).base == targets.last(),
        targets.len() == start.stages.len() ==> start.after(targets).to_roll_back().len() == 0,
    decreases targets.len(),
{
    if targets.len() == 0 {
        assert(start.mounted =~= targets);
    } else {
        lemma_rollback_covers_stages(start, targets.drop_last());
        let before = start.after(targets.drop_last());
        if targets.len() < start.stages.len() {
            assert(before.mounted.push(targets.last()) =~= targets);
        }
    }
}

/// Where a stage fails, all that the mount made below the staging directory
/// is taken down: the scratch directory of the failed stage and every
/// scratch directory that was mounted before, the newest first.
pub proof fn lemma_failed_stage_leaves_nothing(
    start: StagedView,
    targets: Seq<Seq<char>>,
    failed: Seq<char>,
)
    requires
        start.done == 0,
        start.mounted.len() == 0,
        targets.len() < start.stages.len(),
    ensures
        targets.len() + 1 < start.stages.len() ==> start.after(targets).to_roll_back_failed(failed)
            == seq![failed] + targets.reverse(),
        targets.len() + 1 == start.stages.len() ==> start.after(targets).to_roll_back_failed(
            failed,
        ) == targets.reverse(),
{
    lemma_rollback_covers_stages(start, targets);
}

impl View for StagedMount {
    type V = StagedView;

    closed spec fn view(&self) -> StagedView {
        StagedView {
            stages: stage_views(self.stages@),
            base: self.base@,
            dest: self.dest@,
            staging_root: self.staging_root@,
            done: self.done as nat,
            mounted: texts(self.mounted@),
            disable_umount: self.disable_umount,
        }
    }
}

/// One stage of a staged mount.
#[derive(Debug)]
pub struct StageCall {
    /// The mount to make.
    pub call: OverlayCall,
    /// The stage goes to the destination and is the last.
    pub is_final: bool,
}

impl StagedMount {
    /// A staged mount of `lower_dirs` over `lowest` at `dest`, with scratch
    /// directories below `staging_root`.
    pub fn new(
        lower_dirs: &Vec<String>,
        lowest: &str,
        dest: &str,
        staging_root: &str,
        disable_umount: bool,
    ) -> (r: StagedMount)
        ensures
            r@ == fresh_staged(
                stages_of(texts(lower_dirs@)),
                lowest@,
                dest@,
                staging_root@,
                disable_umount,
            ),
    {
        let r = StagedMount {
            stages: split_stages(lower_dirs),
            base: String::from_str(lowest),
            dest: String::from_str(dest),
            staging_root: String::from_str(staging_root),
            done: 0,
            mounted: Vec::new(),
            disable_umount,
        };
        assert(r@.mounted =~= Seq::<Seq<char>>::empty());
        r
    }

    /// Whether all stages are mounted.
    pub fn is_complete(&self) -> (r: bool)
        ensures
            r == self@.complete(),
    {
        self.done >= self.stages.len()
    }

    /// The next stage, if it is made at `timestamp_ns`; none once all stages
    /// are mounted. Its scratch directory has to be made before the mount.
    pub fn next_stage(&self, timestamp_ns: u128) -> (r: Option<StageCall>)
        ensures
            self@.complete() ==> r is None,
            !self@.complete() ==> r is Some && r->0.is_final == self@.at_final() && r->0.call.is_call(
                lowerdir_of(self@.chunk(), self@.base),
                None,
                None,
                self@.target(timestamp_ns as nat),
                self@.disable_umount,
            ),
    {
        if self.done >= self.stages.len() {
            return None;
        }
        let is_final: bool = self.done + 1 == self.stages.len();
        let chunk: &Vec<String> = &self.stages[self.stages.len() - 1 - self.done];
        assert(texts(chunk@) == self@.chunk());
        let lowerdir: String = lowerdir_text(chunk, self.base.as_str());
        let target: String = if is_final {
            self.dest.clone()
        } else {
            join_path(self.staging_root.as_str(), stage_dir_name(timestamp_ns, self.done).as_str())
        };
        let call: OverlayCall = do_mount_overlay(
            lowerdir.as_str(),
            None,
            None,
            target.as_str(),
            self.disable_umount,
        );
        Some(StageCall { call, is_final })
    }

    /// Records that the next stage was mounted at `target`.
    pub fn stage_mounted(&mut self, target: &str)
        ensures
            final(self)@ == old(self)@.advanced(target@),
    {
        if self.done >= self.stages.len() {
            return ;
        }
        if self.done + 1 < self.stages.len() {
            let ghost before = self.mounted@;
            self.mounted.push(String::from_str(target));
            assert(texts(self.mounted@) =~= texts(before).push(target@));
            self.base = String::from_str(target);
        }
        self.done = self.done + 1;
    }

    /// Whether the next stage needs a scratch directory, and so a time to
    /// name it by.
    pub fn next_is_intermediate(&self) -> (r: bool)
        ensures
            r == self@.intermediate(),
    {
        self.done < self.stages.len() && self.done + 1 < self.stages.len()
    }

    /// What to unmount and remove, in that order, when the stage that was
    /// tried at `target` could not be mounted: nothing that the mount made
    /// below the staging directory is left behind.
    pub fn rollback_failed(&self, target: &str) -> (r: Vec<String>)
        ensures
            texts(r@) == self@.to_roll_back_failed(target@),
    {
        let mut rest: Vec<String> = self.rollback();
        if self.done < self.stages.len() && self.done + 1 < self.stages.len() {
            let mut out: Vec<String> = Vec::new();
            out.push(String::from_str(target));
            let ghost head = out@;
            let ghost tail = rest@;
            out.append(&mut rest);
            assert(texts(out@) =~= texts(head) + texts(tail));
            assert(texts(head) =~= seq![target@]);
            out
        } else {
            rest
        }
    }

    /// The scratch mounts to unmount and remove when the mount is given up,
    /// in that order.
    pub fn rollback(&self) -> (r: Vec<String>)
        ensures
            texts(r@) == self@.to_roll_back(),
    {
        let mut out: Vec<String> = Vec::new();
        if self.done >= self.stages.len() {
            assert(texts(out@) =~= Seq::<Seq<char>>::empty());
            return out;
        }
        let n: usize = self.mounted.len();
        let mut i: usize = 0;
        while i < n
            invariant
                i <= n,
                n == self.mounted@.len(),
                out@.len() == i,
                forall|j: int| 0 <= j < i ==> (#[trigger] out@[j])@ == self.mounted@[n - 1 - j]@,
            decreases n - i,
        {
            out.push(self.mounted[n - 1 - i].clone());
            i = i + 1;
        }
        assert(texts(out@) =~= texts(self.mounted@).reverse());
        out
    }
}

/// How a union mount is to be made.
#[derive(Debug)]
pub enum OverlayPlan {
    /// With one call.
    Direct(OverlayCall),
    /// In stages.
    Staged(StagedMount),
}

/// Plans the mount of `lower_dirs`, the topmost first, over `lowest` at
/// `dest`. Where the layer argument is too long for one call the mount is made
/// in stages with scratch directories below `staging_root`; that is refused
/// where a directory for writes is given.
pub fn mount_overlayfs(
    lower_dirs: &Vec<String>,
    lowest: &str,
    upperdir: Option<String>,
    workdir: Option<String>,
    dest: &str,
    disable_umount: bool,
    staging_root: &str,
) -> (r: Result<OverlayPlan, MountError>)
    ensures
        fits_one_call(texts(lower_dirs@), lowest@) ==> r is Ok && r->Ok_0 is Direct && r->Ok_0->Direct_0.is_call(
            lowerdir_of(texts(lower_dirs@), lowest@),
            opt_text(upperdir),
            opt_text(workdir),
            dest@,
            disable_umount,
        ),
        !fits_one_call(texts(lower_dirs@), lowest@) && (upperdir is Some || workdir is Some) ==> r
            is Err && r->Err_0.op == MountOp::Union && r->Err_0.cause == MountCause::StagedReadWrite
            && r->Err_0.path@ == dest@,
        !fits_one_call(texts(lower_dirs@), lowest@) && upperdir is None && workdir is None ==> r
            is Ok && r->Ok_0 is Staged && r->Ok_0->Staged_0@ == fresh_staged(
            stages_of(texts(lower_dirs@)),
            lowest@,
            dest@,
            staging_root@,
            disable_umount,
        ),
{
    if fits_page(lower_dirs, lowest) {
        let lowerdir: String = lowerdir_text(lower_dirs, lowest);
        return Ok(
            OverlayPlan::Direct(
                do_mount_overlay(lowerdir.as_str(), upperdir, workdir, dest, disable_umount),
            ),
        );
    }
    if upperdir.is_some() || workdir.is_some() {
        return Err(
            MountError {
                op: MountOp::Union,
                path: String::from_str(dest),
                cause: MountCause::StagedReadWrite,
            },
        );
    }
    Ok(
        OverlayPlan::Staged(
            StagedMount::new(lower_dirs, lowest, dest, staging_root, disable_umount),
        ),
    )
}

/// The path through which the content that lies at a mount point stays
/// reachable once something is mounted over it: the open directory `fd` of the
/// process.
pub open spec fn stock_root_of(fd: int) -> Seq<char> {
    "/proc/self/fd/"@ + signed_decimal_of(fd)
}

/// Plans the union mount of `module_roots` over what lies at `target_root`,
/// which the caller holds open as `root_fd`.
pub fn mount_overlay(
    target_root: &str,
    module_roots: &Vec<String>,
    workdir: Option<String>,
    upperdir: Option<String>,
    disable_umount: bool,
    root_fd: i32,
    staging_root: &str,
) -> (r: Result<OverlayPlan, MountError>)
    ensures
        fits_one_call(texts(module_roots@), stock_root_of(root_fd as int)) ==> r is Ok && r->Ok_0
            is Direct && r->Ok_0->Direct_0.is_call(
            lowerdir_of(texts(module_roots@), stock_root_of(root_fd as int)),
            opt_text(upperdir),
            opt_text(workdir),
            target_root@,
            disable_umount,
        ),
        !fits_one_call(texts(module_roots@), stock_root_of(root_fd as int)) && (upperdir is Some
            || workdir is Some) ==> r is Err && r->Err_0.op == MountOp::Union && r->Err_0.cause
            == MountCause::StagedReadWrite && r->Err_0.path@ == target_root@,
        !fits_one_call(texts(module_roots@), stock_root_of(root_fd as int)) && upperdir is None
            && workdir is None ==> r is Ok && r->Ok_0 is Staged && r->Ok_0->Staged_0@
            == fresh_staged(
            stages_of(texts(module_roots@)),
            stock_root_of(root_fd as int),
            target_root@,
            staging_root@,
            disable_umount,
        ),
{
    let mut stock_root: String = String::from_str("/proc/self/fd/");
    stock_root.append(signed_decimal_text(root_fd as i64).as_str());
    mount_overlayfs(
        module_roots,
        stock_root.as_str(),
        upperdir,
        workdir,
        target_root,
        disable_umount,
        staging_root,
    )
}

} // verus!
