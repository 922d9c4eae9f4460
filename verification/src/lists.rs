//! Lists of texts: membership, lists that are kept sorted and free of
//! duplicates, and the joining of lists.

use vstd::prelude::*;
use crate::text::{
    lemma_text_before_irreflexive, lemma_text_before_total, lemma_text_before_transitive,
    same_text, sorts_before, text_before, texts,
};

verus! {

/// The parts laid end to end.
pub open spec fn concat_all<T>(parts: Seq<Seq<T>>) -> Seq<T>
    decreases parts.len(),
{
    if parts.len() == 0 {
        Seq::empty()
    } else {
        concat_all(parts.drop_last()) + parts.last()
    }
}

/// Whether `names` holds `name`.
pub open spec fn holds_name(names: Seq<Seq<char>>, name: Seq<char>) -> bool {
    exists|i: int| 0 <= i < names.len() && names[i] == name
}

/// Whether `name` is among `names`.
pub fn contains_name(names: &Vec<String>, name: &str) -> (r: bool)
    ensures
        r == holds_name(texts(names@), name@),
{
    let mut i: usize = 0;
    while i < names.len()
        invariant
            i <= names.len(),
            forall|j: int| 0 <= j < i ==> texts(names@)[j] != name@,
        decreases names.len() - i,
    {
        if same_text(names[i].as_str(), name) {
            assert(texts(names@)[i as int] == name@);
            return true;
        }
        i = i + 1;
    }
    false
}

/// Every text stands before all that follow it. Such a list holds no text
/// twice.
pub open spec fn strictly_sorted(s: Seq<Seq<char>>) -> bool {
    forall|i: int, j: int| 0 <= i < j < s.len() ==> text_before(s[i], s[j])
}

/// The texts of a list, without their order.
pub open spec fn members(s: Seq<Seq<char>>) -> Set<Seq<char>> {
    Set::new(|t: Seq<char>| holds_name(s, t))
}

/// A sorted list without duplicates is determined by its members: two such
/// lists with the same members are the same list.
pub proof fn lemma_sorted_lists_agree(a: Seq<Seq<char>>, b: Seq<Seq<char>>)
    requires
        strictly_sorted(a),
        strictly_sorted(b),
        members(a) == members(b),
    ensures
        a == b,
    decreases a.len(),
{
    if a.len() == 0 {
        if b.len() > 0 {
            assert(members(b).contains(b[0]));
            assert(members(a).contains(b[0]));
        }
        assert(a =~= b);
    } else {
        assert(members(a).contains(a[0]));
        assert(members(b).contains(a[0]));
        let k = choose|k: int| 0 <= k < b.len() && b[k] == a[0];
        assert(members(b).contains(b[0]));
        assert(members(a).contains(b[0]));
        let m = choose|m: int| 0 <= m < a.len() && a[m] == b[0];
        if k > 0 && m > 0 {
            lemma_text_before_transitive(b[0], a[0], b[0]);
            lemma_text_before_irreflexive(b[0]);
        }
        assert(a[0] == b[0]);
        let ra = a.skip(1);
        let rb = b.skip(1);
        assert forall|t: Seq<char>| members(ra).contains(t) == members(rb).contains(t) by {
            lemma_text_before_irreflexive(a[0]);
            if members(ra).contains(t) {
                let i = choose|i: int| 0 <= i < ra.len() && ra[i] == t;
                assert(a[i + 1] == t);
                assert(members(a).contains(t));
                assert(members(b).contains(t));
                let j = choose|j: int| 0 <= j < b.len() && b[j] == t;
                assert(text_before(a[0], a[i + 1]));
                assert(j != 0);
                assert(rb[j - 1] == t);
            }
            if members(rb).contains(t) {
                let i = choose|i: int| 0 <= i < rb.len() && rb[i] == t;
                assert(b[i + 1] == t);
                assert(members(b).contains(t));
                assert(members(a).contains(t));
                let j = choose|j: int| 0 <= j < a.len() && a[j] == t;
                assert(text_before(b[0], b[i + 1]));
                assert(j != 0);
                assert(ra[j - 1] == t);
            }
        }
        assert(members(ra) =~= members(rb));
        assert forall|i: int, j: int| 0 <= i < j < ra.len() implies text_before(ra[i], ra[j]) by {
            assert(ra[i] == a[i + 1] && ra[j] == a[j + 1]);
        }
        assert forall|i: int, j: int| 0 <= i < j < rb.len() implies text_before(rb[i], rb[j]) by {
            assert(rb[i] == b[i + 1] && rb[j] == b[j + 1]);
        }
        lemma_sorted_lists_agree(ra, rb);
        assert(a =~= seq![a[0]] + ra);
        assert(b =~= seq![b[0]] + rb);
    }
}

/// Puts `id` into a sorted list unless the list holds it.
pub(crate) fn insert_unique(list: &mut Vec<String>, id: &str)
    requires
        strictly_sorted(texts(old(list)@)),
    ensures
        strictly_sorted(texts(final(list)@)),
        members(texts(final(list)@)) == members(texts(old(list)@)).insert(id@),
{
    let ghost before = texts(list@);
    let mut p: usize = 0;
    while p < list.len() && sorts_before(list[p].as_str(), id)
        invariant
            p <= list.len(),
            *list == *old(list),
            before == texts(list@),
            forall|j: int| 0 <= j < p ==> text_before(#[trigger] before[j], id@),
        decreases list.len() - p,
    {
        assert(before[p as int] == list@[p as int]@);
        p = p + 1;
    }
    if p < list.len() {
        assert(before[p as int] == list@[p as int]@);
        if same_text(list[p].as_str(), id) {
            assert(members(before).contains(id@));
            assert(members(before) =~= members(before).insert(id@));
            return ;
        }
        proof {
            lemma_text_before_total(before[p as int], id@);
        }
    }
    list.insert(p, String::from_str(id));
    proof {
        let after = texts(list@);
        assert(after =~= before.insert(p as int, id@));
        assert forall|i: int, j: int| 0 <= i < j < after.len() implies text_before(
            after[i],
            after[j],
        ) by {
            if i == p {
                assert(after[j] == before[j - 1]);
                if j - 1 > p {
                    lemma_text_before_transitive(id@, before[p as int], before[j - 1]);
                }
            } else if j == p {
                assert(after[i] == before[i]);
            } else {
                let bi = if i < p { i } else { i - 1 };
                let bj = if j < p { j } else { j - 1 };
                assert(after[i] == before[bi] && after[j] == before[bj]);
            }
        }
        assert forall|t: Seq<char>| members(after).contains(t) == members(before).insert(
            id@,
        ).contains(t) by {
            if members(after).contains(t) {
                let i = choose|i: int| 0 <= i < after.len() && after[i] == t;
                if i < p {
                    assert(before[i] == t);
                } else if i > p {
                    assert(before[i - 1] == t);
                }
            }
            if members(before).contains(t) {
                let i = choose|i: int| 0 <= i < before.len() && before[i] == t;
                if i < p {
                    assert(after[i] == t);
                } else {
                    assert(after[i + 1] == t);
                }
            }
            if t == id@ {
                assert(after[p as int] == t);
            }
        }
        assert(members(after) =~= members(before).insert(id@));
    }
}

} // verus!
