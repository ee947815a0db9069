use vstd::prelude::*;

verus! {

use crate::ids::ThreadId;

/// The position after `k` in a circular list of length `len`.
pub open spec fn next_pos(k: int, len: int) -> int {
    if k + 1 == len {
        0
    } else {
        k + 1
    }
}

/// The position before `k` in a circular list of length `len`.
pub open spec fn prev_pos(k: int, len: int) -> int {
    if k == 0 {
        len - 1
    } else {
        k - 1
    }
}

/// True when some thread in `s` has storage index `j`.
pub open spec fn has_idx(s: Seq<ThreadId>, j: int) -> bool {
    exists|k: int| 0 <= k < s.len() && s[k].idx() == j
}

/// No storage index occurs twice in `s`; since a thread identifier is
/// nothing but its index, no thread occurs twice either.
pub open spec fn distinct_ids(s: Seq<ThreadId>) -> bool {
    forall|j: int, k: int| 0 <= j < k < s.len() ==> s[j].idx() != s[k].idx()
}

/// No thread is a member of both `a` and `b`.
pub open spec fn disjoint_ids(a: Seq<ThreadId>, b: Seq<ThreadId>) -> bool {
    forall|j: int| !(#[trigger] has_idx(a, j) && #[trigger] has_idx(b, j))
}

/// Removes the first occurrence of `t` from `s`; `s` unchanged when `t`
/// does not occur.
pub open spec fn remove_first(s: Seq<ThreadId>, t: ThreadId) -> Seq<ThreadId>
    decreases s.len(),
{
    if s.len() == 0 {
        s
    } else if s[0] == t {
        s.drop_first()
    } else {
        seq![s[0]] + remove_first(s.drop_first(), t)
    }
}

/// One round-robin step: the head moves to the tail. A no-op on an empty
/// or single-member list.
pub open spec fn rotate1(s: Seq<ThreadId>) -> Seq<ThreadId> {
    if s.len() <= 1 {
        s
    } else {
        s.drop_first().push(s[0])
    }
}

/// The highest level below `n` whose list is non-empty.
pub open spec fn top_of(v: Seq<Seq<ThreadId>>, n: int) -> Option<int>
    decreases n,
{
    if n <= 0 {
        None
    } else if v[n - 1].len() > 0 {
        Some(n - 1)
    } else {
        top_of(v, n - 1)
    }
}

/// The head of the highest-priority populated level, or `None` when every
/// level is empty.
pub open spec fn peek_of(v: Seq<Seq<ThreadId>>) -> Option<ThreadId> {
    match top_of(v, v.len() as int) {
        None => None,
        Some(l) => Some(v[l][0]),
    }
}

/// Every level of `v` is empty.
pub open spec fn all_empty(v: Seq<Seq<ThreadId>>) -> bool {
    forall|l: int| 0 <= l < v.len() ==> v[l].len() == 0
}

/// A member of `s` puts its index into `has_idx`, and conversely an index
/// present in `s` names exactly the member carrying it.
pub proof fn lemma_contains_has_idx(s: Seq<ThreadId>, t: ThreadId)
    ensures
        s.contains(t) <==> has_idx(s, t.idx()),
{
    if s.contains(t) {
        let k = choose|k: int| 0 <= k < s.len() && s[k] == t;
        assert(s[k].idx() == t.idx());
    }
    if has_idx(s, t.idx()) {
        let k = choose|k: int| 0 <= k < s.len() && s[k].idx() == t.idx();
        assert(s[k].0 == t.0);
        assert(s[k] == t);
    }
}

/// When `t` stands at position `k` and nowhere earlier, removing the first
/// occurrence of `t` removes exactly position `k`.
pub proof fn lemma_remove_first_at(s: Seq<ThreadId>, t: ThreadId, k: int)
    requires
        0 <= k < s.len(),
        s[k] == t,
        forall|j: int| 0 <= j < k ==> s[j] != t,
    ensures
        remove_first(s, t) == s.remove(k),
    decreases k,
{
    if k == 0 {
        assert(s.drop_first() =~= s.remove(0));
    } else {
        assert(s[0] != t);
        assert(s.drop_first()[k - 1] == t);
        assert forall|j: int| 0 <= j < k - 1 implies s.drop_first()[j] != t by {
            assert(s.drop_first()[j] == s[j + 1]);
        }
        lemma_remove_first_at(s.drop_first(), t, k - 1);
        assert(seq![s[0]] + s.drop_first().remove(k - 1) =~= s.remove(k));
    }
}

/// Pushing a fresh thread at the back and then removing it restores the
/// list exactly.
pub proof fn lemma_remove_first_push(s: Seq<ThreadId>, t: ThreadId)
    requires
        !s.contains(t),
    ensures
        remove_first(s.push(t), t) == s,
    decreases s.len(),
{
    if s.len() == 0 {
        assert(s.push(t)[0] == t);
        assert(s.push(t).drop_first() =~= s);
    } else {
        assert(s.push(t)[0] == s[0]);
        assert(s.contains(s[0]));
        assert(s[0] != t);
        assert(s.push(t).drop_first() =~= s.drop_first().push(t));
        assert forall|j: int| 0 <= j < s.drop_first().len() implies s.drop_first()[j] != t by {
            assert(s.drop_first()[j] == s[j + 1]);
            assert(s.contains(s[j + 1]));
        }
        assert(!s.drop_first().contains(t));
        lemma_remove_first_push(s.drop_first(), t);
        assert(seq![s[0]] + s.drop_first() =~= s);
    }
}

/// On a duplicate-free list, removing the first occurrence of `t` removes
/// every occurrence.
pub proof fn lemma_remove_first_all(s: Seq<ThreadId>, t: ThreadId)
    requires
        distinct_ids(s),
    ensures
        !remove_first(s, t).contains(t),
    decreases s.len(),
{
    if s.len() == 0 {
    } else if s[0] == t {
        assert forall|j: int| 0 <= j < s.drop_first().len() implies s.drop_first()[j] != t by {
            assert(s.drop_first()[j] == s[j + 1]);
            assert(s[j + 1].idx() != s[0].idx());
        }
        assert(!s.drop_first().contains(t));
    } else {
        assert forall|j1: int, j2: int|
            0 <= j1 < j2 < s.drop_first().len() implies s.drop_first()[j1].idx()
            != s.drop_first()[j2].idx() by {
            assert(s.drop_first()[j1] == s[j1 + 1]);
            assert(s.drop_first()[j2] == s[j2 + 1]);
        }
        lemma_remove_first_all(s.drop_first(), t);
        let r = seq![s[0]] + remove_first(s.drop_first(), t);
        assert forall|j: int| 0 <= j < r.len() implies r[j] != t by {
            if j == 0 {
                assert(r[0] == s[0]);
            } else {
                assert(r[j] == remove_first(s.drop_first(), t)[j - 1]);
                assert(remove_first(s.drop_first(), t).contains(remove_first(s.drop_first(), t)[j
                    - 1]));
            }
        }
        assert(!r.contains(t));
    }
}

/// Removing a thread adds no member: every index present afterwards was
/// present before.
pub proof fn lemma_remove_first_has_idx(s: Seq<ThreadId>, t: ThreadId)
    ensures
        forall|j: int| has_idx(remove_first(s, t), j) ==> has_idx(s, j),
    decreases s.len(),
{
    if s.len() == 0 {
    } else if s[0] == t {
        assert forall|j: int| has_idx(s.drop_first(), j) implies has_idx(s, j) by {
            let k = choose|k: int| 0 <= k < s.drop_first().len() && s.drop_first()[k].idx() == j;
            assert(s[k + 1].idx() == j);
        }
    } else {
        lemma_remove_first_has_idx(s.drop_first(), t);
        let r = seq![s[0]] + remove_first(s.drop_first(), t);
        assert forall|j: int| has_idx(r, j) implies has_idx(s, j) by {
            let k = choose|k: int| 0 <= k < r.len() && r[k].idx() == j;
            if k == 0 {
                assert(s[0].idx() == j);
            } else {
                assert(remove_first(s.drop_first(), t)[k - 1].idx() == j);
                assert(has_idx(remove_first(s.drop_first(), t), j));
                assert(has_idx(s.drop_first(), j));
                let m = choose|m: int|
                    0 <= m < s.drop_first().len() && s.drop_first()[m].idx() == j;
                assert(s[m + 1].idx() == j);
            }
        }
    }
}

/// A round-robin step keeps exactly the same members.
pub proof fn lemma_rotate1_has_idx(s: Seq<ThreadId>)
    ensures
        forall|j: int| has_idx(rotate1(s), j) <==> has_idx(s, j),
{
    if s.len() > 1 {
        let r = rotate1(s);
        let len = s.len() as int;
        assert forall|j: int| has_idx(r, j) implies has_idx(s, j) by {
            let k = choose|k: int| 0 <= k < r.len() && r[k].idx() == j;
            if k < len - 1 {
                assert(s[k + 1].idx() == j);
            } else {
                assert(r[k] == s[0]);
            }
        }
        assert forall|j: int| has_idx(s, j) implies has_idx(r, j) by {
            let k = choose|k: int| 0 <= k < s.len() && s[k].idx() == j;
            if k == 0 {
                assert(r[len - 1].idx() == j);
            } else {
                assert(r[k - 1] == s[k]);
            }
        }
    }
}

/// `top_of` finds `l` when level `l` is populated and every level above it
/// is empty.
pub proof fn lemma_top_of_some(v: Seq<Seq<ThreadId>>, l: int, n: int)
    requires
        0 <= l < n <= v.len(),
        v[l].len() > 0,
        forall|l2: int| l < l2 < n ==> v[l2].len() == 0,
    ensures
        top_of(v, n) == Some(l),
    decreases n,
{
    if n == l + 1 {
    } else {
        lemma_top_of_some(v, l, n - 1);
    }
}

/// `top_of` finds nothing when every level is empty.
pub proof fn lemma_top_of_none(v: Seq<Seq<ThreadId>>, n: int)
    requires
        n <= v.len(),
        all_empty(v),
    ensures
        top_of(v, n) is None,
    decreases n,
{
    if n > 0 {
        lemma_top_of_none(v, n - 1);
    }
}

} // verus!
