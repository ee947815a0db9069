use vstd::prelude::*;

verus! {

use crate::ids::ThreadId;
use crate::model::lemma_remove_first_push;
use crate::model::lemma_top_of_some;
use crate::model::peek_of;
use crate::model::remove_first;
use crate::model::rotate1;

/// `k` round-robin steps at one level: the per-level effect of calling
/// `advance` `k` times.
pub open spec fn rotate_n(s: Seq<ThreadId>, k: nat) -> Seq<ThreadId>
    decreases k,
{
    if k == 0 {
        s
    } else {
        rotate_n(rotate1(s), (k - 1) as nat)
    }
}

/// Round trip: `add(t, l)` followed by `del(t, l)`, with no operation in
/// between, restores every level's contents exactly. The first update is
/// `add`'s effect on the view, the second is `del`'s effect on the result.
/// By `RunQueue::lemma_state_determined_by_view`, the bitmap and every
/// level's head slot are thereby restored too.
pub proof fn lemma_add_del_round_trip(v: Seq<Seq<ThreadId>>, t: ThreadId, l: int)
    requires
        0 <= l < v.len(),
        !v[l].contains(t),
    ensures
        v.update(l, v[l].push(t)).update(
            l,
            remove_first(v.update(l, v[l].push(t))[l], t),
        ) == v,
{
    lemma_remove_first_push(v[l], t);
    assert(v.update(l, v[l].push(t)).update(l, v[l]) =~= v);
}

/// A thread added to a vacant level that stands at least as high as every
/// populated level is what `peek_head` returns. In particular, after adding
/// to an empty queue — `l` the only populated level — the new thread is the
/// head of the queue.
pub proof fn lemma_peek_after_add_in_isolation(v: Seq<Seq<ThreadId>>, t: ThreadId, l: int)
    requires
        0 <= l < v.len(),
        v[l].len() == 0,
        forall|l2: int| l < l2 < v.len() ==> v[l2].len() == 0,
    ensures
        peek_of(v.update(l, v[l].push(t))) == Some(t),
{
    let v2 = v.update(l, v[l].push(t));
    assert(v2[l].len() == 1);
    assert(v2[l][0] == t);
    lemma_top_of_some(v2, l, v2.len() as int);
}

/// Cyclic invariance of round-robin: `advance` applied once per member of a
/// level restores the level's order exactly.
pub proof fn lemma_advance_full_cycle(s: Seq<ThreadId>)
    ensures
        rotate_n(s, s.len()) == s,
{
    let len = s.len() as int;
    lemma_rotate_n_shift(s, s.len());
    assert(s.subrange(len, len) + s.subrange(0, len) =~= s);
}

/// Boundary, deletion side: removing the sole member of a level leaves the
/// level empty; by `RunQueue::lemma_bitmap_tracks_occupancy` its bitmap bit
/// is then clear.
pub proof fn lemma_del_sole_member_empties(s: Seq<ThreadId>, t: ThreadId)
    requires
        s.len() == 1,
        s.contains(t),
    ensures
        remove_first(s, t).len() == 0,
{
    let k = choose|k: int| 0 <= k < s.len() && s[k] == t;
    assert(s[0] == t);
}

/// Boundary, insertion side: a push to an empty level populates it; by
/// `RunQueue::lemma_bitmap_tracks_occupancy` its bitmap bit is then set.
pub proof fn lemma_add_to_empty_populates(s: Seq<ThreadId>, t: ThreadId)
    requires
        s.len() == 0,
    ensures
        s.push(t).len() > 0,
{
}

/// `k` round-robin steps leave the list cyclically shifted by `k`.
proof fn lemma_rotate_n_shift(s: Seq<ThreadId>, k: nat)
    requires
        k <= s.len(),
    ensures
        rotate_n(s, k) == s.subrange(k as int, s.len() as int) + s.subrange(0, k as int),
    decreases k,
{
    let len = s.len() as int;
    if k == 0 {
        assert(s.subrange(0, len) + s.subrange(0, 0) =~= s);
    } else if s.len() == 1 {
        assert(rotate1(s) == s);
        lemma_rotate_n_shift(s, (k - 1) as nat);
        assert(s.subrange(1, 1) + s.subrange(0, 1) =~= s);
        assert(s.subrange(0, 1) + s.subrange(0, 0) =~= s);
    } else {
        let r = rotate1(s);
        assert(r == s.drop_first().push(s[0]));
        assert(r.len() == s.len());
        assert forall|j: int| 0 <= j < len implies r[j] == (if j < len - 1 {
            s[j + 1]
        } else {
            s[0]
        }) by {}
        lemma_rotate_n_shift(r, (k - 1) as nat);
        let ki = k as int;
        assert(r.subrange(ki - 1, len) + r.subrange(0, ki - 1) =~= s.subrange(ki, len)
            + s.subrange(0, ki)) by {
            assert forall|m: int|
                0 <= m < len implies (r.subrange(ki - 1, len) + r.subrange(0, ki - 1))[m] == (
            s.subrange(ki, len) + s.subrange(0, ki))[m] by {
                if m < len - ki + 1 {
                    assert((r.subrange(ki - 1, len) + r.subrange(0, ki - 1))[m] == r[ki - 1 + m]);
                } else {
                    assert((r.subrange(ki - 1, len) + r.subrange(0, ki - 1))[m] == r[m - len + ki
                        - 1]);
                }
            }
        }
    }
}

} // verus!
