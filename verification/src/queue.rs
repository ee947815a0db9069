use vstd::prelude::*;

verus! {

use crate::bitmap::PriorityBitmap;
use crate::bitmap::bit_set;
use crate::ids::RunqueueId;
use crate::ids::ThreadId;
use crate::list::LevelList;
use crate::list::Links;
use crate::list::lemma_head_determined;
use crate::list::lemma_wf_frame;
use crate::list::lemma_wf_members;
use crate::model::all_empty;
use crate::model::disjoint_ids;
use crate::model::has_idx;
use crate::model::lemma_contains_has_idx;
use crate::model::lemma_remove_first_all;
use crate::model::lemma_remove_first_has_idx;
use crate::model::lemma_rotate1_has_idx;
use crate::model::lemma_top_of_none;
use crate::model::lemma_top_of_some;
use crate::model::peek_of;
use crate::model::remove_first;
use crate::model::rotate1;

/// The ready queue of a scheduler: one [`PriorityBitmap`] over `L` priority
/// levels, one [`LevelList`] per level, and shared link storage for up to
/// `N` threads. A higher numeric level means a higher priority.
///
/// The view of a queue is the sequence of its levels' member sequences,
/// lowest level first. All operations are constant-time and allocation-free;
/// the caller serializes access.
pub struct RunQueue<const L: usize, const N: usize> {
    bitmap: PriorityBitmap,
    lists: Vec<LevelList>,
    links: Links,
}

impl<const L: usize, const N: usize> View for RunQueue<L, N> {
    type V = Seq<Seq<ThreadId>>;

    closed spec fn view(&self) -> Seq<Seq<ThreadId>> {
        Seq::new(L as nat, |l: int| self.lists@[l]@)
    }
}

impl<const L: usize, const N: usize> RunQueue<L, N> {
    /// The bitmap word: bit `i` is set exactly when level `i` is populated.
    pub closed spec fn bits(self) -> u64 {
        self.bitmap@
    }

    /// The head slot of level `l`: the storage index of its first member.
    pub closed spec fn head_of(self, l: int) -> Option<usize> {
        self.lists@[l].head_opt()
    }

    /// Whether `t` is currently a member of any level.
    pub open spec fn queued(self, t: ThreadId) -> bool {
        exists|l: int| 0 <= l < self@.len() && #[trigger] self@[l].contains(t)
    }

    /// The queue's invariant: every level list is a well-formed circular
    /// chain, no thread is linked at two levels, and each bitmap bit tracks
    /// exactly the non-emptiness of its level.
    pub closed spec fn wf(self) -> bool {
        &&& 0 < L <= 64
        &&& self.lists@.len() == L as int
        &&& self.links.wf()
        &&& self.links.cap() == N as int
        &&& forall|l: int| 0 <= l < L as int ==> (#[trigger] self.lists@[l]).wf(self.links)
        &&& forall|l1: int, l2: int|
            0 <= l1 < L as int && 0 <= l2 < L as int && l1 != l2 ==> disjoint_ids(
                #[trigger] self.lists@[l1]@,
                #[trigger] self.lists@[l2]@,
            )
        &&& forall|i: u64|
            i < 64 ==> (bit_set(self.bits(), i) <==> ((i as int) < (L as int) && self.lists@[i as int]@.len()
                > 0))
    }

    /// A queue with every level empty and the bitmap all-clear. The one
    /// allocation: all link storage is reserved here, never on the hot path.
    /// At most 64 levels fit the one-word bitmap.
    pub fn new() -> (r: Self)
        requires
            0 < L <= 64,
        ensures
            r.wf(),
            r@.len() == L as int,
            all_empty(r@),
    {
        let bitmap = PriorityBitmap::new();
        let links = Links::new(N);
        let mut lists: Vec<LevelList> = Vec::new();
        let mut i: usize = 0;
        while i < L
            invariant
                i <= L,
                lists@.len() == i as int,
                forall|j: int| 0 <= j < i as int ==> (#[trigger] lists@[j])@.len() == 0,
                forall|j: int, ls: Links|
                    0 <= j < i as int && ls.wf() ==> (#[trigger] lists@[j].wf(ls)),
            decreases L - i,
        {
            lists.push(LevelList::new());
            i += 1;
        }
        let r = RunQueue { bitmap, lists, links };
        proof {
            assert forall|i2: u64| i2 < 64 implies !bit_set(r.bits(), i2) by {
                assert((0u64 >> i2) & 1u64 == 0u64) by (bit_vector);
            }
            assert forall|l1: int, l2: int|
                0 <= l1 < L as int && 0 <= l2 < L as int && l1 != l2 implies disjoint_ids(
                #[trigger] r.lists@[l1]@,
                #[trigger] r.lists@[l2]@,
            ) by {
                assert(r.lists@[l1]@.len() == 0);
                assert(forall|j: int| !has_idx(r.lists@[l1]@, j));
            }
            assert(r.wf());
            assert forall|l: int| 0 <= l < L as int implies r@[l].len() == 0 by {}
        }
        r
    }

    /// Makes `thread` ready at `level`: it becomes the new tail of that
    /// level's list, and the level's bitmap bit is set on the
    /// empty-to-non-empty transition. The thread must not be queued anywhere.
    pub fn add(&mut self, thread: ThreadId, level: RunqueueId)
        requires
            old(self).wf(),
            level.idx() < L as int,
            thread.idx() < N as int,
            !old(self).queued(thread),
        ensures
            final(self).wf(),
            final(self)@ == old(self)@.update(
                level.idx(),
                old(self)@[level.idx()].push(thread),
            ),
    {
        let li = level.index();
        let mut ll = self.lists[li];
        let was_empty = ll.is_empty(&self.links);
        proof {
            assert(old(self)@[level.idx()] == ll@);
            if ll@.contains(thread) {
                assert(old(self)@[level.idx()].contains(thread));
                assert(old(self).queued(thread));
            }
        }
        ll.push_back(&mut self.links, thread);
        self.lists[li] = ll;
        if was_empty {
            self.bitmap.set(li);
        }
        proof {
            let vold = old(self)@;
            let sold = vold[li as int];
            let s2 = sold.push(thread);
            assert forall|l: int|
                0 <= l < L as int && l != li as int implies (#[trigger] self.lists@[l]).wf(
                self.links,
            ) by {
                let l2 = old(self).lists@[l];
                assert(self.lists@[l] == l2);
                assert(disjoint_ids(l2@, sold));
                assert forall|j: int|
                    0 <= j < old(self).links.cap() && has_idx(l2@, j) implies self.links.next_at(j)
                    == old(self).links.next_at(j) && self.links.prev_at(j) == old(
                    self,
                ).links.prev_at(j) by {
                    assert(!has_idx(sold, j));
                    if j == thread.idx() {
                        let k = choose|k: int| 0 <= k < l2@.len() && l2@[k].idx() == j;
                        assert(l2@[k].0 == thread.0);
                        assert(l2@[k] == thread);
                        assert(vold[l].contains(thread));
                        assert(old(self).queued(thread));
                        assert(false);
                    }
                }
                lemma_wf_frame(l2, old(self).links, self.links);
            }
            // Membership of the grown level, for disjointness.
            assert forall|j: int| has_idx(s2, j) implies has_idx(sold, j) || j == thread.idx() by {
                let k = choose|k: int| 0 <= k < s2.len() && s2[k].idx() == j;
                if k < sold.len() {
                    assert(sold[k].idx() == j);
                }
            }
            assert forall|l1: int, l2: int|
                0 <= l1 < L as int && 0 <= l2 < L as int && l1 != l2 implies disjoint_ids(
                #[trigger] self.lists@[l1]@,
                #[trigger] self.lists@[l2]@,
            ) by {
                assert forall|j: int|
                    !(#[trigger] has_idx(self.lists@[l1]@, j) && #[trigger] has_idx(
                        self.lists@[l2]@,
                        j,
                    )) by {
                    if has_idx(self.lists@[l1]@, j) && has_idx(self.lists@[l2]@, j) {
                        if l1 != li as int && l2 != li as int {
                            assert(disjoint_ids(old(self).lists@[l1]@, old(self).lists@[l2]@));
                        } else {
                            let lo = if l1 == li as int {
                                l2
                            } else {
                                l1
                            };
                            assert(has_idx(self.lists@[lo]@, j));
                            assert(self.lists@[lo]@ == old(self).lists@[lo]@);
                            assert(has_idx(s2, j));
                            if j == thread.idx() {
                                let k = choose|k: int|
                                    0 <= k < old(self).lists@[lo]@.len() && old(
                                        self,
                                    ).lists@[lo]@[k].idx() == j;
                                assert(old(self).lists@[lo]@[k] == thread);
                                assert(vold[lo].contains(thread));
                                assert(old(self).queued(thread));
                                assert(false);
                            } else {
                                assert(has_idx(sold, j));
                                assert(disjoint_ids(old(self).lists@[lo]@, sold));
                                assert(false);
                            }
                        }
                    }
                }
            }
            // The bitmap clause.
            assert forall|i: u64|
                i < 64 implies (bit_set(self.bits(), i) <==> ((i as int) < (L as int)
                && self.lists@[i as int]@.len() > 0)) by {
                if was_empty {
                    assert(bit_set(self.bits(), i) <==> (bit_set(old(self).bits(), i) || i
                        == li as u64));
                } else {
                    assert(sold.len() > 0);
                    assert(bit_set(old(self).bits(), li as u64));
                }
            }
            assert(self.wf());
            assert(self@ =~= vold.update(level.idx(), vold[level.idx()].push(thread)));
        }
    }

    /// Removes `thread` from `level`, where it must currently be queued.
    /// After the call the thread is a member of no level; the level's bitmap
    /// bit is cleared on the non-empty-to-empty transition.
    pub fn del(&mut self, thread: ThreadId, level: RunqueueId)
        requires
            old(self).wf(),
            level.idx() < L as int,
            old(self)@[level.idx()].contains(thread),
        ensures
            final(self).wf(),
            final(self)@ == old(self)@.update(
                level.idx(),
                remove_first(old(self)@[level.idx()], thread),
            ),
            !final(self).queued(thread),
    {
        let li = level.index();
        let mut ll = self.lists[li];
        proof {
            assert(old(self)@[level.idx()] == ll@);
        }
        ll.remove(&mut self.links, thread);
        let now_empty = ll.is_empty(&self.links);
        self.lists[li] = ll;
        if now_empty {
            self.bitmap.clear(li);
        }
        proof {
            let vold = old(self)@;
            let sold = vold[li as int];
            let s2 = remove_first(sold, thread);
            lemma_contains_has_idx(sold, thread);
            assert forall|l: int|
                0 <= l < L as int && l != li as int implies (#[trigger] self.lists@[l]).wf(
                self.links,
            ) by {
                let l2 = old(self).lists@[l];
                assert(self.lists@[l] == l2);
                assert(disjoint_ids(l2@, sold));
                assert forall|j: int|
                    0 <= j < old(self).links.cap() && has_idx(l2@, j) implies self.links.next_at(j)
                    == old(self).links.next_at(j) && self.links.prev_at(j) == old(
                    self,
                ).links.prev_at(j) by {
                    assert(!has_idx(sold, j));
                }
                lemma_wf_frame(l2, old(self).links, self.links);
            }
            lemma_remove_first_has_idx(sold, thread);
            assert forall|l1: int, l2: int|
                0 <= l1 < L as int && 0 <= l2 < L as int && l1 != l2 implies disjoint_ids(
                #[trigger] self.lists@[l1]@,
                #[trigger] self.lists@[l2]@,
            ) by {
                assert forall|j: int|
                    !(#[trigger] has_idx(self.lists@[l1]@, j) && #[trigger] has_idx(
                        self.lists@[l2]@,
                        j,
                    )) by {
                    if has_idx(self.lists@[l1]@, j) && has_idx(self.lists@[l2]@, j) {
                        if l1 == li as int {
                            assert(has_idx(sold, j));
                            assert(disjoint_ids(old(self).lists@[l2]@, sold));
                        } else if l2 == li as int {
                            assert(has_idx(sold, j));
                            assert(disjoint_ids(old(self).lists@[l1]@, sold));
                        } else {
                            assert(disjoint_ids(old(self).lists@[l1]@, old(self).lists@[l2]@));
                        }
                        assert(false);
                    }
                }
            }
            assert forall|i: u64|
                i < 64 implies (bit_set(self.bits(), i) <==> ((i as int) < (L as int)
                && self.lists@[i as int]@.len() > 0)) by {
                if now_empty {
                    assert(bit_set(self.bits(), i) <==> (bit_set(old(self).bits(), i) && i
                        != li as u64));
                } else {
                    assert(sold.len() > 0);
                    assert(bit_set(old(self).bits(), li as u64));
                }
            }
            assert(self.wf());
            assert(self@ =~= vold.update(level.idx(), s2));
            // The thread is gone from its level and was nowhere else.
            lemma_wf_members(old(self).lists@[li as int], old(self).links);
            lemma_remove_first_all(sold, thread);
            assert forall|l: int| 0 <= l < self@.len() implies !(#[trigger] self@[l].contains(
                thread,
            )) by {
                if l != li as int && self@[l].contains(thread) {
                    lemma_contains_has_idx(self@[l], thread);
                    assert(has_idx(old(self).lists@[l]@, thread.idx()));
                    assert(has_idx(sold, thread.idx()));
                    assert(disjoint_ids(old(self).lists@[l]@, sold));
                    assert(false);
                }
            }
        }
    }

    /// Round-robins `level`: the head thread yields its turn and moves to
    /// the tail. A no-op on an empty or single-member level.
    pub fn advance(&mut self, level: RunqueueId)
        requires
            old(self).wf(),
            level.idx() < L as int,
        ensures
            final(self).wf(),
            final(self)@ == old(self)@.update(level.idx(), rotate1(old(self)@[level.idx()])),
    {
        let li = level.index();
        let mut ll = self.lists[li];
        proof {
            assert(old(self)@[level.idx()] == ll@);
        }
        ll.rotate(&mut self.links);
        self.lists[li] = ll;
        proof {
            let vold = old(self)@;
            let sold = vold[li as int];
            assert(self.links == old(self).links);
            assert forall|l: int|
                0 <= l < L as int && l != li as int implies (#[trigger] self.lists@[l]).wf(
                self.links,
            ) by {
                assert(self.lists@[l] == old(self).lists@[l]);
            }
            lemma_rotate1_has_idx(sold);
            assert forall|l1: int, l2: int|
                0 <= l1 < L as int && 0 <= l2 < L as int && l1 != l2 implies disjoint_ids(
                #[trigger] self.lists@[l1]@,
                #[trigger] self.lists@[l2]@,
            ) by {
                assert forall|j: int|
                    !(#[trigger] has_idx(self.lists@[l1]@, j) && #[trigger] has_idx(
                        self.lists@[l2]@,
                        j,
                    )) by {
                    if has_idx(self.lists@[l1]@, j) && has_idx(self.lists@[l2]@, j) {
                        if l1 == li as int {
                            assert(has_idx(sold, j));
                            assert(disjoint_ids(old(self).lists@[l2]@, sold));
                        } else if l2 == li as int {
                            assert(has_idx(sold, j));
                            assert(disjoint_ids(old(self).lists@[l1]@, sold));
                        } else {
                            assert(disjoint_ids(old(self).lists@[l1]@, old(self).lists@[l2]@));
                        }
                        assert(false);
                    }
                }
            }
            assert(rotate1(sold).len() == sold.len());
            assert forall|i: u64|
                i < 64 implies (bit_set(self.bits(), i) <==> ((i as int) < (L as int)
                && self.lists@[i as int]@.len() > 0)) by {
                assert(bit_set(self.bits(), i) == bit_set(old(self).bits(), i));
                if (i as int) < (L as int) {
                    if i as int == li as int {
                        assert(self.lists@[i as int]@ == rotate1(sold));
                    } else {
                        assert(self.lists@[i as int] == old(self).lists@[i as int]);
                    }
                }
            }
            assert(self.wf());
            assert(self@ =~= vold.update(level.idx(), rotate1(sold)));
        }
    }

    /// The thread at the head of the highest-priority populated level, or
    /// `None` when the whole queue is empty. The level is found in constant
    /// time through the bitmap.
    pub fn peek_head(&self) -> (r: Option<ThreadId>)
        requires
            self.wf(),
        ensures
            r == peek_of(self@),
    {
        match self.bitmap.highest_set() {
            None => {
                proof {
                    assert forall|i2: u64| i2 < 64 implies !bit_set(self.bits(), i2) by {
                        assert((0u64 >> i2) & 1u64 == 0u64) by (bit_vector);
                    }
                    assert forall|l: int| 0 <= l < self@.len() implies self@[l].len() == 0 by {
                        assert(!bit_set(self.bits(), l as u64));
                    }
                    lemma_top_of_none(self@, L as int);
                }
                None
            },
            Some(i) => {
                proof {
                    assert(bit_set(self.bits(), i as u64));
                    assert((i as int) < (L as int));
                    assert(self.lists@[i as int]@.len() > 0);
                }
                let r = self.lists[i].peek(&self.links);
                proof {
                    assert forall|l2: int| (i as int) < l2 < (L as int) implies self@[l2].len()
                        == 0 by {
                        assert(!bit_set(self.bits(), l2 as u64));
                    }
                    lemma_top_of_some(self@, i as int, L as int);
                    assert(r == Some(self@[i as int][0]));
                }
                r
            },
        }
    }

    /// No thread is a member of two levels: membership at two levels is
    /// membership at one and the same level.
    pub proof fn lemma_member_of_one_level(self, t: ThreadId, l1: int, l2: int)
        requires
            self.wf(),
            0 <= l1 < self@.len(),
            0 <= l2 < self@.len(),
            self@[l1].contains(t),
            self@[l2].contains(t),
        ensures
            l1 == l2,
    {
        lemma_contains_has_idx(self@[l1], t);
        lemma_contains_has_idx(self@[l2], t);
        if l1 != l2 {
            assert(disjoint_ids(self.lists@[l1]@, self.lists@[l2]@));
            assert(has_idx(self.lists@[l1]@, t.idx()));
            assert(has_idx(self.lists@[l2]@, t.idx()));
        }
    }

    /// Bitmap bit `i` is set exactly when level `i` holds a ready thread.
    pub proof fn lemma_bitmap_tracks_occupancy(self, i: int)
        requires
            self.wf(),
            0 <= i < self@.len(),
        ensures
            bit_set(self.bits(), i as u64) <==> self@[i].len() > 0,
    {
        assert(bit_set(self.bits(), i as u64) <==> ((i as int) < (L as int)
            && self.lists@[i as int]@.len() > 0));
    }

    /// The observable queue state is a function of the per-level contents:
    /// two well-formed queues with the same view agree on every bitmap bit
    /// and on every level's head slot.
    pub proof fn lemma_state_determined_by_view(a: Self, b: Self)
        requires
            a.wf(),
            b.wf(),
            a@ == b@,
        ensures
            forall|i: u64| i < 64 ==> bit_set(a.bits(), i) == bit_set(b.bits(), i),
            forall|l: int| 0 <= l < L as int ==> a.head_of(l) == b.head_of(l),
    {
        assert forall|i: u64| i < 64 implies bit_set(a.bits(), i) == bit_set(b.bits(), i) by {
            if (i as int) < (L as int) {
                assert(a@[i as int] == b@[i as int]);
            }
        }
        assert forall|l: int| 0 <= l < L as int implies a.head_of(l) == b.head_of(l) by {
            assert(a@[l] == b@[l]);
            lemma_head_determined(a.lists@[l], a.links, b.lists@[l], b.links);
        }
    }
}

} // verus!
