use vstd::prelude::*;

verus! {

use crate::ids::ThreadId;
use crate::model::distinct_ids;
use crate::model::has_idx;
use crate::model::lemma_remove_first_at;
use crate::model::remove_first;
use crate::model::rotate1;
use crate::model::next_pos;
use crate::model::prev_pos;

/// Preallocated per-thread link storage, shared by all level lists: one
/// `next` and one `prev` slot per thread, indexed by the thread identifier.
/// The slots of a thread belong to whichever list currently holds it; the
/// slots of an unqueued thread are dead storage.
pub struct Links {
    next: Vec<usize>,
    prev: Vec<usize>,
}

impl Links {
    /// How many threads the storage can link: one slot per thread.
    pub closed spec fn cap(self) -> int {
        self.next@.len() as int
    }

    /// Both slot arrays cover the same thread range.
    pub closed spec fn wf(self) -> bool {
        self.prev@.len() == self.next@.len()
    }

    /// The `next` slot of thread index `j`.
    pub closed spec fn next_at(self, j: int) -> int {
        self.next@[j] as int
    }

    /// The `prev` slot of thread index `j`.
    pub closed spec fn prev_at(self, j: int) -> int {
        self.prev@[j] as int
    }

    /// Link storage for `n` threads. The initial slot values are dead
    /// storage: a list links a thread's slots before ever reading them.
    pub fn new(n: usize) -> (r: Self)
        ensures
            r.wf(),
            r.cap() == n,
    {
        Links { next: vec![0usize; n], prev: vec![0usize; n] }
    }
}

/// The ready threads of one priority level, held as a circular doubly-linked
/// list threaded through the shared [`Links`] slots. The list owns no node
/// storage of its own: it stores only its head and links the preallocated
/// per-thread slots, so every operation is constant-time and allocation-free.
///
/// The view of a list is the sequence of its members from head to tail.
#[derive(Clone, Copy)]
pub struct LevelList {
    head: Option<usize>,
    elems: Ghost<Seq<ThreadId>>,
}

impl View for LevelList {
    type V = Seq<ThreadId>;

    closed spec fn view(&self) -> Seq<ThreadId> {
        self.elems@
    }
}

impl LevelList {
    /// The head slot: the storage index of the first member, if any.
    pub closed spec fn head_opt(self) -> Option<usize> {
        self.head
    }

    /// The list's members stand in `links` as a circular doubly-linked
    /// chain in view order, the head slot names the first member, and no
    /// member occurs twice.
    pub closed spec fn wf(self, links: Links) -> bool {
        let s = self.elems@;
        let len = s.len() as int;
        &&& links.wf()
        &&& forall|k: int| 0 <= k < len ==> 0 <= (#[trigger] s[k]).idx() < links.cap()
        &&& distinct_ids(s)
        &&& (len == 0 ==> self.head is None)
        &&& (len > 0 ==> self.head == Some(s[0].idx() as usize))
        &&& forall|k: int|
            0 <= k < len ==> links.next_at((#[trigger] s[k]).idx()) == s[next_pos(k, len)].idx()
        &&& forall|k: int|
            0 <= k < len ==> links.prev_at((#[trigger] s[k]).idx()) == s[prev_pos(k, len)].idx()
    }

    /// An empty level list, well-formed over any link storage.
    pub fn new() -> (r: Self)
        ensures
            r@ == Seq::<ThreadId>::empty(),
            r.head_opt() is None,
            forall|ls: Links| ls.wf() ==> r.wf(ls),
    {
        LevelList { head: None, elems: Ghost(Seq::empty()) }
    }

    /// Whether the level currently holds no ready thread.
    pub fn is_empty(&self, links: &Links) -> (r: bool)
        requires
            self.wf(*links),
        ensures
            r == (self@.len() == 0),
    {
        proof {
            if self@.len() > 0 {
                assert(self.head == Some(self@[0].idx() as usize));
            }
        }
        self.head.is_none()
    }

    /// The current head of the level, without removing it.
    pub fn peek(&self, links: &Links) -> (r: Option<ThreadId>)
        requires
            self.wf(*links),
        ensures
            r == (if self@.len() == 0 {
                Option::<ThreadId>::None
            } else {
                Some(self@[0])
            }),
    {
        match self.head {
            None => {
                proof {
                    if self@.len() > 0 {
                        assert(self.head == Some(self@[0].idx() as usize));
                    }
                }
                None
            },
            Some(h) => {
                proof {
                    assert(self@.len() > 0);
                    assert(h == self@[0].idx() as usize);
                    assert(self@[0].idx() == self@[0].0 as int);
                }
                let t = ThreadId::new(h as u8);
                proof {
                    assert(t == self@[0]);
                }
                Some(t)
            },
        }
    }
    /// Inserts `thread` as the new tail, or as the sole member of an empty
    /// level. The thread must not be linked anywhere; only its slots and its
    /// new neighbours' slots are touched.
    #[verifier::rlimit(100)]
    #[verifier::spinoff_prover]
    pub fn push_back(&mut self, links: &mut Links, thread: ThreadId)
        requires
            old(self).wf(*old(links)),
            0 <= thread.idx() < old(links).cap(),
            !old(self)@.contains(thread),
        ensures
            final(self).wf(*final(links)),
            final(links).wf(),
            final(self)@ == old(self)@.push(thread),
            final(links).cap() == old(links).cap(),
            forall|j: int|
                0 <= j < old(links).cap() && j != thread.idx() && !has_idx(old(self)@, j)
                    ==> final(links).next_at(j) == old(links).next_at(j) && final(links).prev_at(j)
                    == old(links).prev_at(j),
    {
        let ghost s = old(self)@;
        let ghost len = s.len() as int;
        let ghost s2 = s.push(thread);
        let ti = thread.index();
        proof {
            assert forall|k: int| 0 <= k < len implies s[k].idx() != thread.idx() by {
                if s[k].idx() == thread.idx() {
                    assert(s[k].0 == thread.0);
                    assert(s[k] == thread);
                    assert(s.contains(thread));
                }
            }
        }
        match self.head {
            None => {
                proof {
                    if len > 0 {
                        assert(self.head == Some(s[0].idx() as usize));
                    }
                    assert(len == 0);
                }
                self.head = Some(ti);
                links.next[ti] = ti;
                links.prev[ti] = ti;
                self.elems = Ghost(s2);
                proof {
                    assert(s2.len() == 1);
                    assert(s2[0] == thread);
                    assert(self.wf(*links));
                }
            },
            Some(h) => {
                proof {
                    assert(len > 0);
                    assert(h == s[0].idx() as usize);
                    assert(links.prev_at(s[0].idx()) == s[prev_pos(0, len)].idx());
                    assert(0 <= s[len - 1].idx() < links.cap());
                    assert(s[len - 1].idx() != thread.idx());
                    assert(s[0].idx() != thread.idx());
                }
                let tail = links.prev[h];
                proof {
                    assert(tail == s[len - 1].idx() as usize);
                }
                links.next[tail] = ti;
                links.prev[ti] = tail;
                links.next[ti] = h;
                links.prev[h] = ti;
                self.elems = Ghost(s2);
                proof {
                    let len2 = len + 1;
                    assert(s2.len() == len2);
                    assert(s2[len] == thread);
                    assert forall|k: int| 0 <= k < len implies s2[k] == s[k] by {}
                    assert(distinct_ids(s2)) by {
                        assert forall|j: int, k: int|
                            0 <= j < k < len2 implies s2[j].idx() != s2[k].idx() by {
                            if k < len {
                                assert(s[j].idx() != s[k].idx());
                            }
                        }
                    }
                    assert(self.head == Some(s2[0].idx() as usize));
                    assert forall|k: int|
                        0 <= k < len2 implies links.next_at((#[trigger] s2[k]).idx())
                        == s2[next_pos(k, len2)].idx() by {
                        if k < len - 1 {
                            assert(s[k].idx() != s[len - 1].idx());
                            assert(links.next_at(s[k].idx()) == old(links).next_at(s[k].idx()));
                            assert(old(links).next_at(s[k].idx()) == s[next_pos(k, len)].idx());
                            assert(next_pos(k, len) == k + 1);
                        } else if k == len - 1 {
                            assert(s2[k].idx() == s[len - 1].idx());
                            assert(links.next_at(s[len - 1].idx()) == thread.idx());
                            assert(next_pos(k, len2) == len);
                        } else {
                            assert(k == len);
                            assert(links.next_at(thread.idx()) == s[0].idx());
                            assert(next_pos(k, len2) == 0);
                        }
                    }
                    assert forall|k: int|
                        0 <= k < len2 implies links.prev_at((#[trigger] s2[k]).idx())
                        == s2[prev_pos(k, len2)].idx() by {
                        if k == 0 {
                            assert(links.prev_at(s[0].idx()) == thread.idx());
                            assert(prev_pos(0, len2) == len);
                        } else if k < len {
                            assert(s[k].idx() != s[0].idx());
                            assert(links.prev_at(s[k].idx()) == old(links).prev_at(s[k].idx()));
                            assert(old(links).prev_at(s[k].idx()) == s[prev_pos(k, len)].idx());
                            assert(prev_pos(k, len) == k - 1);
                        } else {
                            assert(k == len);
                            assert(links.prev_at(thread.idx()) == s[len - 1].idx());
                            assert(prev_pos(k, len2) == len - 1);
                        }
                    }
                    assert(self.wf(*links));
                }
            },
        }
        proof {
            assert forall|j: int|
                0 <= j < old(links).cap() && j != thread.idx() && !has_idx(s, j) implies links
                .next_at(j) == old(links).next_at(j) && links.prev_at(j) == old(links).prev_at(
                j,
            ) by {
                if len > 0 {
                    assert(has_idx(s, s[0].idx()));
                    assert(has_idx(s, s[len - 1].idx()));
                }
            }
        }
    }
    /// Removes `thread`, an arbitrary member, by unlinking its own stored
    /// neighbours: constant time, no traversal. If `thread` was the head and
    /// others remain, the head advances to its successor.
    #[verifier::rlimit(100)]
    pub fn remove(&mut self, links: &mut Links, thread: ThreadId)
        requires
            old(self).wf(*old(links)),
            old(self)@.contains(thread),
        ensures
            final(self).wf(*final(links)),
            final(links).wf(),
            final(self)@ == remove_first(old(self)@, thread),
            final(self)@.len() == old(self)@.len() - 1,
            final(links).cap() == old(links).cap(),
            forall|j: int|
                0 <= j < old(links).cap() && !has_idx(old(self)@, j) ==> final(links).next_at(j)
                    == old(links).next_at(j) && final(links).prev_at(j) == old(links).prev_at(j),
    {
        let ghost s = old(self)@;
        let ghost len = s.len() as int;
        proof {
            assert(exists|i: int| 0 <= i < len && s[i] == thread);
        }
        let ghost k = choose|i: int| 0 <= i < len && s[i] == thread;
        let ti = thread.index();
        proof {
            assert(s[k].idx() == thread.idx());
            assert forall|j: int| 0 <= j < len && j != k implies s[j].idx() != thread.idx() by {}
            assert forall|j: int| 0 <= j < k implies s[j] != thread by {
                assert(s[j].idx() != s[k].idx());
            }
            lemma_remove_first_at(s, thread, k);
        }
        let nx = links.next[ti];
        let pv = links.prev[ti];
        let ghost kn = next_pos(k, len);
        let ghost kp = prev_pos(k, len);
        proof {
            assert(links.next_at(s[k].idx()) == s[kn].idx());
            assert(links.prev_at(s[k].idx()) == s[kp].idx());
            assert(nx == s[kn].idx() as usize);
            assert(pv == s[kp].idx() as usize);
        }
        if nx == ti {
            proof {
                assert(s[kn].idx() == thread.idx());
                assert(kn == k);
                assert(len == 1);
                assert(k == 0);
            }
            self.head = None;
            self.elems = Ghost(Seq::empty());
            proof {
                assert(s.remove(0) =~= Seq::<ThreadId>::empty());
                assert(self.wf(*links));
            }
        } else {
            proof {
                if len == 1 {
                    assert(kn == 0 && k == 0);
                }
                assert(len >= 2);
                assert(kn != k);
                assert(kp != k);
                assert(s[kn].idx() != thread.idx());
                assert(s[kp].idx() != thread.idx());
            }
            links.next[pv] = nx;
            links.prev[nx] = pv;
            match self.head {
                Some(hh) => {
                    if hh == ti {
                        self.head = Some(nx);
                    }
                },
                None => {},
            }
            self.elems = Ghost(s.remove(k));
            proof {
                let s2 = s.remove(k);
                let len2 = len - 1;
                assert(s2.len() == len2);
                assert forall|m: int| 0 <= m < len2 implies s2[m] == (if m < k {
                    s[m]
                } else {
                    s[m + 1]
                }) by {}
                assert(distinct_ids(s2)) by {
                    assert forall|j1: int, j2: int|
                        0 <= j1 < j2 < len2 implies s2[j1].idx() != s2[j2].idx() by {}
                }
                // The head clause.
                if k == 0 {
                    assert(old(self).head_opt() == Some(s[0].idx() as usize));
                    assert(self.head == Some(s[kn].idx() as usize));
                    assert(kn == 1);
                    assert(s2[0] == s[1]);
                } else {
                    assert(old(self).head_opt() == Some(s[0].idx() as usize));
                    assert(s[0].idx() != thread.idx());
                    assert(self.head == Some(s[0].idx() as usize));
                    assert(s2[0] == s[0]);
                }
                // The link clauses.
                assert forall|m: int|
                    0 <= m < len2 implies links.next_at((#[trigger] s2[m]).idx()) == s2[next_pos(
                    m,
                    len2,
                )].idx() by {
                    let mo = if m < k {
                        m
                    } else {
                        m + 1
                    };
                    assert(s2[m] == s[mo]);
                    if mo == kp {
                        assert(links.next_at(s[kp].idx()) == s[kn].idx());
                        let kn2 = if kn < k {
                            kn
                        } else {
                            kn - 1
                        };
                        assert(s2[kn2] == s[kn]);
                        assert(next_pos(m, len2) == kn2);
                    } else {
                        assert(s[mo].idx() != s[kp].idx());
                        assert(s[mo].idx() != s[kn].idx() || mo == kn);
                        if mo == kn {
                            assert(links.next_at(s[mo].idx()) == old(links).next_at(s[mo].idx()));
                        }
                        assert(links.next_at(s[mo].idx()) == old(links).next_at(s[mo].idx()));
                        let j = next_pos(mo, len);
                        assert(old(links).next_at(s[mo].idx()) == s[j].idx());
                        assert(j != k);
                        let j2 = if j < k {
                            j
                        } else {
                            j - 1
                        };
                        assert(s2[j2] == s[j]);
                        assert(next_pos(m, len2) == j2);
                    }
                }
                assert forall|m: int|
                    0 <= m < len2 implies links.prev_at((#[trigger] s2[m]).idx()) == s2[prev_pos(
                    m,
                    len2,
                )].idx() by {
                    let mo = if m < k {
                        m
                    } else {
                        m + 1
                    };
                    assert(s2[m] == s[mo]);
                    if mo == kn {
                        assert(links.prev_at(s[kn].idx()) == s[kp].idx());
                        let kp2 = if kp < k {
                            kp
                        } else {
                            kp - 1
                        };
                        assert(s2[kp2] == s[kp]);
                        assert(prev_pos(m, len2) == kp2);
                    } else {
                        assert(s[mo].idx() != s[kn].idx());
                        assert(links.prev_at(s[mo].idx()) == old(links).prev_at(s[mo].idx()));
                        let j = prev_pos(mo, len);
                        assert(old(links).prev_at(s[mo].idx()) == s[j].idx());
                        assert(j != k);
                        let j2 = if j < k {
                            j
                        } else {
                            j - 1
                        };
                        assert(s2[j2] == s[j]);
                        assert(prev_pos(m, len2) == j2);
                    }
                }
                assert(self.wf(*links));
            }
        }
        proof {
            assert forall|j: int|
                0 <= j < old(links).cap() && !has_idx(s, j) implies links.next_at(j) == old(
                    links,
                ).next_at(j) && links.prev_at(j) == old(links).prev_at(j) by {
                assert(has_idx(s, s[kn].idx()));
                assert(has_idx(s, s[kp].idx()));
            }
        }
    }
    /// Round-robin advance: the head moves to the tail and its successor
    /// becomes the new head. A no-op on an empty or single-member level.
    /// Only the head slot moves; no link is rewritten.
    #[verifier::rlimit(100)]
    pub fn rotate(&mut self, links: &mut Links)
        requires
            old(self).wf(*old(links)),
        ensures
            final(self).wf(*final(links)),
            final(self)@ == rotate1(old(self)@),
            *final(links) == *old(links),
    {
        let ghost s = old(self)@;
        let ghost len = s.len() as int;
        match self.head {
            None => {
                proof {
                    if len > 0 {
                        assert(self.head == Some(s[0].idx() as usize));
                    }
                    assert(len == 0);
                }
            },
            Some(h) => {
                proof {
                    assert(len > 0);
                    assert(h == s[0].idx() as usize);
                    assert(links.next_at(s[0].idx()) == s[next_pos(0, len)].idx());
                }
                let nx = links.next[h];
                self.head = Some(nx);
                self.elems = Ghost(rotate1(s));
                proof {
                    if len == 1 {
                        assert(next_pos(0, 1) == 0);
                        assert(nx == s[0].idx() as usize);
                        assert(rotate1(s) == s);
                    } else {
                        let s2 = rotate1(s);
                        assert(s2 == s.drop_first().push(s[0]));
                        assert(s2.len() == len);
                        assert forall|m: int| 0 <= m < len implies s2[m] == (if m < len - 1 {
                            s[m + 1]
                        } else {
                            s[0]
                        }) by {}
                        assert(distinct_ids(s2)) by {
                            assert forall|j1: int, j2: int|
                                0 <= j1 < j2 < len implies s2[j1].idx() != s2[j2].idx() by {}
                        }
                        assert(nx == s[1].idx() as usize);
                        assert(s2[0] == s[1]);
                        assert forall|m: int|
                            0 <= m < len implies links.next_at((#[trigger] s2[m]).idx())
                            == s2[next_pos(m, len)].idx() by {
                            let mo = if m < len - 1 {
                                m + 1
                            } else {
                                0
                            };
                            assert(s2[m] == s[mo]);
                            assert(links.next_at(s[mo].idx()) == s[next_pos(mo, len)].idx());
                            if m < len - 2 {
                                assert(next_pos(mo, len) == mo + 1);
                                assert(s2[next_pos(m, len)] == s[mo + 1]);
                            } else if m == len - 2 {
                                assert(next_pos(mo, len) == 0);
                                assert(s2[next_pos(m, len)] == s2[len - 1]);
                                assert(s2[len - 1] == s[0]);
                            } else {
                                assert(mo == 0);
                                assert(next_pos(mo, len) == 1);
                                assert(s2[next_pos(m, len)] == s2[0]);
                            }
                        }
                        assert forall|m: int|
                            0 <= m < len implies links.prev_at((#[trigger] s2[m]).idx())
                            == s2[prev_pos(m, len)].idx() by {
                            let mo = if m < len - 1 {
                                m + 1
                            } else {
                                0
                            };
                            assert(s2[m] == s[mo]);
                            assert(links.prev_at(s[mo].idx()) == s[prev_pos(mo, len)].idx());
                            if m == 0 {
                                assert(prev_pos(mo, len) == 0);
                                assert(s2[prev_pos(m, len)] == s2[len - 1]);
                                assert(s2[len - 1] == s[0]);
                            } else if m < len - 1 {
                                assert(prev_pos(mo, len) == mo - 1);
                                assert(s2[prev_pos(m, len)] == s2[m - 1]);
                                assert(s2[m - 1] == s[mo - 1]);
                            } else {
                                assert(mo == 0);
                                assert(prev_pos(mo, len) == len - 1);
                                assert(s2[prev_pos(m, len)] == s2[len - 2]);
                                assert(s2[len - 2] == s[len - 1]);
                            }
                        }
                        assert(self.wf(*links));
                    }
                }
            },
        }
    }

    /// Removes and returns the current head, or `None` on an empty level.
    pub fn pop_head(&mut self, links: &mut Links) -> (r: Option<ThreadId>)
        requires
            old(self).wf(*old(links)),
        ensures
            final(self).wf(*final(links)),
            final(links).wf(),
            final(links).cap() == old(links).cap(),
            match r {
                None => old(self)@.len() == 0 && *final(self) == *old(self) && *final(links)
                    == *old(links),
                Some(t) => old(self)@.len() > 0 && t == old(self)@[0] && final(self)@ == old(
                    self,
                )@.drop_first(),
            },
            forall|j: int|
                0 <= j < old(links).cap() && !has_idx(old(self)@, j) ==> final(links).next_at(j)
                    == old(links).next_at(j) && final(links).prev_at(j) == old(links).prev_at(j),
    {
        let ghost s = old(self)@;
        match self.head {
            None => {
                proof {
                    if s.len() > 0 {
                        assert(self.head == Some(s[0].idx() as usize));
                    }
                }
                None
            },
            Some(h) => {
                proof {
                    assert(s.len() > 0);
                    assert(h == s[0].idx() as usize);
                    assert(s[0].idx() == s[0].0 as int);
                }
                let t = ThreadId::new(h as u8);
                proof {
                    assert(t == s[0]);
                    assert(s.contains(t));
                }
                self.remove(links, t);
                proof {
                    assert(remove_first(s, t) == s.drop_first());
                }
                Some(t)
            },
        }
    }
}

/// A list stays well-formed under link storage that agrees with the old
/// storage on every member's slots.
pub proof fn lemma_wf_frame(ll: LevelList, la: Links, lb: Links)
    requires
        ll.wf(la),
        lb.wf(),
        lb.cap() == la.cap(),
        forall|j: int|
            0 <= j < la.cap() && has_idx(ll@, j) ==> lb.next_at(j) == la.next_at(j) && lb.prev_at(
                j,
            ) == la.prev_at(j),
    ensures
        ll.wf(lb),
{
    let s = ll@;
    let len = s.len() as int;
    assert forall|k: int| 0 <= k < len implies lb.next_at((#[trigger] s[k]).idx()) == s[next_pos(
        k,
        len,
    )].idx() && lb.prev_at(s[k].idx()) == s[prev_pos(k, len)].idx() by {
        assert(has_idx(s, s[k].idx()));
    }
}

/// A well-formed list holds no member twice and every member's index lies
/// within the storage.
pub proof fn lemma_wf_members(ll: LevelList, links: Links)
    requires
        ll.wf(links),
    ensures
        distinct_ids(ll@),
        forall|k: int| 0 <= k < ll@.len() ==> 0 <= (#[trigger] ll@[k]).idx() < links.cap(),
{
}

/// Two well-formed lists with the same members in the same order store the
/// same head.
pub proof fn lemma_head_determined(a: LevelList, la: Links, b: LevelList, lb: Links)
    requires
        a.wf(la),
        b.wf(lb),
        a@ == b@,
    ensures
        a.head_opt() == b.head_opt(),
{
    if a@.len() > 0 {
        assert(a.head_opt() == Some(a@[0].idx() as usize));
        assert(b.head_opt() == Some(b@[0].idx() as usize));
    }
}

} // verus!
