//! The frames of one address space in the order they were mapped, swept by
//! a clock hand.
use std::collections::VecDeque;
use vstd::prelude::*;
use crate::frame_allocator::{FrameTracker, StackFrameAllocator};
use crate::page_bits::{accessed, dirty, lemma_unaccessed, unaccessed, PageBits};

verus! {

/// A mapped frame: physical page number, virtual page number, frame.
pub type Frame = (usize, usize, FrameTracker);

/// Position `j` steps after `p0` on a ring of `n` positions, for `j <= n`.
pub open spec fn ring_at(p0: int, j: int, n: int) -> int {
    if p0 + j < n {
        p0 + j
    } else {
        p0 + j - n
    }
}

/// Where the hand starts from: `ptr`, or the front where it ran off the end.
pub open spec fn hand_start(ptr: usize, n: int) -> int {
    if ptr >= n {
        0
    } else {
        ptr as int
    }
}

/// The page `j` steps into the sweep from `p0` was passed before in this
/// sweep.
pub open spec fn passed(q: Seq<Frame>, p0: int, j: int, v: usize) -> bool {
    exists|i: int| 0 <= i < j && (#[trigger] q[ring_at(p0, i, q.len() as int)]).1 == v
}

/// The sweep stops `j` steps after `p0`: the page there is not accessed,
/// or its bit was already cleared in this sweep.
pub open spec fn sweep_stops(q: Seq<Frame>, flags: Map<usize, usize>, p0: int, j: int) -> bool {
    let v = q[ring_at(p0, j, q.len() as int)].1;
    !accessed(flags[v]) || passed(q, p0, j, v)
}

/// The flags after the accessed bits of the pages passed in the first `j`
/// steps were cleared.
pub open spec fn swept(q: Seq<Frame>, flags: Map<usize, usize>, p0: int, j: int) -> Map<usize, usize> {
    Map::new(
        |v: usize| flags.contains_key(v),
        |v: usize|
            if passed(q, p0, j, v) {
                unaccessed(flags[v])
            } else {
                flags[v]
            },
    )
}

/// Every queued page has flags in `flags`.
pub open spec fn all_mapped(q: Seq<Frame>, flags: Map<usize, usize>) -> bool {
    forall|i: int| 0 <= i < q.len() ==> flags.contains_key(#[trigger] q[i].1)
}

/// The pages of the trackers of the frames `q`, in order.
pub open spec fn tracker_ppns(q: Seq<Frame>) -> Seq<usize> {
    q.map_values(|f: Frame| f.2.ppn)
}

/// The pages of the trackers of the frames `q`, in order.
pub fn collect_ppns(q: &VecDeque<Frame>) -> (r: Vec<usize>)
    ensures
        r@ == tracker_ppns(q@),
{
    let mut r: Vec<usize> = Vec::new();
    let mut i: usize = 0;
    while i < q.len()
        invariant
            i <= q@.len(),
            r@ == tracker_ppns(q@.take(i as int)),
        decreases q@.len() - i,
    {
        r.push(q[i].2.ppn);
        assert(tracker_ppns(q@.take(i + 1)) =~= tracker_ppns(q@.take(i as int)).push(q@[i as int].2.ppn));
        i = i + 1;
    }
    assert(q@.take(q@.len() as int) =~= q@);
    r
}

/// The frame at position `v` of `q` was taken out, giving `q2`, and its
/// page given back to the allocator, whose list of pages given back went
/// from `rec` to `rec2`.
pub open spec fn taken_out(q: Seq<Frame>, q2: Seq<Frame>, rec: Seq<usize>, rec2: Seq<usize>) -> bool {
    exists|v: int|
        0 <= v < q.len() && q2 == q.remove(v) && rec2 == rec.push((#[trigger] q[v]).2.ppn)
}

/// What one sweep of the hand does: from `q` and `flags` to `q2` and
/// `flags2`, taking out the frame of `r`.
pub open spec fn clock_step(
    q: ClockQueue,
    flags: Map<usize, usize>,
    q2: ClockQueue,
    flags2: Map<usize, usize>,
    r: (usize, usize),
) -> bool {
    let s = q.inner@;
    let n = s.len() as int;
    let p0 = hand_start(q.ptr, n);
    exists|j: int|
        #![trigger ring_at(p0, j, n)]
        0 <= j <= n && sweep_stops(s, flags, p0, j) && (forall|i: int|
            0 <= i < j ==> !sweep_stops(s, flags, p0, i)) && {
            let v = ring_at(p0, j, n);
            &&& r == (s[v].0, s[v].1)
            &&& q2.inner@ == s.remove(v)
            &&& q2.ptr == v
            &&& flags2 == swept(s, flags, p0, j)
        }
}

pub struct ClockQueue {
    pub inner: VecDeque<Frame>,
    pub ptr: usize,
}

impl ClockQueue {
    pub fn new() -> (r: Self)
        ensures
            r.inner@ == Seq::<Frame>::empty(),
            r.ptr == 0,
    {
        ClockQueue { inner: VecDeque::new(), ptr: 0 }
    }

    pub fn push_back(&mut self, item: Frame)
        ensures
            final(self).inner@ == old(self).inner@.push(item),
            final(self).ptr == old(self).ptr,
    {
        self.inner.push_back(item);
    }

    pub fn len(&self) -> (r: usize)
        ensures
            r == self.inner@.len(),
    {
        self.inner.len()
    }

    /// Second chance: from the hand on, clears the accessed bit of each
    /// accessed page and moves on, until it meets a page that is not
    /// accessed; that frame is taken out and returned, and the hand stays
    /// where it was taken.
    pub fn work(&mut self, memory_set: &mut PageBits, allocator: &mut StackFrameAllocator) -> (r: (usize, usize))
        requires
            old(self).inner@.len() > 0,
            all_mapped(old(self).inner@, old(memory_set)@),
            old(allocator).every_in_use(tracker_ppns(old(self).inner@)),
        ensures
            final(allocator).cur() == old(allocator).cur(),
            final(allocator).limit() == old(allocator).limit(),
            taken_out(old(self).inner@, final(self).inner@, old(allocator).recycled(), final(allocator).recycled()),
            clock_step(*old(self), old(memory_set)@, *final(self), final(memory_set)@, r),
    {
        if self.ptr >= self.inner.len() {
            self.ptr = 0;
        }
        let ghost q = self.inner@;
        let ghost n = q.len() as int;
        let ghost p0 = self.ptr as int;
        let ghost flags0 = memory_set@;
        let ghost mut j: int = 0;
        proof {
            assert(memory_set@ =~= swept(q, flags0, p0, 0));
        }
        loop
            invariant
                self.inner@ == q,
                n == q.len(),
                n > 0,
                0 <= p0 < n,
                0 <= j <= n,
                self.ptr == ring_at(p0, j, n),
                forall|i: int| 0 <= i < j ==> !sweep_stops(q, flags0, p0, i),
                memory_set@ == swept(q, flags0, p0, j),
                all_mapped(q, flags0),
                flags0 == old(memory_set)@,
                q == old(self).inner@,
                p0 == hand_start(old(self).ptr, n),
                *allocator == *old(allocator),
                old(allocator).every_in_use(tracker_ppns(q)),
            decreases n - j,
        {
            let vpn = self.inner[self.ptr].1;
            proof {
                let v = q[ring_at(p0, j, n)].1;
                assert(flags0.contains_key(v));
                lemma_unaccessed(flags0[v]);
                if j == n {
                    assert(q[ring_at(p0, 0, n)].1 == v);
                    assert(passed(q, p0, j, v));
                }
            }
            if memory_set.has_accessed(vpn) {
                memory_set.clear_accessed(vpn);
                proof {
                    assert(memory_set@ =~= swept(q, flags0, p0, j + 1)) by {
                        assert forall|u: usize| memory_set@.contains_key(u) implies memory_set@[u]
                            == swept(q, flags0, p0, j + 1)[u] by {
                            if u == vpn {
                                assert(q[ring_at(p0, j, n)].1 == vpn);
                                assert(passed(q, p0, j + 1, vpn));
                            } else {
                                if passed(q, p0, j + 1, u) {
                                    let i = choose|i: int|
                                        0 <= i < j + 1 && (#[trigger] q[ring_at(p0, i, n)]).1 == u;
                                    assert(i < j);
                                    assert(passed(q, p0, j, u));
                                }
                                if passed(q, p0, j, u) {
                                    let i = choose|i: int|
                                        0 <= i < j && (#[trigger] q[ring_at(p0, i, n)]).1 == u;
                                    assert(passed(q, p0, j + 1, u));
                                }
                            }
                        }
                    }
                }
                let len = self.inner.len();
                assert(self.ptr < len);
                self.ptr = self.ptr + 1;
                if self.ptr >= self.inner.len() {
                    self.ptr = 0;
                }
                proof {
                    j = j + 1;
                }
            } else {
                let ghost v = self.ptr as int;
                assert(tracker_ppns(q)[v] == q[v].2.ppn);
                let item = self.inner.remove(self.ptr);
                let (ppn, vpn, frame) = item.unwrap();
                allocator.dealloc(frame.ppn);
                assert(q[v] == (ppn, vpn, frame));
                return (ppn, vpn);
            }
        }
    }

    /// The improved clock: the entry under the hand is classed by its
    /// accessed and dirty bits; an accessed one has its accessed bit
    /// cleared. The hand does not move, so the entry under it is the one
    /// taken out.
    pub fn work_improve(&mut self, memory_set: &mut PageBits, allocator: &mut StackFrameAllocator) -> (r: (usize, usize))
        requires
            old(self).inner@.len() > 0,
            old(memory_set)@.contains_key(old(self).inner@[hand_start(old(self).ptr, old(self).inner@.len() as int)].1),
            old(allocator).every_in_use(tracker_ppns(old(self).inner@)),
        ensures
            final(allocator).cur() == old(allocator).cur(),
            final(allocator).limit() == old(allocator).limit(),
            taken_out(old(self).inner@, final(self).inner@, old(allocator).recycled(), final(allocator).recycled()),
            ({
                let q = old(self).inner@;
                let p = hand_start(old(self).ptr, q.len() as int);
                let v = q[p].1;
                &&& r == (q[p].0, v)
                &&& final(self).inner@ == q.remove(p)
                &&& final(self).ptr == p
                &&& final(memory_set)@ == if accessed(old(memory_set)@[v]) {
                    old(memory_set)@.insert(v, unaccessed(old(memory_set)@[v]))
                } else {
                    old(memory_set)@
                }
            }),
    {
        if self.ptr >= self.inner.len() {
            self.ptr = 0;
        }
        let vpn = self.inner[self.ptr].1;
        let (accessed, dirty) = memory_set.get_accessed_dirty(vpn);
        if !accessed && !dirty {
            let ghost q = self.inner@;
            let ghost v = self.ptr as int;
            assert(tracker_ppns(q)[v] == q[v].2.ppn);
            let (ppn, vpn, frame) = self.inner.remove(self.ptr).unwrap();
            allocator.dealloc(frame.ppn);
            assert(q[v] == (ppn, vpn, frame));
            return (ppn, vpn);
        }
        if dirty && !accessed {
            let ghost q = self.inner@;
            let ghost v = self.ptr as int;
            assert(tracker_ppns(q)[v] == q[v].2.ppn);
            let (ppn, vpn, frame) = self.inner.remove(self.ptr).unwrap();
            allocator.dealloc(frame.ppn);
            assert(q[v] == (ppn, vpn, frame));
            return (ppn, vpn);
        } else if accessed {
            memory_set.clear_accessed(vpn);
        }
        if !dirty {
            let ghost q = self.inner@;
            let ghost v = self.ptr as int;
            assert(tracker_ppns(q)[v] == q[v].2.ppn);
            let (ppn, vpn, frame) = self.inner.remove(self.ptr).unwrap();
            allocator.dealloc(frame.ppn);
            assert(q[v] == (ppn, vpn, frame));
            return (ppn, vpn);
        }
        let ghost q = self.inner@;
        let ghost v = self.ptr as int;
        assert(tracker_ppns(q)[v] == q[v].2.ppn);
        let (ppn, vpn, frame) = self.inner.remove(self.ptr).unwrap();
        allocator.dealloc(frame.ppn);
        assert(q[v] == (ppn, vpn, frame));
        (ppn, vpn)
    }
}

} // verus!
