//! The frames of one address space with a use counter each; the counters
//! grow on each clock tick that finds the page accessed.
use std::collections::VecDeque;
use vstd::prelude::*;
use crate::frame_allocator::{FrameTracker, StackFrameAllocator};
use crate::page_bits::{accessed, lemma_unaccessed, unaccessed, PageBits};

verus! {

/// A mapped frame with its use counter.
pub type CountedFrame = (usize, usize, FrameTracker, u16);

/// The pages of the trackers of the counted frames `q`, in order.
pub open spec fn counted_ppns(q: Seq<CountedFrame>) -> Seq<usize> {
    q.map_values(|f: CountedFrame| f.2.ppn)
}

/// The pages of the trackers of the counted frames `q`, in order.
pub fn collect_counted_ppns(q: &VecDeque<CountedFrame>) -> (r: Vec<usize>)
    ensures
        r@ == counted_ppns(q@),
{
    let mut r: Vec<usize> = Vec::new();
    let mut i: usize = 0;
    while i < q.len()
        invariant
            i <= q@.len(),
            r@ == counted_ppns(q@.take(i as int)),
        decreases q@.len() - i,
    {
        r.push(q[i].2.ppn);
        assert(counted_ppns(q@.take(i + 1)) =~= counted_ppns(q@.take(i as int)).push(q@[i as int].2.ppn));
        i = i + 1;
    }
    assert(q@.take(q@.len() as int) =~= q@);
    r
}

/// No earlier entry of `q` has the page of entry `i`.
pub open spec fn first_of_page(q: Seq<CountedFrame>, i: int) -> bool {
    forall|j: int| 0 <= j < i ==> (#[trigger] q[j]).1 != q[i].1
}

/// Entry `i` counts a use: its page is accessed and no earlier entry has
/// the same page (whose bit would have been cleared first).
pub open spec fn counts_use(q: Seq<CountedFrame>, flags: Map<usize, usize>, i: int) -> bool {
    accessed(flags[q[i].1]) && first_of_page(q, i)
}

/// Entry `i` after a tick.
pub open spec fn ticked(q: Seq<CountedFrame>, flags: Map<usize, usize>, i: int) -> CountedFrame {
    (q[i].0, q[i].1, q[i].2, (q[i].3 + if counts_use(q, flags, i) {
        1int
    } else {
        0int
    }) as u16)
}

/// The flags after the accessed bits of the pages of the first `k`
/// entries were cleared.
pub open spec fn cleared_upto(q: Seq<CountedFrame>, flags: Map<usize, usize>, k: int) -> Map<usize, usize> {
    Map::new(
        |v: usize| flags.contains_key(v),
        |v: usize|
            if exists|j: int| 0 <= j < k && (#[trigger] q[j]).1 == v {
                unaccessed(flags[v])
            } else {
                flags[v]
            },
    )
}

/// Every queued page has flags, and no counter that would grow is at its
/// largest value.
pub open spec fn tick_ok(q: Seq<CountedFrame>, flags: Map<usize, usize>) -> bool {
    forall|i: int|
        0 <= i < q.len() ==> flags.contains_key(#[trigger] q[i].1) && (counts_use(q, flags, i)
            ==> q[i].3 < u16::MAX)
}

/// `k` is the first position of a largest counter in `q`.
pub open spec fn first_most_used(q: Seq<CountedFrame>, k: int) -> bool {
    &&& 0 <= k < q.len()
    &&& forall|j: int| 0 <= j < q.len() ==> (#[trigger] q[j]).3 <= q[k].3
    &&& forall|j: int| 0 <= j < k ==> (#[trigger] q[j]).3 < q[k].3
}

/// What a tick does: from `q` and `flags` to `q2` and `flags2`.
pub open spec fn lfu_tick(q: LfuQueue, flags: Map<usize, usize>, q2: LfuQueue, flags2: Map<usize, usize>) -> bool {
    &&& q2.inner@ == Seq::new(q.inner@.len(), |i: int| ticked(q.inner@, flags, i))
    &&& flags2 == cleared_upto(q.inner@, flags, q.inner@.len() as int)
}

/// What an eviction does: a tick, then the first entry with the largest
/// counter is taken out (as `r`) and the other counters restart from 0.
pub open spec fn lfu_step(
    q: LfuQueue,
    flags: Map<usize, usize>,
    q2: LfuQueue,
    flags2: Map<usize, usize>,
    r: (usize, usize),
) -> bool {
    let t = Seq::new(q.inner@.len(), |i: int| ticked(q.inner@, flags, i));
    &&& exists|k: int|
        first_most_used(t, k) && r == (t[k].0, t[k].1) && q2.inner@ == Seq::new(
            t.len(),
            |i: int| (t[i].0, t[i].1, t[i].2, 0u16),
        ).remove(k)
    &&& flags2 == cleared_upto(q.inner@, flags, q.inner@.len() as int)
}

pub struct LfuQueue {
    pub inner: VecDeque<CountedFrame>,
}

impl LfuQueue {
    pub fn new() -> (r: Self)
        ensures
            r.inner@ == Seq::<CountedFrame>::empty(),
    {
        LfuQueue { inner: VecDeque::new() }
    }

    pub fn push_back(&mut self, item: CountedFrame)
        ensures
            final(self).inner@ == old(self).inner@.push(item),
    {
        self.inner.push_back(item);
    }

    pub fn len(&self) -> (r: usize)
        ensures
            r == self.inner@.len(),
    {
        self.inner.len()
    }

    /// Sets the counter of entry `i`.
    fn set_count(&mut self, i: usize, c: u16)
        requires
            i < old(self).inner@.len(),
        ensures
            final(self).inner@ == old(self).inner@.update(
                i as int,
                (old(self).inner@[i as int].0, old(self).inner@[i as int].1, old(self).inner@[i as int].2, c),
            ),
    {
        let (ppn, vpn, frame, _c) = self.inner.remove(i).unwrap();
        self.inner.insert(i, (ppn, vpn, frame, c));
        assert(self.inner@ =~= old(self).inner@.update(
            i as int,
            (old(self).inner@[i as int].0, old(self).inner@[i as int].1, old(self).inner@[i as int].2, c),
        ));
    }

    /// A clock tick: each entry whose page was accessed counts a use, and
    /// the accessed bits are cleared.
    pub fn handle_clock_interrupt(&mut self, memory_set: &mut PageBits)
        requires
            tick_ok(old(self).inner@, old(memory_set)@),
        ensures
            lfu_tick(*old(self), old(memory_set)@, *final(self), final(memory_set)@),
    {
        let ghost q = self.inner@;
        let ghost flags0 = memory_set@;
        let length = self.inner.len();
        assert(memory_set@ =~= cleared_upto(q, flags0, 0));
        let mut i: usize = 0;
        while i < length
            invariant
                length == q.len(),
                i <= length,
                self.inner@.len() == q.len(),
                forall|j: int| 0 <= j < i ==> #[trigger] self.inner@[j] == ticked(q, flags0, j),
                forall|j: int| i <= j < q.len() ==> #[trigger] self.inner@[j] == q[j],
                memory_set@ == cleared_upto(q, flags0, i as int),
                tick_ok(q, flags0),
            decreases length - i,
        {
            let vpn = self.inner[i].1;
            let count = self.inner[i].3;
            proof {
                assert(flags0.contains_key(vpn));
                lemma_unaccessed(flags0[vpn]);
                if exists|j: int| 0 <= j < i && (#[trigger] q[j]).1 == vpn {
                    assert(!first_of_page(q, i as int));
                } else {
                    assert(first_of_page(q, i as int));
                }
            }
            let acc = memory_set.has_accessed(vpn);
            memory_set.clear_accessed(vpn);
            let cur_flag = if acc {
                count + 1
            } else {
                count
            };
            self.set_count(i, cur_flag);
            proof {
                assert(memory_set@ =~= cleared_upto(q, flags0, i + 1)) by {
                    assert forall|u: usize| memory_set@.contains_key(u) implies memory_set@[u]
                        == cleared_upto(q, flags0, i + 1)[u] by {
                        if u == vpn {
                            assert(q[i as int].1 == vpn);
                        } else {
                            if exists|j: int| 0 <= j < i + 1 && (#[trigger] q[j]).1 == u {
                                let j = choose|j: int| 0 <= j < i + 1 && (#[trigger] q[j]).1 == u;
                                assert(j < i);
                            }
                        }
                    }
                }
            }
            i = i + 1;
        }
        assert(self.inner@ =~= Seq::new(q.len(), |i: int| ticked(q, flags0, i)));
    }

    /// A tick, then the entry with the largest counter (the first such) is
    /// taken out, and every other counter starts again from 0.
    pub fn work(&mut self, memory_set: &mut PageBits, allocator: &mut StackFrameAllocator) -> (r: (usize, usize))
        requires
            old(self).inner@.len() > 0,
            tick_ok(old(self).inner@, old(memory_set)@),
            old(allocator).every_in_use(counted_ppns(old(self).inner@)),
        ensures
            lfu_step(*old(self), old(memory_set)@, *final(self), final(memory_set)@, r),
            final(allocator).cur() == old(allocator).cur(),
            final(allocator).limit() == old(allocator).limit(),
            exists|k: int|
                first_most_used(
                    Seq::new(old(self).inner@.len(), |i: int| ticked(old(self).inner@, old(memory_set)@, i)),
                    k,
                ) && final(allocator).recycled() == old(allocator).recycled().push(old(self).inner@[k].2.ppn),
    {
        self.handle_clock_interrupt(memory_set);
        let ghost t = self.inner@;
        let length = self.inner.len();
        let mut index: usize = 0;
        let mut minimum: u16 = self.inner[0].3;
        self.set_count(0, 0);
        let mut i: usize = 1;
        while i < length
            invariant
                length == t.len(),
                1 <= i <= length,
                index < i,
                self.inner@.len() == t.len(),
                minimum == t[index as int].3,
                forall|j: int| 0 <= j < i ==> (#[trigger] t[j]).3 <= minimum,
                forall|j: int| 0 <= j < index ==> (#[trigger] t[j]).3 < minimum,
                forall|j: int| 0 <= j < i ==> #[trigger] self.inner@[j] == (t[j].0, t[j].1, t[j].2, 0u16),
                forall|j: int| i <= j < t.len() ==> #[trigger] self.inner@[j] == t[j],
            decreases length - i,
        {
            let flag = self.inner[i].3;
            if minimum < flag {
                minimum = flag;
                index = i;
            }
            self.set_count(i, 0);
            i = i + 1;
        }
        let ghost z = self.inner@;
        assert(z =~= Seq::new(t.len(), |i: int| (t[i].0, t[i].1, t[i].2, 0u16)));
        assert(t[index as int].2 == old(self).inner@[index as int].2);
        assert(counted_ppns(old(self).inner@)[index as int] == t[index as int].2.ppn);
        let (ppn, vpn, frame, _count) = self.inner.remove(index).unwrap();
        allocator.dealloc(frame.ppn);
        assert(first_most_used(t, index as int));
        assert(frame == t[index as int].2);
        (ppn, vpn)
    }
}

} // verus!
