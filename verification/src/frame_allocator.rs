//! Physical frames: a stack allocator over a range of page numbers, with
//! the frames given back kept for reuse.
use vstd::prelude::*;

verus! {

/// A physical frame held by the page-replacement policies.
#[derive(Clone)]
pub struct FrameTracker {
    pub ppn: usize,
}

impl FrameTracker {
    pub fn new(ppn: usize) -> (r: Self)
        ensures
            r.ppn == ppn,
    {
        FrameTracker { ppn: ppn }
    }
}

/// Giving back `p` after the frames `s`, on top of the list `rec`.
pub proof fn lemma_concat_push(rec: Seq<usize>, s: Seq<usize>, p: usize)
    ensures
        rec + s.push(p) == (rec + s).push(p),
{
    assert(rec + s.push(p) =~= (rec + s).push(p));
}

/// Giving back `a` then `b`, on top of the list `rec`.
pub proof fn lemma_concat_assoc(rec: Seq<usize>, a: Seq<usize>, b: Seq<usize>)
    ensures
        rec + (a + b) == (rec + a) + b,
{
    assert(rec + (a + b) =~= (rec + a) + b);
}

/// Hands out the page numbers `current..end` in order, and those given
/// back, last given back first.
pub struct StackFrameAllocator {
    current: usize,
    end: usize,
    recycled: Vec<usize>,
}

impl StackFrameAllocator {
    /// The next page number never handed out.
    pub closed spec fn cur(&self) -> usize {
        self.current
    }

    /// The end of the range.
    pub closed spec fn limit(&self) -> usize {
        self.end
    }

    /// The page numbers given back, the next one to reuse last.
    pub closed spec fn recycled(&self) -> Seq<usize> {
        self.recycled@
    }

    /// The frames given back lie below `cur` and none is there twice.
    pub open spec fn wf(&self) -> bool {
        &&& self.recycled().no_duplicates()
        &&& forall|i: int| 0 <= i < self.recycled().len() ==> #[trigger] self.recycled()[i] < self.cur()
    }

    /// Every frame that can be handed out lies in `l..limit()`: `cur` lies
    /// in that range and every frame given back in `l..cur()`.
    pub open spec fn within(&self, l: usize) -> bool {
        &&& l <= self.cur() <= self.limit()
        &&& forall|i: int| 0 <= i < self.recycled().len() ==> l <= #[trigger] self.recycled()[i] < self.cur()
    }

    /// Page `ppn` is handed out: below `cur` and not given back.
    pub open spec fn in_use(&self, ppn: usize) -> bool {
        ppn < self.cur() && !self.recycled().contains(ppn)
    }

    /// Every page of `ppns` is handed out.
    pub open spec fn every_in_use(&self, ppns: Seq<usize>) -> bool {
        forall|i: int| 0 <= i < ppns.len() ==> self.in_use(#[trigger] ppns[i])
    }

    /// Every page of `ppns` is handed out, and none is there twice.
    pub open spec fn all_in_use(&self, ppns: Seq<usize>) -> bool {
        &&& ppns.no_duplicates()
        &&& self.every_in_use(ppns)
    }

    pub fn new() -> (r: Self)
        ensures
            r.cur() == 0,
            r.limit() == 0,
            r.recycled() == Seq::<usize>::empty(),
            r.wf(),
    {
        StackFrameAllocator { current: 0, end: 0, recycled: Vec::new() }
    }

    /// Sets the range of page numbers to `l..r`.
    pub fn init(&mut self, l: usize, r: usize)
        ensures
            l <= r && old(self).recycled().len() == 0 ==> final(self).within(l),
            final(self).cur() == l,
            final(self).limit() == r,
            final(self).recycled() == old(self).recycled(),
    {
        self.current = l;
        self.end = r;
    }

    /// Whether a frame can be handed out.
    pub fn check(&mut self) -> (r: bool)
        ensures
            final(self).recycled() == old(self).recycled(),
            final(self).cur() == old(self).cur(),
            final(self).limit() == old(self).limit(),
            r == (old(self).cur() < old(self).limit() || old(self).recycled().len() != 0),
    {
        if self.current < self.end {
            return true;
        }
        self.recycled.len() != 0
    }

    /// Hands out a frame: the last one given back, else the next new one,
    /// else none when the range is used up.
    pub fn alloc_frame(&mut self) -> (r: Option<usize>)
        requires
            old(self).recycled().len() > 0 || old(self).cur() == old(self).limit() || old(
                self,
            ).cur() < usize::MAX,
        ensures
            final(self).limit() == old(self).limit(),
            old(self).wf() ==> final(self).wf(),
            old(self).wf() ==> match r {
                Some(p) => !old(self).in_use(p) && final(self).in_use(p),
                None => true,
            },
            forall|l: usize| #[trigger] old(self).within(l) ==> {
                &&& final(self).within(l)
                &&& (r matches Some(p) ==> l <= p < old(self).limit())
                &&& (old(self).wf() ==> (r is None <==> forall|q: usize|
                    l <= q < old(self).limit() ==> #[trigger] old(self).in_use(q)))
            },
            if old(self).recycled().len() > 0 {
                &&& r == Some(old(self).recycled().last())
                &&& final(self).recycled() == old(self).recycled().drop_last()
                &&& final(self).cur() == old(self).cur()
            } else if old(self).cur() == old(self).limit() {
                &&& r is None
                &&& final(self).recycled() == old(self).recycled()
                &&& final(self).cur() == old(self).cur()
            } else {
                &&& r == Some(old(self).cur())
                &&& final(self).cur() == old(self).cur() + 1
                &&& final(self).recycled() == old(self).recycled()
            },
    {
        let ghost f0 = self.recycled@;
        if let Some(ppn) = self.recycled.pop() {
            proof {
                if old(self).wf() {
                    assert(f0.contains(ppn));
                    assert(!self.recycled@.contains(ppn)) by {
                        if self.recycled@.contains(ppn) {
                            let k = choose|k: int| 0 <= k < self.recycled@.len() && self.recycled@[k] == ppn;
                            assert(f0[k] == f0[f0.len() - 1]);
                        }
                    }
                    assert forall|i: int| 0 <= i < self.recycled().len() implies #[trigger] self.recycled()[i]
                        < self.cur() by {
                        assert(self.recycled()[i] == f0[i]);
                    }
                }
                assert(ppn == f0[f0.len() - 1]);
                assert(f0.contains(ppn));
                assert(!old(self).in_use(ppn));
                assert forall|l: usize| #[trigger] old(self).within(l) implies self.within(l) && l <= ppn
                    < old(self).limit() by {
                    assert(old(self).recycled()[f0.len() - 1] == ppn);
                    assert forall|i: int| 0 <= i < self.recycled().len() implies l <= #[trigger] self.recycled()[i]
                        < self.cur() by {
                        assert(self.recycled()[i] == f0[i]);
                        assert(old(self).recycled()[i] == f0[i]);
                    }
                }
            }
            Some(ppn)
        } else if self.current == self.end {
            proof {
                assert forall|l: usize, p: usize| #[trigger] old(self).within(l) && l <= p < old(self).limit()
                    implies #[trigger] old(self).in_use(p) by {
                    assert(!f0.contains(p));
                }
            }
            None
        } else {
            assert(!old(self).in_use(old(self).cur()));
            self.current = self.current + 1;
            Some(self.current - 1)
        }
    }

    /// The next page number never handed out, and the end of the range.
    pub fn range(&self) -> (r: (usize, usize))
        ensures
            r == (self.cur(), self.limit()),
    {
        (self.current, self.end)
    }

    /// Whether frame `ppn` is handed out (and so may be given back).
    pub fn is_allocated(&self, ppn: usize) -> (r: bool)
        ensures
            r == self.in_use(ppn),
    {
        if ppn >= self.current {
            return false;
        }
        let mut i: usize = 0;
        while i < self.recycled.len()
            invariant
                i <= self.recycled@.len(),
                forall|j: int| 0 <= j < i ==> self.recycled@[j] != ppn,
            decreases self.recycled@.len() - i,
        {
            if self.recycled[i] == ppn {
                assert(self.recycled@[i as int] == ppn);
                return false;
            }
            i = i + 1;
        }
        true
    }

    /// Takes the frames `ppns` back in order; each must be handed out, and
    /// none given twice.
    pub fn release_all(&mut self, ppns: &Vec<usize>)
        requires
            old(self).all_in_use(ppns@),
        ensures
            final(self).recycled() == old(self).recycled() + ppns@,
            final(self).cur() == old(self).cur(),
            final(self).limit() == old(self).limit(),
            old(self).wf() ==> final(self).wf(),
            forall|l: usize| #[trigger] old(self).within(l) && (forall|i: int| 0 <= i < ppns@.len() ==> l <= ppns@[i])
                ==> final(self).within(l),
    {
        let mut i: usize = 0;
        assert(old(self).recycled() + ppns@.take(0) =~= old(self).recycled());
        while i < ppns.len()
            invariant
                i <= ppns@.len(),
                old(self).all_in_use(ppns@),
                self.recycled() == old(self).recycled() + ppns@.take(i as int),
                forall|j: int| i <= j < ppns@.len() ==> self.in_use(#[trigger] ppns@[j]),
                self.cur() == old(self).cur(),
                self.limit() == old(self).limit(),
                old(self).wf() ==> self.wf(),
                forall|l: usize| #[trigger] old(self).within(l) && (forall|k: int| 0 <= k < ppns@.len() ==> l <= ppns@[k])
                    ==> self.within(l),
            decreases ppns@.len() - i,
        {
            let p = ppns[i];
            assert(self.in_use(ppns@[i as int]));
            self.dealloc(p);
            proof {
                assert(ppns@.take(i + 1) =~= ppns@.take(i as int).push(p));
                assert(old(self).recycled() + ppns@.take(i + 1) =~= (old(self).recycled() + ppns@.take(i as int)).push(p));
                assert forall|j: int| i + 1 <= j < ppns@.len() implies self.in_use(#[trigger] ppns@[j]) by {
                    assert(ppns@[j] != ppns@[i as int]);
                    assert(!self.recycled().contains(ppns@[j])) by {
                        if self.recycled().contains(ppns@[j]) {
                            let k = choose|k: int| 0 <= k < self.recycled().len() && self.recycled()[k] == ppns@[j];
                            if k < self.recycled().len() - 1 {
                                assert(self.recycled()[k] == (old(self).recycled() + ppns@.take(i as int))[k]);
                            }
                        }
                    }
                }
                assert forall|l: usize| #[trigger] old(self).within(l) && (forall|k: int| 0 <= k < ppns@.len() ==> l
                    <= ppns@[k]) implies self.within(l) by {
                    assert(l <= ppns@[i as int]);
                }
            }
            i = i + 1;
        }
        assert(ppns@.take(ppns@.len() as int) =~= ppns@);
    }

    /// Takes frame `ppn` back; it must be handed out.
    pub fn dealloc(&mut self, ppn: usize)
        requires
            old(self).in_use(ppn),
        ensures
            final(self).recycled() == old(self).recycled().push(ppn),
            final(self).cur() == old(self).cur(),
            final(self).limit() == old(self).limit(),
            old(self).wf() ==> final(self).wf(),
            !final(self).in_use(ppn),
            forall|x: usize| x != ppn ==> (#[trigger] final(self).in_use(x) <==> old(self).in_use(x)),
            forall|l: usize| #[trigger] old(self).within(l) && l <= ppn ==> final(self).within(l),
    {
        let ghost f0 = self.recycled@;
        proof {
            assert forall|x: usize| x != ppn implies (f0.push(ppn).contains(x) <==> f0.contains(x)) by {
                if f0.push(ppn).contains(x) {
                    let k = choose|k: int| 0 <= k < f0.push(ppn).len() && f0.push(ppn)[k] == x;
                    assert(k < f0.len());
                    assert(f0[k] == x);
                }
                if f0.contains(x) {
                    let k = choose|k: int| 0 <= k < f0.len() && f0[k] == x;
                    assert(f0.push(ppn)[k] == x);
                }
            }
        }
        self.recycled.push(ppn);
        proof {
            assert(self.recycled@[f0.len() as int] == ppn);
            if old(self).wf() {
                assert forall|i: int, j: int| 0 <= i < j < self.recycled@.len() implies self.recycled@[i]
                    != self.recycled@[j] by {
                    if j == f0.len() {
                        assert(self.recycled@[i] == f0[i]);
                    }
                }
                assert forall|i: int| 0 <= i < self.recycled().len() implies #[trigger] self.recycled()[i]
                    < self.cur() by {
                    if i < f0.len() {
                        assert(self.recycled()[i] == f0[i]);
                    }
                }
            }
        }
    }
}

/// A frame given back is the next one handed out: `dealloc(p)` followed
/// by `alloc_frame()` returns `p` and leaves the allocator as it was.
pub proof fn law_dealloc_then_alloc(a: StackFrameAllocator, b: StackFrameAllocator, c: StackFrameAllocator, p: usize, r: Option<usize>)
    requires
        a.in_use(p),
        b.recycled() == a.recycled().push(p),
        b.cur() == a.cur(),
        b.limit() == a.limit(),
        c.limit() == b.limit(),
        b.recycled().len() > 0,
        r == Some(b.recycled().last()),
        c.recycled() == b.recycled().drop_last(),
        c.cur() == b.cur(),
    ensures
        r == Some(p),
        c.recycled() == a.recycled(),
        c.cur() == a.cur(),
        c.limit() == a.limit(),
{
    assert(a.recycled().push(p).drop_last() =~= a.recycled());
}

/// A call on the allocator: `alloc_frame()` or `dealloc(ppn)`.
pub enum AllocOp {
    Alloc,
    Dealloc(usize),
}

/// The call `op` takes the allocator from `a` to `b`, answering `out`
/// (`None` for a `dealloc`), as the calls' contracts state it.
pub open spec fn alloc_step(a: StackFrameAllocator, op: AllocOp, b: StackFrameAllocator, out: Option<usize>) -> bool {
    &&& b.limit() == a.limit()
    &&& match op {
        AllocOp::Alloc => if a.recycled().len() > 0 {
            &&& out == Some(a.recycled().last())
            &&& b.recycled() == a.recycled().drop_last()
            &&& b.cur() == a.cur()
        } else if a.cur() == a.limit() {
            &&& out is None
            &&& b.recycled() == a.recycled()
            &&& b.cur() == a.cur()
        } else {
            &&& out == Some(a.cur())
            &&& b.cur() == a.cur() + 1
            &&& b.recycled() == a.recycled()
        },
        AllocOp::Dealloc(p) => {
            &&& a.in_use(p)
            &&& out is None
            &&& b.recycled() == a.recycled().push(p)
            &&& b.cur() == a.cur()
        },
    }
}

/// One call keeps the allocator well formed and its frames in `l..limit`;
/// an `alloc_frame` hands out a frame of that range not handed out yet
/// (the last one given back, if any), or nothing exactly when every frame
/// of the range is handed out.
pub proof fn lemma_alloc_step(a: StackFrameAllocator, op: AllocOp, b: StackFrameAllocator, out: Option<usize>, l: usize)
    requires
        a.wf(),
        a.within(l),
        alloc_step(a, op, b, out),
        op matches AllocOp::Dealloc(p) ==> l <= p,
    ensures
        b.wf(),
        b.within(l),
        op is Alloc ==> match out {
            Some(p) => l <= p < a.limit() && !a.in_use(p) && b.in_use(p),
            None => forall|q: usize| l <= q < a.limit() ==> #[trigger] a.in_use(q),
        },
        op is Alloc && a.recycled().len() > 0 ==> out == Some(a.recycled().last()),
{
    let f0 = a.recycled();
    let f1 = b.recycled();
    match op {
        AllocOp::Alloc => {
            if f0.len() > 0 {
                let p = f0.last();
                assert(f0.contains(p));
                assert(f0[f0.len() - 1] == p);
                assert forall|i: int| 0 <= i < f1.len() implies l <= #[trigger] f1[i] < b.cur() by {
                    assert(f1[i] == f0[i]);
                }
                assert(!f1.contains(p)) by {
                    if f1.contains(p) {
                        let k = choose|k: int| 0 <= k < f1.len() && f1[k] == p;
                        assert(f0[k] == f0[f0.len() - 1]);
                    }
                }
                assert(f1.no_duplicates()) by {
                    assert forall|i: int, j: int| 0 <= i < f1.len() && 0 <= j < f1.len() && i != j implies f1[i]
                        != f1[j] by {
                        assert(f1[i] == f0[i] && f1[j] == f0[j]);
                    }
                }
            } else if a.cur() == a.limit() {
                assert forall|q: usize| l <= q < a.limit() implies #[trigger] a.in_use(q) by {
                    assert(!f0.contains(q));
                }
            } else {
                assert(!f0.contains(a.cur()));
                assert(!f1.contains(a.cur()));
            }
        },
        AllocOp::Dealloc(p) => {
            assert(f1[f0.len() as int] == p);
            assert forall|i: int| 0 <= i < f1.len() implies l <= #[trigger] f1[i] < b.cur() by {
                if i < f0.len() {
                    assert(f1[i] == f0[i]);
                }
            }
            assert forall|i: int| 0 <= i < f1.len() implies #[trigger] f1[i] < b.cur() by {
                if i < f0.len() {
                    assert(f1[i] == f0[i]);
                }
            }
            assert(f1.no_duplicates()) by {
                assert forall|i: int, j: int| 0 <= i < f1.len() && 0 <= j < f1.len() && i != j implies f1[i] != f1[j] by {
                    if i < f0.len() && j < f0.len() {
                        assert(f1[i] == f0[i] && f1[j] == f0[j]);
                    } else if i < f0.len() {
                        assert(f1[i] == f0[i]);
                    } else if j < f0.len() {
                        assert(f1[j] == f0[j]);
                    }
                }
            }
        },
    }
}

/// The allocator over any run of calls after `init(l, r)` on an allocator
/// with nothing given back (`ms` the states between the calls, `outs` what
/// each answered), each `dealloc` giving back a frame of the range: every `alloc_frame` hands out a frame of `l..r` that was
/// not handed out (so none twice without a `dealloc` between), the last
/// one given back first, or nothing exactly when all of `l..r` is handed
/// out; and the allocator stays well formed throughout.
pub proof fn law_alloc_run(ms: Seq<StackFrameAllocator>, ops: Seq<AllocOp>, outs: Seq<Option<usize>>, l: usize)
    requires
        ms.len() == ops.len() + 1,
        outs.len() == ops.len(),
        ms[0].cur() == l,
        l <= ms[0].limit(),
        ms[0].recycled().len() == 0,
        forall|i: int| 0 <= i < ops.len() ==> #[trigger] alloc_step(ms[i], ops[i], ms[i + 1], outs[i]),
        forall|i: int| 0 <= i < ops.len() ==> (#[trigger] ops[i] matches AllocOp::Dealloc(p) ==> l <= p),
    ensures
        forall|i: int| 0 <= i < ms.len() ==> (#[trigger] ms[i]).wf() && ms[i].within(l) && ms[i].limit() == ms[0].limit(),
        forall|i: int|
            0 <= i < ops.len() && ops[i] is Alloc ==> match #[trigger] outs[i] {
                Some(p) => l <= p < ms[0].limit() && !ms[i].in_use(p) && ms[i + 1].in_use(p),
                None => forall|q: usize| l <= q < ms[0].limit() ==> #[trigger] ms[i].in_use(q),
            },
    decreases ops.len(),
{
    if ops.len() == 0 {
        assert(ms[0].wf() && ms[0].within(l));
    } else {
        let n = ops.len() - 1;
        let pm = ms.drop_last();
        let po = ops.drop_last();
        let pu = outs.drop_last();
        assert forall|i: int| 0 <= i < po.len() implies #[trigger] alloc_step(pm[i], po[i], pm[i + 1], pu[i]) by {
            assert(alloc_step(ms[i], ops[i], ms[i + 1], outs[i]));
            assert(pm[i] == ms[i] && pm[i + 1] == ms[i + 1] && po[i] == ops[i] && pu[i] == outs[i]);
        }
        assert forall|i: int| 0 <= i < po.len() implies (#[trigger] po[i] matches AllocOp::Dealloc(p) ==> l <= p) by {
            assert(po[i] == ops[i]);
        }
        law_alloc_run(pm, po, pu, l);
        assert(pm[n] == ms[n] && pm[0] == ms[0]);
        assert(ms[n].wf() && ms[n].within(l) && ms[n].limit() == ms[0].limit());
        assert(alloc_step(ms[n], ops[n], ms[n + 1], outs[n]));
        lemma_alloc_step(ms[n], ops[n], ms[n + 1], outs[n], l);
        assert forall|i: int| 0 <= i < ms.len() implies (#[trigger] ms[i]).wf() && ms[i].within(l) && ms[i].limit()
            == ms[0].limit() by {
            if i <= n {
                assert(pm[i] == ms[i]);
            }
        }
        assert forall|i: int|
            0 <= i < ops.len() && ops[i] is Alloc implies match #[trigger] outs[i] {
                Some(p) => l <= p < ms[0].limit() && !ms[i].in_use(p) && ms[i + 1].in_use(p),
                None => forall|q: usize| l <= q < ms[0].limit() ==> #[trigger] ms[i].in_use(q),
            } by {
            if i < n {
                assert(pm[i] == ms[i] && pm[i + 1] == ms[i + 1] && po[i] == ops[i] && pu[i] == outs[i]);
            }
        }
    }
}

} // verus!
