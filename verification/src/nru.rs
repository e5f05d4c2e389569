//! Not-recently-used page replacement: the frames of the faulting task are
//! sorted into four classes by their page's accessed and dirty bits, and a
//! frame is drawn at random from a class.
use std::collections::{BTreeMap, VecDeque};
use rand_chacha::ChaCha20Rng;
use vstd::prelude::*;
use crate::clock::frames_left;
use crate::clock_queue::{all_mapped, collect_ppns, tracker_ppns, Frame};
use crate::common::{keys_of, map_get_mut, sorted_keys};
use crate::frame_allocator::{FrameTracker, StackFrameAllocator};
use crate::lottery::{draw_below, seeded};
use crate::page_bits::{accessed, dirty, lemma_unaccessed, unaccessed, PageBits};

verus! {

/// The class of a page by its flags: 0 neither accessed nor dirty, 1 dirty
/// only, 2 accessed only, 3 accessed and dirty.
pub open spec fn nru_class(flags: usize) -> int {
    if accessed(flags) && dirty(flags) {
        3
    } else if accessed(flags) {
        2
    } else if dirty(flags) {
        1
    } else {
        0
    }
}

/// The positions, among the first `n` frames of `q`, of those whose page is
/// of class `c`, in order.
pub open spec fn class_indices(q: Seq<Frame>, f: Map<usize, usize>, c: int, n: int) -> Seq<usize>
    decreases n,
{
    if n <= 0 {
        Seq::empty()
    } else {
        let rest = class_indices(q, f, c, n - 1);
        if nru_class(f[q[n - 1].1]) == c {
            rest.push((n - 1) as usize)
        } else {
            rest
        }
    }
}

/// The positions of the frames of `q` in class `c`.
pub open spec fn members(q: Seq<Frame>, f: Map<usize, usize>, c: int) -> Seq<usize> {
    class_indices(q, f, c, q.len() as int)
}

/// The highest class that holds a frame of `q` (0 when none does).
pub open spec fn top_class(q: Seq<Frame>, f: Map<usize, usize>) -> int {
    if members(q, f, 3).len() > 0 {
        3
    } else if members(q, f, 2).len() > 0 {
        2
    } else if members(q, f, 1).len() > 0 {
        1
    } else {
        0
    }
}

/// The position of the frame given up when the draw in the highest class
/// gave `lucky`.
pub open spec fn nru_victim(q: Seq<Frame>, f: Map<usize, usize>, lucky: int) -> int {
    members(q, f, top_class(q, f))[lucky] as int
}

/// Giving up, from task `task`'s frames `qs[task]` with flags `f`, the frame
/// that draw `lucky` picks: the frames go from `qs` to `qs2` and `r` is
/// returned.
pub open spec fn nru_evicted(
    qs: Map<usize, Seq<Frame>>,
    task: usize,
    f: Map<usize, usize>,
    lucky: int,
    qs2: Map<usize, Seq<Frame>>,
    r: (usize, usize, usize),
) -> bool {
    let q = qs[task];
    let i = nru_victim(q, f, lucky);
    &&& r == (q[i].0, q[i].1, task)
    &&& qs2 == qs.insert(task, q.remove(i))
}

/// Page `v` is the page of one of the first `n` frames of `q`.
pub open spec fn holds_page(q: Seq<Frame>, n: int, v: usize) -> bool {
    exists|i: int| 0 <= i < n && #[trigger] q[i].1 == v
}

/// The flags `f` with the accessed bit of the pages of the first `n`
/// frames of `q` cleared.
pub open spec fn cleared_upto(q: Seq<Frame>, n: int, f: Map<usize, usize>) -> Map<usize, usize> {
    Map::new(
        |v: usize| f.contains_key(v),
        |v: usize|
            if holds_page(q, n, v) {
                unaccessed(f[v])
            } else {
                f[v]
            },
    )
}

/// Every task with frames has an address space holding the flags of its
/// pages.
pub open spec fn tasks_mapped(qs: Map<usize, Seq<Frame>>, sp: Map<usize, PageBits>) -> bool {
    forall|t: usize|
        #![trigger qs[t]]
        qs.contains_key(t) ==> sp.contains_key(t) && all_mapped(qs[t], sp[t]@)
}

/// Every position listed for class `c` is below `n` and holds a frame of
/// that class; the list is increasing; a frame of that class is listed.
proof fn lemma_class_indices(q: Seq<Frame>, f: Map<usize, usize>, c: int, n: int)
    requires
        0 <= n <= q.len(),
        q.len() <= usize::MAX,
    ensures
        forall|k: int|
            0 <= k < class_indices(q, f, c, n).len() ==> {
                let i = #[trigger] class_indices(q, f, c, n)[k];
                &&& i < n
                &&& nru_class(f[q[i as int].1]) == c
            },
        forall|k1: int, k2: int|
            0 <= k1 < k2 < class_indices(q, f, c, n).len() ==> class_indices(q, f, c, n)[k1]
                < class_indices(q, f, c, n)[k2],
        forall|i: int| 0 <= i < n && nru_class(f[q[i].1]) == c ==> class_indices(q, f, c, n).len() > 0,
    decreases n,
{
    if n > 0 {
        lemma_class_indices(q, f, c, n - 1);
        let rest = class_indices(q, f, c, n - 1);
        let ci = class_indices(q, f, c, n);
        if nru_class(f[q[n - 1].1]) == c {
            assert(ci == rest.push((n - 1) as usize));
            assert(((n - 1) as usize) as int == n - 1);
            assert forall|k: int| 0 <= k < rest.len() implies #[trigger] ci[k] == rest[k] by {}
        } else {
            assert(ci == rest);
        }
    }
}

/// A nonempty list of frames has a frame in its highest class.
proof fn lemma_top_nonempty(q: Seq<Frame>, f: Map<usize, usize>)
    requires
        0 < q.len() <= usize::MAX,
    ensures
        members(q, f, top_class(q, f)).len() > 0,
{
    let c0 = nru_class(f[q[0].1]);
    lemma_class_indices(q, f, c0, q.len() as int);
}

pub struct NRUManager {
    queue: BTreeMap<usize, VecDeque<Frame>>,
    rng: ChaCha20Rng,
}

/// Sorts the positions of `list`'s frames into the four classes.
fn classify(list: &VecDeque<Frame>, memory_set: &PageBits) -> (r: Vec<Vec<usize>>)
    requires
        all_mapped(list@, memory_set@),
    ensures
        r@.len() == 4,
        forall|c: int| 0 <= c < 4 ==> (#[trigger] r@[c])@ == members(list@, memory_set@, c),
{
    let ghost q = list@;
    let ghost f = memory_set@;
    let mut n: Vec<usize> = Vec::new();
    let mut d: Vec<usize> = Vec::new();
    let mut a: Vec<usize> = Vec::new();
    let mut ad: Vec<usize> = Vec::new();
    let mut i: usize = 0;
    while i < list.len()
        invariant
            q == list@,
            f == memory_set@,
            i <= q.len(),
            all_mapped(q, f),
            n@ == class_indices(q, f, 0, i as int),
            d@ == class_indices(q, f, 1, i as int),
            a@ == class_indices(q, f, 2, i as int),
            ad@ == class_indices(q, f, 3, i as int),
        decreases q.len() - i,
    {
        let vpn = list[i].1;
        assert(f.contains_key(q[i as int].1));
        let (acc, dir) = memory_set.get_accessed_dirty(vpn);
        if acc && dir {
            ad.push(i);
        } else if acc {
            a.push(i);
        } else if dir {
            d.push(i);
        } else {
            n.push(i);
        }
        i = i + 1;
    }
    let mut r: Vec<Vec<usize>> = Vec::new();
    r.push(n);
    r.push(d);
    r.push(a);
    r.push(ad);
    r
}

impl NRUManager {
    /// The frames of each task, oldest first.
    pub closed spec fn queues(&self) -> Map<usize, Seq<Frame>> {
        self.queue@.map_values(|q: VecDeque<Frame>| q@)
    }

    /// The generator the victims are drawn with.
    pub closed spec fn generator(&self) -> ChaCha20Rng {
        self.rng
    }

    /// A manager with no frames, its generator seeded with 233.
    pub fn new() -> (r: Self)
        ensures
            r.queues() == Map::<usize, Seq<Frame>>::empty(),
    {
        let r = NRUManager { queue: BTreeMap::new(), rng: seeded(233u64) };
        assert(r.queues() =~= Map::<usize, Seq<Frame>>::empty());
        r
    }

    /// Records that `vpn` of task `task_id` is now mapped to `ppn`.
    pub fn insert_frame(&mut self, vpn: usize, ppn: usize, task_id: usize, frame: FrameTracker)
        ensures
            final(self).queues() == old(self).queues().insert(
                task_id,
                if old(self).queues().contains_key(task_id) {
                    old(self).queues()[task_id].push((ppn, vpn, frame))
                } else {
                    seq![(ppn, vpn, frame)]
                },
            ),
    {
        match map_get_mut(&mut self.queue, task_id) {
            Some(list) => {
                list.push_back((ppn, vpn, frame));
            },
            None => {
                let mut tmp = VecDeque::new();
                tmp.push_back((ppn, vpn, frame));
                self.queue.insert(task_id, tmp);
            },
        }
        assert(self.queues() =~= old(self).queues().insert(
            task_id,
            if old(self).queues().contains_key(task_id) {
                old(self).queues()[task_id].push((ppn, vpn, frame))
            } else {
                seq![(ppn, vpn, frame)]
            },
        ));
    }

    /// Forgets the frames of task `task_id`, releasing each to the
    /// allocator in order.
    pub fn clear_frames(&mut self, task_id: usize, allocator: &mut StackFrameAllocator)
        requires
            old(self).queues().contains_key(task_id) ==> old(allocator).all_in_use(
                tracker_ppns(old(self).queues()[task_id]),
            ),
        ensures
            final(self).queues() == old(self).queues().remove(task_id),
            final(allocator).cur() == old(allocator).cur(),
            final(allocator).limit() == old(allocator).limit(),
            final(allocator).recycled() == if old(self).queues().contains_key(task_id) {
                (old(allocator).recycled() + tracker_ppns(old(self).queues()[task_id]))
            } else {
                old(allocator).recycled()
            },
    {
        match self.queue.remove(&task_id) {
            Some(list) => {
                let ppns = collect_ppns(&list);
                allocator.release_all(&ppns);
            },
            None => {},
        }
        assert(self.queues() =~= old(self).queues().remove(task_id));
    }

    /// Gives up a frame of task `task_id` from its highest class: the one
    /// at position `lucky` among that class's frames, in order.
    pub fn evict_drawn(
        &mut self,
        memory_set: &PageBits,
        task_id: usize,
        lucky: usize,
        allocator: &mut StackFrameAllocator,
    ) -> (r: (usize, usize, usize))
        requires
            old(self).queues().contains_key(task_id),
            all_mapped(old(self).queues()[task_id], memory_set@),
            old(allocator).every_in_use(tracker_ppns(old(self).queues()[task_id])),
            lucky < members(
                old(self).queues()[task_id],
                memory_set@,
                top_class(old(self).queues()[task_id], memory_set@),
            ).len(),
        ensures
            nru_evicted(old(self).queues(), task_id, memory_set@, lucky as int, final(self).queues(), r),
            final(self).generator() == old(self).generator(),
            final(allocator).cur() == old(allocator).cur(),
            final(allocator).limit() == old(allocator).limit(),
            final(allocator).recycled() == old(allocator).recycled().push(old(self).queues()[task_id][nru_victim(old(self).queues()[task_id], memory_set@, lucky as int)].2.ppn),
    {
        let ghost q = self.queues()[task_id];
        let ghost f = memory_set@;
        let list = map_get_mut(&mut self.queue, task_id).unwrap();
        let len = list.len();
        let classes = classify(list, memory_set);
        let top: usize = if classes[3].len() > 0 {
            3
        } else if classes[2].len() > 0 {
            2
        } else if classes[1].len() > 0 {
            1
        } else {
            0
        };
        assert(top == top_class(q, f));
        let idx = classes[top][lucky];
        proof {
            lemma_class_indices(q, f, top as int, q.len() as int);
            assert(idx == members(q, f, top as int)[lucky as int]);
            assert(tracker_ppns(q)[idx as int] == q[idx as int].2.ppn);
        }
        let entry = list.remove(idx).unwrap();
        allocator.dealloc(entry.2.ppn);
        proof {
            assert(self.queues() =~= old(self).queues().insert(task_id, q.remove(idx as int)));
        }
        (entry.0, entry.1, task_id)
    }

    /// When no frame is left, gives up a frame of task `task_id` drawn at
    /// random from its highest class of frames (a draw is made in each
    /// nonempty class, lowest first, and the last one counts); else nothing.
    pub fn work(
        &mut self,
        memory_sets: &BTreeMap<usize, PageBits>,
        task_id: usize,
        allocator: &mut StackFrameAllocator,
    ) -> (r: Vec<(usize, usize, usize)>)
        requires
            !frames_left(*old(allocator)) ==> {
                &&& old(self).queues().contains_key(task_id)
                &&& old(self).queues()[task_id].len() > 0
                &&& memory_sets@.contains_key(task_id)
                &&& all_mapped(old(self).queues()[task_id], memory_sets@[task_id]@)
                &&& old(allocator).every_in_use(tracker_ppns(old(self).queues()[task_id]))
            },
        ensures
            frames_left(*old(allocator)) ==> final(self).generator() == old(self).generator(),
            !frames_left(*old(allocator)) && (forall|c: int|
                0 <= c < 4 && c != top_class(old(self).queues()[task_id], memory_sets@[task_id]@) ==> #[trigger] members(
                    old(self).queues()[task_id],
                    memory_sets@[task_id]@,
                    c,
                ).len() == 0) ==> final(self).generator() != old(self).generator(),
            final(allocator).cur() == old(allocator).cur(),
            final(allocator).limit() == old(allocator).limit(),
            if frames_left(*old(allocator)) {
                r@.len() == 0 && final(self).queues() == old(self).queues() && final(allocator).recycled() == old(
                    allocator,
                ).recycled()
            } else {
                &&& r@.len() == 1
                &&& exists|lucky: int|
                    0 <= lucky < members(
                        old(self).queues()[task_id],
                        memory_sets@[task_id]@,
                        top_class(old(self).queues()[task_id], memory_sets@[task_id]@),
                    ).len() && nru_evicted(
                        old(self).queues(),
                        task_id,
                        memory_sets@[task_id]@,
                        lucky,
                        final(self).queues(),
                        r@[0],
                    ) && final(allocator).recycled() == old(allocator).recycled().push(old(self).queues()[task_id][nru_victim(
                            old(self).queues()[task_id],
                            memory_sets@[task_id]@,
                            lucky,
                        )].2.ppn)
            },
    {
        if !allocator.check() {
            let memory_set = memory_sets.get(&task_id).unwrap();
            let ghost q = self.queues()[task_id];
            let ghost f = memory_set@;
            let list = self.queue.get(&task_id).unwrap();
            let len = list.len();
            let classes = classify(list, memory_set);
            let mut lucky: usize = 0;
            let mut c: usize = 0;
            let ghost mut seen: bool = false;
            let ghost mut last: int = 0;
            let ghost mut single: bool = false;
            let ghost g0 = self.rng;
            while c < 4
                invariant
                    c <= 4,
                    classes@.len() == 4,
                    self.queue@ == old(self).queue@,
                    g0 == old(self).rng,
                    !seen ==> self.rng == g0,
                    single ==> self.rng != g0,
                    single <==> (seen && forall|c2: int| 0 <= c2 < c && c2 != last ==> (#[trigger] classes@[c2])@.len() == 0),
                    seen ==> 0 <= last < c && classes@[last]@.len() > 0 && lucky < classes@[last]@.len(),
                    forall|c2: int| (if seen { last } else { -1 }) < c2 < c ==> (#[trigger] classes@[c2])@.len() == 0,
                decreases 4 - c,
            {
                if classes[c].len() != 0 {
                    lucky = draw_below(&mut self.rng, classes[c].len());
                    proof {
                        single = !seen;
                        seen = true;
                        last = c as int;
                    }
                }
                c = c + 1;
            }
            proof {
                lemma_top_nonempty(q, f);
                let t = top_class(q, f);
                assert(classes@[t]@.len() > 0);
                assert(seen);
                assert(last == t);
                if forall|c2: int| 0 <= c2 < 4 && c2 != t ==> #[trigger] members(q, f, c2).len() == 0 {
                    assert forall|c2: int| 0 <= c2 < 4 && c2 != last implies (#[trigger] classes@[c2])@.len() == 0 by {
                        assert(classes@[c2]@ == members(q, f, c2));
                    }
                    assert(single);
                }
            }
            let e = self.evict_drawn(memory_set, task_id, lucky, allocator);
            let mut ret = Vec::new();
            ret.push(e);
            assert(f == memory_sets@[task_id]@);
            assert(ret@[0] == e);
            assert(nru_evicted(old(self).queues(), task_id, f, lucky as int, self.queues(), ret@[0]));
            ret
        } else {
            Vec::new()
        }
    }

    /// Clears the accessed bit of every page of one task's frames.
    fn clear_list(list: &VecDeque<Frame>, memory_set: &mut PageBits)
        requires
            all_mapped(list@, old(memory_set)@),
        ensures
            final(memory_set)@ == cleared_upto(list@, list@.len() as int, old(memory_set)@),
    {
        let ghost q = list@;
        let ghost f0 = memory_set@;
        assert(memory_set@ =~= cleared_upto(q, 0, f0));
        let mut i: usize = 0;
        while i < list.len()
            invariant
                q == list@,
                i <= q.len(),
                all_mapped(q, f0),
                memory_set@ == cleared_upto(q, i as int, f0),
            decreases q.len() - i,
        {
            let vpn = list[i].1;
            assert(f0.contains_key(q[i as int].1));
            memory_set.clear_accessed(vpn);
            proof {
                lemma_unaccessed(f0[vpn]);
                lemma_unaccessed(unaccessed(f0[vpn]));
                assert(q[i as int].1 == vpn);
                assert(holds_page(q, i + 1, vpn));
                assert forall|v: usize| #[trigger] holds_page(q, i + 1, v) == (holds_page(q, i as int, v) || v == vpn) by {
                    if holds_page(q, i + 1, v) {
                        let k = choose|k: int| 0 <= k < i + 1 && #[trigger] q[k].1 == v;
                        if k < i {
                            assert(holds_page(q, i as int, v));
                        }
                    }
                    if holds_page(q, i as int, v) {
                        let k = choose|k: int| 0 <= k < i && #[trigger] q[k].1 == v;
                        assert(holds_page(q, i + 1, v));
                    }
                }
                assert(memory_set@ =~= cleared_upto(q, i + 1, f0));
            }
            i = i + 1;
        }
    }

    /// A clock tick: when no frame is left, clears the accessed bit of every
    /// page of every task's frames; else nothing.
    pub fn handle_time_interrupt(&mut self, memory_sets: &mut BTreeMap<usize, PageBits>, allocator: &mut StackFrameAllocator)
        requires
            !frames_left(*old(allocator)) ==> tasks_mapped(old(self).queues(), old(memory_sets)@),
        ensures
            final(allocator).cur() == old(allocator).cur(),
            final(allocator).limit() == old(allocator).limit(),
            final(allocator).recycled() == old(allocator).recycled(),
            final(self).queues() == old(self).queues(),
            final(memory_sets)@.dom() == old(memory_sets)@.dom(),
            forall|t: usize|
                #![trigger final(memory_sets)@[t]]
                old(memory_sets)@.contains_key(t) ==> final(memory_sets)@[t]@ == if !frames_left(*old(allocator))
                    && old(self).queues().contains_key(t) {
                    cleared_upto(old(self).queues()[t], old(self).queues()[t].len() as int, old(memory_sets)@[t]@)
                } else {
                    old(memory_sets)@[t]@
                },
    {
        if !allocator.check() {
            let ghost q0 = self.queues();
            let ghost m0 = memory_sets@;
            let keys = keys_of(&self.queue);
            let mut i: usize = 0;
            while i < keys.len()
                invariant
                    sorted_keys(q0, keys@),
                    i <= keys@.len(),
                    self.queues() == q0,
                    tasks_mapped(q0, m0),
                    memory_sets@.dom() == m0.dom(),
                    forall|j: int|
                        0 <= j < i ==> {
                            let t = #[trigger] keys@[j];
                            memory_sets@[t]@ == cleared_upto(q0[t], q0[t].len() as int, m0[t]@)
                        },
                    forall|j: int| i <= j < keys@.len() ==> #[trigger] memory_sets@[keys@[j]] == m0[keys@[j]],
                    forall|t: usize|
                        #![trigger memory_sets@[t]]
                        m0.contains_key(t) && !q0.contains_key(t) ==> memory_sets@[t] == m0[t],
                decreases keys@.len() - i,
            {
                let t = keys[i];
                proof {
                    assert(q0.contains_key(t));
                    let qt = q0[t];
                    assert(memory_sets@[keys@[i as int]] == m0[t]);
                }
                let list = self.queue.get(&t).unwrap();
                let memory_set = map_get_mut(memory_sets, t).unwrap();
                Self::clear_list(list, memory_set);
                proof {
                    assert forall|j: int| i + 1 <= j < keys@.len() implies #[trigger] memory_sets@[keys@[j]]
                        == m0[keys@[j]] by {
                        assert(keys@[i as int] < keys@[j]);
                    }
                    assert forall|j: int| 0 <= j < i + 1 implies {
                        let tt = #[trigger] keys@[j];
                        memory_sets@[tt]@ == cleared_upto(q0[tt], q0[tt].len() as int, m0[tt]@)
                    } by {
                        if j < i {
                            assert(keys@[j] < keys@[i as int]);
                        }
                    }
                }
                i = i + 1;
            }
            proof {
                assert forall|t: usize| #![trigger memory_sets@[t]] m0.contains_key(t) && q0.contains_key(t) implies memory_sets@[t]@
                    == cleared_upto(q0[t], q0[t].len() as int, m0[t]@) by {
                    let k = choose|k: int| 0 <= k < keys@.len() && #[trigger] keys@[k] == t;
                }
            }
        }
    }
}

/// Not recently used: the frame given up lies in the highest class that
/// holds a frame, and no frame lies in a higher one.
pub proof fn law_victim_in_top_class(q: Seq<Frame>, f: Map<usize, usize>, lucky: int)
    requires
        0 < q.len() <= usize::MAX,
        0 <= lucky < members(q, f, top_class(q, f)).len(),
    ensures
        0 <= nru_victim(q, f, lucky) < q.len(),
        nru_class(f[q[nru_victim(q, f, lucky)].1]) == top_class(q, f),
        forall|i: int| 0 <= i < q.len() ==> nru_class(f[(#[trigger] q[i]).1]) <= top_class(q, f),
{
    let top = top_class(q, f);
    lemma_class_indices(q, f, top, q.len() as int);
    assert forall|i: int| 0 <= i < q.len() implies nru_class(f[(#[trigger] q[i]).1]) <= top by {
        let c = nru_class(f[q[i].1]);
        lemma_class_indices(q, f, c, q.len() as int);
    }
}

} // verus!
