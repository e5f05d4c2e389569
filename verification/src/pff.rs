//! Page-fault frequency: when faults come rarely, every page not accessed
//! since the last look is given up; otherwise the oldest page of the
//! faulting task is.
use std::collections::{BTreeMap, VecDeque};
use vstd::prelude::*;
use crate::clock::frames_left;
use crate::clock_queue::{collect_ppns, tracker_ppns, Frame};
use crate::common::{keys_of, lemma_sorted_keys_unique, map_get_mut, sorted_keys};
use crate::frame_allocator::{lemma_concat_assoc, lemma_concat_push, FrameTracker, StackFrameAllocator};
use crate::page_bits::{accessed, unaccessed, PageBits};

verus! {

/// The time between faults above which unaccessed pages are given up.
pub const PFF_T: usize = 720000;

/// A sweep of a task's frames from the back: an accessed page keeps its
/// frame and has its bit cleared; a page not accessed gives its frame up.
/// The result is the frames kept (in order), the frames given up (in the
/// order met), and the flags after.
pub open spec fn back_sweep(q: Seq<Frame>, f: Map<usize, usize>) -> (Seq<Frame>, Seq<Frame>, Map<usize, usize>)
    decreases q.len(),
{
    if q.len() == 0 {
        (q, Seq::empty(), f)
    } else {
        let e = q.last();
        if !accessed(f[e.1]) {
            let rest = back_sweep(q.drop_last(), f);
            (rest.0, seq![e] + rest.1, rest.2)
        } else {
            let rest = back_sweep(q.drop_last(), f.insert(e.1, unaccessed(f[e.1])));
            (rest.0.push(e), rest.1, rest.2)
        }
    }
}

/// Every page of `q` has flags in `f`.
pub open spec fn mapped(q: Seq<Frame>, f: Map<usize, usize>) -> bool {
    forall|i: int| 0 <= i < q.len() ==> f.contains_key(#[trigger] q[i].1)
}

/// The pages given up by the tasks `keys[..n]`, each tagged with its task.
pub open spec fn given_up(
    keys: Seq<usize>,
    qs: Map<usize, Seq<Frame>>,
    spaces: Map<usize, Map<usize, usize>>,
    n: int,
) -> Seq<(usize, usize, usize)>
    decreases n,
{
    if n <= 0 {
        Seq::empty()
    } else {
        let t = keys[n - 1];
        given_up(keys, qs, spaces, n - 1) + back_sweep(qs[t], spaces[t]).1.map_values(
            |p: Frame| (p.0, p.1, t),
        )
    }
}

/// The pages of the trackers of the frames given up by the tasks
/// `keys[..n]`, in that order.
pub open spec fn freed(
    keys: Seq<usize>,
    qs: Map<usize, Seq<Frame>>,
    spaces: Map<usize, Map<usize, usize>>,
    n: int,
) -> Seq<usize>
    decreases n,
{
    if n <= 0 {
        Seq::empty()
    } else {
        let t = keys[n - 1];
        freed(keys, qs, spaces, n - 1) + tracker_ppns(back_sweep(qs[t], spaces[t]).1)
    }
}

/// The frames given back after `pop_first` on task `task` of `qs`: when the
/// task's last frame goes, the frames of the smallest task id are released
/// with its list, then the frame popped.
pub open spec fn popped_released(qs: Map<usize, Seq<Frame>>, task: usize, rec: Seq<usize>) -> Seq<usize> {
    let q1 = qs.insert(task, qs[task].drop_first());
    let before = if qs[task].len() == 1 {
        (rec + tracker_ppns(q1[least_key(q1)]))
    } else {
        rec
    };
    before.push(qs[task][0].2.ppn)
}

/// Every frame held in `qs` is handed out by the allocator `a`, and no two
/// of them hold the same page.
pub open spec fn held_in_use(a: StackFrameAllocator, qs: Map<usize, Seq<Frame>>) -> bool {
    &&& forall|t: usize, i: int|
        #![trigger qs[t][i]]
        qs.contains_key(t) && 0 <= i < qs[t].len() ==> a.in_use(qs[t][i].2.ppn)
    &&& forall|t1: usize, i1: int, t2: usize, i2: int|
        #![trigger qs[t1][i1], qs[t2][i2]]
        qs.contains_key(t1) && qs.contains_key(t2) && 0 <= i1 < qs[t1].len() && 0 <= i2 < qs[t2].len() && (t1
            != t2 || i1 != i2) ==> qs[t1][i1].2.ppn != qs[t2][i2].2.ppn
}

/// The frames of one task of `qs` are all handed out, none twice.
proof fn lemma_held_task(a: StackFrameAllocator, qs: Map<usize, Seq<Frame>>, t: usize)
    requires
        held_in_use(a, qs),
        qs.contains_key(t),
    ensures
        a.all_in_use(tracker_ppns(qs[t])),
{
    let p = tracker_ppns(qs[t]);
    assert forall|i: int| 0 <= i < p.len() implies a.in_use(#[trigger] p[i]) by {
        assert(p[i] == qs[t][i].2.ppn);
    }
    assert forall|i: int, j: int| 0 <= i < p.len() && 0 <= j < p.len() && i != j implies p[i] != p[j] by {
        assert(p[i] == qs[t][i].2.ppn && p[j] == qs[t][j].2.ppn);
    }
}

/// Whether frames are held depends only on what was handed out.
proof fn lemma_held_same(a: StackFrameAllocator, b: StackFrameAllocator, qs: Map<usize, Seq<Frame>>)
    requires
        held_in_use(a, qs),
        a.cur() == b.cur(),
        a.recycled() == b.recycled(),
    ensures
        held_in_use(b, qs),
{
    assert forall|t: usize, i: int| #![trigger qs[t][i]] qs.contains_key(t) && 0 <= i < qs[t].len() implies b.in_use(
        qs[t][i].2.ppn,
    ) by {
        assert(a.in_use(qs[t][i].2.ppn));
    }
}

/// Held frames stay so in any map whose tasks keep their lists.
proof fn lemma_held_sub(a: StackFrameAllocator, qs: Map<usize, Seq<Frame>>, qs2: Map<usize, Seq<Frame>>)
    requires
        held_in_use(a, qs),
        forall|t: usize| #[trigger] qs2.contains_key(t) ==> qs.contains_key(t) && qs2[t] == qs[t],
    ensures
        held_in_use(a, qs2),
{
    assert forall|t: usize, i: int| #![trigger qs2[t][i]] qs2.contains_key(t) && 0 <= i < qs2[t].len() implies a.in_use(
        qs2[t][i].2.ppn,
    ) by {
        assert(qs2[t][i] == qs[t][i]);
    }
    assert forall|t1: usize, i1: int, t2: usize, i2: int|
        #![trigger qs2[t1][i1], qs2[t2][i2]]
        qs2.contains_key(t1) && qs2.contains_key(t2) && 0 <= i1 < qs2[t1].len() && 0 <= i2 < qs2[t2].len() && (t1
            != t2 || i1 != i2) implies qs2[t1][i1].2.ppn != qs2[t2][i2].2.ppn by {
        assert(qs2[t1][i1] == qs[t1][i1] && qs2[t2][i2] == qs[t2][i2]);
    }
}

/// As many pages are freed as given up.
proof fn lemma_freed_len(keys: Seq<usize>, qs: Map<usize, Seq<Frame>>, sp: Map<usize, Map<usize, usize>>, n: int)
    ensures
        freed(keys, qs, sp, n).len() == given_up(keys, qs, sp, n).len(),
    decreases n,
{
    if n > 0 {
        lemma_freed_len(keys, qs, sp, n - 1);
    }
}

/// The smallest key of `m`.
pub open spec fn least_key<V>(m: Map<usize, V>) -> usize {
    choose|k: usize| m.contains_key(k) && forall|j: usize| #[trigger] m.contains_key(j) ==> k <= j
}

/// Every task with frames has an address space holding the flags of its
/// pages.
pub open spec fn all_mapped_tasks(qs: Map<usize, Seq<Frame>>, spaces: Map<usize, PageBits>) -> bool {
    forall|t: usize|
        #![trigger qs[t]]
        qs.contains_key(t) ==> spaces.contains_key(t) && mapped(qs[t], spaces[t]@)
}

/// What sweeping every task does: from the frames `qs` and spaces `sp` to
/// `qs2` and `sp2`, giving up the pages `r`.
pub open spec fn sweep_done(
    qs: Map<usize, Seq<Frame>>,
    sp: Map<usize, PageBits>,
    qs2: Map<usize, Seq<Frame>>,
    sp2: Map<usize, PageBits>,
    r: Seq<(usize, usize, usize)>,
) -> bool {
    &&& exists|keys: Seq<usize>| sorted_keys(qs, keys)
    &&& forall|keys: Seq<usize>|
        sorted_keys(qs, keys) ==> r == given_up(
            keys,
            qs,
            sp.map_values(|m: PageBits| m@),
            keys.len() as int,
        )
    &&& forall|t: usize|
        #![trigger qs[t]]
        qs.contains_key(t) ==> {
            let s = back_sweep(qs[t], sp[t]@);
            &&& sp2[t]@ == s.2
            &&& if s.0.len() > 0 {
                qs2.contains_key(t) && qs2[t] == s.0
            } else {
                !qs2.contains_key(t)
            }
        }
    &&& forall|t: usize| !qs.contains_key(t) ==> !qs2.contains_key(t)
    &&& sp2.dom() == sp.dom()
    &&& forall|t: usize|
        #![trigger sp2[t]]
        sp.contains_key(t) && !qs.contains_key(t) ==> sp2[t] == sp[t]
}

/// What giving up the oldest frame of task `task` does: from `qs` to
/// `qs2`, returning `r`. When the task has no frame left, the smallest
/// task id is forgotten.
pub open spec fn popped_first(qs: Map<usize, Seq<Frame>>, task: usize, qs2: Map<usize, Seq<Frame>>, r: (usize, usize, usize)) -> bool {
    let q1 = qs.insert(task, qs[task].drop_first());
    &&& r == (qs[task][0].0, qs[task][0].1, task)
    &&& qs2 == if qs[task].len() == 1 {
        q1.remove(least_key(q1))
    } else {
        q1
    }
}

/// A sweep that gives up nothing keeps every frame.
proof fn lemma_sweep_keeps_all(q: Seq<Frame>, f: Map<usize, usize>)
    requires
        back_sweep(q, f).1.len() == 0,
    ensures
        back_sweep(q, f).0 == q,
    decreases q.len(),
{
    if q.len() > 0 {
        let e = q.last();
        if !accessed(f[e.1]) {
            assert(back_sweep(q, f).1.len() > 0);
        } else {
            lemma_sweep_keeps_all(q.drop_last(), f.insert(e.1, unaccessed(f[e.1])));
            assert(q.drop_last().push(e) =~= q);
        }
    }
}

/// No page given up by all tasks means none given up by any of them.
proof fn lemma_given_up_empty(keys: Seq<usize>, qs: Map<usize, Seq<Frame>>, sp: Map<usize, Map<usize, usize>>, n: int, j: int)
    requires
        given_up(keys, qs, sp, n).len() == 0,
        0 <= j < n,
    ensures
        back_sweep(qs[keys[j]], sp[keys[j]]).1.len() == 0,
    decreases n,
{
    let t = keys[n - 1];
    if j < n - 1 {
        lemma_given_up_empty(keys, qs, sp, n - 1, j);
    }
}

/// When a sweep gave up nothing, a task that had frames still has them.
proof fn lemma_nothing_given_up(
    qs: Map<usize, Seq<Frame>>,
    sp: Map<usize, PageBits>,
    qs2: Map<usize, Seq<Frame>>,
    sp2: Map<usize, PageBits>,
    r: Seq<(usize, usize, usize)>,
    keys: Seq<usize>,
    task: usize,
)
    requires
        sweep_done(qs, sp, qs2, sp2, r),
        sorted_keys(qs, keys),
        r.len() == 0,
        sp.contains_key(task),
        qs.contains_key(task),
        qs[task].len() > 0,
    ensures
        qs2.contains_key(task),
        qs2[task] == qs[task],
{
    let spv = sp.map_values(|m: PageBits| m@);
    assert(r == given_up(keys, qs, spv, keys.len() as int));
    let j = choose|j: int| 0 <= j < keys.len() && #[trigger] keys[j] == task;
    lemma_given_up_empty(keys, qs, spv, keys.len() as int, j);
    assert(spv[task] == sp[task]@);
    lemma_sweep_keeps_all(qs[task], sp[task]@);
    assert(qs[task] == qs[task]);
}

pub struct PffManager {
    queue: BTreeMap<usize, VecDeque<Frame>>,
    last_pgfault: usize,
}

impl PffManager {
    /// The frames of each task, oldest first.
    pub closed spec fn queues(&self) -> Map<usize, Seq<Frame>> {
        self.queue@.map_values(|q: VecDeque<Frame>| q@)
    }

    /// The time of the first fault handled, or `usize::MAX` before it.
    pub closed spec fn last_fault(&self) -> usize {
        self.last_pgfault
    }

    pub fn new() -> (r: Self)
        ensures
            r.queues() == Map::<usize, Seq<Frame>>::empty(),
            r.last_fault() == usize::MAX,
    {
        let r = PffManager { queue: BTreeMap::new(), last_pgfault: usize::MAX };
        assert(r.queues() =~= Map::<usize, Seq<Frame>>::empty());
        r
    }

    /// Records that `vpn` of task `task_id` is now mapped to `ppn`.
    pub fn insert_frame(&mut self, vpn: usize, ppn: usize, task_id: usize, frame: FrameTracker)
        ensures
            final(self).queues() == old(self).queues().insert(
                task_id,
                if old(self).queues().contains_key(task_id) {
                    old(self).queues()[task_id].push((ppn, vpn, frame))
                } else {
                    seq![(ppn, vpn, frame)]
                },
            ),
            final(self).last_fault() == old(self).last_fault(),
    {
        match map_get_mut(&mut self.queue, task_id) {
            Some(list) => {
                list.push_back((ppn, vpn, frame));
            },
            None => {
                let mut tmp = VecDeque::new();
                tmp.push_back((ppn, vpn, frame));
                self.queue.insert(task_id, tmp);
            },
        }
        assert(self.queues() =~= old(self).queues().insert(
            task_id,
            if old(self).queues().contains_key(task_id) {
                old(self).queues()[task_id].push((ppn, vpn, frame))
            } else {
                seq![(ppn, vpn, frame)]
            },
        ));
    }

    /// Forgets the frames of task `task_id`, releasing each to the
    /// allocator in order.
    pub fn clear_frames(&mut self, task_id: usize, allocator: &mut StackFrameAllocator)
        requires
            old(self).queues().contains_key(task_id) ==> old(allocator).all_in_use(
                tracker_ppns(old(self).queues()[task_id]),
            ),
        ensures
            final(self).queues() == old(self).queues().remove(task_id),
            final(self).last_fault() == old(self).last_fault(),
            final(allocator).cur() == old(allocator).cur(),
            final(allocator).limit() == old(allocator).limit(),
            final(allocator).recycled() == if old(self).queues().contains_key(task_id) {
                (old(allocator).recycled() + tracker_ppns(old(self).queues()[task_id]))
            } else {
                old(allocator).recycled()
            },
    {
        match self.queue.remove(&task_id) {
            Some(list) => {
                let ppns = collect_ppns(&list);
                allocator.release_all(&ppns);
            },
            None => {},
        }
        assert(self.queues() =~= old(self).queues().remove(task_id));
    }

    /// Gives up the oldest frame of task `task_id`.
    fn pop_first(&mut self, task_id: usize, allocator: &mut StackFrameAllocator) -> (r: (usize, usize, usize))
        requires
            old(self).queues().contains_key(task_id),
            old(self).queues()[task_id].len() > 0,
            held_in_use(*old(allocator), old(self).queues()),
        ensures
            popped_first(old(self).queues(), task_id, final(self).queues(), r),
            final(self).last_fault() == old(self).last_fault(),
            final(allocator).cur() == old(allocator).cur(),
            final(allocator).limit() == old(allocator).limit(),
            final(allocator).recycled() == popped_released(old(self).queues(), task_id, old(allocator).recycled()),
    {
        let list = map_get_mut(&mut self.queue, task_id).unwrap();
        let entry = list.pop_front().unwrap();
        let now_empty = list.len() == 0;
        let ghost q1 = old(self).queues().insert(task_id, old(self).queues()[task_id].drop_first());
        assert(self.queues() =~= q1);
        if now_empty {
            let keys = keys_of(&self.queue);
            assert(self.queue@.contains_key(task_id));
            let first = keys[0];
            proof {
                assert forall|j: usize| #[trigger] q1.contains_key(j) implies first <= j by {
                    let w = choose|w: int| 0 <= w < keys@.len() && #[trigger] keys@[w] == j;
                    if w > 0 {
                        assert(keys@[0] < keys@[w]);
                    }
                }
                let l = least_key(q1);
                assert(q1.contains_key(first));
                assert(q1.contains_key(l) && first <= l && l <= first);
            }
            let ghost qm = self.queues();
            let ghost qs = old(self).queues();
            match self.queue.remove(&first) {
                Some(l) => {
                    let ppns = collect_ppns(&l);
                    proof {
                        if first != task_id {
                            assert(l@ == qs[first]);
                            lemma_held_task(*old(allocator), qs, first);
                        } else {
                            assert(ppns@ =~= Seq::<usize>::empty());
                        }
                    }
                    allocator.release_all(&ppns);
                    proof {
                        assert(entry == qs[task_id][0]);
                        assert(!ppns@.contains(entry.2.ppn)) by {
                            if ppns@.contains(entry.2.ppn) {
                                let k = choose|k: int| 0 <= k < ppns@.len() && ppns@[k] == entry.2.ppn;
                                assert(ppns@[k] == qs[first][k].2.ppn);
                            }
                        }
                        assert(old(allocator).in_use(qs[task_id][0].2.ppn));
                        assert(!allocator.recycled().contains(entry.2.ppn)) by {
                            if allocator.recycled().contains(entry.2.ppn) {
                                let k = choose|k: int| 0 <= k < allocator.recycled().len() && allocator.recycled()[k]
                                    == entry.2.ppn;
                                if k < old(allocator).recycled().len() {
                                    assert(old(allocator).recycled()[k] == entry.2.ppn);
                                } else {
                                    assert(ppns@[k - old(allocator).recycled().len()] == entry.2.ppn);
                                }
                            }
                        }
                    }
                },
                None => {},
            }
            assert(self.queues() =~= q1.remove(least_key(q1)));
        }
        proof {
            assert(entry == old(self).queues()[task_id][0]);
            assert(old(allocator).in_use(old(self).queues()[task_id][0].2.ppn));
        }
        allocator.dealloc(entry.2.ppn);
        (entry.0, entry.1, task_id)
    }

    /// A page fault in task `task_id` at time `now`: the first fault sets
    /// the reference time; when more than `PFF_T` has passed since it, all
    /// unaccessed pages are given up (and, if that frees nothing while no
    /// frame is left, the oldest page of the task); otherwise, when no frame
    /// is left, the oldest page of the task is.
    pub fn work(
        &mut self,
        memory_sets: &mut BTreeMap<usize, PageBits>,
        task_id: usize,
        allocator: &mut StackFrameAllocator,
        now: usize,
    ) -> (r: Vec<(usize, usize, usize)>)
        requires
            old(self).last_fault() != usize::MAX ==> now >= old(self).last_fault(),
            all_mapped_tasks(old(self).queues(), old(memory_sets)@),
            held_in_use(*old(allocator), old(self).queues()),
            !frames_left(*old(allocator)) ==> old(self).queues().contains_key(task_id) && old(
                self,
            ).queues()[task_id].len() > 0,
        ensures
            final(allocator).cur() == old(allocator).cur(),
            final(allocator).limit() == old(allocator).limit(),
            final(self).last_fault() == if old(self).last_fault() == usize::MAX {
                now
            } else {
                old(self).last_fault()
            },
            if now - final(self).last_fault() > PFF_T {
                exists|qm: Map<usize, Seq<Frame>>, rm: Seq<(usize, usize, usize)>, am: Seq<usize>|
                    #![trigger sweep_done(old(self).queues(), old(memory_sets)@, qm, final(memory_sets)@, rm), am.len()]
                    sweep_done(old(self).queues(), old(memory_sets)@, qm, final(memory_sets)@, rm) && (forall|
                        keys: Seq<usize>,
                    |
                        sorted_keys(old(self).queues(), keys) ==> am == (old(allocator).recycled() + freed(
                                keys,
                                old(self).queues(),
                                old(memory_sets)@.map_values(|m: PageBits| m@),
                                keys.len() as int,
                            ))) && if !frames_left(*old(allocator)) && rm.len() == 0 {
                        &&& r@.len() == 1
                        &&& popped_first(qm, task_id, final(self).queues(), r@[0])
                        &&& final(allocator).recycled() == popped_released(qm, task_id, am)
                    } else {
                        r@ == rm && final(self).queues() == qm && final(allocator).recycled() == am
                    }
            } else {
                &&& final(memory_sets)@ == old(memory_sets)@
                &&& if !frames_left(*old(allocator)) {
                    &&& r@.len() == 1
                    &&& popped_first(old(self).queues(), task_id, final(self).queues(), r@[0])
                    &&& final(allocator).recycled() == popped_released(
                        old(self).queues(),
                        task_id,
                        old(allocator).recycled(),
                    )
                } else {
                    &&& r@.len() == 0
                    &&& final(self).queues() == old(self).queues()
                    &&& final(allocator).recycled() == old(allocator).recycled()
                }
            },
    {
        if self.last_pgfault == usize::MAX {
            self.last_pgfault = now;
        }
        let cur_time = now;
        if cur_time - self.last_pgfault > PFF_T {
            let ghost q0 = self.queues();
            let keys = keys_of(&self.queue);
            let mut ret = self.pop_unaccessed_frames(memory_sets, allocator);
            let ghost qm = self.queues();
            let ghost rm = ret@;
            let ghost am = allocator.recycled();
            proof {
                let spv = old(memory_sets)@.map_values(|m: PageBits| m@);
                lemma_freed_len(keys@, q0, spv, keys@.len() as int);
                assert(sorted_keys(q0, keys@));
                assert(rm == given_up(keys@, q0, spv, keys@.len() as int));
                if rm.len() == 0 {
                    assert(freed(keys@, q0, spv, keys@.len() as int).len() == 0);
                    assert(freed(keys@, q0, spv, keys@.len() as int) =~= Seq::<usize>::empty());
                    assert(am == old(allocator).recycled());
                }
            }
            if !allocator.check() && ret.len() == 0 {
                proof {
                    lemma_nothing_given_up(q0, old(memory_sets)@, qm, memory_sets@, rm, keys@, task_id);
                    assert forall|t: usize| #[trigger] qm.contains_key(t) implies q0.contains_key(t) && qm[t] == q0[t] by {
                        assert(q0.contains_key(t));
                        assert(all_mapped_tasks(q0, old(memory_sets)@));
                        assert(q0[t] == q0[t]);
                        assert(old(memory_sets)@.contains_key(t));
                        if q0[t].len() == 0 {
                            assert(back_sweep(q0[t], old(memory_sets)@[t]@).0.len() == 0);
                        }
                        lemma_nothing_given_up(q0, old(memory_sets)@, qm, memory_sets@, rm, keys@, t);
                    }
                    lemma_held_same(*old(allocator), *allocator, q0);
                    lemma_held_sub(*allocator, q0, qm);
                }
                let p = self.pop_first(task_id, allocator);
                ret.push(p);
            }
            proof {
                assert(forall|ks: Seq<usize>|
                    sorted_keys(old(self).queues(), ks) ==> am == (old(allocator).recycled() + freed(ks, old(self).queues(), old(memory_sets)@.map_values(|m: PageBits| m@), ks.len() as int)));
                assert(sweep_done(old(self).queues(), old(memory_sets)@, qm, memory_sets@, rm));
                assert(am.len() == am.len());
                if !frames_left(*old(allocator)) && rm.len() == 0 {
                    assert(ret@.len() == 1);
                    assert(popped_first(qm, task_id, self.queues(), ret@[0]));
                    assert(allocator.recycled() == popped_released(qm, task_id, am));
                } else {
                    assert(ret@ == rm);
                    assert(self.queues() == qm);
                    assert(allocator.recycled() == am);
                }
            }
            ret
        } else {
            if !allocator.check() {
                let p = self.pop_first(task_id, allocator);
                let mut ret = Vec::new();
                ret.push(p);
                ret
            } else {
                Vec::new()
            }
        }
    }

    /// Sweeps one task's frames from the back, appending the pages given
    /// up to `ret`.
    fn sweep_list(
        list: &mut VecDeque<Frame>,
        memory_set: &mut PageBits,
        task_id: usize,
        ret: &mut Vec<(usize, usize, usize)>,
        allocator: &mut StackFrameAllocator,
    )
        requires
            mapped(old(list)@, old(memory_set)@),
            old(allocator).all_in_use(tracker_ppns(old(list)@)),
        ensures
            forall|x: usize|
                old(allocator).in_use(x) && !tracker_ppns(old(list)@).contains(x)
                    ==> #[trigger] final(allocator).in_use(x),
            ({
                let s = back_sweep(old(list)@, old(memory_set)@);
                &&& final(list)@ == s.0
                &&& final(memory_set)@ == s.2
                &&& final(ret)@ == old(ret)@ + s.1.map_values(|p: Frame| (p.0, p.1, task_id))
                &&& final(allocator).recycled() == (old(allocator).recycled() + tracker_ppns(s.1))
            }),
            final(allocator).cur() == old(allocator).cur(),
            final(allocator).limit() == old(allocator).limit(),
    {
        let ghost q = list@;
        let ghost f0 = memory_set@;
        let ghost r0 = ret@;
        let mut i: usize = list.len();
        assert(q.take(i as int) =~= q);
        assert(list@ =~= q.take(i as int) + Seq::<Frame>::empty());
        assert(ret@ =~= r0 + Seq::<Frame>::empty().map_values(|p: Frame| (p.0, p.1, task_id)));
        assert(tracker_ppns(Seq::<Frame>::empty()) =~= Seq::<usize>::empty());
        let ghost mut kept: Seq<Frame> = Seq::empty();
        let ghost mut outs: Seq<Frame> = Seq::empty();
        proof {
            assert forall|k: int| 0 <= k < list@.len() implies allocator.in_use(#[trigger] list@[k].2.ppn) by {
                assert(tracker_ppns(q)[k] == q[k].2.ppn);
            }
            assert forall|a: int, b: int| 0 <= a < list@.len() && 0 <= b < list@.len() && a != b implies #[trigger] list@[
                a
            ].2.ppn != #[trigger] list@[b].2.ppn by {
                assert(tracker_ppns(q)[a] == q[a].2.ppn && tracker_ppns(q)[b] == q[b].2.ppn);
            }
        }
        while i > 0
            invariant
                i <= q.len(),
                list@ == q.take(i as int) + kept,
                ret@ == r0 + outs.map_values(|p: Frame| (p.0, p.1, task_id)),
                allocator.recycled() == (old(allocator).recycled() + tracker_ppns(outs)),
                allocator.cur() == old(allocator).cur(),
                allocator.limit() == old(allocator).limit(),
                mapped(q, f0),
                memory_set@.dom() == f0.dom(),
                ({
                    let s = back_sweep(q.take(i as int), memory_set@);
                    back_sweep(q, f0) == (s.0 + kept, outs + s.1, s.2)
                }),
                q == old(list)@,
                f0 == old(memory_set)@,
                r0 == old(ret)@,
                forall|k: int| 0 <= k < list@.len() ==> allocator.in_use(#[trigger] list@[k].2.ppn),
                forall|a: int, b: int|
                    0 <= a < list@.len() && 0 <= b < list@.len() && a != b ==> #[trigger] list@[a].2.ppn
                        != #[trigger] list@[b].2.ppn,
                forall|x: usize|
                    old(allocator).in_use(x) && !tracker_ppns(q).contains(x) ==> #[trigger] allocator.in_use(x),
            decreases i,
        {
            let ghost pre = q.take(i as int);
            assert(pre.drop_last() =~= q.take(i - 1));
            assert(pre.last() == q[i - 1]);
            let vpn = list[i - 1].1;
            assert(f0.contains_key(q[i - 1].1));
            if !memory_set.has_accessed(vpn) {
                let ghost lb = list@;
                let ghost ab = *allocator;
                assert(lb[i - 1] == q[i - 1]);
                assert(ab.in_use(lb[i - 1].2.ppn));
                let (ppn, vpn, frame) = list.remove(i - 1).unwrap();
                ret.push((ppn, vpn, task_id));
                allocator.dealloc(frame.ppn);
                proof {
                    assert(tracker_ppns(q)[i - 1] == frame.ppn);
                    assert forall|k: int| 0 <= k < list@.len() implies allocator.in_use(#[trigger] list@[k].2.ppn) by {
                        let k2 = if k < i - 1 { k } else { k + 1 };
                        assert(list@[k] == lb[k2]);
                        assert(lb[k2].2.ppn != lb[i - 1].2.ppn);
                    }
                    assert forall|a: int, b: int| 0 <= a < list@.len() && 0 <= b < list@.len() && a != b implies #[trigger] list@[
                        a
                    ].2.ppn != #[trigger] list@[b].2.ppn by {
                        let a2 = if a < i - 1 { a } else { a + 1 };
                        let b2 = if b < i - 1 { b } else { b + 1 };
                        assert(list@[a] == lb[a2] && list@[b] == lb[b2]);
                    }
                    assert forall|x: usize| old(allocator).in_use(x) && !tracker_ppns(q).contains(x) implies #[trigger] allocator.in_use(x) by {
                        assert(ab.in_use(x));
                        if x == frame.ppn {
                            assert(tracker_ppns(q).contains(x));
                        }
                    }
                }
                proof {
                    let e = q[i - 1];
                    assert(e == (ppn, vpn, frame));
                    let s1 = back_sweep(q.take(i - 1), memory_set@);
                    assert(back_sweep(pre, memory_set@) == (s1.0, seq![e] + s1.1, s1.2));
                    assert(outs + (seq![e] + s1.1) =~= outs.push(e) + s1.1);
                    lemma_concat_push(old(allocator).recycled(), tracker_ppns(outs), frame.ppn);
                    assert(tracker_ppns(outs.push(e)) =~= tracker_ppns(outs).push(frame.ppn));
                    outs = outs.push(e);
                    assert(list@ =~= q.take(i - 1) + kept);
                    assert(ret@ =~= r0 + outs.map_values(|p: Frame| (p.0, p.1, task_id)));
                }
            } else {
                let ghost fb = memory_set@;
                memory_set.clear_accessed(vpn);
                proof {
                    let e = q[i - 1];
                    let s1 = back_sweep(q.take(i - 1), memory_set@);
                    assert(back_sweep(pre, fb) == (s1.0.push(e), s1.1, s1.2));
                    assert(s1.0.push(e) + kept =~= s1.0 + seq![e].add(kept));
                    kept = seq![e].add(kept);
                    assert(list@ =~= q.take(i - 1) + kept);
                }
            }
            i = i - 1;
        }
        assert(q.take(0) =~= Seq::<Frame>::empty());
        assert(list@ =~= kept);
        assert(outs + Seq::<Frame>::empty() =~= outs);
    }

    /// Gives up, in every task, the frames of the pages not accessed since
    /// the last look (sweeping each task's frames from the back, tasks by
    /// increasing id), clears the accessed bits of the others, and forgets
    /// the tasks left with no frames.
    pub fn pop_unaccessed_frames(
        &mut self,
        memory_sets: &mut BTreeMap<usize, PageBits>,
        allocator: &mut StackFrameAllocator,
    ) -> (r: Vec<(usize, usize, usize)>)
        requires
            all_mapped_tasks(old(self).queues(), old(memory_sets)@),
            held_in_use(*old(allocator), old(self).queues()),
        ensures
            final(self).last_fault() == old(self).last_fault(),
            sweep_done(old(self).queues(), old(memory_sets)@, final(self).queues(), final(memory_sets)@, r@),
            final(allocator).cur() == old(allocator).cur(),
            final(allocator).limit() == old(allocator).limit(),
            forall|keys: Seq<usize>|
                sorted_keys(old(self).queues(), keys) ==> final(allocator).recycled() == (old(allocator).recycled() + freed(keys, old(self).queues(), old(memory_sets)@.map_values(|m: PageBits| m@), keys.len() as int)),
    {
        let keys = keys_of(&self.queue);
        let ghost q0 = self.queues();
        let ghost m0 = memory_sets@;
        let ghost sp0 = m0.map_values(|m: PageBits| m@);
        assert(sorted_keys(q0, keys@));
        let mut ret: Vec<(usize, usize, usize)> = Vec::new();
        let mut topop: Vec<usize> = Vec::new();
        let mut i: usize = 0;
        while i < keys.len()
            invariant
                sorted_keys(q0, keys@),
                i <= keys@.len(),
                all_mapped_tasks(q0, m0),
                self.last_pgfault == old(self).last_pgfault,
                sp0 == m0.map_values(|m: PageBits| m@),
                ret@ == given_up(keys@, q0, sp0, i as int),
                q0 == old(self).queues(),
                held_in_use(*old(allocator), q0),
                forall|j: int, k: int|
                    i <= j < keys@.len() && 0 <= k < q0[keys@[j]].len() ==> allocator.in_use(
                        #[trigger] q0[keys@[j]][k].2.ppn,
                    ),
                allocator.recycled() == (old(allocator).recycled() + freed(keys@, q0, sp0, i as int)),
                allocator.cur() == old(allocator).cur(),
                allocator.limit() == old(allocator).limit(),
                self.queues().dom() == q0.dom(),
                memory_sets@.dom() == m0.dom(),
                forall|j: int|
                    0 <= j < i ==> {
                        let t = #[trigger] keys@[j];
                        let s = back_sweep(q0[t], m0[t]@);
                        &&& memory_sets@[t]@ == s.2
                        &&& self.queues()[t] == s.0
                    },
                forall|j: int|
                    i <= j < keys@.len() ==> {
                        let t = #[trigger] keys@[j];
                        &&& memory_sets@[t] == m0[t]
                        &&& self.queues()[t] == q0[t]
                    },
                forall|t: usize|
                    #![trigger memory_sets@[t]]
                    m0.contains_key(t) && !q0.contains_key(t) ==> memory_sets@[t] == m0[t],
                forall|j: int|
                    0 <= j < topop@.len() ==> keys@.take(i as int).contains(#[trigger] topop@[j])
                        && back_sweep(q0[topop@[j]], m0[topop@[j]]@).0.len() == 0,
                forall|k: int|
                    0 <= k < i && back_sweep(q0[keys@[k]], m0[keys@[k]]@).0.len() == 0 ==> topop@.contains(
                        #[trigger] keys@[k],
                    ),
            decreases keys@.len() - i,
        {
            let task_id = keys[i];
            proof {
                assert(q0.contains_key(task_id));
            }
            let memory_set = map_get_mut(memory_sets, task_id).unwrap();
            let list = map_get_mut(&mut self.queue, task_id).unwrap();
            assert(list@ == q0[task_id]);
            let ghost ab = *allocator;
            proof {
                let p = tracker_ppns(q0[task_id]);
                assert forall|k: int| 0 <= k < p.len() implies ab.in_use(#[trigger] p[k]) by {
                    assert(p[k] == q0[keys@[i as int]][k].2.ppn);
                }
                lemma_held_task(*old(allocator), q0, task_id);
            }
            Self::sweep_list(list, memory_set, task_id, &mut ret, allocator);
            proof {
                assert forall|j: int, k: int|
                    i + 1 <= j < keys@.len() && 0 <= k < q0[keys@[j]].len() implies allocator.in_use(
                    #[trigger] q0[keys@[j]][k].2.ppn,
                ) by {
                    let x = q0[keys@[j]][k].2.ppn;
                    assert(ab.in_use(x));
                    assert(keys@[j] != task_id);
                    if tracker_ppns(q0[task_id]).contains(x) {
                        let m = choose|m: int| 0 <= m < tracker_ppns(q0[task_id]).len() && tracker_ppns(q0[task_id])[m] == x;
                        assert(tracker_ppns(q0[task_id])[m] == q0[task_id][m].2.ppn);
                    }
                }
            }
            proof {
                assert(sp0[task_id] == m0[task_id]@);
                lemma_concat_assoc(old(allocator).recycled(), freed(keys@, q0, sp0, i as int), tracker_ppns(back_sweep(q0[task_id], m0[task_id]@).1));
            }
            let empty = list.len() == 0;
            let ghost topop_before = topop@;
            if empty {
                topop.push(task_id);
            }
            proof {
                let sw = back_sweep(q0[task_id], m0[task_id]@);
                assert(empty == (sw.0.len() == 0));
                assert forall|jj: int| 0 <= jj < topop@.len() implies keys@.take(i + 1).contains(
                    #[trigger] topop@[jj],
                ) && back_sweep(q0[topop@[jj]], m0[topop@[jj]]@).0.len() == 0 by {
                    if jj < topop_before.len() {
                        assert(topop@[jj] == topop_before[jj]);
                        let k = choose|k: int| 0 <= k < i && #[trigger] keys@.take(i as int)[k] == topop_before[jj];
                        assert(keys@.take(i + 1)[k] == topop@[jj]);
                    } else {
                        assert(topop@[jj] == keys@[i as int]);
                        assert(keys@.take(i + 1)[i as int] == topop@[jj]);
                    }
                }
                assert forall|k: int|
                    0 <= k < i + 1 && back_sweep(q0[keys@[k]], m0[keys@[k]]@).0.len() == 0 implies topop@.contains(
                    #[trigger] keys@[k],
                ) by {
                    if k < i {
                        assert(topop_before.contains(keys@[k]));
                        let w = choose|w: int| 0 <= w < topop_before.len() && topop_before[w] == keys@[k];
                        assert(topop@[w] == keys@[k]);
                    } else {
                        assert(topop@[topop@.len() - 1] == keys@[k]);
                    }
                }
            }
            i = i + 1;
        }
        let ghost qs1 = self.queues();
        let mut j: usize = 0;
        while j < topop.len()
            invariant
                j <= topop@.len(),
                forall|t: usize|
                    #[trigger] self.queues().contains_key(t) == (qs1.contains_key(t) && !topop@.take(
                        j as int,
                    ).contains(t)),
                forall|t: usize| #[trigger] self.queues().contains_key(t) ==> self.queues()[t] == qs1[t],
                self.last_pgfault == old(self).last_pgfault,
            decreases topop@.len() - j,
        {
            let t = topop[j];
            let ghost prev = self.queues();
            self.queue.remove(&t);
            proof {
                assert(self.queues() =~= prev.remove(t));
                assert forall|u: usize|
                    #[trigger] self.queues().contains_key(u) == (qs1.contains_key(u) && !topop@.take(
                        j + 1,
                    ).contains(u)) by {
                    if topop@.take(j + 1).contains(u) && u != t {
                        let k = choose|k: int| 0 <= k < j + 1 && #[trigger] topop@.take(j + 1)[k] == u;
                        assert(topop@.take(j as int)[k] == u);
                    }
                    if topop@.take(j as int).contains(u) {
                        let k = choose|k: int| 0 <= k < j && #[trigger] topop@.take(j as int)[k] == u;
                        assert(topop@.take(j + 1)[k] == u);
                    }
                    assert(topop@.take(j + 1)[j as int] == t);
                }
            }
            j = j + 1;
        }
        proof {
            assert(topop@.take(topop@.len() as int) =~= topop@);
            assert forall|t: usize|
                #![trigger old(self).queues()[t]]
                old(self).queues().contains_key(t) implies {
                    let s = back_sweep(old(self).queues()[t], old(memory_sets)@[t]@);
                    &&& memory_sets@[t]@ == s.2
                    &&& if s.0.len() > 0 {
                        self.queues().contains_key(t) && self.queues()[t] == s.0
                    } else {
                        !self.queues().contains_key(t)
                    }
                } by {
                let k = choose|k: int| 0 <= k < keys@.len() && #[trigger] keys@[k] == t;
                let s = back_sweep(q0[t], m0[t]@);
                if s.0.len() > 0 {
                    if topop@.contains(t) {
                        let jj = choose|jj: int| 0 <= jj < topop@.len() && #[trigger] topop@[jj] == t;
                        assert(back_sweep(q0[topop@[jj]], m0[topop@[jj]]@).0.len() == 0);
                    }
                } else {
                    assert(topop@.contains(keys@[k]));
                }
            }
            assert forall|ks: Seq<usize>| sorted_keys(old(self).queues(), ks) implies ret@ == given_up(
                ks,
                old(self).queues(),
                old(memory_sets)@.map_values(|m: PageBits| m@),
                ks.len() as int,
            ) by {
                lemma_sorted_keys_unique(q0, keys@, ks);
            }
            assert forall|ks: Seq<usize>| sorted_keys(old(self).queues(), ks) implies allocator.recycled() == (old(allocator).recycled() + freed(ks, old(self).queues(), old(memory_sets)@.map_values(|m: PageBits| m@), ks.len() as int)) by {
                lemma_sorted_keys_unique(q0, keys@, ks);
            }
        }
        ret
    }
}

} // verus!
