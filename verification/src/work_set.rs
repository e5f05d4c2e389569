//! The working-set policy: on each clock tick the pages accessed since
//! the last tick are recorded in one of `WORKSET_NUM` snapshots (and
//! their accessed bits cleared); on a page fault every frame whose page
//! is in none of the snapshots, nor accessed right now, is given up.
use std::collections::{BTreeMap, BTreeSet, VecDeque};
use vstd::prelude::*;
use crate::common::{keys_of, lemma_sorted_keys_unique, map_get_mut, sorted_keys};
use crate::frame_allocator::{lemma_concat_assoc, lemma_concat_push, FrameTracker, StackFrameAllocator};
use crate::page_bits::{accessed, lemma_unaccessed, unaccessed, PageBits};

verus! {

/// The number of clock ticks a page is remembered as in use.
pub const WORKSET_NUM: usize = 20;

/// A frame of a task: its virtual page, its physical page, and the frame.
pub type WsFrame = (usize, usize, FrameTracker);

/// The pages of the trackers of the frames `q`, in order.
pub open spec fn ws_ppns(q: Seq<WsFrame>) -> Seq<usize> {
    q.map_values(|f: WsFrame| f.2.ppn)
}

/// Every frame held in `qs` is handed out by the allocator `a`, and no two
/// of them hold the same page.
pub open spec fn ws_held_in_use(a: StackFrameAllocator, qs: Map<usize, Seq<WsFrame>>) -> bool {
    &&& forall|t: usize, i: int|
        #![trigger qs[t][i]]
        qs.contains_key(t) && 0 <= i < qs[t].len() ==> a.in_use(qs[t][i].2.ppn)
    &&& forall|t1: usize, i1: int, t2: usize, i2: int|
        #![trigger qs[t1][i1], qs[t2][i2]]
        qs.contains_key(t1) && qs.contains_key(t2) && 0 <= i1 < qs[t1].len() && 0 <= i2 < qs[t2].len() && (t1
            != t2 || i1 != i2) ==> qs[t1][i1].2.ppn != qs[t2][i2].2.ppn
}

/// No frame of one task of `qs` holds the same page as another.
proof fn lemma_ws_held_task(a: StackFrameAllocator, qs: Map<usize, Seq<WsFrame>>, t: usize)
    requires
        ws_held_in_use(a, qs),
        qs.contains_key(t),
    ensures
        ws_ppns(qs[t]).no_duplicates(),
{
    let p = ws_ppns(qs[t]);
    assert forall|i: int, j: int| 0 <= i < p.len() && 0 <= j < p.len() && i != j implies p[i] != p[j] by {
        assert(p[i] == qs[t][i].2.ppn && p[j] == qs[t][j].2.ppn);
    }
}

/// The pages of the trackers of the frames `q`, in order.
fn collect_ws_ppns(q: &VecDeque<WsFrame>) -> (r: Vec<usize>)
    ensures
        r@ == ws_ppns(q@),
{
    let mut r: Vec<usize> = Vec::new();
    let mut i: usize = 0;
    while i < q.len()
        invariant
            i <= q@.len(),
            r@ == ws_ppns(q@.take(i as int)),
        decreases q@.len() - i,
    {
        r.push(q[i].2.ppn);
        assert(ws_ppns(q@.take(i + 1)) =~= ws_ppns(q@.take(i as int)).push(q@[i as int].2.ppn));
        i = i + 1;
    }
    assert(q@.take(q@.len() as int) =~= q@);
    r
}

/// Page `v` is the page of one of the first `n` frames of `q`.
pub open spec fn among(q: Seq<WsFrame>, n: int, v: usize) -> bool {
    exists|i: int| 0 <= i < n && #[trigger] q[i].0 == v
}

/// Every page of `q` has flags in `f`.
pub open spec fn pages_mapped(q: Seq<WsFrame>, f: Map<usize, usize>) -> bool {
    forall|i: int| 0 <= i < q.len() ==> f.contains_key(#[trigger] q[i].0)
}

/// Every task with frames has an address space holding the flags of its
/// pages.
pub open spec fn all_pages_mapped(qs: Map<usize, Seq<WsFrame>>, sp: Map<usize, PageBits>) -> bool {
    forall|t: usize|
        #![trigger qs[t]]
        qs.contains_key(t) ==> sp.contains_key(t) && pages_mapped(qs[t], sp[t]@)
}

/// The pages of the first `n` frames of `q` (task `t`) accessed in `f`.
pub open spec fn accessed_in(t: usize, q: Seq<WsFrame>, n: int, f: Map<usize, usize>) -> Set<(usize, usize)> {
    Set::new(|p: (usize, usize)| p.0 == t && among(q, n, p.1) && accessed(f[p.1]))
}

/// The flags `f` with the accessed bit of the pages of the first `n`
/// frames of `q` cleared.
pub open spec fn reset_upto(q: Seq<WsFrame>, n: int, f: Map<usize, usize>) -> Map<usize, usize> {
    Map::new(
        |v: usize| f.contains_key(v),
        |v: usize|
            if among(q, n, v) {
                unaccessed(f[v])
            } else {
                f[v]
            },
    )
}

/// The pages, tagged with their task, of all frames whose accessed bit is
/// set.
pub open spec fn working_set(qs: Map<usize, Seq<WsFrame>>, sp: Map<usize, PageBits>) -> Set<(usize, usize)> {
    Set::new(
        |p: (usize, usize)|
            qs.contains_key(p.0) && among(qs[p.0], qs[p.0].len() as int, p.1) && accessed(sp[p.0]@[p.1]),
    )
}

/// From the spaces `sp` to `sp2`: if `reset`, the accessed bit of every
/// page of the frames `qs` is cleared; no other flag changes.
pub open spec fn flags_after(
    qs: Map<usize, Seq<WsFrame>>,
    sp: Map<usize, PageBits>,
    sp2: Map<usize, PageBits>,
    reset: bool,
) -> bool {
    &&& sp2.dom() == sp.dom()
    &&& forall|t: usize|
        #![trigger sp2[t]]
        sp.contains_key(t) ==> sp2[t]@ == if reset && qs.contains_key(t) {
            reset_upto(qs[t], qs[t].len() as int, sp[t]@)
        } else {
            sp[t]@
        }
}

/// The snapshots `w`, grown with empty ones to at least `n`.
pub open spec fn padded(w: Seq<Set<(usize, usize)>>, n: int) -> Seq<Set<(usize, usize)>> {
    if w.len() >= n {
        w
    } else {
        w + Seq::new((n - w.len()) as nat, |i: int| Set::<(usize, usize)>::empty())
    }
}

/// Page `p` is in one of the snapshots `0..=WORKSET_NUM`.
pub open spec fn in_window(w: Seq<Set<(usize, usize)>>, p: (usize, usize)) -> bool {
    exists|k: int| 0 <= k <= WORKSET_NUM && #[trigger] w[k].contains(p)
}

/// A sweep of task `t`'s frames from the back against the snapshots `w`:
/// the frames kept (in order) and those given up, as (physical page,
/// virtual page, task), in the order met.
pub open spec fn window_sweep(t: usize, q: Seq<WsFrame>, w: Seq<Set<(usize, usize)>>) -> (Seq<WsFrame>, Seq<(usize, usize, usize)>)
    decreases q.len(),
{
    if q.len() == 0 {
        (q, Seq::empty())
    } else {
        let e = q.last();
        let rest = window_sweep(t, q.drop_last(), w);
        if in_window(w, (t, e.0)) {
            (rest.0.push(e), rest.1)
        } else {
            (rest.0, seq![(e.1, e.0, t)] + rest.1)
        }
    }
}

/// The pages of the trackers of the frames that `window_sweep` gives up,
/// in the same order.
pub open spec fn window_freed(t: usize, q: Seq<WsFrame>, w: Seq<Set<(usize, usize)>>) -> Seq<usize>
    decreases q.len(),
{
    if q.len() == 0 {
        Seq::empty()
    } else {
        let e = q.last();
        let rest = window_freed(t, q.drop_last(), w);
        if in_window(w, (t, e.0)) {
            rest
        } else {
            seq![e.2.ppn] + rest
        }
    }
}

/// The pages of the trackers of the frames given up by the tasks
/// `keys[..n]`, in that order.
pub open spec fn evicted_freed(keys: Seq<usize>, qs: Map<usize, Seq<WsFrame>>, w: Seq<Set<(usize, usize)>>, n: int) -> Seq<usize>
    decreases n,
{
    if n <= 0 {
        Seq::empty()
    } else {
        evicted_freed(keys, qs, w, n - 1) + window_freed(keys[n - 1], qs[keys[n - 1]], w)
    }
}

/// The frames given up by the tasks `keys[..n]`, in that order.
pub open spec fn evicted(keys: Seq<usize>, qs: Map<usize, Seq<WsFrame>>, w: Seq<Set<(usize, usize)>>, n: int) -> Seq<(usize, usize, usize)>
    decreases n,
{
    if n <= 0 {
        Seq::empty()
    } else {
        evicted(keys, qs, w, n - 1) + window_sweep(keys[n - 1], qs[keys[n - 1]], w).1
    }
}

/// Whether page `p` is in one of the snapshots `0..=WORKSET_NUM`.
fn recently_used(ws: &Vec<BTreeSet<(usize, usize)>>, p: (usize, usize)) -> (r: bool)
    requires
        ws@.len() > WORKSET_NUM,
    ensures
        r == in_window(ws@.map_values(|s: BTreeSet<(usize, usize)>| s@), p),
{
    let ghost w = ws@.map_values(|s: BTreeSet<(usize, usize)>| s@);
    let mut k: usize = 0;
    while k <= WORKSET_NUM
        invariant
            k <= WORKSET_NUM + 1,
            ws@.len() > WORKSET_NUM,
            w == ws@.map_values(|s: BTreeSet<(usize, usize)>| s@),
            forall|j: int| 0 <= j < k ==> !(#[trigger] w[j]).contains(p),
        decreases WORKSET_NUM + 1 - k,
    {
        if ws[k].contains(&p) {
            assert(w[k as int].contains(p));
            return true;
        }
        k = k + 1;
    }
    false
}

pub struct WorkSetManager {
    queue: BTreeMap<usize, VecDeque<WsFrame>>,
    workset: Vec<BTreeSet<(usize, usize)>>,
    ptr: usize,
}

impl WorkSetManager {
    /// The frames of each task, oldest first.
    pub closed spec fn queues(&self) -> Map<usize, Seq<WsFrame>> {
        self.queue@.map_values(|q: VecDeque<WsFrame>| q@)
    }

    /// The snapshots of the pages found accessed, by slot.
    pub closed spec fn worksets(&self) -> Seq<Set<(usize, usize)>> {
        self.workset@.map_values(|s: BTreeSet<(usize, usize)>| s@)
    }

    /// The slot the next clock tick writes.
    pub closed spec fn slot(&self) -> usize {
        self.ptr
    }

    /// The next slot is one of the `WORKSET_NUM` ring slots.
    pub open spec fn wf(&self) -> bool {
        self.slot() < WORKSET_NUM
    }

    pub fn new() -> (r: Self)
        ensures
            r.wf(),
            r.queues() == Map::<usize, Seq<WsFrame>>::empty(),
            r.worksets() == Seq::<Set<(usize, usize)>>::empty(),
            r.slot() == 0,
    {
        let r = WorkSetManager { queue: BTreeMap::new(), workset: Vec::new(), ptr: 0 };
        assert(r.queues() =~= Map::<usize, Seq<WsFrame>>::empty());
        assert(r.worksets() =~= Seq::<Set<(usize, usize)>>::empty());
        r
    }

    /// Records that `vpn` of task `task_id` is now mapped to `ppn`.
    pub fn insert_frame(&mut self, vpn: usize, ppn: usize, task_id: usize, frame: FrameTracker)
        ensures
            final(self).queues() == old(self).queues().insert(
                task_id,
                if old(self).queues().contains_key(task_id) {
                    old(self).queues()[task_id].push((vpn, ppn, frame))
                } else {
                    seq![(vpn, ppn, frame)]
                },
            ),
            final(self).worksets() == old(self).worksets(),
            final(self).slot() == old(self).slot(),
    {
        match map_get_mut(&mut self.queue, task_id) {
            Some(list) => {
                list.push_back((vpn, ppn, frame));
            },
            None => {
                let mut tmp = VecDeque::new();
                tmp.push_back((vpn, ppn, frame));
                self.queue.insert(task_id, tmp);
            },
        }
        assert(self.queues() =~= old(self).queues().insert(
            task_id,
            if old(self).queues().contains_key(task_id) {
                old(self).queues()[task_id].push((vpn, ppn, frame))
            } else {
                seq![(vpn, ppn, frame)]
            },
        ));
    }

    /// Forgets the frames of task `task_id`, releasing each to the
    /// allocator in order.
    pub fn clear_frames(&mut self, task_id: usize, allocator: &mut StackFrameAllocator)
        requires
            old(self).queues().contains_key(task_id) ==> old(allocator).all_in_use(
                ws_ppns(old(self).queues()[task_id]),
            ),
        ensures
            final(self).queues() == old(self).queues().remove(task_id),
            final(self).worksets() == old(self).worksets(),
            final(self).slot() == old(self).slot(),
            final(allocator).cur() == old(allocator).cur(),
            final(allocator).limit() == old(allocator).limit(),
            final(allocator).recycled() == if old(self).queues().contains_key(task_id) {
                (old(allocator).recycled() + ws_ppns(old(self).queues()[task_id]))
            } else {
                old(allocator).recycled()
            },
    {
        match self.queue.remove(&task_id) {
            Some(list) => {
                let ppns = collect_ws_ppns(&list);
                allocator.release_all(&ppns);
            },
            None => {},
        }
        assert(self.queues() =~= old(self).queues().remove(task_id));
    }

    /// Adds to `set` the accessed pages of one task's frames, clearing
    /// their accessed bits if `reset`.
    fn scan_list(
        task_id: usize,
        list: &VecDeque<WsFrame>,
        memory_set: &mut PageBits,
        set: &mut BTreeSet<(usize, usize)>,
        reset: bool,
    )
        requires
            pages_mapped(list@, old(memory_set)@),
        ensures
            final(set)@ == old(set)@.union(accessed_in(task_id, list@, list@.len() as int, old(memory_set)@)),
            final(memory_set)@ == if reset {
                reset_upto(list@, list@.len() as int, old(memory_set)@)
            } else {
                old(memory_set)@
            },
    {
        let ghost q = list@;
        let ghost f0 = memory_set@;
        let ghost s0 = set@;
        proof {
            assert(s0.union(accessed_in(task_id, q, 0, f0)) =~= s0);
            assert(reset_upto(q, 0, f0) =~= f0);
        }
        let mut j: usize = 0;
        while j < list.len()
            invariant
                j <= q.len(),
                q == list@,
                pages_mapped(q, f0),
                set@ == s0.union(accessed_in(task_id, q, j as int, f0)),
                memory_set@ == if reset {
                    reset_upto(q, j as int, f0)
                } else {
                    f0
                },
            decreases q.len() - j,
        {
            let vpn = list[j].0;
            assert(f0.contains_key(vpn));
            proof {
                assert(q[j as int].0 == vpn);
                lemma_unaccessed(f0[vpn]);
            }
            if memory_set.has_accessed(vpn) {
                set.insert((task_id, vpn));
                if reset {
                    memory_set.clear_accessed(vpn);
                }
            }
            proof {
                assert(among(q, j + 1, vpn));
                assert forall|v: usize| #[trigger] among(q, j + 1, v) == (among(q, j as int, v) || v == vpn) by {
                    if among(q, j + 1, v) {
                        let i = choose|i: int| 0 <= i < j + 1 && #[trigger] q[i].0 == v;
                        if i < j {
                            assert(among(q, j as int, v));
                        }
                    }
                    if among(q, j as int, v) {
                        let i = choose|i: int| 0 <= i < j && #[trigger] q[i].0 == v;
                        assert(among(q, j + 1, v));
                    }
                }
                assert(set@ =~= s0.union(accessed_in(task_id, q, j + 1, f0)));
                if reset {
                    assert(memory_set@ =~= reset_upto(q, j + 1, f0));
                }
            }
            j = j + 1;
        }
    }

    /// Writes into slot `ptr` (adding empty slots up to it) the pages of
    /// all tasks found accessed, clearing their accessed bits if `reset`.
    fn compute_workset(&mut self, memory_sets: &mut BTreeMap<usize, PageBits>, ptr: usize, reset: bool)
        requires
            ptr <= WORKSET_NUM,
            all_pages_mapped(old(self).queues(), old(memory_sets)@),
        ensures
            final(self).queues() == old(self).queues(),
            final(self).slot() == old(self).slot(),
            final(self).worksets() == padded(old(self).worksets(), ptr + 1).update(
                ptr as int,
                working_set(old(self).queues(), old(memory_sets)@),
            ),
            flags_after(old(self).queues(), old(memory_sets)@, final(memory_sets)@, reset),
    {
        let ghost w0 = self.worksets();
        let ghost q0 = self.queues();
        let ghost m0 = memory_sets@;
        proof {
            assert(padded(w0, w0.len() as int) == w0);
        }
        while self.workset.len() <= ptr
            invariant
                self.worksets() == padded(w0, self.worksets().len() as int),
                self.worksets().len() >= w0.len(),
                self.worksets().len() == w0.len() || self.worksets().len() <= ptr + 1,
                self.queues() == q0,
                self.ptr == old(self).ptr,
                ptr <= WORKSET_NUM,
            decreases ptr + 1 - self.workset@.len(),
        {
            let ghost before = self.worksets();
            let ghost vb = self.workset@;
            let ghost n = before.len();
            self.workset.push(BTreeSet::new());
            proof {
                assert(self.worksets().len() == n + 1);
                assert(self.worksets()[n as int] == Set::<(usize, usize)>::empty());
                assert forall|k: int| 0 <= k < n implies self.worksets()[k] == before[k] by {
                    assert(self.workset@[k] == vb[k]);
                }
                let pn = padded(w0, (n + 1) as int);
                if n == w0.len() {
                    assert(before == w0);
                } else {
                    assert(before == w0 + Seq::new((n - w0.len()) as nat, |i: int| Set::<(usize, usize)>::empty()));
                }
                assert(pn == w0 + Seq::new((n + 1 - w0.len()) as nat, |i: int| Set::<(usize, usize)>::empty()));
                assert forall|k: int| 0 <= k < n + 1 implies #[trigger] self.worksets()[k] == pn[k] by {
                    if k < n {
                        assert(self.worksets()[k] == before[k]);
                    }
                }
                assert(self.worksets() =~= pn);
            }
        }
        proof {
            if w0.len() > ptr {
                assert(padded(w0, ptr + 1) == w0);
            }
            assert(self.worksets() == padded(w0, ptr + 1));
        }
        let keys = keys_of(&self.queue);
        let mut set: BTreeSet<(usize, usize)> = BTreeSet::new();
        let mut i: usize = 0;
        proof {
            assert(set@ =~= Set::new(
                |p: (usize, usize)|
                    keys@.take(0).contains(p.0) && among(q0[p.0], q0[p.0].len() as int, p.1) && accessed(
                        m0[p.0]@[p.1],
                    ),
            ));
        }
        while i < keys.len()
            invariant
                sorted_keys(q0, keys@),
                i <= keys@.len(),
                self.queues() == q0,
                self.ptr == old(self).ptr,
                self.worksets() == padded(w0, ptr + 1),
                all_pages_mapped(q0, m0),
                set@ == Set::new(
                    |p: (usize, usize)|
                        keys@.take(i as int).contains(p.0) && among(q0[p.0], q0[p.0].len() as int, p.1)
                            && accessed(m0[p.0]@[p.1]),
                ),
                memory_sets@.dom() == m0.dom(),
                forall|j: int|
                    0 <= j < i ==> {
                        let t = #[trigger] keys@[j];
                        memory_sets@[t]@ == if reset {
                            reset_upto(q0[t], q0[t].len() as int, m0[t]@)
                        } else {
                            m0[t]@
                        }
                    },
                forall|j: int| i <= j < keys@.len() ==> #[trigger] memory_sets@[keys@[j]] == m0[keys@[j]],
                forall|t: usize|
                    #![trigger memory_sets@[t]]
                    m0.contains_key(t) && !q0.contains_key(t) ==> memory_sets@[t] == m0[t],
            decreases keys@.len() - i,
        {
            let task_id = keys[i];
            proof {
                assert(q0.contains_key(task_id));
                assert(pages_mapped(q0[task_id], m0[task_id]@));
                assert(memory_sets@[keys@[i as int]] == m0[task_id]);
            }
            let list = self.queue.get(&task_id).unwrap();
            let memory_set = map_get_mut(memory_sets, task_id).unwrap();
            Self::scan_list(task_id, list, memory_set, &mut set, reset);
            proof {
                assert forall|p: (usize, usize)| #[trigger] keys@.take(i + 1).contains(p.0) == (keys@.take(
                    i as int,
                ).contains(p.0) || p.0 == task_id) by {
                    if keys@.take(i + 1).contains(p.0) {
                        let k = choose|k: int| 0 <= k < i + 1 && #[trigger] keys@.take(i + 1)[k] == p.0;
                        if k < i {
                            assert(keys@.take(i as int)[k] == p.0);
                        }
                    }
                    if keys@.take(i as int).contains(p.0) {
                        let k = choose|k: int| 0 <= k < i && #[trigger] keys@.take(i as int)[k] == p.0;
                        assert(keys@.take(i + 1)[k] == p.0);
                    }
                    assert(keys@.take(i + 1)[i as int] == task_id);
                }
                assert forall|p: (usize, usize)| keys@.take(i as int).contains(p.0) implies p.0 != task_id by {
                    let k = choose|k: int| 0 <= k < i && #[trigger] keys@.take(i as int)[k] == p.0;
                    assert(keys@[k] < keys@[i as int]);
                }
                assert(set@ =~= Set::new(
                    |p: (usize, usize)|
                        keys@.take(i + 1).contains(p.0) && among(q0[p.0], q0[p.0].len() as int, p.1)
                            && accessed(m0[p.0]@[p.1]),
                ));
                assert forall|j: int| i + 1 <= j < keys@.len() implies #[trigger] memory_sets@[keys@[j]]
                    == m0[keys@[j]] by {
                    assert(keys@[i as int] < keys@[j]);
                }
                assert forall|j: int| 0 <= j < i + 1 implies {
                    let t = #[trigger] keys@[j];
                    memory_sets@[t]@ == if reset {
                        reset_upto(q0[t], q0[t].len() as int, m0[t]@)
                    } else {
                        m0[t]@
                    }
                } by {
                    if j < i {
                        assert(keys@[j] < keys@[i as int]);
                    }
                }
            }
            i = i + 1;
        }
        proof {
            assert(keys@.take(keys@.len() as int) =~= keys@);
            assert(set@ =~= working_set(q0, m0)) by {
                assert forall|p: (usize, usize)| keys@.contains(p.0) == q0.contains_key(p.0) by {
                    if q0.contains_key(p.0) {
                        let k = choose|k: int| 0 <= k < keys@.len() && #[trigger] keys@[k] == p.0;
                        assert(keys@.contains(p.0));
                    }
                }
            }
            assert forall|t: usize| #![trigger memory_sets@[t]] m0.contains_key(t) implies memory_sets@[t]@ == if reset
                && q0.contains_key(t) {
                reset_upto(q0[t], q0[t].len() as int, m0[t]@)
            } else {
                m0[t]@
            } by {
                if q0.contains_key(t) {
                    let k = choose|k: int| 0 <= k < keys@.len() && #[trigger] keys@[k] == t;
                }
            }
        }
        self.workset.set(ptr, set);
    }

    /// Sweeps one task's frames from the back, giving up (into `ret`) those
    /// whose page is in none of the snapshots.
    fn sweep_list(
        task_id: usize,
        list: &mut VecDeque<WsFrame>,
        ws: &Vec<BTreeSet<(usize, usize)>>,
        ret: &mut Vec<(usize, usize, usize)>,
        allocator: &mut StackFrameAllocator,
    )
        requires
            ws@.len() > WORKSET_NUM,
            old(allocator).all_in_use(ws_ppns(old(list)@)),
        ensures
            forall|x: usize|
                old(allocator).in_use(x) && !ws_ppns(old(list)@).contains(x)
                    ==> #[trigger] final(allocator).in_use(x),
            ({
                let w = ws@.map_values(|b: BTreeSet<(usize, usize)>| b@);
                let s = window_sweep(task_id, old(list)@, w);
                &&& final(list)@ == s.0
                &&& final(ret)@ == old(ret)@ + s.1
                &&& final(allocator).recycled() == (old(allocator).recycled() + window_freed(task_id, old(list)@, w))
            }),
            final(allocator).cur() == old(allocator).cur(),
            final(allocator).limit() == old(allocator).limit(),
    {
        let ghost w = ws@.map_values(|b: BTreeSet<(usize, usize)>| b@);
        let ghost q = list@;
        let ghost r0 = ret@;
        let mut i: usize = list.len();
        assert(q.take(i as int) =~= q);
        assert(list@ =~= q.take(i as int) + Seq::<WsFrame>::empty());
        assert(ret@ =~= r0 + Seq::<(usize, usize, usize)>::empty());
        let ghost mut kept: Seq<WsFrame> = Seq::empty();
        let ghost mut outs: Seq<(usize, usize, usize)> = Seq::empty();
        let ghost mut fouts: Seq<usize> = Seq::empty();
        assert(window_freed(task_id, q, w) =~= fouts + window_freed(task_id, q.take(i as int), w));
        proof {
            assert forall|k: int| 0 <= k < list@.len() implies allocator.in_use(#[trigger] list@[k].2.ppn) by {
                assert(ws_ppns(q)[k] == q[k].2.ppn);
            }
            assert forall|a: int, b: int| 0 <= a < list@.len() && 0 <= b < list@.len() && a != b implies #[trigger] list@[
                a
            ].2.ppn != #[trigger] list@[b].2.ppn by {
                assert(ws_ppns(q)[a] == q[a].2.ppn && ws_ppns(q)[b] == q[b].2.ppn);
            }
        }
        while i > 0
            invariant
                i <= q.len(),
                ws@.len() > WORKSET_NUM,
                w == ws@.map_values(|b: BTreeSet<(usize, usize)>| b@),
                list@ == q.take(i as int) + kept,
                ret@ == r0 + outs,
                window_freed(task_id, q, w) == fouts + window_freed(task_id, q.take(i as int), w),
                allocator.recycled() == (old(allocator).recycled() + fouts),
                allocator.cur() == old(allocator).cur(),
                allocator.limit() == old(allocator).limit(),
                ({
                    let s = window_sweep(task_id, q.take(i as int), w);
                    window_sweep(task_id, q, w) == (s.0 + kept, outs + s.1)
                }),
                q == old(list)@,
                r0 == old(ret)@,
                forall|k: int| 0 <= k < list@.len() ==> allocator.in_use(#[trigger] list@[k].2.ppn),
                forall|a: int, b: int|
                    0 <= a < list@.len() && 0 <= b < list@.len() && a != b ==> #[trigger] list@[a].2.ppn
                        != #[trigger] list@[b].2.ppn,
                forall|x: usize|
                    old(allocator).in_use(x) && !ws_ppns(q).contains(x) ==> #[trigger] allocator.in_use(x),
            decreases i,
        {
            let ghost pre = q.take(i as int);
            assert(pre.drop_last() =~= q.take(i - 1));
            assert(pre.last() == q[i - 1]);
            let vpn = list[i - 1].0;
            if !recently_used(ws, (task_id, vpn)) {
                let ghost lb = list@;
                let ghost ab = *allocator;
                assert(lb[i - 1] == q[i - 1]);
                assert(ab.in_use(lb[i - 1].2.ppn));
                let (vpn, ppn, frame) = list.remove(i - 1).unwrap();
                ret.push((ppn, vpn, task_id));
                allocator.dealloc(frame.ppn);
                proof {
                    assert(ws_ppns(q)[i - 1] == frame.ppn);
                    assert forall|k: int| 0 <= k < list@.len() implies allocator.in_use(#[trigger] list@[k].2.ppn) by {
                        let k2 = if k < i - 1 { k } else { k + 1 };
                        assert(list@[k] == lb[k2]);
                        assert(lb[k2].2.ppn != lb[i - 1].2.ppn);
                    }
                    assert forall|a: int, b: int| 0 <= a < list@.len() && 0 <= b < list@.len() && a != b implies #[trigger] list@[
                        a
                    ].2.ppn != #[trigger] list@[b].2.ppn by {
                        let a2 = if a < i - 1 { a } else { a + 1 };
                        let b2 = if b < i - 1 { b } else { b + 1 };
                        assert(list@[a] == lb[a2] && list@[b] == lb[b2]);
                    }
                    assert forall|x: usize| old(allocator).in_use(x) && !ws_ppns(q).contains(x) implies #[trigger] allocator.in_use(x) by {
                        assert(ab.in_use(x));
                        if x == frame.ppn {
                            assert(ws_ppns(q).contains(x));
                        }
                    }
                }
                proof {
                    let e = q[i - 1];
                    assert(e == (vpn, ppn, frame));
                    let f1 = window_freed(task_id, q.take(i - 1), w);
                    assert(window_freed(task_id, pre, w) == seq![e.2.ppn] + f1);
                    assert(fouts + (seq![e.2.ppn] + f1) =~= fouts.push(e.2.ppn) + f1);
                    lemma_concat_push(old(allocator).recycled(), fouts, frame.ppn);
                    fouts = fouts.push(e.2.ppn);
                    let s1 = window_sweep(task_id, q.take(i - 1), w);
                    assert(window_sweep(task_id, pre, w) == (s1.0, seq![(e.1, e.0, task_id)] + s1.1));
                    assert(outs + (seq![(e.1, e.0, task_id)] + s1.1) =~= outs.push((e.1, e.0, task_id)) + s1.1);
                    outs = outs.push((e.1, e.0, task_id));
                    assert(list@ =~= q.take(i - 1) + kept);
                    assert(ret@ =~= r0 + outs);
                }
            } else {
                proof {
                    let e = q[i - 1];
                    let s1 = window_sweep(task_id, q.take(i - 1), w);
                    assert(window_sweep(task_id, pre, w) == (s1.0.push(e), s1.1));
                    assert(window_freed(task_id, pre, w) == window_freed(task_id, q.take(i - 1), w));
                    assert(s1.0.push(e) + kept =~= s1.0 + seq![e].add(kept));
                    kept = seq![e].add(kept);
                    assert(list@ =~= q.take(i - 1) + kept);
                }
            }
            i = i - 1;
        }
        assert(q.take(0) =~= Seq::<WsFrame>::empty());
        assert(list@ =~= kept);
        assert(outs + Seq::<(usize, usize, usize)>::empty() =~= outs);
        assert(fouts + Seq::<usize>::empty() =~= fouts);
    }

    /// A page fault: takes a snapshot of the pages accessed now (into the
    /// slot after the ring), then gives up, task by task in increasing id,
    /// every frame whose page is in no snapshot. Tasks left with no frames
    /// stay, with an empty list.
    pub fn work(
        &mut self,
        memory_sets: &mut BTreeMap<usize, PageBits>,
        _task_id: usize,
        allocator: &mut StackFrameAllocator,
    ) -> (r: Vec<(usize, usize, usize)>)
        requires
            all_pages_mapped(old(self).queues(), old(memory_sets)@),
            ws_held_in_use(*old(allocator), old(self).queues()),
        ensures
            flags_after(old(self).queues(), old(memory_sets)@, final(memory_sets)@, false),
            final(self).slot() == old(self).slot(),
            final(self).worksets() == padded(old(self).worksets(), WORKSET_NUM + 1).update(
                WORKSET_NUM as int,
                working_set(old(self).queues(), old(memory_sets)@),
            ),
            final(self).queues().dom() == old(self).queues().dom(),
            exists|keys: Seq<usize>| sorted_keys(old(self).queues(), keys),
            forall|t: usize|
                #![trigger final(self).queues()[t]]
                old(self).queues().contains_key(t) ==> final(self).queues()[t] == window_sweep(
                    t,
                    old(self).queues()[t],
                    final(self).worksets(),
                ).0,
            forall|keys: Seq<usize>|
                sorted_keys(old(self).queues(), keys) ==> r@ == evicted(
                    keys,
                    old(self).queues(),
                    final(self).worksets(),
                    keys.len() as int,
                ),
            final(allocator).cur() == old(allocator).cur(),
            final(allocator).limit() == old(allocator).limit(),
            forall|keys: Seq<usize>|
                sorted_keys(old(self).queues(), keys) ==> final(allocator).recycled() == (old(allocator).recycled() + evicted_freed(keys, old(self).queues(), final(self).worksets(), keys.len() as int)),
    {
        self.compute_workset(memory_sets, WORKSET_NUM, false);
        let ghost w = self.worksets();
        assert(self.workset@.len() == w.len());
        assert(padded(old(self).worksets(), WORKSET_NUM + 1).len() >= WORKSET_NUM + 1);
        let ghost q0 = self.queues();
        let keys = keys_of(&self.queue);
        let mut ret: Vec<(usize, usize, usize)> = Vec::new();
        let mut i: usize = 0;
        while i < keys.len()
            invariant
                sorted_keys(q0, keys@),
                i <= keys@.len(),
                self.workset@.len() > WORKSET_NUM,
                w == self.worksets(),
                allocator.recycled() == (old(allocator).recycled() + evicted_freed(keys@, q0, w, i as int)),
                allocator.cur() == old(allocator).cur(),
                allocator.limit() == old(allocator).limit(),
                self.ptr == old(self).ptr,
                self.queues().dom() == q0.dom(),
                ret@ == evicted(keys@, q0, w, i as int),
                q0 == old(self).queues(),
                ws_held_in_use(*old(allocator), q0),
                forall|j: int, k: int|
                    i <= j < keys@.len() && 0 <= k < q0[keys@[j]].len() ==> allocator.in_use(
                        #[trigger] q0[keys@[j]][k].2.ppn,
                    ),
                forall|j: int|
                    0 <= j < i ==> {
                        let t = #[trigger] keys@[j];
                        self.queues()[t] == window_sweep(t, q0[t], w).0
                    },
                forall|j: int| i <= j < keys@.len() ==> #[trigger] self.queues()[keys@[j]] == q0[keys@[j]],
            decreases keys@.len() - i,
        {
            let t = keys[i];
            proof {
                assert(q0.contains_key(t));
                assert(self.queues()[keys@[i as int]] == q0[t]);
            }
            let ghost qb = self.queue@;
            let ghost qsb = self.queues();
            let ghost ab = *allocator;
            proof {
                let p = ws_ppns(q0[t]);
                assert forall|k: int| 0 <= k < p.len() implies ab.in_use(#[trigger] p[k]) by {
                    assert(p[k] == q0[keys@[i as int]][k].2.ppn);
                }
                lemma_ws_held_task(*old(allocator), q0, t);
            }
            let list = map_get_mut(&mut self.queue, t).unwrap();
            Self::sweep_list(t, list, &self.workset, &mut ret, allocator);
            proof {
                assert forall|j: int, k: int|
                    i + 1 <= j < keys@.len() && 0 <= k < q0[keys@[j]].len() implies allocator.in_use(
                    #[trigger] q0[keys@[j]][k].2.ppn,
                ) by {
                    let x = q0[keys@[j]][k].2.ppn;
                    assert(ab.in_use(x));
                    assert(keys@[j] != t);
                    if ws_ppns(q0[t]).contains(x) {
                        let m = choose|m: int| 0 <= m < ws_ppns(q0[t]).len() && ws_ppns(q0[t])[m] == x;
                        assert(ws_ppns(q0[t])[m] == q0[t][m].2.ppn);
                    }
                }
            }
            proof {
                lemma_concat_assoc(old(allocator).recycled(), evicted_freed(keys@, q0, w, i as int), window_freed(t, q0[t], w));
            }
            proof {
                assert forall|j: int| i + 1 <= j < keys@.len() implies #[trigger] self.queues()[keys@[j]]
                    == q0[keys@[j]] by {
                    assert(keys@[i as int] < keys@[j]);
                    assert(self.queue@[keys@[j]] == qb[keys@[j]]);
                    assert(qsb[keys@[j]] == q0[keys@[j]]);
                    assert(q0.contains_key(keys@[j]));
                    assert(self.queues()[keys@[j]] == self.queue@[keys@[j]]@);
                }
                assert forall|j: int| 0 <= j < i + 1 implies {
                    let tt = #[trigger] keys@[j];
                    self.queues()[tt] == window_sweep(tt, q0[tt], w).0
                } by {
                    if j < i {
                        assert(keys@[j] < keys@[i as int]);
                    }
                }
                assert(self.queues().dom() =~= q0.dom());
            }
            i = i + 1;
        }
        proof {
            assert forall|t: usize| #![trigger self.queues()[t]] q0.contains_key(t) implies self.queues()[t]
                == window_sweep(t, q0[t], w).0 by {
                let k = choose|k: int| 0 <= k < keys@.len() && #[trigger] keys@[k] == t;
            }
            assert forall|ks: Seq<usize>| sorted_keys(q0, ks) implies ret@ == evicted(
                ks,
                q0,
                w,
                ks.len() as int,
            ) by {
                lemma_sorted_keys_unique(q0, keys@, ks);
            }
            assert forall|ks: Seq<usize>| sorted_keys(q0, ks) implies allocator.recycled() == (old(allocator).recycled() + evicted_freed(ks, q0, w, ks.len() as int)) by {
                lemma_sorted_keys_unique(q0, keys@, ks);
            }
        }
        ret
    }

    /// A clock tick: takes a snapshot of the pages accessed since the last
    /// tick into the current slot, clears their accessed bits, and moves to
    /// the next slot of the ring.
    pub fn handle_time_interrupt(&mut self, memory_sets: &mut BTreeMap<usize, PageBits>)
        requires
            old(self).wf(),
            all_pages_mapped(old(self).queues(), old(memory_sets)@),
        ensures
            final(self).wf(),
            flags_after(old(self).queues(), old(memory_sets)@, final(memory_sets)@, true),
            final(self).queues() == old(self).queues(),
            final(self).worksets() == padded(old(self).worksets(), old(self).slot() + 1).update(
                old(self).slot() as int,
                working_set(old(self).queues(), old(memory_sets)@),
            ),
            final(self).slot() == (old(self).slot() + 1) % (WORKSET_NUM as int),
    {
        let ptr = self.ptr;
        self.compute_workset(memory_sets, ptr, true);
        self.ptr = (self.ptr + 1) % WORKSET_NUM;
    }
}

/// The working set is what stays: a sweep keeps exactly the frames whose
/// page is in a snapshot, in their order, and gives up the others, each
/// tagged with its task.
pub proof fn law_window_sweep(t: usize, q: Seq<WsFrame>, w: Seq<Set<(usize, usize)>>)
    ensures
        window_sweep(t, q, w).0.len() + window_sweep(t, q, w).1.len() == q.len(),
        forall|i: int|
            0 <= i < window_sweep(t, q, w).0.len() ==> in_window(w, (t, (#[trigger] window_sweep(t, q, w).0[i]).0)),
        forall|i: int|
            0 <= i < window_sweep(t, q, w).1.len() ==> {
                let e = #[trigger] window_sweep(t, q, w).1[i];
                &&& e.2 == t
                &&& !in_window(w, (t, e.1))
            },
    decreases q.len(),
{
    if q.len() > 0 {
        law_window_sweep(t, q.drop_last(), w);
        let rest = window_sweep(t, q.drop_last(), w);
        let e = q.last();
        if in_window(w, (t, e.0)) {
            assert forall|i: int| 0 <= i < rest.0.push(e).len() implies in_window(w, (t, (#[trigger] rest.0.push(e)[i]).0)) by {
                if i < rest.0.len() {
                    assert(rest.0.push(e)[i] == rest.0[i]);
                }
            }
        } else {
            let out = seq![(e.1, e.0, t)] + rest.1;
            assert forall|i: int| 0 <= i < out.len() implies {
                let x = #[trigger] out[i];
                &&& x.2 == t
                &&& !in_window(w, (t, x.1))
            } by {
                if i > 0 {
                    assert(out[i] == rest.1[i - 1]);
                }
            }
        }
    }
}

} // verus!
