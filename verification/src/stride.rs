//! Stride scheduling: each task advances its pass by `BIG_STRIDE / priority`
//! per run, and the task with the least pass runs next (passes are compared
//! modulo wrap-around).
use std::collections::BTreeMap;
use vstd::prelude::*;
use crate::common::map_get_mut;
use crate::sched::{Manage, Schedule};

verus! {

pub const BIG_STRIDE: usize = usize::MAX;

/// What `exec` passes: the program's priority.
#[derive(Clone, Copy)]
pub struct ExecArgs {
    pub priority: usize,
}

#[derive(Clone, Copy)]
pub struct StrideBlock {
    pub task_id: usize,
    pub priority: usize,
    pub stride: usize,
}

/// Pass `a` comes before pass `b`: the smaller one, unless they lie more
/// than half the range apart, in which case one has wrapped around.
pub open spec fn pass_before(a: usize, b: usize) -> bool {
    let diff: int = if a > b {
        a - b
    } else {
        b - a
    };
    if diff <= BIG_STRIDE / 2 {
        a < b
    } else {
        a > b
    }
}

/// The position a scan of `s[..n]` settles on: it keeps the first block
/// and moves to each later one whose pass comes before the one kept.
pub open spec fn scan_choice(s: Seq<StrideBlock>, n: int) -> int
    decreases n,
{
    if n <= 1 {
        0
    } else {
        let b = scan_choice(s, n - 1);
        if pass_before(s[n - 1].stride, s[b].stride) {
            n - 1
        } else {
            b
        }
    }
}

/// How far pass `x` lies past `base`, going round the wrap.
pub open spec fn offset(x: usize, base: usize) -> int {
    if x >= base {
        x - base
    } else {
        x - base + usize::MAX + 1
    }
}

/// Every pass in `s` lies in the half of the range that starts at `base`.
pub open spec fn within_arc(s: Seq<StrideBlock>, base: usize) -> bool {
    forall|i: int| 0 <= i < s.len() ==> offset(#[trigger] s[i].stride, base) <= BIG_STRIDE / 2
}

/// `k` is the first position in `s` of a pass that no pass comes before,
/// in the wrap-around order.
pub open spec fn first_least_pass(s: Seq<StrideBlock>, k: int) -> bool {
    &&& 0 <= k < s.len()
    &&& forall|j: int| 0 <= j < s.len() ==> !pass_before(#[trigger] s[j].stride, s[k].stride)
    &&& forall|j: int| 0 <= j < k ==> pass_before(s[k].stride, #[trigger] s[j].stride)
}

/// On passes within half the range of a base, `pass_before` is the order
/// of their distances past the base.
pub proof fn lemma_pass_before_in_arc(x: usize, y: usize, base: usize)
    requires
        offset(x, base) <= BIG_STRIDE / 2,
        offset(y, base) <= BIG_STRIDE / 2,
    ensures
        pass_before(x, y) == (offset(x, base) < offset(y, base)),
{
}

/// The scan keeps a position below `n`.
proof fn lemma_scan_choice_bound(s: Seq<StrideBlock>, n: int)
    requires
        1 <= n,
    ensures
        0 <= scan_choice(s, n) < n,
    decreases n,
{
    if n > 1 {
        lemma_scan_choice_bound(s, n - 1);
    }
}

/// When every pass lies within half the range of some base, the scan
/// settles on the first least pass in the wrap-around order.
pub proof fn lemma_scan_choice_least(s: Seq<StrideBlock>, base: usize, n: int)
    requires
        1 <= n <= s.len(),
        within_arc(s, base),
    ensures
        first_least_pass(s.take(n), scan_choice(s, n)),
    decreases n,
{
    lemma_scan_choice_bound(s, n);
    let c = scan_choice(s, n);
    let t = s.take(n);
    if n > 1 {
        lemma_scan_choice_least(s, base, n - 1);
        let b = scan_choice(s, n - 1);
        let t1 = s.take(n - 1);
        assert(t1[b] == s[b]);
        lemma_pass_before_in_arc(s[n - 1].stride, s[b].stride, base);
        assert forall|j: int| 0 <= j < n implies !pass_before(#[trigger] t[j].stride, t[c].stride) by {
            assert(t[j] == s[j]);
            assert(t[c] == s[c]);
            lemma_pass_before_in_arc(s[j].stride, s[c].stride, base);
            if j < n - 1 {
                assert(t1[j] == s[j]);
                assert(!pass_before(t1[j].stride, t1[b].stride));
                lemma_pass_before_in_arc(s[j].stride, s[b].stride, base);
            }
        }
        assert forall|j: int| 0 <= j < c implies pass_before(t[c].stride, #[trigger] t[j].stride) by {
            assert(t[j] == s[j]);
            assert(t[c] == s[c]);
            lemma_pass_before_in_arc(s[c].stride, s[j].stride, base);
            assert(t1[j] == s[j]);
            if c == b {
                assert(pass_before(t1[b].stride, t1[j].stride));
            } else {
                assert(!pass_before(t1[j].stride, t1[b].stride));
                lemma_pass_before_in_arc(s[j].stride, s[b].stride, base);
            }
        }
    } else {
        assert(c == 0);
        assert forall|j: int| 0 <= j < n implies !pass_before(#[trigger] t[j].stride, t[c].stride) by {
            assert(j == 0);
        }
    }
}

impl StrideBlock {
    /// Whether this block's pass comes before `other`'s: the smaller pass,
    /// unless the two lie more than half the range apart, when the larger
    /// one (the other has wrapped round) comes first.
    pub fn runs_before(&self, other: &Self) -> (r: bool)
        ensures
            r == pass_before(self.stride, other.stride),
    {
        let a = self.stride;
        let b = other.stride;
        let diff = if a > b {
            a - b
        } else {
            b - a
        };
        if diff <= BIG_STRIDE / 2 {
            a < b
        } else {
            a > b
        }
    }
}

/// The block of a task that was added for the first time.
pub open spec fn fresh_block(id: usize) -> StrideBlock {
    StrideBlock { task_id: id, priority: 16, stride: 0 }
}

pub struct StrideManager<T> {
    tasks: BTreeMap<usize, T>,
    info_map: BTreeMap<usize, StrideBlock>,
    heap: Vec<StrideBlock>,
    current: Option<usize>,
}

impl<T> StrideManager<T> {
    /// The task table.
    pub closed spec fn table(&self) -> Map<usize, T> {
        self.tasks@
    }

    pub closed spec fn blocks(&self) -> Map<usize, StrideBlock> {
        self.info_map@
    }

    /// The ready queue in the order of arrival.
    pub closed spec fn queue(&self) -> Seq<StrideBlock> {
        self.heap@
    }

    pub closed spec fn running(&self) -> Option<usize> {
        self.current
    }

    pub fn new() -> (r: Self)
        ensures
            r.inv(),
            r.tasks() == Map::<usize, T>::empty(),
            r.blocks() == Map::<usize, StrideBlock>::empty(),
            r.queue() == Seq::<StrideBlock>::empty(),
            r.running() is None,
    {
        StrideManager {
            tasks: BTreeMap::new(),
            info_map: BTreeMap::new(),
            heap: Vec::new(),
            current: None,
        }
    }

    /// Position that a scan keeping the block whose pass comes first
    /// settles on.
    fn best_index(&self) -> (k: usize)
        requires
            self.heap@.len() > 0,
        ensures
            k == scan_choice(self.heap@, self.heap@.len() as int),
    {
        let mut best: usize = 0;
        let mut i: usize = 1;
        while i < self.heap.len()
            invariant
                1 <= i <= self.heap@.len(),
                best < i,
                best == scan_choice(self.heap@, i as int),
            decreases self.heap@.len() - i,
        {
            if self.heap[i].runs_before(&self.heap[best]) {
                best = i;
            }
            i = i + 1;
        }
        best
    }

    pub open spec fn same_except_tasks(&self, other: &Self) -> bool {
        &&& other.blocks() == self.blocks()
        &&& other.queue() == self.queue()
        &&& other.running() == self.running()
    }
}

impl<T> Schedule for StrideManager<T> {
    type Args = ExecArgs;

    /// Every block is filed under its own task's id.
    closed spec fn inv(&self) -> bool {
        forall|k: usize| #[trigger] self.info_map@.contains_key(k) ==> self.info_map@[k].task_id == k
    }

    open spec fn add_ok(&self, id: usize) -> bool {
        true
    }

    open spec fn added(&self, id: usize, next: &Self) -> bool {
        let b = if self.blocks().contains_key(id) {
            self.blocks()[id]
        } else {
            fresh_block(id)
        };
        &&& next.blocks() == if self.blocks().contains_key(id) {
            self.blocks()
        } else {
            self.blocks().insert(id, b)
        }
        &&& next.queue() == self.queue().push(b)
        &&& next.table() == self.table()
        &&& next.running() == self.running()
    }

    open spec fn fetch_ok(&self, now: usize) -> bool {
        true
    }

    open spec fn fetched(&self, now: usize, next: &Self, r: Option<usize>) -> bool {
        &&& next.table() == self.table()
        &&& next.blocks() == self.blocks()
        &&& next.running() == self.running()
        &&& if self.queue().len() == 0 {
            r is None && next.queue() == self.queue()
        } else {
            let k = scan_choice(self.queue(), self.queue().len() as int);
            &&& r == Some(self.queue()[k].task_id)
            &&& next.queue() == self.queue().remove(k)
            &&& forall|base: usize| #[trigger] within_arc(self.queue(), base) ==> first_least_pass(self.queue(), k)
        }
    }

    /// The task must be known to the policy.
    open spec fn exec_ok(&self, id: usize, args: ExecArgs) -> bool {
        self.blocks().contains_key(id)
    }

    open spec fn execed(&self, id: usize, args: ExecArgs, next: &Self) -> bool {
        &&& next.blocks() == self.blocks().insert(
            id,
            StrideBlock { priority: args.priority, ..self.blocks()[id] },
        )
        &&& next.queue() == self.queue()
        &&& next.table() == self.table()
        &&& next.running() == self.running()
    }

    /// The parent must be known to the policy.
    open spec fn fork_ok(&self, parent_id: usize, child_id: usize) -> bool {
        self.blocks().contains_key(parent_id)
    }

    open spec fn forked(&self, parent_id: usize, child_id: usize, next: &Self) -> bool {
        &&& next.blocks() == self.blocks().insert(
            child_id,
            StrideBlock { task_id: child_id, ..self.blocks()[parent_id] },
        )
        &&& next.queue() == self.queue()
        &&& next.table() == self.table()
        &&& next.running() == self.running()
    }

    /// No task may be running.
    open spec fn sched_to_ok(&self, id: usize, time: usize) -> bool {
        self.running() is None
    }

    open spec fn scheduled(&self, id: usize, time: usize, next: &Self) -> bool {
        &&& next.running() == Some(id)
        &&& next.blocks() == self.blocks()
        &&& next.queue() == self.queue()
        &&& next.table() == self.table()
    }

    /// `id` must be the running task, known, with a positive priority.
    open spec fn suspend_ok(&self, id: usize, time: usize) -> bool {
        &&& self.running() == Some(id)
        &&& self.blocks().contains_key(id)
        &&& self.blocks()[id].priority > 0
    }

    open spec fn suspended(&self, id: usize, time: usize, next: &Self) -> bool {
        let b = self.blocks()[id];
        &&& next.running() is None
        &&& next.blocks() == self.blocks().insert(
            id,
            StrideBlock { stride: b.stride.wrapping_add(BIG_STRIDE / b.priority), ..b },
        )
        &&& next.queue() == self.queue()
        &&& next.table() == self.table()
    }

    open spec fn slept(&self, id: usize, next: &Self) -> bool {
        *next == *self
    }

    fn add(&mut self, id: usize) {
        let block = match self.info_map.get(&id) {
            None => {
                let tmp = StrideBlock { task_id: id, priority: 16, stride: 0 };
                self.info_map.insert(id, tmp);
                tmp
            },
            Some(t) => *t,
        };
        self.heap.push(block);
    }

    fn fetch(&mut self, now: usize) -> (r: Option<usize>) {
        if self.heap.len() == 0 {
            None
        } else {
            let k = self.best_index();
            proof {
                lemma_scan_choice_bound(self.heap@, self.heap@.len() as int);
                assert forall|base: usize| #[trigger] within_arc(self.heap@, base) implies first_least_pass(
                    self.heap@,
                    k as int,
                ) by {
                    lemma_scan_choice_least(self.heap@, base, self.heap@.len() as int);
                    assert(self.heap@.take(self.heap@.len() as int) =~= self.heap@);
                }
            }
            let tb = self.heap.remove(k);
            Some(tb.task_id)
        }
    }

    fn update_exec(&mut self, id: usize, args: &ExecArgs) {
        match map_get_mut(&mut self.info_map, id) {
            Some(block) => {
                block.priority = args.priority;
            },
            None => {},
        }
    }

    fn update_fork(&mut self, parent_id: usize, child_id: usize) {
        match self.info_map.get(&parent_id) {
            Some(block) => {
                let child = StrideBlock { task_id: child_id, ..*block };
                self.info_map.insert(child_id, child);
            },
            None => {},
        }
    }

    fn update_sched_to(&mut self, id: usize, time: usize) {
        self.current = Some(id);
    }

    fn update_suspend(&mut self, id: usize, time: usize) {
        self.current = None;
        match map_get_mut(&mut self.info_map, id) {
            Some(block) => {
                block.stride = block.stride.wrapping_add(BIG_STRIDE / block.priority);
            },
            None => {},
        }
    }

    fn update_sleep(&mut self, id: usize) {
    }
}

impl<T> Manage<T> for StrideManager<T> {
    open spec fn tasks(&self) -> Map<usize, T> {
        self.table()
    }

    open spec fn same_sched(&self, other: &Self) -> bool {
        self.same_except_tasks(other)
    }

    open spec fn delete_ok(&self, id: usize) -> bool {
        true
    }

    open spec fn deleted(&self, id: usize, next: &Self) -> bool {
        &&& next.blocks() == self.blocks().remove(id)
        &&& next.queue() == self.queue()
        &&& next.running() == if self.running() == Some(id) {
            None
        } else {
            self.running()
        }
    }

    fn insert(&mut self, id: usize, task: T) {
        self.tasks.insert(id, task);
    }

    fn get_mut(&mut self, id: usize) -> (r: Option<&mut T>) {
        map_get_mut(&mut self.tasks, id)
    }

    fn delete(&mut self, id: usize) {
        self.tasks.remove(&id);
        self.info_map.remove(&id);
        if let Some(cur_id) = self.current {
            if cur_id == id {
                self.current = None;
            }
        }
    }
}

/// A task added to an empty ready queue is the one `fetch` hands out
/// next, and the queue is empty again.
pub proof fn law_lone_task_runs<T>(a: StrideManager<T>, b: StrideManager<T>, c: StrideManager<T>, id: usize, now: usize, r: Option<usize>)
    requires
        a.inv(),
        a.queue().len() == 0,
        a.added(id, &b),
        b.fetched(now, &c, r),
    ensures
        r == Some(id),
        c.queue().len() == 0,
{
    assert(scan_choice(b.queue(), 1) == 0);
    assert(b.queue()[0].task_id == id);
}

/// Stride: whenever all passes lie within half the range of one another
/// going round the wrap, `fetch` hands out the first task with the least
/// pass in that wrap-around order.
pub proof fn law_least_pass_runs<T>(a: StrideManager<T>, b: StrideManager<T>, now: usize, r: Option<usize>, base: usize)
    requires
        a.fetched(now, &b, r),
        a.queue().len() > 0,
        within_arc(a.queue(), base),
    ensures
        exists|k: int| first_least_pass(a.queue(), k) && r == Some(a.queue()[k].task_id),
{
    let k = scan_choice(a.queue(), a.queue().len() as int);
    assert(first_least_pass(a.queue(), k));
}

/// Each run advances the running task's pass by `BIG_STRIDE / priority`,
/// counted round past `usize::MAX` (modulo 2^64 on a 64-bit machine): the
/// new pass is the old one plus that step, less `usize::MAX + 1` where the
/// sum passes `usize::MAX`; the task keeps its id and priority, the other
/// tasks' blocks stay as they were, and nothing runs after.
pub proof fn law_suspend_advances_pass<T>(a: StrideManager<T>, b: StrideManager<T>, id: usize, time: usize)
    requires
        a.suspend_ok(id, time),
        a.suspended(id, time, &b),
    ensures
        b.blocks().contains_key(id),
        b.blocks()[id].stride as int == (a.blocks()[id].stride as int + usize::MAX as int / a.blocks()[id].priority as int)
            % (usize::MAX as int + 1),
        b.blocks()[id].priority == a.blocks()[id].priority,
        b.blocks()[id].task_id == a.blocks()[id].task_id,
        b.blocks().dom() == a.blocks().dom(),
        forall|k: usize| #[trigger] a.blocks().contains_key(k) && k != id ==> b.blocks()[k] == a.blocks()[k],
        b.running() is None,
        b.queue() == a.queue(),
{
    let blk = a.blocks()[id];
    let step: int = usize::MAX as int / blk.priority as int;
    assert(0 <= step <= usize::MAX) by (nonlinear_arith)
        requires
            blk.priority > 0,
            step == usize::MAX as int / blk.priority as int,
    ;
    assert(BIG_STRIDE / blk.priority == step);
    let sum: int = blk.stride as int + step;
    if sum > usize::MAX {
        assert(sum % (usize::MAX as int + 1) == sum - (usize::MAX as int + 1)) by (nonlinear_arith)
            requires
                usize::MAX < sum,
                sum <= 2 * usize::MAX,
        ;
    } else {
        assert(sum % (usize::MAX as int + 1) == sum) by (nonlinear_arith)
            requires
                0 <= sum <= usize::MAX,
        ;
    }
    assert(b.blocks().dom() =~= a.blocks().dom());
}

/// Over any run of `k` slices, each ended by `update_suspend`, a task's
/// pass moves on by `k` steps of `BIG_STRIDE / priority`, modulo
/// `usize::MAX + 1`: a task that ran more has moved further.
pub proof fn law_runs_advance_pass<T>(ms: Seq<StrideManager<T>>, id: usize, times: Seq<usize>)
    requires
        ms.len() == times.len() + 1,
        ms[0].blocks().contains_key(id),
        ms[0].blocks()[id].priority > 0,
        forall|i: int|
            0 <= i < times.len() ==> #[trigger] ms[i].suspend_ok(id, times[i]) && ms[i].suspended(id, times[i], &ms[i + 1]),
    ensures
        ms.last().blocks().contains_key(id),
        ms.last().blocks()[id].priority == ms[0].blocks()[id].priority,
        ms.last().blocks()[id].stride as int == (ms[0].blocks()[id].stride as int + times.len() * (usize::MAX as int
            / ms[0].blocks()[id].priority as int)) % (usize::MAX as int + 1),
    decreases times.len(),
{
    let m: int = usize::MAX as int + 1;
    let step: int = usize::MAX as int / ms[0].blocks()[id].priority as int;
    if times.len() == 0 {
        assert(ms[0].blocks()[id].stride as int % m == ms[0].blocks()[id].stride as int) by (nonlinear_arith)
            requires
                0 <= ms[0].blocks()[id].stride as int <= usize::MAX,
                m == usize::MAX as int + 1,
        ;
    } else {
        let n = times.len() - 1;
        let pm = ms.drop_last();
        let pt = times.drop_last();
        assert forall|i: int| 0 <= i < pt.len() implies #[trigger] pm[i].suspend_ok(id, pt[i]) && pm[i].suspended(
            id,
            pt[i],
            &pm[i + 1],
        ) by {
            assert(ms[i].suspend_ok(id, times[i]) && ms[i].suspended(id, times[i], &ms[i + 1]));
            assert(pm[i] == ms[i] && pm[i + 1] == ms[i + 1] && pt[i] == times[i]);
        }
        law_runs_advance_pass(pm, id, pt);
        assert(pm.last() == ms[n] && pm[0] == ms[0]);
        assert(ms[n].suspend_ok(id, times[n]) && ms[n].suspended(id, times[n], &ms[n + 1]));
        law_suspend_advances_pass(ms[n], ms[n + 1], id, times[n]);
        assert(ms.last() == ms[n + 1]);
        let p0: int = ms[0].blocks()[id].stride as int;
        let pn: int = ms[n].blocks()[id].stride as int;
        assert(pn == (p0 + n * step) % m);
        assert(step % m == step) by (nonlinear_arith)
            requires
                0 <= step <= usize::MAX,
                m == usize::MAX as int + 1,
        ;
        assert((p0 + n * step) + step == p0 + (n + 1) * step) by (nonlinear_arith);
        vstd::arithmetic::div_mod::lemma_add_mod_noop(p0 + n * step, step, m);
        assert(((p0 + n * step) % m + step) % m == (p0 + (n + 1) * step) % m);
    }
}

} // verus!
