//! Shortest job first: the ready task with the least predicted running
//! time runs first; each program's running times are recorded to predict
//! the next run.
use std::collections::BTreeMap;
use vstd::prelude::*;
use crate::common::map_get_mut;
use crate::record::{
    base_record, fed, lemma_fresh_record_fed, feed_factor, feed_history, lookup_factor, lookup_history, recorded_or,
    FactorRecord, FactorRecordMap, HistoryRecord, HistoryRecordMap, Record, RecordMap,
};
use crate::sched::{Manage, Schedule};

verus! {

/// What `exec` passes: the program's number and its announced running time.
#[derive(Clone, Copy)]
pub struct ExecArgs {
    pub proc: usize,
    pub time: usize,
}

/// A queued task and the time it was queued with.
pub struct SJFTaskBlock {
    pub task_id: usize,
    pub time: usize,
}

/// `k` is the first position of a least time in `s`.
pub open spec fn first_least(s: Seq<SJFTaskBlock>, k: int) -> bool {
    &&& 0 <= k < s.len()
    &&& forall|j: int| 0 <= j < s.len() ==> s[k].time <= #[trigger] s[j].time
    &&& forall|j: int| 0 <= j < k ==> s[k].time < #[trigger] s[j].time
}

/// The time a task is queued with when nothing is known of it.
pub open spec fn unknown_time() -> usize {
    isize::MAX as usize
}

pub struct SJFManager<T> {
    tasks: BTreeMap<usize, T>,
    task_name: BTreeMap<usize, usize>,
    time_map: BTreeMap<usize, usize>,
    start_time: usize,
    heap: Vec<SJFTaskBlock>,
    running_time: BTreeMap<usize, usize>,
    history_record: HistoryRecordMap<HistoryRecord>,
    factor_record: FactorRecordMap<FactorRecord>,
    record_type: bool,
}

impl<T> SJFManager<T> {
    /// The task table.
    pub closed spec fn table(&self) -> Map<usize, T> {
        self.tasks@
    }

    /// Program number of each task that exec'd one.
    pub closed spec fn names(&self) -> Map<usize, usize> {
        self.task_name@
    }

    /// Predicted running time of each known task.
    pub closed spec fn times(&self) -> Map<usize, usize> {
        self.time_map@
    }

    /// The ready queue in the order of arrival.
    pub closed spec fn queue(&self) -> Seq<SJFTaskBlock> {
        self.heap@
    }

    /// Time accumulated by each task over its runs.
    pub closed spec fn run_times(&self) -> Map<usize, usize> {
        self.running_time@
    }

    pub closed spec fn started(&self) -> usize {
        self.start_time
    }

    pub closed spec fn history(&self) -> Map<usize, HistoryRecord> {
        self.history_record.records()
    }

    pub closed spec fn factors(&self) -> Map<usize, FactorRecord> {
        self.factor_record.records()
    }

    /// Whether exponential averaging is used in place of plain averaging.
    pub closed spec fn uses_factor(&self) -> bool {
        self.record_type
    }

    pub fn new() -> (r: Self)
        ensures
            r.inv(),
            r.tasks() == Map::<usize, T>::empty(),
            r.names() == Map::<usize, usize>::empty(),
            r.times() == Map::<usize, usize>::empty(),
            r.queue() == Seq::<SJFTaskBlock>::empty(),
            r.run_times() == Map::<usize, usize>::empty(),
            r.started() == 0,
            r.history() == Map::<usize, HistoryRecord>::empty(),
            r.factors() == Map::<usize, FactorRecord>::empty(),
            !r.uses_factor(),
    {
        SJFManager {
            tasks: BTreeMap::new(),
            task_name: BTreeMap::new(),
            time_map: BTreeMap::new(),
            start_time: 0,
            heap: Vec::new(),
            running_time: BTreeMap::new(),
            history_record: HistoryRecordMap::<HistoryRecord>::new(),
            factor_record: FactorRecordMap::<FactorRecord>::new(),
            record_type: false,
        }
    }

    /// Position of the first queued task with the least time.
    fn least_index(&self) -> (k: usize)
        requires
            self.heap@.len() > 0,
        ensures
            first_least(self.heap@, k as int),
    {
        let mut best: usize = 0;
        let mut i: usize = 1;
        while i < self.heap.len()
            invariant
                1 <= i <= self.heap@.len(),
                best < i,
                forall|j: int| 0 <= j < i ==> self.heap@[best as int].time <= #[trigger] self.heap@[j].time,
                forall|j: int| 0 <= j < best ==> self.heap@[best as int].time < #[trigger] self.heap@[j].time,
            decreases self.heap@.len() - i,
        {
            if self.heap[i].time < self.heap[best].time {
                best = i;
            }
            i = i + 1;
        }
        best
    }

    /// Everything but the task table is the same in `self` and `other`.
    pub open spec fn same_except_tasks(&self, other: &Self) -> bool {
        &&& other.names() == self.names()
        &&& other.times() == self.times()
        &&& other.started() == self.started()
        &&& other.queue() == self.queue()
        &&& other.run_times() == self.run_times()
        &&& other.history() == self.history()
        &&& other.factors() == self.factors()
        &&& other.uses_factor() == self.uses_factor()
    }
}

impl<T> Schedule for SJFManager<T> {
    type Args = ExecArgs;

    open spec fn inv(&self) -> bool {
        true
    }

    open spec fn add_ok(&self, id: usize) -> bool {
        true
    }

    open spec fn added(&self, id: usize, next: &Self) -> bool {
        let t = if self.times().contains_key(id) {
            self.times()[id]
        } else {
            unknown_time()
        };
        &&& next.queue() == self.queue().push(SJFTaskBlock { task_id: id, time: t })
        &&& next.times() == self.times().insert(id, t)
        &&& next.table() == self.table()
        &&& next.names() == self.names()
        &&& next.started() == self.started()
        &&& next.run_times() == self.run_times()
        &&& next.history() == self.history()
        &&& next.factors() == self.factors()
        &&& next.uses_factor() == self.uses_factor()
    }

    open spec fn fetch_ok(&self, now: usize) -> bool {
        true
    }

    open spec fn fetched(&self, now: usize, next: &Self, r: Option<usize>) -> bool {
        &&& next.table() == self.table()
        &&& next.names() == self.names()
        &&& next.times() == self.times()
        &&& next.started() == self.started()
        &&& next.run_times() == self.run_times()
        &&& next.history() == self.history()
        &&& next.factors() == self.factors()
        &&& next.uses_factor() == self.uses_factor()
        &&& if self.queue().len() == 0 {
            r is None && next.queue() == self.queue()
        } else {
            exists|k: int|
                first_least(self.queue(), k) && r == Some(self.queue()[k].task_id) && next.queue()
                    == self.queue().remove(k)
        }
    }

    open spec fn exec_ok(&self, id: usize, args: ExecArgs) -> bool {
        true
    }

    open spec fn execed(&self, id: usize, args: ExecArgs, next: &Self) -> bool {
        let t = if self.uses_factor() {
            recorded_or(self.factors(), args.proc, args.time)
        } else {
            recorded_or(self.history(), args.proc, args.time)
        };
        &&& next.times() == self.times().insert(id, t)
        &&& next.names() == self.names().insert(id, args.proc)
        &&& next.table() == self.table()
        &&& next.started() == self.started()
        &&& next.queue() == self.queue()
        &&& next.run_times() == self.run_times()
        &&& next.history() == self.history()
        &&& next.factors() == self.factors()
        &&& next.uses_factor() == self.uses_factor()
    }

    open spec fn fork_ok(&self, parent_id: usize, child_id: usize) -> bool {
        true
    }

    open spec fn forked(&self, parent_id: usize, child_id: usize, next: &Self) -> bool {
        let t = if self.times().contains_key(parent_id) {
            self.times()[parent_id]
        } else {
            unknown_time()
        };
        &&& next.times() == self.times().insert(child_id, t)
        &&& next.names() == if self.names().contains_key(parent_id) {
            self.names().insert(child_id, self.names()[parent_id])
        } else {
            self.names()
        }
        &&& next.table() == self.table()
        &&& next.started() == self.started()
        &&& next.queue() == self.queue()
        &&& next.run_times() == self.run_times()
        &&& next.history() == self.history()
        &&& next.factors() == self.factors()
        &&& next.uses_factor() == self.uses_factor()
    }

    open spec fn sched_to_ok(&self, id: usize, time: usize) -> bool {
        true
    }

    open spec fn scheduled(&self, id: usize, time: usize, next: &Self) -> bool {
        &&& next.started() == time
        &&& next.table() == self.table()
        &&& next.names() == self.names()
        &&& next.times() == self.times()
        &&& next.queue() == self.queue()
        &&& next.run_times() == self.run_times()
        &&& next.history() == self.history()
        &&& next.factors() == self.factors()
        &&& next.uses_factor() == self.uses_factor()
    }

    /// The run that ends must not end before it started, and the total
    /// must fit in a `usize`.
    open spec fn suspend_ok(&self, id: usize, time: usize) -> bool {
        let cur = if self.run_times().contains_key(id) {
            self.run_times()[id]
        } else {
            0
        };
        &&& self.started() <= time
        &&& cur + (time - self.started()) <= usize::MAX
    }

    open spec fn suspended(&self, id: usize, time: usize, next: &Self) -> bool {
        let cur = if self.run_times().contains_key(id) {
            self.run_times()[id]
        } else {
            0
        };
        &&& next.run_times() == self.run_times().insert(
            id,
            (cur + (time - self.started())) as usize,
        )
        &&& next.table() == self.table()
        &&& next.names() == self.names()
        &&& next.times() == self.times()
        &&& next.started() == self.started()
        &&& next.queue() == self.queue()
        &&& next.history() == self.history()
        &&& next.factors() == self.factors()
        &&& next.uses_factor() == self.uses_factor()
    }

    open spec fn slept(&self, id: usize, next: &Self) -> bool {
        *next == *self
    }

    fn add(&mut self, id: usize) {
        let time_ = match self.time_map.get(&id) {
            None => isize::MAX as usize,
            Some(t) => *t,
        };
        self.heap.push(SJFTaskBlock { task_id: id, time: time_ });
        self.time_map.insert(id, time_);
    }

    fn fetch(&mut self, now: usize) -> (r: Option<usize>) {
        if self.heap.len() == 0 {
            None
        } else {
            let k = self.least_index();
            let tb = self.heap.remove(k);
            Some(tb.task_id)
        }
    }

    fn update_exec(&mut self, id: usize, args: &ExecArgs) {
        if self.record_type {
            let t = lookup_factor(&mut self.factor_record, args.proc, args.time);
            self.time_map.insert(id, t);
            self.task_name.insert(id, args.proc);
        } else {
            let t = lookup_history(&mut self.history_record, args.proc, args.time);
            self.time_map.insert(id, t);
            self.task_name.insert(id, args.proc);
        }
    }

    fn update_fork(&mut self, parent_id: usize, child_id: usize) {
        let time_ = match self.time_map.get(&parent_id) {
            None => isize::MAX as usize,
            Some(t) => *t,
        };
        match self.task_name.get(&parent_id) {
            Some(t) => {
                let name = *t;
                self.task_name.insert(child_id, name);
            },
            None => {},
        }
        self.time_map.insert(child_id, time_);
    }

    fn update_sched_to(&mut self, id: usize, time: usize) {
        self.start_time = time;
    }

    fn update_suspend(&mut self, id: usize, time: usize) {
        let run_time = time - self.start_time;
        let cur_time = match self.running_time.get(&id) {
            None => 0,
            Some(t) => *t,
        };
        let total = cur_time + run_time;
        self.running_time.insert(id, total);
    }

    fn update_sleep(&mut self, id: usize) {
    }
}

impl<T> Manage<T> for SJFManager<T> {
    open spec fn tasks(&self) -> Map<usize, T> {
        self.table()
    }

    open spec fn same_sched(&self, other: &Self) -> bool {
        self.same_except_tasks(other)
    }

    /// Feeding the finished task's running time into its program's record
    /// must not overflow.
    open spec fn delete_ok(&self, id: usize) -> bool {
        (self.names().contains_key(id) && self.run_times().contains_key(id)) ==> {
            let name = self.names()[id];
            let t = self.run_times()[id];
            if self.uses_factor() {
                base_record(self.factors(), name, FactorRecord::spec_new()).spec_update_ok(t)
            } else {
                base_record(self.history(), name, HistoryRecord::spec_new()).spec_update_ok(t)
            }
        }
    }

    open spec fn deleted(&self, id: usize, next: &Self) -> bool {
        &&& next.times() == self.times().remove(id)
        &&& next.started() == self.started()
        &&& next.queue() == self.queue()
        &&& next.uses_factor() == self.uses_factor()
        &&& if self.names().contains_key(id) && self.run_times().contains_key(id) {
            let name = self.names()[id];
            let t = self.run_times()[id];
            &&& next.names() == self.names().remove(id)
            &&& next.run_times() == self.run_times().remove(id)
            &&& if self.uses_factor() {
                &&& next.factors() == fed(
                    self.factors(),
                    name,
                    t,
                    FactorRecord::spec_new(),
                )
                &&& next.history() == self.history()
            } else {
                &&& next.history() == fed(
                    self.history(),
                    name,
                    t,
                    HistoryRecord::spec_new(),
                )
                &&& next.factors() == self.factors()
            }
        } else {
            &&& next.names() == self.names()
            &&& next.run_times() == self.run_times()
            &&& next.history() == self.history()
            &&& next.factors() == self.factors()
        }
    }

    fn insert(&mut self, id: usize, task: T) {
        self.tasks.insert(id, task);
    }

    fn get_mut(&mut self, id: usize) -> (r: Option<&mut T>) {
        map_get_mut(&mut self.tasks, id)
    }

    fn delete(&mut self, id: usize) {
        self.tasks.remove(&id);
        self.time_map.remove(&id);
        let task_name = self.task_name.get(&id);
        match task_name {
            None => {},
            Some(task_name) => {
                let name = *task_name;
                match self.running_time.get(&id) {
                    None => {
                        return ;
                    },
                    Some(t) => {
                        let run_time = *t;
                        self.running_time.remove(&id);
                        if self.record_type {
                            feed_factor(&mut self.factor_record, name, run_time);
                        } else {
                            feed_history(&mut self.history_record, name, run_time);
                        }
                    },
                }
                self.task_name.remove(&id);
            },
        }
    }
}

/// A task added to an empty ready queue is the one `fetch` hands out
/// next, and the queue is empty again.
pub proof fn law_lone_task_runs<T>(a: SJFManager<T>, b: SJFManager<T>, c: SJFManager<T>, id: usize, now: usize, r: Option<usize>)
    requires
        a.queue().len() == 0,
        a.added(id, &b),
        b.fetched(now, &c, r),
    ensures
        r == Some(id),
        c.queue().len() == 0,
{
    let k = choose|k: int| first_least(b.queue(), k) && r == Some(b.queue()[k].task_id) && c.queue() == b.queue().remove(k);
    assert(k == 0);
}

/// The task `fetch` hands out has the least predicted time of the queue.
pub proof fn law_shortest_first<T>(a: SJFManager<T>, b: SJFManager<T>, now: usize, r: Option<usize>)
    requires
        a.fetched(now, &b, r),
        a.queue().len() > 0,
    ensures
        exists|k: int|
            0 <= k < a.queue().len() && r == Some(a.queue()[k].task_id) && forall|j: int|
                0 <= j < a.queue().len() ==> a.queue()[k].time <= #[trigger] a.queue()[j].time,
{
}

/// The total length of the run slices `ss`, each a (start, end) pair.
pub open spec fn slices_total(ss: Seq<(usize, usize)>) -> int
    decreases ss.len(),
{
    if ss.len() == 0 {
        0
    } else {
        slices_total(ss.drop_last()) + (ss.last().1 - ss.last().0)
    }
}

/// One run slice of task `id`: `update_sched_to(id, s.0)` takes `a` to
/// `b`, then `update_suspend(id, s.1)` takes `b` to `c`.
pub open spec fn ran_slice<T>(a: SJFManager<T>, b: SJFManager<T>, c: SJFManager<T>, id: usize, s: (usize, usize)) -> bool {
    &&& a.scheduled(id, s.0, &b)
    &&& b.suspend_ok(id, s.1)
    &&& b.suspended(id, s.1, &c)
}

/// Over any number of run slices a task accumulates their total length;
/// nothing else the records depend on changes.
pub proof fn lemma_run_slices<T>(ms: Seq<SJFManager<T>>, mids: Seq<SJFManager<T>>, ss: Seq<(usize, usize)>, id: usize)
    requires
        ms.len() == ss.len() + 1,
        mids.len() == ss.len(),
        forall|i: int| 0 <= i < ss.len() ==> #[trigger] ran_slice(ms[i], mids[i], ms[i + 1], id, ss[i]),
    ensures
        ss.len() > 0 ==> ms.last().run_times().contains_key(id),
        ss.len() > 0 ==> ms.last().run_times()[id] == (if ms[0].run_times().contains_key(id) {
            ms[0].run_times()[id] as int
        } else {
            0
        }) + slices_total(ss),
        ms.last().names() == ms[0].names(),
        ms.last().history() == ms[0].history(),
        ms.last().factors() == ms[0].factors(),
        ms.last().uses_factor() == ms[0].uses_factor(),
        ms.last().times() == ms[0].times(),
        ms.last().queue() == ms[0].queue(),
    decreases ss.len(),
{
    if ss.len() > 0 {
        let n = ss.len() - 1;
        let pm = ms.drop_last();
        let pd = mids.drop_last();
        let ps = ss.drop_last();
        assert forall|i: int| 0 <= i < ps.len() implies #[trigger] ran_slice(pm[i], pd[i], pm[i + 1], id, ps[i]) by {
            assert(ran_slice(ms[i], mids[i], ms[i + 1], id, ss[i]));
            assert(pm[i] == ms[i] && pd[i] == mids[i] && pm[i + 1] == ms[i + 1] && ps[i] == ss[i]);
        }
        lemma_run_slices(pm, pd, ps, id);
        assert(ran_slice(ms[n], mids[n], ms[n + 1], id, ss[n]));
        assert(pm.last() == ms[n]);
        assert(ss.last() == ss[n]);
        assert(ms[n + 1] == ms.last());
        let cur: int = if ms[n].run_times().contains_key(id) {
            ms[n].run_times()[id] as int
        } else {
            0
        };
        assert(mids[n].started() == ss[n].0);
        assert(mids[n].run_times() == ms[n].run_times());
        assert(0 <= cur + (ss[n].1 - ss[n].0) <= usize::MAX);
        assert(ms.last().run_times()[id] == cur + (ss[n].1 - ss[n].0));
        assert(slices_total(ss) == slices_total(ps) + (ss[n].1 - ss[n].0));
    }
}

/// What the records predict after a task ran in several slices and was
/// deleted: its program `p`, with no record before, is predicted to run
/// the total of those slices, so a task that then execs `p` is queued with
/// that time, not the time it announced.
pub proof fn law_record_predicts_total<T>(
    ms: Seq<SJFManager<T>>,
    mids: Seq<SJFManager<T>>,
    ss: Seq<(usize, usize)>,
    id: usize,
    p: usize,
    b: SJFManager<T>,
    c: SJFManager<T>,
    d: SJFManager<T>,
    j: usize,
    y: usize,
)
    requires
        ms.len() == ss.len() + 1,
        mids.len() == ss.len(),
        forall|i: int| 0 <= i < ss.len() ==> #[trigger] ran_slice(ms[i], mids[i], ms[i + 1], id, ss[i]),
        ss.len() > 0,
        slices_total(ss) > 0,
        !ms[0].run_times().contains_key(id),
        ms[0].names().contains_key(id),
        ms[0].names()[id] == p,
        !ms[0].history().contains_key(p),
        !ms[0].factors().contains_key(p),
        ms.last().deleted(id, &b),
        b.execed(j, ExecArgs { proc: p, time: y }, &c),
        c.added(j, &d),
    ensures
        d.queue().last() == (SJFTaskBlock { task_id: j, time: slices_total(ss) as usize }),
{
    lemma_run_slices(ms, mids, ss, id);
    let t = ms.last().run_times()[id];
    assert(t == slices_total(ss));
    lemma_fresh_record_fed(t);
}

} // verus!
