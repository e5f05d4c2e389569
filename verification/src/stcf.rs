//! Shortest time to completion first: the ready task with the least time
//! left runs first; time left shrinks by each run, and each program's total
//! running time is recorded to predict the next run.
use std::collections::{BTreeMap, VecDeque};
use vstd::prelude::*;
use vstd::multiset::Multiset;
use crate::common::map_get_mut;
use crate::record::{
    base_record, fed, feed_factor, feed_history, find_factor, find_history, recorded, FactorRecord, FactorRecordMap, HistoryRecord,
    HistoryRecordMap, Record, RecordMap,
};
use crate::sched::{Manage, QueueStep, Schedule};

verus! {

/// What `exec` passes: the program's number and its announced running time.
#[derive(Clone, Copy)]
pub struct ExecArgs {
    pub proc: usize,
    pub total_time: isize,
}

/// A queued task with its total and remaining time.
pub struct STCFTaskBlock {
    pub task_id: usize,
    pub time_total: isize,
    pub time_left: isize,
}

/// `a` runs before `b`: less time left, or as much and a greater id.
pub open spec fn runs_before(a: STCFTaskBlock, b: STCFTaskBlock) -> bool {
    a.time_left < b.time_left || (a.time_left == b.time_left && a.task_id > b.task_id)
}

/// `k` is the first position in `s` of a block that nothing runs before.
pub open spec fn first_best(s: Seq<STCFTaskBlock>, k: int) -> bool {
    &&& 0 <= k < s.len()
    &&& forall|j: int| 0 <= j < s.len() ==> !runs_before(#[trigger] s[j], s[k])
    &&& forall|j: int| 0 <= j < k ==> runs_before(s[k], #[trigger] s[j])
}

/// The program's recorded time, or its announced one.
pub open spec fn exec_time(records_has: bool, recorded: usize, announced: isize) -> isize {
    if records_has {
        recorded as isize
    } else {
        announced
    }
}

pub struct STCFManager<T> {
    tasks: BTreeMap<usize, T>,
    time_map: BTreeMap<usize, (isize, isize)>,
    heap: Vec<STCFTaskBlock>,
    current: Option<(usize, usize)>,
    task_name: BTreeMap<usize, usize>,
    history_record: HistoryRecordMap<HistoryRecord>,
    factor_record: FactorRecordMap<FactorRecord>,
    record_type: bool,
}

impl<T> STCFManager<T> {
    /// The task table.
    pub closed spec fn table(&self) -> Map<usize, T> {
        self.tasks@
    }

    /// (total, left) time of each known task.
    pub closed spec fn times(&self) -> Map<usize, (isize, isize)> {
        self.time_map@
    }

    /// The ready queue in the order of arrival.
    pub closed spec fn queue(&self) -> Seq<STCFTaskBlock> {
        self.heap@
    }

    /// The running task and when it started.
    pub closed spec fn running(&self) -> Option<(usize, usize)> {
        self.current
    }

    pub closed spec fn names(&self) -> Map<usize, usize> {
        self.task_name@
    }

    pub closed spec fn history(&self) -> Map<usize, HistoryRecord> {
        self.history_record.records()
    }

    pub closed spec fn factors(&self) -> Map<usize, FactorRecord> {
        self.factor_record.records()
    }

    pub closed spec fn uses_factor(&self) -> bool {
        self.record_type
    }

    pub fn new() -> (r: Self)
        ensures
            r.inv(),
            r.tasks() == Map::<usize, T>::empty(),
            r.times() == Map::<usize, (isize, isize)>::empty(),
            r.queue() == Seq::<STCFTaskBlock>::empty(),
            r.running() is None,
            r.names() == Map::<usize, usize>::empty(),
            r.history() == Map::<usize, HistoryRecord>::empty(),
            r.factors() == Map::<usize, FactorRecord>::empty(),
            !r.uses_factor(),
    {
        STCFManager {
            tasks: BTreeMap::new(),
            time_map: BTreeMap::new(),
            heap: Vec::new(),
            current: None,
            task_name: BTreeMap::new(),
            history_record: HistoryRecordMap::<HistoryRecord>::new(),
            factor_record: FactorRecordMap::<FactorRecord>::new(),
            record_type: false,
        }
    }

    /// Takes `time_pass` off the time left of task `id`.
    fn update_left_time(&mut self, id: usize, time_pass: isize)
        requires
            old(self).time_map@.contains_key(id),
            old(self).time_map@[id].1 - time_pass >= isize::MIN,
            old(self).time_map@[id].1 - time_pass <= isize::MAX,
        ensures
            final(self).time_map@ == old(self).time_map@.insert(
                id,
                (old(self).time_map@[id].0, (old(self).time_map@[id].1 - time_pass) as isize),
            ),
            final(self).tasks@ == old(self).tasks@,
            final(self).heap@ == old(self).heap@,
            final(self).current == old(self).current,
            final(self).task_name@ == old(self).task_name@,
            final(self).history_record.records() == old(self).history_record.records(),
            final(self).factor_record.records() == old(self).factor_record.records(),
            final(self).record_type == old(self).record_type,
    {
        match self.time_map.get(&id) {
            None => {},
            Some(t) => {
                let (total_, old_time) = *t;
                let new_time = old_time - time_pass;
                self.time_map.insert(id, (total_, new_time));
            },
        }
    }

    /// (id, total, left) of each queued task, in the queue's order.
    pub fn get_list(&self) -> (r: VecDeque<(usize, isize, isize)>)
        ensures
            r@.len() == self.queue().len(),
            forall|i: int|
                0 <= i < r@.len() ==> #[trigger] r@[i] == (
                    self.queue()[i].task_id,
                    self.queue()[i].time_total,
                    self.queue()[i].time_left,
                ),
    {
        let mut ret: VecDeque<(usize, isize, isize)> = VecDeque::new();
        let mut i: usize = 0;
        while i < self.heap.len()
            invariant
                i <= self.heap@.len(),
                ret@.len() == i,
                forall|j: int|
                    0 <= j < i ==> #[trigger] ret@[j] == (
                        self.heap@[j].task_id,
                        self.heap@[j].time_total,
                        self.heap@[j].time_left,
                    ),
            decreases self.heap@.len() - i,
        {
            let block = &self.heap[i];
            ret.push_back((block.task_id, block.time_total, block.time_left));
            i = i + 1;
        }
        ret
    }

    /// Position of the first queued task that no other runs before.
    fn best_index(&self) -> (k: usize)
        requires
            self.heap@.len() > 0,
        ensures
            first_best(self.heap@, k as int),
    {
        let mut best: usize = 0;
        let mut i: usize = 1;
        while i < self.heap.len()
            invariant
                1 <= i <= self.heap@.len(),
                best < i,
                forall|j: int| 0 <= j < i ==> !runs_before(#[trigger] self.heap@[j], self.heap@[best as int]),
                forall|j: int| 0 <= j < best ==> runs_before(self.heap@[best as int], #[trigger] self.heap@[j]),
            decreases self.heap@.len() - i,
        {
            let a = &self.heap[i];
            let b = &self.heap[best];
            if a.time_left < b.time_left || (a.time_left == b.time_left && a.task_id > b.task_id) {
                best = i;
            }
            i = i + 1;
        }
        best
    }

    pub open spec fn same_except_tasks(&self, other: &Self) -> bool {
        &&& other.times() == self.times()
        &&& other.queue() == self.queue()
        &&& other.running() == self.running()
        &&& other.names() == self.names()
        &&& other.history() == self.history()
        &&& other.factors() == self.factors()
        &&& other.uses_factor() == self.uses_factor()
    }

    /// The same but for the time table.
    pub open spec fn same_but_times(&self, other: &Self) -> bool {
        &&& other.table() == self.table()
        &&& other.queue() == self.queue()
        &&& other.running() == self.running()
        &&& other.names() == self.names()
        &&& other.history() == self.history()
        &&& other.factors() == self.factors()
        &&& other.uses_factor() == self.uses_factor()
    }

    /// The time pair a task is queued or forked with.
    pub open spec fn pair_of(&self, id: usize) -> (isize, isize) {
        if self.times().contains_key(id) {
            self.times()[id]
        } else {
            (isize::MAX, isize::MAX)
        }
    }

    /// The recorded time of program `proc`, where it has a record.
    pub open spec fn record_of(&self, proc: usize) -> Option<usize> {
        if self.uses_factor() {
            recorded(self.factors(), proc)
        } else {
            recorded(self.history(), proc)
        }
    }
}

impl<T> Schedule for STCFManager<T> {
    type Args = ExecArgs;

    open spec fn inv(&self) -> bool {
        true
    }

    open spec fn add_ok(&self, id: usize) -> bool {
        true
    }

    open spec fn added(&self, id: usize, next: &Self) -> bool {
        let p = self.pair_of(id);
        &&& next.queue() == self.queue().push(STCFTaskBlock { task_id: id, time_total: p.0, time_left: p.1 })
        &&& next.times() == self.times().insert(id, p)
        &&& next.table() == self.table()
        &&& next.running() == self.running()
        &&& next.names() == self.names()
        &&& next.history() == self.history()
        &&& next.factors() == self.factors()
        &&& next.uses_factor() == self.uses_factor()
    }

    open spec fn fetch_ok(&self, now: usize) -> bool {
        true
    }

    open spec fn fetched(&self, now: usize, next: &Self, r: Option<usize>) -> bool {
        &&& next.table() == self.table()
        &&& next.times() == self.times()
        &&& next.running() == self.running()
        &&& next.names() == self.names()
        &&& next.history() == self.history()
        &&& next.factors() == self.factors()
        &&& next.uses_factor() == self.uses_factor()
        &&& if self.queue().len() == 0 {
            r is None && next.queue() == self.queue()
        } else {
            exists|k: int|
                first_best(self.queue(), k) && r == Some(self.queue()[k].task_id) && next.queue()
                    == self.queue().remove(k)
        }
    }

    /// A recorded time must fit in an `isize`.
    open spec fn exec_ok(&self, id: usize, args: ExecArgs) -> bool {
        match self.record_of(args.proc) {
            Some(t) => t <= isize::MAX,
            None => true,
        }
    }

    open spec fn execed(&self, id: usize, args: ExecArgs, next: &Self) -> bool {
        let t = match self.record_of(args.proc) {
            Some(t) => t as isize,
            None => args.total_time,
        };
        &&& next.times() == self.times().insert(id, (t, t))
        &&& next.names() == self.names().insert(id, args.proc)
        &&& next.table() == self.table()
        &&& next.queue() == self.queue()
        &&& next.running() == self.running()
        &&& next.history() == self.history()
        &&& next.factors() == self.factors()
        &&& next.uses_factor() == self.uses_factor()
    }

    open spec fn fork_ok(&self, parent_id: usize, child_id: usize) -> bool {
        true
    }

    open spec fn forked(&self, parent_id: usize, child_id: usize, next: &Self) -> bool {
        &&& next.times() == self.times().insert(child_id, self.pair_of(parent_id))
        &&& next.names() == if self.names().contains_key(parent_id) {
            self.names().insert(child_id, self.names()[parent_id])
        } else {
            self.names()
        }
        &&& next.table() == self.table()
        &&& next.queue() == self.queue()
        &&& next.running() == self.running()
        &&& next.history() == self.history()
        &&& next.factors() == self.factors()
        &&& next.uses_factor() == self.uses_factor()
    }

    /// No task may be running.
    open spec fn sched_to_ok(&self, id: usize, time: usize) -> bool {
        self.running() is None
    }

    open spec fn scheduled(&self, id: usize, time: usize, next: &Self) -> bool {
        &&& next.running() == Some((id, time))
        &&& next.table() == self.table()
        &&& next.times() == self.times()
        &&& next.queue() == self.queue()
        &&& next.names() == self.names()
        &&& next.history() == self.history()
        &&& next.factors() == self.factors()
        &&& next.uses_factor() == self.uses_factor()
    }

    /// `id` must be the running task, known to the time table, stopped no
    /// earlier than it started, and its time left must not overflow.
    open spec fn suspend_ok(&self, id: usize, time: usize) -> bool {
        match self.running() {
            Some((cur, st)) => {
                &&& cur == id
                &&& st <= time
                &&& self.times().contains_key(id)
                &&& self.times()[id].1 - ((time - st) as isize) >= isize::MIN
                &&& self.times()[id].1 - ((time - st) as isize) <= isize::MAX
            },
            None => false,
        }
    }

    open spec fn suspended(&self, id: usize, time: usize, next: &Self) -> bool {
        let st = self.running().unwrap().1;
        let pass = ((time - st) as usize) as isize;
        &&& next.running() is None
        &&& next.times() == self.times().insert(
            id,
            (self.times()[id].0, (self.times()[id].1 - pass) as isize),
        )
        &&& next.table() == self.table()
        &&& next.queue() == self.queue()
        &&& next.names() == self.names()
        &&& next.history() == self.history()
        &&& next.factors() == self.factors()
        &&& next.uses_factor() == self.uses_factor()
    }

    open spec fn slept(&self, id: usize, next: &Self) -> bool {
        *next == *self
    }

    fn add(&mut self, id: usize) {
        let (total_, left_) = match self.time_map.get(&id) {
            None => (isize::MAX, isize::MAX),
            Some(t) => *t,
        };
        self.heap.push(STCFTaskBlock { task_id: id, time_total: total_, time_left: left_ });
        self.time_map.insert(id, (total_, left_));
    }

    fn fetch(&mut self, now: usize) -> (r: Option<usize>) {
        if self.heap.len() == 0 {
            None
        } else {
            let k = self.best_index();
            let tb = self.heap.remove(k);
            Some(tb.task_id)
        }
    }

    fn update_exec(&mut self, id: usize, args: &ExecArgs) {
        let record = if self.record_type {
            find_factor(&mut self.factor_record, args.proc)
        } else {
            find_history(&mut self.history_record, args.proc)
        };
        match record {
            None => {
                self.time_map.insert(id, (args.total_time, args.total_time));
            },
            Some(t) => {
                let t = t as isize;
                self.time_map.insert(id, (t, t));
            },
        }
        self.task_name.insert(id, args.proc);
    }

    fn update_fork(&mut self, parent_id: usize, child_id: usize) {
        let time_pair = match self.time_map.get(&parent_id) {
            None => (isize::MAX, isize::MAX),
            Some(t) => *t,
        };
        match self.task_name.get(&parent_id) {
            Some(t) => {
                let name = *t;
                self.task_name.insert(child_id, name);
            },
            None => {},
        }
        self.time_map.insert(child_id, time_pair);
    }

    fn update_sched_to(&mut self, id: usize, time: usize) {
        self.current = Some((id, time));
    }

    fn update_suspend(&mut self, id: usize, time: usize) {
        if let Some((_cur_id, st_time)) = self.current {
            self.current = None;
            let time_pass: usize = time - st_time;
            self.update_left_time(id, time_pass as isize);
        }
    }

    fn update_sleep(&mut self, id: usize) {
    }
}

impl<T> Manage<T> for STCFManager<T> {
    open spec fn tasks(&self) -> Map<usize, T> {
        self.table()
    }

    open spec fn same_sched(&self, other: &Self) -> bool {
        self.same_except_tasks(other)
    }

    /// For a task with a program number, its running time (total minus
    /// left, taken as 0 where the time table lacks it) must be computable,
    /// not negative, and feed its record without overflow.
    open spec fn delete_ok(&self, id: usize) -> bool {
        self.names().contains_key(id) ==> {
            let name = self.names()[id];
            let run: int = if self.times().contains_key(id) {
                self.times()[id].0 - self.times()[id].1
            } else {
                0
            };
            &&& 0 <= run <= isize::MAX
            &&& if self.uses_factor() {
                base_record(self.factors(), name, FactorRecord::spec_new()).spec_update_ok(
                    run as usize,
                )
            } else {
                base_record(self.history(), name, HistoryRecord::spec_new()).spec_update_ok(
                    run as usize,
                )
            }
        }
    }

    open spec fn deleted(&self, id: usize, next: &Self) -> bool {
        &&& next.times() == self.times().remove(id)
        &&& next.names() == self.names().remove(id)
        &&& next.queue() == self.queue()
        &&& next.uses_factor() == self.uses_factor()
        &&& next.running() == match self.running() {
            Some((cur, _)) => if cur == id {
                None
            } else {
                self.running()
            },
            None => None,
        }
        &&& if self.names().contains_key(id) {
            let name = self.names()[id];
            let run: int = if self.times().contains_key(id) {
                self.times()[id].0 - self.times()[id].1
            } else {
                0
            };
            if self.uses_factor() {
                &&& next.factors() == fed(
                    self.factors(),
                    name,
                    run as usize,
                    FactorRecord::spec_new(),
                )
                &&& next.history() == self.history()
            } else {
                &&& next.history() == fed(
                    self.history(),
                    name,
                    run as usize,
                    HistoryRecord::spec_new(),
                )
                &&& next.factors() == self.factors()
            }
        } else {
            &&& next.history() == self.history()
            &&& next.factors() == self.factors()
        }
    }

    fn insert(&mut self, id: usize, task: T) {
        self.tasks.insert(id, task);
    }

    fn get_mut(&mut self, id: usize) -> (r: Option<&mut T>) {
        map_get_mut(&mut self.tasks, id)
    }

    fn delete(&mut self, id: usize) {
        self.tasks.remove(&id);
        if let Some((cur_id, _)) = self.current {
            if cur_id == id {
                self.current = None;
            }
        }
        match self.task_name.get(&id) {
            None => {},
            Some(task_name) => {
                let name = *task_name;
                let running_time: isize = match self.time_map.get(&id) {
                    None => 0,
                    Some(t) => t.0 - t.1,
                };
                if self.record_type {
                    feed_factor(&mut self.factor_record, name, running_time as usize);
                } else {
                    feed_history(&mut self.history_record, name, running_time as usize);
                }
            },
        }
        self.task_name.remove(&id);
        self.time_map.remove(&id);
    }
}

/// A task added to an empty ready queue is the one `fetch` hands out
/// next, and the queue is empty again.
pub proof fn law_lone_task_runs<T>(a: STCFManager<T>, b: STCFManager<T>, c: STCFManager<T>, id: usize, now: usize, r: Option<usize>)
    requires
        a.queue().len() == 0,
        a.added(id, &b),
        b.fetched(now, &c, r),
    ensures
        r == Some(id),
        c.queue().len() == 0,
{
    let k = choose|k: int| first_best(b.queue(), k) && r == Some(b.queue()[k].task_id) && c.queue() == b.queue().remove(k);
    assert(k == 0);
}

/// Shortest time to completion first: the task `fetch` hands out has the
/// least time left of the queue.
pub proof fn law_least_time_left_first<T>(a: STCFManager<T>, b: STCFManager<T>, now: usize, r: Option<usize>)
    requires
        a.fetched(now, &b, r),
        a.queue().len() > 0,
    ensures
        exists|k: int|
            0 <= k < a.queue().len() && r == Some(a.queue()[k].task_id) && forall|j: int|
                0 <= j < a.queue().len() ==> a.queue()[k].time_left <= #[trigger] a.queue()[j].time_left,
{
    let k = choose|k: int|
        first_best(a.queue(), k) && r == Some(a.queue()[k].task_id) && b.queue() == a.queue().remove(k);
    assert forall|j: int| 0 <= j < a.queue().len() implies a.queue()[k].time_left <= #[trigger] a.queue()[j].time_left by {
        assert(!runs_before(a.queue()[j], a.queue()[k]));
    }
}

/// The block `add(id)` queues in the state `a`.
pub open spec fn added_block<T>(a: STCFManager<T>, id: usize) -> STCFTaskBlock {
    STCFTaskBlock { task_id: id, time_total: a.pair_of(id).0, time_left: a.pair_of(id).1 }
}

/// `a` goes to `b` by `step`; `r` is what a fetch answered (`None` for an
/// add).
pub open spec fn queue_step<T>(a: STCFManager<T>, step: QueueStep, b: STCFManager<T>, r: Option<usize>) -> bool {
    match step {
        QueueStep::Add(id) => a.added(id, &b) && r is None,
        QueueStep::Fetch(now) => a.fetched(now, &b, r),
    }
}

/// The block that `fetch` took out going from `a` to `b`.
pub open spec fn fetched_block<T>(a: STCFManager<T>, b: STCFManager<T>) -> STCFTaskBlock {
    choose|x: STCFTaskBlock|
        a.queue().to_multiset().count(x) > 0 && b.queue().to_multiset() == a.queue().to_multiset().remove(x)
}

/// The blocks the adds among the first `n` steps queued.
pub open spec fn run_added<T>(ms: Seq<STCFManager<T>>, steps: Seq<QueueStep>, n: int) -> Multiset<STCFTaskBlock>
    decreases n,
{
    if n <= 0 {
        Multiset::empty()
    } else {
        match steps[n - 1] {
            QueueStep::Add(id) => run_added(ms, steps, n - 1).insert(added_block(ms[n - 1], id)),
            QueueStep::Fetch(_) => run_added(ms, steps, n - 1),
        }
    }
}

/// The blocks the fetches among the first `n` steps handed out (those
/// that answered `Some`).
pub open spec fn run_fetched<T>(ms: Seq<STCFManager<T>>, rs: Seq<Option<usize>>, n: int) -> Multiset<STCFTaskBlock>
    decreases n,
{
    if n <= 0 {
        Multiset::empty()
    } else if rs[n - 1] is Some {
        run_fetched(ms, rs, n - 1).insert(fetched_block(ms[n - 1], ms[n]))
    } else {
        run_fetched(ms, rs, n - 1)
    }
}

/// The ready queue over any run of adds and fetches (`ms` the states
/// between the steps, `rs` what each step answered): the blocks queued at
/// the end (what `get_list` lists), together with those fetched, are those
/// queued at the start together with those added, each carrying the time
/// entry its task had when it was added, counted with repetition; and
/// each fetch that answered `Some(id)` took out a block of task `id`.
pub proof fn law_queue_run<T>(ms: Seq<STCFManager<T>>, steps: Seq<QueueStep>, rs: Seq<Option<usize>>)
    requires
        ms.len() == steps.len() + 1,
        rs.len() == steps.len(),
        forall|i: int| 0 <= i < steps.len() ==> #[trigger] queue_step(ms[i], steps[i], ms[i + 1], rs[i]),
    ensures
        ms.last().queue().to_multiset().add(run_fetched(ms, rs, steps.len() as int)) == ms[0].queue().to_multiset().add(
            run_added(ms, steps, steps.len() as int),
        ),
        forall|i: int|
            0 <= i < steps.len() && rs[i] is Some ==> (#[trigger] fetched_block(ms[i], ms[i + 1])).task_id == rs[i]->0,
    decreases steps.len(),
{
    broadcast use vstd::seq_lib::group_to_multiset_ensures;
    if steps.len() > 0 {
        let n = steps.len() - 1;
        let pm = ms.drop_last();
        let ps = steps.drop_last();
        let pr = rs.drop_last();
        assert forall|i: int| 0 <= i < ps.len() implies #[trigger] queue_step(pm[i], ps[i], pm[i + 1], pr[i]) by {
            assert(queue_step(ms[i], steps[i], ms[i + 1], rs[i]));
            assert(pm[i] == ms[i] && pm[i + 1] == ms[i + 1] && ps[i] == steps[i] && pr[i] == rs[i]);
        }
        law_queue_run(pm, ps, pr);
        lemma_run_prefix_at(ms, steps, rs, pm, ps, pr, n);
        let a = ms[n];
        let b = ms[n + 1];
        assert(pm.last() == a && ms.last() == b && ms[0] == pm[0]);
        assert(queue_step(a, steps[n], b, rs[n]));
        let qa = a.queue();
        let qb = b.queue();
        let f0 = run_fetched(ms, rs, n);
        let a0 = run_added(ms, steps, n);
        assert(qa.to_multiset().add(f0) == ms[0].queue().to_multiset().add(a0));
        match steps[n] {
            QueueStep::Add(id) => {
                let x = added_block(a, id);
                assert(qb == qa.push(x));
                assert(run_added(ms, steps, n + 1) == a0.insert(x));
                assert(run_fetched(ms, rs, n + 1) == f0);
                assert(qb.to_multiset() == qa.to_multiset().insert(x));
                assert forall|v: STCFTaskBlock| #[trigger] qb.to_multiset().add(f0).count(v) == ms[0].queue().to_multiset().add(
                    a0.insert(x),
                ).count(v) by {
                    assert(qa.to_multiset().add(f0).count(v) == ms[0].queue().to_multiset().add(a0).count(v));
                }
                assert(qb.to_multiset().add(f0) =~= ms[0].queue().to_multiset().add(a0.insert(x)));
            },
            QueueStep::Fetch(now) => {
                assert(run_added(ms, steps, n + 1) == a0);
                if qa.len() == 0 {
                    assert(qb == qa);
                    assert(run_fetched(ms, rs, n + 1) == f0);
                } else {
                    let k = choose|k: int|
                        first_best(qa, k) && rs[n] == Some(qa[k].task_id) && qb == qa.remove(k);
                    let x = qa[k];
                    assert(qb.to_multiset() == qa.to_multiset().remove(x));
                    assert(qa.to_multiset().count(x) > 0) by {
                        assert(qa.contains(x));
                    }
                    let y = fetched_block(a, b);
                    assert(qa.to_multiset().count(y) > 0 && qb.to_multiset() == qa.to_multiset().remove(y));
                    assert(y == x) by {
                        assert(qa.to_multiset().remove(y).count(x) == qa.to_multiset().remove(x).count(x));
                    }
                    assert(run_fetched(ms, rs, n + 1) == f0.insert(x));
                    assert(qb.to_multiset().add(f0.insert(x)) =~= qa.to_multiset().add(f0));
                }
            },
        }
        assert forall|i: int| 0 <= i < steps.len() && rs[i] is Some implies (#[trigger] fetched_block(
            ms[i],
            ms[i + 1],
        )).task_id == rs[i]->0 by {
            if i < n {
                assert(pm[i] == ms[i] && pm[i + 1] == ms[i + 1] && pr[i] == rs[i]);
            } else {
                let qa = ms[n].queue();
                if qa.len() == 0 {
                    match steps[n] {
                        QueueStep::Add(id) => {},
                        QueueStep::Fetch(now) => {},
                    }
                }
            }
        }
    }
}

/// The tallies of a run's first `n` steps depend only on those steps.
proof fn lemma_run_prefix_at<T>(
    ms: Seq<STCFManager<T>>,
    steps: Seq<QueueStep>,
    rs: Seq<Option<usize>>,
    pm: Seq<STCFManager<T>>,
    ps: Seq<QueueStep>,
    pr: Seq<Option<usize>>,
    n: int,
)
    requires
        0 <= n,
        n < ms.len(),
        n <= pm.len() - 1,
        n <= steps.len(),
        n <= ps.len(),
        n <= rs.len(),
        n <= pr.len(),
        forall|i: int| 0 <= i <= n ==> ms[i] == pm[i],
        forall|i: int| 0 <= i < n ==> steps[i] == ps[i] && rs[i] == pr[i],
    ensures
        run_added(ms, steps, n) == run_added(pm, ps, n),
        run_fetched(ms, rs, n) == run_fetched(pm, pr, n),
    decreases n,
{
    if n > 0 {
        lemma_run_prefix_at(ms, steps, rs, pm, ps, pr, n - 1);
        assert(ms[n - 1] == pm[n - 1] && ms[n] == pm[n]);
        assert(steps[n - 1] == ps[n - 1] && rs[n - 1] == pr[n - 1]);
    }
}

} // verus!
