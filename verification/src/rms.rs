//! Rate-monotonic scheduling: the ready task with the shortest period runs
//! first.
use std::collections::{BTreeMap, VecDeque};
use vstd::prelude::*;
use vstd::multiset::Multiset;
use crate::common::map_get_mut;
use crate::sched::{Manage, QueueStep, Schedule};

verus! {

/// What `exec` passes: the program's period.
#[derive(Clone, Copy)]
pub struct ExecArgs {
    pub period: isize,
}

#[derive(Clone, Copy)]
pub struct RMSBlock {
    pub task_id: usize,
    pub period: isize,
}

/// `k` is the first position of a shortest period in `s`.
pub open spec fn first_shortest(s: Seq<RMSBlock>, k: int) -> bool {
    &&& 0 <= k < s.len()
    &&& forall|j: int| 0 <= j < s.len() ==> s[k].period <= #[trigger] s[j].period
    &&& forall|j: int| 0 <= j < k ==> s[k].period < #[trigger] s[j].period
}

pub struct RMSManager<T> {
    tasks: BTreeMap<usize, T>,
    period_map: BTreeMap<usize, isize>,
    heap: Vec<RMSBlock>,
}

impl<T> RMSManager<T> {
    /// The task table.
    pub closed spec fn table(&self) -> Map<usize, T> {
        self.tasks@
    }

    pub closed spec fn periods(&self) -> Map<usize, isize> {
        self.period_map@
    }

    /// The ready queue in the order of arrival.
    pub closed spec fn queue(&self) -> Seq<RMSBlock> {
        self.heap@
    }

    pub fn new() -> (r: Self)
        ensures
            r.inv(),
            r.tasks() == Map::<usize, T>::empty(),
            r.periods() == Map::<usize, isize>::empty(),
            r.queue() == Seq::<RMSBlock>::empty(),
    {
        RMSManager { tasks: BTreeMap::new(), period_map: BTreeMap::new(), heap: Vec::new() }
    }

    /// (id, period) of each queued task, in the queue's order.
    pub fn get_list(&self) -> (r: VecDeque<(usize, isize)>)
        ensures
            r@.len() == self.queue().len(),
            forall|i: int|
                0 <= i < r@.len() ==> #[trigger] r@[i] == (
                    self.queue()[i].task_id,
                    self.queue()[i].period,
                ),
    {
        let mut ret: VecDeque<(usize, isize)> = VecDeque::new();
        let mut i: usize = 0;
        while i < self.heap.len()
            invariant
                i <= self.heap@.len(),
                ret@.len() == i,
                forall|j: int|
                    0 <= j < i ==> #[trigger] ret@[j] == (self.heap@[j].task_id, self.heap@[j].period),
            decreases self.heap@.len() - i,
        {
            ret.push_back((self.heap[i].task_id, self.heap[i].period));
            i = i + 1;
        }
        ret
    }

    fn shortest_index(&self) -> (k: usize)
        requires
            self.heap@.len() > 0,
        ensures
            first_shortest(self.heap@, k as int),
    {
        let mut best: usize = 0;
        let mut i: usize = 1;
        while i < self.heap.len()
            invariant
                1 <= i <= self.heap@.len(),
                best < i,
                forall|j: int| 0 <= j < i ==> self.heap@[best as int].period <= #[trigger] self.heap@[j].period,
                forall|j: int| 0 <= j < best ==> self.heap@[best as int].period < #[trigger] self.heap@[j].period,
            decreases self.heap@.len() - i,
        {
            if self.heap[i].period < self.heap[best].period {
                best = i;
            }
            i = i + 1;
        }
        best
    }
}

impl<T> Schedule for RMSManager<T> {
    type Args = ExecArgs;

    open spec fn inv(&self) -> bool {
        true
    }

    open spec fn add_ok(&self, id: usize) -> bool {
        true
    }

    open spec fn added(&self, id: usize, next: &Self) -> bool {
        let p = if self.periods().contains_key(id) {
            self.periods()[id]
        } else {
            isize::MAX
        };
        &&& next.periods() == if self.periods().contains_key(id) {
            self.periods()
        } else {
            self.periods().insert(id, p)
        }
        &&& next.queue() == self.queue().push(RMSBlock { task_id: id, period: p })
        &&& next.table() == self.table()
    }

    open spec fn fetch_ok(&self, now: usize) -> bool {
        true
    }

    open spec fn fetched(&self, now: usize, next: &Self, r: Option<usize>) -> bool {
        &&& next.table() == self.table()
        &&& next.periods() == self.periods()
        &&& if self.queue().len() == 0 {
            r is None && next.queue() == self.queue()
        } else {
            exists|k: int|
                first_shortest(self.queue(), k) && r == Some(self.queue()[k].task_id) && next.queue()
                    == self.queue().remove(k)
        }
    }

    open spec fn exec_ok(&self, id: usize, args: ExecArgs) -> bool {
        true
    }

    open spec fn execed(&self, id: usize, args: ExecArgs, next: &Self) -> bool {
        &&& next.periods() == self.periods().insert(id, args.period)
        &&& next.queue() == self.queue()
        &&& next.table() == self.table()
    }

    /// The parent must be known to the policy.
    open spec fn fork_ok(&self, parent_id: usize, child_id: usize) -> bool {
        self.periods().contains_key(parent_id)
    }

    open spec fn forked(&self, parent_id: usize, child_id: usize, next: &Self) -> bool {
        &&& next.periods() == self.periods().insert(child_id, self.periods()[parent_id])
        &&& next.queue() == self.queue()
        &&& next.table() == self.table()
    }

    open spec fn sched_to_ok(&self, id: usize, time: usize) -> bool {
        true
    }

    open spec fn scheduled(&self, id: usize, time: usize, next: &Self) -> bool {
        *next == *self
    }

    open spec fn suspend_ok(&self, id: usize, time: usize) -> bool {
        true
    }

    open spec fn suspended(&self, id: usize, time: usize, next: &Self) -> bool {
        *next == *self
    }

    open spec fn slept(&self, id: usize, next: &Self) -> bool {
        *next == *self
    }

    fn add(&mut self, id: usize) {
        let period = match self.period_map.get(&id) {
            None => {
                self.period_map.insert(id, isize::MAX);
                isize::MAX
            },
            Some(t) => *t,
        };
        self.heap.push(RMSBlock { task_id: id, period: period });
    }

    fn fetch(&mut self, now: usize) -> (r: Option<usize>) {
        if self.heap.len() == 0 {
            None
        } else {
            let k = self.shortest_index();
            let t = self.heap.remove(k);
            Some(t.task_id)
        }
    }

    fn update_exec(&mut self, id: usize, args: &ExecArgs) {
        self.period_map.insert(id, args.period);
    }

    fn update_fork(&mut self, parent_id: usize, child_id: usize) {
        match self.period_map.get(&parent_id) {
            Some(t) => {
                let parent_time = *t;
                self.period_map.insert(child_id, parent_time);
            },
            None => {},
        }
    }

    fn update_sched_to(&mut self, id: usize, time: usize) {
    }

    fn update_suspend(&mut self, id: usize, time: usize) {
    }

    fn update_sleep(&mut self, id: usize) {
    }
}

impl<T> Manage<T> for RMSManager<T> {
    open spec fn tasks(&self) -> Map<usize, T> {
        self.table()
    }

    open spec fn same_sched(&self, other: &Self) -> bool {
        &&& other.periods() == self.periods()
        &&& other.queue() == self.queue()
    }

    open spec fn delete_ok(&self, id: usize) -> bool {
        true
    }

    open spec fn deleted(&self, id: usize, next: &Self) -> bool {
        &&& next.periods() == self.periods().remove(id)
        &&& next.queue() == self.queue()
    }

    fn insert(&mut self, id: usize, task: T) {
        self.tasks.insert(id, task);
    }

    fn get_mut(&mut self, id: usize) -> (r: Option<&mut T>) {
        map_get_mut(&mut self.tasks, id)
    }

    fn delete(&mut self, id: usize) {
        self.tasks.remove(&id);
        self.period_map.remove(&id);
    }
}

/// A task added to an empty ready queue is the one `fetch` hands out
/// next, and the queue is empty again.
pub proof fn law_lone_task_runs<T>(a: RMSManager<T>, b: RMSManager<T>, c: RMSManager<T>, id: usize, now: usize, r: Option<usize>)
    requires
        a.queue().len() == 0,
        a.added(id, &b),
        b.fetched(now, &c, r),
    ensures
        r == Some(id),
        c.queue().len() == 0,
{
    let k = choose|k: int| first_shortest(b.queue(), k) && r == Some(b.queue()[k].task_id) && c.queue() == b.queue().remove(k);
    assert(k == 0);
}

/// Rate monotonic: the task `fetch` hands out has the shortest period of
/// the queue.
pub proof fn law_shortest_period_first<T>(a: RMSManager<T>, b: RMSManager<T>, now: usize, r: Option<usize>)
    requires
        a.fetched(now, &b, r),
        a.queue().len() > 0,
    ensures
        exists|k: int|
            0 <= k < a.queue().len() && r == Some(a.queue()[k].task_id) && forall|j: int|
                0 <= j < a.queue().len() ==> a.queue()[k].period <= #[trigger] a.queue()[j].period,
{
}

/// The block `add(id)` queues in the state `a`.
pub open spec fn added_block<T>(a: RMSManager<T>, id: usize) -> RMSBlock {
    RMSBlock {
        task_id: id,
        period: if a.periods().contains_key(id) {
            a.periods()[id]
        } else {
            isize::MAX
        },
    }
}

/// `a` goes to `b` by `step`; `r` is what a fetch answered (`None` for an
/// add).
pub open spec fn queue_step<T>(a: RMSManager<T>, step: QueueStep, b: RMSManager<T>, r: Option<usize>) -> bool {
    match step {
        QueueStep::Add(id) => a.added(id, &b) && r is None,
        QueueStep::Fetch(now) => a.fetched(now, &b, r),
    }
}

/// The block that `fetch` took out going from `a` to `b`.
pub open spec fn fetched_block<T>(a: RMSManager<T>, b: RMSManager<T>) -> RMSBlock {
    choose|x: RMSBlock|
        a.queue().to_multiset().count(x) > 0 && b.queue().to_multiset() == a.queue().to_multiset().remove(x)
}

/// The blocks the adds among the first `n` steps queued.
pub open spec fn run_added<T>(ms: Seq<RMSManager<T>>, steps: Seq<QueueStep>, n: int) -> Multiset<RMSBlock>
    decreases n,
{
    if n <= 0 {
        Multiset::empty()
    } else {
        match steps[n - 1] {
            QueueStep::Add(id) => run_added(ms, steps, n - 1).insert(added_block(ms[n - 1], id)),
            QueueStep::Fetch(_) => run_added(ms, steps, n - 1),
        }
    }
}

/// The blocks the fetches among the first `n` steps handed out (those
/// that answered `Some`).
pub open spec fn run_fetched<T>(ms: Seq<RMSManager<T>>, rs: Seq<Option<usize>>, n: int) -> Multiset<RMSBlock>
    decreases n,
{
    if n <= 0 {
        Multiset::empty()
    } else if rs[n - 1] is Some {
        run_fetched(ms, rs, n - 1).insert(fetched_block(ms[n - 1], ms[n]))
    } else {
        run_fetched(ms, rs, n - 1)
    }
}

/// The ready queue over any run of adds and fetches (`ms` the states
/// between the steps, `rs` what each step answered): the blocks queued at
/// the end (what `get_list` lists), together with those fetched, are those
/// queued at the start together with those added, each carrying the period
/// its task had when it was added, counted with repetition; and
/// each fetch that answered `Some(id)` took out a block of task `id`.
pub proof fn law_queue_run<T>(ms: Seq<RMSManager<T>>, steps: Seq<QueueStep>, rs: Seq<Option<usize>>)
    requires
        ms.len() == steps.len() + 1,
        rs.len() == steps.len(),
        forall|i: int| 0 <= i < steps.len() ==> #[trigger] queue_step(ms[i], steps[i], ms[i + 1], rs[i]),
    ensures
        ms.last().queue().to_multiset().add(run_fetched(ms, rs, steps.len() as int)) == ms[0].queue().to_multiset().add(
            run_added(ms, steps, steps.len() as int),
        ),
        forall|i: int|
            0 <= i < steps.len() && rs[i] is Some ==> (#[trigger] fetched_block(ms[i], ms[i + 1])).task_id == rs[i]->0,
    decreases steps.len(),
{
    broadcast use vstd::seq_lib::group_to_multiset_ensures;
    if steps.len() > 0 {
        let n = steps.len() - 1;
        let pm = ms.drop_last();
        let ps = steps.drop_last();
        let pr = rs.drop_last();
        assert forall|i: int| 0 <= i < ps.len() implies #[trigger] queue_step(pm[i], ps[i], pm[i + 1], pr[i]) by {
            assert(queue_step(ms[i], steps[i], ms[i + 1], rs[i]));
            assert(pm[i] == ms[i] && pm[i + 1] == ms[i + 1] && ps[i] == steps[i] && pr[i] == rs[i]);
        }
        law_queue_run(pm, ps, pr);
        lemma_run_prefix_at(ms, steps, rs, pm, ps, pr, n);
        let a = ms[n];
        let b = ms[n + 1];
        assert(pm.last() == a && ms.last() == b && ms[0] == pm[0]);
        assert(queue_step(a, steps[n], b, rs[n]));
        let qa = a.queue();
        let qb = b.queue();
        let f0 = run_fetched(ms, rs, n);
        let a0 = run_added(ms, steps, n);
        assert(qa.to_multiset().add(f0) == ms[0].queue().to_multiset().add(a0));
        match steps[n] {
            QueueStep::Add(id) => {
                let x = added_block(a, id);
                assert(qb == qa.push(x));
                assert(run_added(ms, steps, n + 1) == a0.insert(x));
                assert(run_fetched(ms, rs, n + 1) == f0);
                assert(qb.to_multiset() == qa.to_multiset().insert(x));
                assert forall|v: RMSBlock| #[trigger] qb.to_multiset().add(f0).count(v) == ms[0].queue().to_multiset().add(
                    a0.insert(x),
                ).count(v) by {
                    assert(qa.to_multiset().add(f0).count(v) == ms[0].queue().to_multiset().add(a0).count(v));
                }
                assert(qb.to_multiset().add(f0) =~= ms[0].queue().to_multiset().add(a0.insert(x)));
            },
            QueueStep::Fetch(now) => {
                assert(run_added(ms, steps, n + 1) == a0);
                if qa.len() == 0 {
                    assert(qb == qa);
                    assert(run_fetched(ms, rs, n + 1) == f0);
                } else {
                    let k = choose|k: int|
                        first_shortest(qa, k) && rs[n] == Some(qa[k].task_id) && qb == qa.remove(k);
                    let x = qa[k];
                    assert(qb.to_multiset() == qa.to_multiset().remove(x));
                    assert(qa.to_multiset().count(x) > 0) by {
                        assert(qa.contains(x));
                    }
                    let y = fetched_block(a, b);
                    assert(qa.to_multiset().count(y) > 0 && qb.to_multiset() == qa.to_multiset().remove(y));
                    assert(y == x) by {
                        assert(qa.to_multiset().remove(y).count(x) == qa.to_multiset().remove(x).count(x));
                    }
                    assert(run_fetched(ms, rs, n + 1) == f0.insert(x));
                    assert(qb.to_multiset().add(f0.insert(x)) =~= qa.to_multiset().add(f0));
                }
            },
        }
        assert forall|i: int| 0 <= i < steps.len() && rs[i] is Some implies (#[trigger] fetched_block(
            ms[i],
            ms[i + 1],
        )).task_id == rs[i]->0 by {
            if i < n {
                assert(pm[i] == ms[i] && pm[i + 1] == ms[i + 1] && pr[i] == rs[i]);
            } else {
                let qa = ms[n].queue();
                if qa.len() == 0 {
                    match steps[n] {
                        QueueStep::Add(id) => {},
                        QueueStep::Fetch(now) => {},
                    }
                }
            }
        }
    }
}

/// The tallies of a run's first `n` steps depend only on those steps.
proof fn lemma_run_prefix_at<T>(
    ms: Seq<RMSManager<T>>,
    steps: Seq<QueueStep>,
    rs: Seq<Option<usize>>,
    pm: Seq<RMSManager<T>>,
    ps: Seq<QueueStep>,
    pr: Seq<Option<usize>>,
    n: int,
)
    requires
        0 <= n,
        n < ms.len(),
        n <= pm.len() - 1,
        n <= steps.len(),
        n <= ps.len(),
        n <= rs.len(),
        n <= pr.len(),
        forall|i: int| 0 <= i <= n ==> ms[i] == pm[i],
        forall|i: int| 0 <= i < n ==> steps[i] == ps[i] && rs[i] == pr[i],
    ensures
        run_added(ms, steps, n) == run_added(pm, ps, n),
        run_fetched(ms, rs, n) == run_fetched(pm, pr, n),
    decreases n,
{
    if n > 0 {
        lemma_run_prefix_at(ms, steps, rs, pm, ps, pr, n - 1);
        assert(ms[n - 1] == pm[n - 1] && ms[n] == pm[n]);
        assert(steps[n - 1] == ps[n - 1] && rs[n - 1] == pr[n - 1]);
    }
}

} // verus!
