//! Multi-level feedback queue: sixteen ready queues; a task that uses up its
//! time slice drops one level, one that gives up the processor keeps its
//! level, and the first non-empty level runs first.
use std::collections::{BTreeMap, VecDeque};
use vstd::prelude::*;
use crate::common::map_get_mut;
use crate::sched::{Manage, Schedule};

verus! {

pub const PRIORITY_NUM: usize = 16;

pub const MIN_PRIOR: usize = 15;

/// `exec` passes nothing to this policy.
#[derive(Clone, Copy)]
pub struct ExecArgs;

pub struct MLFQManager<T> {
    tasks: BTreeMap<usize, T>,
    priority_map: BTreeMap<usize, usize>,
    queues: Vec<VecDeque<usize>>,
    cur_giveup: bool,
}

/// The first non-empty level of `qs`, if any.
pub open spec fn first_nonempty(qs: Seq<Seq<usize>>, l: int) -> bool {
    &&& 0 <= l < qs.len()
    &&& qs[l].len() > 0
    &&& forall|j: int| 0 <= j < l ==> (#[trigger] qs[j]).len() == 0
}

/// The level below `p`, bounded by the lowest one.
pub open spec fn demoted(p: usize) -> usize {
    if p != MIN_PRIOR {
        (p + 1) as usize
    } else {
        MIN_PRIOR
    }
}

impl<T> MLFQManager<T> {
    /// The task table.
    pub closed spec fn table(&self) -> Map<usize, T> {
        self.tasks@
    }

    /// Level of each known task; 0 is the highest.
    pub closed spec fn levels(&self) -> Map<usize, usize> {
        self.priority_map@
    }

    /// The queue of each level, front first.
    pub closed spec fn queues(&self) -> Seq<Seq<usize>> {
        self.queues@.map_values(|q: VecDeque<usize>| q@)
    }

    /// Whether the running task gave up the processor of its own accord.
    pub closed spec fn gave_up(&self) -> bool {
        self.cur_giveup
    }

    pub fn new() -> (r: Self)
        ensures
            r.inv(),
            r.tasks() == Map::<usize, T>::empty(),
            r.levels() == Map::<usize, usize>::empty(),
            r.queues() == Seq::new(16, |i: int| Seq::<usize>::empty()),
            !r.gave_up(),
    {
        let mut ret = MLFQManager {
            tasks: BTreeMap::new(),
            priority_map: BTreeMap::new(),
            queues: Vec::new(),
            cur_giveup: false,
        };
        let mut i: usize = 0;
        while i < PRIORITY_NUM
            invariant
                i <= PRIORITY_NUM,
                ret.queues@.len() == i,
                forall|j: int| 0 <= j < i ==> (#[trigger] ret.queues@[j])@ == Seq::<usize>::empty(),
                ret.tasks@ == Map::<usize, T>::empty(),
                ret.priority_map@ == Map::<usize, usize>::empty(),
                !ret.cur_giveup,
            decreases PRIORITY_NUM - i,
        {
            ret.queues.push(VecDeque::new());
            i = i + 1;
        }
        assert(ret.queues() =~~= Seq::new(16, |i: int| Seq::<usize>::empty()));
        ret
    }

    /// The level of task `id`.
    pub fn get_priority(&self, id: &usize) -> (r: usize)
        requires
            self.levels().contains_key(*id),
        ensures
            r == self.levels()[*id],
    {
        *self.priority_map.get(id).unwrap()
    }

    pub open spec fn same_except_tasks(&self, other: &Self) -> bool {
        &&& other.levels() == self.levels()
        &&& other.queues() == self.queues()
        &&& other.gave_up() == self.gave_up()
    }
}

impl<T> Schedule for MLFQManager<T> {
    type Args = ExecArgs;

    /// Sixteen levels, and every known task on one of them.
    closed spec fn inv(&self) -> bool {
        &&& self.queues@.len() == PRIORITY_NUM
        &&& forall|k: usize|
            self.priority_map@.contains_key(k) ==> #[trigger] self.priority_map@[k] < PRIORITY_NUM
    }

    open spec fn add_ok(&self, id: usize) -> bool {
        true
    }

    open spec fn added(&self, id: usize, next: &Self) -> bool {
        let p = if self.levels().contains_key(id) {
            self.levels()[id]
        } else {
            0
        };
        &&& next.levels() == if self.levels().contains_key(id) {
            self.levels()
        } else {
            self.levels().insert(id, 0)
        }
        &&& next.queues() == self.queues().update(p as int, self.queues()[p as int].push(id))
        &&& next.table() == self.table()
        &&& next.gave_up() == self.gave_up()
    }

    open spec fn fetch_ok(&self, now: usize) -> bool {
        true
    }

    open spec fn fetched(&self, now: usize, next: &Self, r: Option<usize>) -> bool {
        &&& next.table() == self.table()
        &&& next.levels() == self.levels()
        &&& next.gave_up() == self.gave_up()
        &&& match r {
            None => {
                &&& forall|j: int| 0 <= j < self.queues().len() ==> (#[trigger] self.queues()[j]).len() == 0
                &&& next.queues() == self.queues()
            },
            Some(id) => exists|l: int|
                first_nonempty(self.queues(), l) && id == self.queues()[l][0] && next.queues()
                    == self.queues().update(l, self.queues()[l].drop_first()),
        }
    }

    open spec fn exec_ok(&self, id: usize, args: ExecArgs) -> bool {
        true
    }

    open spec fn execed(&self, id: usize, args: ExecArgs, next: &Self) -> bool {
        &&& next.levels() == self.levels().insert(id, 0)
        &&& next.queues() == self.queues()
        &&& next.table() == self.table()
        &&& next.gave_up() == self.gave_up()
    }

    /// The parent must be known to the policy.
    open spec fn fork_ok(&self, parent_id: usize, child_id: usize) -> bool {
        self.levels().contains_key(parent_id)
    }

    open spec fn forked(&self, parent_id: usize, child_id: usize, next: &Self) -> bool {
        &&& next.levels() == self.levels().insert(child_id, self.levels()[parent_id])
        &&& next.queues() == self.queues()
        &&& next.table() == self.table()
        &&& next.gave_up() == self.gave_up()
    }

    open spec fn sched_to_ok(&self, id: usize, time: usize) -> bool {
        true
    }

    open spec fn scheduled(&self, id: usize, time: usize, next: &Self) -> bool {
        &&& !next.gave_up()
        &&& next.levels() == self.levels()
        &&& next.queues() == self.queues()
        &&& next.table() == self.table()
    }

    /// A task that used up its slice must be known to the policy.
    open spec fn suspend_ok(&self, id: usize, time: usize) -> bool {
        !self.gave_up() ==> self.levels().contains_key(id)
    }

    open spec fn suspended(&self, id: usize, time: usize, next: &Self) -> bool {
        &&& next.levels() == if self.gave_up() {
            self.levels()
        } else {
            self.levels().insert(id, demoted(self.levels()[id]))
        }
        &&& next.queues() == self.queues()
        &&& next.table() == self.table()
        &&& next.gave_up() == self.gave_up()
    }

    open spec fn slept(&self, id: usize, next: &Self) -> bool {
        &&& next.gave_up()
        &&& next.levels() == self.levels()
        &&& next.queues() == self.queues()
        &&& next.table() == self.table()
    }

    fn add(&mut self, id: usize) {
        let priority = match self.priority_map.get(&id) {
            None => {
                self.priority_map.insert(id, 0);
                0
            },
            Some(p) => *p,
        };
        self.queues[priority].push_back(id);
        assert(self.queues() =~= old(self).queues().update(
            priority as int,
            old(self).queues()[priority as int].push(id),
        ));
    }

    fn fetch(&mut self, now: usize) -> (r: Option<usize>) {
        let mut l: usize = 0;
        while l < self.queues.len()
            invariant
                l <= self.queues@.len(),
                forall|j: int| 0 <= j < l ==> (#[trigger] self.queues@[j])@.len() == 0,
            ensures
                l <= self.queues@.len(),
                forall|j: int| 0 <= j < l ==> (#[trigger] self.queues@[j])@.len() == 0,
                l < self.queues@.len() ==> self.queues@[l as int]@.len() > 0,
            decreases self.queues@.len() - l,
        {
            if self.queues[l].len() != 0 {
                break;
            }
            l = l + 1;
        }
        proof {
            assert forall|j: int| 0 <= j < l implies (#[trigger] self.queues()[j]).len() == 0 by {
                assert(self.queues()[j] == self.queues@[j]@);
            }
        }
        if l == self.queues.len() {
            return None;
        }
        assert(self.queues()[l as int] == self.queues@[l as int]@);
        let r = self.queues[l].pop_front();
        assert(self.queues() =~= old(self).queues().update(
            l as int,
            old(self).queues()[l as int].drop_first(),
        ));
        assert(first_nonempty(old(self).queues(), l as int));
        r
    }

    fn update_exec(&mut self, id: usize, args: &ExecArgs) {
        self.priority_map.insert(id, 0);
    }

    fn update_fork(&mut self, parent_id: usize, child_id: usize) {
        match self.priority_map.get(&parent_id) {
            Some(p) => {
                let p_prior = *p;
                self.priority_map.insert(child_id, p_prior);
            },
            None => {},
        }
    }

    fn update_sched_to(&mut self, id: usize, time: usize) {
        self.cur_giveup = false;
    }

    fn update_suspend(&mut self, id: usize, time: usize) {
        if !self.cur_giveup {
            match self.priority_map.get(&id) {
                Some(p) => {
                    let priority = *p;
                    let new_priority = if priority != MIN_PRIOR {
                        priority + 1
                    } else {
                        MIN_PRIOR
                    };
                    self.priority_map.insert(id, new_priority);
                },
                None => {},
            }
        }
    }

    fn update_sleep(&mut self, id: usize) {
        self.cur_giveup = true;
    }
}

impl<T> Manage<T> for MLFQManager<T> {
    open spec fn tasks(&self) -> Map<usize, T> {
        self.table()
    }

    open spec fn same_sched(&self, other: &Self) -> bool {
        self.same_except_tasks(other)
    }

    open spec fn delete_ok(&self, id: usize) -> bool {
        true
    }

    open spec fn deleted(&self, id: usize, next: &Self) -> bool {
        &&& next.levels() == self.levels().remove(id)
        &&& next.queues() == self.queues()
        &&& next.gave_up() == self.gave_up()
    }

    fn insert(&mut self, id: usize, task: T) {
        self.tasks.insert(id, task);
    }

    fn get_mut(&mut self, id: usize) -> (r: Option<&mut T>) {
        map_get_mut(&mut self.tasks, id)
    }

    fn delete(&mut self, id: usize) {
        self.tasks.remove(&id);
        self.priority_map.remove(&id);
    }
}

/// Every task the policy knows sits on one of the `PRIORITY_NUM` levels.
pub proof fn law_levels_bounded<T>(m: MLFQManager<T>, id: usize)
    requires
        m.inv(),
        m.levels().contains_key(id),
    ensures
        m.levels()[id] < PRIORITY_NUM,
{
    assert(m.levels() == m.priority_map@);
}

/// A task that used up its time slice (it was scheduled and did not give
/// the processor up) drops one level, down to the lowest; one that gave
/// it up stays where it was.
pub proof fn law_demotion<T>(a: MLFQManager<T>, b: MLFQManager<T>, c: MLFQManager<T>, id: usize, t0: usize, t1: usize)
    requires
        a.scheduled(id, t0, &b),
        b.suspended(id, t1, &c),
        a.levels().contains_key(id),
    ensures
        c.levels()[id] == demoted(a.levels()[id]),
        a.levels()[id] < MIN_PRIOR ==> c.levels()[id] == a.levels()[id] + 1,
        a.levels()[id] == MIN_PRIOR ==> c.levels()[id] == MIN_PRIOR,
{
}

/// A task that gave the processor up keeps its level.
pub proof fn law_sleeper_keeps_level<T>(a: MLFQManager<T>, b: MLFQManager<T>, c: MLFQManager<T>, id: usize, t1: usize)
    requires
        a.slept(id, &b),
        b.suspended(id, t1, &c),
    ensures
        c.levels() == a.levels(),
{
}

/// A task added to an empty policy is the one `fetch` hands out next.
pub proof fn law_lone_task_runs<T>(a: MLFQManager<T>, b: MLFQManager<T>, c: MLFQManager<T>, id: usize, now: usize, r: Option<usize>)
    requires
        a.inv(),
        forall|j: int| 0 <= j < a.queues().len() ==> (#[trigger] a.queues()[j]).len() == 0,
        a.added(id, &b),
        b.fetched(now, &c, r),
    ensures
        r == Some(id),
        forall|j: int| 0 <= j < c.queues().len() ==> (#[trigger] c.queues()[j]).len() == 0,
{
    assert(a.levels() == a.priority_map@);
    assert(a.queues().len() == PRIORITY_NUM);
    let p = if a.levels().contains_key(id) { a.levels()[id] } else { 0 };
    assert(p < PRIORITY_NUM);
    assert(b.queues()[p as int].len() == 1);
    if r is None {
        assert(b.queues()[p as int].len() == 0);
    } else {
        let l = choose|l: int|
            first_nonempty(b.queues(), l) && r->0 == b.queues()[l][0] && c.queues() == b.queues().update(
                l,
                b.queues()[l].drop_first(),
            );
        assert(l == p);
        assert forall|j: int| 0 <= j < c.queues().len() implies (#[trigger] c.queues()[j]).len() == 0 by {
            if j != p {
                assert(b.queues()[j] == a.queues()[j]);
            }
        }
    }
}

/// Through any run of `update_sleep` calls the levels stay, and the
/// policy remembers that the running task gave the processor up as soon
/// as there was one.
pub proof fn lemma_sleeps<T>(ms: Seq<MLFQManager<T>>, ids: Seq<usize>)
    requires
        ms.len() >= 1,
        ids.len() == ms.len() - 1,
        forall|i: int| 0 <= i < ids.len() ==> #[trigger] ms[i].slept(ids[i], &ms[i + 1]),
    ensures
        ms.last().levels() == ms[0].levels(),
        ms.len() > 1 ==> ms.last().gave_up(),
        ms.len() == 1 ==> ms.last().gave_up() == ms[0].gave_up(),
    decreases ms.len(),
{
    if ms.len() > 1 {
        let n = ms.len() - 1;
        let pre = ms.drop_last();
        assert forall|i: int| 0 <= i < ids.drop_last().len() implies #[trigger] pre[i].slept(
            ids.drop_last()[i],
            &pre[i + 1],
        ) by {
            assert(pre[i] == ms[i] && pre[i + 1] == ms[i + 1] && ids.drop_last()[i] == ids[i]);
            assert(ms[i].slept(ids[i], &ms[i + 1]));
        }
        lemma_sleeps(pre, ids.drop_last());
        let k = n - 1;
        assert(ms[k].slept(ids[k], &ms[k + 1]));
        assert(pre.last() == ms[k]);
    }
}

/// What `update_suspend` does to a task's level after it was scheduled
/// and then any number of `update_sleep` calls came: with none it used up
/// its slice and drops one level, down to the lowest; with one or more it
/// gave the processor up and every level stays as it was.
pub proof fn law_suspend_after_sleeps<T>(
    a: MLFQManager<T>,
    ms: Seq<MLFQManager<T>>,
    ids: Seq<usize>,
    c: MLFQManager<T>,
    id: usize,
    t0: usize,
    t1: usize,
)
    requires
        ms.len() >= 1,
        ids.len() == ms.len() - 1,
        a.scheduled(id, t0, &ms[0]),
        forall|i: int| 0 <= i < ids.len() ==> #[trigger] ms[i].slept(ids[i], &ms[i + 1]),
        ms.last().suspended(id, t1, &c),
    ensures
        c.levels() == if ids.len() == 0 {
            a.levels().insert(id, demoted(a.levels()[id]))
        } else {
            a.levels()
        },
{
    lemma_sleeps(ms, ids);
}

} // verus!
