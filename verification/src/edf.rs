//! Earliest deadline first: the ready task with the nearest deadline runs
//! first; a periodic task whose deadline has passed gets its deadline moved
//! past the present by whole periods before the choice is made.
use std::collections::BTreeMap;
use vstd::prelude::*;
use crate::common::map_get_mut;
use crate::sched::{Manage, Schedule};

verus! {

/// What `exec` passes: the period (not positive for a task that is not
/// periodic) and the first deadline.
#[derive(Clone, Copy)]
pub struct ExecArgs {
    pub period: isize,
    pub init_ddl: isize,
}

#[derive(Clone, Copy)]
pub struct EDFBlock {
    pub task_id: usize,
    pub period: isize,
    pub init_ddl: isize,
    pub next_ddl: isize,
}

/// The block of a task that was added for the first time.
pub open spec fn fresh_block(id: usize) -> EDFBlock {
    EDFBlock { task_id: id, init_ddl: isize::MAX, period: -1isize, next_ddl: isize::MAX }
}

/// `k` is the first position of a nearest deadline in `s`.
pub open spec fn first_earliest(s: Seq<EDFBlock>, k: int) -> bool {
    &&& 0 <= k < s.len()
    &&& forall|j: int| 0 <= j < s.len() ==> s[k].next_ddl <= #[trigger] s[j].next_ddl
    &&& forall|j: int| 0 <= j < k ==> s[k].next_ddl < #[trigger] s[j].next_ddl
}

/// The first position of a nearest deadline in `s`.
pub open spec fn earliest(s: Seq<EDFBlock>) -> int {
    choose|k: int| first_earliest(s, k)
}

/// A periodic task whose deadline is not after `t`.
pub open spec fn overdue(b: EDFBlock, t: isize) -> bool {
    b.next_ddl <= t && b.period > 0
}

/// How many whole periods the deadline moves: just past `t`.
pub open spec fn periods_to_skip(b: EDFBlock, t: isize) -> int {
    (t - b.next_ddl) / (b.period as int) + 1
}

/// The deadline moved past `t`.
pub open spec fn moved(b: EDFBlock, t: isize) -> EDFBlock {
    EDFBlock { next_ddl: (b.next_ddl + b.period * periods_to_skip(b, t)) as isize, ..b }
}

/// Moving the deadline computes without overflow.
pub open spec fn move_ok(b: EDFBlock, t: isize) -> bool {
    &&& t - b.next_ddl <= isize::MAX
    &&& b.period * periods_to_skip(b, t) <= isize::MAX
    &&& b.next_ddl + b.period * periods_to_skip(b, t) <= isize::MAX
}

/// The queue and the blocks after the deadlines of the overdue tasks that
/// come first have been moved, one at a time, until the nearest deadline
/// in the queue belongs to a task that is not overdue. A moved block goes
/// to the back of the queue.
pub open spec fn settle(s: Seq<EDFBlock>, info: Map<usize, EDFBlock>, t: isize, fuel: nat) -> (
    Seq<EDFBlock>,
    Map<usize, EDFBlock>,
)
    decreases fuel,
{
    if s.len() == 0 || fuel == 0 {
        (s, info)
    } else {
        let k = earliest(s);
        if overdue(s[k], t) {
            let nb = moved(s[k], t);
            settle(
                s.remove(k).push(nb),
                info.insert(nb.task_id, EDFBlock { next_ddl: nb.next_ddl, ..info[nb.task_id] }),
                t,
                (fuel - 1) as nat,
            )
        } else {
            (s, info)
        }
    }
}

/// Every deadline that `settle` moves computes without overflow, and
/// belongs to a task with a block.
pub open spec fn settle_ok(s: Seq<EDFBlock>, info: Map<usize, EDFBlock>, t: isize, fuel: nat) -> bool
    decreases fuel,
{
    if s.len() == 0 || fuel == 0 {
        true
    } else {
        let k = earliest(s);
        if overdue(s[k], t) {
            let nb = moved(s[k], t);
            &&& move_ok(s[k], t)
            &&& info.contains_key(s[k].task_id)
            &&& settle_ok(
                s.remove(k).push(nb),
                info.insert(nb.task_id, EDFBlock { next_ddl: nb.next_ddl, ..info[nb.task_id] }),
                t,
                (fuel - 1) as nat,
            )
        } else {
            true
        }
    }
}

/// How many queued tasks are overdue at `t`.
pub open spec fn count_overdue(s: Seq<EDFBlock>, t: isize) -> nat
    decreases s.len(),
{
    if s.len() == 0 {
        0
    } else {
        count_overdue(s.drop_last(), t) + if overdue(s.last(), t) {
            1nat
        } else {
            0nat
        }
    }
}

proof fn lemma_count_overdue_bound(s: Seq<EDFBlock>, t: isize)
    ensures
        count_overdue(s, t) <= s.len(),
    decreases s.len(),
{
    if s.len() > 0 {
        lemma_count_overdue_bound(s.drop_last(), t);
    }
}

proof fn lemma_count_overdue_remove(s: Seq<EDFBlock>, t: isize, k: int)
    requires
        0 <= k < s.len(),
    ensures
        count_overdue(s, t) == count_overdue(s.remove(k), t) + if overdue(s[k], t) {
            1nat
        } else {
            0nat
        },
    decreases s.len(),
{
    if k == s.len() - 1 {
        assert(s.remove(k) =~= s.drop_last());
    } else {
        lemma_count_overdue_remove(s.drop_last(), t, k);
        assert(s.remove(k).drop_last() =~= s.drop_last().remove(k));
        assert(s.remove(k).last() == s.last());
    }
}

proof fn lemma_count_overdue_push(s: Seq<EDFBlock>, t: isize, b: EDFBlock)
    ensures
        count_overdue(s.push(b), t) == count_overdue(s, t) + if overdue(b, t) {
            1nat
        } else {
            0nat
        },
{
    assert(s.push(b).drop_last() =~= s);
}

proof fn lemma_first_earliest_unique(s: Seq<EDFBlock>, k: int)
    requires
        first_earliest(s, k),
    ensures
        earliest(s) == k,
{
    let e = earliest(s);
    assert(first_earliest(s, e));
    if e < k {
        assert(s[k].next_ddl < s[e].next_ddl);
    } else if k < e {
        assert(s[e].next_ddl < s[k].next_ddl);
    }
}

/// A moved deadline lies after `t`.
proof fn lemma_moved_after(b: EDFBlock, t: isize)
    requires
        overdue(b, t),
        move_ok(b, t),
    ensures
        moved(b, t).next_ddl > t,
        !overdue(moved(b, t), t),
{
    let d: int = t - b.next_ddl;
    let p: int = b.period as int;
    vstd::arithmetic::div_mod::lemma_fundamental_div_mod(d, p);
    vstd::arithmetic::div_mod::lemma_mod_pos_bound(d, p);
    assert(p * (d / p + 1) == p * (d / p) + p) by (nonlinear_arith);
}

/// With enough fuel, settling ends at a queue whose nearest deadline is
/// not overdue.
proof fn lemma_settle_step(s: Seq<EDFBlock>, info: Map<usize, EDFBlock>, t: isize, fuel: nat)
    requires
        s.len() > 0,
        fuel > 0,
        overdue(s[earliest(s)], t),
    ensures
        settle(s, info, t, fuel) == ({
            let k = earliest(s);
            let nb = moved(s[k], t);
            settle(
                s.remove(k).push(nb),
                info.insert(nb.task_id, EDFBlock { next_ddl: nb.next_ddl, ..info[nb.task_id] }),
                t,
                (fuel - 1) as nat,
            )
        }),
{
}

pub struct EDFManager<T> {
    tasks: BTreeMap<usize, T>,
    info_map: BTreeMap<usize, EDFBlock>,
    heap: Vec<EDFBlock>,
}

impl<T> EDFManager<T> {
    /// The task table.
    pub closed spec fn table(&self) -> Map<usize, T> {
        self.tasks@
    }

    pub closed spec fn blocks(&self) -> Map<usize, EDFBlock> {
        self.info_map@
    }

    /// The ready queue in the order of arrival.
    pub closed spec fn queue(&self) -> Seq<EDFBlock> {
        self.heap@
    }

    pub fn new() -> (r: Self)
        ensures
            r.inv(),
            r.tasks() == Map::<usize, T>::empty(),
            r.blocks() == Map::<usize, EDFBlock>::empty(),
            r.queue() == Seq::<EDFBlock>::empty(),
    {
        EDFManager { tasks: BTreeMap::new(), info_map: BTreeMap::new(), heap: Vec::new() }
    }

    fn earliest_index(&self) -> (k: usize)
        requires
            self.heap@.len() > 0,
        ensures
            first_earliest(self.heap@, k as int),
    {
        let mut best: usize = 0;
        let mut i: usize = 1;
        while i < self.heap.len()
            invariant
                1 <= i <= self.heap@.len(),
                best < i,
                forall|j: int| 0 <= j < i ==> self.heap@[best as int].next_ddl <= #[trigger] self.heap@[j].next_ddl,
                forall|j: int| 0 <= j < best ==> self.heap@[best as int].next_ddl < #[trigger] self.heap@[j].next_ddl,
            decreases self.heap@.len() - i,
        {
            if self.heap[i].next_ddl < self.heap[best].next_ddl {
                best = i;
            }
            i = i + 1;
        }
        best
    }
}

impl<T> Schedule for EDFManager<T> {
    type Args = ExecArgs;

    /// Every block is filed under its own task's id.
    closed spec fn inv(&self) -> bool {
        forall|k: usize| #[trigger] self.info_map@.contains_key(k) ==> self.info_map@[k].task_id == k
    }

    open spec fn add_ok(&self, id: usize) -> bool {
        true
    }

    open spec fn added(&self, id: usize, next: &Self) -> bool {
        let b = if self.blocks().contains_key(id) {
            self.blocks()[id]
        } else {
            fresh_block(id)
        };
        &&& next.blocks() == if self.blocks().contains_key(id) {
            self.blocks()
        } else {
            self.blocks().insert(id, b)
        }
        &&& next.queue() == self.queue().push(b)
        &&& next.table() == self.table()
    }

    /// The deadlines that get moved compute without overflow and belong to
    /// tasks with a block.
    open spec fn fetch_ok(&self, now: usize) -> bool {
        settle_ok(self.queue(), self.blocks(), now as isize, self.queue().len())
    }

    open spec fn fetched(&self, now: usize, next: &Self, r: Option<usize>) -> bool {
        let (s, info) = settle(self.queue(), self.blocks(), now as isize, self.queue().len());
        &&& next.table() == self.table()
        &&& next.blocks() == info
        &&& if s.len() == 0 {
            r is None && next.queue() == s
        } else {
            r == Some(s[earliest(s)].task_id) && next.queue() == s.remove(earliest(s))
        }
    }

    /// The task must be known to the policy.
    open spec fn exec_ok(&self, id: usize, args: ExecArgs) -> bool {
        self.blocks().contains_key(id)
    }

    open spec fn execed(&self, id: usize, args: ExecArgs, next: &Self) -> bool {
        &&& next.blocks() == self.blocks().insert(
            id,
            EDFBlock {
                period: args.period,
                init_ddl: args.init_ddl,
                next_ddl: args.init_ddl,
                ..self.blocks()[id]
            },
        )
        &&& next.queue() == self.queue()
        &&& next.table() == self.table()
    }

    /// The parent must be known to the policy.
    open spec fn fork_ok(&self, parent_id: usize, child_id: usize) -> bool {
        self.blocks().contains_key(parent_id)
    }

    open spec fn forked(&self, parent_id: usize, child_id: usize, next: &Self) -> bool {
        &&& next.blocks() == self.blocks().insert(
            child_id,
            EDFBlock { task_id: child_id, ..self.blocks()[parent_id] },
        )
        &&& next.queue() == self.queue()
        &&& next.table() == self.table()
    }

    open spec fn sched_to_ok(&self, id: usize, time: usize) -> bool {
        true
    }

    open spec fn scheduled(&self, id: usize, time: usize, next: &Self) -> bool {
        *next == *self
    }

    open spec fn suspend_ok(&self, id: usize, time: usize) -> bool {
        true
    }

    open spec fn suspended(&self, id: usize, time: usize, next: &Self) -> bool {
        *next == *self
    }

    open spec fn slept(&self, id: usize, next: &Self) -> bool {
        *next == *self
    }

    fn add(&mut self, id: usize) {
        let block = match self.info_map.get(&id) {
            None => {
                let tmp = EDFBlock {
                    task_id: id,
                    init_ddl: isize::MAX,
                    period: -1,
                    next_ddl: isize::MAX,
                };
                self.info_map.insert(id, tmp);
                tmp
            },
            Some(t) => *t,
        };
        self.heap.push(block);
    }

    fn fetch(&mut self, now: usize) -> (r: Option<usize>) {
        let t = now as isize;
        let ghost fuel0: nat = self.heap@.len();
        let ghost target = settle(self.heap@, self.info_map@, t, fuel0);
        let ghost mut fuel: nat = fuel0;
        proof {
            lemma_count_overdue_bound(self.heap@, t);
        }
        loop
            invariant
                settle(self.heap@, self.info_map@, t, fuel) == target,
                settle_ok(self.heap@, self.info_map@, t, fuel),
                count_overdue(self.heap@, t) <= fuel,
                self.tasks@ == old(self).tasks@,
                target == settle(old(self).heap@, old(self).info_map@, t, fuel0),
                forall|k: usize| #[trigger] self.info_map@.contains_key(k) ==> self.info_map@[k].task_id == k,
                t == now as isize,
                fuel0 == old(self).heap@.len(),
            decreases fuel,
        {
            if self.heap.len() == 0 {
                proof {
                    assert(settle(self.heap@, self.info_map@, t, fuel) == (self.heap@, self.info_map@));
                }
                return None;
            }
            let k = self.earliest_index();
            proof {
                lemma_first_earliest_unique(self.heap@, k as int);
            }
            let ghost s = self.heap@;
            let ghost info = self.info_map@;
            let mut tb = self.heap.remove(k);
            if tb.next_ddl <= t && tb.period > 0 {
                proof {
                    lemma_count_overdue_remove(s, t, k as int);
                    assert(fuel > 0);
                    lemma_settle_step(s, info, t, fuel);
                    lemma_moved_after(s[k as int], t);
                }
                let diff = t - tb.next_ddl;
                let times = diff / tb.period + 1;
                tb.next_ddl = tb.next_ddl + tb.period * times;
                match map_get_mut(&mut self.info_map, tb.task_id) {
                    Some(b) => {
                        b.next_ddl = tb.next_ddl;
                    },
                    None => {},
                }
                self.heap.push(tb);
                proof {
                    assert(tb == moved(s[k as int], t));
                    lemma_count_overdue_push(s.remove(k as int), t, tb);
                    fuel = (fuel - 1) as nat;
                }
            } else {
                proof {
                    assert(settle(s, info, t, fuel) == (s, info));
                    assert(self.heap@ == s.remove(k as int));
                }
                return Some(tb.task_id);
            }
        }
    }

    fn update_exec(&mut self, id: usize, args: &ExecArgs) {
        match map_get_mut(&mut self.info_map, id) {
            Some(block) => {
                block.period = args.period;
                block.init_ddl = args.init_ddl;
                block.next_ddl = args.init_ddl;
            },
            None => {},
        }
    }

    fn update_fork(&mut self, parent_id: usize, child_id: usize) {
        match self.info_map.get(&parent_id) {
            Some(block) => {
                let child = EDFBlock { task_id: child_id, ..*block };
                self.info_map.insert(child_id, child);
            },
            None => {},
        }
    }

    fn update_sched_to(&mut self, id: usize, time: usize) {
    }

    fn update_suspend(&mut self, id: usize, time: usize) {
    }

    fn update_sleep(&mut self, id: usize) {
    }
}

impl<T> Manage<T> for EDFManager<T> {
    open spec fn tasks(&self) -> Map<usize, T> {
        self.table()
    }

    open spec fn same_sched(&self, other: &Self) -> bool {
        &&& other.blocks() == self.blocks()
        &&& other.queue() == self.queue()
    }

    open spec fn delete_ok(&self, id: usize) -> bool {
        true
    }

    open spec fn deleted(&self, id: usize, next: &Self) -> bool {
        &&& next.blocks() == self.blocks().remove(id)
        &&& next.queue() == self.queue()
    }

    fn insert(&mut self, id: usize, task: T) {
        self.tasks.insert(id, task);
    }

    fn get_mut(&mut self, id: usize) -> (r: Option<&mut T>) {
        map_get_mut(&mut self.tasks, id)
    }

    fn delete(&mut self, id: usize) {
        self.tasks.remove(&id);
        self.info_map.remove(&id);
    }
}

/// A nonempty queue has a first nearest deadline.
pub proof fn lemma_earliest_exists(s: Seq<EDFBlock>)
    requires
        s.len() > 0,
    ensures
        first_earliest(s, earliest(s)),
    decreases s.len(),
{
    if s.len() == 1 {
        assert(first_earliest(s, 0));
    } else {
        let d = s.drop_last();
        lemma_earliest_exists(d);
        let j = earliest(d);
        assert forall|k: int| 0 <= k < d.len() implies #[trigger] s[k] == d[k] by {}
        if s.last().next_ddl < s[j].next_ddl {
            assert(first_earliest(s, s.len() - 1));
        } else {
            assert(first_earliest(s, j));
        }
    }
}

/// Settling keeps the number of queued tasks, and, when the fuel covers
/// the overdue tasks, leaves the nearest deadline to a task that is not
/// overdue.
pub proof fn lemma_settled(s: Seq<EDFBlock>, info: Map<usize, EDFBlock>, t: isize, fuel: nat)
    requires
        count_overdue(s, t) <= fuel,
        settle_ok(s, info, t, fuel),
    ensures
        settle(s, info, t, fuel).0.len() == s.len(),
        settle(s, info, t, fuel).0.len() > 0 ==> !overdue(
            settle(s, info, t, fuel).0[earliest(settle(s, info, t, fuel).0)],
            t,
        ),
    decreases fuel,
{
    if s.len() == 0 {
    } else if fuel == 0 {
        lemma_earliest_exists(s);
        let k = earliest(s);
        lemma_count_overdue_remove(s, t, k);
    } else {
        lemma_earliest_exists(s);
        let k = earliest(s);
        if overdue(s[k], t) {
            let nb = moved(s[k], t);
            lemma_moved_after(s[k], t);
            lemma_count_overdue_remove(s, t, k);
            lemma_count_overdue_push(s.remove(k), t, nb);
            lemma_settled(
                s.remove(k).push(nb),
                info.insert(nb.task_id, EDFBlock { next_ddl: nb.next_ddl, ..info[nb.task_id] }),
                t,
                (fuel - 1) as nat,
            );
        }
    }
}

/// Earliest deadline first never hands out a periodic task whose deadline
/// has passed: its deadline is first moved past the present.
pub proof fn law_no_overdue_task_runs<T>(a: EDFManager<T>, b: EDFManager<T>, now: usize, id: usize)
    requires
        a.fetch_ok(now),
        a.fetched(now, &b, Some(id)),
    ensures
        ({
            let s = settle(a.queue(), a.blocks(), now as isize, a.queue().len()).0;
            &&& s.len() == a.queue().len()
            &&& id == s[earliest(s)].task_id
            &&& !overdue(s[earliest(s)], now as isize)
        }),
{
    lemma_count_overdue_bound(a.queue(), now as isize);
    lemma_settled(a.queue(), a.blocks(), now as isize, a.queue().len());
}

/// A task added to an empty ready queue is the one `fetch` hands out
/// next, and the queue is empty again.
pub proof fn law_lone_task_runs<T>(a: EDFManager<T>, b: EDFManager<T>, c: EDFManager<T>, id: usize, now: usize, r: Option<usize>)
    requires
        a.inv(),
        a.queue().len() == 0,
        a.added(id, &b),
        b.fetch_ok(now),
        b.fetched(now, &c, r),
    ensures
        r == Some(id),
        c.queue().len() == 0,
{
    let q = b.queue();
    assert(q.len() == 1);
    assert(a.blocks() == a.info_map@);
    if a.blocks().contains_key(id) {
        assert(a.info_map@.contains_key(id));
    }
    assert(q[0].task_id == id);
    lemma_count_overdue_bound(q, now as isize);
    lemma_settled(q, b.blocks(), now as isize, 1);
    let s = settle(q, b.blocks(), now as isize, 1).0;
    lemma_earliest_exists(s);
    reveal_with_fuel(settle, 2);
    if overdue(q[earliest(q)], now as isize) {
        lemma_earliest_exists(q);
        assert(earliest(q) == 0);
        assert(s == q.remove(0).push(moved(q[0], now as isize)));
    } else {
        assert(s == q);
    }
    assert(s[0].task_id == id);
}

} // verus!
