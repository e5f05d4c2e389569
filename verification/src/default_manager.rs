//! First come, first served.
use std::collections::{BTreeMap, VecDeque};
use vstd::prelude::*;
use crate::common::map_get_mut;
use crate::sched::{Manage, Schedule};

verus! {

/// `exec` passes nothing to this policy.
pub struct ExecArgs;

pub struct DefaultManager<T> {
    tasks: BTreeMap<usize, T>,
    ready_queue: VecDeque<usize>,
}

impl<T> DefaultManager<T> {
    /// The ready queue, front first.
    pub closed spec fn queue(&self) -> Seq<usize> {
        self.ready_queue@
    }

    /// The task table.
    pub closed spec fn table(&self) -> Map<usize, T> {
        self.tasks@
    }

    pub fn new() -> (r: Self)
        ensures
            r.inv(),
            r.tasks() == Map::<usize, T>::empty(),
            r.queue() == Seq::<usize>::empty(),
    {
        DefaultManager { tasks: BTreeMap::new(), ready_queue: VecDeque::new() }
    }
}

impl<T> Schedule for DefaultManager<T> {
    type Args = ExecArgs;

    open spec fn inv(&self) -> bool {
        true
    }

    open spec fn add_ok(&self, id: usize) -> bool {
        true
    }

    open spec fn added(&self, id: usize, next: &Self) -> bool {
        &&& next.queue() == self.queue().push(id)
        &&& next.table() == self.table()
    }

    open spec fn fetch_ok(&self, now: usize) -> bool {
        true
    }

    open spec fn fetched(&self, now: usize, next: &Self, r: Option<usize>) -> bool {
        &&& next.table() == self.table()
        &&& if self.queue().len() == 0 {
            r is None && next.queue() == self.queue()
        } else {
            r == Some(self.queue()[0]) && next.queue() == self.queue().drop_first()
        }
    }

    open spec fn exec_ok(&self, id: usize, args: ExecArgs) -> bool {
        true
    }

    open spec fn execed(&self, id: usize, args: ExecArgs, next: &Self) -> bool {
        *next == *self
    }

    open spec fn fork_ok(&self, parent_id: usize, child_id: usize) -> bool {
        true
    }

    open spec fn forked(&self, parent_id: usize, child_id: usize, next: &Self) -> bool {
        *next == *self
    }

    open spec fn sched_to_ok(&self, id: usize, time: usize) -> bool {
        true
    }

    open spec fn scheduled(&self, id: usize, time: usize, next: &Self) -> bool {
        *next == *self
    }

    open spec fn suspend_ok(&self, id: usize, time: usize) -> bool {
        true
    }

    open spec fn suspended(&self, id: usize, time: usize, next: &Self) -> bool {
        *next == *self
    }

    open spec fn slept(&self, id: usize, next: &Self) -> bool {
        *next == *self
    }

    fn add(&mut self, id: usize) {
        self.ready_queue.push_back(id);
    }

    fn fetch(&mut self, now: usize) -> (r: Option<usize>) {
        self.ready_queue.pop_front()
    }

    fn update_exec(&mut self, id: usize, args: &ExecArgs) {
    }

    fn update_fork(&mut self, parent_id: usize, child_id: usize) {
    }

    fn update_sched_to(&mut self, id: usize, time: usize) {
    }

    fn update_suspend(&mut self, id: usize, time: usize) {
    }

    fn update_sleep(&mut self, id: usize) {
    }
}

impl<T> Manage<T> for DefaultManager<T> {
    open spec fn tasks(&self) -> Map<usize, T> {
        self.table()
    }

    open spec fn same_sched(&self, other: &Self) -> bool {
        other.queue() == self.queue()
    }

    open spec fn delete_ok(&self, id: usize) -> bool {
        true
    }

    open spec fn deleted(&self, id: usize, next: &Self) -> bool {
        next.queue() == self.queue()
    }

    fn insert(&mut self, id: usize, task: T) {
        self.tasks.insert(id, task);
    }

    fn get_mut(&mut self, id: usize) -> (r: Option<&mut T>) {
        map_get_mut(&mut self.tasks, id)
    }

    fn delete(&mut self, id: usize) {
        self.tasks.remove(&id);
    }
}

/// First come, first served: after `add(id)`, `fetch` hands out the task
/// that was at the front of the queue, or `id` itself when the queue was
/// empty; `id` then waits behind the tasks that were there before it.
pub proof fn law_first_come_first_served<T>(
    a: DefaultManager<T>,
    b: DefaultManager<T>,
    c: DefaultManager<T>,
    id: usize,
    now: usize,
    r: Option<usize>,
)
    requires
        a.added(id, &b),
        b.fetched(now, &c, r),
    ensures
        r == Some(if a.queue().len() == 0 {
            id
        } else {
            a.queue()[0]
        }),
        c.queue() == if a.queue().len() == 0 {
            Seq::<usize>::empty()
        } else {
            a.queue().drop_first().push(id)
        },
{
    if a.queue().len() == 0 {
        assert(c.queue() =~= Seq::<usize>::empty());
    } else {
        assert(c.queue() =~= a.queue().drop_first().push(id));
    }
}

} // verus!
