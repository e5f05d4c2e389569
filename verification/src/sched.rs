//! What every scheduler offers: a task table (`Manage`) and a ready queue
//! with hooks for the kernel's events (`Schedule`).
//!
//! Each scheduler states what each operation does through the relations
//! below; its `impl` gives their bodies.
use vstd::prelude::*;

verus! {

/// The ready queue of a scheduler and its reactions to kernel events.
/// Task ids are plain integers.
pub trait Schedule: Sized {
    /// What `exec` hands the scheduler for a new program.
    type Args;

    /// The scheduler's own consistency condition.
    spec fn inv(&self) -> bool;

    spec fn add_ok(&self, id: usize) -> bool;

    spec fn added(&self, id: usize, next: &Self) -> bool;

    spec fn fetch_ok(&self, now: usize) -> bool;

    spec fn fetched(&self, now: usize, next: &Self, r: Option<usize>) -> bool;

    spec fn exec_ok(&self, id: usize, args: Self::Args) -> bool;

    spec fn execed(&self, id: usize, args: Self::Args, next: &Self) -> bool;

    spec fn fork_ok(&self, parent_id: usize, child_id: usize) -> bool;

    spec fn forked(&self, parent_id: usize, child_id: usize, next: &Self) -> bool;

    spec fn sched_to_ok(&self, id: usize, time: usize) -> bool;

    spec fn scheduled(&self, id: usize, time: usize, next: &Self) -> bool;

    spec fn suspend_ok(&self, id: usize, time: usize) -> bool;

    spec fn suspended(&self, id: usize, time: usize, next: &Self) -> bool;

    spec fn slept(&self, id: usize, next: &Self) -> bool;

    /// Puts `id` into the ready queue.
    fn add(&mut self, id: usize)
        requires
            old(self).inv(),
            old(self).add_ok(id),
        ensures
            final(self).inv(),
            old(self).added(id, &*final(self)),
    ;

    /// Takes the next task to run out of the ready queue; `now` is the
    /// current time in milliseconds, for the policies that look at it.
    fn fetch(&mut self, now: usize) -> (r: Option<usize>)
        requires
            old(self).inv(),
            old(self).fetch_ok(now),
        ensures
            final(self).inv(),
            old(self).fetched(now, &*final(self), r),
    ;

    /// Task `id` has started a new program with `args`.
    fn update_exec(&mut self, id: usize, args: &Self::Args)
        requires
            old(self).inv(),
            old(self).exec_ok(id, *args),
        ensures
            final(self).inv(),
            old(self).execed(id, *args, &*final(self)),
    ;

    /// Task `child_id` was forked from `parent_id`.
    fn update_fork(&mut self, parent_id: usize, child_id: usize)
        requires
            old(self).inv(),
            old(self).fork_ok(parent_id, child_id),
        ensures
            final(self).inv(),
            old(self).forked(parent_id, child_id, &*final(self)),
    ;

    /// Task `id` starts running at `time`.
    fn update_sched_to(&mut self, id: usize, time: usize)
        requires
            old(self).inv(),
            old(self).sched_to_ok(id, time),
        ensures
            final(self).inv(),
            old(self).scheduled(id, time, &*final(self)),
    ;

    /// Task `id` stops running at `time`.
    fn update_suspend(&mut self, id: usize, time: usize)
        requires
            old(self).inv(),
            old(self).suspend_ok(id, time),
        ensures
            final(self).inv(),
            old(self).suspended(id, time, &*final(self)),
    ;

    /// Task `id` gave up the processor of its own accord.
    fn update_sleep(&mut self, id: usize)
        requires
            old(self).inv(),
        ensures
            final(self).inv(),
            old(self).slept(id, &*final(self)),
    ;
}

/// The table of task entities that a scheduler keeps beside its queue.
pub trait Manage<T>: Schedule {
    spec fn tasks(&self) -> Map<usize, T>;

    /// `self` and `other` hold the same scheduling state.
    spec fn same_sched(&self, other: &Self) -> bool;

    spec fn delete_ok(&self, id: usize) -> bool;

    /// The scheduling state after `delete(id)`.
    spec fn deleted(&self, id: usize, next: &Self) -> bool;

    /// Stores task `id`.
    fn insert(&mut self, id: usize, task: T)
        requires
            old(self).inv(),
        ensures
            final(self).inv(),
            final(self).tasks() == old(self).tasks().insert(id, task),
            old(self).same_sched(&*final(self)),
    ;

    /// The task `id`, to change in place.
    fn get_mut(&mut self, id: usize) -> (r: Option<&mut T>)
        requires
            old(self).inv(),
        ensures
            final(self).inv(),
            old(self).same_sched(&*final(self)),
            match r {
                Some(v) => {
                    &&& old(self).tasks().contains_key(id)
                    &&& *v == old(self).tasks()[id]
                    &&& final(self).tasks() == old(self).tasks().insert(id, *final(v))
                },
                None => !old(self).tasks().contains_key(id) && final(self).tasks() == old(
                    self,
                ).tasks(),
            },
    ;

    /// Removes task `id` and what the scheduler knows of it.
    fn delete(&mut self, id: usize)
        requires
            old(self).inv(),
            old(self).delete_ok(id),
        ensures
            final(self).inv(),
            final(self).tasks() == old(self).tasks().remove(id),
            old(self).deleted(id, &*final(self)),
    ;
}

/// An `add(id)` or a `fetch(now)` on a ready queue.
pub enum QueueStep {
    Add(usize),
    Fetch(usize),
}

} // verus!
