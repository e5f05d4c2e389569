//! Entry points through which the kernel reports system calls and context
//! switches to whichever scheduler it runs.
use vstd::prelude::*;
use crate::sched::Schedule;

verus! {

pub struct SyscallHooks {}

impl SyscallHooks {
    /// Task `id` exec'd a program with `args`.
    pub fn handle_exec<M: Schedule>(id: usize, args: &M::Args, manager: &mut M)
        requires
            old(manager).inv(),
            old(manager).exec_ok(id, *args),
        ensures
            final(manager).inv(),
            old(manager).execed(id, *args, &*final(manager)),
    {
        manager.update_exec(id, args);
    }

    /// Task `child_id` was forked from `parent_id`.
    pub fn handle_fork<M: Schedule>(parent_id: usize, child_id: usize, manager: &mut M)
        requires
            old(manager).inv(),
            old(manager).fork_ok(parent_id, child_id),
        ensures
            final(manager).inv(),
            old(manager).forked(parent_id, child_id, &*final(manager)),
    {
        manager.update_fork(parent_id, child_id);
    }

    /// A new thread `child_id` of `parent_id`: treated as a fork.
    pub fn handle_thread_create<M: Schedule>(parent_id: usize, child_id: usize, manager: &mut M)
        requires
            old(manager).inv(),
            old(manager).fork_ok(parent_id, child_id),
        ensures
            final(manager).inv(),
            old(manager).forked(parent_id, child_id, &*final(manager)),
    {
        SyscallHooks::handle_fork(parent_id, child_id, manager);
    }

    /// Task `id` went to sleep of its own accord.
    pub fn handle_sleep<M: Schedule>(id: usize, manager: &mut M)
        requires
            old(manager).inv(),
        ensures
            final(manager).inv(),
            old(manager).slept(id, &*final(manager)),
    {
        manager.update_sleep(id);
    }
}

pub struct KernelHook {}

impl KernelHook {
    /// The kernel switches to task `id` at `time`.
    pub fn handle_sched_to<M: Schedule>(id: usize, manager: &mut M, time: usize)
        requires
            old(manager).inv(),
            old(manager).sched_to_ok(id, time),
        ensures
            final(manager).inv(),
            old(manager).scheduled(id, time, &*final(manager)),
    {
        manager.update_sched_to(id, time);
    }

    /// The kernel takes the processor from task `id` at `time`.
    pub fn handle_suspend<M: Schedule>(id: usize, manager: &mut M, time: usize)
        requires
            old(manager).inv(),
            old(manager).suspend_ok(id, time),
        ensures
            final(manager).inv(),
            old(manager).suspended(id, time, &*final(manager)),
    {
        manager.update_suspend(id, time)
    }
}

} // verus!
