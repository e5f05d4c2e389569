//! The clock policy over all address spaces: one clock queue per task.
use std::collections::BTreeMap;
use vstd::prelude::*;
use crate::clock_queue::{all_mapped, clock_step, collect_ppns, taken_out, tracker_ppns, ClockQueue};
use crate::common::map_get_mut;
use crate::frame_allocator::{FrameTracker, StackFrameAllocator};
use crate::page_bits::PageBits;

verus! {

/// The allocator still has a frame to hand out.
pub open spec fn frames_left(a: StackFrameAllocator) -> bool {
    a.cur() < a.limit() || a.recycled().len() != 0
}

pub struct ClockManager {
    queue: BTreeMap<usize, ClockQueue>,
}

impl ClockManager {
    /// The clock queue of each task.
    pub closed spec fn queues(&self) -> Map<usize, ClockQueue> {
        self.queue@
    }

    pub fn new() -> (r: Self)
        ensures
            r.queues() == Map::<usize, ClockQueue>::empty(),
    {
        ClockManager { queue: BTreeMap::new() }
    }

    /// Records that `vpn` of task `task_id` is now mapped to `ppn`.
    pub fn insert_frame(&mut self, vpn: usize, ppn: usize, task_id: usize, frame: FrameTracker)
        ensures
            final(self).queues().dom() == old(self).queues().dom().insert(task_id),
            forall|t: usize|
                #![trigger final(self).queues()[t]]
                t != task_id && old(self).queues().contains_key(t) ==> final(self).queues()[t]
                    == old(self).queues()[t],
            final(self).queues()[task_id].inner@ == if old(self).queues().contains_key(task_id) {
                old(self).queues()[task_id].inner@.push((ppn, vpn, frame))
            } else {
                seq![(ppn, vpn, frame)]
            },
            final(self).queues()[task_id].ptr == if old(self).queues().contains_key(task_id) {
                old(self).queues()[task_id].ptr
            } else {
                0
            },
    {
        match map_get_mut(&mut self.queue, task_id) {
            Some(q) => {
                q.push_back((ppn, vpn, frame));
            },
            None => {
                let mut tmp = ClockQueue::new();
                tmp.push_back((ppn, vpn, frame));
                assert(tmp.inner@ =~= seq![(ppn, vpn, frame)]);
                self.queue.insert(task_id, tmp);
            },
        }
    }

    /// When no frame is left, sweeps the clock of task `task_id` and
    /// returns the frame taken out, with the task's id; else nothing.
    pub fn work(
        &mut self,
        memory_sets: &mut BTreeMap<usize, PageBits>,
        task_id: usize,
        allocator: &mut StackFrameAllocator,
    ) -> (r: Vec<(usize, usize, usize)>)
        requires
            !frames_left(*old(allocator)) ==> {
                &&& old(self).queues().contains_key(task_id)
                &&& old(self).queues()[task_id].inner@.len() > 0
                &&& old(memory_sets)@.contains_key(task_id)
                &&& all_mapped(old(self).queues()[task_id].inner@, old(memory_sets)@[task_id]@)
                &&& old(allocator).every_in_use(tracker_ppns(old(self).queues()[task_id].inner@))
            },
        ensures
            final(allocator).cur() == old(allocator).cur(),
            final(allocator).limit() == old(allocator).limit(),
            if frames_left(*old(allocator)) {
                &&& final(allocator).recycled() == old(allocator).recycled()
                &&& r@.len() == 0
                &&& final(self).queues() == old(self).queues()
                &&& final(memory_sets)@ == old(memory_sets)@
            } else {
                &&& r@.len() == 1
                &&& r@[0].2 == task_id
                &&& final(self).queues() == old(self).queues().insert(task_id, final(self).queues()[task_id])
                &&& final(memory_sets)@ == old(memory_sets)@.insert(task_id, final(memory_sets)@[task_id])
                &&& clock_step(
                    old(self).queues()[task_id],
                    old(memory_sets)@[task_id]@,
                    final(self).queues()[task_id],
                    final(memory_sets)@[task_id]@,
                    (r@[0].0, r@[0].1),
                )
                &&& taken_out(
                    old(self).queues()[task_id].inner@,
                    final(self).queues()[task_id].inner@,
                    old(allocator).recycled(),
                    final(allocator).recycled(),
                )
            },
    {
        if !allocator.check() {
            let memory_set = map_get_mut(memory_sets, task_id).unwrap();
            let queue = map_get_mut(&mut self.queue, task_id).unwrap();
            let item = queue.work(memory_set, allocator);
            let mut ret = Vec::new();
            ret.push((item.0, item.1, task_id));
            ret
        } else {
            Vec::new()
        }
    }

    /// Forgets the frames of task `task_id`, releasing each to the
    /// allocator in order.
    pub fn clear_frames(&mut self, task_id: usize, allocator: &mut StackFrameAllocator)
        requires
            old(self).queues().contains_key(task_id) ==> old(allocator).all_in_use(
                tracker_ppns(old(self).queues()[task_id].inner@),
            ),
        ensures
            final(self).queues() == old(self).queues().remove(task_id),
            final(allocator).cur() == old(allocator).cur(),
            final(allocator).limit() == old(allocator).limit(),
            final(allocator).recycled() == if old(self).queues().contains_key(task_id) {
                (old(allocator).recycled() + tracker_ppns(old(self).queues()[task_id].inner@))
            } else {
                old(allocator).recycled()
            },
    {
        match self.queue.remove(&task_id) {
            Some(q) => {
                let ppns = collect_ppns(&q.inner);
                allocator.release_all(&ppns);
            },
            None => {},
        }
    }
}

} // verus!
