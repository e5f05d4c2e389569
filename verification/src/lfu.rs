//! The least-frequently-used policy over all address spaces: one counted
//! queue per task.
use std::collections::BTreeMap;
use vstd::prelude::*;
use crate::clock::frames_left;
use crate::common::{keys_of, map_get_mut, sorted_keys};
use crate::frame_allocator::{FrameTracker, StackFrameAllocator};
use crate::lfu_queue::{collect_counted_ppns, counted_ppns, first_most_used, lfu_step, lfu_tick, ticked, tick_ok, LfuQueue};
use crate::page_bits::PageBits;

verus! {

/// Every queue's task has an address space, and every queue can tick in it.
pub open spec fn all_tickable(qs: Map<usize, LfuQueue>, spaces: Map<usize, PageBits>) -> bool {
    forall|t: usize|
        #![trigger qs[t]]
        qs.contains_key(t) ==> spaces.contains_key(t) && tick_ok(qs[t].inner@, spaces[t]@)
}

pub struct LFUManager {
    queue: BTreeMap<usize, LfuQueue>,
}

impl LFUManager {
    /// The counted queue of each task.
    pub closed spec fn queues(&self) -> Map<usize, LfuQueue> {
        self.queue@
    }

    pub fn new() -> (r: Self)
        ensures
            r.queues() == Map::<usize, LfuQueue>::empty(),
    {
        LFUManager { queue: BTreeMap::new() }
    }

    /// Records that `vpn` of task `task_id` is now mapped to `ppn`, with a
    /// counter of 1.
    pub fn insert_frame(&mut self, vpn: usize, ppn: usize, task_id: usize, frame: FrameTracker)
        ensures
            final(self).queues().dom() == old(self).queues().dom().insert(task_id),
            forall|t: usize|
                #![trigger final(self).queues()[t]]
                t != task_id && old(self).queues().contains_key(t) ==> final(self).queues()[t]
                    == old(self).queues()[t],
            final(self).queues()[task_id].inner@ == if old(self).queues().contains_key(task_id) {
                old(self).queues()[task_id].inner@.push((ppn, vpn, frame, 1u16))
            } else {
                seq![(ppn, vpn, frame, 1u16)]
            },
    {
        let flag: u16 = 1;
        match map_get_mut(&mut self.queue, task_id) {
            Some(q) => {
                q.push_back((ppn, vpn, frame, flag));
            },
            None => {
                let mut tmp = LfuQueue::new();
                tmp.push_back((ppn, vpn, frame, flag));
                assert(tmp.inner@ =~= seq![(ppn, vpn, frame, 1u16)]);
                self.queue.insert(task_id, tmp);
            },
        }
    }

    /// When no frame is left, evicts the most used frame of task
    /// `task_id` and returns it with the task's id; else nothing.
    pub fn work(
        &mut self,
        memory_sets: &mut BTreeMap<usize, PageBits>,
        task_id: usize,
        allocator: &mut StackFrameAllocator,
    ) -> (r: Vec<(usize, usize, usize)>)
        requires
            !frames_left(*old(allocator)) ==> {
                &&& old(self).queues().contains_key(task_id)
                &&& old(self).queues()[task_id].inner@.len() > 0
                &&& old(memory_sets)@.contains_key(task_id)
                &&& tick_ok(old(self).queues()[task_id].inner@, old(memory_sets)@[task_id]@)
                &&& old(allocator).every_in_use(counted_ppns(old(self).queues()[task_id].inner@))
            },
        ensures
            final(allocator).cur() == old(allocator).cur(),
            final(allocator).limit() == old(allocator).limit(),
            if frames_left(*old(allocator)) {
                &&& final(allocator).recycled() == old(allocator).recycled()
                &&& r@.len() == 0
                &&& final(self).queues() == old(self).queues()
                &&& final(memory_sets)@ == old(memory_sets)@
            } else {
                &&& r@.len() == 1
                &&& r@[0].2 == task_id
                &&& final(self).queues() == old(self).queues().insert(task_id, final(self).queues()[task_id])
                &&& final(memory_sets)@ == old(memory_sets)@.insert(task_id, final(memory_sets)@[task_id])
                &&& lfu_step(
                    old(self).queues()[task_id],
                    old(memory_sets)@[task_id]@,
                    final(self).queues()[task_id],
                    final(memory_sets)@[task_id]@,
                    (r@[0].0, r@[0].1),
                )
                &&& ({
                    let q = old(self).queues()[task_id].inner@;
                    exists|k: int|
                        first_most_used(Seq::new(q.len(), |i: int| ticked(q, old(memory_sets)@[task_id]@, i)), k)
                            && final(allocator).recycled() == old(allocator).recycled().push(q[k].2.ppn)
                })
            },
    {
        if !allocator.check() {
            let memory_set = map_get_mut(memory_sets, task_id).unwrap();
            let cur_queue = map_get_mut(&mut self.queue, task_id).unwrap();
            let item = cur_queue.work(memory_set, allocator);
            let mut ret = Vec::new();
            ret.push((item.0, item.1, task_id));
            ret
        } else {
            Vec::new()
        }
    }

    /// Forgets the frames of task `task_id`, releasing each to the
    /// allocator in order.
    pub fn clear_frames(&mut self, task_id: usize, allocator: &mut StackFrameAllocator)
        requires
            old(self).queues().contains_key(task_id) ==> old(allocator).all_in_use(
                counted_ppns(old(self).queues()[task_id].inner@),
            ),
        ensures
            final(self).queues() == old(self).queues().remove(task_id),
            final(allocator).cur() == old(allocator).cur(),
            final(allocator).limit() == old(allocator).limit(),
            final(allocator).recycled() == if old(self).queues().contains_key(task_id) {
                (old(allocator).recycled() + counted_ppns(old(self).queues()[task_id].inner@))
            } else {
                old(allocator).recycled()
            },
    {
        match self.queue.remove(&task_id) {
            Some(q) => {
                let ppns = collect_counted_ppns(&q.inner);
                allocator.release_all(&ppns);
            },
            None => {},
        }
    }

    /// On a clock tick, when no frame is left, every task's queue counts
    /// the uses of its pages.
    pub fn handle_time_interrupt(
        &mut self,
        memory_sets: &mut BTreeMap<usize, PageBits>,
        allocator: &mut StackFrameAllocator,
    )
        requires
            !frames_left(*old(allocator)) ==> all_tickable(old(self).queues(), old(memory_sets)@),
        ensures
            final(allocator).cur() == old(allocator).cur(),
            final(allocator).limit() == old(allocator).limit(),
            final(allocator).recycled() == old(allocator).recycled(),
            final(self).queues().dom() == old(self).queues().dom(),
            final(memory_sets)@.dom() == old(memory_sets)@.dom(),
            frames_left(*old(allocator)) ==> final(self).queues() == old(self).queues()
                && final(memory_sets)@ == old(memory_sets)@,
            !frames_left(*old(allocator)) ==> {
                &&& forall|t: usize|
                    #![trigger final(self).queues()[t]]
                    old(self).queues().contains_key(t) ==> lfu_tick(
                        old(self).queues()[t],
                        old(memory_sets)@[t]@,
                        final(self).queues()[t],
                        final(memory_sets)@[t]@,
                    )
                &&& forall|t: usize|
                    #![trigger final(memory_sets)@[t]]
                    old(memory_sets)@.contains_key(t) && !old(self).queues().contains_key(t)
                        ==> final(memory_sets)@[t] == old(memory_sets)@[t]
            },
    {
        if !allocator.check() {
            let keys = keys_of(&self.queue);
            let ghost q0 = self.queue@;
            let ghost m0 = memory_sets@;
            let mut i: usize = 0;
            assert(all_tickable(q0, m0));
            while i < keys.len()
                invariant
                    sorted_keys(q0, keys@),
                    i <= keys@.len(),
                    self.queue@.dom() == q0.dom(),
                    memory_sets@.dom() == m0.dom(),
                    all_tickable(q0, m0),
                    forall|j: int|
                        0 <= j < i ==> lfu_tick(
                            q0[#[trigger] keys@[j]],
                            m0[keys@[j]]@,
                            self.queue@[keys@[j]],
                            memory_sets@[keys@[j]]@,
                        ),
                    forall|j: int|
                        i <= j < keys@.len() ==> self.queue@[#[trigger] keys@[j]] == q0[keys@[j]]
                            && memory_sets@[keys@[j]] == m0[keys@[j]],
                    forall|t: usize|
                        #![trigger memory_sets@[t]]
                        m0.contains_key(t) && !q0.contains_key(t) ==> memory_sets@[t] == m0[t],
                decreases keys@.len() - i,
            {
                let key = keys[i];
                proof {
                    assert(q0.contains_key(key));
                }
                let memory_set = map_get_mut(memory_sets, key).unwrap();
                let cur_queue = map_get_mut(&mut self.queue, key).unwrap();
                cur_queue.handle_clock_interrupt(memory_set);
                i = i + 1;
            }
            proof {
                assert forall|t: usize|
                    #![trigger self.queue@[t]]
                    q0.contains_key(t) implies lfu_tick(
                    q0[t],
                    m0[t]@,
                    self.queue@[t],
                    memory_sets@[t]@,
                ) by {
                    let j = choose|j: int| 0 <= j < keys@.len() && #[trigger] keys@[j] == t;
                }
            }
        }
    }
}

} // verus!
