//! Scheduling policies, page-replacement policies and their bookkeeping
//! for a teaching kernel, with their contracts.
pub mod common;
pub mod sched;
pub mod default_manager;
pub mod sjf;
pub mod stcf;
pub mod hrrn;
pub mod stride;
pub mod rms;
pub mod mlfq;
pub mod lottery;
pub mod edf;
pub mod args_handler;
pub mod page_bits;
pub mod space;
pub mod frame_allocator;
pub mod clock_queue;
pub mod lfu_queue;
pub mod clock;
pub mod lfu;
pub mod pff;
pub mod work_set;
pub mod nru;
pub mod virt_frame_swapper;
pub mod timer;
pub mod proc_manager;
pub mod record;

use vstd::prelude::*;

verus! {

} // verus!
