use kernel_plugins::clock::ClockManager;
use kernel_plugins::clock_queue::ClockQueue;
use kernel_plugins::frame_allocator::{FrameTracker, StackFrameAllocator};
use kernel_plugins::lfu::LFUManager;
use kernel_plugins::lfu_queue::LfuQueue;
use kernel_plugins::nru::NRUManager;
use kernel_plugins::page_bits::{clean_flags, fault_flags_supported, unmap_flags, PageBits, ACCESS_FLAG, DIRTY_FLAG, VALID_FLAG};
use kernel_plugins::pff::{PffManager, PFF_T};
use kernel_plugins::space::page_image;
use kernel_plugins::work_set::{WorkSetManager, WORKSET_NUM};
use std::collections::BTreeMap;

const NONE: usize = VALID_FLAG;
const ACC: usize = VALID_FLAG | ACCESS_FLAG;
const DIR: usize = VALID_FLAG | DIRTY_FLAG;
const BOTH: usize = VALID_FLAG | ACCESS_FLAG | DIRTY_FLAG;

fn space(pages: &[(usize, usize)]) -> PageBits {
    let mut p = PageBits::new();
    for (vpn, flags) in pages {
        p.set(*vpn, *flags);
    }
    p
}

fn with_frames() -> StackFrameAllocator {
    let mut a = StackFrameAllocator::new();
    a.init(0, 8);
    a
}

#[test]
fn allocator_hands_out_fresh_frames_in_order() {
    let mut a = StackFrameAllocator::new();
    assert!(!a.check());
    a.init(10, 13);
    assert!(a.check());
    assert_eq!(a.alloc_frame(), Some(10));
    assert_eq!(a.alloc_frame(), Some(11));
    assert_eq!(a.alloc_frame(), Some(12));
    assert!(!a.check());
    assert_eq!(a.alloc_frame(), None);
}

#[test]
fn dealloc_then_alloc_returns_the_same_frame() {
    let mut a = StackFrameAllocator::new();
    a.init(0, 4);
    a.alloc_frame();
    a.alloc_frame();
    a.alloc_frame();
    a.dealloc(1);
    a.dealloc(0);
    assert!(a.check());
    assert_eq!(a.alloc_frame(), Some(0));
    assert_eq!(a.alloc_frame(), Some(1));
    assert_eq!(a.alloc_frame(), Some(3));
    assert_eq!(a.alloc_frame(), None);
}

#[test]
fn frame_tracker_keeps_its_page() {
    let f = FrameTracker::new(77);
    assert_eq!(f.ppn, 77);
    assert_eq!(f.clone().ppn, 77);
}

#[test]
fn flag_cleaning() {
    assert_eq!(clean_flags(BOTH, true, false), DIR);
    assert_eq!(clean_flags(BOTH, false, true), ACC);
    assert_eq!(clean_flags(BOTH, true, true), NONE);
    assert_eq!(clean_flags(NONE, true, true), NONE);
    assert_eq!(clean_flags(BOTH, false, false), BOTH);
    assert_eq!(unmap_flags(BOTH), ACCESS_FLAG | DIRTY_FLAG);
    assert_eq!(unmap_flags(NONE), 0);
}

#[test]
fn page_bits_read_and_clear() {
    let mut p = space(&[(5, BOTH), (6, DIR)]);
    assert_eq!(p.get(5), Some(BOTH));
    assert_eq!(p.get(7), None);
    assert!(p.has_accessed(5));
    assert!(!p.has_accessed(6));
    assert_eq!(p.get_accessed_dirty(5), (true, true));
    assert_eq!(p.get_accessed_dirty(6), (false, true));
    p.clear_accessed(5);
    assert_eq!(p.get(5), Some(DIR));
    p.clear_accessed(6);
    assert_eq!(p.get(6), Some(DIR));
}

#[test]
fn clock_gives_a_second_chance() {
    let mut q = ClockQueue::new();
    q.push_back((10, 100, FrameTracker::new(10)));
    q.push_back((11, 101, FrameTracker::new(11)));
    q.push_back((12, 102, FrameTracker::new(12)));
    assert_eq!(q.len(), 3);
    let mut p = space(&[(100, ACC), (101, NONE), (102, ACC)]);
    let mut alloc = handed_out(128);
    assert_eq!(q.work(&mut p, &mut alloc), (11, 101));
    assert_eq!(p.get(100), Some(NONE));
    assert_eq!(q.ptr, 1);
    assert_eq!(q.work(&mut p, &mut alloc), (10, 100));
    assert_eq!(p.get(102), Some(NONE));
    assert_eq!(q.work(&mut p, &mut alloc), (12, 102));
    assert_eq!(q.len(), 0);
}

#[test]
fn clock_sweeps_a_full_turn_when_all_accessed() {
    let mut q = ClockQueue::new();
    q.push_back((1, 1, FrameTracker::new(1)));
    q.push_back((2, 2, FrameTracker::new(2)));
    let mut p = space(&[(1, ACC), (2, ACC)]);
    let mut alloc = handed_out(128);
    assert_eq!(q.work(&mut p, &mut alloc), (1, 1));
    assert_eq!(p.get(2), Some(NONE));
}

#[test]
fn improved_clock_takes_the_frame_under_the_hand() {
    let mut q = ClockQueue::new();
    q.push_back((1, 1, FrameTracker::new(1)));
    q.push_back((2, 2, FrameTracker::new(2)));
    let mut p = space(&[(1, BOTH), (2, NONE)]);
    let mut alloc = handed_out(128);
    assert_eq!(q.work_improve(&mut p, &mut alloc), (1, 1));
    assert_eq!(p.get(1), Some(DIR));
    assert_eq!(q.work_improve(&mut p, &mut alloc), (2, 2));
}

#[test]
fn clock_manager_evicts_only_without_free_frames() {
    let mut m = ClockManager::new();
    m.insert_frame(100, 10, 1, FrameTracker::new(10));
    m.insert_frame(101, 11, 1, FrameTracker::new(11));
    let mut spaces = BTreeMap::new();
    spaces.insert(1, space(&[(100, ACC), (101, NONE)]));
    let mut free = with_frames();
    assert!(m.work(&mut spaces, 1, &mut free).is_empty());
    assert_eq!(m.work(&mut spaces, 1, &mut handed_out(128)), vec![(11, 101, 1)]);
    m.clear_frames(1, &mut handed_out(128));
}

#[test]
fn lfu_queue_counts_uses_and_takes_the_most_used() {
    let mut q = LfuQueue::new();
    q.push_back((10, 100, FrameTracker::new(10), 1));
    q.push_back((11, 101, FrameTracker::new(11), 1));
    assert_eq!(q.len(), 2);
    let mut p = space(&[(100, NONE), (101, ACC)]);
    q.handle_clock_interrupt(&mut p);
    assert_eq!(p.get(101), Some(NONE));
    let mut alloc = handed_out(128);
    assert_eq!(q.work(&mut p, &mut alloc), (11, 101));
    assert_eq!(q.len(), 1);
}

#[test]
fn lfu_manager_ticks_and_evicts() {
    let mut m = LFUManager::new();
    m.insert_frame(100, 10, 1, FrameTracker::new(10));
    m.insert_frame(101, 11, 1, FrameTracker::new(11));
    let mut spaces = BTreeMap::new();
    spaces.insert(1, space(&[(100, ACC), (101, NONE)]));
    let mut free = with_frames();
    m.handle_time_interrupt(&mut spaces, &mut free);
    assert_eq!(spaces[&1].get(100), Some(ACC));
    assert!(m.work(&mut spaces, 1, &mut free).is_empty());
    m.handle_time_interrupt(&mut spaces, &mut handed_out(128));
    assert_eq!(spaces[&1].get(100), Some(NONE));
    assert_eq!(m.work(&mut spaces, 1, &mut handed_out(128)), vec![(10, 100, 1)]);
    m.clear_frames(1, &mut handed_out(128));
}

#[test]
fn pff_gives_up_unaccessed_pages_when_faults_are_rare() {
    let mut m = PffManager::new();
    m.insert_frame(100, 10, 1, FrameTracker::new(10));
    m.insert_frame(101, 11, 1, FrameTracker::new(11));
    m.insert_frame(200, 20, 2, FrameTracker::new(20));
    let mut spaces = BTreeMap::new();
    spaces.insert(1, space(&[(100, ACC), (101, NONE)]));
    spaces.insert(2, space(&[(200, NONE)]));
    let mut free = with_frames();
    assert!(m.work(&mut spaces, 1, &mut free, 1000).is_empty());
    let r = m.work(&mut spaces, 1, &mut handed_out(128), 1000 + PFF_T + 1);
    assert_eq!(r, vec![(11, 101, 1), (20, 200, 2)]);
    assert_eq!(spaces[&1].get(100), Some(NONE));
}

#[test]
fn pff_gives_up_the_oldest_page_when_faults_are_frequent() {
    let mut m = PffManager::new();
    m.insert_frame(100, 10, 1, FrameTracker::new(10));
    m.insert_frame(101, 11, 1, FrameTracker::new(11));
    let mut spaces = BTreeMap::new();
    spaces.insert(1, space(&[(100, ACC), (101, ACC)]));
    assert_eq!(m.work(&mut spaces, 1, &mut handed_out(128), 50), vec![(10, 100, 1)]);
    assert_eq!(m.work(&mut spaces, 1, &mut handed_out(128), 60), vec![(11, 101, 1)]);
}

#[test]
fn pff_pop_unaccessed_frames_sweeps_every_task() {
    let mut m = PffManager::new();
    m.insert_frame(1, 10, 3, FrameTracker::new(10));
    m.insert_frame(2, 11, 3, FrameTracker::new(11));
    let mut spaces = BTreeMap::new();
    spaces.insert(3, space(&[(1, NONE), (2, NONE)]));
    assert_eq!(m.pop_unaccessed_frames(&mut spaces, &mut handed_out(128)), vec![(11, 2, 3), (10, 1, 3)]);
    m.clear_frames(3, &mut handed_out(128));
}

#[test]
fn work_set_keeps_pages_seen_in_the_window() {
    let mut m = WorkSetManager::new();
    m.insert_frame(100, 10, 1, FrameTracker::new(10));
    m.insert_frame(101, 11, 1, FrameTracker::new(11));
    let mut spaces = BTreeMap::new();
    spaces.insert(1, space(&[(100, ACC), (101, NONE)]));
    m.handle_time_interrupt(&mut spaces);
    assert_eq!(spaces[&1].get(100), Some(NONE));
    assert_eq!(m.work(&mut spaces, 1, &mut handed_out(128)), vec![(11, 101, 1)]);
    assert!(m.work(&mut spaces, 1, &mut handed_out(128)).is_empty());
    for _ in 0..WORKSET_NUM {
        m.handle_time_interrupt(&mut spaces);
    }
    assert_eq!(m.work(&mut spaces, 1, &mut handed_out(128)), vec![(10, 100, 1)]);
    m.clear_frames(1, &mut handed_out(128));
}

#[test]
fn work_set_keeps_a_page_accessed_right_now() {
    let mut m = WorkSetManager::new();
    m.insert_frame(7, 70, 2, FrameTracker::new(70));
    let mut spaces = BTreeMap::new();
    spaces.insert(2, space(&[(7, ACC)]));
    assert!(m.work(&mut spaces, 2, &mut handed_out(128)).is_empty());
    assert_eq!(spaces[&2].get(7), Some(ACC));
}

#[test]
fn nru_gives_up_from_the_highest_class() {
    let mut m = NRUManager::new();
    m.insert_frame(100, 10, 1, FrameTracker::new(10));
    m.insert_frame(101, 11, 1, FrameTracker::new(11));
    m.insert_frame(102, 12, 1, FrameTracker::new(12));
    m.insert_frame(103, 13, 1, FrameTracker::new(13));
    let p = space(&[(100, NONE), (101, DIR), (102, BOTH), (103, ACC)]);
    assert_eq!(m.evict_drawn(&p, 1, 0, &mut handed_out(128)), (12, 102, 1));
    assert_eq!(m.evict_drawn(&p, 1, 0, &mut handed_out(128)), (13, 103, 1));
    let mut spaces = BTreeMap::new();
    spaces.insert(1, p);
    let mut free = with_frames();
    assert!(m.work(&spaces, 1, &mut free).is_empty());
    assert_eq!(m.work(&spaces, 1, &mut handed_out(128)), vec![(11, 101, 1)]);
    assert_eq!(m.work(&spaces, 1, &mut handed_out(128)), vec![(10, 100, 1)]);
}

#[test]
fn nru_draw_lands_in_the_highest_class() {
    let mut m = NRUManager::new();
    for v in 0..6 {
        m.insert_frame(v, v + 10, 1, FrameTracker::new(v + 10));
    }
    let mut spaces = BTreeMap::new();
    spaces.insert(1, space(&[(0, NONE), (1, ACC), (2, NONE), (3, ACC), (4, DIR), (5, ACC)]));
    let r = m.work(&spaces, 1, &mut handed_out(128));
    assert_eq!(r.len(), 1);
    assert!(r[0] == (11, 1, 1) || r[0] == (13, 3, 1) || r[0] == (15, 5, 1));
}

#[test]
fn nru_tick_clears_accessed_bits_without_free_frames() {
    let mut m = NRUManager::new();
    m.insert_frame(1, 10, 1, FrameTracker::new(10));
    m.insert_frame(2, 11, 2, FrameTracker::new(11));
    let mut spaces = BTreeMap::new();
    spaces.insert(1, space(&[(1, BOTH)]));
    spaces.insert(2, space(&[(2, ACC)]));
    let mut free = with_frames();
    m.handle_time_interrupt(&mut spaces, &mut free);
    assert_eq!(spaces[&1].get(1), Some(BOTH));
    m.handle_time_interrupt(&mut spaces, &mut handed_out(128));
    assert_eq!(spaces[&1].get(1), Some(DIR));
    assert_eq!(spaces[&2].get(2), Some(NONE));
    m.clear_frames(2, &mut handed_out(128));
}

fn handed_out(n: usize) -> StackFrameAllocator {
    let mut a = StackFrameAllocator::new();
    a.init(0, n);
    for _ in 0..n {
        a.alloc_frame();
    }
    a
}

#[test]
fn evicted_frame_goes_back_to_the_allocator() {
    let mut m = ClockManager::new();
    m.insert_frame(100, 0, 1, FrameTracker::new(0));
    m.insert_frame(101, 1, 1, FrameTracker::new(1));
    let mut spaces = BTreeMap::new();
    spaces.insert(1, space(&[(100, ACC), (101, NONE)]));
    let mut a = handed_out(2);
    assert!(!a.check());
    assert_eq!(m.work(&mut spaces, 1, &mut a), vec![(1, 101, 1)]);
    assert!(a.check());
    assert_eq!(a.alloc_frame(), Some(1));
}

#[test]
fn cleared_frames_go_back_in_order() {
    let mut m = PffManager::new();
    m.insert_frame(10, 0, 4, FrameTracker::new(0));
    m.insert_frame(11, 2, 4, FrameTracker::new(2));
    let mut a = handed_out(3);
    m.clear_frames(4, &mut a);
    assert_eq!(a.alloc_frame(), Some(2));
    assert_eq!(a.alloc_frame(), Some(0));
    assert_eq!(a.alloc_frame(), None);
}

#[test]
fn released_frames_are_reused_last_first() {
    let mut a = handed_out(4);
    a.release_all(&vec![3, 1]);
    assert_eq!(a.alloc_frame(), Some(1));
    assert_eq!(a.alloc_frame(), Some(3));
    assert_eq!(a.alloc_frame(), None);
}

#[test]
fn work_set_releases_every_frame_given_up() {
    let mut m = WorkSetManager::new();
    m.insert_frame(100, 0, 1, FrameTracker::new(0));
    m.insert_frame(101, 1, 1, FrameTracker::new(1));
    let mut spaces = BTreeMap::new();
    spaces.insert(1, space(&[(100, NONE), (101, NONE)]));
    let mut a = handed_out(2);
    assert_eq!(m.work(&mut spaces, 1, &mut a), vec![(1, 101, 1), (0, 100, 1)]);
    assert_eq!(a.alloc_frame(), Some(0));
    assert_eq!(a.alloc_frame(), Some(1));
}

#[test]
fn pff_releases_the_frames_it_gives_up() {
    let mut m = PffManager::new();
    m.insert_frame(100, 0, 1, FrameTracker::new(0));
    m.insert_frame(101, 1, 1, FrameTracker::new(1));
    let mut spaces = BTreeMap::new();
    spaces.insert(1, space(&[(100, ACC), (101, ACC)]));
    let mut a = handed_out(2);
    assert_eq!(m.work(&mut spaces, 1, &mut a, 5), vec![(0, 100, 1)]);
    assert_eq!(a.alloc_frame(), Some(0));
}

#[test]
fn lfu_and_nru_release_their_victims() {
    let mut l = LFUManager::new();
    l.insert_frame(100, 0, 1, FrameTracker::new(0));
    let mut spaces = BTreeMap::new();
    spaces.insert(1, space(&[(100, NONE)]));
    let mut a = handed_out(2);
    assert_eq!(l.work(&mut spaces, 1, &mut a), vec![(0, 100, 1)]);
    assert_eq!(a.alloc_frame(), Some(0));
    let mut n = NRUManager::new();
    n.insert_frame(100, 1, 1, FrameTracker::new(1));
    let mut b = handed_out(2);
    assert_eq!(n.work(&spaces, 1, &mut b), vec![(1, 100, 1)]);
    assert_eq!(b.alloc_frame(), Some(1));
}

#[test]
fn allocator_stays_within_its_range() {
    let mut a = StackFrameAllocator::new();
    a.init(10, 13);
    assert_eq!(a.alloc_frame(), Some(10));
    assert_eq!(a.alloc_frame(), Some(11));
    a.dealloc(10);
    assert_eq!(a.alloc_frame(), Some(10));
    assert_eq!(a.alloc_frame(), Some(12));
    assert!(!a.check());
    assert_eq!(a.alloc_frame(), None);
    a.dealloc(11);
    assert!(a.check());
    assert_eq!(a.alloc_frame(), Some(11));
    assert_eq!(a.alloc_frame(), None);
}

#[test]
fn page_fault_flags_are_checked() {
    let read: usize = 2;
    let write: usize = 4;
    assert!(fault_flags_supported(None, read));
    assert!(fault_flags_supported(Some(VALID_FLAG | read | write), read | write));
    assert!(!fault_flags_supported(Some(VALID_FLAG | read), write));
    assert!(fault_flags_supported(Some(read), write));
}

#[test]
fn mapped_pages_hold_the_data_at_its_offset() {
    let img = page_image(8, &[7, 8, 9], 2);
    assert_eq!(img, vec![0, 0, 7, 8, 9, 0, 0, 0]);
    assert_eq!(page_image(3, &[1, 2, 3], 0), vec![1, 2, 3]);
    assert_eq!(page_image(2, &[], 0), vec![0, 0]);
}
