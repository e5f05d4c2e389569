use kernel_plugins::virt_frame_swapper::{IdeManager, IDE, MAX_PAGES, PAGE_SIZE};

fn page(b: u8) -> Vec<u8> {
    (0..PAGE_SIZE).map(|i| b.wrapping_add(i as u8)).collect()
}

#[test]
fn ide_reads_back_what_was_written() {
    let mut ide = IDE::new();
    assert!(IDE::ide_valid(0));
    assert!(IDE::ide_valid(MAX_PAGES - 1));
    assert!(!IDE::ide_valid(MAX_PAGES));
    let src = page(7);
    assert_eq!(ide.ide_write(3, &src), 0);
    let mut dst = vec![0u8; PAGE_SIZE];
    assert_eq!(ide.ide_read(3, &mut dst), 0);
    assert_eq!(dst, src);
    let mut other = vec![1u8; PAGE_SIZE];
    assert_eq!(ide.ide_read(4, &mut other), 0);
    assert!(other.iter().all(|b| *b == 0));
}

#[test]
fn ide_refuses_a_slot_past_the_end() {
    let mut ide = IDE::new();
    let src = page(1);
    assert_eq!(ide.ide_write(MAX_PAGES, &src), 1);
    let mut dst = vec![9u8; 3];
    assert_eq!(ide.ide_read(MAX_PAGES, &mut dst), 1);
    assert_eq!(dst, vec![9u8; 3]);
}

#[test]
fn swapped_page_comes_back() {
    let mut m = IdeManager::new();
    assert!(!m.check(1, 100));
    m.swap_in(1, 100, &page(10));
    m.swap_in(1, 101, &page(20));
    m.swap_in(2, 100, &page(30));
    assert!(m.check(1, 100));
    assert!(m.check(2, 100));
    let mut dst = vec![0u8; PAGE_SIZE];
    m.swap_out(1, 101, &mut dst);
    assert_eq!(dst, page(20));
    assert!(!m.check(1, 101));
    m.swap_out(2, 100, &mut dst);
    assert_eq!(dst, page(30));
    m.swap_out(1, 100, &mut dst);
    assert_eq!(dst, page(10));
}

#[test]
fn freed_slot_is_reused_without_harm() {
    let mut m = IdeManager::new();
    m.swap_in(1, 1, &page(1));
    m.swap_in(1, 2, &page(2));
    let mut dst = vec![0u8; PAGE_SIZE];
    m.swap_out(1, 1, &mut dst);
    m.swap_in(3, 9, &page(3));
    m.swap_out(1, 2, &mut dst);
    assert_eq!(dst, page(2));
    m.swap_out(3, 9, &mut dst);
    assert_eq!(dst, page(3));
}

#[test]
fn clearing_a_task_forgets_its_pages_only() {
    let mut m = IdeManager::new();
    m.swap_in(1, 1, &page(1));
    m.swap_in(1, 2, &page(2));
    m.swap_in(2, 1, &page(5));
    m.clear_disk_frames(1);
    assert!(!m.check(1, 1));
    assert!(!m.check(1, 2));
    assert!(m.check(2, 1));
    m.clear_disk_frames(7);
    m.swap_in(4, 4, &page(4));
    m.swap_in(4, 5, &page(6));
    let mut dst = vec![0u8; PAGE_SIZE];
    m.swap_out(2, 1, &mut dst);
    assert_eq!(dst, page(5));
    m.swap_out(4, 4, &mut dst);
    assert_eq!(dst, page(4));
    m.swap_out(4, 5, &mut dst);
    assert_eq!(dst, page(6));
}

#[test]
fn ide_slot_keeps_its_last_write_through_other_writes() {
    let mut ide = IDE::new();
    assert_eq!(ide.ide_write(3, &page(1)), 0);
    assert_eq!(ide.ide_write(4, &page(2)), 0);
    assert_eq!(ide.ide_write(3, &page(3)), 0);
    assert_eq!(ide.ide_write(MAX_PAGES, &page(9)), 1);
    assert_eq!(ide.ide_write(5, &page(4)), 0);
    let mut dst = vec![0u8; PAGE_SIZE];
    assert_eq!(ide.ide_read(3, &mut dst), 0);
    assert_eq!(dst, page(3));
    assert_eq!(ide.ide_read(4, &mut dst), 0);
    assert_eq!(dst, page(2));
}

#[test]
fn disk_run_keeps_a_page_until_it_is_taken_out() {
    let mut m = IdeManager::new();
    assert!(!m.check(1, 5));
    m.swap_in(1, 5, &page(10));
    m.swap_in(2, 5, &page(20));
    m.swap_in(2, 6, &page(30));
    let mut dst = vec![0u8; PAGE_SIZE];
    m.swap_out(2, 5, &mut dst);
    assert_eq!(dst, page(20));
    m.clear_disk_frames(2);
    assert!(!m.check(2, 6));
    m.swap_in(3, 1, &page(40));
    assert!(m.check(1, 5));
    m.swap_out(1, 5, &mut dst);
    assert_eq!(dst, page(10));
    assert!(!m.check(1, 5));
    assert!(m.check(3, 1));
}
