use kernel_plugins::args_handler::{KernelHook, SyscallHooks};
use kernel_plugins::default_manager::{DefaultManager, ExecArgs as FifoArgs};
use kernel_plugins::edf::{EDFManager, ExecArgs as EdfArgs};
use kernel_plugins::hrrn::{ExecArgs as HrrnArgs, HRRNManager, HRRNTaskBlock};
use kernel_plugins::lottery::{ExecArgs as LotteryArgs, LotteryManager};
use kernel_plugins::mlfq::{ExecArgs as MlfqArgs, MLFQManager};
use kernel_plugins::rms::{ExecArgs as RmsArgs, RMSManager};
use kernel_plugins::sched::{Manage, Schedule};
use kernel_plugins::sjf::{ExecArgs as SjfArgs, SJFManager};
use kernel_plugins::stcf::{ExecArgs as StcfArgs, STCFManager};
use kernel_plugins::stride::{ExecArgs as StrideArgs, StrideBlock, StrideManager, BIG_STRIDE};
use std::cmp::Ordering;

#[test]
fn fifo_hands_tasks_out_in_arrival_order() {
    let mut m: DefaultManager<&str> = DefaultManager::new();
    m.add(3);
    m.add(1);
    m.add(2);
    assert_eq!(m.fetch(0), Some(3));
    assert_eq!(m.fetch(0), Some(1));
    m.add(3);
    assert_eq!(m.fetch(0), Some(2));
    assert_eq!(m.fetch(0), Some(3));
    assert_eq!(m.fetch(0), None);
}

#[test]
fn fifo_lone_task_is_fetched() {
    let mut m: DefaultManager<u32> = DefaultManager::new();
    m.add(9);
    assert_eq!(m.fetch(5), Some(9));
    assert_eq!(m.fetch(5), None);
}

#[test]
fn fifo_ignores_events() {
    let mut m: DefaultManager<u32> = DefaultManager::new();
    m.add(1);
    m.update_exec(1, &FifoArgs);
    m.update_fork(1, 2);
    m.update_sched_to(1, 10);
    m.update_suspend(1, 20);
    m.update_sleep(1);
    assert_eq!(m.fetch(0), Some(1));
    assert_eq!(m.fetch(0), None);
}

#[test]
fn task_table_insert_get_mut_delete() {
    let mut m: DefaultManager<String> = DefaultManager::new();
    m.insert(7, String::from("init"));
    match m.get_mut(7) {
        Some(t) => t.push_str("-changed"),
        None => panic!("task 7 should be there"),
    }
    assert_eq!(m.get_mut(7).map(|t| t.clone()), Some(String::from("init-changed")));
    assert!(m.get_mut(8).is_none());
    m.delete(7);
    assert!(m.get_mut(7).is_none());
}

#[test]
fn sjf_runs_the_shortest_job_first() {
    let mut m: SJFManager<()> = SJFManager::new();
    m.update_exec(1, &SjfArgs { proc: 10, time: 50 });
    m.update_exec(2, &SjfArgs { proc: 11, time: 20 });
    m.add(3);
    m.add(1);
    m.add(2);
    assert_eq!(m.fetch(0), Some(2));
    assert_eq!(m.fetch(0), Some(1));
    assert_eq!(m.fetch(0), Some(3));
    assert_eq!(m.fetch(0), None);
}

#[test]
fn sjf_ties_go_to_the_first_queued() {
    let mut m: SJFManager<()> = SJFManager::new();
    m.update_exec(4, &SjfArgs { proc: 1, time: 5 });
    m.update_exec(5, &SjfArgs { proc: 2, time: 5 });
    m.add(5);
    m.add(4);
    assert_eq!(m.fetch(0), Some(5));
    assert_eq!(m.fetch(0), Some(4));
}

#[test]
fn sjf_lone_task_is_fetched() {
    let mut m: SJFManager<()> = SJFManager::new();
    m.add(42);
    assert_eq!(m.fetch(0), Some(42));
    assert_eq!(m.fetch(0), None);
}

#[test]
fn sjf_learns_the_running_time_of_a_program() {
    let mut m: SJFManager<()> = SJFManager::new();
    m.insert(1, ());
    m.update_exec(1, &SjfArgs { proc: 10, time: 999 });
    m.update_sched_to(1, 100);
    m.update_suspend(1, 130);
    m.delete(1);
    // The program 10 ran 30 in all: a new run of it is predicted at 30,
    // not at the announced 999.
    m.update_exec(5, &SjfArgs { proc: 10, time: 999 });
    m.update_exec(6, &SjfArgs { proc: 11, time: 40 });
    m.add(6);
    m.add(5);
    assert_eq!(m.fetch(0), Some(5));
    assert_eq!(m.fetch(0), Some(6));
}

#[test]
fn sjf_fork_inherits_the_predicted_time() {
    let mut m: SJFManager<()> = SJFManager::new();
    m.update_exec(1, &SjfArgs { proc: 3, time: 7 });
    m.update_fork(1, 2);
    m.update_exec(3, &SjfArgs { proc: 4, time: 8 });
    m.add(3);
    m.add(2);
    assert_eq!(m.fetch(0), Some(2));
}

#[test]
fn stcf_runs_the_least_time_left_first() {
    let mut m: STCFManager<()> = STCFManager::new();
    m.update_exec(1, &StcfArgs { proc: 1, total_time: 100 });
    m.update_exec(2, &StcfArgs { proc: 2, total_time: 50 });
    m.add(1);
    m.add(2);
    assert_eq!(m.fetch(0), Some(2));
    m.update_sched_to(2, 0);
    m.update_suspend(2, 30);
    // Task 2 now has 20 left; task 3 is announced at 20 too, and the
    // greater id goes first on a tie.
    m.update_exec(3, &StcfArgs { proc: 3, total_time: 20 });
    m.add(2);
    m.add(3);
    let list = m.get_list();
    assert_eq!(list.len(), 3);
    assert_eq!(list[0], (1, 100, 100));
    assert_eq!(list[1], (2, 50, 20));
    assert_eq!(list[2], (3, 20, 20));
    assert_eq!(m.fetch(0), Some(3));
    assert_eq!(m.fetch(0), Some(2));
    assert_eq!(m.fetch(0), Some(1));
    assert_eq!(m.fetch(0), None);
}

#[test]
fn stcf_unknown_task_goes_last() {
    let mut m: STCFManager<()> = STCFManager::new();
    m.add(8);
    m.update_exec(9, &StcfArgs { proc: 1, total_time: 1000 });
    m.add(9);
    assert_eq!(m.fetch(0), Some(9));
    assert_eq!(m.fetch(0), Some(8));
}

#[test]
fn stcf_records_the_total_running_time() {
    let mut m: STCFManager<()> = STCFManager::new();
    m.insert(1, ());
    m.update_exec(1, &StcfArgs { proc: 5, total_time: 100 });
    m.update_sched_to(1, 0);
    m.update_suspend(1, 60);
    // 60 of 100 used: the record of program 5 learns 60.
    m.delete(1);
    m.update_exec(2, &StcfArgs { proc: 5, total_time: 500 });
    m.add(2);
    let list = m.get_list();
    assert_eq!(list[0], (2, 60, 60));
}

#[test]
fn hrrn_block_compares_response_ratios() {
    let a = HRRNTaskBlock { task_id: 1, time_total: 10, time_wait: 20, last_stop_time: usize::MAX, is_ready: true };
    let b = HRRNTaskBlock { task_id: 2, time_total: 100, time_wait: 100, last_stop_time: usize::MAX, is_ready: true };
    // 20/10 against 100/100.
    assert_eq!(a.cmp(&b, 0), Ordering::Greater);
    assert_eq!(b.cmp(&a, 0), Ordering::Less);
    let c = HRRNTaskBlock { task_id: 3, time_total: 10, time_wait: 0, last_stop_time: 5, is_ready: true };
    // 15 waited since the stop at 5, over 10: against 20/10.
    assert_eq!(c.cmp(&a, 20), Ordering::Less);
    assert_eq!(c.cmp(&a, 25), Ordering::Equal);
}

#[test]
fn hrrn_block_adds_the_time_waited() {
    let mut c = HRRNTaskBlock { task_id: 3, time_total: 10, time_wait: 4, last_stop_time: 5, is_ready: true };
    c.update_wait_time(12);
    assert_eq!(c.time_wait, 11);
    let mut d = HRRNTaskBlock { task_id: 4, time_total: 10, time_wait: 4, last_stop_time: usize::MAX, is_ready: true };
    d.update_wait_time(12);
    assert_eq!(d.time_wait, 4);
}

#[test]
fn hrrn_runs_the_highest_response_ratio() {
    let mut m: HRRNManager<()> = HRRNManager::new();
    m.add(1);
    m.add(2);
    // Equal ratios: the last of them (by id) is chosen.
    assert_eq!(m.fetch(0), Some(2));
    m.update_exec(1, &HrrnArgs { proc: 1, total_time: 10 });
    m.update_exec(2, &HrrnArgs { proc: 2, total_time: 100 });
    m.update_sched_to(1, 0);
    m.update_suspend(1, 5);
    m.update_sched_to(2, 5);
    m.update_suspend(2, 10);
    // Neither is ready after its run.
    assert_eq!(m.fetch(10), None);
    m.add(1);
    m.add(2);
    // At 30: task 1 waited 25 for 10, task 2 waited 20 for 100.
    assert_eq!(m.fetch(30), Some(1));
    // fetch leaves the choice in place.
    assert_eq!(m.fetch(30), Some(1));
    let list = m.get_list();
    assert_eq!(list.len(), 2);
    assert_eq!(list[0], (1, 10, 0));
    assert_eq!(list[1], (2, 100, 0));
}

#[test]
fn stride_runs_the_least_pass() {
    let mut m: StrideManager<()> = StrideManager::new();
    m.add(1);
    m.add(2);
    assert_eq!(m.fetch(0), Some(1));
    m.update_sched_to(1, 0);
    m.update_suspend(1, 10);
    m.add(1);
    assert_eq!(m.fetch(0), Some(2));
    assert_eq!(m.fetch(0), Some(1));
    assert_eq!(m.fetch(0), None);
}

#[test]
fn stride_higher_priority_moves_slower() {
    let mut m: StrideManager<()> = StrideManager::new();
    m.add(1);
    m.add(2);
    m.fetch(0);
    m.fetch(0);
    m.update_exec(1, &StrideArgs { priority: 2 });
    m.update_exec(2, &StrideArgs { priority: 4 });
    // One run each: pass BIG/2 for task 1, BIG/4 for task 2.
    m.update_sched_to(1, 0);
    m.update_suspend(1, 1);
    m.update_sched_to(2, 1);
    m.update_suspend(2, 2);
    m.add(1);
    m.add(2);
    assert_eq!(m.fetch(0), Some(2));
    assert_eq!(m.fetch(0), Some(1));
    assert!(BIG_STRIDE / 4 < BIG_STRIDE / 2);
}

#[test]
fn rms_runs_the_shortest_period_first() {
    let mut m: RMSManager<()> = RMSManager::new();
    m.update_exec(1, &RmsArgs { period: 500 });
    m.update_exec(2, &RmsArgs { period: 100 });
    m.add(3);
    m.add(1);
    m.add(2);
    let list = m.get_list();
    assert_eq!(list.len(), 3);
    assert_eq!(list[0], (3, isize::MAX));
    assert_eq!(list[1], (1, 500));
    assert_eq!(list[2], (2, 100));
    assert_eq!(m.fetch(0), Some(2));
    assert_eq!(m.fetch(0), Some(1));
    assert_eq!(m.fetch(0), Some(3));
    assert_eq!(m.fetch(0), None);
}

#[test]
fn rms_fork_copies_the_period() {
    let mut m: RMSManager<()> = RMSManager::new();
    m.update_exec(1, &RmsArgs { period: 300 });
    m.update_fork(1, 2);
    m.update_exec(3, &RmsArgs { period: 400 });
    m.add(3);
    m.add(2);
    assert_eq!(m.fetch(0), Some(2));
}

#[test]
fn mlfq_demotes_a_task_that_uses_its_slice() {
    let mut m: MLFQManager<()> = MLFQManager::new();
    m.add(1);
    m.add(2);
    assert_eq!(m.get_priority(&1), 0);
    assert_eq!(m.fetch(0), Some(1));
    m.update_sched_to(1, 0);
    m.update_suspend(1, 10);
    assert_eq!(m.get_priority(&1), 1);
    m.add(1);
    assert_eq!(m.fetch(0), Some(2));
    assert_eq!(m.fetch(0), Some(1));
    assert_eq!(m.fetch(0), None);
}

#[test]
fn mlfq_sleeper_keeps_its_level() {
    let mut m: MLFQManager<()> = MLFQManager::new();
    m.add(1);
    m.fetch(0);
    m.update_sched_to(1, 0);
    m.update_sleep(1);
    m.update_suspend(1, 10);
    assert_eq!(m.get_priority(&1), 0);
    m.update_exec(1, &MlfqArgs);
}

#[test]
fn mlfq_lowest_level_is_the_floor() {
    let mut m: MLFQManager<()> = MLFQManager::new();
    m.add(1);
    for i in 0..20 {
        m.fetch(0);
        m.update_sched_to(1, i);
        m.update_suspend(1, i + 1);
        m.add(1);
    }
    assert_eq!(m.get_priority(&1), 15);
    assert_eq!(m.fetch(0), Some(1));
}

#[test]
fn lottery_ticket_falls_to_its_share() {
    let mut m: LotteryManager<()> = LotteryManager::new();
    m.add(1);
    m.add(2);
    assert_eq!(m.fetch_with(0), Some(1));
    assert_eq!(m.fetch_with(15), Some(1));
    assert_eq!(m.fetch_with(16), Some(2));
    assert_eq!(m.fetch_with(31), Some(2));
    assert_eq!(m.fetch_with(32), None);
    m.update_exec(2, &LotteryArgs { priority: 4 });
    assert_eq!(m.fetch_with(19), Some(2));
    assert_eq!(m.fetch_with(20), None);
}

#[test]
fn lottery_draw_picks_a_known_task() {
    let mut m: LotteryManager<()> = LotteryManager::new();
    m.add(1);
    m.add(2);
    for _ in 0..50 {
        let r = m.fetch(0);
        assert!(r == Some(1) || r == Some(2));
    }
}

#[test]
fn lottery_single_task_always_drawn() {
    let mut m: LotteryManager<()> = LotteryManager::new();
    m.add(5);
    for _ in 0..20 {
        assert_eq!(m.fetch(0), Some(5));
    }
}

#[test]
fn edf_runs_the_nearest_deadline_first() {
    let mut m: EDFManager<()> = EDFManager::new();
    m.add(1);
    m.add(2);
    m.update_exec(1, &EdfArgs { period: -1, init_ddl: 500 });
    m.update_exec(2, &EdfArgs { period: -1, init_ddl: 300 });
    m.fetch(0);
    m.fetch(0);
    m.add(1);
    m.add(2);
    assert_eq!(m.fetch(0), Some(2));
    assert_eq!(m.fetch(0), Some(1));
    assert_eq!(m.fetch(0), None);
}

#[test]
fn edf_moves_an_overdue_periodic_deadline() {
    let mut m: EDFManager<()> = EDFManager::new();
    m.add(3);
    m.add(4);
    m.fetch(0);
    m.fetch(0);
    m.update_exec(3, &EdfArgs { period: 100, init_ddl: 50 });
    m.update_exec(4, &EdfArgs { period: -1, init_ddl: 140 });
    m.add(3);
    m.add(4);
    // At 120 task 3's deadline 50 has passed: it moves to 150, after 140.
    assert_eq!(m.fetch(120), Some(4));
    assert_eq!(m.fetch(120), Some(3));
}

#[test]
fn edf_lone_task_is_fetched() {
    let mut m: EDFManager<()> = EDFManager::new();
    m.add(6);
    assert_eq!(m.fetch(1000), Some(6));
    assert_eq!(m.fetch(1000), None);
}

#[test]
fn hooks_forward_the_events() {
    let mut m: SJFManager<()> = SJFManager::new();
    SyscallHooks::handle_exec(1, &SjfArgs { proc: 1, time: 9 }, &mut m);
    SyscallHooks::handle_fork(1, 2, &mut m);
    SyscallHooks::handle_thread_create(1, 3, &mut m);
    SyscallHooks::handle_exec(4, &SjfArgs { proc: 2, time: 3 }, &mut m);
    KernelHook::handle_sched_to(4, &mut m, 0);
    KernelHook::handle_suspend(4, &mut m, 2);
    SyscallHooks::handle_sleep(4, &mut m);
    m.add(2);
    m.add(4);
    assert_eq!(m.fetch(0), Some(4));
    assert_eq!(m.fetch(0), Some(2));
}

#[test]
fn stride_compares_passes_round_the_wrap() {
    let mut m: StrideManager<()> = StrideManager::new();
    m.add(1);
    m.add(2);
    m.fetch(0);
    m.fetch(0);
    m.update_exec(1, &StrideArgs { priority: 2 });
    m.update_exec(2, &StrideArgs { priority: 2 });
    // Task 1 runs three times: its pass wraps round to a small number.
    for t in 0..3 {
        m.update_sched_to(1, t);
        m.update_suspend(1, t + 1);
    }
    // Task 2 runs twice: its pass sits just below the top.
    for t in 0..2 {
        m.update_sched_to(2, t);
        m.update_suspend(2, t + 1);
    }
    m.add(1);
    m.add(2);
    // Task 2's pass comes first: task 1's has wrapped past it.
    assert_eq!(m.fetch(0), Some(2));
    assert_eq!(m.fetch(0), Some(1));
}

#[test]
fn stride_block_order_with_and_without_wrap() {
    let a = StrideBlock { task_id: 1, priority: 16, stride: usize::MAX - 10 };
    let b = StrideBlock { task_id: 2, priority: 16, stride: 5 };
    let c = StrideBlock { task_id: 3, priority: 16, stride: 10 };
    assert!(a.runs_before(&b));
    assert!(!b.runs_before(&a));
    assert!(b.runs_before(&c));
    assert!(!c.runs_before(&b));
    assert!(!b.runs_before(&b));
}

#[test]
fn hrrn_zero_total_follows_the_scan() {
    let mut m: HRRNManager<()> = HRRNManager::new();
    m.add(1);
    m.add(2);
    m.add(3);
    m.update_exec(1, &HrrnArgs { proc: 1, total_time: 50 });
    m.update_exec(2, &HrrnArgs { proc: 2, total_time: 0 });
    m.update_exec(3, &HrrnArgs { proc: 3, total_time: 10 });
    m.update_sched_to(1, 0);
    m.update_suspend(1, 10);
    m.add(1);
    // At 60 task 1 waited 50 for 50; task 2 (total 0) ties with anything
    // and so takes the place of task 1; task 3 (waited 0 for 10) ties
    // with task 2 and takes its place.
    assert_eq!(m.fetch(60), Some(3));
}

#[test]
fn mlfq_many_sleeps_keep_the_level() {
    let mut m: MLFQManager<()> = MLFQManager::new();
    m.add(1);
    m.fetch(0);
    m.update_sched_to(1, 0);
    m.update_suspend(1, 5);
    assert_eq!(m.get_priority(&1), 1);
    m.update_sched_to(1, 10);
    m.update_sleep(1);
    m.update_sleep(1);
    m.update_sleep(2);
    m.update_suspend(1, 20);
    assert_eq!(m.get_priority(&1), 1);
    m.update_sched_to(1, 30);
    m.update_suspend(1, 40);
    assert_eq!(m.get_priority(&1), 2);
}

#[test]
fn sjf_record_sums_several_run_slices() {
    let mut m: SJFManager<()> = SJFManager::new();
    m.insert(1, ());
    m.update_exec(1, &SjfArgs { proc: 7, time: 500 });
    m.update_sched_to(1, 0);
    m.update_suspend(1, 3);
    m.update_sched_to(1, 10);
    m.update_suspend(1, 14);
    m.update_sched_to(1, 20);
    m.update_suspend(1, 20);
    m.delete(1);
    // Seven in all: a new run of program 7 comes before one predicted at 8.
    m.update_exec(2, &SjfArgs { proc: 7, time: 500 });
    m.update_exec(3, &SjfArgs { proc: 8, time: 8 });
    m.add(3);
    m.add(2);
    assert_eq!(m.fetch(0), Some(2));
    m.update_exec(4, &SjfArgs { proc: 9, time: 6 });
    m.add(4);
    m.add(2);
    assert_eq!(m.fetch(0), Some(4));
    assert_eq!(m.fetch(0), Some(2));
}

#[test]
fn stcf_queue_holds_what_was_added_and_not_fetched() {
    let mut m: STCFManager<()> = STCFManager::new();
    m.add(4);
    m.add(2);
    m.add(4);
    let first = m.fetch(0).unwrap();
    m.add(9);
    let list: Vec<(usize, isize, isize)> = m.get_list().into_iter().collect();
    let mut ids: Vec<usize> = list.iter().map(|b| b.0).collect();
    ids.push(first);
    ids.sort();
    assert_eq!(ids, vec![2, 4, 4, 9]);
    assert!(list.iter().all(|b| b.1 == isize::MAX && b.2 == isize::MAX));
}

#[test]
fn rms_queue_holds_what_was_added_and_not_fetched() {
    let mut m: RMSManager<()> = RMSManager::new();
    m.update_exec(5, &RmsArgs { period: 30 });
    m.update_exec(6, &RmsArgs { period: 10 });
    m.add(5);
    m.add(6);
    m.add(7);
    assert_eq!(m.fetch(0), Some(6));
    m.add(6);
    let list: Vec<(usize, isize)> = m.get_list().into_iter().collect();
    assert_eq!(list, vec![(5, 30), (7, isize::MAX), (6, 10)]);
}
