# kernel_plugins

Scheduling and page-replacement policies for a small RISC-V teaching
kernel, written in Verus with their contracts proved.

- `src/sched.rs` — the `Schedule` and `Manage` traits every scheduler
  implements; `default_manager`, `sjf`, `stcf`, `hrrn`, `stride`, `rms`,
  `mlfq`, `lottery` and `edf` are the schedulers; `record` holds the
  running-time predictions; `args_handler` forwards the kernel's events.
- `src/frame_allocator.rs`, `page_bits.rs` — physical frames and the
  accessed/dirty bits of the page tables; `clock_queue`, `clock`,
  `lfu_queue`, `lfu`, `pff`, `work_set` and `nru` are the page-replacement
  policies; `virt_frame_swapper` is the swap disk.
- `src/timer.rs` — the timers that wake sleeping tasks;
  `proc_manager.rs` — the process table.
- `app/` — the glue that touches hardware and shared state: the global
  allocator, the swap disk, the timer interrupt and the page-fault
  handler's flag check.
- `tests/` — scenarios on concrete values.
