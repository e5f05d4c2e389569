//! Highest response ratio next: among the ready tasks, the one whose
//! waiting time weighs most against its expected running time runs first.
use std::cmp::Ordering;
use std::collections::{BTreeMap, VecDeque};
use vstd::prelude::*;
use crate::common::{entries, lemma_sorted_entries_unique, map_get_mut, sorted_entries};
use crate::record::{
    base_record, fed, feed_factor, feed_history, find_factor, find_history, recorded,
    FactorRecord, FactorRecordMap, HistoryRecord, HistoryRecordMap, Record, RecordMap,
};
use crate::sched::{Manage, Schedule};

verus! {

/// What `exec` passes: the program's number and its announced running time.
#[derive(Clone, Copy)]
pub struct ExecArgs {
    pub proc: usize,
    pub total_time: usize,
}

/// What the policy knows of a task. `last_stop_time` is `usize::MAX`
/// while the task has not stopped since its time was reset.
#[derive(Clone, Copy)]
pub struct HRRNTaskBlock {
    pub task_id: usize,
    pub time_total: usize,
    pub time_wait: usize,
    pub last_stop_time: usize,
    pub is_ready: bool,
}

/// How long the task has waited at time `cur`.
pub open spec fn waited(b: HRRNTaskBlock, cur: usize) -> int {
    if b.last_stop_time != usize::MAX {
        (cur - b.last_stop_time) + b.time_wait
    } else {
        b.time_wait as int
    }
}

/// The waiting time at `cur` can be computed in a `usize`.
pub open spec fn wait_ok(b: HRRNTaskBlock, cur: usize) -> bool {
    b.last_stop_time != usize::MAX ==> (b.last_stop_time <= cur && waited(b, cur) <= usize::MAX)
}

/// Comparing `a` with `b` at `cur` computes without overflow.
pub open spec fn compare_ok(a: HRRNTaskBlock, b: HRRNTaskBlock, cur: usize) -> bool {
    &&& wait_ok(a, cur)
    &&& wait_ok(b, cur)
    &&& waited(a, cur) * b.time_total <= usize::MAX
    &&& waited(b, cur) * a.time_total <= usize::MAX
}

/// The ordering of `x` and `y`.
pub open spec fn order_of(x: int, y: int) -> Ordering {
    if x < y {
        Ordering::Less
    } else if x == y {
        Ordering::Equal
    } else {
        Ordering::Greater
    }
}

/// `a`'s response ratio at `cur` is at most `b`'s (cross-multiplied).
pub open spec fn ratio_le(a: HRRNTaskBlock, b: HRRNTaskBlock, cur: usize) -> bool {
    waited(a, cur) * b.time_total <= waited(b, cur) * a.time_total
}

impl HRRNTaskBlock {
    /// Compares the response ratios (waited / total) of `self` and `other`
    /// at `cur_time`, by cross-multiplying.
    pub fn cmp(&self, other: &Self, cur_time: usize) -> (r: Ordering)
        requires
            compare_ok(*self, *other, cur_time),
        ensures
            r == order_of(
                waited(*self, cur_time) * other.time_total,
                waited(*other, cur_time) * self.time_total,
            ),
    {
        let ts = self.time_total;
        let ws = if self.last_stop_time != usize::MAX {
            (cur_time - self.last_stop_time) + self.time_wait
        } else {
            self.time_wait
        };
        let to = other.time_total;
        let wo = if other.last_stop_time != usize::MAX {
            (cur_time - other.last_stop_time) + other.time_wait
        } else {
            other.time_wait
        };
        let x = ws * to;
        let y = wo * ts;
        if x < y {
            Ordering::Less
        } else if x == y {
            Ordering::Equal
        } else {
            Ordering::Greater
        }
    }

    /// Adds the time waited since the last stop, if there was one.
    pub fn update_wait_time(&mut self, cur_time: usize)
        requires
            wait_ok(*old(self), cur_time),
        ensures
            *final(self) == (HRRNTaskBlock { time_wait: waited(*old(self), cur_time) as usize, ..*old(self) }),
    {
        if self.last_stop_time != usize::MAX {
            self.time_wait = self.time_wait + (cur_time - self.last_stop_time);
        }
    }
}

/// The position, among the first `n` entries of `es`, that the choice
/// settles on: the first ready entry, then each later ready entry whose
/// ratio is at least that of the one kept.
pub open spec fn ratio_fold(es: Seq<(usize, HRRNTaskBlock)>, n: int, now: usize) -> Option<usize>
    decreases n,
{
    if n <= 0 {
        None
    } else {
        let prev = ratio_fold(es, n - 1, now);
        if !es[n - 1].1.is_ready {
            prev
        } else {
            match prev {
                None => Some((n - 1) as usize),
                Some(b) => if ratio_le(es[b as int].1, es[n - 1].1, now) {
                    Some((n - 1) as usize)
                } else {
                    prev
                },
            }
        }
    }
}

/// Every comparison the choice among the entries `es` makes, of the best
/// so far with each next ready entry, computes without overflow.
pub open spec fn fold_ok(es: Seq<(usize, HRRNTaskBlock)>, now: usize) -> bool {
    forall|i: int|
        0 <= i < es.len() && (#[trigger] es[i]).1.is_ready ==> match ratio_fold(es, i, now) {
            Some(b) => compare_ok(es[b as int].1, es[i].1, now),
            None => true,
        }
}

/// The task chosen among the entries `es`, walked by increasing id.
pub open spec fn ratio_choice(es: Seq<(usize, HRRNTaskBlock)>, now: usize) -> Option<usize> {
    match ratio_fold(es, es.len() as int, now) {
        None => None,
        Some(b) => Some(es[b as int].0),
    }
}

/// Whether `x` takes the place of `best` in the choice: its ratio is at
/// least as high.
fn replaces(best: &HRRNTaskBlock, x: &HRRNTaskBlock, now: usize) -> (r: bool)
    requires
        compare_ok(*best, *x, now),
    ensures
        r == ratio_le(*best, *x, now),
{
    match best.cmp(x, now) {
        Ordering::Greater => false,
        _ => true,
    }
}

/// Ratios compared by cross-multiplication are transitive when the
/// running times are positive.
proof fn lemma_ratio_trans(aj: int, tj: int, ab: int, tb: int, ax: int, tx: int)
    requires
        tb > 0,
        tj >= 0,
        tx >= 0,
        aj * tb <= ab * tj,
        ab * tx <= ax * tb,
    ensures
        aj * tx <= ax * tj,
{
    assert(aj * tb * tx <= ab * tj * tx) by (nonlinear_arith)
        requires
            aj * tb <= ab * tj,
            tx >= 0,
    ;
    assert(ab * tx * tj <= ax * tb * tj) by (nonlinear_arith)
        requires
            ab * tx <= ax * tb,
            tj >= 0,
    ;
    assert(aj * tb * tx == (aj * tx) * tb) by (nonlinear_arith);
    assert(ab * tj * tx == ab * tx * tj) by (nonlinear_arith);
    assert(ax * tb * tj == (ax * tj) * tb) by (nonlinear_arith);
    assert(aj * tx <= ax * tj) by (nonlinear_arith)
        requires
            (aj * tx) * tb <= (ax * tj) * tb,
            tb > 0,
    ;
}

pub struct HRRNManager<T> {
    tasks: BTreeMap<usize, T>,
    info_map: BTreeMap<usize, HRRNTaskBlock>,
    current: Option<usize>,
    task_name: BTreeMap<usize, usize>,
    running_time: BTreeMap<usize, usize>,
    start_time: usize,
    history_record: HistoryRecordMap<HistoryRecord>,
    factor_record: FactorRecordMap<FactorRecord>,
    record_type: bool,
}

/// The block of a task that was added for the first time.
pub open spec fn fresh_block(id: usize) -> HRRNTaskBlock {
    HRRNTaskBlock {
        task_id: id,
        time_total: 1000_000_000,
        time_wait: 0,
        last_stop_time: usize::MAX,
        is_ready: true,
    }
}

impl<T> HRRNManager<T> {
    /// The task table.
    pub closed spec fn table(&self) -> Map<usize, T> {
        self.tasks@
    }

    pub closed spec fn blocks(&self) -> Map<usize, HRRNTaskBlock> {
        self.info_map@
    }

    pub closed spec fn running(&self) -> Option<usize> {
        self.current
    }

    pub closed spec fn names(&self) -> Map<usize, usize> {
        self.task_name@
    }

    pub closed spec fn run_times(&self) -> Map<usize, usize> {
        self.running_time@
    }

    pub closed spec fn started(&self) -> usize {
        self.start_time
    }

    pub closed spec fn history(&self) -> Map<usize, HistoryRecord> {
        self.history_record.records()
    }

    pub closed spec fn factors(&self) -> Map<usize, FactorRecord> {
        self.factor_record.records()
    }

    pub closed spec fn uses_factor(&self) -> bool {
        self.record_type
    }

    pub fn new() -> (r: Self)
        ensures
            r.inv(),
            r.tasks() == Map::<usize, T>::empty(),
            r.blocks() == Map::<usize, HRRNTaskBlock>::empty(),
            r.running() is None,
            r.names() == Map::<usize, usize>::empty(),
            r.run_times() == Map::<usize, usize>::empty(),
            r.started() == 0,
            r.history() == Map::<usize, HistoryRecord>::empty(),
            r.factors() == Map::<usize, FactorRecord>::empty(),
            !r.uses_factor(),
    {
        HRRNManager {
            tasks: BTreeMap::new(),
            info_map: BTreeMap::new(),
            current: None,
            task_name: BTreeMap::new(),
            running_time: BTreeMap::new(),
            start_time: 0,
            history_record: HistoryRecordMap::<HistoryRecord>::new(),
            factor_record: FactorRecordMap::<FactorRecord>::new(),
            record_type: false,
        }
    }

    /// (id, total, waited) of each known task, by increasing id.
    pub fn get_list(&self) -> (r: VecDeque<(usize, usize, usize)>)
        ensures
            forall|i: int, j: int| 0 <= i < j < r@.len() ==> r@[i].0 < r@[j].0,
            forall|i: int|
                0 <= i < r@.len() ==> self.blocks().contains_key(#[trigger] r@[i].0)
                    && r@[i].1 == self.blocks()[r@[i].0].time_total && r@[i].2
                    == self.blocks()[r@[i].0].time_wait,
            forall|k: usize|
                self.blocks().contains_key(k) ==> exists|i: int|
                    0 <= i < r@.len() && #[trigger] r@[i].0 == k,
    {
        let es = entries(&self.info_map);
        let mut ret: VecDeque<(usize, usize, usize)> = VecDeque::new();
        let mut i: usize = 0;
        while i < es.len()
            invariant
                sorted_entries(self.info_map@, es@),
                i <= es@.len(),
                ret@.len() == i,
                forall|j: int|
                    0 <= j < i ==> #[trigger] ret@[j] == (
                        es@[j].0,
                        es@[j].1.time_total,
                        es@[j].1.time_wait,
                    ),
            decreases es@.len() - i,
        {
            let (id, block) = es[i];
            ret.push_back((id, block.time_total, block.time_wait));
            i = i + 1;
        }
        proof {
            assert forall|k: usize| self.blocks().contains_key(k) implies exists|i: int|
                0 <= i < ret@.len() && #[trigger] ret@[i].0 == k by {
                let i = choose|i: int| 0 <= i < es@.len() && #[trigger] es@[i].0 == k;
                assert(ret@[i].0 == k);
            }
        }
        ret
    }

    pub open spec fn same_except_tasks(&self, other: &Self) -> bool {
        &&& other.blocks() == self.blocks()
        &&& other.running() == self.running()
        &&& other.names() == self.names()
        &&& other.run_times() == self.run_times()
        &&& other.started() == self.started()
        &&& other.history() == self.history()
        &&& other.factors() == self.factors()
        &&& other.uses_factor() == self.uses_factor()
    }

    /// All ready tasks have a positive expected running time.
    pub open spec fn totals_positive(&self) -> bool {
        forall|k: usize|
            #![trigger self.blocks()[k]]
            self.blocks().contains_key(k) && self.blocks()[k].is_ready ==> self.blocks()[k].time_total
                > 0
    }

    pub open spec fn record_of(&self, proc: usize) -> Option<usize> {
        if self.uses_factor() {
            recorded(self.factors(), proc)
        } else {
            recorded(self.history(), proc)
        }
    }
}

impl<T> Schedule for HRRNManager<T> {
    type Args = ExecArgs;

    open spec fn inv(&self) -> bool {
        true
    }

    open spec fn add_ok(&self, id: usize) -> bool {
        true
    }

    open spec fn added(&self, id: usize, next: &Self) -> bool {
        &&& next.blocks() == if self.blocks().contains_key(id) {
            self.blocks().insert(id, HRRNTaskBlock { is_ready: true, ..self.blocks()[id] })
        } else {
            self.blocks().insert(id, fresh_block(id))
        }
        &&& self.same_except_tasks_and_blocks(next)
        &&& next.table() == self.table()
    }

    /// Every comparison that the choice makes computes without overflow.
    open spec fn fetch_ok(&self, now: usize) -> bool {
        forall|es: Seq<(usize, HRRNTaskBlock)>| sorted_entries(self.blocks(), es) ==> #[trigger] fold_ok(es, now)
    }

    open spec fn fetched(&self, now: usize, next: &Self, r: Option<usize>) -> bool {
        &&& *next == *self
        &&& exists|es: Seq<(usize, HRRNTaskBlock)>| sorted_entries(self.blocks(), es)
        &&& forall|es: Seq<(usize, HRRNTaskBlock)>|
            sorted_entries(self.blocks(), es) ==> r == ratio_choice(es, now)
        &&& match r {
            None => forall|k: usize|
                #![trigger self.blocks()[k]]
                self.blocks().contains_key(k) ==> !self.blocks()[k].is_ready,
            Some(id) => {
                &&& self.blocks().contains_key(id)
                &&& self.blocks()[id].is_ready
                &&& self.totals_positive() ==> forall|k: usize|
                    #![trigger self.blocks()[k]]
                    self.blocks().contains_key(k) && self.blocks()[k].is_ready ==> ratio_le(
                        self.blocks()[k],
                        self.blocks()[id],
                        now,
                    )
                &&& self.totals_positive() ==> forall|k: usize|
                    #![trigger self.blocks()[k]]
                    self.blocks().contains_key(k) && self.blocks()[k].is_ready && k > id
                        ==> !ratio_le(self.blocks()[id], self.blocks()[k], now)
            },
        }
    }

    /// The task must be known to the policy, and a recorded time is used.
    open spec fn exec_ok(&self, id: usize, args: ExecArgs) -> bool {
        self.blocks().contains_key(id)
    }

    open spec fn execed(&self, id: usize, args: ExecArgs, next: &Self) -> bool {
        let t = match self.record_of(args.proc) {
            Some(t) => t,
            None => args.total_time,
        };
        &&& next.blocks() == self.blocks().insert(
            id,
            HRRNTaskBlock {
                time_total: t,
                time_wait: 0,
                last_stop_time: usize::MAX,
                ..self.blocks()[id]
            },
        )
        &&& next.names() == self.names().insert(id, args.proc)
        &&& next.table() == self.table()
        &&& next.running() == self.running()
        &&& next.run_times() == self.run_times()
        &&& next.started() == self.started()
        &&& next.history() == self.history()
        &&& next.factors() == self.factors()
        &&& next.uses_factor() == self.uses_factor()
    }

    /// The parent must be known to the policy.
    open spec fn fork_ok(&self, parent_id: usize, child_id: usize) -> bool {
        self.blocks().contains_key(parent_id)
    }

    open spec fn forked(&self, parent_id: usize, child_id: usize, next: &Self) -> bool {
        &&& next.blocks() == self.blocks().insert(
            child_id,
            HRRNTaskBlock { task_id: child_id, ..self.blocks()[parent_id] },
        )
        &&& next.names() == if self.names().contains_key(parent_id) {
            self.names().insert(child_id, self.names()[parent_id])
        } else {
            self.names()
        }
        &&& next.run_times() == if self.run_times().contains_key(parent_id) {
            self.run_times().insert(child_id, self.run_times()[parent_id])
        } else {
            self.run_times()
        }
        &&& next.table() == self.table()
        &&& next.running() == self.running()
        &&& next.started() == self.started()
        &&& next.history() == self.history()
        &&& next.factors() == self.factors()
        &&& next.uses_factor() == self.uses_factor()
    }

    /// No task may be running, and the task must be known, with a waiting
    /// time that fits.
    open spec fn sched_to_ok(&self, id: usize, time: usize) -> bool {
        &&& self.running() is None
        &&& self.blocks().contains_key(id)
        &&& wait_ok(self.blocks()[id], time)
        &&& self.blocks()[id].last_stop_time != usize::MAX ==> self.blocks()[id].time_wait + (
        time - self.blocks()[id].last_stop_time) <= usize::MAX
    }

    open spec fn scheduled(&self, id: usize, time: usize, next: &Self) -> bool {
        &&& next.started() == time
        &&& next.running() == Some(id)
        &&& next.blocks() == self.blocks().insert(
            id,
            HRRNTaskBlock {
                time_wait: waited(self.blocks()[id], time) as usize,
                ..self.blocks()[id]
            },
        )
        &&& next.table() == self.table()
        &&& next.names() == self.names()
        &&& next.run_times() == self.run_times()
        &&& next.history() == self.history()
        &&& next.factors() == self.factors()
        &&& next.uses_factor() == self.uses_factor()
    }

    /// `id` must be the running task, known, stopped no earlier than it
    /// started, and its running total must fit.
    open spec fn suspend_ok(&self, id: usize, time: usize) -> bool {
        let cur = if self.run_times().contains_key(id) {
            self.run_times()[id]
        } else {
            0
        };
        &&& self.running() == Some(id)
        &&& self.blocks().contains_key(id)
        &&& self.started() <= time
        &&& cur + (time - self.started()) <= usize::MAX
    }

    open spec fn suspended(&self, id: usize, time: usize, next: &Self) -> bool {
        let cur = if self.run_times().contains_key(id) {
            self.run_times()[id]
        } else {
            0
        };
        &&& next.running() is None
        &&& next.blocks() == self.blocks().insert(
            id,
            HRRNTaskBlock { last_stop_time: time, is_ready: false, ..self.blocks()[id] },
        )
        &&& next.run_times() == self.run_times().insert(
            id,
            (cur + (time - self.started())) as usize,
        )
        &&& next.table() == self.table()
        &&& next.names() == self.names()
        &&& next.started() == self.started()
        &&& next.history() == self.history()
        &&& next.factors() == self.factors()
        &&& next.uses_factor() == self.uses_factor()
    }

    open spec fn slept(&self, id: usize, next: &Self) -> bool {
        *next == *self
    }

    fn add(&mut self, id: usize) {
        match self.info_map.get(&id) {
            Some(b) => {
                let block = HRRNTaskBlock { is_ready: true, ..*b };
                self.info_map.insert(id, block);
            },
            None => {
                self.info_map.insert(
                    id,
                    HRRNTaskBlock {
                        task_id: id,
                        time_total: 1000_000_000,
                        time_wait: 0,
                        last_stop_time: usize::MAX,
                        is_ready: true,
                    },
                );
            },
        }
    }

    fn fetch(&mut self, now: usize) -> (r: Option<usize>) {
        let es = entries(&self.info_map);
        let ghost m = self.info_map@;
        let ghost pos = self.totals_positive();
        let mut best: Option<usize> = None;
        let mut i: usize = 0;
        while i < es.len()
            invariant
                sorted_entries(m, es@),
                m == self.info_map@,
                m == self.blocks(),
                pos == self.totals_positive(),
                self.fetch_ok(now),
                i <= es@.len(),
                best == ratio_fold(es@, i as int, now),
                match best {
                    None => forall|j: int| 0 <= j < i ==> !(#[trigger] es@[j]).1.is_ready,
                    Some(b) => {
                        &&& b < i
                        &&& es@[b as int].1.is_ready
                        &&& pos ==> forall|j: int|
                            0 <= j < i && (#[trigger] es@[j]).1.is_ready ==> ratio_le(
                                es@[j].1,
                                es@[b as int].1,
                                now,
                            )
                        &&& pos ==> forall|j: int|
                            b < j < i && (#[trigger] es@[j]).1.is_ready ==> !ratio_le(
                                es@[b as int].1,
                                es@[j].1,
                                now,
                            )
                    },
                },
            decreases es@.len() - i,
        {
            let (_id, block) = es[i];
            if block.is_ready {
                match best {
                    None => {
                        best = Some(i);
                    },
                    Some(b) => {
                        let (bid, bblock) = es[b];
                        proof {
                            assert(fold_ok(es@, now));
                            assert(es@[i as int].1.is_ready);
                            assert(compare_ok(bblock, block, now));
                        }
                        if !replaces(&bblock, &block, now) {
                                proof {
                                    if pos {
                                        assert(m.contains_key(es@[i as int].0));
                                        assert(m[es@[i as int].0].time_total > 0);
                                    }
                                }
                        } else {
                                proof {
                                    if pos {
                                        assert(m.contains_key(es@[b as int].0));
                                        assert(m[es@[b as int].0].time_total > 0);
                                        assert forall|j: int|
                                            0 <= j < i + 1 && (#[trigger] es@[j]).1.is_ready
                                            implies ratio_le(es@[j].1, es@[i as int].1, now) by {
                                            if j < i {
                                                assert(m.contains_key(es@[j].0));
                                                lemma_ratio_trans(
                                                    waited(es@[j].1, now),
                                                    es@[j].1.time_total as int,
                                                    waited(es@[b as int].1, now),
                                                    es@[b as int].1.time_total as int,
                                                    waited(es@[i as int].1, now),
                                                    es@[i as int].1.time_total as int,
                                                );
                                            } else {
                                                assert(j == i);
                                            }
                                        }
                                    }
                                }
                                best = Some(i);
                        }
                    },
                }
            }
            i = i + 1;
        }
        proof {
            assert(sorted_entries(self.blocks(), es@));
            assert forall|es2: Seq<(usize, HRRNTaskBlock)>| sorted_entries(self.blocks(), es2) implies es2 == es@ by {
                lemma_sorted_entries_unique(m, es@, es2);
            }
            assert(best == ratio_fold(es@, es@.len() as int, now));
        }
        match best {
            None => {
                proof {
                    assert forall|k: usize| #![trigger self.info_map@[k]] self.info_map@.contains_key(k) implies !self.info_map@[k].is_ready by {
                        let j = choose|j: int| 0 <= j < es@.len() && #[trigger] es@[j].0 == k;
                        assert(!es@[j].1.is_ready);
                    }
                }
                None
            },
            Some(b) => {
                let (id, _) = es[b];
                proof {
                    if pos {
                        assert forall|k: usize|
                            #![trigger self.info_map@[k]]
                            self.info_map@.contains_key(k) && self.info_map@[k].is_ready implies ratio_le(
                            self.info_map@[k],
                            self.info_map@[id],
                            now,
                        ) by {
                            let j = choose|j: int| 0 <= j < es@.len() && #[trigger] es@[j].0 == k;
                            assert(es@[j].1.is_ready);
                        }
                        assert forall|k: usize|
                            #![trigger self.info_map@[k]]
                            self.info_map@.contains_key(k) && self.info_map@[k].is_ready && k > id
                                implies !ratio_le(self.info_map@[id], self.info_map@[k], now) by {
                            let j = choose|j: int| 0 <= j < es@.len() && #[trigger] es@[j].0 == k;
                            if j <= b {
                                if j < b {
                                    assert(es@[j].0 < es@[b as int].0);
                                }
                            }
                            assert(j > b);
                        }
                    }
                }
                Some(id)
            },
        }
    }

    fn update_exec(&mut self, id: usize, args: &ExecArgs) {
        let record = if self.record_type {
            find_factor(&mut self.factor_record, args.proc)
        } else {
            find_history(&mut self.history_record, args.proc)
        };
        let record_time = match record {
            None => args.total_time,
            Some(t) => t,
        };
        self.task_name.insert(id, args.proc);
        match self.info_map.get(&id) {
            Some(b) => {
                let block = HRRNTaskBlock {
                    time_total: record_time,
                    time_wait: 0,
                    last_stop_time: usize::MAX,
                    ..*b
                };
                self.info_map.insert(id, block);
            },
            None => {},
        }
    }

    fn update_fork(&mut self, parent_id: usize, child_id: usize) {
        match self.info_map.get(&parent_id) {
            Some(parent) => {
                let block = HRRNTaskBlock { task_id: child_id, ..*parent };
                self.info_map.insert(child_id, block);
            },
            None => {},
        }
        match self.task_name.get(&parent_id) {
            Some(t) => {
                let name = *t;
                self.task_name.insert(child_id, name);
            },
            None => {},
        }
        match self.running_time.get(&parent_id) {
            Some(t) => {
                let run = *t;
                self.running_time.insert(child_id, run);
            },
            None => {},
        }
    }

    fn update_sched_to(&mut self, id: usize, time: usize) {
        self.start_time = time;
        self.current = Some(id);
        match self.info_map.get(&id) {
            Some(b) => {
                let mut block = *b;
                block.update_wait_time(time);
                self.info_map.insert(id, block);
            },
            None => {},
        }
    }

    fn update_suspend(&mut self, id: usize, time: usize) {
        self.current = None;
        match self.info_map.get(&id) {
            Some(b) => {
                let block = HRRNTaskBlock { last_stop_time: time, is_ready: false, ..*b };
                self.info_map.insert(id, block);
            },
            None => {},
        }
        let run_time = time - self.start_time;
        let cur_time = match self.running_time.get(&id) {
            None => 0,
            Some(t) => *t,
        };
        let total = cur_time + run_time;
        self.running_time.insert(id, total);
    }

    fn update_sleep(&mut self, id: usize) {
    }
}

impl<T> HRRNManager<T> {
    pub open spec fn same_except_tasks_and_blocks(&self, other: &Self) -> bool {
        &&& other.running() == self.running()
        &&& other.names() == self.names()
        &&& other.run_times() == self.run_times()
        &&& other.started() == self.started()
        &&& other.history() == self.history()
        &&& other.factors() == self.factors()
        &&& other.uses_factor() == self.uses_factor()
    }
}

impl<T> Manage<T> for HRRNManager<T> {
    open spec fn tasks(&self) -> Map<usize, T> {
        self.table()
    }

    open spec fn same_sched(&self, other: &Self) -> bool {
        self.same_except_tasks(other)
    }

    open spec fn delete_ok(&self, id: usize) -> bool {
        (self.names().contains_key(id) && self.run_times().contains_key(id)) ==> {
            let name = self.names()[id];
            let t = self.run_times()[id];
            if self.uses_factor() {
                base_record(self.factors(), name, FactorRecord::spec_new()).spec_update_ok(t)
            } else {
                base_record(self.history(), name, HistoryRecord::spec_new()).spec_update_ok(t)
            }
        }
    }

    open spec fn deleted(&self, id: usize, next: &Self) -> bool {
        &&& next.blocks() == self.blocks().remove(id)
        &&& next.running() == if self.running() == Some(id) {
            None
        } else {
            self.running()
        }
        &&& next.started() == self.started()
        &&& next.uses_factor() == self.uses_factor()
        &&& if self.names().contains_key(id) && self.run_times().contains_key(id) {
            let name = self.names()[id];
            let t = self.run_times()[id];
            &&& next.names() == self.names().remove(id)
            &&& next.run_times() == self.run_times().remove(id)
            &&& if self.uses_factor() {
                &&& next.factors() == fed(
                    self.factors(),
                    name,
                    t,
                    FactorRecord::spec_new(),
                )
                &&& next.history() == self.history()
            } else {
                &&& next.history() == fed(
                    self.history(),
                    name,
                    t,
                    HistoryRecord::spec_new(),
                )
                &&& next.factors() == self.factors()
            }
        } else {
            &&& next.names() == self.names()
            &&& next.run_times() == self.run_times()
            &&& next.history() == self.history()
            &&& next.factors() == self.factors()
        }
    }

    fn insert(&mut self, id: usize, task: T) {
        self.tasks.insert(id, task);
    }

    fn get_mut(&mut self, id: usize) -> (r: Option<&mut T>) {
        map_get_mut(&mut self.tasks, id)
    }

    fn delete(&mut self, id: usize) {
        self.tasks.remove(&id);
        self.info_map.remove(&id);
        if let Some(cur_id) = self.current {
            if cur_id == id {
                self.current = None;
            }
        }
        match self.task_name.get(&id) {
            None => {},
            Some(task_name) => {
                let name = *task_name;
                match self.running_time.get(&id) {
                    None => {
                        return ;
                    },
                    Some(t) => {
                        let run_time = *t;
                        self.running_time.remove(&id);
                        if self.record_type {
                            feed_factor(&mut self.factor_record, name, run_time);
                        } else {
                            feed_history(&mut self.history_record, name, run_time);
                        }
                    },
                }
                self.task_name.remove(&id);
            },
        }
    }
}

/// Highest response ratio next: `fetch` hands out a ready task whose
/// ratio of time waited to expected running time is the highest (the one
/// with the greatest id among equals), and changes nothing.
pub proof fn law_highest_ratio_next<T>(a: HRRNManager<T>, b: HRRNManager<T>, now: usize, id: usize, k: usize)
    requires
        a.fetched(now, &b, Some(id)),
        a.totals_positive(),
        a.blocks().contains_key(k),
        a.blocks()[k].is_ready,
    ensures
        a.blocks()[id].is_ready,
        ratio_le(a.blocks()[k], a.blocks()[id], now),
        k > id ==> !ratio_le(a.blocks()[id], a.blocks()[k], now),
        b == a,
{
}

/// `update_sched_to(id, t)` banks the time task `id` waited since it last
/// stopped: its waiting total grows by `t` less the time it stopped (by
/// nothing if it never ran), everything else of its block stays, and the
/// other tasks' blocks are untouched.
pub proof fn law_sched_to_banks_wait<T>(a: HRRNManager<T>, b: HRRNManager<T>, id: usize, t: usize)
    requires
        a.sched_to_ok(id, t),
        a.scheduled(id, t, &b),
    ensures
        b.blocks().contains_key(id),
        b.blocks()[id].time_wait as int == a.blocks()[id].time_wait + if a.blocks()[id].last_stop_time != usize::MAX {
            t - a.blocks()[id].last_stop_time
        } else {
            0
        },
        b.blocks()[id].last_stop_time == a.blocks()[id].last_stop_time,
        b.blocks()[id].time_total == a.blocks()[id].time_total,
        b.blocks()[id].is_ready == a.blocks()[id].is_ready,
        b.blocks().dom() == a.blocks().dom(),
        forall|k: usize| #[trigger] a.blocks().contains_key(k) && k != id ==> b.blocks()[k] == a.blocks()[k],
{
    assert(b.blocks().dom() =~= a.blocks().dom());
}

/// No waiting is lost over a run: when task `id` is scheduled at `t0`,
/// stops at `t1` and is scheduled again at `t2`, its waiting total grows by
/// what it had waited before `t0` and by the whole gap from `t1` to `t2`
/// (a stop at `usize::MAX` would read as never having stopped).
pub proof fn law_wait_accumulates<T>(
    a: HRRNManager<T>,
    b: HRRNManager<T>,
    c: HRRNManager<T>,
    d: HRRNManager<T>,
    id: usize,
    t0: usize,
    t1: usize,
    t2: usize,
)
    requires
        a.sched_to_ok(id, t0),
        a.scheduled(id, t0, &b),
        b.suspend_ok(id, t1),
        b.suspended(id, t1, &c),
        t1 != usize::MAX,
        c.sched_to_ok(id, t2),
        c.scheduled(id, t2, &d),
    ensures
        c.blocks()[id].last_stop_time == t1,
        c.blocks()[id].time_wait as int == a.blocks()[id].time_wait + if a.blocks()[id].last_stop_time != usize::MAX {
            t0 - a.blocks()[id].last_stop_time
        } else {
            0
        },
        d.blocks()[id].time_wait as int == c.blocks()[id].time_wait + (t2 - t1),
        d.blocks()[id].time_wait as int == a.blocks()[id].time_wait + (if a.blocks()[id].last_stop_time != usize::MAX {
            t0 - a.blocks()[id].last_stop_time
        } else {
            0
        }) + (t2 - t1),
{
    law_sched_to_banks_wait(a, b, id, t0);
    law_sched_to_banks_wait(c, d, id, t2);
}

} // verus!
