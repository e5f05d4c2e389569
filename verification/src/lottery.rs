//! Lottery scheduling: a ticket is drawn among the sum of the ready tasks'
//! priorities, and the task whose share of tickets holds it runs.
use std::collections::BTreeMap;
use rand::{Rng, SeedableRng};
use rand_chacha::ChaCha20Rng;
use vstd::prelude::*;
use crate::common::{entries, lemma_sorted_entries_exist, lemma_sorted_entries_unique, map_get_mut, sorted_entries};
use crate::sched::{Manage, Schedule};

verus! {

#[verifier::external_type_specification]
#[verifier::external_body]
pub struct ExChaCha20Rng(ChaCha20Rng);

/// rand_chacha's `ChaCha20Rng::seed_from_u64`: a generator seeded from
/// `seed`. Nothing is stated of the generator's state; the policy relies
/// only on what `draw_below` promises of every draw.
#[verifier::external_body]
pub(crate) fn seeded(seed: u64) -> ChaCha20Rng {
    ChaCha20Rng::seed_from_u64(seed)
}

/// rand's `Rng::gen_range` over `0..n` (which panics on an empty range):
/// some number below `n`; which one depends on the generator's state.
/// Every draw takes at least one word from the generator, so its state
/// moves on: it differs afterwards from what it was.
#[verifier::external_body]
pub(crate) fn draw_below(rng: &mut ChaCha20Rng, n: usize) -> (r: usize)
    requires
        n > 0,
    ensures
        r < n,
        *final(rng) != *old(rng),
{
    rng.gen_range(0..n)
}

/// What `exec` passes: the program's priority (its number of tickets).
#[derive(Clone, Copy)]
pub struct ExecArgs {
    pub priority: usize,
}

#[derive(Clone, Copy)]
pub struct LotteryBlock {
    pub priority: usize,
    pub is_ready: bool,
}

/// The task that ticket `lucky` falls to, when the entries are walked in
/// order with `acc` tickets counted before them: the first whose running
/// total exceeds `lucky`.
pub open spec fn draw(es: Seq<(usize, LotteryBlock)>, acc: int, lucky: int) -> Option<usize>
    decreases es.len(),
{
    if es.len() == 0 {
        None
    } else if acc + es[0].1.priority > lucky {
        Some(es[0].0)
    } else {
        draw(es.drop_first(), acc + es[0].1.priority, lucky)
    }
}

/// The running totals computed by that walk fit in a `usize`.
pub open spec fn draw_fits(es: Seq<(usize, LotteryBlock)>, acc: int, lucky: int) -> bool
    decreases es.len(),
{
    if es.len() == 0 {
        true
    } else {
        &&& acc + es[0].1.priority <= usize::MAX
        &&& (acc + es[0].1.priority > lucky || draw_fits(
            es.drop_first(),
            acc + es[0].1.priority,
            lucky,
        ))
    }
}

/// The task that ticket `lucky` falls to among the tasks of `m`, by
/// increasing id.
pub open spec fn drawn(m: Map<usize, LotteryBlock>, lucky: int, r: Option<usize>) -> bool {
    forall|es: Seq<(usize, LotteryBlock)>| sorted_entries(m, es) ==> r == draw(es, 0, lucky)
}

/// Ticket `lucky` can be looked up in `m` without overflow.
pub open spec fn draw_ok(m: Map<usize, LotteryBlock>, lucky: int) -> bool {
    forall|es: Seq<(usize, LotteryBlock)>| sorted_entries(m, es) ==> draw_fits(es, 0, lucky)
}

pub struct LotteryManager<T> {
    tasks: BTreeMap<usize, T>,
    info_map: BTreeMap<usize, LotteryBlock>,
    total_count: usize,
    rng: ChaCha20Rng,
}

impl<T> LotteryManager<T> {
    /// The task table.
    pub closed spec fn table(&self) -> Map<usize, T> {
        self.tasks@
    }

    pub closed spec fn blocks(&self) -> Map<usize, LotteryBlock> {
        self.info_map@
    }

    /// The number of tickets in play.
    pub closed spec fn total(&self) -> usize {
        self.total_count
    }

    /// The generator the tickets are drawn from.
    pub closed spec fn generator(&self) -> ChaCha20Rng {
        self.rng
    }

    pub fn new() -> (r: Self)
        ensures
            r.inv(),
            r.tasks() == Map::<usize, T>::empty(),
            r.blocks() == Map::<usize, LotteryBlock>::empty(),
            r.total() == 0,
    {
        LotteryManager {
            tasks: BTreeMap::new(),
            info_map: BTreeMap::new(),
            total_count: 0,
            rng: seeded(233u64),
        }
    }

    /// The task that ticket `lucky` falls to.
    pub fn fetch_with(&self, lucky: usize) -> (r: Option<usize>)
        requires
            draw_ok(self.blocks(), lucky as int),
        ensures
            drawn(self.blocks(), lucky as int, r),
            exists|es: Seq<(usize, LotteryBlock)>| sorted_entries(self.blocks(), es),
    {
        let es = entries(&self.info_map);
        proof {
            assert(draw_fits(es@, 0, lucky as int));
        }
        let mut sum: usize = 0;
        let mut i: usize = 0;
        assert(es@.skip(0) =~= es@);
        while i < es.len()
            invariant
                sorted_entries(self.info_map@, es@),
                i <= es@.len(),
                draw(es@, 0, lucky as int) == draw(es@.skip(i as int), sum as int, lucky as int),
                draw_fits(es@.skip(i as int), sum as int, lucky as int),
            decreases es@.len() - i,
        {
            let ghost rest = es@.skip(i as int);
            assert(rest[0] == es@[i as int]);
            assert(rest.drop_first() =~= es@.skip(i + 1));
            let (id, block) = es[i];
            sum = sum + block.priority;
            if sum > lucky {
                proof {
                    assert forall|other: Seq<(usize, LotteryBlock)>|
                        sorted_entries(self.info_map@, other) implies Some(id) == draw(
                        other,
                        0,
                        lucky as int,
                    ) by {
                        lemma_sorted_entries_unique(self.info_map@, es@, other);
                    }
                }
                return Some(id);
            }
            i = i + 1;
        }
        proof {
            assert(es@.skip(i as int).len() == 0);
            assert forall|other: Seq<(usize, LotteryBlock)>|
                sorted_entries(self.info_map@, other) implies None::<usize> == draw(
                other,
                0,
                lucky as int,
            ) by {
                lemma_sorted_entries_unique(self.info_map@, es@, other);
            }
        }
        None
    }

    pub open spec fn same_except_tasks(&self, other: &Self) -> bool {
        &&& other.blocks() == self.blocks()
        &&& other.total() == self.total()
    }
}

impl<T> Schedule for LotteryManager<T> {
    type Args = ExecArgs;

    open spec fn inv(&self) -> bool {
        true
    }

    /// The tickets in play must stay countable.
    open spec fn add_ok(&self, id: usize) -> bool {
        let add = if self.blocks().contains_key(id) {
            self.blocks()[id].priority
        } else {
            16
        };
        self.total() + add <= usize::MAX
    }

    open spec fn added(&self, id: usize, next: &Self) -> bool {
        let add = if self.blocks().contains_key(id) {
            self.blocks()[id].priority
        } else {
            16
        };
        &&& next.blocks() == if self.blocks().contains_key(id) {
            self.blocks().insert(id, LotteryBlock { is_ready: true, ..self.blocks()[id] })
        } else {
            self.blocks().insert(id, LotteryBlock { priority: 16, is_ready: true })
        }
        &&& next.total() == self.total() + add
        &&& next.table() == self.table()
    }

    /// There must be tickets to draw from, and every draw must be
    /// countable without overflow.
    open spec fn fetch_ok(&self, now: usize) -> bool {
        &&& self.total() > 0
        &&& forall|l: int| 0 <= l < self.total() ==> #[trigger] draw_ok(self.blocks(), l)
    }

    open spec fn fetched(&self, now: usize, next: &Self, r: Option<usize>) -> bool {
        &&& next.table() == self.table()
        &&& next.blocks() == self.blocks()
        &&& next.total() == self.total()
        &&& exists|es: Seq<(usize, LotteryBlock)>| sorted_entries(self.blocks(), es)
        &&& exists|l: int| 0 <= l < self.total() && #[trigger] drawn(self.blocks(), l, r)
    }

    /// The task must be known, and the tickets in play must stay countable.
    open spec fn exec_ok(&self, id: usize, args: ExecArgs) -> bool {
        &&& self.blocks().contains_key(id)
        &&& self.total() - self.blocks()[id].priority + args.priority >= 0
        &&& self.total() - self.blocks()[id].priority + args.priority <= usize::MAX
    }

    open spec fn execed(&self, id: usize, args: ExecArgs, next: &Self) -> bool {
        &&& next.blocks() == self.blocks().insert(
            id,
            LotteryBlock { priority: args.priority, ..self.blocks()[id] },
        )
        &&& next.total() == self.total() - self.blocks()[id].priority + args.priority
        &&& next.table() == self.table()
    }

    /// The parent must be known to the policy.
    open spec fn fork_ok(&self, parent_id: usize, child_id: usize) -> bool {
        self.blocks().contains_key(parent_id)
    }

    open spec fn forked(&self, parent_id: usize, child_id: usize, next: &Self) -> bool {
        &&& next.blocks() == self.blocks().insert(
            child_id,
            LotteryBlock { priority: self.blocks()[parent_id].priority, is_ready: false },
        )
        &&& next.total() == self.total()
        &&& next.table() == self.table()
    }

    open spec fn sched_to_ok(&self, id: usize, time: usize) -> bool {
        true
    }

    open spec fn scheduled(&self, id: usize, time: usize, next: &Self) -> bool {
        *next == *self
    }

    /// The task must be known, and its tickets must be in play.
    open spec fn suspend_ok(&self, id: usize, time: usize) -> bool {
        &&& self.blocks().contains_key(id)
        &&& self.blocks()[id].priority <= self.total()
    }

    open spec fn suspended(&self, id: usize, time: usize, next: &Self) -> bool {
        &&& next.blocks() == self.blocks().insert(
            id,
            LotteryBlock { is_ready: false, ..self.blocks()[id] },
        )
        &&& next.total() == self.total() - self.blocks()[id].priority
        &&& next.table() == self.table()
    }

    open spec fn slept(&self, id: usize, next: &Self) -> bool {
        *next == *self
    }

    fn add(&mut self, id: usize) {
        let add = match map_get_mut(&mut self.info_map, id) {
            Some(t) => {
                t.is_ready = true;
                t.priority
            },
            None => {
                self.info_map.insert(id, LotteryBlock { priority: 16, is_ready: true });
                16
            },
        };
        self.total_count = self.total_count + add;
    }

    /// Each fetch draws its ticket from the generator, which moves on.
    fn fetch(&mut self, now: usize) -> (r: Option<usize>)
        ensures
            final(self).generator() != old(self).generator(),
    {
        let lucky_dog = draw_below(&mut self.rng, self.total_count);
        proof {
            assert(draw_ok(old(self).blocks(), lucky_dog as int));
        }
        let r = self.fetch_with(lucky_dog);
        assert(drawn(old(self).info_map@, lucky_dog as int, r));
        r
    }

    fn update_exec(&mut self, id: usize, args: &ExecArgs) {
        match map_get_mut(&mut self.info_map, id) {
            Some(block) => {
                if block.priority > args.priority {
                    self.total_count = self.total_count - (block.priority - args.priority);
                } else {
                    self.total_count = self.total_count + (args.priority - block.priority);
                }
                block.priority = args.priority;
            },
            None => {},
        }
    }

    fn update_fork(&mut self, parent_id: usize, child_id: usize) {
        match self.info_map.get(&parent_id) {
            Some(block) => {
                let child = LotteryBlock { priority: block.priority, is_ready: false };
                self.info_map.insert(child_id, child);
            },
            None => {},
        }
    }

    fn update_sched_to(&mut self, id: usize, time: usize) {
    }

    fn update_suspend(&mut self, id: usize, time: usize) {
        match map_get_mut(&mut self.info_map, id) {
            Some(block) => {
                block.is_ready = false;
                self.total_count = self.total_count - block.priority;
            },
            None => {},
        }
    }

    fn update_sleep(&mut self, id: usize) {
    }
}

impl<T> Manage<T> for LotteryManager<T> {
    open spec fn tasks(&self) -> Map<usize, T> {
        self.table()
    }

    open spec fn same_sched(&self, other: &Self) -> bool {
        self.same_except_tasks(other)
    }

    /// A ready task's tickets must be in play.
    open spec fn delete_ok(&self, id: usize) -> bool {
        (self.blocks().contains_key(id) && self.blocks()[id].is_ready)
            ==> self.blocks()[id].priority <= self.total()
    }

    open spec fn deleted(&self, id: usize, next: &Self) -> bool {
        &&& next.blocks() == self.blocks().remove(id)
        &&& next.total() == if self.blocks().contains_key(id) && self.blocks()[id].is_ready {
            (self.total() - self.blocks()[id].priority) as usize
        } else {
            self.total()
        }
    }

    fn insert(&mut self, id: usize, task: T) {
        self.tasks.insert(id, task);
    }

    fn get_mut(&mut self, id: usize) -> (r: Option<&mut T>) {
        map_get_mut(&mut self.tasks, id)
    }

    fn delete(&mut self, id: usize) {
        self.tasks.remove(&id);
        let block = self.info_map.remove(&id);
        if let Some(b) = block {
            if b.is_ready {
                self.total_count = self.total_count - b.priority;
            }
        }
    }
}

/// A ticket falls to a task of the walk, or to none.
proof fn lemma_draw_member(es: Seq<(usize, LotteryBlock)>, acc: int, lucky: int)
    ensures
        draw(es, acc, lucky) matches Some(id) ==> exists|i: int| 0 <= i < es.len() && #[trigger] es[i].0 == id,
    decreases es.len(),
{
    if es.len() > 0 && acc + es[0].1.priority <= lucky {
        lemma_draw_member(es.drop_first(), acc + es[0].1.priority, lucky);
        if let Some(id) = draw(es, acc, lucky) {
            let i = choose|i: int| 0 <= i < es.drop_first().len() && #[trigger] es.drop_first()[i].0 == id;
            assert(es[i + 1].0 == id);
        }
    } else if es.len() > 0 {
        assert(es[0].0 == es[0].0);
    }
}

/// The task a ticket falls to is one the policy knows.
pub proof fn law_drawn_task_known(m: Map<usize, LotteryBlock>, lucky: int, id: usize)
    requires
        m.dom().finite(),
        drawn(m, lucky, Some(id)),
    ensures
        m.contains_key(id),
{
    lemma_sorted_entries_exist(m);
    let es = choose|es: Seq<(usize, LotteryBlock)>| sorted_entries(m, es);
    lemma_draw_member(es, 0, lucky);
    let i = choose|i: int| 0 <= i < es.len() && #[trigger] es[i].0 == id;
}

/// With a single task known, every ticket below its number of tickets
/// falls to it.
pub proof fn law_single_task_drawn(id: usize, b: LotteryBlock, lucky: int)
    requires
        0 <= lucky < b.priority,
    ensures
        drawn(map![id => b], lucky, Some(id)),
{
    let m = map![id => b];
    let one = seq![(id, b)];
    assert(sorted_entries(m, one)) by {
        assert forall|k: usize| m.contains_key(k) implies exists|i: int| 0 <= i < one.len() && #[trigger] one[i].0 == k by {
            assert(one[0].0 == k);
        }
    }
    assert forall|es: Seq<(usize, LotteryBlock)>| sorted_entries(m, es) implies Some(id) == draw(es, 0, lucky) by {
        lemma_sorted_entries_unique(m, es, one);
    }
}

/// The tickets of the first `k` entries of `es`.
pub open spec fn tickets_before(es: Seq<(usize, LotteryBlock)>, k: int) -> int
    decreases k,
{
    if k <= 0 {
        0
    } else {
        tickets_before(es, k - 1) + es[k - 1].1.priority
    }
}

/// Counting from the second entry on.
proof fn lemma_tickets_before_first(es: Seq<(usize, LotteryBlock)>, k: int)
    requires
        1 <= k <= es.len(),
    ensures
        tickets_before(es, k) == es[0].1.priority + tickets_before(es.drop_first(), k - 1),
    decreases k,
{
    let df = es.drop_first();
    if k > 1 {
        lemma_tickets_before_first(es, k - 1);
        assert(df[k - 2] == es[k - 1]);
        assert(tickets_before(df, k - 1) == tickets_before(df, k - 2) + df[k - 2].1.priority);
        assert(tickets_before(es, k) == tickets_before(es, k - 1) + es[k - 1].1.priority);
    } else {
        assert(tickets_before(es, 0) == 0);
        assert(tickets_before(df, 0) == 0);
        assert(tickets_before(es, 1) == tickets_before(es, 0) + es[0].1.priority);
    }
}

/// A ticket in the share of entry `k` (counted from `acc`) falls to it.
proof fn lemma_draw_share(es: Seq<(usize, LotteryBlock)>, acc: int, k: int, lucky: int)
    requires
        0 <= k < es.len(),
        acc + tickets_before(es, k) <= lucky < acc + tickets_before(es, k) + es[k].1.priority,
    ensures
        draw(es, acc, lucky) == Some(es[k].0),
    decreases k,
{
    if k > 0 {
        lemma_tickets_before_first(es, k);
        assert(tickets_before(es.drop_first(), k - 1) >= 0) by {
            lemma_tickets_nonneg(es.drop_first(), k - 1);
        }
        assert(es.drop_first()[k - 1] == es[k]);
        lemma_draw_share(es.drop_first(), acc + es[0].1.priority, k - 1, lucky);
    }
}

/// No entry has fewer than no tickets.
proof fn lemma_tickets_nonneg(es: Seq<(usize, LotteryBlock)>, k: int)
    ensures
        tickets_before(es, k) >= 0,
    decreases k,
{
    if k > 0 {
        lemma_tickets_nonneg(es, k - 1);
    }
}

/// Every task has its share of the tickets: walking the tasks by
/// increasing id, the task at position `k` holds the `priority` tickets
/// that follow those of the tasks before it, and a ticket drawn among them
/// falls to that task. So every task with tickets is handed out for some
/// ticket, and the chance of each is its share.
pub proof fn law_ticket_share(m: Map<usize, LotteryBlock>, es: Seq<(usize, LotteryBlock)>, k: int, lucky: int)
    requires
        sorted_entries(m, es),
        0 <= k < es.len(),
        tickets_before(es, k) <= lucky < tickets_before(es, k) + es[k].1.priority,
    ensures
        drawn(m, lucky, Some(es[k].0)),
{
    lemma_draw_share(es, 0, k, lucky);
    assert forall|other: Seq<(usize, LotteryBlock)>| sorted_entries(m, other) implies Some(es[k].0) == draw(
        other,
        0,
        lucky,
    ) by {
        lemma_sorted_entries_unique(m, es, other);
    }
}

} // verus!
