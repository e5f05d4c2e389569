//! Timers that wake tasks: each holds a task id and the tick at which it
//! expires; a check hands out, earliest first, the tasks whose timer has
//! expired.
use std::collections::VecDeque;
use vstd::prelude::*;

verus! {

/// A timer: the task it wakes and the tick at which it expires.
pub struct TimerBlock {
    pub id: usize,
    pub expire_ticks: usize,
}

/// The position of the first timer of `q` that expires earliest (0 when
/// `q` is empty).
pub open spec fn min_index(q: Seq<(usize, usize)>) -> int
    decreases q.len(),
{
    if q.len() <= 1 {
        0
    } else {
        let j = min_index(q.drop_last());
        if q.last().1 < q[j].1 {
            q.len() - 1
        } else {
            j
        }
    }
}

/// Taking out, while the earliest timer of `q` has expired at `now`, that
/// timer: the tasks woken, in that order, and the timers left.
pub open spec fn expired(q: Seq<(usize, usize)>, now: usize) -> (Seq<usize>, Seq<(usize, usize)>)
    decreases q.len(),
{
    if q.len() == 0 {
        (Seq::empty(), q)
    } else {
        let i = min_index(q);
        proof {
            lemma_min_index(q);
        }
        if q[i].1 <= now {
            let rest = expired(q.remove(i), now);
            (seq![q[i].0] + rest.0, rest.1)
        } else {
            (Seq::empty(), q)
        }
    }
}

/// The timers that `expired` takes out of `q` at `now`, in that order.
pub open spec fn woken(q: Seq<(usize, usize)>, now: usize) -> Seq<(usize, usize)>
    decreases q.len(),
{
    if q.len() == 0 {
        Seq::empty()
    } else {
        let i = min_index(q);
        proof {
            lemma_min_index(q);
        }
        if q[i].1 <= now {
            seq![q[i]] + woken(q.remove(i), now)
        } else {
            Seq::empty()
        }
    }
}

/// The first earliest timer is a position of `q`, no timer expires
/// earlier, and those before it expire later.
pub proof fn lemma_min_index(q: Seq<(usize, usize)>)
    requires
        q.len() > 0,
    ensures
        0 <= min_index(q) < q.len(),
        forall|k: int| 0 <= k < q.len() ==> q[min_index(q)].1 <= #[trigger] q[k].1,
        forall|k: int| 0 <= k < min_index(q) ==> q[min_index(q)].1 < #[trigger] q[k].1,
    decreases q.len(),
{
    if q.len() > 1 {
        let d = q.drop_last();
        lemma_min_index(d);
        let j = min_index(d);
        assert forall|k: int| 0 <= k < d.len() implies #[trigger] q[k] == d[k] by {}
        assert(q[j] == d[j]);
        if q.last().1 < q[j].1 {
            assert forall|k: int| 0 <= k < q.len() - 1 implies q[q.len() - 1].1 < #[trigger] q[k].1 by {
                assert(d[j].1 <= d[k].1);
            }
        } else {
            assert forall|k: int| 0 <= k < q.len() implies q[j].1 <= #[trigger] q[k].1 by {
                if k < q.len() - 1 {
                    assert(d[j].1 <= d[k].1);
                }
            }
            assert forall|k: int| 0 <= k < j implies q[j].1 < #[trigger] q[k].1 by {
                assert(d[j].1 < d[k].1);
            }
        }
    }
}

/// Every task woken had a timer expired at `now`, the timers left have not
/// expired, and the tasks are woken in the order their timers expire.
pub proof fn lemma_expired(q: Seq<(usize, usize)>, now: usize)
    ensures
        expired(q, now).0.len() + expired(q, now).1.len() == q.len(),
        forall|k: int| 0 <= k < expired(q, now).1.len() ==> (#[trigger] expired(q, now).1[k]).1 > now,
        forall|x: usize| #[trigger] expired(q, now).0.contains(x) ==> exists|k: int|
            0 <= k < q.len() && q[k].0 == x && q[k].1 <= now,
        expired(q, now).0 == woken(q, now).map_values(|t: (usize, usize)| t.0),
        forall|k: int| 0 <= k < woken(q, now).len() ==> exists|m: int| 0 <= m < q.len() && q[m] == #[trigger] woken(q, now)[k],
        forall|a: int, b: int|
            0 <= a < b < woken(q, now).len() ==> #[trigger] woken(q, now)[a].1 <= #[trigger] woken(q, now)[b].1,
    decreases q.len(),
{
    if q.len() == 0 {
        assert(expired(q, now).0 =~= woken(q, now).map_values(|t: (usize, usize)| t.0));
    }
    if q.len() > 0 {
        lemma_min_index(q);
        let i = min_index(q);
        if q[i].1 <= now {
            let r = q.remove(i);
            lemma_expired(r, now);
            let wr = woken(r, now);
            let wq = woken(q, now);
            assert(wq == seq![q[i]] + wr);
            assert(expired(q, now).0 =~= woken(q, now).map_values(|t: (usize, usize)| t.0));
            assert forall|k: int| 0 <= k < wq.len() implies exists|m: int| 0 <= m < q.len() && q[m] == #[trigger] wq[k] by {
                if k == 0 {
                    assert(q[i] == wq[0]);
                } else {
                    assert(wq[k] == wr[k - 1]);
                    let m = choose|m: int| 0 <= m < r.len() && r[m] == #[trigger] wr[k - 1];
                    if m < i {
                        assert(q[m] == r[m]);
                    } else {
                        assert(q[m + 1] == r[m]);
                    }
                }
            }
            assert forall|a: int, b: int| 0 <= a < b < wq.len() implies #[trigger] wq[a].1 <= #[trigger] wq[b].1 by {
                assert(wq[b] == wr[b - 1]);
                if a == 0 {
                    let m = choose|m: int| 0 <= m < r.len() && r[m] == #[trigger] wr[b - 1];
                    if m < i {
                        assert(q[m] == r[m]);
                    } else {
                        assert(q[m + 1] == r[m]);
                    }
                } else {
                    assert(wq[a] == wr[a - 1]);
                }
            }
            let e = expired(q, now);
            assert forall|x: usize| #[trigger] e.0.contains(x) implies exists|k: int|
                0 <= k < q.len() && q[k].0 == x && q[k].1 <= now by {
                let w = choose|w: int| 0 <= w < e.0.len() && e.0[w] == x;
                if w == 0 {
                    assert(q[i].0 == x);
                } else {
                    assert(expired(r, now).0[w - 1] == x);
                    assert(expired(r, now).0.contains(x));
                    let k = choose|k: int| 0 <= k < r.len() && r[k].0 == x && r[k].1 <= now;
                    if k < i {
                        assert(q[k] == r[k]);
                    } else {
                        assert(q[k + 1] == r[k]);
                    }
                }
            }
        } else {
            assert forall|k: int| 0 <= k < q.len() implies (#[trigger] q[k]).1 > now by {}
            assert(expired(q, now).0 =~= woken(q, now).map_values(|t: (usize, usize)| t.0));
        }
    }
}

/// The timers of the tasks waiting to be woken.
pub struct TrapTimer {
    use_timer: bool,
    timer_queue: Option<Vec<TimerBlock>>,
}

impl TrapTimer {
    /// Whether the timer interrupt is used.
    pub closed spec fn enabled(&self) -> bool {
        self.use_timer
    }

    /// The timers, as (task id, expiry tick), in the order they were added
    /// and not yet taken; `None` before `init`.
    pub closed spec fn timers(&self) -> Option<Seq<(usize, usize)>> {
        match self.timer_queue {
            Some(v) => Some(v@.map_values(|b: TimerBlock| (b.id, b.expire_ticks))),
            None => None,
        }
    }

    /// A timer set, with the timer interrupt used or not; no queue yet.
    pub fn new(use_timer: bool) -> (r: Self)
        ensures
            r.enabled() == use_timer,
            r.timers() is None,
    {
        TrapTimer { use_timer, timer_queue: None }
    }

    /// Starts with no timers.
    pub fn init(&mut self)
        ensures
            final(self).enabled() == old(self).enabled(),
            final(self).timers() == Some(Seq::<(usize, usize)>::empty()),
    {
        self.timer_queue = Some(Vec::new());
        assert(self.timers().unwrap() =~= Seq::<(usize, usize)>::empty());
    }

    /// Whether `init` has set up the queue.
    pub fn is_initialized(&self) -> (r: bool)
        ensures
            r == self.timers() is Some,
    {
        self.timer_queue.is_some()
    }

    /// Whether the timer interrupt is used.
    pub fn is_timer_enabled(&self) -> (r: bool)
        ensures
            r == self.enabled(),
    {
        self.use_timer
    }

    /// Adds a timer for task `task_id` that expires `period_ms`
    /// milliseconds after tick `now`, a tick lasting `ns_per_tick`
    /// nanoseconds.
    pub fn add_timer(&mut self, task_id: usize, period_ms: usize, now: usize, ns_per_tick: usize)
        requires
            old(self).timers() is Some,
            ns_per_tick > 0,
            period_ms * 1000000 <= usize::MAX,
            now + period_ms * 1000000 / (ns_per_tick as int) <= usize::MAX,
        ensures
            final(self).enabled() == old(self).enabled(),
            final(self).timers() == Some(
                old(self).timers().unwrap().push((task_id, (now + period_ms * 1000000 / (ns_per_tick as int)) as usize)),
            ),
    {
        let ghost q0 = self.timers().unwrap();
        let expire = now + period_ms * 1000000 / ns_per_tick;
        match &mut self.timer_queue {
            Some(v) => {
                v.push(TimerBlock { id: task_id, expire_ticks: expire });
            },
            None => {},
        }
        assert(self.timers().unwrap() =~= q0.push((task_id, expire)));
    }

    /// The position of the first earliest timer.
    fn earliest(v: &Vec<TimerBlock>) -> (r: usize)
        requires
            v@.len() > 0,
        ensures
            r == min_index(v@.map_values(|b: TimerBlock| (b.id, b.expire_ticks))),
    {
        let ghost q = v@.map_values(|b: TimerBlock| (b.id, b.expire_ticks));
        let mut best: usize = 0;
        let mut i: usize = 1;
        while i < v.len()
            invariant
                1 <= i <= v@.len(),
                q == v@.map_values(|b: TimerBlock| (b.id, b.expire_ticks)),
                best == min_index(q.take(i as int)),
                best < i,
            decreases v@.len() - i,
        {
            let ghost t = q.take(i + 1);
            assert(t.drop_last() =~= q.take(i as int));
            proof {
                lemma_min_index(q.take(i as int));
            }
            if v[i].expire_ticks < v[best].expire_ticks {
                best = i;
            }
            i = i + 1;
        }
        assert(q.take(v@.len() as int) =~= q);
        best
    }

    /// Takes out, earliest first, the timers expired at tick `now` and
    /// returns their tasks.
    pub fn check_timer(&mut self, now: usize) -> (r: VecDeque<usize>)
        requires
            old(self).timers() is Some,
        ensures
            final(self).enabled() == old(self).enabled(),
            r@ == expired(old(self).timers().unwrap(), now).0,
            final(self).timers() == Some(expired(old(self).timers().unwrap(), now).1),
            r@.len() + final(self).timers().unwrap().len() == old(self).timers().unwrap().len(),
            forall|k: int|
                0 <= k < final(self).timers().unwrap().len() ==> (#[trigger] final(self).timers().unwrap()[k]).1 > now,
            forall|x: usize| #[trigger] r@.contains(x) ==> exists|k: int|
                0 <= k < old(self).timers().unwrap().len() && old(self).timers().unwrap()[k].0 == x
                    && old(self).timers().unwrap()[k].1 <= now,
            r@ == woken(old(self).timers().unwrap(), now).map_values(|t: (usize, usize)| t.0),
            forall|a: int, b: int|
                0 <= a < b < r@.len() ==> #[trigger] woken(old(self).timers().unwrap(), now)[a].1
                    <= #[trigger] woken(old(self).timers().unwrap(), now)[b].1,
    {
        proof {
            lemma_expired(self.timers().unwrap(), now);
        }
        let ghost q0 = self.timers().unwrap();
        let mut ret: VecDeque<usize> = VecDeque::new();
        match &mut self.timer_queue {
            Some(v) => {
                assert(expired(q0, now).0 =~= Seq::<usize>::empty() + expired(q0, now).0);
                loop
                    invariant
                        expired(q0, now) == (
                            ret@ + expired(v@.map_values(|b: TimerBlock| (b.id, b.expire_ticks)), now).0,
                            expired(v@.map_values(|b: TimerBlock| (b.id, b.expire_ticks)), now).1,
                        ),
                    ensures
                        expired(q0, now) == (ret@, v@.map_values(|b: TimerBlock| (b.id, b.expire_ticks))),
                    decreases v@.len(),
                {
                    let ghost q = v@.map_values(|b: TimerBlock| (b.id, b.expire_ticks));
                    if v.len() == 0 {
                        assert(ret@ + Seq::<usize>::empty() =~= ret@);
                        break;
                    }
                    let i = Self::earliest(v);
                    proof {
                        lemma_min_index(q);
                    }
                    if v[i].expire_ticks <= now {
                        let ghost r0 = ret@;
                        let b = v.remove(i);
                        ret.push_back(b.id);
                        proof {
                            assert(v@.map_values(|b: TimerBlock| (b.id, b.expire_ticks)) =~= q.remove(i as int));
                            let rest = expired(q.remove(i as int), now);
                            assert(ret@ + rest.0 =~= r0 + (seq![q[i as int].0] + rest.0)) by {
                                assert(ret@ == r0.push(q[i as int].0));
                            }
                        }
                    } else {
                        assert(ret@ + Seq::<usize>::empty() =~= ret@);
                        break;
                    }
                }
            },
            None => {},
        }
        ret
    }
}

/// A lone timer wakes its task at the first check at or after its
/// expiry, and not before.
pub proof fn law_lone_timer(id: usize, expire: usize, now: usize)
    ensures
        expire <= now ==> expired(seq![(id, expire)], now) == (seq![id], Seq::<(usize, usize)>::empty()),
        expire > now ==> expired(seq![(id, expire)], now) == (Seq::<usize>::empty(), seq![(id, expire)]),
{
    let q = seq![(id, expire)];
    assert(min_index(q) == 0);
    if expire <= now {
        assert(q.remove(0) =~= Seq::<(usize, usize)>::empty());
        assert(expired(q.remove(0), now) == (Seq::<usize>::empty(), q.remove(0)));
        assert(seq![id] + Seq::<usize>::empty() =~= seq![id]);
    }
}

/// Of two timers, the earlier one wakes its task first.
pub proof fn law_earlier_first(a: usize, ea: usize, b: usize, eb: usize, now: usize)
    requires
        ea < eb,
        eb <= now,
    ensures
        expired(seq![(b, eb), (a, ea)], now).0 == seq![a, b],
        expired(seq![(b, eb), (a, ea)], now).1.len() == 0,
{
    let q = seq![(b, eb), (a, ea)];
    assert(q.drop_last() =~= seq![(b, eb)]);
    assert(min_index(q.drop_last()) == 0);
    assert(min_index(q) == 1);
    let r = q.remove(1);
    assert(r =~= seq![(b, eb)]);
    law_lone_timer(b, eb, now);
    assert(seq![a] + seq![b] =~= seq![a, b]);
}

} // verus!
