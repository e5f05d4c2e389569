//! Predictions of a program's running time from the runs seen so far.
use std::collections::BTreeMap;
use vstd::prelude::*;
use crate::common::map_get_mut;

verus! {

/// A running-time record: fed with the length of each finished run, it
/// predicts the length of the next one.
pub trait Record: Sized {
    /// The prediction that `get_time` reports.
    spec fn spec_time(&self) -> usize;

    /// `update` with `new_time` computes without overflow.
    spec fn spec_update_ok(&self, new_time: usize) -> bool;

    /// The record after `update(new_time)`.
    spec fn spec_updated(&self, new_time: usize) -> Self;

    /// Feeds the length of a finished run.
    fn update(&mut self, new_time: usize)
        requires
            old(self).spec_update_ok(new_time),
        ensures
            *final(self) == old(self).spec_updated(new_time),
    ;

    /// The predicted length of the next run.
    fn get_time(&self) -> (r: usize)
        ensures
            r == self.spec_time(),
    ;
}

/// Exponential averaging: the new prediction weighs the last run by
/// `factor` percent and the old prediction by the rest.
pub struct FactorRecord {
    exp_time: usize,
    factor: usize,
}

impl FactorRecord {
    pub closed spec fn exp(&self) -> usize {
        self.exp_time
    }

    pub closed spec fn weight(&self) -> usize {
        self.factor
    }

    /// The weight lies in 1..=100.
    pub open spec fn wf(&self) -> bool {
        1 <= self.weight() <= 100
    }

    pub closed spec fn spec_new() -> FactorRecord {
        FactorRecord { exp_time: 0, factor: 10 }
    }

    pub fn new() -> (r: FactorRecord)
        ensures
            r == FactorRecord::spec_new(),
            r.exp() == 0,
            r.weight() == 10,
            r.wf(),
    {
        FactorRecord { exp_time: 0, factor: 10 }
    }

    /// Sets the weight of the last run, in percent.
    pub fn set_factor(&mut self, new_factor: usize)
        requires
            1 <= new_factor <= 100,
        ensures
            final(self).weight() == new_factor,
            final(self).exp() == old(self).exp(),
            final(self).wf(),
    {
        self.factor = new_factor;
    }

    pub fn copy(&self) -> (r: FactorRecord)
        ensures
            r == *self,
    {
        FactorRecord { exp_time: self.exp_time, factor: self.factor }
    }
}

impl Record for FactorRecord {
    open spec fn spec_time(&self) -> usize {
        self.exp()
    }

    open spec fn spec_update_ok(&self, new_time: usize) -> bool {
        &&& self.weight() <= 100
        &&& (new_time == 0 || self.exp() == 0 || (100 - self.weight()) * self.exp() + self.weight()
            * new_time <= usize::MAX)
    }

    closed spec fn spec_updated(&self, new_time: usize) -> FactorRecord {
        if new_time == 0 {
            *self
        } else if self.exp_time == 0 {
            FactorRecord { exp_time: new_time, factor: self.factor }
        } else {
            FactorRecord {
                exp_time: (((100 - self.factor) * self.exp_time + self.factor * new_time) / 100) as usize,
                factor: self.factor,
            }
        }
    }

    fn update(&mut self, new_time: usize) {
        if new_time == 0 {
            return ;
        }
        if self.exp_time == 0 {
            self.exp_time = new_time;
        } else {
            let new_exp_time = (100 - self.factor) * self.exp_time + self.factor * new_time;
            self.exp_time = new_exp_time / 100;
        }
    }

    fn get_time(&self) -> (r: usize) {
        self.exp_time
    }
}

/// Exponential averaging: a run of length 0 changes nothing; the first
/// run sets the prediction; a later run moves it to the weighted mean
/// `((100 - factor) * old + factor * run) / 100`. The weight never changes.
pub proof fn lemma_factor_updated(r: FactorRecord, new_time: usize)
    requires
        r.spec_update_ok(new_time),
    ensures
        r.spec_updated(new_time).weight() == r.weight(),
        r.spec_updated(new_time).exp() == if new_time == 0 {
            r.exp() as int
        } else if r.exp() == 0 {
            new_time as int
        } else {
            ((100 - r.weight()) * r.exp() + r.weight() * new_time) / 100
        },
{
}

/// Plain averaging over all runs seen so far.
pub struct HistoryRecord {
    exp_time: usize,
    exec_time: usize,
}

impl HistoryRecord {
    pub closed spec fn exp(&self) -> usize {
        self.exp_time
    }

    /// How many runs have been fed.
    pub closed spec fn runs(&self) -> usize {
        self.exec_time
    }

    pub closed spec fn spec_new() -> HistoryRecord {
        HistoryRecord { exp_time: 0, exec_time: 0 }
    }

    pub fn new() -> (r: HistoryRecord)
        ensures
            r == HistoryRecord::spec_new(),
            r.exp() == 0,
            r.runs() == 0,
    {
        HistoryRecord { exp_time: 0, exec_time: 0 }
    }

    pub fn copy(&self) -> (r: HistoryRecord)
        ensures
            r == *self,
    {
        HistoryRecord { exp_time: self.exp_time, exec_time: self.exec_time }
    }
}

impl Record for HistoryRecord {
    open spec fn spec_time(&self) -> usize {
        self.exp()
    }

    open spec fn spec_update_ok(&self, new_time: usize) -> bool {
        new_time == 0 || (self.runs() + 1 <= usize::MAX && self.runs() * self.exp() + new_time
            <= usize::MAX)
    }

    closed spec fn spec_updated(&self, new_time: usize) -> HistoryRecord {
        if new_time == 0 {
            *self
        } else {
            HistoryRecord {
                exp_time: ((self.exec_time * self.exp_time + new_time) / (self.exec_time + 1)) as usize,
                exec_time: (self.exec_time + 1) as usize,
            }
        }
    }

    fn update(&mut self, new_time: usize) {
        if new_time == 0 {
            return ;
        }
        let new_exec_time = self.exec_time + 1;
        let total_time = (self.exec_time * self.exp_time + new_time) / new_exec_time;
        self.exec_time = new_exec_time;
        self.exp_time = total_time;
    }

    fn get_time(&self) -> (r: usize) {
        self.exp_time
    }
}

/// Plain averaging: a run of length 0 changes nothing; otherwise the count
/// of runs grows by one and the prediction becomes the mean of the runs,
/// `(runs * old + run) / (runs + 1)`.
pub proof fn lemma_history_updated(r: HistoryRecord, new_time: usize)
    requires
        r.spec_update_ok(new_time),
    ensures
        r.spec_updated(new_time).runs() == if new_time == 0 {
            r.runs() as int
        } else {
            r.runs() + 1
        },
        r.spec_updated(new_time).exp() == if new_time == 0 {
            r.exp() as int
        } else {
            (r.runs() * r.exp() + new_time) / (r.runs() + 1)
        },
{
}

/// Records kept per program, keyed by the program's number.
pub trait RecordMap<R>: Sized {
    spec fn records(&self) -> Map<usize, R>;

    /// Stores `record` for program `proc`, replacing what was there.
    fn insert(&mut self, proc: usize, record: R)
        ensures
            final(self).records() == old(self).records().insert(proc, record),
    ;

    /// The record of program `proc`, to read or change in place.
    fn get_record(&mut self, proc: usize) -> (r: Option<&mut R>)
        ensures
            match r {
                Some(v) => {
                    &&& old(self).records().contains_key(proc)
                    &&& *v == old(self).records()[proc]
                    &&& final(self).records() == old(self).records().insert(proc, *final(v))
                },
                None => !old(self).records().contains_key(proc) && final(self).records() == old(
                    self,
                ).records(),
            },
    ;
}

pub struct FactorRecordMap<R> {
    map: BTreeMap<usize, R>,
}

impl<R> FactorRecordMap<R> {
    pub fn new() -> (r: Self)
        ensures
            r.records() == Map::<usize, R>::empty(),
    {
        FactorRecordMap { map: BTreeMap::new() }
    }
}

impl<R> RecordMap<R> for FactorRecordMap<R> {
    closed spec fn records(&self) -> Map<usize, R> {
        self.map@
    }

    fn insert(&mut self, proc: usize, record: R) {
        self.map.insert(proc, record);
    }

    fn get_record(&mut self, proc: usize) -> (r: Option<&mut R>) {
        map_get_mut(&mut self.map, proc)
    }
}

pub struct HistoryRecordMap<R> {
    map: BTreeMap<usize, R>,
}

impl<R> HistoryRecordMap<R> {
    pub fn new() -> (r: Self)
        ensures
            r.records() == Map::<usize, R>::empty(),
    {
        HistoryRecordMap { map: BTreeMap::new() }
    }
}

impl<R> RecordMap<R> for HistoryRecordMap<R> {
    closed spec fn records(&self) -> Map<usize, R> {
        self.map@
    }

    fn insert(&mut self, proc: usize, record: R) {
        self.map.insert(proc, record);
    }

    fn get_record(&mut self, proc: usize) -> (r: Option<&mut R>) {
        map_get_mut(&mut self.map, proc)
    }
}

} // verus!

verus! {

/// The record that feeding program `name` starts from: its own, or `fresh`
/// where it has none yet.
pub open spec fn base_record<R>(records: Map<usize, R>, name: usize, fresh: R) -> R {
    if records.contains_key(name) {
        records[name]
    } else {
        fresh
    }
}

/// The records after a run of length `t` of program `name` was fed in.
pub open spec fn fed<R: Record>(records: Map<usize, R>, name: usize, t: usize, fresh: R) -> Map<
    usize,
    R,
> {
    records.insert(name, base_record(records, name, fresh).spec_updated(t))
}

/// Feeds a run of length `t` of program `name` into exponential averaging.
pub(crate) fn feed_factor(map: &mut FactorRecordMap<FactorRecord>, name: usize, t: usize)
    requires
        base_record(old(map).records(), name, FactorRecord::spec_new()).spec_update_ok(t),
    ensures
        final(map).records() == fed(old(map).records(), name, t, FactorRecord::spec_new()),
{
    let record = map.get_record(name);
    let new_record = match record {
        None => {
            let mut fresh = FactorRecord::new();
            fresh.update(t);
            fresh.copy()
        },
        Some(cur) => {
            cur.update(t);
            cur.copy()
        },
    };
    map.insert(name, new_record);
}

/// Feeds a run of length `t` of program `name` into plain averaging.
pub(crate) fn feed_history(map: &mut HistoryRecordMap<HistoryRecord>, name: usize, t: usize)
    requires
        base_record(old(map).records(), name, HistoryRecord::spec_new()).spec_update_ok(t),
    ensures
        final(map).records() == fed(old(map).records(), name, t, HistoryRecord::spec_new()),
{
    let record = map.get_record(name);
    let new_record = match record {
        None => {
            let mut fresh = HistoryRecord::new();
            fresh.update(t);
            fresh.copy()
        },
        Some(cur) => {
            cur.update(t);
            cur.copy()
        },
    };
    map.insert(name, new_record);
}

/// A program with no record yet, fed one run of length `t > 0`, is then
/// predicted to run `t`, under either kind of averaging.
pub proof fn lemma_fresh_record_fed(t: usize)
    requires
        t > 0,
    ensures
        HistoryRecord::spec_new().spec_updated(t).spec_time() == t,
        FactorRecord::spec_new().spec_updated(t).spec_time() == t,
{
    let h = HistoryRecord::spec_new();
    assert(h.exec_time == 0 && h.exp_time == 0);
    assert((h.exec_time * h.exp_time + t) / (h.exec_time + 1) == t) by (nonlinear_arith)
        requires
            h.exec_time == 0,
            h.exp_time == 0,
    ;
    assert(h.spec_updated(t).exp() == t);
    assert(FactorRecord::spec_new().spec_updated(t).exp() == t);
}

/// The predicted time of program `proc` in `records`, or `default` where
/// it has no record.
pub open spec fn recorded_or<R: Record>(records: Map<usize, R>, proc: usize, default: usize) -> usize {
    if records.contains_key(proc) {
        records[proc].spec_time()
    } else {
        default
    }
}

/// The predicted time of `proc`, or `default`.
pub(crate) fn lookup_factor(map: &mut FactorRecordMap<FactorRecord>, proc: usize, default: usize) -> (r: usize)
    ensures
        r == recorded_or(old(map).records(), proc, default),
        final(map).records() == old(map).records(),
{
    match map.get_record(proc) {
        None => default,
        Some(record) => record.get_time(),
    }
}

/// The predicted time of `proc`, or `default`.
pub(crate) fn lookup_history(map: &mut HistoryRecordMap<HistoryRecord>, proc: usize, default: usize) -> (r: usize)
    ensures
        r == recorded_or(old(map).records(), proc, default),
        final(map).records() == old(map).records(),
{
    match map.get_record(proc) {
        None => default,
        Some(record) => record.get_time(),
    }
}

} // verus!

verus! {

/// The predicted time of program `proc`, where it has a record.
pub open spec fn recorded<R: Record>(records: Map<usize, R>, proc: usize) -> Option<usize> {
    if records.contains_key(proc) {
        Some(records[proc].spec_time())
    } else {
        None
    }
}

/// The predicted time of `proc`, where it has a record.
pub(crate) fn find_factor(map: &mut FactorRecordMap<FactorRecord>, proc: usize) -> (r: Option<usize>)
    ensures
        r == recorded(old(map).records(), proc),
        final(map).records() == old(map).records(),
{
    match map.get_record(proc) {
        None => None,
        Some(record) => Some(record.get_time()),
    }
}

/// The predicted time of `proc`, where it has a record.
pub(crate) fn find_history(map: &mut HistoryRecordMap<HistoryRecord>, proc: usize) -> (r: Option<usize>)
    ensures
        r == recorded(old(map).records(), proc),
        final(map).records() == old(map).records(),
{
    match map.get_record(proc) {
        None => None,
        Some(record) => Some(record.get_time()),
    }
}

} // verus!
