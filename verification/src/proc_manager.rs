//! The table of processes by process id.
use std::collections::BTreeMap;
use vstd::prelude::*;
use crate::common::map_get_mut;

verus! {

/// Every process entity, by process id.
pub struct ProcManager<P> {
    procs: BTreeMap<usize, P>,
}

impl<P> ProcManager<P> {
    /// The processes, by id.
    pub closed spec fn procs(&self) -> Map<usize, P> {
        self.procs@
    }

    /// An empty table.
    pub fn new() -> (r: Self)
        ensures
            r.procs() == Map::<usize, P>::empty(),
    {
        ProcManager { procs: BTreeMap::new() }
    }

    /// Stores process `id`, replacing the one there.
    pub fn insert(&mut self, id: usize, item: P)
        ensures
            final(self).procs() == old(self).procs().insert(id, item),
    {
        self.procs.insert(id, item);
    }

    /// Process `id`, to change in place.
    pub fn get_mut(&mut self, id: usize) -> (r: Option<&mut P>)
        ensures
            match r {
                Some(v) => {
                    &&& old(self).procs().contains_key(id)
                    &&& *v == old(self).procs()[id]
                    &&& final(self).procs() == old(self).procs().insert(id, *final(v))
                },
                None => !old(self).procs().contains_key(id) && final(self).procs() == old(self).procs(),
            },
    {
        map_get_mut(&mut self.procs, id)
    }

    /// Removes process `id`.
    pub fn delete(&mut self, id: usize)
        ensures
            final(self).procs() == old(self).procs().remove(id),
    {
        self.procs.remove(&id);
    }
}

} // verus!
