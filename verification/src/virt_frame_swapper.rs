//! A virtual disk in memory that holds the pages swapped out of the
//! address spaces, page-sized slot by slot, and the record of which slot
//! holds which task's page.
use std::collections::BTreeMap;
use vstd::prelude::*;
use crate::common::{entries, lemma_sorted_entries_unique, map_get_mut, sorted_entries};

verus! {

/// The size of a page, in bytes.
pub const PAGE_SIZE: usize = 4096;

/// The number of page-sized slots of the disk.
pub const MAX_PAGES: usize = 1024;

/// The size of the disk, in bytes.
pub const IDE_SIZE: usize = MAX_PAGES * PAGE_SIZE;

/// The page in slot `idx` of the disk contents `data`.
pub open spec fn page_of(data: Seq<u8>, idx: int) -> Seq<u8> {
    data.subrange(idx * PAGE_SIZE, idx * PAGE_SIZE + PAGE_SIZE)
}

/// The disk contents `data` with slot `idx` holding `page`.
pub open spec fn written(data: Seq<u8>, idx: int, page: Seq<u8>) -> Seq<u8> {
    Seq::new(
        data.len(),
        |k: int|
            if idx * PAGE_SIZE <= k < idx * PAGE_SIZE + PAGE_SIZE {
                page[k - idx * PAGE_SIZE]
            } else {
                data[k]
            },
    )
}

/// Writing slot `idx` leaves every other slot as it was, and the slot
/// then holds what was written.
pub proof fn lemma_written(data: Seq<u8>, idx: int, page: Seq<u8>, other: int)
    requires
        data.len() == IDE_SIZE,
        0 <= idx < MAX_PAGES,
        0 <= other < MAX_PAGES,
        page.len() == PAGE_SIZE,
    ensures
        page_of(written(data, idx, page), idx) == page,
        other != idx ==> page_of(written(data, idx, page), other) == page_of(data, other),
        written(data, idx, page).len() == IDE_SIZE,
{
    let w = written(data, idx, page);
    assert(page_of(w, idx) =~= page);
    if other != idx {
        assert(page_of(w, other) =~= page_of(data, other));
    }
}

/// The disk: `MAX_PAGES` page-sized slots.
pub struct IDE {
    data: Vec<u8>,
}

impl IDE {
    /// The bytes of the disk.
    pub closed spec fn view(&self) -> Seq<u8> {
        self.data@
    }

    /// The disk has its full size.
    pub open spec fn wf(&self) -> bool {
        self@.len() == IDE_SIZE
    }

    /// A disk of zeros.
    pub fn new() -> (r: Self)
        ensures
            r.wf(),
            forall|k: int| 0 <= k < IDE_SIZE ==> r@[k] == 0,
    {
        IDE { data: vec![0u8; IDE_SIZE] }
    }

    /// Whether `idx` is a slot of the disk.
    pub fn ide_valid(idx: usize) -> (r: bool)
        ensures
            r == (idx < MAX_PAGES),
    {
        idx < MAX_PAGES
    }

    /// Copies slot `idx` into `dst` and returns 0; returns 1, copying
    /// nothing, when `idx` is no slot.
    pub fn ide_read(&mut self, idx: usize, dst: &mut [u8]) -> (r: usize)
        requires
            old(self).wf(),
            idx < MAX_PAGES ==> old(dst)@.len() == PAGE_SIZE,
        ensures
            final(self)@ == old(self)@,
            r == if idx < MAX_PAGES {
                0usize
            } else {
                1usize
            },
            final(dst)@ == if idx < MAX_PAGES {
                page_of(old(self)@, idx as int)
            } else {
                old(dst)@
            },
    {
        if !Self::ide_valid(idx) {
            return 1;
        }
        let base = idx * PAGE_SIZE;
        let mut i: usize = 0;
        while i < PAGE_SIZE
            invariant
                self.wf(),
                self@ == old(self)@,
                idx < MAX_PAGES,
                base == idx * PAGE_SIZE,
                dst@.len() == PAGE_SIZE,
                i <= PAGE_SIZE,
                forall|k: int| 0 <= k < i ==> dst@[k] == self@[base + k],
            decreases PAGE_SIZE - i,
        {
            dst[i] = self.data[base + i];
            i = i + 1;
        }
        assert(dst@ =~= page_of(self@, idx as int));
        0
    }

    /// Copies `src` into slot `idx` and returns 0; returns 1, writing
    /// nothing, when `idx` is no slot.
    pub fn ide_write(&mut self, idx: usize, src: &[u8]) -> (r: usize)
        requires
            old(self).wf(),
            idx < MAX_PAGES ==> src@.len() == PAGE_SIZE,
        ensures
            final(self).wf(),
            r == if idx < MAX_PAGES {
                0usize
            } else {
                1usize
            },
            final(self)@ == if idx < MAX_PAGES {
                written(old(self)@, idx as int, src@)
            } else {
                old(self)@
            },
    {
        if !Self::ide_valid(idx) {
            return 1;
        }
        let base = idx * PAGE_SIZE;
        let ghost d0 = self@;
        let mut i: usize = 0;
        while i < PAGE_SIZE
            invariant
                d0 == old(self)@,
                d0.len() == IDE_SIZE,
                idx < MAX_PAGES,
                base == idx * PAGE_SIZE,
                src@.len() == PAGE_SIZE,
                i <= PAGE_SIZE,
                self@.len() == IDE_SIZE,
                forall|k: int|
                    0 <= k < IDE_SIZE ==> #[trigger] self@[k] == if base <= k < base + i {
                        src@[k - base]
                    } else {
                        d0[k]
                    },
            decreases PAGE_SIZE - i,
        {
            self.data.set(base + i, src[i]);
            i = i + 1;
        }
        assert(self@ =~= written(d0, idx as int, src@));
        0
    }
}


/// The slots of the disk given to pages, and the pages saved in them, by
/// task and virtual page number.
pub struct IdeManager {
    current: usize,
    end: usize,
    recycled: Vec<usize>,
    map: BTreeMap<usize, BTreeMap<usize, usize>>,
    ide: IDE,
}

impl IdeManager {
    /// The next slot never used.
    pub closed spec fn cur(&self) -> usize {
        self.current
    }

    /// The slot at which fresh slots run out.
    pub closed spec fn limit(&self) -> usize {
        self.end
    }

    /// The slots given back, the next one to reuse last.
    pub closed spec fn free_slots(&self) -> Seq<usize> {
        self.recycled@
    }

    /// The slot of each saved page, by task and virtual page number.
    pub closed spec fn slots(&self) -> Map<usize, Map<usize, usize>> {
        self.map@.map_values(|m: BTreeMap<usize, usize>| m@)
    }

    /// The bytes of the disk.
    pub closed spec fn disk(&self) -> Seq<u8> {
        self.ide@
    }

    /// Page `vpn` of task `t` is saved.
    pub open spec fn holds(&self, t: usize, vpn: usize) -> bool {
        self.slots().contains_key(t) && self.slots()[t].contains_key(vpn)
    }

    /// The pages saved, by (task, virtual page number).
    pub open spec fn saved(&self) -> Map<(usize, usize), Seq<u8>> {
        Map::new(|p: (usize, usize)| self.holds(p.0, p.1), |p: (usize, usize)| page_of(self.disk(), self.slots()[p.0][p.1] as int))
    }

    /// The disk has its full size; the slots handed out lie below `cur`,
    /// which stays below the limit; no slot is given back twice, nor both
    /// given back and holding a page; no two pages share a slot.
    pub open spec fn wf(&self) -> bool {
        &&& self.disk().len() == IDE_SIZE
        &&& self.limit() == MAX_PAGES - 1
        &&& self.cur() <= self.limit()
        &&& self.free_slots().no_duplicates()
        &&& forall|i: int| 0 <= i < self.free_slots().len() ==> #[trigger] self.free_slots()[i] < self.cur()
        &&& forall|t: usize, v: usize|
            #![trigger self.slots()[t][v]]
            self.holds(t, v) ==> self.slots()[t][v] < self.cur() && !self.free_slots().contains(self.slots()[t][v])
        &&& forall|t1: usize, v1: usize, t2: usize, v2: usize|
            #![trigger self.slots()[t1][v1], self.slots()[t2][v2]]
            self.holds(t1, v1) && self.holds(t2, v2) && (t1 != t2 || v1 != v2) ==> self.slots()[t1][v1]
                != self.slots()[t2][v2]
    }

    /// An empty disk with every slot free.
    pub fn new() -> (r: Self)
        ensures
            r.wf(),
            r.saved() == Map::<(usize, usize), Seq<u8>>::empty(),
            r.cur() == 0,
            r.free_slots() == Seq::<usize>::empty(),
    {
        let r = IdeManager { current: 0, end: MAX_PAGES - 1, recycled: Vec::new(), map: BTreeMap::new(), ide: IDE::new() };
        assert(r.slots() =~= Map::<usize, Map<usize, usize>>::empty());
        assert(r.saved() =~= Map::<(usize, usize), Seq<u8>>::empty());
        r
    }

    /// Records that page `vpn` of task `token` is saved in slot `idx`.
    fn insert_to_map(&mut self, token: usize, vpn: usize, idx: usize)
        ensures
            final(self).slots() == old(self).slots().insert(
                token,
                if old(self).slots().contains_key(token) {
                    old(self).slots()[token].insert(vpn, idx)
                } else {
                    map![vpn => idx]
                },
            ),
            final(self).cur() == old(self).cur(),
            final(self).limit() == old(self).limit(),
            final(self).free_slots() == old(self).free_slots(),
            final(self).disk() == old(self).disk(),
    {
        match map_get_mut(&mut self.map, token) {
            Some(m) => {
                m.insert(vpn, idx);
            },
            None => {
                let mut m: BTreeMap<usize, usize> = BTreeMap::new();
                m.insert(vpn, idx);
                self.map.insert(token, m);
            },
        }
        assert(self.slots() =~= old(self).slots().insert(
            token,
            if old(self).slots().contains_key(token) {
                old(self).slots()[token].insert(vpn, idx)
            } else {
                map![vpn => idx]
            },
        ));
    }

    /// Whether a slot is left for one more page.
    pub fn has_room(&self) -> (r: bool)
        ensures
            r == (self.free_slots().len() > 0 || self.cur() < self.limit()),
    {
        self.recycled.len() > 0 || self.current < self.end
    }

    /// Whether page `vpn` of task `token` is saved.
    pub fn check(&mut self, token: usize, vpn: usize) -> (r: bool)
        ensures
            r == old(self).holds(token, vpn),
            *final(self) == *old(self),
    {
        match self.map.get(&token) {
            Some(m) => m.get(&vpn).is_some(),
            None => false,
        }
    }

    /// Saves `src` as page `vpn` of task `token`, in the last slot given
    /// back, else in the next fresh one.
    pub fn swap_in(&mut self, token: usize, vpn: usize, src: &[u8])
        requires
            old(self).wf(),
            src@.len() == PAGE_SIZE,
            old(self).free_slots().len() > 0 || old(self).cur() < old(self).limit(),
        ensures
            final(self).wf(),
            final(self).saved() == old(self).saved().insert((token, vpn), src@),
            if old(self).free_slots().len() > 0 {
                &&& final(self).free_slots() == old(self).free_slots().drop_last()
                &&& final(self).cur() == old(self).cur()
            } else {
                &&& final(self).free_slots() == old(self).free_slots()
                &&& final(self).cur() == old(self).cur() + 1
            },
    {
        let ghost s0 = self.slots();
        let ghost d0 = self.disk();
        let ghost f0 = self.free_slots();
        let idx: usize;
        match self.recycled.pop() {
            Some(i) => {
                idx = i;
                proof {
                    assert(f0.last() == idx);
                    assert(f0.contains(idx));
                    assert(!self.free_slots().contains(idx)) by {
                        if self.free_slots().contains(idx) {
                            let k = choose|k: int| 0 <= k < self.free_slots().len() && self.free_slots()[k] == idx;
                            assert(f0[k] == f0[f0.len() - 1]);
                        }
                    }
                }
            },
            None => {
                self.current = self.current + 1;
                idx = self.current - 1;
            },
        }
        proof {
            assert forall|t: usize, v: usize| #![trigger s0[t][v]] s0.contains_key(t) && s0[t].contains_key(v) implies s0[t][v]
                != idx by {
                assert(old(self).holds(t, v));
                assert(old(self).slots()[t][v] < old(self).cur());
                if f0.len() > 0 {
                    assert(!f0.contains(old(self).slots()[t][v]));
                }
            }
        }
        self.ide.ide_write(idx, src);
        self.insert_to_map(token, vpn, idx);
        proof {
            lemma_written(d0, idx as int, src@, idx as int);
            assert forall|p: (usize, usize)| #[trigger] self.saved().contains_key(p) == old(self).saved().insert(
                (token, vpn),
                src@,
            ).contains_key(p) by {}
            assert forall|p: (usize, usize)| #[trigger] self.saved().contains_key(p) implies self.saved()[p]
                == old(self).saved().insert((token, vpn), src@)[p] by {
                if p != (token, vpn) {
                    let sp = s0[p.0][p.1];
                    assert(s0.contains_key(p.0) && s0[p.0].contains_key(p.1));
                    assert(sp != idx);
                    assert(old(self).holds(p.0, p.1));
                    lemma_written(d0, idx as int, src@, sp as int);
                }
            }
            assert(self.saved() =~= old(self).saved().insert((token, vpn), src@));
            assert forall|i: int| 0 <= i < self.free_slots().len() implies #[trigger] self.free_slots()[i] < self.cur() by {
                assert(self.free_slots()[i] == f0[i]);
            }
            assert forall|t: usize, v: usize| #![trigger self.slots()[t][v]] self.holds(t, v) implies self.slots()[t][v]
                < self.cur() && !self.free_slots().contains(self.slots()[t][v]) by {
                if (t, v) != (token, vpn) {
                    assert(old(self).holds(t, v));
                    let sv = s0[t][v];
                    assert(self.slots()[t][v] == sv);
                    if self.free_slots().contains(sv) {
                        let k = choose|k: int| 0 <= k < self.free_slots().len() && self.free_slots()[k] == sv;
                        assert(f0[k] == sv);
                    }
                }
            }
            assert forall|t1: usize, v1: usize, t2: usize, v2: usize|
                #![trigger self.slots()[t1][v1], self.slots()[t2][v2]]
                self.holds(t1, v1) && self.holds(t2, v2) && (t1 != t2 || v1 != v2) implies self.slots()[t1][v1]
                    != self.slots()[t2][v2] by {
                if (t1, v1) != (token, vpn) {
                    assert(old(self).holds(t1, v1));
                }
                if (t2, v2) != (token, vpn) {
                    assert(old(self).holds(t2, v2));
                }
            }
        }
    }

    /// Copies page `vpn` of task `token` into `dst`, gives its slot back and
    /// forgets it.
    pub fn swap_out(&mut self, token: usize, vpn: usize, dst: &mut [u8])
        requires
            old(self).wf(),
            old(self).holds(token, vpn),
            old(dst)@.len() == PAGE_SIZE,
        ensures
            final(self).wf(),
            final(dst)@ == old(self).saved()[(token, vpn)],
            final(self).saved() == old(self).saved().remove((token, vpn)),
            final(self).free_slots() == old(self).free_slots().push(old(self).slots()[token][vpn]),
            final(self).cur() == old(self).cur(),
    {
        let ghost s0 = self.slots();
        let ghost f0 = self.free_slots();
        let m = map_get_mut(&mut self.map, token).unwrap();
        let idx = *m.get(&vpn).unwrap();
        assert(idx == s0[token][vpn]);
        assert(old(self).holds(token, vpn));
        self.ide.ide_read(idx, dst);
        self.recycled.push(idx);
        m.remove(&vpn);
        proof {
            assert(self.slots() =~= s0.insert(token, s0[token].remove(vpn)));
            assert(self.saved() =~= old(self).saved().remove((token, vpn)));
            assert forall|i: int| 0 <= i < self.free_slots().len() implies #[trigger] self.free_slots()[i] < self.cur() by {
                if i < f0.len() {
                    assert(self.free_slots()[i] == f0[i]);
                }
            }
            assert(self.free_slots().no_duplicates()) by {
                assert forall|i: int, j: int| 0 <= i < j < self.free_slots().len() implies self.free_slots()[i]
                    != self.free_slots()[j] by {
                    if j == f0.len() {
                        assert(f0.contains(f0[i]));
                    }
                }
            }
            assert forall|t: usize, v: usize| #![trigger self.slots()[t][v]] self.holds(t, v) implies self.slots()[t][v]
                < self.cur() && !self.free_slots().contains(self.slots()[t][v]) by {
                assert(old(self).holds(t, v));
                let sv = s0[t][v];
                assert(self.slots()[t][v] == sv);
                assert(sv != idx);
                if self.free_slots().contains(sv) {
                    let k = choose|k: int| 0 <= k < self.free_slots().len() && self.free_slots()[k] == sv;
                    assert(f0[k] == sv);
                }
            }
            assert forall|t1: usize, v1: usize, t2: usize, v2: usize|
                #![trigger self.slots()[t1][v1], self.slots()[t2][v2]]
                self.holds(t1, v1) && self.holds(t2, v2) && (t1 != t2 || v1 != v2) implies self.slots()[t1][v1]
                    != self.slots()[t2][v2] by {
                assert(old(self).holds(t1, v1));
                assert(old(self).holds(t2, v2));
            }
        }
    }

    /// Forgets every saved page of task `token`, giving their slots back in
    /// increasing order of page number.
    pub fn clear_disk_frames(&mut self, token: usize)
        requires
            old(self).wf(),
        ensures
            final(self).wf(),
            final(self).saved() == old(self).saved().remove_keys(Set::new(|p: (usize, usize)| p.0 == token)),
            final(self).cur() == old(self).cur(),
            !old(self).slots().contains_key(token) ==> final(self).free_slots() == old(self).free_slots(),
            old(self).slots().contains_key(token) ==> exists|es: Seq<(usize, usize)>|
                sorted_entries(old(self).slots()[token], es),
            forall|es: Seq<(usize, usize)>|
                old(self).slots().contains_key(token) && sorted_entries(old(self).slots()[token], es)
                    ==> final(self).free_slots() == old(self).free_slots() + es.map_values(|e: (usize, usize)| e.1),
    {
        let ghost s0 = self.slots();
        let ghost f0 = self.free_slots();
        let item = self.map.remove(&token);
        proof {
            assert(self.slots() =~= s0.remove(token));
            assert(self.saved() =~= old(self).saved().remove_keys(Set::new(|p: (usize, usize)| p.0 == token)));
        }
        match item {
            Some(m) => {
                let es = entries(&m);
                let ghost st = s0[token];
                assert(m@ == st);
                let mut i: usize = 0;
                while i < es.len()
                    invariant
                        sorted_entries(st, es@),
                        i <= es@.len(),
                        self.slots() == s0.remove(token),
                        s0.contains_key(token),
                        st == s0[token],
                        self.free_slots() == f0 + es@.take(i as int).map_values(|e: (usize, usize)| e.1),
                        old(self).wf(),
                        s0 == old(self).slots(),
                        f0 == old(self).free_slots(),
                        self.cur() == old(self).cur(),
                        self.limit() == old(self).limit(),
                        self.disk() == old(self).disk(),
                    decreases es@.len() - i,
                {
                    self.recycled.push(es[i].1);
                    proof {
                        assert(es@.take(i + 1).map_values(|e: (usize, usize)| e.1) =~= es@.take(i as int).map_values(
                            |e: (usize, usize)| e.1,
                        ).push(es@[i as int].1));
                        assert(self.free_slots() =~= f0 + es@.take(i + 1).map_values(|e: (usize, usize)| e.1));
                    }
                    i = i + 1;
                }
                proof {
                    let added = es@.map_values(|e: (usize, usize)| e.1);
                    assert(es@.take(es@.len() as int) =~= es@);
                    assert forall|k: int| 0 <= k < added.len() implies old(self).holds(token, es@[k].0) && #[trigger] added[k]
                        == s0[token][es@[k].0] by {
                        assert(st.contains_key(es@[k].0));
                    }
                    assert forall|i1: int| 0 <= i1 < self.free_slots().len() implies #[trigger] self.free_slots()[i1]
                        < self.cur() by {
                        if i1 >= f0.len() {
                            let k = i1 - f0.len();
                            assert(self.free_slots()[i1] == added[k]);
                            assert(old(self).holds(token, es@[k].0));
                        }
                    }
                    assert(self.free_slots().no_duplicates()) by {
                        assert forall|a: int, b: int| 0 <= a < b < self.free_slots().len() implies self.free_slots()[a]
                            != self.free_slots()[b] by {
                            let fs = self.free_slots();
                            if b >= f0.len() {
                                let kb = b - f0.len();
                                assert(fs[b] == added[kb]);
                                assert(old(self).holds(token, es@[kb].0));
                                if a < f0.len() {
                                    assert(fs[a] == f0[a]);
                                    assert(f0.contains(f0[a]));
                                } else {
                                    let ka = a - f0.len();
                                    assert(fs[a] == added[ka]);
                                    assert(old(self).holds(token, es@[ka].0));
                                    assert(es@[ka].0 < es@[kb].0);
                                }
                            }
                        }
                    }
                    assert forall|t: usize, v: usize| #![trigger self.slots()[t][v]] self.holds(t, v) implies self.slots()[t][v]
                        < self.cur() && !self.free_slots().contains(self.slots()[t][v]) by {
                        assert(old(self).holds(t, v));
                        let sv = s0[t][v];
                        assert(self.slots()[t][v] == sv);
                        if self.free_slots().contains(sv) {
                            let k = choose|k: int| 0 <= k < self.free_slots().len() && self.free_slots()[k] == sv;
                            if k < f0.len() {
                                assert(f0[k] == sv);
                            } else {
                                let ka = k - f0.len();
                                assert(self.free_slots()[k] == added[ka]);
                                assert(old(self).holds(token, es@[ka].0));
                            }
                        }
                    }
                    assert forall|t1: usize, v1: usize, t2: usize, v2: usize|
                        #![trigger self.slots()[t1][v1], self.slots()[t2][v2]]
                        self.holds(t1, v1) && self.holds(t2, v2) && (t1 != t2 || v1 != v2) implies self.slots()[t1][v1]
                            != self.slots()[t2][v2] by {
                        assert(old(self).holds(t1, v1));
                        assert(old(self).holds(t2, v2));
                    }
                    assert forall|es2: Seq<(usize, usize)>| sorted_entries(st, es2) implies self.free_slots() == f0
                        + es2.map_values(|e: (usize, usize)| e.1) by {
                        lemma_sorted_entries_unique(st, es@, es2);
                    }
                }
            },
            None => {
                proof {
                    assert forall|t: usize, v: usize| #![trigger self.slots()[t][v]] self.holds(t, v) implies self.slots()[t][v]
                        < self.cur() && !self.free_slots().contains(self.slots()[t][v]) by {
                        assert(old(self).holds(t, v));
                    }
                    assert forall|t1: usize, v1: usize, t2: usize, v2: usize|
                        #![trigger self.slots()[t1][v1], self.slots()[t2][v2]]
                        self.holds(t1, v1) && self.holds(t2, v2) && (t1 != t2 || v1 != v2) implies self.slots()[t1][v1]
                            != self.slots()[t2][v2] by {
                        assert(old(self).holds(t1, v1));
                        assert(old(self).holds(t2, v2));
                    }
                }
            },
        }
    }
}

/// What a page saved gives back: `swap_in(t, v, src)` followed by
/// `swap_out(t, v, dst)` fills `dst` with `src`, and the disk then holds
/// the pages it held before but that one.
pub proof fn law_swap_round_trip(
    a: IdeManager,
    b: IdeManager,
    c: IdeManager,
    t: usize,
    v: usize,
    src: Seq<u8>,
    dst: Seq<u8>,
)
    requires
        b.saved() == a.saved().insert((t, v), src),
        dst == b.saved()[(t, v)],
        c.saved() == b.saved().remove((t, v)),
    ensures
        dst == src,
        c.saved() == a.saved().remove((t, v)),
{
    assert(c.saved() =~= a.saved().remove((t, v)));
}

/// Saving a page leaves every other saved page as it was.
pub proof fn law_swap_in_keeps_others(a: IdeManager, b: IdeManager, t: usize, v: usize, src: Seq<u8>, t2: usize, v2: usize)
    requires
        b.saved() == a.saved().insert((t, v), src),
        (t2, v2) != (t, v),
    ensures
        b.saved().contains_key((t2, v2)) == a.saved().contains_key((t2, v2)),
        a.saved().contains_key((t2, v2)) ==> b.saved()[(t2, v2)] == a.saved()[(t2, v2)],
{
}

/// A slot written is read back: `ide_write(idx, src)` then
/// `ide_read(idx, dst)` fills `dst` with `src`.
pub proof fn law_write_then_read(d0: Seq<u8>, idx: usize, src: Seq<u8>)
    requires
        d0.len() == IDE_SIZE,
        idx < MAX_PAGES,
        src.len() == PAGE_SIZE,
    ensures
        page_of(written(d0, idx as int, src), idx as int) == src,
{
    lemma_written(d0, idx as int, src, idx as int);
}


/// What the disk holds after the writes `ws` (slot, page), in order, from
/// the contents `d0`: a write to no slot changes nothing.
pub open spec fn disk_after(d0: Seq<u8>, ws: Seq<(usize, Seq<u8>)>) -> Seq<u8>
    decreases ws.len(),
{
    if ws.len() == 0 {
        d0
    } else {
        let d = disk_after(d0, ws.drop_last());
        if ws.last().0 < MAX_PAGES {
            written(d, ws.last().0 as int, ws.last().1)
        } else {
            d
        }
    }
}

/// Every write of `ws` to a slot carries a whole page.
pub open spec fn page_writes(ws: Seq<(usize, Seq<u8>)>) -> bool {
    forall|i: int| 0 <= i < ws.len() && (#[trigger] ws[i]).0 < MAX_PAGES ==> ws[i].1.len() == PAGE_SIZE
}

/// A slot reads back the last page written to it: after the writes `ws`,
/// in which `ws[k]` writes slot `ws[k].0` and no later write goes to that
/// slot, the slot holds `ws[k].1`, whatever other slots were written.
pub proof fn law_read_gives_last_write(d0: Seq<u8>, ws: Seq<(usize, Seq<u8>)>, k: int)
    requires
        d0.len() == IDE_SIZE,
        page_writes(ws),
        0 <= k < ws.len(),
        ws[k].0 < MAX_PAGES,
        forall|j: int| k < j < ws.len() ==> (#[trigger] ws[j]).0 != ws[k].0,
    ensures
        page_of(disk_after(d0, ws), ws[k].0 as int) == ws[k].1,
        disk_after(d0, ws).len() == IDE_SIZE,
    decreases ws.len(),
{
    let pre = ws.drop_last();
    lemma_disk_after_len(d0, pre);
    let d = disk_after(d0, pre);
    if k == ws.len() - 1 {
        lemma_written(d, ws[k].0 as int, ws[k].1, ws[k].0 as int);
    } else {
        assert forall|i: int| 0 <= i < pre.len() && (#[trigger] pre[i]).0 < MAX_PAGES implies pre[i].1.len()
            == PAGE_SIZE by {
            assert(pre[i] == ws[i]);
        }
        assert forall|j: int| k < j < pre.len() implies (#[trigger] pre[j]).0 != pre[k].0 by {
            assert(pre[j] == ws[j]);
        }
        assert(pre[k] == ws[k]);
        law_read_gives_last_write(d0, pre, k);
        let w = ws.last();
        assert(w == ws[ws.len() - 1]);
        if w.0 < MAX_PAGES {
            lemma_written(d, w.0 as int, w.1, ws[k].0 as int);
        }
    }
}

/// The disk keeps its size through any run of writes.
pub proof fn lemma_disk_after_len(d0: Seq<u8>, ws: Seq<(usize, Seq<u8>)>)
    requires
        d0.len() == IDE_SIZE,
    ensures
        disk_after(d0, ws).len() == IDE_SIZE,
    decreases ws.len(),
{
    if ws.len() > 0 {
        lemma_disk_after_len(d0, ws.drop_last());
    }
}

/// An operation on the saved pages of an `IdeManager`.
pub enum DiskOp {
    /// `swap_in(token, vpn, page)`.
    SwapIn(usize, usize, Seq<u8>),
    /// `swap_out(token, vpn, _)`.
    SwapOut(usize, usize),
    /// `clear_disk_frames(token)`.
    Clear(usize),
}

/// The saved pages `s` after the operation `op`, as the operations'
/// contracts state it.
pub open spec fn apply_disk_op(s: Map<(usize, usize), Seq<u8>>, op: DiskOp) -> Map<(usize, usize), Seq<u8>> {
    match op {
        DiskOp::SwapIn(t, v, page) => s.insert((t, v), page),
        DiskOp::SwapOut(t, v) => s.remove((t, v)),
        DiskOp::Clear(t) => s.remove_keys(Set::new(|p: (usize, usize)| p.0 == t)),
    }
}

/// The saved pages after the operations `ops`, in order, from `s0`.
pub open spec fn saved_after(s0: Map<(usize, usize), Seq<u8>>, ops: Seq<DiskOp>) -> Map<(usize, usize), Seq<u8>>
    decreases ops.len(),
{
    if ops.len() == 0 {
        s0
    } else {
        apply_disk_op(saved_after(s0, ops.drop_last()), ops.last())
    }
}

/// Operation `op` saves, forgets or replaces page `v` of task `t`.
pub open spec fn touches(op: DiskOp, t: usize, v: usize) -> bool {
    match op {
        DiskOp::SwapIn(t2, v2, _) => t2 == t && v2 == v,
        DiskOp::SwapOut(t2, v2) => t2 == t && v2 == v,
        DiskOp::Clear(t2) => t2 == t,
    }
}

/// `ops[k]` saves page `v` of task `t` and no later operation touches it.
pub open spec fn last_saved(ops: Seq<DiskOp>, t: usize, v: usize, k: int) -> bool {
    &&& 0 <= k < ops.len()
    &&& ops[k] matches DiskOp::SwapIn(t2, v2, _) && t2 == t && v2 == v
    &&& forall|j: int| k < j < ops.len() ==> !touches(#[trigger] ops[j], t, v)
}

/// The saved pages after a run of operations: page `v` of task `t` is
/// saved when some `swap_in` of it is followed by no `swap_out` of it, no
/// `clear_disk_frames(t)` and no other `swap_in` of it, and it then holds
/// what that `swap_in` saved; or when it was saved at the start and
/// nothing touched it.
pub proof fn lemma_saved_after(s0: Map<(usize, usize), Seq<u8>>, ops: Seq<DiskOp>, t: usize, v: usize)
    ensures
        saved_after(s0, ops).contains_key((t, v)) <==> (exists|k: int| last_saved(ops, t, v, k)) || (s0.contains_key(
            (t, v),
        ) && forall|j: int| 0 <= j < ops.len() ==> !touches(#[trigger] ops[j], t, v)),
        forall|k: int| #[trigger] last_saved(ops, t, v, k) ==> (ops[k] matches DiskOp::SwapIn(_, _, page)
            && saved_after(s0, ops)[(t, v)] == page),
        (forall|j: int| 0 <= j < ops.len() ==> !touches(#[trigger] ops[j], t, v)) && s0.contains_key((t, v))
            ==> saved_after(s0, ops)[(t, v)] == s0[(t, v)],
    decreases ops.len(),
{
    if ops.len() > 0 {
        let pre = ops.drop_last();
        lemma_saved_after(s0, pre, t, v);
        let n = ops.len() - 1;
        let op = ops.last();
        assert(op == ops[n]);
        assert forall|j: int| 0 <= j < pre.len() implies pre[j] == ops[j] by {}
        if touches(op, t, v) {
            match op {
                DiskOp::SwapIn(_, _, _) => {
                    assert(last_saved(ops, t, v, n));
                    assert forall|k: int| #[trigger] last_saved(ops, t, v, k) implies k == n by {
                        if k < n {
                            assert(!touches(ops[n], t, v));
                        }
                    }
                },
                _ => {
                    assert(!saved_after(s0, ops).contains_key((t, v)));
                    assert(touches(ops[n], t, v));
                    assert forall|k: int| !#[trigger] last_saved(ops, t, v, k) by {
                        if 0 <= k < n {
                            assert(touches(ops[n], t, v));
                        }
                    }
                },
            }
        } else {
            assert(saved_after(s0, ops).contains_key((t, v)) == saved_after(s0, pre).contains_key((t, v)));
            assert(saved_after(s0, pre).contains_key((t, v)) ==> saved_after(s0, ops)[(t, v)] == saved_after(
                s0,
                pre,
            )[(t, v)]);
            assert forall|k: int|
                #![trigger last_saved(ops, t, v, k)]
                #![trigger last_saved(pre, t, v, k)]
                last_saved(ops, t, v, k) <==> last_saved(pre, t, v, k) by {
                if last_saved(ops, t, v, k) {
                    assert(k != n);
                    assert(pre[k] == ops[k]);
                    assert forall|j: int| k < j < pre.len() implies !touches(#[trigger] pre[j], t, v) by {
                        assert(pre[j] == ops[j]);
                    }
                }
                if last_saved(pre, t, v, k) {
                    assert(pre[k] == ops[k]);
                    assert forall|j: int| k < j < ops.len() implies !touches(#[trigger] ops[j], t, v) by {
                        if j < n {
                            assert(pre[j] == ops[j]);
                        }
                    }
                }
            }
            assert((forall|j: int| 0 <= j < ops.len() ==> !touches(#[trigger] ops[j], t, v)) <==> (forall|j: int|
                0 <= j < pre.len() ==> !touches(#[trigger] pre[j], t, v))) by {
                if forall|j: int| 0 <= j < pre.len() ==> !touches(#[trigger] pre[j], t, v) {
                    assert forall|j: int| 0 <= j < ops.len() implies !touches(#[trigger] ops[j], t, v) by {
                        if j < n {
                            assert(pre[j] == ops[j]);
                        }
                    }
                }
            }
        }
    }
}

/// The pages an `IdeManager` holds after any run of operations, from
/// `new()` or any other start: the managers `ms` are the states between
/// the operations `ops`, each step as that operation's contract states
/// it. Page `v` of task `t` is held at the end (what `check(t, v)`
/// answers) exactly as `saved_after` says, and what `swap_out` then
/// copies out is the page of its last `swap_in`, whatever came between.
pub proof fn law_disk_run(ms: Seq<IdeManager>, ops: Seq<DiskOp>, t: usize, v: usize)
    requires
        ms.len() == ops.len() + 1,
        forall|i: int| 0 <= i < ops.len() ==> (#[trigger] ms[i + 1]).saved() == apply_disk_op(ms[i].saved(), ops[i]),
    ensures
        ms.last().saved() == saved_after(ms[0].saved(), ops),
        ms.last().holds(t, v) <==> (exists|k: int| last_saved(ops, t, v, k)) || (ms[0].holds(t, v) && forall|j: int|
            0 <= j < ops.len() ==> !touches(#[trigger] ops[j], t, v)),
        forall|k: int| #[trigger] last_saved(ops, t, v, k) ==> (ops[k] matches DiskOp::SwapIn(_, _, page)
            && ms.last().saved()[(t, v)] == page),
    decreases ops.len(),
{
    if ops.len() > 0 {
        let n = ops.len() - 1;
        law_disk_run(ms.drop_last(), ops.drop_last(), t, v);
        assert(ms.drop_last().last() == ms[n]);
        assert(ms[n + 1] == ms.last());
    }
    lemma_saved_after(ms[0].saved(), ops, t, v);
}

} // verus!
