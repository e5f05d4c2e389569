//! The accessed and dirty bits of an address space's page-table entries,
//! held as plain values for the page-replacement policies to read and
//! clear.
use std::collections::BTreeMap;
use vstd::prelude::*;
use crate::common::map_get_mut;

verus! {

/// The accessed bit of a page-table entry's flags.
pub const ACCESS_FLAG: usize = 64;

/// The dirty bit of a page-table entry's flags.
pub const DIRTY_FLAG: usize = 128;

/// The accessed bit is set in `flags`.
pub open spec fn accessed(flags: usize) -> bool {
    flags & ACCESS_FLAG != 0
}

/// The dirty bit is set in `flags`.
pub open spec fn dirty(flags: usize) -> bool {
    flags & DIRTY_FLAG != 0
}

/// `flags` with the accessed bit (and the dirty bit, if asked) turned off.
pub open spec fn cleaned(flags: usize, clear_access: bool, clear_dirty: bool) -> usize {
    let f1 = if clear_access && flags & ACCESS_FLAG != 0 {
        flags ^ ACCESS_FLAG
    } else {
        flags
    };
    if clear_dirty && f1 & DIRTY_FLAG != 0 {
        f1 ^ DIRTY_FLAG
    } else {
        f1
    }
}

/// The valid bit of a page-table entry's flags.
pub const VALID_FLAG: usize = 1;

/// An entry is valid under `flags`.
pub open spec fn valid(flags: usize) -> bool {
    flags & VALID_FLAG != 0
}

/// Every bit of `required` is set in `flags`.
pub open spec fn has_flags(flags: usize, required: usize) -> bool {
    flags & required == required
}

/// Whether a page fault asking for the flags `required` can be handled,
/// given the flags of the faulting address's page-table entry (`None`
/// where it has none): not when the entry is valid yet lacks some of the
/// flags asked for, a fault the kernel does not support.
pub fn fault_flags_supported(pte: Option<usize>, required: usize) -> (r: bool)
    ensures
        r == !(pte matches Some(f) && valid(f) && !has_flags(f, required)),
{
    match pte {
        Some(f) => !((f & VALID_FLAG) != 0 && (f & required) != required),
        None => true,
    }
}

/// The flags of an entry after its accessed bit is cleared.
pub open spec fn unaccessed(flags: usize) -> usize {
    cleaned(flags, true, false)
}

/// Turns off the accessed bit, and the dirty bit if asked, of a valid
/// page-table entry's flags.
pub fn clean_flags(flags: usize, clear_access: bool, clear_dirty: bool) -> (r: usize)
    requires
        valid(flags),
    ensures
        r == cleaned(flags, clear_access, clear_dirty),
        valid(r),
        clear_access ==> !accessed(r),
        clear_dirty ==> !dirty(r),
        !clear_access ==> (accessed(r) <==> accessed(flags)),
        !clear_dirty ==> (dirty(r) <==> dirty(flags)),
{
    let mut flag = flags;
    if clear_access && (flag & ACCESS_FLAG) != 0 {
        flag = flag ^ ACCESS_FLAG;
    }
    if clear_dirty && (flag & DIRTY_FLAG) != 0 {
        flag = flag ^ DIRTY_FLAG;
    }
    proof {
        let f0 = flags;
        let f1 = if clear_access && f0 & 64usize != 0 { f0 ^ 64usize } else { f0 };
        assert(f0 & 64usize != 0 ==> (f0 ^ 64usize) & 64usize == 0) by (bit_vector);
        assert((f0 ^ 64usize) & 128usize == f0 & 128usize) by (bit_vector);
        assert(f1 & 128usize != 0 ==> (f1 ^ 128usize) & 128usize == 0) by (bit_vector);
        assert((f1 ^ 128usize) & 64usize == f1 & 64usize) by (bit_vector);
        assert((f0 ^ 64usize) & 1usize == f0 & 1usize) by (bit_vector);
        assert((f1 ^ 128usize) & 1usize == f1 & 1usize) by (bit_vector);
    }
    flag
}

/// Turns off the valid bit of a valid entry's flags, which unmaps its
/// page; the other bits stay.
pub fn unmap_flags(flags: usize) -> (r: usize)
    requires
        valid(flags),
    ensures
        r == flags ^ VALID_FLAG,
        !valid(r),
        accessed(r) == accessed(flags),
        dirty(r) == dirty(flags),
{
    let f = flags ^ VALID_FLAG;
    proof {
        assert(flags & 1usize != 0 ==> (flags ^ 1usize) & 1usize == 0) by (bit_vector);
        assert((flags ^ 1usize) & 64usize == flags & 64usize) by (bit_vector);
        assert((flags ^ 1usize) & 128usize == flags & 128usize) by (bit_vector);
    }
    f
}

/// The flags of the mapped pages of one address space, by virtual page
/// number; every entry held is valid.
pub struct PageBits {
    flags: BTreeMap<usize, usize>,
}

impl PageBits {
    #[verifier::type_invariant]
    spec fn all_valid(&self) -> bool {
        forall|v: usize| #[trigger] self.flags@.contains_key(v) ==> valid(self.flags@[v])
    }

    pub closed spec fn view(&self) -> Map<usize, usize> {
        self.flags@
    }

    pub fn new() -> (r: Self)
        ensures
            r@ == Map::<usize, usize>::empty(),
    {
        PageBits { flags: BTreeMap::new() }
    }

    /// Records the flags of page `vpn`, a valid entry.
    pub fn set(&mut self, vpn: usize, flags: usize)
        requires
            valid(flags),
        ensures
            final(self)@ == old(self)@.insert(vpn, flags),
    {
        proof {
            use_type_invariant(&*self);
        }
        let mut m = BTreeMap::new();
        std::mem::swap(&mut m, &mut self.flags);
        m.insert(vpn, flags);
        self.flags = m;
    }

    /// The flags of page `vpn`, if it is mapped.
    pub fn get(&self, vpn: usize) -> (r: Option<usize>)
        ensures
            r == if self@.contains_key(vpn) {
                Some(self@[vpn])
            } else {
                None
            },
    {
        match self.flags.get(&vpn) {
            Some(f) => Some(*f),
            None => None,
        }
    }

    /// Whether page `vpn` was accessed.
    pub fn has_accessed(&self, vpn: usize) -> (r: bool)
        requires
            self@.contains_key(vpn),
        ensures
            r == accessed(self@[vpn]),
    {
        let f = *self.flags.get(&vpn).unwrap();
        (f & ACCESS_FLAG) != 0
    }

    /// Whether page `vpn` was accessed and whether it was written.
    pub fn get_accessed_dirty(&self, vpn: usize) -> (r: (bool, bool))
        requires
            self@.contains_key(vpn),
        ensures
            r == (accessed(self@[vpn]), dirty(self@[vpn])),
    {
        let f = *self.flags.get(&vpn).unwrap();
        ((f & ACCESS_FLAG) != 0, (f & DIRTY_FLAG) != 0)
    }

    /// Clears the accessed bit of page `vpn`.
    pub fn clear_accessed(&mut self, vpn: usize)
        requires
            old(self)@.contains_key(vpn),
        ensures
            final(self)@ == old(self)@.insert(vpn, unaccessed(old(self)@[vpn])),
            !accessed(final(self)@[vpn]),
    {
        proof {
            use_type_invariant(&*self);
        }
        let mut m = BTreeMap::new();
        std::mem::swap(&mut m, &mut self.flags);
        match map_get_mut(&mut m, vpn) {
            Some(f) => {
                *f = clean_flags(*f, true, false);
            },
            None => {},
        }
        self.flags = m;
    }
}

} // verus!

verus! {

/// Clearing the accessed bit leaves it off and keeps the dirty bit.
pub proof fn lemma_unaccessed(f: usize)
    ensures
        !accessed(unaccessed(f)),
        dirty(unaccessed(f)) == dirty(f),
        !accessed(f) ==> unaccessed(f) == f,
{
    assert(f & 64usize != 0 ==> (f ^ 64usize) & 64usize == 0) by (bit_vector);
    assert((f ^ 64usize) & 128usize == f & 128usize) by (bit_vector);
}

} // verus!
