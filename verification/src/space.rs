//! The contents an address space gives the fresh pages it maps.
use vstd::prelude::*;

verus! {

/// `n` zero bytes.
pub open spec fn zeros(n: nat) -> Seq<u8> {
    Seq::new(n, |i: int| 0u8)
}

/// The image of `size` bytes of fresh pages that hold `data` at `offset`:
/// zeros up to `offset`, then `data`, then zeros to the end.
pub fn page_image(size: usize, data: &[u8], offset: usize) -> (r: Vec<u8>)
    requires
        data@.len() + offset <= size,
    ensures
        r@ == zeros(offset as nat) + data@ + zeros((size - offset - data@.len()) as nat),
{
    let mut r: Vec<u8> = Vec::new();
    let mut i: usize = 0;
    while i < offset
        invariant
            i <= offset,
            r@ == zeros(i as nat),
        decreases offset - i,
    {
        r.push(0);
        i = i + 1;
        assert(r@ =~= zeros(i as nat));
    }
    let mut j: usize = 0;
    while j < data.len()
        invariant
            j <= data@.len(),
            r@ == zeros(offset as nat) + data@.take(j as int),
        decreases data@.len() - j,
    {
        r.push(data[j]);
        assert(data@.take(j + 1) =~= data@.take(j as int).push(data@[j as int]));
        j = j + 1;
        assert(r@ =~= zeros(offset as nat) + data@.take(j as int));
    }
    assert(data@.take(data@.len() as int) =~= data@);
    let rest = size - offset - data.len();
    let mut k: usize = 0;
    while k < rest
        invariant
            k <= rest,
            rest == size - offset - data@.len(),
            r@ == zeros(offset as nat) + data@ + zeros(k as nat),
        decreases rest - k,
    {
        r.push(0);
        k = k + 1;
        assert(r@ =~= zeros(offset as nat) + data@ + zeros(k as nat));
    }
    r
}

} // verus!
