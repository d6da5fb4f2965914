//! Rounding of a packed size up to the uniform-block boundary.
use vstd::prelude::*;

verus! {

/// The boundary, in bytes, that every packed group is padded to.
pub const BLOCK_ALIGN: usize = 16;

/// `size` rounded up to the next multiple of [`BLOCK_ALIGN`]; a size that is already
/// a multiple is left as it is.
pub open spec fn aligned_of(size: int) -> int {
    if size % 16 == 0 {
        size
    } else {
        size + (16 - size % 16)
    }
}

/// Rounds `size` up to the next multiple of 16 bytes.
pub fn aligned_len(size: usize) -> (r: usize)
    requires
        size + 15 <= usize::MAX,
    ensures
        r == aligned_of(size as int),
{
    let rem: usize = size % BLOCK_ALIGN;
    if rem == 0 {
        size
    } else {
        size + (BLOCK_ALIGN - rem)
    }
}

/// The padded size is a multiple of 16 and exceeds the unpadded size by less than 16.
pub proof fn lemma_aligned_law(size: nat)
    ensures
        aligned_of(size as int) % 16 == 0,
        0 <= aligned_of(size as int) - size < 16,
        aligned_of(size as int) >= size,
{
}

/// No multiple of 16 at or above `size` lies below the padded size.
pub proof fn lemma_aligned_least(size: nat, m: int)
    requires
        m >= size,
        m % 16 == 0,
    ensures
        aligned_of(size as int) <= m,
{
}

} // verus!
