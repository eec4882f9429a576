//! Mapping of an allocation request onto one of the size classes.

use vstd::arithmetic::power2::{
    lemma_pow2_pos, lemma_pow2_strictly_increases, lemma_pow2_unfold, pow2,
};
use vstd::prelude::*;

use crate::util::{is_power_of_two, power_of_two};

verus! {

/// The largest block the allocator serves: `2^32` bytes.
pub const MAX_BLOCK_SIZE: u64 = 0x1_0000_0000;

/// The smallest block the allocator serves: 8 bytes.
pub const MIN_BLOCK_SIZE: usize = 8;

/// Why an allocation request could not be served.
#[derive(Debug, Clone, Copy, PartialEq, Eq, Structural)]
pub enum AllocError {
    /// The size is zero or the alignment is not a power of two.
    InvalidLayout,
    /// The normalized size exceeds the largest size class.
    SizeTooLarge,
    /// No free block of the needed size class or a larger one is left.
    Exhausted,
}

/// The smallest power of two that is at least `n`.
pub open spec fn next_pow2(n: nat) -> nat
    decreases n,
{
    if n <= 1 {
        1
    } else {
        2 * next_pow2(((n + 1) / 2) as nat)
    }
}

/// `e` such that `2^e <= n < 2^(e+1)`, for `n >= 1`.
pub open spec fn log2_spec(n: nat) -> nat
    decreases n,
{
    if n <= 1 {
        0
    } else {
        1 + log2_spec(n / 2)
    }
}

/// A request of `size` bytes aligned to `align` is well formed.
pub open spec fn layout_valid(size: int, align: int) -> bool {
    size > 0 && power_of_two(align)
}

/// The normalized size of a request: the next power of two of `size`, raised
/// to `align` and to 8. A block of this size placed at a multiple of it
/// satisfies both the size and the alignment of the request.
pub open spec fn normalized_size(size: int, align: int) -> int {
    let n = next_pow2(size as nat) as int;
    let n = if n < align { align } else { n };
    if n < 8 {
        8
    } else {
        n
    }
}

/// A normalized size that some size class holds and a `usize` can represent.
pub open spec fn size_fits(n: int) -> bool {
    n <= MAX_BLOCK_SIZE && n <= usize::MAX
}

/// The bin index of a normalized size `n`: `log2(n) - 3`.
pub open spec fn bin_of(n: int) -> int {
    log2_spec(n as nat) - 3
}

/// `2^e` is the smallest power of two that is at least `n`.
pub proof fn lemma_next_pow2(n: nat, e: nat)
    requires
        1 <= n <= pow2(e),
        e > 0 ==> pow2((e - 1) as nat) < n,
    ensures
        next_pow2(n) == pow2(e),
    decreases e,
{
    if e == 0 {
        vstd::arithmetic::power2::lemma2_to64();
    } else {
        lemma_pow2_unfold(e);
        if e > 1 {
            lemma_pow2_unfold((e - 1) as nat);
        }
        lemma_next_pow2(((n + 1) / 2) as nat, (e - 1) as nat);
    }
}

/// `next_pow2(n)` is at least `n`.
pub proof fn lemma_next_pow2_ge(n: nat)
    ensures
        next_pow2(n) >= n,
    decreases n,
{
    if n > 1 {
        lemma_next_pow2_ge(((n + 1) / 2) as nat);
    }
}

/// The logarithm of `2^e` is `e`.
pub proof fn lemma_log2_pow2(e: nat)
    ensures
        log2_spec(pow2(e)) == e,
    decreases e,
{
    if e == 0 {
        vstd::arithmetic::power2::lemma2_to64();
    } else {
        lemma_pow2_unfold(e);
        lemma_pow2_pos((e - 1) as nat);
        lemma_log2_pow2((e - 1) as nat);
    }
}

/// Normalizes a request of `size` bytes aligned to `align` to the block size
/// that serves it: `max(next_power_of_two(size), align, 8)`.
pub fn transform_layout(size: usize, align: usize) -> (r: Result<usize, AllocError>)
    ensures
        !layout_valid(size as int, align as int) ==> r == Err::<usize, AllocError>(
            AllocError::InvalidLayout,
        ),
        layout_valid(size as int, align as int) && !size_fits(normalized_size(size as int, align as int))
            ==> r == Err::<usize, AllocError>(AllocError::SizeTooLarge),
        layout_valid(size as int, align as int) && size_fits(normalized_size(size as int, align as int))
            ==> r == Ok::<usize, AllocError>(normalized_size(size as int, align as int) as usize),
{
    if size == 0 || !is_power_of_two(align) {
        return Err(AllocError::InvalidLayout);
    }
    let mut p: u64 = 1;
    let ghost mut e: nat = 0;
    proof {
        vstd::arithmetic::power2::lemma2_to64();
        vstd::arithmetic::power2::lemma2_to64_rest();
    }
    while p < size as u64 && p < 2 * MAX_BLOCK_SIZE
        invariant
            p == pow2(e),
            1 <= p <= 2 * MAX_BLOCK_SIZE,
            pow2(33) == 2 * MAX_BLOCK_SIZE,
            size > 0,
            e > 0 ==> pow2((e - 1) as nat) < size,
        decreases 2 * MAX_BLOCK_SIZE - p,
    {
        proof {
            lemma_pow2_unfold(e + 1);
            if e > 33 {
                lemma_pow2_strictly_increases(33, e);
            }
            if e + 1 < 33 {
                lemma_pow2_strictly_increases(e + 1, 33);
            }
        }
        p = p * 2;
        proof {
            e = e + 1;
        }
    }
    if p < size as u64 {
        proof {
            lemma_next_pow2_ge(size as nat);
        }
        return Err(AllocError::SizeTooLarge);
    }
    proof {
        lemma_next_pow2(size as nat, e);
    }
    let mut n: u64 = p;
    if n < align as u64 {
        n = align as u64;
    }
    if n < MIN_BLOCK_SIZE as u64 {
        n = MIN_BLOCK_SIZE as u64;
    }
    if n > MAX_BLOCK_SIZE || n > usize::MAX as u64 {
        Err(AllocError::SizeTooLarge)
    } else {
        Ok(n as usize)
    }
}

} // verus!
