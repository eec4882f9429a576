//! Power-of-two and alignment arithmetic on addresses.

use vstd::arithmetic::power2::{
    lemma_pow2_pos, lemma_pow2_strictly_increases, lemma_pow2_unfold, pow2,
};
use vstd::prelude::*;

verus! {

/// `n` is `2^e` for some natural `e`.
pub open spec fn power_of_two(n: int) -> bool {
    exists|e: nat| #[trigger] pow2(e) == n
}

/// The largest multiple of `align` that is at most `addr`.
pub open spec fn align_down_spec(addr: int, align: int) -> int {
    addr - addr % align
}

/// The smallest multiple of `align` that is at least `addr`.
pub open spec fn align_up_spec(addr: int, align: int) -> int {
    if addr % align == 0 {
        addr
    } else {
        addr - addr % align + align
    }
}

/// If `2^e1 == 2^e2` then `e1 == e2`.
pub proof fn lemma_pow2_injective(e1: nat, e2: nat)
    requires
        pow2(e1) == pow2(e2),
    ensures
        e1 == e2,
{
    if e1 < e2 {
        lemma_pow2_strictly_increases(e1, e2);
    } else if e2 < e1 {
        lemma_pow2_strictly_increases(e2, e1);
    }
}

/// No power of two lies strictly between `2^e` and `2^(e+1)`.
pub proof fn lemma_no_pow2_between(e: nat, n: int)
    requires
        pow2(e) < n < 2 * pow2(e),
    ensures
        !power_of_two(n),
{
    lemma_pow2_unfold(e + 1);
    if power_of_two(n) {
        let f = choose|f: nat| #[trigger] pow2(f) == n;
        if f <= e {
            if f < e {
                lemma_pow2_strictly_increases(f, e);
            }
        } else if f > e + 1 {
            lemma_pow2_strictly_increases(e + 1, f);
        }
    }
}

/// The two multiples of `m` around `x` are multiples of `m`.
proof fn lemma_round_to_multiple(x: int, m: int)
    requires
        x >= 0,
        m > 0,
    ensures
        0 <= x % m < m,
        x % m <= x,
        (x - x % m) % m == 0,
        (x - x % m + m) % m == 0,
{
    vstd::arithmetic::div_mod::lemma_mod_pos_bound(x, m);
    vstd::arithmetic::div_mod::lemma_mod_decreases(x as nat, m as nat);
    vstd::arithmetic::div_mod::lemma_fundamental_div_mod(x, m);
    vstd::arithmetic::div_mod::lemma_mod_multiples_basic(x / m, m);
    vstd::arithmetic::div_mod::lemma_mod_multiples_basic(x / m + 1, m);
    vstd::arithmetic::mul::lemma_mul_is_distributive_add_other_way(m, x / m, 1);
    vstd::arithmetic::mul::lemma_mul_is_commutative(m, x / m);
    vstd::arithmetic::mul::lemma_mul_is_commutative(m, x / m + 1);
}

/// Align `addr` downwards to the nearest multiple of `align`.
///
/// The result is the largest multiple of `align` that is `<= addr`.
pub fn align_down(addr: usize, align: usize) -> (r: usize)
    requires
        power_of_two(align as int),
    ensures
        r == align_down_spec(addr as int, align as int),
        r <= addr,
        r % align == 0,
        addr - r < align,
{
    proof {
        let e = choose|e: nat| #[trigger] pow2(e) == align;
        lemma_pow2_pos(e);
        lemma_round_to_multiple(addr as int, align as int);
    }
    let shift_amount = addr % align;
    addr - shift_amount
}

/// Align `addr` upwards to the nearest multiple of `align`.
///
/// The result is the smallest multiple of `align` that is `>= addr`; the
/// caller guarantees that it fits in a `usize`.
pub fn align_up(addr: usize, align: usize) -> (r: usize)
    requires
        power_of_two(align as int),
        align_up_spec(addr as int, align as int) <= usize::MAX,
    ensures
        r == align_up_spec(addr as int, align as int),
        r >= addr,
        r % align == 0,
        r - addr < align,
{
    proof {
        let e = choose|e: nat| #[trigger] pow2(e) == align;
        lemma_pow2_pos(e);
        lemma_round_to_multiple(addr as int, align as int);
    }
    let rem = addr % align;
    if rem == 0 {
        addr
    } else {
        addr - rem + align
    }
}

/// Whether `n` is a power of two.
pub fn is_power_of_two(n: usize) -> (r: bool)
    ensures
        r == power_of_two(n as int),
{
    if n == 0 {
        proof {
            if power_of_two(0) {
                let e = choose|e: nat| #[trigger] pow2(e) == 0;
                lemma_pow2_pos(e);
            }
        }
        return false;
    }
    let mut p: usize = 1;
    let ghost mut e: nat = 0;
    proof {
        vstd::arithmetic::power2::lemma2_to64();
    }
    while p < n && p <= usize::MAX / 2
        invariant
            1 <= p,
            p == pow2(e),
            e > 0 ==> pow2((e - 1) as nat) < n,
        decreases usize::MAX - p,
    {
        proof {
            lemma_pow2_unfold(e + 1);
        }
        p = p * 2;
        proof {
            e = e + 1;
        }
    }
    if p == n {
        true
    } else {
        proof {
            if p > n {
                lemma_pow2_unfold(e);
                lemma_no_pow2_between((e - 1) as nat, n as int);
            } else {
                lemma_no_pow2_between(e, n as int);
            }
        }
        false
    }
}

/// The exponent of a power of two: `2^log2(n) == n`.
pub fn log2(n: usize) -> (r: usize)
    requires
        power_of_two(n as int),
    ensures
        pow2(r as nat) == n,
        r < 64,
{
    let ghost k = choose|k: nat| #[trigger] pow2(k) == n;
    let mut p: usize = 1;
    let mut e: usize = 0;
    proof {
        vstd::arithmetic::power2::lemma2_to64();
        vstd::arithmetic::power2::lemma2_to64_rest();
        if k > 64 {
            lemma_pow2_strictly_increases(64, k);
        }
    }
    while p < n
        invariant
            p == pow2(e as nat),
            1 <= p <= n,
            n == pow2(k),
            e <= k,
            k < 64,
        decreases n - p,
    {
        proof {
            if k < e {
                lemma_pow2_strictly_increases(k, e as nat);
            }
            assert(e < k);
            lemma_pow2_unfold((e + 1) as nat);
            if e + 1 < k {
                lemma_pow2_strictly_increases((e + 1) as nat, k);
            }
            assert(p * 2 <= n);
        }
        p = p * 2;
        e = e + 1;
    }
    proof {
        lemma_pow2_injective(e as nat, k);
    }
    e
}

} // verus!
