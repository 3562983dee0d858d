//! Powers of two and the exclusive or of numbers below one.
use vstd::prelude::*;

verus! {

/// The least power of two that is at least `n`; 1 for `n == 0`.
pub open spec fn npot(n: nat) -> nat
    decreases n,
{
    if n <= 1 {
        1
    } else {
        2 * npot((n + 1) / 2)
    }
}

/// `p` has exactly one bit set.
pub open spec fn is_pow2(p: usize) -> bool {
    p != 0 && p & ((p - 1) as usize) == 0
}

/// `npot(n)` is at least `n`, and at most `2 * (n - 1)` from `n == 2` on.
pub proof fn lemma_npot_bounds(n: nat)
    ensures
        1 <= npot(n),
        n <= npot(n),
        n >= 2 ==> npot(n) <= 2 * (n - 1),
    decreases n,
{
    if n >= 2 {
        lemma_npot_bounds((n + 1) / 2);
    }
}

/// The least power of two that is at least a power of two is that power.
pub proof fn lemma_npot_of_npot(n: nat)
    ensures
        npot(npot(n)) == npot(n),
    decreases n,
{
    if n > 1 {
        let m = (n + 1) / 2;
        lemma_npot_of_npot(m);
        lemma_npot_bounds(m);
        let q = npot(m);
        assert((2 * q + 1) / 2 == q);
    }
}

/// `npot` never decreases.
pub proof fn lemma_npot_monotone(a: nat, b: nat)
    requires
        a <= b,
    ensures
        npot(a) <= npot(b),
    decreases b,
{
    if b >= 2 {
        if a >= 2 {
            lemma_npot_monotone((a + 1) / 2, (b + 1) / 2);
        } else {
            lemma_npot_bounds(b);
        }
    }
}

proof fn lemma_double_pow2(q: usize)
    by (bit_vector)
    requires
        q != 0 && q & ((q - 1) as usize) == 0,
        q <= 0x4000_0000usize,
    ensures
        ((2 * q) as usize) & ((2 * q - 1) as usize) == 0,
{
}

/// `npot(n)` has exactly one bit set, as far as 32 bits hold it.
pub proof fn lemma_npot_is_pow2(n: nat)
    requires
        npot(n) <= 0x8000_0000,
    ensures
        is_pow2(npot(n) as usize),
    decreases n,
{
    if n <= 1 {
        assert(1usize & ((1usize - 1) as usize) == 0) by (bit_vector);
    } else {
        let m = (n + 1) / 2;
        lemma_npot_is_pow2(m);
        lemma_double_pow2(npot(m) as usize);
    }
}

/// The exclusive or of two numbers below a power of two is below it.
pub proof fn lemma_xor_below(x: usize, y: usize, p: usize)
    by (bit_vector)
    requires
        p != 0 && p & ((p - 1) as usize) == 0,
        x < p,
        y < p,
    ensures
        x ^ y < p,
{
}

/// Twice a power of two is one, and exceeds what the power exceeds or equals.
pub proof fn lemma_twice_npot(n: nat)
    requires
        npot(n) <= 0x4000_0000,
    ensures
        is_pow2((2 * npot(n)) as usize),
        n < 2 * npot(n),
        npot(n + 2) <= 2 * npot(n) + 2,
        npot(n + 2) <= 2 * n + 2,
        n + 2 <= npot(n + 2),
{
    lemma_npot_bounds(n);
    lemma_npot_bounds(n + 2);
    lemma_npot_is_pow2(n);
    lemma_double_pow2(npot(n) as usize);
}

/// Whether `n` is a power of two.
pub fn is_power_of_two(n: usize) -> (b: bool)
    ensures
        b == is_pow2(n),
{
    n != 0 && n & (n - 1) == 0
}

/// The least power of two that is at least `n`.
pub fn next_power_of_two(n: usize) -> (p: usize)
    requires
        npot(n as nat) <= usize::MAX,
    ensures
        p == npot(n as nat),
    decreases n,
{
    if n <= 1 {
        1
    } else {
        let half: usize = n / 2 + n % 2;
        assert(half == (n + 1) / 2);
        let q = next_power_of_two(half);
        2 * q
    }
}

} // verus!
