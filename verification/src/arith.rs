//! Arithmetic groundwork: bit lengths, modular operations on residues,
//! and the value of a little-endian bit sequence.

use vstd::prelude::*;
use vstd::arithmetic::power2::*;
use vstd::arithmetic::div_mod::*;

verus! {

/// Number of binary digits of `x` (0 for 0).
pub open spec fn spec_bit_length(x: nat) -> nat
    decreases x,
{
    if x == 0 {
        0
    } else {
        1 + spec_bit_length(x / 2)
    }
}

/// The defining property of the bit length: `2^(n-1) <= x < 2^n`.
pub proof fn lemma_bit_length_bounds(x: nat)
    requires
        x >= 1,
    ensures
        pow2((spec_bit_length(x) - 1) as nat) <= x,
        x < pow2(spec_bit_length(x)),
    decreases x,
{
    if x / 2 == 0 {
        assert(x == 1);
        assert(spec_bit_length(0) == 0);
        assert(spec_bit_length(1nat) == 1);
        lemma2_to64();
        assert(pow2(0) == 1);
        assert(pow2(1) == 2);
    } else {
        lemma_bit_length_bounds(x / 2);
        let n = spec_bit_length(x / 2);
        lemma_pow2_unfold((n + 1) as nat);
        assert(x < 2 * pow2(n)) by {
            assert(x / 2 < pow2(n));
            assert(x == 2 * (x / 2) + x % 2) by {
                lemma_fundamental_div_mod(x as int, 2);
            }
        }
        if n >= 1 {
            lemma_pow2_unfold(n);
            assert(pow2((n - 1) as nat) <= x / 2);
            assert(2 * pow2((n - 1) as nat) <= 2 * (x / 2));
            assert(2 * (x / 2) <= x) by {
                lemma_fundamental_div_mod(x as int, 2);
            }
        } else {
            assert(pow2(0) == 1) by {
                lemma2_to64();
            }
        }
    }
}

/// A bit length is monotone in its argument.
pub proof fn lemma_bit_length_at_most(x: nat, n: nat)
    requires
        x < pow2(n),
    ensures
        spec_bit_length(x) <= n,
{
    if x >= 1 {
        lemma_bit_length_bounds(x);
        let b = spec_bit_length(x);
        if b > n {
            lemma_pow2_ordered(n, (b - 1) as nat);
            assert(pow2(n) <= pow2((b - 1) as nat));
        }
    }
}

/// `pow2` is (weakly) monotone.
pub proof fn lemma_pow2_ordered(e1: nat, e2: nat)
    requires
        e1 <= e2,
    ensures
        pow2(e1) <= pow2(e2),
{
    if e1 < e2 {
        lemma_pow2_strictly_increases(e1, e2);
    }
}

/// Bit length of a machine word, computed by halving.
pub fn bit_length(x: u64) -> (n: usize)
    ensures
        n == spec_bit_length(x as nat),
        n <= 64,
{
    proof {
        lemma2_to64_rest();
        lemma_bit_length_at_most(x as nat, 64);
    }
    let mut y: u64 = x;
    let mut n: usize = 0;
    while y > 0
        invariant
            spec_bit_length(x as nat) == n + spec_bit_length(y as nat),
            spec_bit_length(x as nat) <= 64,
        decreases y,
    {
        proof {
            assert(spec_bit_length(y as nat) >= 1);
        }
        y = y / 2;
        n = n + 1;
    }
    n
}

/// `2^e` as a machine word.
pub fn pow2_u64(e: usize) -> (r: u64)
    requires
        e <= 63,
    ensures
        r == pow2(e as nat),
{
    proof {
        lemma2_to64();
        lemma2_to64_rest();
    }
    let mut r: u64 = 1;
    let mut i: usize = 0;
    while i < e
        invariant
            i <= e <= 63,
            r == pow2(i as nat),
        decreases e - i,
    {
        proof {
            lemma_pow2_unfold((i + 1) as nat);
            lemma_pow2_ordered((i + 1) as nat, 63);
            assert(pow2(63) == 0x8000000000000000) by {
                lemma2_to64_rest();
            }
        }
        r = r * 2;
        i = i + 1;
    }
    r
}

/// `(a + b) % p`, exactly.
pub fn add_mod(a: u64, b: u64, p: u64) -> (r: u64)
    requires
        p >= 1,
    ensures
        r == (a as nat + b as nat) % (p as nat),
        r < p,
{
    let s: u128 = (a as u128) + (b as u128);
    let r: u128 = s % (p as u128);
    r as u64
}

/// `(a * b) % p`, exactly.
pub fn mul_mod(a: u64, b: u64, p: u64) -> (r: u64)
    requires
        p >= 1,
    ensures
        r == (a as nat * b as nat) % (p as nat),
        r < p,
{
    proof {
        assert((a as nat) * (b as nat) <= 0xffff_ffff_ffff_ffffu64 as nat
            * 0xffff_ffff_ffff_ffffu64 as nat) by (nonlinear_arith)
            requires
                a as nat <= 0xffff_ffff_ffff_ffffu64 as nat,
                b as nat <= 0xffff_ffff_ffff_ffffu64 as nat,
        ;
    }
    let s: u128 = (a as u128) * (b as u128);
    let r: u128 = s % (p as u128);
    r as u64
}

/// The value of a little-endian bit sequence: `sum of bits[j] * 2^j`.
pub open spec fn bits_value(bits: Seq<bool>) -> nat
    decreases bits.len(),
{
    if bits.len() == 0 {
        0
    } else {
        bits_value(bits.drop_last()) + if bits.last() {
            pow2((bits.len() - 1) as nat)
        } else {
            0
        }
    }
}

} // verus!
