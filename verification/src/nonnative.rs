//! Representation of a target ("non-native") field inside the circuit
//! field: emulation parameters and the limb decomposition of a target
//! element.
//!
//! A target-field element is carried as an ordered sequence of limbs,
//! least-significant limb first, each limb a residue of the circuit
//! field holding `bits_per_limb` bits of the element's representative.

use vstd::prelude::*;
use vstd::arithmetic::power2::*;
use vstd::arithmetic::div_mod::*;
use vstd::arithmetic::mul::*;
use crate::arith::spec_bit_length;
use crate::gadgets::{FpVar, fp_values, fp_vars_wf};
use crate::r1cs::ConstraintSystem;

verus! {

/// The target field, given by its (prime) modulus as a plain value.
#[derive(Clone, Copy, Debug, PartialEq, Eq, Structural)]
pub struct TargetField {
    pub modulus: u64,
}

impl TargetField {
    pub open spec fn wf(self) -> bool {
        self.modulus >= 2
    }

    /// The full bit length of a target-field element.
    pub open spec fn bit_size(self) -> nat {
        spec_bit_length(self.modulus as nat)
    }
}

/// Emulation parameters: how many limbs represent one target element,
/// and how many bits of the element each limb holds.
#[derive(Clone, Copy, Debug, PartialEq, Eq, Structural)]
pub struct NonNativeParams {
    pub num_limbs: usize,
    pub bits_per_limb: usize,
}

/// The per-limb bit width of the constraint-count-optimized policy: half
/// the circuit field's usable bits, capped by the target's own size.
pub open spec fn spec_bits_per_limb(target_bits: nat, base_bits: nat) -> nat {
    let cap = if (base_bits - 1) as nat / 2 >= 1 {
        (base_bits - 1) as nat / 2
    } else {
        1
    };
    if target_bits < cap {
        target_bits
    } else {
        cap
    }
}

/// Limbs needed to cover `target_bits` bits at that width.
pub open spec fn spec_num_limbs(target_bits: nat, base_bits: nat) -> nat {
    let b = spec_bits_per_limb(target_bits, base_bits);
    (target_bits + b - 1) as nat / b
}

/// The pure function from the two fields' bit sizes to the emulation
/// parameters, shared by everything that emulates the target field.
pub fn get_params(target_bits: usize, base_bits: usize) -> (r: NonNativeParams)
    requires
        1 <= target_bits <= 64,
        3 <= base_bits <= 64,
    ensures
        r.bits_per_limb == spec_bits_per_limb(target_bits as nat, base_bits as nat),
        r.num_limbs == spec_num_limbs(target_bits as nat, base_bits as nat),
        1 <= r.bits_per_limb <= 31,
        1 <= r.num_limbs <= 64,
        r.num_limbs * r.bits_per_limb >= target_bits,
{
    let half = (base_bits - 1) / 2;
    let cap = if half >= 1 {
        half
    } else {
        1
    };
    let bits_per_limb = if target_bits < cap {
        target_bits
    } else {
        cap
    };
    let num_limbs = (target_bits + bits_per_limb - 1) / bits_per_limb;
    proof {
        let t = target_bits as int;
        let b = bits_per_limb as int;
        assert(num_limbs * bits_per_limb >= target_bits) by {
            lemma_fundamental_div_mod(t + b - 1, b);
            let q = (t + b - 1) / b;
            let r0 = (t + b - 1) % b;
            assert(b * q == t + b - 1 - r0);
            assert(r0 <= b - 1);
            assert(b * q >= t);
            lemma_mul_is_commutative(b, q);
        }
        assert(num_limbs >= 1) by {
            lemma_div_is_ordered(b, t + b - 1, b);
            lemma_div_by_self(b);
        }
        assert(num_limbs <= 64) by {
            lemma_div_is_ordered(t + b - 1, 64 * b, b);
            lemma_div_multiples_vanish(64, b);
            assert((t + b - 1) <= 64 * b) by (nonlinear_arith)
                requires
                    t <= 64,
                    b >= 1,
            ;
        }
    }
    NonNativeParams { num_limbs, bits_per_limb }
}

/// The value of a limb sequence, least-significant limb first:
/// `sum of limbs[k] * 2^(bits_per_limb * k)`.
pub open spec fn limbs_value(limbs: Seq<u64>, bpl: nat) -> nat
    decreases limbs.len(),
{
    if limbs.len() == 0 {
        0
    } else {
        limbs[0] as nat + pow2(bpl) * limbs_value(limbs.subrange(1, limbs.len() as int), bpl)
    }
}

/// Appending a limb adds its value at the next position.
pub proof fn lemma_limbs_value_push(limbs: Seq<u64>, d: u64, bpl: nat)
    ensures
        limbs_value(limbs.push(d), bpl) == limbs_value(limbs, bpl) + d * pow2(bpl * limbs.len()),
    decreases limbs.len(),
{
    let n = limbs.len();
    if n == 0 {
        assert(limbs.push(d).subrange(1, 1) =~= Seq::<u64>::empty());
        assert(limbs_value(Seq::<u64>::empty(), bpl) == 0);
        assert(limbs_value(limbs.push(d), bpl) == d + pow2(bpl) * 0);
        assert(pow2(0) == 1) by {
            lemma2_to64();
        }
        assert(d * 1 == d) by (nonlinear_arith);
    } else {
        let tail = limbs.subrange(1, n as int);
        assert(limbs.push(d).subrange(1, n as int + 1) =~= tail.push(d));
        lemma_limbs_value_push(tail, d, bpl);
        assert(limbs_value(limbs.push(d), bpl) == limbs[0] + pow2(bpl) * (limbs_value(tail, bpl)
            + d * pow2((bpl * (n - 1)) as nat)));
        assert(pow2(bpl) * (limbs_value(tail, bpl) + d * pow2((bpl * (n - 1)) as nat)) == pow2(bpl)
            * limbs_value(tail, bpl) + d * (pow2(bpl) * pow2((bpl * (n - 1)) as nat)))
            by (nonlinear_arith);
        lemma_pow2_adds(bpl, (bpl * (n - 1)) as nat);
        assert(bpl + (bpl * (n - 1)) as nat == bpl * n) by (nonlinear_arith)
            requires
                n >= 1,
        ;
    }
}

/// Each limb is below `2^bits_per_limb`.
pub open spec fn limbs_in_range(limbs: Seq<u64>, bpl: nat) -> bool {
    forall|k: int| 0 <= k < limbs.len() ==> (#[trigger] limbs[k]) < pow2(bpl)
}

/// The base-`2^bpl` digits of `x`, least significant first, padded to
/// `nl` digits: digit `k` is `(x / 2^(bpl*k)) % 2^bpl`.
pub open spec fn spec_limbs_of(x: nat, nl: nat, bpl: nat) -> Seq<u64> {
    Seq::new(nl, |k: int| ((x / pow2((bpl * k) as nat)) % pow2(bpl)) as u64)
}

/// The limb representation of a target-field element's representative:
/// its base-`2^bits_per_limb` digits, least significant first, padded to
/// `num_limbs` limbs.
pub fn get_limbs_representations(elem: u64, params: &NonNativeParams) -> (r: Vec<u64>)
    requires
        1 <= params.bits_per_limb <= 31,
        elem < pow2((params.num_limbs * params.bits_per_limb) as nat),
    ensures
        r@.len() == params.num_limbs,
        limbs_in_range(r@, params.bits_per_limb as nat),
        limbs_value(r@, params.bits_per_limb as nat) == elem,
        r@ == spec_limbs_of(elem as nat, params.num_limbs as nat, params.bits_per_limb as nat),
{
    let bpl = params.bits_per_limb;
    let base = crate::arith::pow2_u64(bpl);
    let ghost bn: nat = bpl as nat;
    let mut out: Vec<u64> = Vec::new();
    let mut v: u64 = elem;
    let nl = params.num_limbs;
    let mut k: usize = 0;
    proof {
        lemma2_to64();
        crate::arith::lemma_pow2_ordered(1, bn);
        assert(out@ =~= Seq::<u64>::empty());
        assert(limbs_value(Seq::<u64>::empty(), bn) == 0);
        assert((params.num_limbs * params.bits_per_limb) as nat == bn * (nl as nat))
            by (nonlinear_arith)
            requires
                bn == bpl as nat,
                nl == params.num_limbs,
                bpl == params.bits_per_limb,
        ;
        assert(bn * (0 as nat) == 0) by (nonlinear_arith);
        assert(bn * ((nl - k) as nat) == bn * (nl as nat));
        lemma_div_basics(elem as int);
        assert(out@ =~= spec_limbs_of(elem as nat, 0, bn));
    }
    while k < nl
        invariant
            1 <= bpl <= 31,
            bn == bpl as nat,
            base == pow2(bn),
            base >= 2,
            nl == params.num_limbs,
            0 <= k <= nl,
            out@.len() == k,
            limbs_in_range(out@, bn),
            elem == limbs_value(out@, bn) + v * pow2(bn * (k as nat)),
            v < pow2(bn * ((nl - k) as nat)),
            v == elem as nat / pow2(bn * (k as nat)),
            out@ == spec_limbs_of(elem as nat, k as nat, bn),
        decreases nl - k,
    {
        let d = v % base;
        let v2 = v / base;
        proof {
            let kk = k as nat;
            let rem = (nl - k) as nat;
            lemma_limbs_value_push(out@, d, bn);
            lemma_fundamental_div_mod(v as int, base as int);
            // v == base * v2 + d, so the remaining weight splits off one limb
            assert(((base as nat) * (v2 as nat) + (d as nat)) * pow2(bn * kk) == (v2 as nat) * (
            (base as nat) * pow2(bn * kk)) + (d as nat) * pow2(bn * kk)) by (nonlinear_arith);
            lemma_pow2_adds(bn, bn * kk);
            assert(bn + bn * kk == bn * (kk + 1)) by (nonlinear_arith);
            assert(bn * ((k + 1) as nat) == bn * (kk + 1));
            // bound on the remaining value
            assert(bn * rem == bn + bn * ((rem - 1) as nat)) by (nonlinear_arith)
                requires
                    rem >= 1,
            ;
            lemma_pow2_adds(bn, bn * ((rem - 1) as nat));
            assert(v < base * pow2(bn * ((rem - 1) as nat)));
            lemma_multiply_divide_lt(v as int, base as int, pow2(bn * ((rem - 1) as nat)) as int);
            assert(v2 < pow2(bn * ((rem - 1) as nat)));
            assert(((nl - (k + 1)) as nat) == (rem - 1) as nat);
            // the pushed digit is digit k of elem, and v2 is the rest
            lemma_pow2_pos(bn * kk);
            lemma_div_denominator(elem as int, pow2(bn * kk) as int, base as int);
            assert(d == ((elem as nat / pow2(bn * kk)) % pow2(bn)) as u64);
            assert(pow2(bn * kk) * base == pow2(bn * (kk + 1))) by {
                lemma_pow2_adds(bn * kk, bn);
                assert(bn * kk + bn == bn * (kk + 1)) by (nonlinear_arith);
            }
            assert(v2 == elem as nat / pow2(bn * ((k + 1) as nat)));
            assert(out@.push(d) =~= spec_limbs_of(elem as nat, (k + 1) as nat, bn)) by {
                assert forall|i: int| 0 <= i < k + 1 implies out@.push(d)[i] == spec_limbs_of(
                    elem as nat,
                    (k + 1) as nat,
                    bn,
                )[i] by {
                    if i < k {
                        assert(out@.push(d)[i] == spec_limbs_of(elem as nat, k as nat, bn)[i]);
                    } else {
                        assert(out@.push(d)[i] == d);
                    }
                }
            }
        }
        out.push(d);
        v = v2;
        k = k + 1;
    }
    proof {
        lemma2_to64();
        assert(bn * ((nl - k) as nat) == 0) by (nonlinear_arith)
            requires
                k == nl,
        ;
        assert(v < pow2(0));
        assert(v == 0);
        assert(v * pow2(bn * (k as nat)) == 0) by (nonlinear_arith)
            requires
                v == 0,
        ;
    }
    out
}

/// A target-field element inside the circuit: its limbs as circuit-field
/// gadgets, with bookkeeping of how far from normal form the
/// representation has drifted.
#[derive(Debug)]
pub struct NonNativeFieldVar {
    /// Limbs of the element, least-significant limb first.
    pub limbs: Vec<FpVar>,
    /// How many unreduced additions have accumulated; 0 for fresh values.
    pub num_of_additions_over_normal_form: u64,
    /// Whether the representation is currently fully reduced.
    pub is_in_the_normal_form: bool,
}

impl NonNativeFieldVar {
    /// The witnessed values of the limbs.
    pub open spec fn limb_values(self) -> Seq<u64> {
        fp_values(self.limbs@)
    }

    /// The target-field element this gadget evaluates to: the limbs
    /// recombined at the limb width, reduced modulo the target modulus.
    pub open spec fn value_of(self, bpl: nat, target: TargetField) -> nat {
        limbs_value(self.limb_values(), bpl) % (target.modulus as nat)
    }

    pub open spec fn wf(self, cs: ConstraintSystem) -> bool {
        fp_vars_wf(self.limbs@, cs)
    }
}

} // verus!
