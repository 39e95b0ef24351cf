//! Reconstruction of non-native field elements from little-endian
//! circuit bits, with the constraints that make any inconsistent witness
//! assignment unsatisfiable.
//!
//! For each input bit sequence the produced gadget's limbs hold, per
//! limb index `k`, the sum over the witnessed-true bit positions `j` of
//! entry `k` of the lookup table for `2^j`; one linear constraint per
//! limb binds the allocated limb variable to the bit variables' own
//! linear combinations, so the result is a function of the circuit bits
//! and not merely of their witnessed values.

use vstd::prelude::*;
use vstd::arithmetic::power2::*;
use vstd::arithmetic::div_mod::*;
use crate::arith::{bits_value, spec_bit_length};
use crate::gadgets::{BooleanVar, FpVar, bool_values, bool_vars_wf, cs_extends};
use crate::nonnative::{
    NonNativeFieldVar, TargetField, limbs_value, spec_bits_per_limb, spec_limbs_of,
    spec_num_limbs,
};
use crate::r1cs::{Constraint, ConstraintSystem, LinComb, Term, lc_sum};
use crate::SynthesisError;

verus! {

/// The limb width used when reconstructing into `target` inside the
/// field of `p_cf`.
pub open spec fn rec_bpl(p_cf: nat, target: TargetField) -> nat {
    spec_bits_per_limb(target.bit_size(), spec_bit_length(p_cf))
}

/// The limb count used when reconstructing into `target` inside the
/// field of `p_cf`.
pub open spec fn rec_nl(p_cf: nat, target: TargetField) -> nat {
    spec_num_limbs(target.bit_size(), spec_bit_length(p_cf))
}

/// Entry `j` of the lookup table: the limb representation of
/// `2^j mod target.modulus`.  A pure function of `j` and the two
/// fields, independent of any particular batch of bit sequences.
pub open spec fn spec_table_entry(target: TargetField, nl: nat, bpl: nat, j: nat) -> Seq<u64> {
    spec_limbs_of(pow2(j) % (target.modulus as nat), nl, bpl)
}

/// The value accumulated in limb `k` for one bit sequence: the sum of
/// `spec_table_entry(j)[k]` over the positions `j` whose bit is true.
pub open spec fn col_val(bits: Seq<bool>, target: TargetField, nl: nat, bpl: nat, k: int) -> nat
    decreases bits.len(),
{
    if bits.len() == 0 {
        0
    } else {
        col_val(bits.drop_last(), target, nl, bpl, k) + if bits.last() {
            spec_table_entry(target, nl, bpl, (bits.len() - 1) as nat)[k] as nat
        } else {
            0
        }
    }
}

/// The sum of `2^j mod p` over the true bit positions `j`.
pub open spec fn weighted_pow_sum(bits: Seq<bool>, p: nat) -> nat
    decreases bits.len(),
{
    if bits.len() == 0 {
        0
    } else {
        weighted_pow_sum(bits.drop_last(), p) + if bits.last() {
            pow2((bits.len() - 1) as nat) % p
        } else {
            0
        }
    }
}

/// A column sum is bounded by one table entry per bit.
pub proof fn lemma_col_val_bound(bits: Seq<bool>, target: TargetField, nl: nat, bpl: nat, k: int)
    requires
        target.modulus >= 2,
        0 <= k < nl,
    ensures
        col_val(bits, target, nl, bpl, k) <= bits.len() * (pow2(bpl) - 1),
    decreases bits.len(),
{
    lemma_pow2_pos(bpl);
    let n = bits.len();
    if n > 0 {
        lemma_col_val_bound(bits.drop_last(), target, nl, bpl, k);
        if bits.last() {
            let e = spec_table_entry(target, nl, bpl, (n - 1) as nat);
            assert(e[k] as nat <= pow2(bpl) - 1) by {
                lemma_mod_bound(
                    (pow2((n - 1) as nat) % (target.modulus as nat)) as int / pow2(
                        (bpl * k) as nat,
                    ) as int,
                    pow2(bpl) as int,
                );
            }
        }
        assert((n - 1) * (pow2(bpl) - 1) + (pow2(bpl) - 1) == n * (pow2(bpl) - 1))
            by (nonlinear_arith)
            requires
                n >= 1,
        ;
    }
}

/// Zero columns recombine to zero.
pub proof fn lemma_limbs_value_zero(s: Seq<u64>, bpl: nat)
    requires
        forall|k: int| 0 <= k < s.len() ==> (#[trigger] s[k]) == 0,
    ensures
        limbs_value(s, bpl) == 0,
    decreases s.len(),
{
    if s.len() > 0 {
        let tail = s.subrange(1, s.len() as int);
        lemma_limbs_value_zero(tail, bpl);
        assert(pow2(bpl) * 0 == 0) by (nonlinear_arith);
    }
}

/// Recombination is linear: pointwise sums of limb columns add their
/// values.
pub proof fn lemma_limbs_value_add(u: Seq<u64>, w: Seq<u64>, s: Seq<u64>, bpl: nat)
    requires
        u.len() == w.len(),
        s.len() == u.len(),
        forall|k: int| 0 <= k < s.len() ==> (#[trigger] s[k]) as nat == u[k] as nat + w[k] as nat,
    ensures
        limbs_value(s, bpl) == limbs_value(u, bpl) + limbs_value(w, bpl),
    decreases s.len(),
{
    if s.len() > 0 {
        let n = s.len() as int;
        let ut = u.subrange(1, n);
        let wt = w.subrange(1, n);
        let st = s.subrange(1, n);
        lemma_limbs_value_add(ut, wt, st, bpl);
        assert(pow2(bpl) * (limbs_value(ut, bpl) + limbs_value(wt, bpl)) == pow2(bpl)
            * limbs_value(ut, bpl) + pow2(bpl) * limbs_value(wt, bpl)) by (nonlinear_arith);
    }
}

/// Columns of per-bit table sums recombine to the weighted power sum.
pub proof fn lemma_cols_value(
    bits: Seq<bool>,
    target: TargetField,
    nl: nat,
    bpl: nat,
    vals: Seq<u64>,
)
    requires
        target.modulus >= 2,
        vals.len() == nl,
        forall|k: int|
            0 <= k < nl ==> (#[trigger] vals[k]) as nat == col_val(bits, target, nl, bpl, k),
        forall|j: nat|
            j < bits.len() ==> limbs_value(#[trigger] spec_table_entry(target, nl, bpl, j), bpl)
                == pow2(j) % (target.modulus as nat),
        bits.len() * (pow2(bpl) - 1) <= u64::MAX,
    ensures
        limbs_value(vals, bpl) == weighted_pow_sum(bits, target.modulus as nat),
    decreases bits.len(),
{
    let n = bits.len();
    let p = target.modulus as nat;
    if n == 0 {
        lemma_limbs_value_zero(vals, bpl);
    } else {
        let front = bits.drop_last();
        let prev = Seq::new(nl, |k: int| col_val(front, target, nl, bpl, k) as u64);
        lemma_pow2_pos(bpl);
        vstd::arithmetic::mul::lemma_mul_inequality(
            front.len() as int,
            n as int,
            (pow2(bpl) - 1) as int,
        );
        assert(front.len() * (pow2(bpl) - 1) <= n * (pow2(bpl) - 1));
        assert forall|k: int| 0 <= k < nl implies (#[trigger] prev[k]) as nat == col_val(
            front,
            target,
            nl,
            bpl,
            k,
        ) by {
            lemma_col_val_bound(front, target, nl, bpl, k);
        }
        lemma_cols_value(front, target, nl, bpl, prev);
        if bits.last() {
            let e = spec_table_entry(target, nl, bpl, (n - 1) as nat);
            assert(e.len() == nl);
            lemma_limbs_value_add(prev, e, vals, bpl);
        } else {
            assert(vals =~= prev);
        }
    }
}

/// The weighted power sum agrees with the plain bit value modulo `p`.
pub proof fn lemma_weighted_pow_sum_mod(bits: Seq<bool>, p: nat)
    requires
        p >= 1,
    ensures
        weighted_pow_sum(bits, p) % p == bits_value(bits) % p,
    decreases bits.len(),
{
    let n = bits.len();
    if n > 0 {
        let front = bits.drop_last();
        lemma_weighted_pow_sum_mod(front, p);
        let ws = weighted_pow_sum(front, p);
        let bv = bits_value(front);
        if bits.last() {
            let pj = pow2((n - 1) as nat);
            crate::r1cs::lemma_mod_sum_of_mods(ws, pj % p, p);
            lemma_mod_mod_small(pj, p);
            crate::r1cs::lemma_mod_sum_of_mods(bv, pj, p);
            assert(((ws % p) + ((pj % p) % p)) % p == (ws + pj % p) % p);
            assert(((bv % p) + (pj % p)) % p == (bv + pj) % p);
        }
    }
}

/// `(x % p) % p == x % p`.
pub proof fn lemma_mod_mod_small(x: nat, p: nat)
    requires
        p >= 1,
    ensures
        (x % p) % p == x % p,
{
    lemma_small_mod(x % p, p);
}

/// Concatenating term lists adds their sums.
pub proof fn lemma_lc_sum_concat(t1: Seq<Term>, t2: Seq<Term>, asg: Seq<u64>)
    ensures
        lc_sum(t1 + t2, asg) == lc_sum(t1, asg) + lc_sum(t2, asg),
    decreases t2.len(),
{
    if t2.len() == 0 {
        assert(t1 + t2 =~= t1);
    } else {
        let front = t2.drop_last();
        assert((t1 + t2).drop_last() =~= t1 + front);
        assert((t1 + t2).last() == t2.last());
        lemma_lc_sum_concat(t1, front, asg);
    }
}

/// The terms of `lc` with every coefficient scaled by `c`, modulo `p`.
pub open spec fn scale_terms(terms: Seq<Term>, c: u64, p: nat) -> Seq<Term> {
    Seq::new(
        terms.len(),
        |i: int| Term { coeff: ((c as nat * terms[i].coeff as nat) % p) as u64, var: terms[i].var },
    )
}

/// Scaling a term list multiplies its sum by the scalar, modulo `p`.
pub proof fn lemma_lc_sum_scaled(terms: Seq<Term>, c: u64, asg: Seq<u64>, p: nat)
    requires
        p >= 1,
        p <= u64::MAX as nat + 1,
    ensures
        lc_sum(scale_terms(terms, c, p), asg) % p == (c as nat * lc_sum(terms, asg)) % p,
    decreases terms.len(),
{
    let n = terms.len();
    let s = scale_terms(terms, c, p);
    if n == 0 {
        assert(lc_sum(s, asg) == 0);
        assert(c as nat * 0 == 0) by (nonlinear_arith);
    } else {
        let front = terms.drop_last();
        let sf = scale_terms(front, c, p);
        assert(s.drop_last() =~= sf);
        lemma_lc_sum_scaled(front, c, asg, p);
        let t = terms.last();
        let a = asg[t.var as int] as nat;
        let co = t.coeff as nat;
        let x = lc_sum(front, asg);
        // sum of the scaled list
        assert(s.last() == (Term { coeff: ((c as nat * co) % p) as u64, var: t.var }));
        lemma_mod_bound((c as nat * co) as int, p as int);
        assert((((c as nat * co) % p) as u64) as nat == (c as nat * co) % p);
        assert(lc_sum(s, asg) == lc_sum(sf, asg) + ((c as nat * co) % p) * a);
        // reduce the last term's scaled coefficient
        assert((((c as nat * co) % p) * a) % p == ((c as nat * co) * a) % p) by {
            lemma_mul_mod_noop_left((c as nat * co) as int, a as int, p as int);
        }
        crate::r1cs::lemma_mod_sum_of_mods(lc_sum(sf, asg), ((c as nat * co) % p) * a, p);
        crate::r1cs::lemma_mod_sum_of_mods(c as nat * x, (c as nat * co) * a, p);
        assert(c as nat * x + (c as nat * co) * a == c as nat * (x + co * a)) by (nonlinear_arith);
        assert((lc_sum(sf, asg) % p + (((c as nat * co) % p) * a) % p) % p == (lc_sum(sf, asg) + ((
        c as nat * co) % p) * a) % p);
        assert(((c as nat * x) % p + ((c as nat * co) * a) % p) % p == (c as nat * x + (c as nat
            * co) * a) % p);
        lemma_mod_mod_small(c as nat * x, p);
    }
}

/// One appended constraint binds one limb: empty multiplication arms,
/// the limb variable subtracted at the end, and the leading terms — the
/// bit linear combinations scaled by the table entries — summing to the
/// limb's value under the given assignment.  The leading terms speak
/// only of variables below the boundary `n` (those allocated before the
/// reconstruction), while the limb variable itself lies at or above it,
/// so the limb variable appears in its constraint exactly once.
pub open spec fn limb_binding(c: Constraint, limb: FpVar, asg: Seq<u64>, n: nat, p: nat) -> bool {
    &&& c.a.terms@.len() == 0
    &&& c.b.terms@.len() == 0
    &&& c.c.terms@.len() >= 1
    &&& crate::r1cs::terms_wf(c.c.terms@.drop_last(), n, p)
    &&& (limb matches FpVar::Witness { index, value } && index >= n && c.c.terms@.last() == Term {
        coeff: (p - 1) as u64,
        var: index,
    } && lc_sum(c.c.terms@.drop_last(), asg) % p == value as nat % p)
}

/// Soundness of the limb-binding constraint: under any assignment, the
/// constraint holds exactly when the bit-weighted linear combination
/// agrees with the limb variable's value.  Tampering with the limb's
/// witness therefore makes the constraint system unsatisfiable.
pub proof fn lemma_binding_constraint_soundness(c: Constraint, v: usize, asg: Seq<u64>, p: nat)
    requires
        p >= 2,
        p - 1 <= u64::MAX,
        c.a.terms@.len() == 0,
        c.b.terms@.len() == 0,
        c.c.terms@.len() >= 1,
        c.c.terms@.last() == (Term { coeff: (p - 1) as u64, var: v }),
        v < asg.len(),
    ensures
        crate::r1cs::constraint_satisfied(c, asg, p) <==> lc_sum(c.c.terms@.drop_last(), asg) % p
            == asg[v as int] as nat % p,
{
    let s = lc_sum(c.c.terms@.drop_last(), asg) as int;
    let a = asg[v as int] as int;
    assert(c.a.terms@ =~= Seq::<Term>::empty());
    assert(c.b.terms@ =~= Seq::<Term>::empty());
    assert(lc_sum(c.a.terms@, asg) == 0);
    assert(lc_sum(c.b.terms@, asg) == 0);
    lemma_small_mod(0, p);
    assert(((p - 1) as u64) as nat == p - 1);
    assert(lc_sum(c.c.terms@, asg) == s + (p - 1) * a);
    assert(s + (p - 1) * a == p * a + (s - a)) by (nonlinear_arith);
    lemma_mod_multiples_vanish(a, s - a, p as int);
    lemma_mod_equivalence(s, a, p as int);
    assert(crate::r1cs::lc_eval(c.c, asg, p) == (s + (p - 1) * a) % (p as int));
    assert(((0 * 0) as nat) % p == 0);
}

/// Law (tamper rejection): take a binding constraint for a limb, and
/// any assignment that agrees with the produced witness on every
/// variable below the reconstruction boundary but gives the limb's own
/// variable a different residue.  That assignment violates the
/// constraint, so the whole system is unsatisfiable under it: a limb
/// witness cannot be changed without being caught.
pub proof fn lemma_tamper_rejected(
    cs: ConstraintSystem,
    cidx: int,
    limb: FpVar,
    n: nat,
    bad: Seq<u64>,
)
    requires
        cs.wf(),
        0 <= cidx < cs.constraints@.len(),
        limb_binding(cs.constraints@[cidx], limb, cs.assignment@, n, cs.modulus as nat),
        n <= cs.assignment@.len(),
        n <= bad.len(),
        limb->index < bad.len(),
        forall|i: int| 0 <= i < n ==> bad[i] == #[trigger] cs.assignment@[i],
        bad[limb->index as int] as nat % (cs.modulus as nat) != limb->value as nat % (
        cs.modulus as nat),
    ensures
        !crate::r1cs::constraint_satisfied(cs.constraints@[cidx], bad, cs.modulus as nat),
        !cs.satisfied_under(bad),
{
    let c = cs.constraints@[cidx];
    let p = cs.modulus as nat;
    let v = limb->index;
    crate::gadgets::lemma_lc_sum_agree(c.c.terms@.drop_last(), cs.assignment@, bad, n);
    lemma_binding_constraint_soundness(c, v, bad, p);
    assert(lc_sum(c.c.terms@.drop_last(), bad) % p == limb->value as nat % p);
}

/// The longest bit sequence in a batch.
pub open spec fn spec_max_len(all: Seq<Vec<BooleanVar>>) -> nat
    decreases all.len(),
{
    if all.len() == 0 {
        0
    } else {
        let rest = spec_max_len(all.drop_last());
        if all.last()@.len() > rest {
            all.last()@.len()
        } else {
            rest
        }
    }
}

pub proof fn lemma_max_len_ge(all: Seq<Vec<BooleanVar>>, i: int)
    requires
        0 <= i < all.len(),
    ensures
        all[i]@.len() <= spec_max_len(all),
    decreases all.len(),
{
    if i < all.len() - 1 {
        lemma_max_len_ge(all.drop_last(), i);
    }
}

/// The reconstruction's side condition: no column sum can wrap the
/// circuit field, so each limb's plain value is exact.
pub open spec fn fits_without_wrap(p_cf: nat, target: TargetField, max_len: nat) -> bool {
    max_len * (pow2(rec_bpl(p_cf, target)) - 1) < p_cf
}

/// A column sum stays below the circuit modulus when the batch respects
/// the no-wrap side condition.
pub proof fn lemma_wrap_chain(len: nat, maxb: nat, b1: nat, p: nat)
    requires
        len <= maxb,
        maxb * b1 < p,
    ensures
        len * b1 < p,
{
    vstd::arithmetic::mul::lemma_mul_inequality(len as int, maxb as int, b1 as int);
}

/// One more table entry keeps a running column sum below the modulus.
pub proof fn lemma_col_step_bound(jb: nat, maxb: nat, b1: nat, p: nat, colj: nat, entry: nat)
    requires
        colj <= jb * b1,
        entry <= b1,
        jb + 1 <= maxb,
        maxb * b1 < p,
    ensures
        colj + entry < p,
{
    assert((jb + 1) * b1 == jb * b1 + b1) by (nonlinear_arith);
    vstd::arithmetic::mul::lemma_mul_inequality(jb as int + 1, maxb as int, b1 as int);
}

/// Everything the reconstruction promises of one produced gadget, as a
/// function of that gadget's own bit sequence alone: limb `k` holds the
/// column sum for these bits, the representation is fresh, and the
/// recombined value is the bit value reduced into the target field.
pub open spec fn output_gadget_ok(
    g: NonNativeFieldVar,
    bits: Seq<bool>,
    target: TargetField,
    nl: nat,
    bpl: nat,
    cs: ConstraintSystem,
) -> bool {
    &&& g.limbs@.len() == nl
    &&& g.is_in_the_normal_form
    &&& g.num_of_additions_over_normal_form == 0
    &&& g.wf(cs)
    &&& forall|k: int|
        0 <= k < nl ==> (#[trigger] g.limb_values()[k]) as nat == col_val(bits, target, nl, bpl, k)
    &&& g.value_of(bpl, target) == bits_value(bits) % (target.modulus as nat)
}

/// Law (constraint completeness): the witness built by the
/// reconstruction satisfies every constraint it emits, so a system that
/// was satisfied before the call is satisfied after it.  The `requires`
/// are exactly what [`bits_le_to_nonnative`] ensures of its caller.
pub proof fn lemma_reconstruction_satisfied(
    old_cs: ConstraintSystem,
    new_cs: ConstraintSystem,
    out: Seq<NonNativeFieldVar>,
    nl: nat,
)
    requires
        old_cs.wf(),
        new_cs.wf(),
        cs_extends(new_cs, old_cs),
        old_cs.satisfied(),
        nl >= 1,
        new_cs.constraints@.len() == old_cs.constraints@.len() + out.len() * nl,
        forall|i: int| 0 <= i < out.len() ==> (#[trigger] out[i]).limbs@.len() == nl,
        forall|i: int| 0 <= i < out.len() ==> (#[trigger] out[i]).wf(new_cs),
        forall|i: int, k: int|
            0 <= i < out.len() && 0 <= k < nl ==> limb_binding(
                #[trigger] new_cs.constraints@[old_cs.constraints@.len() + i * nl + k],
                out[i].limbs@[k],
                new_cs.assignment@,
                old_cs.assignment@.len() as nat,
                new_cs.modulus as nat,
            ),
    ensures
        new_cs.satisfied(),
{
    let oc = old_cs.constraints@.len() as int;
    let p = new_cs.modulus as nat;
    assert forall|idx: int|
        0 <= idx < new_cs.constraints@.len() implies crate::r1cs::constraint_satisfied(
        #[trigger] new_cs.constraints@[idx],
        new_cs.assignment@,
        p,
    ) by {
        if idx < oc {
            crate::gadgets::lemma_prefix_index(old_cs.constraints@, new_cs.constraints@, idx);
            let c = old_cs.constraints@[idx];
            assert(crate::r1cs::constraint_satisfied(c, old_cs.assignment@, p));
            crate::gadgets::lemma_lc_sum_extends(
                c.a.terms@,
                old_cs.assignment@,
                new_cs.assignment@,
                old_cs.assignment@.len() as nat,
            );
            crate::gadgets::lemma_lc_sum_extends(
                c.b.terms@,
                old_cs.assignment@,
                new_cs.assignment@,
                old_cs.assignment@.len() as nat,
            );
            crate::gadgets::lemma_lc_sum_extends(
                c.c.terms@,
                old_cs.assignment@,
                new_cs.assignment@,
                old_cs.assignment@.len() as nat,
            );
        } else {
            let d = idx - oc;
            let i = d / nl as int;
            let k = d % nl as int;
            lemma_fundamental_div_mod(d, nl as int);
            lemma_mod_bound(d, nl as int);
            assert(0 <= k < nl);
            assert(d == nl * i + k);
            assert(i >= 0) by {
                lemma_div_pos_is_pos(d, nl as int);
            }
            assert(i < out.len()) by {
                assert(d < out.len() * nl);
                vstd::arithmetic::mul::lemma_mul_is_commutative(out.len() as int, nl as int);
                lemma_multiply_divide_lt(d, nl as int, out.len() as int);
            }
            assert(i * nl == nl * i) by {
                vstd::arithmetic::mul::lemma_mul_is_commutative(i, nl as int);
            }
            let c = new_cs.constraints@[oc + i * nl + k];
            let limb = out[i].limbs@[k];
            assert(limb_binding(c, limb, new_cs.assignment@, old_cs.assignment@.len() as nat, p));
            let v = limb->index;
            assert(limb.wf(new_cs));
            lemma_small_mod(limb->value as nat, p);
            lemma_binding_constraint_soundness(c, v, new_cs.assignment@, p);
        }
    }
}

/// Law (batch independence): a reconstructed gadget's limb values are a
/// function of its own bit sequence and the two fields alone.  Two
/// gadgets built from the same bits — in one batch, or in separate
/// calls over the same fields — carry identical limb values and the
/// same reconstructed value, with no cross-contamination from the rest
/// of either batch.
pub proof fn lemma_batch_independence(
    g1: NonNativeFieldVar,
    g2: NonNativeFieldVar,
    bits: Seq<bool>,
    target: TargetField,
    nl: nat,
    bpl: nat,
    cs1: ConstraintSystem,
    cs2: ConstraintSystem,
)
    requires
        output_gadget_ok(g1, bits, target, nl, bpl, cs1),
        output_gadget_ok(g2, bits, target, nl, bpl, cs2),
    ensures
        g1.limb_values() == g2.limb_values(),
        g1.value_of(bpl, target) == g2.value_of(bpl, target),
{
    assert(g1.limb_values() =~= g2.limb_values()) by {
        assert forall|k: int| 0 <= k < nl implies g1.limb_values()[k] == g2.limb_values()[k] by {
            assert(g1.limb_values()[k] as nat == col_val(bits, target, nl, bpl, k));
            assert(g2.limb_values()[k] as nat == col_val(bits, target, nl, bpl, k));
        }
    }
}

/// Reconstruct one non-native field-element gadget per little-endian bit
/// sequence, constraining each limb so that any witness disagreeing with
/// the bit variables' linear combinations is rejected.
///
/// The produced gadgets are in normal form with zero accumulated
/// additions, and each evaluates to `sum of bits[j]*2^j` reduced modulo
/// the target modulus.  An empty batch leaves the constraint system
/// untouched and returns an empty batch.
#[verifier::loop_isolation(false)]
pub fn bits_le_to_nonnative(
    cs: &mut ConstraintSystem,
    target: &TargetField,
    all_nonnative_bits_le: &Vec<Vec<BooleanVar>>,
) -> (r: Result<Vec<NonNativeFieldVar>, SynthesisError>)
    requires
        old(cs).wf(),
        old(cs).modulus >= 4,
        target.wf(),
        forall|i: int|
            0 <= i < all_nonnative_bits_le@.len() ==> bool_vars_wf(
                #[trigger] all_nonnative_bits_le@[i]@,
                *old(cs),
            ),
        fits_without_wrap(
            old(cs).modulus as nat,
            *target,
            spec_max_len(all_nonnative_bits_le@),
        ),
    ensures
        r is Ok,
        final(cs).wf(),
        cs_extends(*final(cs), *old(cs)),
        final(cs).modulus == old(cs).modulus,
        ({
            let out = r->Ok_0;
            let all = all_nonnative_bits_le@;
            let p = old(cs).modulus as nat;
            let nl = rec_nl(p, *target);
            let bpl = rec_bpl(p, *target);
            &&& out@.len() == all.len()
            &&& final(cs).assignment@.len() == old(cs).assignment@.len() + all.len() * nl
            &&& final(cs).constraints@.len() == old(cs).constraints@.len() + all.len() * nl
            &&& forall|i: int|
                0 <= i < all.len() ==> output_gadget_ok(
                    #[trigger] out@[i],
                    bool_values(all[i]@),
                    *target,
                    nl,
                    bpl,
                    *final(cs),
                )
            &&& forall|i: int, k: int|
                0 <= i < all.len() && 0 <= k < nl ==> limb_binding(
                    #[trigger] final(cs).constraints@[old(cs).constraints@.len() + i * nl + k],
                    out@[i].limbs@[k],
                    final(cs).assignment@,
                    old(cs).assignment@.len() as nat,
                    p,
                )
        }),
        all_nonnative_bits_le@.len() == 0 ==> final(cs).assignment@ == old(cs).assignment@
            && final(cs).constraints@ == old(cs).constraints@,
{
    let ghost orig: ConstraintSystem = *old(cs);
    let p = cs.modulus;
    let n = all_nonnative_bits_le.len();

    // longest input sequence
    let mut max_bits: usize = 0;
    let mut ii: usize = 0;
    while ii < n
        invariant
            n == all_nonnative_bits_le@.len(),
            0 <= ii <= n,
            max_bits == spec_max_len(all_nonnative_bits_le@.take(ii as int)),
        decreases n - ii,
    {
        let l = all_nonnative_bits_le[ii].len();
        proof {
            assert(all_nonnative_bits_le@.take(ii as int + 1).drop_last()
                =~= all_nonnative_bits_le@.take(ii as int));
            assert(all_nonnative_bits_le@.take(ii as int + 1).last()
                == all_nonnative_bits_le@[ii as int]);
        }
        if l > max_bits {
            max_bits = l;
        }
        ii = ii + 1;
    }
    proof {
        assert(all_nonnative_bits_le@.take(n as int) =~= all_nonnative_bits_le@);
    }

    let target_bits = crate::arith::bit_length(target.modulus);
    let base_bits = crate::arith::bit_length(cs.modulus);
    proof {
        crate::arith::lemma_bit_length_bounds(target.modulus as nat);
        crate::arith::lemma_bit_length_bounds(cs.modulus as nat);
        lemma2_to64();
        assert(pow2(2) == 4);
        crate::arith::lemma_bit_length_at_most(3nat, 2);
        if base_bits < 3 {
            crate::arith::lemma_pow2_ordered(base_bits as nat, 2);
        }
    }
    let params = crate::nonnative::get_params(target_bits, base_bits);
    let nl = params.num_limbs;
    let bpl = params.bits_per_limb;
    let ghost nl_s: nat = rec_nl(p as nat, *target);
    let ghost bpl_s: nat = rec_bpl(p as nat, *target);

    // lookup table: limb representation of 2^j for j < max_bits
    let mut lookup_table: Vec<Vec<u64>> = Vec::new();
    let mut cur: u64 = 1;
    let mut j: usize = 0;
    proof {
        lemma2_to64();
        lemma_small_mod(1nat, target.modulus as nat);
        lemma_pow2_pos(bpl_s);
        crate::arith::lemma_pow2_ordered(
            target.bit_size(),
            (params.num_limbs * params.bits_per_limb) as nat,
        );
    }
    while j < max_bits
        invariant
            target.wf(),
            1 <= bpl <= 31,
            nl == params.num_limbs,
            bpl == params.bits_per_limb,
            nl_s == nl,
            bpl_s == bpl,
            params.num_limbs * params.bits_per_limb >= target.bit_size(),
            target.modulus < pow2((params.num_limbs * params.bits_per_limb) as nat),
            0 <= j <= max_bits,
            lookup_table@.len() == j,
            cur == pow2(j as nat) % (target.modulus as nat),
            forall|jj: int|
                0 <= jj < j ==> (#[trigger] lookup_table@[jj])@ == spec_table_entry(
                    *target,
                    nl_s,
                    bpl_s,
                    jj as nat,
                ),
            forall|jj: int|
                0 <= jj < j ==> limbs_value((#[trigger] lookup_table@[jj])@, bpl_s) == pow2(
                    jj as nat,
                ) % (target.modulus as nat),
            forall|jj: int| 0 <= jj < j ==> (#[trigger] lookup_table@[jj])@.len() == nl,
        decreases max_bits - j,
    {
        proof {
            lemma_mod_bound(pow2(j as nat) as int, target.modulus as int);
        }
        let repr = crate::nonnative::get_limbs_representations(cur, &params);
        lookup_table.push(repr);
        let cur2 = crate::arith::add_mod(cur, cur, target.modulus);
        proof {
            let pf = target.modulus as nat;
            crate::r1cs::lemma_mod_sum_of_mods(pow2(j as nat), pow2(j as nat), pf);
            lemma_pow2_unfold((j + 1) as nat);
        }
        cur = cur2;
        j = j + 1;
    }

    let mut output: Vec<NonNativeFieldVar> = Vec::new();
    let mut i: usize = 0;
    proof {
        assert(cs.assignment@.is_prefix_of(cs.assignment@));
        assert(cs.constraints@.is_prefix_of(cs.constraints@));
    }
    while i < n
        invariant
            cs.wf(),
            cs.modulus == p,
            target.wf(),
            p >= 4,
            orig.modulus == p,
            orig.wf(),
            cs_extends(*cs, orig),
            n == all_nonnative_bits_le@.len(),
            forall|i0: int|
                0 <= i0 < n ==> bool_vars_wf(#[trigger] all_nonnative_bits_le@[i0]@, orig),
            fits_without_wrap(p as nat, *target, spec_max_len(all_nonnative_bits_le@)),
            max_bits == spec_max_len(all_nonnative_bits_le@),
            1 <= bpl <= 31,
            nl_s == nl,
            bpl_s == bpl,
            nl == params.num_limbs,
            bpl == params.bits_per_limb,
            lookup_table@.len() == max_bits,
            forall|jj: int|
                0 <= jj < max_bits ==> (#[trigger] lookup_table@[jj])@ == spec_table_entry(
                    *target,
                    nl_s,
                    bpl_s,
                    jj as nat,
                ),
            forall|jj: int|
                0 <= jj < max_bits ==> limbs_value((#[trigger] lookup_table@[jj])@, bpl_s) == pow2(
                    jj as nat,
                ) % (target.modulus as nat),
            forall|jj: int| 0 <= jj < max_bits ==> (#[trigger] lookup_table@[jj])@.len() == nl,
            0 <= i <= n,
            output@.len() == i,
            cs.assignment@.len() == orig.assignment@.len() + i * nl,
            cs.constraints@.len() == orig.constraints@.len() + i * nl,
            forall|i0: int|
                0 <= i0 < i ==> output_gadget_ok(
                    #[trigger] output@[i0],
                    bool_values(all_nonnative_bits_le@[i0]@),
                    *target,
                    nl_s,
                    bpl_s,
                    *cs,
                ),
            forall|i0: int, k0: int|
                0 <= i0 < i && 0 <= k0 < nl ==> limb_binding(
                    #[trigger] cs.constraints@[orig.constraints@.len() + i0 * nl + k0],
                    output@[i0].limbs@[k0],
                    cs.assignment@,
                    orig.assignment@.len() as nat,
                    p as nat,
                ),
        decreases n - i,
    {
        let nonnative_bits_le = &all_nonnative_bits_le[i];
        let len_i = nonnative_bits_le.len();
        let ghost bv: Seq<bool> = bool_values(nonnative_bits_le@);
        proof {
            lemma_max_len_ge(all_nonnative_bits_le@, i as int);
            lemma_pow2_pos(bpl_s);
            lemma_wrap_chain(
                len_i as nat,
                max_bits as nat,
                (pow2(bpl_s) - 1) as nat,
                p as nat,
            );
        }
        let mut limbs: Vec<FpVar> = Vec::new();
        let ghost cs_i: ConstraintSystem = *cs;
        let mut k: usize = 0;
        while k < nl
            invariant
                cs.wf(),
                cs.modulus == p,
                target.wf(),
                p >= 4,
                orig.modulus == p,
                orig.wf(),
                cs_extends(cs_i, orig),
                cs_extends(*cs, cs_i),
                cs_extends(*cs, orig),
                n == all_nonnative_bits_le@.len(),
                0 <= i < n,
                forall|i0: int|
                    0 <= i0 < n ==> bool_vars_wf(#[trigger] all_nonnative_bits_le@[i0]@, orig),
                fits_without_wrap(p as nat, *target, spec_max_len(all_nonnative_bits_le@)),
                max_bits == spec_max_len(all_nonnative_bits_le@),
                nonnative_bits_le == all_nonnative_bits_le@[i as int],
                len_i == nonnative_bits_le@.len(),
                len_i <= max_bits,
                bv == bool_values(nonnative_bits_le@),
                1 <= bpl <= 31,
                nl_s == nl,
                bpl_s == bpl,
                nl == params.num_limbs,
                bpl == params.bits_per_limb,
                lookup_table@.len() == max_bits,
                forall|jj: int|
                    0 <= jj < max_bits ==> (#[trigger] lookup_table@[jj])@ == spec_table_entry(
                        *target,
                        nl_s,
                        bpl_s,
                        jj as nat,
                    ),
                forall|jj: int|
                    0 <= jj < max_bits ==> limbs_value((#[trigger] lookup_table@[jj])@, bpl_s)
                        == pow2(jj as nat) % (target.modulus as nat),
                forall|jj: int| 0 <= jj < max_bits ==> (#[trigger] lookup_table@[jj])@.len() == nl,
                output@.len() == i,
                cs_i.assignment@.len() == orig.assignment@.len() + i * nl,
                cs_i.constraints@.len() == orig.constraints@.len() + i * nl,
                0 <= k <= nl,
                cs.assignment@.len() == cs_i.assignment@.len() + k,
                cs.constraints@.len() == cs_i.constraints@.len() + k,
                limbs@.len() == k,
                forall|k0: int|
                    0 <= k0 < k ==> ((#[trigger] limbs@[k0]) matches FpVar::Witness {
                        index,
                        value,
                    } && value as nat == col_val(bv, *target, nl_s, bpl_s, k0) && limbs@[k0].wf(
                        *cs,
                    )),
                forall|k0: int|
                    0 <= k0 < k ==> limb_binding(
                        #[trigger] cs.constraints@[cs_i.constraints@.len() + k0],
                        limbs@[k0],
                        cs.assignment@,
                        orig.assignment@.len() as nat,
                        p as nat,
                    ),
                forall|i0: int|
                    0 <= i0 < i ==> output_gadget_ok(
                        #[trigger] output@[i0],
                        bool_values(all_nonnative_bits_le@[i0]@),
                        *target,
                        nl_s,
                        bpl_s,
                        *cs,
                    ),
                forall|i0: int, k0: int|
                    0 <= i0 < i && 0 <= k0 < nl ==> limb_binding(
                        #[trigger] cs.constraints@[orig.constraints@.len() + i0 * nl + k0],
                        output@[i0].limbs@[k0],
                        cs.assignment@,
                        orig.assignment@.len() as nat,
                        p as nat,
                    ),
            decreases nl - k,
        {
            let mut val_k: u64 = 0;
            let mut terms: Vec<Term> = Vec::new();
            let mut jb: usize = 0;
            proof {
                assert(bv.take(0) =~= Seq::<bool>::empty());
                assert(lc_sum(Seq::<Term>::empty(), cs.assignment@) == 0);
                lemma_small_mod(0nat, p as nat);
            }
            while jb < len_i
                invariant
                    cs.wf(),
                    cs.modulus == p,
                    target.wf(),
                    p >= 4,
                    orig.modulus == p,
                    cs_extends(*cs, orig),
                    n == all_nonnative_bits_le@.len(),
                    0 <= i < n,
                    forall|i0: int|
                        0 <= i0 < n ==> bool_vars_wf(#[trigger] all_nonnative_bits_le@[i0]@, orig),
                    fits_without_wrap(p as nat, *target, spec_max_len(all_nonnative_bits_le@)),
                    max_bits == spec_max_len(all_nonnative_bits_le@),
                    nonnative_bits_le == all_nonnative_bits_le@[i as int],
                    len_i == nonnative_bits_le@.len(),
                    len_i <= max_bits,
                    bv == bool_values(nonnative_bits_le@),
                    1 <= bpl <= 31,
                    nl_s == nl,
                    bpl_s == bpl,
                    0 <= k < nl,
                    lookup_table@.len() == max_bits,
                    forall|jj: int|
                        0 <= jj < max_bits ==> (#[trigger] lookup_table@[jj])@ == spec_table_entry(
                            *target,
                            nl_s,
                            bpl_s,
                            jj as nat,
                        ),
                    forall|jj: int|
                        0 <= jj < max_bits ==> (#[trigger] lookup_table@[jj])@.len() == nl,
                    0 <= jb <= len_i,
                    val_k as nat == col_val(bv.take(jb as int), *target, nl_s, bpl_s, k as int),
                    lc_sum(terms@, cs.assignment@) % (p as nat) == col_val(
                        bv.take(jb as int),
                        *target,
                        nl_s,
                        bpl_s,
                        k as int,
                    ) % (p as nat),
                    crate::r1cs::terms_wf(terms@, orig.assignment@.len() as nat, p as nat),
                decreases len_i - jb,
            {
                let bit = &nonnative_bits_le[jb];
                let entry = lookup_table[jb][k];
                let ghost colj: nat = col_val(bv.take(jb as int), *target, nl_s, bpl_s, k as int);
                let ghost colj1: nat = col_val(
                    bv.take(jb as int + 1),
                    *target,
                    nl_s,
                    bpl_s,
                    k as int,
                );
                proof {
                    // the true column value steps by the table entry
                    assert(bv.take(jb as int + 1).drop_last() =~= bv.take(jb as int));
                    assert(bv.take(jb as int + 1).last() == bv[jb as int]);
                    assert(bv[jb as int] == nonnative_bits_le@[jb as int].value);
                    assert(entry as nat == spec_table_entry(
                        *target,
                        nl_s,
                        bpl_s,
                        jb as nat,
                    )[k as int] as nat);
                    // bounds: the step cannot wrap
                    lemma_col_val_bound(bv.take(jb as int), *target, nl_s, bpl_s, k as int);
                    lemma_pow2_pos(bpl_s);
                    lemma_mod_bound(
                        (pow2(jb as nat) % (target.modulus as nat)) as int / pow2(
                            (bpl_s * k) as nat,
                        ) as int,
                        pow2(bpl_s) as int,
                    );
                    assert(entry as nat <= pow2(bpl_s) - 1);
                    let b1: nat = (pow2(bpl_s) - 1) as nat;
                    assert(colj <= (jb as nat) * b1);
                    lemma_col_step_bound(jb as nat, max_bits as nat, b1, p as nat, colj, entry as nat);
                    assert(colj + (entry as nat) < (p as nat));
                }
                if bit.value {
                    val_k = val_k + entry;
                }
                // fold the scaled bit linear combination into the running terms
                let ghost terms_before: Seq<Term> = terms@;
                let bt = bit.lc.terms.len();
                let mut ti: usize = 0;
                while ti < bt
                    invariant
                        p >= 4,
                        bt == bit.lc.terms@.len(),
                        0 <= ti <= bt,
                        terms@ == terms_before + scale_terms(
                            bit.lc.terms@.take(ti as int),
                            entry,
                            p as nat,
                        ),
                        crate::r1cs::terms_wf(terms_before, orig.assignment@.len() as nat, p as nat),
                        bool_vars_wf(nonnative_bits_le@, orig),
                        nonnative_bits_le@[jb as int] == *bit,
                        0 <= jb < len_i,
                        len_i == nonnative_bits_le@.len(),
                        cs_extends(*cs, orig),
                        crate::r1cs::terms_wf(terms@, orig.assignment@.len() as nat, p as nat),
                    decreases bt - ti,
                {
                    let t = bit.lc.terms[ti];
                    let sc = crate::arith::mul_mod(entry, t.coeff, p);
                    terms.push(Term { coeff: sc, var: t.var });
                    proof {
                        assert(scale_terms(bit.lc.terms@.take(ti as int + 1), entry, p as nat)
                            =~= scale_terms(bit.lc.terms@.take(ti as int), entry, p as nat).push(
                            Term { coeff: sc, var: t.var },
                        ));
                        assert(terms@ =~= terms_before + scale_terms(
                            bit.lc.terms@.take(ti as int + 1),
                            entry,
                            p as nat,
                        ));
                        assert(bit.wf(orig));
                        assert(bit.lc.terms@[ti as int].var < orig.assignment@.len());
                    }
                    ti = ti + 1;
                }
                proof {
                    assert(bit.lc.terms@.take(bt as int) =~= bit.lc.terms@);
                    let asg = cs.assignment@;
                    let pn = p as nat;
                    let scaled = scale_terms(bit.lc.terms@, entry, pn);
                    lemma_lc_sum_concat(terms_before, scaled, asg);
                    lemma_lc_sum_scaled(bit.lc.terms@, entry, asg, pn);
                    // the bit's linear combination evaluates to its witnessed bit
                    assert(bit.wf(orig));
                    crate::gadgets::lemma_boolean_wf_extends(*bit, orig, *cs);
                    let bitbit: nat = if bit.value {
                        1
                    } else {
                        0
                    };
                    assert(lc_sum(bit.lc.terms@, asg) % pn == bitbit);
                    // combine: new sum is old plus entry times the bit, modulo p
                    crate::r1cs::lemma_mod_sum_of_mods(
                        lc_sum(terms_before, asg),
                        lc_sum(scaled, asg),
                        pn,
                    );
                    lemma_mod_mod_small(lc_sum(scaled, asg), pn);
                    crate::r1cs::lemma_mod_sum_of_mods(colj, lc_sum(scaled, asg), pn);
                    assert((entry as nat * lc_sum(bit.lc.terms@, asg)) % pn == (entry as nat
                        * bitbit) % pn) by {
                        lemma_mul_mod_noop_right(
                            entry as int,
                            lc_sum(bit.lc.terms@, asg) as int,
                            p as int,
                        );
                        lemma_mul_mod_noop_right(entry as int, bitbit as int, p as int);
                    }
                    assert(entry as nat * 1 == entry as nat) by (nonlinear_arith);
                    assert(entry as nat * 0 == 0) by (nonlinear_arith);
                    lemma_small_mod(entry as nat, pn);
                    lemma_small_mod(colj1, pn);
                    lemma_small_mod(colj, pn);
                    crate::r1cs::lemma_mod_sum_of_mods(colj, entry as nat * bitbit, pn);
                    lemma_small_mod(entry as nat * bitbit, pn);
                }
                jb = jb + 1;
            }
            proof {
                assert(bv.take(len_i as int) =~= bv);
                lemma_col_val_bound(bv, *target, nl_s, bpl_s, k as int);
                lemma_pow2_pos(bpl_s);
                lemma_wrap_chain(
                    len_i as nat,
                    max_bits as nat,
                    (pow2(bpl_s) - 1) as nat,
                    p as nat,
                );
                assert(val_k < p);
            }
            // allocate the limb witness and bind it linearly to the bits
            let ghost cs_pre: ConstraintSystem = *cs;
            let idx = cs.new_witness(val_k);
            proof {
                crate::gadgets::lemma_push_prefix(cs_pre.assignment@, val_k);
                assert(cs_extends(*cs, cs_pre));
                crate::gadgets::lemma_cs_extends_trans(cs_i, cs_pre, *cs);
                crate::gadgets::lemma_cs_extends_trans(orig, cs_i, *cs);
                crate::gadgets::lemma_lc_sum_extends(
                    terms@,
                    cs_pre.assignment@,
                    cs.assignment@,
                    cs_pre.assignment@.len() as nat,
                );
            }
            let mut cterms = terms;
            cterms.push(Term { coeff: p - 1, var: idx });
            let c = Constraint {
                a: LinComb { terms: Vec::new() },
                b: LinComb { terms: Vec::new() },
                c: LinComb { terms: cterms },
            };
            let ghost cs_mid: ConstraintSystem = *cs;
            cs.enforce_constraint(c);
            limbs.push(FpVar::Witness { index: idx, value: val_k });
            proof {
                crate::gadgets::lemma_push_prefix(cs_mid.constraints@, c);
                assert(cs_extends(*cs, cs_mid));
                crate::gadgets::lemma_cs_extends_trans(cs_i, cs_mid, *cs);
                crate::gadgets::lemma_cs_extends_trans(orig, cs_i, *cs);
                // the new constraint binds the new limb
                let asg = cs.assignment@;
                let pn = p as nat;
                let newc = cs.constraints@[cs_i.constraints@.len() + k as int];
                assert(newc == c);
                assert(c.c.terms@.drop_last() =~= terms@);
                lemma_small_mod(val_k as nat, pn);
                assert(limb_binding(newc, limbs@[k as int], asg, orig.assignment@.len() as nat, pn));
                // older bindings and gadgets survive the extension
                assert forall|k0: int| 0 <= k0 < k implies limb_binding(
                    #[trigger] cs.constraints@[cs_i.constraints@.len() + k0],
                    limbs@[k0],
                    asg,
                    orig.assignment@.len() as nat,
                    pn,
                ) by {
                    crate::gadgets::lemma_prefix_index(
                        cs_mid.constraints@,
                        cs.constraints@,
                        cs_i.constraints@.len() + k0,
                    );
                    let oldc = cs_mid.constraints@[cs_i.constraints@.len() + k0];
                    crate::gadgets::lemma_lc_sum_extends(
                        oldc.c.terms@.drop_last(),
                        cs_pre.assignment@,
                        asg,
                        cs_pre.assignment@.len() as nat,
                    );
                }
                assert forall|k0: int| 0 <= k0 < k + 1 implies ((
                #[trigger] limbs@[k0]) matches FpVar::Witness { index, value } && value as nat
                    == col_val(bv, *target, nl_s, bpl_s, k0) && limbs@[k0].wf(*cs)) by {
                    if k0 < k {
                        crate::gadgets::lemma_fp_wf_extends(limbs@[k0], cs_pre, *cs);
                    }
                }
                assert forall|i0: int| 0 <= i0 < i implies output_gadget_ok(
                    #[trigger] output@[i0],
                    bool_values(all_nonnative_bits_le@[i0]@),
                    *target,
                    nl_s,
                    bpl_s,
                    *cs,
                ) by {
                    assert forall|k0: int|
                        0 <= k0 < output@[i0].limbs@.len() implies (#[trigger] output@[i0].limbs@[
                    k0]).wf(*cs) by {
                        crate::gadgets::lemma_fp_wf_extends(output@[i0].limbs@[k0], cs_pre, *cs);
                    }
                }
                assert forall|i0: int, k0: int| 0 <= i0 < i && 0 <= k0 < nl implies limb_binding(
                    #[trigger] cs.constraints@[orig.constraints@.len() + i0 * nl + k0],
                    output@[i0].limbs@[k0],
                    asg,
                    orig.assignment@.len() as nat,
                    pn,
                ) by {
                    assert(0 <= orig.constraints@.len() + i0 * nl + k0
                        < cs_mid.constraints@.len()) by {
                        vstd::arithmetic::mul::lemma_mul_inequality(i0 + 1, i as int, nl as int);
                        assert(i0 * nl + nl == (i0 + 1) * nl) by (nonlinear_arith);
                        assert(i0 * nl >= 0) by (nonlinear_arith)
                            requires
                                i0 >= 0,
                                nl >= 0,
                        ;
                    }
                    crate::gadgets::lemma_prefix_index(
                        cs_mid.constraints@,
                        cs.constraints@,
                        orig.constraints@.len() + i0 * nl + k0,
                    );
                    let oldc = cs_mid.constraints@[orig.constraints@.len() + i0 * nl + k0];
                    crate::gadgets::lemma_lc_sum_extends(
                        oldc.c.terms@.drop_last(),
                        cs_pre.assignment@,
                        asg,
                        cs_pre.assignment@.len() as nat,
                    );
                }
            }
            k = k + 1;
        }
        output.push(
            NonNativeFieldVar {
                limbs,
                num_of_additions_over_normal_form: 0,
                is_in_the_normal_form: true,
            },
        );
        proof {
            // the new gadget reconstructs its bit value
            let g = output@[i as int];
            let pn = p as nat;
            let pf = target.modulus as nat;
            let vals = crate::gadgets::fp_values(g.limbs@);
            assert(vals.len() == nl);
            assert forall|k0: int| 0 <= k0 < nl implies (#[trigger] vals[k0]) as nat == col_val(
                bv,
                *target,
                nl_s,
                bpl_s,
                k0,
            ) by {
                assert(vals[k0] == g.limbs@[k0].value_of());
            }
            lemma_pow2_pos(bpl_s);
            lemma_wrap_chain(
                len_i as nat,
                max_bits as nat,
                (pow2(bpl_s) - 1) as nat,
                p as nat,
            );
            assert forall|j0: nat| j0 < bv.len() implies limbs_value(
                #[trigger] spec_table_entry(*target, nl_s, bpl_s, j0),
                bpl_s,
            ) == pow2(j0) % pf by {
                assert((lookup_table@[j0 as int])@ == spec_table_entry(*target, nl_s, bpl_s, j0));
                assert(limbs_value((lookup_table@[j0 as int])@, bpl_s) == pow2(j0) % pf);
            }
            lemma_cols_value(bv, *target, nl_s, bpl_s, vals);
            lemma_weighted_pow_sum_mod(bv, pf);
            assert(output_gadget_ok(g, bv, *target, nl_s, bpl_s, *cs));
            // bookkeeping for the batch invariants
            assert(cs.assignment@.len() == orig.assignment@.len() + i * nl + nl);
            assert(i * nl + nl == (i + 1) * nl) by (nonlinear_arith);
            assert forall|i0: int, k0: int| 0 <= i0 < i + 1 && 0 <= k0 < nl implies limb_binding(
                #[trigger] cs.constraints@[orig.constraints@.len() + i0 * nl + k0],
                output@[i0].limbs@[k0],
                cs.assignment@,
                orig.assignment@.len() as nat,
                p as nat,
            ) by {
                if i0 == i {
                    assert(orig.constraints@.len() + i0 * nl + k0 == cs_i.constraints@.len() + k0);
                }
            }
        }
        i = i + 1;
    }
    proof {
        assert(output@.len() == n);
        if n == 0 {
            assert(cs.assignment@ =~= orig.assignment@);
            assert(cs.constraints@ =~= orig.constraints@);
        }
    }
    Ok(output)
}

} // verus!
