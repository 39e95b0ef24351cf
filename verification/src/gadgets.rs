//! Circuit-variable gadgets: field elements, booleans and bytes of the
//! circuit field, each carrying the witnessed value it evaluates to.

use vstd::prelude::*;
use crate::arith::bits_value;
use crate::r1cs::{ConstraintSystem, LinComb, Term, lc_eval, lc_sum, lc_wf};

verus! {

/// An element of the circuit field inside the circuit: either a public
/// constant or an allocated variable with its witnessed value.
#[derive(Debug)]
pub enum FpVar {
    Constant(u64),
    Witness { index: usize, value: u64 },
}

impl FpVar {
    /// The value this gadget evaluates to under the current witness.
    pub open spec fn value_of(self) -> u64 {
        match self {
            FpVar::Constant(c) => c,
            FpVar::Witness { index: _, value } => value,
        }
    }

    /// An allocated gadget points at a live variable that holds its value.
    pub open spec fn wf(self, cs: ConstraintSystem) -> bool {
        match self {
            FpVar::Constant(_) => true,
            FpVar::Witness { index, value } => {
                &&& index < cs.assignment@.len()
                &&& cs.assignment@[index as int] == value
                &&& value < cs.modulus
            },
        }
    }
}

/// Read the value a field-element gadget evaluates to.
pub fn fp_value(v: &FpVar) -> (r: u64)
    ensures
        r == v.value_of(),
{
    match v {
        FpVar::Constant(c) => *c,
        FpVar::Witness { index: _, value } => *value,
    }
}

/// The values of a sequence of field-element gadgets.
pub open spec fn fp_values(s: Seq<FpVar>) -> Seq<u64> {
    s.map_values(|v: FpVar| v.value_of())
}

pub open spec fn fp_vars_wf(s: Seq<FpVar>, cs: ConstraintSystem) -> bool {
    forall|i: int| 0 <= i < s.len() ==> (#[trigger] s[i]).wf(cs)
}

/// A boolean-valued circuit variable: a linear combination over the
/// circuit's variables together with its witnessed truth value.
#[derive(Debug)]
pub struct BooleanVar {
    pub lc: LinComb,
    pub value: bool,
}

impl BooleanVar {
    /// The linear combination speaks of live variables and evaluates to
    /// the witnessed bit.
    pub open spec fn wf(self, cs: ConstraintSystem) -> bool {
        &&& lc_wf(self.lc, cs.assignment@.len() as nat, cs.modulus as nat)
        &&& lc_eval(self.lc, cs.assignment@, cs.modulus as nat) == if self.value {
            1nat
        } else {
            0nat
        }
    }

    /// A constant circuit bit: the linear combination is the constant-one
    /// variable, or empty, with no witness cost.
    pub fn constant(b: bool, cs: &ConstraintSystem) -> (r: BooleanVar)
        requires
            cs.wf(),
        ensures
            r.wf(*cs),
            r.value == b,
    {
        let mut terms: Vec<Term> = Vec::new();
        if b {
            terms.push(Term { coeff: 1, var: 0 });
        }
        let r = BooleanVar { lc: LinComb { terms }, value: b };
        proof {
            if b {
                assert(r.lc.terms@.len() == 1);
                assert(r.lc.terms@.last() == Term { coeff: 1u64, var: 0usize });
                assert(r.lc.terms@.drop_last() =~= Seq::<Term>::empty());
                assert(lc_sum(Seq::<Term>::empty(), cs.assignment@) == 0);
                assert(lc_sum(r.lc.terms@, cs.assignment@) == 1);
                vstd::arithmetic::div_mod::lemma_small_mod(1nat, cs.modulus as nat);
            } else {
                assert(lc_sum(r.lc.terms@, cs.assignment@) == 0);
                vstd::arithmetic::div_mod::lemma_small_mod(0nat, cs.modulus as nat);
            }
        }
        r
    }
}

/// The witnessed bit values of a sequence of boolean gadgets.
pub open spec fn bool_values(s: Seq<BooleanVar>) -> Seq<bool> {
    s.map_values(|b: BooleanVar| b.value)
}

pub open spec fn bool_vars_wf(s: Seq<BooleanVar>, cs: ConstraintSystem) -> bool {
    forall|i: int| 0 <= i < s.len() ==> (#[trigger] s[i]).wf(cs)
}

/// A byte of squeezed output: eight boolean circuit variables, least
/// significant bit first.
#[derive(Debug)]
pub struct UInt8Var {
    pub bits: Vec<BooleanVar>,
}

impl UInt8Var {
    pub open spec fn wf(self, cs: ConstraintSystem) -> bool {
        self.bits@.len() == 8 && bool_vars_wf(self.bits@, cs)
    }

    /// The byte value under the current witness.
    pub open spec fn value_of(self) -> nat {
        bits_value(bool_values(self.bits@))
    }
}

/// One constraint system is a later state of another: same field, and
/// everything already allocated or enforced is still there, unchanged.
pub open spec fn cs_extends(new: ConstraintSystem, old: ConstraintSystem) -> bool {
    &&& new.modulus == old.modulus
    &&& old.assignment@.is_prefix_of(new.assignment@)
    &&& old.constraints@.is_prefix_of(new.constraints@)
}

/// A term list's unreduced sum only reads variables below `n`, so any
/// extension of the assignment leaves it unchanged.
pub proof fn lemma_lc_sum_extends(terms: Seq<Term>, asg1: Seq<u64>, asg2: Seq<u64>, n: nat)
    requires
        n <= asg1.len(),
        asg1.is_prefix_of(asg2),
        crate::r1cs::terms_wf(terms, n, u64::MAX as nat + 1),
    ensures
        lc_sum(terms, asg1) == lc_sum(terms, asg2),
    decreases terms.len(),
{
    if terms.len() > 0 {
        lemma_lc_sum_extends(terms.drop_last(), asg1, asg2, n);
        assert(asg2[terms.last().var as int] == asg1[terms.last().var as int]);
    }
}

/// A term list's unreduced sum reads only variables below `n`, so two
/// assignments that agree below `n` give it the same value.
pub proof fn lemma_lc_sum_agree(terms: Seq<Term>, asg1: Seq<u64>, asg2: Seq<u64>, n: nat)
    requires
        n <= asg1.len(),
        n <= asg2.len(),
        forall|i: int| 0 <= i < n ==> asg1[i] == #[trigger] asg2[i],
        crate::r1cs::terms_wf(terms, n, u64::MAX as nat + 1),
    ensures
        lc_sum(terms, asg1) == lc_sum(terms, asg2),
    decreases terms.len(),
{
    if terms.len() > 0 {
        lemma_lc_sum_agree(terms.drop_last(), asg1, asg2, n);
        assert(asg2[terms.last().var as int] == asg1[terms.last().var as int]);
    }
}

/// Extending the constraint system preserves a boolean gadget's
/// well-formedness.
pub proof fn lemma_boolean_wf_extends(b: BooleanVar, old: ConstraintSystem, new: ConstraintSystem)
    requires
        b.wf(old),
        cs_extends(new, old),
    ensures
        b.wf(new),
{
    lemma_lc_sum_extends(b.lc.terms@, old.assignment@, new.assignment@, old.assignment@.len() as nat);
}

/// Extending the constraint system preserves a field gadget's
/// well-formedness.
pub proof fn lemma_fp_wf_extends(v: FpVar, old: ConstraintSystem, new: ConstraintSystem)
    requires
        v.wf(old),
        cs_extends(new, old),
    ensures
        v.wf(new),
{
    match v {
        FpVar::Constant(_) => {
        },
        FpVar::Witness { index, value } => {
            lemma_prefix_index(old.assignment@, new.assignment@, index as int);
        },
    }
}

/// A prefix agrees with the longer sequence on every shared index.
pub proof fn lemma_prefix_index<T>(a: Seq<T>, b: Seq<T>, i: int)
    requires
        a.is_prefix_of(b),
        0 <= i < a.len(),
    ensures
        a[i] == b[i],
{
    assert(a == b.subrange(0, a.len() as int));
    assert(b.subrange(0, a.len() as int)[i] == b[i]);
}

/// Extension of constraint systems is transitive.
pub proof fn lemma_cs_extends_trans(a: ConstraintSystem, b: ConstraintSystem, c: ConstraintSystem)
    requires
        cs_extends(b, a),
        cs_extends(c, b),
    ensures
        cs_extends(c, a),
{
    assert(a.assignment@ =~= c.assignment@.subrange(0, a.assignment@.len() as int)) by {
        assert forall|i: int| 0 <= i < a.assignment@.len() implies a.assignment@[i]
            == c.assignment@.subrange(0, a.assignment@.len() as int)[i] by {
            lemma_prefix_index(a.assignment@, b.assignment@, i);
            lemma_prefix_index(b.assignment@, c.assignment@, i);
        }
    }
    assert(a.constraints@ =~= c.constraints@.subrange(0, a.constraints@.len() as int)) by {
        assert forall|i: int| 0 <= i < a.constraints@.len() implies a.constraints@[i]
            == c.constraints@.subrange(0, a.constraints@.len() as int)[i] by {
            lemma_prefix_index(a.constraints@, b.constraints@, i);
            lemma_prefix_index(b.constraints@, c.constraints@, i);
        }
    }
}

/// Pushing onto a sequence extends it.
pub proof fn lemma_push_prefix<T>(a: Seq<T>, x: T)
    ensures
        a.is_prefix_of(a.push(x)),
{
    assert(a =~= a.push(x).subrange(0, a.len() as int));
}

} // verus!
