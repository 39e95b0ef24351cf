//! A model of a rank-1 constraint system over a prime field.
//!
//! Field elements are residues: `u64` values below the system's modulus.
//! Variables are indices into the witness assignment; index 0 is the
//! constant-one variable.  A linear combination is a list of
//! `coefficient * variable` terms, a constraint demands
//! `a * b == c` for three linear combinations, and the system records
//! every constraint enforced so far together with the assignment built
//! during witness generation.

use vstd::prelude::*;

verus! {

/// One `coefficient * variable` term of a linear combination.
#[derive(Clone, Copy, Debug, PartialEq, Eq, Structural)]
pub struct Term {
    /// Coefficient, a residue of the circuit field.
    pub coeff: u64,
    /// Index of the variable in the assignment; 0 is the constant one.
    pub var: usize,
}

/// A weighted sum of circuit variables.
#[derive(Debug)]
pub struct LinComb {
    pub terms: Vec<Term>,
}

/// One rank-1 constraint: `a * b == c` over the circuit field.
#[derive(Debug)]
pub struct Constraint {
    pub a: LinComb,
    pub b: LinComb,
    pub c: LinComb,
}

/// The shared, mutably threaded constraint-system record: the modulus of
/// the circuit field, the witness assignment built so far, and every
/// constraint enforced so far.
#[derive(Debug)]
pub struct ConstraintSystem {
    pub modulus: u64,
    pub assignment: Vec<u64>,
    pub constraints: Vec<Constraint>,
}

/// The unreduced sum of a term list under an assignment.
pub open spec fn lc_sum(terms: Seq<Term>, asg: Seq<u64>) -> nat
    decreases terms.len(),
{
    if terms.len() == 0 {
        0
    } else {
        lc_sum(terms.drop_last(), asg) + terms.last().coeff as nat * asg[terms.last().var as int] as nat
    }
}

/// The value of a linear combination under an assignment, reduced.
pub open spec fn lc_eval(lc: LinComb, asg: Seq<u64>, p: nat) -> nat {
    lc_sum(lc.terms@, asg) % p
}

/// A term list speaks only of variables below `n` and carries reduced
/// coefficients.
pub open spec fn terms_wf(terms: Seq<Term>, n: nat, p: nat) -> bool {
    forall|i: int| 0 <= i < terms.len() ==> (#[trigger] terms[i]).var < n && terms[i].coeff < p
}

/// Well-formedness of a linear combination with respect to a system.
pub open spec fn lc_wf(lc: LinComb, n: nat, p: nat) -> bool {
    terms_wf(lc.terms@, n, p)
}

/// A constraint `a * b == c` holds under an assignment.
pub open spec fn constraint_satisfied(c: Constraint, asg: Seq<u64>, p: nat) -> bool {
    (lc_eval(c.a, asg, p) * lc_eval(c.b, asg, p)) % p == lc_eval(c.c, asg, p)
}

impl Constraint {
    pub open spec fn wf(self, n: nat, p: nat) -> bool {
        lc_wf(self.a, n, p) && lc_wf(self.b, n, p) && lc_wf(self.c, n, p)
    }
}

impl ConstraintSystem {
    /// Invariant: a positive modulus, an assignment of reduced residues
    /// that starts with the constant one, and constraints speaking only
    /// of allocated variables.
    pub open spec fn wf(self) -> bool {
        &&& self.modulus >= 2
        &&& self.assignment@.len() >= 1
        &&& self.assignment@[0] == 1
        &&& forall|i: int|
            0 <= i < self.assignment@.len() ==> #[trigger] self.assignment@[i] < self.modulus
        &&& forall|i: int|
            0 <= i < self.constraints@.len() ==> (#[trigger] self.constraints@[i]).wf(
                self.assignment@.len() as nat,
                self.modulus as nat,
            )
    }

    /// Every recorded constraint holds under an assignment.
    pub open spec fn satisfied_under(self, asg: Seq<u64>) -> bool {
        forall|i: int|
            0 <= i < self.constraints@.len() ==> constraint_satisfied(
                #[trigger] self.constraints@[i],
                asg,
                self.modulus as nat,
            )
    }

    /// Every recorded constraint holds under the assignment built so far.
    pub open spec fn satisfied(self) -> bool {
        self.satisfied_under(self.assignment@)
    }

    /// A fresh system over the field of the given modulus: the constant
    /// one is allocated, nothing is constrained.
    pub fn new(modulus: u64) -> (cs: ConstraintSystem)
        requires
            modulus >= 2,
        ensures
            cs.wf(),
            cs.modulus == modulus,
            cs.assignment@ == seq![1u64],
            cs.constraints@ == Seq::<Constraint>::empty(),
    {
        let mut assignment: Vec<u64> = Vec::new();
        assignment.push(1u64);
        let cs = ConstraintSystem { modulus, assignment, constraints: Vec::new() };
        proof {
            assert(cs.assignment@ =~= seq![1u64]);
            assert(cs.constraints@ =~= Seq::<Constraint>::empty());
        }
        cs
    }

    /// Allocate one fresh witness variable holding `value`.
    pub fn new_witness(&mut self, value: u64) -> (idx: usize)
        requires
            old(self).wf(),
            value < old(self).modulus,
        ensures
            final(self).wf(),
            final(self).modulus == old(self).modulus,
            final(self).constraints@ == old(self).constraints@,
            final(self).assignment@ == old(self).assignment@.push(value),
            idx == old(self).assignment@.len(),
            final(self).assignment@[idx as int] == value,
    {
        let idx = self.assignment.len();
        self.assignment.push(value);
        proof {
            assert forall|i: int| 0 <= i < self.constraints@.len() implies (
                #[trigger] self.constraints@[i]).wf(
                self.assignment@.len() as nat,
                self.modulus as nat,
            ) by {
                assert(self.constraints@[i].wf(old(self).assignment@.len() as nat, self.modulus as nat));
            }
        }
        idx
    }

    /// Record the constraint `a * b == c`.
    pub fn enforce_constraint(&mut self, c: Constraint)
        requires
            old(self).wf(),
            c.wf(old(self).assignment@.len() as nat, old(self).modulus as nat),
        ensures
            final(self).wf(),
            final(self).modulus == old(self).modulus,
            final(self).assignment@ == old(self).assignment@,
            final(self).constraints@ == old(self).constraints@.push(c),
    {
        self.constraints.push(c);
    }

    /// Decide whether every recorded constraint holds under `asg`.
    ///
    /// Exposed so that a harness can tamper with a witness assignment and
    /// watch the system reject it.
    pub fn is_satisfied_under(&self, asg: &Vec<u64>) -> (b: bool)
        requires
            self.wf(),
            forall|i: int| 0 <= i < self.constraints@.len() ==> (#[trigger] self.constraints@[i]).wf(
                asg@.len() as nat,
                self.modulus as nat,
            ),
        ensures
            b == self.satisfied_under(asg@),
    {
        let n = self.constraints.len();
        let mut i: usize = 0;
        while i < n
            invariant
                self.wf(),
                n == self.constraints@.len(),
                0 <= i <= n,
                forall|j: int| 0 <= j < self.constraints@.len() ==> (
                    #[trigger] self.constraints@[j]).wf(asg@.len() as nat, self.modulus as nat),
                forall|j: int|
                    0 <= j < i ==> constraint_satisfied(
                        #[trigger] self.constraints@[j],
                        asg@,
                        self.modulus as nat,
                    ),
            decreases n - i,
        {
            let c = &self.constraints[i];
            let ea = eval_lc(&c.a, asg, self.modulus);
            let eb = eval_lc(&c.b, asg, self.modulus);
            let ec = eval_lc(&c.c, asg, self.modulus);
            let prod = crate::arith::mul_mod(ea, eb, self.modulus);
            if prod != ec {
                assert(!constraint_satisfied(self.constraints@[i as int], asg@, self.modulus as nat));
                return false;
            }
            i = i + 1;
        }
        true
    }

    /// Decide whether the system is satisfied by its own assignment.
    pub fn is_satisfied(&self) -> (b: bool)
        requires
            self.wf(),
        ensures
            b == self.satisfied(),
    {
        self.is_satisfied_under(&self.assignment)
    }
}

/// Evaluate a linear combination under an assignment, reduced.
pub fn eval_lc(lc: &LinComb, asg: &Vec<u64>, p: u64) -> (r: u64)
    requires
        p >= 1,
        forall|i: int| 0 <= i < lc.terms@.len() ==> (#[trigger] lc.terms@[i]).var < asg@.len(),
    ensures
        r == lc_eval(*lc, asg@, p as nat),
        r < p,
{
    let n = lc.terms.len();
    let mut i: usize = 0;
    let mut acc: u64 = 0;
    proof {
        assert(lc.terms@.take(0) =~= Seq::<Term>::empty());
        assert(lc_sum(Seq::<Term>::empty(), asg@) == 0);
    }
    while i < n
        invariant
            p >= 1,
            n == lc.terms@.len(),
            0 <= i <= n,
            forall|j: int| 0 <= j < lc.terms@.len() ==> (#[trigger] lc.terms@[j]).var < asg@.len(),
            acc == lc_sum(lc.terms@.take(i as int), asg@) % (p as nat),
            acc < p,
        decreases n - i,
    {
        let t = lc.terms[i];
        let prod = crate::arith::mul_mod(t.coeff, asg[t.var], p);
        let acc2 = crate::arith::add_mod(acc, prod, p);
        proof {
            let prefix = lc.terms@.take(i as int);
            let prefix2 = lc.terms@.take(i as int + 1);
            assert(prefix2.drop_last() =~= prefix);
            assert(prefix2.last() == lc.terms@[i as int]);
            lemma_mod_sum_of_mods(
                lc_sum(prefix, asg@),
                t.coeff as nat * asg@[t.var as int] as nat,
                p as nat,
            );
        }
        acc = acc2;
        i = i + 1;
    }
    proof {
        assert(lc.terms@.take(n as int) =~= lc.terms@);
    }
    acc
}

/// `((a % p) + (b % p)) % p == (a + b) % p`.
pub proof fn lemma_mod_sum_of_mods(a: nat, b: nat, p: nat)
    requires
        p >= 1,
    ensures
        ((a % p) + (b % p)) % p == (a + b) % p,
{
    vstd::arithmetic::div_mod::lemma_add_mod_noop(a as int, b as int, p as int);
}

} // verus!
