//! A small concrete sponge, in native and in-circuit form, exercising
//! the sponge-gadget interface.
//!
//! Both forms keep a 64-bit accumulator folded over the absorbed
//! values and derive every output bit from the accumulator and the
//! bit's position with the same mixing formula, so the native and the
//! in-circuit sponge produce bit-for-bit identical streams for
//! identical absorption histories.

use vstd::prelude::*;
use crate::gadgets::{BooleanVar, FpVar, bool_values, fp_value, fp_values};
use crate::r1cs::ConstraintSystem;
use crate::sponge::CryptographicSpongeVar;
use crate::SynthesisError;

verus! {

/// Largest prime below `2^64`; the mixing state lives in its field.
pub const MIX_MODULUS: u64 = 0xffff_ffff_ffff_ffc5;

pub const MIX_MUL: u64 = 0x9e37_79b9_7f4a_7c15;

pub const MIX_ADD: u64 = 0xbf58_476d_1ce4_e5b9;

pub const MIX_OUT: u64 = 0x94d0_49bb_1331_11eb;

/// One mixing step: fold a value into the accumulator.
pub open spec fn mix(acc: u64, v: u64) -> u64 {
    ((((acc as nat * MIX_MUL as nat) % (MIX_MODULUS as nat)) + ((v as nat * MIX_ADD as nat) % (
    MIX_MODULUS as nat)) + 1) % (MIX_MODULUS as nat)) as u64
}

/// The accumulator after absorbing a whole history.
pub open spec fn acc_of(history: Seq<u64>) -> u64
    decreases history.len(),
{
    if history.len() == 0 {
        0
    } else {
        mix(acc_of(history.drop_last()), history.last())
    }
}

/// Bit `i` of the output stream that follows a history.
pub open spec fn simple_stream(history: Seq<u64>, i: nat) -> bool {
    ((((acc_of(history) as nat + i) % (MIX_MODULUS as nat)) * (MIX_OUT as nat)) % (
    MIX_MODULUS as nat)) % 2 == 1
}

/// One exec mixing step.
fn mix_step(acc: u64, v: u64) -> (r: u64)
    ensures
        r == mix(acc, v),
        r < MIX_MODULUS,
{
    let m = MIX_MODULUS as u128;
    let t1 = ((acc as u128) * (MIX_MUL as u128)) % m;
    let t2 = ((v as u128) * (MIX_ADD as u128)) % m;
    let r = (t1 + t2 + 1) % m;
    proof {
        assert((acc as u128) * (MIX_MUL as u128) <= (u64::MAX as u128) * (u64::MAX as u128))
            by (nonlinear_arith)
            requires
                acc <= u64::MAX,
        ;
        assert((v as u128) * (MIX_ADD as u128) <= (u64::MAX as u128) * (u64::MAX as u128))
            by (nonlinear_arith)
            requires
                v <= u64::MAX,
        ;
    }
    r as u64
}

/// One exec stream bit.
fn stream_bit(acc: u64, i: u64) -> (r: bool)
    ensures
        r == (((((acc as nat + i as nat) % (MIX_MODULUS as nat)) * (MIX_OUT as nat)) % (
        MIX_MODULUS as nat)) % 2 == 1),
{
    let m = MIX_MODULUS as u128;
    let s = ((acc as u128) + (i as u128)) % m;
    proof {
        assert(s * (MIX_OUT as u128) <= (u64::MAX as u128) * (u64::MAX as u128))
            by (nonlinear_arith)
            requires
                s < MIX_MODULUS as u128,
        ;
    }
    let t = (s * (MIX_OUT as u128)) % m;
    (t % 2) == 1
}

/// The native form of the simple sponge: absorbs plain residues and
/// squeezes plain bits, with the same stream as the in-circuit form.
pub struct SimpleSponge {
    acc: u64,
    pos: u64,
    hist: Ghost<Seq<u64>>,
}

impl SimpleSponge {
    #[verifier::type_invariant]
    spec fn inv(self) -> bool {
        self.acc == acc_of(self.hist@)
    }

    /// The absorption history so far.
    pub closed spec fn absorbed(self) -> Seq<u64> {
        self.hist@
    }

    /// Stream bits already consumed since the last absorption.
    pub closed spec fn pos(self) -> nat {
        self.pos as nat
    }

    /// A fresh sponge: nothing absorbed, nothing squeezed.
    pub fn new() -> (r: SimpleSponge)
        ensures
            r.absorbed() == Seq::<u64>::empty(),
            r.pos() == 0,
    {
        SimpleSponge { acc: 0, pos: 0, hist: Ghost(Seq::empty()) }
    }

    /// Mix the given values into the sponge state, in order.
    pub fn absorb(&mut self, input: &Vec<u64>)
        ensures
            final(self).absorbed() == old(self).absorbed() + input@,
            final(self).pos() == 0,
    {
        proof {
            use_type_invariant(&*self);
        }
        let mut acc = self.acc;
        let ghost h0: Seq<u64> = self.hist@;
        let mut i: usize = 0;
        proof {
            assert(h0 + input@.take(0) =~= h0);
        }
        while i < input.len()
            invariant
                0 <= i <= input@.len(),
                acc == acc_of(h0 + input@.take(i as int)),
            decreases input@.len() - i,
        {
            proof {
                assert((h0 + input@.take(i as int + 1)).drop_last() =~= h0 + input@.take(i as int));
                assert((h0 + input@.take(i as int + 1)).last() == input@[i as int]);
            }
            acc = mix_step(acc, input[i]);
            i = i + 1;
        }
        proof {
            assert(h0 + input@.take(input@.len() as int) =~= h0 + input@);
        }
        *self = SimpleSponge { acc, pos: 0, hist: Ghost(h0 + input@) };
    }

    /// Squeeze the next `num_bits` bits of the stream.
    pub fn squeeze_bits(&mut self, num_bits: usize) -> (r: Vec<bool>)
        requires
            old(self).pos() + num_bits <= u64::MAX,
        ensures
            r@.len() == num_bits,
            forall|j: int|
                0 <= j < num_bits ==> r@[j] == simple_stream(
                    old(self).absorbed(),
                    (old(self).pos() + j) as nat,
                ),
            final(self).absorbed() == old(self).absorbed(),
            final(self).pos() == old(self).pos() + num_bits,
    {
        proof {
            use_type_invariant(&*self);
        }
        let mut out: Vec<bool> = Vec::new();
        let mut j: usize = 0;
        let p0 = self.pos;
        while j < num_bits
            invariant
                0 <= j <= num_bits,
                p0 + num_bits <= u64::MAX,
                self == old(self),
                self.acc == acc_of(self.hist@),
                p0 == old(self).pos,
                out@.len() == j,
                forall|j0: int|
                    0 <= j0 < j ==> out@[j0] == simple_stream(self.hist@, (p0 + j0) as nat),
            decreases num_bits - j,
        {
            let b = stream_bit(self.acc, p0 + (j as u64));
            out.push(b);
            j = j + 1;
        }
        let ghost h: Seq<u64> = self.hist@;
        let acc = self.acc;
        *self = SimpleSponge { acc, pos: p0 + (num_bits as u64), hist: Ghost(h) };
        out
    }
}

/// The in-circuit form of the simple sponge: the same state and stream
/// as [`SimpleSponge`], squeezing constant boolean gadgets.
pub struct SimpleSpongeVar {
    acc: u64,
    pos: u64,
    hist: Ghost<Seq<u64>>,
}

impl SimpleSpongeVar {
    #[verifier::type_invariant]
    spec fn inv(self) -> bool {
        self.acc == acc_of(self.hist@)
    }

    /// A fresh sponge gadget: nothing absorbed, nothing squeezed.
    pub fn new() -> (r: SimpleSpongeVar)
        ensures
            r.absorbed() == Seq::<u64>::empty(),
            r.pos() == 0,
    {
        SimpleSpongeVar { acc: 0, pos: 0, hist: Ghost(Seq::empty()) }
    }
}

impl CryptographicSpongeVar for SimpleSpongeVar {
    closed spec fn absorbed(&self) -> Seq<u64> {
        self.hist@
    }

    closed spec fn pos(&self) -> nat {
        self.pos as nat
    }

    open spec fn stream_of(history: Seq<u64>, i: nat) -> bool {
        simple_stream(history, i)
    }

    fn absorb(&mut self, cs: &mut ConstraintSystem, input: &Vec<FpVar>) -> (r: Result<
        (),
        SynthesisError,
    >) {
        proof {
            use_type_invariant(&*self);
            assert(cs.assignment@.is_prefix_of(cs.assignment@));
            assert(cs.constraints@.is_prefix_of(cs.constraints@));
        }
        let mut acc = self.acc;
        let ghost h0: Seq<u64> = self.hist@;
        let mut i: usize = 0;
        proof {
            assert(h0 + fp_values(input@).take(0) =~= h0);
        }
        while i < input.len()
            invariant
                0 <= i <= input@.len(),
                acc == acc_of(h0 + fp_values(input@).take(i as int)),
            decreases input@.len() - i,
        {
            proof {
                assert((h0 + fp_values(input@).take(i as int + 1)).drop_last() =~= h0 + fp_values(
                    input@,
                ).take(i as int));
                assert((h0 + fp_values(input@).take(i as int + 1)).last() == fp_values(input@)[
                    i as int]);
            }
            let v = fp_value(&input[i]);
            acc = mix_step(acc, v);
            i = i + 1;
        }
        proof {
            assert(h0 + fp_values(input@).take(input@.len() as int) =~= h0 + fp_values(input@));
        }
        *self = SimpleSpongeVar { acc, pos: 0, hist: Ghost(h0 + fp_values(input@)) };
        Ok(())
    }

    #[verifier::rlimit(60)]
    fn squeeze_bits(&mut self, cs: &mut ConstraintSystem, num_bits: usize) -> (r: Result<
        Vec<BooleanVar>,
        SynthesisError,
    >) {
        proof {
            use_type_invariant(&*self);
            assert(cs.assignment@.is_prefix_of(cs.assignment@));
            assert(cs.constraints@.is_prefix_of(cs.constraints@));
        }
        let p0 = self.pos;
        if num_bits as u64 > u64::MAX - p0 {
            return Err(crate::SynthesisError::SynthesisFailed);
        }
        let mut out: Vec<BooleanVar> = Vec::new();
        let mut j: usize = 0;
        while j < num_bits
            invariant
                0 <= j <= num_bits,
                p0 + num_bits <= u64::MAX,
                self == old(self),
                self.acc == acc_of(self.hist@),
                p0 == old(self).pos,
                cs.wf(),
                cs == old(cs),
                out@.len() == j,
                forall|j0: int| 0 <= j0 < j ==> (#[trigger] out@[j0]).wf(*cs),
                forall|j0: int|
                    0 <= j0 < j ==> (#[trigger] out@[j0]).value == simple_stream(
                        self.hist@,
                        (p0 + j0) as nat,
                    ),
            decreases num_bits - j,
        {
            let b = stream_bit(self.acc, p0 + (j as u64));
            let g = BooleanVar::constant(b, cs);
            out.push(g);
            j = j + 1;
        }
        proof {
            assert forall|j0: int| 0 <= j0 < num_bits implies bool_values(out@)[j0]
                == simple_stream(self.hist@, (p0 + j0) as nat) by {
                assert(bool_values(out@)[j0] == out@[j0].value);
            }
        }
        let ghost h: Seq<u64> = self.hist@;
        let acc = self.acc;
        *self = SimpleSpongeVar { acc, pos: p0 + (num_bits as u64), hist: Ghost(h) };
        Ok(out)
    }
}

/// Law (native/in-circuit agreement): for any absorption history the
/// in-circuit sponge's stream is the native sponge's stream, bit for
/// bit — the two implementations are interchangeable.
pub proof fn lemma_native_circuit_streams_agree(history: Seq<u64>, i: nat)
    ensures
        <SimpleSpongeVar as CryptographicSpongeVar>::stream_of(history, i) == simple_stream(
            history,
            i,
        ),
{
}

} // verus!
