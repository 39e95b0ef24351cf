//! The generic sponge-gadget interface: the primitives any concrete
//! in-circuit sponge must provide, and the shared, interface-level
//! algorithms for squeezing bytes, native field elements and non-native
//! field elements out of the primitive bit stream.
//!
//! An implementation supplies a model of its state — the absorption
//! history, the number of stream bits already consumed, and its
//! deterministic output stream — and two operations: `absorb` and
//! `squeeze_bits`.  Everything else is derived from the bit stream,
//! which is the only primitive the interface needs pseudorandomness
//! from.

use vstd::prelude::*;
use vstd::arithmetic::power2::*;
use crate::arith::bits_value;
use crate::constraints::{
    bits_le_to_nonnative, fits_without_wrap, output_gadget_ok, rec_bpl, rec_nl, spec_max_len,
};
use crate::gadgets::{
    BooleanVar, FpVar, UInt8Var, bool_values, bool_vars_wf, cs_extends, fp_values, fp_vars_wf,
    lemma_boolean_wf_extends,
};
use crate::nonnative::{NonNativeFieldVar, TargetField};
use crate::r1cs::ConstraintSystem;
use crate::SynthesisError;

verus! {

/// How large one squeezed element of a target field should be.
#[derive(Clone, Copy, Debug, PartialEq, Eq, Structural)]
pub enum FieldElementSize {
    /// The element's full native bit length for its field.
    Full,
    /// The element must fit in the given number of bits.
    Truncated { num_bits: usize },
}

impl FieldElementSize {
    /// Bits consumed for one element of a field of `target_bits` bits.
    pub open spec fn spec_num_bits(self, target_bits: nat) -> nat {
        match self {
            FieldElementSize::Full => target_bits,
            FieldElementSize::Truncated { num_bits } => num_bits as nat,
        }
    }

    pub fn num_bits(self, target: &TargetField) -> (r: usize)
        requires
            target.wf(),
        ensures
            r == self.spec_num_bits(target.bit_size()),
    {
        match self {
            FieldElementSize::Full => crate::arith::bit_length(target.modulus),
            FieldElementSize::Truncated { num_bits } => num_bits,
        }
    }
}

/// Total bits consumed by a size list.
pub open spec fn total_bits(sizes: Seq<FieldElementSize>, target_bits: nat) -> nat
    decreases sizes.len(),
{
    if sizes.len() == 0 {
        0
    } else {
        total_bits(sizes.drop_last(), target_bits) + sizes.last().spec_num_bits(target_bits)
    }
}

/// Bits consumed before chunk `i` of a size list.
pub open spec fn offset_of(sizes: Seq<FieldElementSize>, target_bits: nat, i: int) -> nat {
    total_bits(sizes.take(i), target_bits)
}

/// The largest single size in a list.
pub open spec fn max_size_bits(sizes: Seq<FieldElementSize>, target_bits: nat) -> nat
    decreases sizes.len(),
{
    if sizes.len() == 0 {
        0
    } else {
        let rest = max_size_bits(sizes.drop_last(), target_bits);
        if sizes.last().spec_num_bits(target_bits) > rest {
            sizes.last().spec_num_bits(target_bits)
        } else {
            rest
        }
    }
}

pub proof fn lemma_total_bits_take_le(sizes: Seq<FieldElementSize>, target_bits: nat, i: int)
    requires
        0 <= i <= sizes.len(),
    ensures
        total_bits(sizes.take(i), target_bits) <= total_bits(sizes, target_bits),
    decreases sizes.len(),
{
    if i < sizes.len() {
        assert(sizes.drop_last().take(i) =~= sizes.take(i));
        lemma_total_bits_take_le(sizes.drop_last(), target_bits, i);
    } else {
        assert(sizes.take(i) =~= sizes);
    }
}

/// For a list of full-size descriptors, the chunk offsets are multiples
/// of the field's bit length.
pub proof fn lemma_total_bits_uniform(sizes: Seq<FieldElementSize>, target_bits: nat, i: int)
    requires
        0 <= i <= sizes.len(),
        forall|k: int| 0 <= k < sizes.len() ==> #[trigger] sizes[k] == FieldElementSize::Full,
    ensures
        total_bits(sizes.take(i), target_bits) == i * target_bits,
    decreases i,
{
    if i > 0 {
        assert(sizes.take(i).drop_last() =~= sizes.take(i - 1));
        assert(sizes.take(i).last() == sizes[i - 1]);
        lemma_total_bits_uniform(sizes, target_bits, i - 1);
        assert(i * target_bits == (i - 1) * target_bits + target_bits) by (nonlinear_arith);
    } else {
        assert(sizes.take(0) =~= Seq::<FieldElementSize>::empty());
        assert(0 * target_bits == 0) by (nonlinear_arith);
    }
}

pub proof fn lemma_max_size_ge(sizes: Seq<FieldElementSize>, target_bits: nat, i: int)
    requires
        0 <= i < sizes.len(),
    ensures
        sizes[i].spec_num_bits(target_bits) <= max_size_bits(sizes, target_bits),
    decreases sizes.len(),
{
    if i < sizes.len() - 1 {
        lemma_max_size_ge(sizes.drop_last(), target_bits, i);
    }
}

/// If every sequence in a batch is no longer than `bound`, so is the
/// batch's maximum.
pub proof fn lemma_max_len_le(all: Seq<Vec<BooleanVar>>, bound: nat)
    requires
        forall|i: int| 0 <= i < all.len() ==> (#[trigger] all[i])@.len() <= bound,
    ensures
        spec_max_len(all) <= bound,
    decreases all.len(),
{
    if all.len() > 0 {
        lemma_max_len_le(all.drop_last(), bound);
    }
}

/// Move the first `m` gadget bits out of a vector, preserving order.
pub fn take_front(bits: &mut Vec<BooleanVar>, m: usize) -> (r: Vec<BooleanVar>)
    requires
        old(bits)@.len() >= m,
    ensures
        r@ == old(bits)@.take(m as int),
        final(bits)@ == old(bits)@.skip(m as int),
{
    let mut out: Vec<BooleanVar> = Vec::new();
    let mut t: usize = 0;
    proof {
        assert(out@ =~= old(bits)@.take(0));
        assert(bits@ =~= old(bits)@.skip(0));
    }
    while t < m
        invariant
            0 <= t <= m,
            m <= old(bits)@.len(),
            out@ == old(bits)@.take(t as int),
            bits@ == old(bits)@.skip(t as int),
        decreases m - t,
    {
        let b = bits.remove(0);
        out.push(b);
        proof {
            assert(out@ =~= old(bits)@.take(t as int + 1));
            assert(bits@ =~= old(bits)@.skip(t as int + 1));
        }
        t = t + 1;
    }
    out
}

/// The interface for an in-circuit cryptographic sponge.  A sponge can
/// `absorb` inputs and later squeeze bits, bytes or field elements; the
/// outputs are a deterministic stream derived from all prior
/// absorptions, advancing with every squeeze.
pub trait CryptographicSpongeVar: Sized {
    /// The flattened values of all field elements absorbed so far.
    spec fn absorbed(&self) -> Seq<u64>;

    /// Stream bits already consumed since the last absorption.
    spec fn pos(&self) -> nat;

    /// The implementation's deterministic output stream after a given
    /// absorption history.
    spec fn stream_of(history: Seq<u64>, i: nat) -> bool;

    /// Mix the given circuit-field elements into the sponge state.  The
    /// order of elements, and the order across calls, both matter: the
    /// absorption history records them in sequence.
    fn absorb(&mut self, cs: &mut ConstraintSystem, input: &Vec<FpVar>) -> (r: Result<
        (),
        SynthesisError,
    >)
        requires
            old(cs).wf(),
            fp_vars_wf(input@, *old(cs)),
        ensures
            final(cs).wf(),
            cs_extends(*final(cs), *old(cs)),
            r is Ok ==> final(self).absorbed() == old(self).absorbed() + fp_values(input@)
                && final(self).pos() == 0,
            r is Err ==> final(self).absorbed() == old(self).absorbed() && final(self).pos()
                == old(self).pos(),
    ;

    /// Squeeze `num_bits` pseudorandom circuit bits: the next bits of
    /// the stream that follows everything absorbed so far.
    fn squeeze_bits(&mut self, cs: &mut ConstraintSystem, num_bits: usize) -> (r: Result<
        Vec<BooleanVar>,
        SynthesisError,
    >)
        requires
            old(cs).wf(),
        ensures
            final(cs).wf(),
            cs_extends(*final(cs), *old(cs)),
            final(self).absorbed() == old(self).absorbed(),
            r is Err ==> final(self).pos() == old(self).pos(),
            r is Ok ==> ({
                let bits = r->Ok_0;
                &&& bits@.len() == num_bits
                &&& bool_vars_wf(bits@, *final(cs))
                &&& forall|j: int|
                    0 <= j < num_bits ==> bool_values(bits@)[j] == Self::stream_of(
                        old(self).absorbed(),
                        (old(self).pos() + j) as nat,
                    )
                &&& final(self).pos() == old(self).pos() + num_bits
            }),
    ;

    /// Squeeze `num_bytes` bytes: eight stream bits each, least
    /// significant bit first.
    #[verifier::loop_isolation(false)]
    fn squeeze_bytes(&mut self, cs: &mut ConstraintSystem, num_bytes: usize) -> (r: Result<
        Vec<UInt8Var>,
        SynthesisError,
    >)
        requires
            old(cs).wf(),
            num_bytes * 8 <= usize::MAX,
        ensures
            final(cs).wf(),
            cs_extends(*final(cs), *old(cs)),
            final(self).absorbed() == old(self).absorbed(),
            r is Err ==> final(self).pos() == old(self).pos(),
            r is Ok ==> ({
                let bytes = r->Ok_0;
                &&& bytes@.len() == num_bytes
                &&& forall|i: int|
                    0 <= i < num_bytes ==> (#[trigger] bytes@[i]).wf(*final(cs)) && (forall|
                        j: int,
                    |
                        0 <= j < 8 ==> bool_values(bytes@[i].bits@)[j] == Self::stream_of(
                            old(self).absorbed(),
                            (old(self).pos() + i * 8 + j) as nat,
                        ))
                &&& final(self).pos() == old(self).pos() + num_bytes * 8
            }),
    {
        let total = num_bytes * 8;
        let ghost h: Seq<u64> = self.absorbed();
        let ghost p0: nat = self.pos();
        let bits_r = self.squeeze_bits(cs, total);
        let mut bits = match bits_r {
            Ok(b) => b,
            Err(e) => {
                return Err(e);
            },
        };
        let ghost all_bits: Seq<BooleanVar> = bits@;
        let mut bytes: Vec<UInt8Var> = Vec::new();
        let mut i: usize = 0;
        proof {
            assert(bits@ =~= all_bits.skip(0));
        }
        while i < num_bytes
            invariant
                0 <= i <= num_bytes,
                num_bytes * 8 <= usize::MAX,
                all_bits.len() == num_bytes * 8,
                bits@ == all_bits.skip(i as int * 8),
                bool_vars_wf(all_bits, *cs),
                forall|j: int|
                    0 <= j < all_bits.len() ==> bool_values(all_bits)[j] == Self::stream_of(
                        h,
                        (p0 + j) as nat,
                    ),
                bytes@.len() == i,
                forall|i0: int|
                    0 <= i0 < i ==> (#[trigger] bytes@[i0]).wf(*cs) && (forall|j: int|
                        0 <= j < 8 ==> bool_values(bytes@[i0].bits@)[j] == Self::stream_of(
                            h,
                            (p0 + i0 * 8 + j) as nat,
                        )),
            decreases num_bytes - i,
        {
            proof {
                assert(i as int * 8 + 8 <= num_bytes * 8) by (nonlinear_arith)
                    requires
                        i < num_bytes,
                ;
                assert((i + 1) as int * 8 == i as int * 8 + 8);

            }
            let chunk = take_front(&mut bits, 8);
            let byte = UInt8Var { bits: chunk };
            proof {
                assert(byte.bits@ =~= all_bits.skip(i as int * 8).take(8));
                assert forall|j: int| 0 <= j < 8 implies byte.bits@[j] == all_bits[i as int * 8
                    + j] by {}
                assert forall|j: int| 0 <= j < 8 implies bool_values(byte.bits@)[j]
                    == Self::stream_of(h, (p0 + i as int * 8 + j) as nat) by {
                    assert(bool_values(all_bits)[i as int * 8 + j] == Self::stream_of(
                        h,
                        (p0 + i as int * 8 + j) as nat,
                    ));
                }
                assert(bits@ =~= all_bits.skip((i + 1) as int * 8));
            }
            bytes.push(byte);
            i = i + 1;
        }
        Ok(bytes)
    }

    /// Squeeze `num_elements` native field elements, each assembled from
    /// the next `bit_length(modulus) - 1` stream bits so that it is a
    /// reduced residue of the circuit field.
    fn squeeze_field_elements(&mut self, cs: &mut ConstraintSystem, num_elements: usize) -> (r:
        Result<Vec<FpVar>, SynthesisError>)
        requires
            old(cs).wf(),
            num_elements * (crate::arith::spec_bit_length(old(cs).modulus as nat) - 1)
                <= usize::MAX,
        ensures
            final(cs).wf(),
            cs_extends(*final(cs), *old(cs)),
            final(self).absorbed() == old(self).absorbed(),
            r is Err ==> final(self).pos() == old(self).pos(),
            r is Ok ==> ({
                let elems = r->Ok_0;
                let m = (crate::arith::spec_bit_length(old(cs).modulus as nat) - 1) as nat;
                &&& elems@.len() == num_elements
                &&& fp_vars_wf(elems@, *final(cs))
                &&& forall|i: int|
                    0 <= i < num_elements ==> (#[trigger] elems@[i]).value_of() as nat
                        == bits_value(
                        Seq::new(
                            m,
                            |j: int|
                                Self::stream_of(
                                    old(self).absorbed(),
                                    (old(self).pos() + i * m + j) as nat,
                                ),
                        ),
                    )
                &&& final(self).pos() == old(self).pos() + num_elements * m
            }),
    {
        let bb = crate::arith::bit_length(cs.modulus);
        let m = bb - 1;
        let p = cs.modulus;
        let total = num_elements * m;
        let ghost h: Seq<u64> = self.absorbed();
        let ghost p0: nat = self.pos();
        let bits_r = self.squeeze_bits(cs, total);
        let mut bits = match bits_r {
            Ok(b) => b,
            Err(e) => {
                return Err(e);
            },
        };
        let ghost all_bits: Seq<BooleanVar> = bits@;
        let mut elems: Vec<FpVar> = Vec::new();
        let mut i: usize = 0;
        proof {
            assert(bits@ =~= all_bits.skip(0));
            crate::arith::lemma_bit_length_bounds(p as nat);
        }
        while i < num_elements
            invariant
                0 <= i <= num_elements,
                p == cs.modulus,
                cs.wf(),
                bb == crate::arith::spec_bit_length(p as nat),
                m == bb - 1,
                bb >= 1,
                bb <= 64,
                m <= 63,
                pow2((bb - 1) as nat) <= p,
                num_elements * m <= usize::MAX,
                all_bits.len() == num_elements * m,
                bits@ == all_bits.skip(i as int * m),
                bool_vars_wf(all_bits, *cs),
                forall|j: int|
                    0 <= j < all_bits.len() ==> bool_values(all_bits)[j] == Self::stream_of(
                        h,
                        (p0 + j) as nat,
                    ),
                elems@.len() == i,
                fp_vars_wf(elems@, *cs),
                forall|i0: int|
                    0 <= i0 < i ==> (#[trigger] elems@[i0]).value_of() as nat == bits_value(
                        Seq::new(
                            m as nat,
                            |j: int| Self::stream_of(h, (p0 + i0 * m + j) as nat),
                        ),
                    ),
            decreases num_elements - i,
        {
            proof {
                assert(i as int * m + m <= num_elements * m) by (nonlinear_arith)
                    requires
                        i < num_elements,
                ;
                assert((i + 1) as int * m == i as int * m + m) by (nonlinear_arith);
            }
            let chunk = take_front(&mut bits, m);
            let ghost cbv: Seq<bool> = bool_values(chunk@);
            proof {
                assert(chunk@ =~= all_bits.skip(i as int * m).take(m as int));
                assert forall|j: int| 0 <= j < m implies chunk@[j] == all_bits[i as int * m
                    + j] by {}
                assert(cbv =~= Seq::new(
                    m as nat,
                    |j: int| Self::stream_of(h, (p0 + i as int * m + j) as nat),
                )) by {
                    assert forall|j: int| 0 <= j < m implies cbv[j] == Self::stream_of(
                        h,
                        (p0 + i as int * m + j) as nat,
                    ) by {
                        assert(bool_values(all_bits)[i as int * m + j] == Self::stream_of(
                            h,
                            (p0 + i as int * m + j) as nat,
                        ));
                    }
                }
            }
            // assemble the chunk's value, least significant bit first
            let mut val: u64 = 0;
            let mut j: usize = 0;
            proof {
                assert(cbv.take(0) =~= Seq::<bool>::empty());
                lemma2_to64();
                assert(pow2(0) == 1);
            }
            while j < m
                invariant
                    0 <= j <= m,
                    m <= 63,
                    chunk@.len() == m,
                    cbv == bool_values(chunk@),
                    val as nat == bits_value(cbv.take(j as int)),
                    val < pow2(j as nat),
                decreases m - j,
            {
                proof {
                    assert(cbv.take(j as int + 1).drop_last() =~= cbv.take(j as int));
                    assert(cbv.take(j as int + 1).last() == chunk@[j as int].value);
                    lemma_pow2_unfold((j + 1) as nat);
                }
                if chunk[j].value {
                    let pw = crate::arith::pow2_u64(j);
                    proof {
                        crate::arith::lemma_pow2_ordered((j + 1) as nat, 63);
                        vstd::arithmetic::power2::lemma2_to64_rest();
                    }
                    val = val + pw;
                }
                j = j + 1;
            }
            proof {
                assert(cbv.take(m as int) =~= cbv);
                crate::arith::lemma_pow2_ordered(m as nat, (bb - 1) as nat);
            }
            elems.push(FpVar::Constant(val));
            i = i + 1;
        }
        Ok(elems)
    }

    /// Squeeze non-native field elements of the given sizes: the total
    /// bit count is squeezed in one call, partitioned into contiguous
    /// chunks in size order, and each chunk is reconstructed into a
    /// target-field gadget.  Both the gadgets and the raw bit chunks are
    /// returned.  An empty size list returns empty results without
    /// squeezing.
    #[verifier::loop_isolation(false)]
    fn squeeze_nonnative_field_elements_with_sizes(
        &mut self,
        cs: &mut ConstraintSystem,
        target: &TargetField,
        sizes: &Vec<FieldElementSize>,
    ) -> (r: Result<(Vec<NonNativeFieldVar>, Vec<Vec<BooleanVar>>), SynthesisError>)
        requires
            old(cs).wf(),
            old(cs).modulus >= 4,
            target.wf(),
            total_bits(sizes@, target.bit_size()) <= usize::MAX,
            fits_without_wrap(
                old(cs).modulus as nat,
                *target,
                max_size_bits(sizes@, target.bit_size()),
            ),
        ensures
            final(cs).wf(),
            cs_extends(*final(cs), *old(cs)),
            final(cs).modulus == old(cs).modulus,
            final(self).absorbed() == old(self).absorbed(),
            sizes@.len() == 0 ==> r is Ok,
            r is Err ==> final(self).pos() == old(self).pos(),
            r is Ok ==> ({
                let gadgets = r->Ok_0.0;
                let chunks = r->Ok_0.1;
                let tb = target.bit_size();
                let p = old(cs).modulus as nat;
                &&& gadgets@.len() == sizes@.len()
                &&& chunks@.len() == sizes@.len()
                &&& forall|i: int|
                    0 <= i < sizes@.len() ==> (#[trigger] chunks@[i])@.len()
                        == sizes@[i].spec_num_bits(tb)
                &&& forall|i: int, j: int|
                    0 <= i < sizes@.len() && 0 <= j < sizes@[i].spec_num_bits(tb)
                        ==> #[trigger] bool_values((chunks@[i])@)[j] == Self::stream_of(
                        old(self).absorbed(),
                        (old(self).pos() + offset_of(sizes@, tb, i) + j) as nat,
                    )
                &&& forall|i: int|
                    0 <= i < sizes@.len() ==> bool_vars_wf((#[trigger] chunks@[i])@, *final(cs))
                &&& forall|i: int|
                    0 <= i < sizes@.len() ==> output_gadget_ok(
                        #[trigger] gadgets@[i],
                        bool_values(chunks@[i]@),
                        *target,
                        rec_nl(p, *target),
                        rec_bpl(p, *target),
                        *final(cs),
                    )
                &&& final(self).pos() == old(self).pos() + total_bits(sizes@, tb)
                &&& sizes@.len() == 0 ==> final(cs).assignment@ == old(cs).assignment@
                    && final(cs).constraints@ == old(cs).constraints@ && final(self).pos() == old(
                    self,
                ).pos()
            }),
    {
        if sizes.len() == 0 {
            proof {
                assert(cs.assignment@.is_prefix_of(cs.assignment@));
                assert(cs.constraints@.is_prefix_of(cs.constraints@));
            }
            return Ok((Vec::new(), Vec::new()));
        }
        let ghost tb: nat = target.bit_size();
        let ghost h: Seq<u64> = self.absorbed();
        let ghost p0: nat = self.pos();
        // total bits over all sizes
        let mut total: usize = 0;
        let mut si: usize = 0;
        while si < sizes.len()
            invariant
                0 <= si <= sizes@.len(),
                target.wf(),
                tb == target.bit_size(),
                total == total_bits(sizes@.take(si as int), tb),
                total_bits(sizes@, tb) <= usize::MAX,
            decreases sizes@.len() - si,
        {
            proof {
                assert(sizes@.take(si as int + 1).drop_last() =~= sizes@.take(si as int));
                assert(sizes@.take(si as int + 1).last() == sizes@[si as int]);
                lemma_total_bits_take_le(sizes@, tb, si as int + 1);
            }
            let nb = sizes[si].num_bits(target);
            total = total + nb;
            si = si + 1;
        }
        proof {
            assert(sizes@.take(sizes@.len() as int) =~= sizes@);
        }

        let bits_r = self.squeeze_bits(cs, total);
        let mut bits = match bits_r {
            Ok(b) => b,
            Err(e) => {
                return Err(e);
            },
        };
        let ghost all_bits: Seq<BooleanVar> = bits@;
        let ghost cs_sq: ConstraintSystem = *cs;

        let mut dest_bits: Vec<Vec<BooleanVar>> = Vec::new();
        let mut i: usize = 0;
        proof {
            assert(bits@ =~= all_bits.skip(0));
            assert(offset_of(sizes@, tb, 0) == 0) by {
                assert(sizes@.take(0) =~= Seq::<FieldElementSize>::empty());
            }
        }
        while i < sizes.len()
            invariant
                0 <= i <= sizes@.len(),
                target.wf(),
                tb == target.bit_size(),
                cs.wf(),
                *cs == cs_sq,
                total == total_bits(sizes@, tb),
                all_bits.len() == total,
                bool_vars_wf(all_bits, *cs),
                forall|j: int|
                    0 <= j < all_bits.len() ==> bool_values(all_bits)[j] == Self::stream_of(
                        h,
                        (p0 + j) as nat,
                    ),
                bits@ == all_bits.skip(offset_of(sizes@, tb, i as int) as int),
                dest_bits@.len() == i,
                forall|i0: int|
                    0 <= i0 < i ==> (#[trigger] dest_bits@[i0])@.len()
                        == sizes@[i0].spec_num_bits(tb),
                forall|i0: int, j: int|
                    0 <= i0 < i && 0 <= j < sizes@[i0].spec_num_bits(tb) ==> #[trigger] bool_values(
                        (dest_bits@[i0])@,
                    )[j] == Self::stream_of(h, (p0 + offset_of(sizes@, tb, i0) + j) as nat),
                forall|i0: int|
                    0 <= i0 < i ==> bool_vars_wf((#[trigger] dest_bits@[i0])@, *cs),
            decreases sizes@.len() - i,
        {
            let nb = sizes[i].num_bits(target);
            proof {
                assert(sizes@.take(i as int + 1).drop_last() =~= sizes@.take(i as int));
                assert(sizes@.take(i as int + 1).last() == sizes@[i as int]);
                assert(offset_of(sizes@, tb, i as int + 1) == offset_of(sizes@, tb, i as int)
                    + sizes@[i as int].spec_num_bits(tb));
                lemma_total_bits_take_le(sizes@, tb, i as int + 1);
                assert(bits@.len() >= nb);
            }
            let chunk = take_front(&mut bits, nb);
            proof {
                let off = offset_of(sizes@, tb, i as int) as int;
                assert(chunk@ =~= all_bits.skip(off).take(nb as int));
                assert forall|j: int| 0 <= j < nb implies chunk@[j] == all_bits[off + j] by {}
                assert forall|j: int| 0 <= j < nb implies bool_values(chunk@)[j]
                    == Self::stream_of(h, (p0 + offset_of(sizes@, tb, i as int) + j) as nat) by {
                    assert(bool_values(all_bits)[off + j] == Self::stream_of(
                        h,
                        (p0 + off + j) as nat,
                    ));
                }
                assert(bits@ =~= all_bits.skip(offset_of(sizes@, tb, i as int + 1) as int));
            }
            dest_bits.push(chunk);
            i = i + 1;
        }

        proof {
            assert forall|i0: int| 0 <= i0 < dest_bits@.len() implies (#[trigger] dest_bits@[
            i0])@.len() <= max_size_bits(sizes@, tb) by {
                lemma_max_size_ge(sizes@, tb, i0);
            }
            lemma_max_len_le(dest_bits@, max_size_bits(sizes@, tb));
            lemma_pow2_pos(rec_bpl(cs.modulus as nat, *target));
            vstd::arithmetic::mul::lemma_mul_inequality(
                spec_max_len(dest_bits@) as int,
                max_size_bits(sizes@, tb) as int,
                (pow2(rec_bpl(cs.modulus as nat, *target)) - 1) as int,
            );
        }
        let dest_gadgets_r = bits_le_to_nonnative(cs, target, &dest_bits);
        let dest_gadgets = match dest_gadgets_r {
            Ok(g) => g,
            Err(e) => {
                return Err(e);
            },
        };
        proof {
            assert forall|i0: int| 0 <= i0 < sizes@.len() implies bool_vars_wf(
                (#[trigger] dest_bits@[i0])@,
                *cs,
            ) by {
                assert forall|j: int| 0 <= j < dest_bits@[i0]@.len() implies (
                #[trigger] dest_bits@[i0]@[j]).wf(*cs) by {
                    lemma_boolean_wf_extends(dest_bits@[i0]@[j], cs_sq, *cs);
                }
            }
        }
        proof {
            crate::gadgets::lemma_cs_extends_trans(*old(cs), cs_sq, *cs);
        }
        Ok((dest_gadgets, dest_bits))
    }

    /// Squeeze `num_elements` full-size non-native field elements: the
    /// sized squeeze with `num_elements` copies of the full descriptor.
    #[verifier::loop_isolation(false)]
    fn squeeze_nonnative_field_elements(
        &mut self,
        cs: &mut ConstraintSystem,
        target: &TargetField,
        num_elements: usize,
    ) -> (r: Result<(Vec<NonNativeFieldVar>, Vec<Vec<BooleanVar>>), SynthesisError>)
        requires
            old(cs).wf(),
            old(cs).modulus >= 4,
            target.wf(),
            num_elements * target.bit_size() <= usize::MAX,
            fits_without_wrap(old(cs).modulus as nat, *target, target.bit_size()),
        ensures
            final(cs).wf(),
            cs_extends(*final(cs), *old(cs)),
            final(cs).modulus == old(cs).modulus,
            final(self).absorbed() == old(self).absorbed(),
            num_elements == 0 ==> r is Ok,
            r is Err ==> final(self).pos() == old(self).pos(),
            r is Ok ==> ({
                let gadgets = r->Ok_0.0;
                let chunks = r->Ok_0.1;
                let tb = target.bit_size();
                let p = old(cs).modulus as nat;
                &&& gadgets@.len() == num_elements
                &&& chunks@.len() == num_elements
                &&& forall|i: int|
                    0 <= i < num_elements ==> (#[trigger] chunks@[i])@.len() == tb
                &&& forall|i: int, j: int|
                    0 <= i < num_elements && 0 <= j < tb ==> #[trigger] bool_values(
                        (chunks@[i])@,
                    )[j] == Self::stream_of(
                        old(self).absorbed(),
                        (old(self).pos() + i * tb + j) as nat,
                    )
                &&& forall|i: int|
                    0 <= i < num_elements ==> bool_vars_wf((#[trigger] chunks@[i])@, *final(cs))
                &&& forall|i: int|
                    0 <= i < num_elements ==> output_gadget_ok(
                        #[trigger] gadgets@[i],
                        bool_values(chunks@[i]@),
                        *target,
                        rec_nl(p, *target),
                        rec_bpl(p, *target),
                        *final(cs),
                    )
                &&& final(self).pos() == old(self).pos() + num_elements * tb
            }),
    {
        let mut sizes: Vec<FieldElementSize> = Vec::new();
        let mut i: usize = 0;
        let ghost tb: nat = target.bit_size();
        while i < num_elements
            invariant
                0 <= i <= num_elements,
                target.wf(),
                tb == target.bit_size(),
                sizes@.len() == i,
                forall|i0: int| 0 <= i0 < i ==> (#[trigger] sizes@[i0]) == FieldElementSize::Full,
                total_bits(sizes@, tb) == i * tb,
                max_size_bits(sizes@, tb) <= tb,
            decreases num_elements - i,
        {
            proof {
                assert((i + 1) as int * tb == i as int * tb + tb) by (nonlinear_arith);
            }
            let ghost prev: Seq<FieldElementSize> = sizes@;
            sizes.push(FieldElementSize::Full);
            proof {
                assert(sizes@.drop_last() =~= prev);
            }
            i = i + 1;
        }
        proof {
            lemma_pow2_pos(rec_bpl(cs.modulus as nat, *target));
            vstd::arithmetic::mul::lemma_mul_inequality(
                max_size_bits(sizes@, tb) as int,
                tb as int,
                (pow2(rec_bpl(cs.modulus as nat, *target)) - 1) as int,
            );
        }
        let r = self.squeeze_nonnative_field_elements_with_sizes(cs, target, &sizes);
        proof {
            if r is Ok {
                let chunks = r->Ok_0.1;
                assert forall|i0: int, j: int|
                    0 <= i0 < num_elements && 0 <= j < tb implies #[trigger] bool_values(
                    (chunks@[i0])@,
                )[j] == Self::stream_of(
                    old(self).absorbed(),
                    (old(self).pos() + i0 * tb + j) as nat,
                ) by {
                    lemma_total_bits_uniform(sizes@, tb, i0);
                    assert(offset_of(sizes@, tb, i0) == i0 * tb);
                }
            }
        }
        r
    }
}

} // verus!
