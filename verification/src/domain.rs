//! The domain-separation wrapper: adapts any sponge gadget into one
//! whose transcript is bound to a fixed protocol tag.
//!
//! The tag — the domain identifier encoded as constant circuit-field
//! elements — is absorbed into the wrapped sponge exactly once, lazily,
//! strictly before the first operation the wrapper forwards.  Constants
//! carry no witness cost.  The wrapper's own transcript model therefore
//! always reads `domain tag + payload`.

use vstd::prelude::*;
use crate::gadgets::{BooleanVar, FpVar, cs_extends, fp_values, fp_vars_wf};
use crate::r1cs::ConstraintSystem;
use crate::sponge::CryptographicSpongeVar;
use crate::SynthesisError;

verus! {

/// A sponge gadget wrapped with lazy, mandatory domain separation.
pub struct DomainSeparatedSpongeVar<S: CryptographicSpongeVar> {
    pub sponge: S,
    /// The domain tag, as circuit-field constants to absorb first.
    pub domain: Vec<u64>,
    /// Whether the tag has been absorbed into the wrapped sponge.
    pub domain_separated: bool,
}

impl<S: CryptographicSpongeVar> DomainSeparatedSpongeVar<S> {
    /// Wrap a fresh sponge, binding it to the given domain tag.
    pub fn new(sponge: S, domain: Vec<u64>) -> (r: Self)
        requires
            sponge.absorbed() == Seq::<u64>::empty(),
        ensures
            r.absorbed() == domain@,
            r.pos() == 0,
            !r.domain_separated,
            r.domain@ == domain@,
            r.sponge.absorbed() == Seq::<u64>::empty(),
    {
        let r = DomainSeparatedSpongeVar { sponge, domain, domain_separated: false };
        proof {
            assert(r.sponge.absorbed() + r.domain@ =~= r.domain@);
        }
        r
    }

    /// Absorb the domain tag into the wrapped sponge if it has not been
    /// absorbed yet; afterwards every forwarded operation follows it.
    fn try_separate_domain(&mut self, cs: &mut ConstraintSystem) -> (r: Result<
        (),
        SynthesisError,
    >)
        requires
            old(cs).wf(),
        ensures
            final(cs).wf(),
            cs_extends(*final(cs), *old(cs)),
            final(self).domain@ == old(self).domain@,
            old(self).domain_separated ==> r is Ok,
            r is Ok ==> final(self).domain_separated,
            r is Ok ==> final(self).sponge.absorbed() == old(self).absorbed(),
            r is Ok ==> final(self).sponge.pos() == old(self).pos(),
            r is Err ==> final(self).domain_separated == old(self).domain_separated,
            r is Err ==> final(self).sponge.absorbed() == old(self).sponge.absorbed(),
            r is Err ==> final(self).sponge.pos() == old(self).sponge.pos(),
    {
        if !self.domain_separated {
            let mut elems: Vec<FpVar> = Vec::new();
            let mut i: usize = 0;
            proof {
                assert(fp_values(elems@) =~= old(self).domain@.take(0));
            }
            while i < self.domain.len()
                invariant
                    *self == *old(self),
                    0 <= i <= self.domain@.len(),
                    elems@.len() == i,
                    fp_values(elems@) == old(self).domain@.take(i as int),
                    fp_vars_wf(elems@, *old(cs)),
                    *cs == *old(cs),
                decreases self.domain@.len() - i,
            {
                let v = self.domain[i];
                elems.push(FpVar::Constant(v));
                proof {
                    assert(fp_values(elems@) =~= old(self).domain@.take(i as int + 1));
                }
                i = i + 1;
            }
            proof {
                assert(old(self).domain@.take(old(self).domain@.len() as int)
                    =~= old(self).domain@);
            }
            let res = self.sponge.absorb(cs, &elems);
            match res {
                Ok(_) => {
                    self.domain_separated = true;
                    proof {
                        assert(self.sponge.absorbed() == old(self).sponge.absorbed()
                            + old(self).domain@);
                    }
                    Ok(())
                },
                Err(e) => Err(e),
            }
        } else {
            proof {
                assert(cs.assignment@.is_prefix_of(cs.assignment@));
                assert(cs.constraints@.is_prefix_of(cs.constraints@));
            }
            Ok(())
        }
    }
}

impl<S: CryptographicSpongeVar> CryptographicSpongeVar for DomainSeparatedSpongeVar<S> {
    /// The wrapper's transcript: the tag, then everything forwarded.
    /// Before separation the tag is still pending, so it is counted as
    /// already preceding any future payload.
    open spec fn absorbed(&self) -> Seq<u64> {
        if self.domain_separated {
            self.sponge.absorbed()
        } else {
            self.sponge.absorbed() + self.domain@
        }
    }

    open spec fn pos(&self) -> nat {
        if self.domain_separated {
            self.sponge.pos()
        } else {
            0
        }
    }

    open spec fn stream_of(history: Seq<u64>, i: nat) -> bool {
        S::stream_of(history, i)
    }

    fn absorb(&mut self, cs: &mut ConstraintSystem, input: &Vec<FpVar>) -> (r: Result<
        (),
        SynthesisError,
    >) {
        let sep = self.try_separate_domain(cs);
        match sep {
            Ok(_) => {
                let ghost mid: ConstraintSystem = *cs;
                let r = self.sponge.absorb(cs, input);
                proof {
                    assert(fp_vars_wf(input@, mid)) by {
                        assert forall|i: int| 0 <= i < input@.len() implies (
                        #[trigger] input@[i]).wf(mid) by {
                            crate::gadgets::lemma_fp_wf_extends(input@[i], *old(cs), mid);
                        }
                    }
                    crate::gadgets::lemma_cs_extends_trans(*old(cs), mid, *cs);
                }
                r
            },
            Err(e) => Err(e),
        }
    }

    fn squeeze_bits(&mut self, cs: &mut ConstraintSystem, num_bits: usize) -> (r: Result<
        Vec<BooleanVar>,
        SynthesisError,
    >) {
        let sep = self.try_separate_domain(cs);
        match sep {
            Ok(_) => {
                let ghost mid: ConstraintSystem = *cs;
                let r = self.sponge.squeeze_bits(cs, num_bits);
                proof {
                    crate::gadgets::lemma_cs_extends_trans(*old(cs), mid, *cs);
                }
                r
            },
            Err(e) => Err(e),
        }
    }
}

/// Law (domain-separation idempotence): once the wrapper has forwarded
/// anything, the wrapped sponge's transcript is exactly the domain tag
/// followed by the payload — the tag was absorbed once, first, and is
/// never absorbed again.
pub proof fn lemma_domain_tag_first<S: CryptographicSpongeVar>(
    w: &DomainSeparatedSpongeVar<S>,
    payload: Seq<u64>,
)
    requires
        w.absorbed() == w.domain@ + payload,
    ensures
        w.domain_separated ==> w.sponge.absorbed() == w.domain@ + payload,
        !w.domain_separated ==> w.sponge.absorbed() + w.domain@ == w.domain@ + payload,
{
}

/// Law (domain-separation distinctness): wrappers with different domain
/// tags have different transcripts, even when fed identical payloads —
/// so the wrapped sponges are never given colliding inputs.
pub proof fn lemma_domain_separation_distinct(d1: Seq<u64>, d2: Seq<u64>, payload: Seq<u64>)
    requires
        d1 != d2,
    ensures
        d1 + payload != d2 + payload,
{
    if d1 + payload == d2 + payload {
        assert((d1 + payload).len() == (d2 + payload).len());
        assert(d1.len() == d2.len());
        assert(d1 =~= d2) by {
            assert forall|i: int| 0 <= i < d1.len() implies d1[i] == d2[i] by {
                assert((d1 + payload)[i] == d1[i]);
                assert((d2 + payload)[i] == d2[i]);
            }
        }
    }
}

} // verus!
