//! In-circuit cryptographic sponge (transcript) gadgets.
//!
//! A proof-verifier circuit absorbs protocol messages into a sponge and
//! squeezes challenge values back out.  This crate provides, verified:
//!
//! * a model of a rank-1 constraint system over a prime field, with
//!   linear combinations, witness allocation and constraint enforcement
//!   ([`r1cs`]);
//! * reconstruction of non-native field elements from little-endian
//!   circuit bits, together with the constraints that bind each limb to
//!   its bit decomposition ([`constraints`]);
//! * a generic sponge-gadget interface whose non-native squeeze
//!   operations are shared, interface-level algorithms ([`sponge`]);
//! * a domain-separation wrapper that binds any sponge gadget to a fixed
//!   protocol tag ([`domain`]);
//! * a small concrete sponge, in native and in-circuit form, exercising
//!   the interface ([`simple`]).
//!
//! Field elements of both the circuit field and the target field are
//! carried as plain residues (`u64` values below the field's modulus),
//! and the constraint system is an explicit context value passed to every
//! operation that allocates or constrains.

use vstd::prelude::*;

pub mod arith;
pub mod constraints;
pub mod domain;
pub mod gadgets;
pub mod nonnative;
pub mod r1cs;
pub mod simple;
pub mod sponge;

verus! {

/// The single failure kind of this crate: a constraint-system operation
/// (allocation or enforcement) could not complete and the synthesis pass
/// must be abandoned.
#[derive(Clone, Copy, Debug, PartialEq, Eq, Structural)]
pub enum SynthesisError {
    /// Constraint synthesis failed; no partial result is returned.
    SynthesisFailed,
}

} // verus!
