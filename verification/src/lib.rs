//! A verified model of the card-encryption constraint circuit: a prover holds
//! N private card values that are encrypted under one shared secret key with a
//! deterministic modular transform, packed into field-sized public slots, and
//! committed together with a salt through a sponge hash.
//!
//! The crate models the constraint-circuit layer itself: witness grids,
//! selector-gated polynomial gates, lookup arguments, and the instance values
//! they expose.  Field arithmetic and the sponge permutation come from outside
//! crates behind trusted declarations; everything layered on top of them is
//! verified.

pub mod addmod_chip;
pub mod distinct_single_key;
pub mod field;
pub mod gate_chip;
pub mod packing;
pub mod poseidon_chip;
pub mod preimage_circuit;
pub mod range_chip;
pub mod report;
pub mod witness;
