//! The hash-commitment chip: a sponge permutation with two field inputs and
//! one output, used to commit to the key and its salt.
//!
//! The permutation itself (full and partial rounds, S-box power, round
//! constants) belongs to the outside crate and is not re-derived here: its
//! digest is only named, as a function of the two input values.  The
//! in-circuit variant records a hash constraint over witness cells; the
//! synchronous variant computes the same digest directly, so the two are
//! identical by construction.

use vstd::prelude::*;
use crate::field::Fe;
use crate::witness::{Cell, Witness};
use pasta_curves::group::ff::PrimeField;
use halo2_gadgets::poseidon::primitives::{ConstantLength, P128Pow5T3};

verus! {

/// The digest of the two-input sponge hash, as a function of the input
/// values alone.
pub uninterp spec fn poseidon2_of(a: nat, b: nat) -> nat;

/// Relies on `halo2_poseidon::Hash` with the `P128Pow5T3` parameters
/// (width 3, rate 2, constant-length domain): the digest of a two-element
/// message depends on the two field values alone, and `to_repr` returns its
/// canonical representation.
#[verifier::external_body]
pub fn poseidon_sync(a: &Fe, b: &Fe) -> (r: Fe)
    requires
        a.inv(),
        b.inv(),
    ensures
        r.inv(),
        r.value() == poseidon2_of(a.value(), b.value()),
{
    let x = pasta_curves::Fp::from_repr(a.bytes.as_slice().try_into().unwrap()).unwrap();
    let y = pasta_curves::Fp::from_repr(b.bytes.as_slice().try_into().unwrap()).unwrap();
    let d = halo2_gadgets::poseidon::primitives::Hash::<
        pasta_curves::Fp,
        P128Pow5T3,
        ConstantLength<2>,
        3,
        2,
    >::init().hash([x, y]);
    Fe { bytes: d.to_repr().to_vec() }
}

/// The digest is deterministic: hashing the same pair of values, in any two
/// sessions, yields the same digest.
pub proof fn lemma_hash_deterministic(a1: nat, b1: nat, a2: nat, b2: nat)
    requires
        a1 == a2,
        b1 == b2,
    ensures
        poseidon2_of(a1, b1) == poseidon2_of(a2, b2),
{
}

/// The schema side of the hash-commitment chip.  The sponge's internal state
/// and round-constant columns belong to the outside permutation and carry no
/// modelled structure of their own.
pub struct PoseidonChip {}

impl PoseidonChip {
    /// Declares the chip's columns and gates once per configuration.
    pub fn configure() -> (c: PoseidonChip) {
        PoseidonChip {  }
    }

    /// Opens a fresh hashing session.
    pub fn construct(&self) -> (h: PoseidonHasher) {
        PoseidonHasher {  }
    }
}

/// One hashing session: consumes exactly two inputs and yields one digest.
pub struct PoseidonHasher {}

impl PoseidonHasher {
    /// Hashes two witness cells, appending the digest cell and the hash
    /// constraint binding it to the inputs.
    pub fn hash(self, w: &mut Witness, a: Cell, b: Cell) -> (r: Cell)
        requires
            old(w).wf(),
            a.row < old(w).cells.len(),
            b.row < old(w).cells.len(),
        ensures
            final(w).wf(),
            final(w).extends(*old(w)),
            final(w).cells@.len() == old(w).cells@.len() + 1,
            final(w).gates@ == old(w).gates@,
            final(w).constants@ == old(w).constants@,
            final(w).lookups@ == old(w).lookups@,
            final(w).digests@ == old(w).digests@.push((a.row, b.row, r.row)),
            r.row == old(w).cells@.len(),
            final(w).val(r.row as int) == poseidon2_of(
                old(w).val(a.row as int),
                old(w).val(b.row as int),
            ),
            final(w).satisfied() <==> old(w).satisfied(),
    {
        let ghost w0 = *w;
        let digest = poseidon_sync(&w.cells[a.row], &w.cells[b.row]);
        let row = w.cells.len();
        w.cells.push(digest);
        w.digests.push((a.row, b.row, row));
        proof {
            assert(w.extends(w0));
            assert forall|i: int| 0 <= i < w.cells@.len() implies (
            #[trigger] w.cells@[i]).inv() by {
                if i < w0.cells@.len() {
                    assert(w.cells@[i] == w0.cells@[i]);
                }
            }
            crate::witness::lemma_satisfied_extends(w0, *w);
            assert(w.digest_ok(w.digests@[w.digests@.len() - 1]));
        }
        Cell { row }
    }
}

} // verus!
