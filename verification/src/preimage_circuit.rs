//! A minimal circuit over the hash-commitment chip: the prover holds two
//! private values whose digest is the public output — knowledge of a hash
//! preimage.

use vstd::prelude::*;
use crate::field::Fe;
use crate::poseidon_chip::{poseidon2_of, poseidon_sync, PoseidonChip};
use crate::witness::{Cell, Witness};

verus! {

/// The circuit instance: the two private preimage values.
#[derive(Debug)]
pub struct PreimageCircuit {
    pub a: Fe,
    pub b: Fe,
}

/// The schema: an advice column for the preimage cells and the hash chip.
pub struct PreimageCircuitConfig {
    pub poseidon_chip: PoseidonChip,
}

impl PreimageCircuitConfig {
    /// Assigns a private value to a fresh cell.
    pub fn load_private(&self, w: &mut Witness, value: Fe) -> (r: Cell)
        requires
            old(w).wf(),
            value.inv(),
        ensures
            final(w).wf(),
            final(w).extends(*old(w)),
            final(w).cells@.len() == old(w).cells@.len() + 1,
            final(w).gates@ == old(w).gates@,
            final(w).constants@ == old(w).constants@,
            final(w).lookups@ == old(w).lookups@,
            final(w).digests@ == old(w).digests@,
            forall|i: int|
                0 <= i < old(w).cells@.len() ==> final(w).cells@[i] == old(w).cells@[i],
            r.row == old(w).cells@.len(),
            final(w).val(r.row as int) == value.value(),
            final(w).satisfied() <==> old(w).satisfied(),
    {
        let ghost w0 = *w;
        let row = w.cells.len();
        w.cells.push(value);
        proof {
            crate::gate_chip::lemma_cells_grown(w0, *w);
        }
        Cell { row }
    }
}

impl PreimageCircuit {
    /// Declares the schema once: the advice column and the hash chip's
    /// columns and gates.
    pub fn configure() -> (c: PreimageCircuitConfig) {
        PreimageCircuitConfig { poseidon_chip: PoseidonChip::configure() }
    }

    /// Assigns the two preimage cells and hashes them; the digest cell is
    /// the circuit's public output.
    pub fn synthesize(&self, config: &PreimageCircuitConfig, w: &mut Witness) -> (d: Cell)
        requires
            old(w).wf(),
            self.a.inv(),
            self.b.inv(),
        ensures
            final(w).wf(),
            final(w).extends(*old(w)),
            d.row < final(w).cells@.len(),
            final(w).val(d.row as int) == poseidon2_of(self.a.value(), self.b.value()),
            final(w).satisfied() <==> old(w).satisfied(),
    {
        let x = config.load_private(w, self.a.dup());
        let y = config.load_private(w, self.b.dup());
        let hasher = config.poseidon_chip.construct();
        hasher.hash(w, x, y)
    }

    /// The pure instance computation: the one public value, the digest of
    /// the two preimage cells, mirroring the in-circuit hash exactly.
    pub fn instances(&self) -> (v: Vec<Fe>)
        requires
            self.a.inv(),
            self.b.inv(),
        ensures
            v@.len() == 1,
            v@[0].inv(),
            v@[0].value() == poseidon2_of(self.a.value(), self.b.value()),
    {
        let mut v: Vec<Fe> = Vec::new();
        v.push(poseidon_sync(&self.a, &self.b));
        v
    }
}

} // verus!
