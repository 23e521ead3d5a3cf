//! The witness side of the chip layer: an append-only store of assigned
//! cells together with the constraints that the chips lay over them.
//!
//! A cell is a field value at a row; once assigned it is never revised.
//! Four kinds of constraints are recorded: multiply-add gate instances
//! (the generic gate's polynomial identity `a*b + c - d = 0`), fixed-constant
//! bindings, range lookups against a table holding `0..size`, and hash
//! constraints binding a digest cell to two input cells.  Whether the whole
//! store is satisfied is a single predicate, decidable by a verified checker;
//! a violated constraint is only ever detected there, never at assignment
//! time.

use vstd::prelude::*;
use crate::field::{fe_add, fe_eq, fe_mul, fe_to_u64, field_modulus, Fe};
use crate::poseidon_chip::{poseidon2_of, poseidon_sync};

verus! {

/// A handle to an assigned cell: its row in the store.
#[derive(Clone, Copy, Debug, PartialEq, Eq)]
pub struct Cell {
    pub row: usize,
}

/// One instance of the shared multiply-add gate: the polynomial identity
/// `cells[a] * cells[b] + cells[c] - cells[d] = 0` over the field.
#[derive(Clone, Copy, Debug, PartialEq, Eq)]
pub struct MulAddGate {
    pub a: usize,
    pub b: usize,
    pub c: usize,
    pub d: usize,
}

/// The assigned cells and the constraints over them.
pub struct Witness {
    /// Assigned field values, one per row, in assignment order.
    pub cells: Vec<Fe>,
    /// Multiply-add gate instances.
    pub gates: Vec<MulAddGate>,
    /// Cells bound to a fixed constant: (row, constant).
    pub constants: Vec<(usize, u64)>,
    /// Range lookups: (row, size) demands the value lies in [0, size).
    pub lookups: Vec<(usize, u64)>,
    /// Hash constraints: (x, y, out) demands cells[out] is the digest of
    /// (cells[x], cells[y]).
    pub digests: Vec<(usize, usize, usize)>,
}

impl Witness {
    /// The value of the cell at a row.
    pub open spec fn val(&self, i: int) -> nat {
        self.cells@[i].value()
    }

    /// Well-formedness: every constraint is over assigned rows, every cell
    /// is a canonical field element, and every lookup table is non-empty.
    pub open spec fn wf(&self) -> bool {
        &&& forall|i: int| 0 <= i < self.cells@.len() ==> (#[trigger] self.cells@[i]).inv()
        &&& forall|i: int|
            0 <= i < self.gates@.len() ==> {
                let g = #[trigger] self.gates@[i];
                g.a < self.cells@.len() && g.b < self.cells@.len() && g.c < self.cells@.len()
                    && g.d < self.cells@.len()
            }
        &&& forall|i: int|
            0 <= i < self.constants@.len() ==> (#[trigger] self.constants@[i]).0
                < self.cells@.len()
        &&& forall|i: int|
            0 <= i < self.lookups@.len() ==> {
                let l = #[trigger] self.lookups@[i];
                l.0 < self.cells@.len() && l.1 >= 1
            }
        &&& forall|i: int|
            0 <= i < self.digests@.len() ==> {
                let d = #[trigger] self.digests@[i];
                d.0 < self.cells@.len() && d.1 < self.cells@.len() && d.2 < self.cells@.len()
            }
    }

    /// The multiply-add identity holds at this instance.
    pub open spec fn gate_ok(&self, g: MulAddGate) -> bool {
        (self.val(g.a as int) * self.val(g.b as int) + self.val(g.c as int)) % field_modulus()
            == self.val(g.d as int)
    }

    /// The cell holds its fixed constant.
    pub open spec fn constant_ok(&self, c: (usize, u64)) -> bool {
        self.val(c.0 as int) == c.1 as nat
    }

    /// The looked-up value appears in the table `0..size`.
    pub open spec fn lookup_ok(&self, l: (usize, u64)) -> bool {
        self.val(l.0 as int) < l.1 as nat
    }

    /// The digest cell holds the hash of the two input cells.
    pub open spec fn digest_ok(&self, d: (usize, usize, usize)) -> bool {
        self.val(d.2 as int) == poseidon2_of(self.val(d.0 as int), self.val(d.1 as int))
    }

    /// Every recorded constraint holds.
    pub open spec fn satisfied(&self) -> bool {
        &&& forall|i: int| 0 <= i < self.gates@.len() ==> self.gate_ok(#[trigger] self.gates@[i])
        &&& forall|i: int|
            0 <= i < self.constants@.len() ==> self.constant_ok(#[trigger] self.constants@[i])
        &&& forall|i: int|
            0 <= i < self.lookups@.len() ==> self.lookup_ok(#[trigger] self.lookups@[i])
        &&& forall|i: int|
            0 <= i < self.digests@.len() ==> self.digest_ok(#[trigger] self.digests@[i])
    }

    /// The store grew out of an earlier one: cells and constraints are only
    /// ever appended.
    pub open spec fn extends(&self, earlier: Witness) -> bool {
        &&& earlier.cells@.is_prefix_of(self.cells@)
        &&& earlier.gates@.is_prefix_of(self.gates@)
        &&& earlier.constants@.is_prefix_of(self.constants@)
        &&& earlier.lookups@.is_prefix_of(self.lookups@)
        &&& earlier.digests@.is_prefix_of(self.digests@)
    }

    /// The constraints appended since an earlier store all hold.
    pub open spec fn appended_hold(&self, earlier: Witness) -> bool {
        &&& forall|i: int|
            earlier.gates@.len() <= i < self.gates@.len() ==> self.gate_ok(
                #[trigger] self.gates@[i],
            )
        &&& forall|i: int|
            earlier.constants@.len() <= i < self.constants@.len() ==> self.constant_ok(
                #[trigger] self.constants@[i],
            )
        &&& forall|i: int|
            earlier.lookups@.len() <= i < self.lookups@.len() ==> self.lookup_ok(
                #[trigger] self.lookups@[i],
            )
        &&& forall|i: int|
            earlier.digests@.len() <= i < self.digests@.len() ==> self.digest_ok(
                #[trigger] self.digests@[i],
            )
    }

    /// An empty store, before any assignment.
    pub fn new() -> (w: Witness)
        ensures
            w.wf(),
            w.satisfied(),
            w.cells@.len() == 0,
            w.gates@.len() == 0,
            w.constants@.len() == 0,
            w.lookups@.len() == 0,
            w.digests@.len() == 0,
    {
        Witness {
            cells: Vec::new(),
            gates: Vec::new(),
            constants: Vec::new(),
            lookups: Vec::new(),
            digests: Vec::new(),
        }
    }
}

/// Growing a store leaves the old constraints' meaning unchanged: the grown
/// store is satisfied exactly when the earlier one was and every appended
/// constraint holds.
pub proof fn lemma_satisfied_extends(earlier: Witness, now: Witness)
    requires
        earlier.wf(),
        now.extends(earlier),
    ensures
        now.satisfied() <==> (earlier.satisfied() && now.appended_hold(earlier)),
{
    assert forall|i: int| 0 <= i < earlier.cells@.len() implies now.cells@[i]
        == earlier.cells@[i] by {
        assert(earlier.cells@ =~= now.cells@.subrange(0, earlier.cells@.len() as int));
    }
    assert forall|i: int| 0 <= i < earlier.gates@.len() implies #[trigger] now.gates@[i]
        == earlier.gates@[i] && (now.gate_ok(now.gates@[i]) == earlier.gate_ok(
        earlier.gates@[i],
    )) by {
        assert(earlier.gates@ =~= now.gates@.subrange(0, earlier.gates@.len() as int));
    }
    assert forall|i: int| 0 <= i < earlier.constants@.len() implies #[trigger] now.constants@[i]
        == earlier.constants@[i] && (now.constant_ok(now.constants@[i]) == earlier.constant_ok(
        earlier.constants@[i],
    )) by {
        assert(earlier.constants@ =~= now.constants@.subrange(0, earlier.constants@.len() as int));
    }
    assert forall|i: int| 0 <= i < earlier.lookups@.len() implies #[trigger] now.lookups@[i]
        == earlier.lookups@[i] && (now.lookup_ok(now.lookups@[i]) == earlier.lookup_ok(
        earlier.lookups@[i],
    )) by {
        assert(earlier.lookups@ =~= now.lookups@.subrange(0, earlier.lookups@.len() as int));
    }
    assert forall|i: int| 0 <= i < earlier.digests@.len() implies #[trigger] now.digests@[i]
        == earlier.digests@[i] && (now.digest_ok(now.digests@[i]) == earlier.digest_ok(
        earlier.digests@[i],
    )) by {
        assert(earlier.digests@ =~= now.digests@.subrange(0, earlier.digests@.len() as int));
    }
}

impl Witness {
    /// Decides whether every recorded constraint holds, by evaluating each
    /// of them over the assigned cells.
    pub fn is_satisfied(&self) -> (r: bool)
        requires
            self.wf(),
        ensures
            r == self.satisfied(),
    {
        let mut i: usize = 0;
        while i < self.gates.len()
            invariant
                self.wf(),
                i <= self.gates@.len(),
                forall|j: int| 0 <= j < i ==> self.gate_ok(#[trigger] self.gates@[j]),
            decreases self.gates@.len() - i,
        {
            let g = self.gates[i];
            let prod = fe_mul(&self.cells[g.a], &self.cells[g.b]);
            let lhs = fe_add(&prod, &self.cells[g.c]);
            let ok = fe_eq(&lhs, &self.cells[g.d]);
            proof {
                vstd::arithmetic::div_mod::lemma_add_mod_noop_right(
                    self.val(g.c as int) as int,
                    (self.val(g.a as int) * self.val(g.b as int)) as int,
                    field_modulus() as int,
                );
            }
            if !ok {
                return false;
            }
            i = i + 1;
        }
        let mut i: usize = 0;
        while i < self.constants.len()
            invariant
                self.wf(),
                i <= self.constants@.len(),
                forall|j: int| 0 <= j < i ==> self.constant_ok(#[trigger] self.constants@[j]),
            decreases self.constants@.len() - i,
        {
            let c = self.constants[i];
            let ok = match fe_to_u64(&self.cells[c.0]) {
                Some(v) => v == c.1,
                None => false,
            };
            if !ok {
                return false;
            }
            i = i + 1;
        }
        let mut i: usize = 0;
        while i < self.lookups.len()
            invariant
                self.wf(),
                i <= self.lookups@.len(),
                forall|j: int| 0 <= j < i ==> self.lookup_ok(#[trigger] self.lookups@[j]),
            decreases self.lookups@.len() - i,
        {
            let l = self.lookups[i];
            let ok = match fe_to_u64(&self.cells[l.0]) {
                Some(v) => v < l.1,
                None => false,
            };
            if !ok {
                return false;
            }
            i = i + 1;
        }
        let mut i: usize = 0;
        while i < self.digests.len()
            invariant
                self.wf(),
                i <= self.digests@.len(),
                forall|j: int| 0 <= j < i ==> self.digest_ok(#[trigger] self.digests@[j]),
            decreases self.digests@.len() - i,
        {
            let d = self.digests[i];
            let expect = poseidon_sync(&self.cells[d.0], &self.cells[d.1]);
            let ok = fe_eq(&expect, &self.cells[d.2]);
            if !ok {
                return false;
            }
            i = i + 1;
        }
        true
    }
}

} // verus!
