//! The generic gate chip: loads private values and constants, and performs
//! addition, multiplication and fused multiply-add, one gate instance per
//! operation.
//!
//! All five operations share one polynomial identity, `a*b + c - d = 0`;
//! addition forces the multiplier operand to the constant one, and
//! multiplication forces the addend to zero.  Each operation assigns fresh
//! cells for whatever the caller did not supply and records one instance of
//! the shared gate over the four operand cells.

use vstd::prelude::*;
use crate::field::{fe_add, fe_from_u64, fe_mul, field_modulus, Fe};
use crate::witness::{Cell, MulAddGate, Witness};

verus! {

/// The schema side of the generic gate chip.
#[derive(Clone, Copy)]
pub struct GateChip {}

impl GateChip {
    /// Declares the chip's column, selector and gate once per configuration.
    pub fn configure() -> (c: GateChip) {
        GateChip {  }
    }

    /// Assigns a private value to a fresh cell.
    pub fn load_private(&self, w: &mut Witness, value: Fe) -> (r: Cell)
        requires
            old(w).wf(),
            value.inv(),
        ensures
            final(w).wf(),
            final(w).extends(*old(w)),
            final(w).cells@.len() == old(w).cells@.len() + 1,
            final(w).gates@ == old(w).gates@,
            final(w).constants@ == old(w).constants@,
            final(w).lookups@ == old(w).lookups@,
            final(w).digests@ == old(w).digests@,
            forall|i: int|
                0 <= i < old(w).cells@.len() ==> final(w).cells@[i] == old(w).cells@[i],
            r.row == old(w).cells@.len(),
            final(w).val(r.row as int) == value.value(),
            final(w).satisfied() <==> old(w).satisfied(),
    {
        let ghost w0 = *w;
        let row = w.cells.len();
        w.cells.push(value);
        proof {
            lemma_cells_grown(w0, *w);
        }
        Cell { row }
    }

    /// Assigns a fixed constant to a fresh cell and binds the cell to it.
    pub fn load_constant(&self, w: &mut Witness, constant: u64) -> (r: Cell)
        requires
            old(w).wf(),
        ensures
            final(w).wf(),
            final(w).extends(*old(w)),
            final(w).cells@.len() == old(w).cells@.len() + 1,
            final(w).gates@ == old(w).gates@,
            final(w).constants@ == old(w).constants@.push((r.row, constant)),
            final(w).lookups@ == old(w).lookups@,
            final(w).digests@ == old(w).digests@,
            forall|i: int|
                0 <= i < old(w).cells@.len() ==> final(w).cells@[i] == old(w).cells@[i],
            r.row == old(w).cells@.len(),
            final(w).val(r.row as int) == constant as nat,
            final(w).satisfied() <==> old(w).satisfied(),
    {
        let ghost w0 = *w;
        let row = w.cells.len();
        w.cells.push(fe_from_u64(constant));
        w.constants.push((row, constant));
        proof {
            lemma_cells_grown(w0, *w);
            crate::witness::lemma_satisfied_extends(w0, *w);
            assert(w.constant_ok(w.constants@[w.constants@.len() - 1]));
        }
        Cell { row }
    }

    /// Adds two cells: assigns the forced-one multiplier and the sum, and
    /// records one gate instance `a * 1 + c - d = 0`.
    pub fn add(&self, w: &mut Witness, a: Cell, c: Cell) -> (r: Cell)
        requires
            old(w).wf(),
            a.row < old(w).cells@.len(),
            c.row < old(w).cells@.len(),
        ensures
            final(w).wf(),
            final(w).extends(*old(w)),
            final(w).cells@.len() == old(w).cells@.len() + 2,
            final(w).gates@.len() == old(w).gates@.len() + 1,
            final(w).constants@ == old(w).constants@,
            final(w).lookups@ == old(w).lookups@,
            final(w).digests@ == old(w).digests@,
            forall|i: int|
                0 <= i < old(w).cells@.len() ==> final(w).cells@[i] == old(w).cells@[i],
            r.row == old(w).cells@.len() + 1,
            final(w).val(r.row as int) == (old(w).val(a.row as int) + old(w).val(c.row as int))
                % field_modulus(),
            final(w).satisfied() <==> old(w).satisfied(),
    {
        let ghost w0 = *w;
        let one_row = w.cells.len();
        w.cells.push(fe_from_u64(1));
        let sum = fe_add(&w.cells[a.row], &w.cells[c.row]);
        let row = w.cells.len();
        w.cells.push(sum);
        w.gates.push(MulAddGate { a: a.row, b: one_row, c: c.row, d: row });
        proof {
            lemma_cells_grown(w0, *w);
            crate::witness::lemma_satisfied_extends(w0, *w);
            assert(w.val(a.row as int) == w0.val(a.row as int));
            assert(w.val(c.row as int) == w0.val(c.row as int));
            assert(w.val(one_row as int) == 1);
            assert(w.val(a.row as int) * 1nat == w.val(a.row as int)) by {
                vstd::arithmetic::mul::lemma_mul_basics(w.val(a.row as int) as int);
            }
            assert(w.gate_ok(w.gates@[w.gates@.len() - 1]));
        }
        Cell { row }
    }

    /// Multiplies two cells: assigns the forced-zero addend and the product,
    /// and records one gate instance `a * b + 0 - d = 0`.
    pub fn mul(&self, w: &mut Witness, a: Cell, b: Cell) -> (r: Cell)
        requires
            old(w).wf(),
            a.row < old(w).cells@.len(),
            b.row < old(w).cells@.len(),
        ensures
            final(w).wf(),
            final(w).extends(*old(w)),
            final(w).cells@.len() == old(w).cells@.len() + 2,
            final(w).gates@.len() == old(w).gates@.len() + 1,
            final(w).constants@ == old(w).constants@,
            final(w).lookups@ == old(w).lookups@,
            final(w).digests@ == old(w).digests@,
            forall|i: int|
                0 <= i < old(w).cells@.len() ==> final(w).cells@[i] == old(w).cells@[i],
            r.row == old(w).cells@.len() + 1,
            final(w).val(r.row as int) == (old(w).val(a.row as int) * old(w).val(b.row as int))
                % field_modulus(),
            final(w).satisfied() <==> old(w).satisfied(),
    {
        let ghost w0 = *w;
        let zero_row = w.cells.len();
        w.cells.push(fe_from_u64(0));
        let prod = fe_mul(&w.cells[a.row], &w.cells[b.row]);
        let row = w.cells.len();
        w.cells.push(prod);
        w.gates.push(MulAddGate { a: a.row, b: b.row, c: zero_row, d: row });
        proof {
            lemma_cells_grown(w0, *w);
            crate::witness::lemma_satisfied_extends(w0, *w);
            assert(w.val(a.row as int) == w0.val(a.row as int));
            assert(w.val(b.row as int) == w0.val(b.row as int));
            assert(w.val(zero_row as int) == 0);
            assert(w.gate_ok(w.gates@[w.gates@.len() - 1]));
        }
        Cell { row }
    }

    /// Fused multiply-add over three cells: assigns `a*b + c` and records the
    /// gate `a * b + c - d = 0`.
    pub fn addmul(&self, w: &mut Witness, a: Cell, b: Cell, c: Cell) -> (r: Cell)
        requires
            old(w).wf(),
            a.row < old(w).cells@.len(),
            b.row < old(w).cells@.len(),
            c.row < old(w).cells@.len(),
        ensures
            final(w).wf(),
            final(w).extends(*old(w)),
            final(w).cells@.len() == old(w).cells@.len() + 1,
            final(w).gates@.len() == old(w).gates@.len() + 1,
            final(w).constants@ == old(w).constants@,
            final(w).lookups@ == old(w).lookups@,
            final(w).digests@ == old(w).digests@,
            forall|i: int|
                0 <= i < old(w).cells@.len() ==> final(w).cells@[i] == old(w).cells@[i],
            r.row == old(w).cells@.len(),
            final(w).val(r.row as int) == (old(w).val(a.row as int) * old(w).val(b.row as int)
                + old(w).val(c.row as int)) % field_modulus(),
            final(w).satisfied() <==> old(w).satisfied(),
    {
        let ghost w0 = *w;
        let prod = fe_mul(&w.cells[a.row], &w.cells[b.row]);
        let out = fe_add(&prod, &w.cells[c.row]);
        let row = w.cells.len();
        w.cells.push(out);
        w.gates.push(MulAddGate { a: a.row, b: b.row, c: c.row, d: row });
        proof {
            lemma_cells_grown(w0, *w);
            crate::witness::lemma_satisfied_extends(w0, *w);
            vstd::arithmetic::div_mod::lemma_add_mod_noop_right(
                w0.val(c.row as int) as int,
                (w0.val(a.row as int) * w0.val(b.row as int)) as int,
                field_modulus() as int,
            );
            assert(w.gate_ok(w.gates@[w.gates@.len() - 1]));
        }
        Cell { row }
    }
}

/// After appending cells and constraints, the store is still well-formed and
/// the old cells keep their values.
pub proof fn lemma_cells_grown(earlier: Witness, now: Witness)
    requires
        earlier.wf(),
        now.extends(earlier),
        forall|i: int| earlier.cells@.len() <= i < now.cells@.len() ==> (
        #[trigger] now.cells@[i]).inv(),
        forall|i: int|
            earlier.gates@.len() <= i < now.gates@.len() ==> {
                let g = #[trigger] now.gates@[i];
                g.a < now.cells@.len() && g.b < now.cells@.len() && g.c < now.cells@.len() && g.d
                    < now.cells@.len()
            },
        forall|i: int|
            earlier.constants@.len() <= i < now.constants@.len() ==> (
            #[trigger] now.constants@[i]).0 < now.cells@.len(),
        forall|i: int|
            earlier.lookups@.len() <= i < now.lookups@.len() ==> {
                let l = #[trigger] now.lookups@[i];
                l.0 < now.cells@.len() && l.1 >= 1
            },
        forall|i: int|
            earlier.digests@.len() <= i < now.digests@.len() ==> {
                let d = #[trigger] now.digests@[i];
                d.0 < now.cells@.len() && d.1 < now.cells@.len() && d.2 < now.cells@.len()
            },
    ensures
        now.wf(),
        forall|i: int| 0 <= i < earlier.cells@.len() ==> now.cells@[i] == earlier.cells@[i],
{
    assert forall|i: int| 0 <= i < earlier.cells@.len() implies now.cells@[i]
        == earlier.cells@[i] by {
        assert(earlier.cells@ =~= now.cells@.subrange(0, earlier.cells@.len() as int));
    }
    assert forall|i: int| 0 <= i < now.cells@.len() implies (#[trigger] now.cells@[i]).inv() by {
        if i < earlier.cells@.len() {
            assert(now.cells@[i] == earlier.cells@[i]);
        }
    }
    assert forall|i: int| 0 <= i < now.gates@.len() implies {
        let g = #[trigger] now.gates@[i];
        g.a < now.cells@.len() && g.b < now.cells@.len() && g.c < now.cells@.len() && g.d
            < now.cells@.len()
    } by {
        if i < earlier.gates@.len() {
            assert(earlier.gates@ =~= now.gates@.subrange(0, earlier.gates@.len() as int));
            assert(now.gates@[i] == earlier.gates@[i]);
        }
    }
    assert forall|i: int| 0 <= i < now.constants@.len() implies (#[trigger] now.constants@[i]).0
        < now.cells@.len() by {
        if i < earlier.constants@.len() {
            assert(earlier.constants@ =~= now.constants@.subrange(
                0,
                earlier.constants@.len() as int,
            ));
            assert(now.constants@[i] == earlier.constants@[i]);
        }
    }
    assert forall|i: int| 0 <= i < now.lookups@.len() implies {
        let l = #[trigger] now.lookups@[i];
        l.0 < now.cells@.len() && l.1 >= 1
    } by {
        if i < earlier.lookups@.len() {
            assert(earlier.lookups@ =~= now.lookups@.subrange(0, earlier.lookups@.len() as int));
            assert(now.lookups@[i] == earlier.lookups@[i]);
        }
    }
    assert forall|i: int| 0 <= i < now.digests@.len() implies {
        let d = #[trigger] now.digests@[i];
        d.0 < now.cells@.len() && d.1 < now.cells@.len() && d.2 < now.cells@.len()
    } by {
        if i < earlier.digests@.len() {
            assert(earlier.digests@ =~= now.digests@.subrange(0, earlier.digests@.len() as int));
            assert(now.digests@[i] == earlier.digests@[i]);
        }
    }
}

} // verus!
