//! The modular range-check chip: a lookup argument against a table holding
//! every integer in `[0, SIZE)` exactly once.
//!
//! The schema side declares the table and its lookup once; constructing the
//! chip stands for populating the table, and must happen before any
//! constrained cell is checked against it.  A violated range is not an error
//! at assignment time: it surfaces only when the recorded constraints are
//! checked.

use vstd::prelude::*;
use crate::witness::{Cell, Witness};

verus! {

/// The schema side of the range chip: the table size and its lookup.
#[derive(Clone, Copy)]
pub struct RangeConfig {
    pub size: u64,
}

impl RangeConfig {
    /// Declares a table over `[0, size)` and its lookup.  A zero-width range
    /// is a malformed schema and is rejected here, at configuration time.
    pub fn configure(size: u64) -> (c: RangeConfig)
        requires
            size >= 1,
        ensures
            c.size == size,
    {
        RangeConfig { size }
    }

    /// Populates the table with `0..size`, yielding the chip that cells can
    /// be constrained against from then on.
    pub fn construct(&self) -> (c: RangeChip)
        requires
            self.size >= 1,
        ensures
            c.size == self.size,
    {
        RangeChip { size: self.size }
    }
}

/// The witness side of the range chip, backed by a populated table.
#[derive(Clone, Copy)]
pub struct RangeChip {
    pub size: u64,
}

impl RangeChip {
    /// Records the lookup demanding that the cell's value lies in
    /// `[0, size)`.  The store is satisfied afterwards exactly when it was
    /// satisfied before and the value is indeed in range.
    pub fn range_constrain(&self, w: &mut Witness, cell: Cell) -> (r: Cell)
        requires
            old(w).wf(),
            cell.row < old(w).cells@.len(),
            self.size >= 1,
        ensures
            final(w).wf(),
            final(w).extends(*old(w)),
            final(w).cells@ == old(w).cells@,
            final(w).gates@ == old(w).gates@,
            final(w).constants@ == old(w).constants@,
            final(w).lookups@ == old(w).lookups@.push((cell.row, self.size)),
            final(w).digests@ == old(w).digests@,
            r == cell,
            final(w).satisfied() <==> (old(w).satisfied() && old(w).val(cell.row as int)
                < self.size as nat),
    {
        let ghost w0 = *w;
        w.lookups.push((cell.row, self.size));
        proof {
            crate::gate_chip::lemma_cells_grown(w0, *w);
            crate::witness::lemma_satisfied_extends(w0, *w);
            assert(w.lookups@[w.lookups@.len() - 1] == (cell.row, self.size));
        }
        cell
    }
}

} // verus!
