//! The modular-add chip: `a + b mod n`, composed from the generic gate chip
//! and the range chip.
//!
//! The transform range-checks both inputs, takes the raw field sum, derives
//! a borrow flag (minus one when the sum reached the modulus, zero
//! otherwise) directly from the witness value, corrects the sum by
//! `flag * n` through a fused multiply-add, and range-checks the corrected
//! result.  The flag cell itself is deliberately left unconstrained: no
//! gate pins it down, and only the final range check catches a dishonest
//! flag, by rejecting any corrected sum outside `[0, n)`.

use vstd::prelude::*;
use crate::field::{fe_from_u64, fe_sub, fe_to_u64, field_modulus};
use crate::gate_chip::GateChip;
use crate::range_chip::RangeChip;
use crate::witness::{Cell, Witness};

verus! {

/// The value the transform assigns to its result cell, for any input
/// values: the field sum, corrected downward by the modulus once when it
/// reached the modulus.
pub open spec fn addmod_value(va: nat, vb: nat, n: nat) -> nat {
    let s = (va + vb) % field_modulus();
    if s >= n {
        (s - n) as nat
    } else {
        s
    }
}

/// The modular-add chip: the two component chips it drives.
#[derive(Clone, Copy)]
pub struct AddModChip {
    pub gate_chip: GateChip,
    pub range_chip: RangeChip,
}

impl AddModChip {
    /// Builds the chip from its two components; the range chip's table size
    /// is the chip's modulus.
    pub fn from(gate_chip: GateChip, range_chip: RangeChip) -> (c: AddModChip)
        ensures
            c.gate_chip == gate_chip,
            c.range_chip == range_chip,
    {
        AddModChip { gate_chip, range_chip }
    }

    /// Adds two cells modulo the chip's modulus `n`.
    ///
    /// For inputs inside `[0, n)` the result cell holds exactly
    /// `(a + b) mod n`, which always lies in `[0, n)`, and every recorded
    /// constraint is preserved; an input outside the range leaves its own
    /// range lookup violated, so the store is satisfied afterwards exactly
    /// when it was satisfied before and both inputs were in range.
    pub fn addmod(&self, w: &mut Witness, a: Cell, b: Cell) -> (r: Cell)
        requires
            old(w).wf(),
            a.row < old(w).cells@.len(),
            b.row < old(w).cells@.len(),
            self.range_chip.size >= 1,
        ensures
            final(w).wf(),
            final(w).extends(*old(w)),
            r.row < final(w).cells@.len(),
            final(w).val(r.row as int) == addmod_value(
                old(w).val(a.row as int),
                old(w).val(b.row as int),
                self.range_chip.size as nat,
            ),
            (old(w).val(a.row as int) < self.range_chip.size && old(w).val(b.row as int)
                < self.range_chip.size) ==> {
                &&& final(w).val(r.row as int) as int == ((old(w).val(a.row as int) + old(w).val(
                    b.row as int,
                )) as int) % (self.range_chip.size as int)
                &&& final(w).val(r.row as int) < self.range_chip.size
            },
            final(w).satisfied() <==> (old(w).satisfied() && old(w).val(a.row as int)
                < self.range_chip.size && old(w).val(b.row as int) < self.range_chip.size),
    {
        let ghost w0 = *w;
        let ghost va = w0.val(a.row as int);
        let ghost vb = w0.val(b.row as int);
        let ghost p = field_modulus();
        let n = self.range_chip.size;

        // range check inputs
        self.range_chip.range_constrain(w, a);
        self.range_chip.range_constrain(w, b);

        // add them
        let sum = self.gate_chip.add(w, a, b);
        let ghost vs = (va + vb) % p;
        assert(w.val(sum.row as int) == vs);

        // find if they overflow or not
        proof {
            assert(w.cells@[sum.row as int].inv());
        }
        let sum_ge_n = match fe_to_u64(&w.cells[sum.row]) {
            Some(v) => v >= n,
            None => true,
        };
        assert(sum_ge_n == (vs >= n as nat));
        let flag_value = if sum_ge_n {
            fe_sub(&fe_from_u64(0), &fe_from_u64(1))
        } else {
            fe_from_u64(0)
        };
        proof {
            if sum_ge_n {
                vstd::arithmetic::div_mod::lemma_small_mod((p - 1) as nat, p);
                assert(flag_value.value() == p - 1);
            }
        }
        let flag = self.gate_chip.load_private(w, flag_value);
        let n_cell = self.gate_chip.load_constant(w, n);

        // find the add mod value
        let result = self.gate_chip.addmul(w, flag, n_cell, sum);
        proof {
            let vf = flag_value.value();
            assert(w.val(result.row as int) == (vf * (n as nat) + vs) % p);
            if vs >= n as nat {
                assert(vf == p - 1);
                assert((p - 1) * (n as int) == p * n - n) by (nonlinear_arith);
                assert(vf * (n as nat) + vs == p * (n as int) + (vs - n)) by (nonlinear_arith)
                    requires
                        vf == p - 1,
                        (p - 1) * (n as int) == p * n - n,
                ;
                vstd::arithmetic::div_mod::lemma_mod_multiples_vanish(
                    n as int,
                    vs - n,
                    p as int,
                );
                vstd::arithmetic::div_mod::lemma_small_mod((vs - n) as nat, p);
                assert(w.val(result.row as int) == vs - n);
            } else {
                assert(vf == 0);
                assert(vf * (n as nat) == 0) by (nonlinear_arith)
                    requires
                        vf == 0,
                ;
                vstd::arithmetic::div_mod::lemma_small_mod(vs, p);
                assert(w.val(result.row as int) == vs);
            }
            assert(w.val(result.row as int) == addmod_value(va, vb, n as nat));
            if va < n as nat && vb < n as nat {
                // no field wraparound: the raw sum is below the modulus
                vstd::arithmetic::div_mod::lemma_small_mod((va + vb) as nat, p);
                assert(vs == va + vb);
                if vs >= n as nat {
                    vstd::arithmetic::div_mod::lemma_fundamental_div_mod_converse(
                        (va + vb) as int,
                        n as int,
                        1,
                        (va + vb - n) as int,
                    );
                } else {
                    vstd::arithmetic::div_mod::lemma_small_mod(vs, n as nat);
                }
                assert(w.val(result.row as int) < n);
            }
        }

        // ensure it is within range
        self.range_chip.range_constrain(w, result);
        proof {
            if va < n as nat && vb < n as nat {
                assert(w.satisfied() <==> w0.satisfied());
            }
        }
        result
    }
}

} // verus!
