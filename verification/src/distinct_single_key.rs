//! The card-encryption circuit: N private cards, encrypted under one shared
//! key by a modular transform, packed into public slots, and committed with
//! a salt through the hash chip.
//!
//! The witness is a single advice column laid out as a state machine over
//! rows: N raw-card cells, N key-repetition cells, N quotient cells, the
//! word cells (the encrypted cards, zero-padded to whole slots), the packed
//! slot cells, the salt, and the commitment digest.  Four selector-gated
//! constraints run over it with fixed row offsets: a distinctness lookup
//! whose table side is the selector-gated card cells, a range lookup against
//! the fixed column, a key-equality gate over adjacent key cells, the
//! encryption gate reading card, key, quotient and encrypted cells at
//! offsets of N, and a compression gate reading each slot's word cells at
//! negative offsets.  Public instances are the packed slots followed by the
//! digest.

use vstd::prelude::*;
use vstd::arithmetic::power::pow;
use crate::field::{fe_add, fe_eq, fe_from_u128, fe_from_u64, fe_mul, field_modulus, Fe};
use crate::packing::{pack_slot, pack_value, slot_words};
use crate::poseidon_chip::{poseidon2_of, poseidon_sync};

verus! {

/// Addition in the field.
pub open spec fn fadd(a: nat, b: nat) -> nat {
    (a + b) % field_modulus()
}

/// Multiplication in the field.
pub open spec fn fmul(a: nat, b: nat) -> nat {
    (a * b) % field_modulus()
}

/// The schema handle: the circuit's three size parameters, fixed at
/// configuration time.
#[derive(Clone, Copy, Debug)]
pub struct DSKConfig {
    pub num_cards: usize,
    pub word_bytes: usize,
    pub field_bytes: usize,
}

impl DSKConfig {
    /// Words per packed slot.
    pub open spec fn words_per_slot(self) -> int {
        self.field_bytes as int / self.word_bytes as int
    }

    /// Number of packed slots.
    pub open spec fn num_slots(self) -> int {
        (self.num_cards * self.word_bytes) as int / self.field_bytes as int + 1
    }

    /// The positional base: one word's worth of bits.
    pub open spec fn word_base(self) -> nat {
        pow(256, self.word_bytes as nat) as nat
    }

    /// Well-formed parameters: sizes that fit the layout, whole words per
    /// slot, slots that fit a field element canonically, and cards that fit
    /// a word.
    pub open spec fn wf(self) -> bool {
        &&& 1 <= self.num_cards <= 0x10_0000
        &&& 1 <= self.word_bytes <= 7
        &&& self.word_bytes <= self.field_bytes <= 31
        &&& self.field_bytes % self.word_bytes == 0
        &&& self.num_cards as nat <= self.word_base()
    }

    /// The first word row: the encrypted cards start here.
    pub open spec fn words_start(self) -> int {
        3 * self.num_cards
    }

    /// The first slot row.
    pub open spec fn slots_start(self) -> int {
        self.words_start() + self.num_slots() * self.words_per_slot()
    }

    /// The row of packed slot `i`.
    pub open spec fn slot_row(self, i: int) -> int {
        self.slots_start() + i * self.words_per_slot()
    }

    /// The key cell the commitment hashes: the last key-repetition cell.
    pub open spec fn key_row(self) -> int {
        2 * self.num_cards - 1
    }

    /// The salt cell's row.
    pub open spec fn salt_row(self) -> int {
        self.slot_row(self.num_slots() - 1) + 1
    }

    /// The digest cell's row.
    pub open spec fn digest_row(self) -> int {
        self.salt_row() + 1
    }

    /// Total rows of the witness grid.
    pub open spec fn total_rows(self) -> int {
        self.digest_row() + 1
    }
}

/// The slot region covers the encrypted cards with room to spare, and the
/// whole grid fits comfortably in an address space.
pub proof fn lemma_layout_bounds(cfg: DSKConfig)
    requires
        cfg.wf(),
    ensures
        1 <= cfg.words_per_slot() <= 31,
        1 <= cfg.num_slots(),
        cfg.num_cards < cfg.num_slots() * cfg.words_per_slot() <= cfg.num_cards
            + cfg.words_per_slot(),
        cfg.total_rows() <= 0x1000_0000,
        cfg.word_bytes * cfg.words_per_slot() == cfg.field_bytes,
{
    let n = cfg.num_cards as int;
    let wb = cfg.word_bytes as int;
    let fb = cfg.field_bytes as int;
    let nwif = fb / wb;
    let q = (n * wb) / fb;
    vstd::arithmetic::div_mod::lemma_div_pos_is_pos(fb, wb);
    vstd::arithmetic::div_mod::lemma_div_is_ordered(wb, fb, wb);
    vstd::arithmetic::div_mod::lemma_div_basics(wb);
    assert(nwif >= 1);
    assert(nwif <= 31) by {
        vstd::arithmetic::div_mod::lemma_div_is_ordered(fb, 31, wb);
        vstd::arithmetic::div_mod::lemma_div_nonincreasing(31, wb);
    }
    assert(wb * nwif == fb) by {
        vstd::arithmetic::div_mod::lemma_fundamental_div_mod(fb, wb);
    }
    assert(n * wb >= 0) by {
        vstd::arithmetic::mul::lemma_mul_nonnegative(n, wb);
    }
    vstd::arithmetic::div_mod::lemma_div_pos_is_pos(n * wb, fb);
    // q * nwif <= n: q * fb <= n * wb, and fb == wb * nwif
    assert(q * nwif <= n) by {
        vstd::arithmetic::div_mod::lemma_fundamental_div_mod(n * wb, fb);
        assert((n * wb) % fb >= 0) by {
            vstd::arithmetic::div_mod::lemma_mod_bound(n * wb, fb);
        }
        assert(fb * q <= n * wb);
        assert(fb * q == (nwif * q) * wb) by {
            vstd::arithmetic::mul::lemma_mul_is_associative(wb, nwif, q);
            vstd::arithmetic::mul::lemma_mul_is_commutative(wb, nwif * q);
        }
        assert((nwif * q) * wb <= n * wb);
        vstd::arithmetic::mul::lemma_mul_inequality_converse(nwif * q, n, wb);
        vstd::arithmetic::mul::lemma_mul_is_commutative(q, nwif);
    }
    // n < (q + 1) * nwif: n * wb < (q + 1) * fb
    assert(n < (q + 1) * nwif) by {
        vstd::arithmetic::div_mod::lemma_fundamental_div_mod(n * wb, fb);
        assert((n * wb) % fb < fb) by {
            vstd::arithmetic::div_mod::lemma_mod_bound(n * wb, fb);
        }
        assert(n * wb < fb * (q + 1)) by {
            vstd::arithmetic::mul::lemma_mul_is_distributive_add(fb, q, 1);
        }
        assert(fb * (q + 1) == (nwif * (q + 1)) * wb) by {
            vstd::arithmetic::mul::lemma_mul_is_associative(wb, nwif, q + 1);
            vstd::arithmetic::mul::lemma_mul_is_commutative(wb, nwif * (q + 1));
        }
        assert(n * wb < (nwif * (q + 1)) * wb);
        vstd::arithmetic::mul::lemma_mul_strict_inequality_converse(n, nwif * (q + 1), wb);
        vstd::arithmetic::mul::lemma_mul_is_commutative(q + 1, nwif);
    }
    assert((q + 1) * nwif == q * nwif + nwif) by {
        vstd::arithmetic::mul::lemma_mul_is_distributive_add_other_way(nwif, q, 1);
    }
}

/// The witness grid: one advice column, one fixed column, and the four
/// selector columns, each a value or flag per row.
pub struct DSKWitness {
    pub advice: Vec<Fe>,
    pub fixed: Vec<Fe>,
    pub q_raw_cards: Vec<bool>,
    pub q_range_check: Vec<bool>,
    pub q_key_equal: Vec<bool>,
    pub q_compressor: Vec<bool>,
}

impl DSKWitness {
    /// The advice value at a row.
    pub open spec fn val(&self, r: int) -> nat {
        self.advice@[r].value()
    }

    /// The fixed-column value at a row.
    pub open spec fn fval(&self, j: int) -> nat {
        self.fixed@[j].value()
    }

    /// Well-formedness: column lengths agree with the layout and every cell
    /// is a canonical field element.
    pub open spec fn wf(&self, cfg: DSKConfig) -> bool {
        &&& cfg.wf()
        &&& self.advice@.len() == cfg.total_rows()
        &&& self.fixed@.len() == cfg.num_cards
        &&& self.q_raw_cards@.len() == self.advice@.len()
        &&& self.q_range_check@.len() == self.advice@.len()
        &&& self.q_key_equal@.len() == self.advice@.len()
        &&& self.q_compressor@.len() == self.advice@.len()
        &&& forall|r: int| 0 <= r < self.advice@.len() ==> (#[trigger] self.advice@[r]).inv()
        &&& forall|j: int| 0 <= j < self.fixed@.len() ==> (#[trigger] self.fixed@[j]).inv()
    }

    /// The distinctness lookup's witness-side expression at a row: the
    /// advice value where the card selector is on, zero elsewhere.
    pub open spec fn raw_expr(&self, r: int) -> nat {
        if self.q_raw_cards@[r] {
            self.val(r)
        } else {
            0
        }
    }

    /// Some row's gated card expression takes this value.
    pub open spec fn covers_value(&self, v: nat) -> bool {
        exists|r: int| 0 <= r < self.advice@.len() && #[trigger] self.raw_expr(r) == v
    }

    /// The distinctness lookup: every fixed-column entry must occur among
    /// the selector-gated card expressions.  (The table side is the witness
    /// column: this proves the cards cover the table, not that they are
    /// pairwise distinct on its own.)
    pub open spec fn uniq_lookup_ok(&self) -> bool {
        forall|j: int| 0 <= j < self.fixed@.len() ==> self.covers_value(#[trigger] self.fval(j))
    }

    /// Membership in the fixed table.
    pub open spec fn in_table(&self, v: nat) -> bool {
        exists|j: int| 0 <= j < self.fixed@.len() && #[trigger] self.fval(j) == v
    }

    /// The range lookup: wherever its selector is on, the advice value must
    /// occur in the fixed table.
    pub open spec fn range_lookup_ok(&self) -> bool {
        forall|r: int|
            0 <= r < self.advice@.len() && #[trigger] self.q_range_check@[r] ==> self.in_table(
                self.val(r),
            )
    }

    /// The key-equality gate: wherever its selector is on, the cell equals
    /// the cell one row below.
    pub open spec fn key_equal_ok(&self) -> bool {
        forall|r: int|
            0 <= r < self.advice@.len() && #[trigger] self.q_key_equal@[r] ==> r + 1
                < self.advice@.len() && self.val(r) == self.val(r + 1)
    }

    /// The encryption gate: wherever the card selector is on, reading the
    /// key, quotient and encrypted cells at offsets of N, the identity
    /// `card + key - quotient*N - encrypted = 0` holds over the field.
    pub open spec fn encryption_gate_ok(&self, cfg: DSKConfig) -> bool {
        forall|r: int|
            0 <= r < self.advice@.len() && #[trigger] self.q_raw_cards@[r] ==> r + 3
                * cfg.num_cards < self.advice@.len() && fadd(
                self.val(r),
                self.val(r + cfg.num_cards),
            ) == fadd(
                fmul(self.val(r + 2 * cfg.num_cards), cfg.num_cards as nat),
                self.val(r + 3 * cfg.num_cards),
            )
    }

    /// The word cells a compression row reads, at negative offsets spanning
    /// one slot.
    pub open spec fn word_row_vals(&self, start: int, count: int) -> Seq<nat> {
        Seq::new(count as nat, |k: int| self.val(start + k))
    }

    /// The compression gate: wherever its selector is on, the cell equals
    /// the positional accumulation, over the field, of the slot's word
    /// cells, read at negative rotations.
    pub open spec fn compression_gate_ok(&self, cfg: DSKConfig) -> bool {
        forall|r: int|
            0 <= r < self.advice@.len() && #[trigger] self.q_compressor@[r] ==> {
                let span = cfg.num_slots() * cfg.words_per_slot();
                r >= span && self.val(r) == pack_field_value(
                    self.word_row_vals(r - span, cfg.words_per_slot()),
                    cfg.word_base(),
                )
            }
    }

    /// The hash constraint: the digest cell holds the sponge digest of the
    /// key cell and the salt cell.
    pub open spec fn hash_ok(&self, cfg: DSKConfig) -> bool {
        self.val(cfg.digest_row()) == poseidon2_of(self.val(cfg.key_row()), self.val(cfg.salt_row()))
    }

    /// The instance bindings: the provided public instances are the packed
    /// slot cells in order, then the digest cell.
    pub open spec fn instance_ok(&self, cfg: DSKConfig, inst: Seq<nat>) -> bool {
        &&& inst.len() == cfg.num_slots() + 1
        &&& forall|i: int| 0 <= i < cfg.num_slots() ==> #[trigger] inst[i] == self.val(cfg.slot_row(i))
        &&& inst[cfg.num_slots()] == self.val(cfg.digest_row())
    }

    /// The whole constraint system, over a grid and a public instance
    /// vector.
    pub open spec fn satisfied(&self, cfg: DSKConfig, inst: Seq<nat>) -> bool {
        &&& self.uniq_lookup_ok()
        &&& self.range_lookup_ok()
        &&& self.key_equal_ok()
        &&& self.encryption_gate_ok(cfg)
        &&& self.compression_gate_ok(cfg)
        &&& self.hash_ok(cfg)
        &&& self.instance_ok(cfg, inst)
    }
}

/// Positional accumulation as a compression row evaluates it: over the field,
/// reducing after every scale-and-add step.
pub open spec fn pack_field_value(words: Seq<nat>, base: nat) -> nat
    decreases words.len(),
{
    if words.len() == 0 {
        0
    } else {
        (pack_field_value(words.drop_last(), base) * base + words.last()) % field_modulus()
    }
}

/// When the words are bounded and the whole slot fits below the modulus,
/// the in-field accumulation never wraps: it equals the exact packing.
pub proof fn lemma_pack_field_no_wrap(words: Seq<nat>, base: nat)
    requires
        base >= 1,
        forall|i: int| 0 <= i < words.len() ==> #[trigger] words[i] < base,
        pow(base as int, words.len() as nat) < field_modulus(),
    ensures
        pack_field_value(words, base) == pack_value(words, base),
    decreases words.len(),
{
    if words.len() > 0 {
        let front = words.drop_last();
        assert(pow(base as int, front.len() as nat) < field_modulus()) by {
            vstd::arithmetic::power::lemma_pow_increases(
                base as nat,
                front.len() as nat,
                words.len() as nat,
            );
        }
        lemma_pack_field_no_wrap(front, base);
        crate::packing::lemma_pack_value_bound(words, base);
        vstd::arithmetic::div_mod::lemma_small_mod(pack_value(words, base), field_modulus());
    }
}


/// The circuit instance: the prover's private inputs.
#[derive(Debug)]
pub struct DistinctSingleKeyCircuit {
    pub raw_cards: Vec<u64>,
    pub key: u64,
    pub key_salt: Fe,
}

/// The encrypted form of one card: the sum with the key, reduced modulo the
/// card count.
pub open spec fn enc_value(card: u64, key: u64, n: nat) -> nat {
    ((card + key) as nat) % n
}

/// The quotient witness for one card: how many times the modulus fits into
/// the raw sum.
pub open spec fn quot_value(card: u64, key: u64, n: nat) -> nat {
    ((card + key) as nat) / n
}

/// All encrypted cards, as packable words.
pub open spec fn enc_cards(cards: Seq<u64>, key: u64, n: nat) -> Seq<u64> {
    Seq::new(cards.len(), |i: int| enc_value(cards[i], key, n) as u64)
}

/// The value of packed slot `i`: the positional accumulation of its words.
pub open spec fn spec_slot(cards: Seq<u64>, key: u64, cfg: DSKConfig, i: int) -> nat {
    pack_value(
        slot_words(
            enc_cards(cards, key, cfg.num_cards as nat),
            i * cfg.words_per_slot(),
            cfg.words_per_slot(),
        ),
        cfg.word_base(),
    )
}

/// The pure instance computation: the packed slots in order, then the
/// commitment digest of (key, salt).
pub open spec fn spec_instances(cards: Seq<u64>, key: u64, salt: nat, cfg: DSKConfig) -> Seq<nat> {
    Seq::new(
        (cfg.num_slots() + 1) as nat,
        |i: int|
            if i < cfg.num_slots() {
                spec_slot(cards, key, cfg, i)
            } else {
                poseidon2_of(key as nat, salt)
            },
    )
}

/// Whether a value occurs among the cards.
pub open spec fn covered(cards: Seq<u64>, v: int) -> bool {
    exists|i: int| 0 <= i < cards.len() && #[trigger] cards[i] == v
}

/// The inputs on which the constraint system accepts the honest witness:
/// every card and the key in range, and every nonzero table value covered by
/// some card.  (Zero is always covered, by the gated expression of any row
/// whose card selector is off: the known gap in the distinctness lookup.)
pub open spec fn accepted(cards: Seq<u64>, key: u64, n: nat) -> bool {
    &&& forall|i: int| 0 <= i < cards.len() ==> #[trigger] cards[i] < n
    &&& (key as nat) < n
    &&& forall|v: int| 1 <= v < n ==> #[trigger] covered(cards, v)
}

/// The value the honest synthesis assigns to each advice row.
pub open spec fn row_value(cards: Seq<u64>, key: u64, salt: nat, cfg: DSKConfig, r: int) -> nat {
    let n = cfg.num_cards as int;
    if r < n {
        cards[r] as nat
    } else if r < 2 * n {
        key as nat
    } else if r < 3 * n {
        quot_value(cards[r - 2 * n], key, cfg.num_cards as nat)
    } else if r < cfg.slots_start() {
        if r - cfg.words_start() < n {
            enc_value(cards[r - cfg.words_start()], key, cfg.num_cards as nat)
        } else {
            0
        }
    } else if r < cfg.salt_row() {
        if (r - cfg.slots_start()) % cfg.words_per_slot() == 0 {
            spec_slot(cards, key, cfg, (r - cfg.slots_start()) / cfg.words_per_slot())
        } else {
            0
        }
    } else if r == cfg.salt_row() {
        salt
    } else {
        poseidon2_of(key as nat, salt)
    }
}

/// Where the card selector is on: the card rows.
pub open spec fn sel_raw(cfg: DSKConfig, r: int) -> bool {
    r < cfg.num_cards
}

/// Where the range selector is on: the card rows, the key rows, and the
/// encrypted-card rows.
pub open spec fn sel_range(cfg: DSKConfig, r: int) -> bool {
    r < 2 * cfg.num_cards || (3 * cfg.num_cards <= r < 4 * cfg.num_cards)
}

/// Where the key-equality selector is on: every key row but the last.
pub open spec fn sel_key_equal(cfg: DSKConfig, r: int) -> bool {
    cfg.num_cards <= r < 2 * cfg.num_cards - 1
}

/// Where the compression selector is on: the slot rows.
pub open spec fn sel_compressor(cfg: DSKConfig, r: int) -> bool {
    cfg.slots_start() <= r < cfg.salt_row() && (r - cfg.slots_start()) % cfg.words_per_slot() == 0
}

impl DSKWitness {
    /// The grid is exactly the honest synthesis of the given inputs: every
    /// advice row holds its computed value, the fixed column holds the range
    /// table, and every selector follows its layout.
    pub open spec fn matches(&self, cards: Seq<u64>, key: u64, salt: nat, cfg: DSKConfig) -> bool {
        &&& cards.len() == cfg.num_cards
        &&& forall|r: int|
            0 <= r < self.advice@.len() ==> #[trigger] self.val(r) == row_value(
                cards,
                key,
                salt,
                cfg,
                r,
            )
        &&& forall|j: int| 0 <= j < self.fixed@.len() ==> #[trigger] self.fval(j) == j
        &&& forall|r: int|
            0 <= r < self.advice@.len() ==> #[trigger] self.q_raw_cards@[r] == sel_raw(cfg, r)
        &&& forall|r: int|
            0 <= r < self.advice@.len() ==> #[trigger] self.q_range_check@[r] == sel_range(cfg, r)
        &&& forall|r: int|
            0 <= r < self.advice@.len() ==> #[trigger] self.q_key_equal@[r] == sel_key_equal(
                cfg,
                r,
            )
        &&& forall|r: int|
            0 <= r < self.advice@.len() ==> #[trigger] self.q_compressor@[r] == sel_compressor(
                cfg,
                r,
            )
    }
}


/// A grid under construction: every row assigned so far already carries its
/// honest value and selector flags, and the fixed column holds the table.
pub open spec fn built(
    g: DSKWitness,
    cards: Seq<u64>,
    key: u64,
    salt: nat,
    cfg: DSKConfig,
) -> bool {
    &&& g.q_raw_cards@.len() == g.advice@.len()
    &&& g.q_range_check@.len() == g.advice@.len()
    &&& g.q_key_equal@.len() == g.advice@.len()
    &&& g.q_compressor@.len() == g.advice@.len()
    &&& g.fixed@.len() == cfg.num_cards
    &&& forall|j: int| 0 <= j < g.fixed@.len() ==> (#[trigger] g.fixed@[j]).inv()
    &&& forall|j: int| 0 <= j < g.fixed@.len() ==> #[trigger] g.fval(j) == j
    &&& forall|r: int| 0 <= r < g.advice@.len() ==> (#[trigger] g.advice@[r]).inv()
    &&& forall|r: int|
        0 <= r < g.advice@.len() ==> #[trigger] g.val(r) == row_value(cards, key, salt, cfg, r)
    &&& forall|r: int|
        0 <= r < g.advice@.len() ==> #[trigger] g.q_raw_cards@[r] == sel_raw(cfg, r)
    &&& forall|r: int|
        0 <= r < g.advice@.len() ==> #[trigger] g.q_range_check@[r] == sel_range(cfg, r)
    &&& forall|r: int|
        0 <= r < g.advice@.len() ==> #[trigger] g.q_key_equal@[r] == sel_key_equal(cfg, r)
    &&& forall|r: int|
        0 <= r < g.advice@.len() ==> #[trigger] g.q_compressor@[r] == sel_compressor(cfg, r)
}

/// Appending one honest row keeps a grid honestly built.
pub proof fn lemma_built_push(
    g0: DSKWitness,
    g1: DSKWitness,
    cards: Seq<u64>,
    key: u64,
    salt: nat,
    cfg: DSKConfig,
    x: Fe,
    b_raw: bool,
    b_range: bool,
    b_key: bool,
    b_comp: bool,
)
    requires
        built(g0, cards, key, salt, cfg),
        g1.advice@ == g0.advice@.push(x),
        g1.q_raw_cards@ == g0.q_raw_cards@.push(b_raw),
        g1.q_range_check@ == g0.q_range_check@.push(b_range),
        g1.q_key_equal@ == g0.q_key_equal@.push(b_key),
        g1.q_compressor@ == g0.q_compressor@.push(b_comp),
        g1.fixed@ == g0.fixed@,
        x.inv(),
        x.value() == row_value(cards, key, salt, cfg, g0.advice@.len() as int),
        b_raw == sel_raw(cfg, g0.advice@.len() as int),
        b_range == sel_range(cfg, g0.advice@.len() as int),
        b_key == sel_key_equal(cfg, g0.advice@.len() as int),
        b_comp == sel_compressor(cfg, g0.advice@.len() as int),
    ensures
        built(g1, cards, key, salt, cfg),
{
    let len0 = g0.advice@.len() as int;
    assert forall|j: int| 0 <= j < g1.fixed@.len() implies (#[trigger] g1.fixed@[j]).inv() by {
        assert(g1.fixed@[j] == g0.fixed@[j]);
        assert(g0.fixed@[j].inv());
    }
    assert forall|j: int| 0 <= j < g1.fixed@.len() implies #[trigger] g1.fval(j) == j by {
        assert(g1.fixed@[j] == g0.fixed@[j]);
        assert(g0.fval(j) == j);
    }
    assert forall|r: int| 0 <= r < g1.advice@.len() implies (#[trigger] g1.advice@[r]).inv() by {
        if r < len0 {
            assert(g1.advice@[r] == g0.advice@[r]);
            assert(g0.advice@[r].inv());
        } else {
            assert(g1.advice@[r] == x);
        }
    }
    assert forall|r: int| 0 <= r < g1.advice@.len() implies #[trigger] g1.val(r) == row_value(
        cards,
        key,
        salt,
        cfg,
        r,
    ) by {
        if r < len0 {
            assert(g1.advice@[r] == g0.advice@[r]);
            assert(g0.val(r) == row_value(cards, key, salt, cfg, r));
        } else {
            assert(g1.advice@[r] == x);
        }
    }
    assert forall|r: int| 0 <= r < g1.advice@.len() implies #[trigger] g1.q_raw_cards@[r]
        == sel_raw(cfg, r) by {
        if r < len0 {
            assert(g1.q_raw_cards@[r] == g0.q_raw_cards@[r]);
        }
    }
    assert forall|r: int| 0 <= r < g1.advice@.len() implies #[trigger] g1.q_range_check@[r]
        == sel_range(cfg, r) by {
        if r < len0 {
            assert(g1.q_range_check@[r] == g0.q_range_check@[r]);
        }
    }
    assert forall|r: int| 0 <= r < g1.advice@.len() implies #[trigger] g1.q_key_equal@[r]
        == sel_key_equal(cfg, r) by {
        if r < len0 {
            assert(g1.q_key_equal@[r] == g0.q_key_equal@[r]);
        }
    }
    assert forall|r: int| 0 <= r < g1.advice@.len() implies #[trigger] g1.q_compressor@[r]
        == sel_compressor(cfg, r) by {
        if r < len0 {
            assert(g1.q_compressor@[r] == g0.q_compressor@[r]);
        }
    }
}


impl DistinctSingleKeyCircuit {
    /// Declares the schema once for the given parameters: columns,
    /// selectors, gates and the lookup table.  A malformed parameter
    /// combination is rejected here, before any witness exists.
    pub fn configure(num_cards: usize, word_bytes: usize, field_bytes: usize) -> (cfg: DSKConfig)
        requires
            (DSKConfig { num_cards, word_bytes, field_bytes }).wf(),
        ensures
            cfg == (DSKConfig { num_cards, word_bytes, field_bytes }),
            cfg.wf(),
    {
        DSKConfig { num_cards, word_bytes, field_bytes }
    }

    /// Walks the schema and assigns the whole witness grid from the concrete
    /// inputs, row by row, enabling the selectors the layout calls for.  The
    /// grid produced is exactly the honest synthesis of the inputs — every
    /// cell value and selector flag is pinned down — whether or not the
    /// inputs would satisfy the constraints.
    pub fn synthesize(&self, config: &DSKConfig) -> (g: DSKWitness)
        requires
            config.wf(),
            self.raw_cards@.len() == config.num_cards,
            self.key_salt.inv(),
        ensures
            g.wf(*config),
            g.matches(self.raw_cards@, self.key, self.key_salt.value(), *config),
            g.instance_ok(
                *config,
                spec_instances(self.raw_cards@, self.key, self.key_salt.value(), *config),
            ),
            forall|inst: Seq<nat>|
                g.satisfied(*config, inst) <==> (inst =~= spec_instances(
                    self.raw_cards@,
                    self.key,
                    self.key_salt.value(),
                    *config,
                ) && accepted(self.raw_cards@, self.key, config.num_cards as nat)),
    {
        let cfg = *config;
        let ghost cards = self.raw_cards@;
        let ghost salt = self.key_salt.value();
        let key = self.key;
        let n = cfg.num_cards;
        let nwif = cfg.field_bytes / cfg.word_bytes;
        proof {
            vstd::arithmetic::mul::lemma_mul_upper_bound(
                n as int,
                0x10_0000,
                cfg.word_bytes as int,
                7,
            );
        }
        let ns = n * cfg.word_bytes / cfg.field_bytes + 1;
        proof {
            lemma_layout_bounds(cfg);
            assert(nwif as int == cfg.words_per_slot());
            assert(ns as int == cfg.num_slots());
        }
        let wcount = ns * nwif;

        // the positional base and the encrypted cards
        let base = compute_word_base(&cfg);
        let enc = self.encrypted_cards(config);

        // the fixed column: the range table 0..n
        let mut fixed: Vec<Fe> = Vec::new();
        let mut j: usize = 0;
        while j < n
            invariant
                j <= n,
                fixed@.len() == j,
                forall|t: int|
                    0 <= t < j ==> (#[trigger] fixed@[t]).inv() && fixed@[t].value() == t,
            decreases n - j,
        {
            fixed.push(fe_from_u64(j as u64));
            j = j + 1;
        }

        let mut g = DSKWitness {
            advice: Vec::new(),
            fixed,
            q_raw_cards: Vec::new(),
            q_range_check: Vec::new(),
            q_key_equal: Vec::new(),
            q_compressor: Vec::new(),
        };
        proof {
            assert forall|t: int| 0 <= t < g.fixed@.len() implies #[trigger] g.fval(t) == t by {
                assert(g.fixed@[t].value() == t);
            }
            assert(built(g, cards, key, salt, cfg));
        }

        // raw-card rows
        let mut i: usize = 0;
        while i < n
            invariant
                i <= n,
                n == cfg.num_cards,
                cfg.wf(),
                self.raw_cards@ == cards,
                cards.len() == n,
                key == self.key,
                built(g, cards, key, salt, cfg),
                g.advice@.len() == i,
            decreases n - i,
        {
            let ghost g0 = g;
            let ghost r = g.advice@.len() as int;
            let x = fe_from_u64(self.raw_cards[i]);
            g.advice.push(x);
            g.q_raw_cards.push(true);
            g.q_range_check.push(true);
            g.q_key_equal.push(false);
            g.q_compressor.push(false);
            proof {
                lemma_layout_bounds(cfg);
                assert(row_value(cards, key, salt, cfg, r) == cards[r] as nat);
                lemma_built_push(g0, g, cards, key, salt, cfg, x, true, true, false, false);
            }
            i = i + 1;
        }

        // key-repetition rows
        let key_fe = fe_from_u64(key);
        let mut i: usize = 0;
        while i < n
            invariant
                i <= n,
                n == cfg.num_cards,
                cfg.wf(),
                cards.len() == n,
                key == self.key,
                key_fe.inv(),
                key_fe.value() == key as nat,
                built(g, cards, key, salt, cfg),
                g.advice@.len() == n + i,
            decreases n - i,
        {
            let ghost g0 = g;
            let ghost r = g.advice@.len() as int;
            let x = key_fe.dup();
            let on_key_gate = i < n - 1;
            g.advice.push(x);
            g.q_raw_cards.push(false);
            g.q_range_check.push(true);
            g.q_key_equal.push(on_key_gate);
            g.q_compressor.push(false);
            proof {
                lemma_layout_bounds(cfg);
                assert(row_value(cards, key, salt, cfg, r) == key as nat);
                assert(on_key_gate == sel_key_equal(cfg, r));
                lemma_built_push(g0, g, cards, key, salt, cfg, x, false, true, on_key_gate, false);
            }
            i = i + 1;
        }

        // quotient rows
        let mut i: usize = 0;
        while i < n
            invariant
                i <= n,
                n == cfg.num_cards,
                cfg.wf(),
                self.raw_cards@ == cards,
                cards.len() == n,
                key == self.key,
                built(g, cards, key, salt, cfg),
                g.advice@.len() == 2 * n + i,
            decreases n - i,
        {
            let ghost g0 = g;
            let ghost r = g.advice@.len() as int;
            let sum: u128 = self.raw_cards[i] as u128 + key as u128;
            let q: u128 = sum / (n as u128);
            let x = fe_from_u128(q);
            g.advice.push(x);
            g.q_raw_cards.push(false);
            g.q_range_check.push(false);
            g.q_key_equal.push(false);
            g.q_compressor.push(false);
            proof {
                lemma_layout_bounds(cfg);
                assert(row_value(cards, key, salt, cfg, r) == quot_value(
                    cards[i as int],
                    key,
                    n as nat,
                ));
                lemma_built_push(g0, g, cards, key, salt, cfg, x, false, false, false, false);
            }
            i = i + 1;
        }

        // word rows: the encrypted cards, zero-padded to whole slots
        let mut i: usize = 0;
        while i < wcount
            invariant
                i <= wcount,
                n == cfg.num_cards,
                cfg.wf(),
                cards.len() == n,
                key == self.key,
                wcount as int == cfg.num_slots() * cfg.words_per_slot(),
                enc@ == enc_cards(cards, key, n as nat),
                enc@.len() == n,
                built(g, cards, key, salt, cfg),
                g.advice@.len() == 3 * n + i,
            decreases wcount - i,
        {
            let ghost g0 = g;
            let ghost r = g.advice@.len() as int;
            let in_cards = i < n;
            let x = if in_cards {
                fe_from_u64(enc[i])
            } else {
                fe_from_u64(0)
            };
            g.advice.push(x);
            g.q_raw_cards.push(false);
            g.q_range_check.push(in_cards);
            g.q_key_equal.push(false);
            g.q_compressor.push(false);
            proof {
                lemma_layout_bounds(cfg);
                assert(r - cfg.words_start() == i);
                if in_cards {
                    assert(enc@[i as int] as nat == enc_value(cards[i as int], key, n as nat));
                    assert(row_value(cards, key, salt, cfg, r) == enc_value(
                        cards[i as int],
                        key,
                        n as nat,
                    ));
                } else {
                    assert(row_value(cards, key, salt, cfg, r) == 0);
                }
                assert(in_cards == sel_range(cfg, r));
                lemma_built_push(g0, g, cards, key, salt, cfg, x, false, in_cards, false, false);
            }
            i = i + 1;
        }

        // slot rows, with zero filler rows between them
        let mut i: usize = 0;
        while i < ns
            invariant
                i <= ns,
                n == cfg.num_cards,
                cfg.wf(),
                cards.len() == n,
                key == self.key,
                ns as int == cfg.num_slots(),
                nwif as int == cfg.words_per_slot(),
                base as nat == cfg.word_base(),
                enc@ == enc_cards(cards, key, n as nat),
                enc@.len() == n,
                built(g, cards, key, salt, cfg),
                i < ns ==> g.advice@.len() == cfg.slots_start() + i * cfg.words_per_slot(),
                i == ns ==> g.advice@.len() == cfg.salt_row(),
            decreases ns - i,
        {
            let ghost g0 = g;
            let ghost r = g.advice@.len() as int;
            proof {
                lemma_layout_bounds(cfg);
                vstd::arithmetic::mul::lemma_mul_inequality(
                    i as int,
                    ns as int - 1,
                    nwif as int,
                );
                vstd::arithmetic::mul::lemma_mul_nonnegative(i as int, nwif as int);
                assert(pow(base as int, nwif as nat) < field_modulus()) by {
                    vstd::arithmetic::power::lemma_pow_positive(256, cfg.word_bytes as nat);
                    vstd::arithmetic::power::lemma_pow_multiplies(
                        256,
                        cfg.word_bytes as nat,
                        nwif as nat,
                    );
                    crate::field::lemma_pow256_31_below_modulus(cfg.field_bytes as nat);
                }
                assert forall|t: int|
                    i * nwif <= t < i * nwif + nwif && t < enc@.len() implies #[trigger] enc@[t]
                    < base by {
                    assert(enc@[t] as nat == enc_value(cards[t], key, n as nat));
                    vstd::arithmetic::div_mod::lemma_mod_bound(
                        (cards[t] + key) as int,
                        n as int,
                    );
                }
            }
            let start = i * nwif;
            let x = pack_slot(&enc, start, nwif, base);
            g.advice.push(x);
            g.q_raw_cards.push(false);
            g.q_range_check.push(false);
            g.q_key_equal.push(false);
            g.q_compressor.push(true);
            proof {
                lemma_layout_bounds(cfg);
                let d = r - cfg.slots_start();
                assert(d == i * nwif);
                assert(d % (nwif as int) == 0) by {
                    vstd::arithmetic::div_mod::lemma_mod_multiples_basic(i as int, nwif as int);
                }
                assert(d / (nwif as int) == i) by {
                    vstd::arithmetic::div_mod::lemma_div_by_multiple(i as int, nwif as int);
                }
                assert(r < cfg.salt_row());
                assert(sel_compressor(cfg, r));
                assert(x.value() == spec_slot(cards, key, cfg, i as int));
                assert(row_value(cards, key, salt, cfg, r) == spec_slot(cards, key, cfg, i as int));
                assert(!sel_range(cfg, r));
                assert(!sel_raw(cfg, r));
                assert(!sel_key_equal(cfg, r));
                lemma_built_push(g0, g, cards, key, salt, cfg, x, false, false, false, true);
            }
            if i + 1 < ns {
                let mut t: usize = 1;
                while t < nwif
                    invariant
                        1 <= t <= nwif,
                        i + 1 < ns,
                        n == cfg.num_cards,
                        cfg.wf(),
                        cards.len() == n,
                        key == self.key,
                        ns as int == cfg.num_slots(),
                        nwif as int == cfg.words_per_slot(),
                        built(g, cards, key, salt, cfg),
                        g.advice@.len() == cfg.slots_start() + i * cfg.words_per_slot() + t,
                    decreases nwif - t,
                {
                    let ghost g0 = g;
                    let ghost r = g.advice@.len() as int;
                    let x = fe_from_u64(0);
                    g.advice.push(x);
                    g.q_raw_cards.push(false);
                    g.q_range_check.push(false);
                    g.q_key_equal.push(false);
                    g.q_compressor.push(false);
                    proof {
                        lemma_layout_bounds(cfg);
                        let d = r - cfg.slots_start();
                        assert(d == i * nwif + t);
                        assert(d % (nwif as int) == t) by {
                            vstd::arithmetic::mul::lemma_mul_is_commutative(i as int, nwif as int);
                            vstd::arithmetic::div_mod::lemma_mod_multiples_vanish(
                                i as int,
                                t as int,
                                nwif as int,
                            );
                            vstd::arithmetic::div_mod::lemma_small_mod(t as nat, nwif as nat);
                        }
                        assert(r < cfg.salt_row()) by {
                            assert(i * nwif + t < (i + 1) * (nwif as int)) by {
                                vstd::arithmetic::mul::lemma_mul_is_distributive_add_other_way(
                                    nwif as int,
                                    i as int,
                                    1,
                                );
                            }
                            assert((i + 1) * (nwif as int) <= (ns as int - 1) * (nwif as int)) by {
                                vstd::arithmetic::mul::lemma_mul_inequality(
                                    i as int + 1,
                                    ns as int - 1,
                                    nwif as int,
                                );
                            }
                        }
                        assert(row_value(cards, key, salt, cfg, r) == 0);
                        assert(!sel_compressor(cfg, r));
                        assert(!sel_range(cfg, r));
                        lemma_built_push(g0, g, cards, key, salt, cfg, x, false, false, false, false);
                    }
                    t = t + 1;
                }
                proof {
                    vstd::arithmetic::mul::lemma_mul_is_distributive_add_other_way(
                        nwif as int,
                        i as int,
                        1,
                    );
                }
            }
            i = i + 1;
        }

        // the salt cell
        let ghost g0 = g;
        let ghost r = g.advice@.len() as int;
        let x = self.key_salt.dup();
        g.advice.push(x);
        g.q_raw_cards.push(false);
        g.q_range_check.push(false);
        g.q_key_equal.push(false);
        g.q_compressor.push(false);
        proof {
            lemma_layout_bounds(cfg);
            assert(row_value(cards, key, salt, cfg, r) == salt);
            lemma_built_push(g0, g, cards, key, salt, cfg, x, false, false, false, false);
        }

        // the commitment digest of (key, salt)
        let ghost g0 = g;
        let ghost r = g.advice@.len() as int;
        let x = poseidon_sync(&key_fe, &self.key_salt);
        g.advice.push(x);
        g.q_raw_cards.push(false);
        g.q_range_check.push(false);
        g.q_key_equal.push(false);
        g.q_compressor.push(false);
        proof {
            lemma_layout_bounds(cfg);
            assert(row_value(cards, key, salt, cfg, r) == poseidon2_of(key as nat, salt));
            lemma_built_push(g0, g, cards, key, salt, cfg, x, false, false, false, false);
            assert(g.advice@.len() == cfg.total_rows());
            lemma_matches_instances(g, cards, key, salt, cfg);
            assert forall|inst: Seq<nat>|
                g.satisfied(cfg, inst) <==> (inst =~= spec_instances(cards, key, salt, cfg)
                    && accepted(cards, key, cfg.num_cards as nat)) by {
                lemma_matches_satisfaction(g, cards, key, salt, cfg, inst);
            }
        }
        g
    }
}


/// Facts about the honest grid's special rows.
pub proof fn lemma_matches_rows(g: DSKWitness, cards: Seq<u64>, key: u64, salt: nat, cfg: DSKConfig)
    requires
        g.wf(cfg),
        g.matches(cards, key, salt, cfg),
    ensures
        forall|i: int|
            0 <= i < cfg.num_slots() ==> #[trigger] g.val(cfg.slot_row(i)) == spec_slot(
                cards,
                key,
                cfg,
                i,
            ),
        g.val(cfg.key_row()) == key as nat,
        g.val(cfg.salt_row()) == salt,
        g.val(cfg.digest_row()) == poseidon2_of(key as nat, salt),
{
    lemma_layout_bounds(cfg);
    let n = cfg.num_cards as int;
    let nwif = cfg.words_per_slot();
    let ns = cfg.num_slots();
    assert forall|i: int| 0 <= i < ns implies #[trigger] g.val(cfg.slot_row(i)) == spec_slot(
        cards,
        key,
        cfg,
        i,
    ) by {
        let r = cfg.slot_row(i);
        let d = i * nwif;
        vstd::arithmetic::mul::lemma_mul_nonnegative(i, nwif);
        vstd::arithmetic::mul::lemma_mul_inequality(i, ns - 1, nwif);
        assert(d % nwif == 0) by {
            vstd::arithmetic::div_mod::lemma_mod_multiples_basic(i, nwif);
        }
        assert(d / nwif == i) by {
            vstd::arithmetic::div_mod::lemma_div_by_multiple(i, nwif);
        }
        assert(0 <= r < g.advice@.len());
        assert(g.val(r) == row_value(cards, key, salt, cfg, r));
        assert(row_value(cards, key, salt, cfg, r) == spec_slot(cards, key, cfg, i));
    }
    assert(0 <= cfg.key_row() < g.advice@.len());
    assert(g.val(cfg.key_row()) == row_value(cards, key, salt, cfg, cfg.key_row()));
    assert(0 <= cfg.slot_row(ns - 1)) by {
        vstd::arithmetic::mul::lemma_mul_nonnegative(ns - 1, nwif);
    }
    assert(g.val(cfg.salt_row()) == row_value(cards, key, salt, cfg, cfg.salt_row()));
    assert(g.val(cfg.digest_row()) == row_value(cards, key, salt, cfg, cfg.digest_row()));
}

/// The honest grid exposes exactly the pure instance computation: the
/// packed slots in order, then the digest.
pub proof fn lemma_matches_instances(
    g: DSKWitness,
    cards: Seq<u64>,
    key: u64,
    salt: nat,
    cfg: DSKConfig,
)
    requires
        g.wf(cfg),
        g.matches(cards, key, salt, cfg),
    ensures
        g.instance_ok(cfg, spec_instances(cards, key, salt, cfg)),
{
    lemma_matches_rows(g, cards, key, salt, cfg);
    lemma_layout_bounds(cfg);
}

/// What the constraint system says of the honest grid: the gates hold
/// outright; the lookups hold exactly when every card and the key lie in
/// range and the cards cover every nonzero table value; and the instance
/// bindings hold exactly of the pure instance computation.
pub proof fn lemma_matches_satisfaction(
    g: DSKWitness,
    cards: Seq<u64>,
    key: u64,
    salt: nat,
    cfg: DSKConfig,
    inst: Seq<nat>,
)
    requires
        g.wf(cfg),
        g.matches(cards, key, salt, cfg),
    ensures
        g.satisfied(cfg, inst) <==> (inst =~= spec_instances(cards, key, salt, cfg) && accepted(
            cards,
            key,
            cfg.num_cards as nat,
        )),
{
    lemma_layout_bounds(cfg);
    lemma_matches_rows(g, cards, key, salt, cfg);
    let n = cfg.num_cards as int;
    let nwif = cfg.words_per_slot();
    let ns = cfg.num_slots();
    let p = field_modulus();
    let len = g.advice@.len() as int;

    // the key-equality gate holds outright
    assert(g.key_equal_ok()) by {
        assert forall|r: int| 0 <= r < len && #[trigger] g.q_key_equal@[r] implies r + 1 < len
            && g.val(r) == g.val(r + 1) by {
            assert(sel_key_equal(cfg, r));
            assert(g.val(r) == row_value(cards, key, salt, cfg, r));
            assert(g.val(r + 1) == row_value(cards, key, salt, cfg, r + 1));
        }
    }

    // the encryption gate holds outright
    assert(g.encryption_gate_ok(cfg)) by {
        assert forall|r: int| 0 <= r < len && #[trigger] g.q_raw_cards@[r] implies r + 3 * n < len
            && fadd(g.val(r), g.val(r + n)) == fadd(
            fmul(g.val(r + 2 * n), cfg.num_cards as nat),
            g.val(r + 3 * n),
        ) by {
            assert(sel_raw(cfg, r));
            let c = cards[r] as nat;
            let k = key as nat;
            let q = quot_value(cards[r], key, n as nat);
            let e = enc_value(cards[r], key, n as nat);
            assert(g.val(r) == c);
            assert(g.val(r + n) == row_value(cards, key, salt, cfg, r + n));
            assert(g.val(r + n) == k);
            assert(g.val(r + 2 * n) == row_value(cards, key, salt, cfg, r + 2 * n));
            assert(g.val(r + 2 * n) == q);
            assert(g.val(r + 3 * n) == row_value(cards, key, salt, cfg, r + 3 * n));
            assert(g.val(r + 3 * n) == e);
            // the exact identity: c + k == q * n + e
            vstd::arithmetic::div_mod::lemma_fundamental_div_mod((c + k) as int, n);
            assert(c + k == n * q + e);
            assert(n * q <= c + k) by {
                vstd::arithmetic::div_mod::lemma_mod_bound((c + k) as int, n);
            }
            assert(c + k < p);
            assert(fmul(q, n as nat) == q * (n as nat)) by {
                vstd::arithmetic::mul::lemma_mul_is_commutative(q as int, n);
                vstd::arithmetic::div_mod::lemma_small_mod((q * (n as nat)) as nat, p);
            }
            assert(fadd(fmul(q, n as nat), e) == ((q * (n as nat) + e) as int % (p as int)));
            vstd::arithmetic::mul::lemma_mul_is_commutative(q as int, n);
        }
    }

    // the compression gate holds outright
    assert(g.compression_gate_ok(cfg)) by {
        assert forall|r: int| 0 <= r < len && #[trigger] g.q_compressor@[r] implies {
            let span = ns * nwif;
            r >= span && g.val(r) == pack_field_value(
                g.word_row_vals(r - span, nwif),
                cfg.word_base(),
            )
        } by {
            let span = ns * nwif;
            assert(sel_compressor(cfg, r));
            let d = r - cfg.slots_start();
            let i = d / nwif;
            assert(d >= 0);
            assert(d == nwif * i + d % nwif) by {
                vstd::arithmetic::div_mod::lemma_fundamental_div_mod(d, nwif);
            }
            assert(d == nwif * i);
            assert(i >= 0) by {
                vstd::arithmetic::div_mod::lemma_div_pos_is_pos(d, nwif);
            }
            assert(d <= (ns - 1) * nwif);
            assert(i <= ns - 1) by {
                vstd::arithmetic::mul::lemma_mul_is_commutative(ns - 1, nwif);
                vstd::arithmetic::div_mod::lemma_div_is_ordered(d, nwif * (ns - 1), nwif);
                vstd::arithmetic::div_mod::lemma_div_by_multiple(ns - 1, nwif);
                vstd::arithmetic::mul::lemma_mul_is_commutative(ns - 1, nwif);
            }
            assert(r >= span);
            assert(g.val(r) == row_value(cards, key, salt, cfg, r));
            assert(g.val(r) == spec_slot(cards, key, cfg, i));
            // the word cells read at negative rotations are the slot's words
            let ws = g.word_row_vals(r - span, nwif);
            let sw = slot_words(enc_cards(cards, key, n as nat), i * nwif, nwif);
            assert(ws =~= sw) by {
                assert forall|k: int| 0 <= k < nwif implies ws[k] == sw[k] by {
                    let row = r - span + k;
                    assert(row == cfg.words_start() + (i * nwif + k)) by {
                        vstd::arithmetic::mul::lemma_mul_is_commutative(i, nwif);
                    }
                    assert(i * nwif + k < ns * nwif) by {
                        vstd::arithmetic::mul::lemma_mul_is_distributive_add_other_way(
                            nwif,
                            i,
                            1,
                        );
                        vstd::arithmetic::mul::lemma_mul_inequality(i + 1, ns, nwif);
                    }
                    assert(i * nwif + k >= 0) by {
                        vstd::arithmetic::mul::lemma_mul_nonnegative(i, nwif);
                    }
                    assert(0 <= row < len);
                    assert(g.val(row) == row_value(cards, key, salt, cfg, row));
                    if i * nwif + k < n {
                        assert(enc_cards(cards, key, n as nat)[i * nwif + k] as nat == enc_value(
                            cards[i * nwif + k],
                            key,
                            n as nat,
                        )) by {
                            vstd::arithmetic::div_mod::lemma_mod_bound(
                                (cards[i * nwif + k] + key) as int,
                                n,
                            );
                        }
                    }
                }
            }
            // in-field accumulation does not wrap
            assert(pack_field_value(sw, cfg.word_base()) == pack_value(sw, cfg.word_base())) by {
                assert forall|t: int| 0 <= t < sw.len() implies #[trigger] sw[t]
                    < cfg.word_base() by {
                    if i * nwif + t < n {
                        vstd::arithmetic::div_mod::lemma_mod_bound(
                            (cards[i * nwif + t] + key) as int,
                            n,
                        );
                    }
                }
                assert(pow(cfg.word_base() as int, nwif as nat) < p) by {
                    vstd::arithmetic::power::lemma_pow_positive(256, cfg.word_bytes as nat);
                    vstd::arithmetic::power::lemma_pow_multiplies(
                        256,
                        cfg.word_bytes as nat,
                        nwif as nat,
                    );
                    crate::field::lemma_pow256_31_below_modulus(cfg.field_bytes as nat);
                }
                lemma_pack_field_no_wrap(sw, cfg.word_base());
            }
        }
    }

    // the hash constraint holds outright
    assert(g.hash_ok(cfg));

    // the range lookup holds exactly when cards and key are in range
    assert(forall|v: nat| v < n ==> #[trigger] g.in_table(v)) by {
        assert forall|v: nat| v < n implies #[trigger] g.in_table(v) by {
            assert(g.fval(v as int) == v);
        }
    }
    assert(g.range_lookup_ok() <==> ((forall|i: int| 0 <= i < cards.len() ==> #[trigger] cards[i]
        < n) && (key as nat) < n)) by {
        if g.range_lookup_ok() {
            assert forall|i: int| 0 <= i < cards.len() implies #[trigger] cards[i] < n by {
                assert(g.q_range_check@[i] == sel_range(cfg, i));
                assert(g.in_table(g.val(i)));
                let j = choose|j: int| 0 <= j < g.fixed@.len() && #[trigger] g.fval(j) == g.val(i);
                assert(g.val(i) == cards[i] as nat);
            }
            assert(g.q_range_check@[n] == sel_range(cfg, n));
            assert(g.in_table(g.val(n)));
            let j = choose|j: int| 0 <= j < g.fixed@.len() && #[trigger] g.fval(j) == g.val(n);
            assert(g.val(n) == row_value(cards, key, salt, cfg, n));
            assert(g.val(n) == key as nat);
        }
        if (forall|i: int| 0 <= i < cards.len() ==> #[trigger] cards[i] < n) && (key as nat) < n {
            assert forall|r: int| 0 <= r < len && #[trigger] g.q_range_check@[r] implies g.in_table(
                g.val(r),
            ) by {
                assert(sel_range(cfg, r));
                assert(g.val(r) == row_value(cards, key, salt, cfg, r));
                if r < n {
                    assert(g.val(r) == cards[r] as nat);
                } else if r < 2 * n {
                    assert(g.val(r) == key as nat);
                } else {
                    assert(3 * n <= r < 4 * n);
                    assert(g.val(r) == enc_value(cards[r - 3 * n], key, n as nat));
                    vstd::arithmetic::div_mod::lemma_mod_bound(
                        (cards[r - 3 * n] + key) as int,
                        n,
                    );
                }
            }
        }
    }

    // the distinctness lookup holds exactly when the cards cover every
    // nonzero table value
    assert(g.uniq_lookup_ok() <==> (forall|v: int| 1 <= v < n ==> #[trigger] covered(cards, v)))
        by {
        if g.uniq_lookup_ok() {
            assert forall|v: int| 1 <= v < n implies #[trigger] covered(cards, v) by {
                assert(g.fval(v) == v);
                assert(g.covers_value(v as nat));
                let r = choose|r: int|
                    0 <= r < g.advice@.len() && #[trigger] g.raw_expr(r) == v as nat;
                assert(g.q_raw_cards@[r] == sel_raw(cfg, r));
                assert(g.q_raw_cards@[r]);
                assert(r < n);
                assert(g.val(r) == cards[r] as nat);
                assert(cards[r] == v);
            }
        }
        if forall|v: int| 1 <= v < n ==> #[trigger] covered(cards, v) {
            assert forall|j: int| 0 <= j < g.fixed@.len() implies g.covers_value(
                #[trigger] g.fval(j),
            ) by {
                assert(g.fval(j) == j);
                if j == 0 {
                    // any row past the cards has the gated expression zero
                    assert(g.q_raw_cards@[n] == sel_raw(cfg, n));
                    assert(g.raw_expr(n) == 0);
                } else {
                    assert(covered(cards, j));
                    let i = choose|i: int| 0 <= i < cards.len() && #[trigger] cards[i] == j;
                    assert(g.q_raw_cards@[i] == sel_raw(cfg, i));
                    assert(g.val(i) == cards[i] as nat);
                    assert(g.raw_expr(i) == j as nat);
                }
            }
        }
    }

    // the instance bindings hold exactly of the pure instance computation
    assert(g.instance_ok(cfg, inst) <==> inst =~= spec_instances(cards, key, salt, cfg)) by {
        lemma_matches_instances(g, cards, key, salt, cfg);
        let si = spec_instances(cards, key, salt, cfg);
        if g.instance_ok(cfg, inst) {
            assert forall|i: int| 0 <= i < inst.len() implies inst[i] == si[i] by {
                if i < ns {
                    assert(inst[i] == g.val(cfg.slot_row(i)));
                } else {
                    assert(i == ns);
                }
            }
        }
        if inst =~= si {
            assert(g.instance_ok(cfg, si));
            assert forall|i: int| 0 <= i < ns implies #[trigger] inst[i] == g.val(
                cfg.slot_row(i),
            ) by {
                assert(si[i] == g.val(cfg.slot_row(i)));
            }
        }
    }
}


/// Completeness of the honest witness: cards that are pairwise distinct and
/// in range, with a key in range, are accepted.  N distinct values inside
/// `[0, N)` necessarily cover every value of the table.
pub proof fn lemma_distinct_cards_accepted(cards: Seq<u64>, key: u64, n: nat)
    requires
        cards.len() == n,
        n >= 1,
        (key as nat) < n,
        forall|i: int| 0 <= i < cards.len() ==> #[trigger] cards[i] < n,
        cards.no_duplicates(),
    ensures
        accepted(cards, key, n),
{
    broadcast use vstd::seq_lib::seq_to_set_is_finite;
    broadcast use vstd::set::group_set_axioms;

    let si = Seq::new(n, |i: int| cards[i] as int);
    assert(si.no_duplicates()) by {
        assert forall|i: int, j: int|
            0 <= i < si.len() && 0 <= j < si.len() && i != j implies si[i] != si[j] by {
            assert(cards[i] != cards[j]);
        }
    }
    si.unique_seq_to_set();
    let range = vstd::set_lib::set_int_range(0, n as int);
    vstd::set_lib::lemma_int_range(0, n as int);
    assert(si.to_set().subset_of(range)) by {
        assert forall|x: int| si.to_set().contains(x) implies range.contains(x) by {
            let i = choose|i: int| 0 <= i < si.len() && si[i] == x;
            assert(cards[i] < n);
        }
    }
    vstd::set_lib::lemma_subset_equality(si.to_set(), range);
    assert forall|v: int| 1 <= v < n implies #[trigger] covered(cards, v) by {
        assert(range.contains(v));
        assert(si.to_set().contains(v));
        assert(si.contains(v));
        let i = choose|i: int| 0 <= i < si.len() && si[i] == v;
        assert(cards[i] == v);
    }
}

/// End-to-end completeness: the grid synthesized from pairwise-distinct,
/// in-range cards and an in-range key satisfies every constraint, with the
/// pure instance computation as its public instances.
pub proof fn lemma_honest_witness_satisfied(
    g: DSKWitness,
    cards: Seq<u64>,
    key: u64,
    salt: nat,
    cfg: DSKConfig,
)
    requires
        g.wf(cfg),
        g.matches(cards, key, salt, cfg),
        (key as nat) < cfg.num_cards as nat,
        forall|i: int| 0 <= i < cards.len() ==> #[trigger] cards[i] < cfg.num_cards as nat,
        cards.no_duplicates(),
    ensures
        g.satisfied(cfg, spec_instances(cards, key, salt, cfg)),
{
    lemma_distinct_cards_accepted(cards, key, cfg.num_cards as nat);
    lemma_matches_satisfaction(g, cards, key, salt, cfg, spec_instances(cards, key, salt, cfg));
}


/// Computes the positional base: 256 to the word size.
fn compute_word_base(cfg: &DSKConfig) -> (b: u64)
    requires
        cfg.wf(),
    ensures
        b as nat == cfg.word_base(),
        b >= 1,
{
    let mut base: u64 = 1;
    let mut bi: usize = 0;
    proof {
        vstd::arithmetic::power::lemma_pow0(256);
    }
    while bi < cfg.word_bytes
        invariant
            bi <= cfg.word_bytes,
            cfg.wf(),
            base as int == pow(256, bi as nat),
            base >= 1,
        decreases cfg.word_bytes - bi,
    {
        proof {
            crate::field::lemma_pow256_unfold(bi as nat);
            assert(pow(256, (bi + 1) as nat) <= pow(256, 7)) by {
                vstd::arithmetic::power::lemma_pow_increases(256, (bi + 1) as nat, 7);
            }
            assert(pow(256, 7) == 0x100_0000_0000_0000) by {
                crate::field::lemma_pow256_pow2(7);
                vstd::arithmetic::power2::lemma2_to64_rest();
            }
        }
        base = base * 256;
        bi = bi + 1;
    }
    base
}

impl DistinctSingleKeyCircuit {
    /// Computes every encrypted card: the sum with the key, reduced modulo
    /// the card count.
    fn encrypted_cards(&self, config: &DSKConfig) -> (enc: Vec<u64>)
        requires
            config.wf(),
            self.raw_cards@.len() == config.num_cards,
        ensures
            enc@ == enc_cards(self.raw_cards@, self.key, config.num_cards as nat),
            enc@.len() == config.num_cards,
    {
        let n = config.num_cards;
        let key = self.key;
        let ghost cards = self.raw_cards@;
        let mut enc: Vec<u64> = Vec::new();
        let mut i: usize = 0;
        while i < n
            invariant
                i <= n,
                n == config.num_cards,
                config.wf(),
                self.raw_cards@ == cards,
                cards.len() == n,
                key == self.key,
                enc@.len() == i,
                forall|j: int|
                    0 <= j < i ==> #[trigger] enc@[j] as nat == enc_value(cards[j], key, n as nat),
            decreases n - i,
        {
            let sum: u128 = self.raw_cards[i] as u128 + key as u128;
            let e: u64 = (sum % (n as u128)) as u64;
            proof {
                vstd::arithmetic::div_mod::lemma_mod_bound(sum as int, n as int);
            }
            enc.push(e);
            i = i + 1;
        }
        proof {
            assert(enc@ =~= enc_cards(cards, key, n as nat));
        }
        enc
    }

    /// The pure instance computation: the packed slots of the encrypted
    /// cards, in order, then the commitment digest of (key, salt).  It
    /// mirrors the in-circuit packing and hash wiring exactly.
    pub fn instances(&self, config: &DSKConfig) -> (v: Vec<Fe>)
        requires
            config.wf(),
            self.raw_cards@.len() == config.num_cards,
            self.key_salt.inv(),
        ensures
            v@.len() == config.num_slots() + 1,
            forall|i: int| 0 <= i < v@.len() ==> (#[trigger] v@[i]).inv(),
            forall|i: int|
                0 <= i < v@.len() ==> (#[trigger] v@[i]).value() == spec_instances(
                    self.raw_cards@,
                    self.key,
                    self.key_salt.value(),
                    *config,
                )[i],
    {
        let cfg = *config;
        let ghost cards = self.raw_cards@;
        let ghost salt = self.key_salt.value();
        let n = cfg.num_cards;
        let nwif = cfg.field_bytes / cfg.word_bytes;
        proof {
            vstd::arithmetic::mul::lemma_mul_upper_bound(
                n as int,
                0x10_0000,
                cfg.word_bytes as int,
                7,
            );
        }
        let ns = n * cfg.word_bytes / cfg.field_bytes + 1;
        proof {
            lemma_layout_bounds(cfg);
            assert(nwif as int == cfg.words_per_slot());
            assert(ns as int == cfg.num_slots());
        }
        let base = compute_word_base(&cfg);
        let enc = self.encrypted_cards(config);
        let mut v: Vec<Fe> = Vec::new();
        let mut i: usize = 0;
        while i < ns
            invariant
                i <= ns,
                n == cfg.num_cards,
                cfg.wf(),
                cards.len() == n,
                ns as int == cfg.num_slots(),
                nwif as int == cfg.words_per_slot(),
                base as nat == cfg.word_base(),
                enc@ == enc_cards(cards, self.key, n as nat),
                enc@.len() == n,
                v@.len() == i,
                forall|t: int| 0 <= t < i ==> (#[trigger] v@[t]).inv(),
                forall|t: int|
                    0 <= t < i ==> (#[trigger] v@[t]).value() == spec_slot(
                        cards,
                        self.key,
                        cfg,
                        t,
                    ),
            decreases ns - i,
        {
            proof {
                lemma_layout_bounds(cfg);
                vstd::arithmetic::mul::lemma_mul_inequality(i as int, ns as int - 1, nwif as int);
                vstd::arithmetic::mul::lemma_mul_nonnegative(i as int, nwif as int);
                assert(pow(base as int, nwif as nat) < field_modulus()) by {
                    vstd::arithmetic::power::lemma_pow_positive(256, cfg.word_bytes as nat);
                    vstd::arithmetic::power::lemma_pow_multiplies(
                        256,
                        cfg.word_bytes as nat,
                        nwif as nat,
                    );
                    crate::field::lemma_pow256_31_below_modulus(cfg.field_bytes as nat);
                }
                assert forall|t: int|
                    i * nwif <= t < i * nwif + nwif && t < enc@.len() implies #[trigger] enc@[t]
                    < base by {
                    assert(enc@[t] as nat == enc_value(cards[t], self.key, n as nat));
                    vstd::arithmetic::div_mod::lemma_mod_bound(
                        (cards[t] + self.key) as int,
                        n as int,
                    );
                }
            }
            let start = i * nwif;
            let slot = pack_slot(&enc, start, nwif, base);
            v.push(slot);
            i = i + 1;
        }
        let key_fe = fe_from_u64(self.key);
        let digest = poseidon_sync(&key_fe, &self.key_salt);
        v.push(digest);
        proof {
            assert forall|t: int| 0 <= t < v@.len() implies (#[trigger] v@[t]).value()
                == spec_instances(cards, self.key, salt, cfg)[t] by {
                if t < ns {
                    assert(v@[t].value() == spec_slot(cards, self.key, cfg, t));
                }
            }
        }
        v
    }
}


/// The values of a sequence of field elements.
pub open spec fn fe_values(s: Seq<Fe>) -> Seq<nat> {
    Seq::new(s.len(), |i: int| s[i].value())
}

impl DSKWitness {
    /// Decides whether the grid, with the given public instances, satisfies
    /// every gate, lookup, hash constraint and instance binding, by
    /// evaluating each over the assigned cells.  This is the deferred check
    /// in which a violated constraint first surfaces: nothing reports it at
    /// assignment time.
    pub fn is_satisfied(&self, config: &DSKConfig, inst: &Vec<Fe>) -> (r: bool)
        requires
            self.wf(*config),
            forall|i: int| 0 <= i < inst@.len() ==> (#[trigger] inst@[i]).inv(),
        ensures
            r == self.satisfied(*config, fe_values(inst@)),
    {
        let cfg = *config;
        let n = cfg.num_cards;
        let nwif = cfg.field_bytes / cfg.word_bytes;
        proof {
            vstd::arithmetic::mul::lemma_mul_upper_bound(
                n as int,
                0x10_0000,
                cfg.word_bytes as int,
                7,
            );
        }
        let ns = n * cfg.word_bytes / cfg.field_bytes + 1;
        proof {
            lemma_layout_bounds(cfg);
            assert(nwif as int == cfg.words_per_slot());
            assert(ns as int == cfg.num_slots());
        }
        let span = ns * nwif;
        let len = self.advice.len();

        // the distinctness lookup
        let zero = fe_from_u64(0);
        let mut j: usize = 0;
        while j < self.fixed.len()
            invariant
                cfg == *config,
                j <= self.fixed@.len(),
                self.wf(cfg),
                zero.inv(),
                zero.value() == 0,
                forall|t: int| 0 <= t < j ==> self.covers_value(#[trigger] self.fval(t)),
            decreases self.fixed@.len() - j,
        {
            proof {
                assert(self.fixed@[j as int].inv());
            }
            let mut found = false;
            let mut rr: usize = 0;
            while rr < self.advice.len()
                invariant
                    rr <= self.advice@.len(),
                    j < self.fixed@.len(),
                    self.wf(cfg),
                    zero.inv(),
                    zero.value() == 0,
                    found ==> self.covers_value(self.fval(j as int)),
                    !found ==> forall|t: int|
                        0 <= t < rr ==> #[trigger] self.raw_expr(t) != self.fval(j as int),
                decreases self.advice@.len() - rr,
            {
                proof {
                    assert(self.advice@[rr as int].inv());
                    assert(self.fixed@[j as int].inv());
                }
                let hit = if self.q_raw_cards[rr] {
                    fe_eq(&self.advice[rr], &self.fixed[j])
                } else {
                    fe_eq(&zero, &self.fixed[j])
                };
                proof {
                    assert(hit == (self.raw_expr(rr as int) == self.fval(j as int)));
                }
                if hit {
                    found = true;
                }
                rr = rr + 1;
            }
            if !found {
                proof {
                    assert(!self.covers_value(self.fval(j as int)));
                    assert(!self.uniq_lookup_ok());
                }
                return false;
            }
            j = j + 1;
        }
        assert(self.uniq_lookup_ok());

        // the range lookup
        let mut rr: usize = 0;
        while rr < len
            invariant
                cfg == *config,
                rr <= len,
                len == self.advice@.len(),
                self.wf(cfg),
                forall|t: int|
                    0 <= t < rr && #[trigger] self.q_range_check@[t] ==> self.in_table(
                        self.val(t),
                    ),
            decreases len - rr,
        {
            if self.q_range_check[rr] {
                proof {
                    assert(self.advice@[rr as int].inv());
                }
                let mut found = false;
                let mut t: usize = 0;
                while t < self.fixed.len()
                    invariant
                        t <= self.fixed@.len(),
                        rr < self.advice@.len(),
                        self.wf(cfg),
                        found ==> self.in_table(self.val(rr as int)),
                        !found ==> forall|u: int|
                            0 <= u < t ==> #[trigger] self.fval(u) != self.val(rr as int),
                    decreases self.fixed@.len() - t,
                {
                    proof {
                        assert(self.advice@[rr as int].inv());
                        assert(self.fixed@[t as int].inv());
                    }
                    if fe_eq(&self.fixed[t], &self.advice[rr]) {
                        proof {
                            assert(self.fval(t as int) == self.val(rr as int));
                        }
                        found = true;
                    }
                    t = t + 1;
                }
                if !found {
                    proof {
                        assert(!self.in_table(self.val(rr as int)));
                        assert(!self.range_lookup_ok());
                    }
                    return false;
                }
            }
            rr = rr + 1;
        }
        assert(self.range_lookup_ok());

        // the key-equality gate
        let mut rr: usize = 0;
        while rr < len
            invariant
                cfg == *config,
                rr <= len,
                len == self.advice@.len(),
                self.wf(cfg),
                forall|t: int|
                    0 <= t < rr && #[trigger] self.q_key_equal@[t] ==> t + 1
                        < self.advice@.len() && self.val(t) == self.val(t + 1),
            decreases len - rr,
        {
            if self.q_key_equal[rr] {
                if rr + 1 >= len {
                    proof {
                        assert(!self.key_equal_ok());
                    }
                    return false;
                }
                proof {
                    assert(self.advice@[rr as int].inv());
                    assert(self.advice@[rr as int + 1].inv());
                }
                if !fe_eq(&self.advice[rr], &self.advice[rr + 1]) {
                    proof {
                        assert(!self.key_equal_ok());
                    }
                    return false;
                }
            }
            rr = rr + 1;
        }
        assert(self.key_equal_ok());

        // the encryption gate
        let n_fe = fe_from_u64(n as u64);
        let mut rr: usize = 0;
        while rr < len
            invariant
                cfg == *config,
                rr <= len,
                len == self.advice@.len(),
                n == cfg.num_cards,
                self.wf(cfg),
                n_fe.inv(),
                n_fe.value() == n as nat,
                forall|t: int|
                    0 <= t < rr && #[trigger] self.q_raw_cards@[t] ==> t + 3 * n
                        < self.advice@.len() && fadd(self.val(t), self.val(t + n)) == fadd(
                        fmul(self.val(t + 2 * n), n as nat),
                        self.val(t + 3 * n),
                    ),
            decreases len - rr,
        {
            proof {
                lemma_layout_bounds(cfg);
            }
            if self.q_raw_cards[rr] {
                if rr + 3 * n >= len {
                    proof {
                        assert(!self.encryption_gate_ok(cfg));
                    }
                    return false;
                }
                proof {
                    assert(self.advice@[rr as int].inv());
                    assert(self.advice@[rr as int + n].inv());
                    assert(self.advice@[rr as int + 2 * n].inv());
                    assert(self.advice@[rr as int + 3 * n].inv());
                }
                let lhs = fe_add(&self.advice[rr], &self.advice[rr + n]);
                let prod = fe_mul(&self.advice[rr + 2 * n], &n_fe);
                let rhs = fe_add(&prod, &self.advice[rr + 3 * n]);
                if !fe_eq(&lhs, &rhs) {
                    proof {
                        assert(!self.encryption_gate_ok(cfg));
                    }
                    return false;
                }
            }
            rr = rr + 1;
        }
        assert(self.encryption_gate_ok(cfg));

        // the compression gate
        let base = compute_word_base(&cfg);
        let base_fe = fe_from_u64(base);
        let mut rr: usize = 0;
        while rr < len
            invariant
                cfg == *config,
                rr <= len,
                len == self.advice@.len(),
                n == cfg.num_cards,
                nwif as int == cfg.words_per_slot(),
                ns as int == cfg.num_slots(),
                span == ns * nwif,
                self.wf(cfg),
                base_fe.inv(),
                base_fe.value() == cfg.word_base(),
                forall|t: int|
                    0 <= t < rr && #[trigger] self.q_compressor@[t] ==> t >= cfg.num_slots()
                        * cfg.words_per_slot() && self.val(t) == pack_field_value(
                        self.word_row_vals(t - cfg.num_slots() * cfg.words_per_slot(), cfg.words_per_slot()),
                        cfg.word_base(),
                    ),
            decreases len - rr,
        {
            if self.q_compressor[rr] {
                if rr < span {
                    proof {
                        assert(!self.compression_gate_ok(cfg));
                    }
                    return false;
                }
                proof {
                    vstd::arithmetic::mul::lemma_mul_inequality(1, ns as int, nwif as int);
                    assert(span >= nwif);
                }
                let mut acc = fe_from_u64(0);
                let mut k: usize = 0;
                proof {
                    assert(self.word_row_vals(rr as int - span, 0) =~= Seq::<nat>::empty());
                }
                while k < nwif
                    invariant
                        k <= nwif,
                        len == self.advice@.len(),
                        rr < len,
                        rr >= span,
                        span >= nwif,
                        self.wf(cfg),
                        base_fe.inv(),
                        base_fe.value() == cfg.word_base(),
                        nwif as int == cfg.words_per_slot(),
                        acc.inv(),
                        acc.value() == pack_field_value(
                            self.word_row_vals(rr as int - span, k as int),
                            cfg.word_base(),
                        ),
                    decreases nwif - k,
                {
                    proof {
                        assert(self.advice@[rr as int - span + k].inv());
                    }
                    let scaled = fe_mul(&acc, &base_fe);
                    let next = fe_add(&scaled, &self.advice[rr - span + k]);
                    proof {
                        let ws1 = self.word_row_vals(rr as int - span, k as int + 1);
                        assert(ws1.drop_last() =~= self.word_row_vals(rr as int - span, k as int));
                        assert(ws1.last() == self.val(rr as int - span + k));
                        vstd::arithmetic::div_mod::lemma_add_mod_noop_right(
                            self.val(rr as int - span + k) as int,
                            (acc.value() * cfg.word_base()) as int,
                            field_modulus() as int,
                        );
                        assert((acc.value() * cfg.word_base() + self.val(rr as int - span + k))
                            % field_modulus() == next.value());
                    }
                    acc = next;
                    k = k + 1;
                }
                proof {
                    assert(self.advice@[rr as int].inv());
                }
                if !fe_eq(&acc, &self.advice[rr]) {
                    proof {
                        assert(!self.compression_gate_ok(cfg));
                    }
                    return false;
                }
            }
            rr = rr + 1;
        }
        assert(self.compression_gate_ok(cfg));

        // the hash constraint
        let key_row = 2 * n - 1;
        let slots_start = 3 * n + span;
        let salt_row = slots_start + (ns - 1) * nwif + 1;
        let digest_row = salt_row + 1;
        proof {
            lemma_layout_bounds(cfg);
            vstd::arithmetic::mul::lemma_mul_nonnegative(ns as int - 1, nwif as int);
            vstd::arithmetic::mul::lemma_mul_inequality(ns as int - 1, ns as int, nwif as int);
            assert((ns as int - 1) * (nwif as int) + nwif as int == (ns as int) * (nwif as int))
                by {
                vstd::arithmetic::mul::lemma_mul_is_distributive_add_other_way(
                    nwif as int,
                    ns as int - 1,
                    1,
                );
            }
            assert(salt_row as int == cfg.salt_row());
            assert(digest_row as int == cfg.digest_row());
            assert(key_row as int == cfg.key_row());
            assert(self.advice@[key_row as int].inv());
            assert(self.advice@[salt_row as int].inv());
            assert(self.advice@[digest_row as int].inv());
        }
        let expect = poseidon_sync(&self.advice[key_row], &self.advice[salt_row]);
        if !fe_eq(&expect, &self.advice[digest_row]) {
            proof {
                assert(!self.hash_ok(cfg));
            }
            return false;
        }
        assert(self.hash_ok(cfg));

        // the instance bindings
        if inst.len() != ns + 1 {
            proof {
                assert(fe_values(inst@).len() != cfg.num_slots() + 1);
                assert(!self.instance_ok(cfg, fe_values(inst@)));
            }
            return false;
        }
        let mut i: usize = 0;
        while i < ns
            invariant
                cfg == *config,
                i <= ns,
                len == self.advice@.len(),
                n == cfg.num_cards,
                nwif as int == cfg.words_per_slot(),
                ns as int == cfg.num_slots(),
                span == ns * nwif,
                slots_start == 3 * n + span,
                slots_start as int == cfg.slots_start(),
                inst@.len() == ns + 1,
                self.wf(cfg),
                forall|t: int| 0 <= t < inst@.len() ==> (#[trigger] inst@[t]).inv(),
                forall|t: int|
                    0 <= t < i ==> #[trigger] fe_values(inst@)[t] == self.val(cfg.slot_row(t)),
            decreases ns - i,
        {
            proof {
                lemma_layout_bounds(cfg);
                vstd::arithmetic::mul::lemma_mul_nonnegative(i as int, nwif as int);
                vstd::arithmetic::mul::lemma_mul_inequality(i as int, ns as int - 1, nwif as int);
                assert(cfg.slot_row(i as int) < cfg.salt_row());
                assert(self.advice@[cfg.slot_row(i as int)].inv());
                assert(inst@[i as int].inv());
            }
            let row = slots_start + i * nwif;
            if !fe_eq(&inst[i], &self.advice[row]) {
                proof {
                    assert(fe_values(inst@)[i as int] != self.val(cfg.slot_row(i as int)));
                    assert(!self.instance_ok(cfg, fe_values(inst@)));
                }
                return false;
            }
            i = i + 1;
        }
        proof {
            assert(self.advice@[cfg.digest_row()].inv());
            assert(inst@[ns as int].inv());
        }
        if !fe_eq(&inst[ns], &self.advice[digest_row]) {
            proof {
                assert(fe_values(inst@)[ns as int] != self.val(cfg.digest_row()));
                assert(!self.instance_ok(cfg, fe_values(inst@)));
            }
            return false;
        }
        proof {
            assert(self.instance_ok(cfg, fe_values(inst@)));
        }
        true
    }
}


/// Soundness of the range check on the key: a key outside `[0, N)` leaves
/// its range lookup violated, so no instance vector makes the honest grid
/// satisfied.
pub proof fn lemma_key_out_of_range_rejected(
    g: DSKWitness,
    cards: Seq<u64>,
    key: u64,
    salt: nat,
    cfg: DSKConfig,
    inst: Seq<nat>,
)
    requires
        g.wf(cfg),
        g.matches(cards, key, salt, cfg),
        (key as nat) >= cfg.num_cards as nat,
    ensures
        !g.satisfied(cfg, inst),
{
    lemma_matches_satisfaction(g, cards, key, salt, cfg, inst);
}

/// What the distinctness lookup does reject: when some nonzero table value
/// occurs among no card, no instance vector makes the honest grid
/// satisfied.  (A duplicate card among N cards in range always leaves some
/// value uncovered — though zero is covered for free, the lookup's known
/// gap.)
pub proof fn lemma_uncovered_value_rejected(
    g: DSKWitness,
    cards: Seq<u64>,
    key: u64,
    salt: nat,
    cfg: DSKConfig,
    inst: Seq<nat>,
    v: int,
)
    requires
        g.wf(cfg),
        g.matches(cards, key, salt, cfg),
        1 <= v < cfg.num_cards,
        !covered(cards, v),
    ensures
        !g.satisfied(cfg, inst),
{
    lemma_matches_satisfaction(g, cards, key, salt, cfg, inst);
}

} // verus!
