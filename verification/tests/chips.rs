use card_encryption::addmod_chip::AddModChip;
use card_encryption::field::{fe_from_u64, fe_to_u64};
use card_encryption::gate_chip::GateChip;
use card_encryption::poseidon_chip::{poseidon_sync, PoseidonChip};
use card_encryption::preimage_circuit::PreimageCircuit;
use card_encryption::range_chip::RangeConfig;
use card_encryption::witness::Witness;

#[test]
fn addmod_wraps_exactly_once() {
    let mut w = Witness::new();
    let gate = GateChip::configure();
    let range = RangeConfig::configure(4).construct();
    let chip = AddModChip::from(gate, range);
    let a = gate.load_private(&mut w, fe_from_u64(3));
    let b = gate.load_private(&mut w, fe_from_u64(2));
    let r = chip.addmod(&mut w, a, b);
    assert_eq!(fe_to_u64(&w.cells[r.row]), Some(1));
    assert!(w.is_satisfied());
}

#[test]
fn addmod_without_overflow() {
    let mut w = Witness::new();
    let gate = GateChip::configure();
    let range = RangeConfig::configure(7).construct();
    let chip = AddModChip::from(gate, range);
    let a = gate.load_private(&mut w, fe_from_u64(1));
    let b = gate.load_private(&mut w, fe_from_u64(2));
    let r = chip.addmod(&mut w, a, b);
    assert_eq!(fe_to_u64(&w.cells[r.row]), Some(3));
    assert!(w.is_satisfied());
}

#[test]
fn addmod_rejects_out_of_range_input() {
    let mut w = Witness::new();
    let gate = GateChip::configure();
    let range = RangeConfig::configure(4).construct();
    let chip = AddModChip::from(gate, range);
    let a = gate.load_private(&mut w, fe_from_u64(5));
    let b = gate.load_private(&mut w, fe_from_u64(2));
    chip.addmod(&mut w, a, b);
    assert!(!w.is_satisfied());
}

#[test]
fn dishonest_borrow_flag_is_rejected() {
    // replay the transform's steps with a flag of plus one instead of
    // minus one: the corrected value 3 + 2 + 4 lands outside [0, 4) and the
    // final range check must catch it
    let mut w = Witness::new();
    let gate = GateChip::configure();
    let range = RangeConfig::configure(4).construct();
    let a = gate.load_private(&mut w, fe_from_u64(3));
    let b = gate.load_private(&mut w, fe_from_u64(2));
    range.range_constrain(&mut w, a);
    range.range_constrain(&mut w, b);
    let sum = gate.add(&mut w, a, b);
    let flag = gate.load_private(&mut w, fe_from_u64(1));
    let n_cell = gate.load_constant(&mut w, 4);
    let out = gate.addmul(&mut w, flag, n_cell, sum);
    range.range_constrain(&mut w, out);
    assert!(!w.is_satisfied());
}

#[test]
fn gate_chip_operations_compute() {
    let mut w = Witness::new();
    let gate = GateChip::configure();
    let a = gate.load_private(&mut w, fe_from_u64(6));
    let b = gate.load_private(&mut w, fe_from_u64(7));
    let c = gate.load_constant(&mut w, 5);
    let s = gate.add(&mut w, a, b);
    let m = gate.mul(&mut w, a, b);
    let f = gate.addmul(&mut w, a, b, c);
    assert_eq!(fe_to_u64(&w.cells[s.row]), Some(13));
    assert_eq!(fe_to_u64(&w.cells[m.row]), Some(42));
    assert_eq!(fe_to_u64(&w.cells[f.row]), Some(47));
    assert!(w.is_satisfied());
}

#[test]
fn range_chip_accepts_and_rejects() {
    let mut w = Witness::new();
    let gate = GateChip::configure();
    let range = RangeConfig::configure(10).construct();
    let ok = gate.load_private(&mut w, fe_from_u64(9));
    range.range_constrain(&mut w, ok);
    assert!(w.is_satisfied());
    let bad = gate.load_private(&mut w, fe_from_u64(10));
    range.range_constrain(&mut w, bad);
    assert!(!w.is_satisfied());
}

#[test]
fn hash_chip_matches_synchronous_hash() {
    let mut w = Witness::new();
    let gate = GateChip::configure();
    let chip = PoseidonChip::configure();
    let x = gate.load_private(&mut w, fe_from_u64(11));
    let y = gate.load_private(&mut w, fe_from_u64(22));
    let hasher = chip.construct();
    let d = hasher.hash(&mut w, x, y);
    assert!(w.is_satisfied());
    let expect = poseidon_sync(&fe_from_u64(11), &fe_from_u64(22));
    assert_eq!(w.cells[d.row], expect);
}

#[test]
fn preimage_circuit_exposes_the_digest() {
    let mut w = Witness::new();
    let config = PreimageCircuit::configure();
    let circuit = PreimageCircuit {
        a: fe_from_u64(41),
        b: fe_from_u64(42),
    };
    let d = circuit.synthesize(&config, &mut w);
    assert!(w.is_satisfied());
    let inst = circuit.instances();
    assert_eq!(w.cells[d.row], inst[0]);
    assert_eq!(inst[0], poseidon_sync(&fe_from_u64(41), &fe_from_u64(42)));
}
