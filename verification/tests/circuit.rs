use card_encryption::distinct_single_key::DistinctSingleKeyCircuit;
use card_encryption::field::fe_from_u64;
use card_encryption::packing::unpack_slot;
use card_encryption::poseidon_chip::poseidon_sync;

#[test]
fn scenario_accepts_distinct_cards_in_range() {
    let cfg = DistinctSingleKeyCircuit::configure(4, 1, 31);
    let circuit = DistinctSingleKeyCircuit {
        raw_cards: vec![0, 1, 2, 3],
        key: 3,
        key_salt: fe_from_u64(0x1234),
    };
    let grid = circuit.synthesize(&cfg);
    let inst = circuit.instances(&cfg);
    assert_eq!(inst.len(), 2);
    assert!(grid.is_satisfied(&cfg, &inst));

    // the packed slot decodes back to the encrypted cards [3, 0, 1, 2],
    // followed by the zero padding
    let words = unpack_slot(&inst[0], 1, 31);
    assert_eq!(words[0], 3);
    assert_eq!(words[1], 0);
    assert_eq!(words[2], 1);
    assert_eq!(words[3], 2);
    for k in 4..31 {
        assert_eq!(words[k], 0);
    }

    // the second instance value is the synchronous hash of (key, salt)
    let expect = poseidon_sync(&fe_from_u64(3), &fe_from_u64(0x1234));
    assert_eq!(inst[1], expect);
}

#[test]
fn scenario_rejects_key_out_of_range() {
    let cfg = DistinctSingleKeyCircuit::configure(4, 1, 31);
    let circuit = DistinctSingleKeyCircuit {
        raw_cards: vec![0, 1, 2, 3],
        key: 4,
        key_salt: fe_from_u64(0x1234),
    };
    let grid = circuit.synthesize(&cfg);
    let inst = circuit.instances(&cfg);
    assert!(!grid.is_satisfied(&cfg, &inst));
}

#[test]
fn scenario_rejects_duplicate_cards() {
    let cfg = DistinctSingleKeyCircuit::configure(4, 1, 31);
    let circuit = DistinctSingleKeyCircuit {
        raw_cards: vec![0, 0, 1, 2],
        key: 3,
        key_salt: fe_from_u64(0x1234),
    };
    let grid = circuit.synthesize(&cfg);
    let inst = circuit.instances(&cfg);
    assert!(!grid.is_satisfied(&cfg, &inst));
}

#[test]
fn scenario_rejects_tampered_instances() {
    let cfg = DistinctSingleKeyCircuit::configure(4, 1, 31);
    let circuit = DistinctSingleKeyCircuit {
        raw_cards: vec![0, 1, 2, 3],
        key: 3,
        key_salt: fe_from_u64(0x1234),
    };
    let grid = circuit.synthesize(&cfg);
    let mut inst = circuit.instances(&cfg);
    inst[1] = fe_from_u64(42);
    assert!(!grid.is_satisfied(&cfg, &inst));
}

#[test]
fn circuit_and_pure_instances_agree() {
    // the exposed instance cells of the synthesized grid are bit-identical
    // to the pure instance computation, even for an invalid witness
    for key in [0u64, 3, 4, 700] {
        let cfg = DistinctSingleKeyCircuit::configure(5, 1, 31);
        let circuit = DistinctSingleKeyCircuit {
            raw_cards: vec![4, 1, 0, 2, 3],
            key,
            key_salt: fe_from_u64(0x99),
        };
        let grid = circuit.synthesize(&cfg);
        let inst = circuit.instances(&cfg);
        // slot cell and digest cell, per the layout of a 5-card circuit
        let ns = 5 * 1 / 31 + 1;
        let nwif = 31;
        let slots_start = 3 * 5 + ns * nwif;
        assert_eq!(grid.advice[slots_start], inst[0]);
        let digest_row = slots_start + (ns - 1) * nwif + 2;
        assert_eq!(grid.advice[digest_row], inst[1]);
    }
}

#[test]
fn two_word_cards_pack_and_verify() {
    // two-byte words, two words per slot
    let cfg = DistinctSingleKeyCircuit::configure(3, 2, 4);
    let circuit = DistinctSingleKeyCircuit {
        raw_cards: vec![2, 0, 1],
        key: 1,
        key_salt: fe_from_u64(7),
    };
    let grid = circuit.synthesize(&cfg);
    let inst = circuit.instances(&cfg);
    assert!(grid.is_satisfied(&cfg, &inst));
    // encrypted cards are [0, 1, 2]; slots pack two words each
    let first = unpack_slot(&inst[0], 2, 2);
    assert_eq!(first[0], 0);
    assert_eq!(first[1], 1);
    let second = unpack_slot(&inst[1], 2, 2);
    assert_eq!(second[0], 2);
    assert_eq!(second[1], 0);
}
