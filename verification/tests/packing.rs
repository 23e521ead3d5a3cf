use card_encryption::field::fe_to_u64;
use card_encryption::packing::{pack_slot, unpack_slot};

#[test]
fn byte_words_round_trip() {
    let words: Vec<u64> = vec![3, 0, 1, 2];
    let slot = pack_slot(&words, 0, 31, 256);
    let out = unpack_slot(&slot, 1, 31);
    assert_eq!(out.len(), 31);
    assert_eq!(out[0], 3);
    assert_eq!(out[1], 0);
    assert_eq!(out[2], 1);
    assert_eq!(out[3], 2);
    for k in 4..31 {
        assert_eq!(out[k], 0);
    }
}

#[test]
fn two_byte_words_round_trip() {
    let words: Vec<u64> = vec![500, 1, 65535, 0, 42];
    let slot = pack_slot(&words, 0, 5, 65536);
    let out = unpack_slot(&slot, 2, 5);
    assert_eq!(out, vec![500, 1, 65535, 0, 42]);
}

#[test]
fn packing_accumulates_positionally() {
    // 3, then 0, then 1, then 2, each step scaling by 256
    let words: Vec<u64> = vec![3, 0, 1, 2];
    let slot = pack_slot(&words, 0, 4, 256);
    assert_eq!(fe_to_u64(&slot), Some(0x0300_0102));
}

#[test]
fn packing_a_middle_window() {
    let words: Vec<u64> = vec![9, 8, 7, 6, 5];
    let slot = pack_slot(&words, 2, 2, 256);
    assert_eq!(fe_to_u64(&slot), Some(0x0706));
    // a window that runs past the end is padded with zeros
    let tail = pack_slot(&words, 4, 3, 256);
    assert_eq!(fe_to_u64(&tail), Some(0x05_0000));
}
