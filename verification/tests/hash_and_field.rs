use card_encryption::field::{fe_add, fe_eq, fe_from_u128, fe_from_u64, fe_mul, fe_sub, fe_to_u64};
use card_encryption::poseidon_chip::poseidon_sync;
use card_encryption::report::format_change;

#[test]
fn hash_is_deterministic() {
    let key = fe_from_u64(3);
    let salt = fe_from_u64(0x1234);
    let d1 = poseidon_sync(&key, &salt);
    let d2 = poseidon_sync(&key, &salt);
    assert_eq!(d1, d2);
    // equal values reached by different routes hash alike
    let key_again = fe_add(&fe_from_u64(1), &fe_from_u64(2));
    let d3 = poseidon_sync(&key_again, &salt);
    assert_eq!(d1, d3);
}

#[test]
fn different_salts_give_different_digests() {
    let key = fe_from_u64(3);
    let mut digests = Vec::new();
    for s in 0..24u64 {
        digests.push(poseidon_sync(&key, &fe_from_u64(s)));
    }
    for i in 0..digests.len() {
        for j in 0..digests.len() {
            if i != j {
                assert!(!fe_eq(&digests[i], &digests[j]));
            }
        }
    }
}

#[test]
fn digest_is_not_an_input() {
    let a = fe_from_u64(5);
    let b = fe_from_u64(6);
    let d = poseidon_sync(&a, &b);
    assert!(!fe_eq(&d, &a));
    assert!(!fe_eq(&d, &b));
}

#[test]
fn field_addition_wraps_at_the_modulus() {
    let zero = fe_from_u64(0);
    let one = fe_from_u64(1);
    let minus_one = fe_sub(&zero, &one);
    assert_eq!(fe_to_u64(&minus_one), None);
    let back = fe_add(&minus_one, &one);
    assert!(fe_eq(&back, &zero));
}

#[test]
fn field_multiplication_computes() {
    let six = fe_mul(&fe_from_u64(2), &fe_from_u64(3));
    assert_eq!(fe_to_u64(&six), Some(6));
    let zero = fe_mul(&fe_from_u64(0), &fe_from_u64(12345));
    assert_eq!(fe_to_u64(&zero), Some(0));
}

#[test]
fn small_integer_embeddings_round_trip() {
    assert_eq!(fe_to_u64(&fe_from_u64(0)), Some(0));
    assert_eq!(fe_to_u64(&fe_from_u64(u64::MAX)), Some(u64::MAX));
    assert_eq!(fe_to_u64(&fe_from_u128(77)), Some(77));
    // a value that needs more than 64 bits
    assert_eq!(fe_to_u64(&fe_from_u128(1u128 << 80)), None);
    assert!(fe_eq(&fe_from_u64(9), &fe_from_u128(9)));
    assert!(!fe_eq(&fe_from_u64(9), &fe_from_u64(10)));
}

#[test]
fn format_change_renders_signed_differences() {
    assert_eq!(format_change(5, 7).as_str(), " (-2)");
    assert_eq!(format_change(7, 7).as_str(), "");
    assert_eq!(format_change(9, 3).as_str(), " (+6)");
    assert_eq!(format_change(0, 1234567).as_str(), " (-1234567)");
    assert_eq!(format_change(10, 0).as_str(), " (+10)");
}
