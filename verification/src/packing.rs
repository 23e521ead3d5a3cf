//! Positional packing of bounded words into field elements, and its inverse.
//!
//! A slot accumulates a fixed number of consecutive words big-endian: each
//! step scales the accumulator by the base (two to the eighth power per word
//! byte) and adds the next word.  Decoding reads the digits back out of the
//! packed value; packing then decoding reconstructs the words exactly.

use vstd::prelude::*;
use vstd::arithmetic::power::pow;
use crate::field::{
    fe_add, fe_from_u64, fe_mul, field_modulus, le_bytes_value, lemma_fe_inv_facts,
    lemma_le_bytes_chunk, lemma_le_bytes_single, lemma_le_bytes_value_split, Fe,
};

verus! {

/// The big-endian positional packing of a word sequence: every step scales
/// by the base and adds the next word.
pub open spec fn pack_value(words: Seq<nat>, base: nat) -> nat
    decreases words.len(),
{
    if words.len() == 0 {
        0
    } else {
        pack_value(words.drop_last(), base) * base + words.last()
    }
}

/// The inverse positional scheme: the sequence of base-digits of a value,
/// most significant first.
pub open spec fn unpack_value(v: nat, base: nat, count: nat) -> Seq<nat> {
    Seq::new(
        count,
        |k: int| (((v as int) / pow(base as int, (count - 1 - k) as nat)) % (base as int)) as nat,
    )
}

/// The words a slot packs: `count` consecutive entries starting at `start`,
/// reading zero beyond the end of the word list.
pub open spec fn slot_words(words: Seq<u64>, start: int, count: int) -> Seq<nat> {
    Seq::new(count as nat, |k: int| if start + k < words.len() {
        words[start + k] as nat
    } else {
        0nat
    })
}

/// A packed value of bounded words stays below base to the word count.
pub proof fn lemma_pack_value_bound(words: Seq<nat>, base: nat)
    requires
        base >= 1,
        forall|i: int| 0 <= i < words.len() ==> #[trigger] words[i] < base,
    ensures
        pack_value(words, base) < pow(base as int, words.len() as nat),
    decreases words.len(),
{
    vstd::arithmetic::power::lemma_pow_positive(base as int, words.len() as nat);
    if words.len() == 0 {
        vstd::arithmetic::power::lemma_pow0(base as int);
    } else {
        let front = words.drop_last();
        lemma_pack_value_bound(front, base);
        let q = pack_value(front, base) as int;
        let n = (words.len() - 1) as nat;
        assert(pow(base as int, words.len() as nat) == base * pow(base as int, n)) by {
            vstd::arithmetic::power::lemma_pow1(base as int);
            vstd::arithmetic::power::lemma_pow_adds(base as int, 1, n);
        }
        assert(q * base <= (pow(base as int, n) - 1) * base) by {
            vstd::arithmetic::mul::lemma_mul_inequality(q, pow(base as int, n) - 1, base as int);
        }
        assert((pow(base as int, n) - 1) * base == pow(base as int, n) * base - base) by {
            vstd::arithmetic::mul::lemma_mul_is_distributive_sub_other_way(
                base as int,
                pow(base as int, n),
                1,
            );
        }
        vstd::arithmetic::mul::lemma_mul_is_commutative(pow(base as int, n), base as int);
    }
}

/// Each digit of a packed value is the word it came from.
pub proof fn lemma_pack_value_digit(words: Seq<nat>, base: nat, k: int)
    requires
        base >= 1,
        forall|i: int| 0 <= i < words.len() ==> #[trigger] words[i] < base,
        0 <= k < words.len(),
    ensures
        ((pack_value(words, base) as int) / pow(base as int, (words.len() - 1 - k) as nat)) % (
        base as int) == words[k],
    decreases words.len(),
{
    let v = pack_value(words, base) as int;
    let front = words.drop_last();
    let lastw = words.last();
    let q = pack_value(front, base) as int;
    assert(v == q * base + lastw);
    if k == words.len() - 1 {
        vstd::arithmetic::power::lemma_pow0(base as int);
        vstd::arithmetic::div_mod::lemma_div_basics(v);
        vstd::arithmetic::div_mod::lemma_fundamental_div_mod_converse(
            v,
            base as int,
            q,
            lastw as int,
        );
    } else {
        let e = (words.len() - 1 - k) as nat;
        vstd::arithmetic::div_mod::lemma_fundamental_div_mod_converse(
            v,
            base as int,
            q,
            lastw as int,
        );
        assert(v / (base as int) == q);
        assert(pow(base as int, e) == base * pow(base as int, (e - 1) as nat)) by {
            vstd::arithmetic::power::lemma_pow1(base as int);
            vstd::arithmetic::power::lemma_pow_adds(base as int, 1, (e - 1) as nat);
        }
        vstd::arithmetic::power::lemma_pow_positive(base as int, (e - 1) as nat);
        assert((v / (base as int)) / pow(base as int, (e - 1) as nat) == v / (base * pow(
            base as int,
            (e - 1) as nat,
        ))) by {
            vstd::arithmetic::div_mod::lemma_div_denominator(
                v,
                base as int,
                pow(base as int, (e - 1) as nat),
            );
        }
        lemma_pack_value_digit(front, base, k);
    }
}

/// Packing then decoding is the identity: the inverse positional scheme
/// reconstructs every word of a packed slot exactly, for any word count and
/// any base that bounds the words.
pub proof fn lemma_pack_round_trip(words: Seq<nat>, base: nat)
    requires
        base >= 1,
        forall|i: int| 0 <= i < words.len() ==> #[trigger] words[i] < base,
    ensures
        unpack_value(pack_value(words, base), base, words.len() as nat) =~= words,
{
    assert forall|k: int| 0 <= k < words.len() implies unpack_value(
        pack_value(words, base),
        base,
        words.len() as nat,
    )[k] == words[k] by {
        lemma_pack_value_digit(words, base, k);
    }
}

/// Packs `count` consecutive words starting at `start` into one field
/// element, scaling by `base` per step.
pub fn pack_slot(words: &Vec<u64>, start: usize, count: usize, base: u64) -> (r: Fe)
    requires
        base >= 1,
        start + count <= usize::MAX,
        pow(base as int, count as nat) < field_modulus(),
        forall|j: int|
            start <= j < start + count && j < words@.len() ==> #[trigger] words@[j] < base,
    ensures
        r.inv(),
        r.value() == pack_value(slot_words(words@, start as int, count as int), base as nat),
{
    let ghost p = field_modulus();
    let mut acc = fe_from_u64(0);
    let base_fe = fe_from_u64(base);
    let mut k: usize = 0;
    proof {
        vstd::arithmetic::power::lemma_pow0(base as int);
        assert(slot_words(words@, start as int, 0) =~= Seq::<nat>::empty());
    }
    while k < count
        invariant
            k <= count,
            start + count <= usize::MAX,
            base >= 1,
            base_fe.inv(),
            base_fe.value() == base as nat,
            pow(base as int, count as nat) < p,
            p == field_modulus(),
            forall|j: int|
                start <= j < start + count && j < words@.len() ==> #[trigger] words@[j] < base,
            acc.inv(),
            acc.value() == pack_value(slot_words(words@, start as int, k as int), base as nat),
            acc.value() < pow(base as int, k as nat),
        decreases count - k,
    {
        let ghost sw = slot_words(words@, start as int, k as int);
        let wv: u64 = if start + k < words.len() {
            words[start + k]
        } else {
            0
        };
        proof {
            // one more scale-and-add step stays below the next power
            assert(pow(base as int, (k + 1) as nat) == base * pow(base as int, k as nat)) by {
                vstd::arithmetic::power::lemma_pow1(base as int);
                vstd::arithmetic::power::lemma_pow_adds(base as int, 1, k as nat);
            }
            assert((acc.value() as int) * (base as int) <= (pow(base as int, k as nat) - 1) * (
            base as int)) by {
                vstd::arithmetic::mul::lemma_mul_inequality(
                    acc.value() as int,
                    pow(base as int, k as nat) - 1,
                    base as int,
                );
            }
            assert((pow(base as int, k as nat) - 1) * (base as int) == pow(base as int, k as nat)
                * base - base) by {
                vstd::arithmetic::mul::lemma_mul_is_distributive_sub_other_way(
                    base as int,
                    pow(base as int, k as nat),
                    1,
                );
            }
            vstd::arithmetic::mul::lemma_mul_is_commutative(pow(base as int, k as nat), base as int);
            assert(pow(base as int, (k + 1) as nat) <= pow(base as int, count as nat)) by {
                vstd::arithmetic::power::lemma_pow_increases(base as nat, (k + 1) as nat, count as nat);
            }
            assert((acc.value() * base + wv) < p);
            vstd::arithmetic::div_mod::lemma_small_mod(
                (acc.value() * (base as nat)) as nat,
                p,
            );
            vstd::arithmetic::div_mod::lemma_small_mod((acc.value() * base + wv) as nat, p);
        }
        let scaled = fe_mul(&acc, &base_fe);
        acc = fe_add(&scaled, &fe_from_u64(wv));
        proof {
            let sw1 = slot_words(words@, start as int, (k + 1) as int);
            assert(sw1.drop_last() =~= sw);
            assert(sw1.last() == wv as nat);
        }
        k = k + 1;
    }
    acc
}

/// Reads the little-endian value of `len` bytes of a field element's
/// representation, starting at `offset`.
fn read_le_bytes(a: &Fe, offset: usize, len: usize) -> (r: u64)
    requires
        a.inv(),
        len <= 7,
        offset + len <= 32,
    ensures
        r as nat == le_bytes_value(a.byte_seq().subrange(offset as int, (offset + len) as int)),
{
    proof {
        lemma_fe_inv_facts(a);
    }
    let ghost s = a.byte_seq();
    let mut acc: u64 = 0;
    let mut m: usize = len;
    proof {
        vstd::arithmetic::power::lemma_pow0(256);
        assert(s.subrange((offset + len) as int, (offset + len) as int) =~= Seq::<u8>::empty());
    }
    while m > 0
        invariant
            m <= len,
            len <= 7,
            offset + len <= 32,
            a.inv(),
            s == a.byte_seq(),
            s.len() == 32,
            acc as nat == le_bytes_value(s.subrange((offset + m) as int, (offset + len) as int)),
            (acc as nat) < pow(256, (len - m) as nat),
        decreases m,
    {
        m = m - 1;
        let b = a.byte_at(offset + m);
        proof {
            let lo = (offset + m) as int;
            let hi = (offset + len) as int;
            lemma_le_bytes_value_split(s.subrange(lo, hi), 1);
            assert(s.subrange(lo, hi).subrange(0, 1) =~= seq![s[lo]]);
            assert(s.subrange(lo, hi).subrange(1, hi - lo) =~= s.subrange(lo + 1, hi));
            lemma_le_bytes_single(s[lo]);
            crate::field::lemma_pow256_unfold((len - m - 1) as nat);
            assert(256 * (acc as int) <= 256 * (pow(256, (len - m - 1) as nat) - 1)) by {
                vstd::arithmetic::mul::lemma_mul_inequality(
                    acc as int,
                    pow(256, (len - m - 1) as nat) - 1,
                    256,
                );
            }
            assert(256 * (pow(256, (len - m - 1) as nat) - 1) == 256 * pow(
                256,
                (len - m - 1) as nat,
            ) - 256) by {
                vstd::arithmetic::mul::lemma_mul_is_distributive_sub(
                    256,
                    pow(256, (len - m - 1) as nat),
                    1,
                );
            }
            assert(pow(256, (len - m) as nat) <= pow(256, 7)) by {
                vstd::arithmetic::power::lemma_pow_increases(256, (len - m) as nat, 7);
            }
            assert(pow(256, 7) == 0x100_0000_0000_0000) by {
                crate::field::lemma_pow256_pow2(7);
                vstd::arithmetic::power2::lemma2_to64_rest();
            }
            vstd::arithmetic::mul::lemma_mul_is_commutative(256, b as int);
        }
        acc = acc * 256 + (b as u64);
        assert(acc as nat == le_bytes_value(s.subrange((offset + m) as int, (offset + len) as int)));
    }
    acc
}

/// Decodes a packed slot: reads `count` words of `word_bytes` bytes each out
/// of the packed element, most significant word first — the inverse
/// positional scheme.
pub fn unpack_slot(slot: &Fe, word_bytes: usize, count: usize) -> (r: Vec<u64>)
    requires
        slot.inv(),
        1 <= word_bytes <= 7,
        count * word_bytes <= 32,
    ensures
        r@.len() == count,
        forall|k: int|
            0 <= k < count ==> #[trigger] r@[k] as nat == unpack_value(
                slot.value(),
                pow(256, word_bytes as nat) as nat,
                count as nat,
            )[k],
{
    let ghost base = pow(256, word_bytes as nat) as nat;
    let mut out: Vec<u64> = Vec::new();
    let mut k: usize = 0;
    proof {
        lemma_fe_inv_facts(slot);
        vstd::arithmetic::power::lemma_pow_positive(256, word_bytes as nat);
    }
    while k < count
        invariant
            k <= count,
            1 <= word_bytes <= 7,
            count * word_bytes <= 32,
            slot.inv(),
            slot.byte_seq().len() == 32,
            base == pow(256, word_bytes as nat) as nat,
            out@.len() == k,
            forall|j: int|
                0 <= j < k ==> #[trigger] out@[j] as nat == unpack_value(
                    slot.value(),
                    base,
                    count as nat,
                )[j],
        decreases count - k,
    {
        let e = count - 1 - k;
        proof {
            // the word's byte offset stays inside the representation
            assert((e + 1) * word_bytes <= count * word_bytes) by {
                vstd::arithmetic::mul::lemma_mul_inequality(
                    (e + 1) as int,
                    count as int,
                    word_bytes as int,
                );
            }
            assert(e * word_bytes + word_bytes == (e + 1) * word_bytes) by {
                vstd::arithmetic::mul::lemma_mul_is_distributive_add_other_way(
                    word_bytes as int,
                    e as int,
                    1,
                );
            }
        }
        let offset = e * word_bytes;
        let w = read_le_bytes(slot, offset, word_bytes);
        proof {
            let o = offset as int;
            lemma_fe_inv_facts(slot);
            lemma_le_bytes_chunk(slot.byte_seq(), o, word_bytes as int);
            // the chunk read is the value shifted down by a power of the base
            assert(pow(256, (offset) as nat) == pow(base as int, e as nat)) by {
                vstd::arithmetic::power::lemma_pow_positive(256, word_bytes as nat);
                vstd::arithmetic::power::lemma_pow_multiplies(256, word_bytes as nat, e as nat);
                vstd::arithmetic::mul::lemma_mul_is_commutative(word_bytes as int, e as int);
            }
        }
        proof {
            assert(base as int == pow(256, word_bytes as nat)) by {
                vstd::arithmetic::power::lemma_pow_positive(256, word_bytes as nat);
            }
            assert(w as nat == ((slot.value() as int / pow(base as int, e as nat)) % (
            base as int)) as nat);
            assert(unpack_value(slot.value(), base, count as nat)[k as int] == w as nat);
        }
        out.push(w);
        k = k + 1;
    }
    out
}

} // verus!
