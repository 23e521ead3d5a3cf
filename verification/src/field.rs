//! The prime-field scalar type that every circuit value lives in.
//!
//! A field element is held as its canonical 32-byte little-endian
//! representation; its mathematical value is the little-endian byte value,
//! always below the field modulus.  The modular arithmetic itself is done by
//! the `pasta_curves` crate behind trusted wrappers; everything that can be
//! read off the bytes (equality, small-integer extraction, byte access) is
//! verified here.

use vstd::prelude::*;
use vstd::arithmetic::power::pow;
use vstd::arithmetic::power2::pow2;
use pasta_curves::group::ff::PrimeField;

verus! {

/// The order of the field: the modulus of the Pallas base field.
pub open spec fn field_modulus() -> nat {
    0x40000000000000000000000000000000224698fc094cf91b992d30ed00000001nat
}

/// The little-endian value of a byte sequence.
pub open spec fn le_bytes_value(s: Seq<u8>) -> nat
    decreases s.len(),
{
    if s.len() == 0 {
        0
    } else {
        s[0] as nat + 256 * le_bytes_value(s.subrange(1, s.len() as int))
    }
}

/// A field element in canonical little-endian byte representation.
#[derive(Debug, Clone, PartialEq, Eq)]
pub struct Fe {
    pub(crate) bytes: Vec<u8>,
}

impl Fe {
    /// The mathematical value of this element.
    pub closed spec fn value(&self) -> nat {
        le_bytes_value(self.bytes@)
    }

    /// The canonical byte sequence, little-endian.
    pub closed spec fn byte_seq(&self) -> Seq<u8> {
        self.bytes@
    }

    /// Well-formedness: exactly 32 bytes, canonical (below the modulus).
    pub closed spec fn inv(&self) -> bool {
        self.bytes@.len() == 32 && le_bytes_value(self.bytes@) < field_modulus()
    }
}

/// A well-formed element's value is below the modulus, and its bytes encode it.
pub broadcast proof fn lemma_fe_inv_facts(a: &Fe)
    requires
        #[trigger] a.inv(),
    ensures
        a.value() < field_modulus(),
        a.byte_seq().len() == 32,
        a.value() == le_bytes_value(a.byte_seq()),
{
}

/// Relies on `pasta_curves::Fp`: `from_repr` reads a canonical little-endian
/// representation, `+` is addition modulo the field order, and `to_repr`
/// returns the canonical little-endian representation of the result.
#[verifier::external_body]
pub fn fe_add(a: &Fe, b: &Fe) -> (r: Fe)
    requires
        a.inv(),
        b.inv(),
    ensures
        r.inv(),
        r.value() == (a.value() + b.value()) % field_modulus(),
{
    let x = pasta_curves::Fp::from_repr(a.bytes.as_slice().try_into().unwrap()).unwrap();
    let y = pasta_curves::Fp::from_repr(b.bytes.as_slice().try_into().unwrap()).unwrap();
    Fe { bytes: (x + y).to_repr().to_vec() }
}

/// Relies on `pasta_curves::Fp`: `-` is subtraction modulo the field order.
#[verifier::external_body]
pub fn fe_sub(a: &Fe, b: &Fe) -> (r: Fe)
    requires
        a.inv(),
        b.inv(),
    ensures
        r.inv(),
        r.value() as int == ((a.value() + field_modulus()) - b.value()) % (
            field_modulus() as int),
{
    let x = pasta_curves::Fp::from_repr(a.bytes.as_slice().try_into().unwrap()).unwrap();
    let y = pasta_curves::Fp::from_repr(b.bytes.as_slice().try_into().unwrap()).unwrap();
    Fe { bytes: (x - y).to_repr().to_vec() }
}

/// Relies on `pasta_curves::Fp`: `*` is multiplication modulo the field order.
#[verifier::external_body]
pub fn fe_mul(a: &Fe, b: &Fe) -> (r: Fe)
    requires
        a.inv(),
        b.inv(),
    ensures
        r.inv(),
        r.value() == (a.value() * b.value()) % field_modulus(),
{
    let x = pasta_curves::Fp::from_repr(a.bytes.as_slice().try_into().unwrap()).unwrap();
    let y = pasta_curves::Fp::from_repr(b.bytes.as_slice().try_into().unwrap()).unwrap();
    Fe { bytes: (x * y).to_repr().to_vec() }
}

/// Relies on `pasta_curves::Fp::from(u64)`: embeds a 64-bit integer, whose
/// value is always below the field order.
#[verifier::external_body]
pub fn fe_from_u64(x: u64) -> (r: Fe)
    ensures
        r.inv(),
        r.value() == x as nat,
{
    let f = pasta_curves::Fp::from(x);
    Fe { bytes: f.to_repr().to_vec() }
}

/// Relies on `pasta_curves::Fp::from_u128`: embeds a 128-bit integer, whose
/// value is always below the field order.
#[verifier::external_body]
pub fn fe_from_u128(x: u128) -> (r: Fe)
    ensures
        r.inv(),
        r.value() == x as nat,
{
    let f = pasta_curves::Fp::from_u128(x);
    Fe { bytes: f.to_repr().to_vec() }
}

impl Fe {
    /// A copy of this element with the same value.
    pub fn dup(&self) -> (r: Fe)
        ensures
            r.inv() == self.inv(),
            r.value() == self.value(),
            r.byte_seq() == self.byte_seq(),
    {
        let mut out: Vec<u8> = Vec::new();
        let mut i: usize = 0;
        while i < self.bytes.len()
            invariant
                i <= self.bytes.len(),
                out@ =~= self.bytes@.subrange(0, i as int),
            decreases self.bytes.len() - i,
        {
            out.push(self.bytes[i]);
            i = i + 1;
        }
        assert(out@ =~= self.bytes@);
        Fe { bytes: out }
    }

    /// One byte of the canonical representation.
    pub fn byte_at(&self, i: usize) -> (b: u8)
        requires
            i < self.byte_seq().len(),
        ensures
            b == self.byte_seq()[i as int],
    {
        self.bytes[i]
    }
}

/// The value of a single byte.
pub proof fn lemma_le_bytes_single(b: u8)
    ensures
        le_bytes_value(seq![b]) == b as nat,
{
    let one = seq![b];
    assert(one.len() == 1);
    assert(one.subrange(1, 1) =~= Seq::<u8>::empty());
    assert(le_bytes_value(Seq::<u8>::empty()) == 0);
    assert(le_bytes_value(one) == one[0] as nat + 256 * le_bytes_value(one.subrange(1, 1)));
}

/// One unfolding step of a power of 256.
pub proof fn lemma_pow256_unfold(n: nat)
    ensures
        pow(256, n + 1) == 256 * pow(256, n),
{
    vstd::arithmetic::power::lemma_pow1(256);
    vstd::arithmetic::power::lemma_pow_adds(256, 1, n);
}

/// A byte sequence's value is below 256 to the power of its length.
pub proof fn lemma_le_bytes_value_bound(s: Seq<u8>)
    ensures
        le_bytes_value(s) < pow(256, s.len() as nat),
    decreases s.len(),
{
    if s.len() == 0 {
        assert(pow(256, 0) == 1) by {
            vstd::arithmetic::power::lemma_pow0(256);
        }
    } else {
        let tail = s.subrange(1, s.len() as int);
        lemma_le_bytes_value_bound(tail);
        let t = le_bytes_value(tail) as int;
        let n = (s.len() - 1) as nat;
        lemma_pow256_unfold(n);
        assert(pow(256, s.len() as nat) == 256 * pow(256, n));
        assert(t <= pow(256, n) - 1);
        assert(256 * t <= 256 * (pow(256, n) - 1)) by {
            vstd::arithmetic::mul::lemma_mul_inequality(t, pow(256, n) - 1, 256);
        }
        assert(256 * (pow(256, n) - 1) == 256 * pow(256, n) - 256) by {
            vstd::arithmetic::mul::lemma_mul_is_distributive_sub(256, pow(256, n), 1);
        }
    }
}

/// Equal-length byte sequences with the same value are equal.
pub proof fn lemma_le_bytes_value_injective(s: Seq<u8>, t: Seq<u8>)
    requires
        s.len() == t.len(),
        le_bytes_value(s) == le_bytes_value(t),
    ensures
        s =~= t,
    decreases s.len(),
{
    if s.len() != 0 {
        let s1 = s.subrange(1, s.len() as int);
        let t1 = t.subrange(1, t.len() as int);
        let a = le_bytes_value(s1) as int;
        let b = le_bytes_value(t1) as int;
        assert(s[0] + 256 * a == t[0] + 256 * b);
        assert(s[0] == t[0] && a == b) by {
            assert(s[0] - t[0] == 256 * b - 256 * a);
            assert(256 * b - 256 * a == 256 * (b - a)) by {
                vstd::arithmetic::mul::lemma_mul_is_distributive_sub_other_way(256, b, a);
            }
            assert(-256 < 256 * (b - a) < 256);
            assert(b - a == 0) by {
                if b - a >= 1 {
                    vstd::arithmetic::mul::lemma_mul_inequality(1, b - a, 256);
                }
                if b - a <= -1 {
                    vstd::arithmetic::mul::lemma_mul_inequality(b - a, -1, 256);
                }
            }
        }
        lemma_le_bytes_value_injective(s1, t1);
        assert forall|i: int| 0 <= i < s.len() implies s[i] == t[i] by {
            if i > 0 {
                assert(s1[i - 1] == t1[i - 1]);
            }
        }
    }
}

/// Splitting a byte sequence splits its value positionally.
pub proof fn lemma_le_bytes_value_split(s: Seq<u8>, k: int)
    requires
        0 <= k <= s.len(),
    ensures
        le_bytes_value(s) == le_bytes_value(s.subrange(0, k)) + pow(256, k as nat) * le_bytes_value(
            s.subrange(k, s.len() as int),
        ),
    decreases k,
{
    if k == 0 {
        assert(s.subrange(0, 0) =~= Seq::<u8>::empty());
        assert(s.subrange(0, s.len() as int) =~= s);
        assert(pow(256, 0) == 1) by {
            vstd::arithmetic::power::lemma_pow0(256);
        }
    } else {
        let tail = s.subrange(1, s.len() as int);
        lemma_le_bytes_value_split(tail, k - 1);
        let n = (k - 1) as nat;
        lemma_pow256_unfold(n);
        assert(tail.subrange(0, k - 1) =~= s.subrange(0, k).subrange(1, k));
        assert(tail.subrange(k - 1, tail.len() as int) =~= s.subrange(k, s.len() as int));
        let lo = le_bytes_value(s.subrange(0, k)) as int;
        let hi = le_bytes_value(s.subrange(k, s.len() as int)) as int;
        // value(s) = s[0] + 256 * (value(tail))
        //          = s[0] + 256 * (value(tail.take(k-1)) + pow(256,k-1) * hi)
        assert(le_bytes_value(s.subrange(0, k)) == s[0] as nat + 256 * le_bytes_value(
            tail.subrange(0, k - 1),
        ));
        let tl = le_bytes_value(tail.subrange(0, k - 1)) as int;
        assert(256 * (tl + pow(256, n) * hi) == 256 * tl + 256 * (pow(256, n) * hi)) by {
            vstd::arithmetic::mul::lemma_mul_is_distributive_add(256, tl, pow(256, n) * hi);
        }
        assert(256 * (pow(256, n) * hi) == (256 * pow(256, n)) * hi) by {
            vstd::arithmetic::mul::lemma_mul_is_associative(256, pow(256, n), hi);
        }
        assert(pow(256, k as nat) == 256 * pow(256, n));
    }
}

/// The digits of a value in a positional base: chunk extraction.
pub proof fn lemma_le_bytes_chunk(s: Seq<u8>, o: int, w: int)
    requires
        0 <= o,
        0 <= w,
        o + w <= s.len(),
    ensures
        le_bytes_value(s.subrange(o, o + w)) as int == (le_bytes_value(s) as int / pow(
            256,
            o as nat,
        )) % pow(256, w as nat),
{
    let p_o = pow(256, o as nat);
    let p_w = pow(256, w as nat);
    vstd::arithmetic::power::lemma_pow_positive(256, o as nat);
    vstd::arithmetic::power::lemma_pow_positive(256, w as nat);
    lemma_le_bytes_value_split(s, o);
    let a = le_bytes_value(s.subrange(0, o)) as int;
    let rest = s.subrange(o, s.len() as int);
    let b = le_bytes_value(rest) as int;
    lemma_le_bytes_value_bound(s.subrange(0, o));
    assert(le_bytes_value(s) as int == b * p_o + a) by {
        vstd::arithmetic::mul::lemma_mul_is_commutative(p_o, b);
    }
    // value(s) / pow(256, o) == b
    vstd::arithmetic::div_mod::lemma_fundamental_div_mod_converse(
        le_bytes_value(s) as int,
        p_o,
        b,
        a,
    );
    lemma_le_bytes_value_split(rest, w);
    assert(rest.subrange(0, w) =~= s.subrange(o, o + w));
    let c = le_bytes_value(rest.subrange(0, w)) as int;
    let d = le_bytes_value(rest.subrange(w, rest.len() as int)) as int;
    lemma_le_bytes_value_bound(rest.subrange(0, w));
    // b % pow(256, w) == c
    assert(b == d * p_w + c) by {
        vstd::arithmetic::mul::lemma_mul_is_commutative(p_w, d);
    }
    vstd::arithmetic::div_mod::lemma_fundamental_div_mod_converse(b, p_w, d, c);
}

/// Equality of field elements, decided on the canonical bytes.
pub fn fe_eq(a: &Fe, b: &Fe) -> (r: bool)
    requires
        a.inv(),
        b.inv(),
    ensures
        r == (a.value() == b.value()),
{
    proof {
        lemma_fe_inv_facts(a);
        lemma_fe_inv_facts(b);
    }
    let mut i: usize = 0;
    while i < 32
        invariant
            i <= 32,
            a.inv(),
            b.inv(),
            forall|j: int| 0 <= j < i ==> a.byte_seq()[j] == b.byte_seq()[j],
        decreases 32 - i,
    {
        if a.byte_at(i) != b.byte_at(i) {
            proof {
                if a.value() == b.value() {
                    lemma_le_bytes_value_injective(a.byte_seq(), b.byte_seq());
                }
            }
            return false;
        }
        i = i + 1;
    }
    proof {
        assert(a.byte_seq() =~= b.byte_seq());
    }
    true
}

/// Extracts the value as a 64-bit integer, or reports that it is too large.
pub fn fe_to_u64(a: &Fe) -> (r: Option<u64>)
    requires
        a.inv(),
    ensures
        match r {
            Some(v) => v as nat == a.value(),
            None => a.value() >= 0x1_0000_0000_0000_0000nat,
        },
{
    proof {
        lemma_fe_inv_facts(a);
    }
    let s = Ghost(a.byte_seq());
    let mut j: usize = 8;
    while j < 32
        invariant
            8 <= j <= 32,
            a.inv(),
            s@ == a.byte_seq(),
            forall|m: int| 8 <= m < j ==> s@[m] == 0u8,
        decreases 32 - j,
    {
        if a.byte_at(j) != 0 {
            proof {
                lemma_le_bytes_value_split(s@, j as int);
                lemma_le_bytes_value_split(s@.subrange(j as int, 32), 1);
                let rest = s@.subrange(j as int, 32);
                assert(rest.subrange(0, 1) =~= seq![s@[j as int]]);
                lemma_le_bytes_single(s@[j as int]);
                // value >= pow(256, j) * value(rest) >= pow(256, 8)
                vstd::arithmetic::power::lemma_pow_positive(256, j as nat);
                assert(le_bytes_value(rest) >= 1);
                assert(pow(256, j as nat) * le_bytes_value(rest) >= pow(256, j as nat) * 1) by {
                    vstd::arithmetic::mul::lemma_mul_inequality(
                        1,
                        le_bytes_value(rest) as int,
                        pow(256, j as nat),
                    );
                    vstd::arithmetic::mul::lemma_mul_is_commutative(
                        pow(256, j as nat),
                        le_bytes_value(rest) as int,
                    );
                }
                assert(pow(256, j as nat) >= pow(256, 8)) by {
                    vstd::arithmetic::power::lemma_pow_increases(256, 8, j as nat);
                }
                lemma_pow256_8();
            }
            return None;
        }
        j = j + 1;
    }
    proof {
        // the high 24 bytes are zero, so the value is the value of the low 8
        lemma_le_bytes_value_split(s@, 8);
        lemma_zero_bytes_value(s@.subrange(8, 32));
        lemma_le_bytes_value_bound(s@.subrange(0, 8));
        lemma_pow256_8();
    }
    let mut acc: u64 = 0;
    let mut i: usize = 8;
    proof {
        vstd::arithmetic::power::lemma_pow0(256);
        assert(s@.subrange(8int, 8) =~= Seq::<u8>::empty());
    }
    while i > 0
        invariant
            i <= 8,
            a.inv(),
            s@ == a.byte_seq(),
            acc as nat == le_bytes_value(s@.subrange(i as int, 8)),
            (acc as nat) < pow(256, (8 - i) as nat),
        decreases i,
    {
        i = i - 1;
        let b = a.byte_at(i);
        proof {
            lemma_le_bytes_value_split(s@.subrange(i as int, 8), 1);
            assert(s@.subrange(i as int, 8).subrange(0, 1) =~= seq![s@[i as int]]);
            assert(s@.subrange(i as int, 8).subrange(1, 8 - i as int) =~= s@.subrange(
                i as int + 1,
                8,
            ));
            let one = seq![s@[i as int]];
            lemma_le_bytes_single(s@[i as int]);
            vstd::arithmetic::power::lemma_pow1(256);
            lemma_pow256_unfold((8 - i - 1) as nat);
            assert(pow(256, (8 - i) as nat) == 256 * pow(256, (8 - i - 1) as nat));
            assert(256 * (acc as int) <= 256 * (pow(256, (8 - i - 1) as nat) - 1)) by {
                vstd::arithmetic::mul::lemma_mul_inequality(
                    acc as int,
                    pow(256, (8 - i - 1) as nat) - 1,
                    256,
                );
            }
            assert(256 * (pow(256, (8 - i - 1) as nat) - 1) == 256 * pow(
                256,
                (8 - i - 1) as nat,
            ) - 256) by {
                vstd::arithmetic::mul::lemma_mul_is_distributive_sub(
                    256,
                    pow(256, (8 - i - 1) as nat),
                    1,
                );
            }
            lemma_pow256_8();
            assert(pow(256, (8 - i) as nat) <= pow(256, 8)) by {
                vstd::arithmetic::power::lemma_pow_increases(256, (8 - i) as nat, 8);
            }
        }
        acc = acc * 256 + (b as u64);
        proof {
            // the new value is byte i plus 256 times the old suffix value,
            // which is le_bytes_value of the suffix from i
            vstd::arithmetic::mul::lemma_mul_is_commutative(256, b as int);
        }
        assert(acc as nat == le_bytes_value(s@.subrange(i as int, 8)));
    }
    proof {
        assert(s@.subrange(0, 8) =~= s@.subrange(0int, 8));
    }
    Some(acc)
}

/// A power of 256 is the corresponding power of two.
pub proof fn lemma_pow256_pow2(k: nat)
    ensures
        pow(256, k) == pow2(8 * k),
{
    vstd::arithmetic::power2::lemma_pow2(8 * k);
    vstd::arithmetic::power::lemma_pow_multiplies(2, 8, k);
    vstd::arithmetic::power2::lemma_pow2(8);
    vstd::arithmetic::power2::lemma2_to64();
    assert(pow(2, 8) == 256);
}

/// The numeric value of 256 to the eighth power.
pub proof fn lemma_pow256_8()
    ensures
        pow(256, 8) == 0x1_0000_0000_0000_0000nat,
{
    lemma_pow256_pow2(8);
    vstd::arithmetic::power2::lemma2_to64_rest();
}

/// Any power of 256 up to the 31st stays below the field modulus.
pub proof fn lemma_pow256_31_below_modulus(k: nat)
    requires
        k <= 31,
    ensures
        pow(256, k) < field_modulus(),
{
    lemma_pow256_pow2(k);
    vstd::arithmetic::power2::lemma2_to64();
    vstd::arithmetic::power2::lemma2_to64_rest();
    vstd::arithmetic::power2::lemma_pow2_adds(64, 64);
    vstd::arithmetic::power2::lemma_pow2_adds(128, 64);
    vstd::arithmetic::power2::lemma_pow2_adds(192, 56);
    assert(pow2(128) == 0x1_0000_0000_0000_0000_0000_0000_0000_0000nat);
    assert(pow2(192) == 0x1_0000_0000_0000_0000_0000_0000_0000_0000_0000_0000_0000_0000nat);
    assert(pow2(56) == 0x100_0000_0000_0000nat);
    assert(pow2(248)
        == 0x100_0000_0000_0000_0000_0000_0000_0000_0000_0000_0000_0000_0000_0000_0000_0000nat);
    if 8 * k < 248 {
        vstd::arithmetic::power2::lemma_pow2_strictly_increases(8 * k, 248);
    }
}

/// A sequence of zero bytes has value zero.
pub proof fn lemma_zero_bytes_value(s: Seq<u8>)
    requires
        forall|i: int| 0 <= i < s.len() ==> s[i] == 0u8,
    ensures
        le_bytes_value(s) == 0,
    decreases s.len(),
{
    if s.len() != 0 {
        lemma_zero_bytes_value(s.subrange(1, s.len() as int));
    }
}

} // verus!
