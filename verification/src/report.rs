//! Reporting helpers: rendering the change between two measured sizes.

use vstd::prelude::*;

verus! {

/// The decimal digit character for a value below ten.
pub open spec fn dec_digit(d: nat) -> char {
    if d == 0 {
        '0'
    } else if d == 1 {
        '1'
    } else if d == 2 {
        '2'
    } else if d == 3 {
        '3'
    } else if d == 4 {
        '4'
    } else if d == 5 {
        '5'
    } else if d == 6 {
        '6'
    } else if d == 7 {
        '7'
    } else if d == 8 {
        '8'
    } else {
        '9'
    }
}

/// The decimal rendering of a number, most significant digit first.
pub open spec fn dec_str(n: nat) -> Seq<char>
    decreases n,
{
    if n < 10 {
        seq![dec_digit(n)]
    } else {
        dec_str(n / 10).push(dec_digit(n % 10))
    }
}

/// The rendering of the digits collected least-significant-first, read back
/// in reverse.
pub open spec fn rev_digit_chars(ds: Seq<u8>) -> Seq<char>
    decreases ds.len(),
{
    if ds.len() == 0 {
        Seq::empty()
    } else {
        seq![dec_digit(ds.last() as nat)] + rev_digit_chars(ds.drop_last())
    }
}

/// Reading the reversed digits starts with the digit collected last and
/// ends with the digit collected first.
pub proof fn lemma_rev_digit_chars_first(ds: Seq<u8>)
    requires
        ds.len() > 0,
    ensures
        rev_digit_chars(ds) =~= rev_digit_chars(ds.subrange(1, ds.len() as int)) + seq![
            dec_digit(ds.first() as nat),
        ],
    decreases ds.len(),
{
    if ds.len() == 1 {
        assert(ds.subrange(1, 1) =~= Seq::<u8>::empty());
        assert(ds.drop_last() =~= Seq::<u8>::empty());
    } else {
        let front = ds.drop_last();
        lemma_rev_digit_chars_first(front);
        assert(ds.subrange(1, ds.len() as int).drop_last() =~= front.subrange(
            1,
            front.len() as int,
        ));
        assert(ds.subrange(1, ds.len() as int).last() == ds.last());
        assert(rev_digit_chars(ds.subrange(1, ds.len() as int)) =~= seq![
            dec_digit(ds.last() as nat),
        ] + rev_digit_chars(front.subrange(1, front.len() as int)));
    }
}

/// The rendered change between a new measurement and an old one: nothing
/// when equal, the signed difference in parentheses otherwise.
pub open spec fn spec_format_change(a: nat, b: nat) -> Seq<char> {
    if a < b {
        seq![' ', '(', '-'] + dec_str((b - a) as nat) + seq![')']
    } else if a == b {
        Seq::empty()
    } else {
        seq![' ', '(', '+'] + dec_str((a - b) as nat) + seq![')']
    }
}

/// One decimal digit as a string slice.
fn digit_str(d: u8) -> (r: &'static str)
    requires
        d < 10,
    ensures
        r@ == seq![dec_digit(d as nat)],
{
    proof {
        reveal_strlit("0");
        reveal_strlit("1");
        reveal_strlit("2");
        reveal_strlit("3");
        reveal_strlit("4");
        reveal_strlit("5");
        reveal_strlit("6");
        reveal_strlit("7");
        reveal_strlit("8");
        reveal_strlit("9");
    }
    let r = match d {
        0 => "0",
        1 => "1",
        2 => "2",
        3 => "3",
        4 => "4",
        5 => "5",
        6 => "6",
        7 => "7",
        8 => "8",
        _ => "9",
    };
    proof {
        assert(r@ =~= seq![dec_digit(d as nat)]);
    }
    r
}

/// Appends the decimal rendering of a number to a string.
fn push_decimal(s: &mut String, x: usize)
    ensures
        final(s)@ == old(s)@ + dec_str(x as nat),
{
    let ghost base = s@;
    let mut digits: Vec<u8> = Vec::new();
    let mut v: usize = x;
    while v >= 10
        invariant
            dec_str(x as nat) == dec_str(v as nat) + rev_digit_chars(digits@),
            forall|i: int| 0 <= i < digits@.len() ==> #[trigger] digits@[i] < 10,
        decreases v,
    {
        let d = (v % 10) as u8;
        proof {
            let ds1 = digits@.push(d);
            assert(ds1.drop_last() =~= digits@);
            assert(dec_str(v as nat) == dec_str((v as nat) / 10).push(dec_digit((v as nat) % 10)));
            assert(dec_str((v as nat) / 10) + rev_digit_chars(ds1) =~= dec_str(v as nat)
                + rev_digit_chars(digits@));
        }
        digits.push(d);
        v = v / 10;
    }
    s.append(digit_str(v as u8));
    proof {
        assert(s@ =~= base + dec_str(v as nat));
    }
    let mut i: usize = digits.len();
    while i > 0
        invariant
            i <= digits@.len(),
            forall|t: int| 0 <= t < digits@.len() ==> #[trigger] digits@[t] < 10,
            dec_str(x as nat) == dec_str(v as nat) + rev_digit_chars(digits@),
            s@ == base + dec_str(v as nat) + rev_digit_chars(digits@.subrange(
                i as int,
                digits@.len() as int,
            )),
        decreases i,
    {
        i = i - 1;
        proof {
            let hi = digits@.len() as int;
            let tail = digits@.subrange(i as int, hi);
            lemma_rev_digit_chars_first(tail);
            assert(tail.subrange(1, tail.len() as int) =~= digits@.subrange(i as int + 1, hi));
            assert(rev_digit_chars(tail) =~= rev_digit_chars(
                digits@.subrange(i as int + 1, hi),
            ) + seq![dec_digit(digits@[i as int] as nat)]);
        }
        s.append(digit_str(digits[i]));
        proof {
            assert(s@ =~= base + dec_str(v as nat) + rev_digit_chars(digits@.subrange(
                i as int,
                digits@.len() as int,
            )));
        }
    }
    proof {
        assert(digits@.subrange(0, digits@.len() as int) =~= digits@);
        assert(s@ =~= base + dec_str(x as nat));
    }
}

/// Renders how a measurement moved against its previous value: an empty
/// string when unchanged, otherwise the signed difference in parentheses,
/// preceded by a space.
pub fn format_change(a: usize, b: usize) -> (r: String)
    ensures
        r@ == spec_format_change(a as nat, b as nat),
{
    proof {
        reveal_strlit(" (-");
        reveal_strlit(" (+");
        reveal_strlit(")");
    }
    let mut s = String::new();
    if a < b {
        s.append(" (-");
        proof {
            assert(s@ =~= seq![' ', '(', '-']);
        }
        push_decimal(&mut s, b - a);
        s.append(")");
        proof {
            assert(s@ =~= spec_format_change(a as nat, b as nat));
        }
    } else if a > b {
        s.append(" (+");
        proof {
            assert(s@ =~= seq![' ', '(', '+']);
        }
        push_decimal(&mut s, a - b);
        s.append(")");
        proof {
            assert(s@ =~= spec_format_change(a as nat, b as nat));
        }
    } else {
        proof {
            assert(s@ =~= spec_format_change(a as nat, b as nat));
        }
    }
    s
}

} // verus!
