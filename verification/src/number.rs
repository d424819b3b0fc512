//! Decimal numbers: writing them out and reading them back.

use vstd::prelude::*;
use vstd::slice::slice_subrange;

use crate::text::chars_of;

verus! {

/// The digit that stands for `d`.
pub open spec fn digit(d: int) -> char {
    (48 + d) as char
}

/// `n` written out in decimal, without leading zeros.
pub open spec fn decimal(n: nat) -> Seq<char>
    decreases n,
{
    if n < 10 {
        seq![digit(n as int)]
    } else {
        decimal(n / 10).push(digit((n % 10) as int))
    }
}

/// `i` written out in decimal, with a minus sign where it is negative.
pub open spec fn signed_decimal(i: int) -> Seq<char> {
    if i < 0 {
        seq!['-'] + decimal((-i) as nat)
    } else {
        decimal(i as nat)
    }
}

/// Whether `c` is one of the digits 0 to 9.
pub open spec fn is_digit(c: char) -> bool {
    '0' <= c <= '9'
}

/// Whether `s` holds digits only, and at least one.
pub open spec fn is_number(s: Seq<char>) -> bool {
    s.len() > 0 && forall|i: int| 0 <= i < s.len() ==> is_digit(#[trigger] s[i])
}

/// The number that the digits `s` stand for.
pub open spec fn digits_value(s: Seq<char>) -> int
    decreases s.len(),
{
    if s.len() == 0 {
        0
    } else {
        digits_value(s.drop_last()) * 10 + (s.last() as int - 48)
    }
}

/// What is left of `s` behind one sign.
pub open spec fn behind_sign(s: Seq<char>) -> Seq<char> {
    if s.len() > 0 && (s[0] == '-' || s[0] == '+') {
        s.skip(1)
    } else {
        s
    }
}

/// The number that `s` stands for: an optional sign, then digits.
pub open spec fn signed_value(s: Seq<char>) -> int {
    if s.len() > 0 && s[0] == '-' {
        -digits_value(behind_sign(s))
    } else {
        digits_value(behind_sign(s))
    }
}

/// The 64-bit number that `s` stands for (`str::parse::<i64>`), if it does.
pub open spec fn parsed_i64(s: Seq<char>) -> Option<i64> {
    let v = signed_value(s);
    if is_number(behind_sign(s)) && i64::MIN <= v <= i64::MAX {
        Some(v as i64)
    } else {
        None
    }
}

/// Digits stand for a number that is not negative.
pub proof fn lemma_digits_value_bounds(s: Seq<char>)
    requires
        forall|i: int| 0 <= i < s.len() ==> is_digit(#[trigger] s[i]),
    ensures
        digits_value(s) >= 0,
    decreases s.len(),
{
    if s.len() > 0 {
        lemma_digits_value_bounds(s.drop_last());
    }
}

proof fn lemma_decimal_reads_back(n: nat)
    ensures
        is_number(decimal(n)),
        digits_value(decimal(n)) == n,
    decreases n,
{
    if n < 10 {
        assert(decimal(n).drop_last() == Seq::<char>::empty());
        assert(digits_value(Seq::<char>::empty()) == 0);
        assert(digits_value(decimal(n)) == n);
    } else {
        lemma_decimal_reads_back(n / 10);
        let d = decimal(n);
        assert(d.drop_last() == decimal(n / 10));
        assert forall|i: int| 0 <= i < d.len() implies is_digit(#[trigger] d[i]) by {
            if i < d.len() - 1 {
                assert(d[i] == decimal(n / 10)[i]);
            }
        }
    }
}

/// Law: a number is written out in digits that stand for it, without leading
/// zeros.
pub proof fn law_decimal(n: nat)
    ensures
        is_number(decimal(n)),
        digits_value(decimal(n)) == n,
        decimal(n)[0] == '0' ==> n == 0 && decimal(n).len() == 1,
    decreases n,
{
    lemma_decimal_reads_back(n);
    if n >= 10 {
        law_decimal(n / 10);
        assert(decimal(n)[0] == decimal(n / 10)[0]);
    }
}

/// Law: a 64-bit number that is written out reads back as itself.
pub proof fn law_number_round_trip(i: i64)
    ensures
        parsed_i64(signed_decimal(i as int)) == Some(i),
{
    let n: nat = if i < 0 {
        (-i) as nat
    } else {
        i as nat
    };
    lemma_decimal_reads_back(n);
    let s = signed_decimal(i as int);
    if i < 0 {
        assert(s.skip(1) == decimal(n));
    } else {
        assert(is_digit(s[0]));
    }
}

/// Appends `n` in decimal to `out`.
pub fn push_decimal(out: &mut String, n: u128)
    ensures
        final(out)@ == old(out)@ + decimal(n as nat),
    decreases n,
{
    if n >= 10 {
        push_decimal(out, n / 10);
    }
    let d: u8 = (n % 10) as u8;
    out.push((48u8 + d) as char);
    proof {
        let before = if n >= 10 {
            old(out)@ + decimal((n / 10) as nat)
        } else {
            old(out)@
        };
        assert(out@ == before.push(digit((n % 10) as int)));
        assert(out@ == old(out)@ + decimal(n as nat));
    }
}

/// `i` in decimal (`i64::to_string`).
pub fn signed_string(i: i64) -> (r: String)
    ensures
        r@ == signed_decimal(i as int),
{
    let mut out = String::new();
    if i < 0 {
        out.push('-');
        let n: i128 = -(i as i128);
        push_decimal(&mut out, n as u128);
        proof {
            assert(out@ == signed_decimal(i as int));
        }
    } else {
        push_decimal(&mut out, i as u128);
        proof {
            assert(out@ == signed_decimal(i as int));
        }
    }
    out
}

/// The 64-bit number that `s` stands for.
pub fn parse_i64(s: &str) -> (r: Option<i64>)
    ensures
        r == parsed_i64(s@),
{
    let all: Vec<char> = chars_of(s);
    let negative: bool = all.len() > 0 && all[0] == '-';
    let signed: bool = negative || (all.len() > 0 && all[0] == '+');
    let digits: &[char] = if signed {
        slice_subrange(all.as_slice(), 1, all.len())
    } else {
        all.as_slice()
    };
    proof {
        assert(digits@ == behind_sign(s@));
    }
    if digits.len() == 0 {
        return None;
    }
    let mut value: i128 = 0;
    // Set once the digits read so far exceed every 64-bit number.
    let mut large: bool = false;
    for i in 0..digits.len()
        invariant
            digits@ == behind_sign(s@),
            forall|j: int| 0 <= j < i ==> is_digit(#[trigger] digits@[j]),
            0 <= value <= 0x8000_0000_0000_0000,
            large ==> digits_value(digits@.take(i as int)) > 0x8000_0000_0000_0000,
            !large ==> value == digits_value(digits@.take(i as int)),
    {
        let c: char = digits[i];
        if c < '0' || c > '9' {
            proof {
                assert(!is_digit(digits@[i as int]));
            }
            return None;
        }
        proof {
            assert(digits@.take(i + 1).drop_last() == digits@.take(i as int));
            lemma_digits_value_bounds(digits@.take(i as int));
        }
        if !large {
            let next: i128 = value * 10 + (c as u32 as i128 - 48);
            if next > 0x8000_0000_0000_0000 {
                large = true;
            } else {
                value = next;
            }
        }
    }
    proof {
        assert(digits@.take(digits@.len() as int) == digits@);
    }
    if large {
        None
    } else if negative {
        Some((-value) as i64)
    } else if value > 0x7fff_ffff_ffff_ffff {
        None
    } else {
        Some(value as i64)
    }
}

} // verus!
