//! Decimal integers: reading them from text as `str::parse` does, and
//! writing them as `Display` does.
use vstd::prelude::*;

use crate::text::{one_line, spec_is_whitespace, unbroken};

verus! {

pub open spec fn is_ascii_digit(c: char) -> bool {
    '0' <= c && c <= '9'
}

pub open spec fn all_digits(s: Seq<char>) -> bool {
    forall|i: int| 0 <= i < s.len() ==> is_ascii_digit(#[trigger] s[i])
}

pub open spec fn digit_value(c: char) -> nat {
    ((c as int) - ('0' as int)) as nat
}

/// The number that the decimal digits `s` denote.
pub open spec fn digits_value(s: Seq<char>) -> nat
    decreases s.len(),
{
    if s.len() == 0 {
        0
    } else {
        digits_value(s.drop_last()) * 10 + digit_value(s.last())
    }
}

/// The magnitude part of a decimal literal: nonempty, ASCII digits only, and
/// at most `limit`.
pub open spec fn spec_magnitude(s: Seq<char>, limit: nat) -> Option<nat> {
    if s.len() > 0 && all_digits(s) && digits_value(s) <= limit {
        Some(digits_value(s))
    } else {
        None
    }
}

/// What `s.parse::<i64>()` gives: an optional `+` or `-`, then one or more
/// ASCII digits, and a value in range.
pub open spec fn spec_parse_i64(s: Seq<char>) -> Option<i64> {
    if s.len() == 0 {
        None
    } else if s[0] == '-' {
        match spec_magnitude(s.drop_first(), 9223372036854775808) {
            Some(m) => Some((0 - m) as i64),
            None => None,
        }
    } else if s[0] == '+' {
        match spec_magnitude(s.drop_first(), 9223372036854775807) {
            Some(m) => Some(m as i64),
            None => None,
        }
    } else {
        match spec_magnitude(s, 9223372036854775807) {
            Some(m) => Some(m as i64),
            None => None,
        }
    }
}

/// What `s.parse::<u8>()` gives: an optional `+`, then one or more ASCII
/// digits, and a value below 256.
pub open spec fn spec_parse_u8(s: Seq<char>) -> Option<u8> {
    if s.len() == 0 {
        None
    } else if s[0] == '+' {
        match spec_magnitude(s.drop_first(), 255) {
            Some(m) => Some(m as u8),
            None => None,
        }
    } else {
        match spec_magnitude(s, 255) {
            Some(m) => Some(m as u8),
            None => None,
        }
    }
}

proof fn lemma_digits_value_prefix(s: Seq<char>, k: int)
    requires
        0 <= k <= s.len(),
        all_digits(s),
    ensures
        digits_value(s.take(k)) <= digits_value(s),
    decreases s.len() - k,
{
    if k < s.len() {
        lemma_digits_value_prefix(s, k + 1);
        assert(s.take(k + 1).drop_last() =~= s.take(k));
    }
    assert(s.take(s.len() as int) =~= s);
}

/// Reads the digits `s[start..]` as a number no greater than `limit`.
fn parse_magnitude(s: &Vec<char>, start: usize, limit: u64) -> (r: Option<u64>)
    requires
        start <= s@.len(),
        limit >= 9,
    ensures
        r matches Some(v) ==> spec_magnitude(s@.skip(start as int), limit as nat) == Some(v as nat),
        r is None ==> spec_magnitude(s@.skip(start as int), limit as nat) is None,
{
    let ghost t = s@.skip(start as int);
    if start >= s.len() {
        return None;
    }
    let mut acc: u64 = 0;
    let mut i: usize = start;
    while i < s.len()
        invariant
            start <= i <= s@.len(),
            t == s@.skip(start as int),
            all_digits(t.take(i - start)),
            acc as nat == digits_value(t.take(i - start)),
            acc <= limit,
            limit >= 9,
        decreases s@.len() - i,
    {
        let c = s[i];
        assert(t[i - start] == c);
        assert(t.take(i - start + 1).drop_last() =~= t.take(i - start));
        if c < '0' || c > '9' {
            assert(!all_digits(t));
            return None;
        }
        let d = (c as u32 - '0' as u32) as u64;
        assert(d == digit_value(c));
        assert(all_digits(t.take(i - start + 1)));
        if acc > (limit - d) / 10 {
            assert(digits_value(t.take(i - start + 1)) > limit) by (nonlinear_arith)
                requires
                    digits_value(t.take(i - start + 1)) == acc * 10 + d,
                    acc > (limit - d) / 10,
                    d <= 9,
                    d <= limit || true,
            {
            }
            proof {
                if all_digits(t) {
                    lemma_digits_value_prefix(t, i - start + 1);
                }
            }
            return None;
        }
        assert(acc * 10 + d <= limit) by (nonlinear_arith)
            requires
                acc <= (limit - d) / 10,
                d <= limit,
        {
        }
        acc = acc * 10 + d;
        i = i + 1;
    }
    assert(t.take(i - start) =~= t);
    Some(acc)
}

/// Reads a decimal `i64` the way `str::parse::<i64>` does.
pub fn parse_i64(s: &Vec<char>) -> (r: Option<i64>)
    ensures
        r == spec_parse_i64(s@),
{
    if s.len() == 0 {
        return None;
    }
    assert(s@.skip(0) =~= s@);
    assert(s@.skip(1) =~= s@.drop_first());
    if s[0] == '-' {
        match parse_magnitude(s, 1, 9223372036854775808) {
            Some(m) => {
                if m == 9223372036854775808 {
                    Some(i64::MIN)
                } else {
                    Some(0 - (m as i64))
                }
            },
            None => None,
        }
    } else if s[0] == '+' {
        match parse_magnitude(s, 1, 9223372036854775807) {
            Some(m) => Some(m as i64),
            None => None,
        }
    } else {
        match parse_magnitude(s, 0, 9223372036854775807) {
            Some(m) => Some(m as i64),
            None => None,
        }
    }
}

/// Reads a decimal `u8` the way `str::parse::<u8>` does.
pub fn parse_u8(s: &Vec<char>) -> (r: Option<u8>)
    ensures
        r == spec_parse_u8(s@),
{
    if s.len() == 0 {
        return None;
    }
    assert(s@.skip(0) =~= s@);
    assert(s@.skip(1) =~= s@.drop_first());
    if s[0] == '+' {
        match parse_magnitude(s, 1, 255) {
            Some(m) => Some(m as u8),
            None => None,
        }
    } else {
        match parse_magnitude(s, 0, 255) {
            Some(m) => Some(m as u8),
            None => None,
        }
    }
}

pub open spec fn digit_char(d: nat) -> char {
    (('0' as nat) + d) as char
}

/// The decimal digits of `n`, most significant first, with no leading zero.
pub open spec fn decimal(n: nat) -> Seq<char>
    decreases n,
{
    if n < 10 {
        seq![digit_char(n)]
    } else {
        decimal(n / 10).push(digit_char(n % 10))
    }
}

/// How `Display` writes a signed integer: a `-` before the digits of a
/// negative value.
pub open spec fn spec_int_text(v: int) -> Seq<char> {
    if v < 0 {
        seq!['-'] + decimal((0 - v) as nat)
    } else {
        decimal(v as nat)
    }
}

fn push_digits(n: u64, out: &mut Vec<char>)
    ensures
        final(out)@ == old(out)@ + decimal(n as nat),
    decreases n,
{
    if n >= 10 {
        push_digits(n / 10, out);
    }
    let d = n % 10;
    let c = ((d as u8) + 48u8) as char;
    assert(c == digit_char(d as nat));
    out.push(c);
    proof {
        if n >= 10 {
            assert(old(out)@ + decimal(n as nat) =~= old(out)@ + decimal((n / 10) as nat) + seq![c]);
        } else {
            assert(old(out)@ + decimal(n as nat) =~= old(out)@ + seq![c]);
        }
    }
}

/// Appends the decimal text of `v`, as `Display` writes it.
pub fn push_i64_text(v: i64, out: &mut Vec<char>)
    ensures
        final(out)@ == old(out)@ + spec_int_text(v as int),
{
    if v < 0 {
        out.push('-');
        let m: u64 = if v == i64::MIN {
            9223372036854775808u64
        } else {
            (0 - v) as u64
        };
        push_digits(m, out);
        assert(final(out)@ =~= old(out)@ + spec_int_text(v as int));
    } else {
        push_digits(v as u64, out);
    }
}

/// Appends the decimal text of `n`, as `Display` writes it.
pub fn push_u64_text(n: u64, out: &mut Vec<char>)
    ensures
        final(out)@ == old(out)@ + decimal(n as nat),
{
    push_digits(n, out);
}

proof fn lemma_decimal_digits(n: nat)
    ensures
        all_digits(decimal(n)),
        digits_value(decimal(n)) == n,
        decimal(n).len() > 0,
        decimal(n)[0] != '+' && decimal(n)[0] != '-',
    decreases n,
{
    lemma_digit_char_value(n % 10);
    if n < 10 {
        assert(n % 10 == n);
        assert(decimal(n).drop_last() =~= Seq::<char>::empty());
        assert(digits_value(Seq::<char>::empty()) == 0);
        assert(digits_value(decimal(n)) == digits_value(decimal(n).drop_last()) * 10 + digit_value(
            decimal(n).last(),
        ));
    }
    if n >= 10 {
        lemma_decimal_digits(n / 10);
        assert(n == (n / 10) * 10 + n % 10) by (nonlinear_arith);
        assert(decimal(n).last() == digit_char(n % 10));
        assert(decimal(n).drop_last() =~= decimal(n / 10));
        assert(digits_value(decimal(n)) == digits_value(decimal(n).drop_last()) * 10 + digit_value(
            decimal(n).last(),
        ));
        let s = decimal(n);
        assert(s.drop_last() =~= decimal(n / 10));
        assert(s[0] == decimal(n / 10)[0]);
        assert forall|i: int| 0 <= i < s.len() implies is_ascii_digit(#[trigger] s[i]) by {
            if i < s.len() - 1 {
                assert(s[i] == decimal(n / 10)[i]);
            }
        }
    }
}

proof fn lemma_digit_char_value(d: nat)
    requires
        d < 10,
    ensures
        digit_value(digit_char(d)) == d,
        is_ascii_digit(digit_char(d)),
{
    assert(((48 + d) as char) as int == 48 + d);
}

/// Reading back the decimal text of any `i64` gives the same value.
pub proof fn lemma_i64_text_round_trip(v: i64)
    ensures
        spec_parse_i64(spec_int_text(v as int)) == Some(v),
{
    if v < 0 {
        let m = (0 - v) as nat;
        lemma_decimal_digits(m);
        assert((seq!['-'] + decimal(m)).drop_first() =~= decimal(m));
    } else {
        lemma_decimal_digits(v as nat);
    }
}

/// Reading back the decimal text of any `u8` gives the same value.
pub proof fn lemma_u8_text_round_trip(v: u8)
    ensures
        spec_parse_u8(decimal(v as nat)) == Some(v),
{
    lemma_decimal_digits(v as nat);
}


/// The text of an integer is one word: nonempty, without white space or
/// newline.
pub proof fn lemma_int_text_is_word(v: int)
    ensures
        spec_int_text(v).len() > 0,
        unbroken(spec_int_text(v)),
        one_line(spec_int_text(v)),
{
    let m: nat = if v < 0 {
        (0 - v) as nat
    } else {
        v as nat
    };
    lemma_decimal_digits(m);
    let t = spec_int_text(v);
    assert forall|i: int| 0 <= i < t.len() implies !spec_is_whitespace(#[trigger] t[i]) && t[i]
        != '\n' by {
        if v < 0 {
            if i > 0 {
                assert(t[i] == decimal(m)[i - 1]);
                assert(is_ascii_digit(decimal(m)[i - 1]));
            }
        } else {
            assert(is_ascii_digit(decimal(m)[i]));
        }
    }
}

} // verus!
