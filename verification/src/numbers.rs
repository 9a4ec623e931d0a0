//! Decimal numbers in text: reading runs of ASCII digits and writing integers.

use vstd::prelude::*;
use crate::text::{is_digit, char_is_digit};

verus! {

pub open spec fn digit_value(c: char) -> nat {
    ((c as u32) - ('0' as u32)) as nat
}

pub open spec fn digit_char(d: nat) -> char {
    ((d + 48) as u32) as char
}

pub open spec fn all_digits(s: Seq<char>) -> bool {
    forall|i: int| 0 <= i < s.len() ==> is_digit(#[trigger] s[i])
}

/// The value of a run of decimal digits.
pub open spec fn decimal_value(s: Seq<char>) -> nat
    decreases s.len(),
{
    if s.len() == 0 {
        0
    } else {
        decimal_value(s.drop_last()) * 10 + digit_value(s.last())
    }
}

/// `str::parse::<usize>` on a non-empty run of ASCII digits: the value, or
/// `None` when the text is empty, holds a non-digit, or overflows.
pub open spec fn decimal_usize(s: Seq<char>) -> Option<usize> {
    if s.len() > 0 && all_digits(s) && decimal_value(s) <= usize::MAX {
        Some(decimal_value(s) as usize)
    } else {
        None
    }
}

/// `str::parse::<u64>` on a non-empty run of ASCII digits.
pub open spec fn decimal_u64(s: Seq<char>) -> Option<u64> {
    if s.len() > 0 && all_digits(s) && decimal_value(s) <= u64::MAX {
        Some(decimal_value(s) as u64)
    } else {
        None
    }
}

/// The decimal representation of `n` (`n.to_string()`).
pub open spec fn decimal_chars(n: nat) -> Seq<char>
    decreases n,
{
    if n < 10 {
        seq![digit_char(n)]
    } else {
        decimal_chars(n / 10).push(digit_char(n % 10))
    }
}

proof fn lemma_decimal_value_prefix(s: Seq<char>, k: int)
    requires
        0 <= k <= s.len(),
    ensures
        decimal_value(s) >= decimal_value(s.take(k)),
    decreases s.len(),
{
    if k < s.len() {
        lemma_decimal_value_prefix(s.drop_last(), k);
        assert(s.drop_last().take(k) =~= s.take(k));
    } else {
        assert(s.take(k) =~= s);
    }
}

proof fn lemma_decimal_step(s: Seq<char>, i: int)
    requires
        0 <= i < s.len(),
    ensures
        decimal_value(s.take(i + 1)) == decimal_value(s.take(i)) * 10 + digit_value(s[i]),
{
    assert(s.take(i + 1).drop_last() =~= s.take(i));
}

/// Reads a run of ASCII digits as a `usize`.
pub fn parse_usize_digits(s: &[char]) -> (r: Option<usize>)
    ensures
        r == decimal_usize(s@),
{
    let n = s.len();
    if n == 0 {
        return None;
    }
    let mut v: usize = 0;
    let mut i: usize = 0;
    while i < n
        invariant
            n == s@.len(),
            i <= n,
            all_digits(s@.take(i as int)),
            v as nat == decimal_value(s@.take(i as int)),
        decreases n - i,
    {
        let c = s[i];
        if !char_is_digit(c) {
            assert(!is_digit(s@[i as int]));
            return None;
        }
        proof {
            lemma_decimal_step(s@, i as int);
            assert(all_digits(s@.take(i + 1)));
        }
        let d = ((c as u32) - 48) as usize;
        match v.checked_mul(10) {
            Some(t) => match t.checked_add(d) {
                Some(w) => {
                    v = w;
                },
                None => {
                    proof {
                        lemma_decimal_value_prefix(s@, i + 1);
                    }
                    return None;
                },
            },
            None => {
                proof {
                    lemma_decimal_value_prefix(s@, i + 1);
                }
                return None;
            },
        }
        i += 1;
    }
    assert(s@.take(n as int) =~= s@);
    Some(v)
}

/// Reads a run of ASCII digits as a `u64`.
pub fn parse_u64_digits(s: &[char]) -> (r: Option<u64>)
    ensures
        r == decimal_u64(s@),
{
    let n = s.len();
    if n == 0 {
        return None;
    }
    let mut v: u64 = 0;
    let mut i: usize = 0;
    while i < n
        invariant
            n == s@.len(),
            i <= n,
            all_digits(s@.take(i as int)),
            v as nat == decimal_value(s@.take(i as int)),
        decreases n - i,
    {
        let c = s[i];
        if !char_is_digit(c) {
            assert(!is_digit(s@[i as int]));
            return None;
        }
        proof {
            lemma_decimal_step(s@, i as int);
            assert(all_digits(s@.take(i + 1)));
        }
        let d = ((c as u32) - 48) as u64;
        match v.checked_mul(10) {
            Some(t) => match t.checked_add(d) {
                Some(w) => {
                    v = w;
                },
                None => {
                    proof {
                        lemma_decimal_value_prefix(s@, i + 1);
                    }
                    return None;
                },
            },
            None => {
                proof {
                    lemma_decimal_value_prefix(s@, i + 1);
                }
                return None;
            },
        }
        i += 1;
    }
    assert(s@.take(n as int) =~= s@);
    Some(v)
}

/// The decimal digits of `n`.
pub fn decimal_digits(n: usize) -> (r: Vec<char>)
    ensures
        r@ == decimal_chars(n as nat),
    decreases n,
{
    let d = n % 10;
    let c = ((d as u8) + 48) as char;
    if n < 10 {
        let mut v: Vec<char> = Vec::new();
        v.push(c);
        assert(v@ =~= seq![digit_char(n as nat)]);
        v
    } else {
        let mut v = decimal_digits(n / 10);
        v.push(c);
        v
    }
}


/// Reading back the decimal representation of `n` gives `n`.
pub proof fn lemma_decimal_round_trip(n: nat)
    ensures
        decimal_value(decimal_chars(n)) == n,
        decimal_chars(n).len() > 0,
    decreases n,
{
    let d = n % 10;
    assert(digit_value(digit_char(d)) == d);
    let s = decimal_chars(n);
    if n >= 10 {
        lemma_decimal_round_trip(n / 10);
        assert(s.drop_last() =~= decimal_chars(n / 10));
        assert(s.last() == digit_char(d));
        assert(decimal_value(s) == decimal_value(decimal_chars(n / 10)) * 10 + d);
        assert(n == (n / 10) * 10 + d);
    } else {
        assert(s.drop_last() =~= Seq::<char>::empty());
        assert(s.last() == digit_char(d));
        assert(decimal_value(s.drop_last()) == 0);
        assert(decimal_value(s) == d);
    }
}

/// A number is written in ASCII digits only.
pub proof fn lemma_decimal_digits(n: nat)
    ensures
        forall|i: int| 0 <= i < decimal_chars(n).len() ==> crate::text::is_digit(#[trigger] decimal_chars(n)[i]),
    decreases n,
{
    let d = n % 10;
    assert(crate::text::is_digit(digit_char(d))) by {
        if d == 0 { assert(digit_char(d) == '0'); }
        else if d == 1 { assert(digit_char(d) == '1'); }
        else if d == 2 { assert(digit_char(d) == '2'); }
        else if d == 3 { assert(digit_char(d) == '3'); }
        else if d == 4 { assert(digit_char(d) == '4'); }
        else if d == 5 { assert(digit_char(d) == '5'); }
        else if d == 6 { assert(digit_char(d) == '6'); }
        else if d == 7 { assert(digit_char(d) == '7'); }
        else if d == 8 { assert(digit_char(d) == '8'); }
        else { assert(digit_char(d) == '9'); }
    }
    if n >= 10 {
        lemma_decimal_digits(n / 10);
        let s = decimal_chars(n);
        assert forall|i: int| 0 <= i < s.len() implies crate::text::is_digit(#[trigger] s[i]) by {
            if i < s.len() - 1 {
                assert(s[i] == decimal_chars(n / 10)[i]);
            }
        }
    }
}

/// Different numbers are written differently.
pub proof fn lemma_decimal_injective(a: nat, b: nat)
    requires
        decimal_chars(a) == decimal_chars(b),
    ensures
        a == b,
{
    lemma_decimal_round_trip(a);
    lemma_decimal_round_trip(b);
}

/// Whether every character is an ASCII digit (true of the empty string).
pub fn all_digit_chars(s: &[char]) -> (r: bool)
    ensures
        r == all_digits(s@),
{
    let n = s.len();
    let mut i: usize = 0;
    while i < n
        invariant
            n == s@.len(),
            i <= n,
            forall|k: int| 0 <= k < i ==> is_digit(#[trigger] s@[k]),
        decreases n - i,
    {
        if !char_is_digit(s[i]) {
            return false;
        }
        i += 1;
    }
    true
}

} // verus!
