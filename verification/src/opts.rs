//! The `--top` argument value: a decimal count, with silent fallback to
//! the documented default of 10 on anything malformed (empty, a non-digit
//! character, or a value too large to represent).

use vstd::prelude::*;
use crate::export::{is_digit, digit_val};

verus! {

/// The number a digit string denotes, most significant digit first.
pub open spec fn digits_value(s: Seq<char>) -> nat
    decreases s.len(),
{
    if s.len() == 0 {
        0
    } else {
        digits_value(s.drop_last()) * 10 + digit_val(s.last())
    }
}

/// Whether every character is a decimal digit.
pub open spec fn all_digits(s: Seq<char>) -> bool {
    forall|i: int| 0 <= i < s.len() ==> is_digit(#[trigger] s[i])
}

/// The digits of the argument, after an optional leading plus sign.
pub open spec fn digits_part(s: Seq<char>) -> Seq<char> {
    if s.len() > 0 && s[0] == '+' {
        s.drop_first()
    } else {
        s
    }
}

/// What a `--top` argument denotes: its decimal value when it is an
/// optional plus sign followed by one or more digits and the value is
/// representable, and the default 10 otherwise.
pub open spec fn top_value(s: Seq<char>) -> nat {
    let d = digits_part(s);
    if d.len() > 0 && all_digits(d) && digits_value(d) <= usize::MAX {
        digits_value(d)
    } else {
        10
    }
}

/// A value never shrinks when more digits follow it.
proof fn lemma_digits_prefix_le(s: Seq<char>, i: int)
    requires
        0 <= i <= s.len(),
    ensures
        digits_value(s.subrange(0, i)) <= digits_value(s),
    decreases s.len() - i,
{
    if i == s.len() {
        assert(s.subrange(0, i) =~= s);
    } else {
        assert(s.drop_last().subrange(0, i) =~= s.subrange(0, i));
        lemma_digits_prefix_le(s.drop_last(), i);
    }
}

fn is_digit_exec(c: char) -> (r: bool)
    ensures
        r == is_digit(c),
{
    c == '0' || c == '1' || c == '2' || c == '3' || c == '4' || c == '5' || c == '6' || c == '7'
        || c == '8' || c == '9'
}

fn digit_val_exec(c: char) -> (d: usize)
    requires
        is_digit(c),
    ensures
        d == digit_val(c),
{
    if c == '0' {
        0
    } else if c == '1' {
        1
    } else if c == '2' {
        2
    } else if c == '3' {
        3
    } else if c == '4' {
        4
    } else if c == '5' {
        5
    } else if c == '6' {
        6
    } else if c == '7' {
        7
    } else if c == '8' {
        8
    } else {
        9
    }
}

/// Interpret a `--top` argument: its decimal value, or 10 when it is not
/// a well-formed representable count.
pub fn parse_top(s: &str) -> (r: usize)
    ensures
        r as nat == top_value(s@),
{
    let n = s.unicode_len();
    let ghost d = digits_part(s@);
    let start: usize = if n > 0 && s.get_char(0) == '+' {
        1
    } else {
        0
    };
    proof {
        assert(d =~= s@.subrange(start as int, n as int));
    }
    if start >= n {
        proof {
            assert(d.len() == 0);
        }
        return 10;
    }
    let mut acc: usize = 0;
    let mut i: usize = start;
    while i < n
        invariant
            n == s@.len(),
            d == digits_part(s@),
            d == s@.subrange(start as int, n as int),
            start <= i <= n,
            start < n,
            forall|k: int| 0 <= k < i - start ==> is_digit(#[trigger] d[k]),
            acc as nat == digits_value(d.subrange(0, i - start)),
        decreases n - i,
    {
        let c = s.get_char(i);
        if !is_digit_exec(c) {
            proof {
                assert(d[i - start] == c);
                assert(!all_digits(d));
            }
            return 10;
        }
        let dv = digit_val_exec(c);
        if acc > (usize::MAX - dv) / 10 {
            proof {
                let pre = d.subrange(0, i - start);
                let cur = d.subrange(0, i - start + 1);
                assert(cur.drop_last() =~= pre);
                assert(cur.last() == d[i - start]);
                assert(digits_value(cur) == (acc as nat) * 10 + dv);
                assert((acc as nat) * 10 + dv > usize::MAX) by {
                    assert(acc >= (usize::MAX - dv) / 10 + 1);
                    assert(((usize::MAX - dv) / 10 + 1) * 10 > usize::MAX - dv);
                }
                lemma_digits_prefix_le(d, i - start + 1);
                assert(digits_value(d) > usize::MAX);
            }
            return 10;
        }
        proof {
            let pre = d.subrange(0, i - start);
            let cur = d.subrange(0, i - start + 1);
            assert(cur.drop_last() =~= pre);
            assert(cur.last() == d[i - start]);
        }
        acc = acc * 10 + dv;
        i += 1;
    }
    proof {
        assert(d.subrange(0, n - start) =~= d);
        assert(all_digits(d));
        assert(d.len() > 0);
    }
    acc
}

} // verus!
