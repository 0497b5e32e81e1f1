//! Decimal notation: reading a run of digits as an integer and writing an
//! integer back out.

use vstd::prelude::*;
use crate::syntax::chars::is_digit;

verus! {

/// The value of the decimal digit `c`.
pub open spec fn digit_value(c: char) -> nat
    recommends
        is_digit(c),
{
    (c as int - '0' as int) as nat
}

/// The decimal digit that stands for `d`.
pub open spec fn digit_char(d: nat) -> char
    recommends
        d < 10,
{
    ('0' as int + d) as char
}

/// Every character of `s` is one of `0` to `9`.
pub open spec fn all_digits(s: Seq<char>) -> bool {
    forall|i: int| 0 <= i < s.len() ==> is_digit(#[trigger] s[i])
}

/// The number that the digits of `s` denote in base ten; leading zeros count
/// for nothing and the empty run denotes zero.
pub open spec fn decimal_value(s: Seq<char>) -> nat
    decreases s.len(),
{
    if s.len() == 0 {
        0
    } else {
        10 * decimal_value(s.drop_last()) + digit_value(s.last())
    }
}

/// `s` read as a signed 64-bit integer without sign: defined when `s` is a
/// non-empty run of decimal digits whose value fits.
pub open spec fn parse_long(s: Seq<char>) -> Option<i64> {
    if s.len() > 0 && all_digits(s) && decimal_value(s) <= i64::MAX {
        Some(decimal_value(s) as i64)
    } else {
        None
    }
}

/// The shortest decimal notation of `n`.
pub open spec fn decimal(n: nat) -> Seq<char>
    decreases n,
{
    if n < 10 {
        seq![digit_char(n)]
    } else {
        decimal(n / 10).push(digit_char(n % 10))
    }
}

/// The decimal notation of a signed integer: a minus sign before the
/// notation of the magnitude when `v` is negative.
pub open spec fn signed_decimal(v: int) -> Seq<char> {
    if v < 0 {
        seq!['-'] + decimal((-v) as nat)
    } else {
        decimal(v as nat)
    }
}

/// `s` carries no zero that could be dropped from its front.
pub open spec fn is_canonical(s: Seq<char>) -> bool {
    s.len() == 1 || (s.len() > 1 && s[0] != '0')
}

/// A canonical run of at least two digits denotes at least ten.
proof fn lemma_canonical_value(s: Seq<char>)
    requires
        all_digits(s),
        s.len() >= 1,
        s[0] != '0',
    ensures
        decimal_value(s) >= 1,
        s.len() >= 2 ==> decimal_value(s) >= 10,
    decreases s.len(),
{
    if s.len() == 1 {
        assert(s.drop_last().len() == 0);
        assert(decimal_value(s.drop_last()) == 0);
        assert(is_digit(s[0]));
    } else {
        let p = s.drop_last();
        assert(all_digits(p)) by {
            assert forall|i: int| 0 <= i < p.len() implies is_digit(#[trigger] p[i]) by {
                assert(p[i] == s[i]);
            }
        }
        assert(p[0] == s[0]);
        lemma_canonical_value(p);
    }
}

/// Writing a number out and reading it back gives the number: the notation
/// consists of digits only, is canonical, and denotes `n`.
pub proof fn lemma_decimal_round_trip(n: nat)
    ensures
        decimal(n).len() >= 1,
        all_digits(decimal(n)),
        is_canonical(decimal(n)),
        decimal_value(decimal(n)) == n,
    decreases n,
{
    if n < 10 {
        let s = decimal(n);
        assert(s.len() == 1);
        assert(s[0] == digit_char(n));
        assert(s.drop_last().len() == 0);
        assert(decimal_value(s.drop_last()) == 0);
    } else {
        lemma_decimal_round_trip(n / 10);
        let p = decimal(n / 10);
        let s = p.push(digit_char(n % 10));
        assert(s == decimal(n));
        assert(s.drop_last() =~= p);
        assert(s.last() == digit_char(n % 10));
        assert(s[0] == p[0]);
        assert(p[0] != '0') by {
            if p.len() == 1 {
                assert(p.drop_last().len() == 0);
                assert(decimal_value(p.drop_last()) == 0);
                assert(decimal_value(p) == digit_value(p[0]));
            }
        }
    }
}

/// Reading a canonical run of digits and writing the value out gives the
/// run back, character for character.
pub proof fn lemma_value_round_trip(s: Seq<char>)
    requires
        all_digits(s),
        is_canonical(s),
    ensures
        decimal(decimal_value(s)) == s,
    decreases s.len(),
{
    let p = s.drop_last();
    assert(is_digit(s.last()));
    if s.len() == 1 {
        assert(p.len() == 0);
        assert(decimal_value(p) == 0);
        assert(decimal(decimal_value(s)) =~= s);
    } else {
        assert(all_digits(p)) by {
            assert forall|i: int| 0 <= i < p.len() implies is_digit(#[trigger] p[i]) by {
                assert(p[i] == s[i]);
            }
        }
        assert(p[0] == s[0]);
        lemma_canonical_value(p);
        lemma_value_round_trip(p);
        let v = decimal_value(s);
        assert(v == 10 * decimal_value(p) + digit_value(s.last()));
        assert(v / 10 == decimal_value(p));
        assert(v % 10 == digit_value(s.last()));
        assert(digit_char(v % 10) == s.last());
        assert(decimal(v) =~= s);
    }
}

/// Reads `text` as a signed 64-bit integer written in decimal digits without
/// a sign. Anything but a digit, a value that does not fit, and the empty
/// text give `None`.
pub fn parse_digits(text: &str) -> (r: Option<i64>)
    ensures
        r == parse_long(text@),
{
    let mut acc: i64 = 0;
    let mut fits: bool = true;
    let ghost mut seen: Seq<char> = Seq::empty();
    for c in it: text.chars()
        invariant
            seen == it.history(),
            fits ==> all_digits(it.history()) && acc == decimal_value(it.history()),
            !fits ==> !all_digits(it.history()) || decimal_value(it.history()) > i64::MAX,
            0 <= acc,
    {
        let ghost before = it.history();
        proof {
            let now = before.push(c);
            seen = now;
            assert(now.drop_last() =~= before);
            assert(now.last() == c);
            if all_digits(now) {
                assert forall|j: int| 0 <= j < before.len() implies is_digit(
                    #[trigger] before[j],
                ) by {
                    assert(before[j] == now[j]);
                }
            }
            if all_digits(before) && is_digit(c) {
                assert forall|j: int| 0 <= j < now.len() implies is_digit(#[trigger] now[j]) by {
                    if j < before.len() {
                        assert(now[j] == before[j]);
                    }
                }
            }
            if !is_digit(c) {
                assert(!is_digit(now[now.len() - 1]));
            }
        }
        if fits {
            if '0' <= c && c <= '9' {
                let d: i64 = (c as u32 - '0' as u32) as i64;
                if acc > (i64::MAX - d) / 10 {
                    fits = false;
                } else {
                    acc = acc * 10 + d;
                }
            } else {
                fits = false;
            }
        }
    }
    assert(seen == text@);
    if fits && !text.is_empty() {
        Some(acc)
    } else {
        None
    }
}

/// Appends the shortest decimal notation of `n` to `out`.
pub fn push_decimal(out: &mut String, n: u64)
    ensures
        final(out)@ == old(out)@ + decimal(n as nat),
    decreases n,
{
    if n >= 10 {
        push_decimal(out, n / 10);
    }
    let d: u8 = (n % 10) as u8;
    let c: char = (48u8 + d) as char;
    assert(c == digit_char((n % 10) as nat));
    out.push(c);
    assert(out@ =~= old(out)@ + decimal(n as nat));
}

} // verus!
