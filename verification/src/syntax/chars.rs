//! Characters and text: the character classes the tokenizer goes by, and
//! what it needs of strings.
//!
//! The ASCII range is classified here, by comparison; beyond it the Unicode
//! tables of the standard library decide.

use vstd::prelude::*;
use vstd::string::StrSliceExecFns;

verus! {

/// What `char::is_alphabetic` answers for `c`: whether `c` carries the
/// Unicode `Alphabetic` property.
pub uninterp spec fn unicode_alphabetic(c: char) -> bool;

/// What `char::is_numeric` answers for `c`: whether `c` is in one of the
/// Unicode general categories for numbers (`Nd`, `Nl`, `No`).
pub uninterp spec fn unicode_numeric(c: char) -> bool;

/// `char::is_alphabetic` of the standard library. The answer is taken as a
/// function of the character alone and is given the name
/// `unicode_alphabetic`; nothing else is claimed of it.
pub assume_specification[ char::is_alphabetic ](c: char) -> (b: bool)
    ensures
        b == unicode_alphabetic(c),
;

/// `char::is_numeric` of the standard library. The answer is taken as a
/// function of the character alone and is given the name `unicode_numeric`;
/// nothing else is claimed of it.
pub assume_specification[ char::is_numeric ](c: char) -> (b: bool)
    ensures
        b == unicode_numeric(c),
;

/// `String::push` of the standard library appends the character to the end
/// of the string.
pub assume_specification[ std::string::String::push ](s: &mut std::string::String, c: char)
    ensures
        final(s)@ == old(s)@.push(c),
;

/// The first 128 characters.
pub open spec fn is_ascii(c: char) -> bool {
    c <= '\u{7f}'
}

/// The 52 letters of ASCII.
pub open spec fn is_ascii_letter(c: char) -> bool {
    ('a' <= c && c <= 'z') || ('A' <= c && c <= 'Z')
}

/// The ten ASCII decimal digits.
pub open spec fn is_digit(c: char) -> bool {
    '0' <= c && c <= '9'
}

/// Letters: the ASCII letters, and beyond ASCII whatever Unicode calls
/// alphabetic.
pub open spec fn is_letter(c: char) -> bool {
    if is_ascii(c) {
        is_ascii_letter(c)
    } else {
        unicode_alphabetic(c)
    }
}

/// Numeric characters: the ASCII digits, and beyond ASCII whatever Unicode
/// calls numeric.
pub open spec fn is_numeral(c: char) -> bool {
    if is_ascii(c) {
        is_digit(c)
    } else {
        unicode_numeric(c)
    }
}

/// Whether `c` is a letter.
pub fn char_is_letter(c: char) -> (b: bool)
    ensures
        b == is_letter(c),
{
    if c <= '\u{7f}' {
        ('a' <= c && c <= 'z') || ('A' <= c && c <= 'Z')
    } else {
        c.is_alphabetic()
    }
}

/// Whether `c` is a numeric character.
pub fn char_is_numeral(c: char) -> (b: bool)
    ensures
        b == is_numeral(c),
{
    if c <= '\u{7f}' {
        '0' <= c && c <= '9'
    } else {
        c.is_numeric()
    }
}

/// Whether `s`, which is `len` characters long, reads the same as `other`.
pub fn text_equals(s: &str, len: usize, other: &str) -> (same: bool)
    requires
        len == s@.len(),
    ensures
        same == (s@ == other@),
{
    if other.unicode_len() != len {
        return false;
    }
    let mut i: usize = 0;
    while i < len
        invariant
            i <= len,
            len == s@.len(),
            len == other@.len(),
            forall|j: int| 0 <= j < i ==> s@[j] == other@[j],
        decreases len - i,
    {
        if s.get_char(i) != other.get_char(i) {
            return false;
        }
        i += 1;
    }
    assert(s@ =~= other@);
    true
}

/// The characters of `s`, in order.
pub fn to_chars(s: &str) -> (v: Vec<char>)
    ensures
        v@ == s@,
{
    let mut v: Vec<char> = Vec::new();
    for c in it: s.chars()
        invariant
            v@ == it.history(),
    {
        v.push(c);
    }
    v
}

} // verus!
