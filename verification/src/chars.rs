//! Character classification and the few string primitives the scanner needs.

use vstd::prelude::*;
use vstd::string::StrSliceExecFns;

verus! {

/// What `char::is_alphabetic` returns: a property of the character alone.
pub uninterp spec fn alpha_char(c: char) -> bool;

/// What `char::is_whitespace` returns: a property of the character alone.
pub uninterp spec fn space_char(c: char) -> bool;

/// Relies on `char::is_alphabetic` of std: whether the character has the
/// Unicode `Alphabetic` property, a function of the character alone.
pub assume_specification[ char::is_alphabetic ](c: char) -> (r: bool)
    ensures
        r == alpha_char(c),
;

/// Relies on `char::is_whitespace` of std: whether the character has the
/// Unicode `White_Space` property, a function of the character alone.
pub assume_specification[ char::is_whitespace ](c: char) -> (r: bool)
    ensures
        r == space_char(c),
;

/// Relies on `String::push` of std: appends one character to the string.
pub assume_specification[ String::push ](s: &mut String, c: char)
    ensures
        final(s)@ == old(s)@.push(c),
;

/// A decimal digit `0`..=`9`.
pub open spec fn dec_digit(c: char) -> bool {
    48 <= c as int <= 57
}

/// The numeric value of a decimal digit.
pub open spec fn dec_val(c: char) -> int {
    c as int - 48
}

/// A hexadecimal digit `0`..=`9`, `a`..=`f` or `A`..=`F`.
pub open spec fn hex_digit(c: char) -> bool {
    dec_digit(c) || (97 <= c as int <= 102) || (65 <= c as int <= 70)
}

/// The numeric value of a hexadecimal digit.
pub open spec fn hex_val(c: char) -> int {
    if dec_digit(c) {
        c as int - 48
    } else if c as int >= 97 {
        c as int - 87
    } else {
        c as int - 55
    }
}

/// A character that may start an identifier: a letter or an underscore.
pub open spec fn ident_start(c: char) -> bool {
    alpha_char(c) || c == '_'
}

/// A character that may continue an identifier: a letter, a decimal digit or
/// an underscore.
pub open spec fn ident_cont(c: char) -> bool {
    alpha_char(c) || dec_digit(c) || c == '_'
}

pub fn is_dec_digit(c: char) -> (r: bool)
    ensures
        r == dec_digit(c),
{
    let u = c as u32;
    48 <= u && u <= 57
}

pub fn is_hex_digit(c: char) -> (r: bool)
    ensures
        r == hex_digit(c),
{
    let u = c as u32;
    (48 <= u && u <= 57) || (97 <= u && u <= 102) || (65 <= u && u <= 70)
}

pub fn is_ident_start(c: char) -> (r: bool)
    ensures
        r == ident_start(c),
{
    c.is_alphabetic() || c == '_'
}

pub fn is_ident_cont(c: char) -> (r: bool)
    ensures
        r == ident_cont(c),
{
    c.is_alphabetic() || is_dec_digit(c) || c == '_'
}

/// The code points of a string, in order, as a vector.
pub fn str_to_chars(s: &str) -> (v: Vec<char>)
    ensures
        v@ == s@,
{
    let n = s.unicode_len();
    let mut v: Vec<char> = Vec::new();
    let mut i: usize = 0;
    while i < n
        invariant
            n == s@.len(),
            i <= n,
            v@ == s@.subrange(0, i as int),
        decreases n - i,
    {
        v.push(s.get_char(i));
        i += 1;
        proof {
            assert(v@ =~= s@.subrange(0, i as int));
        }
    }
    proof {
        assert(v@ =~= s@);
    }
    v
}

/// Appends every character of `cs` to `out`, in order.
pub fn push_chars(out: &mut String, cs: &Vec<char>)
    ensures
        final(out)@ == old(out)@ + cs@,
{
    let mut i: usize = 0;
    while i < cs.len()
        invariant
            i <= cs@.len(),
            out@ == old(out)@ + cs@.subrange(0, i as int),
        decreases cs@.len() - i,
    {
        out.push(cs[i]);
        i += 1;
        proof {
            assert(out@ =~= old(out)@ + cs@.subrange(0, i as int));
        }
    }
    proof {
        assert(out@ =~= old(out)@ + cs@);
    }
}

/// The first position at or after `i` holding a non-whitespace character.
pub open spec fn trim_from(s: Seq<char>, i: int) -> int
    decreases s.len() - i,
    when 0 <= i <= s.len()
{
    if i < s.len() && space_char(s[i]) {
        trim_from(s, i + 1)
    } else {
        i
    }
}

/// The position just past the last non-whitespace character at or before
/// `j`.
pub open spec fn trim_back(s: Seq<char>, j: int) -> int
    decreases j,
    when 0 <= j <= s.len()
{
    if j > 0 && space_char(s[j - 1]) {
        trim_back(s, j - 1)
    } else {
        j
    }
}

pub proof fn lemma_trim_from_bounds(s: Seq<char>, i: int)
    requires
        0 <= i <= s.len(),
    ensures
        i <= trim_from(s, i) <= s.len(),
    decreases s.len() - i,
{
    if i < s.len() && space_char(s[i]) {
        lemma_trim_from_bounds(s, i + 1);
    }
}

pub proof fn lemma_trim_back_bounds(s: Seq<char>, j: int)
    requires
        0 <= j <= s.len(),
    ensures
        0 <= trim_back(s, j) <= j,
    decreases j,
{
    if j > 0 && space_char(s[j - 1]) {
        lemma_trim_back_bounds(s, j - 1);
    }
}

/// The text with surrounding whitespace removed.
pub open spec fn trimmed(s: Seq<char>) -> Seq<char> {
    let a = trim_from(s, 0);
    let b = trim_back(s, s.len() as int);
    if a <= b {
        s.subrange(a, b)
    } else {
        Seq::empty()
    }
}

/// The code points of `input` in `[from, to)`, copied out.
pub fn copy_range(input: &Vec<char>, from: usize, to: usize) -> (v: Vec<char>)
    requires
        from <= to <= input@.len(),
    ensures
        v@ == input@.subrange(from as int, to as int),
{
    let mut v: Vec<char> = Vec::new();
    let mut j = from;
    while j < to
        invariant
            from <= j <= to <= input@.len(),
            v@ == input@.subrange(from as int, j as int),
        decreases to - j,
    {
        v.push(input[j]);
        j += 1;
        proof {
            assert(v@ =~= input@.subrange(from as int, j as int));
        }
    }
    v
}

} // verus!
