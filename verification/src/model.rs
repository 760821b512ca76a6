//! The mathematical model of the minifier: a recursive interpreter over the
//! input's code points that yields the emitted text, the rename table, the
//! allocator counter, the kind of the last emitted token, and whether a
//! numeric literal overflowed.

use vstd::prelude::*;
use crate::chars::alpha_char;
use crate::chars::space_char;
use crate::chars::dec_digit;
use crate::chars::dec_val;
use crate::chars::hex_digit;
use crate::chars::hex_val;
use crate::chars::ident_start;
use crate::chars::ident_cont;
use crate::names::alloc_ord;
use crate::names::name_of;

verus! {

/// The coarse kind of the token last emitted, kept only to decide whether a
/// separating space must be re-inserted before the next token.
#[derive(PartialEq, Eq, Structural, Clone, Copy, Debug)]
pub enum TokenType {
    SpecialCharacter,
    Number,
    Identifier,
}

/// The scanner's abstract state.
#[verifier::ext_equal]
pub struct ScanState {
    /// The text emitted so far.
    pub out: Seq<char>,
    /// The ordinal assigned to each renamed spelling seen so far.
    pub table: Map<Seq<char>, nat>,
    /// The next ordinal the allocator will try.
    pub counter: nat,
    /// The kind of the last emitted token.
    pub prev: TokenType,
    /// Whether a numeric literal overflowed and was truncated to zero.
    pub warned: bool,
}

/// The state a run starts from.
pub open spec fn init_state() -> ScanState {
    ScanState {
        out: Seq::empty(),
        table: Map::empty(),
        counter: 0,
        prev: TokenType::SpecialCharacter,
        warned: false,
    }
}

/// The first position at or after `i` that does not continue an identifier.
pub open spec fn ident_end(s: Seq<char>, i: int) -> int
    decreases s.len() - i,
    when i <= s.len()
{
    if i < s.len() && ident_cont(s[i]) {
        ident_end(s, i + 1)
    } else {
        i
    }
}

pub proof fn lemma_ident_end_bounds(s: Seq<char>, i: int)
    requires
        0 <= i <= s.len(),
    ensures
        i <= ident_end(s, i) <= s.len(),
    decreases s.len() - i,
{
    if i < s.len() && ident_cont(s[i]) {
        lemma_ident_end_bounds(s, i + 1);
    }
}

/// Whether `c` is a digit of the base being read.
pub open spec fn digit_ok(c: char, hex: bool) -> bool {
    if hex {
        hex_digit(c)
    } else {
        dec_digit(c)
    }
}

/// The value of a digit of the base being read.
pub open spec fn digit_value(c: char, hex: bool) -> int {
    if hex {
        hex_val(c)
    } else {
        dec_val(c)
    }
}

pub open spec fn num_base(hex: bool) -> int {
    if hex {
        16
    } else {
        10
    }
}

/// The first position at or after `i` that is not a digit of the base.
pub open spec fn num_end(s: Seq<char>, i: int, hex: bool) -> int
    decreases s.len() - i,
    when i <= s.len()
{
    if i < s.len() && digit_ok(s[i], hex) {
        num_end(s, i + 1, hex)
    } else {
        i
    }
}

pub proof fn lemma_num_end_bounds(s: Seq<char>, i: int, hex: bool)
    requires
        0 <= i <= s.len(),
    ensures
        i <= num_end(s, i, hex) <= s.len(),
    decreases s.len() - i,
{
    if i < s.len() && digit_ok(s[i], hex) {
        lemma_num_end_bounds(s, i + 1, hex);
    }
}

/// One accumulation step: multiply by the base and add a digit, truncating
/// to zero on either overflow of the wide signed range.
pub open spec fn sat_acc(acc: int, base: int, d: int) -> int {
    let m = if acc * base > i128::MAX {
        0
    } else {
        acc * base
    };
    if m + d > i128::MAX {
        0
    } else {
        m + d
    }
}

/// Whether one accumulation step overflowed.
pub open spec fn sat_warn(acc: int, base: int, d: int) -> bool {
    let m = if acc * base > i128::MAX {
        0
    } else {
        acc * base
    };
    acc * base > i128::MAX || m + d > i128::MAX
}

/// The accumulated value of the digits in `[i, end)`, starting from `acc`.
pub open spec fn num_accum(s: Seq<char>, i: int, end: int, hex: bool, acc: int) -> int
    decreases end - i,
{
    if i < end {
        num_accum(s, i + 1, end, hex, sat_acc(acc, num_base(hex), digit_value(s[i], hex)))
    } else {
        acc
    }
}

/// Whether accumulating the digits in `[i, end)` from `acc` ever overflowed.
pub open spec fn num_warned(s: Seq<char>, i: int, end: int, hex: bool, acc: int) -> bool
    decreases end - i,
{
    if i < end {
        sat_warn(acc, num_base(hex), digit_value(s[i], hex)) || num_warned(
            s,
            i + 1,
            end,
            hex,
            sat_acc(acc, num_base(hex), digit_value(s[i], hex)),
        )
    } else {
        false
    }
}

/// How many powers `p, p*base, p*base^2, ...` lie strictly below `v`.
pub open spec fn pow_count(v: int, p: int, base: int) -> nat
    decreases (if p < v {
        v - p
    } else {
        0
    }),
    when 1 <= p && 2 <= base
    via pow_count_decreases
{
    if p < v {
        (1 + pow_count(v, p * base, base)) as nat
    } else {
        0
    }
}

#[via_fn]
proof fn pow_count_decreases(v: int, p: int, base: int) {
    if 1 <= p && 2 <= base && p < v {
        assert(p * base >= 2 * p) by (nonlinear_arith)
            requires
                1 <= p && 2 <= base,
        ;
    }
}

/// The count of powers below `v` is at most `n` once `p * 2^n` reaches `v`,
/// so it is at most 127 for any value of the wide signed range.
pub proof fn lemma_pow_count_le(v: int, p: int, base: int, n: nat)
    requires
        1 <= p,
        2 <= base,
        v <= p * vstd::arithmetic::power2::pow2(n),
    ensures
        pow_count(v, p, base) <= n,
    decreases n,
{
    vstd::arithmetic::power2::lemma_pow2_pos(n);
    if p < v {
        assert(n > 0) by {
            if n == 0 {
                assert(vstd::arithmetic::power2::pow2(0) == 1) by {
                    vstd::arithmetic::power2::lemma2_to64();
                }
            }
        }
        vstd::arithmetic::power2::lemma_pow2_unfold(n);
        assert(p * vstd::arithmetic::power2::pow2(n) <= (p * base) * vstd::arithmetic::power2::pow2(
            (n - 1) as nat,
        )) by (nonlinear_arith)
            requires
                1 <= p,
                2 <= base,
                n > 0,
                vstd::arithmetic::power2::pow2(n) == 2 * vstd::arithmetic::power2::pow2(
                    (n - 1) as nat,
                ),
                vstd::arithmetic::power2::pow2((n - 1) as nat) >= 1,
        ;
        lemma_pow_count_le(v, p * base, base, (n - 1) as nat);
    }
}

/// Every count the notation chooser computes fits comfortably in a machine
/// word.
pub proof fn lemma_pow_count_small(v: int, p: int, base: int)
    requires
        1 <= p,
        2 <= base,
        v <= i128::MAX,
    ensures
        pow_count(v, p, base) <= 127,
{
    vstd::arithmetic::power2::lemma2_to64();
    vstd::arithmetic::power2::lemma2_to64_rest();
    vstd::arithmetic::power2::lemma_pow2_adds(64, 63);
    assert(vstd::arithmetic::power2::pow2(127) > i128::MAX);
    assert(p * vstd::arithmetic::power2::pow2(127) >= vstd::arithmetic::power2::pow2(127)) by (
    nonlinear_arith)
        requires
            1 <= p,
    ;
    lemma_pow_count_le(v, p, base, 127);
}

/// The digit count the notation chooser uses for decimal form.
pub open spec fn dec_count(v: int) -> nat {
    pow_count(v, 1, 10)
}

/// The character count the notation chooser uses for hexadecimal form,
/// including the two characters of the `0x` prefix.
pub open spec fn hex_count(v: int) -> nat {
    2 + pow_count(v, 1, 16)
}

pub open spec fn dec_digit_char(d: int) -> char
    recommends
        0 <= d < 10,
{
    (48 + d) as char
}

pub open spec fn hex_digit_char(d: int) -> char
    recommends
        0 <= d < 16,
{
    if d < 10 {
        (48 + d) as char
    } else {
        (55 + d) as char
    }
}

/// The decimal rendering of a non-negative value.
pub open spec fn dec_repr(v: int) -> Seq<char>
    decreases v,
    when v >= 0
{
    if v < 10 {
        seq![dec_digit_char(v)]
    } else {
        dec_repr(v / 10).push(dec_digit_char(v % 10))
    }
}

/// The uppercase hexadecimal rendering of a non-negative value, without the
/// `0x` prefix.
pub open spec fn hex_repr(v: int) -> Seq<char>
    decreases v,
    when v >= 0
{
    if v < 16 {
        seq![hex_digit_char(v)]
    } else {
        hex_repr(v / 16).push(hex_digit_char(v % 16))
    }
}

/// The rendering the notation chooser emits: hexadecimal with a `0x` prefix
/// exactly when its character count is smaller, decimal otherwise.
pub open spec fn num_repr(v: int) -> Seq<char> {
    if dec_count(v) > hex_count(v) {
        seq!['0', 'x'] + hex_repr(v)
    } else {
        dec_repr(v)
    }
}

/// The space re-inserted before an identifier: only after another
/// identifier, which it would otherwise merge with.
pub open spec fn sep_ident(prev: TokenType) -> Seq<char> {
    if prev == TokenType::Identifier {
        seq![' ']
    } else {
        Seq::empty()
    }
}

/// The space re-inserted before a number: after an identifier or another
/// number, which it would otherwise merge with.
pub open spec fn sep_number(prev: TokenType) -> Seq<char> {
    if prev == TokenType::Identifier || prev == TokenType::Number {
        seq![' ']
    } else {
        Seq::empty()
    }
}

/// The ordinal whose rendered name an unreserved identifier spelling is
/// replaced with: the one already assigned to the spelling, or the next
/// free one.
pub open spec fn ident_ordinal(st: ScanState, spelling: Seq<char>, reserved: Set<Seq<char>>) -> int {
    if st.table.contains_key(spelling) {
        st.table[spelling] as int
    } else {
        alloc_ord(reserved, st.counter as int)
    }
}

/// How one identifier token changes the state: a reserved spelling passes
/// through verbatim; any other spelling is replaced by the short name of its
/// ordinal, newly allocated if the spelling is new.
pub open spec fn ident_step(st: ScanState, spelling: Seq<char>, reserved: Set<Seq<char>>) -> ScanState {
    if reserved.contains(spelling) {
        ScanState {
            out: st.out + sep_ident(st.prev) + spelling,
            prev: TokenType::Identifier,
            ..st
        }
    } else if st.table.contains_key(spelling) {
        ScanState {
            out: st.out + sep_ident(st.prev) + name_of(st.table[spelling] as int),
            prev: TokenType::Identifier,
            ..st
        }
    } else {
        let o = alloc_ord(reserved, st.counter as int);
        ScanState {
            out: st.out + sep_ident(st.prev) + name_of(o),
            table: st.table.insert(spelling, o as nat),
            counter: (o + 1) as nat,
            prev: TokenType::Identifier,
            warned: st.warned,
        }
    }
}

/// How one numeric literal of value `v` changes the state.
pub open spec fn num_step(st: ScanState, v: int, w: bool) -> ScanState {
    ScanState {
        out: st.out + sep_number(st.prev) + num_repr(v),
        prev: TokenType::Number,
        warned: st.warned || w,
        ..st
    }
}

/// The position just past a string literal whose opening quote stands at
/// `j - 1`: code points are copied verbatim, a backslash carries the next
/// code point along uninterpreted, and an unescaped quote ends the literal;
/// input may end first.
pub open spec fn lit_end(s: Seq<char>, j: int) -> int
    decreases s.len() - j,
    when j <= s.len()
{
    if j >= s.len() {
        j
    } else if s[j] == '\\' {
        if j + 1 < s.len() {
            lit_end(s, j + 2)
        } else {
            j + 1
        }
    } else if s[j] == '"' {
        j + 1
    } else {
        lit_end(s, j + 1)
    }
}

pub proof fn lemma_lit_end_bounds(s: Seq<char>, j: int)
    requires
        0 <= j <= s.len(),
    ensures
        j <= lit_end(s, j) <= s.len(),
    decreases s.len() - j,
{
    if j < s.len() && s[j] == '\\' && j + 1 < s.len() {
        lemma_lit_end_bounds(s, j + 2);
    } else if j < s.len() && s[j] != '\\' && s[j] != '"' {
        lemma_lit_end_bounds(s, j + 1);
    }
}

/// The position just past the first newline at or after `j`, or the end of
/// the input if none follows.
pub open spec fn line_end(s: Seq<char>, j: int) -> int
    decreases s.len() - j,
    when j <= s.len()
{
    if j >= s.len() {
        j
    } else if s[j] == '\n' {
        j + 1
    } else {
        line_end(s, j + 1)
    }
}

pub proof fn lemma_line_end_bounds(s: Seq<char>, j: int)
    requires
        0 <= j <= s.len(),
    ensures
        j <= line_end(s, j) <= s.len(),
    decreases s.len() - j,
{
    if j < s.len() && s[j] != '\n' {
        lemma_line_end_bounds(s, j + 1);
    }
}

/// Whether the numeric literal starting at `i` is hexadecimal: a `0`
/// followed directly by `x`.
pub open spec fn num_is_hex(s: Seq<char>, i: int) -> bool {
    s[i] == '0' && i + 1 < s.len() && s[i + 1] == 'x'
}

/// The position of the first digit to accumulate.
pub open spec fn num_digits_start(s: Seq<char>, i: int) -> int {
    if num_is_hex(s, i) {
        i + 2
    } else {
        i + 1
    }
}

/// The value the first consumed character contributes.
pub open spec fn num_acc0(s: Seq<char>, i: int) -> int {
    if num_is_hex(s, i) {
        0
    } else {
        dec_val(s[i])
    }
}

/// The position just past the numeric literal starting at `i`.
pub open spec fn num_token_end(s: Seq<char>, i: int) -> int {
    num_end(s, num_digits_start(s, i), num_is_hex(s, i))
}

/// The value of the numeric literal starting at `i`.
pub open spec fn num_token_value(s: Seq<char>, i: int) -> int {
    num_accum(s, num_digits_start(s, i), num_token_end(s, i), num_is_hex(s, i), num_acc0(s, i))
}

/// Whether reading the numeric literal starting at `i` overflowed.
pub open spec fn num_token_warned(s: Seq<char>, i: int) -> bool {
    num_warned(s, num_digits_start(s, i), num_token_end(s, i), num_is_hex(s, i), num_acc0(s, i))
}

/// The whole scanner: dispatches on the next unconsumed code point and
/// rewrites token by token until the input is exhausted.
pub open spec fn scan(s: Seq<char>, i: int, st: ScanState, reserved: Set<Seq<char>>) -> ScanState
    decreases s.len() - i,
    when 0 <= i <= s.len()
    via scan_decreases
{
    if i >= s.len() {
        st
    } else {
        let c = s[i];
        if ident_start(c) {
            let e = ident_end(s, i + 1);
            scan(s, e, ident_step(st, s.subrange(i, e), reserved), reserved)
        } else if dec_digit(c) {
            let e = num_token_end(s, i);
            scan(s, e, num_step(st, num_token_value(s, i), num_token_warned(s, i)), reserved)
        } else if c == '"' {
            let e = lit_end(s, i + 1);
            scan(
                s,
                e,
                ScanState { out: st.out + s.subrange(i, e), prev: TokenType::SpecialCharacter, ..st },
                reserved,
            )
        } else if c == '#' {
            let e = line_end(s, i + 1);
            scan(
                s,
                e,
                ScanState { out: st.out + s.subrange(i, e), prev: TokenType::SpecialCharacter, ..st },
                reserved,
            )
        } else if space_char(c) {
            scan(s, i + 1, st, reserved)
        } else {
            scan(
                s,
                i + 1,
                ScanState { out: st.out.push(c), prev: TokenType::SpecialCharacter, ..st },
                reserved,
            )
        }
    }
}

#[via_fn]
proof fn scan_decreases(s: Seq<char>, i: int, st: ScanState, reserved: Set<Seq<char>>) {
    if 0 <= i && i < s.len() {
        lemma_ident_end_bounds(s, i + 1);
        lemma_num_end_bounds(s, i + 1, false);
        if i + 2 <= s.len() {
            lemma_num_end_bounds(s, i + 2, true);
        }
        lemma_lit_end_bounds(s, i + 1);
        lemma_line_end_bounds(s, i + 1);
    }
}

/// The rewritten text the minifier produces for `s` under `reserved`.
pub open spec fn golf_spec(s: Seq<char>, reserved: Set<Seq<char>>) -> Seq<char> {
    scan(s, 0, init_state(), reserved).out
}

/// Whether rewriting `s` under `reserved` truncates an overflowing numeric
/// literal.
pub open spec fn golf_warned(s: Seq<char>, reserved: Set<Seq<char>>) -> bool {
    scan(s, 0, init_state(), reserved).warned
}

} // verus!
