//! The renaming laws the scanner obeys, stated over the model and proved
//! once and for all.

use vstd::prelude::*;
use crate::chars::dec_digit;
use crate::chars::ident_start;
use crate::chars::space_char;
use crate::model::ident_end;
use crate::model::ident_ordinal;
use crate::model::ident_step;
use crate::model::init_state;
use crate::model::lemma_ident_end_bounds;
use crate::model::lemma_lit_end_bounds;
use crate::model::lemma_line_end_bounds;
use crate::model::lemma_num_end_bounds;
use crate::model::lit_end;
use crate::model::line_end;
use crate::model::num_step;
use crate::model::num_token_end;
use crate::model::num_token_value;
use crate::model::num_token_warned;
use crate::model::scan;
use crate::model::sep_ident;
use crate::model::ScanState;
use crate::names::lemma_alloc_exists;
use crate::names::name_of;

verus! {

proof fn lemma_scan_unfold_bounds(s: Seq<char>, i: int)
    requires
        0 <= i < s.len(),
    ensures
        i < ident_end(s, i + 1) <= s.len(),
        i < num_token_end(s, i) <= s.len(),
        i < lit_end(s, i + 1) <= s.len(),
        i < line_end(s, i + 1) <= s.len(),
{
    lemma_ident_end_bounds(s, i + 1);
    lemma_num_end_bounds(s, i + 1, false);
    if i + 2 <= s.len() {
        lemma_num_end_bounds(s, i + 2, true);
    }
    lemma_lit_end_bounds(s, i + 1);
    lemma_line_end_bounds(s, i + 1);
}

/// Every assignment of `m1` stands unchanged in `m2`.
pub open spec fn table_extends(m1: Map<Seq<char>, nat>, m2: Map<Seq<char>, nat>) -> bool {
    forall|k: Seq<char>| #[trigger] m1.contains_key(k) ==> m2.contains_key(k) && m2[k] == m1[k]
}

pub proof fn lemma_extends_trans(
    a: Map<Seq<char>, nat>,
    b: Map<Seq<char>, nat>,
    c: Map<Seq<char>, nat>,
)
    requires
        table_extends(a, b),
        table_extends(b, c),
    ensures
        table_extends(a, c),
{
    assert forall|k: Seq<char>| #[trigger] a.contains_key(k) implies c.contains_key(k) && c[k]
        == a[k] by {
        assert(b.contains_key(k));
    }
}

/// Scanning only ever adds to the rename table: an assignment, once made,
/// is kept to the end of the run.
pub proof fn lemma_scan_table_monotone(s: Seq<char>, i: int, st: ScanState, reserved: Set<
    Seq<char>,
>)
    requires
        0 <= i <= s.len(),
    ensures
        table_extends(st.table, scan(s, i, st, reserved).table),
    decreases s.len() - i,
{
    if i < s.len() {
        let c = s[i];
        lemma_scan_unfold_bounds(s, i);
        if ident_start(c) {
            let e = ident_end(s, i + 1);
            let st1 = ident_step(st, s.subrange(i, e), reserved);
            assert(table_extends(st.table, st1.table));
            lemma_scan_table_monotone(s, e, st1, reserved);
            lemma_extends_trans(st.table, st1.table, scan(s, e, st1, reserved).table);
        } else if dec_digit(c) {
            let e = num_token_end(s, i);
            lemma_scan_table_monotone(
                s,
                e,
                num_step(st, num_token_value(s, i), num_token_warned(s, i)),
                reserved,
            );
        } else if c == '"' {
            let e = lit_end(s, i + 1);
            lemma_scan_table_monotone(
                s,
                e,
                ScanState {
                    out: st.out + s.subrange(i, e),
                    prev: crate::model::TokenType::SpecialCharacter,
                    ..st
                },
                reserved,
            );
        } else if c == '#' {
            let e = line_end(s, i + 1);
            lemma_scan_table_monotone(
                s,
                e,
                ScanState {
                    out: st.out + s.subrange(i, e),
                    prev: crate::model::TokenType::SpecialCharacter,
                    ..st
                },
                reserved,
            );
        } else if space_char(c) {
            lemma_scan_table_monotone(s, i + 1, st, reserved);
        } else {
            lemma_scan_table_monotone(
                s,
                i + 1,
                ScanState {
                    out: st.out.push(c),
                    prev: crate::model::TokenType::SpecialCharacter,
                    ..st
                },
                reserved,
            );
        }
    }
}

/// Stable renaming: once a spelling holds an ordinal, any amount of further
/// scanning keeps that assignment, so every later occurrence of the same
/// spelling is rendered as the same short name.
pub proof fn lemma_stable_renaming(
    s: Seq<char>,
    i: int,
    st: ScanState,
    reserved: Set<Seq<char>>,
    spelling: Seq<char>,
)
    requires
        0 <= i <= s.len(),
        st.table.contains_key(spelling),
        !reserved.contains(spelling),
    ensures
        scan(s, i, st, reserved).table.contains_key(spelling),
        scan(s, i, st, reserved).table[spelling] == st.table[spelling],
        ident_step(scan(s, i, st, reserved), spelling, reserved).out == scan(s, i, st, reserved).out
            + sep_ident(scan(s, i, st, reserved).prev) + name_of(st.table[spelling] as int),
{
    lemma_scan_table_monotone(s, i, st, reserved);
    assert(table_extends(st.table, scan(s, i, st, reserved).table));
    assert(st.table.contains_key(spelling));
}

/// All ordinals assigned so far render to names outside the reserved set.
pub open spec fn table_ok(st: ScanState, reserved: Set<Seq<char>>) -> bool {
    forall|k: Seq<char>|
        st.table.contains_key(k) ==> !reserved.contains(#[trigger] name_of(st.table[k] as int))
}

/// One identifier token keeps the table collision-free.
pub proof fn lemma_ident_step_table_ok(st: ScanState, spelling: Seq<char>, reserved: Set<
    Seq<char>,
>)
    requires
        reserved.finite(),
        table_ok(st, reserved),
    ensures
        table_ok(ident_step(st, spelling, reserved), reserved),
{
    if !reserved.contains(spelling) && !st.table.contains_key(spelling) {
        lemma_alloc_exists(reserved, st.counter as int);
    }
}

/// Scanning keeps the table collision-free.
pub proof fn lemma_scan_preserves_table_ok(s: Seq<char>, i: int, st: ScanState, reserved: Set<
    Seq<char>,
>)
    requires
        0 <= i <= s.len(),
        reserved.finite(),
        table_ok(st, reserved),
    ensures
        table_ok(scan(s, i, st, reserved), reserved),
    decreases s.len() - i,
{
    if i < s.len() {
        let c = s[i];
        lemma_scan_unfold_bounds(s, i);
        if ident_start(c) {
            let e = ident_end(s, i + 1);
            lemma_ident_step_table_ok(st, s.subrange(i, e), reserved);
            lemma_scan_preserves_table_ok(
                s,
                e,
                ident_step(st, s.subrange(i, e), reserved),
                reserved,
            );
        } else if dec_digit(c) {
            let e = num_token_end(s, i);
            lemma_scan_preserves_table_ok(
                s,
                e,
                num_step(st, num_token_value(s, i), num_token_warned(s, i)),
                reserved,
            );
        } else if c == '"' {
            let e = lit_end(s, i + 1);
            lemma_scan_preserves_table_ok(
                s,
                e,
                ScanState {
                    out: st.out + s.subrange(i, e),
                    prev: crate::model::TokenType::SpecialCharacter,
                    ..st
                },
                reserved,
            );
        } else if c == '#' {
            let e = line_end(s, i + 1);
            lemma_scan_preserves_table_ok(
                s,
                e,
                ScanState {
                    out: st.out + s.subrange(i, e),
                    prev: crate::model::TokenType::SpecialCharacter,
                    ..st
                },
                reserved,
            );
        } else if space_char(c) {
            lemma_scan_preserves_table_ok(s, i + 1, st, reserved);
        } else {
            lemma_scan_preserves_table_ok(
                s,
                i + 1,
                ScanState {
                    out: st.out.push(c),
                    prev: crate::model::TokenType::SpecialCharacter,
                    ..st
                },
                reserved,
            );
        }
    }
}

/// No reserved collision: whatever state a run has reached, the short name
/// an unreserved identifier spelling is replaced with is never a member of
/// the reserved-word set. A fresh run starts with an empty, trivially
/// collision-free table.
pub proof fn lemma_no_reserved_collision(st: ScanState, spelling: Seq<char>, reserved: Set<
    Seq<char>,
>)
    requires
        reserved.finite(),
        table_ok(st, reserved),
        !reserved.contains(spelling),
    ensures
        !reserved.contains(name_of(ident_ordinal(st, spelling, reserved))),
{
    if !st.table.contains_key(spelling) {
        lemma_alloc_exists(reserved, st.counter as int);
    }
}

/// Reserved passthrough: a spelling in the reserved-word set is emitted
/// verbatim, preceded by one space exactly when the previous token was an
/// identifier, and the rename table is untouched.
pub proof fn lemma_reserved_passthrough(st: ScanState, spelling: Seq<char>, reserved: Set<
    Seq<char>,
>)
    requires
        reserved.contains(spelling),
    ensures
        ident_step(st, spelling, reserved).out == st.out + sep_ident(st.prev) + spelling,
        ident_step(st, spelling, reserved).table == st.table,
        ident_step(st, spelling, reserved).counter == st.counter,
{
}

/// No two spellings share an ordinal, and every assigned ordinal lies
/// below the allocator counter.
pub open spec fn table_injective(st: ScanState) -> bool {
    &&& (forall|k: Seq<char>|
        #[trigger] st.table.contains_key(k) ==> st.table[k] < st.counter)
    &&& (forall|k1: Seq<char>, k2: Seq<char>|
        st.table.contains_key(k1) && st.table.contains_key(k2) && k1 != k2 ==> #[trigger] st.table[k1]
            != #[trigger] st.table[k2])
}

/// One identifier token keeps distinct spellings on distinct ordinals: a
/// fresh spelling receives an ordinal no earlier one can hold.
pub proof fn lemma_ident_step_injective(st: ScanState, spelling: Seq<char>, reserved: Set<
    Seq<char>,
>)
    requires
        reserved.finite(),
        table_injective(st),
    ensures
        table_injective(ident_step(st, spelling, reserved)),
{
    if !reserved.contains(spelling) && !st.table.contains_key(spelling) {
        lemma_alloc_exists(reserved, st.counter as int);
    }
}

/// Scanning keeps distinct spellings on distinct ordinals.
pub proof fn lemma_scan_preserves_injective(s: Seq<char>, i: int, st: ScanState, reserved: Set<
    Seq<char>,
>)
    requires
        0 <= i <= s.len(),
        reserved.finite(),
        table_injective(st),
    ensures
        table_injective(scan(s, i, st, reserved)),
    decreases s.len() - i,
{
    if i < s.len() {
        let c = s[i];
        lemma_scan_unfold_bounds(s, i);
        if ident_start(c) {
            let e = ident_end(s, i + 1);
            lemma_ident_step_injective(st, s.subrange(i, e), reserved);
            lemma_scan_preserves_injective(
                s,
                e,
                ident_step(st, s.subrange(i, e), reserved),
                reserved,
            );
        } else if dec_digit(c) {
            let e = num_token_end(s, i);
            lemma_scan_preserves_injective(
                s,
                e,
                num_step(st, num_token_value(s, i), num_token_warned(s, i)),
                reserved,
            );
        } else if c == '"' {
            let e = lit_end(s, i + 1);
            lemma_scan_preserves_injective(
                s,
                e,
                ScanState {
                    out: st.out + s.subrange(i, e),
                    prev: crate::model::TokenType::SpecialCharacter,
                    ..st
                },
                reserved,
            );
        } else if c == '#' {
            let e = line_end(s, i + 1);
            lemma_scan_preserves_injective(
                s,
                e,
                ScanState {
                    out: st.out + s.subrange(i, e),
                    prev: crate::model::TokenType::SpecialCharacter,
                    ..st
                },
                reserved,
            );
        } else if space_char(c) {
            lemma_scan_preserves_injective(s, i + 1, st, reserved);
        } else {
            lemma_scan_preserves_injective(
                s,
                i + 1,
                ScanState {
                    out: st.out.push(c),
                    prev: crate::model::TokenType::SpecialCharacter,
                    ..st
                },
                reserved,
            );
        }
    }
}

/// Distinct spellings are rendered as distinct short names: the renaming is
/// a consistent substitution, never a collapse of two identifiers into one.
/// The initial state's empty table is trivially injective.
pub proof fn lemma_distinct_spellings_distinct_names(st: ScanState, k1: Seq<char>, k2: Seq<char>)
    requires
        table_injective(st),
        st.table.contains_key(k1),
        st.table.contains_key(k2),
        k1 != k2,
    ensures
        name_of(st.table[k1] as int) != name_of(st.table[k2] as int),
        table_injective(init_state()),
{
    if name_of(st.table[k1] as int) == name_of(st.table[k2] as int) {
        crate::names::lemma_name_of_injective(st.table[k1] as int, st.table[k2] as int);
    }
}

/// Shortest-ordinal allocation: a spelling not yet assigned receives the
/// least ordinal at or above the allocator counter whose rendered name is
/// not reserved; every skipped ordinal collides. The counter of a fresh run
/// is zero, so the first new identifier searches from ordinal zero.
pub proof fn lemma_shortest_ordinal(st: ScanState, spelling: Seq<char>, reserved: Set<Seq<char>>)
    requires
        reserved.finite(),
        !reserved.contains(spelling),
        !st.table.contains_key(spelling),
    ensures
        ({
            let o = ident_ordinal(st, spelling, reserved);
            &&& st.counter <= o
            &&& !reserved.contains(name_of(o))
            &&& (forall|j: int| st.counter <= j < o ==> reserved.contains(#[trigger] name_of(j)))
            &&& ident_step(st, spelling, reserved).table[spelling] == o as nat
            &&& ident_step(st, spelling, reserved).counter == o + 1
        }),
        init_state().counter == 0,
{
    lemma_alloc_exists(reserved, st.counter as int);
}

} // verus!
