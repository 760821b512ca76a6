//! The executable engine: a single forward pass over the input's code
//! points, verified to produce exactly the text the model describes.

use vstd::prelude::*;
use crate::chars::dec_digit;
use crate::chars::ident_start;
use crate::chars::is_dec_digit;
use crate::chars::is_hex_digit;
use crate::chars::is_ident_cont;
use crate::chars::is_ident_start;
use crate::chars::copy_range;
use crate::chars::push_chars;
use crate::chars::str_to_chars;
use crate::model::digit_ok;
use crate::model::digit_value;
use crate::model::dec_repr;
use crate::model::hex_repr;
use crate::model::num_repr;
use crate::model::ident_end;
use crate::model::ident_step;
use crate::model::init_state;
use crate::model::lemma_pow_count_small;
use crate::model::lit_end;
use crate::model::line_end;
use crate::model::num_accum;
use crate::model::num_base;
use crate::model::num_end;
use crate::model::num_step;
use crate::model::num_token_end;
use crate::model::num_token_value;
use crate::model::num_token_warned;
use crate::model::num_warned;
use crate::model::pow_count;
use crate::model::sat_acc;
use crate::model::sat_warn;
use crate::model::scan;
use crate::model::golf_spec;
use crate::model::golf_warned;
use crate::model::sep_ident;
use crate::model::sep_number;
use crate::model::ScanState;
use crate::model::TokenType;
use crate::names::alloc_ord;
use crate::names::generate_id_and_push;
use crate::names::is_alloc;
use crate::names::lemma_alloc_exists;
use crate::names::lemma_alloc_unique;
use crate::names::lemma_ordinal_names_bound;
use crate::names::name_of;
use crate::reserved::ReservedSet;
use crate::table::RenameTable;
use vstd::set_lib::lemma_len_subset;
use vstd::set_lib::lemma_len_union;
use vstd::set_lib::lemma_map_size;
use vstd::set_lib::lemma_set_subset_finite;
use vstd::set_lib::lemma_int_range;
use vstd::set_lib::set_int_range;

verus! {

/// The first position at or after `start` that no longer continues an
/// identifier.
fn scan_ident_span(input: &Vec<char>, start: usize) -> (end: usize)
    requires
        start <= input@.len(),
    ensures
        end == ident_end(input@, start as int),
        start <= end <= input@.len(),
{
    let mut j = start;
    while j < input.len() && is_ident_cont(input[j])
        invariant
            start <= j <= input@.len(),
            ident_end(input@, j as int) == ident_end(input@, start as int),
        decreases input@.len() - j,
    {
        j += 1;
    }
    j
}

/// One accumulation step of the numeric reader, truncating to zero on
/// overflow as the model does.
fn accum_step(acc: i128, hex: bool, d: i128) -> (r: (i128, bool))
    requires
        0 <= acc,
        0 <= d < num_base(hex),
    ensures
        r.0 == sat_acc(acc as int, num_base(hex), d as int),
        r.1 == sat_warn(acc as int, num_base(hex), d as int),
        0 <= r.0,
{
    let mut warn = false;
    let m: i128 = if hex {
        if acc > i128::MAX / 16 {
            warn = true;
            0
        } else {
            acc * 16
        }
    } else {
        if acc > i128::MAX / 10 {
            warn = true;
            0
        } else {
            acc * 10
        }
    };
    let v: i128 = if m > i128::MAX - d {
        warn = true;
        0
    } else {
        m + d
    };
    (v, warn)
}

/// How many powers `p, p*base, ...` lie strictly below `v`.
fn count_pow_from(v: i128, p: i128, base: i128) -> (k: usize)
    requires
        0 <= v,
        1 <= p,
        base == 10 || base == 16,
    ensures
        k == pow_count(v as int, p as int, base as int),
    decreases
            (if p < v {
                v - p
            } else {
                0
            }) as int,
{
    proof {
        lemma_pow_count_small(v as int, p as int, base as int);
    }
    if p < v {
        if p > i128::MAX / base {
            proof {
                assert(p as int * base as int > i128::MAX) by (nonlinear_arith)
                    requires
                        p > i128::MAX / base && 2 <= base <= 16,
                ;
                assert(pow_count(v as int, p as int * base as int, base as int) == 0);
            }
            1
        } else {
            proof {
                assert(p as int * base as int > p as int) by (nonlinear_arith)
                    requires
                        1 <= p && 2 <= base,
                ;
            }
            let k = count_pow_from(v, p * base, base);
            k + 1
        }
    } else {
        0
    }
}

/// Appends the decimal rendering of `v`.
fn push_dec(out: &mut String, v: i128)
    requires
        0 <= v,
    ensures
        final(out)@ == old(out)@ + dec_repr(v as int),
    decreases v,
{
    if v < 10 {
        out.push((48 + (v as u8)) as char);
        proof {
            assert(out@ =~= old(out)@ + dec_repr(v as int));
        }
    } else {
        push_dec(out, v / 10);
        out.push((48 + ((v % 10) as u8)) as char);
        proof {
            assert(out@ =~= old(out)@ + dec_repr(v as int));
        }
    }
}

/// Appends the uppercase hexadecimal rendering of `v`, without a prefix.
fn push_hex(out: &mut String, v: i128)
    requires
        0 <= v,
    ensures
        final(out)@ == old(out)@ + hex_repr(v as int),
    decreases v,
{
    if v < 16 {
        let d = v as u8;
        let b: u8 = if d < 10 {
            48 + d
        } else {
            55 + d
        };
        out.push(b as char);
        proof {
            assert(out@ =~= old(out)@ + hex_repr(v as int));
        }
    } else {
        push_hex(out, v / 16);
        let d = (v % 16) as u8;
        let b: u8 = if d < 10 {
            48 + d
        } else {
            55 + d
        };
        out.push(b as char);
        proof {
            assert(out@ =~= old(out)@ + hex_repr(v as int));
        }
    }
}

/// Appends `v` in whichever of the two notations the model chooses.
fn push_number(out: &mut String, v: i128)
    requires
        0 <= v,
    ensures
        final(out)@ == old(out)@ + num_repr(v as int),
{
    let nd = count_pow_from(v, 1, 10);
    let nh = count_pow_from(v, 1, 16);
    proof {
        lemma_pow_count_small(v as int, 1, 16);
    }
    if nd > 2 + nh {
        out.push('0');
        out.push('x');
        push_hex(out, v);
        proof {
            assert(out@ =~= old(out)@ + num_repr(v as int));
        }
    } else {
        push_dec(out, v);
    }
}

/// The digit value of `c` in the base being read, if it is one.
fn digit_of(c: char, hex: bool) -> (r: Option<i128>)
    ensures
        match r {
            Some(d) => digit_ok(c, hex) && d == digit_value(c, hex) && 0 <= d < num_base(hex),
            None => !digit_ok(c, hex),
        },
{
    if hex {
        if is_hex_digit(c) {
            let u = c as u32;
            if u < 58 {
                Some((u - 48) as i128)
            } else if u >= 97 {
                Some((u - 87) as i128)
            } else {
                Some((u - 55) as i128)
            }
        } else {
            None
        }
    } else {
        if is_dec_digit(c) {
            Some(((c as u32) - 48) as i128)
        } else {
            None
        }
    }
}

/// Every ordinal below the counter is either reserved-colliding or already
/// assigned, so the counter cannot outgrow the table and the reserved set
/// together.
proof fn lemma_counter_coverage_bound(table: Map<Seq<char>, nat>, resv: Set<Seq<char>>, c: int)
    requires
        c >= 0,
        table.dom().finite(),
        resv.finite(),
        forall|j: int|
            0 <= j < c ==> resv.contains(#[trigger] name_of(j)) || exists|k: Seq<char>|
                #[trigger] table.contains_key(k) && table[k] as int == j,
    ensures
        c <= table.dom().len() + resv.len(),
{
    let a = Set::new(|j: int| 0 <= j < c && resv.contains(name_of(j)));
    let b = Set::new(
        |j: int|
            0 <= j < c && exists|k: Seq<char>| #[trigger] table.contains_key(k) && table[k] as int
                == j,
    );
    let rng = set_int_range(0, c);
    lemma_int_range(0, c);
    assert(rng.subset_of(a.union(b)));
    lemma_set_subset_finite(rng, a);
    lemma_set_subset_finite(rng, b);
    lemma_len_union(a, b);
    lemma_len_subset(rng, a.union(b));
    lemma_ordinal_names_bound(a, resv);
    let f = |j: int| choose|k: Seq<char>| #[trigger] table.contains_key(k) && table[k] as int == j;
    assert forall|j1: int, j2: int|
        b.contains(j1) && b.contains(j2) && #[trigger] f(j1) == #[trigger] f(j2) implies j1
        == j2 by {
        assert(table.contains_key(f(j1)) && table[f(j1)] as int == j1);
        assert(table.contains_key(f(j2)) && table[f(j2)] as int == j2);
    }
    lemma_map_size(b, b.map(f), f);
    assert(b.map(f).subset_of(table.dom())) by {
        assert forall|y: Seq<char>| b.map(f).contains(y) implies table.dom().contains(y) by {
            let j = choose|j: int| b.contains(j) && f(j) == y;
            assert(table.contains_key(f(j)));
        }
    }
    lemma_len_subset(b.map(f), table.dom());
}

/// The engine of one run: the input and the cursor into it, the output
/// built so far, the rename table and allocator counter, the reserved-word
/// set, and the previous-token marker.
struct Golfifyer<'a> {
    input: Vec<char>,
    pos: usize,
    output: String,
    id_counter: usize,
    id_blacklist: &'a ReservedSet,
    id_map: RenameTable,
    previous_token: TokenType,
    warned: bool,
}

impl<'a> Golfifyer<'a> {
    /// The abstract state this engine stands at.
    spec fn st(&self) -> ScanState {
        ScanState {
            out: self.output@,
            table: self.id_map@,
            counter: self.id_counter as nat,
            prev: self.previous_token,
            warned: self.warned,
        }
    }

    /// The engine's invariant: the cursor is in range, the table is no
    /// larger than the ground covered, every assigned ordinal lies below
    /// the counter and renders to an unreserved name, and every ordinal
    /// below the counter is either assigned or collides with the reserved
    /// set.
    spec fn wf(&self) -> bool {
        &&& self.pos <= self.input@.len()
        &&& self.id_map@.dom().finite()
        &&& self.id_map@.dom().len() <= self.pos
        &&& self.input@.len() + self.id_blacklist@.len() < usize::MAX
        &&& (forall|k: Seq<char>|
            #[trigger] self.id_map@.contains_key(k) ==> self.id_map@[k] < self.id_counter as nat
                && !self.id_blacklist@.contains(name_of(self.id_map@[k] as int)))
        &&& (forall|j: int|
            0 <= j < self.id_counter as int ==> self.id_blacklist@.contains(
                #[trigger] name_of(j),
            ) || exists|k: Seq<char>|
                #[trigger] self.id_map@.contains_key(k) && self.id_map@[k] as int == j)
    }

    /// Re-inserts the space an identifier needs after another identifier.
    fn prepare_for_identifier(&mut self)
        ensures
            final(self).output@ == old(self).output@ + sep_ident(old(self).previous_token),
            final(self).input == old(self).input,
            final(self).pos == old(self).pos,
            final(self).id_counter == old(self).id_counter,
            final(self).id_blacklist == old(self).id_blacklist,
            final(self).id_map == old(self).id_map,
            final(self).previous_token == old(self).previous_token,
            final(self).warned == old(self).warned,
    {
        if self.previous_token == TokenType::Identifier {
            self.output.push(' ');
            proof {
                assert(self.output@ =~= old(self).output@ + sep_ident(old(self).previous_token));
            }
        } else {
            proof {
                assert(self.output@ =~= old(self).output@ + sep_ident(old(self).previous_token));
            }
        }
    }

    /// Re-inserts the space a number needs after an identifier or another
    /// number.
    fn prepare_for_number(&mut self)
        ensures
            final(self).output@ == old(self).output@ + sep_number(old(self).previous_token),
            final(self).input == old(self).input,
            final(self).pos == old(self).pos,
            final(self).id_counter == old(self).id_counter,
            final(self).id_blacklist == old(self).id_blacklist,
            final(self).id_map == old(self).id_map,
            final(self).previous_token == old(self).previous_token,
            final(self).warned == old(self).warned,
    {
        if self.previous_token == TokenType::Identifier || self.previous_token
            == TokenType::Number {
            self.output.push(' ');
            proof {
                assert(self.output@ =~= old(self).output@ + sep_number(old(self).previous_token));
            }
        } else {
            proof {
                assert(self.output@ =~= old(self).output@ + sep_number(old(self).previous_token));
            }
        }
    }

    /// Reads one identifier token and emits either the spelling itself,
    /// when it is reserved, or the short name of its ordinal.
    fn read_identifier(&mut self)
        requires
            old(self).wf(),
            old(self).pos < old(self).input@.len(),
            ident_start(old(self).input@[old(self).pos as int]),
        ensures
            final(self).wf(),
            final(self).input == old(self).input,
            final(self).id_blacklist == old(self).id_blacklist,
            final(self).pos as int == ident_end(old(self).input@, old(self).pos + 1),
            old(self).pos < final(self).pos <= old(self).input@.len(),
            final(self).st() == ident_step(
                old(self).st(),
                old(self).input@.subrange(old(self).pos as int, final(self).pos as int),
                old(self).id_blacklist@,
            ),
    {
        let ghost s = self.input@;
        let ghost i0 = self.pos as int;
        let ghost pre = self.st();
        let ghost resv = self.id_blacklist@;
        let start = self.pos;
        let end = scan_ident_span(&self.input, start + 1);
        let spelling = copy_range(&self.input, start, end);
        let ghost spell = spelling@;
        self.pos = end;
        if self.id_blacklist.contains_chars(&spelling) {
            self.prepare_for_identifier();
            push_chars(&mut self.output, &spelling);
            self.previous_token = TokenType::Identifier;
            proof {
                assert(self.st() =~= ident_step(pre, spell, resv));
            }
        } else {
            self.prepare_for_identifier();
            match self.id_map.get(&spelling) {
                Some(name_id) => {
                    let result = generate_id_and_push(
                        &mut self.output,
                        name_id,
                        self.id_blacklist,
                    );
                    assert(result);
                    self.previous_token = TokenType::Identifier;
                    proof {
                        assert(self.st() =~= ident_step(pre, spell, resv));
                    }
                },
                None => {
                    let ghost c0 = self.id_counter as int;
                    proof {
                        self.id_blacklist.lemma_finite();
                        lemma_alloc_exists(resv, c0);
                    }
                    let ghost target = alloc_ord(resv, c0);
                    proof {
                        assert forall|j: int| 0 <= j < target implies resv.contains(
                            #[trigger] name_of(j),
                        ) || exists|k: Seq<char>|
                            #[trigger] self.id_map@.contains_key(k) && self.id_map@[k] as int
                                == j by {
                            if j < c0 {
                                assert(0 <= j < old(self).id_counter as int);
                            }
                        }
                        lemma_counter_coverage_bound(self.id_map@, resv, target);
                        assert(target <= old(self).pos + resv.len());
                        assert(target + 1 < usize::MAX);
                    }
                    loop
                        invariant_except_break
                            self.output@ == pre.out + sep_ident(pre.prev),
                        invariant
                            self.input == old(self).input,
                            self.pos == end,
                            self.id_blacklist == old(self).id_blacklist,
                            self.id_map == old(self).id_map,
                            self.previous_token == old(self).previous_token,
                            self.warned == old(self).warned,
                            resv == self.id_blacklist@,
                            0 <= c0,
                            is_alloc(resv, c0, target),
                            target + 1 < usize::MAX,
                            c0 <= self.id_counter as int <= target,
                        ensures
                            self.input == old(self).input,
                            self.pos == end,
                            self.id_blacklist == old(self).id_blacklist,
                            self.id_map == old(self).id_map,
                            self.previous_token == old(self).previous_token,
                            self.warned == old(self).warned,
                            self.id_counter as int == target,
                            self.output@ == pre.out + sep_ident(pre.prev) + name_of(target),
                        decreases target - self.id_counter as int,
                    {
                        if generate_id_and_push(
                            &mut self.output,
                            self.id_counter,
                            self.id_blacklist,
                        ) {
                            proof {
                                assert(!resv.contains(name_of(self.id_counter as int)));
                                assert(is_alloc(resv, c0, self.id_counter as int));
                                lemma_alloc_unique(
                                    resv,
                                    c0,
                                    self.id_counter as int,
                                    target,
                                );
                            }
                            break ;
                        }
                        proof {
                            assert(resv.contains(name_of(self.id_counter as int)));
                            assert((self.id_counter as int) < target);
                        }
                        self.id_counter = self.id_counter + 1;
                    }
                    let ord = self.id_counter;
                    self.id_map.insert(spelling, ord);
                    self.id_counter = self.id_counter + 1;
                    self.previous_token = TokenType::Identifier;
                    proof {
                        assert(self.st() =~= ident_step(pre, spell, resv));
                        assert forall|j: int| 0 <= j < self.id_counter as int implies resv
                            .contains(#[trigger] name_of(j)) || exists|k: Seq<char>|
                            #[trigger] self.id_map@.contains_key(k) && self.id_map@[k] as int
                                == j by {
                            if j == target {
                                assert(self.id_map@.contains_key(spell) && self.id_map@[spell]
                                    as int == j);
                            } else if c0 <= j < target {
                                assert(resv.contains(name_of(j)));
                            } else {
                                assert(0 <= j < old(self).id_counter as int);
                                if !resv.contains(name_of(j)) {
                                    let k = choose|k: Seq<char>|
                                        #[trigger] old(self).id_map@.contains_key(k) && old(
                                            self,
                                        ).id_map@[k] as int == j;
                                    assert(self.id_map@.contains_key(k) && self.id_map@[k] as int
                                        == j);
                                }
                            }
                        }
                    }
                },
            };
        }
    }

    /// Reads one numeric literal, decimal or `0x`-prefixed hexadecimal,
    /// truncating the value to zero on overflow, and emits it in the
    /// shorter of the two notations.
    fn read_number(&mut self)
        requires
            old(self).wf(),
            old(self).pos < old(self).input@.len(),
            dec_digit(old(self).input@[old(self).pos as int]),
        ensures
            final(self).wf(),
            final(self).input == old(self).input,
            final(self).id_blacklist == old(self).id_blacklist,
            final(self).pos as int == num_token_end(old(self).input@, old(self).pos as int),
            old(self).pos < final(self).pos <= old(self).input@.len(),
            final(self).st() == num_step(
                old(self).st(),
                num_token_value(old(self).input@, old(self).pos as int),
                num_token_warned(old(self).input@, old(self).pos as int),
            ),
    {
        let ghost s = self.input@;
        let ghost i0 = self.pos as int;
        let ghost pre = self.st();
        let first = self.input[self.pos];
        self.pos = self.pos + 1;
        let mut hex = false;
        if first == '0' && self.pos < self.input.len() && self.input[self.pos] == 'x' {
            hex = true;
            self.pos = self.pos + 1;
        }
        proof {
            assert(hex == crate::model::num_is_hex(s, i0));
            assert(self.pos as int == crate::model::num_digits_start(s, i0));
        }
        let mut number: i128 = if hex {
            0
        } else {
            ((first as u32) as i128) - 48
        };
        let mut warn = false;
        let ghost dend = num_token_end(s, i0);
        proof {
            crate::model::lemma_num_end_bounds(s, self.pos as int, hex);
        }
        loop
            invariant
                self.input == old(self).input,
                self.id_blacklist == old(self).id_blacklist,
                self.id_map == old(self).id_map,
                self.id_counter == old(self).id_counter,
                self.previous_token == old(self).previous_token,
                self.warned == old(self).warned,
                self.output@ == pre.out,
                s == self.input@,
                0 <= i0 < s.len(),
                dec_digit(s[i0]),
                hex == crate::model::num_is_hex(s, i0),
                dend == num_token_end(s, i0),
                crate::model::num_digits_start(s, i0) <= self.pos as int <= s.len(),
                num_end(s, self.pos as int, hex) == dend,
                0 <= number,
                num_accum(s, self.pos as int, dend, hex, number as int) == num_token_value(s, i0),
                (warn || num_warned(s, self.pos as int, dend, hex, number as int))
                    == num_token_warned(s, i0),
            ensures
                self.input == old(self).input,
                self.id_blacklist == old(self).id_blacklist,
                self.id_map == old(self).id_map,
                self.id_counter == old(self).id_counter,
                self.previous_token == old(self).previous_token,
                self.warned == old(self).warned,
                self.output@ == pre.out,
                self.pos as int == dend,
                0 <= number,
                number as int == num_token_value(s, i0),
                warn == num_token_warned(s, i0),
            decreases s.len() - self.pos,
        {
            if self.pos >= self.input.len() {
                break ;
            }
            let c = self.input[self.pos];
            match digit_of(c, hex) {
                None => {
                    break ;
                },
                Some(d) => {
                    proof {
                        crate::model::lemma_num_end_bounds(s, self.pos as int + 1, hex);
                    }
                    let r = accum_step(number, hex, d);
                    number = r.0;
                    warn = warn || r.1;
                    self.pos = self.pos + 1;
                },
            }
        }
        self.prepare_for_number();
        push_number(&mut self.output, number);
        self.previous_token = TokenType::Number;
        self.warned = self.warned || warn;
        proof {
            assert(self.st() =~= num_step(
                pre,
                num_token_value(s, i0),
                num_token_warned(s, i0),
            ));
        }
    }

    /// Copies one double-quoted literal verbatim, carrying every
    /// backslash-escaped code point along uninterpreted; input may end
    /// before the closing quote.
    fn read_string_literal(&mut self)
        requires
            old(self).wf(),
            old(self).pos < old(self).input@.len(),
            old(self).input@[old(self).pos as int] == '"',
        ensures
            final(self).wf(),
            final(self).input == old(self).input,
            final(self).id_blacklist == old(self).id_blacklist,
            final(self).id_map == old(self).id_map,
            final(self).pos as int == lit_end(old(self).input@, old(self).pos + 1),
            old(self).pos < final(self).pos <= old(self).input@.len(),
            final(self).st() == (ScanState {
                out: old(self).st().out + old(self).input@.subrange(
                    old(self).pos as int,
                    final(self).pos as int,
                ),
                prev: TokenType::SpecialCharacter,
                ..old(self).st()
            }),
    {
        let ghost s = self.input@;
        let ghost i0 = self.pos as int;
        let ghost pre = self.st();
        self.output.push(self.input[self.pos]);
        self.pos = self.pos + 1;
        proof {
            assert(self.output@ =~= pre.out + s.subrange(i0, self.pos as int));
        }
        loop
            invariant_except_break
                lit_end(s, self.pos as int) == lit_end(s, i0 + 1),
            invariant
                self.input == old(self).input,
                self.id_blacklist == old(self).id_blacklist,
                self.id_map == old(self).id_map,
                self.id_counter == old(self).id_counter,
                self.previous_token == old(self).previous_token,
                self.warned == old(self).warned,
                s == self.input@,
                0 <= i0,
                i0 + 1 <= self.pos as int <= s.len(),
                self.output@ == pre.out + s.subrange(i0, self.pos as int),
            ensures
                self.input == old(self).input,
                self.id_blacklist == old(self).id_blacklist,
                self.id_map == old(self).id_map,
                self.id_counter == old(self).id_counter,
                self.previous_token == old(self).previous_token,
                self.warned == old(self).warned,
                s == self.input@,
                self.pos as int == lit_end(s, i0 + 1),
                self.output@ == pre.out + s.subrange(i0, self.pos as int),
            decreases s.len() - self.pos,
        {
            if self.pos >= self.input.len() {
                break ;
            }
            let c = self.input[self.pos];
            self.output.push(c);
            self.pos = self.pos + 1;
            proof {
                assert(self.output@ =~= pre.out + s.subrange(i0, self.pos as int));
            }
            if c == '\\' {
                if self.pos < self.input.len() {
                    self.output.push(self.input[self.pos]);
                    self.pos = self.pos + 1;
                    proof {
                        assert(self.output@ =~= pre.out + s.subrange(i0, self.pos as int));
                    }
                } else {
                    break ;
                }
            } else if c == '"' {
                break ;
            }
        }
        self.previous_token = TokenType::SpecialCharacter;
        proof {
            assert(self.st() =~= (ScanState {
                out: pre.out + s.subrange(i0, self.pos as int),
                prev: TokenType::SpecialCharacter,
                ..pre
            }));
        }
    }

    /// Copies a preprocessor-directive line verbatim through its newline,
    /// or to the end of the input.
    fn read_directive(&mut self)
        requires
            old(self).wf(),
            old(self).pos < old(self).input@.len(),
            old(self).input@[old(self).pos as int] == '#',
        ensures
            final(self).wf(),
            final(self).input == old(self).input,
            final(self).id_blacklist == old(self).id_blacklist,
            final(self).id_map == old(self).id_map,
            final(self).pos as int == line_end(old(self).input@, old(self).pos + 1),
            old(self).pos < final(self).pos <= old(self).input@.len(),
            final(self).st() == (ScanState {
                out: old(self).st().out + old(self).input@.subrange(
                    old(self).pos as int,
                    final(self).pos as int,
                ),
                prev: TokenType::SpecialCharacter,
                ..old(self).st()
            }),
    {
        let ghost s = self.input@;
        let ghost i0 = self.pos as int;
        let ghost pre = self.st();
        loop
            invariant_except_break
                line_end(s, self.pos as int) == line_end(s, i0 + 1) || (self.pos as int == i0
                    && line_end(s, i0) == line_end(s, i0 + 1)),
            invariant
                self.input == old(self).input,
                self.id_blacklist == old(self).id_blacklist,
                self.id_map == old(self).id_map,
                self.id_counter == old(self).id_counter,
                self.previous_token == old(self).previous_token,
                self.warned == old(self).warned,
                s == self.input@,
                0 <= i0 < s.len(),
                s[i0] == '#',
                i0 <= self.pos as int <= s.len(),
                self.output@ == pre.out + s.subrange(i0, self.pos as int),
            ensures
                self.input == old(self).input,
                self.id_blacklist == old(self).id_blacklist,
                self.id_map == old(self).id_map,
                self.id_counter == old(self).id_counter,
                self.previous_token == old(self).previous_token,
                self.warned == old(self).warned,
                s == self.input@,
                self.pos as int == line_end(s, i0 + 1),
                self.output@ == pre.out + s.subrange(i0, self.pos as int),
            decreases s.len() - self.pos,
        {
            if self.pos >= self.input.len() {
                break ;
            }
            let c = self.input[self.pos];
            self.output.push(c);
            self.pos = self.pos + 1;
            proof {
                assert(self.output@ =~= pre.out + s.subrange(i0, self.pos as int));
            }
            if c == '\n' {
                break ;
            }
        }
        self.previous_token = TokenType::SpecialCharacter;
        proof {
            crate::model::lemma_line_end_bounds(s, i0 + 1);
            assert(self.st() =~= (ScanState {
                out: pre.out + s.subrange(i0, self.pos as int),
                prev: TokenType::SpecialCharacter,
                ..pre
            }));
        }
    }
}

/// Rewrites `code` under the reserved-word set `id_blacklist` and reports
/// whether any numeric literal overflowed and was truncated to zero. The
/// length bound is a machine limit: the allocator's ordinals must fit a
/// `usize`.
pub fn golfify_code_with_warning(code: &str, id_blacklist: &ReservedSet) -> (r: (String, bool))
    requires
        code@.len() + id_blacklist@.len() < usize::MAX,
    ensures
        r.0@ == golf_spec(code@, id_blacklist@),
        r.1 == golf_warned(code@, id_blacklist@),
{
    let input = str_to_chars(code);
    let mut g = Golfifyer {
        input,
        pos: 0,
        output: String::new(),
        id_counter: 0,
        id_blacklist,
        id_map: RenameTable::new(),
        previous_token: TokenType::SpecialCharacter,
        warned: false,
    };
    let ghost s = g.input@;
    let ghost resv = id_blacklist@;
    proof {
        assert(g.st() =~= init_state());
        assert(g.wf());
    }
    while g.pos < g.input.len()
        invariant
            g.wf(),
            s == g.input@,
            s == code@,
            g.id_blacklist == id_blacklist,
            resv == id_blacklist@,
            scan(s, g.pos as int, g.st(), resv) == scan(s, 0, init_state(), resv),
        decreases s.len() - g.pos,
    {
        let ghost pre = g.st();
        let ghost i0 = g.pos as int;
        let c = g.input[g.pos];
        if is_ident_start(c) {
            g.read_identifier();
            proof {
                let e = ident_end(s, i0 + 1);
                assert(scan(s, i0, pre, resv) == scan(
                    s,
                    e,
                    ident_step(pre, s.subrange(i0, e), resv),
                    resv,
                ));
            }
        } else if is_dec_digit(c) {
            g.read_number();
            proof {
                let e = num_token_end(s, i0);
                assert(scan(s, i0, pre, resv) == scan(
                    s,
                    e,
                    num_step(pre, num_token_value(s, i0), num_token_warned(s, i0)),
                    resv,
                ));
            }
        } else if c == '"' {
            g.read_string_literal();
            proof {
                let e = lit_end(s, i0 + 1);
                assert(scan(s, i0, pre, resv) == scan(
                    s,
                    e,
                    ScanState {
                        out: pre.out + s.subrange(i0, e),
                        prev: TokenType::SpecialCharacter,
                        ..pre
                    },
                    resv,
                ));
            }
        } else if c == '#' {
            g.read_directive();
            proof {
                let e = line_end(s, i0 + 1);
                assert(scan(s, i0, pre, resv) == scan(
                    s,
                    e,
                    ScanState {
                        out: pre.out + s.subrange(i0, e),
                        prev: TokenType::SpecialCharacter,
                        ..pre
                    },
                    resv,
                ));
            }
        } else if c.is_whitespace() {
            g.pos = g.pos + 1;
            proof {
                assert(scan(s, i0, pre, resv) == scan(s, i0 + 1, pre, resv));
            }
        } else {
            g.output.push(c);
            g.previous_token = TokenType::SpecialCharacter;
            g.pos = g.pos + 1;
            proof {
                assert(g.st() =~= (ScanState {
                    out: pre.out.push(c),
                    prev: TokenType::SpecialCharacter,
                    ..pre
                }));
                assert(scan(s, i0, pre, resv) == scan(
                    s,
                    i0 + 1,
                    ScanState {
                        out: pre.out.push(c),
                        prev: TokenType::SpecialCharacter,
                        ..pre
                    },
                    resv,
                ));
            }
        }
    }
    proof {
        assert(scan(s, g.pos as int, g.st(), resv) == g.st());
    }
    (g.output, g.warned)
}

/// Rewrites `code` under the reserved-word set `id_blacklist`: strips
/// insignificant whitespace, renames unreserved identifiers to the shortest
/// unreserved names, re-encodes numeric literals in the shorter of decimal
/// and hexadecimal notation, and copies string literals and preprocessor
/// lines verbatim. The length bound is a machine limit: the allocator's
/// ordinals must fit a `usize`.
pub fn golfify_code(code: &str, id_blacklist: &ReservedSet) -> (r: String)
    requires
        code@.len() + id_blacklist@.len() < usize::MAX,
    ensures
        r@ == golf_spec(code@, id_blacklist@),
{
    let r = golfify_code_with_warning(code, id_blacklist);
    r.0
}

} // verus!
