use golfify::golfify_code;
use golfify::golfify_code_with_warning;
use golfify::ReservedSet;

fn set_of(words: &[&str]) -> ReservedSet {
    let mut s = ReservedSet::new();
    for w in words {
        s.insert(w);
    }
    s
}

#[test]
fn empty_input_yields_empty_output() {
    let s = ReservedSet::new();
    assert_eq!(golfify_code("", &s), "");
}

#[test]
fn end_to_end_scenario() {
    let s = set_of(&["int", "void", "printf"]);
    let input = "void main() { int my_variable = 0; int more_variable = 1245; printf(\"%d\\n\", my_variable); }";
    let out = golfify_code(input, &s);
    assert_eq!(out, "void _(){int a=0;int b=1245;printf(\"%d\\n\",a);}");
}

#[test]
fn first_identifier_gets_underscore() {
    let s = ReservedSet::new();
    assert_eq!(golfify_code("alpha", &s), "_");
}

#[test]
fn second_identifier_gets_a() {
    let s = ReservedSet::new();
    assert_eq!(golfify_code("alpha beta", &s), "_ a");
}

#[test]
fn same_spelling_gets_same_name() {
    let s = ReservedSet::new();
    assert_eq!(golfify_code("foo bar foo", &s), "_ a _");
}

#[test]
fn reserved_spelling_passes_through() {
    let s = set_of(&["while"]);
    assert_eq!(golfify_code("while", &s), "while");
}

#[test]
fn reserved_underscore_shifts_allocation() {
    let s = set_of(&["_"]);
    assert_eq!(golfify_code("alpha", &s), "a");
}

#[test]
fn reserved_prefix_of_alphabet_is_skipped() {
    let s = set_of(&["_", "a", "b"]);
    assert_eq!(golfify_code("alpha beta", &s), "c d");
}

#[test]
fn space_kept_between_reserved_and_renamed() {
    let s = set_of(&["int"]);
    assert_eq!(golfify_code("int x", &s), "int _");
}

#[test]
fn space_kept_between_identifier_and_number() {
    let s = set_of(&["int"]);
    assert_eq!(golfify_code("int 5", &s), "int 5");
}

#[test]
fn no_space_around_special_character() {
    let s = ReservedSet::new();
    assert_eq!(golfify_code("x;y", &s), "_;a");
}

#[test]
fn space_kept_between_numbers() {
    let s = ReservedSet::new();
    assert_eq!(golfify_code("5 6", &s), "5 6");
}

#[test]
fn decimal_1245_stays_decimal() {
    let s = ReservedSet::new();
    assert_eq!(golfify_code("1245", &s), "1245");
}

#[test]
fn decimal_4096_stays_decimal() {
    let s = ReservedSet::new();
    assert_eq!(golfify_code("4096", &s), "4096");
}

#[test]
fn large_power_of_sixteen_goes_hexadecimal() {
    let s = ReservedSet::new();
    assert_eq!(golfify_code("1152921504606846976", &s), "0x1000000000000000");
}

#[test]
fn hex_literal_with_short_value_goes_decimal() {
    let s = ReservedSet::new();
    assert_eq!(golfify_code("0xFF", &s), "255");
}

#[test]
fn hex_digits_accumulate_in_base_sixteen() {
    let s = ReservedSet::new();
    assert_eq!(golfify_code("0x1a", &s), "26");
}

#[test]
fn hex_prefix_without_digits_is_zero() {
    let s = ReservedSet::new();
    assert_eq!(golfify_code("0x;", &s), "0;");
}

#[test]
fn leading_zeros_collapse() {
    let s = ReservedSet::new();
    assert_eq!(golfify_code("0000001245", &s), "1245");
}

#[test]
fn string_literal_with_escaped_quote_kept_exactly() {
    let s = ReservedSet::new();
    assert_eq!(golfify_code("\"a\\\"b\"", &s), "\"a\\\"b\"");
}

#[test]
fn string_literal_contents_are_not_renamed() {
    let s = ReservedSet::new();
    assert_eq!(golfify_code("x\"x y\"x", &s), "_\"x y\"_");
}

#[test]
fn unterminated_string_copied_to_end() {
    let s = ReservedSet::new();
    assert_eq!(golfify_code("\"abc", &s), "\"abc");
}

#[test]
fn trailing_backslash_in_string_copied() {
    let s = ReservedSet::new();
    assert_eq!(golfify_code("\"a\\", &s), "\"a\\");
}

#[test]
fn preprocessor_line_copied_verbatim() {
    let s = ReservedSet::new();
    assert_eq!(golfify_code("#include <a.h>\nalpha", &s), "#include <a.h>\n_");
}

#[test]
fn preprocessor_line_without_newline_runs_to_end() {
    let s = ReservedSet::new();
    assert_eq!(golfify_code("#define X 1", &s), "#define X 1");
}

#[test]
fn whitespace_is_dropped() {
    let s = ReservedSet::new();
    assert_eq!(golfify_code("a \t\n b ; c", &s), "_ a;b");
}

#[test]
fn unicode_letters_form_identifiers() {
    let s = ReservedSet::new();
    assert_eq!(golfify_code("h\u{e9}llo", &s), "_");
}

#[test]
fn unicode_whitespace_is_dropped() {
    let s = ReservedSet::new();
    assert_eq!(golfify_code("a\u{a0}b", &s), "_ a");
}

#[test]
fn digits_may_continue_identifiers() {
    let s = ReservedSet::new();
    assert_eq!(golfify_code("x1 x2 x1", &s), "_ a _");
}

#[test]
fn underscore_starts_an_identifier() {
    let s = ReservedSet::new();
    assert_eq!(golfify_code("_private", &s), "_");
}

#[test]
fn overflowing_literal_warns_and_truncates_to_zero() {
    let s = ReservedSet::new();
    let huge = "9".repeat(41);
    let (out, warned) = golfify_code_with_warning(&huge, &s);
    assert!(warned);
    assert!(!out.is_empty());
}

#[test]
fn small_literal_does_not_warn() {
    let s = ReservedSet::new();
    let (out, warned) = golfify_code_with_warning("x = 42;", &s);
    assert!(!warned);
    assert_eq!(out, "_=42;");
}

#[test]
fn fifty_four_identifiers_need_two_characters() {
    // The first 53 new identifiers use the one-character alphabet; the next
    // ordinal, 53, renders as `_a`.
    let s = ReservedSet::new();
    let mut input = String::new();
    for i in 0..54 {
        input.push_str(&format!("name{} ", i));
    }
    let out = golfify_code(&input, &s);
    let names: Vec<&str> = out.split(' ').collect();
    assert_eq!(names.len(), 54);
    assert_eq!(names[0], "_");
    assert_eq!(names[1], "a");
    assert_eq!(names[26], "z");
    assert_eq!(names[27], "A");
    assert_eq!(names[52], "Z");
    assert_eq!(names[53], "_a");
}

#[test]
fn directive_resets_previous_token_state() {
    let s = ReservedSet::new();
    assert_eq!(golfify_code("x #define y\nz", &s), "_#define y\na");
}

#[test]
fn reserved_and_renamed_interleave() {
    let s = set_of(&["int"]);
    assert_eq!(golfify_code("int x int x", &s), "int _ int _");
}

#[test]
fn minifier_is_idempotent_on_its_own_output() {
    let s = set_of(&["int", "void", "printf"]);
    let input = "void main() { int my_variable = 0; int more_variable = 1245; printf(\"%d\\n\", my_variable); }";
    let once = golfify_code(input, &s);
    let twice = golfify_code(&once, &s);
    assert_eq!(once, twice);
}

#[test]
fn reserved_set_reports_membership() {
    let s = set_of(&["int", "void"]);
    assert!(s.contains("int"));
    assert!(s.contains("void"));
    assert!(!s.contains("float"));
}

#[test]
fn insert_line_trims_surrounding_whitespace() {
    let mut s = ReservedSet::new();
    s.insert_line("  int \t");
    assert!(s.contains("int"));
    assert!(!s.contains("  int \t"));
}

#[test]
fn insert_line_skips_empty_and_comment_lines() {
    let mut s = ReservedSet::new();
    s.insert_line("   ");
    s.insert_line("");
    s.insert_line("// a comment line");
    s.insert_line("int");
    assert!(s.contains("int"));
    assert!(!s.contains(""));
    assert!(!s.contains("// a comment line"));
    assert!(!s.contains("a"));
}

#[test]
fn insert_line_keeps_a_lone_slash() {
    let mut s = ReservedSet::new();
    s.insert_line(" / ");
    assert!(s.contains("/"));
}
