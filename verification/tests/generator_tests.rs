use redosaur_core::engine::run_with_ceiling;
use redosaur_core::generator::worst_case;
use redosaur_core::parser::parse;
use redosaur_core::Ast;

#[test]
fn worst_case_has_requested_length() {
    assert_eq!(worst_case(&Ast::Empty, 5).len(), 5);
}

#[test]
fn worst_case_of_zero_length_is_empty() {
    assert_eq!(worst_case(&Ast::Empty, 0), "");
}

#[test]
fn worst_case_repeats_the_unit_then_a_rejected_tail() {
    let ast = parse("(a+)+").unwrap();
    assert_eq!(worst_case(&ast, 24), "aaaaaaaaaaaaaaaaaaaaaaaa!");
}

#[test]
fn worst_case_takes_the_low_end_of_a_class_as_its_unit() {
    assert_eq!(worst_case(&parse("[x-z]+").unwrap(), 3), "xxx!");
}

#[test]
fn worst_case_for_dot_ends_in_a_newline() {
    // '.' accepts '!', '#' and '~', so the first candidate it rejects is '\n'.
    assert_eq!(worst_case(&parse("(.+)+").unwrap(), 3), "aaa\n");
}

#[test]
fn worst_case_for_a_negated_class_picks_a_candidate_it_accepts() {
    assert_eq!(worst_case(&parse("[^a]+").unwrap(), 2), "00");
}

#[test]
fn worst_case_has_no_tail_when_every_candidate_is_accepted() {
    assert_eq!(worst_case(&parse("[^z]+").unwrap(), 2), "aa");
}

#[test]
fn worst_case_of_a_pattern_without_leaves_is_plain_a() {
    assert_eq!(worst_case(&parse("^$").unwrap(), 3), "aaa");
}

#[test]
fn worst_case_input_never_matches_its_pattern() {
    for pattern in ["(a+)+", "(a|b)*c", r"(\w+\s?)*", "(.+)+", "[0-9]+x"] {
        let ast = parse(pattern).unwrap();
        let input = worst_case(&ast, 6);
        let trace = run_with_ceiling(&ast, &input, 10_000_000);
        assert!(!trace.truncated, "{pattern} should finish on 6 units");
        assert!(!trace.matched, "{pattern} matched its own worst case {input:?}");
    }
}
