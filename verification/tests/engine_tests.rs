use redosaur_core::engine::{run, run_with_ceiling, DEFAULT_STEP_CEILING};
use redosaur_core::parser::parse;
use redosaur_core::Ast;

#[test]
fn empty_ast_matches_empty_input() {
    let trace = run(&Ast::Empty, "");
    assert!(trace.matched);
    assert_eq!(trace.steps, 1);
    assert!(!trace.truncated);
}

#[test]
fn empty_ast_rejects_nonempty_input() {
    assert!(!run(&Ast::Empty, "x").matched);
}

#[test]
fn literal_matches_exact_char() {
    assert!(run(&Ast::Literal('a'), "a").matched);
}

#[test]
fn literal_rejects_other_char() {
    assert!(!run(&Ast::Literal('a'), "b").matched);
}

#[test]
fn concatenation_counts_one_step_per_node_visit() {
    // Concat, then 'a', then 'b': three node visits.
    let trace = run(&parse("ab").unwrap(), "ab");
    assert!(trace.matched);
    assert_eq!(trace.steps, 3);
    assert!(!trace.truncated);
}

#[test]
fn run_requires_the_whole_input_to_match() {
    let ast = parse("ab").unwrap();
    assert!(!run(&ast, "abc").matched);
    assert!(!run(&ast, "a").matched);
}

#[test]
fn alternation_backtracks_into_a_later_branch() {
    let ast = parse("(ab|ac)").unwrap();
    assert!(run(&ast, "ac").matched);
    assert!(!run(&ast, "ad").matched);
}

#[test]
fn greedy_repeat_gives_back_for_the_rest_of_the_pattern() {
    let ast = parse("a*ab").unwrap();
    assert!(run(&ast, "aaab").matched);
    assert!(!run(&ast, "b").matched);
}

#[test]
fn bounded_repeat_honors_both_bounds() {
    let ast = parse("a{2,3}").unwrap();
    assert!(!run(&ast, "a").matched);
    assert!(run(&ast, "aa").matched);
    assert!(run(&ast, "aaa").matched);
    assert!(!run(&ast, "aaaa").matched);
}

#[test]
fn classes_and_anchors_match_as_parsed() {
    assert!(run(&parse("^[a-c]+$").unwrap(), "abcab").matched);
    assert!(!run(&parse("^[a-c]+$").unwrap(), "abd").matched);
    assert!(run(&parse(r"\d\w\s.").unwrap(), "7x !").matched);
    assert!(!run(&parse(".").unwrap(), "\n").matched);
}

#[test]
fn zero_ceiling_stops_after_one_step() {
    let trace = run_with_ceiling(&Ast::Empty, "", 0);
    assert!(!trace.matched);
    assert!(trace.truncated);
    assert_eq!(trace.steps, 1);
}

#[test]
fn truncated_run_stops_exactly_at_the_ceiling() {
    let ast = parse("(a+)+").unwrap();
    let trace = run_with_ceiling(&ast, "aaaaaaaaaaaaaaaaaaaa!", 1000);
    assert!(trace.truncated);
    assert!(!trace.matched);
    assert_eq!(trace.steps, 1000);
}

#[test]
fn nested_quantifier_hits_the_default_ceiling_on_its_worst_case() {
    let ast = parse("(a+)+").unwrap();
    let trace = run(&ast, "aaaaaaaaaaaaaaaaaaaaaaaa!");
    assert!(trace.truncated);
    assert!(!trace.matched);
    assert_eq!(trace.steps, DEFAULT_STEP_CEILING);
}

#[test]
fn nested_quantifier_still_matches_a_matching_input() {
    let trace = run(&parse("(a+)+").unwrap(), "aaaa");
    assert!(trace.matched);
    assert!(!trace.truncated);
}

#[test]
fn an_empty_first_repetition_satisfies_a_repeat() {
    // An empty inner match satisfies the outer repeat.
    assert!(run(&parse("(a*)+").unwrap(), "").matched);
    assert!(run(&parse("(a?)+").unwrap(), "").matched);
    assert!(run(&parse("(a?){3}").unwrap(), "").matched);
    assert!(run(&parse("(a*)*").unwrap(), "").matched);
    assert!(run(&parse("(a*)+").unwrap(), "aa").matched);
    assert!(!run(&parse("(a?)+").unwrap(), "b").matched);
}

#[test]
fn an_empty_repetition_does_not_loop() {
    let trace = run(&parse("(a*)*b").unwrap(), "aaac");
    assert!(!trace.truncated);
    assert!(!trace.matched);
}

#[test]
fn a_verdict_stands_under_a_higher_ceiling() {
    let ast = parse("(a|b)*c").unwrap();
    let low = run_with_ceiling(&ast, "ababc", 100);
    assert!(!low.truncated);
    for ceiling in [101, 1000, DEFAULT_STEP_CEILING] {
        let high = run_with_ceiling(&ast, "ababc", ceiling);
        assert_eq!(high, low);
    }
}

#[test]
fn a_truncated_run_can_be_resumed_with_a_larger_budget() {
    let ast = parse("(a+)+").unwrap();
    let input = "aaaaaaaa!";
    let small = run_with_ceiling(&ast, input, 10);
    assert!(small.truncated);
    let large = run_with_ceiling(&ast, input, 1_000_000);
    assert!(!large.truncated);
    assert!(!large.matched);
    assert!(large.steps >= 10);
}

#[test]
fn only_the_first_repetition_may_be_empty() {
    // `(a?){2}` on "a" would need an empty second repetition.
    assert!(!run(&parse("(a?){2}").unwrap(), "a").matched);
    assert!(run(&parse("(a?){2}").unwrap(), "aa").matched);
    assert!(run(&parse("(a?){2}").unwrap(), "").matched);
}
