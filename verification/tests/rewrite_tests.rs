use redosaur_core::analyzer::{classify, Risk};
use redosaur_core::engine::run;
use redosaur_core::generator::worst_case;
use redosaur_core::parser::parse;
use redosaur_core::rewrite::suggest;
use redosaur_core::Ast;

fn suggestion(pattern: &str) -> Option<String> {
    suggest(&parse(pattern).unwrap(), pattern)
}

#[test]
fn placeholder_returns_no_suggestion() {
    assert_eq!(suggest(&Ast::Empty, ""), None);
}

#[test]
fn nested_quantifiers_flatten() {
    assert_eq!(suggestion("(a+)+"), Some("a+".to_string()));
    assert_eq!(suggestion("(a*)*"), Some("a*".to_string()));
    assert_eq!(suggestion("(a+)*"), Some("a*".to_string()));
    assert_eq!(suggestion("(a*)+"), Some("a*".to_string()));
    assert_eq!(suggestion("(?:[a-z]+)+"), Some("[a-z]+".to_string()));
}

#[test]
fn duplicate_branches_are_removed() {
    assert_eq!(suggestion("(a|a)*"), Some("a*".to_string()));
    assert_eq!(suggestion("(a|b|a)+"), Some("(a|b)+".to_string()));
    assert_eq!(suggestion("(ab|ab)*"), Some("(ab)*".to_string()));
}

#[test]
fn deduplication_can_expose_a_nested_quantifier() {
    assert_eq!(suggestion("(a+|a+)*"), Some("a*".to_string()));
}

#[test]
fn rules_apply_inside_larger_patterns() {
    assert_eq!(suggestion("x(a+)+y"), Some("xa+y".to_string()));
    assert_eq!(suggestion("((a+)+)+"), Some("a+".to_string()));
}

#[test]
fn a_rewrite_that_stays_catastrophic_is_not_suggested() {
    // Flattening fixes the inner (a+)+, but (a+b?)* is still catastrophic.
    assert_eq!(suggestion("((a+)+b?)*"), None);
    assert_eq!(classify(&parse("(a+b?)*").unwrap()), Risk::Catastrophic);
}

#[test]
fn shapes_outside_the_rules_get_no_suggestion() {
    assert_eq!(suggestion("a+"), None);
    assert_eq!(suggestion("(a|b)*"), None);
    assert_eq!(suggestion(r"(\w+\s?)*"), None);
    assert_eq!(suggestion("(a{1,2})+"), None);
}

#[test]
fn rewrites_are_never_catastrophic() {
    for pattern in ["(a+)+", "(a*)*", "(a+)*", "(a|a)*", "(a*)+"] {
        let fixed = suggestion(pattern).unwrap();
        let risk = classify(&parse(&fixed).unwrap());
        assert_ne!(risk, Risk::Catastrophic, "{pattern} -> {fixed}");
    }
}

#[test]
fn rewrites_match_every_string_the_pattern_matches() {
    let inputs = ["", "a", "aa", "aaaa", "b", "ab", "ba", "aab"];
    for pattern in ["(a+)+", "(a*)*", "(a+)*", "(a*)+", "(a|a)*", "(a|b|a)+"] {
        let before_fix = parse(pattern).unwrap();
        let fixed = parse(&suggestion(pattern).unwrap()).unwrap();
        for input in inputs {
            if run(&before_fix, input).matched {
                assert!(run(&fixed, input).matched, "{pattern} on {input:?}");
            }
        }
    }
}

#[test]
fn rewrites_match_exactly_the_same_strings() {
    let inputs = ["", "a", "aa", "aaaa", "b", "ab", "ba", "aab"];
    for pattern in ["(a+)+", "(a*)*", "(a+)*", "(a*)+", "(a|a)*", "(a|b|a)+", "(a?)+"] {
        let before_fix = parse(pattern).unwrap();
        let fixed = match suggestion(pattern) {
            Some(text) => parse(&text).unwrap(),
            None => continue,
        };
        for input in inputs {
            assert_eq!(
                run(&before_fix, input).matched,
                run(&fixed, input).matched,
                "{pattern} on {input:?}"
            );
        }
    }
}

#[test]
fn star_under_plus_rewrite_keeps_the_empty_string() {
    let before_fix = parse("(a*)+").unwrap();
    let fixed = parse(&suggestion("(a*)+").unwrap()).unwrap();
    assert!(run(&before_fix, "").matched);
    assert!(run(&fixed, "").matched);
}

#[test]
fn rewrite_finishes_quickly_on_the_same_worst_case() {
    let before_fix = parse("(a+)+").unwrap();
    let input = worst_case(&before_fix, 24);
    let before = run(&before_fix, &input);
    let fixed = parse(&suggestion("(a+)+").unwrap()).unwrap();
    let after = run(&fixed, &input);
    assert!(before.truncated);
    assert!(!after.truncated);
    assert!(after.steps < 1000);
}
