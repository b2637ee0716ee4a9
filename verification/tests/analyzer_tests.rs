use redosaur_core::analyzer::{classify, has_ambiguous_repeat, Risk};
use redosaur_core::engine::run;
use redosaur_core::generator::worst_case;
use redosaur_core::parser::parse;
use redosaur_core::Ast;

#[test]
fn empty_ast_is_safe() {
    assert_eq!(classify(&Ast::Empty), Risk::Safe);
}

#[test]
fn risk_levels_are_ordered() {
    assert!(Risk::Safe < Risk::Suspicious);
    assert!(Risk::Suspicious < Risk::Catastrophic);
}

#[test]
fn nested_plus_of_plus_is_flagged() {
    assert!(has_ambiguous_repeat(&parse("(a+)+").unwrap()));
}

#[test]
fn nested_star_of_star_is_flagged() {
    assert!(has_ambiguous_repeat(&parse("(a*)*").unwrap()));
}

#[test]
fn nested_plus_of_star_is_flagged() {
    assert!(has_ambiguous_repeat(&parse("(a+)*").unwrap()));
}

#[test]
fn overlapping_alternation_under_star_is_flagged() {
    assert!(has_ambiguous_repeat(&parse("(a|a)*").unwrap()));
}

#[test]
fn plain_plus_is_not_flagged() {
    assert!(!has_ambiguous_repeat(&parse("a+").unwrap()));
}

#[test]
fn char_class_plus_is_not_flagged() {
    assert!(!has_ambiguous_repeat(&parse("[a-z]+").unwrap()));
}

#[test]
fn grouped_concat_plus_is_not_flagged() {
    assert!(!has_ambiguous_repeat(&parse("(ab)+").unwrap()));
}

#[test]
fn non_overlapping_alternation_under_repeat_is_not_flagged() {
    // Distinct branches under a repeat can't be re-split against each
    // other the way (a|a)+'s identical branches can.
    assert!(!has_ambiguous_repeat(&parse("(a|b)+").unwrap()));
}

#[test]
fn nested_quantifier_through_non_capturing_group_is_flagged() {
    assert!(has_ambiguous_repeat(&parse("(?:a+)+").unwrap()));
}

#[test]
fn non_capturing_grouped_concat_plus_is_not_flagged() {
    assert!(!has_ambiguous_repeat(&parse("(?:ab)+").unwrap()));
}

#[test]
fn variable_length_repeat_buried_in_a_concat_is_flagged() {
    assert!(has_ambiguous_repeat(&parse(r"(\w+\s?)*").unwrap()));
}

#[test]
fn fixed_length_repeat_buried_in_a_concat_is_not_flagged() {
    // Every sub-repeat has min == max, so the body can only ever match
    // one length.
    assert!(!has_ambiguous_repeat(&parse(r"(a{2}b{3})+").unwrap()));
}

#[test]
fn pathological_patterns_classify_catastrophic() {
    for pattern in ["(a+)+", "(a*)*", "(a+)*", "(a|a)*"] {
        let ast = parse(pattern).unwrap();
        assert_eq!(
            classify(&ast),
            Risk::Catastrophic,
            "expected {pattern} to classify Catastrophic"
        );
    }
}

#[test]
fn safe_patterns_classify_safe() {
    for pattern in ["a+", "[a-z]+", "(ab)+"] {
        let ast = parse(pattern).unwrap();
        assert_eq!(
            classify(&ast),
            Risk::Safe,
            "expected {pattern} to classify Safe"
        );
    }
}

#[test]
fn bounded_repetition_never_classifies_catastrophic() {
    let ast = parse("a{1,20}").unwrap();
    assert_ne!(classify(&ast), Risk::Catastrophic);
}

#[test]
fn moderate_growth_classifies_suspicious_without_truncating() {
    let ast = parse("(a?){20}a{20}").unwrap();
    assert_eq!(classify(&ast), Risk::Suspicious);
}

#[test]
fn high_growth_classifies_catastrophic_without_truncating() {
    let ast = parse("(a{1,2})+").unwrap();
    assert_eq!(classify(&ast), Risk::Catastrophic);
}

#[test]
fn structurally_flagged_but_measured_safe_pattern_classifies_safe() {
    let ast = parse("(a{1,2}){1,2}").unwrap();
    assert!(has_ambiguous_repeat(&ast));
    assert_eq!(classify(&ast), Risk::Safe);
}

#[test]
fn dot_based_nested_quantifier_classifies_catastrophic() {
    let ast = parse("(.+)+").unwrap();
    assert_eq!(classify(&ast), Risk::Catastrophic);
}

#[test]
fn word_and_optional_space_repeat_classifies_catastrophic() {
    let ast = parse(r"(\w+\s?)*").unwrap();
    assert_eq!(classify(&ast), Risk::Catastrophic);
}

#[test]
fn ambiguity_inside_a_concat_or_alternation_is_found() {
    assert!(has_ambiguous_repeat(&parse("x(a+)+y").unwrap()));
    assert!(has_ambiguous_repeat(&parse("b|(a*)*").unwrap()));
    assert!(!has_ambiguous_repeat(&parse("x(ab)+y|c").unwrap()));
}

#[test]
fn nested_exact_repeat_is_flagged_as_nested() {
    // (a{2}){3}: no variable length anywhere, but a repeat directly inside
    // a repeat is still a candidate.
    assert!(has_ambiguous_repeat(&parse("(a{2}){3}").unwrap()));
}

#[test]
fn pathological_patterns_grow_more_than_fourfold_from_ten_to_twenty_units() {
    for pattern in ["(a+)+", "(a*)*", "(a+)*", "(a|a)*"] {
        let ast = parse(pattern).unwrap();
        let at_ten = run(&ast, &worst_case(&ast, 10)).steps;
        let at_twenty = run(&ast, &worst_case(&ast, 20)).steps;
        assert!(at_twenty > 4 * at_ten, "{pattern}: {at_ten} -> {at_twenty}");
    }
}
