use redosaur_core::parser::{parse, to_pattern, Ast, CharClass};

#[test]
fn empty_pattern_parses_to_empty_node() {
    assert_eq!(parse("").unwrap(), Ast::Empty);
}

#[test]
fn single_literal_parses() {
    assert_eq!(parse("a").unwrap(), Ast::Literal('a'));
}

#[test]
fn concatenation_parses_as_a_sequence() {
    assert_eq!(
        parse("ab").unwrap(),
        Ast::Concat(vec![Ast::Literal('a'), Ast::Literal('b')])
    );
}

#[test]
fn alternation_parses_branches() {
    assert_eq!(
        parse("a|b").unwrap(),
        Ast::Alternation(vec![Ast::Literal('a'), Ast::Literal('b')])
    );
}

#[test]
fn group_wraps_its_contents() {
    assert_eq!(
        parse("(a|b)").unwrap(),
        Ast::Group(Box::new(Ast::Alternation(vec![
            Ast::Literal('a'),
            Ast::Literal('b')
        ])))
    );
}

#[test]
fn unbalanced_open_paren_is_a_parse_error() {
    let err = parse("(a").unwrap_err();
    assert_eq!(err.position, 2);
}

#[test]
fn non_capturing_group_parses_like_a_capturing_group() {
    assert_eq!(parse("(?:a|b)").unwrap(), parse("(a|b)").unwrap());
}

#[test]
fn non_capturing_group_quantifier_still_binds_to_the_group() {
    assert_eq!(
        parse("(?:ab)+").unwrap(),
        Ast::Repeat {
            node: Box::new(Ast::Group(Box::new(Ast::Concat(vec![
                Ast::Literal('a'),
                Ast::Literal('b')
            ])))),
            min: 1,
            max: None,
        }
    );
}

#[test]
fn unsupported_group_extension_is_a_parse_error() {
    assert!(parse("(?=a)").is_err());
    assert!(parse("(?!a)").is_err());
    assert!(parse("(?i)a").is_err());
}

#[test]
fn unmatched_close_paren_is_a_parse_error() {
    assert!(parse("a)").is_err());
}

#[test]
fn star_quantifier_allows_zero_or_more() {
    assert_eq!(
        parse("a*").unwrap(),
        Ast::Repeat {
            node: Box::new(Ast::Literal('a')),
            min: 0,
            max: None,
        }
    );
}

#[test]
fn plus_quantifier_requires_at_least_one() {
    assert_eq!(
        parse("a+").unwrap(),
        Ast::Repeat {
            node: Box::new(Ast::Literal('a')),
            min: 1,
            max: None,
        }
    );
}

#[test]
fn question_quantifier_is_zero_or_one() {
    assert_eq!(
        parse("a?").unwrap(),
        Ast::Repeat {
            node: Box::new(Ast::Literal('a')),
            min: 0,
            max: Some(1),
        }
    );
}

#[test]
fn quantifier_binds_to_a_group() {
    assert_eq!(
        parse("(ab)+").unwrap(),
        Ast::Repeat {
            node: Box::new(Ast::Group(Box::new(Ast::Concat(vec![
                Ast::Literal('a'),
                Ast::Literal('b')
            ])))),
            min: 1,
            max: None,
        }
    );
}

#[test]
fn dangling_quantifier_is_a_parse_error() {
    assert!(parse("*a").is_err());
    assert!(parse("+").is_err());
}

#[test]
fn exact_count_repeat() {
    assert_eq!(
        parse("a{3}").unwrap(),
        Ast::Repeat {
            node: Box::new(Ast::Literal('a')),
            min: 3,
            max: Some(3),
        }
    );
}

#[test]
fn open_ended_repeat() {
    assert_eq!(
        parse("a{2,}").unwrap(),
        Ast::Repeat {
            node: Box::new(Ast::Literal('a')),
            min: 2,
            max: None,
        }
    );
}

#[test]
fn bounded_range_repeat() {
    assert_eq!(
        parse("a{1,20}").unwrap(),
        Ast::Repeat {
            node: Box::new(Ast::Literal('a')),
            min: 1,
            max: Some(20),
        }
    );
}

#[test]
fn malformed_bounded_repeat_is_a_parse_error() {
    assert!(parse("a{2,1}").is_err());
    assert!(parse("a{}").is_err());
    assert!(parse("a{2").is_err());
}

#[test]
fn char_class_of_single_chars() {
    assert_eq!(
        parse("[abc]").unwrap(),
        Ast::CharClass(CharClass {
            negated: false,
            ranges: vec![('a', 'a'), ('b', 'b'), ('c', 'c')],
        })
    );
}

#[test]
fn char_class_range() {
    assert_eq!(
        parse("[a-z]").unwrap(),
        Ast::CharClass(CharClass {
            negated: false,
            ranges: vec![('a', 'z')],
        })
    );
}

#[test]
fn char_class_negation() {
    assert_eq!(
        parse("[^0-9]").unwrap(),
        Ast::CharClass(CharClass {
            negated: true,
            ranges: vec![('0', '9')],
        })
    );
}

#[test]
fn char_class_trailing_dash_is_literal() {
    assert_eq!(
        parse("[a-]").unwrap(),
        Ast::CharClass(CharClass {
            negated: false,
            ranges: vec![('a', 'a'), ('-', '-')],
        })
    );
}

#[test]
fn unbalanced_char_class_is_a_parse_error() {
    assert!(parse("[abc").is_err());
}

#[test]
fn char_class_embeds_a_shorthand_class() {
    // [\d.] merges \d's ranges into the surrounding class rather than
    // treating '\' and 'd' as two literal chars.
    assert_eq!(
        parse(r"[\d.]").unwrap(),
        Ast::CharClass(CharClass {
            negated: false,
            ranges: vec![('0', '9'), ('.', '.')],
        })
    );
}

#[test]
fn char_class_embeds_multiple_shorthand_classes() {
    let ast = parse(r"[\w\s]").unwrap();
    let Ast::CharClass(class) = ast else {
        panic!("expected a CharClass");
    };
    assert!(class.matches('a'));
    assert!(class.matches('_'));
    assert!(class.matches(' '));
    assert!(!class.matches('!'));
}

#[test]
fn char_class_escaped_bracket_is_a_literal_member() {
    assert_eq!(
        parse(r"[\]a]").unwrap(),
        Ast::CharClass(CharClass {
            negated: false,
            ranges: vec![(']', ']'), ('a', 'a')],
        })
    );
}

#[test]
fn negated_shorthand_class_inside_char_class_is_a_parse_error() {
    assert!(parse(r"[\D]").is_err());
    assert!(parse(r"[a\W]").is_err());
}

#[test]
fn dangling_escape_in_char_class_is_a_parse_error() {
    assert!(parse("[a\\").is_err());
}

#[test]
fn empty_char_class_is_a_parse_error() {
    assert!(parse("[]").is_err());
}

#[test]
fn anchors_parse_as_dedicated_nodes() {
    assert_eq!(
        parse("^a$").unwrap(),
        Ast::Concat(vec![Ast::AnchorStart, Ast::Literal('a'), Ast::AnchorEnd])
    );
}

#[test]
fn dot_matches_any_char_except_newline() {
    assert_eq!(
        parse(".").unwrap(),
        Ast::CharClass(CharClass {
            negated: true,
            ranges: vec![('\n', '\n')],
        })
    );
}

#[test]
fn digit_shorthand_class() {
    assert_eq!(
        parse(r"\d").unwrap(),
        Ast::CharClass(CharClass {
            negated: false,
            ranges: vec![('0', '9')],
        })
    );
}

#[test]
fn negated_word_shorthand_class() {
    assert_eq!(
        parse(r"\W").unwrap(),
        Ast::CharClass(CharClass {
            negated: true,
            ranges: vec![('a', 'z'), ('A', 'Z'), ('0', '9'), ('_', '_')],
        })
    );
}

#[test]
fn escaped_metachar_is_a_literal() {
    assert_eq!(parse(r"\.").unwrap(), Ast::Literal('.'));
    assert_eq!(parse(r"\+").unwrap(), Ast::Literal('+'));
}

#[test]
fn dangling_escape_is_a_parse_error() {
    assert!(parse("\\").is_err());
}

#[test]
fn to_pattern_round_trips_through_parse() {
    for pattern in [
        "a", "ab", "a|b", "a*", "a+", "a?", "a{3}", "a{2,}", "a{1,20}", "(ab)+", "(a|b)*",
        "(?:ab)+", "[a-z]+", "^a$",
    ] {
        let ast = parse(pattern).unwrap();
        let rendered = to_pattern(&ast);
        assert_eq!(
            parse(&rendered).unwrap(),
            ast,
            "expected {pattern} to round-trip via {rendered}"
        );
    }
}

#[test]
fn to_pattern_escapes_metacharacters() {
    assert_eq!(to_pattern(&Ast::Literal('.')), "\\.");
    assert_eq!(to_pattern(&Ast::Literal('+')), "\\+");
    assert_eq!(to_pattern(&Ast::Literal('a')), "a");
}

#[test]
fn to_pattern_renders_dot_from_negated_newline_class() {
    let ast = Ast::CharClass(CharClass {
        negated: true,
        ranges: vec![('\n', '\n')],
    });
    assert_eq!(to_pattern(&ast), ".");
}

#[test]
fn dot_does_not_match_newline() {
    let dot = parse(".").unwrap();
    let Ast::CharClass(class) = dot else {
        panic!("expected a CharClass");
    };
    assert!(!class.matches('\n'));
    assert!(class.matches('a'));
    assert!(class.matches('!'));
}

#[test]
fn char_class_matches_honors_negation() {
    let digits = CharClass {
        negated: false,
        ranges: vec![('0', '9')],
    };
    assert!(digits.matches('5'));
    assert!(!digits.matches('a'));

    let not_digits = CharClass {
        negated: true,
        ranges: vec![('0', '9')],
    };
    assert!(!not_digits.matches('5'));
    assert!(not_digits.matches('a'));
}
