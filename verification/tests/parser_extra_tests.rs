use redosaur_core::parser::{parse, to_pattern, Ast, CharClass};

fn error_of(pattern: &str) -> (usize, String) {
    let err = parse(pattern).unwrap_err();
    (err.position, err.message)
}

#[test]
fn parse_error_description_names_position_and_reason() {
    let err = parse("(a").unwrap_err();
    assert_eq!(
        err.description(),
        "parse error at 2: unbalanced parenthesis: expected ')'"
    );
    let err = parse("abcdefghij)").unwrap_err();
    assert_eq!(err.description(), "parse error at 10: unexpected trailing input");
}

#[test]
fn each_kind_of_refusal_has_its_position_and_message() {
    assert_eq!(
        error_of("(?=a)"),
        (
            3,
            "unsupported group syntax: only non-capturing groups (?:...) are supported (no lookaround or inline flags)"
                .to_string()
        )
    );
    assert_eq!(error_of("(a"), (2, "unbalanced parenthesis: expected ')'".to_string()));
    assert_eq!(error_of(")"), (0, "unexpected trailing input".to_string()));
    assert_eq!(error_of("*"), (0, "dangling quantifier with no preceding atom".to_string()));
    assert_eq!(error_of("a{2"), (3, "malformed repeat: expected '}'".to_string()));
    assert_eq!(error_of("a{2,1}"), (6, "repeat max must be >= min".to_string()));
    assert_eq!(error_of("a{}"), (2, "expected a number in repeat bounds".to_string()));
    assert_eq!(
        error_of("a{99999999999}"),
        (13, "repeat bound is not a valid number".to_string())
    );
    assert_eq!(error_of("\\"), (1, "dangling escape at end of pattern".to_string()));
    assert_eq!(error_of("[ab"), (3, "unbalanced character class: expected ']'".to_string()));
    assert_eq!(error_of("[a\\"), (3, "dangling escape in character class".to_string()));
    assert_eq!(
        error_of("[\\D]"),
        (
            3,
            "negated shorthand classes like \\D are not supported inside a character class"
                .to_string()
        )
    );
    assert_eq!(error_of("[a-"), (3, "unbalanced character class".to_string()));
    assert_eq!(error_of("[z-a]"), (4, "character class range is out of order".to_string()));
    assert_eq!(error_of("[]"), (2, "character class must not be empty".to_string()));
}

#[test]
fn empty_alternatives_are_empty_nodes() {
    assert_eq!(
        parse("a|").unwrap(),
        Ast::Alternation(vec![Ast::Literal('a'), Ast::Empty])
    );
    assert_eq!(parse("()").unwrap(), Ast::Group(Box::new(Ast::Empty)));
}

#[test]
fn class_members_read_escapes_ranges_and_negation() {
    assert_eq!(
        parse(r"[^\s0-9x]").unwrap(),
        Ast::CharClass(CharClass {
            negated: true,
            ranges: vec![
                (' ', ' '),
                ('\t', '\t'),
                ('\n', '\n'),
                ('\r', '\r'),
                ('0', '9'),
                ('x', 'x')
            ],
        })
    );
}

#[test]
fn rendering_groups_alternations_and_multi_node_operands() {
    let ast = Ast::Repeat {
        node: Box::new(Ast::Concat(vec![Ast::Literal('a'), Ast::Literal('b')])),
        min: 2,
        max: Some(5),
    };
    assert_eq!(to_pattern(&ast), "(ab){2,5}");
    let ast = Ast::Concat(vec![
        Ast::Alternation(vec![Ast::Literal('a'), Ast::Literal('b')]),
        Ast::Literal('c'),
    ]);
    assert_eq!(to_pattern(&ast), "(a|b)c");
    let ast = Ast::Repeat {
        node: Box::new(Ast::Literal('a')),
        min: 0,
        max: Some(1),
    };
    assert_eq!(to_pattern(&ast), "a?");
    let ast = Ast::Repeat {
        node: Box::new(Ast::Literal('a')),
        min: 12,
        max: None,
    };
    assert_eq!(to_pattern(&ast), "a{12,}");
}

#[test]
fn every_parsed_pattern_reads_back_from_its_rendering() {
    for pattern in [
        r"x(\w+\s?)*y", "(a|b|)c", "[^a-c_]{3,7}", "^(?:ab|cd)+$", r"\d+\.\d*", "a{0}", ".*",
    ] {
        let ast = parse(pattern).unwrap();
        assert_eq!(parse(&to_pattern(&ast)).unwrap(), ast, "{pattern}");
    }
}

#[test]
fn class_members_with_a_meaning_are_escaped_when_rendered() {
    assert_eq!(to_pattern(&parse(r"[\]a]").unwrap()), r"[\]a]");
    assert_eq!(to_pattern(&parse(r"[\^a]").unwrap()), r"[\^a]");
    assert_eq!(to_pattern(&parse(r"[a\-]").unwrap()), r"[a\-]");
    assert_eq!(to_pattern(&parse(r"[\\x]").unwrap()), r"[\\x]");
    // A single member before a range that starts with `-` is written as a
    // one-character range, so the `-` is not read as its own range.
    assert_eq!(to_pattern(&parse(r"[\.--z]").unwrap()), r"[.-.--z]");
}

#[test]
fn classes_with_escaped_members_read_back() {
    for pattern in [
        r"[\]a]", r"[\^a]", r"[a\-]", r"[\\x]", r"[\.--z]", r"[d-d--z]", r"[\s--z]", r"[^^-z]",
        r"[!-\]", r"[\-\]\^]",
    ] {
        let ast = parse(pattern).unwrap();
        assert_eq!(parse(&to_pattern(&ast)).unwrap(), ast, "{pattern}");
    }
}

#[test]
fn clone_copies_the_whole_tree() {
    let ast = parse("(a|[b-d])+x{2}").unwrap();
    assert_eq!(ast.clone(), ast);
}

#[test]
fn a_pattern_over_the_length_cap_is_refused_at_the_cap() {
    let pattern = "(".repeat(1_000_000) + &")".repeat(1_000_000);
    let err = parse(&pattern).unwrap_err();
    assert_eq!(err.position, 1000);
    assert_eq!(err.message, "pattern is longer than the length cap");
    assert!(parse(&"a".repeat(1000)).is_ok());
    assert!(parse(&"a".repeat(1001)).is_err());
}

#[test]
fn nesting_over_the_depth_cap_is_refused_at_the_deep_paren() {
    let deep = "(".repeat(60) + "a" + &")".repeat(60);
    let err = parse(&deep).unwrap_err();
    assert_eq!(err.position, 50);
    assert_eq!(err.message, "groups are nested deeper than the depth cap");
    let at_cap = "(".repeat(50) + "a" + &")".repeat(50);
    assert!(parse(&at_cap).is_ok());
}

#[test]
fn escaped_and_class_parentheses_do_not_count_toward_depth() {
    assert!(parse(&r"\(".repeat(60)).is_ok());
    let class = "[".to_string() + &"(".repeat(60) + "]";
    assert!(parse(&class).is_ok());
    let sequential = "(a)".repeat(100);
    assert!(parse(&sequential).is_ok());
}
