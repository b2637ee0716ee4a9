//! Regex -> AST parser. Supports literals, concatenation, alternation
//! (`|`), quantifiers (`*`, `+`, `?`, `{m,n}`), capturing and non-capturing
//! groups (`(...)`, `(?:...)`), character classes (`[...]`, `.`, `\d`/`\w`/
//! `\s` and negations), and anchors (`^`, `$`). Malformed input returns a
//! positioned `ParseError` rather than panicking.

use vstd::prelude::*;
use crate::model::{SpecAst, class_accepts};
use crate::grammar::{
    ParseErrorKind, Step, after, at, concat_stops, digit_ranges, digits_end, digits_value, p_alt, p_alt_more,
    p_atom, p_bounded, p_class, p_class_items, p_concat, p_escape, p_group_body, p_number,
    p_qatom, shorthand, space_ranges, spec_parse, word_ranges, too_deep_at, MAX_NESTING,
    MAX_PATTERN_LEN, is_meta, render_literal, is_dot,
    render_member, render_members_to, render_items, render_class, digit_char, dec, render_quant, render,
    render_members, render_branches,
};

verus! {

broadcast use vstd::std_specs::vec::group_vec_axioms;

/// A single `[...]` character class: a set of inclusive char ranges,
/// optionally negated (`[^...]`).
#[derive(Debug, Clone, PartialEq, Eq)]
pub struct CharClass {
    pub negated: bool,
    pub ranges: Vec<(char, char)>,
}

/// A parsed regular expression, as a tree of matchable nodes.
#[derive(Debug, PartialEq, Eq)]
pub enum Ast {
    /// Matches nothing but the empty string.
    Empty,
    /// A single literal character.
    Literal(char),
    /// `[a-z]`, `[^0-9]`, `.`, `\d`, `\w`, `\s` (and negations) — a set of
    /// characters to match against one input position.
    CharClass(CharClass),
    /// `^` — matches only at the start of the input.
    AnchorStart,
    /// `$` — matches only at the end of the input.
    AnchorEnd,
    /// `ab` — match each node in sequence.
    Concat(Vec<Ast>),
    /// `a|b` — match any one of the alternatives.
    Alternation(Vec<Ast>),
    /// `a*`, `a+`, `a?`, `a{m,n}` — repeat `node` between `min` and `max`
    /// times (`max = None` means unbounded).
    Repeat { node: Box<Ast>, min: u32, max: Option<u32> },
    /// `(a)` — a capturing or non-capturing group.
    Group(Box<Ast>),
}

/// A refused pattern: what went wrong, and at which character position.
#[derive(Debug, Clone, PartialEq, Eq)]
pub struct ParseError {
    pub message: String,
    pub position: usize,
}

impl View for Ast {
    type V = SpecAst;

    open spec fn view(&self) -> SpecAst {
        ast_view(*self)
    }
}

/// The model of a node.
pub open spec fn ast_view(a: Ast) -> SpecAst
    decreases a,
{
    match a {
        Ast::Empty => SpecAst::Empty,
        Ast::Literal(c) => SpecAst::Literal(c),
        Ast::CharClass(cl) => SpecAst::Class(cl.negated, cl.ranges@),
        Ast::AnchorStart => SpecAst::AnchorStart,
        Ast::AnchorEnd => SpecAst::AnchorEnd,
        Ast::Concat(nodes) => SpecAst::Concat(views(nodes@)),
        Ast::Alternation(nodes) => SpecAst::Alternation(views(nodes@)),
        Ast::Repeat { node, min, max } => SpecAst::Repeat(Box::new(ast_view(*node)), min, max),
        Ast::Group(inner) => SpecAst::Group(Box::new(ast_view(*inner))),
    }
}

/// The views of a sequence of nodes.
pub open spec fn views(nodes: Seq<Ast>) -> Seq<SpecAst>
    decreases nodes,
{
    if nodes.len() == 0 {
        seq![]
    } else {
        views(nodes.drop_last()).push(ast_view(nodes.last()))
    }
}

/// A literal's model holds its character.
pub(crate) proof fn lemma_literal_view(c: char)
    ensures
        ast_view(Ast::Literal(c)) == SpecAst::Literal(c),
{
}

/// `views` keeps the length and views each node in place.
pub(crate) proof fn lemma_views(nodes: Seq<Ast>)
    ensures
        views(nodes).len() == nodes.len(),
        forall|i: int| 0 <= i < nodes.len() ==> #[trigger] views(nodes)[i] == nodes[i]@,
    decreases nodes.len(),
{
    if nodes.len() > 0 {
        lemma_views(nodes.drop_last());
    }
}

/// Appending a node appends its view.
pub(crate) proof fn lemma_views_push(nodes: Seq<Ast>, a: Ast)
    ensures
        views(nodes.push(a)) == views(nodes).push(a@),
{
    assert(nodes.push(a).drop_last() =~= nodes);
}

impl CharClass {
    /// Does `c` fall inside this class, honoring negation?
    pub fn matches(&self, c: char) -> (r: bool)
        ensures
            r == class_accepts(self.negated, self.ranges@, c),
    {
        let mut in_ranges_found = false;
        let mut i: usize = 0;
        while i < self.ranges.len()
            invariant
                i <= self.ranges@.len(),
                in_ranges_found == (exists|k: int|
                    0 <= k < i && self.ranges@[k].0 <= c && c <= self.ranges@[k].1),
            decreases self.ranges.len() - i,
        {
            let (lo, hi) = self.ranges[i];
            if c >= lo && c <= hi {
                in_ranges_found = true;
            }
            i += 1;
        }
        in_ranges_found != self.negated
    }
}

impl ParseError {
    /// The error as one line of text: where parsing stopped, then why.
    pub fn description(&self) -> (t: String)
        ensures
            t@ == "parse error at "@ + dec(self.position as nat) + ": "@ + self.message@,
    {
        let mut out = "parse error at ".to_owned();
        push_decimal(&mut out, self.position as u64);
        out.append(": ");
        out.append(self.message.as_str());
        out
    }
}

impl ParseErrorKind {
    /// This kind's message, as an owned string.
    pub fn message(&self) -> (m: String)
        ensures
            m@ == self.text(),
    {
        match self {
            ParseErrorKind::EndOfPattern => "expected an atom but found end of pattern".to_owned(),
            ParseErrorKind::UnsupportedGroup =>
                "unsupported group syntax: only non-capturing groups (?:...) are supported (no lookaround or inline flags)".to_owned(),
            ParseErrorKind::UnbalancedParen => "unbalanced parenthesis: expected ')'".to_owned(),
            ParseErrorKind::UnexpectedClose => "unexpected ')' with no matching '('".to_owned(),
            ParseErrorKind::DanglingQuantifier => "dangling quantifier with no preceding atom".to_owned(),
            ParseErrorKind::MalformedRepeat => "malformed repeat: expected '}'".to_owned(),
            ParseErrorKind::RepeatOrder => "repeat max must be >= min".to_owned(),
            ParseErrorKind::MissingNumber => "expected a number in repeat bounds".to_owned(),
            ParseErrorKind::InvalidNumber => "repeat bound is not a valid number".to_owned(),
            ParseErrorKind::DanglingEscape => "dangling escape at end of pattern".to_owned(),
            ParseErrorKind::UnbalancedClass => "unbalanced character class: expected ']'".to_owned(),
            ParseErrorKind::ClassDanglingEscape => "dangling escape in character class".to_owned(),
            ParseErrorKind::NegatedShorthandInClass =>
                "negated shorthand classes like \\D are not supported inside a character class".to_owned(),
            ParseErrorKind::ClassRangeUnterminated => "unbalanced character class".to_owned(),
            ParseErrorKind::ClassRangeOrder => "character class range is out of order".to_owned(),
            ParseErrorKind::EmptyClass => "character class must not be empty".to_owned(),
            ParseErrorKind::TrailingInput => "unexpected trailing input".to_owned(),
            ParseErrorKind::PatternTooLong => "pattern is longer than the length cap".to_owned(),
            ParseErrorKind::NestingTooDeep => "groups are nested deeper than the depth cap".to_owned(),
        }
    }
}

/// Does the exec outcome `r` (with the parser left at `pos`) agree with the
/// grammar's outcome `s`?
pub open spec fn agrees(r: Result<Ast, ParseError>, pos: usize, s: Step) -> bool {
    match s {
        Ok((a, j)) => r matches Ok(x) && x@ == a && pos == j,
        Err((j, k)) => r matches Err(e) && e.position == j && e.message@ == k.text(),
    }
}

/// Ranges for the `\d`/`\w`/`\s` shorthand classes and their negations
/// (`\D`/`\W`/`\S`), shared between a top-level escape (`parse_escape`) and
/// an escape inside a `[...]` character class (`parse_char_class`). Returns
/// `(negated, ranges)`, or `None` if `c` isn't a shorthand-class letter.
fn shorthand_class(c: char) -> (r: Option<(bool, Vec<(char, char)>)>)
    ensures
        match shorthand(c) {
            None => r is None,
            Some((n, rs)) => r matches Some((n2, v)) && n2 == n && v@ == rs,
        },
{
    let mut digits: Vec<(char, char)> = Vec::new();
    digits.push(('0', '9'));
    let mut word: Vec<(char, char)> = Vec::new();
    word.push(('a', 'z'));
    word.push(('A', 'Z'));
    word.push(('0', '9'));
    word.push(('_', '_'));
    let mut space: Vec<(char, char)> = Vec::new();
    space.push((' ', ' '));
    space.push(('\t', '\t'));
    space.push(('\n', '\n'));
    space.push(('\r', '\r'));
    proof {
        assert(digits@ =~= digit_ranges());
        assert(word@ =~= word_ranges());
        assert(space@ =~= space_ranges());
    }
    match c {
        'd' => Some((false, digits)),
        'D' => Some((true, digits)),
        'w' => Some((false, word)),
        'W' => Some((true, word)),
        's' => Some((false, space)),
        'S' => Some((true, space)),
        _ => None,
    }
}

/// Recursive-descent parser over a regex pattern's chars, following the
/// grammar in [`crate::grammar`].
struct Parser {
    chars: Vec<char>,
    pos: usize,
}

impl Parser {
    fn new(pattern: &str) -> (p: Self)
        ensures
            p.chars@ == pattern@,
            p.pos == 0,
    {
        let mut chars: Vec<char> = Vec::new();
        for c in it: pattern.chars()
            invariant
                chars@ == it.seq().take(it.index() as int),
        {
            chars.push(c);
        }
        Parser { chars, pos: 0 }
    }

    fn peek(&self) -> (r: Option<char>)
        ensures
            r == at(self.chars@, self.pos as int),
    {
        if self.pos < self.chars.len() {
            Some(self.chars[self.pos])
        } else {
            None
        }
    }

    fn advance(&mut self) -> (r: Option<char>)
        ensures
            r == at(old(self).chars@, old(self).pos as int),
            final(self).chars@ == old(self).chars@,
            final(self).pos == after(old(self).chars@, old(self).pos as int),
    {
        let c = self.peek();
        if self.pos < self.chars.len() {
            self.pos += 1;
        }
        c
    }

    fn error(&self, kind: ParseErrorKind) -> (e: ParseError)
        ensures
            e.position == self.pos,
            e.message@ == kind.text(),
    {
        ParseError { message: kind.message(), position: self.pos }
    }

    fn parse_alternation(&mut self) -> (r: Result<Ast, ParseError>)
        requires
            old(self).pos <= old(self).chars.len(),
        ensures
            final(self).chars@ == old(self).chars@,
            final(self).pos <= final(self).chars.len(),
            agrees(r, final(self).pos, p_alt(old(self).chars@, old(self).pos as int)),
            r is Ok ==> old(self).pos <= final(self).pos,
        decreases old(self).chars.len() - old(self).pos, 4int,
    {
        let ghost s = self.chars@;
        let ghost start = self.pos as int;
        let first = match self.parse_concat() {
            Ok(b) => b,
            Err(e) => return Err(e),
        };
        let mut branches: Vec<Ast> = Vec::new();
        branches.push(first);
        proof {
            lemma_views(branches@);
            assert(views(branches@) =~= seq![first@]);
        }
        while self.peek() == Some('|')
            invariant
                self.chars@ == s,
                s == old(self).chars@,
                start == old(self).pos,
                start <= self.pos <= self.chars.len(),
                branches@.len() >= 1,
                p_alt(s, start) == p_alt_more(s, self.pos as int, views(branches@)),
            decreases self.chars.len() - self.pos,
        {
            let ghost acc = views(branches@);
            let ghost old_branches = branches@;
            self.advance();
            let b = match self.parse_concat() {
                Ok(b) => b,
                Err(e) => return Err(e),
            };
            branches.push(b);
            proof {
                lemma_views_push(old_branches, b);
            }
        }
        proof {
            lemma_views(branches@);
        }
        if branches.len() == 1 {
            let only = branches.pop().unwrap();
            Ok(only)
        } else {
            Ok(Ast::Alternation(branches))
        }
    }

    fn parse_concat(&mut self) -> (r: Result<Ast, ParseError>)
        requires
            old(self).pos <= old(self).chars.len(),
        ensures
            final(self).chars@ == old(self).chars@,
            final(self).pos <= final(self).chars.len(),
            agrees(r, final(self).pos, p_concat(old(self).chars@, old(self).pos as int, seq![])),
            r is Ok ==> old(self).pos <= final(self).pos,
        decreases old(self).chars.len() - old(self).pos, 2int,
    {
        let ghost s = self.chars@;
        let ghost start = self.pos as int;
        let mut nodes: Vec<Ast> = Vec::new();
        proof {
            assert(views(nodes@) =~= Seq::<SpecAst>::empty());
        }
        loop
            invariant
                self.chars@ == s,
                s == old(self).chars@,
                start == old(self).pos,
                start <= self.pos <= self.chars.len(),
                p_concat(s, start, seq![]) == p_concat(s, self.pos as int, views(nodes@)),
            ensures
                concat_stops(s, self.pos as int),
            decreases self.chars.len() - self.pos,
        {
            match self.peek() {
                None => break,
                Some(c) => {
                    if c == '|' || c == ')' {
                        break;
                    }
                },
            }
            let ghost acc = views(nodes@);
            let ghost old_nodes = nodes@;
            let a = match self.parse_quantified_atom() {
                Ok(a) => a,
                Err(e) => return Err(e),
            };
            nodes.push(a);
            proof {
                lemma_views_push(old_nodes, a);
            }
        }
        proof {
            lemma_views(nodes@);
        }
        if nodes.len() == 0 {
            Ok(Ast::Empty)
        } else if nodes.len() == 1 {
            let only = nodes.pop().unwrap();
            Ok(only)
        } else {
            Ok(Ast::Concat(nodes))
        }
    }

    /// An atom optionally followed by a `*`/`+`/`?` quantifier.
    fn parse_quantified_atom(&mut self) -> (r: Result<Ast, ParseError>)
        requires
            old(self).pos <= old(self).chars.len(),
        ensures
            final(self).chars@ == old(self).chars@,
            final(self).pos <= final(self).chars.len(),
            agrees(r, final(self).pos, p_qatom(old(self).chars@, old(self).pos as int)),
            r is Ok ==> old(self).pos < final(self).pos,
        decreases old(self).chars.len() - old(self).pos, 1int,
    {
        let atom = self.parse_atom()?;
        match self.peek() {
            Some('*') => {
                self.advance();
                Ok(Ast::Repeat { node: Box::new(atom), min: 0, max: None })
            },
            Some('+') => {
                self.advance();
                Ok(Ast::Repeat { node: Box::new(atom), min: 1, max: None })
            },
            Some('?') => {
                self.advance();
                Ok(Ast::Repeat { node: Box::new(atom), min: 0, max: Some(1) })
            },
            Some('{') => self.parse_bounded_repeat(atom),
            _ => Ok(atom),
        }
    }

    /// `{m}`, `{m,}`, or `{m,n}` following an already-parsed atom.
    fn parse_bounded_repeat(&mut self, atom: Ast) -> (r: Result<Ast, ParseError>)
        requires
            old(self).pos < old(self).chars.len(),
            old(self).chars@[old(self).pos as int] == '{',
        ensures
            final(self).chars@ == old(self).chars@,
            final(self).pos <= final(self).chars.len(),
            agrees(r, final(self).pos, p_bounded(old(self).chars@, old(self).pos as int, atom@)),
            r is Ok ==> old(self).pos < final(self).pos,
    {
        let ghost s = self.chars@;
        let ghost i = self.pos as int;
        self.advance();  // consume '{'
        let min = self.parse_number()?;
        let max = if self.peek() == Some(',') {
            self.advance();
            if self.peek() == Some('}') {
                None
            } else {
                Some(self.parse_number()?)
            }
        } else {
            Some(min)
        };
        if self.advance() != Some('}') {
            return Err(self.error(ParseErrorKind::MalformedRepeat));
        }
        if let Some(max) = max {
            if max < min {
                return Err(self.error(ParseErrorKind::RepeatOrder));
            }
        }
        Ok(Ast::Repeat { node: Box::new(atom), min, max })
    }

    fn parse_number(&mut self) -> (r: Result<u32, ParseError>)
        requires
            old(self).pos <= old(self).chars.len(),
        ensures
            final(self).chars@ == old(self).chars@,
            final(self).pos <= final(self).chars.len(),
            match p_number(old(self).chars@, old(self).pos as int) {
                Ok((v, j)) => r == Ok::<u32, ParseError>(v) && final(self).pos == j,
                Err((j, k)) => r matches Err(e) && e.position == j && e.message@ == k.text(),
            },
            r is Ok ==> old(self).pos < final(self).pos,
    {
        let ghost s = self.chars@;
        let start = self.pos;
        let mut value: u64 = 0;
        loop
            invariant
                self.chars@ == s,
                s == old(self).chars@,
                start == old(self).pos,
                start <= self.pos <= s.len(),
                digits_end(s, start as int) == digits_end(s, self.pos as int),
                digits_value(s, start as int, self.pos as int) <= u32::MAX ==> value
                    == digits_value(s, start as int, self.pos as int),
                digits_value(s, start as int, self.pos as int) > u32::MAX ==> value > u32::MAX,
            ensures
                digits_end(s, self.pos as int) == self.pos,
            decreases s.len() - self.pos,
        {
            match self.peek() {
                Some(c) => {
                    if c >= '0' && c <= '9' {
                        let ghost before = self.pos as int;
                        let d = (c as u32 - '0' as u32) as u64;
                        if value <= 0xffff_ffff {
                            value = value * 10 + d;
                        }
                        self.advance();
                        assert(digits_value(s, start as int, before + 1) == digits_value(
                            s,
                            start as int,
                            before,
                        ) * 10 + d);
                    } else {
                        break;
                    }
                },
                None => break,
            }
        }
        if self.pos == start {
            return Err(self.error(ParseErrorKind::MissingNumber));
        }
        if value > 0xffff_ffff {
            return Err(self.error(ParseErrorKind::InvalidNumber));
        }
        Ok(value as u32)
    }

    fn parse_atom(&mut self) -> (r: Result<Ast, ParseError>)
        requires
            old(self).pos <= old(self).chars.len(),
        ensures
            final(self).chars@ == old(self).chars@,
            final(self).pos <= final(self).chars.len(),
            agrees(r, final(self).pos, p_atom(old(self).chars@, old(self).pos as int)),
            r is Ok ==> old(self).pos < final(self).pos,
        decreases old(self).chars.len() - old(self).pos, 0int,
    {
        match self.peek() {
            None => Err(self.error(ParseErrorKind::EndOfPattern)),
            Some('(') => {
                self.advance();
                if self.peek() == Some('?') {
                    self.advance();
                    // `(?:...)` — a non-capturing group. This crate never
                    // tracks captures either way, so it parses identically
                    // to `(...)`; anything else after `(?` (lookaround,
                    // inline flags) isn't supported.
                    if self.advance() != Some(':') {
                        return Err(self.error(ParseErrorKind::UnsupportedGroup));
                    }
                }
                self.parse_group_body()
            },
            Some(')') => Err(self.error(ParseErrorKind::UnexpectedClose)),
            Some('*') | Some('+') | Some('?') => Err(
                self.error(ParseErrorKind::DanglingQuantifier),
            ),
            Some('[') => self.parse_char_class(),
            Some('^') => {
                self.advance();
                Ok(Ast::AnchorStart)
            },
            Some('$') => {
                self.advance();
                Ok(Ast::AnchorEnd)
            },
            Some('.') => {
                self.advance();
                // Matches any character except '\n', matching the
                // conventional (non-dotall) behavior of PCRE/JS/Python's
                // `.` — an unconditionally-matches-everything `.` can never
                // be forced to fail a fullmatch, which breaks worst-case
                // generation for any nested-quantifier pattern built on it
                // (e.g. `(.+)+`, a common real-world ReDoS shape).
                let mut ranges: Vec<(char, char)> = Vec::new();
                ranges.push(('\n', '\n'));
                proof {
                    assert(ranges@ =~= seq![('\n', '\n')]);
                }
                Ok(Ast::CharClass(CharClass { negated: true, ranges }))
            },
            Some('\\') => self.parse_escape(),
            Some(c) => {
                self.advance();
                proof {
                    lemma_literal_view(c);
                }
                Ok(Ast::Literal(c))
            },
        }
    }

    /// The inside of a group and its closing `)`.
    fn parse_group_body(&mut self) -> (r: Result<Ast, ParseError>)
        requires
            old(self).pos <= old(self).chars.len(),
        ensures
            final(self).chars@ == old(self).chars@,
            final(self).pos <= final(self).chars.len(),
            agrees(r, final(self).pos, p_group_body(old(self).chars@, old(self).pos as int)),
            r is Ok ==> old(self).pos < final(self).pos,
        decreases old(self).chars.len() - old(self).pos, 5int,
    {
        let inner = self.parse_alternation()?;
        if self.advance() != Some(')') {
            return Err(self.error(ParseErrorKind::UnbalancedParen));
        }
        Ok(Ast::Group(Box::new(inner)))
    }

    /// `\d`, `\w`, `\s` (and negated `\D`, `\W`, `\S`) shorthand classes,
    /// plus `\<metachar>` for an escaped literal like `\.` or `\+`.
    fn parse_escape(&mut self) -> (r: Result<Ast, ParseError>)
        requires
            old(self).pos < old(self).chars.len(),
        ensures
            final(self).chars@ == old(self).chars@,
            final(self).pos <= final(self).chars.len(),
            agrees(r, final(self).pos, p_escape(old(self).chars@, old(self).pos as int)),
            r is Ok ==> old(self).pos < final(self).pos,
    {
        self.advance();  // consume '\'
        let c = match self.advance() {
            Some(c) => c,
            None => {
                return Err(self.error(ParseErrorKind::DanglingEscape));
            },
        };
        match shorthand_class(c) {
            Some((negated, ranges)) => Ok(Ast::CharClass(CharClass { negated, ranges })),
            None => {
                proof {
                    lemma_literal_view(c);
                }
                Ok(Ast::Literal(c))
            },
        }
    }

    /// `[abc]`, `[^abc]`, `[a-z0-9]` — a bracketed set of chars/ranges.
    fn parse_char_class(&mut self) -> (r: Result<Ast, ParseError>)
        requires
            old(self).pos < old(self).chars.len(),
        ensures
            final(self).chars@ == old(self).chars@,
            final(self).pos <= final(self).chars.len(),
            agrees(r, final(self).pos, p_class(old(self).chars@, old(self).pos as int)),
            r is Ok ==> old(self).pos < final(self).pos,
    {
        let ghost s = self.chars@;
        let ghost i = self.pos as int;
        self.advance();  // consume '['
        let negated = if self.peek() == Some('^') {
            self.advance();
            true
        } else {
            false
        };
        let mut ranges: Vec<(char, char)> = Vec::new();
        loop
            invariant_except_break
                p_class(s, i) == p_class_items(s, self.pos as int, negated, ranges@),
            invariant
                self.chars@ == s,
                s == old(self).chars@,
                i == old(self).pos,
                i < self.pos <= s.len(),
            ensures
                i + 1 < self.pos,
                s[self.pos - 1] == ']',
                p_class(s, i) == p_class_items(s, self.pos - 1, negated, ranges@),
            decreases s.len() - self.pos,
        {
            match self.peek() {
                None => return Err(self.error(ParseErrorKind::UnbalancedClass)),
                Some(']') => {
                    self.advance();
                    break;
                },
                Some('\\') => {
                    self.advance();  // consume '\'
                    let escaped = match self.advance() {
                        Some(e) => e,
                        None => {
                            return Err(self.error(ParseErrorKind::ClassDanglingEscape));
                        },
                    };
                    match shorthand_class(escaped) {
                        Some((false, class_ranges)) => {
                            let mut class_ranges = class_ranges;
                            ranges.append(&mut class_ranges);
                        },
                        Some((true, _)) => {
                            return Err(self.error(ParseErrorKind::NegatedShorthandInClass));
                        },
                        // \], \-, \\, \^, or any other escaped literal.
                        None => ranges.push((escaped, escaped)),
                    }
                },
                Some(lo) => {
                    self.advance();
                    if self.peek() == Some('-') && self.peek_second() != Some(']') {
                        self.advance();  // consume '-'
                        let hi = match self.advance() {
                            Some(h) => h,
                            None => {
                                return Err(self.error(ParseErrorKind::ClassRangeUnterminated));
                            },
                        };
                        if hi < lo {
                            return Err(self.error(ParseErrorKind::ClassRangeOrder));
                        }
                        ranges.push((lo, hi));
                    } else {
                        ranges.push((lo, lo));
                    }
                },
            }
        }
        if ranges.len() == 0 {
            return Err(self.error(ParseErrorKind::EmptyClass));
        }
        Ok(Ast::CharClass(CharClass { negated, ranges }))
    }

    /// The character after the next one, if any.
    fn peek_second(&self) -> (r: Option<char>)
        ensures
            r == at(self.chars@, self.pos + 1),
    {
        if self.pos < self.chars.len() && self.pos + 1 < self.chars.len() {
            Some(self.chars[self.pos + 1])
        } else {
            None
        }
    }
}

/// Where `chars` first opens more groups at once than the depth cap
/// allows, scanning as the grammar tokenizes.
fn nesting_excess(chars: &Vec<char>) -> (r: Option<usize>)
    requires
        chars@.len() <= MAX_PATTERN_LEN,
    ensures
        r matches Some(p) ==> too_deep_at(chars@, 0, 0, false) == Some(p as int),
        r is None ==> too_deep_at(chars@, 0, 0, false) is None,
{
    let n = chars.len();
    let mut i: usize = 0;
    let mut depth: usize = 0;
    let mut in_class = false;
    while i < n
        invariant
            n == chars@.len(),
            n <= MAX_PATTERN_LEN,
            depth <= MAX_NESTING,
            too_deep_at(chars@, 0, 0, false) == too_deep_at(chars@, i as int, depth as nat, in_class),
        decreases n - i,
    {
        let c = chars[i];
        if in_class {
            if c == ']' {
                in_class = false;
                i += 1;
            } else if c == '\\' {
                if i + 1 >= n {
                    return None;
                }
                i += 2;
            } else if i + 1 < n && chars[i + 1] == '-' && !(i + 2 < n && chars[i + 2] == ']') {
                if i + 2 >= n {
                    return None;
                }
                i += 3;
            } else {
                i += 1;
            }
        } else if c == '\\' {
            if i + 1 >= n {
                return None;
            }
            i += 2;
        } else if c == '[' {
            in_class = true;
            i = if i + 1 < n && chars[i + 1] == '^' { i + 2 } else { i + 1 };
        } else if c == '(' {
            if depth >= MAX_NESTING {
                return Some(i);
            }
            depth += 1;
            i += 1;
        } else if c == ')' {
            if depth > 0 {
                depth -= 1;
            }
            i += 1;
        } else {
            i += 1;
        }
    }
    None
}

/// Parse a regex pattern into an [`Ast`]. A pattern longer than
/// [`MAX_PATTERN_LEN`] characters, or with more than [`MAX_NESTING`] groups
/// open at once, is refused before it is read.
pub fn parse(pattern: &str) -> (r: Result<Ast, ParseError>)
    ensures
        match spec_parse(pattern@) {
            Ok(a) => r matches Ok(x) && x@ == a,
            Err((j, k)) => r matches Err(e) && e.position == j && e.message@ == k.text(),
        },
        r matches Err(e) ==> e.position <= pattern@.len(),
{
    let mut parser = Parser::new(pattern);
    if parser.chars.len() > MAX_PATTERN_LEN {
        let kind = ParseErrorKind::PatternTooLong;
        return Err(ParseError { message: kind.message(), position: MAX_PATTERN_LEN });
    }
    if let Some(p) = nesting_excess(&parser.chars) {
        proof {
            crate::grammar::lemma_too_deep_pos(pattern@, 0, 0, false);
        }
        let kind = ParseErrorKind::NestingTooDeep;
        return Err(ParseError { message: kind.message(), position: p });
    }
    proof {
        crate::shape::lemma_read_positions(pattern@);
    }
    let ast = parser.parse_alternation()?;
    if parser.pos != parser.chars.len() {
        return Err(parser.error(ParseErrorKind::TrailingInput));
    }
    Ok(ast)
}

/// Are two trees equal node for node?
pub(crate) fn same_ast(a: &Ast, b: &Ast) -> (r: bool)
    ensures
        r == (a@ == b@),
    decreases a, 1int,
{
    match (a, b) {
        (Ast::Empty, Ast::Empty) => true,
        (Ast::Literal(x), Ast::Literal(y)) => {
            proof {
                lemma_literal_view(*x);
                lemma_literal_view(*y);
            }
            *x == *y
        },
        (Ast::CharClass(x), Ast::CharClass(y)) => {
            let r = x.negated == y.negated && same_ranges(&x.ranges, &y.ranges);
            proof {
                if a@ == b@ {
                    assert(x.ranges@ == y.ranges@);
                }
            }
            r
        },
        (Ast::AnchorStart, Ast::AnchorStart) => true,
        (Ast::AnchorEnd, Ast::AnchorEnd) => true,
        (Ast::Concat(xs), Ast::Concat(ys)) => same_asts(xs, ys),
        (Ast::Alternation(xs), Ast::Alternation(ys)) => same_asts(xs, ys),
        (Ast::Repeat { node: x, min: lo1, max: hi1 }, Ast::Repeat { node: y, min: lo2, max: hi2 }) => {
            let same_max = match (hi1, hi2) {
                (None, None) => true,
                (Some(m1), Some(m2)) => *m1 == *m2,
                _ => false,
            };
            *lo1 == *lo2 && same_max && same_ast(x, y)
        },
        (Ast::Group(x), Ast::Group(y)) => same_ast(x, y),
        _ => false,
    }
}

/// Are two node lists equal node for node?
fn same_asts(xs: &Vec<Ast>, ys: &Vec<Ast>) -> (r: bool)
    ensures
        r == (views(xs@) == views(ys@)),
    decreases xs, 0int,
{
    proof {
        lemma_views(xs@);
        lemma_views(ys@);
    }
    if xs.len() != ys.len() {
        return false;
    }
    let mut i: usize = 0;
    while i < xs.len()
        invariant
            i <= xs.len(),
            xs.len() == ys.len(),
            views(xs@).len() == xs.len(),
            views(ys@).len() == ys.len(),
            forall|j: int| 0 <= j < xs.len() ==> #[trigger] views(xs@)[j] == xs@[j]@,
            forall|j: int| 0 <= j < ys.len() ==> #[trigger] views(ys@)[j] == ys@[j]@,
            forall|j: int| 0 <= j < i ==> #[trigger] views(xs@)[j] == views(ys@)[j],
        decreases xs.len() - i,
    {
        if !same_ast(&xs[i], &ys[i]) {
            proof {
                assert(views(xs@)[i as int] != views(ys@)[i as int]);
            }
            return false;
        }
        i += 1;
    }
    proof {
        assert(views(xs@) =~= views(ys@));
    }
    true
}

/// Are two range lists equal range for range?
fn same_ranges(x: &Vec<(char, char)>, y: &Vec<(char, char)>) -> (r: bool)
    ensures
        r == (x@ == y@),
{
    if x.len() != y.len() {
        return false;
    }
    let mut i: usize = 0;
    while i < x.len()
        invariant
            i <= x.len(),
            x.len() == y.len(),
            forall|j: int| 0 <= j < i ==> #[trigger] x@[j] == y@[j],
        decreases x.len() - i,
    {
        if x[i].0 != y[i].0 || x[i].1 != y[i].1 {
            return false;
        }
        i += 1;
    }
    proof {
        assert(x@ =~= y@);
    }
    true
}

impl Clone for Ast {
    /// A copy of the tree, node for node.
    fn clone(&self) -> (r: Self)
        ensures
            r@ == self@,
    {
        copy_ast(self)
    }
}

/// A fresh copy of a tree, node for node.
pub(crate) fn copy_ast(a: &Ast) -> (r: Ast)
    ensures
        r@ == a@,
    decreases a, 1int,
{
    match a {
        Ast::Empty => Ast::Empty,
        Ast::Literal(c) => {
            proof {
                lemma_literal_view(*c);
            }
            Ast::Literal(*c)
        },
        Ast::CharClass(class) => Ast::CharClass(copy_class(class)),
        Ast::AnchorStart => Ast::AnchorStart,
        Ast::AnchorEnd => Ast::AnchorEnd,
        Ast::Concat(nodes) => Ast::Concat(copy_asts(nodes)),
        Ast::Alternation(nodes) => Ast::Alternation(copy_asts(nodes)),
        Ast::Repeat { node, min, max } => Ast::Repeat {
            node: Box::new(copy_ast(node)),
            min: *min,
            max: *max,
        },
        Ast::Group(inner) => Ast::Group(Box::new(copy_ast(inner))),
    }
}

/// A fresh copy of a node list.
pub(crate) fn copy_asts(nodes: &Vec<Ast>) -> (r: Vec<Ast>)
    ensures
        views(r@) == views(nodes@),
    decreases nodes, 0int,
{
    proof {
        lemma_views(nodes@);
    }
    let mut out: Vec<Ast> = Vec::new();
    let mut i: usize = 0;
    while i < nodes.len()
        invariant
            i <= nodes.len(),
            views(nodes@).len() == nodes.len(),
            forall|j: int| 0 <= j < nodes.len() ==> #[trigger] views(nodes@)[j] == nodes@[j]@,
            views(out@) == views(nodes@).take(i as int),
        decreases nodes.len() - i,
    {
        let c = copy_ast(&nodes[i]);
        proof {
            lemma_views_push(out@, c);
            assert(views(nodes@).take(i + 1) =~= views(nodes@).take(i as int).push(c@));
        }
        out.push(c);
        i += 1;
    }
    proof {
        assert(views(nodes@).take(nodes.len() as int) =~= views(nodes@));
    }
    out
}

/// A fresh copy of a class.
fn copy_class(class: &CharClass) -> (r: CharClass)
    ensures
        r.negated == class.negated,
        r.ranges@ == class.ranges@,
{
    let mut ranges: Vec<(char, char)> = Vec::new();
    let mut i: usize = 0;
    while i < class.ranges.len()
        invariant
            i <= class.ranges.len(),
            ranges@ == class.ranges@.take(i as int),
        decreases class.ranges.len() - i,
    {
        ranges.push(class.ranges[i]);
        i += 1;
        proof {
            assert(ranges@ =~= class.ranges@.take(i as int));
        }
    }
    proof {
        assert(class.ranges@.take(class.ranges.len() as int) =~= class.ranges@);
    }
    CharClass { negated: class.negated, ranges }
}

/// Appends `c` to `s`: std's `String::push`, which grows the string by
/// exactly that character.
#[verifier::external_body]
pub(crate) fn push_char(s: &mut String, c: char)
    ensures
        final(s)@ == old(s)@.push(c),
{
    s.push(c);
}

/// A one-character string.
fn single(c: char) -> (s: String)
    ensures
        s@ == seq![c],
{
    let mut s = String::new();
    push_char(&mut s, c);
    proof {
        assert(s@ =~= seq![c]);
    }
    s
}

/// Is `c` one of `.^$*+?()[]{}|\`, which a literal must escape?
fn is_metachar(c: char) -> (r: bool)
    ensures
        r == is_meta(c),
{
    c == '.' || c == '^' || c == '$' || c == '*' || c == '+' || c == '?' || c == '(' || c == ')'
        || c == '[' || c == ']' || c == '{' || c == '}' || c == '|' || c == '\\'
}

/// Render `ast` back into regex source, escaping literals that would
/// otherwise be read as metacharacters. Used by [`crate::rewrite`] to turn a
/// transformed AST back into a pattern string the caller can re-parse and
/// re-run.
///
/// For every tree that [`parse`] returns, parsing the rendering gives the
/// same tree back, as long as the rendering itself is within the length
/// and depth caps (`crate::shape::lemma_parsed_pattern_reads_back`). The
/// rendering can be longer than the pattern it was parsed from: a shorthand
/// such as `\d` is written out as its ranges (`[0-9]`), and some class
/// members gain an escape. So a pattern close to the length cap may render
/// to text over it, which `parse` refuses.
#[verifier::loop_isolation(false)]
pub fn to_pattern(ast: &Ast) -> (s: String)
    ensures
        s@ == render(ast@),
    decreases ast, 1int,
{
    match ast {
        Ast::Empty => {
            let s = String::new();
            s
        },
        Ast::Literal(c) => {
            proof {
                lemma_literal_view(*c);
            }
            render_literal_text(*c)
        },
        Ast::CharClass(class) => render_char_class(class),
        Ast::AnchorStart => single('^'),
        Ast::AnchorEnd => single('$'),
        Ast::Concat(nodes) => {
            let ghost vs = views(nodes@);
            proof {
                lemma_views(nodes@);
            }
            let mut out = String::new();
            let mut i: usize = 0;
            proof {
                assert(vs.take(0) =~= Seq::<SpecAst>::empty());
            }
            while i < nodes.len()
                invariant
                    i <= nodes.len(),
                    out@ == render_members(vs.take(i as int)),
                decreases nodes.len() - i,
            {
                let m = render_concat_member(&nodes[i]);
                proof {
                    assert(vs.take(i + 1).drop_last() =~= vs.take(i as int));
                }
                out.append(m.as_str());
                i += 1;
            }
            proof {
                assert(vs.take(nodes.len() as int) =~= vs);
            }
            out
        },
        Ast::Alternation(branches) => {
            let ghost vs = views(branches@);
            proof {
                lemma_views(branches@);
            }
            let mut out = String::new();
            let mut i: usize = 0;
            proof {
                assert(vs.take(0) =~= Seq::<SpecAst>::empty());
            }
            while i < branches.len()
                invariant
                    i <= branches.len(),
                    out@ == render_branches(vs.take(i as int)),
                decreases branches.len() - i,
            {
                let b = to_pattern(&branches[i]);
                proof {
                    assert(vs.take(i + 1).drop_last() =~= vs.take(i as int));
                    if i == 0 {
                        assert(vs.take(1) =~= seq![vs[0]]);
                    }
                }
                if i > 0 {
                    push_char(&mut out, '|');
                }
                out.append(b.as_str());
                i += 1;
            }
            proof {
                assert(vs.take(branches.len() as int) =~= vs);
            }
            out
        },
        Ast::Group(inner) => {
            let mut out = single('(');
            let body = to_pattern(inner);
            out.append(body.as_str());
            push_char(&mut out, ')');
            out
        },
        Ast::Repeat { node, min, max } => {
            let mut out = render_repeat_operand(node);
            let q = render_quantifier(*min, *max);
            out.append(q.as_str());
            out
        },
    }
}

/// A literal, escaped if it is a metacharacter.
fn render_literal_text(c: char) -> (s: String)
    ensures
        s@ == render_literal(c),
{
    if is_metachar(c) {
        let mut s = single('\\');
        push_char(&mut s, c);
        proof {
            assert(s@ =~= seq!['\\', c]);
        }
        s
    } else {
        single(c)
    }
}

/// A class as `[...]`, or as `.` for the any-but-newline class.
fn render_char_class(class: &CharClass) -> (s: String)
    ensures
        s@ == render_class(class.negated, class.ranges@),
{
    if class.negated && class.ranges.len() == 1 && class.ranges[0].0 == '\n' && class.ranges[0].1
        == '\n' {
        return single('.');
    }
    let mut out = single('[');
    if class.negated {
        push_char(&mut out, '^');
    }
    let ghost head = out@;
    let ghost rs = class.ranges@;
    let mut i: usize = 0;
    proof {
        assert(out@ =~= head + render_members_to(rs, 0));
    }
    while i < class.ranges.len()
        invariant
            i <= rs.len(),
            rs == class.ranges@,
            out@ == head + render_members_to(rs, i as int),
        decreases class.ranges.len() - i,
    {
        let (lo, hi) = class.ranges[i];
        let ghost before = out@;
        if lo != hi {
            push_char(&mut out, lo);
            push_char(&mut out, '-');
            push_char(&mut out, hi);
        } else if lo == ']' || lo == '\\' || lo == '^' || lo == '-' {
            push_char(&mut out, '\\');
            push_char(&mut out, lo);
        } else if i + 1 < class.ranges.len() && class.ranges[i + 1].0 == '-'
            && class.ranges[i + 1].0 != class.ranges[i + 1].1 {
            push_char(&mut out, lo);
            push_char(&mut out, '-');
            push_char(&mut out, lo);
        } else {
            push_char(&mut out, lo);
        }
        proof {
            assert(out@ =~= before + render_member(rs, i as int));
        }
        i += 1;
    }
    push_char(&mut out, ']');
    out
}

/// A concat member needs grouping only if it's an alternation — otherwise
/// it would swallow the rest of the sequence as extra branches.
fn render_concat_member(ast: &Ast) -> (s: String)
    ensures
        s@ == (if ast@ is Alternation {
            seq!['('] + render(ast@) + seq![')']
        } else {
            render(ast@)
        }),
    decreases ast, 2int,
{
    match ast {
        Ast::Alternation(_) => {
            let mut out = single('(');
            let body = to_pattern(ast);
            out.append(body.as_str());
            push_char(&mut out, ')');
            out
        },
        _ => to_pattern(ast),
    }
}

/// A repeat's operand needs grouping if it's an alternation or a multi-node
/// concat — otherwise the quantifier would bind to just the last atom.
fn render_repeat_operand(ast: &Ast) -> (s: String)
    ensures
        s@ == (match ast@ {
            SpecAst::Alternation(_) => seq!['('] + render(ast@) + seq![')'],
            SpecAst::Concat(ns) => if ns.len() > 1 {
                seq!['('] + render(ast@) + seq![')']
            } else {
                render(ast@)
            },
            _ => render(ast@),
        }),
    decreases ast, 2int,
{
    let grouped = match ast {
        Ast::Alternation(_) => true,
        Ast::Concat(nodes) => {
            proof {
                lemma_views(nodes@);
            }
            nodes.len() > 1
        },
        _ => false,
    };
    if grouped {
        let mut out = single('(');
        let body = to_pattern(ast);
        out.append(body.as_str());
        push_char(&mut out, ')');
        out
    } else {
        to_pattern(ast)
    }
}

/// Appends `n` in decimal.
fn push_decimal(out: &mut String, n: u64)
    ensures
        final(out)@ == old(out)@ + dec(n as nat),
    decreases n,
{
    if n >= 10 {
        push_decimal(out, n / 10);
    }
    let d: u32 = (n % 10) as u32;
    let c = char_of_digit(d);
    push_char(out, c);
    proof {
        if n >= 10 {
            assert(dec(n as nat) == dec((n / 10) as nat).push(digit_char((n % 10) as nat)));
        }
    }
}

/// The decimal digit for `d`.
fn char_of_digit(d: u32) -> (c: char)
    requires
        d < 10,
    ensures
        c == digit_char(d as nat),
{
    match d {
        0 => '0',
        1 => '1',
        2 => '2',
        3 => '3',
        4 => '4',
        5 => '5',
        6 => '6',
        7 => '7',
        8 => '8',
        _ => '9',
    }
}

/// A repeat's bounds: `*`, `+`, `?`, `{m}`, `{m,}` or `{m,n}`.
fn render_quantifier(min: u32, max: Option<u32>) -> (s: String)
    ensures
        s@ == render_quant(min, max),
{
    match max {
        None => {
            if min == 0 {
                single('*')
            } else if min == 1 {
                single('+')
            } else {
                let mut out = single('{');
                push_decimal(&mut out, min as u64);
                push_char(&mut out, ',');
                push_char(&mut out, '}');
                proof {
                    assert(out@ =~= seq!['{'] + dec(min as nat) + seq![',', '}']);
                }
                out
            }
        },
        Some(m) => {
            if min == 0 && m == 1 {
                single('?')
            } else if min == m {
                let mut out = single('{');
                push_decimal(&mut out, min as u64);
                push_char(&mut out, '}');
                proof {
                    assert(out@ =~= seq!['{'] + dec(min as nat) + seq!['}']);
                }
                out
            } else {
                let mut out = single('{');
                push_decimal(&mut out, min as u64);
                push_char(&mut out, ',');
                push_decimal(&mut out, m as u64);
                push_char(&mut out, '}');
                proof {
                    assert(out@ =~= seq!['{'] + dec(min as nat) + seq![','] + dec(m as nat) + seq![
                        '}',
                    ]);
                }
                out
            }
        },
    }
}

} // verus!
