//! The regex grammar as spec functions over a character sequence.
//!
//! ```text
//! alternation     := concat ('|' concat)*
//! concat          := quantified_atom*
//! quantified_atom := atom ('*' | '+' | '?' | '{' m (',' n?)? '}')?
//! atom            := literal | '(' ('?:')? alternation ')' | '[' class_item* ']'
//!                  | '^' | '$' | '.' | '\' escape
//! ```
//!
//! Each `p_*` function reads the pattern from a position and yields either
//! the node it recognised with the position just past it, or the position
//! and kind of the first error. `spec_parse` is what [`crate::parser::parse`]
//! computes.

use vstd::prelude::*;
use crate::model::{SpecAst, class_accepts};

verus! {

/// Why a pattern was refused. Each kind has a fixed message.
#[derive(Debug, Clone, Copy, PartialEq, Eq)]
pub enum ParseErrorKind {
    EndOfPattern,
    UnsupportedGroup,
    UnbalancedParen,
    UnexpectedClose,
    DanglingQuantifier,
    MalformedRepeat,
    RepeatOrder,
    MissingNumber,
    InvalidNumber,
    DanglingEscape,
    UnbalancedClass,
    ClassDanglingEscape,
    NegatedShorthandInClass,
    ClassRangeUnterminated,
    ClassRangeOrder,
    EmptyClass,
    TrailingInput,
    PatternTooLong,
    NestingTooDeep,
}

impl ParseErrorKind {
    /// The human-readable message of this kind of error.
    pub open spec fn text(self) -> Seq<char> {
        match self {
            ParseErrorKind::EndOfPattern => "expected an atom but found end of pattern"@,
            ParseErrorKind::UnsupportedGroup =>
                "unsupported group syntax: only non-capturing groups (?:...) are supported (no lookaround or inline flags)"@,
            ParseErrorKind::UnbalancedParen => "unbalanced parenthesis: expected ')'"@,
            ParseErrorKind::UnexpectedClose => "unexpected ')' with no matching '('"@,
            ParseErrorKind::DanglingQuantifier => "dangling quantifier with no preceding atom"@,
            ParseErrorKind::MalformedRepeat => "malformed repeat: expected '}'"@,
            ParseErrorKind::RepeatOrder => "repeat max must be >= min"@,
            ParseErrorKind::MissingNumber => "expected a number in repeat bounds"@,
            ParseErrorKind::InvalidNumber => "repeat bound is not a valid number"@,
            ParseErrorKind::DanglingEscape => "dangling escape at end of pattern"@,
            ParseErrorKind::UnbalancedClass => "unbalanced character class: expected ']'"@,
            ParseErrorKind::ClassDanglingEscape => "dangling escape in character class"@,
            ParseErrorKind::NegatedShorthandInClass =>
                "negated shorthand classes like \\D are not supported inside a character class"@,
            ParseErrorKind::ClassRangeUnterminated => "unbalanced character class"@,
            ParseErrorKind::ClassRangeOrder => "character class range is out of order"@,
            ParseErrorKind::EmptyClass => "character class must not be empty"@,
            ParseErrorKind::TrailingInput => "unexpected trailing input"@,
            ParseErrorKind::PatternTooLong => "pattern is longer than the length cap"@,
            ParseErrorKind::NestingTooDeep => "groups are nested deeper than the depth cap"@,
        }
    }
}

/// The outcome of reading one construct: the node and the position after
/// it, or the error position and kind.
pub type Step = Result<(SpecAst, int), (int, ParseErrorKind)>;

/// The outcome of reading a number: its value and the position after it.
pub type NumStep = Result<(u32, int), (int, ParseErrorKind)>;

pub open spec fn is_digit(c: char) -> bool {
    '0' <= c && c <= '9'
}

/// The `\d` ranges.
pub open spec fn digit_ranges() -> Seq<(char, char)> {
    seq![('0', '9')]
}

/// The `\w` ranges.
pub open spec fn word_ranges() -> Seq<(char, char)> {
    seq![('a', 'z'), ('A', 'Z'), ('0', '9'), ('_', '_')]
}

/// The `\s` ranges.
pub open spec fn space_ranges() -> Seq<(char, char)> {
    seq![(' ', ' '), ('\t', '\t'), ('\n', '\n'), ('\r', '\r')]
}

/// The shorthand class that `\c` names, as `(negated, ranges)`.
pub open spec fn shorthand(c: char) -> Option<(bool, Seq<(char, char)>)> {
    if c == 'd' {
        Some((false, digit_ranges()))
    } else if c == 'D' {
        Some((true, digit_ranges()))
    } else if c == 'w' {
        Some((false, word_ranges()))
    } else if c == 'W' {
        Some((true, word_ranges()))
    } else if c == 's' {
        Some((false, space_ranges()))
    } else if c == 'S' {
        Some((true, space_ranges()))
    } else {
        None
    }
}

/// The node `.` stands for: any character but a newline.
pub open spec fn dot_node() -> SpecAst {
    SpecAst::Class(true, seq![('\n', '\n')])
}

/// `s[i]`, if `i` is inside `s`.
pub open spec fn at(s: Seq<char>, i: int) -> Option<char> {
    if 0 <= i < s.len() {
        Some(s[i])
    } else {
        None
    }
}

/// The position just past one consumed character (or `i` at the end).
pub open spec fn after(s: Seq<char>, i: int) -> int {
    if 0 <= i < s.len() {
        i + 1
    } else {
        i
    }
}

/// The first position at or after `i` that is not a digit.
pub open spec fn digits_end(s: Seq<char>, i: int) -> int
    decreases s.len() - i,
{
    if 0 <= i < s.len() && is_digit(s[i]) {
        digits_end(s, i + 1)
    } else {
        i
    }
}

/// The decimal value of the digits `s[start..end]`.
pub open spec fn digits_value(s: Seq<char>, start: int, end: int) -> nat
    decreases end - start,
{
    if end <= start {
        0
    } else {
        digits_value(s, start, end - 1) * 10 + ((s[end - 1] as int - '0' as int) as nat)
    }
}

/// A run of digits at `i`, as a `u32`.
pub open spec fn p_number(s: Seq<char>, i: int) -> NumStep {
    let e = digits_end(s, i);
    if e == i {
        Err((i, ParseErrorKind::MissingNumber))
    } else if digits_value(s, i, e) > u32::MAX {
        Err((e, ParseErrorKind::InvalidNumber))
    } else {
        Ok((digits_value(s, i, e) as u32, e))
    }
}

/// Closes a bounded repeat whose bounds were read up to position `q`.
pub open spec fn p_bounded_close(s: Seq<char>, q: int, atom: SpecAst, min: u32, max: Option<u32>) -> Step {
    if at(s, q) != Some('}') {
        Err((after(s, q), ParseErrorKind::MalformedRepeat))
    } else if max matches Some(m) && m < min {
        Err((q + 1, ParseErrorKind::RepeatOrder))
    } else {
        Ok((SpecAst::Repeat(Box::new(atom), min, max), q + 1))
    }
}

/// `{m}`, `{m,}` or `{m,n}`, with the `{` at position `i`, after `atom`.
pub open spec fn p_bounded(s: Seq<char>, i: int, atom: SpecAst) -> Step {
    match p_number(s, i + 1) {
        Err(e) => Err(e),
        Ok((min, k)) => if at(s, k) == Some(',') {
            if at(s, k + 1) == Some('}') {
                p_bounded_close(s, k + 1, atom, min, None)
            } else {
                match p_number(s, k + 1) {
                    Err(e) => Err(e),
                    Ok((max, k2)) => p_bounded_close(s, k2, atom, min, Some(max)),
                }
            }
        } else {
            p_bounded_close(s, k, atom, min, Some(min))
        },
    }
}

/// A `\` escape at position `i`: a shorthand class or an escaped literal.
pub open spec fn p_escape(s: Seq<char>, i: int) -> Step {
    if i + 1 >= s.len() {
        Err((i + 1, ParseErrorKind::DanglingEscape))
    } else {
        match shorthand(s[i + 1]) {
            Some((neg, ranges)) => Ok((SpecAst::Class(neg, ranges), i + 2)),
            None => Ok((SpecAst::Literal(s[i + 1]), i + 2)),
        }
    }
}

/// The members of a `[...]` class from position `k` on, after `acc`.
pub open spec fn p_class_items(s: Seq<char>, k: int, negated: bool, acc: Seq<(char, char)>) -> Step
    decreases s.len() - k,
{
    if k < 0 || k >= s.len() {
        Err((k, ParseErrorKind::UnbalancedClass))
    } else if s[k] == ']' {
        if acc.len() == 0 {
            Err((k + 1, ParseErrorKind::EmptyClass))
        } else {
            Ok((SpecAst::Class(negated, acc), k + 1))
        }
    } else if s[k] == '\\' {
        if k + 1 >= s.len() {
            Err((k + 1, ParseErrorKind::ClassDanglingEscape))
        } else {
            match shorthand(s[k + 1]) {
                Some((true, _)) => Err((k + 2, ParseErrorKind::NegatedShorthandInClass)),
                Some((false, ranges)) => p_class_items(s, k + 2, negated, acc + ranges),
                None => p_class_items(s, k + 2, negated, acc.push((s[k + 1], s[k + 1]))),
            }
        }
    } else {
        let lo = s[k];
        if at(s, k + 1) == Some('-') && at(s, k + 2) != Some(']') {
            if k + 2 >= s.len() {
                Err((k + 2, ParseErrorKind::ClassRangeUnterminated))
            } else if s[k + 2] < lo {
                Err((k + 3, ParseErrorKind::ClassRangeOrder))
            } else {
                p_class_items(s, k + 3, negated, acc.push((lo, s[k + 2])))
            }
        } else {
            p_class_items(s, k + 1, negated, acc.push((lo, lo)))
        }
    }
}

/// A `[...]` class with the `[` at position `i`.
pub open spec fn p_class(s: Seq<char>, i: int) -> Step {
    if at(s, i + 1) == Some('^') {
        p_class_items(s, i + 2, true, seq![])
    } else {
        p_class_items(s, i + 1, false, seq![])
    }
}

/// The node a concatenation of `items` stands for.
pub open spec fn concat_node(items: Seq<SpecAst>) -> SpecAst {
    if items.len() == 0 {
        SpecAst::Empty
    } else if items.len() == 1 {
        items[0]
    } else {
        SpecAst::Concat(items)
    }
}

/// The node an alternation of `branches` stands for.
pub open spec fn alt_node(branches: Seq<SpecAst>) -> SpecAst {
    if branches.len() == 1 {
        branches[0]
    } else {
        SpecAst::Alternation(branches)
    }
}

/// An atom at position `i`.
pub open spec fn p_atom(s: Seq<char>, i: int) -> Step
    decreases s.len() - i, 0int,
{
    if i < 0 || i >= s.len() {
        Err((i, ParseErrorKind::EndOfPattern))
    } else {
        let c = s[i];
        if c == '(' {
            if at(s, i + 1) == Some('?') {
                if at(s, i + 2) != Some(':') {
                    Err((after(s, i + 2), ParseErrorKind::UnsupportedGroup))
                } else {
                    p_group_body(s, i + 3)
                }
            } else {
                p_group_body(s, i + 1)
            }
        } else if c == ')' {
            Err((i, ParseErrorKind::UnexpectedClose))
        } else if c == '*' || c == '+' || c == '?' {
            Err((i, ParseErrorKind::DanglingQuantifier))
        } else if c == '[' {
            p_class(s, i)
        } else if c == '^' {
            Ok((SpecAst::AnchorStart, i + 1))
        } else if c == '$' {
            Ok((SpecAst::AnchorEnd, i + 1))
        } else if c == '.' {
            Ok((dot_node(), i + 1))
        } else if c == '\\' {
            p_escape(s, i)
        } else {
            Ok((SpecAst::Literal(c), i + 1))
        }
    }
}

/// The inside of a group starting at `i` (just past `(` or `(?:`), and its `)`.
pub open spec fn p_group_body(s: Seq<char>, i: int) -> Step
    decreases s.len() - i, 5int,
{
    if i > s.len() {
        Err((i, ParseErrorKind::UnbalancedParen))
    } else {
        match p_alt(s, i) {
            Err(e) => Err(e),
            Ok((inner, k)) => if at(s, k) == Some(')') {
                Ok((SpecAst::Group(Box::new(inner)), k + 1))
            } else {
                Err((after(s, k), ParseErrorKind::UnbalancedParen))
            },
        }
    }
}

/// An atom at `i` with an optional quantifier after it.
pub open spec fn p_qatom(s: Seq<char>, i: int) -> Step
    decreases s.len() - i, 1int,
{
    match p_atom(s, i) {
        Err(e) => Err(e),
        Ok((a, j)) => {
            if at(s, j) == Some('*') {
                Ok((SpecAst::Repeat(Box::new(a), 0, None), j + 1))
            } else if at(s, j) == Some('+') {
                Ok((SpecAst::Repeat(Box::new(a), 1, None), j + 1))
            } else if at(s, j) == Some('?') {
                Ok((SpecAst::Repeat(Box::new(a), 0, Some(1)), j + 1))
            } else if at(s, j) == Some('{') {
                p_bounded(s, j, a)
            } else {
                Ok((a, j))
            }
        },
    }
}

/// Does a concatenation stop before position `i`?
pub open spec fn concat_stops(s: Seq<char>, i: int) -> bool {
    at(s, i) matches Some(c) ==> (c == '|' || c == ')')
}

/// The members of a concatenation from position `i` on, after `acc`.
pub open spec fn p_concat(s: Seq<char>, i: int, acc: Seq<SpecAst>) -> Step
    decreases s.len() - i, 2int,
{
    if concat_stops(s, i) {
        Ok((concat_node(acc), i))
    } else {
        match p_qatom(s, i) {
            Err(e) => Err(e),
            Ok((a, j)) => if i < j <= s.len() {
                p_concat(s, j, acc.push(a))
            } else {
                Err((j, ParseErrorKind::TrailingInput))
            },
        }
    }
}

/// The remaining `|`-separated branches from position `i` on, after `acc`.
pub open spec fn p_alt_more(s: Seq<char>, i: int, acc: Seq<SpecAst>) -> Step
    decreases s.len() - i, 3int,
{
    if 0 <= i < s.len() && s[i] == '|' {
        match p_concat(s, i + 1, seq![]) {
            Err(e) => Err(e),
            Ok((b, j)) => if i < j <= s.len() {
                p_alt_more(s, j, acc.push(b))
            } else {
                Err((j, ParseErrorKind::TrailingInput))
            },
        }
    } else {
        Ok((alt_node(acc), i))
    }
}

/// An alternation starting at position `i`.
pub open spec fn p_alt(s: Seq<char>, i: int) -> Step
    decreases s.len() - i, 4int,
{
    match p_concat(s, i, seq![]) {
        Err(e) => Err(e),
        Ok((b, j)) => if i <= j <= s.len() {
            p_alt_more(s, j, seq![b])
        } else {
            Err((j, ParseErrorKind::TrailingInput))
        },
    }
}

/// The most characters a pattern may have. Longer patterns are refused
/// before they are read, so that reading and matching stay within a
/// bounded depth of calls.
pub const MAX_PATTERN_LEN: usize = 1000;

/// The most groups that may be open at once. Deeper nesting is refused
/// before the pattern is read.
pub const MAX_NESTING: usize = 50;

/// Scanning `s` from `i` the way the grammar tokenizes it (escapes, and
/// class members, whose brackets and parentheses are plain characters),
/// with `depth` groups open and inside a class when `in_class`: the
/// position of the first `(` that would open more than [`MAX_NESTING`]
/// groups at once.
pub open spec fn too_deep_at(s: Seq<char>, i: int, depth: nat, in_class: bool) -> Option<int>
    decreases s.len() - i,
{
    if i < 0 || i >= s.len() {
        None
    } else if in_class {
        if s[i] == ']' {
            too_deep_at(s, i + 1, depth, false)
        } else if s[i] == '\\' {
            if i + 1 >= s.len() {
                None
            } else {
                too_deep_at(s, i + 2, depth, true)
            }
        } else if at(s, i + 1) == Some('-') && at(s, i + 2) != Some(']') {
            if i + 2 >= s.len() {
                None
            } else {
                too_deep_at(s, i + 3, depth, true)
            }
        } else {
            too_deep_at(s, i + 1, depth, true)
        }
    } else if s[i] == '\\' {
        if i + 1 >= s.len() {
            None
        } else {
            too_deep_at(s, i + 2, depth, false)
        }
    } else if s[i] == '[' {
        too_deep_at(
            s,
            if at(s, i + 1) == Some('^') {
                i + 2
            } else {
                i + 1
            },
            depth,
            true,
        )
    } else if s[i] == '(' {
        if depth >= MAX_NESTING {
            Some(i)
        } else {
            too_deep_at(s, i + 1, depth + 1, false)
        }
    } else if s[i] == ')' {
        too_deep_at(
            s,
            i + 1,
            if depth > 0 {
                (depth - 1) as nat
            } else {
                0
            },
            false,
        )
    } else {
        too_deep_at(s, i + 1, depth, false)
    }
}

/// A position where nesting goes too deep lies inside the pattern.
pub proof fn lemma_too_deep_pos(s: Seq<char>, i: int, depth: nat, in_class: bool)
    ensures
        too_deep_at(s, i, depth, in_class) matches Some(p) ==> 0 <= p < s.len(),
    decreases s.len() - i,
{
    if 0 <= i < s.len() {
        if in_class {
            if s[i] == ']' {
                lemma_too_deep_pos(s, i + 1, depth, false);
            } else if s[i] == '\\' {
                if i + 1 < s.len() {
                    lemma_too_deep_pos(s, i + 2, depth, true);
                }
            } else if at(s, i + 1) == Some('-') && at(s, i + 2) != Some(']') {
                if i + 2 < s.len() {
                    lemma_too_deep_pos(s, i + 3, depth, true);
                }
            } else {
                lemma_too_deep_pos(s, i + 1, depth, true);
            }
        } else if s[i] == '\\' {
            if i + 1 < s.len() {
                lemma_too_deep_pos(s, i + 2, depth, false);
            }
        } else if s[i] == '[' {
            if at(s, i + 1) == Some('^') {
                lemma_too_deep_pos(s, i + 2, depth, true);
            } else {
                lemma_too_deep_pos(s, i + 1, depth, true);
            }
        } else if s[i] == '(' {
            lemma_too_deep_pos(s, i + 1, depth + 1, false);
        } else if s[i] == ')' {
            lemma_too_deep_pos(s, i + 1, if depth > 0 { (depth - 1) as nat } else { 0 }, false);
        } else {
            lemma_too_deep_pos(s, i + 1, depth, false);
        }
    }
}

/// Is `s` within the length and depth caps?
pub open spec fn within_caps(s: Seq<char>) -> bool {
    s.len() <= MAX_PATTERN_LEN && too_deep_at(s, 0, 0, false) is None
}

/// What the grammar reads from the whole of `s`.
pub open spec fn read_pattern(s: Seq<char>) -> Result<SpecAst, (int, ParseErrorKind)> {
    match p_alt(s, 0) {
        Err(e) => Err(e),
        Ok((a, j)) => if j == s.len() {
            Ok(a)
        } else {
            Err((j, ParseErrorKind::TrailingInput))
        },
    }
}

/// What parsing the whole pattern `s` yields: a pattern over the length
/// cap is refused at the cap, one nested too deeply at the `(` that goes
/// too deep, and any other is read by the grammar.
pub open spec fn spec_parse(s: Seq<char>) -> Result<SpecAst, (int, ParseErrorKind)> {
    if s.len() > MAX_PATTERN_LEN {
        Err((MAX_PATTERN_LEN as int, ParseErrorKind::PatternTooLong))
    } else if let Some(p) = too_deep_at(s, 0, 0, false) {
        Err((p, ParseErrorKind::NestingTooDeep))
    } else {
        read_pattern(s)
    }
}

// ---------------------------------------------------------------------
// Rendering a model back to pattern text.
// ---------------------------------------------------------------------

/// The characters that a literal must escape to be read back as itself.
pub open spec fn is_meta(c: char) -> bool {
    c == '.' || c == '^' || c == '$' || c == '*' || c == '+' || c == '?' || c == '(' || c == ')'
        || c == '[' || c == ']' || c == '{' || c == '}' || c == '|' || c == '\\'
}

/// A literal as pattern text.
pub open spec fn render_literal(c: char) -> Seq<char> {
    if is_meta(c) {
        seq!['\\', c]
    } else {
        seq![c]
    }
}

/// Is this the class that `.` stands for?
pub open spec fn is_dot(negated: bool, ranges: Seq<(char, char)>) -> bool {
    negated && ranges.len() == 1 && ranges[0] == ('\n', '\n')
}

/// Must a class member be escaped to be read back as itself?
pub open spec fn is_class_special(c: char) -> bool {
    c == ']' || c == '\\' || c == '^' || c == '-'
}

/// Is member `k` a range whose low end is `-`?
pub open spec fn dash_range_at(ranges: Seq<(char, char)>, k: int) -> bool {
    0 <= k < ranges.len() && ranges[k].0 == '-' && ranges[k].0 != ranges[k].1
}

/// Member `k` of a class as pattern text: a range as `lo-hi`; a single
/// character escaped if the class syntax gives it a meaning, written as
/// the one-character range `c-c` if a range starting with `-` follows it
/// (so that the `-` is not read as its own range), and as itself otherwise.
pub open spec fn render_member(ranges: Seq<(char, char)>, k: int) -> Seq<char> {
    let (lo, hi) = ranges[k];
    if lo != hi {
        seq![lo, '-', hi]
    } else if is_class_special(lo) {
        seq!['\\', lo]
    } else if dash_range_at(ranges, k + 1) {
        seq![lo, '-', lo]
    } else {
        seq![lo]
    }
}

/// The first `k` members of a class as pattern text.
pub open spec fn render_members_to(ranges: Seq<(char, char)>, k: int) -> Seq<char>
    decreases k,
{
    if k <= 0 {
        seq![]
    } else {
        render_members_to(ranges, k - 1) + render_member(ranges, k - 1)
    }
}

/// The members of a class as pattern text.
pub open spec fn render_items(ranges: Seq<(char, char)>) -> Seq<char> {
    render_members_to(ranges, ranges.len() as int)
}

/// A class as pattern text.
pub open spec fn render_class(negated: bool, ranges: Seq<(char, char)>) -> Seq<char> {
    if is_dot(negated, ranges) {
        seq!['.']
    } else {
        seq!['['] + (if negated {
            seq!['^']
        } else {
            seq![]
        }) + render_items(ranges) + seq![']']
    }
}

/// The decimal digit for `d < 10`.
pub open spec fn digit_char(d: nat) -> char {
    (d + 48) as char
}

/// `n` in decimal.
pub open spec fn dec(n: nat) -> Seq<char>
    decreases n,
{
    if n < 10 {
        seq![digit_char(n)]
    } else {
        dec(n / 10).push(digit_char(n % 10))
    }
}

/// A repeat's bounds as pattern text.
pub open spec fn render_quant(min: u32, max: Option<u32>) -> Seq<char> {
    match max {
        None => if min == 0 {
            seq!['*']
        } else if min == 1 {
            seq!['+']
        } else {
            seq!['{'] + dec(min as nat) + seq![',', '}']
        },
        Some(m) => if min == 0 && m == 1 {
            seq!['?']
        } else if min == m {
            seq!['{'] + dec(min as nat) + seq!['}']
        } else {
            seq!['{'] + dec(min as nat) + seq![','] + dec(m as nat) + seq!['}']
        },
    }
}

/// A node as pattern text.
pub open spec fn render(a: SpecAst) -> Seq<char>
    decreases a,
{
    match a {
        SpecAst::Empty => seq![],
        SpecAst::Literal(c) => render_literal(c),
        SpecAst::Class(n, rs) => render_class(n, rs),
        SpecAst::AnchorStart => seq!['^'],
        SpecAst::AnchorEnd => seq!['$'],
        SpecAst::Concat(ns) => render_members(ns),
        SpecAst::Alternation(bs) => render_branches(bs),
        SpecAst::Group(x) => seq!['('] + render(*x) + seq![')'],
        SpecAst::Repeat(x, mn, mx) => (match *x {
            SpecAst::Alternation(_) => seq!['('] + render(*x) + seq![')'],
            SpecAst::Concat(ns) => if ns.len() > 1 {
                seq!['('] + render(*x) + seq![')']
            } else {
                render(*x)
            },
            _ => render(*x),
        }) + render_quant(mn, mx),
    }
}

/// The members of a concatenation as pattern text; an alternation member is
/// wrapped in a group so it does not swallow its neighbours.
pub open spec fn render_members(ns: Seq<SpecAst>) -> Seq<char>
    decreases ns,
{
    if ns.len() == 0 {
        seq![]
    } else {
        render_members(ns.drop_last()) + (if ns.last() is Alternation {
            seq!['('] + render(ns.last()) + seq![')']
        } else {
            render(ns.last())
        })
    }
}

/// The branches of an alternation, joined by `|`.
pub open spec fn render_branches(bs: Seq<SpecAst>) -> Seq<char>
    decreases bs,
{
    if bs.len() == 0 {
        seq![]
    } else if bs.len() == 1 {
        render(bs[0])
    } else {
        render_branches(bs.drop_last()) + seq!['|'] + render(bs.last())
    }
}

// ---------------------------------------------------------------------
// The shapes the grammar produces.
// ---------------------------------------------------------------------

/// A class whose members read back as the same ranges.
pub open spec fn class_ok(negated: bool, rs: Seq<(char, char)>) -> bool {
    is_dot(negated, rs) || (rs.len() >= 1 && forall|k: int|
        0 <= k < rs.len() ==> #[trigger] item_ok(negated, rs, k))
}

/// Member `k` of a class reads back as itself: its bounds are in order,
/// and a range's bounds are not characters that the class syntax reads
/// otherwise there.
pub open spec fn item_ok(negated: bool, rs: Seq<(char, char)>, k: int) -> bool {
    let (lo, hi) = rs[k];
    &&& lo <= hi
    &&& lo != hi ==> (lo != ']' && lo != '\\' && hi != ']' && !(k == 0 && !negated && lo == '^'))
}

/// `a` is in the shape of an alternation the grammar reads.
pub open spec fn wf_alt(a: SpecAst) -> bool
    decreases a, 3int,
{
    match a {
        SpecAst::Alternation(bs) => bs.len() >= 2 && all_wf_concat(bs),
        _ => wf_concat(a),
    }
}

/// Every element of `bs` is in the shape of a concatenation.
pub open spec fn all_wf_concat(bs: Seq<SpecAst>) -> bool
    decreases bs, 0int,
{
    if bs.len() == 0 {
        true
    } else {
        all_wf_concat(bs.drop_last()) && wf_concat(bs.last())
    }
}

/// `a` is in the shape of a concatenation the grammar reads.
pub open spec fn wf_concat(a: SpecAst) -> bool
    decreases a, 2int,
{
    match a {
        SpecAst::Empty => true,
        SpecAst::Concat(ns) => ns.len() >= 2 && all_wf_qatom(ns),
        _ => wf_qatom(a),
    }
}

/// Every element of `ns` is in the shape of a quantified atom.
pub open spec fn all_wf_qatom(ns: Seq<SpecAst>) -> bool
    decreases ns, 0int,
{
    if ns.len() == 0 {
        true
    } else {
        all_wf_qatom(ns.drop_last()) && wf_qatom(ns.last())
    }
}

/// `a` is in the shape of a quantified atom the grammar reads.
pub open spec fn wf_qatom(a: SpecAst) -> bool
    decreases a, 1int,
{
    match a {
        SpecAst::Repeat(x, mn, mx) => wf_atom(*x) && (mx matches Some(m) ==> mn <= m),
        _ => wf_atom(a),
    }
}

/// `a` is in the shape of an atom the grammar reads.
pub open spec fn wf_atom(a: SpecAst) -> bool
    decreases a, 0int,
{
    match a {
        SpecAst::Literal(_) => true,
        SpecAst::Class(n, rs) => class_ok(n, rs),
        SpecAst::AnchorStart => true,
        SpecAst::AnchorEnd => true,
        SpecAst::Group(x) => wf_alt(*x),
        _ => false,
    }
}


/// Is `c` a word character: an ASCII letter, an ASCII digit or `_`?
pub open spec fn is_word_char(c: char) -> bool {
    ('a' <= c && c <= 'z') || ('A' <= c && c <= 'Z') || is_digit(c) || c == '_'
}

/// Is `c` one of the whitespace characters space, tab, newline and
/// carriage return?
pub open spec fn is_space_char(c: char) -> bool {
    c == ' ' || c == '\t' || c == '\n' || c == '\r'
}

/// What each shorthand escape accepts: `\d` a digit, `\w` a word
/// character, `\s` a whitespace character, and the upper-case `\D`,
/// `\W`, `\S` exactly the characters that their lower-case forms reject.
/// The escape reads as a class of two characters.
pub proof fn lemma_escape_classes(s: Seq<char>, i: int, c: char)
    requires
        0 <= i,
        i + 1 < s.len(),
        s[i] == '\\',
    ensures
        s[i + 1] == 'd' ==> (p_escape(s, i) matches Ok((SpecAst::Class(n, r), j)) && j == i + 2
            && class_accepts(n, r, c) == is_digit(c)),
        s[i + 1] == 'D' ==> (p_escape(s, i) matches Ok((SpecAst::Class(n, r), j)) && j == i + 2
            && class_accepts(n, r, c) == !is_digit(c)),
        s[i + 1] == 'w' ==> (p_escape(s, i) matches Ok((SpecAst::Class(n, r), j)) && j == i + 2
            && class_accepts(n, r, c) == is_word_char(c)),
        s[i + 1] == 'W' ==> (p_escape(s, i) matches Ok((SpecAst::Class(n, r), j)) && j == i + 2
            && class_accepts(n, r, c) == !is_word_char(c)),
        s[i + 1] == 's' ==> (p_escape(s, i) matches Ok((SpecAst::Class(n, r), j)) && j == i + 2
            && class_accepts(n, r, c) == is_space_char(c)),
        s[i + 1] == 'S' ==> (p_escape(s, i) matches Ok((SpecAst::Class(n, r), j)) && j == i + 2
            && class_accepts(n, r, c) == !is_space_char(c)),
{
    lemma_shorthand_ranges(c);
}

/// A `\` before any other character reads that character as a literal,
/// whatever it means elsewhere (`\.`, `\+`, `\\`).
pub proof fn lemma_escaped_literal(s: Seq<char>, i: int)
    requires
        0 <= i,
        i + 1 < s.len(),
        s[i] == '\\',
        !(s[i + 1] == 'd' || s[i + 1] == 'D' || s[i + 1] == 'w' || s[i + 1] == 'W' || s[i + 1]
            == 's' || s[i + 1] == 'S'),
    ensures
        p_atom(s, i) == Ok::<(SpecAst, int), (int, ParseErrorKind)>((SpecAst::Literal(s[i + 1]), i + 2)),
{
}

/// The `.` atom is a class of one character that accepts every character
/// but a newline.
pub proof fn lemma_dot_class(s: Seq<char>, i: int, c: char)
    requires
        0 <= i < s.len(),
        s[i] == '.',
    ensures
        p_atom(s, i) matches Ok((SpecAst::Class(n, r), j)) && j == i + 1 && class_accepts(n, r, c)
            == (c != '\n'),
{
    let r = seq![('\n', '\n')];
    assert(r[0] == ('\n', '\n'));
    if c == '\n' {
        assert(r[0].0 <= c && c <= r[0].1);
    }
}

/// The shorthand ranges hold exactly the characters their names say.
proof fn lemma_shorthand_ranges(c: char)
    ensures
        crate::model::in_ranges(digit_ranges(), c) == is_digit(c),
        crate::model::in_ranges(word_ranges(), c) == is_word_char(c),
        crate::model::in_ranges(space_ranges(), c) == is_space_char(c),
{
    let d = digit_ranges();
    let w = word_ranges();
    let sp = space_ranges();
    assert(d[0] == ('0', '9'));
    assert(w[0] == ('a', 'z') && w[1] == ('A', 'Z') && w[2] == ('0', '9') && w[3] == ('_', '_'));
    assert(sp[0] == (' ', ' ') && sp[1] == ('\t', '\t') && sp[2] == ('\n', '\n') && sp[3] == (
    '\r', '\r'));
    if is_digit(c) {
        assert(d[0].0 <= c && c <= d[0].1);
    }
    if is_word_char(c) {
        if 'a' <= c && c <= 'z' {
            assert(w[0].0 <= c && c <= w[0].1);
        } else if 'A' <= c && c <= 'Z' {
            assert(w[1].0 <= c && c <= w[1].1);
        } else if is_digit(c) {
            assert(w[2].0 <= c && c <= w[2].1);
        } else {
            assert(w[3].0 <= c && c <= w[3].1);
        }
    }
    if is_space_char(c) {
        if c == ' ' {
            assert(sp[0].0 <= c && c <= sp[0].1);
        } else if c == '\t' {
            assert(sp[1].0 <= c && c <= sp[1].1);
        } else if c == '\n' {
            assert(sp[2].0 <= c && c <= sp[2].1);
        } else {
            assert(sp[3].0 <= c && c <= sp[3].1);
        }
    }
}

} // verus!
