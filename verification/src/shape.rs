//! What the parser builds: every tree it returns has the shape of the
//! grammar (alternations of two or more concatenations, concatenations of
//! two or more quantified atoms, groups around alternations, quantifiers
//! on atoms with ordered bounds, classes whose members read back as
//! themselves). So a parsed pattern reads back from its own rendering as
//! the same tree.

use vstd::prelude::*;
use crate::model::{SpecAst, child_index};
use crate::grammar::{
    ParseErrorKind, at, class_ok, item_ok, concat_stops, digits_end, read_pattern, within_caps, p_alt, p_alt_more, p_atom, p_class_items, p_concat,
    p_group_body, p_qatom, render, shorthand, spec_parse, wf_alt, wf_atom, wf_concat, wf_qatom,
};
use crate::roundtrip::{lemma_all_wf_concat, lemma_all_wf_qatom, lemma_parse_render};

verus! {

/// `a` has the shape of an alternation the grammar reads.
pub open spec fn sh_alt(a: SpecAst) -> bool
    decreases a, 3int,
{
    match a {
        SpecAst::Alternation(bs) => bs.len() >= 2 && forall|k: int|
            #[trigger] child_index(k) && 0 <= k < bs.len() ==> sh_concat(bs[k]),
        _ => sh_concat(a),
    }
}

/// `a` has the shape of a concatenation the grammar reads.
pub open spec fn sh_concat(a: SpecAst) -> bool
    decreases a, 2int,
{
    match a {
        SpecAst::Empty => true,
        SpecAst::Concat(ns) => ns.len() >= 2 && forall|k: int|
            #[trigger] child_index(k) && 0 <= k < ns.len() ==> sh_qatom(ns[k]),
        _ => sh_qatom(a),
    }
}

/// `a` has the shape of a quantified atom the grammar reads.
pub open spec fn sh_qatom(a: SpecAst) -> bool
    decreases a, 1int,
{
    match a {
        SpecAst::Repeat(x, mn, mx) => sh_atom(*x) && (mx matches Some(m) ==> mn <= m),
        _ => sh_atom(a),
    }
}

/// `a` has the shape of an atom the grammar reads.
pub open spec fn sh_atom(a: SpecAst) -> bool
    decreases a, 0int,
{
    match a {
        SpecAst::Literal(_) => true,
        SpecAst::Class(n, rs) => class_ok(n, rs),
        SpecAst::AnchorStart => true,
        SpecAst::AnchorEnd => true,
        SpecAst::Group(x) => sh_alt(*x),
        _ => false,
    }
}

/// Every one of `ns` is a quantified atom.
pub open spec fn all_sh_qatom(ns: Seq<SpecAst>) -> bool {
    forall|k: int| #[trigger] child_index(k) && 0 <= k < ns.len() ==> sh_qatom(ns[k])
}

/// Every one of `bs` is a concatenation.
pub open spec fn all_sh_concat(bs: Seq<SpecAst>) -> bool {
    forall|k: int| #[trigger] child_index(k) && 0 <= k < bs.len() ==> sh_concat(bs[k])
}

/// The members of a shorthand class are ranges in order, none of whose
/// bounds the class syntax reads otherwise.
proof fn lemma_shorthand_members(c: char)
    ensures
        shorthand(c) matches Some((_, r)) ==> r.len() >= 1 && forall|m: int|
            0 <= m < r.len() ==> #[trigger] member_plain(r[m]),
{
    assert(member_plain(('0', '9')));
    assert(member_plain(('a', 'z')) && member_plain(('A', 'Z')) && member_plain(('_', '_')));
    assert(member_plain((' ', ' ')) && member_plain(('\t', '\t')) && member_plain(('\n', '\n'))
        && member_plain(('\r', '\r')));
    let w = crate::grammar::word_ranges();
    let sp = crate::grammar::space_ranges();
    assert(w[0] == ('a', 'z') && w[1] == ('A', 'Z') && w[2] == ('0', '9') && w[3] == ('_', '_'));
    assert(sp[0] == (' ', ' ') && sp[1] == ('\t', '\t') && sp[2] == ('\n', '\n') && sp[3] == (
        '\r',
        '\r',
    ));
    assert(crate::grammar::digit_ranges()[0] == ('0', '9'));
}

/// A range in order whose bounds the class syntax reads as themselves,
/// wherever it stands.
spec fn member_plain(r: (char, char)) -> bool {
    r.0 <= r.1 && (r.0 != r.1 ==> r.0 != ']' && r.0 != '\\' && r.0 != '^' && r.1 != ']')
}

/// Every class the parser reads has members that render back as
/// themselves.
proof fn lemma_class_items_ok(s: Seq<char>, k: int, negated: bool, acc: Seq<(char, char)>)
    requires
        forall|m: int| 0 <= m < acc.len() ==> #[trigger] item_ok(negated, acc, m),
        acc.len() == 0 && !negated ==> at(s, k) != Some('^'),
    ensures
        p_class_items(s, k, negated, acc) matches Ok((a, _)) ==> (a matches SpecAst::Class(n, rs)
            && class_ok(n, rs)),
    decreases s.len() - k,
{
    if 0 <= k < s.len() && s[k] != ']' {
        if s[k] == '\\' {
            if k + 1 < s.len() {
                lemma_shorthand_members(s[k + 1]);
                match shorthand(s[k + 1]) {
                    Some((true, _)) => {},
                    Some((false, ranges)) => {
                        let next = acc + ranges;
                        assert forall|m: int| 0 <= m < next.len() implies #[trigger] item_ok(
                            negated,
                            next,
                            m,
                        ) by {
                            if m < acc.len() {
                                assert(item_ok(negated, acc, m));
                                assert(next[m] == acc[m]);
                            } else {
                                assert(next[m] == ranges[m - acc.len()]);
                                assert(member_plain(ranges[m - acc.len()]));
                            }
                        }
                        lemma_class_items_ok(s, k + 2, negated, next);
                    },
                    None => {
                        let next = acc.push((s[k + 1], s[k + 1]));
                        assert forall|m: int| 0 <= m < next.len() implies #[trigger] item_ok(
                            negated,
                            next,
                            m,
                        ) by {
                            if m < acc.len() {
                                assert(item_ok(negated, acc, m));
                                assert(next[m] == acc[m]);
                            }
                        }
                        lemma_class_items_ok(s, k + 2, negated, next);
                    },
                }
            }
        } else {
            let lo = s[k];
            if at(s, k + 1) == Some('-') && at(s, k + 2) != Some(']') {
                if k + 2 < s.len() && s[k + 2] >= lo {
                    let next = acc.push((lo, s[k + 2]));
                    assert forall|m: int| 0 <= m < next.len() implies #[trigger] item_ok(
                        negated,
                        next,
                        m,
                    ) by {
                        if m < acc.len() {
                            assert(item_ok(negated, acc, m));
                            assert(next[m] == acc[m]);
                        }
                    }
                    lemma_class_items_ok(s, k + 3, negated, next);
                }
            } else {
                let next = acc.push((lo, lo));
                assert forall|m: int| 0 <= m < next.len() implies #[trigger] item_ok(
                    negated,
                    next,
                    m,
                ) by {
                    if m < acc.len() {
                        assert(item_ok(negated, acc, m));
                        assert(next[m] == acc[m]);
                    }
                }
                lemma_class_items_ok(s, k + 1, negated, next);
            }
        }
    }
}

/// What an atom reads is an atom.
proof fn lemma_atom_shape(s: Seq<char>, i: int)
    ensures
        p_atom(s, i) matches Ok((a, _)) ==> sh_atom(a),
    decreases s.len() - i, 0int,
{
    if 0 <= i < s.len() {
        let c = s[i];
        if c == '(' {
            if at(s, i + 1) == Some('?') {
                if at(s, i + 2) == Some(':') {
                    lemma_group_shape(s, i + 3);
                }
            } else {
                lemma_group_shape(s, i + 1);
            }
        } else if c == '[' {
            if at(s, i + 1) == Some('^') {
                lemma_class_items_ok(s, i + 2, true, seq![]);
            } else {
                lemma_class_items_ok(s, i + 1, false, seq![]);
            }
        } else if c == '\\' {
            if i + 1 < s.len() {
                lemma_shorthand_members(s[i + 1]);
                if let Some((n, r)) = shorthand(s[i + 1]) {
                    assert forall|m: int| 0 <= m < r.len() implies #[trigger] item_ok(n, r, m) by {
                        assert(member_plain(r[m]));
                    }
                }
            }
        } else if c == '.' {
            assert(crate::grammar::is_dot(true, seq![('\n', '\n')]));
        }
    }
}

/// What a group reads is a group around an alternation.
proof fn lemma_group_shape(s: Seq<char>, i: int)
    requires
        i <= s.len(),
    ensures
        p_group_body(s, i) matches Ok((a, _)) ==> sh_atom(a),
    decreases s.len() - i, 5int,
{
    lemma_alt_shape(s, i);
}

/// What a quantified atom reads is a quantified atom.
proof fn lemma_qatom_shape(s: Seq<char>, i: int)
    ensures
        p_qatom(s, i) matches Ok((a, _)) ==> sh_qatom(a),
    decreases s.len() - i, 1int,
{
    lemma_atom_shape(s, i);
}

/// What a concatenation reads, after members that are quantified atoms,
/// is a concatenation.
proof fn lemma_concat_shape(s: Seq<char>, i: int, acc: Seq<SpecAst>)
    requires
        all_sh_qatom(acc),
    ensures
        p_concat(s, i, acc) matches Ok((a, _)) ==> sh_concat(a),
    decreases s.len() - i, 2int,
{
    if concat_stops(s, i) {
        if acc.len() == 1 {
            assert(child_index(0));
            assert(sh_qatom(acc[0]));
            assert(!(acc[0] is Empty) && !(acc[0] is Concat));
        }
    } else {
        lemma_qatom_shape(s, i);
        if let Ok((x, j)) = p_qatom(s, i) {
            if i < j <= s.len() {
                let next = acc.push(x);
                assert forall|k: int| #[trigger] child_index(k) && 0 <= k < next.len() implies sh_qatom(
                    next[k],
                ) by {
                    if k < acc.len() {
                        assert(next[k] == acc[k]);
                    }
                }
                lemma_concat_shape(s, j, next);
            }
        }
    }
}

/// What the rest of an alternation reads, after branches that are
/// concatenations, is an alternation.
proof fn lemma_alt_more_shape(s: Seq<char>, i: int, acc: Seq<SpecAst>)
    requires
        acc.len() >= 1,
        all_sh_concat(acc),
    ensures
        p_alt_more(s, i, acc) matches Ok((a, _)) ==> sh_alt(a),
    decreases s.len() - i, 3int,
{
    if 0 <= i < s.len() && s[i] == '|' {
        lemma_concat_shape(s, i + 1, seq![]);
        if let Ok((b, j)) = p_concat(s, i + 1, seq![]) {
            if i < j <= s.len() {
                let next = acc.push(b);
                assert forall|k: int| #[trigger] child_index(k) && 0 <= k < next.len() implies sh_concat(
                    next[k],
                ) by {
                    if k < acc.len() {
                        assert(next[k] == acc[k]);
                    }
                }
                lemma_alt_more_shape(s, j, next);
            }
        }
    } else {
        if acc.len() == 1 {
            assert(child_index(0));
            assert(sh_concat(acc[0]));
            if let SpecAst::Alternation(_) = acc[0] {
                assert(false);
            }
        }
    }
}

/// What an alternation reads is an alternation.
proof fn lemma_alt_shape(s: Seq<char>, i: int)
    ensures
        p_alt(s, i) matches Ok((a, _)) ==> sh_alt(a),
    decreases s.len() - i, 4int,
{
    lemma_concat_shape(s, i, seq![]);
    if let Ok((b, j)) = p_concat(s, i, seq![]) {
        if i <= j <= s.len() {
            assert forall|k: int| #[trigger] child_index(k) && 0 <= k < seq![b].len() implies sh_concat(
                seq![b][k],
            ) by {}
            lemma_alt_more_shape(s, j, seq![b]);
        }
    }
}

/// The digits at `i` end inside the pattern.
proof fn lemma_digits_end_pos(s: Seq<char>, i: int)
    requires
        0 <= i <= s.len(),
    ensures
        i <= digits_end(s, i) <= s.len(),
    decreases s.len() - i,
{
    if i < s.len() && crate::grammar::is_digit(s[i]) {
        lemma_digits_end_pos(s, i + 1);
    }
}

/// Reading the members of a class stops inside the pattern.
proof fn lemma_class_items_pos(s: Seq<char>, k: int, negated: bool, acc: Seq<(char, char)>)
    requires
        0 <= k <= s.len(),
    ensures
        p_class_items(s, k, negated, acc) matches Ok((_, j)) ==> k < j <= s.len(),
        p_class_items(s, k, negated, acc) matches Err((e, _)) ==> e <= s.len(),
    decreases s.len() - k,
{
    if k < s.len() && s[k] != ']' {
        if s[k] == '\\' {
            if k + 1 < s.len() {
                match shorthand(s[k + 1]) {
                    Some((true, _)) => {},
                    Some((false, ranges)) => lemma_class_items_pos(s, k + 2, negated, acc + ranges),
                    None => lemma_class_items_pos(s, k + 2, negated, acc.push((s[k + 1], s[k + 1]))),
                }
            }
        } else {
            let lo = s[k];
            if at(s, k + 1) == Some('-') && at(s, k + 2) != Some(']') {
                if k + 2 < s.len() && s[k + 2] >= lo {
                    lemma_class_items_pos(s, k + 3, negated, acc.push((lo, s[k + 2])));
                }
            } else {
                lemma_class_items_pos(s, k + 1, negated, acc.push((lo, lo)));
            }
        }
    }
}

/// An atom read at `i` ends after `i` and inside the pattern; an error is
/// reported inside it.
proof fn lemma_atom_pos(s: Seq<char>, i: int)
    requires
        0 <= i <= s.len(),
    ensures
        p_atom(s, i) matches Ok((_, j)) ==> i < j <= s.len(),
        p_atom(s, i) matches Err((e, _)) ==> e <= s.len(),
    decreases s.len() - i, 0int,
{
    if i < s.len() {
        let c = s[i];
        if c == '(' {
            if at(s, i + 1) == Some('?') {
                if at(s, i + 2) == Some(':') {
                    lemma_group_pos(s, i + 3);
                }
            } else {
                lemma_group_pos(s, i + 1);
            }
        } else if c == '[' {
            if at(s, i + 1) == Some('^') {
                lemma_class_items_pos(s, i + 2, true, seq![]);
            } else {
                lemma_class_items_pos(s, i + 1, false, seq![]);
            }
        }
    }
}

/// A group's body read at `i` ends inside the pattern.
proof fn lemma_group_pos(s: Seq<char>, i: int)
    requires
        0 <= i <= s.len(),
    ensures
        p_group_body(s, i) matches Ok((_, j)) ==> i < j <= s.len(),
        p_group_body(s, i) matches Err((e, _)) ==> e <= s.len(),
    decreases s.len() - i, 5int,
{
    lemma_alt_pos(s, i);
}

/// A quantified atom read at `i` ends after `i` and inside the pattern.
proof fn lemma_qatom_pos(s: Seq<char>, i: int)
    requires
        0 <= i <= s.len(),
    ensures
        p_qatom(s, i) matches Ok((_, j)) ==> i < j <= s.len(),
        p_qatom(s, i) matches Err((e, _)) ==> e <= s.len(),
    decreases s.len() - i, 1int,
{
    lemma_atom_pos(s, i);
    if let Ok((a, j)) = p_atom(s, i) {
        if at(s, j) == Some('{') {
            lemma_digits_end_pos(s, j + 1);
            if let Ok((_, k)) = crate::grammar::p_number(s, j + 1) {
                if at(s, k) == Some(',') && at(s, k + 1) != Some('}') {
                    lemma_digits_end_pos(s, k + 1);
                }
            }
        }
    }
}

/// A concatenation read at `i` ends inside the pattern.
proof fn lemma_concat_pos(s: Seq<char>, i: int, acc: Seq<SpecAst>)
    requires
        0 <= i <= s.len(),
    ensures
        p_concat(s, i, acc) matches Ok((_, j)) ==> i <= j <= s.len(),
        p_concat(s, i, acc) matches Err((e, _)) ==> e <= s.len(),
    decreases s.len() - i, 2int,
{
    if !concat_stops(s, i) {
        lemma_qatom_pos(s, i);
        if let Ok((x, j)) = p_qatom(s, i) {
            lemma_concat_pos(s, j, acc.push(x));
        }
    }
}

/// The rest of an alternation read at `i` ends inside the pattern.
proof fn lemma_alt_more_pos(s: Seq<char>, i: int, acc: Seq<SpecAst>)
    requires
        0 <= i <= s.len(),
    ensures
        p_alt_more(s, i, acc) matches Ok((_, j)) ==> i <= j <= s.len(),
        p_alt_more(s, i, acc) matches Err((e, _)) ==> e <= s.len(),
    decreases s.len() - i, 3int,
{
    if i < s.len() && s[i] == '|' {
        lemma_concat_pos(s, i + 1, seq![]);
        if let Ok((b, j)) = p_concat(s, i + 1, seq![]) {
            lemma_alt_more_pos(s, j, acc.push(b));
        }
    }
}

/// An alternation read at `i` ends inside the pattern.
proof fn lemma_alt_pos(s: Seq<char>, i: int)
    requires
        0 <= i <= s.len(),
    ensures
        p_alt(s, i) matches Ok((_, j)) ==> i <= j <= s.len(),
        p_alt(s, i) matches Err((e, _)) ==> e <= s.len(),
    decreases s.len() - i, 4int,
{
    lemma_concat_pos(s, i, seq![]);
    if let Ok((b, j)) = p_concat(s, i, seq![]) {
        lemma_alt_more_pos(s, j, seq![b]);
    }
}

/// Reading a pattern reports every error at a position inside it.
pub proof fn lemma_read_positions(s: Seq<char>)
    ensures
        read_pattern(s) matches Err((e, _)) ==> e <= s.len(),
{
    lemma_alt_pos(s, 0);
}

/// Every tree the parser returns has the grammar's shape.
pub proof fn lemma_parse_shape(s: Seq<char>)
    ensures
        spec_parse(s) matches Ok(a) ==> sh_alt(a),
        read_pattern(s) matches Ok(a) ==> sh_alt(a),
{
    lemma_alt_shape(s, 0);
}

/// A tree in the grammar's shape is in the shape that reads back from its
/// rendering.
proof fn lemma_shape_wf(a: SpecAst)
    ensures
        sh_atom(a) ==> wf_atom(a),
        sh_qatom(a) ==> wf_qatom(a),
        sh_concat(a) ==> wf_concat(a),
        sh_alt(a) ==> wf_alt(a),
    decreases a, 1int,
{
    match a {
        SpecAst::Repeat(x, _, _) => {
            lemma_shape_wf(*x);
        },
        SpecAst::Group(x) => {
            lemma_shape_wf(*x);
        },
        SpecAst::Concat(ns) => {
            lemma_shape_wf_list(ns, 0);
            lemma_all_wf_qatom(ns);
            if sh_concat(a) {
                assert forall|k: int| 0 <= k < ns.len() implies wf_qatom(#[trigger] ns[k]) by {
                    assert(child_index(k));
                }
            }
        },
        SpecAst::Alternation(ns) => {
            lemma_shape_wf_list(ns, 0);
            lemma_all_wf_concat(ns);
            if sh_alt(a) {
                assert forall|k: int| 0 <= k < ns.len() implies wf_concat(#[trigger] ns[k]) by {
                    assert(child_index(k));
                }
            }
        },
        _ => {},
    }
}

/// [`lemma_shape_wf`] for each of `ns[k..]`.
proof fn lemma_shape_wf_list(ns: Seq<SpecAst>, k: int)
    requires
        0 <= k,
    ensures
        forall|q: int|
            k <= q < ns.len() ==> (sh_qatom(#[trigger] ns[q]) ==> wf_qatom(ns[q])) && (sh_concat(
                ns[q],
            ) ==> wf_concat(ns[q])),
    decreases ns, ns.len() - k,
{
    if k < ns.len() {
        lemma_shape_wf(ns[k]);
        lemma_shape_wf_list(ns, k + 1);
    }
}

/// Every pattern that parses reads back from its tree's rendering as the
/// same tree, when that rendering is within the length and depth caps
/// (a class written with a shorthand such as `\w` renders longer):
/// `to_pattern` undoes `parse`.
pub proof fn lemma_parsed_pattern_reads_back(s: Seq<char>, a: SpecAst)
    requires
        spec_parse(s) == Ok::<SpecAst, (int, ParseErrorKind)>(a),
        within_caps(render(a)),
    ensures
        spec_parse(render(a)) == Ok::<SpecAst, (int, ParseErrorKind)>(a),
{
    lemma_parse_shape(s);
    lemma_shape_wf(a);
    lemma_parse_render(a);
}

} // verus!
