//! Reading rendered text back: for every node in the shape the grammar
//! produces, parsing `render(a)` yields `a` again.

use vstd::prelude::*;
use crate::model::SpecAst;
use crate::grammar::{
    at, class_ok, concat_stops, dec, digit_char, digits_end, digits_value, dot_node, is_digit,
    is_dot, is_meta, item_ok, p_alt, p_alt_more, p_atom, p_class, p_class_items, p_concat,
    p_group_body, p_number, p_qatom, render, render_branches, render_member, render_members_to, render_items,
    render_members, render_quant, shorthand, spec_parse, wf_alt, wf_atom, wf_concat, wf_qatom,
    all_wf_concat, all_wf_qatom, p_bounded, p_bounded_close, p_escape, read_pattern, within_caps,
};

verus! {

/// `r` occurs in `s` starting at position `i`.
pub open spec fn is_at(s: Seq<char>, i: int, r: Seq<char>) -> bool {
    0 <= i && i + r.len() <= s.len() && s.subrange(i, i + r.len()) == r
}

/// The characters of an occurrence.
proof fn lemma_is_at(s: Seq<char>, i: int, r: Seq<char>)
    requires
        is_at(s, i, r),
    ensures
        forall|k: int| 0 <= k < r.len() ==> s[i + k] == #[trigger] r[k],
{
    assert forall|k: int| 0 <= k < r.len() implies s[i + k] == #[trigger] r[k] by {
        assert(s.subrange(i, i + r.len())[k] == s[i + k]);
    }
}

/// One character of an occurrence.
proof fn lemma_char_at(s: Seq<char>, i: int, r: Seq<char>, k: int)
    requires
        is_at(s, i, r),
        0 <= k < r.len(),
    ensures
        s[i + k] == r[k],
        at(s, i + k) == Some(r[k]),
{
    lemma_is_at(s, i, r);
}

/// The decimal digit characters.
proof fn lemma_digit_char(d: nat)
    requires
        d < 10,
    ensures
        digit_char(d) as int == d + 48,
        is_digit(digit_char(d)),
{
}

/// An occurrence of `a + b` is an occurrence of `a` followed by one of `b`.
proof fn lemma_is_at_split(s: Seq<char>, i: int, a: Seq<char>, b: Seq<char>)
    requires
        is_at(s, i, a + b),
    ensures
        is_at(s, i, a),
        is_at(s, i + a.len(), b),
{
    let ab = a + b;
    lemma_is_at(s, i, ab);
    assert forall|k: int| 0 <= k < a.len() implies #[trigger] s.subrange(i, i + a.len())[k]
        == a[k] by {
        assert(ab[k] == a[k]);
    }
    assert(s.subrange(i, i + a.len()) =~= a);
    assert forall|k: int| 0 <= k < b.len() implies #[trigger] s.subrange(
        i + a.len(),
        i + a.len() + b.len(),
    )[k] == b[k] by {
        assert(ab[a.len() + k] == b[k]);
        assert(s[i + (a.len() + k)] == ab[a.len() + k]);
    }
    assert(s.subrange(i + a.len(), i + a.len() + b.len()) =~= b);
}

/// Characters that end a quantified atom without being read by it.
pub open spec fn not_quantifier(o: Option<char>) -> bool {
    o matches Some(c) ==> !(c == '*' || c == '+' || c == '?' || c == '{')
}

/// What may follow an alternation: the end of the text or `)`.
pub open spec fn alt_follows(o: Option<char>) -> bool {
    o matches Some(c) ==> c == ')'
}

/// A character that may start a quantified atom's rendering.
pub open spec fn starts_qatom(c: char) -> bool {
    !(c == '|' || c == ')' || c == '*' || c == '+' || c == '?' || c == '{')
}

// ---------------------------------------------------------------------
// Facts about the renderings.
// ---------------------------------------------------------------------

/// Every member is a quantified atom exactly when each one is.
pub(crate) proof fn lemma_all_wf_qatom(ns: Seq<SpecAst>)
    ensures
        all_wf_qatom(ns) <==> forall|k: int| 0 <= k < ns.len() ==> wf_qatom(#[trigger] ns[k]),
    decreases ns.len(),
{
    if ns.len() > 0 {
        lemma_all_wf_qatom(ns.drop_last());
        assert forall|k: int| 0 <= k < ns.len() - 1 implies #[trigger] ns.drop_last()[k] == ns[k] by {}
        if forall|k: int| 0 <= k < ns.len() ==> wf_qatom(#[trigger] ns[k]) {
            assert forall|k: int| 0 <= k < ns.drop_last().len() implies wf_qatom(
                #[trigger] ns.drop_last()[k],
            ) by {
                assert(wf_qatom(ns[k]));
            }
            assert(wf_qatom(ns[ns.len() - 1]));
        }
        if all_wf_qatom(ns) {
            assert forall|k: int| 0 <= k < ns.len() implies wf_qatom(#[trigger] ns[k]) by {
                if k < ns.len() - 1 {
                    assert(wf_qatom(ns.drop_last()[k]));
                }
            }
        }
    }
}

/// Every branch is a concatenation exactly when each one is.
pub(crate) proof fn lemma_all_wf_concat(bs: Seq<SpecAst>)
    ensures
        all_wf_concat(bs) <==> forall|k: int| 0 <= k < bs.len() ==> wf_concat(#[trigger] bs[k]),
    decreases bs.len(),
{
    if bs.len() > 0 {
        lemma_all_wf_concat(bs.drop_last());
        assert forall|k: int| 0 <= k < bs.len() - 1 implies #[trigger] bs.drop_last()[k] == bs[k] by {}
        if forall|k: int| 0 <= k < bs.len() ==> wf_concat(#[trigger] bs[k]) {
            assert forall|k: int| 0 <= k < bs.drop_last().len() implies wf_concat(
                #[trigger] bs.drop_last()[k],
            ) by {
                assert(wf_concat(bs[k]));
            }
            assert(wf_concat(bs[bs.len() - 1]));
        }
        if all_wf_concat(bs) {
            assert forall|k: int| 0 <= k < bs.len() implies wf_concat(#[trigger] bs[k]) by {
                if k < bs.len() - 1 {
                    assert(wf_concat(bs.drop_last()[k]));
                }
            }
        }
    }
}

/// An atom renders to nonempty text whose first character may start a
/// quantified atom.
proof fn lemma_first_atom(x: SpecAst)
    requires
        wf_atom(x),
    ensures
        render(x).len() > 0,
        starts_qatom(render(x)[0]),
        render(x)[0] != '?',
{
    match x {
        SpecAst::Class(n, rs) => {
            if !is_dot(n, rs) {
                assert(render(x)[0] == '[');
            }
        },
        _ => {},
    }
}

/// A quantified atom renders to nonempty text whose first character may
/// start a quantified atom.
proof fn lemma_first_qatom(x: SpecAst)
    requires
        wf_qatom(x),
    ensures
        render(x).len() > 0,
        starts_qatom(render(x)[0]),
        render(x)[0] != '?',
{
    match x {
        SpecAst::Repeat(y, mn, mx) => {
            lemma_first_atom(*y);
            assert(render(x) == render(*y) + render_quant(mn, mx));
        },
        _ => lemma_first_atom(x),
    }
}

/// The rendering of a concatenation of quantified atoms starts with that of
/// its first member.
proof fn lemma_first_members(ns: Seq<SpecAst>)
    requires
        ns.len() >= 1,
        all_wf_qatom(ns),
    ensures
        render_members(ns).len() > 0,
        render_members(ns)[0] == render(ns[0])[0],
    decreases ns.len(),
{
    lemma_all_wf_qatom(ns);
    lemma_first_qatom(ns[0]);
    lemma_first_qatom(ns.last());
    let tail = render(ns.last());
    assert(!(ns.last() is Alternation));
    assert(render_members(ns) == render_members(ns.drop_last()) + tail);
    if ns.len() > 1 {
        lemma_first_members(ns.drop_last());
        assert(ns.drop_last()[0] == ns[0]);
        assert(render_members(ns)[0] == render_members(ns.drop_last())[0]);
    } else {
        assert(ns.drop_last() =~= Seq::<SpecAst>::empty());
        assert(render_members(ns.drop_last()) =~= Seq::<char>::empty());
        assert(render_members(ns) =~= tail);
    }
}

/// A concatenation renders to empty text or text not starting with `?`.
proof fn lemma_first_concat(a: SpecAst)
    requires
        wf_concat(a),
    ensures
        render(a).len() == 0 || render(a)[0] != '?',
{
    match a {
        SpecAst::Empty => {},
        SpecAst::Concat(ns) => {
            lemma_first_members(ns);
            lemma_all_wf_qatom(ns);
            lemma_first_qatom(ns[0]);
        },
        _ => lemma_first_qatom(a),
    }
}

/// Branches render to empty text or text not starting with `?`.
proof fn lemma_first_branches(bs: Seq<SpecAst>)
    requires
        bs.len() >= 1,
        all_wf_concat(bs),
    ensures
        render_branches(bs).len() == 0 || render_branches(bs)[0] != '?',
    decreases bs.len(),
{
    lemma_all_wf_concat(bs);
    if bs.len() == 1 {
        lemma_first_concat(bs[0]);
    } else {
        lemma_first_branches(bs.drop_last());
        let l = render_branches(bs.drop_last());
        assert(render_branches(bs) == l + seq!['|'] + render(bs.last()));
        if l.len() == 0 {
            assert(render_branches(bs)[0] == '|');
        } else {
            assert(render_branches(bs)[0] == l[0]);
        }
    }
}

/// An alternation renders to empty text or text not starting with `?`.
proof fn lemma_first_alt(a: SpecAst)
    requires
        wf_alt(a),
    ensures
        render(a).len() == 0 || render(a)[0] != '?',
{
    match a {
        SpecAst::Alternation(bs) => lemma_first_branches(bs),
        _ => lemma_first_concat(a),
    }
}

// ---------------------------------------------------------------------
// Numbers.
// ---------------------------------------------------------------------

/// `dec(n)` is a nonempty run of digits.
proof fn lemma_dec_digits(n: nat)
    ensures
        dec(n).len() >= 1,
        forall|k: int| 0 <= k < dec(n).len() ==> is_digit(#[trigger] dec(n)[k]),
    decreases n,
{
    lemma_digit_char(n % 10);
    if n < 10 {
        lemma_digit_char(n);
    }
    if n >= 10 {
        lemma_dec_digits(n / 10);
        assert forall|k: int| 0 <= k < dec(n).len() implies is_digit(#[trigger] dec(n)[k]) by {
            if k < dec(n).len() - 1 {
                assert(dec(n)[k] == dec(n / 10)[k]);
            }
        }
    }
}

/// The characters at `[i, e)` are digits, so reading digits from any
/// point in between stops at `e` when `e` is not a digit.
proof fn lemma_digits_end(s: Seq<char>, i: int, k: int, e: int)
    requires
        0 <= i <= k <= e <= s.len(),
        forall|m: int| i <= m < e ==> is_digit(#[trigger] s[m]),
        !(at(s, e) matches Some(c) && is_digit(c)),
    ensures
        digits_end(s, k) == e,
    decreases e - k,
{
    if k < e {
        lemma_digits_end(s, i, k + 1, e);
    }
}

/// The value of an occurrence of `dec(n)` is `n`.
proof fn lemma_digits_value(s: Seq<char>, i: int, n: nat)
    requires
        is_at(s, i, dec(n)),
    ensures
        digits_value(s, i, i + dec(n).len()) == n,
    decreases n,
{
    lemma_is_at(s, i, dec(n));
    let last = dec(n).len() - 1;
    if n >= 10 {
        let d = dec(n / 10);
        assert(dec(n) == d + seq![digit_char(n % 10)]);
        lemma_is_at_split(s, i, d, seq![digit_char(n % 10)]);
        lemma_digits_value(s, i, n / 10);
        lemma_char_at(s, i, dec(n), last);
        assert(dec(n)[last] == digit_char(n % 10));
        lemma_digit_char(n % 10);
        assert(d.len() == last);
        assert(digits_value(s, i, i + last + 1) == digits_value(s, i, i + last) * 10 + ((s[i
            + last] as int - '0' as int) as nat));
        assert(n == (n / 10) * 10 + n % 10);
    } else {
        lemma_char_at(s, i, dec(n), 0);
        lemma_digit_char(n);
        assert(digits_value(s, i, i + 1) == digits_value(s, i, i) * 10 + ((s[i] as int - '0' as int) as nat));
    }
}

/// Reading the occurrence of `dec(n)` at `i` yields `n`.
proof fn lemma_number(s: Seq<char>, i: int, n: nat)
    requires
        is_at(s, i, dec(n)),
        n <= u32::MAX,
        !(at(s, i + dec(n).len()) matches Some(c) && is_digit(c)),
    ensures
        p_number(s, i) == Ok::<(u32, int), (int, crate::grammar::ParseErrorKind)>(
            (n as u32, i + dec(n).len()),
        ),
{
    lemma_dec_digits(n);
    lemma_is_at(s, i, dec(n));
    let e = i + dec(n).len();
    assert forall|m: int| i <= m < e implies is_digit(#[trigger] s[m]) by {
        assert(s[i + (m - i)] == dec(n)[m - i]);
    }
    lemma_digits_end(s, i, i, e);
    lemma_digits_value(s, i, n);
}

// ---------------------------------------------------------------------
// Classes.
// ---------------------------------------------------------------------

/// The first member's text starts the text of the members.
proof fn lemma_members_first(rs: Seq<(char, char)>, k: int)
    requires
        1 <= k <= rs.len(),
    ensures
        render_members_to(rs, k).len() > 0,
        render_members_to(rs, k)[0] == render_member(rs, 0)[0],
    decreases k,
{
    if k > 1 {
        lemma_members_first(rs, k - 1);
    } else {
        assert(render_members_to(rs, 0) =~= Seq::<char>::empty());
        assert(render_members_to(rs, 1) =~= render_member(rs, 0));
    }
}

/// A prefix of the members of a class occurs where the members do.
proof fn lemma_items_at(s: Seq<char>, start: int, rs: Seq<(char, char)>, j: int)
    requires
        0 <= j <= rs.len(),
        is_at(s, start, render_items(rs)),
    ensures
        is_at(s, start, render_members_to(rs, j)),
    decreases rs.len() - j,
{
    if j < rs.len() {
        lemma_items_at(s, start, rs, j + 1);
        lemma_is_at_split(s, start, render_members_to(rs, j), render_member(rs, j));
    }
}

/// Reading the members of a class one by one.
#[verifier::rlimit(40)]
proof fn lemma_items_prefix(s: Seq<char>, start: int, neg: bool, rs: Seq<(char, char)>, k: int)
    requires
        0 <= k <= rs.len(),
        rs.len() >= 1,
        forall|m: int| 0 <= m < rs.len() ==> #[trigger] item_ok(neg, rs, m),
        is_at(s, start, render_items(rs)),
        at(s, start + render_items(rs).len()) == Some(']'),
    ensures
        p_class_items(s, start, neg, seq![]) == p_class_items(
            s,
            start + render_members_to(rs, k).len(),
            neg,
            rs.take(k),
        ),
    decreases k,
{
    if k == 0 {
        assert(rs.take(0) =~= Seq::<(char, char)>::empty());
    } else {
        lemma_items_prefix(s, start, neg, rs, k - 1);
        let prev = rs.take(k - 1);
        let q = start + render_members_to(rs, k - 1).len();
        let m = render_member(rs, k - 1);
        assert(prev.push(rs[k - 1]) =~= rs.take(k));
        lemma_items_at(s, start, rs, k);
        lemma_is_at_split(s, start, render_members_to(rs, k - 1), m);
        lemma_is_at(s, q, m);
        let (lo, hi) = rs[k - 1];
        assert(item_ok(neg, rs, k - 1));
        let next = q + m.len();
        assert(next == start + render_members_to(rs, k).len());
        // What follows the member: the next member's first character, or `]`.
        if k < rs.len() {
            lemma_items_at(s, start, rs, k + 1);
            lemma_is_at_split(s, start, render_members_to(rs, k), render_member(rs, k));
            lemma_char_at(s, next, render_member(rs, k), 0);
            assert(at(s, next) == Some(render_member(rs, k)[0]));
        } else {
            assert(at(s, next) == Some(']'));
        }
        lemma_char_at(s, q, m, 0);
        if lo != hi {
            lemma_char_at(s, q, m, 1);
            lemma_char_at(s, q, m, 2);
            assert(s[q] == lo && s[q + 1] == '-' && s[q + 2] == hi);
        } else if crate::grammar::is_class_special(lo) {
            lemma_char_at(s, q, m, 1);
            assert(s[q] == '\\' && s[q + 1] == lo);
            assert(shorthand(lo) is None);
        } else if crate::grammar::dash_range_at(rs, k) {
            lemma_char_at(s, q, m, 1);
            lemma_char_at(s, q, m, 2);
            assert(s[q] == lo && s[q + 1] == '-' && s[q + 2] == lo);
        } else {
            assert(s[q] == lo);
            assert(next == q + 1);
            assert(at(s, q + 1) != Some('-'));
        }
    }
}

/// Reading the rendering of a well-shaped class that is not `.`.
proof fn lemma_class(s: Seq<char>, i: int, neg: bool, rs: Seq<(char, char)>)
    requires
        class_ok(neg, rs),
        !is_dot(neg, rs),
        is_at(s, i, crate::grammar::render_class(neg, rs)),
    ensures
        p_class(s, i) == Ok::<(SpecAst, int), (int, crate::grammar::ParseErrorKind)>(
            (SpecAst::Class(neg, rs), i + crate::grammar::render_class(neg, rs).len()),
        ),
{
    let head: Seq<char> = seq!['['] + (if neg {
        seq!['^']
    } else {
        seq![]
    });
    let items = render_items(rs);
    assert(crate::grammar::render_class(neg, rs) == head + items + seq![']']);
    lemma_is_at_split(s, i, head + items, seq![']']);
    lemma_is_at_split(s, i, head, items);
    lemma_is_at(s, i, head);
    lemma_is_at(s, i + (head + items).len(), seq![']']);
    let start = i + head.len();
    lemma_members_first(rs, rs.len() as int);
    lemma_is_at(s, start, items);
    assert(item_ok(neg, rs, 0));
    lemma_char_at(s, i, head, 0);
    lemma_char_at(s, i + (head + items).len(), seq![']'], 0);
    assert(at(s, start + items.len()) == Some(']'));
    if neg {
        lemma_char_at(s, i, head, 1);
        assert(at(s, i + 1) == Some('^'));
    } else {
        lemma_char_at(s, start, items, 0);
        assert(s[start] == render_member(rs, 0)[0]);
        assert(at(s, i + 1) != Some('^'));
    }
    lemma_items_prefix(s, start, neg, rs, rs.len() as int);
    assert(rs.take(rs.len() as int) =~= rs);
    assert(start + render_members_to(rs, rs.len() as int).len() + 1 == i
        + crate::grammar::render_class(neg, rs).len());
}

// ---------------------------------------------------------------------
// The grammar reads renderings back.
// ---------------------------------------------------------------------

/// Reading the rendering of a literal yields it.
proof fn lemma_literal(c: char, s: Seq<char>, i: int)
    requires
        is_at(s, i, render(SpecAst::Literal(c))),
    ensures
        p_atom(s, i) == Ok::<(SpecAst, int), (int, crate::grammar::ParseErrorKind)>(
            (SpecAst::Literal(c), i + render(SpecAst::Literal(c)).len()),
        ),
{
    let r = render(SpecAst::Literal(c));
    lemma_char_at(s, i, r, 0);
    if is_meta(c) {
        lemma_char_at(s, i, r, 1);
        assert(s[i] == '\\');
        assert(s[i + 1] == c);
        assert(shorthand(c) is None);
        assert(p_escape(s, i) == Ok::<(SpecAst, int), (int, crate::grammar::ParseErrorKind)>(
            (SpecAst::Literal(c), i + 2),
        ));
    } else {
        assert(s[i] == c);
    }
}

/// Reading the rendering of a well-shaped class yields it.
proof fn lemma_class_atom(n: bool, rs: Seq<(char, char)>, s: Seq<char>, i: int)
    requires
        class_ok(n, rs),
        is_at(s, i, render(SpecAst::Class(n, rs))),
    ensures
        p_atom(s, i) == Ok::<(SpecAst, int), (int, crate::grammar::ParseErrorKind)>(
            (SpecAst::Class(n, rs), i + render(SpecAst::Class(n, rs)).len()),
        ),
{
    let r = render(SpecAst::Class(n, rs));
    lemma_char_at(s, i, r, 0);
    if is_dot(n, rs) {
        assert(s[i] == '.');
        assert(rs =~= seq![('\n', '\n')]);
        assert(dot_node() == SpecAst::Class(n, rs));
    } else {
        assert(s[i] == '[');
        lemma_class(s, i, n, rs);
    }
}

/// Reading the rendering of an atom yields the atom.
#[verifier::rlimit(40)]
proof fn lemma_atom(x: SpecAst, s: Seq<char>, i: int)
    requires
        wf_atom(x),
        is_at(s, i, render(x)),
    ensures
        p_atom(s, i) == Ok::<(SpecAst, int), (int, crate::grammar::ParseErrorKind)>(
            (x, i + render(x).len()),
        ),
    decreases x, 0int,
{
    match x {
        SpecAst::Literal(c) => lemma_literal(c, s, i),
        SpecAst::Class(n, rs) => lemma_class_atom(n, rs, s, i),
        SpecAst::Group(y) => {
            let r = render(*y);
            assert(render(x) == seq!['('] + r + seq![')']);
            lemma_is_at_split(s, i, seq!['('] + r, seq![')']);
            lemma_is_at_split(s, i, seq!['('], r);
            lemma_char_at(s, i, seq!['('], 0);
            lemma_char_at(s, i + 1 + r.len(), seq![')'], 0);
            lemma_first_alt(*y);
            if r.len() == 0 {
                assert(at(s, i + 1) == Some(')'));
            } else {
                lemma_char_at(s, i + 1, r, 0);
            }
            assert(at(s, i + 1) != Some('?'));
            lemma_alt(*y, s, i + 1);
            assert(p_group_body(s, i + 1) == Ok::<(SpecAst, int), (int, crate::grammar::ParseErrorKind)>(
                (x, i + render(x).len()),
            ));
        },
        SpecAst::AnchorStart => {
            lemma_char_at(s, i, render(x), 0);
        },
        SpecAst::AnchorEnd => {
            lemma_char_at(s, i, render(x), 0);
        },
        _ => {},
    }
}

/// Reading the rendering of a quantified atom yields it, when what follows
/// is not a quantifier.
proof fn lemma_qatom(x: SpecAst, s: Seq<char>, i: int)
    requires
        wf_qatom(x),
        is_at(s, i, render(x)),
        not_quantifier(at(s, i + render(x).len())),
    ensures
        p_qatom(s, i) == Ok::<(SpecAst, int), (int, crate::grammar::ParseErrorKind)>(
            (x, i + render(x).len()),
        ),
    decreases x, 1int,
{
    match x {
        SpecAst::Repeat(y, mn, mx) => {
            let ry = render(*y);
            let q = render_quant(mn, mx);
            assert(render(x) == ry + q);
            lemma_is_at_split(s, i, ry, q);
            lemma_atom(*y, s, i);
            let j = i + ry.len();
            lemma_is_at(s, j, q);
            lemma_char_at(s, j, q, 0);
            if mx is None && mn == 0 {
            } else if mx is None && mn == 1 {
            } else if mx == Some(1u32) && mn == 0 {
            } else {
                assert(s[j] == '{');
                let d = dec(mn as nat);
                lemma_dec_digits(mn as nat);
                match mx {
                    None => {
                        assert(q == seq!['{'] + d + seq![',', '}']);
                        lemma_is_at_split(s, j, seq!['{'] + d, seq![',', '}']);
                        lemma_is_at_split(s, j, seq!['{'], d);
                        lemma_char_at(s, j + 1 + d.len(), seq![',', '}'], 0);
                        lemma_char_at(s, j + 1 + d.len(), seq![',', '}'], 1);
                        lemma_number(s, j + 1, mn as nat);
                    },
                    Some(m) => {
                        if mn == m {
                            assert(q == seq!['{'] + d + seq!['}']);
                            lemma_is_at_split(s, j, seq!['{'] + d, seq!['}']);
                            lemma_is_at_split(s, j, seq!['{'], d);
                            lemma_char_at(s, j + 1 + d.len(), seq!['}'], 0);
                            lemma_number(s, j + 1, mn as nat);
                        } else {
                            let d2 = dec(m as nat);
                            lemma_dec_digits(m as nat);
                            assert(q == seq!['{'] + d + seq![','] + d2 + seq!['}']);
                            lemma_is_at_split(s, j, seq!['{'] + d + seq![','] + d2, seq!['}']);
                            lemma_is_at_split(s, j, seq!['{'] + d + seq![','], d2);
                            lemma_is_at_split(s, j, seq!['{'] + d, seq![',']);
                            lemma_is_at_split(s, j, seq!['{'], d);
                            lemma_char_at(s, j + 1 + d.len(), seq![','], 0);
                            lemma_char_at(s, j + 2 + d.len(), d2, 0);
                            lemma_char_at(s, j + 2 + d.len() + d2.len(), seq!['}'], 0);
                            lemma_number(s, j + 1, mn as nat);
                            assert(is_digit(d2[0]));
                            lemma_number(s, j + 2 + d.len(), m as nat);
                        }
                    },
                }
            }
        },
        _ => {
            lemma_atom(x, s, i);
        },
    }
}

/// The renderings of the first members occur where the whole
/// concatenation does.
proof fn lemma_members_at(s: Seq<char>, i: int, ns: Seq<SpecAst>, j: int)
    requires
        0 <= j <= ns.len(),
        is_at(s, i, render_members(ns)),
    ensures
        is_at(s, i, render_members(ns.take(j))),
    decreases ns.len() - j,
{
    if j == ns.len() {
        assert(ns.take(j) =~= ns);
    } else {
        lemma_members_at(s, i, ns, j + 1);
        let t = ns.take(j + 1);
        assert(t.drop_last() =~= ns.take(j));
        let tail = if t.last() is Alternation {
            seq!['('] + render(t.last()) + seq![')']
        } else {
            render(t.last())
        };
        lemma_is_at_split(s, i, render_members(ns.take(j)), tail);
    }
}

/// Reading the members of a concatenation one by one.
proof fn lemma_concat_prefix(s: Seq<char>, i: int, ns: Seq<SpecAst>, k: int)
    requires
        0 <= k <= ns.len(),
        all_wf_qatom(ns),
        is_at(s, i, render_members(ns)),
        concat_stops(s, i + render_members(ns).len()),
    ensures
        p_concat(s, i, seq![]) == p_concat(s, i + render_members(ns.take(k)).len(), ns.take(k)),
    decreases ns, k,
{
    if k == 0 {
        assert(ns.take(0) =~= Seq::<SpecAst>::empty());
    } else {
        lemma_concat_prefix(s, i, ns, k - 1);
        lemma_all_wf_qatom(ns);
        let prev = ns.take(k - 1);
        let q = i + render_members(prev).len();
        let x = ns[k - 1];
        assert(wf_qatom(x));
        assert(!(x is Alternation));
        assert(ns.take(k).drop_last() =~= prev);
        assert(ns.take(k).last() == x);
        assert(prev.push(x) =~= ns.take(k));
        lemma_members_at(s, i, ns, k);
        assert(render_members(ns.take(k)) == render_members(prev) + render(x));
        lemma_is_at_split(s, i, render_members(prev), render(x));
        lemma_first_qatom(x);
        lemma_is_at(s, q, render(x));
        let next = q + render(x).len();
        if k < ns.len() {
            let y = ns[k];
            assert(wf_qatom(y));
            lemma_first_qatom(y);
            lemma_members_at(s, i, ns, k + 1);
            assert(ns.take(k + 1).drop_last() =~= ns.take(k));
            assert(ns.take(k + 1).last() == y);
            assert(render_members(ns.take(k + 1)) == render_members(ns.take(k)) + render(y));
            lemma_is_at_split(s, i, render_members(ns.take(k)), render(y));
            lemma_is_at(s, next, render(y));
            assert(at(s, next) == Some(render(y)[0]));
        } else {
            assert(ns.take(k) =~= ns);
        }
        lemma_qatom(x, s, q);
        assert(s[q] == render(x)[0]);
    }
}

/// Reading the rendering of a concatenation yields it, when what follows
/// ends a concatenation.
proof fn lemma_concat(a: SpecAst, s: Seq<char>, i: int)
    requires
        wf_concat(a),
        is_at(s, i, render(a)),
        concat_stops(s, i + render(a).len()),
    ensures
        p_concat(s, i, seq![]) == Ok::<(SpecAst, int), (int, crate::grammar::ParseErrorKind)>(
            (a, i + render(a).len()),
        ),
    decreases a, 2int,
{
    match a {
        SpecAst::Empty => {
            assert(render(a) =~= Seq::<char>::empty());
            assert(concat_stops(s, i));
            assert(crate::grammar::concat_node(seq![]) == SpecAst::Empty);
            assert(p_concat(s, i, seq![]) == Ok::<(SpecAst, int), (int, crate::grammar::ParseErrorKind)>((SpecAst::Empty, i)));
            assert(a == SpecAst::Empty);
            assert(i + render(a).len() == i);
            assert(p_concat(s, i, seq![]) == Ok::<(SpecAst, int), (int, crate::grammar::ParseErrorKind)>((a, i + render(a).len())));
        },
        SpecAst::Concat(ns) => {
            lemma_concat_prefix(s, i, ns, ns.len() as int);
            assert(ns.take(ns.len() as int) =~= ns);
        },
        _ => {
            lemma_first_qatom(a);
            lemma_char_at(s, i, render(a), 0);
            lemma_qatom(a, s, i);
            let j = i + render(a).len();
            assert(!concat_stops(s, i));
            let one: Seq<SpecAst> = seq![].push(a);
            assert(one =~= seq![a]);
            assert(crate::grammar::concat_node(one) == a);
            assert(p_concat(s, j, one) == Ok::<(SpecAst, int), (int, crate::grammar::ParseErrorKind)>((a, j)));
        },
    }
}

/// The renderings of the first branches occur where the whole alternation
/// does.
proof fn lemma_branches_at(s: Seq<char>, i: int, bs: Seq<SpecAst>, j: int)
    requires
        1 <= j <= bs.len(),
        is_at(s, i, render_branches(bs)),
    ensures
        is_at(s, i, render_branches(bs.take(j))),
    decreases bs.len() - j,
{
    if j == bs.len() {
        assert(bs.take(j) =~= bs);
    } else {
        lemma_branches_at(s, i, bs, j + 1);
        let t = bs.take(j + 1);
        assert(t.drop_last() =~= bs.take(j));
        lemma_is_at_split(s, i, render_branches(bs.take(j)) + seq!['|'], render(t.last()));
        lemma_is_at_split(s, i, render_branches(bs.take(j)), seq!['|']);
    }
}

/// Reading the branches of an alternation one by one.
proof fn lemma_alt_prefix(s: Seq<char>, i: int, bs: Seq<SpecAst>, k: int)
    requires
        1 <= k <= bs.len(),
        all_wf_concat(bs),
        is_at(s, i, render_branches(bs)),
        alt_follows(at(s, i + render_branches(bs).len())),
    ensures
        p_alt(s, i) == p_alt_more(s, i + render_branches(bs.take(k)).len(), bs.take(k)),
    decreases bs, k,
{
    lemma_all_wf_concat(bs);
    if k == 1 {
        let x = bs[0];
        assert(bs.take(1) =~= seq![x]);
        assert(render_branches(bs.take(1)) == render(x));
        lemma_branches_at(s, i, bs, 1);
        let next = i + render(x).len();
        if bs.len() > 1 {
            lemma_branches_at(s, i, bs, 2);
            assert(bs.take(2).drop_last() =~= bs.take(1));
            lemma_is_at_split(s, i, render(x) + seq!['|'], render(bs[1]));
            lemma_is_at_split(s, i, render(x), seq!['|']);
            lemma_char_at(s, next, seq!['|'], 0);
        } else {
            assert(bs.take(1) =~= bs);
        }
        lemma_concat(x, s, i);
        assert(seq![].push(x) =~= seq![x]);
    } else {
        lemma_alt_prefix(s, i, bs, k - 1);
        let prev = bs.take(k - 1);
        let x = bs[k - 1];
        let q = i + render_branches(prev).len();
        assert(bs.take(k).drop_last() =~= prev);
        assert(bs.take(k).last() == x);
        assert(prev.push(x) =~= bs.take(k));
        lemma_branches_at(s, i, bs, k);
        assert(render_branches(bs.take(k)) == render_branches(prev) + seq!['|'] + render(x));
        lemma_is_at_split(s, i, render_branches(prev) + seq!['|'], render(x));
        lemma_is_at_split(s, i, render_branches(prev), seq!['|']);
        lemma_char_at(s, q, seq!['|'], 0);
        let next = q + 1 + render(x).len();
        if k < bs.len() {
            lemma_branches_at(s, i, bs, k + 1);
            assert(bs.take(k + 1).drop_last() =~= bs.take(k));
            lemma_is_at_split(s, i, render_branches(bs.take(k)) + seq!['|'], render(bs[k]));
            lemma_is_at_split(s, i, render_branches(bs.take(k)), seq!['|']);
            lemma_char_at(s, next, seq!['|'], 0);
        } else {
            assert(bs.take(k) =~= bs);
        }
        lemma_concat(x, s, q + 1);
    }
}

/// Reading the rendering of an alternation yields it, when what follows is
/// the end of the text or `)`.
proof fn lemma_alt(a: SpecAst, s: Seq<char>, i: int)
    requires
        wf_alt(a),
        is_at(s, i, render(a)),
        alt_follows(at(s, i + render(a).len())),
    ensures
        p_alt(s, i) == Ok::<(SpecAst, int), (int, crate::grammar::ParseErrorKind)>(
            (a, i + render(a).len()),
        ),
    decreases a, 3int,
{
    match a {
        SpecAst::Alternation(bs) => {
            lemma_alt_prefix(s, i, bs, bs.len() as int);
            assert(bs.take(bs.len() as int) =~= bs);
        },
        _ => {
            lemma_concat(a, s, i);
            assert(seq![a].len() == 1);
        },
    }
}

/// Reading is a left inverse of rendering: every node in the shape the
/// grammar produces reads back from its own pattern text.
pub proof fn lemma_read_render(a: SpecAst)
    requires
        wf_alt(a),
    ensures
        read_pattern(render(a)) == Ok::<SpecAst, (int, crate::grammar::ParseErrorKind)>(a),
{
    let s = render(a);
    assert(s.subrange(0, s.len() as int) =~= s);
    lemma_alt(a, s, 0);
}

/// Parsing is a left inverse of rendering: every node in the shape the
/// grammar produces, whose text is within the length and depth caps,
/// parses back from its own pattern text.
pub proof fn lemma_parse_render(a: SpecAst)
    requires
        wf_alt(a),
        within_caps(render(a)),
    ensures
        spec_parse(render(a)) == Ok::<SpecAst, (int, crate::grammar::ParseErrorKind)>(a),
{
    lemma_read_render(a);
}

} // verus!
