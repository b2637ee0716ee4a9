//! Worst-case input generation: given a pattern flagged as risky, builds a
//! concrete input string that drives the instrumented engine's step count
//! into exponential/polynomial blowup.
//!
//! The input is `reps` copies of a character the pattern matches (the
//! "unit": the first character that the first consuming leaf of the
//! pattern accepts), followed by one trailing character that no leaf of
//! the pattern accepts at all. Such a tail can never be consumed, so a
//! fullmatch attempt must exhaust every way of splitting the run of units
//! before it fails.

use vstd::prelude::*;
use crate::model::{
    SpecAst, class_accepts, mt, mt_seq, mt_rep, full_match, split_pos, branch_index, rep_count,
    child_index, occurs_in,
};
use crate::parser::{Ast, CharClass, views, lemma_views, lemma_literal_view, push_char};

verus! {

broadcast use vstd::std_specs::vec::group_vec_axioms;

/// Characters tried, in order, as the unit for a class that lists what it
/// rejects (or lists nothing it accepts).
pub open spec fn unit_candidates() -> Seq<char> {
    seq!['a', '0', 'x', ' ', '!']
}

/// Characters tried, in order, as the trailing character that must fail to
/// match. `\n` is among them because `.` rejects it.
pub open spec fn tail_candidates() -> Seq<char> {
    seq!['!', '#', '~', '\n', '\0']
}

/// The first of `cs[k..]` that the class accepts.
pub open spec fn first_accepted(negated: bool, ranges: Seq<(char, char)>, cs: Seq<char>, k: int) -> Option<
    char,
>
    decreases cs.len() - k,
{
    if k < 0 || k >= cs.len() {
        None
    } else if class_accepts(negated, ranges, cs[k]) {
        Some(cs[k])
    } else {
        first_accepted(negated, ranges, cs, k + 1)
    }
}

/// The unit a class contributes: the low end of its first range if it
/// lists accepted characters, else the first candidate it accepts.
pub open spec fn class_unit(negated: bool, ranges: Seq<(char, char)>) -> Option<char> {
    if !negated && ranges.len() > 0 && ranges[0].0 <= ranges[0].1 {
        Some(ranges[0].0)
    } else {
        first_accepted(negated, ranges, unit_candidates(), 0)
    }
}

/// The unit of `a`: what its first consuming leaf, in reading order,
/// contributes. `None` when no leaf consumes anything.
pub open spec fn first_unit(a: SpecAst) -> Option<char>
    decreases a, 0int,
{
    match a {
        SpecAst::Literal(c) => Some(c),
        SpecAst::Class(n, rs) => class_unit(n, rs),
        SpecAst::Group(x) => first_unit(*x),
        SpecAst::Repeat(x, _, _) => first_unit(*x),
        SpecAst::Concat(ns) => first_unit_seq(ns, 0),
        SpecAst::Alternation(ns) => first_unit_seq(ns, 0),
        _ => None,
    }
}

/// The first unit among the children `ns[k..]`.
pub open spec fn first_unit_seq(ns: Seq<SpecAst>, k: int) -> Option<char>
    decreases ns, ns.len() - k,
{
    if k < 0 || k >= ns.len() {
        None
    } else {
        match first_unit(ns[k]) {
            Some(c) => Some(c),
            None => first_unit_seq(ns, k + 1),
        }
    }
}

/// Does some leaf of `a` accept the character `c`?
pub open spec fn accepts_somewhere(a: SpecAst, c: char) -> bool
    decreases a,
{
    match a {
        SpecAst::Literal(x) => x == c,
        SpecAst::Class(n, rs) => class_accepts(n, rs, c),
        SpecAst::Group(x) => accepts_somewhere(*x, c),
        SpecAst::Repeat(x, _, _) => accepts_somewhere(*x, c),
        SpecAst::Concat(ns) => exists|k: int|
            #[trigger] child_index(k) && 0 <= k < ns.len() && accepts_somewhere(ns[k], c),
        SpecAst::Alternation(ns) => exists|k: int|
            #[trigger] child_index(k) && 0 <= k < ns.len() && accepts_somewhere(ns[k], c),
        _ => false,
    }
}

/// The first of `cs[k..]` that no leaf of `a` accepts.
pub open spec fn first_rejected(a: SpecAst, cs: Seq<char>, k: int) -> Option<char>
    decreases cs.len() - k,
{
    if k < 0 || k >= cs.len() {
        None
    } else if !accepts_somewhere(a, cs[k]) {
        Some(cs[k])
    } else {
        first_rejected(a, cs, k + 1)
    }
}

/// The trailing character of a worst-case input, if a candidate exists.
pub open spec fn near_miss_tail(a: SpecAst) -> Seq<char> {
    match first_rejected(a, tail_candidates(), 0) {
        Some(c) => seq![c],
        None => seq![],
    }
}

/// The worst-case input for `a` with `reps` repetitions of its unit: the
/// units followed by the near-miss tail, or `reps` copies of `a` when the
/// pattern consumes nothing.
pub open spec fn spec_worst_case(a: SpecAst, reps: nat) -> Seq<char> {
    match first_unit(a) {
        Some(u) => Seq::new(reps, |i: int| u) + near_miss_tail(a),
        None => Seq::new(reps, |i: int| 'a'),
    }
}

/// The unit candidates, in order.
fn unit_candidate_list() -> (v: Vec<char>)
    ensures
        v@ == unit_candidates(),
{
    let mut v: Vec<char> = Vec::new();
    v.push('a');
    v.push('0');
    v.push('x');
    v.push(' ');
    v.push('!');
    proof {
        assert(v@ =~= unit_candidates());
    }
    v
}

/// The tail candidates, in order.
fn tail_candidate_list() -> (v: Vec<char>)
    ensures
        v@ == tail_candidates(),
{
    let mut v: Vec<char> = Vec::new();
    v.push('!');
    v.push('#');
    v.push('~');
    v.push('\n');
    v.push('\0');
    proof {
        assert(v@ =~= tail_candidates());
    }
    v
}

/// The unit a class contributes.
fn class_unit_of(class: &CharClass) -> (r: Option<char>)
    ensures
        r == class_unit(class.negated, class.ranges@),
{
    if !class.negated && class.ranges.len() > 0 && class.ranges[0].0 <= class.ranges[0].1 {
        return Some(class.ranges[0].0);
    }
    let cs = unit_candidate_list();
    let mut k: usize = 0;
    while k < cs.len()
        invariant
            k <= cs@.len(),
            cs@ == unit_candidates(),
            !(!class.negated && class.ranges@.len() > 0 && class.ranges@[0].0 <= class.ranges@[0].1),
            first_accepted(class.negated, class.ranges@, cs@, 0) == first_accepted(
                class.negated,
                class.ranges@,
                cs@,
                k as int,
            ),
        decreases cs.len() - k,
    {
        if class.matches(cs[k]) {
            return Some(cs[k]);
        }
        k += 1;
    }
    None
}

/// The unit of `ast`: what its first consuming leaf contributes.
fn first_unit_of(ast: &Ast) -> (r: Option<char>)
    ensures
        r == first_unit(ast@),
    decreases ast, 1int,
{
    match ast {
        Ast::Literal(c) => {
            proof {
                lemma_literal_view(*c);
            }
            Some(*c)
        },
        Ast::CharClass(class) => class_unit_of(class),
        Ast::Group(inner) => first_unit_of(inner),
        Ast::Repeat { node, .. } => first_unit_of(node),
        Ast::Concat(nodes) => first_unit_among(nodes),
        Ast::Alternation(nodes) => first_unit_among(nodes),
        _ => None,
    }
}

/// The first unit among `nodes`, in order.
fn first_unit_among(nodes: &Vec<Ast>) -> (r: Option<char>)
    ensures
        r == first_unit_seq(views(nodes@), 0),
    decreases nodes, 0int,
{
    let ghost vs = views(nodes@);
    proof {
        lemma_views(nodes@);
    }
    let mut i: usize = 0;
    while i < nodes.len()
        invariant
            i <= nodes.len(),
            vs == views(nodes@),
            vs.len() == nodes.len(),
            forall|j: int| 0 <= j < nodes.len() ==> #[trigger] vs[j] == nodes@[j]@,
            first_unit_seq(vs, 0) == first_unit_seq(vs, i as int),
        decreases nodes.len() - i,
    {
        let r = first_unit_of(&nodes[i]);
        if r.is_some() {
            return r;
        }
        i += 1;
    }
    None
}

/// Does some leaf of `ast` accept `c`?
fn leaf_accepts(ast: &Ast, c: char) -> (r: bool)
    ensures
        r == accepts_somewhere(ast@, c),
    decreases ast, 1int,
{
    match ast {
        Ast::Literal(x) => {
            proof {
                lemma_literal_view(*x);
            }
            *x == c
        },
        Ast::CharClass(class) => class.matches(c),
        Ast::Group(inner) => leaf_accepts(inner, c),
        Ast::Repeat { node, .. } => leaf_accepts(node, c),
        Ast::Concat(nodes) => some_accepts(nodes, c),
        Ast::Alternation(nodes) => some_accepts(nodes, c),
        _ => false,
    }
}

/// Does some leaf of some node of `nodes` accept `c`?
fn some_accepts(nodes: &Vec<Ast>, c: char) -> (r: bool)
    ensures
        r == (exists|k: int|
            #[trigger] child_index(k) && 0 <= k < views(nodes@).len() && accepts_somewhere(
                views(nodes@)[k],
                c,
            )),
    decreases nodes, 0int,
{
    let ghost vs = views(nodes@);
    proof {
        lemma_views(nodes@);
    }
    let mut i: usize = 0;
    while i < nodes.len()
        invariant
            i <= nodes.len(),
            vs == views(nodes@),
            vs.len() == nodes.len(),
            forall|j: int| 0 <= j < nodes.len() ==> #[trigger] vs[j] == nodes@[j]@,
            forall|j: int| 0 <= j < i ==> !accepts_somewhere(#[trigger] vs[j], c),
        decreases nodes.len() - i,
    {
        if leaf_accepts(&nodes[i], c) {
            proof {
                assert(child_index(i as int));
            }
            return true;
        }
        i += 1;
    }
    false
}

/// The first tail candidate that no leaf of `ast` accepts.
fn near_miss_char(ast: &Ast) -> (r: Option<char>)
    ensures
        r == first_rejected(ast@, tail_candidates(), 0),
{
    let cs = tail_candidate_list();
    let mut k: usize = 0;
    while k < cs.len()
        invariant
            k <= cs@.len(),
            cs@ == tail_candidates(),
            first_rejected(ast@, cs@, 0) == first_rejected(ast@, cs@, k as int),
        decreases cs.len() - k,
    {
        if !leaf_accepts(ast, cs[k]) {
            return Some(cs[k]);
        }
        k += 1;
    }
    None
}

/// Generate a worst-case input for `ast`: `target_len` repetitions of its
/// unit followed by one character no part of the pattern accepts (so
/// `target_len + 1` characters in all), or `target_len` copies of `a` when
/// the pattern consumes nothing.
pub fn worst_case(ast: &Ast, target_len: usize) -> (s: String)
    ensures
        s@ == spec_worst_case(ast@, target_len as nat),
{
    let unit = first_unit_of(ast);
    let u = match unit {
        Some(c) => c,
        None => 'a',
    };
    let mut out = String::new();
    let mut i: usize = 0;
    while i < target_len
        invariant
            i <= target_len,
            out@ == Seq::new(i as nat, |j: int| u),
        decreases target_len - i,
    {
        push_char(&mut out, u);
        i += 1;
        proof {
            assert(out@ =~= Seq::new(i as nat, |j: int| u));
        }
    }
    if unit.is_some() {
        let ghost units = out@;
        match near_miss_char(ast) {
            Some(t) => {
                push_char(&mut out, t);
                proof {
                    assert(out@ =~= units + seq![t]);
                }
            },
            None => {
                proof {
                    assert(out@ =~= units + Seq::<char>::empty());
                }
            },
        }
    }
    out
}

/// Every character inside a match of `a` is accepted by some leaf of `a`.
pub proof fn lemma_match_chars(a: SpecAst, s: Seq<char>, i: int, j: int)
    requires
        mt(a, s, i, j),
    ensures
        i <= j,
        forall|p: int| i <= p < j ==> #[trigger] accepted_at(a, s, p),
    decreases a, 0int,
{
    match a {
        SpecAst::Group(x) => {
            lemma_match_chars(*x, s, i, j);
            assert forall|p: int| i <= p < j implies #[trigger] accepted_at(a, s, p) by {
                assert(accepted_at(*x, s, p));
            }
        },
        SpecAst::Concat(ns) => {
            lemma_members_chars(ns, 0, s, i, j);
            assert forall|p: int| i <= p < j implies #[trigger] accepted_at(a, s, p) by {
                assert(member_accepted_at(ns, 0, s, p));
            }
        },
        SpecAst::Alternation(bs) => {
            let k = choose|k: int| #[trigger] branch_index(k) && 0 <= k < bs.len() && mt(bs[k], s, i, j);
            lemma_match_chars(bs[k], s, i, j);
            assert forall|p: int| i <= p < j implies #[trigger] accepted_at(a, s, p) by {
                assert(accepted_at(bs[k], s, p));
                assert(child_index(k));
            }
        },
        SpecAst::Repeat(x, mn, mx) => {
            if exists|n: nat|
                #[trigger] rep_count(n) && mn <= n && (mx matches Some(m) ==> n <= m) && mt_rep(
                    *x,
                    n,
                    s,
                    i,
                    j,
                ) {
                let n = choose|n: nat|
                    #[trigger] rep_count(n) && mn <= n && (mx matches Some(m) ==> n <= m) && mt_rep(
                        *x,
                        n,
                        s,
                        i,
                        j,
                    );
                lemma_repeat_chars(*x, n, s, i, j);
                assert forall|p: int| i <= p < j implies #[trigger] accepted_at(a, s, p) by {
                    assert(accepted_at(*x, s, p));
                }
            }
        },
        _ => {},
    }
}

/// Position `p` lies inside `s`, and some leaf of `a` accepts the
/// character there.
pub open spec fn accepted_at(a: SpecAst, s: Seq<char>, p: int) -> bool {
    0 <= p < s.len() && accepts_somewhere(a, s[p])
}

/// Position `p` lies inside `s`, and some leaf of a member of `ns[k..]`
/// accepts the character there.
spec fn member_accepted_at(ns: Seq<SpecAst>, k: int, s: Seq<char>, p: int) -> bool {
    0 <= p < s.len() && exists|q: int|
        #[trigger] child_index(q) && k <= q < ns.len() && accepts_somewhere(ns[q], s[p])
}

/// Every character inside a match of the members `ns[k..]` is accepted by
/// some leaf of one of them.
proof fn lemma_members_chars(ns: Seq<SpecAst>, k: int, s: Seq<char>, i: int, j: int)
    requires
        mt_seq(ns, k, s, i, j),
        0 <= k,
    ensures
        i <= j,
        forall|p: int| i <= p < j ==> #[trigger] member_accepted_at(ns, k, s, p),
    decreases ns, ns.len() - k,
{
    if k < ns.len() {
        let m = choose|m: int|
            #[trigger] split_pos(m) && i <= m <= j && mt(ns[k], s, i, m) && mt_seq(ns, k + 1, s, m, j);
        lemma_match_chars(ns[k], s, i, m);
        lemma_members_chars(ns, k + 1, s, m, j);
        assert forall|p: int| i <= p < j implies #[trigger] member_accepted_at(ns, k, s, p) by {
            if p < m {
                assert(accepted_at(ns[k], s, p));
                assert(child_index(k));
            } else {
                assert(member_accepted_at(ns, k + 1, s, p));
            }
        }
    }
}

/// Every character inside `n` repetitions of `x` is accepted by a leaf of `x`.
proof fn lemma_repeat_chars(x: SpecAst, n: nat, s: Seq<char>, i: int, j: int)
    requires
        mt_rep(x, n, s, i, j),
    ensures
        i <= j,
        forall|p: int| i <= p < j ==> #[trigger] accepted_at(x, s, p),
    decreases x, n,
{
    if n > 0 {
        let m = choose|m: int|
            #[trigger] split_pos(m) && i < m <= j && mt(x, s, i, m) && mt_rep(x, (n - 1) as nat, s, m, j);
        lemma_match_chars(x, s, i, m);
        lemma_repeat_chars(x, (n - 1) as nat, s, m, j);
    }
}

/// A candidate picked as rejected is accepted by no leaf.
proof fn lemma_first_rejected(a: SpecAst, cs: Seq<char>, k: int)
    ensures
        first_rejected(a, cs, k) matches Some(c) ==> !accepts_somewhere(a, c),
    decreases cs.len() - k,
{
    if 0 <= k < cs.len() && accepts_somewhere(a, cs[k]) {
        lemma_first_rejected(a, cs, k + 1);
    }
}

/// A worst-case input that ends in a near-miss tail never fully matches the
/// pattern it was built for: its last character is accepted by no part of
/// the pattern, so a fullmatch attempt can only fail, after trying every
/// way of splitting the units before it.
pub proof fn lemma_worst_case_never_matches(a: SpecAst, reps: nat)
    requires
        first_unit(a) is Some,
        first_rejected(a, tail_candidates(), 0) is Some,
    ensures
        !full_match(a, spec_worst_case(a, reps)),
{
    let s = spec_worst_case(a, reps);
    lemma_first_rejected(a, tail_candidates(), 0);
    assert(s[reps as int] == first_rejected(a, tail_candidates(), 0)->0);
    if full_match(a, s) {
        lemma_match_chars(a, s, 0, s.len() as int);
        assert(accepted_at(a, s, reps as int));
    }
}

/// The character a class contributes is one it accepts.
proof fn lemma_class_unit(negated: bool, ranges: Seq<(char, char)>)
    ensures
        class_unit(negated, ranges) matches Some(c) ==> class_accepts(negated, ranges, c),
{
    if !negated && ranges.len() > 0 && ranges[0].0 <= ranges[0].1 {
        assert(ranges[0].0 <= ranges[0].0 <= ranges[0].1);
    } else {
        lemma_first_accepted(negated, ranges, unit_candidates(), 0);
    }
}

/// A candidate picked as accepted is accepted by the class.
proof fn lemma_first_accepted(negated: bool, ranges: Seq<(char, char)>, cs: Seq<char>, k: int)
    ensures
        first_accepted(negated, ranges, cs, k) matches Some(c) ==> class_accepts(negated, ranges, c),
    decreases cs.len() - k,
{
    if 0 <= k < cs.len() && !class_accepts(negated, ranges, cs[k]) {
        lemma_first_accepted(negated, ranges, cs, k + 1);
    }
}

/// The unit of a worst-case input is a character that the pattern's own
/// leaves accept.
pub proof fn lemma_unit_is_accepted(a: SpecAst)
    ensures
        first_unit(a) matches Some(u) ==> accepts_somewhere(a, u),
    decreases a, 0int,
{
    match a {
        SpecAst::Class(n, rs) => lemma_class_unit(n, rs),
        SpecAst::Group(x) => lemma_unit_is_accepted(*x),
        SpecAst::Repeat(x, _, _) => lemma_unit_is_accepted(*x),
        SpecAst::Concat(ns) => lemma_unit_among(ns, 0),
        SpecAst::Alternation(ns) => lemma_unit_among(ns, 0),
        _ => {},
    }
}

/// The first unit among `ns[k..]` is accepted by a leaf of one of them.
proof fn lemma_unit_among(ns: Seq<SpecAst>, k: int)
    ensures
        first_unit_seq(ns, k) matches Some(u) ==> exists|q: int|
            #[trigger] child_index(q) && 0 <= q < ns.len() && accepts_somewhere(ns[q], u),
    decreases ns, ns.len() - k,
{
    if 0 <= k < ns.len() {
        lemma_unit_is_accepted(ns[k]);
        assert(child_index(k));
        if first_unit(ns[k]) is None {
            lemma_unit_among(ns, k + 1);
        }
    }
}


/// `t` is a leaf that contributes a unit: a literal, or a class that
/// accepts its first listed character or one of the unit candidates.
pub open spec fn unit_leaf(t: SpecAst) -> bool {
    ||| t is Literal
    ||| (t matches SpecAst::Class(n, rs) && class_unit(n, rs) is Some)
}

/// A pattern with a leaf that contributes a unit, anywhere in it (after
/// anchors, in any branch or member), has a unit: its worst-case input is
/// a run of that unit, and with a rejected tail candidate the input never
/// fully matches the pattern.
pub proof fn lemma_unit_found(a: SpecAst, t: SpecAst, reps: nat)
    requires
        occurs_in(t, a),
        unit_leaf(t),
    ensures
        first_unit(a) is Some,
        first_rejected(a, tail_candidates(), 0) is Some ==> !full_match(
            a,
            spec_worst_case(a, reps),
        ),
{
    lemma_unit_leaf_found(a, t);
    if first_rejected(a, tail_candidates(), 0) is Some {
        lemma_worst_case_never_matches(a, reps);
    }
}

/// A unit leaf within `a` gives `a` a unit.
proof fn lemma_unit_leaf_found(a: SpecAst, t: SpecAst)
    requires
        occurs_in(t, a),
        unit_leaf(t),
    ensures
        first_unit(a) is Some,
    decreases a,
{
    if t != a {
        match a {
            SpecAst::Repeat(x, _, _) => lemma_unit_leaf_found(*x, t),
            SpecAst::Group(x) => lemma_unit_leaf_found(*x, t),
            SpecAst::Concat(ns) => {
                let k = choose|k: int| #[trigger] child_index(k) && 0 <= k < ns.len() && occurs_in(t, ns[k]);
                lemma_unit_leaf_found(ns[k], t);
                lemma_unit_seq_some(ns, 0, k);
            },
            SpecAst::Alternation(ns) => {
                let k = choose|k: int| #[trigger] child_index(k) && 0 <= k < ns.len() && occurs_in(t, ns[k]);
                lemma_unit_leaf_found(ns[k], t);
                lemma_unit_seq_some(ns, 0, k);
            },
            _ => {},
        }
    }
}

/// A member with a unit at `k` gives the members from any `j <= k` on a
/// unit.
proof fn lemma_unit_seq_some(ns: Seq<SpecAst>, j: int, k: int)
    requires
        0 <= j <= k < ns.len(),
        first_unit(ns[k]) is Some,
    ensures
        first_unit_seq(ns, j) is Some,
    decreases k - j,
{
    if j < k && first_unit(ns[j]) is None {
        lemma_unit_seq_some(ns, j + 1, k);
    }
}

} // verus!
