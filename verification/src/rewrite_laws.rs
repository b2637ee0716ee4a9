//! What a rewrite keeps: it matches exactly the strings the pattern
//! matches; when no rule applies, it is the tree itself; and its rendering
//! reads back through the parser as the rewritten tree.

use vstd::prelude::*;
use crate::model::{
    SpecAst, mt, mt_seq, mt_rep, full_match, split_pos, branch_index, rep_count, child_index,
    occurs_in,
};
use crate::analyzer::{peel, overlap, spec_classify, Risk};
use crate::grammar::{
    ParseErrorKind, all_wf_concat, render, spec_parse, wf_alt, wf_atom, wf_concat, wf_qatom,
    within_caps,
};
use crate::roundtrip::{lemma_all_wf_concat, lemma_all_wf_qatom, lemma_parse_render};
use crate::rewrite::{
    dedup, as_atom, dedup_node, dedup_step, flatten_step, after_dedup, apply_rules, rules_fire, rw,
    rw_seq, fires, lemma_rw_seq, spec_suggest,
};

verus! {

/// Every span that `x` matches, `y` matches.
pub open spec fn implies_mt(x: SpecAst, y: SpecAst) -> bool {
    forall|s: Seq<char>, i: int, j: int| #[trigger] mt(x, s, i, j) ==> mt(y, s, i, j)
}

/// `implies_mt` is transitive.
proof fn lemma_implies_trans(x: SpecAst, y: SpecAst, z: SpecAst)
    requires
        implies_mt(x, y),
        implies_mt(y, z),
    ensures
        implies_mt(x, z),
{
    assert forall|s: Seq<char>, i: int, j: int| #[trigger] mt(x, s, i, j) implies mt(z, s, i, j) by {
        assert(mt(y, s, i, j));
    }
}

/// Stripping groups keeps what a tree matches.
proof fn lemma_peel(x: SpecAst)
    ensures
        implies_mt(x, peel(x)),
        implies_mt(peel(x), x),
    decreases x,
{
    if let SpecAst::Group(y) = x {
        lemma_peel(*y);
        assert forall|s: Seq<char>, i: int, j: int| #[trigger] mt(x, s, i, j) implies mt(
            peel(x),
            s,
            i,
            j,
        ) by {
            assert(mt(*y, s, i, j));
        }
        assert forall|s: Seq<char>, i: int, j: int| #[trigger] mt(peel(x), s, i, j) implies mt(
            x,
            s,
            i,
            j,
        ) by {
            assert(mt(*y, s, i, j));
        }
    }
}

/// Repetitions of a tree that matches less match less.
proof fn lemma_rep_mono(x: SpecAst, y: SpecAst, n: nat, s: Seq<char>, i: int, j: int)
    requires
        implies_mt(x, y),
        mt_rep(x, n, s, i, j),
    ensures
        mt_rep(y, n, s, i, j),
    decreases n,
{
    if n > 0 {
        let m = choose|m: int|
            #[trigger] split_pos(m) && i < m <= j && mt(x, s, i, m) && mt_rep(x, (n - 1) as nat, s, m, j);
        lemma_rep_mono(x, y, (n - 1) as nat, s, m, j);
        assert(mt(y, s, i, m));
    }
}

/// A repeat of a tree that matches less matches less.
proof fn lemma_repeat_mono(x: SpecAst, y: SpecAst, mn: u32, mx: Option<u32>)
    requires
        implies_mt(x, y),
    ensures
        implies_mt(SpecAst::Repeat(Box::new(x), mn, mx), SpecAst::Repeat(Box::new(y), mn, mx)),
{
    assert forall|s: Seq<char>, i: int, j: int| #[trigger]
        mt(SpecAst::Repeat(Box::new(x), mn, mx), s, i, j) implies mt(
        SpecAst::Repeat(Box::new(y), mn, mx),
        s,
        i,
        j,
    ) by {
        if exists|n: nat|
            #[trigger] rep_count(n) && mn <= n && (mx matches Some(m) ==> n <= m) && mt_rep(
                x,
                n,
                s,
                i,
                j,
            ) {
            let n = choose|n: nat|
                #[trigger] rep_count(n) && mn <= n && (mx matches Some(m) ==> n <= m) && mt_rep(
                    x,
                    n,
                    s,
                    i,
                    j,
                );
            lemma_rep_mono(x, y, n, s, i, j);
        } else {
            assert(mt(x, s, i, i));
        }
    }
}

/// Members that match less make a concatenation match less.
proof fn lemma_members_mono(ns: Seq<SpecAst>, ms: Seq<SpecAst>, k: int, s: Seq<char>, i: int, j: int)
    requires
        ns.len() == ms.len(),
        forall|q: int| 0 <= q < ns.len() ==> #[trigger] implies_mt(ns[q], ms[q]),
        mt_seq(ns, k, s, i, j),
    ensures
        mt_seq(ms, k, s, i, j),
    decreases ns.len() - k,
{
    if 0 <= k < ns.len() {
        let m = choose|m: int|
            #[trigger] split_pos(m) && i <= m <= j && mt(ns[k], s, i, m) && mt_seq(ns, k + 1, s, m, j);
        lemma_members_mono(ns, ms, k + 1, s, m, j);
        assert(implies_mt(ns[k], ms[k]));
        assert(mt(ms[k], s, i, m));
    }
}

/// Pointwise, a concatenation and an alternation of trees that match less
/// match less.
proof fn lemma_lists_mono(ns: Seq<SpecAst>, ms: Seq<SpecAst>)
    requires
        ns.len() == ms.len(),
        forall|q: int| 0 <= q < ns.len() ==> #[trigger] implies_mt(ns[q], ms[q]),
    ensures
        implies_mt(SpecAst::Concat(ns), SpecAst::Concat(ms)),
        implies_mt(SpecAst::Alternation(ns), SpecAst::Alternation(ms)),
{
    assert forall|s: Seq<char>, i: int, j: int| #[trigger] mt(SpecAst::Concat(ns), s, i, j) implies mt(
        SpecAst::Concat(ms),
        s,
        i,
        j,
    ) by {
        lemma_members_mono(ns, ms, 0, s, i, j);
    }
    assert forall|s: Seq<char>, i: int, j: int| #[trigger]
        mt(SpecAst::Alternation(ns), s, i, j) implies mt(SpecAst::Alternation(ms), s, i, j) by {
        let k = choose|k: int| #[trigger] branch_index(k) && 0 <= k < ns.len() && mt(ns[k], s, i, j);
        assert(implies_mt(ns[k], ms[k]));
        assert(mt(ms[k], s, i, j));
    }
}

/// Deduplication keeps exactly the trees of the list.
proof fn lemma_dedup_contains(bs: Seq<SpecAst>)
    ensures
        forall|b: SpecAst| #[trigger] dedup(bs).contains(b) <==> bs.contains(b),
    decreases bs.len(),
{
    if bs.len() > 0 {
        let rest = bs.drop_last();
        let last = bs.last();
        let d = dedup(rest);
        lemma_dedup_contains(rest);
        assert forall|b: SpecAst| #[trigger] dedup(bs).contains(b) implies bs.contains(b) by {
            if d.contains(b) {
                assert(rest.contains(b));
                let k = choose|k: int| 0 <= k < rest.len() && rest[k] == b;
                assert(bs[k] == b);
            } else {
                assert(dedup(bs) == d.push(last));
                let k = choose|k: int| 0 <= k < d.push(last).len() && d.push(last)[k] == b;
                assert(k == d.len());
                assert(bs[bs.len() - 1] == b);
            }
        }
        assert forall|b: SpecAst| #[trigger] bs.contains(b) implies dedup(bs).contains(b) by {
            let k = choose|k: int| 0 <= k < bs.len() && bs[k] == b;
            if k < bs.len() - 1 {
                assert(rest[k] == b);
                assert(d.contains(b));
                let q = choose|q: int| 0 <= q < d.len() && d[q] == b;
                if !d.contains(last) {
                    assert(d.push(last)[q] == b);
                }
            } else {
                if !d.contains(last) {
                    assert(d.push(last)[d.len() as int] == b);
                }
            }
        }
    }
}

/// An alternation matches what an alternation over the same trees matches.
proof fn lemma_same_members(bs: Seq<SpecAst>, ds: Seq<SpecAst>)
    requires
        forall|b: SpecAst| #[trigger] ds.contains(b) <==> bs.contains(b),
    ensures
        implies_mt(SpecAst::Alternation(bs), SpecAst::Alternation(ds)),
        implies_mt(SpecAst::Alternation(ds), SpecAst::Alternation(bs)),
{
    assert forall|s: Seq<char>, i: int, j: int| #[trigger]
        mt(SpecAst::Alternation(bs), s, i, j) implies mt(SpecAst::Alternation(ds), s, i, j) by {
        let k = choose|k: int| #[trigger] branch_index(k) && 0 <= k < bs.len() && mt(bs[k], s, i, j);
        assert(bs.contains(bs[k]));
        assert(ds.contains(bs[k]));
        let q = choose|q: int| 0 <= q < ds.len() && ds[q] == bs[k];
        assert(branch_index(q));
    }
    assert forall|s: Seq<char>, i: int, j: int| #[trigger]
        mt(SpecAst::Alternation(ds), s, i, j) implies mt(SpecAst::Alternation(bs), s, i, j) by {
        let k = choose|k: int| #[trigger] branch_index(k) && 0 <= k < ds.len() && mt(ds[k], s, i, j);
        assert(ds.contains(ds[k]));
        assert(bs.contains(ds[k]));
        let q = choose|q: int| 0 <= q < bs.len() && bs[q] == ds[k];
        assert(branch_index(q));
    }
}

/// The operand that deduplication puts in place of an alternation matches
/// what the alternation matches.
proof fn lemma_dedup_node(bs: Seq<SpecAst>)
    ensures
        implies_mt(SpecAst::Alternation(bs), dedup_node(bs)),
        implies_mt(dedup_node(bs), SpecAst::Alternation(bs)),
{
    let d = dedup(bs);
    lemma_dedup_contains(bs);
    lemma_same_members(bs, d);
    if d.len() == 1 {
        let b = d[0];
        assert forall|s: Seq<char>, i: int, j: int| #[trigger] mt(SpecAst::Alternation(d), s, i, j)
            implies mt(as_atom(b), s, i, j) by {
            let k = choose|k: int| #[trigger] branch_index(k) && 0 <= k < d.len() && mt(d[k], s, i, j);
            assert(k == 0);
        }
        assert forall|s: Seq<char>, i: int, j: int| #[trigger] mt(as_atom(b), s, i, j) implies mt(
            SpecAst::Alternation(d),
            s,
            i,
            j,
        ) by {
            assert(mt(b, s, i, j));
            assert(branch_index(0));
        }
        lemma_implies_trans(SpecAst::Alternation(bs), SpecAst::Alternation(d), as_atom(b));
        lemma_implies_trans(as_atom(b), SpecAst::Alternation(d), SpecAst::Alternation(bs));
    } else {
        let g = SpecAst::Group(Box::new(SpecAst::Alternation(d)));
        assert forall|s: Seq<char>, i: int, j: int| #[trigger] mt(SpecAst::Alternation(bs), s, i, j)
            implies mt(g, s, i, j) by {
            assert(mt(SpecAst::Alternation(d), s, i, j));
        }
        assert forall|s: Seq<char>, i: int, j: int| #[trigger] mt(g, s, i, j) implies mt(
            SpecAst::Alternation(bs),
            s,
            i,
            j,
        ) by {
            assert(mt(SpecAst::Alternation(d), s, i, j));
        }
    }
}

/// Deduplicating a repeat keeps what it matches.
proof fn lemma_dedup_step(r: SpecAst)
    ensures
        implies_mt(r, after_dedup(r)),
        implies_mt(after_dedup(r), r),
{
    if let Some(d) = dedup_step(r) {
        if let SpecAst::Repeat(x, mn, mx) = r {
            if let SpecAst::Alternation(bs) = peel(*x) {
                lemma_peel(*x);
                lemma_dedup_node(bs);
                lemma_implies_trans(*x, peel(*x), dedup_node(bs));
                lemma_implies_trans(dedup_node(bs), peel(*x), *x);
                lemma_repeat_mono(*x, dedup_node(bs), mn, mx);
                lemma_repeat_mono(dedup_node(bs), *x, mn, mx);
            }
        }
    }
}

/// Repetitions of a tree match an ordered span.
proof fn lemma_rep_ordered(y: SpecAst, n: nat, s: Seq<char>, i: int, j: int)
    requires
        mt_rep(y, n, s, i, j),
    ensures
        i <= j,
        n > 0 ==> i < j,
    decreases n,
{
    if n > 0 {
        let m = choose|m: int|
            #[trigger] split_pos(m) && i < m <= j && mt(y, s, i, m) && mt_rep(y, (n - 1) as nat, s, m, j);
        lemma_rep_ordered(y, (n - 1) as nat, s, m, j);
    }
}

/// Repetitions of a tree on two adjacent spans are repetitions on their
/// union.
proof fn lemma_rep_append(y: SpecAst, a: nat, b: nat, s: Seq<char>, i: int, m: int, j: int)
    requires
        mt_rep(y, a, s, i, m),
        mt_rep(y, b, s, m, j),
    ensures
        mt_rep(y, a + b, s, i, j),
    decreases a,
{
    lemma_rep_ordered(y, b, s, m, j);
    if a > 0 {
        let p = choose|p: int|
            #[trigger] split_pos(p) && i < p <= m && mt(y, s, i, p) && mt_rep(y, (a - 1) as nat, s, p, m);
        lemma_rep_append(y, (a - 1) as nat, b, s, p, m, j);
        assert(((a - 1) as nat + b) as nat == (a + b - 1) as nat);
        assert(split_pos(p));
    }
}

/// `n` repetitions of a body that is (under groups) an unbounded repeat of
/// `y` with minimum at most 1 are some number of repetitions of `y`, at
/// least one if `n` is.
proof fn lemma_collect(x: SpecAst, y: SpecAst, mi: u32, n: nat, s: Seq<char>, i: int, j: int) -> (k: nat)
    requires
        peel(x) == SpecAst::Repeat(Box::new(y), mi, None),
        mt_rep(x, n, s, i, j),
    ensures
        mt_rep(y, k, s, i, j),
        n > 0 ==> k > 0,
    decreases n,
{
    lemma_peel(x);
    if n == 0 {
        0
    } else {
        let m = choose|m: int|
            #[trigger] split_pos(m) && i < m <= j && mt(x, s, i, m) && mt_rep(x, (n - 1) as nat, s, m, j);
        let rest = lemma_collect(x, y, mi, (n - 1) as nat, s, m, j);
        assert(mt(peel(x), s, i, m));
        assert(i < m);
        let first = choose|c: nat|
            #[trigger] rep_count(c) && mi <= c && (None::<u32> matches Some(b) ==> c <= b) && mt_rep(
                y,
                c,
                s,
                i,
                m,
            );
        if first == 0 {
            assert(i == m);
        }
        lemma_rep_append(y, first, rest, s, i, m, j);
        first + rest
    }
}

/// Flattening a repeat keeps exactly what it matches.
proof fn lemma_flatten_step(r: SpecAst)
    ensures
        flatten_step(r) matches Some(f) ==> implies_mt(r, f) && implies_mt(f, r),
{
    if let Some(f) = flatten_step(r) {
        if let SpecAst::Repeat(x, mn, mx) = r {
            if let SpecAst::Repeat(y, mi, my) = peel(*x) {
                let mf: u32 = if mn == 1 && mi == 1 {
                    1
                } else {
                    0
                };
                let inner = SpecAst::Repeat(y, mi, None);
                assert(f == SpecAst::Repeat(y, mf, None));
                lemma_peel(*x);
                assert forall|s: Seq<char>, i: int, j: int| #[trigger] mt(r, s, i, j) implies mt(
                    f,
                    s,
                    i,
                    j,
                ) by {
                    if exists|n: nat|
                        #[trigger] rep_count(n) && mn <= n && (mx matches Some(b) ==> n <= b)
                            && mt_rep(*x, n, s, i, j) {
                        let n = choose|n: nat|
                            #[trigger] rep_count(n) && mn <= n && (mx matches Some(b) ==> n <= b)
                                && mt_rep(*x, n, s, i, j);
                        let k = lemma_collect(*x, *y, mi, n, s, i, j);
                        assert(rep_count(k));
                    } else {
                        assert(i == j && mn == 1 && mt(*x, s, i, i));
                        assert(mt(inner, s, i, i));
                        if exists|k: nat|
                            #[trigger] rep_count(k) && mi <= k && (None::<u32> matches Some(b) ==> k
                                <= b) && mt_rep(*y, k, s, i, i) {
                            let k = choose|k: nat|
                                #[trigger] rep_count(k) && mi <= k && (None::<u32> matches Some(b)
                                    ==> k <= b) && mt_rep(*y, k, s, i, i);
                            lemma_rep_ordered(*y, k, s, i, i);
                            assert(k == 0 && mi == 0 && mf == 0);
                            assert(rep_count(0));
                        } else {
                            assert(mi == 1 && mf == 1 && mt(*y, s, i, i));
                        }
                    }
                }
                assert forall|s: Seq<char>, i: int, j: int| #[trigger] mt(f, s, i, j) implies mt(
                    r,
                    s,
                    i,
                    j,
                ) by {
                    if exists|k: nat|
                        #[trigger] rep_count(k) && mf <= k && (None::<u32> matches Some(b) ==> k
                            <= b) && mt_rep(*y, k, s, i, j) {
                        let k = choose|k: nat|
                            #[trigger] rep_count(k) && mf <= k && (None::<u32> matches Some(b) ==> k
                                <= b) && mt_rep(*y, k, s, i, j);
                        lemma_rep_ordered(*y, k, s, i, j);
                        if k == 0 {
                            assert(i == j);
                            if mn == 0 {
                                assert(mt_rep(*x, 0, s, i, j));
                                assert(rep_count(0));
                            } else {
                                assert(mi == 0);
                                assert(rep_count(0));
                                assert(mt(inner, s, i, i));
                                assert(mt(*x, s, i, i));
                            }
                        } else {
                            assert(rep_count(k));
                            assert(mt(inner, s, i, j));
                            assert(mt(*x, s, i, j));
                            assert(mt_rep(*x, 0, s, j, j));
                            assert(split_pos(j));
                            assert(mt_rep(*x, 1, s, i, j));
                            assert(rep_count(1));
                        }
                    } else {
                        assert(i == j && mf == 1 && mt(*y, s, i, i));
                        assert(mt(inner, s, i, i));
                        assert(mt(*x, s, i, i));
                    }
                }
            }
        }
    }
}

/// Both rules on a repeat keep exactly what it matches.
proof fn lemma_apply_rules(r: SpecAst)
    ensures
        implies_mt(r, apply_rules(r)),
        implies_mt(apply_rules(r), r),
{
    lemma_dedup_step(r);
    let d = after_dedup(r);
    lemma_flatten_step(d);
    if let Some(f) = flatten_step(d) {
        lemma_implies_trans(r, d, f);
        lemma_implies_trans(f, d, r);
    }
}

/// The rewrite matches exactly the spans that `a` matches.
pub proof fn lemma_rw_lang(a: SpecAst)
    ensures
        implies_mt(a, rw(a)),
        implies_mt(rw(a), a),
    decreases a, 1int,
{
    match a {
        SpecAst::Repeat(x, mn, mx) => {
            lemma_rw_lang(*x);
            let r1 = SpecAst::Repeat(Box::new(rw(*x)), mn, mx);
            lemma_repeat_mono(*x, rw(*x), mn, mx);
            lemma_repeat_mono(rw(*x), *x, mn, mx);
            lemma_apply_rules(r1);
            lemma_implies_trans(a, r1, rw(a));
            lemma_implies_trans(rw(a), r1, a);
        },
        SpecAst::Group(x) => {
            lemma_rw_lang(*x);
            assert forall|s: Seq<char>, i: int, j: int| #[trigger] mt(a, s, i, j) implies mt(
                rw(a),
                s,
                i,
                j,
            ) by {
                assert(mt(*x, s, i, j));
            }
            assert forall|s: Seq<char>, i: int, j: int| #[trigger] mt(rw(a), s, i, j) implies mt(
                a,
                s,
                i,
                j,
            ) by {
                assert(mt(rw(*x), s, i, j));
            }
        },
        SpecAst::Concat(ns) => {
            lemma_rw_list(ns, 0);
            lemma_rw_seq(ns);
            lemma_lists_mono(ns, rw_seq(ns));
            lemma_lists_mono(rw_seq(ns), ns);
        },
        SpecAst::Alternation(ns) => {
            lemma_rw_list(ns, 0);
            lemma_rw_seq(ns);
            lemma_lists_mono(ns, rw_seq(ns));
            lemma_lists_mono(rw_seq(ns), ns);
        },
        _ => {},
    }
}

/// [`lemma_rw_lang`] for each of `ns[k..]`.
proof fn lemma_rw_list(ns: Seq<SpecAst>, k: int)
    requires
        0 <= k,
    ensures
        forall|q: int| k <= q < ns.len() ==> #[trigger] implies_mt(ns[q], rw(ns[q])),
        forall|q: int| k <= q < ns.len() ==> #[trigger] implies_mt(rw(ns[q]), ns[q]),
    decreases ns, ns.len() - k,
{
    if k < ns.len() {
        lemma_rw_lang(ns[k]);
        lemma_rw_list(ns, k + 1);
    }
}

/// The rewrite of a pattern matches exactly the strings the pattern
/// matches: a rewrite never changes the language.
pub proof fn lemma_rewrite_same_language(a: SpecAst, s: Seq<char>)
    ensures
        full_match(rw(a), s) == full_match(a, s),
{
    lemma_rw_lang(a);
    if full_match(a, s) {
        assert(mt(a, s, 0, s.len() as int));
    }
    if full_match(rw(a), s) {
        assert(mt(rw(a), s, 0, s.len() as int));
    }
}

/// When no rule applies anywhere, the rewrite is the tree itself.
pub proof fn lemma_rw_identity(a: SpecAst)
    requires
        !fires(a),
    ensures
        rw(a) == a,
    decreases a, 1int,
{
    match a {
        SpecAst::Repeat(x, mn, mx) => {
            lemma_rw_identity(*x);
            assert(SpecAst::Repeat(Box::new(rw(*x)), mn, mx) == a);
        },
        SpecAst::Group(x) => {
            lemma_rw_identity(*x);
        },
        SpecAst::Concat(ns) => {
            lemma_rw_identity_list(ns);
        },
        SpecAst::Alternation(ns) => {
            lemma_rw_identity_list(ns);
        },
        _ => {},
    }
}

/// When no rule applies in any of `ns`, their rewrites are themselves.
proof fn lemma_rw_identity_list(ns: Seq<SpecAst>)
    requires
        forall|k: int| #[trigger] child_index(k) && 0 <= k < ns.len() ==> !fires(ns[k]),
    ensures
        rw_seq(ns) == ns,
    decreases ns, 0int,
{
    lemma_rw_seq(ns);
    assert forall|k: int| 0 <= k < ns.len() implies #[trigger] rw_seq(ns)[k] == ns[k] by {
        assert(child_index(k));
        lemma_rw_identity(ns[k]);
    }
    assert(rw_seq(ns) =~= ns);
}

/// Stripping groups off a tree in the grammar's shape leaves one.
proof fn lemma_peel_wf(x: SpecAst)
    requires
        wf_alt(x),
    ensures
        wf_alt(peel(x)),
    decreases x,
{
    if let SpecAst::Group(y) = x {
        lemma_peel_wf(*y);
    }
}

/// A branch made to stand as a repeat's operand is an atom.
proof fn lemma_as_atom_wf(b: SpecAst)
    requires
        wf_concat(b),
    ensures
        wf_atom(as_atom(b)),
{
}

/// The operand that deduplication puts in place of an alternation in the
/// grammar's shape is an atom.
proof fn lemma_dedup_node_wf(bs: Seq<SpecAst>)
    requires
        bs.len() >= 2,
        all_wf_concat(bs),
    ensures
        wf_atom(dedup_node(bs)),
{
    let d = dedup(bs);
    lemma_dedup_contains(bs);
    lemma_all_wf_concat(bs);
    lemma_all_wf_concat(d);
    assert(bs.contains(bs[0]));
    assert(d.contains(bs[0]));
    assert forall|k: int| 0 <= k < d.len() implies wf_concat(#[trigger] d[k]) by {
        assert(d.contains(d[k]));
        assert(bs.contains(d[k]));
        let q = choose|q: int| 0 <= q < bs.len() && bs[q] == d[k];
        assert(wf_concat(bs[q]));
    }
    if d.len() == 1 {
        lemma_as_atom_wf(d[0]);
    }
}

/// Both rules keep a repeat of an atom a repeat of an atom, with its bounds
/// in order.
proof fn lemma_apply_rules_wf(x: SpecAst, mn: u32, mx: Option<u32>)
    requires
        wf_atom(x),
        mx matches Some(m) ==> mn <= m,
    ensures
        wf_qatom(apply_rules(SpecAst::Repeat(Box::new(x), mn, mx))),
{
    let r = SpecAst::Repeat(Box::new(x), mn, mx);
    lemma_peel_wf(x);
    if let SpecAst::Alternation(bs) = peel(x) {
        if dedup_step(r) is Some {
            lemma_dedup_node_wf(bs);
        }
    }
    let d = after_dedup(r);
    if let SpecAst::Repeat(x2, mn2, mx2) = d {
        assert(wf_atom(*x2));
        lemma_peel_wf(*x2);
    }
}

/// The rewrite keeps each level of the grammar's shape.
proof fn lemma_rw_wf(a: SpecAst)
    ensures
        wf_atom(a) ==> wf_atom(rw(a)),
        wf_qatom(a) ==> wf_qatom(rw(a)),
        wf_concat(a) ==> wf_concat(rw(a)),
        wf_alt(a) ==> wf_alt(rw(a)),
    decreases a, 1int,
{
    match a {
        SpecAst::Repeat(x, mn, mx) => {
            lemma_rw_wf(*x);
            if wf_qatom(a) {
                lemma_apply_rules_wf(rw(*x), mn, mx);
            }
        },
        SpecAst::Group(x) => {
            lemma_rw_wf(*x);
        },
        SpecAst::Concat(ns) => {
            lemma_rw_wf_list(ns, 0);
            lemma_rw_seq(ns);
            lemma_all_wf_qatom(ns);
            lemma_all_wf_qatom(rw_seq(ns));
            if wf_concat(a) {
                assert forall|k: int| 0 <= k < rw_seq(ns).len() implies wf_qatom(
                    #[trigger] rw_seq(ns)[k],
                ) by {
                    assert(wf_qatom(ns[k]));
                }
            }
        },
        SpecAst::Alternation(ns) => {
            lemma_rw_wf_list(ns, 0);
            lemma_rw_seq(ns);
            lemma_all_wf_concat(ns);
            lemma_all_wf_concat(rw_seq(ns));
            if wf_alt(a) {
                assert forall|k: int| 0 <= k < rw_seq(ns).len() implies wf_concat(
                    #[trigger] rw_seq(ns)[k],
                ) by {
                    assert(wf_concat(ns[k]));
                }
            }
        },
        _ => {},
    }
}

/// [`lemma_rw_wf`] for each of `ns[k..]`.
proof fn lemma_rw_wf_list(ns: Seq<SpecAst>, k: int)
    requires
        0 <= k,
    ensures
        forall|q: int| k <= q < ns.len() ==> (wf_qatom(#[trigger] ns[q]) ==> wf_qatom(rw(ns[q]))),
        forall|q: int| k <= q < ns.len() ==> (wf_concat(#[trigger] ns[q]) ==> wf_concat(rw(ns[q]))),
    decreases ns, ns.len() - k,
{
    if k < ns.len() {
        lemma_rw_wf(ns[k]);
        lemma_rw_wf_list(ns, k + 1);
    }
}

/// A suggestion for a tree in the grammar's shape, within the length and
/// depth caps, reads back as exactly the rewritten tree: the caller can
/// re-parse and re-run it like any other pattern.
pub proof fn lemma_suggestion_reparses(a: SpecAst)
    requires
        wf_alt(a),
        within_caps(render(rw(a))),
    ensures
        spec_parse(render(rw(a))) == Ok::<SpecAst, (int, ParseErrorKind)>(rw(a)),
{
    lemma_rw_wf(a);
    lemma_parse_render(rw(a));
}

/// A suggestion made for a tree in the grammar's shape, within the length
/// and depth caps, reads back as a pattern that does not classify
/// Catastrophic and that matches exactly the strings the tree matches.
pub proof fn lemma_suggestion_is_safer(a: SpecAst, r: Seq<char>, s: Seq<char>)
    requires
        wf_alt(a),
        within_caps(render(rw(a))),
        spec_suggest(a) == Some(r),
    ensures
        spec_parse(r) == Ok::<SpecAst, (int, ParseErrorKind)>(rw(a)),
        spec_classify(rw(a)) != Risk::Catastrophic,
        full_match(rw(a), s) == full_match(a, s),
{
    lemma_suggestion_reparses(a);
    lemma_rewrite_same_language(a, s);
}


/// The number of nodes of `a`, groups not counted.
pub open spec fn node_count(a: SpecAst) -> nat
    decreases a, 1int,
{
    match a {
        SpecAst::Group(x) => node_count(*x),
        SpecAst::Repeat(x, _, _) => 1 + node_count(*x),
        SpecAst::Concat(ns) => 1 + nodes_count(ns),
        SpecAst::Alternation(ns) => 1 + nodes_count(ns),
        _ => 1,
    }
}

/// The number of nodes of the trees of `ns`, groups not counted.
pub open spec fn nodes_count(ns: Seq<SpecAst>) -> nat
    decreases ns, 0int,
{
    if ns.len() == 0 {
        0
    } else {
        nodes_count(ns.drop_last()) + node_count(ns.last())
    }
}

/// Every tree has a node that is not a group.
proof fn lemma_count_pos(a: SpecAst)
    ensures
        node_count(a) >= 1,
    decreases a,
{
    if let SpecAst::Group(x) = a {
        lemma_count_pos(*x);
    }
}

/// Stripping groups keeps the count.
proof fn lemma_count_peel(x: SpecAst)
    ensures
        node_count(peel(x)) == node_count(x),
    decreases x,
{
    if let SpecAst::Group(y) = x {
        lemma_count_peel(*y);
    }
}

/// Appending a tree adds its count.
proof fn lemma_count_push(ns: Seq<SpecAst>, b: SpecAst)
    ensures
        nodes_count(ns.push(b)) == nodes_count(ns) + node_count(b),
{
    assert(ns.push(b).drop_last() =~= ns);
}

/// Deduplication never adds nodes, and removes some when two trees of the
/// list are equal.
proof fn lemma_count_dedup(bs: Seq<SpecAst>)
    ensures
        nodes_count(dedup(bs)) <= nodes_count(bs),
        overlap(bs) ==> nodes_count(dedup(bs)) < nodes_count(bs),
    decreases bs.len(),
{
    if bs.len() > 0 {
        let rest = bs.drop_last();
        let last = bs.last();
        let d = dedup(rest);
        lemma_count_dedup(rest);
        lemma_count_pos(last);
        if !d.contains(last) {
            lemma_count_push(d, last);
            if overlap(bs) {
                let (i, j) = choose|i: int, j: int|
                    0 <= i < j < bs.len() && #[trigger] bs[i] == #[trigger] bs[j];
                if j == bs.len() - 1 {
                    assert(rest[i] == last);
                    assert(rest.contains(last));
                    lemma_dedup_contains(rest);
                } else {
                    assert(rest[i] == rest[j]);
                    assert(overlap(rest));
                }
            }
        }
    }
}

/// The operand that deduplication puts in place of an alternation over
/// equal trees has fewer nodes than the alternation.
proof fn lemma_count_dedup_node(bs: Seq<SpecAst>)
    requires
        overlap(bs),
    ensures
        node_count(dedup_node(bs)) < node_count(SpecAst::Alternation(bs)),
{
    let d = dedup(bs);
    lemma_count_dedup(bs);
    if d.len() == 1 {
        assert(d.drop_last().len() == 0);
        assert(nodes_count(d.drop_last()) == 0);
        assert(d.last() == d[0]);
        assert(nodes_count(d) == node_count(d[0]));
        assert(node_count(as_atom(d[0])) == node_count(d[0]));
        assert(dedup_node(bs) == as_atom(d[0]));
    } else {
        let g = SpecAst::Alternation(d);
        assert(dedup_node(bs) == SpecAst::Group(Box::new(g)));
        assert(node_count(SpecAst::Group(Box::new(g))) == node_count(g));
        assert(node_count(g) == 1 + nodes_count(d));
    }
    assert(nodes_count(d) < nodes_count(bs));
}

/// Each rule, where it applies, removes nodes from the repeat.
proof fn lemma_count_rules(r: SpecAst)
    ensures
        node_count(apply_rules(r)) <= node_count(r),
        rules_fire(r) ==> node_count(apply_rules(r)) < node_count(r),
{
    if let SpecAst::Repeat(x, mn, mx) = r {
        lemma_count_peel(*x);
        if let SpecAst::Alternation(bs) = peel(*x) {
            if overlap(bs) {
                lemma_count_dedup_node(bs);
            }
        }
    }
    let d = after_dedup(r);
    if let SpecAst::Repeat(x, mn, mx) = d {
        lemma_count_peel(*x);
    }
}

/// Rewriting never adds nodes, and removes some wherever a rule applies.
proof fn lemma_count_rw(a: SpecAst)
    ensures
        node_count(rw(a)) <= node_count(a),
        fires(a) ==> node_count(rw(a)) < node_count(a),
    decreases a, 1int,
{
    match a {
        SpecAst::Repeat(x, mn, mx) => {
            lemma_count_rw(*x);
            lemma_count_rules(SpecAst::Repeat(Box::new(rw(*x)), mn, mx));
        },
        SpecAst::Group(x) => {
            lemma_count_rw(*x);
        },
        SpecAst::Concat(ns) => {
            lemma_count_rw_list(ns);
        },
        SpecAst::Alternation(ns) => {
            lemma_count_rw_list(ns);
        },
        _ => {},
    }
}

/// [`lemma_count_rw`] over a list of trees.
proof fn lemma_count_rw_list(ns: Seq<SpecAst>)
    ensures
        nodes_count(rw_seq(ns)) <= nodes_count(ns),
        (exists|k: int| #[trigger] child_index(k) && 0 <= k < ns.len() && fires(ns[k]))
            ==> nodes_count(rw_seq(ns)) < nodes_count(ns),
    decreases ns, 0int,
{
    if ns.len() > 0 {
        let rest = ns.drop_last();
        lemma_count_rw_list(rest);
        lemma_count_rw(ns.last());
        lemma_count_push(rw_seq(rest), rw(ns.last()));
        if exists|k: int| #[trigger] child_index(k) && 0 <= k < ns.len() && fires(ns[k]) {
            let k = choose|k: int| #[trigger] child_index(k) && 0 <= k < ns.len() && fires(ns[k]);
            if k < ns.len() - 1 {
                assert(rest[k] == ns[k]);
                assert(child_index(k) && 0 <= k < rest.len() && fires(rest[k]));
            }
        }
    }
}

/// Rewriting never makes a tree larger, and wherever a rule applies it
/// makes the tree strictly smaller: the rewrite is then a different tree.
pub proof fn lemma_rewrite_shrinks(a: SpecAst)
    ensures
        node_count(rw(a)) <= node_count(a),
        fires(a) ==> node_count(rw(a)) < node_count(a),
        fires(a) ==> rw(a) != a,
{
    lemma_count_rw(a);
}

/// A rule that applies to a sub-tree applies within the whole tree.
proof fn lemma_fires_within(t: SpecAst, a: SpecAst)
    requires
        occurs_in(t, a),
        fires(t),
    ensures
        fires(a),
    decreases a,
{
    if t != a {
        match a {
            SpecAst::Repeat(x, _, _) => lemma_fires_within(t, *x),
            SpecAst::Group(x) => lemma_fires_within(t, *x),
            SpecAst::Concat(ns) => {
                let k = choose|k: int| #[trigger] child_index(k) && 0 <= k < ns.len() && occurs_in(t, ns[k]);
                lemma_fires_within(t, ns[k]);
            },
            SpecAst::Alternation(ns) => {
                let k = choose|k: int| #[trigger] child_index(k) && 0 <= k < ns.len() && occurs_in(t, ns[k]);
                lemma_fires_within(t, ns[k]);
            },
            _ => {},
        }
    }
}

/// A repeat anywhere in the tree (in any alternation branch or
/// concatenation member, at any depth) to which deduplication or
/// flattening applies as it stands makes the rewrite change the tree, and
/// makes it smaller.
pub proof fn lemma_rule_anywhere_rewrites(a: SpecAst, t: SpecAst)
    requires
        occurs_in(t, a),
        dedup_step(t) is Some || flatten_step(t) is Some,
    ensures
        fires(a),
        node_count(rw(a)) < node_count(a),
        rw(a) != a,
{
    if let SpecAst::Repeat(x, mn, mx) = t {
        if !fires(*x) {
            lemma_rw_identity(*x);
            assert(SpecAst::Repeat(Box::new(rw(*x)), mn, mx) == t);
            assert(rules_fire(t));
        }
        assert(fires(t));
    }
    lemma_fires_within(t, a);
    lemma_count_rw(a);
}

/// A suggestion is never the pattern handed back: the tree it renders has
/// fewer nodes than the tree it was made for. A pattern with no rule to
/// apply gets no suggestion.
pub proof fn lemma_suggestion_changes_the_tree(a: SpecAst)
    ensures
        spec_suggest(a) is Some ==> rw(a) != a && node_count(rw(a)) < node_count(a),
        !fires(a) ==> spec_suggest(a) is None,
{
    lemma_count_rw(a);
    if !fires(a) {
        lemma_rw_identity(a);
    }
}

} // verus!
