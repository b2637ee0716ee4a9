//! Safe-rewrite suggestions: proposes an equivalent-intent pattern that
//! removes the structural ambiguity responsible for catastrophic
//! backtracking.
//!
//! Two rules, each firing only on the exact ambiguous shape it knows how
//! to fix (seen through wrapping groups), applied to every repeat of the
//! tree from the leaves up:
//! - deduplication: a repeat over an alternation with equal branches keeps
//!   only the first of each (`(a|a)*` becomes `a*`);
//! - flattening: `(X+)+`, `(X*)*`, `(X+)*` and `(X*)+` collapse to a single
//!   `X+` or `X*`; the minimum drops to 0 whenever either repeat's minimum
//!   was 0.

use vstd::prelude::*;
use crate::model::{SpecAst, child_index};
use crate::parser::{Ast, views, lemma_views, lemma_views_push, same_ast, copy_ast, to_pattern};
use crate::grammar::render;
use crate::analyzer::{peel, overlap, peel_groups, classify, spec_classify, Risk};

verus! {

broadcast use vstd::std_specs::vec::group_vec_axioms;

/// `bs` with every branch equal to an earlier one removed.
pub open spec fn dedup(bs: Seq<SpecAst>) -> Seq<SpecAst>
    decreases bs.len(),
{
    if bs.len() == 0 {
        seq![]
    } else {
        let d = dedup(bs.drop_last());
        if d.contains(bs.last()) {
            d
        } else {
            d.push(bs.last())
        }
    }
}

/// `b` itself if it can stand as a repeat's operand, else `b` in a group.
pub open spec fn as_atom(b: SpecAst) -> SpecAst {
    match b {
        SpecAst::Literal(_) => b,
        SpecAst::Class(_, _) => b,
        SpecAst::AnchorStart => b,
        SpecAst::AnchorEnd => b,
        SpecAst::Group(_) => b,
        _ => SpecAst::Group(Box::new(b)),
    }
}

/// The repeat operand that replaces an alternation over `bs`: the one
/// remaining branch, or a group of the remaining branches.
pub open spec fn dedup_node(bs: Seq<SpecAst>) -> SpecAst {
    let d = dedup(bs);
    if d.len() == 1 {
        as_atom(d[0])
    } else {
        SpecAst::Group(Box::new(SpecAst::Alternation(d)))
    }
}

/// The deduplication rule on a repeat, if it applies.
pub open spec fn dedup_step(r: SpecAst) -> Option<SpecAst> {
    match r {
        SpecAst::Repeat(x, mn, mx) => match peel(*x) {
            SpecAst::Alternation(bs) => if overlap(bs) {
                Some(SpecAst::Repeat(Box::new(dedup_node(bs)), mn, mx))
            } else {
                None
            },
            _ => None,
        },
        _ => None,
    }
}

/// The flattening rule on a repeat, if it applies.
pub open spec fn flatten_step(r: SpecAst) -> Option<SpecAst> {
    match r {
        SpecAst::Repeat(x, mn, mx) => if mn <= 1 && mx is None {
            match peel(*x) {
                SpecAst::Repeat(y, mi, my) => if mi <= 1 && my is None {
                    Some(
                        SpecAst::Repeat(
                            y,
                            if mn == 1 && mi == 1 {
                                1
                            } else {
                                0
                            },
                            None,
                        ),
                    )
                } else {
                    None
                },
                _ => None,
            }
        } else {
            None
        },
        _ => None,
    }
}

/// A repeat after deduplication.
pub open spec fn after_dedup(r: SpecAst) -> SpecAst {
    match dedup_step(r) {
        Some(d) => d,
        None => r,
    }
}

/// A repeat after both rules.
pub open spec fn apply_rules(r: SpecAst) -> SpecAst {
    match flatten_step(after_dedup(r)) {
        Some(f) => f,
        None => after_dedup(r),
    }
}

/// Does either rule apply to the repeat `r`?
pub open spec fn rules_fire(r: SpecAst) -> bool {
    dedup_step(r) is Some || flatten_step(after_dedup(r)) is Some
}

/// The rewrite of a tree: every repeat rewritten from the leaves up.
pub open spec fn rw(a: SpecAst) -> SpecAst
    decreases a, 1int,
{
    match a {
        SpecAst::Repeat(x, mn, mx) => apply_rules(SpecAst::Repeat(Box::new(rw(*x)), mn, mx)),
        SpecAst::Group(x) => SpecAst::Group(Box::new(rw(*x))),
        SpecAst::Concat(ns) => SpecAst::Concat(rw_seq(ns)),
        SpecAst::Alternation(ns) => SpecAst::Alternation(rw_seq(ns)),
        _ => a,
    }
}

/// The rewrites of a list of trees.
pub open spec fn rw_seq(ns: Seq<SpecAst>) -> Seq<SpecAst>
    decreases ns, 0int,
{
    if ns.len() == 0 {
        seq![]
    } else {
        rw_seq(ns.drop_last()).push(rw(ns.last()))
    }
}

/// Does a rule apply anywhere in the tree?
pub open spec fn fires(a: SpecAst) -> bool
    decreases a,
{
    match a {
        SpecAst::Repeat(x, mn, mx) => fires(*x) || rules_fire(
            SpecAst::Repeat(Box::new(rw(*x)), mn, mx),
        ),
        SpecAst::Group(x) => fires(*x),
        SpecAst::Concat(ns) => exists|k: int|
            #[trigger] child_index(k) && 0 <= k < ns.len() && fires(ns[k]),
        SpecAst::Alternation(ns) => exists|k: int|
            #[trigger] child_index(k) && 0 <= k < ns.len() && fires(ns[k]),
        _ => false,
    }
}

/// The suggestion for a tree: its rewrite, rendered as a pattern, when a
/// rule applies somewhere and the rewrite does not classify Catastrophic.
pub open spec fn spec_suggest(a: SpecAst) -> Option<Seq<char>> {
    if fires(a) && spec_classify(rw(a)) != Risk::Catastrophic {
        Some(render(rw(a)))
    } else {
        None
    }
}

/// `rw_seq` keeps the length and rewrites each tree in place.
pub(crate) proof fn lemma_rw_seq(ns: Seq<SpecAst>)
    ensures
        rw_seq(ns).len() == ns.len(),
        forall|i: int| 0 <= i < ns.len() ==> #[trigger] rw_seq(ns)[i] == rw(ns[i]),
    decreases ns.len(),
{
    if ns.len() > 0 {
        lemma_rw_seq(ns.drop_last());
    }
}

/// Is `b` among the trees of `nodes`?
fn contains_tree(nodes: &Vec<Ast>, b: &Ast) -> (r: bool)
    ensures
        r == views(nodes@).contains(b@),
{
    proof {
        lemma_views(nodes@);
    }
    let mut i: usize = 0;
    while i < nodes.len()
        invariant
            i <= nodes.len(),
            views(nodes@).len() == nodes.len(),
            forall|j: int| 0 <= j < nodes.len() ==> #[trigger] views(nodes@)[j] == nodes@[j]@,
            forall|j: int| 0 <= j < i ==> views(nodes@)[j] != b@,
        decreases nodes.len() - i,
    {
        if same_ast(&nodes[i], b) {
            proof {
                assert(views(nodes@)[i as int] == b@);
            }
            return true;
        }
        i += 1;
    }
    false
}

/// The branches of `bs` without those equal to an earlier one.
fn dedup_branches(bs: &Vec<Ast>) -> (d: Vec<Ast>)
    ensures
        views(d@) == dedup(views(bs@)),
{
    let ghost vs = views(bs@);
    proof {
        lemma_views(bs@);
    }
    let mut out: Vec<Ast> = Vec::new();
    let mut i: usize = 0;
    proof {
        assert(vs.take(0) =~= Seq::<SpecAst>::empty());
    }
    while i < bs.len()
        invariant
            i <= bs.len(),
            vs == views(bs@),
            vs.len() == bs.len(),
            forall|j: int| 0 <= j < bs.len() ==> #[trigger] vs[j] == bs@[j]@,
            views(out@) == dedup(vs.take(i as int)),
        decreases bs.len() - i,
    {
        proof {
            assert(vs.take(i + 1).drop_last() =~= vs.take(i as int));
            assert(vs.take(i + 1).last() == bs@[i as int]@);
        }
        if !contains_tree(&out, &bs[i]) {
            let c = copy_ast(&bs[i]);
            proof {
                lemma_views_push(out@, c);
            }
            out.push(c);
        }
        i += 1;
    }
    proof {
        assert(vs.take(bs.len() as int) =~= vs);
    }
    out
}

/// `b` itself if it can stand as a repeat's operand, else `b` in a group.
fn atom_of(b: Ast) -> (r: Ast)
    ensures
        r@ == as_atom(b@),
{
    let stands = match &b {
        Ast::Literal(_) | Ast::CharClass(_) | Ast::AnchorStart | Ast::AnchorEnd | Ast::Group(_) => true,
        _ => false,
    };
    if stands {
        b
    } else {
        Ast::Group(Box::new(b))
    }
}

/// The repeat operand that replaces an alternation over `bs`.
fn dedup_operand(bs: &Vec<Ast>) -> (r: Ast)
    ensures
        r@ == dedup_node(views(bs@)),
{
    let mut d = dedup_branches(bs);
    proof {
        lemma_views(d@);
    }
    if d.len() == 1 {
        let ghost before = d@;
        let only = d.pop().unwrap();
        proof {
            assert(only == before[0]);
            assert(views(before)[0] == only@);
            assert(dedup(views(bs@))[0] == only@);
        }
        atom_of(only)
    } else {
        let alt = Ast::Alternation(d);
        assert(alt@ == SpecAst::Alternation(views(d@)));
        Ast::Group(Box::new(alt))
    }
}

/// The deduplication rule on the repeat of `body`, if it applies.
fn dedup_rule(body: &Ast, min: u32, max: Option<u32>) -> (r: Option<Ast>)
    ensures
        r matches Some(n) ==> dedup_step(SpecAst::Repeat(Box::new(body@), min, max)) == Some(n@),
        r is None ==> dedup_step(SpecAst::Repeat(Box::new(body@), min, max)) is None,
{
    match peel_groups(body) {
        Ast::Alternation(branches) => {
            if crate::analyzer::branches_overlap(branches) {
                let operand = dedup_operand(branches);
                Some(Ast::Repeat { node: Box::new(operand), min, max })
            } else {
                None
            }
        },
        _ => None,
    }
}

/// The flattening rule on the repeat of `body`, if it applies.
fn flatten_rule(body: &Ast, min: u32, max: Option<u32>) -> (r: Option<Ast>)
    ensures
        r matches Some(n) ==> flatten_step(SpecAst::Repeat(Box::new(body@), min, max)) == Some(
            n@,
        ),
        r is None ==> flatten_step(SpecAst::Repeat(Box::new(body@), min, max)) is None,
{
    if min > 1 || max.is_some() {
        return None;
    }
    match peel_groups(body) {
        Ast::Repeat { node, min: inner_min, max: inner_max } => {
            if *inner_min <= 1 && inner_max.is_none() {
                let flat_min: u32 = if min == 1 && *inner_min == 1 {
                    1
                } else {
                    0
                };
                Some(Ast::Repeat { node: Box::new(copy_ast(node)), min: flat_min, max: None })
            } else {
                None
            }
        },
        _ => None,
    }
}

/// Both rules on the repeat of `body`: the rewritten repeat, and whether a
/// rule applied.
fn rules_on(body: Ast, min: u32, max: Option<u32>) -> (r: (Ast, bool))
    ensures
        r.0@ == apply_rules(SpecAst::Repeat(Box::new(body@), min, max)),
        r.1 == rules_fire(SpecAst::Repeat(Box::new(body@), min, max)),
{
    let ghost rep = SpecAst::Repeat(Box::new(body@), min, max);
    let (after, deduped) = match dedup_rule(&body, min, max) {
        Some(n) => (n, true),
        None => (Ast::Repeat { node: Box::new(body), min, max }, false),
    };
    assert(after@ == after_dedup(rep));
    let (body2, min2, max2) = match &after {
        Ast::Repeat { node, min, max } => (node, *min, *max),
        _ => {
            return (after, deduped);
        },
    };
    match flatten_rule(body2, min2, max2) {
        Some(f) => (f, true),
        None => (after, deduped),
    }
}

/// The rewrite of `ast`, and whether a rule applied anywhere in it.
fn rewrite_tree(ast: &Ast) -> (r: (Ast, bool))
    ensures
        r.0@ == rw(ast@),
        r.1 == fires(ast@),
    decreases ast, 1int,
{
    match ast {
        Ast::Repeat { node, min, max } => {
            let (body, inner_fired) = rewrite_tree(node);
            let (rep, fired_here) = rules_on(body, *min, *max);
            (rep, inner_fired || fired_here)
        },
        Ast::Group(inner) => {
            let (body, fired) = rewrite_tree(inner);
            (Ast::Group(Box::new(body)), fired)
        },
        Ast::Concat(nodes) => {
            let (ns, fired) = rewrite_trees(nodes);
            (Ast::Concat(ns), fired)
        },
        Ast::Alternation(nodes) => {
            let (ns, fired) = rewrite_trees(nodes);
            (Ast::Alternation(ns), fired)
        },
        _ => (copy_ast(ast), false),
    }
}

/// The rewrites of `nodes`, and whether a rule applied in any of them.
fn rewrite_trees(nodes: &Vec<Ast>) -> (r: (Vec<Ast>, bool))
    ensures
        views(r.0@) == rw_seq(views(nodes@)),
        r.1 == (exists|k: int|
            #[trigger] child_index(k) && 0 <= k < views(nodes@).len() && fires(views(nodes@)[k])),
    decreases nodes, 0int,
{
    let ghost vs = views(nodes@);
    proof {
        lemma_views(nodes@);
        lemma_rw_seq(vs);
    }
    let mut out: Vec<Ast> = Vec::new();
    let mut fired = false;
    let mut i: usize = 0;
    proof {
        assert(vs.take(0) =~= Seq::<SpecAst>::empty());
    }
    while i < nodes.len()
        invariant
            i <= nodes.len(),
            vs == views(nodes@),
            vs.len() == nodes.len(),
            forall|j: int| 0 <= j < nodes.len() ==> #[trigger] vs[j] == nodes@[j]@,
            views(out@) == rw_seq(vs.take(i as int)),
            fired == (exists|k: int| #[trigger] child_index(k) && 0 <= k < i && fires(vs[k])),
        decreases nodes.len() - i,
    {
        let (n, f) = rewrite_tree(&nodes[i]);
        proof {
            assert(vs.take(i + 1).drop_last() =~= vs.take(i as int));
            lemma_views_push(out@, n);
            if f {
                assert(child_index(i as int));
            }
        }
        out.push(n);
        fired = fired || f;
        i += 1;
    }
    proof {
        assert(vs.take(nodes.len() as int) =~= vs);
    }
    (out, fired)
}

/// Suggest a safer rewrite of `pattern` (parsed as `ast`), if one is known.
///
/// `None` means no automated fix is known for this shape: no rule applies,
/// or the rewrite still classifies Catastrophic (a rule fixed one repeat,
/// but an ambiguity the rules do not know remains). Otherwise the
/// rewritten tree is rendered back into a pattern the caller can re-parse
/// and re-run.
pub fn suggest(ast: &Ast, _pattern: &str) -> (r: Option<String>)
    ensures
        r matches Some(s) ==> spec_suggest(ast@) == Some(s@),
        r is None ==> spec_suggest(ast@) is None,
{
    let (rewritten, fired) = rewrite_tree(ast);
    if !fired {
        return None;
    }
    match classify(&rewritten) {
        Risk::Catastrophic => None,
        _ => Some(to_pattern(&rewritten)),
    }
}

} // verus!
