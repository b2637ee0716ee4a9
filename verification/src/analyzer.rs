//! ReDoS risk analysis: combines AST ambiguity detection with the
//! instrumented engine's measured step growth to classify risk.

use vstd::prelude::*;
use crate::model::{SpecAst, child_index, occurs_in};
use crate::parser::{Ast, views, lemma_views, same_ast};
use crate::engine::{run_with_ceiling, spec_run};
use crate::generator::{worst_case, spec_worst_case};

verus! {

/// Input lengths (repetitions of the generated worst-case unit) probed
/// when measuring step growth. Three points are enough to distinguish
/// "grows a bit" from "grows explosively" without spending too many steps
/// on patterns that turn out to be safe.
pub const SHORT_PROBE: usize = 8;
/// The middle probe length.
pub const MIDDLE_PROBE: usize = 16;
/// The longest probe length.
pub const LONG_PROBE: usize = 24;

/// Step ceiling used while probing growth — high enough that a truly
/// catastrophic pattern blows straight through it (an unambiguous signal),
/// but bounded so classification itself can never hang.
pub const PROBE_CEILING: u64 = 2_000_000;

/// A growth ratio (last probe's steps / first probe's steps) above this
/// is treated as exponential/high-polynomial blowup.
pub const CATASTROPHIC_GROWTH: u64 = 4;
/// A growth ratio above `SUSPICIOUS_GROWTH_NUM / SUSPICIOUS_GROWTH_DEN`
/// (but not above [`CATASTROPHIC_GROWTH`]) is treated as worth a second
/// look rather than dismissed as safe.
pub const SUSPICIOUS_GROWTH_NUM: u64 = 3;
/// The denominator of the suspicious growth ratio.
pub const SUSPICIOUS_GROWTH_DEN: u64 = 2;

/// How dangerous a pattern's backtracking is, in increasing order.
#[derive(Debug, Clone, Copy, PartialEq, Eq, PartialOrd, Ord)]
pub enum Risk {
    Safe,
    Suspicious,
    Catastrophic,
}

/// `a` with its wrapping groups stripped.
pub open spec fn peel(a: SpecAst) -> SpecAst
    decreases a,
{
    match a {
        SpecAst::Group(x) => peel(*x),
        _ => a,
    }
}

/// Two branches of `bs` are the same tree.
pub open spec fn overlap(bs: Seq<SpecAst>) -> bool {
    exists|i: int, j: int| 0 <= i < j < bs.len() && #[trigger] bs[i] == #[trigger] bs[j]
}

/// `a` contains a repeat whose count is not pinned to one number.
pub open spec fn variable_length(a: SpecAst) -> bool
    decreases a,
{
    match a {
        SpecAst::Repeat(x, mn, mx) => mx != Some(mn) || variable_length(*x),
        SpecAst::Concat(ns) => exists|k: int|
            #[trigger] child_index(k) && 0 <= k < ns.len() && variable_length(ns[k]),
        SpecAst::Alternation(ns) => exists|k: int|
            #[trigger] child_index(k) && 0 <= k < ns.len() && variable_length(ns[k]),
        SpecAst::Group(x) => variable_length(*x),
        _ => false,
    }
}

/// The body `x` of a repeat is ambiguous in itself: it is (under groups) a
/// repeat, or an alternation with two equal branches, or it holds a
/// variable-length repeat.
pub open spec fn ambiguous_body(x: SpecAst) -> bool {
    ||| peel(x) is Repeat
    ||| (peel(x) matches SpecAst::Alternation(bs) && overlap(bs))
    ||| variable_length(x)
}

/// `a` contains a repeat whose body can match the same input in more than
/// one way.
pub open spec fn ambiguous(a: SpecAst) -> bool
    decreases a,
{
    match a {
        SpecAst::Repeat(x, _, _) => ambiguous_body(*x) || ambiguous(*x),
        SpecAst::Concat(ns) => exists|k: int|
            #[trigger] child_index(k) && 0 <= k < ns.len() && ambiguous(ns[k]),
        SpecAst::Alternation(ns) => exists|k: int|
            #[trigger] child_index(k) && 0 <= k < ns.len() && ambiguous(ns[k]),
        SpecAst::Group(x) => ambiguous(*x),
        _ => false,
    }
}

/// The steps the engine takes on the worst-case input of `reps` units,
/// under the probe ceiling.
pub open spec fn probe(a: SpecAst, reps: nat) -> nat {
    spec_run(a, spec_worst_case(a, reps), PROBE_CEILING as nat).1
}

/// The verdict of the measured growth from `first` to `last` steps.
pub open spec fn growth_risk(first: nat, last: nat) -> Risk {
    let f = if first == 0 {
        1
    } else {
        first
    };
    if last > CATASTROPHIC_GROWTH * f {
        Risk::Catastrophic
    } else if SUSPICIOUS_GROWTH_DEN * last > SUSPICIOUS_GROWTH_NUM * f {
        Risk::Suspicious
    } else {
        Risk::Safe
    }
}

/// The risk of `a`: safe unless it is structurally ambiguous; then
/// catastrophic if some probe reaches the ceiling, else the verdict of
/// the growth from the shortest to the longest probe.
pub open spec fn spec_classify(a: SpecAst) -> Risk {
    if !ambiguous(a) {
        Risk::Safe
    } else if probe(a, SHORT_PROBE as nat) >= PROBE_CEILING || probe(a, MIDDLE_PROBE as nat)
        >= PROBE_CEILING || probe(a, LONG_PROBE as nat) >= PROBE_CEILING {
        Risk::Catastrophic
    } else {
        growth_risk(probe(a, SHORT_PROBE as nat), probe(a, LONG_PROBE as nat))
    }
}

/// Strips wrapping groups down to the node they contain.
pub(crate) fn peel_groups(ast: &Ast) -> (r: &Ast)
    ensures
        r@ == peel(ast@),
    decreases ast,
{
    match ast {
        Ast::Group(inner) => peel_groups(inner),
        other => other,
    }
}

/// Do any two branches of an alternation overlap (accept the same input),
/// making the repeated choice among them ambiguous? Structural equality
/// catches the canonical case (`a|a`); it won't catch every semantically
/// overlapping pair (e.g. `a|[a-z]`), but is precise enough to seed real
/// candidates without false-flagging things like `a|b`.
pub(crate) fn branches_overlap(branches: &Vec<Ast>) -> (r: bool)
    ensures
        r == overlap(views(branches@)),
{
    let ghost bs = views(branches@);
    proof {
        lemma_views(branches@);
    }
    let mut i: usize = 0;
    while i < branches.len()
        invariant
            i <= branches.len(),
            bs == views(branches@),
            bs.len() == branches.len(),
            forall|k: int| 0 <= k < branches.len() ==> #[trigger] bs[k] == branches@[k]@,
            forall|p: int, q: int| 0 <= p < i && p < q < bs.len() ==> bs[p] != bs[q],
        decreases branches.len() - i,
    {
        let mut j: usize = i + 1;
        while j < branches.len()
            invariant
                i < branches.len(),
                i + 1 <= j <= branches.len(),
                bs == views(branches@),
                bs.len() == branches.len(),
                forall|k: int| 0 <= k < branches.len() ==> #[trigger] bs[k] == branches@[k]@,
                forall|p: int, q: int| 0 <= p < i && p < q < bs.len() ==> bs[p] != bs[q],
                forall|q: int| i < q < j ==> bs[i as int] != #[trigger] bs[q],
            decreases branches.len() - j,
        {
            if same_ast(&branches[i], &branches[j]) {
                proof {
                    assert(bs[i as int] == bs[j as int]);
                }
                return true;
            }
            j += 1;
        }
        i += 1;
    }
    false
}

/// Can `ast` match strings of more than one possible length — does it
/// contain a repeat whose count isn't pinned to an exact number (i.e.
/// `min != max`)? A repeated body with variable length lets the *same*
/// input be split across the outer repeat's iterations in more than one
/// way, which is the same source of ambiguity as a directly-nested repeat
/// even when it's buried inside a `Concat` alongside other elements — e.g.
/// `(\w+\s?)*`: the outer `*` isn't wrapped around a bare repeat, but `\w+`
/// inside it is still variable-length, so a run of word characters can be
/// split across outer iterations exponentially many ways.
fn has_variable_length_repeat(ast: &Ast) -> (r: bool)
    ensures
        r == variable_length(ast@),
    decreases ast, 1int,
{
    match ast {
        Ast::Repeat { node, min, max } => {
            let pinned = match max {
                Some(m) => *m == *min,
                None => false,
            };
            !pinned || has_variable_length_repeat(node)
        },
        Ast::Concat(nodes) => any_variable_length(nodes),
        Ast::Alternation(nodes) => any_variable_length(nodes),
        Ast::Group(inner) => has_variable_length_repeat(inner),
        _ => false,
    }
}

/// Does some node of `nodes` contain a variable-length repeat?
fn any_variable_length(nodes: &Vec<Ast>) -> (r: bool)
    ensures
        r == (exists|k: int|
            #[trigger] child_index(k) && 0 <= k < views(nodes@).len() && variable_length(
                views(nodes@)[k],
            )),
    decreases nodes, 0int,
{
    let ghost vs = views(nodes@);
    proof {
        lemma_views(nodes@);
    }
    let mut i: usize = 0;
    while i < nodes.len()
        invariant
            i <= nodes.len(),
            vs == views(nodes@),
            vs.len() == nodes.len(),
            forall|j: int| 0 <= j < nodes.len() ==> #[trigger] vs[j] == nodes@[j]@,
            forall|j: int| 0 <= j < i ==> !variable_length(#[trigger] vs[j]),
        decreases nodes.len() - i,
    {
        if has_variable_length_repeat(&nodes[i]) {
            proof {
                assert(child_index(i as int));
            }
            return true;
        }
        i += 1;
    }
    false
}

/// Does `ast` contain a repeat whose body can match the same input in
/// more than one way — the structural shape (nested quantifiers,
/// overlapping alternation under a repeat, or any variable-length
/// sub-repeat under a repeat) behind catastrophic backtracking?
pub fn has_ambiguous_repeat(ast: &Ast) -> (r: bool)
    ensures
        r == ambiguous(ast@),
    decreases ast, 1int,
{
    match ast {
        Ast::Repeat { node, .. } => {
            let inner = peel_groups(node);
            let nested = match inner {
                Ast::Repeat { .. } => true,
                _ => false,
            };
            let overlapping = match inner {
                Ast::Alternation(branches) => branches_overlap(branches),
                _ => false,
            };
            let flagged = nested || overlapping || has_variable_length_repeat(node);
            flagged || has_ambiguous_repeat(node)
        },
        Ast::Concat(nodes) => any_ambiguous(nodes),
        Ast::Alternation(nodes) => any_ambiguous(nodes),
        Ast::Group(inner) => has_ambiguous_repeat(inner),
        _ => false,
    }
}

/// Does some node of `nodes` contain an ambiguous repeat?
fn any_ambiguous(nodes: &Vec<Ast>) -> (r: bool)
    ensures
        r == (exists|k: int|
            #[trigger] child_index(k) && 0 <= k < views(nodes@).len() && ambiguous(
                views(nodes@)[k],
            )),
    decreases nodes, 0int,
{
    let ghost vs = views(nodes@);
    proof {
        lemma_views(nodes@);
    }
    let mut i: usize = 0;
    while i < nodes.len()
        invariant
            i <= nodes.len(),
            vs == views(nodes@),
            vs.len() == nodes.len(),
            forall|j: int| 0 <= j < nodes.len() ==> #[trigger] vs[j] == nodes@[j]@,
            forall|j: int| 0 <= j < i ==> !ambiguous(#[trigger] vs[j]),
        decreases nodes.len() - i,
    {
        if has_ambiguous_repeat(&nodes[i]) {
            proof {
                assert(child_index(i as int));
            }
            return true;
        }
        i += 1;
    }
    false
}

/// A worst-case input is at most one character longer than its units.
proof fn lemma_worst_case_len(a: SpecAst, reps: nat)
    ensures
        spec_worst_case(a, reps).len() <= reps + 1,
{
}

/// Classify the ReDoS risk of `ast`.
///
/// Structural ambiguity (`has_ambiguous_repeat`) seeds *candidates* — it
/// never classifies on its own. The verdict comes from actually running
/// the instrumented engine against generated worst-case inputs at
/// increasing lengths and measuring how steeply the step count grows:
/// that's what makes the result trustworthy rather than pattern-matched.
pub fn classify(ast: &Ast) -> (risk: Risk)
    ensures
        risk == spec_classify(ast@),
{
    if !has_ambiguous_repeat(ast) {
        return Risk::Safe;
    }
    let mut steps: Vec<u64> = Vec::new();
    let mut k: usize = 0;
    while k < 3
        invariant
            k <= 3,
            ambiguous(ast@),
            steps@.len() == k,
            forall|p: int| 0 <= p < k ==> #[trigger] steps@[p] == probe(ast@, probe_length(p)),
            forall|p: int| 0 <= p < k ==> #[trigger] probe(ast@, probe_length(p)) < PROBE_CEILING,
        decreases 3 - k,
    {
        let len = if k == 0 {
            SHORT_PROBE
        } else if k == 1 {
            MIDDLE_PROBE
        } else {
            LONG_PROBE
        };
        assert(len == probe_length(k as int));
        let input = worst_case(ast, len);
        proof {
            lemma_worst_case_len(ast@, len as nat);
        }
        let trace = run_with_ceiling(ast, &input, PROBE_CEILING);
        if trace.truncated {
            // Hit the ceiling before even reaching a verdict — an
            // unambiguous sign of catastrophic blowup.
            return Risk::Catastrophic;
        }
        steps.push(trace.steps);
        k += 1;
    }
    assert(probe_length(0) == SHORT_PROBE && probe_length(1) == MIDDLE_PROBE && probe_length(2)
        == LONG_PROBE);
    assert(steps@[0] == probe(ast@, SHORT_PROBE as nat));
    assert(steps@[1] == probe(ast@, MIDDLE_PROBE as nat));
    assert(steps@[2] == probe(ast@, LONG_PROBE as nat));
    let first = if steps[0] == 0 {
        1
    } else {
        steps[0]
    };
    let last = steps[2];
    if last > CATASTROPHIC_GROWTH * first {
        Risk::Catastrophic
    } else if SUSPICIOUS_GROWTH_DEN * last > SUSPICIOUS_GROWTH_NUM * first {
        Risk::Suspicious
    } else {
        Risk::Safe
    }
}

/// The probe lengths, in order.
pub open spec fn probe_length(k: int) -> nat {
    if k == 0 {
        SHORT_PROBE as nat
    } else if k == 1 {
        MIDDLE_PROBE as nat
    } else {
        LONG_PROBE as nat
    }
}

/// A pattern with no structurally ambiguous repeat classifies Safe: the
/// engine is only consulted for candidates.
pub proof fn lemma_unflagged_is_safe(a: SpecAst)
    requires
        !ambiguous(a),
    ensures
        spec_classify(a) == Risk::Safe,
{
}


/// `t` is a repeat whose count is not pinned to one number (`min != max`).
pub open spec fn unpinned_repeat(t: SpecAst) -> bool {
    t matches SpecAst::Repeat(_, mn, mx) && mx != Some(mn)
}

/// A tree holds a variable-length repeat exactly when some sub-tree of it,
/// at any depth and in any branch or member, is a repeat whose count is not
/// pinned.
pub proof fn lemma_variable_length_iff(a: SpecAst)
    ensures
        variable_length(a) <==> exists|t: SpecAst| #[trigger] occurs_in(t, a) && unpinned_repeat(t),
    decreases a, 1int,
{
    match a {
        SpecAst::Repeat(x, mn, mx) => {
            lemma_variable_length_iff(*x);
            if variable_length(a) {
                if mx != Some(mn) {
                    assert(occurs_in(a, a) && unpinned_repeat(a));
                } else {
                    let t = choose|t: SpecAst| #[trigger] occurs_in(t, *x) && unpinned_repeat(t);
                    assert(occurs_in(t, a));
                }
            }
            if exists|t: SpecAst| #[trigger] occurs_in(t, a) && unpinned_repeat(t) {
                let t = choose|t: SpecAst| #[trigger] occurs_in(t, a) && unpinned_repeat(t);
                if t != a {
                    assert(occurs_in(t, *x));
                }
            }
        },
        SpecAst::Group(x) => {
            lemma_variable_length_iff(*x);
            if variable_length(a) {
                let t = choose|t: SpecAst| #[trigger] occurs_in(t, *x) && unpinned_repeat(t);
                assert(occurs_in(t, a));
            }
            if exists|t: SpecAst| #[trigger] occurs_in(t, a) && unpinned_repeat(t) {
                let t = choose|t: SpecAst| #[trigger] occurs_in(t, a) && unpinned_repeat(t);
                assert(occurs_in(t, *x));
            }
        },
        SpecAst::Concat(ns) => {
            lemma_variable_length_each(ns);
            lemma_variable_length_members(a, ns);
        },
        SpecAst::Alternation(ns) => {
            lemma_variable_length_each(ns);
            lemma_variable_length_members(a, ns);
        },
        _ => {
            if exists|t: SpecAst| #[trigger] occurs_in(t, a) && unpinned_repeat(t) {
                let t = choose|t: SpecAst| #[trigger] occurs_in(t, a) && unpinned_repeat(t);
                assert(t == a);
            }
        },
    }
}

/// [`lemma_variable_length_iff`] for each member of `ns`.
proof fn lemma_variable_length_each(ns: Seq<SpecAst>)
    ensures
        forall|k: int|
            0 <= k < ns.len() ==> (variable_length(#[trigger] ns[k]) <==> exists|t: SpecAst|
                #[trigger] occurs_in(t, ns[k]) && unpinned_repeat(t)),
    decreases ns, 0int,
{
    assert forall|k: int| 0 <= k < ns.len() implies (variable_length(#[trigger] ns[k]) <==> exists|
        t: SpecAst,
    | #[trigger] occurs_in(t, ns[k]) && unpinned_repeat(t)) by {
        lemma_variable_length_iff(ns[k]);
    }
}

/// The members case of [`lemma_variable_length_iff`], given it for each
/// member.
proof fn lemma_variable_length_members(a: SpecAst, ns: Seq<SpecAst>)
    requires
        a == SpecAst::Concat(ns) || a == SpecAst::Alternation(ns),
        forall|k: int|
            0 <= k < ns.len() ==> (variable_length(#[trigger] ns[k]) <==> exists|t: SpecAst|
                #[trigger] occurs_in(t, ns[k]) && unpinned_repeat(t)),
    ensures
        variable_length(a) <==> exists|t: SpecAst| #[trigger] occurs_in(t, a) && unpinned_repeat(t),
{
    if variable_length(a) {
        let k = choose|k: int| #[trigger] child_index(k) && 0 <= k < ns.len() && variable_length(ns[k]);
        let t = choose|t: SpecAst| #[trigger] occurs_in(t, ns[k]) && unpinned_repeat(t);
        assert(occurs_in(t, a));
    }
    if exists|t: SpecAst| #[trigger] occurs_in(t, a) && unpinned_repeat(t) {
        let t = choose|t: SpecAst| #[trigger] occurs_in(t, a) && unpinned_repeat(t);
        if t == a {
            assert(!unpinned_repeat(a));
        } else {
            let k = choose|k: int| #[trigger] child_index(k) && 0 <= k < ns.len() && occurs_in(t, ns[k]);
            assert(variable_length(ns[k]));
        }
    }
}

/// A tree is ambiguous when any sub-tree of it is.
pub proof fn lemma_ambiguous_within(r: SpecAst, a: SpecAst)
    requires
        occurs_in(r, a),
        ambiguous(r),
    ensures
        ambiguous(a),
    decreases a,
{
    if r != a {
        match a {
            SpecAst::Repeat(x, _, _) => lemma_ambiguous_within(r, *x),
            SpecAst::Group(x) => lemma_ambiguous_within(r, *x),
            SpecAst::Concat(ns) => {
                let k = choose|k: int| #[trigger] child_index(k) && 0 <= k < ns.len() && occurs_in(r, ns[k]);
                lemma_ambiguous_within(r, ns[k]);
            },
            SpecAst::Alternation(ns) => {
                let k = choose|k: int| #[trigger] child_index(k) && 0 <= k < ns.len() && occurs_in(r, ns[k]);
                lemma_ambiguous_within(r, ns[k]);
            },
            _ => {},
        }
    }
}

/// A repeat anywhere in the pattern whose body holds, at any depth and in
/// any alternation branch or concatenation member, a repeat with
/// `min != max` makes the pattern a candidate for measurement: it is
/// flagged as ambiguous.
pub proof fn lemma_unpinned_under_repeat_is_ambiguous(
    a: SpecAst,
    x: SpecAst,
    mn: u32,
    mx: Option<u32>,
    t: SpecAst,
)
    requires
        occurs_in(SpecAst::Repeat(Box::new(x), mn, mx), a),
        occurs_in(t, x),
        unpinned_repeat(t),
    ensures
        ambiguous(a),
{
    let r = SpecAst::Repeat(Box::new(x), mn, mx);
    lemma_variable_length_iff(x);
    assert(ambiguous_body(x));
    assert(ambiguous(r));
    lemma_ambiguous_within(r, a);
}

/// A repeat anywhere in the pattern whose body, seen through groups, is
/// itself a repeat (a nested quantifier such as `(a+)+`) or an alternation
/// with two equal branches (such as `(a|a)*`) makes the pattern flagged as
/// ambiguous.
pub proof fn lemma_repeat_shapes_are_ambiguous(a: SpecAst, x: SpecAst, mn: u32, mx: Option<u32>)
    requires
        occurs_in(SpecAst::Repeat(Box::new(x), mn, mx), a),
        peel(x) is Repeat || (peel(x) matches SpecAst::Alternation(bs) && overlap(bs)),
    ensures
        ambiguous(a),
{
    let r = SpecAst::Repeat(Box::new(x), mn, mx);
    assert(ambiguous_body(x));
    assert(ambiguous(r));
    lemma_ambiguous_within(r, a);
}

/// `first`, or 1 when it is 0: the divisor of a growth ratio.
pub open spec fn at_least_one(first: nat) -> nat {
    if first == 0 {
        1
    } else {
        first
    }
}

/// For a flagged pattern none of whose probes reaches the ceiling, the
/// verdict compares the longest probe's steps with the shortest's:
/// Catastrophic exactly when the longest exceeds `CATASTROPHIC_GROWTH`
/// times the shortest (counted as at least 1), Suspicious exactly when it
/// does not but exceeds `SUSPICIOUS_GROWTH_NUM / SUSPICIOUS_GROWTH_DEN`
/// times it, Safe otherwise. A flagged pattern with a probe at the ceiling
/// is Catastrophic.
pub proof fn lemma_classify_by_growth(a: SpecAst)
    requires
        ambiguous(a),
    ensures
        probe(a, SHORT_PROBE as nat) >= PROBE_CEILING || probe(a, MIDDLE_PROBE as nat)
            >= PROBE_CEILING || probe(a, LONG_PROBE as nat) >= PROBE_CEILING ==> spec_classify(a)
            == Risk::Catastrophic,
        probe(a, SHORT_PROBE as nat) < PROBE_CEILING && probe(a, MIDDLE_PROBE as nat)
            < PROBE_CEILING && probe(a, LONG_PROBE as nat) < PROBE_CEILING ==> {
            let first = at_least_one(probe(a, SHORT_PROBE as nat));
            let last = probe(a, LONG_PROBE as nat);
            &&& (spec_classify(a) == Risk::Catastrophic <==> last > CATASTROPHIC_GROWTH * first)
            &&& (spec_classify(a) == Risk::Suspicious <==> last <= CATASTROPHIC_GROWTH * first
                && SUSPICIOUS_GROWTH_DEN * last > SUSPICIOUS_GROWTH_NUM * first)
            &&& (spec_classify(a) == Risk::Safe <==> SUSPICIOUS_GROWTH_DEN * last
                <= SUSPICIOUS_GROWTH_NUM * first)
        },
{
}

} // verus!
