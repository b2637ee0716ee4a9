//! Instrumented backtracking matcher: walks an [`crate::Ast`] against an
//! input string and counts every backtracking step taken, the same way a
//! real backtracking regex engine (PCRE, Python `re`, JS `RegExp`) would.
//! `run` requires the whole input to match (like `re.fullmatch`) — this is
//! what makes patterns like `(a+)+` blow up against a non-matching tail,
//! the classic ReDoS shape.
//!
//! The matcher is written in continuation-passing style with the
//! continuation kept as an explicit stack of frames: a node tries to match
//! at a position and hands the position it reached to the frames above it;
//! when they fail, the node backtracks into its next alternative. Every node
//! visit is one step. A repetition that matches the empty string is
//! accepted only as the first one of a repeat that needs at least one, and
//! then stands for all the required ones; any other repetition must
//! consume input, which is what keeps a repeat of an empty-matching body
//! from looping.
//!
//! This is narrower than the textbook language of a repeat with a minimum
//! of two or more: `(a?){2}` does not match `a` here, since its second
//! repetition would have to be empty. Accepting an empty repetition at every
//! count below the minimum would match those strings too, but the search
//! for a pattern like `(a?){20}a{20}` would then retry the rest of the
//! pattern from every position the repeat could end at; with one empty
//! repetition allowed only first, that search stays linear in the input,
//! and the analyzer measures the pattern's growth as moderate (Suspicious)
//! rather than catastrophic. Repeats with a minimum of at most one match
//! exactly the textbook language.

use vstd::prelude::*;
use crate::model::{SpecAst, bounds_ordered, class_accepts, full_match};
use crate::engine_laws::lemma_run;
use crate::parser::{Ast, views, lemma_views};

verus! {

broadcast use vstd::std_specs::vec::group_vec_axioms;

/// Default hard cap on backtracking steps before a run is truncated. Keeps
/// a genuinely catastrophic pattern from ever hanging the caller.
pub const DEFAULT_STEP_CEILING: u64 = 5_000_000;

/// The result of running the instrumented matcher against one input.
#[derive(Debug, Clone, PartialEq, Eq)]
pub struct MatchTrace {
    pub matched: bool,
    pub steps: u64,
    /// `true` if the step ceiling was hit before a verdict was reached.
    pub truncated: bool,
}

/// What remains to be matched after the current node, innermost first
/// (the last element of a stack is the innermost).
pub enum Kont {
    /// The members `ns[k..]` of a concatenation.
    Members(Seq<SpecAst>, int),
    /// `Rep(node, min, max, count, start)`: iteration number `count` of a
    /// repeat of `node` began at `start`; after it, the repeat may go on.
    Rep(SpecAst, u32, Option<u32>, nat, int),
}

/// A frame is sound for an input of length `n`.
pub open spec fn frame_ok(f: Kont, n: int) -> bool {
    match f {
        Kont::Members(ns, k) => 0 <= k <= ns.len(),
        Kont::Rep(_, _, mx, c, st) => 0 <= st <= n && 1 <= c <= st + 1 && (mx matches Some(m) ==> c
            <= m),
    }
}

/// Every frame of a stack is sound.
pub open spec fn stack_ok(stack: Seq<Kont>, n: int) -> bool {
    forall|i: int| 0 <= i < stack.len() ==> frame_ok(#[trigger] stack[i], n)
}

/// May a repeat with this maximum run one more iteration after `c`?
pub open spec fn may_iterate(mx: Option<u32>, c: nat) -> bool {
    match mx {
        None => true,
        Some(m) => c < m,
    }
}

/// Matching node `a` at `pos` with the continuation `stack`, having taken
/// `steps` steps so far out of `limit`: whether the whole input matched,
/// and the steps taken by then. Visiting the node is one step; reaching
/// the limit stops the search with no match.
pub open spec fn sm_node(
    a: SpecAst,
    s: Seq<char>,
    pos: int,
    stack: Seq<Kont>,
    steps: nat,
    limit: nat,
) -> (bool, nat)
    decreases limit - steps, 0int, 0int,
{
    let t = steps + 1;
    if t >= limit {
        (false, t)
    } else {
        match a {
            SpecAst::Empty => sm_cont(s, pos, stack, t, limit),
            SpecAst::Literal(c) => if 0 <= pos < s.len() && s[pos] == c {
                sm_cont(s, pos + 1, stack, t, limit)
            } else {
                (false, t)
            },
            SpecAst::Class(n, rs) => if 0 <= pos < s.len() && class_accepts(n, rs, s[pos]) {
                sm_cont(s, pos + 1, stack, t, limit)
            } else {
                (false, t)
            },
            SpecAst::AnchorStart => if pos == 0 {
                sm_cont(s, pos, stack, t, limit)
            } else {
                (false, t)
            },
            SpecAst::AnchorEnd => if pos == s.len() {
                sm_cont(s, pos, stack, t, limit)
            } else {
                (false, t)
            },
            SpecAst::Group(x) => sm_node(*x, s, pos, stack, t, limit),
            SpecAst::Concat(ns) => sm_cont(s, pos, stack.push(Kont::Members(ns, 0)), t, limit),
            SpecAst::Alternation(bs) => sm_alts(bs, 0, s, pos, stack, t, limit),
            SpecAst::Repeat(x, mn, mx) => sm_rep(*x, mn, mx, 0, s, pos, stack, t, limit),
        }
    }
}

/// Handing position `pos` to the continuation `stack`. With no frame left,
/// the match succeeds exactly when the whole input was consumed.
pub open spec fn sm_cont(s: Seq<char>, pos: int, stack: Seq<Kont>, steps: nat, limit: nat) -> (
    bool,
    nat,
)
    decreases limit - steps, 2 * stack.len() + 1, 0int,
{
    if stack.len() == 0 {
        (pos == s.len(), steps)
    } else {
        let rest = stack.drop_last();
        match stack.last() {
            Kont::Members(ns, k) => if k < 0 || k >= ns.len() {
                sm_cont(s, pos, rest, steps, limit)
            } else {
                sm_node(ns[k], s, pos, rest.push(Kont::Members(ns, k + 1)), steps, limit)
            },
            Kont::Rep(x, mn, mx, c, st) => if pos > st {
                sm_rep(x, mn, mx, c, s, pos, rest, steps, limit)
            } else if c == 1 && 0 < mn && bounds_ordered(mn, mx) {
                sm_cont(s, pos, rest, steps, limit)
            } else {
                (false, steps)
            },
        }
    }
}

/// A repeat of `x` that has completed `c` iterations, now at `pos`: try one
/// more iteration first (greedy), then, if at least `mn` were done, the
/// continuation.
pub open spec fn sm_rep(
    x: SpecAst,
    mn: u32,
    mx: Option<u32>,
    c: nat,
    s: Seq<char>,
    pos: int,
    stack: Seq<Kont>,
    steps: nat,
    limit: nat,
) -> (bool, nat)
    decreases limit - steps, 2 * stack.len() + 2, 0int,
{
    let (r1, st1) = if may_iterate(mx, c) {
        sm_node(x, s, pos, stack.push(Kont::Rep(x, mn, mx, c + 1, pos)), steps, limit)
    } else {
        (false, steps)
    };
    if r1 {
        (true, st1)
    } else if st1 >= limit || st1 < steps {
        (false, st1)
    } else if c >= mn {
        sm_cont(s, pos, stack, st1, limit)
    } else {
        (false, st1)
    }
}

/// Trying the branches `bs[k..]` of an alternation in order.
pub open spec fn sm_alts(
    bs: Seq<SpecAst>,
    k: int,
    s: Seq<char>,
    pos: int,
    stack: Seq<Kont>,
    steps: nat,
    limit: nat,
) -> (bool, nat)
    decreases limit - steps, 0int, bs.len() - k + 1,
{
    if k < 0 || k >= bs.len() {
        (false, steps)
    } else {
        let (r, st) = sm_node(bs[k], s, pos, stack, steps, limit);
        if r {
            (true, st)
        } else if st >= limit || st <= steps {
            (false, st)
        } else {
            sm_alts(bs, k + 1, s, pos, stack, st, limit)
        }
    }
}

/// The run of the matcher on the whole input: whether it matched, and the
/// steps it took.
pub open spec fn spec_run(a: SpecAst, s: Seq<char>, limit: nat) -> (bool, nat) {
    sm_node(a, s, 0, seq![], 0, limit)
}

/// A continuation frame over the nodes of an exec tree.
#[derive(Clone, Copy)]
enum Frame<'a> {
    Members(&'a Vec<Ast>, usize),
    Rep(&'a Ast, u32, Option<u32>, usize, usize),
}

impl<'a> View for Frame<'a> {
    type V = Kont;

    closed spec fn view(&self) -> Kont {
        match *self {
            Frame::Members(ns, k) => Kont::Members(views(ns@), k as int),
            Frame::Rep(x, mn, mx, c, st) => Kont::Rep(x@, mn, mx, c as nat, st as int),
        }
    }
}

/// The model of an exec stack of frames.
spec fn frames(stack: Seq<Frame>) -> Seq<Kont> {
    stack.map_values(|f: Frame| f@)
}

/// The step counter, with its ceiling.
struct Counters {
    steps: u64,
    limit: u64,
    truncated: bool,
}

impl Counters {
    /// Counts one step; returns `true` once the ceiling has been hit.
    fn tick(&mut self) -> (hit: bool)
        requires
            old(self).steps < old(self).limit || old(self).steps == 0,
        ensures
            final(self).steps == old(self).steps + 1,
            final(self).limit == old(self).limit,
            hit == (final(self).steps >= final(self).limit),
            final(self).truncated == (old(self).truncated || hit),
    {
        self.steps += 1;
        if self.steps >= self.limit {
            self.truncated = true;
        }
        self.steps >= self.limit
    }
}

/// Run the instrumented backtracking engine for `ast` against `input`,
/// requiring the whole input to match, up to [`DEFAULT_STEP_CEILING`] steps.
pub fn run(ast: &Ast, input: &str) -> (t: MatchTrace)
    requires
        input@.len() < usize::MAX,
    ensures
        (t.matched, t.steps as nat) == spec_run(ast@, input@, DEFAULT_STEP_CEILING as nat),
        t.truncated == (t.steps >= DEFAULT_STEP_CEILING),
        t.steps >= 1,
        !t.truncated ==> t.matched == full_match(ast@, input@),
        t.truncated ==> !t.matched && t.steps == DEFAULT_STEP_CEILING,
{
    run_with_ceiling(ast, input, DEFAULT_STEP_CEILING)
}

/// Same as [`run`], with a caller-supplied step ceiling.
pub fn run_with_ceiling(ast: &Ast, input: &str, ceiling: u64) -> (t: MatchTrace)
    requires
        input@.len() < usize::MAX,
    ensures
        (t.matched, t.steps as nat) == spec_run(ast@, input@, ceiling as nat),
        t.truncated == (t.steps >= ceiling),
        t.steps >= 1,
        !t.truncated ==> t.matched == full_match(ast@, input@),
        t.truncated ==> !t.matched && t.steps == (if ceiling == 0 { 1 } else { ceiling }),
{
    let mut chars: Vec<char> = Vec::new();
    for c in it: input.chars()
        invariant
            chars@ == it.seq().take(it.index() as int),
    {
        chars.push(c);
    }
    let mut counters = Counters { steps: 0, limit: ceiling, truncated: false };
    let mut stack: Vec<Frame> = Vec::new();
    proof {
        assert(frames(stack@) =~= Seq::<Kont>::empty());
    }
    assert(chars@ == input@);
    let ghost empty = frames(stack@);
    assert(empty == Seq::<Kont>::empty());
    let matched = match_node(ast, &chars, 0, &mut stack, &mut counters);
    assert(sm_node(ast@, chars@, 0, empty, 0, ceiling as nat) == spec_run(ast@, input@, ceiling as nat));
    proof {
        lemma_run(ast@, input@, ceiling as nat);
    }
    MatchTrace { matched, steps: counters.steps, truncated: counters.truncated }
}

/// Matches `ast` at `pos`, handing the position reached on success to the
/// frames of `stack`; their failure triggers backtracking into any
/// remaining alternative for this node.
fn match_node<'a>(
    ast: &'a Ast,
    input: &Vec<char>,
    pos: usize,
    stack: &mut Vec<Frame<'a>>,
    counters: &mut Counters,
) -> (matched: bool)
    requires
        input@.len() < usize::MAX,
        pos <= input@.len(),
        stack_ok(frames(old(stack)@), input@.len() as int),
        old(counters).steps < old(counters).limit || old(counters).steps == 0,
        !old(counters).truncated,
    ensures
        (matched, final(counters).steps as nat) == sm_node(
            ast@,
            input@,
            pos as int,
            frames(old(stack)@),
            old(counters).steps as nat,
            old(counters).limit as nat,
        ),
        final(stack)@ == old(stack)@,
        final(counters).limit == old(counters).limit,
        final(counters).steps > old(counters).steps,
        final(counters).truncated == (final(counters).steps >= final(counters).limit),
    decreases old(counters).limit - old(counters).steps, 0int, 0int,
{
    if counters.tick() {
        return false;
    }
    match ast {
        Ast::Empty => match_cont(input, pos, stack, counters),
        Ast::Literal(c) => {
            proof {
                crate::parser::lemma_literal_view(*c);
            }
            if pos < input.len() && input[pos] == *c {
                match_cont(input, pos + 1, stack, counters)
            } else {
                false
            }
        },
        Ast::CharClass(class) => {
            if pos < input.len() && class.matches(input[pos]) {
                match_cont(input, pos + 1, stack, counters)
            } else {
                false
            }
        },
        Ast::AnchorStart => {
            if pos == 0 {
                match_cont(input, pos, stack, counters)
            } else {
                false
            }
        },
        Ast::AnchorEnd => {
            if pos == input.len() {
                match_cont(input, pos, stack, counters)
            } else {
                false
            }
        },
        Ast::Group(inner) => match_node(inner, input, pos, stack, counters),
        Ast::Concat(nodes) => {
            proof {
                lemma_views(nodes@);
            }
            let ghost before = stack@;
            stack.push(Frame::Members(nodes, 0));
            proof {
                lemma_frames_push(before, Frame::Members(nodes, 0));
            }
            let r = match_cont(input, pos, stack, counters);
            stack.pop();
            proof {
                assert(stack@ =~= before);
            }
            r
        },
        Ast::Alternation(branches) => {
            proof {
                lemma_views(branches@);
            }
            let mut k: usize = 0;
            let ghost bs = views(branches@);
            let ghost st0 = counters.steps as nat;
            assert(ast@ == SpecAst::Alternation(bs));
            loop
                invariant
                    ast@ == SpecAst::Alternation(bs),
                    st0 == old(counters).steps + 1,
                    st0 < old(counters).limit,
                    counters.steps > old(counters).steps,
                    sm_node(
                        ast@,
                        input@,
                        pos as int,
                        frames(old(stack)@),
                        old(counters).steps as nat,
                        old(counters).limit as nat,
                    ) == sm_alts(
                        bs,
                        0,
                        input@,
                        pos as int,
                        frames(old(stack)@),
                        st0,
                        old(counters).limit as nat,
                    ),
                    k <= branches.len(),
                    bs == views(branches@),
                    bs.len() == branches.len(),
                    forall|i: int| 0 <= i < branches.len() ==> #[trigger] bs[i] == branches@[i]@,
                    stack@ == old(stack)@,
                    pos <= input@.len(),
                    input@.len() < usize::MAX,
                    stack_ok(frames(stack@), input@.len() as int),
                    counters.limit == old(counters).limit,
                    counters.steps < counters.limit,
                    counters.steps >= st0,
                    counters.truncated == (counters.steps >= counters.limit),
                    sm_alts(bs, 0, input@, pos as int, frames(stack@), st0, counters.limit as nat)
                        == sm_alts(
                        bs,
                        k as int,
                        input@,
                        pos as int,
                        frames(stack@),
                        counters.steps as nat,
                        counters.limit as nat,
                    ),
                decreases branches.len() - k,
            {
                if k >= branches.len() {
                    return false;
                }
                let ghost st = counters.steps as nat;
                let r = match_node(&branches[k], input, pos, stack, counters);
                if r {
                    return true;
                }
                if counters.truncated {
                    return false;
                }
                k += 1;
            }
        },
        Ast::Repeat { node, min, max } => match_rep(node, *min, *max, 0, input, pos, stack, counters),
    }
}

/// Appending a frame appends its model.
proof fn lemma_frames_push(stack: Seq<Frame>, f: Frame)
    ensures
        frames(stack.push(f)) == frames(stack).push(f@),
{
    assert(frames(stack.push(f)) =~= frames(stack).push(f@));
}

/// Hands `pos` to the innermost frame of `stack`.
fn match_cont<'a>(
    input: &Vec<char>,
    pos: usize,
    stack: &mut Vec<Frame<'a>>,
    counters: &mut Counters,
) -> (matched: bool)
    requires
        input@.len() < usize::MAX,
        pos <= input@.len(),
        stack_ok(frames(old(stack)@), input@.len() as int),
        old(counters).steps < old(counters).limit,
        !old(counters).truncated,
    ensures
        (matched, final(counters).steps as nat) == sm_cont(
            input@,
            pos as int,
            frames(old(stack)@),
            old(counters).steps as nat,
            old(counters).limit as nat,
        ),
        final(stack)@ == old(stack)@,
        final(counters).limit == old(counters).limit,
        final(counters).steps >= old(counters).steps,
        final(counters).truncated == (final(counters).steps >= final(counters).limit),
    decreases old(counters).limit - old(counters).steps, 2 * old(stack)@.len() + 1, 0int,
{
    let ghost before = stack@;
    match stack.pop() {
        None => pos == input.len(),
        Some(f) => {
            let ghost rest = stack@;
            proof {
                assert(before =~= rest.push(f));
                lemma_frames_push(rest, f);
                assert(frames(rest) =~= frames(before).drop_last());
                assert(stack_ok(frames(rest), input@.len() as int)) by {
                    assert forall|i: int| 0 <= i < frames(rest).len() implies frame_ok(
                        #[trigger] frames(rest)[i],
                        input@.len() as int,
                    ) by {
                        assert(frames(rest)[i] == frames(before)[i]);
                    }
                }
                assert(frame_ok(frames(before)[frames(before).len() - 1], input@.len() as int));
                assert(frames(before).last() == f@);
            }
            let r = match f {
                Frame::Members(ns, k) => {
                    proof {
                        lemma_views(ns@);
                    }
                    if k >= ns.len() {
                        match_cont(input, pos, stack, counters)
                    } else {
                        let next = Frame::Members(ns, k + 1);
                        stack.push(next);
                        proof {
                            lemma_frames_push(rest, next);
                            assert forall|i: int| 0 <= i < frames(stack@).len() implies frame_ok(
                                #[trigger] frames(stack@)[i],
                                input@.len() as int,
                            ) by {
                                if i < rest.len() {
                                    assert(frames(stack@)[i] == frames(rest)[i]);
                                }
                            }
                        }
                        let r = match_node(&ns[k], input, pos, stack, counters);
                        stack.pop();
                        proof {
                            assert(stack@ =~= rest);
                        }
                        r
                    }
                },
                Frame::Rep(node, mn, mx, c, st) => {
                    let ordered = match mx {
                        Some(m) => mn <= m,
                        None => true,
                    };
                    if pos > st {
                        match_rep(node, mn, mx, c, input, pos, stack, counters)
                    } else if c == 1 && mn > 0 && ordered {
                        match_cont(input, pos, stack, counters)
                    } else {
                        false
                    }
                },
            };
            stack.push(f);
            proof {
                assert(stack@ =~= before);
            }
            r
        },
    }
}

/// A repeat of `node` that has completed `c` iterations, now at `pos`.
fn match_rep<'a>(
    node: &'a Ast,
    mn: u32,
    mx: Option<u32>,
    c: usize,
    input: &Vec<char>,
    pos: usize,
    stack: &mut Vec<Frame<'a>>,
    counters: &mut Counters,
) -> (matched: bool)
    requires
        input@.len() < usize::MAX,
        pos <= input@.len(),
        c <= pos,
        mx matches Some(m) ==> c <= m,
        stack_ok(frames(old(stack)@), input@.len() as int),
        old(counters).steps < old(counters).limit,
        !old(counters).truncated,
    ensures
        (matched, final(counters).steps as nat) == sm_rep(
            node@,
            mn,
            mx,
            c as nat,
            input@,
            pos as int,
            frames(old(stack)@),
            old(counters).steps as nat,
            old(counters).limit as nat,
        ),
        final(stack)@ == old(stack)@,
        final(counters).limit == old(counters).limit,
        final(counters).steps >= old(counters).steps,
        final(counters).truncated == (final(counters).steps >= final(counters).limit),
    decreases old(counters).limit - old(counters).steps, 2 * old(stack)@.len() + 2, 0int,
{
    let ghost before = stack@;
    let iterate = match mx {
        None => true,
        Some(m) => (c as u64) < (m as u64),
    };
    if iterate {
        let f = Frame::Rep(node, mn, mx, c + 1, pos);
        stack.push(f);
        proof {
            lemma_frames_push(before, f);
            assert forall|i: int| 0 <= i < frames(stack@).len() implies frame_ok(
                #[trigger] frames(stack@)[i],
                input@.len() as int,
            ) by {
                if i < before.len() {
                    assert(frames(stack@)[i] == frames(before)[i]);
                }
            }
        }
        let r = match_node(node, input, pos, stack, counters);
        stack.pop();
        proof {
            assert(stack@ =~= before);
        }
        if r {
            return true;
        }
        if counters.truncated {
            return false;
        }
    }
    if c as u64 >= mn as u64 {
        match_cont(input, pos, stack, counters)
    } else {
        false
    }
}

} // verus!
