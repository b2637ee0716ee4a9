//! What the matcher computes: a run that stays under its ceiling answers
//! exactly whether the pattern matches the whole input, and a run that
//! reaches the ceiling stops there with no match.

use vstd::prelude::*;
use crate::model::{
    SpecAst, bounds_ordered, class_accepts, mt, mt_seq, mt_rep, full_match, split_pos, branch_index, rep_count,
};
use crate::engine::{
    Kont, stack_ok, frame_ok, may_iterate, sm_node, sm_cont, sm_rep, sm_alts, spec_run,
};

verus! {

/// The continuation `stack` accepts the rest of the input from `pos`.
pub open spec fn kont_ok(stack: Seq<Kont>, s: Seq<char>, pos: int) -> bool
    decreases stack.len(), 1int,
{
    if stack.len() == 0 {
        pos == s.len()
    } else {
        let rest = stack.drop_last();
        match stack.last() {
            Kont::Members(ns, k) => exists|m: int|
                #[trigger] split_pos(m) && pos <= m <= s.len() && mt_seq(ns, k, s, pos, m) && kont_ok(
                    rest,
                    s,
                    m,
                ),
            Kont::Rep(x, mn, mx, c, st) => if pos > st {
                rep_ok(x, mn, mx, c, s, pos, rest)
            } else {
                c == 1 && 0 < mn && bounds_ordered(mn, mx) && kont_ok(rest, s, pos)
            },
        }
    }
}

/// A repeat of `x` with `c` iterations done can finish from `pos` with
/// `n` more nonempty iterations, after which `stack` accepts the rest.
pub open spec fn rep_ok(
    x: SpecAst,
    mn: u32,
    mx: Option<u32>,
    c: nat,
    s: Seq<char>,
    pos: int,
    stack: Seq<Kont>,
) -> bool
    decreases stack.len(), 2int,
{
    exists|n: nat, m: int|
        #[trigger] rep_count(n) && #[trigger] split_pos(m) && c + n >= mn && (mx matches Some(b)
            ==> c + n <= b) && pos <= m <= s.len() && mt_rep(x, n, s, pos, m) && kont_ok(stack, s, m)
}

/// A repeat of `x` with `c` iterations done can finish from `pos`: with
/// more nonempty iterations, or, before its first, with one empty
/// iteration standing for all the required ones.
pub open spec fn rep_sem(
    x: SpecAst,
    mn: u32,
    mx: Option<u32>,
    c: nat,
    s: Seq<char>,
    pos: int,
    stack: Seq<Kont>,
) -> bool {
    rep_ok(x, mn, mx, c, s, pos, stack) || (c == 0 && 0 < mn && bounds_ordered(mn, mx) && mt(
        x,
        s,
        pos,
        pos,
    ) && kont_ok(stack, s, pos))
}

/// Node `a` matches from `pos` to some position from which `stack` accepts.
pub open spec fn node_sem(a: SpecAst, s: Seq<char>, pos: int, stack: Seq<Kont>) -> bool {
    exists|m: int| #[trigger] split_pos(m) && pos <= m <= s.len() && mt(a, s, pos, m) && kont_ok(stack, s, m)
}

/// Some branch `bs[j]` with `j >= k` matches and lets `stack` accept.
pub open spec fn alts_sem(bs: Seq<SpecAst>, k: int, s: Seq<char>, pos: int, stack: Seq<Kont>) -> bool {
    exists|j: int| #[trigger] branch_index(j) && k <= j < bs.len() && node_sem(bs[j], s, pos, stack)
}

/// A sound stack stays sound without its innermost frame.
proof fn lemma_stack_ok_rest(stack: Seq<Kont>, n: int)
    requires
        stack_ok(stack, n),
        stack.len() > 0,
    ensures
        stack_ok(stack.drop_last(), n),
        frame_ok(stack.last(), n),
{
    assert forall|i: int| 0 <= i < stack.drop_last().len() implies frame_ok(
        #[trigger] stack.drop_last()[i],
        n,
    ) by {
        assert(stack.drop_last()[i] == stack[i]);
    }
    assert(frame_ok(stack[stack.len() - 1], n));
}

/// Pushing a sound frame keeps a stack sound.
proof fn lemma_stack_ok_push(stack: Seq<Kont>, f: Kont, n: int)
    requires
        stack_ok(stack, n),
        frame_ok(f, n),
    ensures
        stack_ok(stack.push(f), n),
        stack.push(f).drop_last() == stack,
        stack.push(f).last() == f,
{
    assert(stack.push(f).drop_last() =~= stack);
    assert forall|i: int| 0 <= i < stack.push(f).len() implies frame_ok(
        #[trigger] stack.push(f)[i],
        n,
    ) by {
        if i < stack.len() {
            assert(stack.push(f)[i] == stack[i]);
        }
    }
}

/// A repeat either stops here (if it did enough iterations) or runs one
/// more nonempty iteration, after which the rest follows.
proof fn lemma_rep_unfold(
    x: SpecAst,
    mn: u32,
    mx: Option<u32>,
    c: nat,
    s: Seq<char>,
    pos: int,
    stack: Seq<Kont>,
)
    requires
        0 <= pos <= s.len(),
        mx matches Some(b) ==> c <= b,
    ensures
        rep_sem(x, mn, mx, c, s, pos, stack) == ((c >= mn && kont_ok(stack, s, pos)) || (
        may_iterate(mx, c) && node_sem(x, s, pos, stack.push(Kont::Rep(x, mn, mx, c + 1, pos))))),
{
    let pushed = stack.push(Kont::Rep(x, mn, mx, c + 1, pos));
    assert(pushed.drop_last() =~= stack);
    assert(pushed.last() == Kont::Rep(x, mn, mx, c + 1, pos));
    if rep_ok(x, mn, mx, c, s, pos, stack) {
        let (n, m) = choose|n: nat, m: int|
            #[trigger] rep_count(n) && #[trigger] split_pos(m) && c + n >= mn && (mx matches Some(b)
                ==> c + n <= b) && pos <= m <= s.len() && mt_rep(x, n, s, pos, m) && kont_ok(
                stack,
                s,
                m,
            );
        if n == 0 {
            assert(m == pos);
        } else {
            let m1 = choose|m1: int|
                #[trigger] split_pos(m1) && pos < m1 <= m && mt(x, s, pos, m1) && mt_rep(
                    x,
                    (n - 1) as nat,
                    s,
                    m1,
                    m,
                );
            assert(mt_rep(x, (n - 1) as nat, s, m1, m));
            assert(rep_count((n - 1) as nat) && split_pos(m));
            assert(rep_ok(x, mn, mx, c + 1, s, m1, stack));
            assert(kont_ok(pushed, s, m1));
            assert(mt(x, s, pos, m1));
            assert(split_pos(m1));
            assert(node_sem(x, s, pos, pushed));
        }
    }
    if c >= mn && kont_ok(stack, s, pos) {
        assert(mt_rep(x, 0, s, pos, pos));
        assert(rep_count(0) && split_pos(pos));
    }
    if may_iterate(mx, c) && node_sem(x, s, pos, pushed) {
        let m1 = choose|m1: int|
            #[trigger] split_pos(m1) && pos <= m1 <= s.len() && mt(x, s, pos, m1) && kont_ok(
                pushed,
                s,
                m1,
            );
        if m1 == pos {
            assert(c == 0 && 0 < mn && bounds_ordered(mn, mx) && kont_ok(stack, s, pos));
        } else {
        assert(m1 > pos && rep_ok(x, mn, mx, c + 1, s, m1, stack));
        let (n, m) = choose|n: nat, m: int|
            #[trigger] rep_count(n) && #[trigger] split_pos(m) && c + 1 + n >= mn && (mx matches Some(
                b,
            ) ==> c + 1 + n <= b) && m1 <= m <= s.len() && mt_rep(x, n, s, m1, m) && kont_ok(
                stack,
                s,
                m,
            );
        assert(split_pos(m1));
        assert(mt_rep(x, n + 1, s, pos, m));
        assert(rep_count(n + 1) && split_pos(m));
        }
    }
    if c == 0 && 0 < mn && bounds_ordered(mn, mx) && mt(x, s, pos, pos) && kont_ok(stack, s, pos) {
        assert(kont_ok(pushed, s, pos));
        assert(split_pos(pos));
        assert(node_sem(x, s, pos, pushed));
    }
}

/// Visiting a node: the step count grows, never past the ceiling when it
/// started below it; a match stays below the ceiling; and below the
/// ceiling the answer is exactly [`node_sem`].
proof fn lemma_node(a: SpecAst, s: Seq<char>, pos: int, stack: Seq<Kont>, steps: nat, limit: nat)
    requires
        0 <= pos <= s.len(),
        stack_ok(stack, s.len() as int),
        steps < limit || steps == 0,
    ensures
        sm_node(a, s, pos, stack, steps, limit).1 > steps,
        steps < limit ==> sm_node(a, s, pos, stack, steps, limit).1 <= limit,
        sm_node(a, s, pos, stack, steps, limit).0 ==> sm_node(a, s, pos, stack, steps, limit).1
            < limit,
        sm_node(a, s, pos, stack, steps, limit).1 < limit ==> sm_node(
            a,
            s,
            pos,
            stack,
            steps,
            limit,
        ).0 == node_sem(a, s, pos, stack),
    decreases limit - steps, 0int, 0int,
{
    let t = steps + 1;
    if t >= limit {
        return;
    }
    match a {
        SpecAst::Empty => {
            lemma_cont(s, pos, stack, t, limit);
            assert(split_pos(pos));
            if kont_ok(stack, s, pos) {
                assert(mt(a, s, pos, pos));
            }
        },
        SpecAst::Literal(c) => {
            if 0 <= pos < s.len() && s[pos] == c {
                lemma_cont(s, pos + 1, stack, t, limit);
                assert(split_pos(pos + 1));
                if kont_ok(stack, s, pos + 1) {
                    assert(mt(a, s, pos, pos + 1));
                }
            }
        },
        SpecAst::Class(n, rs) => {
            if 0 <= pos < s.len() && class_accepts(n, rs, s[pos]) {
                lemma_cont(s, pos + 1, stack, t, limit);
                assert(split_pos(pos + 1));
                if kont_ok(stack, s, pos + 1) {
                    assert(mt(a, s, pos, pos + 1));
                }
            }
        },
        SpecAst::AnchorStart => {
            if pos == 0 {
                lemma_cont(s, pos, stack, t, limit);
                assert(split_pos(pos));
                if kont_ok(stack, s, pos) {
                    assert(mt(a, s, pos, pos));
                }
            }
        },
        SpecAst::AnchorEnd => {
            if pos == s.len() {
                lemma_cont(s, pos, stack, t, limit);
                assert(split_pos(pos));
                if kont_ok(stack, s, pos) {
                    assert(mt(a, s, pos, pos));
                }
            }
        },
        SpecAst::Group(x) => {
            lemma_node(*x, s, pos, stack, t, limit);
            if node_sem(*x, s, pos, stack) {
                let m = choose|m: int|
                    #[trigger] split_pos(m) && pos <= m <= s.len() && mt(*x, s, pos, m) && kont_ok(
                        stack,
                        s,
                        m,
                    );
                assert(mt(a, s, pos, m));
            }
            if node_sem(a, s, pos, stack) {
                let m = choose|m: int|
                    #[trigger] split_pos(m) && pos <= m <= s.len() && mt(a, s, pos, m) && kont_ok(
                        stack,
                        s,
                        m,
                    );
                assert(mt(*x, s, pos, m));
            }
        },
        SpecAst::Concat(ns) => {
            let f = Kont::Members(ns, 0);
            lemma_stack_ok_push(stack, f, s.len() as int);
            let pushed = stack.push(f);
            lemma_cont(s, pos, pushed, t, limit);
            if kont_ok(pushed, s, pos) {
                let m = choose|m: int|
                    #[trigger] split_pos(m) && pos <= m <= s.len() && mt_seq(ns, 0, s, pos, m)
                        && kont_ok(stack, s, m);
                assert(mt(a, s, pos, m));
            }
            if node_sem(a, s, pos, stack) {
                let m = choose|m: int|
                    #[trigger] split_pos(m) && pos <= m <= s.len() && mt(a, s, pos, m) && kont_ok(
                        stack,
                        s,
                        m,
                    );
                assert(mt_seq(ns, 0, s, pos, m));
                assert(kont_ok(pushed, s, pos));
            }
        },
        SpecAst::Alternation(bs) => {
            lemma_alts(bs, 0, s, pos, stack, t, limit);
            if alts_sem(bs, 0, s, pos, stack) {
                let j = choose|j: int|
                    #[trigger] branch_index(j) && 0 <= j < bs.len() && node_sem(bs[j], s, pos, stack);
                let m = choose|m: int|
                    #[trigger] split_pos(m) && pos <= m <= s.len() && mt(bs[j], s, pos, m)
                        && kont_ok(stack, s, m);
                assert(mt(a, s, pos, m));
            }
            if node_sem(a, s, pos, stack) {
                let m = choose|m: int|
                    #[trigger] split_pos(m) && pos <= m <= s.len() && mt(a, s, pos, m) && kont_ok(
                        stack,
                        s,
                        m,
                    );
                let j = choose|j: int|
                    #[trigger] branch_index(j) && 0 <= j < bs.len() && mt(bs[j], s, pos, m);
                assert(node_sem(bs[j], s, pos, stack));
                assert(alts_sem(bs, 0, s, pos, stack));
            }
        },
        SpecAst::Repeat(x, mn, mx) => {
            lemma_rep(*x, mn, mx, 0, s, pos, stack, t, limit);
            if 0 < mn && bounds_ordered(mn, mx) && mt(*x, s, pos, pos) && kont_ok(stack, s, pos) {
                assert(mt(a, s, pos, pos));
                assert(split_pos(pos));
            }
            if rep_ok(*x, mn, mx, 0, s, pos, stack) {
                let (n, m) = choose|n: nat, m: int|
                    #[trigger] rep_count(n) && #[trigger] split_pos(m) && 0 + n >= mn && (
                    mx matches Some(b) ==> 0 + n <= b) && pos <= m <= s.len() && mt_rep(
                        *x,
                        n,
                        s,
                        pos,
                        m,
                    ) && kont_ok(stack, s, m);
                assert(mt(a, s, pos, m));
            }
            if node_sem(a, s, pos, stack) {
                let m = choose|m: int|
                    #[trigger] split_pos(m) && pos <= m <= s.len() && mt(a, s, pos, m) && kont_ok(
                        stack,
                        s,
                        m,
                    );
                if exists|n: nat|
                    #[trigger] rep_count(n) && mn <= n && (mx matches Some(b) ==> n <= b) && mt_rep(
                        *x,
                        n,
                        s,
                        pos,
                        m,
                    ) {
                    let n = choose|n: nat|
                        #[trigger] rep_count(n) && mn <= n && (mx matches Some(b) ==> n <= b)
                            && mt_rep(*x, n, s, pos, m);
                    assert(rep_ok(*x, mn, mx, 0, s, pos, stack));
                } else {
                    assert(m == pos);
                }
            }
        },
    }
}

/// Handing a position to the continuation: below the ceiling the answer is
/// exactly [`kont_ok`].
proof fn lemma_cont(s: Seq<char>, pos: int, stack: Seq<Kont>, steps: nat, limit: nat)
    requires
        0 <= pos <= s.len(),
        stack_ok(stack, s.len() as int),
        steps < limit,
    ensures
        sm_cont(s, pos, stack, steps, limit).1 >= steps,
        sm_cont(s, pos, stack, steps, limit).1 <= limit,
        sm_cont(s, pos, stack, steps, limit).0 ==> sm_cont(s, pos, stack, steps, limit).1 < limit,
        sm_cont(s, pos, stack, steps, limit).1 < limit ==> sm_cont(s, pos, stack, steps, limit).0
            == kont_ok(stack, s, pos),
    decreases limit - steps, 2 * stack.len() + 1, 0int,
{
    if stack.len() == 0 {
        return;
    }
    let rest = stack.drop_last();
    lemma_stack_ok_rest(stack, s.len() as int);
    match stack.last() {
        Kont::Members(ns, k) => {
            if k < 0 || k >= ns.len() {
                lemma_cont(s, pos, rest, steps, limit);
                assert(split_pos(pos));
                if kont_ok(rest, s, pos) {
                    assert(mt_seq(ns, k, s, pos, pos));
                }
            } else {
                let f = Kont::Members(ns, k + 1);
                lemma_stack_ok_push(rest, f, s.len() as int);
                let pushed = rest.push(f);
                lemma_node(ns[k], s, pos, pushed, steps, limit);
                if node_sem(ns[k], s, pos, pushed) {
                    let m1 = choose|m1: int|
                        #[trigger] split_pos(m1) && pos <= m1 <= s.len() && mt(ns[k], s, pos, m1)
                            && kont_ok(pushed, s, m1);
                    let m = choose|m: int|
                        #[trigger] split_pos(m) && m1 <= m <= s.len() && mt_seq(ns, k + 1, s, m1, m)
                            && kont_ok(rest, s, m);
                    assert(mt_seq(ns, k, s, pos, m));
                    assert(kont_ok(stack, s, pos));
                }
                if kont_ok(stack, s, pos) {
                    let m = choose|m: int|
                        #[trigger] split_pos(m) && pos <= m <= s.len() && mt_seq(ns, k, s, pos, m)
                            && kont_ok(rest, s, m);
                    let m1 = choose|m1: int|
                        #[trigger] split_pos(m1) && pos <= m1 <= m && mt(ns[k], s, pos, m1) && mt_seq(
                            ns,
                            k + 1,
                            s,
                            m1,
                            m,
                        );
                    assert(kont_ok(pushed, s, m1));
                    assert(node_sem(ns[k], s, pos, pushed));
                }
            }
        },
        Kont::Rep(x, mn, mx, c, st) => {
            if pos > st {
                lemma_rep(x, mn, mx, c, s, pos, rest, steps, limit);
            } else if c == 1 && 0 < mn && bounds_ordered(mn, mx) {
                lemma_cont(s, pos, rest, steps, limit);
            }
        },
    }
}

/// A repeat between iterations: below the ceiling the answer is exactly
/// [`rep_ok`].
proof fn lemma_rep(
    x: SpecAst,
    mn: u32,
    mx: Option<u32>,
    c: nat,
    s: Seq<char>,
    pos: int,
    stack: Seq<Kont>,
    steps: nat,
    limit: nat,
)
    requires
        0 <= pos <= s.len(),
        c <= pos,
        mx matches Some(b) ==> c <= b,
        stack_ok(stack, s.len() as int),
        steps < limit,
    ensures
        sm_rep(x, mn, mx, c, s, pos, stack, steps, limit).1 >= steps,
        sm_rep(x, mn, mx, c, s, pos, stack, steps, limit).1 <= limit,
        sm_rep(x, mn, mx, c, s, pos, stack, steps, limit).0 ==> sm_rep(
            x,
            mn,
            mx,
            c,
            s,
            pos,
            stack,
            steps,
            limit,
        ).1 < limit,
        sm_rep(x, mn, mx, c, s, pos, stack, steps, limit).1 < limit ==> sm_rep(
            x,
            mn,
            mx,
            c,
            s,
            pos,
            stack,
            steps,
            limit,
        ).0 == rep_sem(x, mn, mx, c, s, pos, stack),
    decreases limit - steps, 2 * stack.len() + 2, 0int,
{
    let f = Kont::Rep(x, mn, mx, c + 1, pos);
    let pushed = stack.push(f);
    lemma_rep_unfold(x, mn, mx, c, s, pos, stack);
    let st1 = if may_iterate(mx, c) {
        lemma_stack_ok_push(stack, f, s.len() as int);
        lemma_node(x, s, pos, pushed, steps, limit);
        sm_node(x, s, pos, pushed, steps, limit).1
    } else {
        steps
    };
    let r1 = if may_iterate(mx, c) {
        sm_node(x, s, pos, pushed, steps, limit).0
    } else {
        false
    };
    if !r1 && st1 < limit && c >= mn {
        lemma_cont(s, pos, stack, st1, limit);
    }
}

/// Trying branches in order: below the ceiling the answer is exactly
/// [`alts_sem`].
proof fn lemma_alts(
    bs: Seq<SpecAst>,
    k: int,
    s: Seq<char>,
    pos: int,
    stack: Seq<Kont>,
    steps: nat,
    limit: nat,
)
    requires
        0 <= pos <= s.len(),
        stack_ok(stack, s.len() as int),
        steps < limit,
    ensures
        sm_alts(bs, k, s, pos, stack, steps, limit).1 >= steps,
        sm_alts(bs, k, s, pos, stack, steps, limit).1 <= limit,
        sm_alts(bs, k, s, pos, stack, steps, limit).0 ==> sm_alts(bs, k, s, pos, stack, steps, limit).1
            < limit,
        sm_alts(bs, k, s, pos, stack, steps, limit).1 < limit ==> sm_alts(
            bs,
            k,
            s,
            pos,
            stack,
            steps,
            limit,
        ).0 == (0 <= k && alts_sem(bs, k, s, pos, stack)),
    decreases limit - steps, 0int, bs.len() - k + 1,
{
    if k < 0 || k >= bs.len() {
        return;
    }
    lemma_node(bs[k], s, pos, stack, steps, limit);
    let st = sm_node(bs[k], s, pos, stack, steps, limit).1;
    if !sm_node(bs[k], s, pos, stack, steps, limit).0 && st < limit {
        lemma_alts(bs, k + 1, s, pos, stack, st, limit);
        if alts_sem(bs, k, s, pos, stack) {
            let j = choose|j: int|
                #[trigger] branch_index(j) && k <= j < bs.len() && node_sem(bs[j], s, pos, stack);
            if j != k {
                assert(alts_sem(bs, k + 1, s, pos, stack));
            }
        }
        if alts_sem(bs, k + 1, s, pos, stack) {
            let j = choose|j: int|
                #[trigger] branch_index(j) && k + 1 <= j < bs.len() && node_sem(bs[j], s, pos, stack);
            assert(alts_sem(bs, k, s, pos, stack));
        }
    }
    if sm_node(bs[k], s, pos, stack, steps, limit).0 {
        assert(node_sem(bs[k], s, pos, stack));
        assert(branch_index(k));
    }
}

/// A run of the matcher on the whole input: it takes at least one step;
/// it stops exactly at the ceiling (one step for a zero ceiling) when it
/// reaches it, with no match; and below the ceiling it reports exactly
/// whether the pattern matches the whole input.
pub proof fn lemma_run(a: SpecAst, s: Seq<char>, limit: nat)
    ensures
        spec_run(a, s, limit).1 >= 1,
        spec_run(a, s, limit).1 >= limit ==> spec_run(a, s, limit).1 == (if limit == 0 {
            1
        } else {
            limit
        }),
        spec_run(a, s, limit).0 ==> spec_run(a, s, limit).1 < limit,
        spec_run(a, s, limit).1 < limit ==> (spec_run(a, s, limit).0 == full_match(a, s)),
{
    let empty = Seq::<Kont>::empty();
    assert(stack_ok(empty, s.len() as int));
    lemma_node(a, s, 0, empty, 0, limit);
    if node_sem(a, s, 0, empty) {
        let m = choose|m: int|
            #[trigger] split_pos(m) && 0 <= m <= s.len() && mt(a, s, 0, m) && kont_ok(empty, s, m);
        assert(m == s.len());
    }
    if full_match(a, s) {
        assert(mt(a, s, 0, s.len() as int));
        assert(kont_ok(empty, s, s.len() as int));
        assert(split_pos(s.len() as int));
        assert(node_sem(a, s, 0, empty));
    }
    if limit == 0 {
        assert(sm_node(a, s, 0, empty, 0, limit).1 == 1);
    }
}

/// Visiting a node under a higher ceiling: a verdict reached below the
/// lower ceiling is reached again, after the same steps.
proof fn lemma_node_limit(
    a: SpecAst,
    s: Seq<char>,
    pos: int,
    stack: Seq<Kont>,
    steps: nat,
    l1: nat,
    l2: nat,
)
    requires
        0 <= pos <= s.len(),
        stack_ok(stack, s.len() as int),
        steps < l1 || steps == 0,
        l1 <= l2,
        sm_node(a, s, pos, stack, steps, l1).1 < l1,
    ensures
        sm_node(a, s, pos, stack, steps, l2) == sm_node(a, s, pos, stack, steps, l1),
    decreases l1 - steps, 0int, 0int,
{
    let t = steps + 1;
    match a {
        SpecAst::Empty => lemma_cont_limit(s, pos, stack, t, l1, l2),
        SpecAst::Literal(c) => {
            if 0 <= pos < s.len() && s[pos] == c {
                lemma_cont_limit(s, pos + 1, stack, t, l1, l2);
            }
        },
        SpecAst::Class(n, rs) => {
            if 0 <= pos < s.len() && class_accepts(n, rs, s[pos]) {
                lemma_cont_limit(s, pos + 1, stack, t, l1, l2);
            }
        },
        SpecAst::AnchorStart => {
            if pos == 0 {
                lemma_cont_limit(s, pos, stack, t, l1, l2);
            }
        },
        SpecAst::AnchorEnd => {
            if pos == s.len() {
                lemma_cont_limit(s, pos, stack, t, l1, l2);
            }
        },
        SpecAst::Group(x) => lemma_node_limit(*x, s, pos, stack, t, l1, l2),
        SpecAst::Concat(ns) => {
            let f = Kont::Members(ns, 0);
            lemma_stack_ok_push(stack, f, s.len() as int);
            lemma_cont_limit(s, pos, stack.push(f), t, l1, l2);
        },
        SpecAst::Alternation(bs) => lemma_alts_limit(bs, 0, s, pos, stack, t, l1, l2),
        SpecAst::Repeat(x, mn, mx) => lemma_rep_limit(*x, mn, mx, 0, s, pos, stack, t, l1, l2),
    }
}

/// Handing a position to the continuation under a higher ceiling.
proof fn lemma_cont_limit(s: Seq<char>, pos: int, stack: Seq<Kont>, steps: nat, l1: nat, l2: nat)
    requires
        0 <= pos <= s.len(),
        stack_ok(stack, s.len() as int),
        steps < l1,
        l1 <= l2,
        sm_cont(s, pos, stack, steps, l1).1 < l1,
    ensures
        sm_cont(s, pos, stack, steps, l2) == sm_cont(s, pos, stack, steps, l1),
    decreases l1 - steps, 2 * stack.len() + 1, 0int,
{
    if stack.len() > 0 {
        let rest = stack.drop_last();
        lemma_stack_ok_rest(stack, s.len() as int);
        match stack.last() {
            Kont::Members(ns, k) => {
                if k < 0 || k >= ns.len() {
                    lemma_cont_limit(s, pos, rest, steps, l1, l2);
                } else {
                    let f = Kont::Members(ns, k + 1);
                    lemma_stack_ok_push(rest, f, s.len() as int);
                    lemma_node_limit(ns[k], s, pos, rest.push(f), steps, l1, l2);
                }
            },
            Kont::Rep(x, mn, mx, c, st) => {
                if pos > st {
                    lemma_rep_limit(x, mn, mx, c, s, pos, rest, steps, l1, l2);
                } else if c == 1 && 0 < mn && bounds_ordered(mn, mx) {
                    lemma_cont_limit(s, pos, rest, steps, l1, l2);
                }
            },
        }
    }
}

/// A repeat between iterations under a higher ceiling.
proof fn lemma_rep_limit(
    x: SpecAst,
    mn: u32,
    mx: Option<u32>,
    c: nat,
    s: Seq<char>,
    pos: int,
    stack: Seq<Kont>,
    steps: nat,
    l1: nat,
    l2: nat,
)
    requires
        0 <= pos <= s.len(),
        c <= pos,
        mx matches Some(b) ==> c <= b,
        stack_ok(stack, s.len() as int),
        steps < l1,
        l1 <= l2,
        sm_rep(x, mn, mx, c, s, pos, stack, steps, l1).1 < l1,
    ensures
        sm_rep(x, mn, mx, c, s, pos, stack, steps, l2) == sm_rep(x, mn, mx, c, s, pos, stack, steps, l1),
    decreases l1 - steps, 2 * stack.len() + 2, 0int,
{
    let f = Kont::Rep(x, mn, mx, c + 1, pos);
    let pushed = stack.push(f);
    if may_iterate(mx, c) {
        lemma_stack_ok_push(stack, f, s.len() as int);
        lemma_node(x, s, pos, pushed, steps, l1);
        let (r1, st1) = sm_node(x, s, pos, pushed, steps, l1);
        if r1 || st1 < l1 {
            lemma_node_limit(x, s, pos, pushed, steps, l1, l2);
        }
        if !r1 && st1 < l1 && c >= mn {
            lemma_cont(s, pos, stack, st1, l1);
            lemma_cont_limit(s, pos, stack, st1, l1, l2);
        }
    } else if c >= mn {
        lemma_cont_limit(s, pos, stack, steps, l1, l2);
    }
}

/// Trying branches in order under a higher ceiling.
proof fn lemma_alts_limit(
    bs: Seq<SpecAst>,
    k: int,
    s: Seq<char>,
    pos: int,
    stack: Seq<Kont>,
    steps: nat,
    l1: nat,
    l2: nat,
)
    requires
        0 <= pos <= s.len(),
        stack_ok(stack, s.len() as int),
        steps < l1,
        l1 <= l2,
        sm_alts(bs, k, s, pos, stack, steps, l1).1 < l1,
    ensures
        sm_alts(bs, k, s, pos, stack, steps, l2) == sm_alts(bs, k, s, pos, stack, steps, l1),
    decreases l1 - steps, 0int, bs.len() - k + 1,
{
    if 0 <= k < bs.len() {
        lemma_node(bs[k], s, pos, stack, steps, l1);
        let (r, st) = sm_node(bs[k], s, pos, stack, steps, l1);
        if r || st < l1 {
            lemma_node_limit(bs[k], s, pos, stack, steps, l1, l2);
        }
        if !r && st < l1 && st > steps {
            lemma_alts(bs, k + 1, s, pos, stack, st, l1);
            lemma_alts_limit(bs, k + 1, s, pos, stack, st, l1, l2);
        }
    }
}

/// Visiting a node under a lower ceiling: a verdict that the higher
/// ceiling lets finish below the lower one is reached again, after the
/// same steps.
proof fn lemma_node_lower(
    a: SpecAst,
    s: Seq<char>,
    pos: int,
    stack: Seq<Kont>,
    steps: nat,
    l1: nat,
    l2: nat,
)
    requires
        0 <= pos <= s.len(),
        stack_ok(stack, s.len() as int),
        steps < l1 || steps == 0,
        l1 <= l2,
        sm_node(a, s, pos, stack, steps, l2).1 < l1,
    ensures
        sm_node(a, s, pos, stack, steps, l1) == sm_node(a, s, pos, stack, steps, l2),
    decreases l1 - steps, 0int, 0int,
{
    lemma_node(a, s, pos, stack, steps, l2);
    let t = steps + 1;
    match a {
        SpecAst::Empty => lemma_cont_lower(s, pos, stack, t, l1, l2),
        SpecAst::Literal(c) => {
            if 0 <= pos < s.len() && s[pos] == c {
                lemma_cont_lower(s, pos + 1, stack, t, l1, l2);
            }
        },
        SpecAst::Class(n, rs) => {
            if 0 <= pos < s.len() && class_accepts(n, rs, s[pos]) {
                lemma_cont_lower(s, pos + 1, stack, t, l1, l2);
            }
        },
        SpecAst::AnchorStart => {
            if pos == 0 {
                lemma_cont_lower(s, pos, stack, t, l1, l2);
            }
        },
        SpecAst::AnchorEnd => {
            if pos == s.len() {
                lemma_cont_lower(s, pos, stack, t, l1, l2);
            }
        },
        SpecAst::Group(x) => lemma_node_lower(*x, s, pos, stack, t, l1, l2),
        SpecAst::Concat(ns) => {
            let f = Kont::Members(ns, 0);
            lemma_stack_ok_push(stack, f, s.len() as int);
            lemma_cont_lower(s, pos, stack.push(f), t, l1, l2);
        },
        SpecAst::Alternation(bs) => lemma_alts_lower(bs, 0, s, pos, stack, t, l1, l2),
        SpecAst::Repeat(x, mn, mx) => lemma_rep_lower(*x, mn, mx, 0, s, pos, stack, t, l1, l2),
    }
}

/// Handing a position to the continuation under a lower ceiling.
proof fn lemma_cont_lower(s: Seq<char>, pos: int, stack: Seq<Kont>, steps: nat, l1: nat, l2: nat)
    requires
        0 <= pos <= s.len(),
        stack_ok(stack, s.len() as int),
        steps < l1,
        l1 <= l2,
        sm_cont(s, pos, stack, steps, l2).1 < l1,
    ensures
        sm_cont(s, pos, stack, steps, l1) == sm_cont(s, pos, stack, steps, l2),
    decreases l1 - steps, 2 * stack.len() + 1, 0int,
{
    if stack.len() > 0 {
        let rest = stack.drop_last();
        lemma_stack_ok_rest(stack, s.len() as int);
        match stack.last() {
            Kont::Members(ns, k) => {
                if k < 0 || k >= ns.len() {
                    lemma_cont_lower(s, pos, rest, steps, l1, l2);
                } else {
                    let f = Kont::Members(ns, k + 1);
                    lemma_stack_ok_push(rest, f, s.len() as int);
                    lemma_node_lower(ns[k], s, pos, rest.push(f), steps, l1, l2);
                }
            },
            Kont::Rep(x, mn, mx, c, st) => {
                if pos > st {
                    lemma_rep_lower(x, mn, mx, c, s, pos, rest, steps, l1, l2);
                } else if c == 1 && 0 < mn && bounds_ordered(mn, mx) {
                    lemma_cont_lower(s, pos, rest, steps, l1, l2);
                }
            },
        }
    }
}

/// A repeat between iterations under a lower ceiling.
proof fn lemma_rep_lower(
    x: SpecAst,
    mn: u32,
    mx: Option<u32>,
    c: nat,
    s: Seq<char>,
    pos: int,
    stack: Seq<Kont>,
    steps: nat,
    l1: nat,
    l2: nat,
)
    requires
        0 <= pos <= s.len(),
        c <= pos,
        mx matches Some(b) ==> c <= b,
        stack_ok(stack, s.len() as int),
        steps < l1,
        l1 <= l2,
        sm_rep(x, mn, mx, c, s, pos, stack, steps, l2).1 < l1,
    ensures
        sm_rep(x, mn, mx, c, s, pos, stack, steps, l1) == sm_rep(x, mn, mx, c, s, pos, stack, steps, l2),
    decreases l1 - steps, 2 * stack.len() + 2, 0int,
{
    let f = Kont::Rep(x, mn, mx, c + 1, pos);
    let pushed = stack.push(f);
    if may_iterate(mx, c) {
        lemma_stack_ok_push(stack, f, s.len() as int);
        lemma_node(x, s, pos, pushed, steps, l2);
        let (r1, st1) = sm_node(x, s, pos, pushed, steps, l2);
        if !r1 && st1 < l2 && c >= mn {
            lemma_cont(s, pos, stack, st1, l2);
        }
        if r1 || st1 < l1 {
            lemma_node_lower(x, s, pos, pushed, steps, l1, l2);
        }
        if !r1 && st1 < l1 && c >= mn {
            lemma_cont_lower(s, pos, stack, st1, l1, l2);
        }
    } else if c >= mn {
        lemma_cont_lower(s, pos, stack, steps, l1, l2);
    }
}

/// Trying branches in order under a lower ceiling.
proof fn lemma_alts_lower(
    bs: Seq<SpecAst>,
    k: int,
    s: Seq<char>,
    pos: int,
    stack: Seq<Kont>,
    steps: nat,
    l1: nat,
    l2: nat,
)
    requires
        0 <= pos <= s.len(),
        stack_ok(stack, s.len() as int),
        steps < l1,
        l1 <= l2,
        sm_alts(bs, k, s, pos, stack, steps, l2).1 < l1,
    ensures
        sm_alts(bs, k, s, pos, stack, steps, l1) == sm_alts(bs, k, s, pos, stack, steps, l2),
    decreases l1 - steps, 0int, bs.len() - k + 1,
{
    if 0 <= k < bs.len() {
        lemma_node(bs[k], s, pos, stack, steps, l2);
        let (r, st) = sm_node(bs[k], s, pos, stack, steps, l2);
        if !r && st < l2 && st > steps {
            lemma_alts(bs, k + 1, s, pos, stack, st, l2);
        }
        if r || st < l1 {
            lemma_node_lower(bs[k], s, pos, stack, steps, l1, l2);
        }
        if !r && st < l1 && st > steps {
            lemma_alts_lower(bs, k + 1, s, pos, stack, st, l1, l2);
        }
    }
}

/// A verdict stands under a higher ceiling: a run that finishes below its
/// ceiling finishes the same way, after the same steps, under any higher
/// one. A caller that ran out of budget can retry with a larger one and
/// loses nothing it had.
pub proof fn lemma_run_higher_ceiling(a: SpecAst, s: Seq<char>, c1: nat, c2: nat)
    requires
        spec_run(a, s, c1).1 < c1,
        c1 <= c2,
    ensures
        spec_run(a, s, c2) == spec_run(a, s, c1),
{
    let empty = Seq::<Kont>::empty();
    assert(stack_ok(empty, s.len() as int));
    lemma_node_limit(a, s, 0, empty, 0, c1, c2);
}

/// A run cut off at a ceiling needs at least that many steps under any
/// higher ceiling: a caller that doubles its budget after a truncated run
/// never sees fewer steps than the budget it already spent.
pub proof fn lemma_truncated_run_needs_its_ceiling(a: SpecAst, s: Seq<char>, c1: nat, c2: nat)
    requires
        spec_run(a, s, c1).1 >= c1,
        c1 <= c2,
    ensures
        spec_run(a, s, c2).1 >= c1,
{
    let empty = Seq::<Kont>::empty();
    assert(stack_ok(empty, s.len() as int));
    if spec_run(a, s, c2).1 < c1 {
        lemma_node_lower(a, s, 0, empty, 0, c1, c2);
    }
}

} // verus!
