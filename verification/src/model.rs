//! The mathematical model of a regular expression: a ghost tree with
//! sequences for children, and the character-class membership predicate.

use vstd::prelude::*;

verus! {

/// A regular expression as a mathematical value. Every [`crate::parser::Ast`]
/// is viewed as one of these.
#[verifier::ext_equal]
pub enum SpecAst {
    Empty,
    Literal(char),
    /// `Class(negated, ranges)`: a set of inclusive character ranges.
    Class(bool, Seq<(char, char)>),
    AnchorStart,
    AnchorEnd,
    Concat(Seq<SpecAst>),
    Alternation(Seq<SpecAst>),
    /// `Repeat(node, min, max)`; `max == None` means unbounded.
    Repeat(Box<SpecAst>, u32, Option<u32>),
    Group(Box<SpecAst>),
}

/// Does some range of `ranges` contain `c`?
pub open spec fn in_ranges(ranges: Seq<(char, char)>, c: char) -> bool {
    exists|k: int| 0 <= k < ranges.len() && ranges[k].0 <= c && c <= ranges[k].1
}

/// Does a class with these ranges and this negation flag accept `c`?
pub open spec fn class_accepts(negated: bool, ranges: Seq<(char, char)>, c: char) -> bool {
    in_ranges(ranges, c) != negated
}

/// Marks a position where a match is split in two. Always true: it only
/// names the positions that the quantifiers below range over.
pub open spec fn split_pos(m: int) -> bool {
    true
}

/// Marks the index of a chosen alternative. Always true.
pub open spec fn branch_index(k: int) -> bool {
    true
}

/// Marks the index of a child node. Always true.
pub open spec fn child_index(k: int) -> bool {
    true
}

/// Marks a number of repetitions. Always true.
pub open spec fn rep_count(n: nat) -> bool {
    true
}

/// `t` is `a` or a sub-tree of `a`: reached through groups, repeat bodies,
/// and the members of concatenations and alternations.
pub open spec fn occurs_in(t: SpecAst, a: SpecAst) -> bool
    decreases a,
{
    t == a || match a {
        SpecAst::Group(x) => occurs_in(t, *x),
        SpecAst::Repeat(x, _, _) => occurs_in(t, *x),
        SpecAst::Concat(ns) => exists|k: int|
            #[trigger] child_index(k) && 0 <= k < ns.len() && occurs_in(t, ns[k]),
        SpecAst::Alternation(ns) => exists|k: int|
            #[trigger] child_index(k) && 0 <= k < ns.len() && occurs_in(t, ns[k]),
        _ => false,
    }
}

/// Is a repeat's minimum within its maximum?
pub open spec fn bounds_ordered(mn: u32, mx: Option<u32>) -> bool {
    mx matches Some(m) ==> mn <= m
}

/// `a` matches the part `s[i..j]` of the input `s` (anchors look at the
/// whole input). A repeat matches either some number of repetitions, each
/// consuming at least one character, or, when it needs at least one, the
/// empty span where its body matches the empty span: an empty first
/// repetition stands for all the required ones.
pub open spec fn mt(a: SpecAst, s: Seq<char>, i: int, j: int) -> bool
    decreases a, 0int,
{
    match a {
        SpecAst::Empty => i == j,
        SpecAst::Literal(c) => 0 <= i < s.len() && j == i + 1 && s[i] == c,
        SpecAst::Class(n, rs) => 0 <= i < s.len() && j == i + 1 && class_accepts(n, rs, s[i]),
        SpecAst::AnchorStart => i == j && i == 0,
        SpecAst::AnchorEnd => i == j && j == s.len(),
        SpecAst::Group(x) => mt(*x, s, i, j),
        SpecAst::Concat(ns) => mt_seq(ns, 0, s, i, j),
        SpecAst::Alternation(bs) => exists|k: int|
            #[trigger] branch_index(k) && 0 <= k < bs.len() && mt(bs[k], s, i, j),
        SpecAst::Repeat(x, mn, mx) => (exists|n: nat|
            #[trigger] rep_count(n) && mn <= n && (mx matches Some(m) ==> n <= m) && mt_rep(
                *x,
                n,
                s,
                i,
                j,
            )) || (i == j && 0 < mn && bounds_ordered(mn, mx) && mt(*x, s, i, i)),
    }
}

/// The members `ns[k..]` of a concatenation match `s[i..j]` one after another.
pub open spec fn mt_seq(ns: Seq<SpecAst>, k: int, s: Seq<char>, i: int, j: int) -> bool
    decreases ns, ns.len() - k,
{
    if k < 0 || k >= ns.len() {
        i == j
    } else {
        exists|m: int|
            #[trigger] split_pos(m) && i <= m <= j && mt(ns[k], s, i, m) && mt_seq(ns, k + 1, s, m, j)
    }
}

/// `n` nonempty repetitions of `x` match `s[i..j]`.
pub open spec fn mt_rep(x: SpecAst, n: nat, s: Seq<char>, i: int, j: int) -> bool
    decreases x, n,
{
    if n == 0 {
        i == j
    } else {
        exists|m: int|
            #[trigger] split_pos(m) && i < m <= j && mt(x, s, i, m) && mt_rep(x, (n - 1) as nat, s, m, j)
    }
}

/// `a` matches the whole of `s`.
pub open spec fn full_match(a: SpecAst, s: Seq<char>) -> bool {
    mt(a, s, 0, s.len() as int)
}

} // verus!
