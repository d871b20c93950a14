//! What a syntax tree means: the set of strings it matches.

use vstd::prelude::*;
use crate::ast::{Ast, PostfixKind, AnchorKind};

verus! {

/// Whether the character `c` belongs to one of the class members `members`.
pub open spec fn in_class(members: Seq<Ast>, c: char) -> bool {
    exists|k: int| 0 <= k < members.len() && member_has(#[trigger] members[k], c)
}

/// Whether the class member `m` holds the character `c`.
pub open spec fn member_has(m: Ast, c: char) -> bool {
    match m {
        Ast::Literal(x) => c == x,
        Ast::Range(lo, hi) => lo <= c <= hi,
        _ => false,
    }
}

/// Position `m` lies between `i` and `j`: a place to split `s[i..j]` in two.
pub open spec fn splits(i: int, m: int, j: int) -> bool {
    i <= m <= j
}

/// A number of repetitions; the same number.
pub open spec fn times(n: nat) -> nat {
    n
}

/// Whether `e` matches the characters of `s` from position `i` up to, not
/// including, position `j`. The anchors look at the whole of `s`.
pub open spec fn matches_in(e: Ast, s: Seq<char>, i: int, j: int) -> bool
    decreases e, 0nat, 0nat,
{
    match e {
        Ast::Program(_, children) => matches_all(children, 0, s, i, j),
        Ast::Literal(c) => 0 <= i < s.len() && j == i + 1 && s[i] == c,
        Ast::AnyChar => 0 <= i < s.len() && j == i + 1,
        Ast::Concatenation(children) => matches_all(children, 0, s, i, j),
        Ast::Alternation(left, right) => matches_in(*left, s, i, j) || matches_in(*right, s, i, j),
        Ast::UnaryPostfix(kind, operand) => match kind {
            PostfixKind::Star => exists|n: nat|
                matches_times(*operand, #[trigger] times(n), s, i, j),
            PostfixKind::Plus => exists|n: nat|
                n >= 1 && matches_times(*operand, #[trigger] times(n), s, i, j),
            PostfixKind::Optional => i == j || matches_in(*operand, s, i, j),
        },
        Ast::Bounded(operand, min, max) => exists|n: nat|
            min <= n && (max is Some ==> n <= max->0) && matches_times(
                *operand,
                #[trigger] times(n),
                s,
                i,
                j,
            ),
        Ast::Parens(operand) => matches_in(*operand, s, i, j),
        Ast::Bracket(negated, members) => 0 <= i < s.len() && j == i + 1 && (in_class(
            members,
            s[i],
        ) != negated),
        Ast::Range(lo, hi) => 0 <= i < s.len() && j == i + 1 && lo <= s[i] <= hi,
        Ast::Anchor(kind) => i == j && match kind {
            AnchorKind::Start => i == 0,
            AnchorKind::End => i == s.len(),
        },
    }
}

/// Whether the expressions `list[k..]`, one after the other, match `s[i..j]`.
pub open spec fn matches_all(list: Seq<Ast>, k: int, s: Seq<char>, i: int, j: int) -> bool
    decreases list, list.len() - k, 0nat,
{
    if k < 0 || k >= list.len() {
        i == j
    } else {
        exists|m: int|
            #[trigger] splits(i, m, j) && matches_in(list[k], s, i, m) && matches_all(
                list,
                k + 1,
                s,
                m,
                j,
            )
    }
}

/// Whether `n` occurrences of `e`, one after the other, match `s[i..j]`.
pub open spec fn matches_times(e: Ast, n: nat, s: Seq<char>, i: int, j: int) -> bool
    decreases e, n + 1, 0nat,
{
    if n == 0 {
        i == j
    } else {
        exists|m: int|
            #[trigger] splits(i, m, j) && matches_in(e, s, i, m) && matches_times(
                e,
                (n - 1) as nat,
                s,
                m,
                j,
            )
    }
}

/// Whether the pattern with syntax tree `e` matches the whole of `s`.
pub open spec fn accepts(e: Ast, s: Seq<char>) -> bool {
    matches_in(e, s, 0, s.len() as int)
}

/// One more occurrence in front: if `e` matches `s[i..m]` and `n` occurrences
/// of `e` match `s[m..j]`, then `n + 1` occurrences match `s[i..j]`.
pub proof fn lemma_one_more(e: Ast, n: nat, s: Seq<char>, i: int, m: int, j: int)
    requires
        splits(i, m, j),
        matches_in(e, s, i, m),
        matches_times(e, n, s, m, j),
    ensures
        matches_times(e, n + 1, s, i, j),
{
}

/// A repetition with one more mandatory occurrence is one occurrence followed
/// by the repetition: `e{a+1,b+1}` is `e` and then `e{a,b}`, and `e{a+1,}` is
/// `e` and then `e{a,}`.
pub proof fn lemma_bounded_unfold(e: Ast, min: nat, max: Option<nat>, more: Ast, less: Ast)
    requires
        less == Ast::Bounded(Box::new(e), min, max),
        more == Ast::Bounded(
            Box::new(e),
            min + 1,
            match max {
                Some(b) => Some(b + 1),
                None => None,
            },
        ),
    ensures
        forall|s: Seq<char>, i: int, j: int| #[trigger]
            matches_in(more, s, i, j) <==> exists|m: int| #[trigger]
                splits(i, m, j) && matches_in(e, s, i, m) && matches_in(less, s, m, j),
{
    assert forall|s: Seq<char>, i: int, j: int| #[trigger]
        matches_in(more, s, i, j) <==> exists|m: int| #[trigger]
            splits(i, m, j) && matches_in(e, s, i, m) && matches_in(less, s, m, j) by {
        if matches_in(more, s, i, j) {
            let n = choose|n: nat|
                min + 1 <= n && (max is Some ==> n <= max->0 + 1) && matches_times(
                    e,
                    #[trigger] times(n),
                    s,
                    i,
                    j,
                );
            let m = choose|m: int| #[trigger]
                splits(i, m, j) && matches_in(e, s, i, m) && matches_times(
                    e,
                    (n - 1) as nat,
                    s,
                    m,
                    j,
                );
            assert(matches_times(e, times((n - 1) as nat), s, m, j));
            assert(splits(i, m, j) && matches_in(e, s, i, m) && matches_in(less, s, m, j));
        }
        if exists|m: int| #[trigger]
            splits(i, m, j) && matches_in(e, s, i, m) && matches_in(less, s, m, j) {
            let m = choose|m: int| #[trigger]
                splits(i, m, j) && matches_in(e, s, i, m) && matches_in(less, s, m, j);
            let n = choose|n: nat|
                min <= n && (max is Some ==> n <= max->0) && matches_times(
                    e,
                    #[trigger] times(n),
                    s,
                    m,
                    j,
                );
            lemma_one_more(e, n, s, i, m, j);
            assert(matches_times(e, times(n + 1), s, i, j));
        }
    }
}

/// A repetition with one more optional occurrence is an optional occurrence
/// followed by the repetition: `e{0,b+1}` is `e?` and then `e{0,b}`.
pub proof fn lemma_bounded_optional(e: Ast, max: nat)
    ensures
        forall|s: Seq<char>, i: int, j: int| #[trigger]
            matches_in(Ast::Bounded(Box::new(e), 0, Some(max + 1)), s, i, j) <==> exists|m: int|
             #[trigger]
                splits(i, m, j) && matches_in(
                    Ast::UnaryPostfix(PostfixKind::Optional, Box::new(e)),
                    s,
                    i,
                    m,
                ) && matches_in(Ast::Bounded(Box::new(e), 0, Some(max)), s, m, j),
{
    let more = Ast::Bounded(Box::new(e), 0, Some(max + 1));
    let less = Ast::Bounded(Box::new(e), 0, Some(max));
    let opt = Ast::UnaryPostfix(PostfixKind::Optional, Box::new(e));
    assert forall|s: Seq<char>, i: int, j: int| #[trigger]
        matches_in(more, s, i, j) <==> exists|m: int| #[trigger]
            splits(i, m, j) && matches_in(opt, s, i, m) && matches_in(less, s, m, j) by {
        if matches_in(more, s, i, j) {
            let n = choose|n: nat|
                0 <= n && n <= max + 1 && matches_times(e, #[trigger] times(n), s, i, j);
            if n == 0 {
                assert(matches_times(e, times(0), s, i, j));
                assert(splits(i, i, j) && matches_in(opt, s, i, i) && matches_in(less, s, i, j));
            } else {
                let m = choose|m: int| #[trigger]
                    splits(i, m, j) && matches_in(e, s, i, m) && matches_times(
                        e,
                        (n - 1) as nat,
                        s,
                        m,
                        j,
                    );
                assert(matches_times(e, times((n - 1) as nat), s, m, j));
                assert(splits(i, m, j) && matches_in(opt, s, i, m) && matches_in(less, s, m, j));
            }
        }
        if exists|m: int| #[trigger]
            splits(i, m, j) && matches_in(opt, s, i, m) && matches_in(less, s, m, j) {
            let m = choose|m: int| #[trigger]
                splits(i, m, j) && matches_in(opt, s, i, m) && matches_in(less, s, m, j);
            let n = choose|n: nat|
                0 <= n && n <= max && matches_times(e, #[trigger] times(n), s, m, j);
            if i == m {
                assert(matches_times(e, times(n), s, i, j));
            } else {
                lemma_one_more(e, n, s, i, m, j);
                assert(matches_times(e, times(n + 1), s, i, j));
            }
        }
    }
}

} // verus!
