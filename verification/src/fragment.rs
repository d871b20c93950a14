//! Fragments: parts of an automaton with one entry and one exit, and the
//! language that each of them recognises.

use vstd::prelude::*;
use crate::ast::Ast;
use crate::language::{matches_in, matches_all, matches_times, splits, times};
use crate::nfa::{
    State, reach, closed, agree, lemma_reach_carry, lemma_reach_forward, lemma_reach_join,
    lemma_reach_leave, lemma_reach_one,
};

verus! {

/// A language over stretches of an input: that of an expression, or that of
/// the expressions of a list from some place on, one after the other.
pub enum Lang {
    Node(Ast),
    Tail(Seq<Ast>, int),
}

impl Lang {
    /// Whether the language holds `s[i..j]`.
    pub open spec fn holds(self, s: Seq<char>, i: int, j: int) -> bool {
        match self {
            Lang::Node(e) => matches_in(e, s, i, j),
            Lang::Tail(list, k) => matches_all(list, k, s, i, j),
        }
    }
}

/// The states `lo..hi` form a fragment for `lang`: every edge from them stays
/// among them or goes to `exit`, which was there before them, and the runs
/// from `entry` through them to `exit` are exactly over the stretches of input
/// that `lang` holds.
pub open spec fn fragment(
    states: Seq<State>,
    lo: int,
    hi: int,
    entry: int,
    exit: int,
    lang: Lang,
) -> bool {
    &&& 0 <= exit < lo <= entry < hi <= states.len()
    &&& closed(states, lo, hi, exit)
    &&& forall|s: Seq<char>, i: int, j: int, n: nat| #[trigger]
        reach(states, lo, hi, s, entry, i, exit, j, n) ==> lang.holds(s, i, j)
    &&& forall|s: Seq<char>, i: int, j: int| #[trigger]
        lang.holds(s, i, j) ==> exists|n: nat| #[trigger] reach(states, lo, hi, s, entry, i, exit, j, n)
}

/// A fragment stays one in any automaton that has the same states in its range.
pub proof fn lemma_fragment_carry(
    a: Seq<State>,
    b: Seq<State>,
    lo: int,
    hi: int,
    entry: int,
    exit: int,
    lang: Lang,
)
    requires
        fragment(a, lo, hi, entry, exit, lang),
        agree(a, b, lo, hi),
    ensures
        fragment(b, lo, hi, entry, exit, lang),
{
    assert forall|s: Seq<char>, i: int, j: int, n: nat| #[trigger]
        reach(b, lo, hi, s, entry, i, exit, j, n) implies lang.holds(s, i, j) by {
        lemma_reach_carry(b, a, lo, hi, lo, hi, s, entry, i, exit, j, n);
    }
    assert forall|s: Seq<char>, i: int, j: int| #[trigger] lang.holds(s, i, j) implies exists|n: nat| #[trigger] reach(b, lo, hi, s, entry, i, exit, j, n) by {
        let n = choose|n: nat| #[trigger] reach(a, lo, hi, s, entry, i, exit, j, n);
        lemma_reach_carry(a, b, lo, hi, lo, hi, s, entry, i, exit, j, n);
    }
}

/// A fragment for one language is a fragment for any other that holds the
/// same stretches `s[i..j]` with `i <= j`, and no others.
pub proof fn lemma_fragment_same(
    states: Seq<State>,
    lo: int,
    hi: int,
    entry: int,
    exit: int,
    l1: Lang,
    l2: Lang,
)
    requires
        fragment(states, lo, hi, entry, exit, l1),
        forall|s: Seq<char>, i: int, j: int| #[trigger] l2.holds(s, i, j) ==> l1.holds(s, i, j),
        forall|s: Seq<char>, i: int, j: int|
            i <= j && #[trigger] l1.holds(s, i, j) ==> l2.holds(s, i, j),
    ensures
        fragment(states, lo, hi, entry, exit, l2),
{
    assert forall|s: Seq<char>, i: int, j: int, n: nat| #[trigger]
        reach(states, lo, hi, s, entry, i, exit, j, n) implies l2.holds(s, i, j) by {
        lemma_reach_forward(states, lo, hi, s, entry, i, exit, j, n);
        assert(l1.holds(s, i, j));
    }
    assert forall|s: Seq<char>, i: int, j: int| #[trigger] l2.holds(s, i, j) implies exists|n: nat| #[trigger] reach(states, lo, hi, s, entry, i, exit, j, n) by {
        assert(l1.holds(s, i, j));
    }
}

/// A run from `entry` to `exit` through a fragment, inside a wider range that
/// `exit` is not part of, is a run through the fragment alone.
pub proof fn lemma_through(
    states: Seq<State>,
    lo1: int,
    hi1: int,
    entry: int,
    exit: int,
    lang: Lang,
    lo: int,
    hi: int,
    s: Seq<char>,
    i: int,
    j: int,
    n: nat,
)
    requires
        fragment(states, lo1, hi1, entry, exit, lang),
        reach(states, lo, hi, s, entry, i, exit, j, n),
        !(lo <= exit < hi),
    ensures
        lang.holds(s, i, j),
        i <= j,
{
    let r = lemma_reach_leave(states, lo1, hi1, exit, lo, hi, s, entry, i, exit, j, n);
    lemma_reach_forward(states, lo, hi, s, entry, i, exit, j, n);
}

/// A single consuming state with an edge to `exit` is a fragment for any
/// language that holds exactly the stretches that the state's predicate lets
/// pass.
pub proof fn lemma_fragment_consuming(states: Seq<State>, q: int, exit: int, lang: Lang)
    requires
        0 <= exit < q < states.len(),
        states[q] matches State::Consuming(p, next) && next == exit && forall|
            s: Seq<char>,
            i: int,
            j: int,
        | #[trigger] lang.holds(s, i, j) <==> p.passes(s, i, j),
    ensures
        fragment(states, q, q + 1, q, exit, lang),
{
    reveal_with_fuel(reach, 3);
    assert forall|s: Seq<char>, i: int, j: int| #[trigger] lang.holds(s, i, j) implies exists|n: nat| #[trigger] reach(states, q, q + 1, s, q, i, exit, j, n) by {
        lemma_reach_one(states, q, q + 1, s, q, i, exit, j);
    }
}

/// A junction with a single edge, to `exit`, is a fragment for any language
/// that holds exactly the empty stretches.
pub proof fn lemma_fragment_empty(states: Seq<State>, q: int, exit: int, lang: Lang)
    requires
        0 <= exit < q < states.len(),
        states[q].jumps_to(exit),
        forall|s: Seq<char>, i: int, j: int| #[trigger] lang.holds(s, i, j) <==> i == j,
    ensures
        fragment(states, q, q + 1, q, exit, lang),
{
    reveal_with_fuel(reach, 3);
    assert forall|s: Seq<char>, i: int, j: int| #[trigger] lang.holds(s, i, j) implies exists|n: nat| #[trigger] reach(states, q, q + 1, s, q, i, exit, j, n) by {
        lemma_reach_one(states, q, q + 1, s, q, i, exit, j);
    }
}

/// Two fragments in a row, the exit of the first being the entry of the
/// second, together are a fragment for the stretches that split into one of
/// the first language and one of the second. The second begins the range, the
/// first ends it, and they leave no gap.
pub proof fn lemma_fragment_sequence(
    states: Seq<State>,
    lo: int,
    hi: int,
    lo1: int,
    hi1: int,
    lo2: int,
    hi2: int,
    entry: int,
    middle: int,
    exit: int,
    l1: Lang,
    l2: Lang,
    lang: Lang,
)
    requires
        fragment(states, lo1, hi1, entry, middle, l1),
        fragment(states, lo2, hi2, middle, exit, l2),
        lo == lo2,
        hi == hi1,
        lo <= lo1 <= hi2 <= hi,
        forall|s: Seq<char>, i: int, j: int| #[trigger]
            lang.holds(s, i, j) <==> exists|m: int| #[trigger]
                splits(i, m, j) && l1.holds(s, i, m) && l2.holds(s, m, j),
    ensures
        fragment(states, lo, hi, entry, exit, lang),
{
    assert forall|s: Seq<char>, i: int, j: int, n: nat| #[trigger]
        reach(states, lo, hi, s, entry, i, exit, j, n) implies lang.holds(s, i, j) by {
        let r = lemma_reach_leave(states, lo1, hi1, middle, lo, hi, s, entry, i, exit, j, n);
        lemma_reach_forward(states, lo1, hi1, s, entry, i, middle, r.1, r.0);
        lemma_through(states, lo2, hi2, middle, exit, l2, lo, hi, s, r.1, j, (n - r.0) as nat);
        assert(splits(i, r.1, j));
    }
    assert forall|s: Seq<char>, i: int, j: int| #[trigger] lang.holds(s, i, j) implies exists|n: nat| #[trigger] reach(states, lo, hi, s, entry, i, exit, j, n) by {
        let m = choose|m: int| #[trigger]
            splits(i, m, j) && l1.holds(s, i, m) && l2.holds(s, m, j);
        let n1 = choose|n: nat| #[trigger] reach(states, lo1, hi1, s, entry, i, middle, m, n);
        let n2 = choose|n: nat| #[trigger] reach(states, lo2, hi2, s, middle, m, exit, j, n);
        lemma_reach_carry(states, states, lo1, hi1, lo, hi, s, entry, i, middle, m, n1);
        lemma_reach_carry(states, states, lo2, hi2, lo, hi, s, middle, m, exit, j, n2);
        lemma_reach_join(states, lo, hi, s, entry, i, middle, m, exit, j, n1, n2);
    }
}

/// A junction with edges to the entries of two fragments that share their
/// exit is, with them, a fragment for the stretches of either language.
pub proof fn lemma_fragment_choice(
    states: Seq<State>,
    lo: int,
    mid: int,
    hi: int,
    e1: int,
    e2: int,
    exit: int,
    l1: Lang,
    l2: Lang,
    lang: Lang,
)
    requires
        fragment(states, lo, mid, e1, exit, l1),
        fragment(states, mid, hi - 1, e2, exit, l2),
        hi <= states.len(),
        states[hi - 1].forks_to(e1, e2),
        forall|s: Seq<char>, i: int, j: int| #[trigger]
            lang.holds(s, i, j) <==> l1.holds(s, i, j) || l2.holds(s, i, j),
    ensures
        fragment(states, lo, hi, hi - 1, exit, lang),
{
    let q = hi - 1;
    assert forall|s: Seq<char>, i: int, j: int, n: nat| #[trigger]
        reach(states, lo, hi, s, q, i, exit, j, n) implies lang.holds(s, i, j) by {
        let (m, k) = choose|m: int, k: int| #[trigger]
            states[q].steps(s, i, m, k) && reach(states, lo, hi, s, m, k, exit, j, (n - 1) as nat);
        if m == e1 {
            lemma_through(states, lo, mid, e1, exit, l1, lo, hi, s, i, j, (n - 1) as nat);
        } else {
            lemma_through(states, mid, hi - 1, e2, exit, l2, lo, hi, s, i, j, (n - 1) as nat);
        }
    }
    assert forall|s: Seq<char>, i: int, j: int| #[trigger] lang.holds(s, i, j) implies exists|n: nat| #[trigger] reach(states, lo, hi, s, q, i, exit, j, n) by {
        if l1.holds(s, i, j) {
            let n1 = choose|n: nat| #[trigger] reach(states, lo, mid, s, e1, i, exit, j, n);
            lemma_reach_carry(states, states, lo, mid, lo, hi, s, e1, i, exit, j, n1);
            assert(states[q].steps(s, i, e1, i));
            assert(reach(states, lo, hi, s, q, i, exit, j, n1 + 1));
        } else {
            let n2 = choose|n: nat| #[trigger] reach(states, mid, hi - 1, s, e2, i, exit, j, n);
            lemma_reach_carry(states, states, mid, hi - 1, lo, hi, s, e2, i, exit, j, n2);
            assert(states[q].steps(s, i, e2, i));
            assert(reach(states, lo, hi, s, q, i, exit, j, n2 + 1));
        }
    }
}

/// A junction with an edge to the entry of a fragment and an edge to its exit
/// is, with it, a fragment for the stretches of its language and the empty
/// ones.
pub proof fn lemma_fragment_skip(
    states: Seq<State>,
    lo: int,
    hi: int,
    e1: int,
    exit: int,
    l1: Lang,
    lang: Lang,
)
    requires
        fragment(states, lo, hi - 1, e1, exit, l1),
        hi <= states.len(),
        states[hi - 1].forks_to(e1, exit),
        forall|s: Seq<char>, i: int, j: int| #[trigger]
            lang.holds(s, i, j) <==> i == j || l1.holds(s, i, j),
    ensures
        fragment(states, lo, hi, hi - 1, exit, lang),
{
    let q = hi - 1;
    assert forall|s: Seq<char>, i: int, j: int, n: nat| #[trigger]
        reach(states, lo, hi, s, q, i, exit, j, n) implies lang.holds(s, i, j) by {
        let (m, k) = choose|m: int, k: int| #[trigger]
            states[q].steps(s, i, m, k) && reach(states, lo, hi, s, m, k, exit, j, (n - 1) as nat);
        if m == e1 {
            lemma_through(states, lo, hi - 1, e1, exit, l1, lo, hi, s, i, j, (n - 1) as nat);
        }
    }
    assert forall|s: Seq<char>, i: int, j: int| #[trigger] lang.holds(s, i, j) implies exists|n: nat| #[trigger] reach(states, lo, hi, s, q, i, exit, j, n) by {
        if l1.holds(s, i, j) {
            let n1 = choose|n: nat| #[trigger] reach(states, lo, hi - 1, s, e1, i, exit, j, n);
            lemma_reach_carry(states, states, lo, hi - 1, lo, hi, s, e1, i, exit, j, n1);
            assert(states[q].steps(s, i, e1, i));
            assert(reach(states, lo, hi, s, q, i, exit, j, n1 + 1));
        } else {
            lemma_reach_one(states, lo, hi, s, q, i, exit, j);
        }
    }
}

/// Whether `s[i..j]` is some number of occurrences of `e` in a row.
pub open spec fn repeats(e: Ast, s: Seq<char>, i: int, j: int) -> bool {
    exists|n: nat| matches_times(e, #[trigger] times(n), s, i, j)
}

/// The runs from the junction of a loop to its exit go any number of times
/// through the body.
proof fn lemma_loop_sound(
    states: Seq<State>,
    lo: int,
    hi: int,
    body: int,
    exit: int,
    e: Ast,
    s: Seq<char>,
    i: int,
    j: int,
    n: nat,
)
    requires
        fragment(states, lo + 1, hi, body, lo, Lang::Node(e)),
        0 <= exit < lo,
        states[lo].forks_to(body, exit),
        reach(states, lo, hi, s, lo, i, exit, j, n),
    ensures
        repeats(e, s, i, j),
    decreases n,
{
    let (m, k) = choose|m: int, k: int| #[trigger]
        states[lo].steps(s, i, m, k) && reach(states, lo, hi, s, m, k, exit, j, (n - 1) as nat);
    if m == body {
        let r = lemma_reach_leave(
            states,
            lo + 1,
            hi,
            lo,
            lo,
            hi,
            s,
            body,
            i,
            exit,
            j,
            (n - 1) as nat,
        );
        lemma_reach_forward(states, lo + 1, hi, s, body, i, lo, r.1, r.0);
        lemma_reach_forward(states, lo, hi, s, lo, r.1, exit, j, (n - 1 - r.0) as nat);
        lemma_loop_sound(states, lo, hi, body, exit, e, s, r.1, j, (n - 1 - r.0) as nat);
        let c = choose|c: nat| matches_times(e, #[trigger] times(c), s, r.1, j);
        assert(splits(i, r.1, j));
        assert(matches_in(e, s, i, r.1));
        assert(matches_times(e, times(c + 1), s, i, j));
    } else {
        assert(matches_times(e, times(0), s, i, j));
    }
}

/// Any number of occurrences of the body in a row is a run from the junction
/// of a loop to its exit.
proof fn lemma_loop_complete(
    states: Seq<State>,
    lo: int,
    hi: int,
    body: int,
    exit: int,
    e: Ast,
    s: Seq<char>,
    i: int,
    j: int,
    c: nat,
) -> (n: nat)
    requires
        fragment(states, lo + 1, hi, body, lo, Lang::Node(e)),
        0 <= exit < lo,
        states[lo].forks_to(body, exit),
        matches_times(e, c, s, i, j),
    ensures
        reach(states, lo, hi, s, lo, i, exit, j, n),
    decreases c,
{
    if c == 0 {
        lemma_reach_one(states, lo, hi, s, lo, i, exit, j);
        1
    } else {
        let m = choose|m: int| #[trigger]
            splits(i, m, j) && matches_in(e, s, i, m) && matches_times(e, (c - 1) as nat, s, m, j);
        assert(Lang::Node(e).holds(s, i, m));
        let n1 = choose|n: nat| #[trigger] reach(states, lo + 1, hi, s, body, i, lo, m, n);
        lemma_reach_carry(states, states, lo + 1, hi, lo, hi, s, body, i, lo, m, n1);
        let n2 = lemma_loop_complete(states, lo, hi, body, exit, e, s, m, j, (c - 1) as nat);
        lemma_reach_join(states, lo, hi, s, body, i, lo, m, exit, j, n1, n2);
        assert(states[lo].steps(s, i, body, i));
        assert(reach(states, lo, hi, s, lo, i, exit, j, n1 + n2 + 1));
        (n1 + n2 + 1) as nat
    }
}

/// A junction with an edge to the entry of a fragment, whose exit it is, and
/// an edge to `exit` is, with that fragment, a fragment for any number of
/// occurrences in a row; entered through the body instead, for one occurrence
/// and more.
pub proof fn lemma_fragment_loop(
    states: Seq<State>,
    lo: int,
    hi: int,
    body: int,
    exit: int,
    e: Ast,
    any: Lang,
    some: Lang,
)
    requires
        fragment(states, lo + 1, hi, body, lo, Lang::Node(e)),
        0 <= exit < lo,
        states[lo].forks_to(body, exit),
        forall|s: Seq<char>, i: int, j: int| #[trigger]
            any.holds(s, i, j) <==> repeats(e, s, i, j),
        forall|s: Seq<char>, i: int, j: int| #[trigger]
            some.holds(s, i, j) <==> exists|m: int| #[trigger]
                splits(i, m, j) && matches_in(e, s, i, m) && repeats(e, s, m, j),
    ensures
        fragment(states, lo, hi, lo, exit, any),
        fragment(states, lo, hi, body, exit, some),
{
    assert forall|s: Seq<char>, i: int, j: int, n: nat| #[trigger]
        reach(states, lo, hi, s, lo, i, exit, j, n) implies any.holds(s, i, j) by {
        lemma_loop_sound(states, lo, hi, body, exit, e, s, i, j, n);
    }
    assert forall|s: Seq<char>, i: int, j: int| #[trigger] any.holds(s, i, j) implies exists|n: nat| #[trigger] reach(states, lo, hi, s, lo, i, exit, j, n) by {
        let c = choose|c: nat| matches_times(e, #[trigger] times(c), s, i, j);
        let n = lemma_loop_complete(states, lo, hi, body, exit, e, s, i, j, c);
    }
    assert(closed(states, lo, hi, exit)) by {
        assert forall|p: int, q: int|
            lo <= p < hi && 0 <= p < states.len() && #[trigger] states[p].points_to(
                q,
            ) implies lo <= q < hi || q == exit by {
        }
    }
    assert(fragment(states, lo, hi, lo, exit, any));
    lemma_fragment_sequence(
        states,
        lo,
        hi,
        lo + 1,
        hi,
        lo,
        hi,
        body,
        lo,
        exit,
        Lang::Node(e),
        any,
        some,
    );
}

} // verus!
