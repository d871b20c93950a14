//! The automaton: states, edges, and what it means to accept a string.

use vstd::prelude::*;

verus! {

/// The condition under which a consuming state lets the run pass.
#[derive(Debug, PartialEq, Eq)]
pub enum Predicate {
    /// Exactly this character.
    Char(char),
    /// A character from the first to the second, both included.
    Range(char, char),
    /// A character inside one of the ranges, or, if negated, outside all of them.
    Class(bool, Vec<(char, char)>),
    /// Any character.
    Any,
    /// No character: the position before the first one.
    AtStart,
    /// No character: the position after the last one.
    AtEnd,
}

/// A state of the automaton.
#[derive(Debug, PartialEq, Eq)]
pub enum State {
    /// A junction: free edges to each of the targets.
    Junction(Vec<usize>),
    /// A consuming state: one edge to the target, open where the predicate holds.
    Consuming(Predicate, usize),
}

/// Whether `c` lies in one of `ranges`.
pub open spec fn in_ranges(ranges: Seq<(char, char)>, c: char) -> bool {
    exists|k: int| 0 <= k < ranges.len() && (#[trigger] ranges[k]).0 <= c <= ranges[k].1
}

impl Predicate {
    /// Whether the predicate looks at the position only and consumes nothing.
    pub open spec fn zero_width(self) -> bool {
        self is AtStart || self is AtEnd
    }

    /// Whether a predicate on characters admits `c`.
    pub open spec fn admits(self, c: char) -> bool {
        match self {
            Predicate::Char(x) => c == x,
            Predicate::Range(lo, hi) => lo <= c <= hi,
            Predicate::Class(negated, ranges) => in_ranges(ranges@, c) != negated,
            Predicate::Any => true,
            Predicate::AtStart => false,
            Predicate::AtEnd => false,
        }
    }

    /// Whether the predicate lets a run on `s` pass from position `i` to
    /// position `j`.
    pub open spec fn passes(self, s: Seq<char>, i: int, j: int) -> bool {
        match self {
            Predicate::AtStart => j == i && i == 0,
            Predicate::AtEnd => j == i && i == s.len(),
            _ => 0 <= i < s.len() && j == i + 1 && self.admits(s[i]),
        }
    }
}

impl State {
    /// Whether the state has an edge to state `q`.
    pub open spec fn points_to(self, q: int) -> bool {
        match self {
            State::Junction(targets) => exists|k: int|
                0 <= k < targets@.len() && #[trigger] targets@[k] as int == q,
            State::Consuming(_, next) => next as int == q,
        }
    }

    /// Whether the state is a junction with a single edge, to `a`.
    pub open spec fn jumps_to(self, a: int) -> bool {
        self matches State::Junction(targets) && targets@.len() == 1 && targets@[0] as int == a
    }

    /// Whether the state is a junction with two edges, to `a` and to `b`.
    pub open spec fn forks_to(self, a: int, b: int) -> bool {
        self matches State::Junction(targets) && targets@.len() == 2 && targets@[0] as int == a
            && targets@[1] as int == b
    }

    /// Whether a run on `s` can go from this state at position `i` to state
    /// `q` at position `j` in one step.
    pub open spec fn steps(self, s: Seq<char>, i: int, q: int, j: int) -> bool {
        match self {
            State::Junction(_) => j == i && self.points_to(q),
            State::Consuming(p, next) => next as int == q && p.passes(s, i, j),
        }
    }
}

/// Whether a run on `s` can go from state `p` at position `i` to state `q` at
/// position `j` in exactly `n` steps, leaving from states in `lo..hi` only.
pub open spec fn reach(
    states: Seq<State>,
    lo: int,
    hi: int,
    s: Seq<char>,
    p: int,
    i: int,
    q: int,
    j: int,
    n: nat,
) -> bool
    decreases n,
{
    if n == 0 {
        p == q && i == j
    } else {
        &&& lo <= p < hi
        &&& 0 <= p < states.len()
        &&& exists|m: int, k: int|
            #[trigger] states[p].steps(s, i, m, k) && reach(
                states,
                lo,
                hi,
                s,
                m,
                k,
                q,
                j,
                (n - 1) as nat,
            )
    }
}

/// Whether every edge that leaves a state in `lo..hi` ends in `lo..hi` or at
/// `exit`.
pub open spec fn closed(states: Seq<State>, lo: int, hi: int, exit: int) -> bool {
    forall|p: int, q: int|
        lo <= p < hi && 0 <= p < states.len() && #[trigger] states[p].points_to(q) ==> lo <= q
            < hi || q == exit
}

/// Whether two automata have the same states in `lo..hi`.
pub open spec fn agree(a: Seq<State>, b: Seq<State>, lo: int, hi: int) -> bool {
    &&& 0 <= lo
    &&& hi <= a.len()
    &&& hi <= b.len()
    &&& forall|p: int| lo <= p < hi ==> a[p] == b[p]
}

/// A nondeterministic finite automaton with one start state and one accept
/// state.
pub struct Nfa {
    pub states: Vec<State>,
    pub start: usize,
    pub accept: usize,
}

impl Nfa {
    /// The start and accept states exist, every edge ends at a state, and no
    /// edge leaves the accept state.
    pub open spec fn wf(self) -> bool {
        &&& self.start < self.states@.len()
        &&& self.accept < self.states@.len()
        &&& closed(self.states@, 0, self.states@.len() as int, self.accept as int)
        &&& forall|q: int| !(#[trigger] self.states@[self.accept as int].points_to(q))
    }

    /// Whether some run on `s` leads from the start state, before the first
    /// character, to the accept state, after the last one.
    pub open spec fn accepts(self, s: Seq<char>) -> bool {
        exists|n: nat| #[trigger]
            reach(
                self.states@,
                0,
                self.states@.len() as int,
                s,
                self.start as int,
                0,
                self.accept as int,
                s.len() as int,
                n,
            )
    }

    /// An automaton with a single state, which is both start and accept.
    pub fn new() -> (nfa: Nfa)
        ensures
            nfa.states@.len() == 1,
            nfa.states@[0] matches State::Junction(targets) && targets@.len() == 0,
            nfa.start == 0,
            nfa.accept == 0,
            nfa.wf(),
    {
        let mut states: Vec<State> = Vec::new();
        states.push(State::Junction(Vec::new()));
        Nfa { states, start: 0, accept: 0 }
    }

    /// Adds `state` behind the states that are there and returns its number.
    pub fn add_state(&mut self, state: State) -> (q: usize)
        ensures
            q == old(self).states@.len(),
            final(self).states@ == old(self).states@.push(state),
            final(self).start == old(self).start,
            final(self).accept == old(self).accept,
    {
        let q = self.states.len();
        self.states.push(state);
        q
    }
}

/// A run never goes back in the input.
pub proof fn lemma_reach_forward(
    states: Seq<State>,
    lo: int,
    hi: int,
    s: Seq<char>,
    p: int,
    i: int,
    q: int,
    j: int,
    n: nat,
)
    requires
        reach(states, lo, hi, s, p, i, q, j, n),
    ensures
        i <= j,
    decreases n,
{
    if n > 0 {
        let (m, k) = choose|m: int, k: int|
            #[trigger] states[p].steps(s, i, m, k) && reach(
                states,
                lo,
                hi,
                s,
                m,
                k,
                q,
                j,
                (n - 1) as nat,
            );
        lemma_reach_forward(states, lo, hi, s, m, k, q, j, (n - 1) as nat);
    }
}

/// A run that leaves only from states in `lo1..hi1` is also a run of any
/// automaton with the same states there, within any wider range.
pub proof fn lemma_reach_carry(
    a: Seq<State>,
    b: Seq<State>,
    lo1: int,
    hi1: int,
    lo: int,
    hi: int,
    s: Seq<char>,
    p: int,
    i: int,
    q: int,
    j: int,
    n: nat,
)
    requires
        reach(a, lo1, hi1, s, p, i, q, j, n),
        agree(a, b, lo1, hi1),
        lo <= lo1,
        hi1 <= hi,
    ensures
        reach(b, lo, hi, s, p, i, q, j, n),
    decreases n,
{
    if n > 0 {
        let (m, k) = choose|m: int, k: int|
            #[trigger] a[p].steps(s, i, m, k) && reach(a, lo1, hi1, s, m, k, q, j, (n - 1) as nat);
        lemma_reach_carry(a, b, lo1, hi1, lo, hi, s, m, k, q, j, (n - 1) as nat);
        assert(b[p].steps(s, i, m, k) && reach(b, lo, hi, s, m, k, q, j, (n - 1) as nat));
    }
}

/// Two runs, the second starting where the first ends, make one run.
pub proof fn lemma_reach_join(
    states: Seq<State>,
    lo: int,
    hi: int,
    s: Seq<char>,
    p: int,
    i: int,
    m: int,
    k: int,
    q: int,
    j: int,
    n1: nat,
    n2: nat,
)
    requires
        reach(states, lo, hi, s, p, i, m, k, n1),
        reach(states, lo, hi, s, m, k, q, j, n2),
    ensures
        reach(states, lo, hi, s, p, i, q, j, n1 + n2),
    decreases n1,
{
    if n1 > 0 {
        let (m1, k1) = choose|m1: int, k1: int|
            #[trigger] states[p].steps(s, i, m1, k1) && reach(
                states,
                lo,
                hi,
                s,
                m1,
                k1,
                m,
                k,
                (n1 - 1) as nat,
            );
        lemma_reach_join(states, lo, hi, s, m1, k1, m, k, q, j, (n1 - 1) as nat, n2);
        assert(states[p].steps(s, i, m1, k1) && reach(
            states,
            lo,
            hi,
            s,
            m1,
            k1,
            q,
            j,
            (n1 + n2 - 1) as nat,
        ));
    }
}

/// One step is a run of length one.
pub proof fn lemma_reach_one(
    states: Seq<State>,
    lo: int,
    hi: int,
    s: Seq<char>,
    p: int,
    i: int,
    q: int,
    j: int,
)
    requires
        lo <= p < hi,
        0 <= p < states.len(),
        states[p].steps(s, i, q, j),
    ensures
        reach(states, lo, hi, s, p, i, q, j, 1),
{
    assert(reach(states, lo, hi, s, q, j, q, j, 0));
}

/// A run that starts inside a closed part `lo1..hi1` of the automaton and ends
/// outside of it leaves that part through its exit: the run splits into a run
/// inside the part up to the exit, of `r.0` steps and ending at position
/// `r.1`, and the rest.
pub proof fn lemma_reach_leave(
    states: Seq<State>,
    lo1: int,
    hi1: int,
    exit1: int,
    lo: int,
    hi: int,
    s: Seq<char>,
    p: int,
    i: int,
    q: int,
    j: int,
    n: nat,
) -> (r: (nat, int))
    requires
        reach(states, lo, hi, s, p, i, q, j, n),
        closed(states, lo1, hi1, exit1),
        lo1 <= p < hi1,
        !(lo1 <= q < hi1),
        !(lo1 <= exit1 < hi1),
    ensures
        1 <= r.0 <= n,
        reach(states, lo1, hi1, s, p, i, exit1, r.1, r.0),
        reach(states, lo, hi, s, exit1, r.1, q, j, (n - r.0) as nat),
    decreases n,
{
    let (m, k) = choose|m: int, k: int|
        #[trigger] states[p].steps(s, i, m, k) && reach(
            states,
            lo,
            hi,
            s,
            m,
            k,
            q,
            j,
            (n - 1) as nat,
        );
    assert(states[p].points_to(m));
    if m == exit1 {
        lemma_reach_one(states, lo1, hi1, s, p, i, m, k);
        (1, k)
    } else {
        let r = lemma_reach_leave(states, lo1, hi1, exit1, lo, hi, s, m, k, q, j, (n - 1) as nat);
        assert(states[p].steps(s, i, m, k) && reach(
            states,
            lo1,
            hi1,
            s,
            m,
            k,
            exit1,
            r.1,
            r.0,
        ));
        ((r.0 + 1) as nat, r.1)
    }
}

/// A run splits before its last step: `r.0` and `r.1` are the state and the
/// position from which the last step is taken.
pub proof fn lemma_reach_last(
    states: Seq<State>,
    lo: int,
    hi: int,
    s: Seq<char>,
    p: int,
    i: int,
    q: int,
    j: int,
    n: nat,
) -> (r: (int, int))
    requires
        reach(states, lo, hi, s, p, i, q, j, n),
        n > 0,
    ensures
        reach(states, lo, hi, s, p, i, r.0, r.1, (n - 1) as nat),
        lo <= r.0 < hi,
        0 <= r.0 < states.len(),
        states[r.0].steps(s, r.1, q, j),
    decreases n,
{
    let (m, k) = choose|m: int, k: int|
        #[trigger] states[p].steps(s, i, m, k) && reach(
            states,
            lo,
            hi,
            s,
            m,
            k,
            q,
            j,
            (n - 1) as nat,
        );
    if n == 1 {
        assert(reach(states, lo, hi, s, p, i, p, i, 0));
        (p, i)
    } else {
        let r = lemma_reach_last(states, lo, hi, s, m, k, q, j, (n - 1) as nat);
        assert(states[p].steps(s, i, m, k) && reach(
            states,
            lo,
            hi,
            s,
            m,
            k,
            r.0,
            r.1,
            (n - 2) as nat,
        ));
        r
    }
}

} // verus!
