//! The matcher: runs an automaton on an input by keeping, position by
//! position, the set of all states that some run has reached.

use vstd::prelude::*;
use crate::nfa::{
    Nfa, State, Predicate, reach, lemma_reach_join, lemma_reach_last, lemma_reach_one,
};

verus! {

/// The number of entries of `marks` that are not set.
pub open spec fn unset(marks: Seq<bool>) -> nat
    decreases marks.len(),
{
    if marks.len() == 0 {
        0
    } else {
        unset(marks.drop_last()) + if marks.last() {
            0nat
        } else {
            1nat
        }
    }
}

/// Setting an entry that was not set leaves one entry less that is not set.
pub proof fn lemma_unset_update(marks: Seq<bool>, q: int)
    requires
        0 <= q < marks.len(),
        !marks[q],
    ensures
        unset(marks.update(q, true)) + 1 == unset(marks),
    decreases marks.len(),
{
    let after = marks.update(q, true);
    if q == marks.len() - 1 {
        assert(after.drop_last() =~= marks.drop_last());
    } else {
        lemma_unset_update(marks.drop_last(), q);
        assert(after.drop_last() =~= marks.drop_last().update(q, true));
    }
}

/// A set of states of an automaton with a known number of states: a flag for
/// each state, and the members in the order in which they came in.
pub struct StateSet {
    pub marks: Vec<bool>,
    pub list: Vec<usize>,
}

impl StateSet {
    /// Whether state `q` is in the set.
    pub open spec fn has(self, q: int) -> bool {
        0 <= q < self.marks@.len() && self.marks@[q]
    }

    /// The set is one of states below `n`: the list holds exactly the states
    /// that are flagged, each of them once.
    pub open spec fn wf(self, n: nat) -> bool {
        &&& self.marks@.len() == n
        &&& self.list@.len() + unset(self.marks@) == n
        &&& forall|k: int| 0 <= k < self.list@.len() ==> self.has(#[trigger] self.list@[k] as int)
        &&& forall|q: int|
            self.has(q) ==> exists|k: int|
                0 <= k < self.list@.len() && #[trigger] self.list@[k] as int == q
    }

    /// The empty set of states below `n`.
    pub fn new(n: usize) -> (set: StateSet)
        ensures
            set.wf(n as nat),
            set.list@.len() == 0,
            forall|q: int| !set.has(q),
    {
        let mut marks: Vec<bool> = Vec::new();
        let mut k: usize = 0;
        while k < n
            invariant
                k <= n,
                marks@.len() == k,
                unset(marks@) == k,
                forall|q: int| 0 <= q < k ==> !marks@[q],
            decreases n - k,
        {
            let ghost before = marks@;
            marks.push(false);
            assert(marks@.drop_last() =~= before);
            k = k + 1;
        }
        StateSet { marks, list: Vec::new() }
    }

    /// Whether state `q` is in the set.
    pub fn contains(&self, q: usize) -> (b: bool)
        ensures
            b == self.has(q as int),
    {
        q < self.marks.len() && self.marks[q]
    }

    /// Puts state `q` into the set, if it is not there.
    pub fn insert(&mut self, q: usize)
        requires
            old(self).wf(old(self).marks@.len()),
            q < old(self).marks@.len(),
        ensures
            final(self).wf(old(self).marks@.len()),
            final(self).has(q as int),
            forall|x: int| final(self).has(x) <==> old(self).has(x) || x == q,
            old(self).list@.len() <= final(self).list@.len(),
            forall|k: int|
                0 <= k < old(self).list@.len() ==> final(self).list@[k] == old(self).list@[k],
    {
        if !self.marks[q] {
            proof {
                lemma_unset_update(self.marks@, q as int);
            }
            self.marks.set(q, true);
            self.list.push(q);
            assert forall|x: int| self.has(x) implies exists|k: int|
                0 <= k < self.list@.len() && #[trigger] self.list@[k] as int == x by {
                if x == q {
                    assert(self.list@[self.list@.len() - 1] as int == x);
                } else {
                    assert(old(self).has(x));
                    let k = choose|k: int|
                        0 <= k < old(self).list@.len() && #[trigger] old(self).list@[k] as int
                            == x;
                    assert(self.list@[k] as int == x);
                }
            }
        }
    }
}

impl Predicate {
    /// Whether the predicate admits the character `c`. A zero-width predicate
    /// admits none.
    pub fn allows(&self, c: char) -> (b: bool)
        ensures
            b == self.admits(c),
    {
        match self {
            Predicate::Char(x) => c == *x,
            Predicate::Range(lo, hi) => *lo <= c && c <= *hi,
            Predicate::Class(negated, ranges) => {
                let mut found = false;
                let mut k: usize = 0;
                while k < ranges.len()
                    invariant
                        k <= ranges@.len(),
                        found <==> exists|t: int|
                            0 <= t < k && (#[trigger] ranges@[t]).0 <= c <= ranges@[t].1,
                    decreases ranges@.len() - k,
                {
                    let r = ranges[k];
                    if r.0 <= c && c <= r.1 {
                        found = true;
                    }
                    k = k + 1;
                }
                found != *negated
            },
            Predicate::Any => true,
            Predicate::AtStart => false,
            Predicate::AtEnd => false,
        }
    }
}

/// Whether some run of `nfa` on `s` is in state `q` at position `p`.
pub open spec fn live(nfa: Nfa, s: Seq<char>, q: int, p: int) -> bool {
    exists|n: nat| #[trigger]
        reach(nfa.states@, 0, nfa.states@.len() as int, s, nfa.start as int, 0, q, p, n)
}

/// Whether a run of `nfa` on `s` comes to state `q` at position `p` from
/// elsewhere: it starts there, or it consumes the character before `p` on its
/// way into `q`.
pub open spec fn entered(nfa: Nfa, s: Seq<char>, q: int, p: int) -> bool {
    ||| p == 0 && q == nfa.start
    ||| exists|r: int|
        0 <= r < nfa.states@.len() && live(nfa, s, r, p - 1) && #[trigger] nfa.states@[r].steps(
            s,
            p - 1,
            q,
            p,
        )
}

/// A run that is in a state can take any step from it.
pub proof fn lemma_live_step(nfa: Nfa, s: Seq<char>, q: int, p: int, q2: int, p2: int)
    requires
        live(nfa, s, q, p),
        0 <= q < nfa.states@.len(),
        nfa.states@[q].steps(s, p, q2, p2),
    ensures
        live(nfa, s, q2, p2),
{
    let hi = nfa.states@.len() as int;
    let n = choose|n: nat| #[trigger] reach(nfa.states@, 0, hi, s, nfa.start as int, 0, q, p, n);
    lemma_reach_one(nfa.states@, 0, hi, s, q, p, q2, p2);
    lemma_reach_join(nfa.states@, 0, hi, s, nfa.start as int, 0, q, p, q2, p2, n, 1);
}

/// A set of states that holds every state entered at position `p` and, with a
/// state, every state that is one step without input away from it, holds
/// every state that a run can be in at position `p`.
pub proof fn lemma_closure_complete(
    nfa: Nfa,
    s: Seq<char>,
    set: StateSet,
    p: int,
    q: int,
    n: nat,
)
    requires
        nfa.wf(),
        set.marks@.len() == nfa.states@.len(),
        reach(nfa.states@, 0, nfa.states@.len() as int, s, nfa.start as int, 0, q, p, n),
        forall|x: int| 0 <= x < nfa.states@.len() && entered(nfa, s, x, p) ==> set.has(x),
        forall|x: int, y: int|
            set.has(x) && #[trigger] nfa.states@[x].steps(s, p, y, p) ==> set.has(y),
    ensures
        set.has(q),
    decreases n,
{
    let states = nfa.states@;
    let hi = states.len() as int;
    if n > 0 {
        let r = lemma_reach_last(states, 0, hi, s, nfa.start as int, 0, q, p, n);
        assert(states[r.0].points_to(q));
        if r.1 == p {
            lemma_closure_complete(nfa, s, set, p, r.0, (n - 1) as nat);
        } else {
            assert(live(nfa, s, r.0, p - 1));
        }
    }
}

impl Nfa {
    /// Completes `set` with every state that a run can reach from its members
    /// without input at position `pos`.
    fn close(&self, set: &mut StateSet, input: &Vec<char>, pos: usize)
        requires
            self.wf(),
            old(set).wf(self.states@.len() as nat),
            pos <= input@.len(),
            forall|q: int| old(set).has(q) ==> live(*self, input@, q, pos as int),
            forall|q: int|
                0 <= q < self.states@.len() && entered(*self, input@, q, pos as int) ==> old(
                    set,
                ).has(q),
        ensures
            final(set).wf(self.states@.len() as nat),
            forall|q: int| final(set).has(q) <==> live(*self, input@, q, pos as int),
    {
        let ghost s = input@;
        let ghost p = pos as int;
        let ghost size = self.states@.len() as nat;
        let mut done: usize = 0;
        while done < set.list.len()
            invariant
                self.wf(),
                s == input@,
                p == pos as int,
                size == self.states@.len(),
                pos <= input@.len(),
                set.wf(size),
                done <= set.list@.len(),
                forall|q: int| set.has(q) ==> live(*self, s, q, p),
                forall|q: int| 0 <= q < size && entered(*self, s, q, p) ==> set.has(q),
                forall|k: int, y: int|
                    0 <= k < done && #[trigger] self.states@[set.list@[k] as int].steps(
                        s,
                        p,
                        y,
                        p,
                    ) ==> set.has(y),
            decreases size - done,
        {
            let q = set.list[done];
            assert(set.has(q as int));
            let ghost state = self.states@[q as int];
            match &self.states[q] {
                State::Junction(targets) => {
                    let mut t: usize = 0;
                    while t < targets.len()
                        invariant
                            self.wf(),
                            size == self.states@.len(),
                            set.wf(size),
                            q < size,
                            done < set.list@.len(),
                            set.list@[done as int] == q,
                            state == self.states@[q as int],
                            state == State::Junction(*targets),
                            t <= targets@.len(),
                            live(*self, s, q as int, p),
                            forall|x: int| set.has(x) ==> live(*self, s, x, p),
                            forall|x: int|
                                0 <= x < size && entered(*self, s, x, p) ==> set.has(x),
                            forall|k: int, y: int|
                                0 <= k < done && #[trigger] self.states@[set.list@[k] as int].steps(
                                    s,
                                    p,
                                    y,
                                    p,
                                ) ==> set.has(y),
                            forall|k: int| 0 <= k < t ==> set.has(#[trigger] targets@[k] as int),
                        decreases targets@.len() - t,
                    {
                        let target = targets[t];
                        proof {
                            assert(state->Junction_0 == *targets);
                            assert(state.points_to(target as int));
                            lemma_live_step(*self, s, q as int, p, target as int, p);
                        }
                        set.insert(target);
                        t = t + 1;
                    }
                },
                State::Consuming(predicate, next) => {
                    let open = match predicate {
                        Predicate::AtStart => pos == 0,
                        Predicate::AtEnd => pos == input.len(),
                        _ => false,
                    };
                    if open {
                        proof {
                            assert(state.points_to(*next as int));
                            lemma_live_step(*self, s, q as int, p, *next as int, p);
                        }
                        set.insert(*next);
                    }
                },
            }
            done = done + 1;
        }
        proof {
            assert forall|x: int, y: int|
                set.has(x) && #[trigger] self.states@[x].steps(s, p, y, p) implies set.has(y) by {
                let k = choose|k: int|
                    0 <= k < set.list@.len() && #[trigger] set.list@[k] as int == x;
                assert(self.states@[set.list@[k] as int].steps(s, p, y, p));
            }
            assert forall|q: int| live(*self, s, q, p) implies set.has(q) by {
                let n = choose|n: nat| #[trigger]
                    reach(self.states@, 0, size as int, s, self.start as int, 0, q, p, n);
                lemma_closure_complete(*self, s, *set, p, q, n);
            }
        }
    }

    /// The states that a run enters by consuming the character at position
    /// `pos` from one of the states in `from`.
    fn advance(&self, from: &StateSet, input: &Vec<char>, pos: usize) -> (set: StateSet)
        requires
            self.wf(),
            from.wf(self.states@.len() as nat),
            pos < input@.len(),
            forall|q: int| from.has(q) <==> live(*self, input@, q, pos as int),
        ensures
            set.wf(self.states@.len() as nat),
            forall|q: int| set.has(q) ==> live(*self, input@, q, pos + 1),
            forall|q: int|
                0 <= q < self.states@.len() && entered(*self, input@, q, pos + 1) ==> set.has(q),
    {
        let ghost s = input@;
        let ghost p = pos as int;
        let ghost size = self.states@.len() as nat;
        let c = input[pos];
        let mut set = StateSet::new(self.states.len());
        let mut k: usize = 0;
        while k < from.list.len()
            invariant
                self.wf(),
                s == input@,
                p == pos as int,
                c == s[p],
                size == self.states@.len(),
                pos < input@.len(),
                from.wf(size),
                set.wf(size),
                k <= from.list@.len(),
                forall|q: int| from.has(q) <==> live(*self, s, q, p),
                forall|q: int| set.has(q) ==> live(*self, s, q, p + 1),
                forall|t: int, y: int|
                    0 <= t < k && #[trigger] self.states@[from.list@[t] as int].steps(
                        s,
                        p,
                        y,
                        p + 1,
                    ) ==> set.has(y),
            decreases from.list@.len() - k,
        {
            let q = from.list[k];
            assert(from.has(q as int));
            match &self.states[q] {
                State::Junction(_) => {},
                State::Consuming(predicate, next) => {
                    if predicate.allows(c) {
                        proof {
                            assert(self.states@[q as int].points_to(*next as int));
                            lemma_live_step(*self, s, q as int, p, *next as int, p + 1);
                        }
                        set.insert(*next);
                    }
                },
            }
            k = k + 1;
        }
        proof {
            assert forall|q: int| 0 <= q < size && entered(*self, s, q, p + 1) implies set.has(
                q,
            ) by {
                let r = choose|r: int|
                    0 <= r < size && live(*self, s, r, p) && #[trigger] self.states@[r].steps(
                        s,
                        p,
                        q,
                        p + 1,
                    );
                assert(from.has(r));
                let t = choose|t: int|
                    0 <= t < from.list@.len() && #[trigger] from.list@[t] as int == r;
                assert(self.states@[from.list@[t] as int].steps(s, p, q, p + 1));
            }
        }
        set
    }

    /// Runs the automaton on `input` and says whether it accepts it as a whole.
    /// The set of live states is kept from position to position, so the time
    /// taken is bounded by the number of states times the length of the input.
    pub fn run(&self, input: &Vec<char>) -> (b: bool)
        requires
            self.wf(),
        ensures
            b == self.accepts(input@),
    {
        let ghost s = input@;
        let mut set = StateSet::new(self.states.len());
        set.insert(self.start);
        proof {
            assert(reach(
                self.states@,
                0,
                self.states@.len() as int,
                s,
                self.start as int,
                0,
                self.start as int,
                0,
                0,
            ));
        }
        self.close(&mut set, input, 0);
        let mut pos: usize = 0;
        while pos < input.len()
            invariant
                self.wf(),
                s == input@,
                pos <= input@.len(),
                set.wf(self.states@.len() as nat),
                forall|q: int| set.has(q) <==> live(*self, s, q, pos as int),
            decreases input@.len() - pos,
        {
            let mut next = self.advance(&set, input, pos);
            self.close(&mut next, input, pos + 1);
            set = next;
            pos = pos + 1;
        }
        set.contains(self.accept)
    }
}

} // verus!
