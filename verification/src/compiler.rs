//! The compiler: from a syntax tree to an automaton that accepts the same
//! strings.

use vstd::prelude::*;
use crate::ast::{
    Ast, Expression, PostfixKind, AnchorKind, ast_of, views_of, lemma_wf_bracket,
    lemma_wf_concatenation, lemma_wf_program,
};
use crate::language::{
    accepts, matches_in, matches_all, matches_times, splits, times, in_class, member_has,
    lemma_bounded_unfold, lemma_bounded_optional,
};
use crate::nfa::{
    Nfa, State, Predicate, reach, agree, in_ranges, lemma_reach_carry, lemma_reach_leave,
};
use crate::fragment::{
    Lang, fragment, repeats, lemma_fragment_carry, lemma_fragment_same, lemma_fragment_consuming,
    lemma_fragment_empty, lemma_fragment_sequence, lemma_fragment_choice, lemma_fragment_skip,
    lemma_fragment_loop,
};

verus! {

/// What a step of the construction does to an automaton: it keeps the start
/// state, the accept state and every state that was there, and the states it
/// adds, `count` of them, are a fragment for `lang` from `entry` to `exit`.
pub open spec fn built(
    before: Nfa,
    after: Nfa,
    entry: usize,
    exit: usize,
    lang: Lang,
    count: nat,
) -> bool {
    &&& after.states@.len() == before.states@.len() + count
    &&& after.start == before.start
    &&& after.accept == before.accept
    &&& agree(before.states@, after.states@, 0, before.states@.len() as int)
    &&& fragment(
        after.states@,
        before.states@.len() as int,
        after.states@.len() as int,
        entry as int,
        exit as int,
        lang,
    )
}

/// The number of states that the construction makes for `e`: one for each
/// character, class and anchor, one junction for each alternation and each
/// quantifier, and for a repetition in braces as many copies of its operand
/// as its larger bound says, each optional copy with a junction, behind them
/// one junction more or, without a maximum, one last copy with its junction.
pub open spec fn states_for(e: Ast) -> nat
    decreases e, 0nat,
{
    match e {
        Ast::Program(_, children) => states_for_list(children),
        Ast::Literal(_) => 1,
        Ast::AnyChar => 1,
        Ast::Concatenation(children) => states_for_list(children),
        Ast::Alternation(left, right) => states_for(*left) + states_for(*right) + 1,
        Ast::UnaryPostfix(_, operand) => states_for(*operand) + 1,
        Ast::Bounded(operand, min, max) => match max {
            Some(n) => 1 + ((n - min) as nat) * (states_for(*operand) + 1) + min * states_for(
                *operand,
            ),
            None => states_for(*operand) + 1 + min * states_for(*operand),
        },
        Ast::Parens(operand) => states_for(*operand),
        Ast::Bracket(_, _) => 1,
        Ast::Range(_, _) => 1,
        Ast::Anchor(_) => 1,
    }
}

/// The number of states for the expressions of `list` one after the other:
/// those of each of them, or a single junction where there are none.
pub open spec fn states_for_list(list: Seq<Ast>) -> nat
    decreases list, list.len() + 1,
{
    if list.len() == 0 {
        1
    } else {
        states_for_rest(list, 0)
    }
}

/// The number of states for the expressions `list[k..]`.
pub open spec fn states_for_rest(list: Seq<Ast>, k: int) -> nat
    decreases list, list.len() - k,
{
    if k < 0 || k >= list.len() {
        0
    } else {
        states_for(list[k]) + states_for_rest(list, k + 1)
    }
}

/// The range of characters that a class member stands for.
pub open spec fn range_of(member: Ast) -> (char, char) {
    match member {
        Ast::Literal(c) => (c, c),
        Ast::Range(lo, hi) => (lo, hi),
        _ => ('a', 'a'),
    }
}

/// The members of a character class as ranges of characters.
pub fn class_ranges(members: &Vec<Expression>) -> (ranges: Vec<(char, char)>)
    requires
        forall|k: int|
            0 <= k < members@.len() ==> (#[trigger] views_of(members@)[k]).is_member(),
    ensures
        ranges@.len() == members@.len(),
        forall|k: int|
            0 <= k < ranges@.len() ==> #[trigger] ranges@[k] == range_of(views_of(members@)[k]),
        forall|c: char| in_ranges(ranges@, c) == in_class(views_of(members@), c),
{
    let mut ranges: Vec<(char, char)> = Vec::new();
    let mut k: usize = 0;
    while k < members.len()
        invariant
            k <= members@.len(),
            ranges@.len() == k,
            forall|t: int|
                0 <= t < members@.len() ==> (#[trigger] views_of(members@)[t]).is_member(),
            forall|t: int|
                0 <= t < k ==> #[trigger] ranges@[t] == range_of(views_of(members@)[t]),
        decreases members@.len() - k,
    {
        assert(views_of(members@)[k as int].is_member());
        assert(views_of(members@)[k as int] == ast_of(members@[k as int]));
        match &members[k] {
            Expression::Literal(c) => {
                ranges.push((*c, *c));
            },
            Expression::Range(lo, hi) => {
                ranges.push((*lo, *hi));
            },
            _ => {
                assert(false);
            },
        }
        k = k + 1;
    }
    proof {
        let asts = views_of(members@);
        assert forall|c: char| in_ranges(ranges@, c) == in_class(asts, c) by {
            if in_ranges(ranges@, c) {
                let t = choose|t: int|
                    0 <= t < ranges@.len() && (#[trigger] ranges@[t]).0 <= c <= ranges@[t].1;
                assert(member_has(asts[t], c));
            }
            if in_class(asts, c) {
                let t = choose|t: int| 0 <= t < asts.len() && member_has(#[trigger] asts[t], c);
                assert(asts[t].is_member());
                assert(ranges@[t].0 <= c <= ranges@[t].1);
            }
        }
    }
    ranges
}

impl Nfa {
    /// Adds one consuming state for `predicate`, with its edge to `exit`.
    fn compile_atom(&mut self, predicate: Predicate, exit: usize, Ghost(lang): Ghost<Lang>) -> (entry:
        usize)
        requires
            exit < old(self).states@.len(),
            forall|s: Seq<char>, i: int, j: int| #[trigger]
                lang.holds(s, i, j) <==> predicate.passes(s, i, j),
        ensures
            built(*old(self), *final(self), entry, exit, lang, 1),
    {
        let entry = self.add_state(State::Consuming(predicate, exit));
        proof {
            lemma_fragment_consuming(self.states@, entry as int, exit as int, lang);
        }
        entry
    }

    /// Adds the states for `e`, with every way out of them leading to `exit`,
    /// and returns the state at which they are entered.
    pub fn compile_node(&mut self, e: &Expression, exit: usize) -> (entry: usize)
        requires
            e@.wf_node(),
            exit < old(self).states@.len(),
        ensures
            built(*old(self), *final(self), entry, exit, Lang::Node(e@), states_for(e@)),
        decreases e, 0nat,
    {
        let ghost lang = Lang::Node(e@);
        let ghost lo = self.states@.len() as int;
        match e {
            Expression::Program(_, _) => {
                proof {
                    assert(false);
                }
                exit
            },
            Expression::Literal(c) => self.compile_atom(Predicate::Char(*c), exit, Ghost(lang)),
            Expression::AnyChar => self.compile_atom(Predicate::Any, exit, Ghost(lang)),
            Expression::Range(lo, hi) => self.compile_atom(
                Predicate::Range(*lo, *hi),
                exit,
                Ghost(lang),
            ),
            Expression::Anchor(kind) => {
                match kind {
                    AnchorKind::Start => self.compile_atom(Predicate::AtStart, exit, Ghost(lang)),
                    AnchorKind::End => self.compile_atom(Predicate::AtEnd, exit, Ghost(lang)),
                }
            },
            Expression::Bracket(negated, members) => {
                proof {
                    lemma_wf_bracket(*negated, views_of(members@));
                }
                let ranges = class_ranges(members);
                self.compile_atom(Predicate::Class(*negated, ranges), exit, Ghost(lang))
            },
            Expression::Parens(operand) => {
                let entry = self.compile_node(operand, exit);
                proof {
                    lemma_fragment_same(
                        self.states@,
                        lo,
                        self.states@.len() as int,
                        entry as int,
                        exit as int,
                        Lang::Node(operand@),
                        lang,
                    );
                }
                entry
            },
            Expression::Concatenation(children) => {
                proof {
                    lemma_wf_concatenation(views_of(children@));
                }
                let entry = self.compile_list(children, exit);
                proof {
                    lemma_fragment_same(
                        self.states@,
                        lo,
                        self.states@.len() as int,
                        entry as int,
                        exit as int,
                        Lang::Tail(views_of(children@), 0),
                        lang,
                    );
                }
                entry
            },
            Expression::Alternation(left, right) => {
                let e1 = self.compile_node(left, exit);
                let ghost mid_states = self.states@;
                let ghost mid = self.states@.len() as int;
                let e2 = self.compile_node(right, exit);
                let mut targets: Vec<usize> = Vec::new();
                targets.push(e1);
                targets.push(e2);
                let ghost last_states = self.states@;
                let entry = self.add_state(State::Junction(targets));
                proof {
                    let hi = self.states@.len() as int;
                    lemma_fragment_carry(
                        mid_states,
                        self.states@,
                        lo,
                        mid,
                        e1 as int,
                        exit as int,
                        Lang::Node(left@),
                    );
                    lemma_fragment_carry(
                        last_states,
                        self.states@,
                        mid,
                        hi - 1,
                        e2 as int,
                        exit as int,
                        Lang::Node(right@),
                    );
                    lemma_fragment_choice(
                        self.states@,
                        lo,
                        mid,
                        hi,
                        e1 as int,
                        e2 as int,
                        exit as int,
                        Lang::Node(left@),
                        Lang::Node(right@),
                        lang,
                    );
                }
                entry
            },
            Expression::UnaryPostfix(kind, operand) => {
                match kind {
                    PostfixKind::Star => {
                        let ends = self.compile_loop(operand, exit);
                        ends.0
                    },
                    PostfixKind::Plus => {
                        let ends = self.compile_loop(operand, exit);
                        ends.1
                    },
                    PostfixKind::Optional => self.compile_optional(operand, exit),
                }
            },
            Expression::Bounded(operand, min, max) => self.compile_bounded(
                operand,
                *min,
                *max,
                exit,
            ),
        }
    }

    /// Adds the states for the expressions of `list` one after the other, the
    /// last of them leading to `exit`, and returns the state at which the
    /// first is entered. An empty list gives a single junction.
    pub fn compile_list(&mut self, list: &Vec<Expression>, exit: usize) -> (entry: usize)
        requires
            forall|k: int| 0 <= k < list@.len() ==> (#[trigger] views_of(list@)[k]).wf_node(),
            exit < old(self).states@.len(),
        ensures
            built(
                *old(self),
                *final(self),
                entry,
                exit,
                Lang::Tail(views_of(list@), 0),
                states_for_list(views_of(list@)),
            ),
        decreases list, 1nat,
    {
        let ghost asts = views_of(list@);
        let ghost before = *self;
        let ghost lo = self.states@.len() as int;
        if list.len() == 0 {
            let mut targets: Vec<usize> = Vec::new();
            targets.push(exit);
            let entry = self.add_state(State::Junction(targets));
            proof {
                lemma_fragment_empty(self.states@, entry as int, exit as int, Lang::Tail(asts, 0));
            }
            return entry;
        }
        let mut k: usize = list.len() - 1;
        assert(asts[k as int] == ast_of(list@[k as int]));
        assert(asts[k as int].wf_node());
        let mut cur = self.compile_node(&list[k], exit);
        proof {
            reveal_with_fuel(matches_all, 3);
            reveal_with_fuel(states_for_rest, 3);
            assert forall|s: Seq<char>, i: int, j: int|
                i <= j && #[trigger] Lang::Node(asts[k as int]).holds(s, i, j) implies Lang::Tail(
                asts,
                k as int,
            ).holds(s, i, j) by {
                assert(splits(i, j, j));
            }
            lemma_fragment_same(
                self.states@,
                lo,
                self.states@.len() as int,
                cur as int,
                exit as int,
                Lang::Node(asts[k as int]),
                Lang::Tail(asts, k as int),
            );
        }
        while k > 0
            invariant
                k < list@.len(),
                asts == views_of(list@),
                lo == before.states@.len(),
                self.start == before.start,
                self.accept == before.accept,
                agree(before.states@, self.states@, 0, lo),
                fragment(
                    self.states@,
                    lo,
                    self.states@.len() as int,
                    cur as int,
                    exit as int,
                    Lang::Tail(asts, k as int),
                ),
                self.states@.len() == lo + states_for_rest(asts, k as int),
                forall|t: int| 0 <= t < list@.len() ==> (#[trigger] asts[t]).wf_node(),
            decreases k,
        {
            k = k - 1;
            let ghost mid_states = self.states@;
            let ghost mid = self.states@.len() as int;
            assert(asts[k as int] == ast_of(list@[k as int]));
            assert(asts[k as int].wf_node());
            let entry = self.compile_node(&list[k], cur);
            proof {
                let hi = self.states@.len() as int;
                lemma_fragment_carry(
                    mid_states,
                    self.states@,
                    lo,
                    mid,
                    cur as int,
                    exit as int,
                    Lang::Tail(asts, k + 1),
                );
                lemma_fragment_sequence(
                    self.states@,
                    lo,
                    hi,
                    mid,
                    hi,
                    lo,
                    mid,
                    entry as int,
                    cur as int,
                    exit as int,
                    Lang::Node(asts[k as int]),
                    Lang::Tail(asts, k + 1),
                    Lang::Tail(asts, k as int),
                );
            }
            cur = entry;
        }
        cur
    }

    /// Adds the states for `operand` and, behind them, a junction that leads
    /// into them or past them to `exit`. Returns the junction.
    fn compile_optional(&mut self, operand: &Expression, exit: usize) -> (entry: usize)
        requires
            operand@.wf_node(),
            exit < old(self).states@.len(),
        ensures
            built(
                *old(self),
                *final(self),
                entry,
                exit,
                Lang::Node(Ast::UnaryPostfix(PostfixKind::Optional, Box::new(operand@))),
                states_for(operand@) + 1,
            ),
        decreases operand, 1nat,
    {
        let ghost lo = self.states@.len() as int;
        let body = self.compile_node(operand, exit);
        let mut targets: Vec<usize> = Vec::new();
        targets.push(body);
        targets.push(exit);
        let ghost body_states = self.states@;
        let entry = self.add_state(State::Junction(targets));
        proof {
            let hi = self.states@.len() as int;
            lemma_fragment_carry(
                body_states,
                self.states@,
                lo,
                hi - 1,
                body as int,
                exit as int,
                Lang::Node(operand@),
            );
            lemma_fragment_skip(
                self.states@,
                lo,
                hi,
                body as int,
                exit as int,
                Lang::Node(operand@),
                Lang::Node(Ast::UnaryPostfix(PostfixKind::Optional, Box::new(operand@))),
            );
        }
        entry
    }

    /// Adds a junction and, behind it, the states for `operand`, which lead
    /// back to the junction; the junction leads into them or on to `exit`.
    /// Returns the junction, where any number of occurrences begins, and the
    /// entry of the operand, where one occurrence or more begins.
    fn compile_loop(&mut self, operand: &Expression, exit: usize) -> (ends: (usize, usize))
        requires
            operand@.wf_node(),
            exit < old(self).states@.len(),
        ensures
            built(
                *old(self),
                *final(self),
                ends.0,
                exit,
                Lang::Node(Ast::UnaryPostfix(PostfixKind::Star, Box::new(operand@))),
                states_for(operand@) + 1,
            ),
            built(
                *old(self),
                *final(self),
                ends.1,
                exit,
                Lang::Node(Ast::UnaryPostfix(PostfixKind::Plus, Box::new(operand@))),
                states_for(operand@) + 1,
            ),
            built(
                *old(self),
                *final(self),
                ends.0,
                exit,
                Lang::Node(Ast::Bounded(Box::new(operand@), 0, None)),
                states_for(operand@) + 1,
            ),
        decreases operand, 1nat,
    {
        let ghost lo = self.states@.len() as int;
        let junction = self.add_state(State::Junction(Vec::new()));
        let body = self.compile_node(operand, junction);
        let mut targets: Vec<usize> = Vec::new();
        targets.push(body);
        targets.push(exit);
        let ghost body_states = self.states@;
        self.states.set(junction, State::Junction(targets));
        proof {
            let hi = self.states@.len() as int;
            let x = operand@;
            let star = Lang::Node(Ast::UnaryPostfix(PostfixKind::Star, Box::new(x)));
            let plus = Lang::Node(Ast::UnaryPostfix(PostfixKind::Plus, Box::new(x)));
            let unbounded = Lang::Node(Ast::Bounded(Box::new(x), 0, None));
            lemma_fragment_carry(
                body_states,
                self.states@,
                lo + 1,
                hi,
                body as int,
                junction as int,
                Lang::Node(x),
            );
            assert forall|s: Seq<char>, i: int, j: int| #[trigger]
                plus.holds(s, i, j) <==> exists|m: int| #[trigger]
                    splits(i, m, j) && matches_in(x, s, i, m) && repeats(x, s, m, j) by {
                if plus.holds(s, i, j) {
                    let n = choose|n: nat|
                        n >= 1 && matches_times(x, #[trigger] times(n), s, i, j);
                    let m = choose|m: int| #[trigger]
                        splits(i, m, j) && matches_in(x, s, i, m) && matches_times(
                            x,
                            (n - 1) as nat,
                            s,
                            m,
                            j,
                        );
                    assert(matches_times(x, times((n - 1) as nat), s, m, j));
                    assert(splits(i, m, j) && matches_in(x, s, i, m) && repeats(x, s, m, j));
                }
                if exists|m: int| #[trigger]
                    splits(i, m, j) && matches_in(x, s, i, m) && repeats(x, s, m, j) {
                    let m = choose|m: int| #[trigger]
                        splits(i, m, j) && matches_in(x, s, i, m) && repeats(x, s, m, j);
                    let n = choose|n: nat| matches_times(x, #[trigger] times(n), s, m, j);
                    assert(matches_times(x, times(n + 1), s, i, j));
                }
            }
            lemma_fragment_loop(
                self.states@,
                lo,
                hi,
                body as int,
                exit as int,
                x,
                star,
                plus,
            );
            assert forall|s: Seq<char>, i: int, j: int| #[trigger]
                unbounded.holds(s, i, j) implies star.holds(s, i, j) by {
                let n = choose|n: nat|
                    0 <= n && matches_times(x, #[trigger] times(n), s, i, j);
                assert(matches_times(x, times(n), s, i, j));
            }
            assert forall|s: Seq<char>, i: int, j: int|
                i <= j && #[trigger] star.holds(s, i, j) implies unbounded.holds(s, i, j) by {
                let n = choose|n: nat| matches_times(x, #[trigger] times(n), s, i, j);
                assert(matches_times(x, times(n), s, i, j));
            }
            lemma_fragment_same(
                self.states@,
                lo,
                hi,
                junction as int,
                exit as int,
                star,
                unbounded,
            );
        }
        (junction, body)
    }

    /// Adds the states for `min` occurrences of `operand` in a row, followed
    /// by optional ones up to `max` occurrences in all or, without a maximum,
    /// by any number of them.
    fn compile_bounded(&mut self, operand: &Expression, min: u32, max: Option<u32>, exit: usize) -> (entry:
        usize)
        requires
            operand@.wf_node(),
            max is Some ==> min <= max->0,
            exit < old(self).states@.len(),
        ensures
            built(
                *old(self),
                *final(self),
                entry,
                exit,
                Lang::Node(
                    Ast::Bounded(
                        Box::new(operand@),
                        min as nat,
                        match max {
                            Some(n) => Some(n as nat),
                            None => None,
                        },
                    ),
                ),
                states_for(
                    Ast::Bounded(
                        Box::new(operand@),
                        min as nat,
                        match max {
                            Some(n) => Some(n as nat),
                            None => None,
                        },
                    ),
                ),
            ),
        decreases operand, 2nat,
    {
        let ghost before = *self;
        let ghost lo = self.states@.len() as int;
        let ghost x = operand@;
        let mut cur: usize;
        let ghost mut upper: Option<nat>;
        match max {
            None => {
                let ends = self.compile_loop(operand, exit);
                cur = ends.0;
                proof {
                    upper = None;
                }
            },
            Some(n) => {
                let mut targets: Vec<usize> = Vec::new();
                targets.push(exit);
                cur = self.add_state(State::Junction(targets));
                proof {
                    upper = Some(0nat);
                    let none = Lang::Node(Ast::Bounded(Box::new(x), 0, Some(0nat)));
                    assert forall|s: Seq<char>, i: int, j: int| #[trigger]
                        none.holds(s, i, j) <==> i == j by {
                        if none.holds(s, i, j) {
                            let c = choose|c: nat|
                                0 <= c && c <= 0 && matches_times(x, #[trigger] times(c), s, i, j);
                        }
                        if i == j {
                            assert(matches_times(x, times(0), s, i, j));
                        }
                    }
                    lemma_fragment_empty(self.states@, cur as int, exit as int, none);
                }
                let mut t: u32 = 0;
                while t < n - min
                    invariant
                        min <= n,
                        t <= n - min,
                        operand@ == x,
                        x.wf_node(),
                        upper == Some(t as nat),
                        self.states@.len() == lo + 1 + t * (states_for(x) + 1),
                        lo == before.states@.len(),
                        self.start == before.start,
                        self.accept == before.accept,
                        agree(before.states@, self.states@, 0, lo),
                        fragment(
                            self.states@,
                            lo,
                            self.states@.len() as int,
                            cur as int,
                            exit as int,
                            Lang::Node(Ast::Bounded(Box::new(x), 0, Some(t as nat))),
                        ),
                    decreases n - min - t,
                {
                    let ghost mid_states = self.states@;
                    let ghost mid = self.states@.len() as int;
                    let entry = self.compile_optional(operand, cur);
                    proof {
                        let hi = self.states@.len() as int;
                        let optional = Ast::UnaryPostfix(PostfixKind::Optional, Box::new(x));
                        let less = Lang::Node(Ast::Bounded(Box::new(x), 0, Some(t as nat)));
                        let more = Lang::Node(Ast::Bounded(Box::new(x), 0, Some((t + 1) as nat)));
                        lemma_fragment_carry(
                            mid_states,
                            self.states@,
                            lo,
                            mid,
                            cur as int,
                            exit as int,
                            less,
                        );
                        lemma_bounded_optional(x, t as nat);
                        assert(t * (states_for(x) + 1) + (states_for(x) + 1) == (t + 1) * (
                        states_for(x) + 1)) by (nonlinear_arith);
                        lemma_fragment_sequence(
                            self.states@,
                            lo,
                            hi,
                            mid,
                            hi,
                            lo,
                            mid,
                            entry as int,
                            cur as int,
                            exit as int,
                            Lang::Node(optional),
                            less,
                            more,
                        );
                        upper = Some((t + 1) as nat);
                    }
                    cur = entry;
                    t = t + 1;
                }
            },
        }
        let ghost slack = upper;
        let ghost base = self.states@.len();
        let mut a: u32 = 0;
        while a < min
            invariant
                a <= min,
                operand@ == x,
                x.wf_node(),
                slack is None <==> max is None,
                slack is Some ==> slack->0 + min == max->0,
                upper == match slack {
                    Some(b) => Some(b + a as nat),
                    None => None,
                },
                self.states@.len() == base + a * states_for(x),
                base == match slack {
                    Some(b) => lo + 1 + b * (states_for(x) + 1),
                    None => lo + states_for(x) + 1,
                },
                lo == before.states@.len(),
                self.start == before.start,
                self.accept == before.accept,
                agree(before.states@, self.states@, 0, lo),
                fragment(
                    self.states@,
                    lo,
                    self.states@.len() as int,
                    cur as int,
                    exit as int,
                    Lang::Node(Ast::Bounded(Box::new(x), a as nat, upper)),
                ),
            decreases min - a,
        {
            let ghost mid_states = self.states@;
            let ghost mid = self.states@.len() as int;
            let entry = self.compile_node(operand, cur);
            proof {
                let hi = self.states@.len() as int;
                let less = Ast::Bounded(Box::new(x), a as nat, upper);
                let next: Option<nat> = match upper {
                    Some(b) => Some(b + 1),
                    None => None,
                };
                let more = Ast::Bounded(Box::new(x), (a + 1) as nat, next);
                lemma_fragment_carry(
                    mid_states,
                    self.states@,
                    lo,
                    mid,
                    cur as int,
                    exit as int,
                    Lang::Node(less),
                );
                lemma_bounded_unfold(x, a as nat, upper, more, less);
                assert(a * states_for(x) + states_for(x) == (a + 1) * states_for(x))
                    by (nonlinear_arith);
                lemma_fragment_sequence(
                    self.states@,
                    lo,
                    hi,
                    mid,
                    hi,
                    lo,
                    mid,
                    entry as int,
                    cur as int,
                    exit as int,
                    Lang::Node(x),
                    Lang::Node(less),
                    Lang::Node(more),
                );
                upper = next;
            }
            cur = entry;
            a = a + 1;
        }
        cur
    }
}

/// An automaton whose first state is the accept state, with no edge out of
/// it, and whose other states are a fragment for `lang` from the start state
/// to the accept state, is well-formed and accepts the strings that `lang`
/// holds as a whole.
pub proof fn lemma_whole_automaton(nfa: Nfa, lang: Lang)
    requires
        nfa.accept == 0,
        nfa.states@.len() > 0,
        forall|q: int| !(#[trigger] nfa.states@[0].points_to(q)),
        fragment(nfa.states@, 1, nfa.states@.len() as int, nfa.start as int, 0, lang),
    ensures
        nfa.wf(),
        forall|s: Seq<char>| #[trigger] nfa.accepts(s) <==> lang.holds(s, 0, s.len() as int),
{
    let states = nfa.states@;
    let hi = states.len() as int;
    let entry = nfa.start as int;
    assert forall|s: Seq<char>| #[trigger] nfa.accepts(s) <==> lang.holds(
        s,
        0,
        s.len() as int,
    ) by {
        let len = s.len() as int;
        if nfa.accepts(s) {
            let n = choose|n: nat| #[trigger] reach(states, 0, hi, s, entry, 0, 0, len, n);
            let r = lemma_reach_leave(states, 1, hi, 0, 0, hi, s, entry, 0, 0, len, n);
            if n > r.0 {
                let (m, k) = choose|m: int, k: int| #[trigger]
                    states[0].steps(s, r.1, m, k) && reach(
                        states,
                        0,
                        hi,
                        s,
                        m,
                        k,
                        0,
                        len,
                        (n - r.0 - 1) as nat,
                    );
                assert(states[0].points_to(m));
            }
            assert(lang.holds(s, 0, len));
        }
        if lang.holds(s, 0, len) {
            let n = choose|n: nat| #[trigger] reach(states, 1, hi, s, entry, 0, 0, len, n);
            lemma_reach_carry(states, states, 1, hi, 0, hi, s, entry, 0, 0, len, n);
            assert(reach(
                nfa.states@,
                0,
                nfa.states@.len() as int,
                s,
                nfa.start as int,
                0,
                nfa.accept as int,
                s.len() as int,
                n,
            ));
        }
    }
}

/// Compiles a syntax tree, or a node of one, into an automaton that accepts
/// exactly the strings that it matches as a whole.
pub fn compile(ast: &Expression) -> (nfa: Nfa)
    requires
        ast@.wf() || ast@.wf_node(),
    ensures
        nfa.wf(),
        forall|s: Seq<char>| #[trigger] nfa.accepts(s) <==> accepts(ast@, s),
        nfa.states@.len() == 1 + states_for(ast@),
{
    let mut nfa = Nfa::new();
    let ghost first = nfa.states@;
    match ast {
        Expression::Program(raw, children) => {
            assert(ast@ == Ast::Program(raw@, views_of(children@)));
            proof {
                lemma_wf_program(raw@, views_of(children@));
            }
            let entry = nfa.compile_list(children, 0);
            nfa.start = entry;
            proof {
                assert(nfa.states@[0] == first[0]);
                lemma_whole_automaton(nfa, Lang::Tail(views_of(children@), 0));
            }
        },
        _ => {
            let entry = nfa.compile_node(ast, 0);
            nfa.start = entry;
            proof {
                assert(nfa.states@[0] == first[0]);
                lemma_whole_automaton(nfa, Lang::Node(ast@));
            }
        },
    }
    nfa
}

} // verus!
