//! The syntax tree of a pattern.

use vstd::prelude::*;

verus! {

/// The postfix quantifiers without bounds.
#[derive(Debug, Clone, Copy, PartialEq, Eq)]
pub enum PostfixKind {
    /// `*`: any number of repetitions.
    Star,
    /// `+`: at least one repetition.
    Plus,
    /// `?`: at most one occurrence.
    Optional,
}

/// The two zero-width positional assertions.
#[derive(Debug, Clone, Copy, PartialEq, Eq)]
pub enum AnchorKind {
    /// `^`: the position before the first character.
    Start,
    /// `$`: the position after the last character.
    End,
}

/// A node of the syntax tree. Every node owns its children.
#[derive(Debug, PartialEq, Eq)]
pub enum Expression {
    /// The root: the raw pattern text and the top-level expressions in order.
    Program(String, Vec<Expression>),
    /// Exactly this character.
    Literal(char),
    /// Any single character.
    AnyChar,
    /// The children one after the other.
    Concatenation(Vec<Expression>),
    /// The left or the right operand.
    Alternation(Box<Expression>, Box<Expression>),
    /// A quantified operand.
    UnaryPostfix(PostfixKind, Box<Expression>),
    /// The operand repeated between a minimum and a maximum number of times;
    /// without a maximum, any number of times from the minimum on.
    Bounded(Box<Expression>, u32, Option<u32>),
    /// A group.
    Parens(Box<Expression>),
    /// A character class: whether it is negated, and its members, each a
    /// `Literal` or a `Range`.
    Bracket(bool, Vec<Expression>),
    /// Every character from the first to the second, both included.
    Range(char, char),
    /// A zero-width assertion about the position.
    Anchor(AnchorKind),
}

/// The mathematical value of an [`Expression`].
pub enum Ast {
    Program(Seq<char>, Seq<Ast>),
    Literal(char),
    AnyChar,
    Concatenation(Seq<Ast>),
    Alternation(Box<Ast>, Box<Ast>),
    UnaryPostfix(PostfixKind, Box<Ast>),
    Bounded(Box<Ast>, nat, Option<nat>),
    Parens(Box<Ast>),
    Bracket(bool, Seq<Ast>),
    Range(char, char),
    Anchor(AnchorKind),
}

/// The value of an expression.
pub open spec fn ast_of(e: Expression) -> Ast
    decreases e,
{
    match e {
        Expression::Program(raw, children) => Ast::Program(raw@, views_of(children@)),
        Expression::Literal(c) => Ast::Literal(c),
        Expression::AnyChar => Ast::AnyChar,
        Expression::Concatenation(children) => Ast::Concatenation(views_of(children@)),
        Expression::Alternation(left, right) => Ast::Alternation(
            Box::new(ast_of(*left)),
            Box::new(ast_of(*right)),
        ),
        Expression::UnaryPostfix(kind, operand) => Ast::UnaryPostfix(
            kind,
            Box::new(ast_of(*operand)),
        ),
        Expression::Bounded(operand, min, max) => Ast::Bounded(
            Box::new(ast_of(*operand)),
            min as nat,
            match max {
                Some(n) => Some(n as nat),
                None => None,
            },
        ),
        Expression::Parens(operand) => Ast::Parens(Box::new(ast_of(*operand))),
        Expression::Bracket(negated, members) => Ast::Bracket(negated, views_of(members@)),
        Expression::Range(lo, hi) => Ast::Range(lo, hi),
        Expression::Anchor(kind) => Ast::Anchor(kind),
    }
}

/// The values of a list of expressions.
pub open spec fn views_of(list: Seq<Expression>) -> Seq<Ast>
    decreases list,
{
    Seq::new(
        list.len(),
        |i: int|
            if 0 <= i < list.len() {
                ast_of(list[i])
            } else {
                Ast::AnyChar
            },
    )
}

impl View for Expression {
    type V = Ast;

    open spec fn view(&self) -> Ast {
        ast_of(*self)
    }
}

impl Expression {
    /// The node that matches exactly the character `c`.
    pub fn literal(c: char) -> (e: Expression)
        ensures
            e@ == Ast::Literal(c),
    {
        Expression::Literal(c)
    }

    /// The node that matches any single character.
    pub fn any_char() -> (e: Expression)
        ensures
            e@ == Ast::AnyChar,
    {
        Expression::AnyChar
    }

    /// The node for an anchor.
    pub fn anchor(kind: AnchorKind) -> (e: Expression)
        ensures
            e@ == Ast::Anchor(kind),
    {
        Expression::Anchor(kind)
    }

    /// The node for the characters from `lo` to `hi`.
    pub fn range(lo: char, hi: char) -> (e: Expression)
        ensures
            e@ == Ast::Range(lo, hi),
    {
        Expression::Range(lo, hi)
    }

    /// The node for `operand` under the quantifier `kind`.
    pub fn postfix(kind: PostfixKind, operand: Expression) -> (e: Expression)
        ensures
            e@ == Ast::UnaryPostfix(kind, Box::new(operand@)),
    {
        Expression::UnaryPostfix(kind, Box::new(operand))
    }

    /// The node for `operand` repeated from `min` to `max` times, or from
    /// `min` times on.
    pub fn bounded(operand: Expression, min: u32, max: Option<u32>) -> (e: Expression)
        ensures
            e@ == Ast::Bounded(
                Box::new(operand@),
                min as nat,
                match max {
                    Some(n) => Some(n as nat),
                    None => None,
                },
            ),
    {
        Expression::Bounded(Box::new(operand), min, max)
    }

    /// The node for `operand` as a group.
    pub fn parens(operand: Expression) -> (e: Expression)
        ensures
            e@ == Ast::Parens(Box::new(operand@)),
    {
        Expression::Parens(Box::new(operand))
    }

    /// The node for `left` or `right`.
    pub fn alternation(left: Expression, right: Expression) -> (e: Expression)
        ensures
            e@ == Ast::Alternation(Box::new(left@), Box::new(right@)),
    {
        Expression::Alternation(Box::new(left), Box::new(right))
    }

    /// The node for `children` one after the other.
    pub fn concatenation(children: Vec<Expression>) -> (e: Expression)
        ensures
            e@ == Ast::Concatenation(views_of(children@)),
    {
        Expression::Concatenation(children)
    }

    /// The node for a character class with the members `members`.
    pub fn bracket(negated: bool, members: Vec<Expression>) -> (e: Expression)
        ensures
            e@ == Ast::Bracket(negated, views_of(members@)),
    {
        Expression::Bracket(negated, members)
    }

    /// The root of a tree: the text of the pattern and its top-level
    /// expressions.
    pub fn program(raw: String, children: Vec<Expression>) -> (e: Expression)
        ensures
            e@ == Ast::Program(raw@, views_of(children@)),
    {
        Expression::Program(raw, children)
    }
}

impl Ast {
    /// A member of a character class: a literal, or a range that is not empty.
    pub open spec fn is_member(self) -> bool {
        match self {
            Ast::Literal(_) => true,
            Ast::Range(lo, hi) => lo <= hi,
            _ => false,
        }
    }

    /// The invariants of a node below the root: no `Program` inside, the
    /// bounds of a repetition and of a range in order, and only literals and
    /// ranges in a character class.
    pub open spec fn wf_node(self) -> bool
        decreases self,
    {
        match self {
            Ast::Program(_, _) => false,
            Ast::Literal(_) => true,
            Ast::AnyChar => true,
            Ast::Concatenation(children) => forall|i: int|
                0 <= i < children.len() ==> (#[trigger] children[i]).wf_node(),
            Ast::Alternation(left, right) => left.wf_node() && right.wf_node(),
            Ast::UnaryPostfix(_, operand) => operand.wf_node(),
            Ast::Bounded(operand, min, max) => operand.wf_node() && (max is Some ==> min
                <= max->0),
            Ast::Parens(operand) => operand.wf_node(),
            Ast::Bracket(_, members) => forall|i: int|
                0 <= i < members.len() ==> (#[trigger] members[i]).is_member(),
            Ast::Range(lo, hi) => lo <= hi,
            Ast::Anchor(_) => true,
        }
    }

    /// The invariants of a whole tree: a `Program` at the root and nowhere
    /// else, over well-formed nodes.
    pub open spec fn wf(self) -> bool {
        match self {
            Ast::Program(_, children) => forall|i: int|
                0 <= i < children.len() ==> (#[trigger] children[i]).wf_node(),
            _ => false,
        }
    }
}

/// Whether every node of `list` is well-formed.
pub open spec fn all_wf(list: Seq<Ast>) -> bool {
    forall|i: int| 0 <= i < list.len() ==> (#[trigger] list[i]).wf_node()
}

/// A list of well-formed nodes with one more at its end is one.
pub proof fn lemma_all_wf_push(list: Seq<Ast>, a: Ast)
    requires
        all_wf(list),
        a.wf_node(),
    ensures
        all_wf(list.push(a)),
{
    assert forall|i: int| 0 <= i < list.push(a).len() implies (#[trigger] list.push(a)[i]).wf_node() by {
        if i < list.len() {
            assert(list.push(a)[i] == list[i]);
        }
    }
}

/// A list of well-formed nodes without its last is one.
pub proof fn lemma_all_wf_pop(list: Seq<Ast>)
    requires
        all_wf(list),
        list.len() > 0,
    ensures
        all_wf(list.drop_last()),
        list.last().wf_node(),
{
    assert forall|i: int| 0 <= i < list.drop_last().len() implies (#[trigger] list.drop_last()[i]).wf_node() by {
        assert(list.drop_last()[i] == list[i]);
    }
}

/// The values of a list with one more expression at its end.
pub proof fn lemma_views_push(list: Seq<Expression>, e: Expression)
    ensures
        views_of(list.push(e)) == views_of(list).push(e@),
{
    assert(views_of(list.push(e)) =~= views_of(list).push(e@));
}

/// The values of a list without its last expression.
pub proof fn lemma_views_pop(list: Seq<Expression>)
    requires
        list.len() > 0,
    ensures
        views_of(list.drop_last()) == views_of(list).drop_last(),
        views_of(list).last() == list.last()@,
{
    assert(views_of(list.drop_last()) =~= views_of(list).drop_last());
}

/// The children of a well-formed concatenation are well-formed.
pub proof fn lemma_wf_concatenation(children: Seq<Ast>)
    requires
        Ast::Concatenation(children).wf_node(),
    ensures
        forall|i: int| 0 <= i < children.len() ==> (#[trigger] children[i]).wf_node(),
{
    assert(Ast::Concatenation(children)->Concatenation_0 == children);
}

/// The members of a well-formed character class are literals and ranges.
pub proof fn lemma_wf_bracket(negated: bool, members: Seq<Ast>)
    requires
        Ast::Bracket(negated, members).wf_node(),
    ensures
        forall|i: int| 0 <= i < members.len() ==> (#[trigger] members[i]).is_member(),
{
    assert(Ast::Bracket(negated, members)->Bracket_1 == members);
}

/// The children of a well-formed program are well-formed nodes.
pub proof fn lemma_wf_program(raw: Seq<char>, children: Seq<Ast>)
    requires
        Ast::Program(raw, children).wf(),
    ensures
        forall|i: int| 0 <= i < children.len() ==> (#[trigger] children[i]).wf_node(),
{
    assert(Ast::Program(raw, children)->Program_1 == children);
}

} // verus!
