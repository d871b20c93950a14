//! The parser: builds the syntax tree of a pattern from its tokens.
//!
//! The parser keeps the list of the items of the sequence it is reading. An
//! atom is added at the end of the list; a quantifier takes the last item off
//! the list and puts it back wrapped.

use vstd::prelude::*;
use crate::ast::{
    Ast, Expression, PostfixKind, AnchorKind, views_of, all_wf, lemma_views_push, lemma_views_pop,
    lemma_all_wf_push, lemma_all_wf_pop,
};
use crate::lexer::{Token, TokenView, token_views, symbol_of};
use crate::grammar::{
    ParseError, literals, is_digit, decimal, number_of_text, number_of, spec_bound,
    class_end, class_members, sequence_node, spec_step, spec_sequence, sequence_stop,
    alternation_stop, parse_stop,
    spec_alternation, spec_parse, lemma_decimal_grows, lemma_shift, lemma_take_next,
};
use crate::unicode::chars_of;

verus! {

impl ParseError {
    /// The text of the message for this error.
    pub open spec fn message_text(self) -> Seq<char> {
        match self {
            ParseError::DanglingQuantifier => "Quantifier without an operand"@,
            ParseError::UnmatchedParen => "Unmatched parenthesis"@,
            ParseError::UnterminatedBracket => "Unterminated character class"@,
            ParseError::InvalidRepetitionBound => "Invalid repetition bound"@,
        }
    }

    /// A message for the user.
    pub fn message(&self) -> (s: String)
        ensures
            s@ == self.message_text(),
    {
        match self {
            ParseError::DanglingQuantifier => "Quantifier without an operand".to_owned(),
            ParseError::UnmatchedParen => "Unmatched parenthesis".to_owned(),
            ParseError::UnterminatedBracket => "Unterminated character class".to_owned(),
            ParseError::InvalidRepetitionBound => "Invalid repetition bound".to_owned(),
        }
    }
}

impl Token {
    /// The character that an operator token is written with.
    pub fn symbol(&self) -> (c: char)
        ensures
            c == symbol_of(self@),
    {
        match self {
            Token::Literal(_) => ' ',
            Token::Backslash(c) => *c,
            Token::KleeneStar => '*',
            Token::KleenePlus => '+',
            Token::Question => '?',
            Token::LParen => '(',
            Token::RParen => ')',
            Token::VBar => '|',
            Token::RBracket => ']',
            Token::LBracket => '[',
            Token::LBrace => '{',
            Token::RBrace => '}',
            Token::Comma => ',',
            Token::Dash => '-',
            Token::Dot => '.',
            Token::Caret => '^',
            Token::Dollar => '$',
        }
    }
}

/// The number that `text` writes in decimal digits, if it writes one that
/// fits in 32 bits.
pub fn parse_number(text: &str) -> (r: Option<u32>)
    ensures
        match r {
            Some(n) => number_of_text(text@) == Some(n as nat),
            None => number_of_text(text@) is None,
        },
{
    let digits = chars_of(text);
    if digits.len() == 0 {
        return None;
    }
    let mut value: u64 = 0;
    let mut k: usize = 0;
    while k < digits.len()
        invariant
            digits@ == text@,
            k <= digits@.len(),
            value == decimal(digits@.take(k as int)),
            value <= u32::MAX,
            forall|t: int| 0 <= t < k ==> is_digit(#[trigger] digits@[t]),
        decreases digits@.len() - k,
    {
        let c = digits[k];
        if !('0' <= c && c <= '9') {
            return None;
        }
        let digit = (c as u32 - '0' as u32) as u64;
        proof {
            assert(digits@.take(k + 1).drop_last() =~= digits@.take(k as int));
            assert(digits@.take(k + 1).last() == c);
            lemma_decimal_grows(digits@, k + 1);
        }
        let next = value * 10 + digit;
        if next > u32::MAX as u64 {
            return None;
        }
        value = next;
        k = k + 1;
    }
    assert(digits@.take(k as int) =~= digits@);
    Some(value as u32)
}

/// The number that a token writes, if it is a literal that writes one.
fn token_number(token: &Token) -> (r: Option<u32>)
    ensures
        match r {
            Some(n) => number_of(token@) == Some(n as nat),
            None => number_of(token@) is None,
        },
{
    match token {
        Token::Literal(text) => parse_number(text.as_str()),
        _ => None,
    }
}

/// Reads the bounds of a repetition behind its opening brace, which stands
/// before place `pos`. Gives the minimum, the maximum if there is one, and
/// the place behind the closing brace.
pub fn parse_bound(tokens: &Vec<Token>, pos: usize) -> (r: Result<
    (u32, Option<u32>, usize),
    ParseError,
>)
    requires
        pos <= tokens@.len(),
    ensures
        match r {
            Ok((min, max, next)) => {
                &&& spec_bound(token_views(tokens@), pos as int) == Ok::<
                    (nat, Option<nat>, int),
                    ParseError,
                >(
                    (
                        min as nat,
                        match max {
                            Some(n) => Some(n as nat),
                            None => None,
                        },
                        next as int,
                    ),
                )
                &&& pos < next <= tokens@.len()
                &&& max is Some ==> min <= max->0
            },
            Err(e) => spec_bound(token_views(tokens@), pos as int) == Err::<
                (nat, Option<nat>, int),
                ParseError,
            >(e),
        },
{
    let len = tokens.len();
    if len < 2 || pos >= len - 1 {
        return Err(ParseError::InvalidRepetitionBound);
    }
    let min = match token_number(&tokens[pos]) {
        Some(n) => n,
        None => {
            return Err(ParseError::InvalidRepetitionBound);
        },
    };
    match &tokens[pos + 1] {
        Token::RBrace => Ok((min, Some(min), pos + 2)),
        Token::Comma => {
            if pos + 2 >= len {
                return Err(ParseError::InvalidRepetitionBound);
            }
            match &tokens[pos + 2] {
                Token::RBrace => Ok((min, None, pos + 3)),
                other => {
                    match token_number(other) {
                        None => Err(ParseError::InvalidRepetitionBound),
                        Some(max) => {
                            if pos + 3 < len && min <= max {
                                match &tokens[pos + 3] {
                                    Token::RBrace => Ok((min, Some(max), pos + 4)),
                                    _ => Err(ParseError::InvalidRepetitionBound),
                                }
                            } else {
                                Err(ParseError::InvalidRepetitionBound)
                            }
                        },
                    }
                },
            }
        },
        _ => Err(ParseError::InvalidRepetitionBound),
    }
}

/// Reads the characters of a character class up to its closing bracket, from
/// place `start` on. Gives the characters and the place behind the closing
/// bracket, or nothing if the tokens end before the class does.
pub fn scan_class(tokens: &Vec<Token>, start: usize) -> (r: Option<(Vec<char>, usize)>)
    requires
        start <= tokens@.len(),
    ensures
        match r {
            Some((chars, next)) => {
                &&& class_end(token_views(tokens@), start as int, Seq::empty()) == Some(
                    (chars@, next as int),
                )
                &&& start < next <= tokens@.len()
            },
            None => class_end(token_views(tokens@), start as int, Seq::empty()) is None,
        },
{
    let ghost ts = token_views(tokens@);
    let mut chars: Vec<char> = Vec::new();
    let mut pos: usize = start;
    while pos < tokens.len()
        invariant
            ts == token_views(tokens@),
            start <= pos <= tokens@.len(),
            class_end(ts, start as int, Seq::empty()) == class_end(ts, pos as int, chars@),
        decreases tokens@.len() - pos,
    {
        match &tokens[pos] {
            Token::RBracket => {
                if chars.len() == 0 {
                    chars.push(']');
                } else {
                    return Some((chars, pos + 1));
                }
            },
            Token::Backslash(c) => {
                chars.push('\\');
                if *c == ']' {
                    return Some((chars, pos + 1));
                }
                chars.push(*c);
            },
            Token::Literal(text) => {
                let more = chars_of(text.as_str());
                let ghost before = chars@;
                let mut k: usize = 0;
                while k < more.len()
                    invariant
                        k <= more@.len(),
                        chars@ == before + more@.take(k as int),
                    decreases more@.len() - k,
                {
                    chars.push(more[k]);
                    assert(before + more@.take(k + 1) =~= (before + more@.take(k as int)).push(
                        more@[k as int],
                    ));
                    k = k + 1;
                }
                assert(more@.take(k as int) =~= more@);
            },
            other => {
                chars.push(other.symbol());
            },
        }
        pos = pos + 1;
    }
    None
}

/// The members that the characters of a class stand for.
pub fn class_members_of(chars: &Vec<char>) -> (members: Vec<Expression>)
    ensures
        views_of(members@) == class_members(chars@, 0),
        forall|k: int| 0 <= k < members@.len() ==> (#[trigger] views_of(members@)[k]).is_member(),
{
    let mut members: Vec<Expression> = Vec::new();
    let mut k: usize = 0;
    assert(views_of(members@) + class_members(chars@, 0) =~= class_members(chars@, 0));
    while k < chars.len()
        invariant
            k <= chars@.len(),
            class_members(chars@, 0) == views_of(members@) + class_members(chars@, k as int),
            forall|t: int|
                0 <= t < members@.len() ==> (#[trigger] views_of(members@)[t]).is_member(),
        decreases chars@.len() - k,
    {
        let ranged = chars.len() - k > 2 && chars[k + 1] == '-' && chars[k] <= chars[k + 2];
        let member = if ranged {
            Expression::range(chars[k], chars[k + 2])
        } else {
            Expression::literal(chars[k])
        };
        let next = if ranged {
            k + 3
        } else {
            k + 1
        };
        proof {
            lemma_views_push(members@, member);
            lemma_shift(views_of(members@), member@, class_members(chars@, next as int));
        }
        members.push(member);
        k = next;
    }
    assert(views_of(members@) + Seq::<Ast>::empty() =~= views_of(members@));
    members
}

/// The node for a sequence of items: the item itself where there is one, a
/// concatenation otherwise.
pub fn sequence_of(items: Vec<Expression>) -> (node: Expression)
    requires
        all_wf(views_of(items@)),
    ensures
        node@ == sequence_node(views_of(items@)),
        node@.wf_node(),
{
    let mut items = items;
    if items.len() == 1 {
        proof {
            lemma_views_pop(items@);
        }
        items.pop().unwrap()
    } else {
        Expression::concatenation(items)
    }
}

/// Adds `item` at the end of `items`.
fn push_item(items: &mut Vec<Expression>, item: Expression)
    requires
        all_wf(views_of(old(items)@)),
        item@.wf_node(),
    ensures
        final(items)@ == old(items)@.push(item),
        views_of(final(items)@) == views_of(old(items)@).push(item@),
        all_wf(views_of(final(items)@)),
{
    proof {
        lemma_views_push(items@, item);
        lemma_all_wf_push(views_of(items@), item@);
    }
    items.push(item);
}

/// Takes the last of `items` off the list.
fn take_last(items: &mut Vec<Expression>) -> (last: Expression)
    requires
        old(items)@.len() > 0,
        all_wf(views_of(old(items)@)),
    ensures
        final(items)@ == old(items)@.drop_last(),
        last == old(items)@.last(),
        views_of(final(items)@) == views_of(old(items)@).drop_last(),
        last@ == views_of(old(items)@).last(),
        last@.wf_node(),
        all_wf(views_of(final(items)@)),
{
    proof {
        lemma_views_pop(items@);
        lemma_all_wf_pop(views_of(items@));
    }
    items.pop().unwrap()
}

/// A parser over the tokens of one pattern.
pub struct Parser {
    /// The text of the pattern.
    pub expression: String,
    /// The tokens of the pattern.
    pub tokens: Vec<Token>,
    /// The place of the next token to read.
    pub current_token_idx: usize,
    /// The syntax tree, once the pattern is parsed.
    pub current_node: Option<Expression>,
}

impl Parser {
    /// The values of the tokens.
    pub open spec fn views(self) -> Seq<TokenView> {
        token_views(self.tokens@)
    }

    /// Whether this parser is `before` but for the place it has read to.
    pub open spec fn moved_from(self, before: Parser) -> bool {
        &&& self.tokens == before.tokens
        &&& self.expression == before.expression
        &&& self.current_node == before.current_node
    }

    /// What a step that reads for a sequence has done, with `r` its result
    /// and `had` and `has` the items before and after it: on success it has
    /// read what the token at its place begins and the items are those of the
    /// grammar for that step; on failure the step fails in the grammar with
    /// the same error, and the place and the items are as they were.
    pub open spec fn stepped(
        self,
        before: Parser,
        had: Seq<Expression>,
        has: Seq<Expression>,
        r: Result<(), ParseError>,
    ) -> bool {
        &&& self.moved_from(before)
        &&& match r {
            Ok(()) => {
                &&& before.current_token_idx < self.current_token_idx <= self.tokens@.len()
                &&& all_wf(views_of(has))
                &&& spec_step(before.views(), before.current_token_idx as int, views_of(had))
                    == Ok::<(Seq<Ast>, int), ParseError>(
                    (views_of(has), self.current_token_idx as int),
                )
            },
            Err(e) => {
                &&& spec_step(before.views(), before.current_token_idx as int, views_of(had))
                    == Err::<(Seq<Ast>, int), ParseError>(e)
                &&& self.current_token_idx == before.current_token_idx
                &&& has == had
            },
        }
    }

    /// A parser for the pattern with text `expression` and tokens `tokens`.
    pub fn new(expression: &str, tokens: Vec<Token>) -> (parser: Parser)
        ensures
            parser.expression@ == expression@,
            parser.tokens == tokens,
            parser.current_token_idx == 0,
            parser.current_node is None,
    {
        Parser { expression: expression.to_owned(), tokens, current_token_idx: 0, current_node: None }
    }

    /// Parses the tokens from the first on. On success the syntax tree stands
    /// in `current_node` and every token has been read. On failure
    /// `current_node` is empty and the parser stands at the token whose step
    /// failed: at the quantifier that dangles, at the `{`, `[` or `(` of what
    /// could not be read to its end, or at the `)` without a partner.
    pub fn parse(&mut self) -> (r: Result<(), ParseError>)
        ensures
            final(self).tokens == old(self).tokens,
            final(self).expression == old(self).expression,
            match r {
                Ok(()) => {
                    &&& final(self).current_node matches Some(root)
                    &&& spec_parse(old(self).expression@, old(self).views()) == Ok::<
                        Ast,
                        ParseError,
                    >(root@)
                    &&& root@.wf()
                    &&& final(self).current_token_idx == old(self).tokens@.len()
                },
                Err(e) => {
                    &&& final(self).current_node is None
                    &&& spec_parse(old(self).expression@, old(self).views()) == Err::<
                        Ast,
                        ParseError,
                    >(e)
                    &&& final(self).current_token_idx == parse_stop(old(self).views())
                },
            },
    {
        self.current_node = None;
        match self.parse_program() {
            Ok(root) => {
                self.current_node = Some(root);
                Ok(())
            },
            Err(e) => Err(e),
        }
    }

    /// Reads the whole pattern from the first token on and gives its tree.
    fn parse_program(&mut self) -> (r: Result<Expression, ParseError>)
        ensures
            final(self).tokens == old(self).tokens,
            final(self).expression == old(self).expression,
            final(self).current_node == old(self).current_node,
            match r {
                Ok(root) => {
                    &&& spec_parse(old(self).expression@, old(self).views()) == Ok::<
                        Ast,
                        ParseError,
                    >(root@)
                    &&& root@.wf()
                    &&& final(self).current_token_idx == old(self).tokens@.len()
                },
                Err(e) => {
                    &&& spec_parse(old(self).expression@, old(self).views()) == Err::<
                        Ast,
                        ParseError,
                    >(e)
                    &&& final(self).current_token_idx == parse_stop(old(self).views())
                },
            },
    {
        self.current_token_idx = 0;
        let items = match self.parse_sequence() {
            Ok(items) => items,
            Err(e) => {
                return Err(e);
            },
        };
        let len = self.tokens.len();
        if self.current_token_idx >= len {
            return Ok(Expression::program(self.expression.clone(), items));
        }
        match &self.tokens[self.current_token_idx] {
            Token::VBar => {},
            _ => {
                return Err(ParseError::UnmatchedParen);
            },
        }
        let left = sequence_of(items);
        self.current_token_idx = self.current_token_idx + 1;
        let right = match self.parse_alternation() {
            Ok(right) => right,
            Err(e) => {
                return Err(e);
            },
        };
        if self.current_token_idx < len {
            return Err(ParseError::UnmatchedParen);
        }
        let whole = Expression::alternation(left, right);
        let mut children: Vec<Expression> = Vec::new();
        proof {
            lemma_views_push(children@, whole);
            assert(views_of(children@).push(whole@) =~= seq![whole@]);
        }
        children.push(whole);
        Ok(Expression::program(self.expression.clone(), children))
    }

    /// Reads alternatives, separated by `|`, up to a `)` or the end of the
    /// tokens.
    fn parse_alternation(&mut self) -> (r: Result<Expression, ParseError>)
        requires
            old(self).current_token_idx <= old(self).tokens@.len(),
        ensures
            final(self).moved_from(*old(self)),
            final(self).current_token_idx == alternation_stop(
                old(self).views(),
                old(self).current_token_idx as int,
            ),
            match r {
                Ok(node) => {
                    &&& spec_alternation(old(self).views(), old(self).current_token_idx as int)
                        == Ok::<(Ast, int), ParseError>(
                        (node@, final(self).current_token_idx as int),
                    )
                    &&& old(self).current_token_idx <= final(self).current_token_idx <= old(
                        self,
                    ).tokens@.len()
                    &&& node@.wf_node()
                },
                Err(e) => spec_alternation(old(self).views(), old(self).current_token_idx as int)
                    == Err::<(Ast, int), ParseError>(e),
            },
        decreases old(self).tokens@.len() - old(self).current_token_idx, 3nat,
    {
        let items = match self.parse_sequence() {
            Ok(items) => items,
            Err(e) => {
                return Err(e);
            },
        };
        let left = sequence_of(items);
        if self.current_token_idx < self.tokens.len() {
            match &self.tokens[self.current_token_idx] {
                Token::VBar => {
                    self.current_token_idx = self.current_token_idx + 1;
                    match self.parse_alternation() {
                        Ok(right) => Ok(Expression::alternation(left, right)),
                        Err(e) => Err(e),
                    }
                },
                _ => Ok(left),
            }
        } else {
            Ok(left)
        }
    }

    /// Reads the items of one sequence, up to a `|`, a `)` or the end of the
    /// tokens.
    fn parse_sequence(&mut self) -> (r: Result<Vec<Expression>, ParseError>)
        requires
            old(self).current_token_idx <= old(self).tokens@.len(),
        ensures
            final(self).moved_from(*old(self)),
            final(self).current_token_idx == sequence_stop(
                old(self).views(),
                old(self).current_token_idx as int,
                Seq::empty(),
            ),
            match r {
                Ok(items) => {
                    &&& spec_sequence(
                        old(self).views(),
                        old(self).current_token_idx as int,
                        Seq::empty(),
                    ) == Ok::<(Seq<Ast>, int), ParseError>(
                        (views_of(items@), final(self).current_token_idx as int),
                    )
                    &&& old(self).current_token_idx <= final(self).current_token_idx <= old(
                        self,
                    ).tokens@.len()
                    &&& all_wf(views_of(items@))
                },
                Err(e) => spec_sequence(
                    old(self).views(),
                    old(self).current_token_idx as int,
                    Seq::empty(),
                ) == Err::<(Seq<Ast>, int), ParseError>(e),
            },
        decreases old(self).tokens@.len() - old(self).current_token_idx, 2nat,
    {
        let ghost before = *self;
        let ghost ts = self.views();
        let mut items: Vec<Expression> = Vec::new();
        assert(views_of(items@) =~= Seq::empty());
        while self.current_token_idx < self.tokens.len()
            invariant
                before == *old(self),
                self.moved_from(before),
                ts == self.views(),
                before.current_token_idx <= self.current_token_idx <= self.tokens@.len(),
                all_wf(views_of(items@)),
                spec_sequence(ts, before.current_token_idx as int, Seq::empty()) == spec_sequence(
                    ts,
                    self.current_token_idx as int,
                    views_of(items@),
                ),
                sequence_stop(ts, before.current_token_idx as int, Seq::empty()) == sequence_stop(
                    ts,
                    self.current_token_idx as int,
                    views_of(items@),
                ),
            decreases self.tokens@.len() - self.current_token_idx,
        {
            match &self.tokens[self.current_token_idx] {
                Token::VBar => {
                    return Ok(items);
                },
                Token::RParen => {
                    return Ok(items);
                },
                _ => {},
            }
            match self.parse_next(&mut items) {
                Ok(()) => {},
                Err(e) => {
                    return Err(e);
                },
            }
        }
        Ok(items)
    }

    /// Reads what the next token begins: an atom, which is added to `items`,
    /// or a quantifier, which wraps the last of `items`.
    fn parse_next(&mut self, items: &mut Vec<Expression>) -> (r: Result<(), ParseError>)
        requires
            old(self).current_token_idx < old(self).tokens.len(),
            all_wf(views_of(old(items)@)),
        ensures
            final(self).stepped(*old(self), old(items)@, final(items)@, r),
        decreases old(self).tokens@.len() - old(self).current_token_idx, 1nat,
    {
        match &self.tokens[self.current_token_idx] {
            Token::KleeneStar | Token::KleenePlus | Token::Question => self.parse_unary_postfix(
                items,
            ),
            Token::LBrace => self.parse_bounded(items),
            Token::LBracket => self.parse_bracket(items),
            Token::LParen => self.parse_parens(items),
            _ => self.parse_literal(items),
        }
    }

    /// Reads a group: `(`, alternatives, `)`. A group that fails leaves the
    /// parser at its `(`.
    fn parse_parens(&mut self, items: &mut Vec<Expression>) -> (r: Result<(), ParseError>)
        requires
            old(self).current_token_idx < old(self).tokens.len(),
            old(self).views()[old(self).current_token_idx as int] is LParen,
            all_wf(views_of(old(items)@)),
        ensures
            final(self).stepped(*old(self), old(items)@, final(items)@, r),
        decreases old(self).tokens@.len() - old(self).current_token_idx, 0nat,
    {
        let opening = self.current_token_idx;
        self.current_token_idx = opening + 1;
        let inner = match self.parse_alternation() {
            Ok(inner) => inner,
            Err(e) => {
                self.current_token_idx = opening;
                return Err(e);
            },
        };
        if self.current_token_idx >= self.tokens.len() {
            self.current_token_idx = opening;
            return Err(ParseError::UnmatchedParen);
        }
        match &self.tokens[self.current_token_idx] {
            Token::RParen => {},
            _ => {
                self.current_token_idx = opening;
                return Err(ParseError::UnmatchedParen);
            },
        }
        self.current_token_idx = self.current_token_idx + 1;
        let group = Expression::parens(inner);
        push_item(items, group);
        Ok(())
    }

    /// Reads a token that stands for itself: the characters of a literal, an
    /// escaped character, `.`, an anchor, or a token such as `]`, `}`, `,` and
    /// `-`, which is a plain character outside of a class or of braces.
    fn parse_literal(&mut self, items: &mut Vec<Expression>) -> (r: Result<(), ParseError>)
        requires
            old(self).current_token_idx < old(self).tokens.len(),
            ({
                let t = old(self).views()[old(self).current_token_idx as int];
                !(t is KleeneStar) && !(t is KleenePlus) && !(t is Question) && !(t is LBrace)
                    && !(t is LBracket) && !(t is LParen)
            }),
            all_wf(views_of(old(items)@)),
        ensures
            final(self).stepped(*old(self), old(items)@, final(items)@, r),
            r is Ok,
    {
        let ghost had = items@;
        match &self.tokens[self.current_token_idx] {
            Token::Literal(text) => {
                let chars = chars_of(text.as_str());
                let mut k: usize = 0;
                assert(views_of(had) + literals(chars@).take(0) =~= views_of(had));
                while k < chars.len()
                    invariant
                        k <= chars@.len(),
                        views_of(items@) == views_of(had) + literals(chars@).take(k as int),
                        all_wf(views_of(items@)),
                    decreases chars@.len() - k,
                {
                    let atom = Expression::literal(chars[k]);
                    proof {
                        lemma_take_next(literals(chars@), k as int);
                        assert(views_of(had) + literals(chars@).take(k as int).push(atom@) =~= (
                        views_of(had) + literals(chars@).take(k as int)).push(atom@));
                    }
                    push_item(items, atom);
                    k = k + 1;
                }
                assert(literals(chars@).take(chars@.len() as int) =~= literals(chars@));
            },
            Token::Backslash(c) => {
                let atom = Expression::literal(*c);
                push_item(items, atom);
            },
            Token::Dot => {
                let atom = Expression::any_char();
                push_item(items, atom);
            },
            Token::Caret => {
                let atom = Expression::anchor(AnchorKind::Start);
                push_item(items, atom);
            },
            Token::Dollar => {
                let atom = Expression::anchor(AnchorKind::End);
                push_item(items, atom);
            },
            other => {
                let atom = Expression::literal(other.symbol());
                push_item(items, atom);
            },
        }
        self.current_token_idx = self.current_token_idx + 1;
        Ok(())
    }

    /// Reads `*`, `+` or `?` and wraps the last item in it. Without an item
    /// before it the quantifier dangles.
    fn parse_unary_postfix(&mut self, items: &mut Vec<Expression>) -> (r: Result<
        (),
        ParseError,
    >)
        requires
            old(self).current_token_idx < old(self).tokens.len(),
            ({
                let t = old(self).views()[old(self).current_token_idx as int];
                t is KleeneStar || t is KleenePlus || t is Question
            }),
            all_wf(views_of(old(items)@)),
        ensures
            final(self).stepped(*old(self), old(items)@, final(items)@, r),
            r is Err <==> old(items)@.len() == 0,
            r is Err ==> r == Err::<(), ParseError>(ParseError::DanglingQuantifier),
    {
        let kind = match &self.tokens[self.current_token_idx] {
            Token::KleeneStar => PostfixKind::Star,
            Token::KleenePlus => PostfixKind::Plus,
            _ => PostfixKind::Optional,
        };
        if items.len() == 0 {
            return Err(ParseError::DanglingQuantifier);
        }
        let operand = take_last(items);
        let wrapped = Expression::postfix(kind, operand);
        push_item(items, wrapped);
        self.current_token_idx = self.current_token_idx + 1;
        Ok(())
    }

    /// Reads a repetition in braces and wraps the last item in it.
    fn parse_bounded(&mut self, items: &mut Vec<Expression>) -> (r: Result<(), ParseError>)
        requires
            old(self).current_token_idx < old(self).tokens.len(),
            old(self).views()[old(self).current_token_idx as int] is LBrace,
            all_wf(views_of(old(items)@)),
        ensures
            final(self).stepped(*old(self), old(items)@, final(items)@, r),
    {
        if items.len() == 0 {
            return Err(ParseError::DanglingQuantifier);
        }
        let (min, max, next) = match parse_bound(&self.tokens, self.current_token_idx + 1) {
            Ok(bound) => bound,
            Err(e) => {
                return Err(e);
            },
        };
        let operand = take_last(items);
        let wrapped = Expression::bounded(operand, min, max);
        push_item(items, wrapped);
        self.current_token_idx = next;
        Ok(())
    }

    /// Reads a character class in brackets.
    fn parse_bracket(&mut self, items: &mut Vec<Expression>) -> (r: Result<(), ParseError>)
        requires
            old(self).current_token_idx < old(self).tokens.len(),
            old(self).views()[old(self).current_token_idx as int] is LBracket,
            all_wf(views_of(old(items)@)),
        ensures
            final(self).stepped(*old(self), old(items)@, final(items)@, r),
    {
        let mut start = self.current_token_idx + 1;
        let mut negated = false;
        if start < self.tokens.len() {
            match &self.tokens[start] {
                Token::Caret => {
                    negated = true;
                    start = start + 1;
                },
                _ => {},
            }
        }
        let (chars, next) = match scan_class(&self.tokens, start) {
            Some(found) => found,
            None => {
                return Err(ParseError::UnterminatedBracket);
            },
        };
        let members = class_members_of(&chars);
        let class = Expression::bracket(negated, members);
        push_item(items, class);
        self.current_token_idx = next;
        Ok(())
    }
}

/// Parses the tokens `tokens` of the pattern with text `expression` into its
/// syntax tree. Every token is read; the first error met fails the pattern.
pub fn parse(expression: &str, tokens: Vec<Token>) -> (r: Result<Expression, ParseError>)
    ensures
        match r {
            Ok(root) => spec_parse(expression@, token_views(tokens@)) == Ok::<Ast, ParseError>(
                root@,
            ) && root@.wf(),
            Err(e) => spec_parse(expression@, token_views(tokens@)) == Err::<Ast, ParseError>(e),
        },
{
    let mut parser = Parser::new(expression, tokens);
    parser.parse_program()
}

} // verus!
