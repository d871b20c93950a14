//! The grammar of patterns: which syntax tree a sequence of tokens stands for.
//!
//! Alternation binds loosest, then concatenation, then the postfix
//! quantifiers. The functions here read the tokens from left to right and
//! give the tree, or the first error that this reading meets.

use vstd::prelude::*;
use crate::ast::{Ast, PostfixKind, AnchorKind, all_wf, lemma_all_wf_push, lemma_all_wf_pop};
use crate::lexer::{TokenView, symbol_of};
use crate::unicode::scalar;

verus! {

/// Why a sequence of tokens is not a pattern.
#[derive(Debug, Clone, Copy, PartialEq, Eq)]
pub enum ParseError {
    /// A quantifier with nothing before it to apply to.
    DanglingQuantifier,
    /// A parenthesis without its partner.
    UnmatchedParen,
    /// A `[` without a closing `]`.
    UnterminatedBracket,
    /// Braces that do not hold a number, or two numbers in order.
    InvalidRepetitionBound,
}

/// One literal node for each character of `text`.
pub open spec fn literals(text: Seq<char>) -> Seq<Ast> {
    Seq::new(text.len(), |k: int| Ast::Literal(scalar(text[k])))
}

/// Whether `c` is one of the ten decimal digits.
pub open spec fn is_digit(c: char) -> bool {
    '0' <= c && c <= '9'
}

/// The number that the decimal digits `digits` write.
pub open spec fn decimal(digits: Seq<char>) -> nat
    decreases digits.len(),
{
    if digits.len() == 0 {
        0
    } else {
        decimal(digits.drop_last()) * 10 + (digits.last() as nat - '0' as nat) as nat
    }
}

/// The number that `text` writes, if it is made of decimal digits, at least
/// one, and the number fits in 32 bits.
pub open spec fn number_of_text(text: Seq<char>) -> Option<nat> {
    if text.len() > 0 && (forall|k: int| 0 <= k < text.len() ==> is_digit(#[trigger] text[k]))
        && decimal(text) <= u32::MAX {
        Some(decimal(text))
    } else {
        None
    }
}

/// The number that a token writes, if it is a literal that writes one.
pub open spec fn number_of(t: TokenView) -> Option<nat> {
    match t {
        TokenView::Literal(text) => number_of_text(text),
        _ => None,
    }
}

/// The bounds that follow an opening brace, where `pos` is the place behind
/// the brace: a number and the closing brace; or a number, a comma, perhaps a
/// second number that is not smaller, and the closing brace. The result holds
/// the minimum, the maximum if there is one, and the place behind the closing
/// brace.
pub open spec fn spec_bound(ts: Seq<TokenView>, pos: int) -> Result<
    (nat, Option<nat>, int),
    ParseError,
> {
    if pos < 0 || pos + 1 >= ts.len() {
        Err(ParseError::InvalidRepetitionBound)
    } else {
        match number_of(ts[pos]) {
            None => Err(ParseError::InvalidRepetitionBound),
            Some(min) => match ts[pos + 1] {
                TokenView::RBrace => Ok((min, Some(min), pos + 2)),
                TokenView::Comma => if pos + 2 >= ts.len() {
                    Err(ParseError::InvalidRepetitionBound)
                } else if ts[pos + 2] is RBrace {
                    Ok((min, None, pos + 3))
                } else {
                    match number_of(ts[pos + 2]) {
                        None => Err(ParseError::InvalidRepetitionBound),
                        Some(max) => if pos + 3 < ts.len() && ts[pos + 3] is RBrace && min
                            <= max {
                            Ok((min, Some(max), pos + 4))
                        } else {
                            Err(ParseError::InvalidRepetitionBound)
                        },
                    }
                },
                _ => Err(ParseError::InvalidRepetitionBound),
            },
        }
    }
}

/// The characters of a character class, where `got` holds those read so far
/// and `pos` is the place of the next token, with the place behind the
/// closing bracket; nothing if the tokens end first. Every token stands for
/// the characters it is written with, a backslash too. A `]` closes the class
/// unless it is its first character.
pub open spec fn class_end(ts: Seq<TokenView>, pos: int, got: Seq<char>) -> Option<
    (Seq<char>, int),
>
    decreases ts.len() - pos,
{
    if pos < 0 || pos >= ts.len() {
        None
    } else {
        match ts[pos] {
            TokenView::RBracket => if got.len() == 0 {
                class_end(ts, pos + 1, got.push(']'))
            } else {
                Some((got, pos + 1))
            },
            TokenView::Backslash(c) => if c == ']' {
                Some((got.push('\\'), pos + 1))
            } else {
                class_end(ts, pos + 1, got.push('\\').push(c))
            },
            TokenView::Literal(text) => class_end(ts, pos + 1, got + text),
            t => class_end(ts, pos + 1, got.push(symbol_of(t))),
        }
    }
}

/// The members that the characters of a class from place `k` on stand for. A
/// dash between two characters in order makes a range of them; any other
/// character, a dash too, is a member by itself.
pub open spec fn class_members(chars: Seq<char>, k: int) -> Seq<Ast>
    decreases chars.len() - k,
{
    if k < 0 || k >= chars.len() {
        Seq::empty()
    } else if k + 2 < chars.len() && chars[k + 1] == '-' && chars[k] <= chars[k + 2] {
        seq![Ast::Range(scalar(chars[k]), scalar(chars[k + 2]))] + class_members(chars, k + 3)
    } else {
        seq![Ast::Literal(scalar(chars[k]))] + class_members(chars, k + 1)
    }
}

/// The character class that follows an opening bracket, where `pos` is the
/// place behind the bracket, with the place behind the closing bracket.
pub open spec fn spec_bracket(ts: Seq<TokenView>, pos: int) -> Result<(Ast, int), ParseError> {
    let negated = 0 <= pos < ts.len() && ts[pos] is Caret;
    let start = if negated {
        pos + 1
    } else {
        pos
    };
    match class_end(ts, start, Seq::empty()) {
        None => Err(ParseError::UnterminatedBracket),
        Some((chars, next)) => Ok((Ast::Bracket(negated, class_members(chars, 0)), next)),
    }
}

/// The node for a sequence of items: the item itself where there is one, a
/// concatenation otherwise.
pub open spec fn sequence_node(items: Seq<Ast>) -> Ast {
    if items.len() == 1 {
        items[0]
    } else {
        Ast::Concatenation(items)
    }
}

/// `items` with its last item wrapped by `wrap`.
pub open spec fn rewrap(items: Seq<Ast>, wrapped: Ast) -> Seq<Ast> {
    items.drop_last().push(wrapped)
}

/// What the token at place `pos` adds to the items `items` of a sequence,
/// with the place behind what was read for it. A character, an escape, `.`
/// and an anchor add an atom, and so do a class in brackets and a group in
/// parentheses; a quantifier wraps the last item, and without one it dangles.
/// A token that has no other meaning at this place stands for the character
/// it is written with.
pub open spec fn spec_step(ts: Seq<TokenView>, pos: int, items: Seq<Ast>) -> Result<
    (Seq<Ast>, int),
    ParseError,
>
    decreases ts.len() - pos, 0nat,
{
    if pos < 0 || pos >= ts.len() {
        Ok((items, pos))
    } else {
        match ts[pos] {
            TokenView::Literal(text) => Ok((items + literals(text), pos + 1)),
            TokenView::Backslash(c) => Ok((items.push(Ast::Literal(c)), pos + 1)),
            TokenView::Dot => Ok((items.push(Ast::AnyChar), pos + 1)),
            TokenView::Caret => Ok((items.push(Ast::Anchor(AnchorKind::Start)), pos + 1)),
            TokenView::Dollar => Ok((items.push(Ast::Anchor(AnchorKind::End)), pos + 1)),
            TokenView::KleeneStar => quantified(items, PostfixKind::Star, pos + 1),
            TokenView::KleenePlus => quantified(items, PostfixKind::Plus, pos + 1),
            TokenView::Question => quantified(items, PostfixKind::Optional, pos + 1),
            TokenView::LBrace => if items.len() == 0 {
                Err(ParseError::DanglingQuantifier)
            } else {
                match spec_bound(ts, pos + 1) {
                    Err(e) => Err(e),
                    Ok((min, max, next)) => Ok(
                        (rewrap(items, Ast::Bounded(Box::new(items.last()), min, max)), next),
                    ),
                }
            },
            TokenView::LBracket => match spec_bracket(ts, pos + 1) {
                Err(e) => Err(e),
                Ok((class, next)) => Ok((items.push(class), next)),
            },
            TokenView::LParen => match spec_alternation(ts, pos + 1) {
                Err(e) => Err(e),
                Ok((inner, next)) => if 0 <= next < ts.len() && ts[next] is RParen {
                    Ok((items.push(Ast::Parens(Box::new(inner))), next + 1))
                } else {
                    Err(ParseError::UnmatchedParen)
                },
            },
            t => Ok((items.push(Ast::Literal(symbol_of(t))), pos + 1)),
        }
    }
}

/// `items` with its last item under the quantifier `kind`, and `next`; an
/// error where there is no item.
pub open spec fn quantified(items: Seq<Ast>, kind: PostfixKind, next: int) -> Result<
    (Seq<Ast>, int),
    ParseError,
> {
    if items.len() == 0 {
        Err(ParseError::DanglingQuantifier)
    } else {
        Ok((rewrap(items, Ast::UnaryPostfix(kind, Box::new(items.last()))), next))
    }
}

/// The items of a sequence, where `items` holds those read so far and `pos`
/// is the place of the next token, with the place at which the sequence ends:
/// at a `|`, at a `)` or behind the last token.
pub open spec fn spec_sequence(ts: Seq<TokenView>, pos: int, items: Seq<Ast>) -> Result<
    (Seq<Ast>, int),
    ParseError,
>
    decreases ts.len() - pos, 1nat,
{
    if pos < 0 || pos >= ts.len() || ts[pos] is VBar || ts[pos] is RParen {
        Ok((items, pos))
    } else {
        match spec_step(ts, pos, items) {
            Err(e) => Err(e),
            Ok((more, next)) => if pos < next <= ts.len() {
                spec_sequence(ts, next, more)
            } else {
                // A step reads at least one token and none behind the last.
                Ok((more, next))
            },
        }
    }
}

/// The place at which the reading of a sequence stops: where the sequence
/// ends, or at the token whose step fails.
pub open spec fn sequence_stop(ts: Seq<TokenView>, pos: int, items: Seq<Ast>) -> int
    decreases ts.len() - pos,
{
    if pos < 0 || pos >= ts.len() || ts[pos] is VBar || ts[pos] is RParen {
        pos
    } else {
        match spec_step(ts, pos, items) {
            Err(_) => pos,
            Ok((more, next)) => if pos < next <= ts.len() {
                sequence_stop(ts, next, more)
            } else {
                next
            },
        }
    }
}

/// The place at which the reading of alternatives stops: where they end, or
/// at the token whose step fails in one of their sequences.
pub open spec fn alternation_stop(ts: Seq<TokenView>, pos: int) -> int
    decreases ts.len() - pos,
{
    match spec_sequence(ts, pos, Seq::empty()) {
        Err(_) => sequence_stop(ts, pos, Seq::empty()),
        Ok((_, next)) => if pos <= next < ts.len() && ts[next] is VBar {
            alternation_stop(ts, next + 1)
        } else {
            next
        },
    }
}

/// The place at which the reading of a whole pattern stops: behind the last
/// token where the pattern has a tree; else at the token whose step fails, a
/// group that fails counting as one step that begins at its `(`, or at the
/// `)` that has no partner.
pub open spec fn parse_stop(ts: Seq<TokenView>) -> int {
    alternation_stop(ts, 0)
}

/// The alternatives that begin at place `pos`, with the place at which they
/// end: at a `)` or behind the last token. `a|b|c` is `a` or else `b|c`.
pub open spec fn spec_alternation(ts: Seq<TokenView>, pos: int) -> Result<(Ast, int), ParseError>
    decreases ts.len() - pos, 2nat,
{
    match spec_sequence(ts, pos, Seq::empty()) {
        Err(e) => Err(e),
        Ok((items, next)) => if pos <= next < ts.len() && ts[next] is VBar {
            match spec_alternation(ts, next + 1) {
                Err(e) => Err(e),
                Ok((right, end)) => Ok(
                    (Ast::Alternation(Box::new(sequence_node(items)), Box::new(right)), end),
                ),
            }
        } else {
            Ok((sequence_node(items), next))
        },
    }
}

/// The syntax tree of the pattern with text `raw` and tokens `ts`. The
/// program holds the items of the pattern or, where the pattern has
/// alternatives at its top, the one alternation. Every token is read: a `)`
/// without its partner is an error.
pub open spec fn spec_parse(raw: Seq<char>, ts: Seq<TokenView>) -> Result<Ast, ParseError> {
    match spec_sequence(ts, 0, Seq::empty()) {
        Err(e) => Err(e),
        Ok((items, next)) => if next >= ts.len() {
            Ok(Ast::Program(raw, items))
        } else if ts[next] is VBar {
            match spec_alternation(ts, next + 1) {
                Err(e) => Err(e),
                Ok((right, end)) => if end >= ts.len() {
                    Ok(
                        Ast::Program(
                            raw,
                            seq![
                                Ast::Alternation(Box::new(sequence_node(items)), Box::new(right)),
                            ],
                        ),
                    )
                } else {
                    Err(ParseError::UnmatchedParen)
                },
            }
        } else {
            Err(ParseError::UnmatchedParen)
        },
    }
}

/// A sequence ends within the tokens, and before their end only at a `|` or a
/// `)`.
pub proof fn lemma_sequence_stops(ts: Seq<TokenView>, pos: int, items: Seq<Ast>)
    requires
        0 <= pos <= ts.len(),
    ensures
        spec_sequence(ts, pos, items) matches Ok((_, next)) ==> pos <= next <= ts.len() && (next
            < ts.len() ==> ts[next] is VBar || ts[next] is RParen),
    decreases ts.len() - pos, 1nat,
{
    if pos < ts.len() && !(ts[pos] is VBar) && !(ts[pos] is RParen) {
        lemma_step_moves(ts, pos, items);
        if let Ok((more, next)) = spec_step(ts, pos, items) {
            lemma_sequence_stops(ts, next, more);
        }
    }
}

/// A step reads at least one token and none behind the last.
pub proof fn lemma_step_moves(ts: Seq<TokenView>, pos: int, items: Seq<Ast>)
    requires
        0 <= pos < ts.len(),
    ensures
        spec_step(ts, pos, items) matches Ok((_, next)) ==> pos < next <= ts.len(),
    decreases ts.len() - pos, 0nat,
{
    match ts[pos] {
        TokenView::LBracket => {
            let negated = pos + 1 < ts.len() && ts[pos + 1] is Caret;
            let start = if negated {
                pos + 2
            } else {
                pos + 1
            };
            lemma_class_end_moves(ts, start, Seq::empty());
        },
        TokenView::LParen => {
            lemma_alternation_stops(ts, pos + 1);
        },
        _ => {},
    }
}

/// A class ends behind the place from which it is read, within the tokens.
pub proof fn lemma_class_end_moves(ts: Seq<TokenView>, pos: int, got: Seq<char>)
    requires
        0 <= pos,
    ensures
        class_end(ts, pos, got) matches Some((_, next)) ==> pos < next <= ts.len(),
    decreases ts.len() - pos,
{
    if pos < ts.len() {
        match ts[pos] {
            TokenView::RBracket => {
                if got.len() == 0 {
                    lemma_class_end_moves(ts, pos + 1, got.push(']'));
                }
            },
            TokenView::Backslash(c) => {
                if c != ']' {
                    lemma_class_end_moves(ts, pos + 1, got.push('\\').push(c));
                }
            },
            TokenView::Literal(text) => {
                lemma_class_end_moves(ts, pos + 1, got + text);
            },
            t => {
                lemma_class_end_moves(ts, pos + 1, got.push(symbol_of(t)));
            },
        }
    }
}

/// Alternatives end within the tokens, and before their end only at a `)`.
pub proof fn lemma_alternation_stops(ts: Seq<TokenView>, pos: int)
    requires
        0 <= pos <= ts.len(),
    ensures
        spec_alternation(ts, pos) matches Ok((_, end)) ==> pos <= end <= ts.len() && (end
            < ts.len() ==> ts[end] is RParen),
    decreases ts.len() - pos, 2nat,
{
    lemma_sequence_stops(ts, pos, Seq::empty());
    if let Ok((items, next)) = spec_sequence(ts, pos, Seq::empty()) {
        if pos <= next < ts.len() && ts[next] is VBar {
            lemma_alternation_stops(ts, next + 1);
        }
    }
}

/// Parsing reads every token. A pattern has a syntax tree only when its
/// alternatives, read from the first token on, end behind the last token.
/// When they end before that, they end at a `)` that has no partner, and the
/// pattern is refused for it. An error in the alternatives is the error of
/// the pattern.
pub proof fn lemma_parse_reads_all(raw: Seq<char>, ts: Seq<TokenView>)
    ensures
        spec_parse(raw, ts) is Ok ==> (spec_alternation(ts, 0) matches Ok((_, end)) && end
            == ts.len()),
        spec_alternation(ts, 0) matches Ok((_, end)) ==> (end < ts.len() ==> ts[end] is RParen
            && spec_parse(raw, ts) == Err::<Ast, ParseError>(ParseError::UnmatchedParen)),
        spec_alternation(ts, 0) matches Ok((_, end)) ==> (end >= ts.len() ==> spec_parse(raw, ts)
            is Ok),
        spec_alternation(ts, 0) matches Err(e) ==> spec_parse(raw, ts) == Err::<Ast, ParseError>(
            e,
        ),
{
    lemma_sequence_stops(ts, 0, Seq::empty());
    lemma_alternation_stops(ts, 0);
    if let Ok((items, next)) = spec_sequence(ts, 0, Seq::empty()) {
        if next < ts.len() && ts[next] is VBar {
            lemma_alternation_stops(ts, next + 1);
        }
    }
}

/// The members that the characters of a class stand for are literals and
/// ranges in order.
pub proof fn lemma_class_members_wf(chars: Seq<char>, k: int)
    requires
        0 <= k,
    ensures
        forall|i: int|
            0 <= i < class_members(chars, k).len() ==> (#[trigger] class_members(
                chars,
                k,
            )[i]).is_member(),
    decreases chars.len() - k,
{
    if k < chars.len() {
        let next = if k + 2 < chars.len() && chars[k + 1] == '-' && chars[k] <= chars[k + 2] {
            k + 3
        } else {
            k + 1
        };
        lemma_class_members_wf(chars, next);
        let members = class_members(chars, k);
        let rest = class_members(chars, next);
        assert forall|i: int| 0 <= i < members.len() implies (#[trigger] members[i]).is_member() by {
            if i > 0 {
                assert(members[i] == rest[i - 1]);
            }
        }
    }
}

/// A step keeps the items well-formed.
pub proof fn lemma_step_wf(ts: Seq<TokenView>, pos: int, items: Seq<Ast>)
    requires
        0 <= pos < ts.len(),
        all_wf(items),
    ensures
        spec_step(ts, pos, items) matches Ok((more, _)) ==> all_wf(more),
    decreases ts.len() - pos, 0nat,
{
    if let Ok((more, _)) = spec_step(ts, pos, items) {
        match ts[pos] {
            TokenView::Literal(text) => {
                assert forall|i: int| 0 <= i < more.len() implies (#[trigger] more[i]).wf_node() by {
                    if i >= items.len() {
                        assert(more[i] == literals(text)[i - items.len()]);
                    }
                }
            },
            TokenView::Backslash(c) => {
                lemma_all_wf_push(items, Ast::Literal(c));
            },
            TokenView::Dot => {
                lemma_all_wf_push(items, Ast::AnyChar);
            },
            TokenView::Caret => {
                lemma_all_wf_push(items, Ast::Anchor(AnchorKind::Start));
            },
            TokenView::Dollar => {
                lemma_all_wf_push(items, Ast::Anchor(AnchorKind::End));
            },
            TokenView::KleeneStar => {
                lemma_all_wf_pop(items);
                lemma_all_wf_push(
                    items.drop_last(),
                    Ast::UnaryPostfix(PostfixKind::Star, Box::new(items.last())),
                );
            },
            TokenView::KleenePlus => {
                lemma_all_wf_pop(items);
                lemma_all_wf_push(
                    items.drop_last(),
                    Ast::UnaryPostfix(PostfixKind::Plus, Box::new(items.last())),
                );
            },
            TokenView::Question => {
                lemma_all_wf_pop(items);
                lemma_all_wf_push(
                    items.drop_last(),
                    Ast::UnaryPostfix(PostfixKind::Optional, Box::new(items.last())),
                );
            },
            TokenView::LBrace => {
                let (min, max, _) = spec_bound(ts, pos + 1)->Ok_0;
                lemma_all_wf_pop(items);
                lemma_all_wf_push(
                    items.drop_last(),
                    Ast::Bounded(Box::new(items.last()), min, max),
                );
            },
            TokenView::LBracket => {
                let (class, _) = spec_bracket(ts, pos + 1)->Ok_0;
                let negated = pos + 1 < ts.len() && ts[pos + 1] is Caret;
                let start = if negated {
                    pos + 2
                } else {
                    pos + 1
                };
                let chars = class_end(ts, start, Seq::empty())->Some_0.0;
                lemma_class_members_wf(chars, 0);
                assert(class->Bracket_1 == class_members(chars, 0));
                lemma_all_wf_push(items, class);
            },
            TokenView::LParen => {
                lemma_alternation_wf(ts, pos + 1);
                let (inner, _) = spec_alternation(ts, pos + 1)->Ok_0;
                lemma_all_wf_push(items, Ast::Parens(Box::new(inner)));
            },
            t => {
                lemma_all_wf_push(items, Ast::Literal(symbol_of(t)));
            },
        }
    }
}

/// A sequence that starts from well-formed items has well-formed items.
pub proof fn lemma_sequence_wf(ts: Seq<TokenView>, pos: int, items: Seq<Ast>)
    requires
        0 <= pos <= ts.len(),
        all_wf(items),
    ensures
        spec_sequence(ts, pos, items) matches Ok((all, _)) ==> all_wf(all),
    decreases ts.len() - pos, 1nat,
{
    if pos < ts.len() && !(ts[pos] is VBar) && !(ts[pos] is RParen) {
        lemma_step_wf(ts, pos, items);
        lemma_step_moves(ts, pos, items);
        if let Ok((more, next)) = spec_step(ts, pos, items) {
            lemma_sequence_wf(ts, next, more);
        }
    }
}

/// The node for a sequence of well-formed items is well-formed.
pub proof fn lemma_sequence_node_wf(items: Seq<Ast>)
    requires
        all_wf(items),
    ensures
        sequence_node(items).wf_node(),
{
    if items.len() != 1 {
        assert(Ast::Concatenation(items)->Concatenation_0 == items);
    }
}

/// Alternatives read from the tokens are a well-formed node.
pub proof fn lemma_alternation_wf(ts: Seq<TokenView>, pos: int)
    requires
        0 <= pos <= ts.len(),
    ensures
        spec_alternation(ts, pos) matches Ok((node, _)) ==> node.wf_node(),
    decreases ts.len() - pos, 2nat,
{
    lemma_sequence_wf(ts, pos, Seq::empty());
    if let Ok((items, next)) = spec_sequence(ts, pos, Seq::empty()) {
        lemma_sequence_node_wf(items);
        if pos <= next < ts.len() && ts[next] is VBar {
            lemma_alternation_wf(ts, next + 1);
        }
    }
}

/// The tree of a pattern keeps the invariants of the syntax tree: one
/// program, at the root; the bounds of every repetition and of every range in
/// order; only literals and ranges in a character class.
pub proof fn lemma_parse_wf(raw: Seq<char>, ts: Seq<TokenView>)
    ensures
        spec_parse(raw, ts) matches Ok(ast) ==> ast.wf(),
{
    lemma_sequence_wf(ts, 0, Seq::empty());
    lemma_sequence_stops(ts, 0, Seq::empty());
    if let Ok((items, next)) = spec_sequence(ts, 0, Seq::empty()) {
        if next >= ts.len() {
            assert(Ast::Program(raw, items)->Program_1 == items);
        } else if ts[next] is VBar {
            lemma_sequence_node_wf(items);
            lemma_alternation_wf(ts, next + 1);
            if let Ok((right, end)) = spec_alternation(ts, next + 1) {
                let whole = Ast::Alternation(Box::new(sequence_node(items)), Box::new(right));
                let children = seq![whole];
                assert(Ast::Program(raw, children)->Program_1 == children);
            }
        }
    }
}

/// An element between two sequences may be counted to either of them.
pub proof fn lemma_shift<T>(a: Seq<T>, x: T, b: Seq<T>)
    ensures
        a + (seq![x] + b) == a.push(x) + b,
{
    assert(a + (seq![x] + b) =~= a.push(x) + b);
}

/// One element more of a sequence taken from its front.
pub proof fn lemma_take_next<T>(s: Seq<T>, k: int)
    requires
        0 <= k < s.len(),
    ensures
        s.take(k + 1) == s.take(k).push(s[k]),
{
    assert(s.take(k + 1) =~= s.take(k).push(s[k]));
}

/// The digits read so far never write more than all of them.
pub proof fn lemma_decimal_grows(digits: Seq<char>, k: int)
    requires
        0 <= k <= digits.len(),
    ensures
        decimal(digits.take(k)) <= decimal(digits),
    decreases digits.len() - k,
{
    if k < digits.len() {
        lemma_decimal_grows(digits, k + 1);
        assert(digits.take(k + 1).drop_last() =~= digits.take(k));
    } else {
        assert(digits.take(k) =~= digits);
    }
}

} // verus!
