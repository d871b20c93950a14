//! The lexer: from the characters of a pattern to a flat sequence of tokens.

use vstd::prelude::*;
use crate::unicode::{alphanumeric, whitespace, chars_of, scalar};

verus! {

/// One lexical unit of a pattern.
#[derive(Debug, Clone, PartialEq, Eq)]
pub enum Token {
    /// A run of one or more consecutive alphanumeric or whitespace characters.
    Literal(String),
    /// The character that followed a backslash.
    Backslash(char),
    KleeneStar,
    KleenePlus,
    Question,
    LParen,
    RParen,
    VBar,
    RBracket,
    LBracket,
    LBrace,
    RBrace,
    Comma,
    /// A dash is the range operator between two members of a character class
    /// and a literal dash everywhere else.
    Dash,
    Dot,
    Caret,
    Dollar,
}

/// The mathematical value of a [`Token`]: the same variants, with the text of a
/// literal as a sequence of characters.
pub enum TokenView {
    Literal(Seq<char>),
    Backslash(char),
    KleeneStar,
    KleenePlus,
    Question,
    LParen,
    RParen,
    VBar,
    RBracket,
    LBracket,
    LBrace,
    RBrace,
    Comma,
    Dash,
    Dot,
    Caret,
    Dollar,
}

impl View for Token {
    type V = TokenView;

    open spec fn view(&self) -> TokenView {
        match *self {
            Token::Literal(s) => TokenView::Literal(s@),
            Token::Backslash(c) => TokenView::Backslash(c),
            Token::KleeneStar => TokenView::KleeneStar,
            Token::KleenePlus => TokenView::KleenePlus,
            Token::Question => TokenView::Question,
            Token::LParen => TokenView::LParen,
            Token::RParen => TokenView::RParen,
            Token::VBar => TokenView::VBar,
            Token::RBracket => TokenView::RBracket,
            Token::LBracket => TokenView::LBracket,
            Token::LBrace => TokenView::LBrace,
            Token::RBrace => TokenView::RBrace,
            Token::Comma => TokenView::Comma,
            Token::Dash => TokenView::Dash,
            Token::Dot => TokenView::Dot,
            Token::Caret => TokenView::Caret,
            Token::Dollar => TokenView::Dollar,
        }
    }
}

/// The values of a sequence of tokens.
pub open spec fn token_views(tokens: Seq<Token>) -> Seq<TokenView> {
    tokens.map_values(|t: Token| t@)
}

impl Token {
    /// `|`, `,` and `-` stand between two operands.
    pub fn is_binary_operator(&self) -> (b: bool)
        ensures
            b == (self@ is VBar || self@ is Comma || self@ is Dash),
    {
        match self {
            Token::VBar | Token::Comma | Token::Dash => true,
            _ => false,
        }
    }

    /// `*`, `+` and `?` follow their operand.
    pub fn is_unary_postfix(&self) -> (b: bool)
        ensures
            b == (self@ is KleeneStar || self@ is KleenePlus || self@ is Question),
    {
        match self {
            Token::KleeneStar | Token::KleenePlus | Token::Question => true,
            _ => false,
        }
    }

    /// `^` precedes its operand.
    pub fn is_unary_prefix(&self) -> (b: bool)
        ensures
            b == (self@ is Caret),
    {
        match self {
            Token::Caret => true,
            _ => false,
        }
    }
}

/// Why a pattern could not be tokenized.
#[derive(Debug, Clone, Copy, PartialEq, Eq)]
pub enum LexError {
    /// The pattern ends with a backslash that escapes nothing.
    UnterminatedEscape,
    /// A character that is neither an operator nor text stands outside an escape.
    UnexpectedChar(char),
}

impl LexError {
    /// The text of the message for this error.
    pub open spec fn message_text(self) -> Seq<char> {
        match self {
            LexError::UnterminatedEscape => "Invalid escape sequence"@,
            LexError::UnexpectedChar(c) => "Unexpected character: '"@.push(c).push('\''),
        }
    }

    /// A message for the user.
    pub fn message(&self) -> (s: String)
        ensures
            s@ == self.message_text(),
    {
        match *self {
            LexError::UnterminatedEscape => "Invalid escape sequence".to_owned(),
            LexError::UnexpectedChar(c) => {
                let mut s = "Unexpected character: '".to_owned();
                s.push(c);
                s.push('\'');
                s
            },
        }
    }
}

/// The operator token that the single character `c` stands for, if any.
pub open spec fn operator_of(c: char) -> Option<TokenView> {
    if c == '*' {
        Some(TokenView::KleeneStar)
    } else if c == '+' {
        Some(TokenView::KleenePlus)
    } else if c == '?' {
        Some(TokenView::Question)
    } else if c == '(' {
        Some(TokenView::LParen)
    } else if c == ')' {
        Some(TokenView::RParen)
    } else if c == '|' {
        Some(TokenView::VBar)
    } else if c == '[' {
        Some(TokenView::LBracket)
    } else if c == ']' {
        Some(TokenView::RBracket)
    } else if c == '{' {
        Some(TokenView::LBrace)
    } else if c == '}' {
        Some(TokenView::RBrace)
    } else if c == ',' {
        Some(TokenView::Comma)
    } else if c == '.' {
        Some(TokenView::Dot)
    } else if c == '^' {
        Some(TokenView::Caret)
    } else if c == '$' {
        Some(TokenView::Dollar)
    } else if c == '-' {
        Some(TokenView::Dash)
    } else {
        None
    }
}

/// The character that a token is written with. For a literal, which has a
/// whole text, and for an escape this is not asked.
pub open spec fn symbol_of(t: TokenView) -> char {
    match t {
        TokenView::Literal(_) => ' ',
        TokenView::Backslash(c) => c,
        TokenView::KleeneStar => '*',
        TokenView::KleenePlus => '+',
        TokenView::Question => '?',
        TokenView::LParen => '(',
        TokenView::RParen => ')',
        TokenView::VBar => '|',
        TokenView::RBracket => ']',
        TokenView::LBracket => '[',
        TokenView::LBrace => '{',
        TokenView::RBrace => '}',
        TokenView::Comma => ',',
        TokenView::Dash => '-',
        TokenView::Dot => '.',
        TokenView::Caret => '^',
        TokenView::Dollar => '$',
    }
}

/// The characters that a token is written with.
pub open spec fn spelling(t: TokenView) -> Seq<char> {
    match t {
        TokenView::Literal(text) => text,
        TokenView::Backslash(c) => seq!['\\', c],
        _ => seq![symbol_of(t)],
    }
}

/// The characters that a sequence of tokens is written with.
pub open spec fn spelled(tokens: Seq<TokenView>) -> Seq<char>
    decreases tokens.len(),
{
    if tokens.len() == 0 {
        Seq::empty()
    } else {
        spelling(tokens[0]) + spelled(tokens.drop_first())
    }
}

/// Position `i` holds a text character: one that is flagged as text and is
/// neither an operator nor the backslash.
pub open spec fn is_text(chars: Seq<char>, text: Seq<bool>, i: int) -> bool {
    &&& 0 <= i < chars.len()
    &&& i < text.len()
    &&& text[i]
    &&& operator_of(chars[i]) is None
    &&& chars[i] != '\\'
}

/// The end of the longest run of text characters that starts at `i`.
pub open spec fn run_end(chars: Seq<char>, text: Seq<bool>, i: int) -> int
    decreases chars.len() - i,
{
    if is_text(chars, text, i) {
        run_end(chars, text, i + 1)
    } else {
        i
    }
}

/// `tokens` followed by the outcome `rest` of scanning what comes after them.
pub open spec fn followed_by(tokens: Seq<TokenView>, rest: Result<Seq<TokenView>, LexError>) -> Result<
    Seq<TokenView>,
    LexError,
> {
    match rest {
        Ok(more) => Ok(tokens + more),
        Err(e) => Err(e),
    }
}

/// The tokens of `chars` from position `i` on, where `text` flags the
/// characters that may form literals, or the first error met.
pub open spec fn scan_from(chars: Seq<char>, text: Seq<bool>, i: int) -> Result<
    Seq<TokenView>,
    LexError,
>
    decreases chars.len() - i,
{
    if i < 0 || i >= chars.len() {
        Ok(Seq::empty())
    } else if let Some(t) = operator_of(chars[i]) {
        followed_by(seq![t], scan_from(chars, text, i + 1))
    } else if chars[i] == '\\' {
        if i + 1 < chars.len() {
            followed_by(
                seq![TokenView::Backslash(scalar(chars[i + 1]))],
                scan_from(chars, text, i + 2),
            )
        } else {
            Err(LexError::UnterminatedEscape)
        }
    } else if is_text(chars, text, i) {
        let j = run_end(chars, text, i + 1);
        if i < j <= chars.len() {
            followed_by(seq![TokenView::Literal(chars.subrange(i, j))], scan_from(chars, text, j))
        } else {
            // A run ends after its first character and within the input.
            Ok(Seq::empty())
        }
    } else {
        Err(LexError::UnexpectedChar(chars[i]))
    }
}

/// For each character, whether it is alphanumeric or whitespace.
pub open spec fn text_flags(chars: Seq<char>) -> Seq<bool> {
    Seq::new(chars.len(), |i: int| alphanumeric(chars[i]) || whitespace(chars[i]))
}

/// The tokens of a pattern, or the first error met.
pub open spec fn spec_lex(pattern: Seq<char>) -> Result<Seq<TokenView>, LexError> {
    scan_from(pattern, text_flags(pattern), 0)
}

/// A run never ends before it starts, nor beyond the input.
pub proof fn lemma_run_end_bounds(chars: Seq<char>, text: Seq<bool>, i: int)
    requires
        0 <= i <= chars.len(),
    ensures
        i <= run_end(chars, text, i) <= chars.len(),
        forall|k: int| i <= k < run_end(chars, text, i) ==> is_text(chars, text, k),
        !is_text(chars, text, run_end(chars, text, i)),
    decreases chars.len() - i,
{
    if is_text(chars, text, i) {
        lemma_run_end_bounds(chars, text, i + 1);
    }
}

/// The tokens mirror the input: written out one after the other, the tokens
/// scanned from place `i` on give back the characters from place `i` on.
pub proof fn lemma_tokens_spell_input(chars: Seq<char>, text: Seq<bool>, i: int)
    requires
        0 <= i <= chars.len(),
    ensures
        scan_from(chars, text, i) matches Ok(tokens) ==> spelled(tokens) == chars.skip(i),
    decreases chars.len() - i,
{
    if i >= chars.len() {
        assert(chars.skip(i) =~= Seq::empty());
    } else {
        let next = if operator_of(chars[i]) is Some {
            i + 1
        } else if chars[i] == '\\' {
            i + 2
        } else {
            run_end(chars, text, i + 1)
        };
        lemma_run_end_bounds(chars, text, i + 1);
        if next <= chars.len() {
            lemma_tokens_spell_input(chars, text, next);
            if let Ok(tokens) = scan_from(chars, text, i) {
                let rest = scan_from(chars, text, next)->Ok_0;
                assert(tokens.drop_first() =~= rest);
                assert(spelling(tokens[0]) =~= chars.subrange(i, next));
                assert(chars.subrange(i, next) + chars.skip(next) =~= chars.skip(i));
            }
        }
    }
}

/// The tokens of a pattern, written out one after the other, are the pattern.
pub proof fn lemma_lex_spells_pattern(pattern: Seq<char>)
    ensures
        spec_lex(pattern) matches Ok(tokens) ==> spelled(tokens) == pattern,
{
    lemma_tokens_spell_input(pattern, text_flags(pattern), 0);
    assert(pattern.skip(0) =~= pattern);
}

/// An outcome that follows no tokens is that outcome.
proof fn lemma_followed_by_nothing(rest: Result<Seq<TokenView>, LexError>)
    ensures
        followed_by(Seq::empty(), rest) == rest,
{
    if let Ok(more) = rest {
        assert(Seq::<TokenView>::empty() + more =~= more);
    }
}

/// Appending a token appends its value; prepending what was scanned so far
/// commutes with that.
proof fn lemma_push_token(
    tokens: Seq<Token>,
    t: Token,
    rest: Result<Seq<TokenView>, LexError>,
)
    ensures
        token_views(tokens.push(t)) == token_views(tokens).push(t@),
        followed_by(token_views(tokens), followed_by(seq![t@], rest)) == followed_by(
            token_views(tokens.push(t)),
            rest,
        ),
{
    assert(token_views(tokens.push(t)) =~= token_views(tokens).push(t@));
    if let Ok(more) = rest {
        assert(token_views(tokens) + (seq![t@] + more) =~= token_views(tokens).push(t@) + more);
    }
}

/// The operator token for `c`, if `c` is an operator character.
pub fn operator_token(c: char) -> (r: Option<Token>)
    ensures
        match r {
            Some(t) => operator_of(c) == Some(t@),
            None => operator_of(c) is None,
        },
{
    match c {
        '*' => Some(Token::KleeneStar),
        '+' => Some(Token::KleenePlus),
        '?' => Some(Token::Question),
        '(' => Some(Token::LParen),
        ')' => Some(Token::RParen),
        '|' => Some(Token::VBar),
        '[' => Some(Token::LBracket),
        ']' => Some(Token::RBracket),
        '{' => Some(Token::LBrace),
        '}' => Some(Token::RBrace),
        ',' => Some(Token::Comma),
        '.' => Some(Token::Dot),
        '^' => Some(Token::Caret),
        '$' => Some(Token::Dollar),
        '-' => Some(Token::Dash),
        _ => None,
    }
}

/// Tokenizes `chars` in a single pass, given for each character whether it may
/// stand in a literal. An operator character or a backslash is never text,
/// whatever its flag; a character without a flag is not text.
pub fn scan(chars: &Vec<char>, text: &Vec<bool>) -> (r: Result<Vec<Token>, LexError>)
    ensures
        match r {
            Ok(tokens) => scan_from(chars@, text@, 0) == Ok::<Seq<TokenView>, LexError>(
                token_views(tokens@),
            ),
            Err(e) => scan_from(chars@, text@, 0) == Err::<Seq<TokenView>, LexError>(e),
        },
{
    let mut tokens: Vec<Token> = Vec::new();
    let mut i: usize = 0;
    proof {
        lemma_followed_by_nothing(scan_from(chars@, text@, 0));
        assert(token_views(tokens@) =~= Seq::empty());
    }
    while i < chars.len()
        invariant
            i <= chars.len(),
            scan_from(chars@, text@, 0) == followed_by(
                token_views(tokens@),
                scan_from(chars@, text@, i as int),
            ),
        decreases chars.len() - i,
    {
        let c = chars[i];
        match operator_token(c) {
            Some(t) => {
                proof {
                    lemma_push_token(tokens@, t, scan_from(chars@, text@, i + 1));
                }
                tokens.push(t);
                i = i + 1;
            },
            None => {
                if c == '\\' {
                    if i + 1 < chars.len() {
                        let escaped = Token::Backslash(chars[i + 1]);
                        proof {
                            lemma_push_token(tokens@, escaped, scan_from(chars@, text@, i + 2));
                        }
                        tokens.push(escaped);
                        i = i + 2;
                    } else {
                        return Err(LexError::UnterminatedEscape);
                    }
                } else if i < text.len() && text[i] {
                    let mut literal = String::new();
                    literal.push(c);
                    let mut j: usize = i + 1;
                    proof {
                        lemma_run_end_bounds(chars@, text@, i + 1);
                    }
                    while j < chars.len() && j < text.len() && text[j] && chars[j] != '\\'
                        && operator_token(chars[j]).is_none()
                        invariant
                            i < j <= chars.len(),
                            literal@ == chars@.subrange(i as int, j as int),
                            run_end(chars@, text@, i + 1) == run_end(chars@, text@, j as int),
                        decreases chars.len() - j,
                    {
                        literal.push(chars[j]);
                        assert(chars@.subrange(i as int, j as int).push(chars@[j as int])
                            =~= chars@.subrange(i as int, j + 1));
                        j = j + 1;
                    }
                    let run = Token::Literal(literal);
                    proof {
                        assert(!is_text(chars@, text@, j as int));
                        assert(run_end(chars@, text@, i + 1) == j);
                        lemma_push_token(tokens@, run, scan_from(chars@, text@, j as int));
                    }
                    tokens.push(run);
                    i = j;
                } else {
                    return Err(LexError::UnexpectedChar(c));
                }
            },
        }
    }
    assert(token_views(tokens@) + Seq::<TokenView>::empty() =~= token_views(tokens@));
    Ok(tokens)
}

/// For each character of `chars`, whether it is alphanumeric or whitespace.
pub fn classify(chars: &Vec<char>) -> (text: Vec<bool>)
    ensures
        text@ == text_flags(chars@),
{
    let mut text: Vec<bool> = Vec::new();
    let mut i: usize = 0;
    while i < chars.len()
        invariant
            i <= chars.len(),
            text@ == text_flags(chars@).take(i as int),
        decreases chars.len() - i,
    {
        let c = chars[i];
        text.push(c.is_alphanumeric() || c.is_whitespace());
        assert(text@ =~= text_flags(chars@).take(i + 1));
        i = i + 1;
    }
    assert(text@ =~= text_flags(chars@));
    text
}

/// Turns a pattern into its tokens, in the order of the input. Runs of
/// alphanumeric or whitespace characters merge into one literal; a backslash
/// takes the next character with it. The first offending character fails the
/// whole pattern.
pub fn lex(expression: &str) -> (r: Result<Vec<Token>, LexError>)
    ensures
        match r {
            Ok(tokens) => spec_lex(expression@) == Ok::<Seq<TokenView>, LexError>(
                token_views(tokens@),
            ),
            Err(e) => spec_lex(expression@) == Err::<Seq<TokenView>, LexError>(e),
        },
{
    let chars = chars_of(expression);
    let text = classify(&chars);
    scan(&chars, &text)
}

} // verus!
