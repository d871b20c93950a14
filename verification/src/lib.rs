//! A regular-expression engine: a pattern is tokenized, parsed into a syntax
//! tree, compiled into a nondeterministic finite automaton and run against
//! whole input strings.

use vstd::prelude::*;

pub mod unicode;
pub mod lexer;
pub mod ast;
pub mod language;
pub mod nfa;
pub mod fragment;
pub mod compiler;
pub mod matcher;
pub mod grammar;
pub mod parser;

use crate::ast::{Ast, Expression};
use crate::compiler::compile;
use crate::grammar::{ParseError, spec_parse};
use crate::language::accepts;
use crate::lexer::{LexError, Token, TokenView, lex, spec_lex, token_views};
use crate::nfa::Nfa;
use crate::parser::parse;
use crate::unicode::chars_of;

verus! {

/// Why a pattern could not be compiled.
#[derive(Debug, Clone, Copy, PartialEq, Eq)]
pub enum Error {
    /// The pattern could not be tokenized.
    Lex(LexError),
    /// The tokens of the pattern do not form a pattern.
    Parse(ParseError),
}

impl Error {
    /// The text of the message for this error.
    pub open spec fn message_text(self) -> Seq<char> {
        match self {
            Error::Lex(e) => e.message_text(),
            Error::Parse(e) => e.message_text(),
        }
    }

    /// A message for the user.
    pub fn message(&self) -> (s: String)
        ensures
            s@ == self.message_text(),
    {
        match self {
            Error::Lex(e) => e.message(),
            Error::Parse(e) => e.message(),
        }
    }
}

/// The syntax tree of the pattern with text `raw` and tokens `ts`, or why the
/// tokens have none.
pub open spec fn spec_tree(raw: Seq<char>, ts: Seq<TokenView>) -> Result<Ast, Error> {
    match spec_parse(raw, ts) {
        Ok(ast) => Ok(ast),
        Err(e) => Err(Error::Parse(e)),
    }
}

/// The syntax tree of a pattern, or the first error that reading the pattern
/// from left to right meets.
pub open spec fn spec_pattern(pattern: Seq<char>) -> Result<Ast, Error> {
    match spec_lex(pattern) {
        Ok(ts) => spec_tree(pattern, ts),
        Err(e) => Err(Error::Lex(e)),
    }
}

/// A compiled pattern. It holds the automaton and nothing else, and no call
/// changes it.
pub struct Regex {
    nfa: Nfa,
}

impl Regex {
    #[verifier::type_invariant]
    spec fn well_formed(self) -> bool {
        self.nfa.wf()
    }

    /// Whether the compiled pattern matches the whole of `s`.
    pub closed spec fn matches(self, s: Seq<char>) -> bool {
        self.nfa.accepts(s)
    }

    /// Whether this is a compiled form of the syntax tree `ast`: it matches
    /// the strings that `ast` matches as a whole, and no others.
    pub open spec fn recognises(self, ast: Ast) -> bool {
        forall|s: Seq<char>| #[trigger] self.matches(s) <==> accepts(ast, s)
    }

    /// The tokens of a pattern.
    pub fn lex(expression: &str) -> (r: Result<Vec<Token>, LexError>)
        ensures
            match r {
                Ok(tokens) => spec_lex(expression@) == Ok::<Seq<TokenView>, LexError>(
                    token_views(tokens@),
                ),
                Err(e) => spec_lex(expression@) == Err::<Seq<TokenView>, LexError>(e),
            },
    {
        lex(expression)
    }

    /// Compiles the pattern with text `expression` and tokens `tokens`.
    pub fn from_tokens(expression: &str, tokens: Vec<Token>) -> (r: Result<Regex, Error>)
        ensures
            match r {
                Ok(regex) => spec_tree(expression@, token_views(tokens@)) matches Ok(ast)
                    && regex.recognises(ast),
                Err(e) => spec_tree(expression@, token_views(tokens@)) == Err::<Ast, Error>(e),
            },
    {
        match parse(expression, tokens) {
            Ok(root) => Ok(Regex { nfa: compile(&root) }),
            Err(e) => Err(Error::Parse(e)),
        }
    }

    /// Compiles a pattern: tokenizes it, parses the tokens and builds the
    /// automaton. The first error met is returned, and nothing else.
    pub fn new(expression: &str) -> (r: Result<Regex, Error>)
        ensures
            match r {
                Ok(regex) => spec_pattern(expression@) matches Ok(ast) && regex.recognises(ast),
                Err(e) => spec_pattern(expression@) == Err::<Ast, Error>(e),
            },
    {
        match lex(expression) {
            Ok(tokens) => Regex::from_tokens(expression, tokens),
            Err(e) => Err(Error::Lex(e)),
        }
    }

    /// Whether the pattern matches the whole of `text`.
    pub fn is_match(&self, text: &str) -> (b: bool)
        ensures
            b == self.matches(text@),
    {
        proof {
            use_type_invariant(self);
        }
        let input = chars_of(text);
        self.nfa.run(&input)
    }
}

impl Expression {
    /// Whether the tree, or the node of a tree, matches the whole of `input`.
    /// It is compiled for this one use.
    pub fn eval(&self, input: &str) -> (b: bool)
        requires
            self@.wf() || self@.wf_node(),
        ensures
            b == accepts(self@, input@),
    {
        let nfa = compile(self);
        let chars = chars_of(input);
        nfa.run(&chars)
    }
}

/// Compiling is repeatable: two compiled forms of one pattern match the same
/// strings, whatever their automata look like.
pub proof fn lemma_same_pattern_same_matches(
    first: Regex,
    second: Regex,
    pattern: Seq<char>,
    s: Seq<char>,
)
    requires
        spec_pattern(pattern) matches Ok(ast) && first.recognises(ast),
        spec_pattern(pattern) matches Ok(ast) && second.recognises(ast),
    ensures
        first.matches(s) == second.matches(s),
{
}

} // verus!
