use regexp::ast::{AnchorKind, Expression, PostfixKind};
use regexp::compiler::{class_ranges, compile};
use regexp::grammar::ParseError;
use regexp::lexer::{lex, LexError, Token};
use regexp::matcher::StateSet;
use regexp::nfa::{Nfa, Predicate, State};
use regexp::parser::Parser;
use regexp::{Error, Regex};

#[test]
fn regex_new() {
    let regex = Regex::new("a*b").unwrap();
    assert!(regex.is_match("aaab"));
    assert!(regex.is_match("b"));
}

#[test]
fn star_then_literal() {
    let regex = Regex::new("a*b").unwrap();
    assert!(regex.is_match("aaab"));
    assert!(regex.is_match("b"));
    assert!(regex.is_match("ab"));
    assert!(!regex.is_match(""));
    assert!(!regex.is_match("aaa"));
    assert!(!regex.is_match("ab extra"));
    assert!(!regex.is_match("ba"));
}

#[test]
fn class_with_plus() {
    let regex = Regex::new("[a-z]+").unwrap();
    assert!(regex.is_match("hello"));
    assert!(!regex.is_match("HELLO"));
    assert!(!regex.is_match(""));
    assert!(!regex.is_match("hello!"));
}

#[test]
fn bounded_repetition() {
    let regex = Regex::new("a{2,3}").unwrap();
    assert!(regex.is_match("aa"));
    assert!(regex.is_match("aaa"));
    assert!(!regex.is_match("a"));
    assert!(!regex.is_match("aaaa"));
    assert!(!regex.is_match(""));
}

#[test]
fn bounded_repetition_forms() {
    let exact = Regex::new("a{2}").unwrap();
    assert!(!exact.is_match("a"));
    assert!(exact.is_match("aa"));
    assert!(!exact.is_match("aaa"));
    let open = Regex::new("a{2,}").unwrap();
    assert!(!open.is_match("a"));
    assert!(open.is_match("aa"));
    assert!(open.is_match("aaaaaaa"));
    let none = Regex::new("a{0}").unwrap();
    assert!(none.is_match(""));
    assert!(!none.is_match("a"));
    let upto = Regex::new("a{0,2}b").unwrap();
    assert!(upto.is_match("b"));
    assert!(upto.is_match("ab"));
    assert!(upto.is_match("aab"));
    assert!(!upto.is_match("aaab"));
    let group = Regex::new("(ab){2,3}").unwrap();
    assert!(!group.is_match("ab"));
    assert!(group.is_match("abab"));
    assert!(group.is_match("ababab"));
    assert!(!group.is_match("abababab"));
    assert!(!group.is_match("aba"));
}

#[test]
fn compiling_twice_matches_the_same() {
    let patterns = ["a*b", "[a-z]+", "a{2,3}", "(a|b)*c?", "^a.c$", ""];
    let inputs = ["", "a", "b", "ab", "aab", "aaa", "abc", "hello", "aa", "c", "bac"];
    for pattern in patterns {
        let first = Regex::new(pattern).unwrap();
        let second = Regex::new(pattern).unwrap();
        for input in inputs {
            assert_eq!(first.is_match(input), second.is_match(input));
        }
    }
}

#[test]
fn one_pattern_many_inputs() {
    let regex = Regex::new("(a|b)+").unwrap();
    assert!(regex.is_match("abba"));
    assert!(!regex.is_match("abca"));
    assert!(regex.is_match("abba"));
    assert!(regex.is_match("b"));
}

#[test]
fn compile_errors() {
    assert_eq!(Regex::new(r"a*b\").err(), Some(Error::Lex(LexError::UnterminatedEscape)));
    assert_eq!(Regex::new("a*b@").err(), Some(Error::Lex(LexError::UnexpectedChar('@'))));
    assert_eq!(Regex::new("*a").err(), Some(Error::Parse(ParseError::DanglingQuantifier)));
    assert_eq!(Regex::new("a)").err(), Some(Error::Parse(ParseError::UnmatchedParen)));
    assert_eq!(Regex::new("(a").err(), Some(Error::Parse(ParseError::UnmatchedParen)));
    assert_eq!(Regex::new("[abc").err(), Some(Error::Parse(ParseError::UnterminatedBracket)));
    assert_eq!(Regex::new("a{3,1}").err(), Some(Error::Parse(ParseError::InvalidRepetitionBound)));
}

#[test]
fn lexing_fails_before_parsing() {
    assert_eq!(Regex::new("*a@").err(), Some(Error::Lex(LexError::UnexpectedChar('@'))));
    assert_eq!(Regex::new(r"(a\").err(), Some(Error::Lex(LexError::UnterminatedEscape)));
}

#[test]
fn error_messages() {
    assert_eq!(Error::Lex(LexError::UnterminatedEscape).message(), "Invalid escape sequence");
    assert_eq!(Error::Lex(LexError::UnexpectedChar('@')).message(), "Unexpected character: '@'");
    assert_eq!(Error::Parse(ParseError::UnmatchedParen).message(), "Unmatched parenthesis");
}

#[test]
fn from_tokens_compiles_given_tokens() {
    let tokens = vec![Token::Literal("a".to_string()), Token::KleeneStar, Token::Literal("b".to_string())];
    let regex = Regex::from_tokens("a*b", tokens).unwrap();
    assert!(regex.is_match("aaab"));
    assert!(!regex.is_match("aaa"));
    assert_eq!(
        Regex::from_tokens("*", vec![Token::KleeneStar]).err(),
        Some(Error::Parse(ParseError::DanglingQuantifier))
    );
}

#[test]
fn empty_pattern_matches_only_empty_input() {
    let regex = Regex::new("").unwrap();
    assert!(regex.is_match(""));
    assert!(!regex.is_match("a"));
    let group = Regex::new("()").unwrap();
    assert!(group.is_match(""));
    assert!(!group.is_match(" "));
}

#[test]
fn alternation() {
    let regex = Regex::new("a|b|cd").unwrap();
    assert!(regex.is_match("a"));
    assert!(regex.is_match("b"));
    assert!(regex.is_match("cd"));
    assert!(!regex.is_match("c"));
    assert!(!regex.is_match("ab"));
    assert!(!regex.is_match(""));
    let empty_branch = Regex::new("a|").unwrap();
    assert!(empty_branch.is_match("a"));
    assert!(empty_branch.is_match(""));
    assert!(!empty_branch.is_match("aa"));
}

#[test]
fn alternation_binds_looser_than_concatenation() {
    let regex = Regex::new("ab|cd").unwrap();
    assert!(regex.is_match("ab"));
    assert!(regex.is_match("cd"));
    assert!(!regex.is_match("abd"));
    assert!(!regex.is_match("acd"));
    let grouped = Regex::new("a(b|c)d").unwrap();
    assert!(grouped.is_match("abd"));
    assert!(grouped.is_match("acd"));
    assert!(!grouped.is_match("ab"));
}

#[test]
fn quantifier_binds_to_last_character_of_a_run() {
    let regex = Regex::new("ab+").unwrap();
    assert!(regex.is_match("ab"));
    assert!(regex.is_match("abbb"));
    assert!(!regex.is_match("abab"));
    assert!(!regex.is_match("a"));
}

#[test]
fn optional() {
    let regex = Regex::new("colou?r").unwrap();
    assert!(regex.is_match("color"));
    assert!(regex.is_match("colour"));
    assert!(!regex.is_match("colouur"));
}

#[test]
fn plus_needs_one() {
    let regex = Regex::new("(ab)+").unwrap();
    assert!(!regex.is_match(""));
    assert!(regex.is_match("ab"));
    assert!(regex.is_match("ababab"));
    assert!(!regex.is_match("aba"));
}

#[test]
fn stacked_quantifiers() {
    let regex = Regex::new("a**").unwrap();
    assert!(regex.is_match(""));
    assert!(regex.is_match("aaaa"));
    assert!(!regex.is_match("ab"));
    let regex = Regex::new("(a*)+b").unwrap();
    assert!(regex.is_match("b"));
    assert!(regex.is_match("aaab"));
    assert!(!regex.is_match("aaa"));
    let regex = Regex::new("(a?){3}").unwrap();
    assert!(regex.is_match(""));
    assert!(regex.is_match("aaa"));
    assert!(!regex.is_match("aaaa"));
}

#[test]
fn dot_matches_any_single_character() {
    let regex = Regex::new("a.c").unwrap();
    assert!(regex.is_match("abc"));
    assert!(regex.is_match("a.c"));
    assert!(regex.is_match("a\nc"));
    assert!(regex.is_match("a藏c"));
    assert!(!regex.is_match("ac"));
    assert!(!regex.is_match("abbc"));
}

#[test]
fn escapes_match_their_character() {
    let regex = Regex::new(r"\*a\.").unwrap();
    assert!(regex.is_match("*a."));
    assert!(!regex.is_match("*ab"));
    let regex = Regex::new(r"a\\b").unwrap();
    assert!(regex.is_match(r"a\b"));
    let regex = Regex::new(r"\d").unwrap();
    assert!(regex.is_match("d"));
    assert!(!regex.is_match("5"));
}

#[test]
fn character_classes() {
    let regex = Regex::new("[abcx-z]").unwrap();
    for input in ["a", "b", "c", "x", "y", "z"] {
        assert!(regex.is_match(input));
    }
    for input in ["d", "w", "", "ab", "-"] {
        assert!(!regex.is_match(input));
    }
    let negated = Regex::new("[^a-c]").unwrap();
    assert!(negated.is_match("d"));
    assert!(negated.is_match("-"));
    assert!(!negated.is_match("a"));
    assert!(!negated.is_match("c"));
    assert!(!negated.is_match(""));
    assert!(!negated.is_match("dd"));
}

#[test]
fn dash_and_bracket_inside_classes() {
    let first = Regex::new("[-a]").unwrap();
    assert!(first.is_match("-"));
    assert!(first.is_match("a"));
    let last = Regex::new("[a-]").unwrap();
    assert!(last.is_match("-"));
    assert!(last.is_match("a"));
    assert!(!last.is_match("b"));
    let after_caret = Regex::new("[^-a]").unwrap();
    assert!(!after_caret.is_match("-"));
    assert!(after_caret.is_match("b"));
    let bracket = Regex::new("[]a]").unwrap();
    assert!(bracket.is_match("]"));
    assert!(bracket.is_match("a"));
    let not_bracket = Regex::new("[^]a]").unwrap();
    assert!(!not_bracket.is_match("]"));
    assert!(not_bracket.is_match("b"));
    let operators = Regex::new("[*+?]").unwrap();
    assert!(operators.is_match("*"));
    assert!(operators.is_match("?"));
    assert!(!operators.is_match("a"));
}

#[test]
fn backslash_inside_a_class_is_a_character() {
    let regex = Regex::new(r"[a\]]").unwrap();
    assert!(regex.is_match(r"a]"));
    assert!(regex.is_match(r"\]"));
    assert!(!regex.is_match("a"));
    assert!(!regex.is_match("]"));
}

#[test]
fn anchors() {
    let regex = Regex::new("^ab$").unwrap();
    assert!(regex.is_match("ab"));
    assert!(!regex.is_match("abc"));
    let start_inside = Regex::new("a^b").unwrap();
    assert!(!start_inside.is_match("ab"));
    assert!(!start_inside.is_match("a^b"));
    let end_inside = Regex::new("a$b").unwrap();
    assert!(!end_inside.is_match("ab"));
    let only = Regex::new("^$").unwrap();
    assert!(only.is_match(""));
    assert!(!only.is_match("a"));
    let either = Regex::new("(^a|b$)").unwrap();
    assert!(either.is_match("a"));
    assert!(either.is_match("b"));
    let repeated = Regex::new("^*a$+").unwrap();
    assert!(repeated.is_match("a"));
    assert!(!repeated.is_match("aa"));
    let optional_end = Regex::new("a$?b").unwrap();
    assert!(optional_end.is_match("ab"));
}

#[test]
fn whole_string_rule() {
    let regex = Regex::new("abc").unwrap();
    assert!(regex.is_match("abc"));
    assert!(!regex.is_match("xabc"));
    assert!(!regex.is_match("abcx"));
    assert!(!regex.is_match("ab"));
}

#[test]
fn whitespace_and_unicode_text() {
    let regex = Regex::new("a b\tc").unwrap();
    assert!(regex.is_match("a b\tc"));
    assert!(!regex.is_match("a  b\tc"));
    let regex = Regex::new("é+藏").unwrap();
    assert!(regex.is_match("ééé藏"));
    assert!(!regex.is_match("e藏"));
}

#[test]
fn punctuation_outside_its_place() {
    let regex = Regex::new("a,b-c]}").unwrap();
    assert!(regex.is_match("a,b-c]}"));
    assert!(!regex.is_match("a,b-c"));
}

#[test]
fn long_input_with_many_live_states() {
    let regex = Regex::new("(a|aa|aaa)*b").unwrap();
    let mut input = "a".repeat(2000);
    assert!(!regex.is_match(&input));
    input.push('b');
    assert!(regex.is_match(&input));
}

#[test]
fn compile_and_run_a_tree() {
    let tree = Expression::Program(
        "x".to_string(),
        vec![
            Expression::Anchor(AnchorKind::Start),
            Expression::UnaryPostfix(
                PostfixKind::Plus,
                Box::new(Expression::Bracket(
                    true,
                    vec![Expression::Range('0', '9'), Expression::Literal('_')],
                )),
            ),
            Expression::Range('0', '1'),
        ],
    );
    let nfa = compile(&tree);
    assert!(nfa.run(&vec!['a', 'b', '1']));
    assert!(nfa.run(&vec!['a', '0']));
    assert!(!nfa.run(&vec!['a', '2']));
    assert!(!nfa.run(&vec!['_', '1']));
    assert!(!nfa.run(&vec!['1']));
    assert!(!nfa.run(&vec![]));
}

#[test]
fn compile_empty_concatenation_and_alternation() {
    let tree = Expression::Program(
        "".to_string(),
        vec![Expression::Alternation(
            Box::new(Expression::Concatenation(vec![])),
            Box::new(Expression::Literal('a')),
        )],
    );
    let nfa = compile(&tree);
    assert!(nfa.run(&vec![]));
    assert!(nfa.run(&vec!['a']));
    assert!(!nfa.run(&vec!['a', 'a']));
}

#[test]
fn new_automaton_accepts_the_empty_string_only() {
    let nfa = Nfa::new();
    assert_eq!(nfa.states.len(), 1);
    assert!(nfa.run(&vec![]));
    assert!(!nfa.run(&vec!['a']));
}

#[test]
fn add_state_numbers_states_in_order() {
    let mut nfa = Nfa::new();
    let first = nfa.add_state(State::Consuming(Predicate::Char('a'), 0));
    let second = nfa.add_state(State::Junction(vec![first, 0]));
    assert_eq!(first, 1);
    assert_eq!(second, 2);
    assert_eq!(nfa.states.len(), 3);
    nfa.start = second;
    assert!(nfa.run(&vec![]));
    assert!(nfa.run(&vec!['a']));
    assert!(!nfa.run(&vec!['b']));
}

#[test]
fn compile_node_builds_behind_existing_states() {
    let mut nfa = Nfa::new();
    let entry = nfa.compile_node(&Expression::Literal('x'), 0);
    assert_eq!(entry, 1);
    assert_eq!(nfa.states, vec![State::Junction(vec![]), State::Consuming(Predicate::Char('x'), 0)]);
    let entry = nfa.compile_list(&vec![], 1);
    assert_eq!(entry, 2);
    assert_eq!(nfa.states[2], State::Junction(vec![1]));
}

#[test]
fn predicates() {
    assert!(Predicate::Char('a').allows('a'));
    assert!(!Predicate::Char('a').allows('b'));
    assert!(Predicate::Range('a', 'c').allows('b'));
    assert!(Predicate::Range('a', 'c').allows('c'));
    assert!(!Predicate::Range('a', 'c').allows('d'));
    assert!(Predicate::Any.allows('\n'));
    assert!(!Predicate::AtStart.allows('a'));
    assert!(!Predicate::AtEnd.allows('a'));
    let class = Predicate::Class(false, vec![('a', 'c'), ('x', 'x')]);
    assert!(class.allows('b'));
    assert!(class.allows('x'));
    assert!(!class.allows('y'));
    let negated = Predicate::Class(true, vec![('a', 'c'), ('x', 'x')]);
    assert!(!negated.allows('b'));
    assert!(negated.allows('y'));
    assert!(Predicate::Class(true, vec![]).allows('q'));
    assert!(!Predicate::Class(false, vec![]).allows('q'));
}

#[test]
fn class_ranges_of_members() {
    let members = vec![Expression::Literal('q'), Expression::Range('a', 'f')];
    assert_eq!(class_ranges(&members), vec![('q', 'q'), ('a', 'f')]);
    assert_eq!(class_ranges(&vec![]), vec![]);
}

#[test]
fn state_set_keeps_each_state_once() {
    let mut set = StateSet::new(4);
    assert!(!set.contains(2));
    set.insert(2);
    set.insert(0);
    set.insert(2);
    assert!(set.contains(2));
    assert!(set.contains(0));
    assert!(!set.contains(1));
    assert!(!set.contains(7));
    assert_eq!(set.list, vec![2, 0]);
}

#[test]
fn node_builders() {
    assert_eq!(Expression::literal('a'), Expression::Literal('a'));
    assert_eq!(Expression::any_char(), Expression::AnyChar);
    assert_eq!(Expression::anchor(AnchorKind::End), Expression::Anchor(AnchorKind::End));
    assert_eq!(Expression::range('a', 'b'), Expression::Range('a', 'b'));
    assert_eq!(
        Expression::postfix(PostfixKind::Plus, Expression::AnyChar),
        Expression::UnaryPostfix(PostfixKind::Plus, Box::new(Expression::AnyChar))
    );
    assert_eq!(
        Expression::bounded(Expression::AnyChar, 1, None),
        Expression::Bounded(Box::new(Expression::AnyChar), 1, None)
    );
    assert_eq!(Expression::parens(Expression::AnyChar), Expression::Parens(Box::new(Expression::AnyChar)));
    assert_eq!(
        Expression::alternation(Expression::AnyChar, Expression::Literal('a')),
        Expression::Alternation(Box::new(Expression::AnyChar), Box::new(Expression::Literal('a')))
    );
    assert_eq!(Expression::concatenation(vec![]), Expression::Concatenation(vec![]));
    assert_eq!(Expression::bracket(true, vec![]), Expression::Bracket(true, vec![]));
    assert_eq!(
        Expression::program("a".to_string(), vec![Expression::Literal('a')]),
        Expression::Program("a".to_string(), vec![Expression::Literal('a')])
    );
}

#[test]
fn automaton_size_follows_the_tree() {
    let sizes = [
        ("", 2),
        ("a", 2),
        ("abc", 4),
        ("a*b", 4),
        ("a+", 3),
        ("a?", 3),
        ("a|b", 4),
        ("(a)", 2),
        ("()", 2),
        ("[a-z0-9]", 2),
        ("^a$", 4),
        ("a{2,3}", 6),
        ("a{3}", 5),
        ("a{0}", 2),
        ("a{2,}", 5),
        ("(ab){0,2}", 8),
    ];
    for (pattern, size) in sizes {
        let mut parser = Parser::new(pattern, lex(pattern).unwrap());
        assert_eq!(parser.parse(), Ok(()));
        let nfa = compile(&parser.current_node.unwrap());
        assert_eq!(nfa.states.len(), size, "pattern {}", pattern);
    }
}

#[test]
fn automaton_grows_linearly_with_the_bound() {
    let mut parser = Parser::new("a{1000}", lex("a{1000}").unwrap());
    assert_eq!(parser.parse(), Ok(()));
    let nfa = compile(&parser.current_node.unwrap());
    assert_eq!(nfa.states.len(), 1002);
    let input: Vec<char> = "a".repeat(1000).chars().collect();
    assert!(nfa.run(&input));
    assert!(!nfa.run(&input[1..].to_vec()));
}

#[test]
fn eval_matches_a_tree_against_input() {
    let tree = Expression::Program(
        "ab?".to_string(),
        vec![
            Expression::Literal('a'),
            Expression::UnaryPostfix(PostfixKind::Optional, Box::new(Expression::Literal('b'))),
        ],
    );
    assert!(tree.eval("a"));
    assert!(tree.eval("ab"));
    assert!(!tree.eval("abb"));
    assert!(!tree.eval(""));
}

#[test]
fn eval_matches_a_node_below_the_root() {
    assert!(Expression::Literal('a').eval("a"));
    assert!(!Expression::Literal('a').eval("b"));
    assert!(!Expression::Literal('a').eval(""));
    let bounded = Expression::Bounded(Box::new(Expression::Literal('a')), 2, Some(5));
    assert!(!bounded.eval("a"));
    assert!(bounded.eval("aa"));
    assert!(bounded.eval("aaa"));
    assert!(bounded.eval("aaaa"));
    assert!(bounded.eval("aaaaa"));
    assert!(!bounded.eval("aaaaaa"));
    let class = Expression::Bracket(false, vec![Expression::Range('a', 'c')]);
    assert!(class.eval("b"));
    assert!(!class.eval("d"));
    assert!(Expression::Concatenation(vec![]).eval(""));
}

#[test]
fn compile_a_node_below_the_root() {
    let node = Expression::Alternation(
        Box::new(Expression::Literal('a')),
        Box::new(Expression::UnaryPostfix(PostfixKind::Star, Box::new(Expression::Literal('b')))),
    );
    let nfa = compile(&node);
    assert_eq!(nfa.states.len(), 5);
    assert!(nfa.run(&vec!['a']));
    assert!(nfa.run(&vec![]));
    assert!(nfa.run(&vec!['b', 'b']));
    assert!(!nfa.run(&vec!['a', 'b']));
}
