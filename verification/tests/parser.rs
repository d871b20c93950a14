use regexp::ast::{AnchorKind, Expression, PostfixKind};
use regexp::grammar::ParseError;
use regexp::lexer::{lex, Token};
use regexp::parser::{class_members_of, parse, parse_bound, parse_number, scan_class, Parser};
use regexp::Regex;

#[test]
fn parser_regex_parse_unary_postfix() {
    let mut input = "a*b";
    let kleene_star_tokens = lex(input).unwrap();
    let mut kleene_star_parser = Parser::new(input, kleene_star_tokens);
    assert!(kleene_star_parser.parse().is_ok());
    if let Some(Expression::Program(raw, children)) = kleene_star_parser.current_node {
        assert_eq!(raw, "a*b");
        assert_eq!(children.len(), 2);
        if let Some(child) = children.first() {
            assert!(matches!(child, Expression::UnaryPostfix(PostfixKind::Star, _)));
        }
    } else {
        panic!("Expected a non-empty AST");
    }

    input = "a+b";
    let kleene_plus_tokens = lex(input).unwrap();
    let mut kleene_plus_parser = Parser::new(input, kleene_plus_tokens);
    assert!(kleene_plus_parser.parse().is_ok());
    if let Some(Expression::Program(raw, children)) = kleene_plus_parser.current_node {
        assert_eq!(raw, "a+b");
        assert_eq!(children.len(), 2);
        if let Some(child) = children.first() {
            assert!(matches!(child, Expression::UnaryPostfix(PostfixKind::Plus, _)));
        }
    } else {
        panic!("Expected a non-empty AST");
    }

    input = "a?b";
    let question_tokens = lex(input).unwrap();
    let mut question_parser = Parser::new(input, question_tokens);
    assert!(question_parser.parse().is_ok());
    if let Some(Expression::Program(raw, children)) = question_parser.current_node {
        assert_eq!(raw, "a?b");
        assert_eq!(children.len(), 2);
        if let Some(child) = children.first() {
            assert!(matches!(child, Expression::UnaryPostfix(PostfixKind::Optional, _)));
        }
    } else {
        panic!("Expected a non-empty AST");
    }
}

#[test]
fn lib_regex_parse_unary_postfix() {
    let mut input = "a*b";
    let kleene_star_tokens = Regex::lex(input).unwrap();
    let mut kleene_star_parser = Parser::new(input, kleene_star_tokens);
    assert!(kleene_star_parser.parse().is_ok());
    if let Some(Expression::Program(raw, children)) = kleene_star_parser.current_node {
        assert_eq!(raw, "a*b");
        assert_eq!(children.len(), 2);
        if let Some(child) = children.first() {
            assert!(matches!(child, Expression::UnaryPostfix(PostfixKind::Star, _)));
        }
    } else {
        panic!("Expected a non-empty AST");
    }

    input = "a+b";
    let kleene_plus_tokens = Regex::lex(input).unwrap();
    let mut kleene_plus_parser = Parser::new(input, kleene_plus_tokens);
    assert!(kleene_plus_parser.parse().is_ok());
    if let Some(Expression::Program(raw, children)) = kleene_plus_parser.current_node {
        assert_eq!(raw, "a+b");
        assert_eq!(children.len(), 2);
        if let Some(child) = children.first() {
            assert!(matches!(child, Expression::UnaryPostfix(PostfixKind::Plus, _)));
        }
    } else {
        panic!("Expected a non-empty AST");
    }

    input = "a?b";
    let question_tokens = Regex::lex(input).unwrap();
    let mut question_parser = Parser::new(input, question_tokens);
    assert!(question_parser.parse().is_ok());
    if let Some(Expression::Program(raw, children)) = question_parser.current_node {
        assert_eq!(raw, "a?b");
        assert_eq!(children.len(), 2);
        if let Some(child) = children.first() {
            assert!(matches!(child, Expression::UnaryPostfix(PostfixKind::Optional, _)));
        }
    } else {
        panic!("Expected a non-empty AST");
    }
}

#[test]
fn parse_boundary_errors() {
    let mut unmatched = Parser::new("a)", lex("a)").unwrap());
    assert_eq!(unmatched.parse(), Err(ParseError::UnmatchedParen));
    assert_eq!(unmatched.current_node, None);
    let mut bracket = Parser::new("[abc", lex("[abc").unwrap());
    assert_eq!(bracket.parse(), Err(ParseError::UnterminatedBracket));
    let mut bound = Parser::new("a{3,1}", lex("a{3,1}").unwrap());
    assert_eq!(bound.parse(), Err(ParseError::InvalidRepetitionBound));
}

#[test]
fn parse_gives_the_tree_or_the_error() {
    assert_eq!(
        parse("a?", lex("a?").unwrap()),
        Ok(Expression::Program(
            "a?".to_string(),
            vec![Expression::UnaryPostfix(PostfixKind::Optional, Box::new(Expression::Literal('a')))]
        ))
    );
    assert_eq!(parse("a)", lex("a)").unwrap()), Err(ParseError::UnmatchedParen));
    assert_eq!(parse("[abc", lex("[abc").unwrap()), Err(ParseError::UnterminatedBracket));
    assert_eq!(parse("a{3,1}", lex("a{3,1}").unwrap()), Err(ParseError::InvalidRepetitionBound));
    assert_eq!(parse("?", lex("?").unwrap()), Err(ParseError::DanglingQuantifier));
}

#[test]
fn parse_reads_every_token() {
    let patterns = ["", "a", "a*b", "(a|b)c", "a|b|c", "[a-z]+x{2,3}", "a**", "^a$", r"\(a\)"];
    for pattern in patterns {
        let tokens = lex(pattern).unwrap();
        let count = tokens.len();
        let mut parser = Parser::new(pattern, tokens);
        assert_eq!(parser.parse(), Ok(()));
        assert_eq!(parser.current_token_idx, count);
    }
}

#[test]
fn parse_leftover_tokens_are_an_error() {
    let patterns = ["a)", ")", "a)b", "(a))", "a|b)", "a|)"];
    for pattern in patterns {
        let mut parser = Parser::new(pattern, lex(pattern).unwrap());
        assert_eq!(parser.parse(), Err(ParseError::UnmatchedParen));
    }
}

#[test]
fn parse_error_kinds() {
    let cases = [
        ("*a", ParseError::DanglingQuantifier),
        ("+", ParseError::DanglingQuantifier),
        ("a|?", ParseError::DanglingQuantifier),
        ("(*a)", ParseError::DanglingQuantifier),
        ("{2}", ParseError::DanglingQuantifier),
        ("(a", ParseError::UnmatchedParen),
        ("((a)", ParseError::UnmatchedParen),
        ("(a|b", ParseError::UnmatchedParen),
        ("[", ParseError::UnterminatedBracket),
        ("[]", ParseError::UnterminatedBracket),
        ("[^]", ParseError::UnterminatedBracket),
        ("[^", ParseError::UnterminatedBracket),
        ("a{", ParseError::InvalidRepetitionBound),
        ("a{2", ParseError::InvalidRepetitionBound),
        ("a{}", ParseError::InvalidRepetitionBound),
        ("a{,3}", ParseError::InvalidRepetitionBound),
        ("a{x}", ParseError::InvalidRepetitionBound),
        ("a{1a}", ParseError::InvalidRepetitionBound),
        ("a{2 }", ParseError::InvalidRepetitionBound),
        ("a{2,3", ParseError::InvalidRepetitionBound),
        ("a{2,3,}", ParseError::InvalidRepetitionBound),
        ("a{3,1}", ParseError::InvalidRepetitionBound),
        ("a{4294967296}", ParseError::InvalidRepetitionBound),
        ("a{99999999999999999999999}", ParseError::InvalidRepetitionBound),
    ];
    for (pattern, error) in cases {
        let mut parser = Parser::new(pattern, lex(pattern).unwrap());
        assert_eq!(parser.parse(), Err(error), "pattern {}", pattern);
    }
}

#[test]
fn parse_first_error_wins() {
    let mut parser = Parser::new("*a)", lex("*a)").unwrap());
    assert_eq!(parser.parse(), Err(ParseError::DanglingQuantifier));
    let mut parser = Parser::new("(a{x}", lex("(a{x}").unwrap());
    assert_eq!(parser.parse(), Err(ParseError::InvalidRepetitionBound));
    let mut parser = Parser::new("[a{", lex("[a{").unwrap());
    assert_eq!(parser.parse(), Err(ParseError::UnterminatedBracket));
}

#[test]
fn parse_quantifier_binds_to_last_character() {
    let mut parser = Parser::new("ab*", lex("ab*").unwrap());
    assert_eq!(parser.parse(), Ok(()));
    assert_eq!(
        parser.current_node,
        Some(Expression::Program(
            "ab*".to_string(),
            vec![
                Expression::Literal('a'),
                Expression::UnaryPostfix(PostfixKind::Star, Box::new(Expression::Literal('b'))),
            ]
        ))
    );
}

#[test]
fn parse_precedence_of_alternation_and_concatenation() {
    let mut parser = Parser::new("a|bc+", lex("a|bc+").unwrap());
    assert_eq!(parser.parse(), Ok(()));
    assert_eq!(
        parser.current_node,
        Some(Expression::Program(
            "a|bc+".to_string(),
            vec![Expression::Alternation(
                Box::new(Expression::Literal('a')),
                Box::new(Expression::Concatenation(vec![
                    Expression::Literal('b'),
                    Expression::UnaryPostfix(PostfixKind::Plus, Box::new(Expression::Literal('c'))),
                ])),
            )]
        ))
    );
}

#[test]
fn parse_alternation_nests_to_the_right() {
    let mut parser = Parser::new("a|b|", lex("a|b|").unwrap());
    assert_eq!(parser.parse(), Ok(()));
    assert_eq!(
        parser.current_node,
        Some(Expression::Program(
            "a|b|".to_string(),
            vec![Expression::Alternation(
                Box::new(Expression::Literal('a')),
                Box::new(Expression::Alternation(
                    Box::new(Expression::Literal('b')),
                    Box::new(Expression::Concatenation(vec![])),
                )),
            )]
        ))
    );
}

#[test]
fn parse_groups_anchors_and_dot() {
    let mut parser = Parser::new("^(a.)$", lex("^(a.)$").unwrap());
    assert_eq!(parser.parse(), Ok(()));
    assert_eq!(
        parser.current_node,
        Some(Expression::Program(
            "^(a.)$".to_string(),
            vec![
                Expression::Anchor(AnchorKind::Start),
                Expression::Parens(Box::new(Expression::Concatenation(vec![
                    Expression::Literal('a'),
                    Expression::AnyChar,
                ]))),
                Expression::Anchor(AnchorKind::End),
            ]
        ))
    );
}

#[test]
fn parse_stacked_quantifiers_nest() {
    let mut parser = Parser::new("a*?", lex("a*?").unwrap());
    assert_eq!(parser.parse(), Ok(()));
    assert_eq!(
        parser.current_node,
        Some(Expression::Program(
            "a*?".to_string(),
            vec![Expression::UnaryPostfix(
                PostfixKind::Optional,
                Box::new(Expression::UnaryPostfix(
                    PostfixKind::Star,
                    Box::new(Expression::Literal('a'))
                )),
            )]
        ))
    );
}

#[test]
fn parse_bounded_repetitions() {
    let cases = [
        ("a{2,3}", 2, Some(3)),
        ("a{2}", 2, Some(2)),
        ("a{2,}", 2, None),
        ("a{0}", 0, Some(0)),
        ("a{007,10}", 7, Some(10)),
        ("a{4294967295}", 4294967295, Some(4294967295)),
    ];
    for (pattern, min, max) in cases {
        let mut parser = Parser::new(pattern, lex(pattern).unwrap());
        assert_eq!(parser.parse(), Ok(()));
        assert_eq!(
            parser.current_node,
            Some(Expression::Program(
                pattern.to_string(),
                vec![Expression::Bounded(Box::new(Expression::Literal('a')), min, max)]
            ))
        );
    }
}

#[test]
fn parse_character_classes() {
    let cases: [(&str, bool, Vec<Expression>); 9] = [
        ("[abc]", false, vec![Expression::Literal('a'), Expression::Literal('b'), Expression::Literal('c')]),
        ("[a-cx]", false, vec![Expression::Range('a', 'c'), Expression::Literal('x')]),
        ("[^a-c]", true, vec![Expression::Range('a', 'c')]),
        ("[-a]", false, vec![Expression::Literal('-'), Expression::Literal('a')]),
        ("[a-]", false, vec![Expression::Literal('a'), Expression::Literal('-')]),
        ("[^-a]", true, vec![Expression::Literal('-'), Expression::Literal('a')]),
        ("[]a]", false, vec![Expression::Literal(']'), Expression::Literal('a')]),
        ("[^]a]", true, vec![Expression::Literal(']'), Expression::Literal('a')]),
        ("[*.^(]", false, vec![
            Expression::Literal('*'),
            Expression::Literal('.'),
            Expression::Literal('^'),
            Expression::Literal('('),
        ]),
    ];
    for (pattern, negated, members) in cases {
        let mut parser = Parser::new(pattern, lex(pattern).unwrap());
        assert_eq!(parser.parse(), Ok(()));
        assert_eq!(
            parser.current_node,
            Some(Expression::Program(pattern.to_string(), vec![Expression::Bracket(negated, members)]))
        );
    }
}

#[test]
fn parse_class_keeps_backslash_as_a_character() {
    let mut parser = Parser::new(r"[a\b]", lex(r"[a\b]").unwrap());
    assert_eq!(parser.parse(), Ok(()));
    assert_eq!(
        parser.current_node,
        Some(Expression::Program(
            r"[a\b]".to_string(),
            vec![Expression::Bracket(
                false,
                vec![Expression::Literal('a'), Expression::Literal('\\'), Expression::Literal('b')]
            )]
        ))
    );
    let mut parser = Parser::new(r"[a\]", lex(r"[a\]").unwrap());
    assert_eq!(parser.parse(), Ok(()));
    assert_eq!(
        parser.current_node,
        Some(Expression::Program(
            r"[a\]".to_string(),
            vec![Expression::Bracket(false, vec![Expression::Literal('a'), Expression::Literal('\\')])]
        ))
    );
}

#[test]
fn parse_range_out_of_order_is_three_characters() {
    let mut parser = Parser::new("[z-a]", lex("[z-a]").unwrap());
    assert_eq!(parser.parse(), Ok(()));
    assert_eq!(
        parser.current_node,
        Some(Expression::Program(
            "[z-a]".to_string(),
            vec![Expression::Bracket(
                false,
                vec![Expression::Literal('z'), Expression::Literal('-'), Expression::Literal('a')]
            )]
        ))
    );
}

#[test]
fn parse_punctuation_outside_its_place_is_literal() {
    let mut parser = Parser::new("a,-]}", lex("a,-]}").unwrap());
    assert_eq!(parser.parse(), Ok(()));
    assert_eq!(
        parser.current_node,
        Some(Expression::Program(
            "a,-]}".to_string(),
            vec![
                Expression::Literal('a'),
                Expression::Literal(','),
                Expression::Literal('-'),
                Expression::Literal(']'),
                Expression::Literal('}'),
            ]
        ))
    );
}

#[test]
fn parse_escape_is_a_literal() {
    let mut parser = Parser::new(r"\*\d", lex(r"\*\d").unwrap());
    assert_eq!(parser.parse(), Ok(()));
    assert_eq!(
        parser.current_node,
        Some(Expression::Program(
            r"\*\d".to_string(),
            vec![Expression::Literal('*'), Expression::Literal('d')]
        ))
    );
}

#[test]
fn parse_empty_pattern() {
    let mut parser = Parser::new("", vec![]);
    assert_eq!(parser.parse(), Ok(()));
    assert_eq!(parser.current_node, Some(Expression::Program("".to_string(), vec![])));
}

#[test]
fn parse_tokens_that_no_pattern_text_gives() {
    let tokens = vec![Token::Literal("".to_string()), Token::Literal("ab".to_string()), Token::KleeneStar];
    let mut parser = Parser::new("ab*", tokens);
    assert_eq!(parser.parse(), Ok(()));
    assert_eq!(
        parser.current_node,
        Some(Expression::Program(
            "ab*".to_string(),
            vec![
                Expression::Literal('a'),
                Expression::UnaryPostfix(PostfixKind::Star, Box::new(Expression::Literal('b'))),
            ]
        ))
    );
    let mut parser = Parser::new("*", vec![Token::Literal("".to_string()), Token::KleeneStar]);
    assert_eq!(parser.parse(), Err(ParseError::DanglingQuantifier));
}

#[test]
fn parse_twice_gives_the_same_tree() {
    let mut parser = Parser::new("(a|b)*c", lex("(a|b)*c").unwrap());
    assert_eq!(parser.parse(), Ok(()));
    let first = parser.current_node.take();
    assert_eq!(parser.parse(), Ok(()));
    assert_eq!(parser.current_node, first);
}

#[test]
fn parse_number_reads_decimal_digits() {
    assert_eq!(parse_number("0"), Some(0));
    assert_eq!(parse_number("42"), Some(42));
    assert_eq!(parse_number("0042"), Some(42));
    assert_eq!(parse_number("4294967295"), Some(4294967295));
    assert_eq!(parse_number("4294967296"), None);
    assert_eq!(parse_number(""), None);
    assert_eq!(parse_number("4a"), None);
    assert_eq!(parse_number(" 4"), None);
    assert_eq!(parse_number("٣"), None);
}

#[test]
fn parse_bound_gives_bounds_and_next_place() {
    let tokens = lex("a{2,3}b").unwrap();
    assert_eq!(parse_bound(&tokens, 2), Ok((2, Some(3), 6)));
    let tokens = lex("a{5}").unwrap();
    assert_eq!(parse_bound(&tokens, 2), Ok((5, Some(5), 4)));
    let tokens = lex("a{5,}").unwrap();
    assert_eq!(parse_bound(&tokens, 2), Ok((5, None, 5)));
    assert_eq!(parse_bound(&tokens, 5), Err(ParseError::InvalidRepetitionBound));
}

#[test]
fn scan_class_gives_characters_and_next_place() {
    let tokens = lex("[ab-d]x").unwrap();
    assert_eq!(scan_class(&tokens, 1), Some((vec!['a', 'b', '-', 'd'], 5)));
    assert_eq!(scan_class(&tokens, 6), None);
    let tokens = lex("[]]").unwrap();
    assert_eq!(scan_class(&tokens, 1), Some((vec![']'], 3)));
}

#[test]
fn class_members_of_pairs_ranges() {
    assert_eq!(
        class_members_of(&vec!['a', '-', 'c', '-', 'e']),
        vec![Expression::Range('a', 'c'), Expression::Literal('-'), Expression::Literal('e')]
    );
    assert_eq!(class_members_of(&vec!['-']), vec![Expression::Literal('-')]);
    assert_eq!(class_members_of(&vec!['+', '-', '-']), vec![Expression::Range('+', '-')]);
    assert_eq!(class_members_of(&vec![]), vec![]);
}

#[test]
fn parse_error_messages() {
    assert_eq!(ParseError::DanglingQuantifier.message(), "Quantifier without an operand");
    assert_eq!(ParseError::UnmatchedParen.message(), "Unmatched parenthesis");
    assert_eq!(ParseError::UnterminatedBracket.message(), "Unterminated character class");
    assert_eq!(ParseError::InvalidRepetitionBound.message(), "Invalid repetition bound");
}

#[test]
fn parse_failure_leaves_the_parser_at_the_failing_token() {
    let cases = [
        ("*a", ParseError::DanglingQuantifier, 0),
        ("a|b|*", ParseError::DanglingQuantifier, 4),
        ("a{x}", ParseError::InvalidRepetitionBound, 1),
        ("ab{3,1}c", ParseError::InvalidRepetitionBound, 1),
        ("a[bc", ParseError::UnterminatedBracket, 1),
        ("a*b)", ParseError::UnmatchedParen, 3),
        ("a|b)c", ParseError::UnmatchedParen, 3),
        ("(a", ParseError::UnmatchedParen, 0),
        ("ab(c*|*d)e", ParseError::DanglingQuantifier, 1),
        ("a(b(c{})d)e", ParseError::InvalidRepetitionBound, 1),
    ];
    for (pattern, error, place) in cases {
        let mut parser = Parser::new(pattern, lex(pattern).unwrap());
        assert_eq!(parser.parse(), Err(error), "pattern {}", pattern);
        assert_eq!(parser.current_token_idx, place, "pattern {}", pattern);
        assert_eq!(parser.current_node, None);
        assert_eq!(parser.tokens, lex(pattern).unwrap());
    }
}
