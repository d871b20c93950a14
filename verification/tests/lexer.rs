use regexp::lexer::{lex, scan, LexError, Token};
use regexp::Regex;

#[test]
fn test_token_is_binary_operator() {
    assert!(Token::VBar.is_binary_operator());
    assert!(Token::Comma.is_binary_operator());
    assert!(Token::Dash.is_binary_operator());
    assert!(!Token::Literal("a".to_string()).is_binary_operator());
}

#[test]
fn test_token_is_unary_postfix() {
    assert!(Token::KleeneStar.is_unary_postfix());
    assert!(Token::KleenePlus.is_unary_postfix());
    assert!(Token::Question.is_unary_postfix());
    assert!(!Token::Literal("a".to_string()).is_unary_postfix());
}

#[test]
fn test_token_is_unary_prefix() {
    assert!(Token::Caret.is_unary_prefix());
    assert!(!Token::Literal("a".to_string()).is_unary_prefix());
}

#[test]
fn lexer_regex_lex() {
    let tokens = lex("a*b").unwrap();
    assert_eq!(tokens.len(), 3);
    assert!(matches!(tokens[0], Token::Literal(ref s) if s == "a"));
    assert!(matches!(tokens[1], Token::KleeneStar));
    assert!(matches!(tokens[2], Token::Literal(ref s) if s == "b"));
}

#[test]
fn lexer_regex_lex_everything() {
    let tokens = lex("a*b+c?d|e(f|g)[h-i]{2,3},j.k^l$m").unwrap();
    assert_eq!(tokens.len(), 32);
    assert!(matches!(tokens[0], Token::Literal(ref s) if s == "a"));
    assert!(matches!(tokens[1], Token::KleeneStar));
    assert!(matches!(tokens[2], Token::Literal(ref s) if s == "b"));
    assert!(matches!(tokens[3], Token::KleenePlus));
    assert!(matches!(tokens[4], Token::Literal(ref s) if s == "c"));
    assert!(matches!(tokens[5], Token::Question));
    assert!(matches!(tokens[6], Token::Literal(ref s) if s == "d"));
    assert!(matches!(tokens[7], Token::VBar));
    assert!(matches!(tokens[8], Token::Literal(ref s) if s == "e"));
    assert!(matches!(tokens[9], Token::LParen));
    assert!(matches!(tokens[10], Token::Literal(ref s) if s == "f"));
    assert!(matches!(tokens[11], Token::VBar));
    assert!(matches!(tokens[12], Token::Literal(ref s) if s == "g"));
    assert!(matches!(tokens[13], Token::RParen));
    assert!(matches!(tokens[14], Token::LBracket));
    assert!(matches!(tokens[15], Token::Literal(ref s) if s == "h"));
    assert!(matches!(tokens[16], Token::Dash));
    assert!(matches!(tokens[17], Token::Literal(ref s) if s == "i"));
    assert!(matches!(tokens[18], Token::RBracket));
    assert!(matches!(tokens[19], Token::LBrace));
    assert!(matches!(tokens[20], Token::Literal(ref s) if s == "2"));
    assert!(matches!(tokens[21], Token::Comma));
    assert!(matches!(tokens[22], Token::Literal(ref s) if s == "3"));
    assert!(matches!(tokens[23], Token::RBrace));
    assert!(matches!(tokens[24], Token::Comma));
    assert!(matches!(tokens[25], Token::Literal(ref s) if s == "j"));
    assert!(matches!(tokens[26], Token::Dot));
    assert!(matches!(tokens[27], Token::Literal(ref s) if s == "k"));
    assert!(matches!(tokens[28], Token::Caret));
    assert!(matches!(tokens[29], Token::Literal(ref s) if s == "l"));
    assert!(matches!(tokens[30], Token::Dollar));
    assert!(matches!(tokens[31], Token::Literal(ref s) if s == "m"));
}

#[test]
fn lexer_regex_lex_invalid() {
    let result = lex(r"a*b\");
    assert!(result.is_err());
    assert_eq!(result.unwrap_err().message(), "Invalid escape sequence");
}

#[test]
fn lexer_regex_lex_unsupported_character() {
    // '@' should be escaped
    let result = lex("a*b@");
    assert!(result.is_err());
    assert_eq!(result.unwrap_err().message(), "Unexpected character: '@'");
}

#[test]
fn lib_regex_lex() {
    let tokens = Regex::lex("a*b").unwrap();
    assert_eq!(tokens.len(), 3);
    assert!(matches!(tokens[0], Token::Literal(ref s) if s == "a"));
    assert!(matches!(tokens[1], Token::KleeneStar));
    assert!(matches!(tokens[2], Token::Literal(ref s) if s == "b"));
}

#[test]
fn lib_regex_lex_everything() {
    let tokens = Regex::lex("a*b+c?d|e(f|g)[h-i]{2,3},j.k^l$m").unwrap();
    assert_eq!(tokens.len(), 32);
    assert!(matches!(tokens[0], Token::Literal(ref s) if s == "a"));
    assert!(matches!(tokens[1], Token::KleeneStar));
    assert!(matches!(tokens[2], Token::Literal(ref s) if s == "b"));
    assert!(matches!(tokens[3], Token::KleenePlus));
    assert!(matches!(tokens[4], Token::Literal(ref s) if s == "c"));
    assert!(matches!(tokens[5], Token::Question));
    assert!(matches!(tokens[6], Token::Literal(ref s) if s == "d"));
    assert!(matches!(tokens[7], Token::VBar));
    assert!(matches!(tokens[8], Token::Literal(ref s) if s == "e"));
    assert!(matches!(tokens[9], Token::LParen));
    assert!(matches!(tokens[10], Token::Literal(ref s) if s == "f"));
    assert!(matches!(tokens[11], Token::VBar));
    assert!(matches!(tokens[12], Token::Literal(ref s) if s == "g"));
    assert!(matches!(tokens[13], Token::RParen));
    assert!(matches!(tokens[14], Token::LBracket));
    assert!(matches!(tokens[15], Token::Literal(ref s) if s == "h"));
    assert!(matches!(tokens[16], Token::Dash));
    assert!(matches!(tokens[17], Token::Literal(ref s) if s == "i"));
    assert!(matches!(tokens[18], Token::RBracket));
    assert!(matches!(tokens[19], Token::LBrace));
    assert!(matches!(tokens[20], Token::Literal(ref s) if s == "2"));
    assert!(matches!(tokens[21], Token::Comma));
    assert!(matches!(tokens[22], Token::Literal(ref s) if s == "3"));
    assert!(matches!(tokens[23], Token::RBrace));
    assert!(matches!(tokens[24], Token::Comma));
    assert!(matches!(tokens[25], Token::Literal(ref s) if s == "j"));
    assert!(matches!(tokens[26], Token::Dot));
    assert!(matches!(tokens[27], Token::Literal(ref s) if s == "k"));
    assert!(matches!(tokens[28], Token::Caret));
    assert!(matches!(tokens[29], Token::Literal(ref s) if s == "l"));
    assert!(matches!(tokens[30], Token::Dollar));
    assert!(matches!(tokens[31], Token::Literal(ref s) if s == "m"));
}

#[test]
fn lib_regex_lex_invalid() {
    let result = Regex::lex(r"a*b\");
    assert!(result.is_err());
    assert_eq!(result.unwrap_err().message(), "Invalid escape sequence");
}

#[test]
fn lib_regex_lex_unsupported_character() {
    // '@' should be escaped
    let result = Regex::lex("a*b@");
    assert!(result.is_err());
    assert_eq!(result.unwrap_err().message(), "Unexpected character: '@'");
}

#[test]
fn lex_reports_error_kinds() {
    assert_eq!(lex(r"a*b\"), Err(LexError::UnterminatedEscape));
    assert_eq!(lex("a*b@"), Err(LexError::UnexpectedChar('@')));
    assert_eq!(lex("#a"), Err(LexError::UnexpectedChar('#')));
    assert_eq!(lex(r"\"), Err(LexError::UnterminatedEscape));
}

#[test]
fn lex_first_error_wins() {
    assert_eq!(lex(r"a@\"), Err(LexError::UnexpectedChar('@')));
    assert_eq!(lex(r"a\@!\"), Err(LexError::UnexpectedChar('!')));
}

#[test]
fn lex_empty_pattern_has_no_tokens() {
    assert_eq!(lex(""), Ok(vec![]));
}

#[test]
fn lex_merges_runs_of_text() {
    assert_eq!(lex("abc 12\tz"), Ok(vec![Token::Literal("abc 12\tz".to_string())]));
    assert_eq!(
        lex("ab*cd"),
        Ok(vec![
            Token::Literal("ab".to_string()),
            Token::KleeneStar,
            Token::Literal("cd".to_string()),
        ])
    );
}

#[test]
fn lex_text_is_unicode_aware() {
    assert_eq!(lex("é٣藏"), Ok(vec![Token::Literal("é٣藏".to_string())]));
    assert_eq!(lex("a\u{00a0}b"), Ok(vec![Token::Literal("a\u{00a0}b".to_string())]));
    assert_eq!(lex("a\u{2603}"), Err(LexError::UnexpectedChar('\u{2603}')));
}

#[test]
fn lex_escape_takes_exactly_one_character() {
    assert_eq!(
        lex(r"\*ab\\"),
        Ok(vec![Token::Backslash('*'), Token::Literal("ab".to_string()), Token::Backslash('\\')])
    );
    assert_eq!(lex(r"\@"), Ok(vec![Token::Backslash('@')]));
    assert_eq!(lex(r"\ab"), Ok(vec![Token::Backslash('a'), Token::Literal("b".to_string())]));
}

#[test]
fn scan_goes_by_the_flags_it_is_given() {
    let chars = vec!['a', 'b', '*', 'c'];
    assert_eq!(
        scan(&chars, &vec![true, true, true, true]),
        Ok(vec![Token::Literal("ab".to_string()), Token::KleeneStar, Token::Literal("c".to_string())])
    );
    assert_eq!(scan(&chars, &vec![true, false, true, true]), Err(LexError::UnexpectedChar('b')));
    assert_eq!(scan(&chars, &vec![true]), Err(LexError::UnexpectedChar('b')));
    assert_eq!(scan(&vec!['@'], &vec![true]), Ok(vec![Token::Literal("@".to_string())]));
}

#[test]
fn lex_error_messages() {
    assert_eq!(LexError::UnterminatedEscape.message(), "Invalid escape sequence");
    assert_eq!(LexError::UnexpectedChar('%').message(), "Unexpected character: '%'");
    assert_eq!(LexError::UnexpectedChar('\'').message(), "Unexpected character: '''");
}
