//! Scanner tests: the eager `scan` and the lazy `Scanner`.
//!
//! Number literals carry the decimal text of the literal: the value the
//! book's test corpus writes as `123.0` is `Literal::Number("123")` here.

use rlox::scanner::ScanEvent;
use rlox::{scan, Literal, LoxError, Scanner, Token, TokenType};

fn types(tokens: &[Token]) -> Vec<TokenType> {
    tokens.iter().map(|t| t.ttype).collect()
}

fn num(text: &str) -> Option<Literal> {
    Some(Literal::Number(text.to_string()))
}

fn drain(mut s: Scanner) -> Vec<ScanEvent> {
    let mut out = Vec::new();
    while let Some(ev) = s.next() {
        out.push(ev);
    }
    out
}

#[test]
fn scanner_empty_source_yields_only_eof() {
    let (tokens, errors) = scan("");
    assert!(errors.is_empty());
    assert_eq!(tokens.len(), 1);
    assert_eq!(tokens[0].ttype, TokenType::Eof);
    assert_eq!(tokens[0].line, 1);
    assert_eq!(tokens[0].lexeme, "");
    assert_eq!(tokens[0].literal, None);
}

#[test]
fn scanner_scans_single_char_punctuators() {
    let (tokens, errors) = scan("(){},.-+;*");
    assert!(errors.is_empty());
    assert_eq!(
        types(&tokens),
        vec![
            TokenType::LeftParen,
            TokenType::RightParen,
            TokenType::LeftBrace,
            TokenType::RightBrace,
            TokenType::Comma,
            TokenType::Dot,
            TokenType::Minus,
            TokenType::Plus,
            TokenType::Semicolon,
            TokenType::Star,
            TokenType::Eof,
        ]
    );
}

#[test]
fn scanner_scans_one_and_two_char_operators() {
    let (tokens, errors) = scan("! != = == < <= > >=");
    assert!(errors.is_empty());
    assert_eq!(
        types(&tokens),
        vec![
            TokenType::Bang,
            TokenType::BangEqual,
            TokenType::Equal,
            TokenType::EqualEqual,
            TokenType::Less,
            TokenType::LessEqual,
            TokenType::Greater,
            TokenType::GreaterEqual,
            TokenType::Eof,
        ]
    );
}

#[test]
fn scanner_slash_is_a_token_and_double_slash_starts_line_comment() {
    let (tokens, errors) = scan("/ // a comment\n+");
    assert!(errors.is_empty());
    assert_eq!(types(&tokens), vec![TokenType::Slash, TokenType::Plus, TokenType::Eof]);
    assert_eq!(tokens[1].line, 2, "+ is on line 2 after the comment");
}

#[test]
fn scanner_skips_whitespace_and_tracks_lines() {
    let (tokens, errors) = scan("\n\n  \tand\n");
    assert!(errors.is_empty());
    assert_eq!(types(&tokens), vec![TokenType::And, TokenType::Eof]);
    assert_eq!(tokens[0].line, 3);
    assert_eq!(tokens[1].line, 4);
}

#[test]
fn scanner_scans_string_literal() {
    let (tokens, errors) = scan(r#""hi""#);
    assert!(errors.is_empty());
    assert_eq!(types(&tokens), vec![TokenType::String, TokenType::Eof]);
    assert_eq!(tokens[0].lexeme, "\"hi\"");
    assert_eq!(tokens[0].literal, Some(Literal::String("hi".into())));
}

#[test]
fn scanner_multiline_string_literal_advances_line_counter() {
    let (tokens, errors) = scan("\"a\nb\"\n+");
    assert!(errors.is_empty());
    assert_eq!(types(&tokens), vec![TokenType::String, TokenType::Plus, TokenType::Eof]);
    assert_eq!(tokens[0].line, 2);
    assert_eq!(tokens[0].literal, Some(Literal::String("a\nb".into())));
    assert_eq!(tokens[1].line, 3);
}

#[test]
fn scanner_unterminated_string_records_scan_error() {
    let (tokens, errors) = scan("\"abc");
    assert_eq!(errors.len(), 1);
    let LoxError::Scan { line, message } = &errors[0] else {
        panic!("expected Scan error, got {:?}", errors[0]);
    };
    assert_eq!(*line, 1);
    assert_eq!(message, "Unterminated string.");
    assert_eq!(types(&tokens), vec![TokenType::Eof]);
}

#[test]
fn scanner_scans_integer_number_literal() {
    let (tokens, errors) = scan("123");
    assert!(errors.is_empty());
    assert_eq!(types(&tokens), vec![TokenType::Number, TokenType::Eof]);
    assert_eq!(tokens[0].lexeme, "123");
    assert_eq!(tokens[0].literal, num("123"));
}

#[test]
fn scanner_scans_decimal_number_literal() {
    let (tokens, errors) = scan("123.456");
    assert!(errors.is_empty());
    assert_eq!(types(&tokens), vec![TokenType::Number, TokenType::Eof]);
    assert_eq!(tokens[0].lexeme, "123.456");
    assert_eq!(tokens[0].literal, num("123.456"));
}

#[test]
fn scanner_trailing_dot_does_not_join_into_number() {
    let (tokens, errors) = scan("123.");
    assert!(errors.is_empty());
    assert_eq!(types(&tokens), vec![TokenType::Number, TokenType::Dot, TokenType::Eof]);
    assert_eq!(tokens[0].literal, num("123"));
}

#[test]
fn scanner_leading_dot_does_not_join_into_number() {
    let (tokens, errors) = scan(".456");
    assert!(errors.is_empty());
    assert_eq!(types(&tokens), vec![TokenType::Dot, TokenType::Number, TokenType::Eof]);
    assert_eq!(tokens[1].literal, num("456"));
}

#[test]
fn scanner_scans_identifiers_and_distinguishes_keywords() {
    let (tokens, errors) = scan(
        "orchid orchidaceae and class else false fun for if nil or print return super this true var while",
    );
    assert!(errors.is_empty());
    assert_eq!(
        types(&tokens),
        vec![
            TokenType::Identifier,
            TokenType::Identifier,
            TokenType::And,
            TokenType::Class,
            TokenType::Else,
            TokenType::False,
            TokenType::Fun,
            TokenType::For,
            TokenType::If,
            TokenType::Nil,
            TokenType::Or,
            TokenType::Print,
            TokenType::Return,
            TokenType::Super,
            TokenType::This,
            TokenType::True,
            TokenType::Var,
            TokenType::While,
            TokenType::Eof,
        ]
    );
    assert_eq!(tokens[0].lexeme, "orchid");
    assert_eq!(tokens[1].lexeme, "orchidaceae");
}

#[test]
fn scanner_unexpected_character_records_scan_error_and_keeps_going() {
    let (tokens, errors) = scan("@123");
    assert_eq!(errors.len(), 1);
    let LoxError::Scan { line, message } = &errors[0] else {
        panic!("expected Scan error");
    };
    assert_eq!(*line, 1);
    assert_eq!(message, "Unexpected character.");
    assert_eq!(types(&tokens), vec![TokenType::Number, TokenType::Eof]);
}

#[test]
fn lazy_scanner_yields_same_token_stream_as_eager_scan() {
    let src = "var pi = 3.14; // greet\n\"hello\";";
    let (eager_tokens, eager_errs) = scan(src);
    assert!(eager_errs.is_empty());

    let lazy = drain(Scanner::new(src));
    let lazy_oks: Vec<Token> =
        lazy.iter().map(|r| r.as_ref().expect("clean source").clone()).collect();
    assert_eq!(lazy_oks, eager_tokens);
}

#[test]
fn lazy_scanner_emits_eof_exactly_once_then_none() {
    let mut s = Scanner::new("");
    let first = s.next().expect("EOF token");
    let token = first.expect("EOF is not an error");
    assert_eq!(token.ttype, TokenType::Eof);
    assert!(s.next().is_none(), "no more events after EOF");
}

#[test]
fn lazy_scanner_interleaves_errors_with_tokens_in_source_order() {
    let mut s = Scanner::new("a @ b");
    let first = s.next().unwrap().expect("identifier 'a'");
    assert_eq!(first.ttype, TokenType::Identifier);
    assert_eq!(first.lexeme, "a");

    let second = s.next().unwrap();
    let LoxError::Scan { message, .. } = second.unwrap_err() else {
        panic!("expected scan error for '@'");
    };
    assert_eq!(message, "Unexpected character.");

    let third = s.next().unwrap().expect("identifier 'b'");
    assert_eq!(third.ttype, TokenType::Identifier);
    assert_eq!(third.lexeme, "b");
}

#[test]
fn lazy_scanner_skips_whitespace_and_comments_without_emitting() {
    let mut s = Scanner::new("   // a comment\n\t var");
    let first = s.next().unwrap().unwrap();
    assert_eq!(first.ttype, TokenType::Var);
    assert_eq!(first.line, 2, "line tracking respects newlines");
}

#[test]
fn lazy_scanner_advances_one_call_at_a_time() {
    let src = "1 + 2 + 3 + 4 + 5";
    let mut s = Scanner::new(src);
    let _ = s.next().unwrap();
    let _ = s.next().unwrap();
    let two = s.next().unwrap().unwrap();
    assert_eq!(two.lexeme, "2");
}

#[test]
fn lazy_scanner_line_method_tracks_through_newlines() {
    let mut s = Scanner::new("1\n\n\n2");
    s.next();
    let two = s.next().unwrap().unwrap();
    assert_eq!(two.line, 4);
    assert_eq!(s.line(), 4);
}

// ---- further cases ----

#[test]
fn non_ascii_character_reports_one_error_per_utf8_byte() {
    // `é` is two bytes in UTF-8; the byte-oriented scanner reports each.
    let (tokens, errors) = scan("é");
    assert_eq!(errors.len(), 2);
    for e in &errors {
        assert_eq!(*e, LoxError::Scan { line: 1, message: "Unexpected character.".into() });
    }
    assert_eq!(types(&tokens), vec![TokenType::Eof]);
    let (_, errors) = scan("€");
    assert_eq!(errors.len(), 3);
}

#[test]
fn non_ascii_inside_string_is_kept() {
    let (tokens, errors) = scan("\"héllo\"");
    assert!(errors.is_empty());
    assert_eq!(tokens[0].literal, Some(Literal::String("héllo".into())));
    assert_eq!(tokens[0].lexeme, "\"héllo\"");
}

#[test]
fn unterminated_multiline_string_reports_last_line() {
    let (tokens, errors) = scan("\"a\nb\nc");
    assert_eq!(errors, vec![LoxError::Scan { line: 3, message: "Unterminated string.".into() }]);
    assert_eq!(tokens.len(), 1);
    assert_eq!(tokens[0].line, 3);
}

#[test]
fn eof_sits_on_last_line_after_trailing_newlines() {
    let (tokens, _) = scan("1\n\n\n");
    assert_eq!(tokens.last().unwrap().ttype, TokenType::Eof);
    assert_eq!(tokens.last().unwrap().line, 4);
    assert_eq!(tokens.iter().filter(|t| t.ttype == TokenType::Eof).count(), 1);
}

#[test]
fn lazy_stream_partitions_into_eager_tokens_and_errors() {
    let src = "a @ # \"x\" 1.5 // c\n!=";
    let (tokens, errors) = scan(src);
    let events = drain(Scanner::new(src));
    assert_eq!(events.len(), tokens.len() + errors.len());
    let oks: Vec<Token> = events.iter().filter_map(|e| e.as_ref().ok().cloned()).collect();
    let errs: Vec<LoxError> = events.iter().filter_map(|e| e.as_ref().err().cloned()).collect();
    assert_eq!(oks, tokens);
    assert_eq!(errs, errors);
}

#[test]
fn number_then_dot_then_identifier() {
    let (tokens, errors) = scan("12.5.abs");
    assert!(errors.is_empty());
    assert_eq!(
        types(&tokens),
        vec![TokenType::Number, TokenType::Dot, TokenType::Identifier, TokenType::Eof]
    );
    assert_eq!(tokens[0].literal, num("12.5"));
    assert_eq!(tokens[2].lexeme, "abs");
}

#[test]
fn identifiers_may_hold_underscores_and_digits() {
    let (tokens, errors) = scan("_a1 b_2");
    assert!(errors.is_empty());
    assert_eq!(tokens[0].lexeme, "_a1");
    assert_eq!(tokens[1].lexeme, "b_2");
    assert_eq!(tokens[0].ttype, TokenType::Identifier);
}

#[test]
fn into_events_collects_the_rest_of_the_stream() {
    let src = "a @ b";
    let (tokens, errors) = scan(src);
    let all = Scanner::new(src).into_events();
    assert_eq!(all, drain(Scanner::new(src)));
    let oks: Vec<Token> = all.iter().filter_map(|e| e.as_ref().ok().cloned()).collect();
    let errs: Vec<LoxError> = all.iter().filter_map(|e| e.as_ref().err().cloned()).collect();
    assert_eq!(oks, tokens);
    assert_eq!(errs, errors);

    let mut s = Scanner::new(src);
    let _ = s.next();
    let rest = s.into_events();
    assert_eq!(rest.len(), all.len() - 1);
    assert_eq!(rest[..], all[1..]);
}

#[test]
fn exhausted_scanner_keeps_answering_none() {
    let mut s = Scanner::new("x\ny");
    let mut count = 0;
    while s.next().is_some() {
        count += 1;
    }
    assert_eq!(count, 3);
    let line = s.line();
    for _ in 0..3 {
        assert!(s.next().is_none());
        assert_eq!(s.line(), line);
    }
    assert!(s.into_events().is_empty());
}

#[test]
fn lazy_scanner_reports_each_byte_of_unexpected_input_in_turn() {
    let mut s = Scanner::new("é1");
    for _ in 0..2 {
        let e = s.next().unwrap().unwrap_err();
        assert_eq!(e, LoxError::Scan { line: 1, message: "Unexpected character.".into() });
    }
    let one = s.next().unwrap().unwrap();
    assert_eq!(one.lexeme, "1");
    assert_eq!(s.next().unwrap().unwrap().ttype, TokenType::Eof);
    assert!(s.next().is_none());
}
