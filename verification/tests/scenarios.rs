use rlox::error::ErrorType;
use rlox::scanner::Scanner;
use rlox::token::Keyword;
use rlox::token::Token;
use rlox::token::TokenType;

#[test]
fn scan_empty_input_yields_only_eof() {
    let mut scanner = Scanner::new("".to_string());
    scanner.scan().unwrap();
    let expected: Vec<Token> =
        vec![Token { token_type: TokenType::EOF, lexeme: "".to_string(), line: 1 }];
    assert_eq!(expected, scanner.tokens);
}

#[test]
fn scan_two_char_operators() {
    let test_code = "!= == <= >=".to_string();
    let mut scanner = Scanner::new(test_code);
    scanner.scan().unwrap();
    let expected: Vec<Token> = vec![
        Token { token_type: TokenType::BangEqual, lexeme: "!=".to_string(), line: 1 },
        Token { token_type: TokenType::EqualEqual, lexeme: "==".to_string(), line: 1 },
        Token { token_type: TokenType::LessEqual, lexeme: "<=".to_string(), line: 1 },
        Token { token_type: TokenType::GreaterEqual, lexeme: ">=".to_string(), line: 1 },
        Token { token_type: TokenType::EOF, lexeme: "".to_string(), line: 1 },
    ];
    assert_eq!(expected, scanner.tokens);
}

#[test]
fn scan_keyword_subset() {
    let test_code = "and class true while".to_string();
    let mut scanner = Scanner::new(test_code);
    scanner.scan().unwrap();
    let expected: Vec<Token> = vec![
        Token { token_type: TokenType::Keyword(Keyword::And), lexeme: "and".to_string(), line: 1 },
        Token {
            token_type: TokenType::Keyword(Keyword::Class),
            lexeme: "class".to_string(),
            line: 1,
        },
        Token {
            token_type: TokenType::Keyword(Keyword::True),
            lexeme: "true".to_string(),
            line: 1,
        },
        Token {
            token_type: TokenType::Keyword(Keyword::While),
            lexeme: "while".to_string(),
            line: 1,
        },
        Token { token_type: TokenType::EOF, lexeme: "".to_string(), line: 1 },
    ];
    assert_eq!(expected, scanner.tokens);
}

#[test]
fn scan_unterminated_string_reports_final_line() {
    // The string spans two lines before the input runs out: the error
    // is tagged with the line reached, not the line the quote opened on.
    let mut scanner = Scanner::new("\"hello\nsir".to_string());
    match scanner.scan() {
        Err(ErrorType::ScanError(line, message)) => {
            assert_eq!(line, 2);
            assert_eq!(message, "Unterminated string.");
        }
        _ => panic!("expected an unterminated-string error"),
    }
}

#[test]
fn scan_invalid_character_returns_error() {
    let mut scanner = Scanner::new("(\n@".to_string());
    match scanner.scan() {
        Err(ErrorType::ScanError(line, message)) => {
            assert_eq!(line, 2);
            assert_eq!(message, "Encountered an unknown token");
        }
        _ => panic!("expected an invalid-character error"),
    }
}

#[test]
fn scan_number_with_trailing_dot() {
    // Two-character lookahead: a dot with no digit after it is not part
    // of the number.
    let mut scanner = Scanner::new("123.".to_string());
    scanner.scan().unwrap();
    let expected: Vec<Token> = vec![
        Token {
            token_type: TokenType::Number("123".to_string()),
            lexeme: "123".to_string(),
            line: 1,
        },
        Token { token_type: TokenType::Dot, lexeme: ".".to_string(), line: 1 },
        Token { token_type: TokenType::EOF, lexeme: "".to_string(), line: 1 },
    ];
    assert_eq!(expected, scanner.tokens);
}

#[test]
fn scan_underscore_identifier() {
    let mut scanner = Scanner::new("_tmp1 orchid".to_string());
    scanner.scan().unwrap();
    let expected: Vec<Token> = vec![
        Token {
            token_type: TokenType::Identifier("_tmp1".to_string()),
            lexeme: "_tmp1".to_string(),
            line: 1,
        },
        // A keyword prefix does not make a keyword: maximal munch wins.
        Token {
            token_type: TokenType::Identifier("orchid".to_string()),
            lexeme: "orchid".to_string(),
            line: 1,
        },
        Token { token_type: TokenType::EOF, lexeme: "".to_string(), line: 1 },
    ];
    assert_eq!(expected, scanner.tokens);
}

#[test]
fn scan_comment_without_newline_at_end() {
    let mut scanner = Scanner::new("+// trailing".to_string());
    scanner.scan().unwrap();
    let expected: Vec<Token> = vec![
        Token { token_type: TokenType::Plus, lexeme: "+".to_string(), line: 1 },
        Token { token_type: TokenType::EOF, lexeme: "".to_string(), line: 1 },
    ];
    assert_eq!(expected, scanner.tokens);
}

#[test]
fn scan_string_payload_strips_quotes() {
    // Were the scanned text handed back unchanged, the payload would
    // keep its quotes and the lexeme would not match the source.
    let mut scanner = Scanner::new("\"abc\"".to_string());
    scanner.scan().unwrap();
    assert_eq!(scanner.tokens.len(), 2);
    assert_eq!(
        scanner.tokens[0],
        Token {
            token_type: TokenType::String("abc".to_string()),
            lexeme: "\"abc\"".to_string(),
            line: 1,
        }
    );
}

#[test]
fn scan_number_value_parses() {
    let mut scanner = Scanner::new("0.5".to_string());
    scanner.scan().unwrap();
    match &scanner.tokens[0].token_type {
        TokenType::Number(text) => {
            assert_eq!(text.parse::<f64>().unwrap(), 0.5);
        }
        _ => panic!("expected a number token"),
    }
}
