use rlox::scanner::Scanner;
use rlox::token::Keyword;
use rlox::token::Token;
use rlox::token::TokenType;

fn keyword_token(keyword: Keyword, lexeme: &str) -> Token {
    Token { token_type: TokenType::Keyword(keyword), lexeme: lexeme.to_string(), line: 1 }
}

#[test]
fn scan_keywords() {
    let test_code =
        "and class else false fun for if nil or print return super this true var while"
            .to_string();
    let mut scanner = Scanner::new(test_code);
    if let Err(_) = scanner.scan() {
        assert!(false);
    }
    let expected: Vec<Token> = vec![
        keyword_token(Keyword::And, "and"),
        keyword_token(Keyword::Class, "class"),
        keyword_token(Keyword::Else, "else"),
        keyword_token(Keyword::False, "false"),
        keyword_token(Keyword::Fun, "fun"),
        keyword_token(Keyword::For, "for"),
        keyword_token(Keyword::If, "if"),
        keyword_token(Keyword::Nil, "nil"),
        keyword_token(Keyword::Or, "or"),
        keyword_token(Keyword::Print, "print"),
        keyword_token(Keyword::Return, "return"),
        keyword_token(Keyword::Super, "super"),
        keyword_token(Keyword::This, "this"),
        keyword_token(Keyword::True, "true"),
        keyword_token(Keyword::Var, "var"),
        keyword_token(Keyword::While, "while"),
        Token { token_type: TokenType::EOF, lexeme: "".to_string(), line: 1 },
    ];
    assert_eq!(expected, scanner.tokens);
}

#[test]
fn scan_single_tokens() {
    let test_code = "(){},.-+;*/! =<>// comment".to_string();
    let mut scanner = Scanner::new(test_code);
    let scan_result = scanner.scan();
    if let Err(_) = scan_result {
        assert!(false);
    }
    let expected: Vec<Token> = vec![
        Token { token_type: TokenType::LeftParenthesis, lexeme: "(".to_string(), line: 1 },
        Token { token_type: TokenType::RightParenthesis, lexeme: ")".to_string(), line: 1 },
        Token { token_type: TokenType::LeftBrace, lexeme: "{".to_string(), line: 1 },
        Token { token_type: TokenType::RightBrace, lexeme: "}".to_string(), line: 1 },
        Token { token_type: TokenType::Comma, lexeme: ",".to_string(), line: 1 },
        Token { token_type: TokenType::Dot, lexeme: ".".to_string(), line: 1 },
        Token { token_type: TokenType::Minus, lexeme: "-".to_string(), line: 1 },
        Token { token_type: TokenType::Plus, lexeme: "+".to_string(), line: 1 },
        Token { token_type: TokenType::Semicolon, lexeme: ";".to_string(), line: 1 },
        Token { token_type: TokenType::Star, lexeme: "*".to_string(), line: 1 },
        Token { token_type: TokenType::Slash, lexeme: "/".to_string(), line: 1 },
        Token { token_type: TokenType::Bang, lexeme: "!".to_string(), line: 1 },
        Token { token_type: TokenType::Equal, lexeme: "=".to_string(), line: 1 },
        Token { token_type: TokenType::Less, lexeme: "<".to_string(), line: 1 },
        Token { token_type: TokenType::Greater, lexeme: ">".to_string(), line: 1 },
        Token { token_type: TokenType::EOF, lexeme: "".to_string(), line: 1 },
    ];
    assert_eq!(expected, scanner.tokens);

    // scan should always yield the same results
    scanner.scan().unwrap();
    assert_eq!(expected, scanner.tokens);
}

#[test]
fn scan_string_literals() {
    let test_code = "\"hello\nsir\" \"word\"".to_string();
    let mut scanner = Scanner::new(test_code);
    scanner.scan().unwrap();
    let expected: Vec<Token> = vec![
        Token {
            token_type: TokenType::String("hello\nsir".to_string()),
            lexeme: "\"hello\nsir\"".to_string(),
            line: 2,
        },
        Token {
            token_type: TokenType::String("word".to_string()),
            lexeme: "\"word\"".to_string(),
            line: 2,
        },
        Token { token_type: TokenType::EOF, lexeme: "".to_string(), line: 2 },
    ];
    assert_eq!(expected, scanner.tokens);
}

#[test]
fn scan_number_literal() {
    let test_code = "1.234 1234".to_string();
    let mut scanner = Scanner::new(test_code);
    scanner.scan().unwrap();
    let expected: Vec<Token> = vec![
        Token {
            token_type: TokenType::Number("1.234".to_string()),
            lexeme: "1.234".to_string(),
            line: 1,
        },
        Token {
            token_type: TokenType::Number("1234".to_string()),
            lexeme: "1234".to_string(),
            line: 1,
        },
        Token { token_type: TokenType::EOF, lexeme: "".to_string(), line: 1 },
    ];
    assert_eq!(expected, scanner.tokens);

    // The numeric texts carry the values 1.234 and 1234.0.
    let values: Vec<f64> = scanner
        .tokens
        .iter()
        .filter_map(|t| match &t.token_type {
            TokenType::Number(text) => Some(text.parse::<f64>().unwrap()),
            _ => None,
        })
        .collect();
    assert_eq!(values, vec![1.234, 1234.0]);
}

#[test]
fn scan_identifiers() {
    let test_code = "my_var1\nthisisa123name".to_string();
    let mut scanner = Scanner::new(test_code);
    scanner.scan().unwrap();
    let expected: Vec<Token> = vec![
        Token {
            token_type: TokenType::Identifier("my_var1".to_string()),
            lexeme: "my_var1".to_string(),
            line: 1,
        },
        Token {
            token_type: TokenType::Identifier("thisisa123name".to_string()),
            lexeme: "thisisa123name".to_string(),
            line: 2,
        },
        Token { token_type: TokenType::EOF, lexeme: "".to_string(), line: 2 },
    ];
    assert_eq!(expected, scanner.tokens);
}

#[test]
fn scan_unterminated_string_literal_returns_error() {
    let test_code = "\"hello".to_string();
    let mut scanner = Scanner::new(test_code);
    if let Ok(_) = scanner.scan() {
        assert!(false);
    }
}

#[test]
fn scan_double_tokens() {
    let test_code = "!= == <= >= //".to_string();
    let mut scanner = Scanner::new(test_code);
    let scan_result = scanner.scan();
    if let Err(_) = scan_result {
        assert!(false);
    }
    let expected: Vec<Token> = vec![
        Token { token_type: TokenType::BangEqual, lexeme: "!=".to_string(), line: 1 },
        Token { token_type: TokenType::EqualEqual, lexeme: "==".to_string(), line: 1 },
        Token { token_type: TokenType::LessEqual, lexeme: "<=".to_string(), line: 1 },
        Token { token_type: TokenType::GreaterEqual, lexeme: ">=".to_string(), line: 1 },
        Token { token_type: TokenType::EOF, lexeme: "".to_string(), line: 1 },
    ];
    assert_eq!(expected, scanner.tokens);

    // scan should always yield the same results
    scanner.scan().unwrap();
    assert_eq!(expected, scanner.tokens);
}

#[test]
fn scan_counts_lines() {
    let test_code = "(\n-//some comment\n==\n".to_string();
    let mut scanner = Scanner::new(test_code);
    scanner.scan().unwrap();
    let expected: Vec<Token> = vec![
        Token { token_type: TokenType::LeftParenthesis, lexeme: "(".to_string(), line: 1 },
        Token { token_type: TokenType::Minus, lexeme: "-".to_string(), line: 2 },
        Token { token_type: TokenType::EqualEqual, lexeme: "==".to_string(), line: 3 },
        Token { token_type: TokenType::EOF, lexeme: "".to_string(), line: 4 },
    ];
    assert_eq!(expected, scanner.tokens);
}

#[test]
fn scan_ignores_whitespace() {
    let test_code = " ( ) \r { } \t ,  ".to_string();
    let mut scanner = Scanner::new(test_code);
    scanner.scan().unwrap();
    let expected: Vec<Token> = vec![
        Token { token_type: TokenType::LeftParenthesis, lexeme: "(".to_string(), line: 1 },
        Token { token_type: TokenType::RightParenthesis, lexeme: ")".to_string(), line: 1 },
        Token { token_type: TokenType::LeftBrace, lexeme: "{".to_string(), line: 1 },
        Token { token_type: TokenType::RightBrace, lexeme: "}".to_string(), line: 1 },
        Token { token_type: TokenType::Comma, lexeme: ",".to_string(), line: 1 },
        Token { token_type: TokenType::EOF, lexeme: "".to_string(), line: 1 },
    ];
    assert_eq!(expected, scanner.tokens);
}
