//! The scanner: a cursor state machine over the source text, verified
//! against the model in [`crate::lexing`].

use vstd::prelude::*;

use crate::error::ErrorType;
use crate::lexing::digits_end;
use crate::lexing::error_message;
use crate::lexing::find_char;
use crate::lexing::is_digit_char;
use crate::lexing::is_word_char;
use crate::lexing::is_word_start;
use crate::lexing::keyword_of;
use crate::lexing::newline_count;
use crate::lexing::scan_rest;
use crate::lexing::scan_spec;
use crate::lexing::step;
use crate::lexing::word_end;
use crate::lexing::LexErrorKind;
use crate::lexing::LexOutcome;
use crate::lexing::LexStep;
use crate::token::lemma_token_views_push;
use crate::token::token_views;
use crate::token::Keyword;
use crate::token::SpecToken;
use crate::token::SpecTokenType;
use crate::token::Token;
use crate::token::TokenType;
use vstd::string::StrSliceExecFns;

verus! {

/// The scanning state: the source text as characters, a cursor, the
/// start of the lexeme being scanned, the current 1-based line, and
/// the tokens accumulated so far.
pub struct Scanner {
    line: u64,
    current: usize,
    start: usize,
    code: Vec<char>,
    pub tokens: Vec<Token>,
}

impl Scanner {
    /// The source text this scanner owns.
    pub closed spec fn source(&self) -> Seq<char> {
        self.code@
    }

    /// The mathematical values of the tokens accumulated so far.
    pub closed spec fn token_seq(&self) -> Seq<SpecToken> {
        token_views(self.tokens@)
    }

    /// The source is short enough that the line counter cannot wrap.
    pub closed spec fn wf(&self) -> bool {
        self.code@.len() < u64::MAX
    }

    /// Whether `b` differs from `a` in the cursor alone.
    spec fn same_but_cursor(a: Scanner, b: Scanner) -> bool {
        &&& b.code == a.code
        &&& b.line == a.line
        &&& b.start == a.start
        &&& b.tokens == a.tokens
    }

    /// The cursor state mid-scan.
    spec fn inv(&self) -> bool {
        &&& self.wf()
        &&& self.start <= self.current <= self.code@.len()
        &&& 1 <= self.line <= 1 + self.current
    }

    /// Relies on `str::chars` and `Vec: FromIterator<char>`: collecting
    /// the characters of `code` yields exactly its characters in order.
    #[verifier::external_body]
    fn collect_chars(code: &str) -> (r: Vec<char>)
        ensures
            r@ == code@,
    {
        code.chars().collect()
    }

    /// A scanner over `code`, poised at its start.  The text must be
    /// short enough for the line counter to fit a `u64`.
    pub fn new(code: String) -> (s: Self)
        requires
            code@.len() < u64::MAX,
        ensures
            s.wf(),
            s.source() == code@,
            s.token_seq() == Seq::<SpecToken>::empty(),
    {
        Scanner {
            code: Self::collect_chars(code.as_str()),
            line: 1,
            current: 0,
            start: 0,
            tokens: Vec::new(),
        }
    }

    fn is_at_end(&self) -> (r: bool)
        ensures
            r == (self.current >= self.source().len()),
    {
        self.current >= self.code.len()
    }

    fn advance(&mut self) -> (c: char)
        requires
            old(self).current < old(self).source().len(),
        ensures
            c == old(self).source()[old(self).current as int],
            final(self).current == old(self).current + 1,
            Self::same_but_cursor(*old(self), *final(self)),
    {
        let c = self.code[self.current];
        // taking the length pins the cursor below `usize::MAX`, so the
        // increment cannot overflow
        let _len = self.code.len();
        self.current += 1;
        c
    }

    fn peek(&self) -> (c: char)
        requires
            self.current <= self.source().len(),
        ensures
            c == if self.current < self.source().len() {
                self.source()[self.current as int]
            } else {
                '\0'
            },
    {
        if self.is_at_end() {
            '\0'
        } else {
            self.code[self.current]
        }
    }

    fn peek_next(&self) -> (c: char)
        requires
            self.current <= self.source().len(),
        ensures
            c == if self.current + 1 < self.source().len() {
                self.source()[self.current + 1]
            } else {
                '\0'
            },
    {
        let n = self.code.len();
        if self.current >= n || self.current + 1 >= n {
            '\0'
        } else {
            self.code[self.current + 1]
        }
    }

    fn match_next(&mut self, expected: char) -> (r: bool)
        requires
            old(self).current <= old(self).source().len(),
        ensures
            r == (old(self).current < old(self).source().len()
                && old(self).source()[old(self).current as int] == expected),
            final(self).current == old(self).current + (if r { 1int } else { 0int }),
            Self::same_but_cursor(*old(self), *final(self)),
    {
        if self.is_at_end() {
            return false;
        }
        if self.peek() != expected {
            return false;
        }
        self.advance();
        true
    }

    fn is_digit(&self, c: char) -> (r: bool)
        ensures
            r == is_digit_char(c),
    {
        '0' <= c && c <= '9'
    }

    fn is_alphabetic(&self, c: char) -> (r: bool)
        ensures
            r == is_word_start(c),
    {
        crate::lexing::is_alphabetic(c) || c == '_'
    }

    fn is_alphanumeric(&self, c: char) -> (r: bool)
        ensures
            r == is_word_char(c),
    {
        self.is_digit(c) || self.is_alphabetic(c)
    }

    /// Relies on `String: FromIterator<char>`: collecting the source
    /// characters `from..to` yields the string of exactly those
    /// characters in order.
    #[verifier::external_body]
    fn get_current_text(&self, from: usize, to: usize) -> (text: String)
        requires
            from <= to,
            to <= self.source().len(),
        ensures
            text@ == self.source().subrange(from as int, to as int),
    {
        self.code[from..to].iter().collect()
    }

    fn add_token(&mut self, token_type: TokenType) -> (r: Result<(), ErrorType>)
        requires
            old(self).start <= old(self).current <= old(self).source().len(),
        ensures
            r is Ok,
            final(self).current == old(self).current,
            final(self).code == old(self).code,
            final(self).line == old(self).line,
            final(self).start == old(self).start,
            final(self).token_seq() == old(self).token_seq().push(
                SpecToken {
                    token_type: token_type@,
                    lexeme: old(self).source().subrange(
                        old(self).start as int,
                        old(self).current as int,
                    ),
                    line: old(self).line as int,
                },
            ),
    {
        let lexeme = self.get_current_text(self.start, self.current);
        let token = Token { token_type, lexeme, line: self.line };
        let ghost tok = token;
        self.tokens.push(token);
        proof {
            lemma_token_views_push(old(self).tokens@, tok);
        }
        Ok(())
    }

    fn add_string_literal(&mut self) -> (r: Result<(), ErrorType>)
        requires
            old(self).inv(),
            old(self).start + 1 == old(self).current,
    ensures
            final(self).inv(),
            final(self).code == old(self).code,
            final(self).start == old(self).start,
            ({
                let close = find_char(old(self).code@, old(self).current as int, '"');
                let new_line = old(self).line + newline_count(
                    old(self).code@.subrange(old(self).current as int, close),
                );
                if close >= old(self).code@.len() {
                    &&& (match r {
                        Result::Err(ErrorType::ScanError(l, m)) => l == new_line && m@
                            == error_message(LexErrorKind::UnterminatedString),
                        _ => false,
                    })
                    &&& final(self).tokens == old(self).tokens
                } else {
                    &&& r is Ok
                    &&& final(self).current == close + 1
                    &&& final(self).line == new_line
                    &&& final(self).token_seq() == old(self).token_seq().push(
                        SpecToken {
                            token_type: SpecTokenType::String(
                                old(self).code@.subrange(old(self).current as int, close),
                            ),
                            lexeme: old(self).code@.subrange(old(self).start as int, close + 1),
                            line: new_line,
                        },
                    )
                }
            }),
    {
        while self.peek() != '"' && !self.is_at_end()
            invariant
                self.inv(),
                self.code == old(self).code,
                self.start == old(self).start,
                self.tokens == old(self).tokens,
                old(self).start + 1 == old(self).current,
                old(self).current <= self.current <= self.code@.len(),
                find_char(self.code@, old(self).current as int, '"') == find_char(
                    self.code@,
                    self.current as int,
                    '"',
                ),
                self.line == old(self).line + newline_count(
                    self.code@.subrange(old(self).current as int, self.current as int),
                ),
            decreases self.code@.len() - self.current,
        {
            proof {
                let cur = self.current as int;
                assert(find_char(self.code@, cur, '"') == find_char(self.code@, cur + 1, '"'));
                assert(self.code@.subrange(old(self).current as int, cur + 1)
                    =~= self.code@.subrange(old(self).current as int, cur).push(self.code@[cur]));
                crate::lexing::lemma_newline_count_push(
                    self.code@.subrange(old(self).current as int, cur),
                    self.code@[cur],
                );
            }
            if self.peek() == '\n' {
                self.line = self.line + 1;
            }
            self.advance();
        }
        if self.is_at_end() {
            proof {
                assert(find_char(self.code@, self.current as int, '"') == self.code@.len());
            }
            return Err(
                ErrorType::ScanError(self.line, "Unterminated string.".to_owned()),
            );
        }
        proof {
            assert(find_char(self.code@, self.current as int, '"') == self.current);
        }
        self.advance();
        let text = self.get_current_text(self.start + 1, self.current - 1);
        self.add_token(TokenType::String(text))
    }

    fn add_number_literal(&mut self) -> (r: Result<(), ErrorType>)
        requires
            old(self).inv(),
            old(self).start + 1 == old(self).current,
            is_digit_char(old(self).code@[old(self).start as int]),
        ensures
            final(self).inv(),
            final(self).code == old(self).code,
            final(self).start == old(self).start,
            final(self).line == old(self).line,
            r is Ok,
            ({
                let i = old(self).start as int;
                let whole = digits_end(old(self).code@, i);
                let end = if whole < old(self).code@.len() && old(self).code@[whole] == '.'
                    && whole + 1 < old(self).code@.len() && is_digit_char(
                    old(self).code@[whole + 1],
                ) {
                    digits_end(old(self).code@, whole + 1)
                } else {
                    whole
                };
                &&& final(self).current == end
                &&& final(self).token_seq() == old(self).token_seq().push(
                    SpecToken {
                        token_type: SpecTokenType::Number(old(self).code@.subrange(i, end)),
                        lexeme: old(self).code@.subrange(i, end),
                        line: old(self).line as int,
                    },
                )
            }),
    {
        proof {
            let i = old(self).start as int;
            assert(digits_end(self.code@, i) == digits_end(self.code@, i + 1));
        }
        while self.is_digit(self.peek())
            invariant
                self.inv(),
                self.code == old(self).code,
                self.start == old(self).start,
                self.tokens == old(self).tokens,
                self.line == old(self).line,
                old(self).current <= self.current <= self.code@.len(),
                digits_end(self.code@, old(self).start as int) == digits_end(
                    self.code@,
                    self.current as int,
                ),
            decreases self.code@.len() - self.current,
        {
            proof {
                let cur = self.current as int;
                assert(digits_end(self.code@, cur) == digits_end(self.code@, cur + 1));
            }
            self.advance();
        }
        proof {
            assert(digits_end(self.code@, self.current as int) == self.current);
        }
        if self.peek() == '.' && self.is_digit(self.peek_next()) {
            let ghost whole = self.current as int;
            self.advance();
            while self.is_digit(self.peek())
                invariant
                    self.inv(),
                    self.code == old(self).code,
                    self.start == old(self).start,
                    self.tokens == old(self).tokens,
                    self.line == old(self).line,
                    old(self).current <= whole + 1 <= self.current <= self.code@.len(),
                    digits_end(self.code@, whole + 1) == digits_end(self.code@, self.current as int),
                decreases self.code@.len() - self.current,
            {
                proof {
                    let cur = self.current as int;
                    assert(digits_end(self.code@, cur) == digits_end(self.code@, cur + 1));
                }
                self.advance();
            }
            proof {
                assert(digits_end(self.code@, self.current as int) == self.current);
            }
        }
        let text = self.get_current_text(self.start, self.current);
        self.add_token(TokenType::Number(text))
    }

    fn add_identifier(&mut self) -> (r: Result<(), ErrorType>)
        requires
            old(self).inv(),
            old(self).start + 1 == old(self).current,
            is_word_char(old(self).code@[old(self).start as int]),
        ensures
            final(self).inv(),
            final(self).code == old(self).code,
            final(self).start == old(self).start,
            final(self).line == old(self).line,
            r is Ok,
            ({
                let i = old(self).start as int;
                let end = word_end(old(self).code@, i);
                let text = old(self).code@.subrange(i, end);
                &&& final(self).current == end
                &&& final(self).token_seq() == old(self).token_seq().push(
                    SpecToken {
                        token_type: match keyword_of(text) {
                            Some(k) => SpecTokenType::Keyword(k),
                            None => SpecTokenType::Identifier(text),
                        },
                        lexeme: text,
                        line: old(self).line as int,
                    },
                )
            }),
    {
        proof {
            let i = old(self).start as int;
            assert(word_end(self.code@, i) == word_end(self.code@, i + 1));
        }
        while self.is_alphanumeric(self.peek())
            invariant
                self.inv(),
                self.code == old(self).code,
                self.start == old(self).start,
                self.tokens == old(self).tokens,
                self.line == old(self).line,
                old(self).current <= self.current <= self.code@.len(),
                word_end(self.code@, old(self).start as int) == word_end(
                    self.code@,
                    self.current as int,
                ),
            decreases self.code@.len() - self.current,
        {
            proof {
                let cur = self.current as int;
                assert(word_end(self.code@, cur) == word_end(self.code@, cur + 1));
            }
            self.advance();
        }
        proof {
            assert(word_end(self.code@, self.current as int) == self.current);
        }
        let token_type = match keyword_lookup(&self.code, self.start, self.current) {
            Some(keyword) => TokenType::Keyword(keyword),
            None => TokenType::Identifier(self.get_current_text(self.start, self.current)),
        };
        self.add_token(token_type)
    }

    fn scan_token(&mut self) -> (r: Result<(), ErrorType>)
        requires
            old(self).inv(),
            old(self).start == old(self).current,
            old(self).current < old(self).source().len(),
        ensures
            final(self).inv(),
            final(self).code == old(self).code,
            match step(old(self).code@, old(self).current as int, old(self).line as int) {
                LexStep::Token(t, next, new_line) => {
                    &&& r is Ok
                    &&& final(self).current == next
                    &&& final(self).line == new_line
                    &&& final(self).token_seq() == old(self).token_seq().push(t)
                },
                LexStep::Skip(next, new_line) => {
                    &&& r is Ok
                    &&& final(self).current == next
                    &&& final(self).line == new_line
                    &&& final(self).tokens == old(self).tokens
                },
                LexStep::Error(e) => {
                    &&& (match r {
                        Result::Err(ErrorType::ScanError(l, m)) => l == e.line && m@
                            == error_message(e.kind),
                        _ => false,
                    })
                    &&& final(self).tokens == old(self).tokens
                },
            },
    {
        let c = self.advance();
        match c {
            '(' => self.add_token(TokenType::LeftParenthesis),
            ')' => self.add_token(TokenType::RightParenthesis),
            '{' => self.add_token(TokenType::LeftBrace),
            '}' => self.add_token(TokenType::RightBrace),
            ',' => self.add_token(TokenType::Comma),
            '.' => self.add_token(TokenType::Dot),
            '-' => self.add_token(TokenType::Minus),
            '+' => self.add_token(TokenType::Plus),
            ';' => self.add_token(TokenType::Semicolon),
            '*' => self.add_token(TokenType::Star),
            '/' => {
                if self.match_next('/') {
                    // A comment: consume everything up to the next newline,
                    // emitting nothing; the newline itself is left in place.
                    while self.peek() != '\n' && !self.is_at_end()
                        invariant
                            self.inv(),
                            self.code == old(self).code,
                            self.start == old(self).start,
                            self.tokens == old(self).tokens,
                            self.line == old(self).line,
                            old(self).current + 2 <= self.current <= self.code@.len(),
                            find_char(self.code@, old(self).current + 2, '\n') == find_char(
                                self.code@,
                                self.current as int,
                                '\n',
                            ),
                        decreases self.code@.len() - self.current,
                    {
                        proof {
                            let cur = self.current as int;
                            assert(find_char(self.code@, cur, '\n') == find_char(
                                self.code@,
                                cur + 1,
                                '\n',
                            ));
                        }
                        self.advance();
                    }
                    proof {
                        assert(find_char(self.code@, self.current as int, '\n')
                            == self.current);
                    }
                    Ok(())
                } else {
                    self.add_token(TokenType::Slash)
                }
            },
            '!' => {
                let token_type = if self.match_next('=') {
                    TokenType::BangEqual
                } else {
                    TokenType::Bang
                };
                self.add_token(token_type)
            },
            '=' => {
                let token_type = if self.match_next('=') {
                    TokenType::EqualEqual
                } else {
                    TokenType::Equal
                };
                self.add_token(token_type)
            },
            '<' => {
                let token_type = if self.match_next('=') {
                    TokenType::LessEqual
                } else {
                    TokenType::Less
                };
                self.add_token(token_type)
            },
            '>' => {
                let token_type = if self.match_next('=') {
                    TokenType::GreaterEqual
                } else {
                    TokenType::Greater
                };
                self.add_token(token_type)
            },
            '"' => self.add_string_literal(),
            ' ' | '\t' | '\r' => Ok(()),
            '\n' => {
                self.line = self.line + 1;
                Ok(())
            },
            _ => {
                if self.is_digit(c) {
                    self.add_number_literal()
                } else if self.is_alphabetic(c) {
                    self.add_identifier()
                } else {
                    Err(
                        ErrorType::ScanError(
                            self.line,
                            "Encountered an unknown token".to_owned(),
                        ),
                    )
                }
            },
        }
    }

    /// One whole scan: resets the cursor, then tokenizes the source
    /// from its start.  On success `tokens` holds exactly the sequence
    /// the model assigns to the source, closed by the end-of-input
    /// token; on a lexical error the scan stops at once and returns
    /// the error the model assigns, with its line and message.
    pub fn scan(&mut self) -> (r: Result<(), ErrorType>)
        requires
            old(self).wf(),
        ensures
            final(self).wf(),
            final(self).source() == old(self).source(),
            match scan_spec(old(self).source()) {
                LexOutcome::Tokens(tokens) => r is Ok && final(self).token_seq() == tokens,
                LexOutcome::Error(e) => match r {
                    Result::Err(ErrorType::ScanError(l, m)) => l == e.line && m@
                        == error_message(e.kind),
                    _ => false,
                },
            },
    {
        self.line = 1;
        self.start = 0;
        self.current = 0;
        self.tokens = Vec::new();
        while !self.is_at_end()
            invariant
                self.inv(),
                self.code == old(self).code,
                match scan_rest(self.code@, self.current as int, self.line as int) {
                    LexOutcome::Tokens(rest) => scan_spec(self.code@) == LexOutcome::Tokens(
                        self.token_seq() + rest,
                    ),
                    LexOutcome::Error(e) => scan_spec(self.code@) == LexOutcome::Error(e),
                },
            decreases self.code@.len() - self.current,
        {
            self.start = self.current;
            let ghost prev = *self;
            let res = self.scan_token();
            proof {
                let code = prev.code@;
                let i = prev.current as int;
                let line = prev.line as int;
                crate::lexing::lemma_step_in_range(code, i, line);
                assert(scan_rest(code, i, line) == (match step(code, i, line) {
                    LexStep::Token(t, next, new_line) => match scan_rest(code, next, new_line) {
                        LexOutcome::Tokens(rest) => LexOutcome::Tokens(seq![t] + rest),
                        LexOutcome::Error(e) => LexOutcome::Error(e),
                    },
                    LexStep::Skip(next, new_line) => scan_rest(code, next, new_line),
                    LexStep::Error(e) => LexOutcome::Error(e),
                }));
                match step(code, i, line) {
                    LexStep::Token(t, next, new_line) => {
                        match scan_rest(code, next, new_line) {
                            LexOutcome::Tokens(rest) => {
                                assert(prev.token_seq() + (seq![t] + rest) =~= (prev.token_seq()
                                    + seq![t]) + rest);
                                assert(prev.token_seq().push(t) =~= prev.token_seq() + seq![t]);
                            },
                            LexOutcome::Error(_) => {},
                        }
                    },
                    LexStep::Skip(_, _) => {},
                    LexStep::Error(_) => {},
                }
            }
            res?;
        }
        proof {
            assert(scan_rest(self.code@, self.current as int, self.line as int)
                == LexOutcome::Tokens(seq![crate::lexing::eof_token(self.line as int)]));
        }
        let eof = Token { token_type: TokenType::EOF, lexeme: String::new(), line: self.line };
        let ghost tok = eof;
        let ghost toks0 = self.tokens@;
        self.tokens.push(eof);
        proof {
            lemma_token_views_push(toks0, tok);
            assert(tok@ == crate::lexing::eof_token(tok.line as int));
            assert(token_views(toks0).push(tok@) =~= token_views(toks0) + seq![tok@]);
        }
        Ok(())
    }
}

/// The keyword table: which reserved word, if any, the source
/// characters `from..to` spell.  A lookup, not a store: the table is
/// the fixed set of comparisons below.
fn keyword_lookup(code: &Vec<char>, from: usize, to: usize) -> (r: Option<Keyword>)
    requires
        from <= to,
        to <= code@.len(),
    ensures
        r == keyword_of(code@.subrange(from as int, to as int)),
{
    if text_equals(code, from, to, "and") {
        Some(Keyword::And)
    } else if text_equals(code, from, to, "class") {
        Some(Keyword::Class)
    } else if text_equals(code, from, to, "else") {
        Some(Keyword::Else)
    } else if text_equals(code, from, to, "false") {
        Some(Keyword::False)
    } else if text_equals(code, from, to, "fun") {
        Some(Keyword::Fun)
    } else if text_equals(code, from, to, "for") {
        Some(Keyword::For)
    } else if text_equals(code, from, to, "if") {
        Some(Keyword::If)
    } else if text_equals(code, from, to, "nil") {
        Some(Keyword::Nil)
    } else if text_equals(code, from, to, "or") {
        Some(Keyword::Or)
    } else if text_equals(code, from, to, "print") {
        Some(Keyword::Print)
    } else if text_equals(code, from, to, "return") {
        Some(Keyword::Return)
    } else if text_equals(code, from, to, "super") {
        Some(Keyword::Super)
    } else if text_equals(code, from, to, "this") {
        Some(Keyword::This)
    } else if text_equals(code, from, to, "true") {
        Some(Keyword::True)
    } else if text_equals(code, from, to, "var") {
        Some(Keyword::Var)
    } else if text_equals(code, from, to, "while") {
        Some(Keyword::While)
    } else {
        None
    }
}

/// Whether the source characters `from..to` spell exactly `word`.
fn text_equals(code: &Vec<char>, from: usize, to: usize, word: &str) -> (r: bool)
    requires
        from <= to,
        to <= code@.len(),
    ensures
        r == (code@.subrange(from as int, to as int) == word@),
{
    let ghost text = code@.subrange(from as int, to as int);
    let n = word.unicode_len();
    if n != to - from {
        proof {
            assert(text.len() == to - from);
        }
        return false;
    }
    let mut k: usize = 0;
    while k < n
        invariant
            from <= to <= code@.len(),
            k <= n == word@.len() == to - from,
            text == code@.subrange(from as int, to as int),
            forall|j: int| 0 <= j < k ==> text[j] == word@[j],
        decreases n - k,
    {
        let c = word.get_char(k);
        if code[from + k] != c {
            proof {
                assert(text[k as int] == code@[from + k]);
            }
            return false;
        }
        proof {
            assert(text[k as int] == code@[from + k]);
        }
        k += 1;
    }
    proof {
        assert(text =~= word@);
    }
    true
}

/// Re-invoking `scan` on a scanner whose source is unchanged yields an
/// equal token sequence: the outcome `scan` is proved to return is a
/// function of the source alone, and `scan` leaves the source as it
/// was.
pub proof fn lemma_scan_idempotent(first: Scanner, second: Scanner)
    requires
        first.source() == second.source(),
    ensures
        scan_spec(first.source()) == scan_spec(second.source()),
{
}

} // verus!
