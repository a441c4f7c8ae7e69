//! The mathematical model of scanning: a total function from a source
//! text to the token sequence it denotes, or to the lexical error that
//! aborts its scan.  `scanner::Scanner::scan` is proved against this
//! model.

use vstd::prelude::*;

use crate::token::Keyword;
use crate::token::SpecToken;
use crate::token::SpecTokenType;

verus! {

/// Whether `c` is a decimal digit.
pub open spec fn is_digit_char(c: char) -> bool {
    '0' <= c && c <= '9'
}

/// Whether a character beyond ASCII is alphabetic in the Unicode
/// sense.  Only `is_alphabetic` below is ever claimed to return it.
pub uninterp spec fn alphabetic(c: char) -> bool;

/// Whether `c` is an alphabetic character: among ASCII characters
/// exactly the letters `a`..=`z` and `A`..=`Z`, and beyond ASCII
/// whatever the Unicode letter categories hold.
pub open spec fn is_alpha_char(c: char) -> bool {
    if (c as u32) < 128 {
        ('a' <= c && c <= 'z') || ('A' <= c && c <= 'Z')
    } else {
        alphabetic(c)
    }
}

/// Relies on `char::is_alphabetic`: whether a character is alphabetic
/// depends on the character alone, and among ASCII characters exactly
/// the letters `a`..=`z` and `A`..=`Z` have a letter category.
#[verifier::external_body]
pub fn is_alphabetic(c: char) -> (r: bool)
    ensures
        r == is_alpha_char(c),
        (c as u32) >= 128 ==> r == alphabetic(c),
{
    c.is_alphabetic()
}

/// Whether `c` may start an identifier.
pub open spec fn is_word_start(c: char) -> bool {
    is_alpha_char(c) || c == '_'
}

/// Whether `c` may continue an identifier.
pub open spec fn is_word_char(c: char) -> bool {
    is_digit_char(c) || is_word_start(c)
}

/// The first position at or after `i` holding `target`, or the length
/// of `code` if there is none.
pub open spec fn find_char(code: Seq<char>, i: int, target: char) -> int
    decreases code.len() - i,
{
    if i < 0 || i >= code.len() {
        code.len() as int
    } else if code[i] == target {
        i
    } else {
        find_char(code, i + 1, target)
    }
}

/// `find_char` yields the first occurrence: nothing before it matches,
/// and it matches unless the text ran out.
pub proof fn lemma_find_char(code: Seq<char>, i: int, target: char)
    requires
        0 <= i <= code.len(),
    ensures
        i <= find_char(code, i, target) <= code.len(),
        forall|k: int| i <= k < find_char(code, i, target) ==> code[k] != target,
        find_char(code, i, target) < code.len() ==> code[find_char(code, i, target)] == target,
    decreases code.len() - i,
{
    if i < code.len() && code[i] != target {
        lemma_find_char(code, i + 1, target);
    }
}

/// The first position at or after `i` holding a non-digit, or the
/// length of `code` if there is none.
pub open spec fn digits_end(code: Seq<char>, i: int) -> int
    decreases code.len() - i,
{
    if i < 0 || i >= code.len() {
        code.len() as int
    } else if !is_digit_char(code[i]) {
        i
    } else {
        digits_end(code, i + 1)
    }
}

/// `digits_end` bounds the maximal digit run starting at `i`.
pub proof fn lemma_digits_end(code: Seq<char>, i: int)
    requires
        0 <= i <= code.len(),
    ensures
        i <= digits_end(code, i) <= code.len(),
        forall|k: int| i <= k < digits_end(code, i) ==> is_digit_char(code[k]),
        digits_end(code, i) < code.len() ==> !is_digit_char(code[digits_end(code, i)]),
    decreases code.len() - i,
{
    if i < code.len() && is_digit_char(code[i]) {
        lemma_digits_end(code, i + 1);
    }
}

/// The first position at or after `i` holding a character that cannot
/// continue an identifier, or the length of `code` if there is none.
pub open spec fn word_end(code: Seq<char>, i: int) -> int
    decreases code.len() - i,
{
    if i < 0 || i >= code.len() {
        code.len() as int
    } else if !is_word_char(code[i]) {
        i
    } else {
        word_end(code, i + 1)
    }
}

/// `word_end` bounds the maximal identifier run starting at `i`.
pub proof fn lemma_word_end(code: Seq<char>, i: int)
    requires
        0 <= i <= code.len(),
    ensures
        i <= word_end(code, i) <= code.len(),
        forall|k: int| i <= k < word_end(code, i) ==> is_word_char(code[k]),
        word_end(code, i) < code.len() ==> !is_word_char(code[word_end(code, i)]),
    decreases code.len() - i,
{
    if i < code.len() && is_word_char(code[i]) {
        lemma_word_end(code, i + 1);
    }
}

/// How many newline characters `s` holds.
pub open spec fn newline_count(s: Seq<char>) -> int
    decreases s.len(),
{
    if s.len() == 0 {
        0
    } else {
        (if s[0] == '\n' {
            1int
        } else {
            0int
        }) + newline_count(s.drop_first())
    }
}

/// `newline_count` is non-negative and at most the length.
pub proof fn lemma_newline_count_bounds(s: Seq<char>)
    ensures
        0 <= newline_count(s) <= s.len(),
    decreases s.len(),
{
    if s.len() > 0 {
        lemma_newline_count_bounds(s.drop_first());
    }
}

/// Appending one character raises the newline count by one exactly
/// when that character is a newline.
pub proof fn lemma_newline_count_push(s: Seq<char>, c: char)
    ensures
        newline_count(s.push(c)) == newline_count(s) + (if c == '\n' {
            1int
        } else {
            0int
        }),
    decreases s.len(),
{
    if s.len() == 0 {
        assert(s.push(c).drop_first() =~= Seq::<char>::empty());
        assert(s.push(c)[0] == c);
        assert(newline_count(Seq::<char>::empty()) == 0);
    } else {
        assert(s.push(c).drop_first() =~= s.drop_first().push(c));
        assert(s.push(c)[0] == s[0]);
        lemma_newline_count_push(s.drop_first(), c);
    }
}

/// The two conditions a scan can fail on.
pub enum LexErrorKind {
    UnterminatedString,
    InvalidCharacter,
}

/// A lexical error: its condition and the 1-based line it is tagged with.
pub struct LexError {
    pub kind: LexErrorKind,
    pub line: int,
}

/// What consuming one lexeme at a given cursor does: emit a token and
/// move the cursor and line, move them without a token (whitespace and
/// comments), or abort the scan.
pub enum LexStep {
    Token(SpecToken, int, int),
    Skip(int, int),
    Error(LexError),
}

/// What a whole scan yields: the token sequence, or the first error.
pub enum LexOutcome {
    Tokens(Seq<SpecToken>),
    Error(LexError),
}

/// The message each lexical error carries.
pub open spec fn error_message(kind: LexErrorKind) -> Seq<char> {
    match kind {
        LexErrorKind::UnterminatedString => "Unterminated string."@,
        LexErrorKind::InvalidCharacter => "Encountered an unknown token"@,
    }
}

/// The keyword table: which reserved word, if any, a spelling denotes.
pub open spec fn keyword_of(text: Seq<char>) -> Option<Keyword> {
    if text == "and"@ {
        Some(Keyword::And)
    } else if text == "class"@ {
        Some(Keyword::Class)
    } else if text == "else"@ {
        Some(Keyword::Else)
    } else if text == "false"@ {
        Some(Keyword::False)
    } else if text == "fun"@ {
        Some(Keyword::Fun)
    } else if text == "for"@ {
        Some(Keyword::For)
    } else if text == "if"@ {
        Some(Keyword::If)
    } else if text == "nil"@ {
        Some(Keyword::Nil)
    } else if text == "or"@ {
        Some(Keyword::Or)
    } else if text == "print"@ {
        Some(Keyword::Print)
    } else if text == "return"@ {
        Some(Keyword::Return)
    } else if text == "super"@ {
        Some(Keyword::Super)
    } else if text == "this"@ {
        Some(Keyword::This)
    } else if text == "true"@ {
        Some(Keyword::True)
    } else if text == "var"@ {
        Some(Keyword::Var)
    } else if text == "while"@ {
        Some(Keyword::While)
    } else {
        None
    }
}

/// The token category a single character resolves to on its own, for
/// the ten characters that need no lookahead (`/` is not among them:
/// it may start a comment).
pub open spec fn single_char_token(c: char) -> Option<SpecTokenType> {
    if c == '(' {
        Some(SpecTokenType::LeftParenthesis)
    } else if c == ')' {
        Some(SpecTokenType::RightParenthesis)
    } else if c == '{' {
        Some(SpecTokenType::LeftBrace)
    } else if c == '}' {
        Some(SpecTokenType::RightBrace)
    } else if c == ',' {
        Some(SpecTokenType::Comma)
    } else if c == '.' {
        Some(SpecTokenType::Dot)
    } else if c == '-' {
        Some(SpecTokenType::Minus)
    } else if c == '+' {
        Some(SpecTokenType::Plus)
    } else if c == ';' {
        Some(SpecTokenType::Semicolon)
    } else if c == '*' {
        Some(SpecTokenType::Star)
    } else {
        None
    }
}

/// The category of the operators `!`, `=`, `<`, `>`, each of which is
/// resolved by whether a `=` follows.
pub open spec fn operator_token(c: char, with_equal: bool) -> SpecTokenType {
    if c == '!' {
        if with_equal {
            SpecTokenType::BangEqual
        } else {
            SpecTokenType::Bang
        }
    } else if c == '=' {
        if with_equal {
            SpecTokenType::EqualEqual
        } else {
            SpecTokenType::Equal
        }
    } else if c == '<' {
        if with_equal {
            SpecTokenType::LessEqual
        } else {
            SpecTokenType::Less
        }
    } else {
        if with_equal {
            SpecTokenType::GreaterEqual
        } else {
            SpecTokenType::Greater
        }
    }
}

/// One dispatch of the scanner at cursor `i` on line `line`: which
/// lexeme the character at `i` starts, what token it emits, and where
/// the cursor and line stand afterwards.
pub open spec fn step(code: Seq<char>, i: int, line: int) -> LexStep
    recommends
        0 <= i < code.len(),
{
    let c = code[i];
    match single_char_token(c) {
        Some(tt) => LexStep::Token(
            SpecToken { token_type: tt, lexeme: code.subrange(i, i + 1), line },
            i + 1,
            line,
        ),
        None => if c == '/' {
            if i + 1 < code.len() && code[i + 1] == '/' {
                // A comment: everything up to the next newline is consumed
                // and produces nothing; the newline itself is left for the
                // next dispatch.
                LexStep::Skip(find_char(code, i + 2, '\n'), line)
            } else {
                LexStep::Token(
                    SpecToken {
                        token_type: SpecTokenType::Slash,
                        lexeme: code.subrange(i, i + 1),
                        line,
                    },
                    i + 1,
                    line,
                )
            }
        } else if c == '!' || c == '=' || c == '<' || c == '>' {
            if i + 1 < code.len() && code[i + 1] == '=' {
                LexStep::Token(
                    SpecToken {
                        token_type: operator_token(c, true),
                        lexeme: code.subrange(i, i + 2),
                        line,
                    },
                    i + 2,
                    line,
                )
            } else {
                LexStep::Token(
                    SpecToken {
                        token_type: operator_token(c, false),
                        lexeme: code.subrange(i, i + 1),
                        line,
                    },
                    i + 1,
                    line,
                )
            }
        } else if c == '"' {
            let close = find_char(code, i + 1, '"');
            let new_line = line + newline_count(code.subrange(i + 1, close));
            if close >= code.len() {
                LexStep::Error(LexError { kind: LexErrorKind::UnterminatedString, line: new_line })
            } else {
                LexStep::Token(
                    SpecToken {
                        token_type: SpecTokenType::String(code.subrange(i + 1, close)),
                        lexeme: code.subrange(i, close + 1),
                        line: new_line,
                    },
                    close + 1,
                    new_line,
                )
            }
        } else if c == ' ' || c == '\t' || c == '\r' {
            LexStep::Skip(i + 1, line)
        } else if c == '\n' {
            LexStep::Skip(i + 1, line + 1)
        } else if is_digit_char(c) {
            let whole = digits_end(code, i);
            let end = if whole < code.len() && code[whole] == '.' && whole + 1 < code.len()
                && is_digit_char(code[whole + 1]) {
                digits_end(code, whole + 1)
            } else {
                whole
            };
            LexStep::Token(
                SpecToken {
                    token_type: SpecTokenType::Number(code.subrange(i, end)),
                    lexeme: code.subrange(i, end),
                    line,
                },
                end,
                line,
            )
        } else if is_word_start(c) {
            let end = word_end(code, i);
            let text = code.subrange(i, end);
            let tt = match keyword_of(text) {
                Some(k) => SpecTokenType::Keyword(k),
                None => SpecTokenType::Identifier(text),
            };
            LexStep::Token(SpecToken { token_type: tt, lexeme: text, line }, end, line)
        } else {
            LexStep::Error(LexError { kind: LexErrorKind::InvalidCharacter, line })
        },
    }
}

/// Every dispatch on an unconsumed character moves the cursor strictly
/// forward and keeps it within the text.
pub proof fn lemma_step_in_range(code: Seq<char>, i: int, line: int)
    requires
        0 <= i < code.len(),
    ensures
        match step(code, i, line) {
            LexStep::Token(_, next, _) => i < next <= code.len(),
            LexStep::Skip(next, _) => i < next <= code.len(),
            LexStep::Error(_) => true,
        },
{
    if i + 2 <= code.len() {
        lemma_find_char(code, i + 2, '\n');
    }
    lemma_find_char(code, i + 1, '"');
    lemma_digits_end(code, i);
    let whole = digits_end(code, i);
    if whole + 1 <= code.len() {
        lemma_digits_end(code, whole + 1);
    }
    lemma_word_end(code, i);
}

/// The end-of-input marker: the one token whose lexeme is empty.
pub open spec fn eof_token(line: int) -> SpecToken {
    SpecToken { token_type: SpecTokenType::EOF, lexeme: Seq::<char>::empty(), line }
}

/// The scan from cursor `i` on line `line` to the end of the text:
/// dispatch one lexeme at a time until the text is exhausted, then
/// close the sequence with the end-of-input token; the first error
/// aborts everything.
pub open spec fn scan_rest(code: Seq<char>, i: int, line: int) -> LexOutcome
    recommends
        0 <= i <= code.len(),
    decreases code.len() - i,
{
    if i < 0 || i >= code.len() {
        LexOutcome::Tokens(seq![eof_token(line)])
    } else {
        proof {
            lemma_step_in_range(code, i, line);
        }
        match step(code, i, line) {
            LexStep::Token(t, next, new_line) => match scan_rest(code, next, new_line) {
                LexOutcome::Tokens(rest) => LexOutcome::Tokens(seq![t] + rest),
                LexOutcome::Error(e) => LexOutcome::Error(e),
            },
            LexStep::Skip(next, new_line) => scan_rest(code, next, new_line),
            LexStep::Error(e) => LexOutcome::Error(e),
        }
    }
}

/// The whole scan: from the start of the text, on line 1.
pub open spec fn scan_spec(code: Seq<char>) -> LexOutcome {
    scan_rest(code, 0, 1)
}

/// No dispatch emits the end-of-input marker: that token is appended
/// once, by `scan_rest`, when the text is exhausted.
proof fn lemma_step_not_eof(code: Seq<char>, i: int, line: int)
    requires
        0 <= i < code.len(),
    ensures
        match step(code, i, line) {
            LexStep::Token(t, _, _) => !(t.token_type is EOF),
            LexStep::Skip(_, _) => true,
            LexStep::Error(_) => true,
        },
{
}

/// Every token a dispatch emits sits on the line the dispatch ends on,
/// and lines only grow.
proof fn lemma_step_lines(code: Seq<char>, i: int, line: int)
    requires
        0 <= i < code.len(),
    ensures
        match step(code, i, line) {
            LexStep::Token(t, _, new_line) => t.line == new_line && line <= new_line,
            LexStep::Skip(_, new_line) => line <= new_line,
            LexStep::Error(_) => true,
        },
{
    lemma_newline_count_bounds(code.subrange(i + 1, find_char(code, i + 1, '"')));
}

/// Scanning from any cursor yields a sequence that ends in exactly one
/// end-of-input token, whose lexeme is empty.
proof fn lemma_scan_rest_eof(code: Seq<char>, i: int, line: int)
    requires
        0 <= i <= code.len(),
    ensures
        match scan_rest(code, i, line) {
            LexOutcome::Tokens(tokens) => {
                &&& tokens.len() >= 1
                &&& tokens.last().token_type is EOF
                &&& tokens.last().lexeme == Seq::<char>::empty()
                &&& forall|k: int|
                    0 <= k < tokens.len() - 1 ==> !(#[trigger] tokens[k].token_type is EOF)
            },
            LexOutcome::Error(_) => true,
        },
    decreases code.len() - i,
{
    if i < code.len() {
        lemma_step_in_range(code, i, line);
        lemma_step_not_eof(code, i, line);
        match step(code, i, line) {
            LexStep::Token(t, next, new_line) => {
                lemma_scan_rest_eof(code, next, new_line);
                match scan_rest(code, next, new_line) {
                    LexOutcome::Tokens(rest) => {
                        let tokens = seq![t] + rest;
                        assert(tokens.last() == rest.last());
                        assert forall|k: int| 0 <= k < tokens.len() - 1 implies !(#[trigger] tokens[k].token_type is EOF) by {
                            if k > 0 {
                                assert(tokens[k] == rest[k - 1]);
                            }
                        }
                    },
                    LexOutcome::Error(_) => {},
                }
            },
            LexStep::Skip(next, new_line) => {
                lemma_scan_rest_eof(code, next, new_line);
            },
            LexStep::Error(_) => {},
        }
    }
}

/// Whenever a scan succeeds, its token
/// sequence ends in exactly one end-of-input token with an empty
/// lexeme; on an empty input the sequence is that one token alone, on
/// line 1.
pub proof fn lemma_scan_ends_in_eof(code: Seq<char>)
    ensures
        match scan_spec(code) {
            LexOutcome::Tokens(tokens) => {
                &&& tokens.len() >= 1
                &&& tokens.last().token_type is EOF
                &&& tokens.last().lexeme == Seq::<char>::empty()
                &&& forall|k: int|
                    0 <= k < tokens.len() - 1 ==> !(#[trigger] tokens[k].token_type is EOF)
            },
            LexOutcome::Error(_) => true,
        },
        code.len() == 0 ==> scan_spec(code) == LexOutcome::Tokens(seq![eof_token(1)]),
{
    lemma_scan_rest_eof(code, 0, 1);
}

/// Scanning from any cursor yields tokens whose lines start at the
/// current line and never decrease.
proof fn lemma_scan_rest_lines(code: Seq<char>, i: int, line: int)
    requires
        0 <= i <= code.len(),
    ensures
        match scan_rest(code, i, line) {
            LexOutcome::Tokens(tokens) => {
                &&& forall|k: int| 0 <= k < tokens.len() ==> line <= #[trigger] tokens[k].line
                &&& forall|k1: int, k2: int|
                    0 <= k1 <= k2 < tokens.len() ==> #[trigger] tokens[k1].line
                        <= #[trigger] tokens[k2].line
            },
            LexOutcome::Error(_) => true,
        },
    decreases code.len() - i,
{
    if i < code.len() {
        lemma_step_in_range(code, i, line);
        lemma_step_lines(code, i, line);
        match step(code, i, line) {
            LexStep::Token(t, next, new_line) => {
                lemma_scan_rest_lines(code, next, new_line);
                match scan_rest(code, next, new_line) {
                    LexOutcome::Tokens(rest) => {
                        let tokens = seq![t] + rest;
                        assert forall|k: int| 0 <= k < tokens.len() implies line <= #[trigger] tokens[k].line by {
                            if k > 0 {
                                assert(tokens[k] == rest[k - 1]);
                            }
                        }
                        assert forall|k1: int, k2: int|
                            0 <= k1 <= k2 < tokens.len() implies #[trigger] tokens[k1].line
                            <= #[trigger] tokens[k2].line by {
                            if k1 > 0 {
                                assert(tokens[k1] == rest[k1 - 1]);
                            }
                            if k2 > 0 {
                                assert(tokens[k2] == rest[k2 - 1]);
                            }
                        }
                    },
                    LexOutcome::Error(_) => {},
                }
            },
            LexStep::Skip(next, new_line) => {
                lemma_scan_rest_lines(code, next, new_line);
            },
            LexStep::Error(_) => {},
        }
    }
}

/// Across a successful scan's output the line
/// numbers never decrease, and they start no earlier than line 1.
pub proof fn lemma_scan_lines_nondecreasing(code: Seq<char>)
    ensures
        match scan_spec(code) {
            LexOutcome::Tokens(tokens) => {
                &&& forall|k: int| 0 <= k < tokens.len() ==> 1 <= #[trigger] tokens[k].line
                &&& forall|k1: int, k2: int|
                    0 <= k1 <= k2 < tokens.len() ==> #[trigger] tokens[k1].line
                        <= #[trigger] tokens[k2].line
            },
            LexOutcome::Error(_) => true,
        },
{
    lemma_scan_rest_lines(code, 0, 1);
}

/// Whether `s` is exactly the characters `a..b` of `code`.
pub open spec fn slice_between(code: Seq<char>, s: Seq<char>, a: int, b: int) -> bool {
    &&& 0 <= a <= b <= code.len()
    &&& s == code.subrange(a, b)
}

/// Whether `s` is a contiguous slice of `code`.
pub open spec fn is_slice_of(code: Seq<char>, s: Seq<char>) -> bool {
    exists|a: int, b: int| slice_between(code, s, a, b)
}

/// Whether `s` splits at `d` into the shape of a numeric lexeme: `d`
/// digits, then either nothing or a decimal point followed by at least
/// one further digit.
pub open spec fn number_split_at(s: Seq<char>, d: int) -> bool {
    &&& 1 <= d <= s.len()
    &&& (forall|k: int| 0 <= k < d ==> is_digit_char(#[trigger] s[k]))
    &&& (d == s.len() || (d + 2 <= s.len() && s[d] == '.' && (forall|k: int|
        d + 1 <= k < s.len() ==> is_digit_char(#[trigger] s[k]))))
}

/// The grammar of a numeric lexeme: one or more digits, optionally
/// followed by a decimal point and one or more further digits.  Every
/// such text parses as a decimal number.
pub open spec fn is_number_text(s: Seq<char>) -> bool {
    exists|d: int| number_split_at(s, d)
}

/// Every token a dispatch emits has a non-empty lexeme that is a
/// contiguous slice of the source, and a number token's payload is its
/// lexeme and matches the numeric grammar.
proof fn lemma_step_token_facts(code: Seq<char>, i: int, line: int)
    requires
        0 <= i < code.len(),
    ensures
        match step(code, i, line) {
            LexStep::Token(t, _, _) => {
                &&& t.lexeme.len() >= 1
                &&& is_slice_of(code, t.lexeme)
                &&& match t.token_type {
                    SpecTokenType::Number(text) => text == t.lexeme && is_number_text(text),
                    _ => true,
                }
            },
            LexStep::Skip(_, _) => true,
            LexStep::Error(_) => true,
        },
{
    let c = code[i];
    assert(slice_between(code, code.subrange(i, i + 1), i, i + 1));
    if i + 2 <= code.len() {
        assert(slice_between(code, code.subrange(i, i + 2), i, i + 2));
    }
    lemma_find_char(code, i + 1, '"');
    let close = find_char(code, i + 1, '"');
    if close < code.len() {
        assert(slice_between(code, code.subrange(i, close + 1), i, close + 1));
    }
    if is_digit_char(c) {
        lemma_digits_end(code, i);
        let whole = digits_end(code, i);
        let end = if whole < code.len() && code[whole] == '.' && whole + 1 < code.len()
            && is_digit_char(code[whole + 1]) {
            lemma_digits_end(code, whole + 1);
            digits_end(code, whole + 1)
        } else {
            whole
        };
        let text = code.subrange(i, end);
        assert(slice_between(code, text, i, end));
        assert(number_split_at(text, whole - i));
    }
    if is_word_char(c) {
        lemma_word_end(code, i);
        let end = word_end(code, i);
        assert(slice_between(code, code.subrange(i, end), i, end));
    }
}

/// Scanning from any cursor yields tokens all of which, but for the
/// end marker, satisfy the shape facts of `lemma_step_token_facts`.
proof fn lemma_scan_rest_token_facts(code: Seq<char>, i: int, line: int)
    requires
        0 <= i <= code.len(),
    ensures
        match scan_rest(code, i, line) {
            LexOutcome::Tokens(tokens) => forall|k: int|
                0 <= k < tokens.len() - 1 ==> {
                    let t = #[trigger] tokens[k];
                    &&& t.lexeme.len() >= 1
                    &&& is_slice_of(code, t.lexeme)
                    &&& match t.token_type {
                        SpecTokenType::Number(text) => text == t.lexeme && is_number_text(text),
                        _ => true,
                    }
                },
            LexOutcome::Error(_) => true,
        },
    decreases code.len() - i,
{
    if i < code.len() {
        lemma_step_in_range(code, i, line);
        lemma_step_token_facts(code, i, line);
        match step(code, i, line) {
            LexStep::Token(t, next, new_line) => {
                lemma_scan_rest_token_facts(code, next, new_line);
                match scan_rest(code, next, new_line) {
                    LexOutcome::Tokens(rest) => {
                        let tokens = seq![t] + rest;
                        assert forall|k: int| 0 <= k < tokens.len() - 1 implies {
                            let u = #[trigger] tokens[k];
                            &&& u.lexeme.len() >= 1
                            &&& is_slice_of(code, u.lexeme)
                            &&& match u.token_type {
                                SpecTokenType::Number(text) => text == u.lexeme
                                    && is_number_text(text),
                                _ => true,
                            }
                        } by {
                            if k > 0 {
                                assert(tokens[k] == rest[k - 1]);
                            }
                        }
                    },
                    LexOutcome::Error(_) => {},
                }
            },
            LexStep::Skip(next, new_line) => {
                lemma_scan_rest_token_facts(code, next, new_line);
            },
            LexStep::Error(_) => {},
        }
    }
}

/// Every token of a successful scan, but for the
/// end marker, carries a non-empty lexeme that is a contiguous slice
/// of the source; and every number token's payload is its lexeme and
/// matches the numeric grammar, so that turning it into a float cannot
/// fail.
pub proof fn lemma_scan_token_shapes(code: Seq<char>)
    ensures
        match scan_spec(code) {
            LexOutcome::Tokens(tokens) => forall|k: int|
                0 <= k < tokens.len() - 1 ==> {
                    let t = #[trigger] tokens[k];
                    &&& t.lexeme.len() >= 1
                    &&& is_slice_of(code, t.lexeme)
                    &&& match t.token_type {
                        SpecTokenType::Number(text) => text == t.lexeme && is_number_text(text),
                        _ => true,
                    }
                },
            LexOutcome::Error(_) => true,
        },
{
    lemma_scan_rest_token_facts(code, 0, 1);
}

/// A string literal opened at `i` on
/// `line` yields a token (or an unterminated-string error) whose line
/// is `line` plus one increment for each newline the literal's
/// contents hold — each embedded newline counts exactly once.
pub proof fn lemma_string_newlines(code: Seq<char>, i: int, line: int)
    requires
        0 <= i < code.len(),
        code[i] == '"',
    ensures
        match step(code, i, line) {
            LexStep::Token(t, _, _) => match t.token_type {
                SpecTokenType::String(contents) => t.line == line + newline_count(contents),
                _ => false,
            },
            LexStep::Skip(_, _) => false,
            LexStep::Error(e) => e.kind is UnterminatedString && e.line == line + newline_count(
                code.subrange(i + 1, code.len() as int),
            ),
        },
{
    lemma_find_char(code, i + 1, '"');
}

} // verus!
