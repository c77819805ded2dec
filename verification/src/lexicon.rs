//! What scanning means: which token, if any, starts at a position of the
//! source, and which sequence of tokens a whole source gives.

use vstd::prelude::*;
use crate::lox::{error_at_line, ErrorView};
use crate::number::{number_of, parse_number};
use crate::text::{
    is_alpha, is_digit, is_identifier_part, lemma_run_end, lemma_run_end_unique, run_end, Run,
};
use crate::token::{LiteralView, TokenType, TokenView};

verus! {

/// The reserved word that `text` spells, if it spells one.
pub open spec fn keyword(text: Seq<char>) -> Option<TokenType> {
    if text == "and"@ {
        Some(TokenType::And)
    } else if text == "class"@ {
        Some(TokenType::Class)
    } else if text == "else"@ {
        Some(TokenType::Else)
    } else if text == "false"@ {
        Some(TokenType::False)
    } else if text == "for"@ {
        Some(TokenType::For)
    } else if text == "fun"@ {
        Some(TokenType::Fun)
    } else if text == "if"@ {
        Some(TokenType::If)
    } else if text == "nil"@ {
        Some(TokenType::Nil)
    } else if text == "or"@ {
        Some(TokenType::Or)
    } else if text == "print"@ {
        Some(TokenType::Print)
    } else if text == "return"@ {
        Some(TokenType::Return)
    } else if text == "super"@ {
        Some(TokenType::Super)
    } else if text == "this"@ {
        Some(TokenType::This)
    } else if text == "true"@ {
        Some(TokenType::True)
    } else if text == "var"@ {
        Some(TokenType::Var)
    } else if text == "while"@ {
        Some(TokenType::While)
    } else {
        None
    }
}

/// How many line breaks `s` holds.
pub open spec fn newlines(s: Seq<char>) -> nat
    decreases s.len(),
{
    if s.len() == 0 {
        0
    } else {
        newlines(s.drop_last()) + if s.last() == '\n' {
            1nat
        } else {
            0nat
        }
    }
}

/// What the scanner finds at one position: a token, text to pass over, or a
/// fault.  Each says where the scanner stands afterwards and on which line.
pub ghost enum Lexed {
    /// A token, read from the characters up to `end`.
    Token { token_type: TokenType, literal: LiteralView, end: int, line: nat },
    /// Blank space or a comment.
    Skip { end: int, line: nat },
    /// Text that starts no token.
    Fault { error: ErrorView, end: int, line: nat },
}

/// A token that carries no value.
pub open spec fn plain(token_type: TokenType, end: int, line: nat) -> Lexed {
    Lexed::Token { token_type, literal: LiteralView::Nil, end, line }
}

/// The character after `start` is `c`.
pub open spec fn followed_by(src: Seq<char>, start: int, c: char) -> bool {
    start + 1 < src.len() && src[start + 1] == c
}

/// An operator of one character that `=` prolongs into one of two.
pub open spec fn one_or_two(
    src: Seq<char>,
    start: int,
    line: nat,
    short: TokenType,
    long: TokenType,
) -> Lexed {
    if followed_by(src, start, '=') {
        plain(long, start + 2, line)
    } else {
        plain(short, start + 1, line)
    }
}

/// A string literal that opens at `start`: everything up to the next double
/// quote, line breaks included.  Without a closing quote it is a fault,
/// reported on the line of the opening quote.
pub open spec fn string_at(src: Seq<char>, start: int, line: nat) -> Lexed {
    let close = run_end(src, start + 1, Run::Quoted);
    if close >= src.len() {
        Lexed::Fault {
            error: error_at_line(line, "Unterminated string."@),
            end: src.len() as int,
            line: line + newlines(src.subrange(start + 1, src.len() as int)),
        }
    } else {
        Lexed::Token {
            token_type: TokenType::Str,
            literal: LiteralView::Str(src.subrange(start + 1, close)),
            end: close + 1,
            line: line + newlines(src.subrange(start + 1, close)),
        }
    }
}

/// A number that starts at `start`: the longest run of digits and, where a
/// point and a digit follow it, the point and the longest run of digits
/// after it.
pub open spec fn number_at(src: Seq<char>, start: int, line: nat) -> Lexed {
    let point = run_end(src, start, Run::Digits);
    if point < src.len() && src[point] == '.' && point + 1 < src.len() && is_digit(src[point + 1]) {
        let end = run_end(src, point + 1, Run::Digits);
        Lexed::Token {
            token_type: TokenType::Number,
            literal: LiteralView::Number(
                number_of(src.subrange(start, point), src.subrange(point + 1, end)),
            ),
            end,
            line,
        }
    } else {
        Lexed::Token {
            token_type: TokenType::Number,
            literal: LiteralView::Number(number_of(src.subrange(start, point), Seq::empty())),
            end: point,
            line,
        }
    }
}

/// A word that starts at `start`: the longest run of identifier characters,
/// which is a reserved word if the table holds it and an identifier if not.
pub open spec fn word_at(src: Seq<char>, start: int, line: nat) -> Lexed {
    let end = run_end(src, start + 1, Run::Identifier);
    match keyword(src.subrange(start, end)) {
        Some(token_type) => plain(token_type, end, line),
        None => plain(TokenType::Identifier, end, line),
    }
}

/// What the scanner finds at `start`, standing on line `line`.
pub open spec fn lex_at(src: Seq<char>, start: int, line: nat) -> Lexed
    recommends
        0 <= start < src.len(),
{
    let c = src[start];
    if c == '(' {
        plain(TokenType::LeftParen, start + 1, line)
    } else if c == ')' {
        plain(TokenType::RightParen, start + 1, line)
    } else if c == '{' {
        plain(TokenType::LeftBrace, start + 1, line)
    } else if c == '}' {
        plain(TokenType::RightBrace, start + 1, line)
    } else if c == ',' {
        plain(TokenType::Comma, start + 1, line)
    } else if c == '.' {
        plain(TokenType::Dot, start + 1, line)
    } else if c == '-' {
        plain(TokenType::Minus, start + 1, line)
    } else if c == '+' {
        plain(TokenType::Plus, start + 1, line)
    } else if c == ';' {
        plain(TokenType::Semicolon, start + 1, line)
    } else if c == '*' {
        plain(TokenType::Star, start + 1, line)
    } else if c == '!' {
        one_or_two(src, start, line, TokenType::Bang, TokenType::BangEqual)
    } else if c == '=' {
        one_or_two(src, start, line, TokenType::Equal, TokenType::EqualEqual)
    } else if c == '<' {
        one_or_two(src, start, line, TokenType::Less, TokenType::LessEqual)
    } else if c == '>' {
        one_or_two(src, start, line, TokenType::Greater, TokenType::GreaterEqual)
    } else if c == '/' {
        if followed_by(src, start, '/') {
            Lexed::Skip { end: run_end(src, start + 2, Run::Comment), line }
        } else {
            plain(TokenType::Slash, start + 1, line)
        }
    } else if c == ' ' || c == '\r' || c == '\t' {
        Lexed::Skip { end: start + 1, line }
    } else if c == '\n' {
        Lexed::Skip { end: start + 1, line: line + 1 }
    } else if c == '"' {
        string_at(src, start, line)
    } else if is_digit(c) {
        number_at(src, start, line)
    } else if is_alpha(c) {
        word_at(src, start, line)
    } else {
        Lexed::Fault {
            error: error_at_line(line, "Unexpected character: "@.push(c)),
            end: start + 1,
            line,
        }
    }
}

/// Where the scanner stands after what it found.
pub open spec fn end_of(lexed: Lexed) -> int {
    match lexed {
        Lexed::Token { end, .. } => end,
        Lexed::Skip { end, .. } => end,
        Lexed::Fault { end, .. } => end,
    }
}

/// The line that the scanner stands on after what it found.
pub open spec fn line_of(lexed: Lexed) -> nat {
    match lexed {
        Lexed::Token { line, .. } => line,
        Lexed::Skip { line, .. } => line,
        Lexed::Fault { line, .. } => line,
    }
}

/// Whatever the scanner finds, it moves on by at least one character, stays
/// within the source and never goes back a line.
pub proof fn lemma_lex_at_advances(src: Seq<char>, start: int, line: nat)
    requires
        0 <= start < src.len(),
    ensures
        start < end_of(lex_at(src, start, line)) <= src.len(),
        line <= line_of(lex_at(src, start, line)),
{
    lemma_run_end(src, start + 1, Run::Quoted);
    lemma_run_end(src, start + 1, Run::Identifier);
    lemma_run_end(src, start, Run::Digits);
    let point = run_end(src, start, Run::Digits);
    if point + 1 <= src.len() {
        lemma_run_end(src, point + 1, Run::Digits);
    }
    if start + 2 <= src.len() {
        lemma_run_end(src, start + 2, Run::Comment);
    }
}

/// `c` stands at `pos`.
pub open spec fn char_at(src: Seq<char>, pos: int, c: char) -> bool {
    0 <= pos < src.len() && src[pos] == c
}

/// Every token is as long as it can be: an operator that `=` could prolong
/// is not followed by `=`, a slash is not followed by a slash, no digit
/// follows a number, nor a point with a digit after it where the number has
/// no point yet, and no identifier character follows a word.
pub proof fn lemma_maximal_munch(src: Seq<char>, start: int, line: nat)
    requires
        0 <= start < src.len(),
    ensures
        match lex_at(src, start, line) {
            Lexed::Token { token_type, end, .. } => {
                &&& token_type == TokenType::Bang || token_type == TokenType::Equal || token_type
                    == TokenType::Less || token_type == TokenType::Greater ==> !char_at(
                    src,
                    end,
                    '=',
                )
                &&& token_type == TokenType::Slash ==> !char_at(src, end, '/')
                &&& token_type == TokenType::Number ==> {
                    &&& end < src.len() ==> !is_digit(src[end])
                    &&& end == run_end(src, start, Run::Digits) ==> !(char_at(src, end, '.')
                        && end + 1 < src.len() && is_digit(src[end + 1]))
                }
                &&& token_type == TokenType::Identifier || keyword(src.subrange(start, end))
                    == Some(token_type) ==> (end < src.len() ==> !is_identifier_part(src[end]))
            },
            _ => true,
        },
{
    lemma_run_end(src, start + 1, Run::Identifier);
    lemma_run_end(src, start, Run::Digits);
    let point = run_end(src, start, Run::Digits);
    if point < src.len() {
        lemma_run_end(src, point + 1, Run::Digits);
    }
}

/// The value of a number token is the number that its lexeme spells.
pub proof fn lemma_number_at_reads_lexeme(src: Seq<char>, start: int, line: nat)
    requires
        0 <= start < src.len(),
        is_digit(src[start]),
    ensures
        match number_at(src, start, line) {
            Lexed::Token { literal: LiteralView::Number(number), end, .. } => parse_number(
                src.subrange(start, end),
            ) == Some(number),
            _ => false,
        },
{
    let point = run_end(src, start, Run::Digits);
    lemma_run_end(src, start, Run::Digits);
    if point < src.len() {
        lemma_run_end(src, point + 1, Run::Digits);
    }
    let end = end_of(number_at(src, start, line));
    let lexeme = src.subrange(start, end);
    assert forall|i: int| 0 <= i < point - start implies is_digit(#[trigger] lexeme[i]) by {
        assert(lexeme[i] == src[start + i]);
    }
    lemma_run_end_unique(lexeme, 0, Run::Digits, point - start);
    if end == point {
        assert(lexeme == src.subrange(start, point));
    } else {
        assert forall|i: int| point - start + 1 <= i < lexeme.len() implies is_digit(
            #[trigger] lexeme[i],
        ) by {
            assert(lexeme[i] == src[start + i]);
        }
        lemma_run_end_unique(lexeme, point - start + 1, Run::Digits, lexeme.len() as int);
        assert(lexeme.subrange(0, point - start) == src.subrange(start, point));
        assert(lexeme.subrange(point - start + 1, lexeme.len() as int) == src.subrange(
            point + 1,
            end,
        ));
    }
}

/// How far scanning has come: the position, the line, and the tokens read.
pub ghost struct Progress {
    pub pos: int,
    pub line: nat,
    pub tokens: Seq<TokenView>,
}

/// The token read from `src[start..end]`.
pub open spec fn token_from(
    src: Seq<char>,
    start: int,
    token_type: TokenType,
    literal: LiteralView,
    end: int,
    line: nat,
) -> TokenView {
    TokenView { token_type, lexeme: src.subrange(start, end), literal, line }
}

/// How far scanning has come after what it found at `at`.
pub open spec fn after(src: Seq<char>, at: Progress, lexed: Lexed) -> Progress {
    match lexed {
        Lexed::Token { token_type, literal, end, line } => Progress {
            pos: end,
            line,
            tokens: at.tokens.push(token_from(src, at.pos, token_type, literal, end, line)),
        },
        Lexed::Skip { end, line } => Progress { pos: end, line, tokens: at.tokens },
        Lexed::Fault { end, line, .. } => Progress { pos: end, line, tokens: at.tokens },
    }
}

/// The fault in what the scanner found, if it is one.
pub open spec fn fault_of(lexed: Lexed) -> Option<ErrorView> {
    match lexed {
        Lexed::Fault { error, .. } => Some(error),
        _ => None,
    }
}

/// Scanning from `at` to the end of `src`, or to the first fault: where it
/// stops, and the fault if there was one.
pub open spec fn scan_from(src: Seq<char>, at: Progress) -> (Progress, Option<ErrorView>)
    decreases src.len() - at.pos,
{
    if 0 <= at.pos < src.len() {
        let lexed = lex_at(src, at.pos, at.line);
        if fault_of(lexed).is_some() {
            (after(src, at, lexed), fault_of(lexed))
        } else {
            proof {
                lemma_lex_at_advances(src, at.pos, at.line);
            }
            scan_from(src, after(src, at, lexed))
        }
    } else {
        (at, None)
    }
}

/// The token that closes every sequence of tokens.
pub open spec fn end_of_input(line: nat) -> TokenView {
    TokenView {
        token_type: TokenType::Eof,
        lexeme: Seq::empty(),
        literal: LiteralView::Nil,
        line,
    }
}

/// Where scanning starts.
pub open spec fn start_of_input() -> Progress {
    Progress { pos: 0, line: 1, tokens: Seq::empty() }
}

/// The tokens of `src`, closed by the end-of-input token, or the first fault
/// in it.
pub open spec fn scan(src: Seq<char>) -> Result<Seq<TokenView>, ErrorView> {
    let (end, fault) = scan_from(src, start_of_input());
    match fault {
        Some(error) => Err(error),
        None => Ok(end.tokens.push(end_of_input(end.line))),
    }
}

/// No token of `tokens` is the end-of-input token.
pub open spec fn no_end_token(tokens: Seq<TokenView>) -> bool {
    forall|i: int| 0 <= i < tokens.len() ==> (#[trigger] tokens[i]).token_type != TokenType::Eof
}

/// The lines of `tokens` start at one or later, never decrease along the
/// sequence, and none is beyond `line`.
pub open spec fn lines_ascend(tokens: Seq<TokenView>, line: nat) -> bool {
    &&& forall|i: int, j: int|
        0 <= i <= j < tokens.len() ==> (#[trigger] tokens[i]).line <= (#[trigger] tokens[j]).line
    &&& forall|i: int| 0 <= i < tokens.len() ==> 1 <= (#[trigger] tokens[i]).line <= line
}

/// No reserved word is the end of input.
pub proof fn lemma_keyword_is_no_end(text: Seq<char>)
    ensures
        keyword(text) != Some(TokenType::Eof),
{
}

/// Scanning on keeps what the tokens read so far have: none of them is the
/// end-of-input token, and their lines never decrease.  It keeps the tokens
/// themselves, never goes back in the source or in the line count, and
/// without a fault it reaches the end of the source.
pub proof fn lemma_scan_from_keeps_order(src: Seq<char>, at: Progress)
    requires
        0 <= at.pos <= src.len(),
        1 <= at.line,
        no_end_token(at.tokens),
        lines_ascend(at.tokens, at.line),
    ensures
        ({
            let (end, fault) = scan_from(src, at);
            &&& no_end_token(end.tokens)
            &&& lines_ascend(end.tokens, end.line)
            &&& at.line <= end.line
            &&& at.pos <= end.pos <= src.len()
            &&& fault.is_none() ==> end.pos == src.len()
            &&& at.tokens.len() <= end.tokens.len()
            &&& end.tokens.take(at.tokens.len() as int) == at.tokens
        }),
    decreases src.len() - at.pos,
{
    if at.pos < src.len() {
        lemma_lex_at_advances(src, at.pos, at.line);
        let lexed = lex_at(src, at.pos, at.line);
        let next = after(src, at, lexed);
        if fault_of(lexed).is_none() {
            lemma_keyword_is_no_end(
                src.subrange(at.pos, run_end(src, at.pos + 1, Run::Identifier)),
            );
            lemma_scan_from_keeps_order(src, next);
            let (end, _) = scan_from(src, next);
            assert(end.tokens.take(at.tokens.len() as int) == end.tokens.take(
                next.tokens.len() as int,
            ).take(at.tokens.len() as int));
        }
    }
}

/// The tokens of a source end with the end-of-input token, which has no
/// lexeme and no value; no token before it is the end-of-input token; and
/// the lines of the tokens start at one and never decrease.
pub proof fn lemma_scan_token_sequence(src: Seq<char>)
    ensures
        match scan(src) {
            Ok(tokens) => {
                &&& tokens.len() >= 1
                &&& tokens.last().token_type == TokenType::Eof
                &&& tokens.last().lexeme == Seq::<char>::empty()
                &&& tokens.last().literal == LiteralView::Nil
                &&& no_end_token(tokens.drop_last())
                &&& lines_ascend(tokens, tokens.last().line)
            },
            Err(_) => true,
        },
{
    lemma_scan_from_keeps_order(src, start_of_input());
}

} // verus!
