//! The scanner: one pass over the characters of the source, from left to
//! right, that gathers the tokens.

use vstd::prelude::*;
use crate::lexicon::{
    after, end_of_input, fault_of, keyword, lemma_lex_at_advances, lex_at, newlines, number_at,
    scan_from, string_at, word_at, Lexed, Progress,
};
use crate::lox::Error;
use crate::number::Number;
use crate::text::{
    chars_of, is_alpha_numeric, is_ascii_digit, is_digit, is_word, lemma_run_end, run_end,
    text_of, Run,
};
use crate::token::{token_views, Literal, LiteralView, Token, TokenType, TokenView};

verus! {

/// The state of a scan: the source, the tokens gathered, where the token
/// under way started, where the scanner stands, and on which line.
pub struct Scanner {
    source: Vec<char>,
    tokens: Vec<Token>,
    start: usize,
    current: usize,
    line: usize,
}

/// A scanner as mathematics sees it.
pub ghost struct ScannerView {
    pub source: Seq<char>,
    pub tokens: Seq<TokenView>,
    pub start: int,
    pub current: int,
    pub line: nat,
}

impl ScannerView {
    /// The cursors are in order and within the source, and the line count
    /// is one more than a number of characters passed.
    pub open spec fn wf(self) -> bool {
        &&& 0 <= self.start <= self.current <= self.source.len() < usize::MAX
        &&& 1 <= self.line <= self.current + 1
    }

    /// How far the scan has come.
    pub open spec fn progress(self) -> Progress {
        Progress { pos: self.current, line: self.line, tokens: self.tokens }
    }

    /// A first character has been passed, and no more than that.
    pub open spec fn token_begun(self) -> bool {
        self.wf() && self.current == self.start + 1 && self.line <= self.current
    }

    /// `self` is the scanner `before` after it has read `lexed` from where
    /// its token starts.
    pub open spec fn has_read(self, before: ScannerView, lexed: Lexed) -> bool {
        &&& self.wf()
        &&& self.source == before.source
        &&& self.start == before.start
        &&& self.progress() == after(
            before.source,
            Progress { pos: before.start, ..before.progress() },
            lexed,
        )
    }
}

/// `result` fails with the fault in `lexed`, if that is one.
pub open spec fn reports(result: Result<(), Error>, lexed: Lexed) -> bool {
    match result {
        Ok(()) => fault_of(lexed).is_none(),
        Err(error) => fault_of(lexed) == Some(error@),
    }
}

impl View for Scanner {
    type V = ScannerView;

    closed spec fn view(&self) -> ScannerView {
        ScannerView {
            source: self.source@,
            tokens: token_views(self.tokens@),
            start: self.start as int,
            current: self.current as int,
            line: self.line as nat,
        }
    }
}

impl Scanner {
    /// A scanner at the start of `source`, on line one, with no token yet.
    pub fn new(source: &str) -> (scanner: Self)
        requires
            source@.len() < usize::MAX,
        ensures
            scanner@ == (ScannerView {
                source: source@,
                tokens: Seq::empty(),
                start: 0,
                current: 0,
                line: 1,
            }),
            scanner@.wf(),
    {
        let scanner = Scanner { source: chars_of(source), tokens: Vec::new(), start: 0, current: 0, line: 1 };
        assert(token_views(scanner.tokens@) == Seq::<TokenView>::empty());
        scanner
    }

    /// Scans on from where the scanner stands to the end of the source and
    /// closes the tokens with the end-of-input token, or stops at the first
    /// fault.  Returns all the tokens gathered; after a fault, none.
    pub fn scan_tokens(&mut self) -> (result: Result<Vec<Token>, Error>)
        requires
            old(self)@.wf(),
        ensures
            final(self)@.wf(),
            final(self)@.source == old(self)@.source,
            ({
                let (end, fault) = scan_from(old(self)@.source, old(self)@.progress());
                match result {
                    Ok(tokens) => {
                        &&& fault.is_none()
                        &&& tokens@.len() > 0
                        &&& tokens@.last().token_type == TokenType::Eof
                        &&& tokens@.last().lexeme@ == Seq::<char>::empty()
                        &&& tokens@.last().literal@ == LiteralView::Nil
                        &&& tokens@.last().line == end.line
                        &&& token_views(tokens@) == end.tokens.push(end_of_input(end.line))
                        &&& final(self)@.tokens == token_views(tokens@)
                        &&& final(self)@.current == end.pos
                        &&& final(self)@.line == end.line
                    },
                    Err(error) => {
                        &&& fault == Some(error@)
                        &&& final(self)@.progress() == end
                    },
                }
            }),
    {
        while !self.is_at_end()
            invariant
                self@.wf(),
                self@.source == old(self)@.source,
                scan_from(self@.source, self@.progress()) == scan_from(
                    old(self)@.source,
                    old(self)@.progress(),
                ),
            decreases self@.source.len() - self@.current,
        {
            self.start = self.current;
            proof {
                lemma_lex_at_advances(self@.source, self@.current, self@.line);
            }
            match self.scan_token() {
                Ok(()) => {},
                Err(error) => {
                    return Err(error);
                },
            }
        }
        self.tokens.push(Token::new(TokenType::Eof, String::new(), Literal::Nil, self.line));
        let tokens = self.tokens.clone();
        assert(token_views(tokens@) == token_views(self.tokens@)) by {
            assert forall|i: int| 0 <= i < tokens@.len() implies tokens@[i]@ == self.tokens@[i]@ by {
                assert(cloned(self.tokens@[i], tokens@[i]));
            }
        }
        assert(token_views(tokens@).last() == tokens@.last()@);
        Ok(tokens)
    }

    /// Reads what starts where the scanner stands: a token, which joins the
    /// tokens gathered, or blank space or a comment, which is passed over.
    fn scan_token(&mut self) -> (result: Result<(), Error>)
        requires
            old(self)@.wf(),
            old(self)@.start == old(self)@.current,
            old(self)@.current < old(self)@.source.len(),
        ensures
            final(self)@.has_read(
                old(self)@,
                lex_at(old(self)@.source, old(self)@.start, old(self)@.line),
            ),
            reports(result, lex_at(old(self)@.source, old(self)@.start, old(self)@.line)),
    {
        let c = self.advance();
        match c {
            '(' => self.add_token(TokenType::LeftParen),
            ')' => self.add_token(TokenType::RightParen),
            '{' => self.add_token(TokenType::LeftBrace),
            '}' => self.add_token(TokenType::RightBrace),
            ',' => self.add_token(TokenType::Comma),
            '.' => self.add_token(TokenType::Dot),
            '-' => self.add_token(TokenType::Minus),
            '+' => self.add_token(TokenType::Plus),
            ';' => self.add_token(TokenType::Semicolon),
            '*' => self.add_token(TokenType::Star),
            '!' | '=' | '<' | '>' => {
                let matched = self.match_char('=');
                self.add_token(
                    match c {
                        '!' => if matched {
                            TokenType::BangEqual
                        } else {
                            TokenType::Bang
                        },
                        '=' => if matched {
                            TokenType::EqualEqual
                        } else {
                            TokenType::Equal
                        },
                        '<' => if matched {
                            TokenType::LessEqual
                        } else {
                            TokenType::Less
                        },
                        _ => if matched {
                            TokenType::GreaterEqual
                        } else {
                            TokenType::Greater
                        },
                    },
                );
            },
            '/' => {
                let matched = self.match_char('/');
                if matched {
                    while self.peek() != '\n' && !self.is_at_end()
                        invariant
                            self.start <= self.current <= self.source.len() < usize::MAX,
                            1 <= self.line <= self.current + 1,
                            self.source@ == old(self).source@,
                            self.tokens@ == old(self).tokens@,
                            self.line == old(self).line,
                            self.start == old(self).start,
                            old(self).start + 2 <= self.current,
                            run_end(self.source@, self.current as int, Run::Comment) == run_end(
                                self.source@,
                                old(self).start + 2,
                                Run::Comment,
                            ),
                        decreases self.source.len() - self.current,
                    {
                        self.advance();
                    }
                } else {
                    self.add_token(TokenType::Slash);
                }
            },
            ' ' | '\r' | '\t' => {},
            '\n' => {
                self.line += 1;
            },
            '"' => {
                return self.string();
            },
            '0'..='9' => self.number(),
            'a'..='z' | 'A'..='Z' | '_' => self.identifier(),
            _ => {
                let mut message = "Unexpected character: ".to_owned();
                message.push(c);
                return Err(Error::from_line(self.line, message.as_str()));
            },
        }
        Ok(())
    }

    /// Whether the scanner stands at the end of the source.
    fn is_at_end(&self) -> (at_end: bool)
        ensures
            at_end == (self.current >= self.source.len()),
            at_end == (self@.current >= self@.source.len()),
    {
        self.current >= self.source.len()
    }

    /// Passes over one character and returns it.
    fn advance(&mut self) -> (c: char)
        requires
            old(self).current < old(self).source.len(),
        ensures
            c == old(self).source@[old(self).current as int],
            final(self).current == old(self).current + 1,
            final(self).source == old(self).source,
            final(self).tokens == old(self).tokens,
            final(self).start == old(self).start,
            final(self).line == old(self).line,
    {
        self.current += 1;
        self.source[self.current - 1]
    }

    /// Passes over the next character if it is `expected`.
    fn match_char(&mut self, expected: char) -> (matched: bool)
        requires
            old(self).current <= old(self).source.len(),
        ensures
            matched == (old(self).current < old(self).source.len() && old(self).source@[old(
                self,
            ).current as int] == expected),
            final(self).current == old(self).current + if matched {
                1int
            } else {
                0int
            },
            final(self).source == old(self).source,
            final(self).tokens == old(self).tokens,
            final(self).start == old(self).start,
            final(self).line == old(self).line,
    {
        if self.is_at_end() {
            return false;
        }
        if self.source[self.current] != expected {
            return false;
        }
        self.current += 1;
        true
    }

    /// The next character, or the null character at the end of the source.
    fn peek(&self) -> (c: char)
        ensures
            c == (if self.current < self.source.len() {
                self.source@[self.current as int]
            } else {
                '\0'
            }),
    {
        if self.is_at_end() {
            return '\0';
        }
        self.source[self.current]
    }

    /// The character after the next, or the null character where there is
    /// none.
    fn peek_next(&self) -> (c: char)
        requires
            self.current < usize::MAX,
        ensures
            c == (if self.current + 1 < self.source.len() {
                self.source@[self.current + 1]
            } else {
                '\0'
            }),
    {
        if self.current + 1 >= self.source.len() {
            return '\0';
        }
        self.source[self.current + 1]
    }

    /// Adds the token that ends where the scanner stands, with no value.
    fn add_token(&mut self, token_type: TokenType)
        requires
            old(self).start <= old(self).current <= old(self).source.len(),
        ensures
            final(self).current == old(self).current,
            final(self).source == old(self).source,
            final(self).start == old(self).start,
            final(self).line == old(self).line,
            token_views(final(self).tokens@) == token_views(old(self).tokens@).push(
                TokenView {
                    token_type,
                    lexeme: old(self).source@.subrange(
                        old(self).start as int,
                        old(self).current as int,
                    ),
                    literal: LiteralView::Nil,
                    line: old(self).line as nat,
                },
            ),
    {
        self.add_token_with_literal(token_type, Literal::Nil);
    }

    /// Adds the token that ends where the scanner stands.
    fn add_token_with_literal(&mut self, token_type: TokenType, literal: Literal)
        requires
            old(self).start <= old(self).current <= old(self).source.len(),
        ensures
            final(self).current == old(self).current,
            final(self).source == old(self).source,
            final(self).start == old(self).start,
            final(self).line == old(self).line,
            token_views(final(self).tokens@) == token_views(old(self).tokens@).push(
                TokenView {
                    token_type,
                    lexeme: old(self).source@.subrange(
                        old(self).start as int,
                        old(self).current as int,
                    ),
                    literal: literal@,
                    line: old(self).line as nat,
                },
            ),
    {
        let text = text_of(&self.source, self.start, self.current);
        self.tokens.push(Token::new(token_type, text, literal, self.line));
    }

    /// The reserved word that `token_str` spells, if it spells one.
    pub fn parse_token(token_str: &str) -> (token_type: Option<TokenType>)
        ensures
            token_type == keyword(token_str@),
    {
        let text = chars_of(token_str);
        if is_word(&text, "and") {
            Some(TokenType::And)
        } else if is_word(&text, "class") {
            Some(TokenType::Class)
        } else if is_word(&text, "else") {
            Some(TokenType::Else)
        } else if is_word(&text, "false") {
            Some(TokenType::False)
        } else if is_word(&text, "for") {
            Some(TokenType::For)
        } else if is_word(&text, "fun") {
            Some(TokenType::Fun)
        } else if is_word(&text, "if") {
            Some(TokenType::If)
        } else if is_word(&text, "nil") {
            Some(TokenType::Nil)
        } else if is_word(&text, "or") {
            Some(TokenType::Or)
        } else if is_word(&text, "print") {
            Some(TokenType::Print)
        } else if is_word(&text, "return") {
            Some(TokenType::Return)
        } else if is_word(&text, "super") {
            Some(TokenType::Super)
        } else if is_word(&text, "this") {
            Some(TokenType::This)
        } else if is_word(&text, "true") {
            Some(TokenType::True)
        } else if is_word(&text, "var") {
            Some(TokenType::Var)
        } else if is_word(&text, "while") {
            Some(TokenType::While)
        } else {
            None
        }
    }

    /// Reads a string literal whose opening quote has just been passed.
    fn string(&mut self) -> (result: Result<(), Error>)
        requires
            old(self)@.token_begun(),
        ensures
            final(self)@.has_read(
                old(self)@,
                string_at(old(self)@.source, old(self)@.start, old(self)@.line),
            ),
            reports(result, string_at(old(self)@.source, old(self)@.start, old(self)@.line)),
    {
        let line: usize = self.line;
        while self.peek() != '"' && !self.is_at_end()
            invariant
                self.start + 1 <= self.current <= self.source.len() < usize::MAX,
                self.source@ == old(self).source@,
                self.tokens@ == old(self).tokens@,
                self.start == old(self).start,
                line == old(self).line,
                self.line == line + newlines(
                    self.source@.subrange(self.start + 1, self.current as int),
                ),
                self.line <= self.current,
                run_end(self.source@, self.current as int, Run::Quoted) == run_end(
                    self.source@,
                    self.start + 1,
                    Run::Quoted,
                ),
            decreases self.source.len() - self.current,
        {
            if self.peek() == '\n' {
                self.line += 1;
            }
            assert(self.source@.subrange(self.start + 1, self.current + 1).drop_last()
                == self.source@.subrange(self.start + 1, self.current as int));
            self.advance();
        }
        if self.is_at_end() {
            return Err(Error::from_line(line, "Unterminated string."));
        }
        self.advance();
        let value = text_of(&self.source, self.start + 1, self.current - 1);
        self.add_token_with_literal(TokenType::Str, Literal::Str(value));
        Ok(())
    }

    /// Reads a number whose first digit has just been passed.
    fn number(&mut self)
        requires
            old(self)@.token_begun(),
            is_digit(old(self)@.source[old(self)@.start]),
        ensures
            final(self)@.has_read(
                old(self)@,
                number_at(old(self)@.source, old(self)@.start, old(self)@.line),
            ),
    {
        while is_ascii_digit(self.peek())
            invariant
                self.start + 1 <= self.current <= self.source.len() < usize::MAX,
                self.source@ == old(self).source@,
                self.tokens@ == old(self).tokens@,
                self.start == old(self).start,
                self.line == old(self).line,
                run_end(self.source@, self.current as int, Run::Digits) == run_end(
                    self.source@,
                    self.start as int,
                    Run::Digits,
                ),
            decreases self.source.len() - self.current,
        {
            self.advance();
        }
        let point: usize = self.current;
        let mut fraction: usize = point;
        proof {
            lemma_run_end(self.source@, self.start as int, Run::Digits);
        }
        if self.peek() == '.' {
            if is_ascii_digit(self.peek_next()) {
                self.advance();
                fraction = self.current;
                while is_ascii_digit(self.peek())
                    invariant
                        point + 1 <= self.current <= self.source.len() < usize::MAX,
                        self.source@ == old(self).source@,
                        self.tokens@ == old(self).tokens@,
                        self.start == old(self).start,
                        self.line == old(self).line,
                        run_end(self.source@, self.current as int, Run::Digits) == run_end(
                            self.source@,
                            point + 1,
                            Run::Digits,
                        ),
                    decreases self.source.len() - self.current,
                {
                    self.advance();
                }
                proof {
                    lemma_run_end(self.source@, point + 1, Run::Digits);
                }
            }
        }
        assert(fraction == point ==> self.source@.subrange(fraction as int, self.current as int)
            == Seq::<char>::empty());
        let value = Number::from_digits(&self.source, self.start, point, fraction, self.current);
        self.add_token_with_literal(TokenType::Number, Literal::Number(value));
    }

    /// Reads a word whose first character has just been passed.
    fn identifier(&mut self)
        requires
            old(self)@.token_begun(),
        ensures
            final(self)@.has_read(
                old(self)@,
                word_at(old(self)@.source, old(self)@.start, old(self)@.line),
            ),
    {
        while is_alpha_numeric(self.peek()) && !self.is_at_end()
            invariant
                self.start + 1 <= self.current <= self.source.len() < usize::MAX,
                self.source@ == old(self).source@,
                self.tokens@ == old(self).tokens@,
                self.start == old(self).start,
                self.line == old(self).line,
                run_end(self.source@, self.current as int, Run::Identifier) == run_end(
                    self.source@,
                    self.start + 1,
                    Run::Identifier,
                ),
            decreases self.source.len() - self.current,
        {
            self.advance();
        }
        let text = text_of(&self.source, self.start, self.current);
        match Scanner::parse_token(text.as_str()) {
            Some(token_type) => self.add_token(token_type),
            None => self.add_token(TokenType::Identifier),
        }
    }
}

} // verus!
