//! The diagnostic that scanning and parsing fail with, and the pipeline from
//! source text to the printed form of the expression it holds.

use vstd::prelude::*;
use crate::expr::render;
use crate::grammar::{expression, Parsed};
use crate::lexicon::scan;
use crate::parser::Parser;
use crate::scanner::Scanner;
use crate::text::{decimal, decimal_text};
use crate::token::{Token, TokenType, TokenView};

verus! {

/// What went wrong, and where.
#[derive(Debug)]
pub struct Error {
    pub line: usize,
    pub at: String,
    pub message: String,
}

/// A diagnostic as mathematics sees it.
pub ghost struct ErrorView {
    pub line: nat,
    pub at: Seq<char>,
    pub message: Seq<char>,
}

impl View for Error {
    type V = ErrorView;

    open spec fn view(&self) -> ErrorView {
        ErrorView { line: self.line as nat, at: self.at@, message: self.message@ }
    }
}

/// The note that places a diagnostic at a token: the end of input is named
/// as such, any other token is quoted.
pub open spec fn location_note(token: TokenView) -> Seq<char> {
    if token.token_type == TokenType::Eof {
        " at end"@
    } else {
        " at '"@ + token.lexeme + "'"@
    }
}

/// The diagnostic for a fault found at `token`.
pub open spec fn error_at_token(token: TokenView, message: Seq<char>) -> ErrorView {
    ErrorView { line: token.line, at: location_note(token), message }
}

/// The diagnostic for a fault found on `line`, with no location note.
pub open spec fn error_at_line(line: nat, message: Seq<char>) -> ErrorView {
    ErrorView { line, at: Seq::empty(), message }
}

/// The one-line report of a diagnostic.
pub open spec fn error_text(error: ErrorView) -> Seq<char> {
    "[line "@ + decimal_text(error.line) + "] Error"@ + error.at + ": "@ + error.message
}

impl Error {
    /// A diagnostic located at `token`.
    pub fn from_token(token: Token, message: &str) -> (error: Self)
        ensures
            error@ == error_at_token(token@, message@),
    {
        let at = match token.token_type {
            TokenType::Eof => " at end".to_owned(),
            _ => {
                let mut at = " at '".to_owned();
                at.append(token.lexeme.as_str());
                at.append("'");
                at
            },
        };
        Error { line: token.line, at, message: message.to_owned() }
    }

    /// A diagnostic located by its line alone.
    pub fn from_line(line: usize, message: &str) -> (error: Self)
        ensures
            error@ == error_at_line(line as nat, message@),
    {
        Error { line, at: String::new(), message: message.to_owned() }
    }

    /// The report `[line L] Error<at>: <message>`.
    pub fn to_string(&self) -> (text: String)
        ensures
            text@ == error_text(self@),
    {
        let mut text = "[line ".to_owned();
        text.append(decimal(self.line).as_str());
        text.append("] Error");
        text.append(self.at.as_str());
        text.append(": ");
        text.append(self.message.as_str());
        text
    }
}

/// What running `source` gives: the printed form of the expression that it
/// holds, or the first fault found in scanning or parsing it.
pub open spec fn run_spec(source: Seq<char>) -> Result<Seq<char>, ErrorView> {
    match scan(source) {
        Ok(tokens) => match expression(tokens, 0) {
            Parsed::Tree { expr, .. } => Ok(render(expr)),
            Parsed::Fault { error, .. } => Err(error),
        },
        Err(error) => Err(error),
    }
}

/// Scans `source`, parses the expression that it holds and returns its
/// printed form.
pub fn run(source: &str) -> (result: Result<String, Error>)
    requires
        source@.len() < usize::MAX,
    ensures
        match result {
            Ok(text) => run_spec(source@) == Ok::<Seq<char>, ErrorView>(text@),
            Err(error) => run_spec(source@) == Err::<Seq<char>, ErrorView>(error@),
        },
{
    let mut scanner = Scanner::new(source);
    let tokens = scanner.scan_tokens()?;
    let mut parser = Parser::new(tokens);
    let expression = parser.parse()?;
    Ok(expression.to_string())
}

} // verus!
