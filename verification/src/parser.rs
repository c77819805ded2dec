//! The parser: recursive descent over the tokens, one function for each
//! rule of the grammar.

use vstd::prelude::*;
use crate::expr::Expr;
use crate::grammar::{
    binary, expression, has_end, is_boundary, is_operator, kind_at, lemma_expression_sound,
    lemma_next_boundary_is_first, next_boundary, operand, operator_rank, primary, reads, rest,
    resume_point, unary, width, Parsed, Tier,
};
use crate::lox::{error_at_token, Error};
use crate::token::{token_views, Literal, Token, TokenType, TokenView};

verus! {

/// The state of a parse: the tokens and the position of the next one.
pub struct Parser {
    tokens: Vec<Token>,
    current: usize,
}

/// A parser as mathematics sees it.
pub ghost struct ParserView {
    pub tokens: Seq<TokenView>,
    pub current: int,
}

impl ParserView {
    /// An end-of-input token stands at the parser's position or after it, so
    /// that the parser cannot run off the tokens.
    pub open spec fn wf(self) -> bool {
        0 <= self.current && has_end(self.tokens, self.current)
    }
}

impl View for Parser {
    type V = ParserView;

    closed spec fn view(&self) -> ParserView {
        ParserView { tokens: token_views(self.tokens@), current: self.current as int }
    }
}

/// `result` and the position reached are what `parsed` says.
pub open spec fn agrees(result: Result<Expr, Error>, position: int, parsed: Parsed) -> bool {
    match result {
        Ok(expr) => parsed == (Parsed::Tree { expr: expr@, next: position }),
        Err(error) => parsed == (Parsed::Fault { error: error@, at: position }),
    }
}

impl Parser {
    /// A parser at the first of `tokens`.  It is ready to parse if the
    /// tokens end with the end-of-input token.
    pub fn new(tokens: Vec<Token>) -> (parser: Self)
        ensures
            parser@ == (ParserView { tokens: token_views(tokens@), current: 0 }),
            tokens@.len() > 0 && tokens@.last().token_type == TokenType::Eof ==> parser@.wf(),
    {
        proof {
            if tokens@.len() > 0 && tokens@.last().token_type == TokenType::Eof {
                assert(token_views(tokens@)[tokens@.len() - 1].token_type == TokenType::Eof);
            }
        }
        Parser { tokens: tokens, current: 0 }
    }

    /// Parses one expression from the parser's position on, and stops after
    /// it: what follows the expression is left where it is.  The expression
    /// is written with the tokens that the parser has passed, in their order.
    pub fn parse(&mut self) -> (result: Result<Expr, Error>)
        requires
            old(self)@.wf(),
        ensures
            final(self)@.wf(),
            final(self)@.tokens == old(self)@.tokens,
            agrees(result, final(self)@.current, expression(old(self)@.tokens, old(self)@.current)),
            match result {
                Ok(expr) => {
                    &&& reads(expr@, old(self)@.tokens, old(self)@.current)
                    &&& final(self)@.current == old(self)@.current + width(expr@)
                    &&& operator_rank(kind_at(old(self)@.tokens, final(self)@.current)) == 0
                },
                Err(_) => old(self)@.current <= final(self)@.current,
            },
    {
        proof {
            lemma_expression_sound(self@.tokens, self@.current);
        }
        self.expression()
    }

    /// `expression -> equality`
    fn expression(&mut self) -> (result: Result<Expr, Error>)
        requires
            old(self)@.wf(),
        ensures
            final(self)@.wf(),
            final(self)@.tokens == old(self)@.tokens,
            agrees(result, final(self)@.current, expression(old(self)@.tokens, old(self)@.current)),
            result.is_ok() ==> final(self)@.current > old(self)@.current,
        decreases old(self)@.tokens.len() - old(self)@.current, 5nat, 0nat,
    {
        self.equality()
    }

    /// `equality -> comparison ( ( "!=" | "==" ) comparison )*`
    fn equality(&mut self) -> (result: Result<Expr, Error>)
        requires
            old(self)@.wf(),
        ensures
            final(self)@.wf(),
            final(self)@.tokens == old(self)@.tokens,
            agrees(
                result,
                final(self)@.current,
                binary(old(self)@.tokens, old(self)@.current, Tier::Equality),
            ),
            result.is_ok() ==> final(self)@.current > old(self)@.current,
        decreases old(self)@.tokens.len() - old(self)@.current, 4nat, 2nat,
    {
        let mut expr = self.comparison()?;
        let operators = [TokenType::BangEqual, TokenType::EqualEqual];
        while self.match_many(&operators)
            invariant
                self@.wf(),
                self@.tokens == old(self)@.tokens,
                old(self)@.current < self@.current,
                forall|token_type: TokenType|
                    operators@.contains(token_type) <==> is_operator(Tier::Equality, token_type),
                rest(self@.tokens, expr@, self@.current, Tier::Equality) == binary(
                    old(self)@.tokens,
                    old(self)@.current,
                    Tier::Equality,
                ),
            decreases self@.tokens.len() - self@.current,
        {
            assert(operand(self@.tokens, self@.current, Tier::Equality) == binary(
                self@.tokens,
                self@.current,
                Tier::Comparison,
            ));
            let operator = self.previous().clone();
            let right = self.comparison()?;
            expr = Expr::Binary(Box::new(expr), operator, Box::new(right));
        }
        Ok(expr)
    }

    /// `comparison -> addition ( ( ">" | ">=" | "<" | "<=" ) addition )*`
    fn comparison(&mut self) -> (result: Result<Expr, Error>)
        requires
            old(self)@.wf(),
        ensures
            final(self)@.wf(),
            final(self)@.tokens == old(self)@.tokens,
            agrees(
                result,
                final(self)@.current,
                binary(old(self)@.tokens, old(self)@.current, Tier::Comparison),
            ),
            result.is_ok() ==> final(self)@.current > old(self)@.current,
        decreases old(self)@.tokens.len() - old(self)@.current, 3nat, 2nat,
    {
        let mut expr = self.addition()?;
        let operators = [
            TokenType::Greater,
            TokenType::GreaterEqual,
            TokenType::Less,
            TokenType::LessEqual,
        ];
        while self.match_many(&operators)
            invariant
                self@.wf(),
                self@.tokens == old(self)@.tokens,
                old(self)@.current < self@.current,
                forall|token_type: TokenType|
                    operators@.contains(token_type) <==> is_operator(Tier::Comparison, token_type),
                rest(self@.tokens, expr@, self@.current, Tier::Comparison) == binary(
                    old(self)@.tokens,
                    old(self)@.current,
                    Tier::Comparison,
                ),
            decreases self@.tokens.len() - self@.current,
        {
            assert(operand(self@.tokens, self@.current, Tier::Comparison) == binary(
                self@.tokens,
                self@.current,
                Tier::Addition,
            ));
            let operator = self.previous().clone();
            let right = self.addition()?;
            expr = Expr::Binary(Box::new(expr), operator, Box::new(right));
        }
        Ok(expr)
    }

    /// `addition -> multiplication ( ( "-" | "+" ) multiplication )*`
    fn addition(&mut self) -> (result: Result<Expr, Error>)
        requires
            old(self)@.wf(),
        ensures
            final(self)@.wf(),
            final(self)@.tokens == old(self)@.tokens,
            agrees(
                result,
                final(self)@.current,
                binary(old(self)@.tokens, old(self)@.current, Tier::Addition),
            ),
            result.is_ok() ==> final(self)@.current > old(self)@.current,
        decreases old(self)@.tokens.len() - old(self)@.current, 2nat, 2nat,
    {
        let mut expr = self.multiplication()?;
        let operators = [TokenType::Minus, TokenType::Plus];
        while self.match_many(&operators)
            invariant
                self@.wf(),
                self@.tokens == old(self)@.tokens,
                old(self)@.current < self@.current,
                forall|token_type: TokenType|
                    operators@.contains(token_type) <==> is_operator(Tier::Addition, token_type),
                rest(self@.tokens, expr@, self@.current, Tier::Addition) == binary(
                    old(self)@.tokens,
                    old(self)@.current,
                    Tier::Addition,
                ),
            decreases self@.tokens.len() - self@.current,
        {
            assert(operand(self@.tokens, self@.current, Tier::Addition) == binary(
                self@.tokens,
                self@.current,
                Tier::Multiplication,
            ));
            let operator = self.previous().clone();
            let right = self.multiplication()?;
            expr = Expr::Binary(Box::new(expr), operator, Box::new(right));
        }
        Ok(expr)
    }

    /// `multiplication -> unary ( ( "/" | "*" ) unary )*`
    fn multiplication(&mut self) -> (result: Result<Expr, Error>)
        requires
            old(self)@.wf(),
        ensures
            final(self)@.wf(),
            final(self)@.tokens == old(self)@.tokens,
            agrees(
                result,
                final(self)@.current,
                binary(old(self)@.tokens, old(self)@.current, Tier::Multiplication),
            ),
            result.is_ok() ==> final(self)@.current > old(self)@.current,
        decreases old(self)@.tokens.len() - old(self)@.current, 1nat, 2nat,
    {
        let mut expr = self.unary()?;
        let operators = [TokenType::Slash, TokenType::Star];
        while self.match_many(&operators)
            invariant
                self@.wf(),
                self@.tokens == old(self)@.tokens,
                old(self)@.current < self@.current,
                forall|token_type: TokenType|
                    operators@.contains(token_type) <==> is_operator(
                        Tier::Multiplication,
                        token_type,
                    ),
                rest(self@.tokens, expr@, self@.current, Tier::Multiplication) == binary(
                    old(self)@.tokens,
                    old(self)@.current,
                    Tier::Multiplication,
                ),
            decreases self@.tokens.len() - self@.current,
        {
            assert(operand(self@.tokens, self@.current, Tier::Multiplication) == unary(
                self@.tokens,
                self@.current,
            ));
            let operator = self.previous().clone();
            let right = self.unary()?;
            expr = Expr::Binary(Box::new(expr), operator, Box::new(right));
        }
        Ok(expr)
    }

    /// `unary -> ( "!" | "-" ) unary | primary`
    fn unary(&mut self) -> (result: Result<Expr, Error>)
        requires
            old(self)@.wf(),
        ensures
            final(self)@.wf(),
            final(self)@.tokens == old(self)@.tokens,
            agrees(result, final(self)@.current, unary(old(self)@.tokens, old(self)@.current)),
            result.is_ok() ==> final(self)@.current > old(self)@.current,
        decreases old(self)@.tokens.len() - old(self)@.current, 0nat, 1nat,
    {
        let operators = [TokenType::Bang, TokenType::Minus];
        if self.match_many(&operators) {
            let operator = self.previous().clone();
            let right = self.unary()?;
            return Ok(Expr::Unary(operator, Box::new(right)));
        }
        self.primary()
    }

    /// `primary -> NUMBER | STRING | "false" | "true" | "nil" | "(" expression ")"`
    fn primary(&mut self) -> (result: Result<Expr, Error>)
        requires
            old(self)@.wf(),
        ensures
            final(self)@.wf(),
            final(self)@.tokens == old(self)@.tokens,
            agrees(result, final(self)@.current, primary(old(self)@.tokens, old(self)@.current)),
            result.is_ok() ==> final(self)@.current > old(self)@.current,
        decreases old(self)@.tokens.len() - old(self)@.current, 0nat, 0nat,
    {
        let literals = [TokenType::Number, TokenType::Str];
        if self.match_one(TokenType::False) {
            Ok(Expr::Literal(Literal::Bool(false)))
        } else if self.match_one(TokenType::True) {
            Ok(Expr::Literal(Literal::Bool(true)))
        } else if self.match_one(TokenType::Nil) {
            Ok(Expr::Literal(Literal::Nil))
        } else if self.match_many(&literals) {
            Ok(Expr::Literal(self.previous().literal.clone()))
        } else if self.match_one(TokenType::LeftParen) {
            let expr = self.expression()?;
            self.consume(TokenType::RightParen, "Expect ')' after expression.")?;
            Ok(Expr::Grouping(Box::new(expr)))
        } else {
            Err(Error::from_token(self.peek().clone(), "Expect expression."))
        }
    }

    /// Passes over the next token if it is of the given category, and fails
    /// with `message` at the next token if it is not.
    fn consume(&mut self, token_type: TokenType, message: &str) -> (result: Result<&Token, Error>)
        requires
            old(self)@.wf(),
        ensures
            final(self)@.wf(),
            final(self)@.tokens == old(self)@.tokens,
            result.is_ok() <==> token_type != TokenType::Eof && kind_at(
                old(self)@.tokens,
                old(self)@.current,
            ) == token_type,
            match result {
                Ok(token) => {
                    &&& final(self)@.current == old(self)@.current + 1
                    &&& token@ == old(self)@.tokens[old(self)@.current]
                },
                Err(error) => {
                    &&& final(self)@.current == old(self)@.current
                    &&& error@ == error_at_token(old(self)@.tokens[old(self)@.current], message@)
                },
            },
    {
        if self.check(token_type) {
            Ok(self.advance())
        } else {
            Err(Error::from_token(self.peek().clone(), message))
        }
    }

    /// Passes over tokens up to the next place where a statement may begin:
    /// after a semicolon, or before a token that begins a statement.  At the
    /// end of input it stays where it is.
    pub fn synchronize(&mut self)
        requires
            old(self)@.wf(),
        ensures
            final(self)@.wf(),
            final(self)@.tokens == old(self)@.tokens,
            final(self)@.current == resume_point(old(self)@.tokens, old(self)@.current),
            is_boundary(final(self)@.tokens, final(self)@.current),
            forall|pos: int|
                old(self)@.current < pos < final(self)@.current ==> !is_boundary(
                    old(self)@.tokens,
                    pos,
                ),
    {
        proof {
            lemma_next_boundary_is_first(self@.tokens, self@.current + 1);
        }
        if self.is_at_end() {
            return ;
        }
        self.advance();
        while !self.is_at_end()
            invariant
                self@.wf(),
                self@.tokens == old(self)@.tokens,
                self@.current > old(self)@.current,
                kind_at(old(self)@.tokens, old(self)@.current) != TokenType::Eof,
                next_boundary(self@.tokens, self@.current) == next_boundary(
                    old(self)@.tokens,
                    old(self)@.current + 1,
                ),
            decreases self@.tokens.len() - self@.current,
        {
            if let TokenType::Semicolon = self.previous().token_type {
                proof {
                    lemma_next_boundary_is_first(self@.tokens, old(self)@.current + 1);
                }
                return ;
            }
            match self.peek().token_type {
                TokenType::Class
                | TokenType::Fun
                | TokenType::Var
                | TokenType::For
                | TokenType::If
                | TokenType::While
                | TokenType::Print
                | TokenType::Return => {
                    proof {
                        lemma_next_boundary_is_first(self@.tokens, old(self)@.current + 1);
                    }
                    return ;
                },
                _ => {},
            }
            assert(!is_boundary(self@.tokens, self@.current));
            self.advance();
        }
    }

    /// Passes over the next token if it is of the given category.
    fn match_one(&mut self, token_type: TokenType) -> (matched: bool)
        requires
            old(self)@.wf(),
        ensures
            final(self)@.wf(),
            final(self)@.tokens == old(self)@.tokens,
            matched == (token_type != TokenType::Eof && kind_at(
                old(self)@.tokens,
                old(self)@.current,
            ) == token_type),
            final(self)@.current == old(self)@.current + if matched {
                1int
            } else {
                0int
            },
    {
        if self.check(token_type) {
            self.advance();
            return true;
        }
        return false;
    }

    /// Passes over the next token if it is of one of the given categories.
    fn match_many(&mut self, types: &[TokenType]) -> (matched: bool)
        requires
            old(self)@.wf(),
        ensures
            final(self)@.wf(),
            final(self)@.tokens == old(self)@.tokens,
            matched == (kind_at(old(self)@.tokens, old(self)@.current) != TokenType::Eof
                && types@.contains(kind_at(old(self)@.tokens, old(self)@.current))),
            final(self)@.current == old(self)@.current + if matched {
                1int
            } else {
                0int
            },
    {
        let mut i: usize = 0;
        while i < types.len()
            invariant
                i <= types@.len(),
                self@ == old(self)@,
                self@.wf(),
                forall|j: int|
                    0 <= j < i ==> kind_at(self@.tokens, self@.current) == TokenType::Eof
                        || types@[j] != kind_at(self@.tokens, self@.current),
            decreases types@.len() - i,
        {
            if self.check(types[i]) {
                self.advance();
                return true;
            }
            i += 1;
        }
        return false;
    }

    /// Whether the next token is of the given category.  At the end of
    /// input, no category is found.
    fn check(&self, token_type: TokenType) -> (found: bool)
        requires
            self@.wf(),
        ensures
            found == (kind_at(self@.tokens, self@.current) != TokenType::Eof && kind_at(
                self@.tokens,
                self@.current,
            ) == token_type),
    {
        if self.is_at_end() {
            return false;
        }
        self.peek().token_type == token_type
    }

    /// Passes over the next token, unless it is the end of input, and
    /// returns the token before the position reached.
    fn advance(&mut self) -> (token: &Token)
        requires
            old(self)@.wf(),
            old(self)@.current > 0 || kind_at(old(self)@.tokens, old(self)@.current)
                != TokenType::Eof,
        ensures
            final(self)@.wf(),
            final(self)@.tokens == old(self)@.tokens,
            final(self)@.current == old(self)@.current + if kind_at(
                old(self)@.tokens,
                old(self)@.current,
            ) != TokenType::Eof {
                1int
            } else {
                0int
            },
            token@ == old(self)@.tokens[final(self)@.current - 1],
    {
        if !self.is_at_end() {
            self.current += 1;
        }
        self.previous()
    }

    /// Whether the next token is the end of input.
    fn is_at_end(&self) -> (at_end: bool)
        requires
            self@.wf(),
        ensures
            at_end == (kind_at(self@.tokens, self@.current) == TokenType::Eof),
            self@.current < self@.tokens.len(),
            self.current < self.tokens.len(),
    {
        self.peek().token_type == TokenType::Eof
    }

    /// The next token.
    fn peek(&self) -> (token: &Token)
        requires
            self@.wf(),
        ensures
            self@.current < self@.tokens.len(),
            token@ == self@.tokens[self@.current],
    {
        &self.tokens[self.current]
    }

    /// The token before the next.
    fn previous(&self) -> (token: &Token)
        requires
            0 < self@.current <= self@.tokens.len(),
        ensures
            token@ == self@.tokens[self@.current - 1],
    {
        &self.tokens[self.current - 1]
    }
}

} // verus!
