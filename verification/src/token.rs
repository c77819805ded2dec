//! Tokens: the lexical categories, the values that literals carry, and the
//! token record that the scanner hands to the parser.

use vstd::prelude::*;
use crate::number::{lemma_order_asymmetric, lemma_order_total, Number, NumberView};
use crate::text::{
    comes_before, lemma_text_order_asymmetric, lemma_text_order_total, text_less,
};
use std::cmp::Ordering;

verus! {

/// The lexical categories.
#[derive(Clone, Copy, Debug, PartialEq, Eq, Structural)]
pub enum TokenType {
    LeftParen,
    RightParen,
    LeftBrace,
    RightBrace,
    Comma,
    Dot,
    Minus,
    Plus,
    Semicolon,
    Slash,
    Star,
    Bang,
    BangEqual,
    Equal,
    EqualEqual,
    Greater,
    GreaterEqual,
    Less,
    LessEqual,
    Identifier,
    Str,
    Number,
    And,
    Class,
    Else,
    False,
    Fun,
    For,
    If,
    Nil,
    Or,
    Print,
    Return,
    Super,
    This,
    True,
    Var,
    While,
    Eof,
}

/// The name of a category, as it is written in the source of this crate.
pub open spec fn kind_name(token_type: TokenType) -> Seq<char> {
    match token_type {
        TokenType::LeftParen => "LeftParen"@,
        TokenType::RightParen => "RightParen"@,
        TokenType::LeftBrace => "LeftBrace"@,
        TokenType::RightBrace => "RightBrace"@,
        TokenType::Comma => "Comma"@,
        TokenType::Dot => "Dot"@,
        TokenType::Minus => "Minus"@,
        TokenType::Plus => "Plus"@,
        TokenType::Semicolon => "Semicolon"@,
        TokenType::Slash => "Slash"@,
        TokenType::Star => "Star"@,
        TokenType::Bang => "Bang"@,
        TokenType::BangEqual => "BangEqual"@,
        TokenType::Equal => "Equal"@,
        TokenType::EqualEqual => "EqualEqual"@,
        TokenType::Greater => "Greater"@,
        TokenType::GreaterEqual => "GreaterEqual"@,
        TokenType::Less => "Less"@,
        TokenType::LessEqual => "LessEqual"@,
        TokenType::Identifier => "Identifier"@,
        TokenType::Str => "Str"@,
        TokenType::Number => "Number"@,
        TokenType::And => "And"@,
        TokenType::Class => "Class"@,
        TokenType::Else => "Else"@,
        TokenType::False => "False"@,
        TokenType::Fun => "Fun"@,
        TokenType::For => "For"@,
        TokenType::If => "If"@,
        TokenType::Nil => "Nil"@,
        TokenType::Or => "Or"@,
        TokenType::Print => "Print"@,
        TokenType::Return => "Return"@,
        TokenType::Super => "Super"@,
        TokenType::This => "This"@,
        TokenType::True => "True"@,
        TokenType::Var => "Var"@,
        TokenType::While => "While"@,
        TokenType::Eof => "Eof"@,
    }
}

impl TokenType {
    /// The name of the category.
    pub fn to_string(&self) -> (name: String)
        ensures
            name@ == kind_name(*self),
    {
        let name: &str = match self {
            TokenType::LeftParen => "LeftParen",
            TokenType::RightParen => "RightParen",
            TokenType::LeftBrace => "LeftBrace",
            TokenType::RightBrace => "RightBrace",
            TokenType::Comma => "Comma",
            TokenType::Dot => "Dot",
            TokenType::Minus => "Minus",
            TokenType::Plus => "Plus",
            TokenType::Semicolon => "Semicolon",
            TokenType::Slash => "Slash",
            TokenType::Star => "Star",
            TokenType::Bang => "Bang",
            TokenType::BangEqual => "BangEqual",
            TokenType::Equal => "Equal",
            TokenType::EqualEqual => "EqualEqual",
            TokenType::Greater => "Greater",
            TokenType::GreaterEqual => "GreaterEqual",
            TokenType::Less => "Less",
            TokenType::LessEqual => "LessEqual",
            TokenType::Identifier => "Identifier",
            TokenType::Str => "Str",
            TokenType::Number => "Number",
            TokenType::And => "And",
            TokenType::Class => "Class",
            TokenType::Else => "Else",
            TokenType::False => "False",
            TokenType::Fun => "Fun",
            TokenType::For => "For",
            TokenType::If => "If",
            TokenType::Nil => "Nil",
            TokenType::Or => "Or",
            TokenType::Print => "Print",
            TokenType::Return => "Return",
            TokenType::Super => "Super",
            TokenType::This => "This",
            TokenType::True => "True",
            TokenType::Var => "Var",
            TokenType::While => "While",
            TokenType::Eof => "Eof",
        };
        name.to_owned()
    }
}

/// The value that a literal stands for.
#[derive(Debug)]
pub enum Literal {
    Nil,
    Bool(bool),
    Number(Number),
    Str(String),
}

/// A literal value as mathematics sees it.
pub ghost enum LiteralView {
    Nil,
    Bool(bool),
    Number(NumberView),
    Str(Seq<char>),
}

impl View for Literal {
    type V = LiteralView;

    open spec fn view(&self) -> LiteralView {
        match self {
            Literal::Nil => LiteralView::Nil,
            Literal::Bool(b) => LiteralView::Bool(*b),
            Literal::Number(n) => LiteralView::Number(n@),
            Literal::Str(s) => LiteralView::Str(s@),
        }
    }
}

/// The text that a literal value is printed as.
pub open spec fn literal_text(literal: LiteralView) -> Seq<char> {
    match literal {
        LiteralView::Nil => "nil"@,
        LiteralView::Bool(b) => if b {
            "true"@
        } else {
            "false"@
        },
        LiteralView::Number(n) => n.text(),
        LiteralView::Str(s) => s,
    }
}

impl Clone for Literal {
    fn clone(&self) -> (copy: Self)
        ensures
            copy@ == self@,
    {
        match self {
            Literal::Nil => Literal::Nil,
            Literal::Bool(b) => Literal::Bool(*b),
            Literal::Number(n) => Literal::Number(n.clone()),
            Literal::Str(s) => Literal::Str(s.clone()),
        }
    }
}

impl PartialEq for Literal {
    fn eq(&self, other: &Self) -> (same: bool) {
        match (self, other) {
            (Literal::Nil, Literal::Nil) => true,
            (Literal::Bool(a), Literal::Bool(b)) => *a == *b,
            (Literal::Number(a), Literal::Number(b)) => *a == *b,
            (Literal::Str(a), Literal::Str(b)) => *a == *b,
            _ => false,
        }
    }
}

impl vstd::std_specs::cmp::PartialEqSpecImpl for Literal {
    open spec fn obeys_eq_spec() -> bool {
        true
    }

    open spec fn eq_spec(&self, other: &Self) -> bool {
        self@ == other@
    }
}

/// The order that two values stand in, of which it is known whether the
/// first is the smaller and whether the second is.
pub open spec fn order_of(less: bool, greater: bool) -> Ordering {
    if less {
        Ordering::Less
    } else if greater {
        Ordering::Greater
    } else {
        Ordering::Equal
    }
}

/// The order of literal values.  `Nil` equals itself, numbers stand in
/// numeric order and strings in the order of their characters; a boolean
/// stands in no order to anything, and neither do values of two kinds.
pub open spec fn literal_order(left: LiteralView, right: LiteralView) -> Option<Ordering> {
    match (left, right) {
        (LiteralView::Nil, LiteralView::Nil) => Some(Ordering::Equal),
        (LiteralView::Number(l), LiteralView::Number(r)) => Some(
            order_of(l.less_than(r), r.less_than(l)),
        ),
        (LiteralView::Str(l), LiteralView::Str(r)) => Some(
            order_of(text_less(l, r), text_less(r, l)),
        ),
        _ => None,
    }
}

/// The numbers among literal values are in canonical form.
pub open spec fn literal_wf(literal: LiteralView) -> bool {
    literal matches LiteralView::Number(number) ==> number.wf()
}

/// Which values stand in an order: two of `Nil`, two numbers or two
/// strings, and no others.
pub proof fn lemma_literal_order_defined(left: LiteralView, right: LiteralView)
    ensures
        literal_order(left, right).is_some() <==> (left is Nil && right is Nil) || (left is Number
            && right is Number) || (left is Str && right is Str),
        left is Bool || right is Bool ==> literal_order(left, right).is_none(),
{
}

/// Values that stand in an order are in the order `Equal` exactly when they
/// are the same value.
pub proof fn lemma_literal_order_equal(left: LiteralView, right: LiteralView)
    requires
        literal_wf(left),
        literal_wf(right),
        literal_order(left, right).is_some(),
    ensures
        literal_order(left, right) == Some(Ordering::Equal) <==> left == right,
{
    match (left, right) {
        (LiteralView::Number(l), LiteralView::Number(r)) => {
            lemma_order_asymmetric(l, r);
            if l != r {
                lemma_order_total(l, r);
            }
        },
        (LiteralView::Str(l), LiteralView::Str(r)) => {
            lemma_text_order_asymmetric(l, r);
            if l != r {
                lemma_text_order_total(l, r);
            }
        },
        _ => {},
    }
}

/// One value is less than another exactly when the other is greater than
/// it.
pub proof fn lemma_literal_order_converse(left: LiteralView, right: LiteralView)
    ensures
        literal_order(left, right) == Some(Ordering::Less) <==> literal_order(right, left) == Some(
            Ordering::Greater,
        ),
{
    match (left, right) {
        (LiteralView::Number(l), LiteralView::Number(r)) => {
            lemma_order_asymmetric(l, r);
        },
        (LiteralView::Str(l), LiteralView::Str(r)) => {
            lemma_text_order_asymmetric(l, r);
        },
        _ => {},
    }
}

/// The order that two values stand in, of which it is known whether the
/// first is the smaller and whether the second is.
fn three_way(less: bool, greater: bool) -> (order: Ordering)
    ensures
        order == order_of(less, greater),
{
    if less {
        Ordering::Less
    } else if greater {
        Ordering::Greater
    } else {
        Ordering::Equal
    }
}

impl PartialOrd for Literal {
    fn partial_cmp(&self, other: &Self) -> (order: Option<Ordering>) {
        match (self, other) {
            (Literal::Nil, Literal::Nil) => Some(Ordering::Equal),
            (Literal::Number(l), Literal::Number(r)) => Some(
                three_way(l.less_than(r), r.less_than(l)),
            ),
            (Literal::Str(l), Literal::Str(r)) => Some(
                three_way(comes_before(l.as_str(), r.as_str()), comes_before(r.as_str(), l.as_str())),
            ),
            _ => None,
        }
    }
}

impl vstd::std_specs::cmp::PartialOrdSpecImpl for Literal {
    open spec fn obeys_partial_cmp_spec() -> bool {
        true
    }

    open spec fn partial_cmp_spec(&self, other: &Self) -> Option<Ordering> {
        literal_order(self@, other@)
    }
}

impl Literal {
    /// The literal as it is printed: `nil`, `true` or `false`, a numeral, or
    /// the characters of a string without quotes.
    pub fn to_string(&self) -> (text: String)
        ensures
            text@ == literal_text(self@),
    {
        match self {
            Literal::Nil => "nil".to_owned(),
            Literal::Bool(b) => if *b {
                "true".to_owned()
            } else {
                "false".to_owned()
            },
            Literal::Number(n) => n.to_string(),
            Literal::Str(s) => s.clone(),
        }
    }
}

/// A token: its category, the text it was read from, the value it carries
/// and the line it was read on.
#[derive(Debug)]
pub struct Token {
    pub token_type: TokenType,
    pub lexeme: String,
    pub literal: Literal,
    pub line: usize,
}

/// A token as mathematics sees it.
pub ghost struct TokenView {
    pub token_type: TokenType,
    pub lexeme: Seq<char>,
    pub literal: LiteralView,
    pub line: nat,
}

impl View for Token {
    type V = TokenView;

    open spec fn view(&self) -> TokenView {
        TokenView {
            token_type: self.token_type,
            lexeme: self.lexeme@,
            literal: self.literal@,
            line: self.line as nat,
        }
    }
}

/// The views of a sequence of tokens.
pub open spec fn token_views(tokens: Seq<Token>) -> Seq<TokenView> {
    tokens.map_values(|token: Token| token@)
}

/// The text that a token is printed as: category, lexeme and literal,
/// separated by single spaces.
pub open spec fn token_text(token: TokenView) -> Seq<char> {
    kind_name(token.token_type) + seq![' '] + token.lexeme + seq![' '] + literal_text(token.literal)
}

impl Token {
    /// A token of the given parts.
    pub fn new(token_type: TokenType, lexeme: String, literal: Literal, line: usize) -> (token:
        Self)
        ensures
            token.token_type == token_type,
            token.lexeme == lexeme,
            token.literal == literal,
            token.line == line,
    {
        Token { token_type, lexeme, literal, line }
    }

    /// Category, lexeme and literal, separated by single spaces.
    pub fn to_string(&self) -> (text: String)
        ensures
            text@ == token_text(self@),
    {
        let mut text = self.token_type.to_string();
        text.push(' ');
        text.append(self.lexeme.as_str());
        text.push(' ');
        text.append(self.literal.to_string().as_str());
        text
    }
}

impl Clone for Token {
    fn clone(&self) -> (copy: Self)
        ensures
            copy@ == self@,
    {
        Token {
            token_type: self.token_type,
            lexeme: self.lexeme.clone(),
            literal: self.literal.clone(),
            line: self.line,
        }
    }
}

} // verus!
