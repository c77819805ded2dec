//! The expression tree and its printed form.

use vstd::prelude::*;
use crate::token::{literal_text, Literal, LiteralView, Token, TokenView};

verus! {

/// An expression.  Every node owns its operands.
#[derive(Debug)]
pub enum Expr {
    Binary(Box<Expr>, Token, Box<Expr>),
    Grouping(Box<Expr>),
    Literal(Literal),
    Unary(Token, Box<Expr>),
}

/// An expression as mathematics sees it.
pub ghost enum ExprView {
    Binary(Box<ExprView>, TokenView, Box<ExprView>),
    Grouping(Box<ExprView>),
    Literal(LiteralView),
    Unary(TokenView, Box<ExprView>),
}

/// The view of an expression: the same tree over the views of its tokens
/// and literals.
pub open spec fn expr_view(expr: Expr) -> ExprView
    decreases expr,
{
    match expr {
        Expr::Binary(left, operator, right) => ExprView::Binary(
            Box::new(expr_view(*left)),
            operator@,
            Box::new(expr_view(*right)),
        ),
        Expr::Grouping(inner) => ExprView::Grouping(Box::new(expr_view(*inner))),
        Expr::Literal(value) => ExprView::Literal(value@),
        Expr::Unary(operator, operand) => ExprView::Unary(
            operator@,
            Box::new(expr_view(*operand)),
        ),
    }
}

impl View for Expr {
    type V = ExprView;

    open spec fn view(&self) -> ExprView {
        expr_view(*self)
    }
}

/// The printed form of an expression: prefix notation with every operation
/// in parentheses.
pub open spec fn render(expr: ExprView) -> Seq<char>
    decreases expr,
{
    match expr {
        ExprView::Binary(left, operator, right) => seq!['('] + operator.lexeme + seq![' ']
            + render(*left) + seq![' '] + render(*right) + seq![')'],
        ExprView::Grouping(inner) => "(group "@ + render(*inner) + seq![')'],
        ExprView::Literal(value) => literal_text(value),
        ExprView::Unary(operator, operand) => seq!['('] + operator.lexeme + seq![' '] + render(
            *operand,
        ) + seq![')'],
    }
}

impl Expr {
    /// The printed form of the expression.
    pub fn to_string(&self) -> (text: String)
        ensures
            text@ == render(self@),
        decreases self,
    {
        match self {
            Expr::Binary(left, operator, right) => {
                let mut text = String::new();
                text.push('(');
                text.append(operator.lexeme.as_str());
                text.push(' ');
                text.append(left.to_string().as_str());
                text.push(' ');
                text.append(right.to_string().as_str());
                text.push(')');
                text
            },
            Expr::Grouping(inner) => {
                let mut text = "(group ".to_owned();
                text.append(inner.to_string().as_str());
                text.push(')');
                text
            },
            Expr::Literal(value) => value.to_string(),
            Expr::Unary(operator, operand) => {
                let mut text = String::new();
                text.push('(');
                text.append(operator.lexeme.as_str());
                text.push(' ');
                text.append(operand.to_string().as_str());
                text.push(')');
                text
            },
        }
    }
}

} // verus!
