use rlox::expr::Expr;
use rlox::number::Number;
use rlox::token::{Literal, Token, TokenType};

fn number(text: &str) -> Literal {
    Literal::Number(Number::from_text(text).unwrap())
}

#[test]
fn print_ast() {
    let expr = Expr::Binary(
        Box::new(Expr::Unary(
            Token::new(TokenType::Minus, String::from("-"), Literal::Nil, 1),
            Box::new(Expr::Literal(number("123"))),
        )),
        Token::new(TokenType::Star, String::from("*"), Literal::Nil, 1),
        Box::new(Expr::Grouping(Box::new(Expr::Literal(number("45.67"))))),
    );

    let expr_str = expr.to_string();
    assert_eq!(expr_str, "(* (- 123) (group 45.67))");
}
