use rlox::expr::Expr;
use rlox::lox::{run, Error};
use rlox::number::Number;
use rlox::parser::Parser;
use rlox::scanner::Scanner;
use rlox::token::{Literal, Token, TokenType};

fn tokens(source: &str) -> Vec<Token> {
    Scanner::new(source).scan_tokens().unwrap()
}

fn parse(source: &str) -> Result<Expr, Error> {
    Parser::new(tokens(source)).parse()
}

fn number(text: &str) -> Literal {
    Literal::Number(Number::from_text(text).unwrap())
}

fn is_number(expr: &Expr, text: &str) -> bool {
    match expr {
        Expr::Literal(value) => *value == number(text),
        _ => false,
    }
}

#[test]
fn precedence_of_star_over_plus() {
    let expr = parse("1 + 2 * 3").unwrap();
    match &expr {
        Expr::Binary(left, plus, right) => {
            assert!(is_number(left, "1"));
            assert_eq!(plus.token_type, TokenType::Plus);
            assert_eq!(plus.lexeme, "+");
            match &**right {
                Expr::Binary(two, star, three) => {
                    assert!(is_number(two, "2"));
                    assert_eq!(star.token_type, TokenType::Star);
                    assert_eq!(star.lexeme, "*");
                    assert!(is_number(three, "3"));
                }
                _ => panic!("the right operand is a product"),
            }
        }
        _ => panic!("the expression is a sum"),
    }
    assert_eq!(expr.to_string(), "(+ 1 (* 2 3))");
}

#[test]
fn worked_example() {
    let expr = parse("-123 * (45.67)").unwrap();
    assert_eq!(expr.to_string(), "(* (- 123) (group 45.67))");
    assert_eq!(run("-123 * (45.67)").unwrap(), "(* (- 123) (group 45.67))");
}

#[test]
fn unary_minus_is_kept() {
    let expr = parse("-5").unwrap();
    match &expr {
        Expr::Unary(operator, operand) => {
            assert_eq!(operator.token_type, TokenType::Minus);
            assert_eq!(operator.lexeme, "-");
            assert!(is_number(operand, "5"));
        }
        _ => panic!("the expression is a negation"),
    }
    assert_eq!(expr.to_string(), "(- 5)");
}

#[test]
fn unary_operators_nest() {
    assert_eq!(parse("!!true").unwrap().to_string(), "(! (! true))");
    assert_eq!(parse("-!-1").unwrap().to_string(), "(- (! (- 1)))");
    assert_eq!(parse("1 - -2").unwrap().to_string(), "(- 1 (- 2))");
}

#[test]
fn missing_close_paren() {
    let error = parse("(1 + 2").unwrap_err();
    assert_eq!(error.at, " at end");
    assert_eq!(error.message, "Expect ')' after expression.");
    assert_eq!(error.line, 1);
    assert_eq!(
        error.to_string(),
        "[line 1] Error at end: Expect ')' after expression."
    );
}

#[test]
fn wrong_token_in_place_of_close_paren() {
    let error = parse("(1 + 2 ;").unwrap_err();
    assert_eq!(error.at, " at ';'");
    assert_eq!(error.message, "Expect ')' after expression.");
    let error = parse("(1\n 2)").unwrap_err();
    assert_eq!(error.at, " at '2'");
    assert_eq!(error.line, 2);
}

#[test]
fn expect_expression_at_end() {
    let error = parse("").unwrap_err();
    assert_eq!(error.at, " at end");
    assert_eq!(error.message, "Expect expression.");
    assert_eq!(error.line, 1);
    let error = parse("1 +").unwrap_err();
    assert_eq!(error.at, " at end");
    assert_eq!(error.message, "Expect expression.");
    let error = parse("(").unwrap_err();
    assert_eq!(error.at, " at end");
    assert_eq!(error.message, "Expect expression.");
}

#[test]
fn expect_expression_at_token() {
    let error = parse("+ 1").unwrap_err();
    assert_eq!(error.at, " at '+'");
    assert_eq!(error.message, "Expect expression.");
    let error = parse("1 *\n\n)").unwrap_err();
    assert_eq!(error.at, " at ')'");
    assert_eq!(error.line, 3);
    assert_eq!(error.to_string(), "[line 3] Error at ')': Expect expression.");
    let error = parse("foo").unwrap_err();
    assert_eq!(error.at, " at 'foo'");
    assert_eq!(error.message, "Expect expression.");
}

#[test]
fn binary_operators_group_from_the_left() {
    assert_eq!(parse("1 - 2 - 3").unwrap().to_string(), "(- (- 1 2) 3)");
    assert_eq!(parse("8 / 4 / 2").unwrap().to_string(), "(/ (/ 8 4) 2)");
    assert_eq!(parse("1 + 2 - 3 + 4").unwrap().to_string(), "(+ (- (+ 1 2) 3) 4)");
    assert_eq!(parse("1 < 2 <= 3").unwrap().to_string(), "(<= (< 1 2) 3)");
    assert_eq!(parse("1 == 2 != 3").unwrap().to_string(), "(!= (== 1 2) 3)");
}

#[test]
fn tiers_bind_in_order() {
    assert_eq!(
        parse("1 == 2 < 3 + 4 * -5").unwrap().to_string(),
        "(== 1 (< 2 (+ 3 (* 4 (- 5)))))"
    );
    assert_eq!(
        parse("-1 * 2 + 3 > 4 != 5").unwrap().to_string(),
        "(!= (> (+ (* (- 1) 2) 3) 4) 5)"
    );
    assert_eq!(parse("1 * 2 + 3 * 4").unwrap().to_string(), "(+ (* 1 2) (* 3 4))");
    assert_eq!(parse("1 >= 2 == 3 > 4").unwrap().to_string(), "(== (>= 1 2) (> 3 4))");
}

#[test]
fn grouping_overrides_the_tiers() {
    assert_eq!(parse("(1 + 2) * 3").unwrap().to_string(), "(* (group (+ 1 2)) 3)");
    assert_eq!(parse("((1))").unwrap().to_string(), "(group (group 1))");
    assert_eq!(parse("-(1 - 2)").unwrap().to_string(), "(- (group (- 1 2)))");
}

#[test]
fn literals() {
    assert_eq!(parse("true").unwrap().to_string(), "true");
    assert_eq!(parse("false").unwrap().to_string(), "false");
    assert_eq!(parse("nil").unwrap().to_string(), "nil");
    assert_eq!(parse("\"a b\"").unwrap().to_string(), "a b");
    assert_eq!(parse("12.50").unwrap().to_string(), "12.5");
    match parse("\"text\"").unwrap() {
        Expr::Literal(value) => assert_eq!(value, Literal::Str(String::from("text"))),
        _ => panic!("the expression is a literal"),
    }
    match parse("false").unwrap() {
        Expr::Literal(value) => assert_eq!(value, Literal::Bool(false)),
        _ => panic!("the expression is a literal"),
    }
    match parse("nil").unwrap() {
        Expr::Literal(value) => assert_eq!(value, Literal::Nil),
        _ => panic!("the expression is a literal"),
    }
}

#[test]
fn parse_stops_after_one_expression() {
    assert_eq!(parse("1 2").unwrap().to_string(), "1");
    assert_eq!(parse("1 + 2 )").unwrap().to_string(), "(+ 1 2)");
    let mut parser = Parser::new(tokens("1 + 2 3 * 4"));
    assert_eq!(parser.parse().unwrap().to_string(), "(+ 1 2)");
    assert_eq!(parser.parse().unwrap().to_string(), "(* 3 4)");
    let error = parser.parse().unwrap_err();
    assert_eq!(error.at, " at end");
}

#[test]
fn run_gives_the_first_fault() {
    let error = run("1 + @").unwrap_err();
    assert_eq!(error.message, "Unexpected character: @");
    let error = run("1 +").unwrap_err();
    assert_eq!(error.message, "Expect expression.");
    assert_eq!(error.at, " at end");
    let error = run("(\"abc").unwrap_err();
    assert_eq!(error.message, "Unterminated string.");
    assert_eq!(run("1 + 2 * 3").unwrap(), "(+ 1 (* 2 3))");
    assert_eq!(run("\"a\" == \"b\"").unwrap(), "(== a b)");
}

#[test]
fn synchronize_stops_after_a_semicolon() {
    let mut parser = Parser::new(tokens("1 + ; 2 + 3"));
    let error = parser.parse().unwrap_err();
    assert_eq!(error.at, " at ';'");
    parser.synchronize();
    assert_eq!(parser.parse().unwrap().to_string(), "(+ 2 3)");
}

#[test]
fn synchronize_stops_before_a_statement() {
    for word in ["class", "fun", "var", "for", "if", "while", "print", "return"] {
        let source = format!("+ 1 2 {} 3", word);
        let mut parser = Parser::new(tokens(&source));
        assert!(parser.parse().is_err());
        parser.synchronize();
        let error = parser.parse().unwrap_err();
        assert_eq!(error.at, format!(" at '{}'", word));
    }
}

#[test]
fn synchronize_passes_over_at_least_one_token() {
    let mut parser = Parser::new(tokens("print print ; 1"));
    parser.synchronize();
    let error = parser.parse().unwrap_err();
    assert_eq!(error.at, " at 'print'");
    parser.synchronize();
    assert_eq!(parser.parse().unwrap().to_string(), "1");
    let mut parser = Parser::new(tokens("; 1 2"));
    parser.synchronize();
    assert_eq!(parser.parse().unwrap().to_string(), "1");
    let mut parser = Parser::new(tokens("1 2"));
    parser.synchronize();
    assert_eq!(parser.parse().unwrap_err().at, " at end");
}

#[test]
fn synchronize_stays_at_the_end() {
    let mut parser = Parser::new(tokens(""));
    parser.synchronize();
    assert_eq!(parser.parse().unwrap_err().at, " at end");
    let mut parser = Parser::new(tokens("+ 1 2 3"));
    assert!(parser.parse().is_err());
    parser.synchronize();
    assert_eq!(parser.parse().unwrap_err().at, " at end");
    parser.synchronize();
    assert_eq!(parser.parse().unwrap_err().at, " at end");
}

#[test]
fn error_from_token() {
    let token = Token::new(TokenType::Identifier, String::from("abc"), Literal::Nil, 7);
    let error = Error::from_token(token, "Expect expression.");
    assert_eq!(error.line, 7);
    assert_eq!(error.at, " at 'abc'");
    assert_eq!(error.message, "Expect expression.");
    assert_eq!(error.to_string(), "[line 7] Error at 'abc': Expect expression.");
    let end = Token::new(TokenType::Eof, String::new(), Literal::Nil, 12);
    let error = Error::from_token(end, "Expect ')' after expression.");
    assert_eq!(error.line, 12);
    assert_eq!(error.at, " at end");
    assert_eq!(
        error.to_string(),
        "[line 12] Error at end: Expect ')' after expression."
    );
}

#[test]
fn error_from_line() {
    let error = Error::from_line(3, "Unterminated string.");
    assert_eq!(error.line, 3);
    assert_eq!(error.at, "");
    assert_eq!(error.message, "Unterminated string.");
    assert_eq!(error.to_string(), "[line 3] Error: Unterminated string.");
    assert_eq!(Error::from_line(0, "").to_string(), "[line 0] Error: ");
    assert_eq!(
        Error::from_line(1234567890, "m").to_string(),
        "[line 1234567890] Error: m"
    );
}
