use rlox::number::Number;
use rlox::text::{
    chars_of, comes_before, continues_identifier, decimal, is_alpha_numeric, is_ascii_alpha,
    is_ascii_digit, is_word, text_of,
};
use rlox::token::{Literal, Token, TokenType};
use std::cmp::Ordering;

fn number(text: &str) -> Number {
    Number::from_text(text).unwrap()
}

fn num(text: &str) -> Literal {
    Literal::Number(number(text))
}

fn text(s: &str) -> Literal {
    Literal::Str(String::from(s))
}

#[test]
fn literal_partial_order() {
    assert_eq!(Literal::Bool(true).partial_cmp(&num("1")), None);
    assert_eq!(num("1").partial_cmp(&num("2")), Some(Ordering::Less));
}

#[test]
fn nil_equals_nil() {
    assert_eq!(Literal::Nil.partial_cmp(&Literal::Nil), Some(Ordering::Equal));
    assert!(Literal::Nil == Literal::Nil);
    assert!(Literal::Nil <= Literal::Nil);
    assert!(!(Literal::Nil < Literal::Nil));
}

#[test]
fn booleans_stand_in_no_order() {
    assert_eq!(Literal::Bool(true).partial_cmp(&Literal::Bool(true)), None);
    assert_eq!(Literal::Bool(false).partial_cmp(&Literal::Bool(true)), None);
    assert!(!(Literal::Bool(false) < Literal::Bool(true)));
    assert!(!(Literal::Bool(true) >= Literal::Bool(true)));
    assert!(Literal::Bool(true) == Literal::Bool(true));
    assert!(Literal::Bool(true) != Literal::Bool(false));
}

#[test]
fn values_of_two_kinds_stand_in_no_order() {
    let values = [Literal::Nil, Literal::Bool(true), num("1"), text("1")];
    for (i, left) in values.iter().enumerate() {
        for (j, right) in values.iter().enumerate() {
            if i != j {
                assert_eq!(left.partial_cmp(right), None);
                assert!(left != right);
            }
        }
    }
}

#[test]
fn numbers_stand_in_numeric_order() {
    assert_eq!(num("2").partial_cmp(&num("1")), Some(Ordering::Greater));
    assert_eq!(num("2").partial_cmp(&num("2.0")), Some(Ordering::Equal));
    assert_eq!(num("9").partial_cmp(&num("10")), Some(Ordering::Less));
    assert_eq!(num("10").partial_cmp(&num("9.99")), Some(Ordering::Greater));
    assert_eq!(num("1.5").partial_cmp(&num("1.25")), Some(Ordering::Greater));
    assert_eq!(num("1.05").partial_cmp(&num("1.5")), Some(Ordering::Less));
    assert_eq!(num("1.5").partial_cmp(&num("1.50001")), Some(Ordering::Less));
    assert_eq!(num("0.1").partial_cmp(&num("0")), Some(Ordering::Greater));
    assert_eq!(num("0").partial_cmp(&num("0.000")), Some(Ordering::Equal));
    assert_eq!(num("123").partial_cmp(&num("124")), Some(Ordering::Less));
    assert_eq!(num("0123").partial_cmp(&num("99")), Some(Ordering::Greater));
    assert!(num("1") < num("2"));
    assert!(num("3") >= num("3"));
}

#[test]
fn numbers_beyond_machine_integers() {
    let big = "123456789012345678901234567890";
    let bigger = "123456789012345678901234567891";
    assert_eq!(num(big).partial_cmp(&num(bigger)), Some(Ordering::Less));
    assert_eq!(num(big).to_string(), big);
    assert!(number(big).less_than(&number(bigger)));
}

#[test]
fn strings_stand_in_the_order_of_their_characters() {
    assert_eq!(text("a").partial_cmp(&text("b")), Some(Ordering::Less));
    assert_eq!(text("b").partial_cmp(&text("a")), Some(Ordering::Greater));
    assert_eq!(text("abc").partial_cmp(&text("abc")), Some(Ordering::Equal));
    assert_eq!(text("ab").partial_cmp(&text("abc")), Some(Ordering::Less));
    assert_eq!(text("abc").partial_cmp(&text("ab")), Some(Ordering::Greater));
    assert_eq!(text("").partial_cmp(&text("")), Some(Ordering::Equal));
    assert_eq!(text("").partial_cmp(&text("a")), Some(Ordering::Less));
    assert_eq!(text("Z").partial_cmp(&text("a")), Some(Ordering::Less));
    assert_eq!(text("10").partial_cmp(&text("9")), Some(Ordering::Less));
    assert_eq!(
        text("\u{e9}").partial_cmp(&text("\u{1f600}")),
        Some(Ordering::Less)
    );
    assert_eq!(
        text("\u{ffff}").partial_cmp(&text("\u{10000}")),
        Some(Ordering::Less)
    );
}

#[test]
fn string_order_agrees_with_std() {
    let words = ["", "a", "ab", "abc", "abd", "b", "B", "\u{e9}", "\u{4e2d}", "z\u{1f600}"];
    for left in words {
        for right in words {
            assert_eq!(comes_before(left, right), left < right);
            assert_eq!(text(left).partial_cmp(&text(right)), left.partial_cmp(right));
        }
    }
}

#[test]
fn literal_equality() {
    assert!(num("1.50") == num("1.5"));
    assert!(num("1.5") != num("1.05"));
    assert!(num("10") != num("1"));
    assert!(text("a") == text("a"));
    assert!(text("a") != text("b"));
    assert!(text("1") != num("1"));
    assert!(Literal::Nil != Literal::Bool(false));
    let copy = num("45.67").clone();
    assert!(copy == num("45.67"));
    let copy = text("abc").clone();
    assert!(copy == text("abc"));
}

#[test]
fn literal_to_string() {
    assert_eq!(Literal::Nil.to_string(), "nil");
    assert_eq!(Literal::Bool(true).to_string(), "true");
    assert_eq!(Literal::Bool(false).to_string(), "false");
    assert_eq!(num("123").to_string(), "123");
    assert_eq!(num("123.0").to_string(), "123");
    assert_eq!(num("45.67").to_string(), "45.67");
    assert_eq!(num("0.5").to_string(), "0.5");
    assert_eq!(num("000").to_string(), "0");
    assert_eq!(num("0100.0010").to_string(), "100.001");
    assert_eq!(text("a \"b\"").to_string(), "a \"b\"");
    assert_eq!(text("").to_string(), "");
}

#[test]
fn number_from_text() {
    assert!(Number::from_text("0").is_some());
    assert!(Number::from_text("12.5").is_some());
    assert!(Number::from_text("").is_none());
    assert!(Number::from_text(".").is_none());
    assert!(Number::from_text(".5").is_none());
    assert!(Number::from_text("5.").is_none());
    assert!(Number::from_text("1.2.3").is_none());
    assert!(Number::from_text("-1").is_none());
    assert!(Number::from_text("1e5").is_none());
    assert!(Number::from_text(" 1").is_none());
    assert!(Number::from_text("1 ").is_none());
    assert!(Number::from_text("1.5x").is_none());
    assert!(Number::from_text("\u{0661}").is_none());
    assert_eq!(number("12.5").to_string(), "12.5");
}

#[test]
fn number_less_than() {
    assert!(number("1").less_than(&number("2")));
    assert!(!number("2").less_than(&number("1")));
    assert!(!number("2").less_than(&number("2")));
    assert!(number("1.9").less_than(&number("2")));
    assert!(number("1.09").less_than(&number("1.1")));
    assert!(!number("1.1").less_than(&number("1.09")));
    assert!(number("0").less_than(&number("0.001")));
    assert!(!number("1.0").less_than(&number("1")));
    assert!(number("1") == number("1.0"));
    assert!(number("1") == number("01"));
    assert!(number("1") != number("1.01"));
}

#[test]
fn token_type_to_string() {
    assert_eq!(TokenType::LeftParen.to_string(), "LeftParen");
    assert_eq!(TokenType::BangEqual.to_string(), "BangEqual");
    assert_eq!(TokenType::Str.to_string(), "Str");
    assert_eq!(TokenType::Number.to_string(), "Number");
    assert_eq!(TokenType::While.to_string(), "While");
    assert_eq!(TokenType::Eof.to_string(), "Eof");
    let all = [
        TokenType::LeftParen,
        TokenType::RightParen,
        TokenType::LeftBrace,
        TokenType::RightBrace,
        TokenType::Comma,
        TokenType::Dot,
        TokenType::Minus,
        TokenType::Plus,
        TokenType::Semicolon,
        TokenType::Slash,
        TokenType::Star,
        TokenType::Bang,
        TokenType::BangEqual,
        TokenType::Equal,
        TokenType::EqualEqual,
        TokenType::Greater,
        TokenType::GreaterEqual,
        TokenType::Less,
        TokenType::LessEqual,
        TokenType::Identifier,
        TokenType::Str,
        TokenType::Number,
        TokenType::And,
        TokenType::Class,
        TokenType::Else,
        TokenType::False,
        TokenType::Fun,
        TokenType::For,
        TokenType::If,
        TokenType::Nil,
        TokenType::Or,
        TokenType::Print,
        TokenType::Return,
        TokenType::Super,
        TokenType::This,
        TokenType::True,
        TokenType::Var,
        TokenType::While,
        TokenType::Eof,
    ];
    for token_type in all {
        assert_eq!(token_type.to_string(), format!("{:?}", token_type));
    }
}

#[test]
fn token_new_and_to_string() {
    let token = Token::new(TokenType::Number, String::from("45.670"), num("45.67"), 3);
    assert_eq!(token.token_type, TokenType::Number);
    assert_eq!(token.lexeme, "45.670");
    assert!(token.literal == num("45.67"));
    assert_eq!(token.line, 3);
    assert_eq!(token.to_string(), "Number 45.670 45.67");
    let token = Token::new(TokenType::Plus, String::from("+"), Literal::Nil, 1);
    assert_eq!(token.to_string(), "Plus + nil");
    let token = Token::new(TokenType::Str, String::from("\"hi\""), text("hi"), 1);
    assert_eq!(token.to_string(), "Str \"hi\" hi");
    let copy = token.clone();
    assert_eq!(copy.token_type, TokenType::Str);
    assert_eq!(copy.lexeme, "\"hi\"");
    assert!(copy.literal == text("hi"));
    assert_eq!(copy.line, 1);
}

#[test]
fn decimal_numerals() {
    assert_eq!(decimal(0), "0");
    assert_eq!(decimal(7), "7");
    assert_eq!(decimal(10), "10");
    assert_eq!(decimal(109), "109");
    assert_eq!(decimal(1234567890), "1234567890");
    assert_eq!(decimal(usize::MAX), usize::MAX.to_string());
}

#[test]
fn character_classes() {
    assert!(is_ascii_digit('0'));
    assert!(is_ascii_digit('9'));
    assert!(!is_ascii_digit('a'));
    assert!(!is_ascii_digit('\u{0661}'));
    assert!(is_ascii_alpha('a'));
    assert!(is_ascii_alpha('Z'));
    assert!(is_ascii_alpha('_'));
    assert!(!is_ascii_alpha('0'));
    assert!(!is_ascii_alpha('\u{e9}'));
    assert!(is_alpha_numeric('a'));
    assert!(is_alpha_numeric('7'));
    assert!(is_alpha_numeric('_'));
    assert!(is_alpha_numeric('\u{e9}'));
    assert!(is_alpha_numeric('\u{0661}'));
    assert!(!is_alpha_numeric('-'));
    assert!(!is_alpha_numeric(' '));
    assert!(!is_alpha_numeric('\n'));
    assert!(!is_alpha_numeric('\0'));
    assert!(continues_identifier('a', true));
    assert!(continues_identifier('_', false));
    assert!(!continues_identifier('-', false));
}

#[test]
fn characters_and_strings() {
    assert_eq!(chars_of("a\u{e9}\u{1f600}"), vec!['a', '\u{e9}', '\u{1f600}']);
    assert_eq!(chars_of(""), Vec::<char>::new());
    let chars = chars_of("hello world");
    assert_eq!(text_of(&chars, 0, 5), "hello");
    assert_eq!(text_of(&chars, 6, 11), "world");
    assert_eq!(text_of(&chars, 3, 3), "");
    assert!(is_word(&chars_of("while"), "while"));
    assert!(!is_word(&chars_of("whil"), "while"));
    assert!(!is_word(&chars_of("whiles"), "while"));
    assert!(!is_word(&chars_of("whilf"), "while"));
    assert!(is_word(&chars_of(""), ""));
}
