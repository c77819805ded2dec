use rlox::lox::Error;
use rlox::number::Number;
use rlox::scanner::Scanner;
use rlox::token::{Literal, Token, TokenType};

fn scan(source: &str) -> Result<Vec<Token>, Error> {
    Scanner::new(source).scan_tokens()
}

fn kinds(source: &str) -> Vec<TokenType> {
    scan(source).unwrap().iter().map(|token| token.token_type).collect()
}

fn lexemes(source: &str) -> Vec<String> {
    scan(source).unwrap().iter().map(|token| token.lexeme.clone()).collect()
}

fn number(text: &str) -> Literal {
    Literal::Number(Number::from_text(text).unwrap())
}

#[test]
fn empty_source_gives_only_the_end_token() {
    let tokens = scan("").unwrap();
    assert_eq!(tokens.len(), 1);
    assert_eq!(tokens[0].token_type, TokenType::Eof);
    assert_eq!(tokens[0].lexeme, "");
    assert_eq!(tokens[0].literal, Literal::Nil);
    assert_eq!(tokens[0].line, 1);
}

#[test]
fn single_character_tokens() {
    assert_eq!(
        kinds("(){},.-+;*/"),
        vec![
            TokenType::LeftParen,
            TokenType::RightParen,
            TokenType::LeftBrace,
            TokenType::RightBrace,
            TokenType::Comma,
            TokenType::Dot,
            TokenType::Minus,
            TokenType::Plus,
            TokenType::Semicolon,
            TokenType::Star,
            TokenType::Slash,
            TokenType::Eof,
        ]
    );
    assert_eq!(
        lexemes("(){},.-+;*/"),
        vec!["(", ")", "{", "}", ",", ".", "-", "+", ";", "*", "/", ""]
    );
}

#[test]
fn maximal_munch_bang_equal() {
    let tokens = scan("!=").unwrap();
    assert_eq!(tokens.len(), 2);
    assert_eq!(tokens[0].token_type, TokenType::BangEqual);
    assert_eq!(tokens[0].lexeme, "!=");
    assert_eq!(tokens[1].token_type, TokenType::Eof);
}

#[test]
fn maximal_munch_equal_equal() {
    let tokens = scan("==").unwrap();
    assert_eq!(tokens.len(), 2);
    assert_eq!(tokens[0].token_type, TokenType::EqualEqual);
    assert_eq!(tokens[0].lexeme, "==");
    assert_eq!(tokens[1].token_type, TokenType::Eof);
}

#[test]
fn maximal_munch_less_equal() {
    let tokens = scan("<=").unwrap();
    assert_eq!(tokens.len(), 2);
    assert_eq!(tokens[0].token_type, TokenType::LessEqual);
    assert_eq!(tokens[0].lexeme, "<=");
    assert_eq!(tokens[1].token_type, TokenType::Eof);
}

#[test]
fn maximal_munch_greater_equal() {
    let tokens = scan(">=").unwrap();
    assert_eq!(tokens.len(), 2);
    assert_eq!(tokens[0].token_type, TokenType::GreaterEqual);
    assert_eq!(tokens[0].lexeme, ">=");
    assert_eq!(tokens[1].token_type, TokenType::Eof);
}

#[test]
fn one_character_operators_stand_alone() {
    assert_eq!(
        kinds("! = < >"),
        vec![
            TokenType::Bang,
            TokenType::Equal,
            TokenType::Less,
            TokenType::Greater,
            TokenType::Eof
        ]
    );
    assert_eq!(
        kinds("!!="),
        vec![TokenType::Bang, TokenType::BangEqual, TokenType::Eof]
    );
    assert_eq!(
        kinds("==="),
        vec![TokenType::EqualEqual, TokenType::Equal, TokenType::Eof]
    );
    assert_eq!(
        kinds("= ="),
        vec![TokenType::Equal, TokenType::Equal, TokenType::Eof]
    );
}

#[test]
fn number_with_trailing_dot() {
    let tokens = scan("123.").unwrap();
    assert_eq!(tokens.len(), 3);
    assert_eq!(tokens[0].token_type, TokenType::Number);
    assert_eq!(tokens[0].lexeme, "123");
    assert_eq!(tokens[0].literal, number("123"));
    assert_eq!(tokens[1].token_type, TokenType::Dot);
    assert_eq!(tokens[1].lexeme, ".");
    assert_eq!(tokens[1].literal, Literal::Nil);
    assert_eq!(tokens[2].token_type, TokenType::Eof);
}

#[test]
fn number_with_fraction() {
    let tokens = scan("123.45").unwrap();
    assert_eq!(tokens.len(), 2);
    assert_eq!(tokens[0].token_type, TokenType::Number);
    assert_eq!(tokens[0].lexeme, "123.45");
    assert_eq!(tokens[0].literal, number("123.45"));
    assert_eq!(tokens[0].literal.to_string(), "123.45");
    assert_eq!(tokens[1].token_type, TokenType::Eof);
}

#[test]
fn number_followed_by_dot_and_letter() {
    assert_eq!(
        kinds("1.a"),
        vec![
            TokenType::Number,
            TokenType::Dot,
            TokenType::Identifier,
            TokenType::Eof
        ]
    );
    assert_eq!(
        kinds("1.2.3"),
        vec![
            TokenType::Number,
            TokenType::Dot,
            TokenType::Number,
            TokenType::Eof
        ]
    );
    assert_eq!(lexemes("1.2.3"), vec!["1.2", ".", "3", ""]);
}

#[test]
fn number_literal_is_canonical() {
    let tokens = scan("007.500").unwrap();
    assert_eq!(tokens[0].lexeme, "007.500");
    assert_eq!(tokens[0].literal, number("7.5"));
    assert_eq!(tokens[0].literal.to_string(), "7.5");
    let tokens = scan("0.0").unwrap();
    assert_eq!(tokens[0].literal, number("0"));
    assert_eq!(tokens[0].literal.to_string(), "0");
}

#[test]
fn string_with_newline_advances_the_line() {
    let tokens = scan("\"a\nb\"").unwrap();
    assert_eq!(tokens.len(), 2);
    assert_eq!(tokens[0].token_type, TokenType::Str);
    assert_eq!(tokens[0].lexeme, "\"a\nb\"");
    assert_eq!(tokens[0].literal, Literal::Str(String::from("a\nb")));
    assert_eq!(tokens[0].line, 2);
    assert_eq!(tokens[1].token_type, TokenType::Eof);
    assert_eq!(tokens[1].line, 2);
}

#[test]
fn string_keeps_its_characters_verbatim() {
    let tokens = scan("\"a\\n // b\"").unwrap();
    assert_eq!(tokens.len(), 2);
    assert_eq!(tokens[0].literal, Literal::Str(String::from("a\\n // b")));
    let tokens = scan("\"\"").unwrap();
    assert_eq!(tokens[0].token_type, TokenType::Str);
    assert_eq!(tokens[0].literal, Literal::Str(String::new()));
}

#[test]
fn unterminated_string() {
    let error = scan("\"abc").unwrap_err();
    assert_eq!(error.message, "Unterminated string.");
    assert_eq!(error.line, 1);
    assert_eq!(error.at, "");
}

#[test]
fn unterminated_string_is_reported_where_it_starts() {
    let error = scan("1\n2\n\"abc\ndef\n").unwrap_err();
    assert_eq!(error.message, "Unterminated string.");
    assert_eq!(error.line, 3);
    assert_eq!(error.to_string(), "[line 3] Error: Unterminated string.");
}

#[test]
fn unexpected_character() {
    let error = scan("1 + @").unwrap_err();
    assert_eq!(error.message, "Unexpected character: @");
    assert_eq!(error.line, 1);
    assert_eq!(error.at, "");
    let error = scan("\n\n#").unwrap_err();
    assert_eq!(error.message, "Unexpected character: #");
    assert_eq!(error.line, 3);
    assert_eq!(error.to_string(), "[line 3] Error: Unexpected character: #");
}

#[test]
fn first_fault_ends_the_scan() {
    let error = scan("@ \"abc").unwrap_err();
    assert_eq!(error.message, "Unexpected character: @");
    let mut scanner = Scanner::new("1 @ 2");
    assert!(scanner.scan_tokens().is_err());
}

#[test]
fn sentinel_token_closes_every_scan() {
    for source in ["", "1", "a b c", "// only a comment", "\n\n\n", "\"s\"", "1 + 2 * (3)"] {
        let tokens = scan(source).unwrap();
        let last = tokens.last().unwrap();
        assert_eq!(last.token_type, TokenType::Eof);
        assert_eq!(last.lexeme, "");
        assert_eq!(last.literal, Literal::Nil);
        let ends = tokens.iter().filter(|token| token.token_type == TokenType::Eof).count();
        assert_eq!(ends, 1);
    }
}

#[test]
fn sentinel_line_is_the_line_reached() {
    assert_eq!(scan("").unwrap().last().unwrap().line, 1);
    assert_eq!(scan("\n\n\n").unwrap().last().unwrap().line, 4);
    assert_eq!(scan("1\n2 // c\n3").unwrap().last().unwrap().line, 3);
}

#[test]
fn lines_never_decrease() {
    let tokens = scan("1\n+ 2\n\n\"a\nb\" c\n// x\nd").unwrap();
    let lines: Vec<usize> = tokens.iter().map(|token| token.line).collect();
    assert_eq!(lines, vec![1, 2, 2, 5, 5, 7, 7]);
    assert!(lines.windows(2).all(|pair| pair[0] <= pair[1]));
}

#[test]
fn comments_run_to_the_end_of_the_line() {
    assert_eq!(kinds("// a comment"), vec![TokenType::Eof]);
    assert_eq!(
        kinds("1 // a comment\n2"),
        vec![TokenType::Number, TokenType::Number, TokenType::Eof]
    );
    let tokens = scan("// c\n1").unwrap();
    assert_eq!(tokens[0].line, 2);
    assert_eq!(
        kinds("1 / 2"),
        vec![
            TokenType::Number,
            TokenType::Slash,
            TokenType::Number,
            TokenType::Eof
        ]
    );
}

#[test]
fn blank_space_is_passed_over() {
    assert_eq!(kinds(" \t\r\n "), vec![TokenType::Eof]);
    assert_eq!(lexemes(" a\t+\r\nb "), vec!["a", "+", "b", ""]);
}

#[test]
fn reserved_words() {
    assert_eq!(
        kinds("and class else false fun for if nil or print return super this true var while"),
        vec![
            TokenType::And,
            TokenType::Class,
            TokenType::Else,
            TokenType::False,
            TokenType::Fun,
            TokenType::For,
            TokenType::If,
            TokenType::Nil,
            TokenType::Or,
            TokenType::Print,
            TokenType::Return,
            TokenType::Super,
            TokenType::This,
            TokenType::True,
            TokenType::Var,
            TokenType::While,
            TokenType::Eof,
        ]
    );
}

#[test]
fn reserved_word_table() {
    assert_eq!(Scanner::parse_token("and"), Some(TokenType::And));
    assert_eq!(Scanner::parse_token("class"), Some(TokenType::Class));
    assert_eq!(Scanner::parse_token("else"), Some(TokenType::Else));
    assert_eq!(Scanner::parse_token("false"), Some(TokenType::False));
    assert_eq!(Scanner::parse_token("for"), Some(TokenType::For));
    assert_eq!(Scanner::parse_token("fun"), Some(TokenType::Fun));
    assert_eq!(Scanner::parse_token("if"), Some(TokenType::If));
    assert_eq!(Scanner::parse_token("nil"), Some(TokenType::Nil));
    assert_eq!(Scanner::parse_token("or"), Some(TokenType::Or));
    assert_eq!(Scanner::parse_token("print"), Some(TokenType::Print));
    assert_eq!(Scanner::parse_token("return"), Some(TokenType::Return));
    assert_eq!(Scanner::parse_token("super"), Some(TokenType::Super));
    assert_eq!(Scanner::parse_token("this"), Some(TokenType::This));
    assert_eq!(Scanner::parse_token("true"), Some(TokenType::True));
    assert_eq!(Scanner::parse_token("var"), Some(TokenType::Var));
    assert_eq!(Scanner::parse_token("while"), Some(TokenType::While));
    assert_eq!(Scanner::parse_token(""), None);
    assert_eq!(Scanner::parse_token("an"), None);
    assert_eq!(Scanner::parse_token("andy"), None);
    assert_eq!(Scanner::parse_token("And"), None);
    assert_eq!(Scanner::parse_token("eof"), None);
}

#[test]
fn identifiers() {
    let tokens = scan("orchid _x1 classy nil_ F00").unwrap();
    assert_eq!(tokens.len(), 6);
    for token in &tokens[..5] {
        assert_eq!(token.token_type, TokenType::Identifier);
        assert_eq!(token.literal, Literal::Nil);
    }
    assert_eq!(lexemes("orchid _x1 classy nil_ F00"), vec!["orchid", "_x1", "classy", "nil_", "F00", ""]);
}

#[test]
fn identifier_goes_on_over_letters_of_any_script() {
    let tokens = scan("caf\u{e9}\u{4e2d}9 x").unwrap();
    assert_eq!(tokens.len(), 3);
    assert_eq!(tokens[0].token_type, TokenType::Identifier);
    assert_eq!(tokens[0].lexeme, "caf\u{e9}\u{4e2d}9");
    assert_eq!(tokens[1].lexeme, "x");
}

#[test]
fn identifier_starts_with_an_ascii_letter_or_underscore() {
    let error = scan("\u{e9}a").unwrap_err();
    assert_eq!(error.message, "Unexpected character: \u{e9}");
    assert_eq!(error.line, 1);
}

#[test]
fn characters_are_not_split() {
    let tokens = scan("\"\u{1f600}\u{e9}\" + 1").unwrap();
    assert_eq!(tokens.len(), 4);
    assert_eq!(tokens[0].literal, Literal::Str(String::from("\u{1f600}\u{e9}")));
    assert_eq!(tokens[0].lexeme, "\"\u{1f600}\u{e9}\"");
    assert_eq!(tokens[1].token_type, TokenType::Plus);
}

#[test]
fn scan_tokens_keeps_the_tokens_it_returns() {
    let mut scanner = Scanner::new("1 + 2");
    let first = scanner.scan_tokens().unwrap();
    assert_eq!(first.len(), 4);
    let second = scanner.scan_tokens().unwrap();
    assert_eq!(second.len(), 5);
    assert_eq!(second[3].token_type, TokenType::Eof);
    assert_eq!(second[4].token_type, TokenType::Eof);
}

#[test]
fn expression_tokens() {
    let tokens = scan("-123 * (45.67)").unwrap();
    assert_eq!(
        tokens.iter().map(|token| token.token_type).collect::<Vec<TokenType>>(),
        vec![
            TokenType::Minus,
            TokenType::Number,
            TokenType::Star,
            TokenType::LeftParen,
            TokenType::Number,
            TokenType::RightParen,
            TokenType::Eof,
        ]
    );
    assert_eq!(tokens[1].literal, number("123"));
    assert_eq!(tokens[4].literal, number("45.67"));
}

#[test]
fn number_tokens_carry_what_their_lexemes_spell() {
    let tokens = scan("0 007 12.50 3.14159 100.001 99999999999999999999.5 1.a 2.").unwrap();
    let mut numbers = 0;
    for token in &tokens {
        if token.token_type == TokenType::Number {
            numbers += 1;
            assert_eq!(token.literal, number(&token.lexeme));
        } else {
            assert!(matches!(
                token.token_type,
                TokenType::Dot | TokenType::Identifier | TokenType::Eof
            ));
        }
    }
    assert_eq!(numbers, 8);
}

#[test]
fn tokens_are_as_long_as_they_can_be() {
    assert_eq!(lexemes("<=>==!"), vec!["<=", ">=", "=", "!", ""]);
    assert_eq!(lexemes("12ab 1_2"), vec!["12", "ab", "1", "_2", ""]);
    assert_eq!(lexemes("ab12 a.b"), vec!["ab12", "a", ".", "b", ""]);
    assert_eq!(lexemes("1.5.25"), vec!["1.5", ".", "25", ""]);
    assert_eq!(lexemes("nilnil nil"), vec!["nilnil", "nil", ""]);
    assert_eq!(
        kinds("nilnil nil"),
        vec![TokenType::Identifier, TokenType::Nil, TokenType::Eof]
    );
}
