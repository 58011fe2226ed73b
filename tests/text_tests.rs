use json_parser::lexer::Lexer;
use json_parser::token::{Location, Token, TokenType};
use json_parser::value::Value;

#[test]
fn value_as_text() {
    let v = Value::Object(vec![
        (String::from("a"), Box::new(Value::String(String::from("b")))),
        (String::from("n"), Box::new(Value::Number(String::from("120")))),
        (
            String::from("a"),
            Box::new(Value::Array(vec![
                Value::Boolean(true),
                Value::Null,
                Value::Error(String::from("x")),
            ])),
        ),
    ]);
    assert_eq!(v.to_text(), "{a:b,n:120,a:[true,null,x]}");
    assert_eq!(Value::Number(String::from("0")).to_text(), "0");
    assert_eq!(Value::Number(String::from("9")).to_text(), "9");
    assert_eq!(Value::Number(String::from("1005")).to_text(), "1005");
    assert_eq!(Value::Boolean(false).to_text(), "false");
    assert_eq!(Value::Array(vec![]).to_text(), "[]");
    assert_eq!(Value::Object(vec![]).to_text(), "{}");
}

#[test]
fn token_as_text() {
    let mut lex = Lexer::new("\"k\" 12.5 key true { ");
    let expected = vec!["\"k\"", "12.5", " key ", "true", "{", "\n"];
    for e in expected {
        assert_eq!(lex.next_token().to_text(), e);
    }
}

#[test]
fn kind_names() {
    assert_eq!(TokenType::String.to_text(), "string");
    assert_eq!(TokenType::Ident.to_text(), "Ident");
    assert_eq!(TokenType::EOF.to_text(), "EOF");
    assert_eq!(TokenType::RightBracket.to_text(), "]");
    assert_eq!(TokenType::ILLEGAL.to_text(), "ILLEGAL");
}

#[test]
fn kind_from_char() {
    assert_eq!(TokenType::from('{'), TokenType::LeftBrace);
    assert_eq!(TokenType::from('}'), TokenType::RightBrace);
    assert_eq!(TokenType::from('['), TokenType::LeftBracket);
    assert_eq!(TokenType::from(']'), TokenType::RightBracket);
    assert_eq!(TokenType::from(':'), TokenType::Colon);
    assert_eq!(TokenType::from(','), TokenType::Comma);
    assert_eq!(TokenType::from('x'), TokenType::ILLEGAL);
}

#[test]
fn default_token() {
    let t = Token::default();
    assert_eq!(t.token_type, TokenType::ILLEGAL);
    assert_eq!(t.value, None);
    assert_eq!(t.location, Location::new(1, 1));
    let c = t.copy();
    assert_eq!(c.token_type, TokenType::ILLEGAL);
}
