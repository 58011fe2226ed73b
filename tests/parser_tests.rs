use json_parser::error::JSONError;
use json_parser::parser::{is_complete_number, Parser};
use json_parser::token::{Location, TokenType};
use json_parser::value::Value;

fn run(src: &str) -> (Value, Vec<JSONError>) {
    let mut p = Parser::new(src);
    let v = p.parse();
    let mut errs = Vec::new();
    for e in p.errors() {
        errs.push(match e {
            JSONError::StringError(s) => JSONError::StringError(s.clone()),
            JSONError::LexicalError(s, l) => JSONError::LexicalError(s.clone(), *l),
            JSONError::UnexpectedToken(t, l) => JSONError::UnexpectedToken(t.copy(), *l),
        });
    }
    (v, errs)
}

fn s(x: &str) -> Value {
    Value::String(String::from(x))
}

fn pair(k: &str, v: Value) -> (String, Box<Value>) {
    (String::from(k), Box::new(v))
}

fn unexpected_kind(e: &JSONError) -> Option<TokenType> {
    match e {
        JSONError::UnexpectedToken(t, _) => Some(t.token_type),
        _ => None,
    }
}

#[test]
fn test_next_token() {
    let src = r#"
        {
            "key": key,
            "key2": key2,
            "arr": [
                "el1",
                "el2",
                "el3"
            ],
            "obj": {
                "inobj": obj,
            }
        }
        "#;

    let mut parser = Parser::new(src);
    loop {
        if parser.peek_tok().token_type == TokenType::EOF {
            break;
        }
        parser.next_token();
        println!("{:?}", parser.curr_tok());
    }
}

#[test]
fn test_parse_value() {
    let src = r#"
        {
            "key": "key",
            "key2": "key2",
            "arr": [
                "el1",
                "el2",
                "el3"
            ],
            "obj": {
                "inobj": obj,
            }
        }
        "#;

    let mut parser = Parser::new(src);
    let value = parser.parse();
    println!("{:?}", value);
}

#[test]
fn nested_document_with_barewords() {
    let (v, errs) = run(r#"{"key": key, "arr": ["el1", 2, false], "obj": {"inobj": obj,},}"#);
    assert!(errs.is_empty());
    assert_eq!(
        v,
        Value::Object(vec![
            pair("key", s("key")),
            pair("arr", Value::Array(vec![s("el1"), Value::Number(String::from("2")), Value::Boolean(false)])),
            pair("obj", Value::Object(vec![pair("inobj", s("obj"))])),
        ])
    );
}

#[test]
fn simple_object() {
    let (v, errs) = run(r#"{"a": "b", "c": 1}"#);
    assert!(errs.is_empty());
    assert_eq!(v, Value::Object(vec![pair("a", s("b")), pair("c", Value::Number(String::from("1")))]));
}

#[test]
fn array_missing_close() {
    let (v, errs) = run("[1, 2, 3");
    assert_eq!(
        v,
        Value::Array(vec![Value::Number(String::from("1")), Value::Number(String::from("2")), Value::Number(String::from("3"))])
    );
    assert_eq!(errs.len(), 1);
    assert_eq!(unexpected_kind(&errs[0]), Some(TokenType::EOF));
}

#[test]
fn object_missing_comma() {
    let (v, errs) = run(r#"{"a": "b" "c": "d"}"#);
    assert_eq!(v, Value::Object(vec![pair("a", s("b")), pair("c", s("d"))]));
    assert_eq!(errs.len(), 1);
    match &errs[0] {
        JSONError::UnexpectedToken(t, l) => {
            assert_eq!(t.token_type, TokenType::String);
            assert_eq!(t.value, Some(String::from("c")));
            assert_eq!(*l, Location::new(1, 11));
        }
        _ => panic!("expected an unexpected-token diagnostic"),
    }
}

#[test]
fn duplicate_keys_kept_in_order() {
    let (v, errs) = run(r#"{"b": 1, "a": 2, "b": 3}"#);
    assert!(errs.is_empty());
    assert_eq!(
        v,
        Value::Object(vec![
            pair("b", Value::Number(String::from("1"))),
            pair("a", Value::Number(String::from("2"))),
            pair("b", Value::Number(String::from("3"))),
        ])
    );
}

#[test]
fn trailing_content_reported_once() {
    let (v, errs) = run("[true] null");
    assert_eq!(v, Value::Array(vec![Value::Boolean(true)]));
    assert_eq!(errs.len(), 1);
    assert_eq!(unexpected_kind(&errs[0]), Some(TokenType::Null));

    let (v, errs) = run("1 2");
    assert_eq!(v, Value::Number(String::from("1")));
    assert_eq!(errs.len(), 1);
    assert_eq!(unexpected_kind(&errs[0]), Some(TokenType::Number));
}

#[test]
fn illegal_character_gives_diagnostic() {
    let (v, errs) = run("[\u{7}]");
    assert_eq!(v, Value::Array(vec![Value::Null]));
    assert_eq!(errs.len(), 1);
    assert_eq!(unexpected_kind(&errs[0]), Some(TokenType::ILLEGAL));
}

#[test]
fn non_string_key_is_string_error() {
    let (v, errs) = run("{1: 2}");
    assert_eq!(v, Value::Object(vec![]));
    assert_eq!(errs.len(), 2);
    match &errs[0] {
        JSONError::StringError(t) => assert_eq!(t, "1"),
        _ => panic!("expected a string diagnostic"),
    }
    assert_eq!(unexpected_kind(&errs[1]), Some(TokenType::Number));
}

#[test]
fn missing_colon_stops_object() {
    let (v, errs) = run(r#"{"a" 1}"#);
    assert_eq!(v, Value::Object(vec![]));
    assert_eq!(errs.len(), 2);
    assert_eq!(unexpected_kind(&errs[0]), Some(TokenType::Number));
    assert_eq!(unexpected_kind(&errs[1]), Some(TokenType::Number));
}

#[test]
fn malformed_number_is_lexical_error() {
    let (v, errs) = run("-");
    assert_eq!(v, Value::Error(String::from("-")));
    assert_eq!(errs.len(), 1);
    match &errs[0] {
        JSONError::LexicalError(t, l) => {
            assert_eq!(t, "-");
            assert_eq!(*l, Location::new(1, 1));
        }
        _ => panic!("expected a lexical diagnostic"),
    }
}

#[test]
fn numbers_kept_as_written() {
    let (v, errs) = run("[-12.5e+3, 0, 7., -1, 1.5, 1e+5, 99999999999999999999999]");
    assert!(errs.is_empty());
    let texts = vec!["-12.5e+3", "0", "7.", "-1", "1.5", "1e+5", "99999999999999999999999"];
    let expected: Vec<Value> = texts.into_iter().map(|t| Value::Number(String::from(t))).collect();
    assert_eq!(v, Value::Array(expected));
}

#[test]
fn incomplete_exponent_is_lexical_error() {
    let (v, errs) = run("1e5");
    assert_eq!(v, Value::Error(String::from("1e")));
    assert_eq!(errs.len(), 2);
    match &errs[0] {
        JSONError::LexicalError(t, l) => {
            assert_eq!(t, "1e");
            assert_eq!(*l, Location::new(1, 1));
        }
        _ => panic!("expected a lexical diagnostic"),
    }
    assert_eq!(unexpected_kind(&errs[1]), Some(TokenType::Number));
}

#[test]
fn complete_number_cases() {
    assert!(is_complete_number("123"));
    assert!(is_complete_number("-45.6e-7"));
    assert!(is_complete_number("0"));
    assert!(is_complete_number("1."));
    assert!(is_complete_number("1e+"));
    assert!(is_complete_number("99999999999999999999999"));
    assert!(!is_complete_number("1e"));
    assert!(!is_complete_number("2.5E"));
    assert!(!is_complete_number("-"));
    assert!(!is_complete_number(""));
}

#[test]
fn empty_input_and_empty_containers() {
    let (v, errs) = run("");
    assert_eq!(v, Value::Null);
    assert_eq!(errs.len(), 1);
    assert_eq!(unexpected_kind(&errs[0]), Some(TokenType::EOF));

    let (v, errs) = run(" { } ");
    assert_eq!(v, Value::Object(vec![]));
    assert!(errs.is_empty());

    let (v, errs) = run("[]");
    assert_eq!(v, Value::Array(vec![]));
    assert!(errs.is_empty());
}

#[test]
fn stray_closer_in_array_is_skipped() {
    let (v, errs) = run("[}, 1]");
    assert_eq!(v, Value::Array(vec![Value::Null, Value::Number(String::from("1"))]));
    assert_eq!(errs.len(), 1);
    assert_eq!(unexpected_kind(&errs[0]), Some(TokenType::RightBrace));
}

#[test]
fn window_holds_two_tokens() {
    let mut p = Parser::new("[1]");
    assert_eq!(p.curr_tok().token_type, TokenType::LeftBracket);
    assert_eq!(p.peek_tok().token_type, TokenType::Number);
    p.next_token();
    p.next_token();
    assert_eq!(p.curr_tok().token_type, TokenType::RightBracket);
    assert_eq!(p.peek_tok().token_type, TokenType::EOF);
    p.next_token();
    p.next_token();
    assert_eq!(p.curr_tok().token_type, TokenType::EOF);
    assert!(p.errors().is_empty());
}

#[test]
fn strict_mode_rejects_barewords() {
    let mut p = Parser::with_mode(r#"{"a": b, "c": true}"#, false);
    let v = p.parse();
    assert_eq!(
        v,
        Value::Object(vec![pair("a", Value::Null), pair("c", Value::Boolean(true))])
    );
    assert_eq!(p.errors().len(), 1);
    match &p.errors()[0] {
        JSONError::UnexpectedToken(t, l) => {
            assert_eq!(t.token_type, TokenType::ILLEGAL);
            assert_eq!(t.value, Some(String::from("b")));
            assert_eq!(*l, Location::new(1, 7));
        }
        _ => panic!("expected an unexpected-token diagnostic"),
    }

    let mut p = Parser::with_mode("{a: 1}", false);
    let v = p.parse();
    assert_eq!(v, Value::Object(vec![]));
    match &p.errors()[0] {
        JSONError::StringError(t) => assert_eq!(t, "a"),
        _ => panic!("expected a string diagnostic"),
    }
}

#[test]
fn permissive_mode_reads_barewords() {
    let mut p = Parser::with_mode("{a: b}", true);
    let v = p.parse();
    assert_eq!(v, Value::Object(vec![pair("a", s("b"))]));
    assert!(p.errors().is_empty());
}
