use json_parser::lexer::Lexer;
use json_parser::token::{lookup_ident, Location, TokenType};

#[test]
fn test_parse_string_token() {
    let input = r#"
        "key":"value"
        "#;

    let mut lex = Lexer::new(input);
    loop {
        let t = lex.next_token();
        if t.token_type == TokenType::EOF {
            break;
        }
        println!("{:?}", t);
    }
}

#[test]
fn test_parse_number_token() {
    let inputs = vec![
        "123",
        "-123",
        "123.123",
        "-123.123",
        "123.123e-123",
        "123.123e+123",
    ];

    for input in inputs {
        let mut lex = Lexer::new(input);
        let token = lex.next_token();
        assert_eq!(input, token.value.unwrap());
    }
}

#[test]
fn test_parse_invalid_number() {
    let inputs = vec![
        "+123", "01", "-0.e", "-0.0e0", "-0.0ee-0", ".123", "123e", "123.e",
    ];

    for input in inputs {
        let mut lex = Lexer::new(input);
        let _token = lex.next_token();
    }
}

#[test]
fn test_parse_keyword() {
    let inputs = "false \n true \n null ";

    let mut lex = Lexer::new(inputs);
    loop {
        let a = lex.next_token();
        println!("{:?}", a);
        match &a.token_type {
            TokenType::False | TokenType::True | TokenType::Null => {
                continue;
            }
            TokenType::EOF => {
                break;
            }
            _ => panic!("must be a null or boolean value"),
        }
    }
}

#[test]
fn test_lexer() {
    let input = r#"
            {
                "foo": "bar",
                "baz": true,
                "qux": null,
                "obj": {
                    "inner": "inner text",
                    "innerArray": [
                        "array1",
                        "array2",
                        "array3"
                    ]
                }
            }
        "#;

    let expected = vec![
        (TokenType::LeftBrace, None),
        (TokenType::String, Some(String::from("foo"))),
        (TokenType::Colon, None),
        (TokenType::String, Some(String::from("bar"))),
        (TokenType::Comma, None),
        (TokenType::String, Some(String::from("baz"))),
        (TokenType::Colon, None),
        (TokenType::True, Some(String::from("true"))),
        (TokenType::Comma, None),
        (TokenType::String, Some(String::from("qux"))),
        (TokenType::Colon, None),
        (TokenType::Null, Some(String::from("null"))),
        (TokenType::Comma, None),
        (TokenType::String, Some(String::from("obj"))),
        (TokenType::Colon, None),
        (TokenType::LeftBrace, None),
        (TokenType::String, Some(String::from("inner"))),
        (TokenType::Colon, None),
        (TokenType::String, Some(String::from("inner text"))),
        (TokenType::Comma, None),
        (TokenType::String, Some(String::from("innerArray"))),
        (TokenType::Colon, None),
        (TokenType::LeftBracket, None),
        (TokenType::String, Some(String::from("array1"))),
        (TokenType::Comma, None),
        (TokenType::String, Some(String::from("array2"))),
        (TokenType::Comma, None),
        (TokenType::String, Some(String::from("array3"))),
        (TokenType::RightBracket, None),
        (TokenType::RightBrace, None),
        (TokenType::RightBrace, None),
        (TokenType::EOF, None),
    ];

    let mut lex = Lexer::new(input);
    println!("{:?}", lex);

    for e in expected.iter() {
        let t = lex.next_token();
        println!("{:?} {:?}\n", t, e);
        assert_eq!(e, &(t.token_type, t.value));
    }
}

fn kinds_and_values(input: &str) -> Vec<(TokenType, Option<String>)> {
    let mut lex = Lexer::new(input);
    let mut out = Vec::new();
    loop {
        let t = lex.next_token();
        let done = t.token_type == TokenType::EOF;
        out.push((t.token_type, t.value));
        if done {
            break;
        }
    }
    out
}

#[test]
fn number_prefixes_follow_the_grammar() {
    let cases = vec![
        ("01", "0"),
        ("-0.e", "-0.e"),
        ("-0.0e0", "-0.0e"),
        ("-0.0ee-0", "-0.0e"),
        ("123e", "123e"),
        ("123.e", "123.e"),
        ("-", "-"),
        ("0.5E+", "0.5E+"),
        ("1e5", "1e"),
    ];
    for (input, prefix) in cases {
        let mut lex = Lexer::new(input);
        let t = lex.next_token();
        assert_eq!(t.token_type, TokenType::Number);
        assert_eq!(t.value.unwrap(), prefix);
    }
}

#[test]
fn number_stops_before_whitespace_and_delimiters() {
    assert_eq!(
        kinds_and_values("12 3,4]"),
        vec![
            (TokenType::Number, Some(String::from("12"))),
            (TokenType::Number, Some(String::from("3"))),
            (TokenType::Comma, None),
            (TokenType::Number, Some(String::from("4"))),
            (TokenType::RightBracket, None),
            (TokenType::EOF, None),
        ]
    );
}

#[test]
fn plus_and_dot_are_illegal() {
    assert_eq!(
        kinds_and_values("+1"),
        vec![
            (TokenType::ILLEGAL, None),
            (TokenType::Number, Some(String::from("1"))),
            (TokenType::EOF, None),
        ]
    );
    assert_eq!(kinds_and_values(".")[0], (TokenType::ILLEGAL, None));
}

#[test]
fn control_character_is_illegal() {
    assert_eq!(
        kinds_and_values("\u{1}"),
        vec![(TokenType::ILLEGAL, None), (TokenType::EOF, None)]
    );
}

#[test]
fn barewords_are_identifiers() {
    assert_eq!(
        kinds_and_values("key nullable true_ null"),
        vec![
            (TokenType::Ident, Some(String::from("key"))),
            (TokenType::Ident, Some(String::from("nullable"))),
            (TokenType::Ident, Some(String::from("true_"))),
            (TokenType::Null, Some(String::from("null"))),
            (TokenType::EOF, None),
        ]
    );
}

#[test]
fn bareword_ends_at_delimiters() {
    assert_eq!(
        kinds_and_values("a;b:c}d\te"),
        vec![
            (TokenType::Ident, Some(String::from("a"))),
            (TokenType::ILLEGAL, None),
            (TokenType::Ident, Some(String::from("b"))),
            (TokenType::Colon, None),
            (TokenType::Ident, Some(String::from("c"))),
            (TokenType::RightBrace, None),
            (TokenType::Ident, Some(String::from("d"))),
            (TokenType::Ident, Some(String::from("e"))),
            (TokenType::EOF, None),
        ]
    );
}

#[test]
fn string_keeps_escapes_raw() {
    assert_eq!(
        kinds_and_values(r#""a\"b" "é\n""#),
        vec![
            (TokenType::String, Some(String::from(r#"a\"b"#))),
            (TokenType::String, Some(String::from(r"é\n"))),
            (TokenType::EOF, None),
        ]
    );
}

#[test]
fn unterminated_string_is_illegal() {
    assert_eq!(
        kinds_and_values("\"abc"),
        vec![(TokenType::ILLEGAL, None), (TokenType::EOF, None)]
    );
    assert_eq!(
        kinds_and_values("\"ab\\"),
        vec![(TokenType::ILLEGAL, None), (TokenType::EOF, None)]
    );
}

#[test]
fn end_marker_repeats() {
    let mut lex = Lexer::new("  ");
    for _ in 0..3 {
        let t = lex.next_token();
        assert_eq!(t.token_type, TokenType::EOF);
        assert_eq!(t.location, Location::new(1, 3));
    }
}

#[test]
fn tokens_carry_their_start_location() {
    let mut lex = Lexer::new("{\n  \"a\":\r\n\t1,\rtrue}");
    let expected = vec![(1, 1), (2, 3), (2, 6), (3, 2), (3, 3), (4, 1), (4, 5), (4, 6)];
    for (line, column) in expected {
        let t = lex.next_token();
        assert_eq!(t.location, Location::new(line, column));
    }
}

#[test]
fn keyword_lookup() {
    assert_eq!(TokenType::lookup_ident("true"), TokenType::True);
    assert_eq!(TokenType::lookup_ident("false"), TokenType::False);
    assert_eq!(TokenType::lookup_ident("null"), TokenType::Null);
    assert_eq!(TokenType::lookup_ident("nul"), TokenType::Ident);
    assert_eq!(TokenType::lookup_ident("True"), TokenType::Ident);
    assert!(lookup_ident("null"));
    assert!(!lookup_ident("nulls"));
    assert!(!lookup_ident(""));
}

#[test]
fn location_moves() {
    let mut l = Location::new(3, 7);
    l.next_column();
    assert_eq!(l, Location::new(3, 8));
    l.next_line();
    assert_eq!(l, Location::new(4, 1));
}
