use json_parser::{lex, parse, JsonNumber, JsonValue, Token};

fn parse_text(text: &str) -> Result<JsonValue, String> {
    let tokens = lex(text).expect("text should lex");
    parse(tokens)
}

fn as_f64(n: &JsonNumber) -> f64 {
    n.to_text().parse::<f64>().expect("number text is decimal")
}

fn number(v: &JsonValue) -> f64 {
    match v {
        JsonValue::Number(n) => as_f64(n),
        other => panic!("expected a number, got {:?}", other),
    }
}

fn numbers(v: &JsonValue) -> Vec<f64> {
    match v {
        JsonValue::Array(items) => items.iter().map(number).collect(),
        other => panic!("expected an array, got {:?}", other),
    }
}

fn entries(v: &JsonValue) -> &Vec<(String, JsonValue)> {
    match v {
        JsonValue::Object(es) => es,
        other => panic!("expected an object, got {:?}", other),
    }
}

fn lookup<'a>(v: &'a JsonValue, key: &str) -> Option<&'a JsonValue> {
    entries(v).iter().find(|(k, _)| k == key).map(|(_, v)| v)
}

#[test]
fn empty_object_and_array() {
    assert_eq!(parse_text("{}"), Ok(JsonValue::Object(vec![])));
    assert_eq!(parse_text("[]"), Ok(JsonValue::Array(vec![])));
}

#[test]
fn duplicate_key_last_write_wins() {
    let v = parse_text("{\"a\":1,\"a\":2}").unwrap();
    assert_eq!(entries(&v).len(), 1);
    assert_eq!(number(lookup(&v, "a").unwrap()), 2.0);
}

#[test]
fn duplicate_key_keeps_first_place() {
    let v = parse_text("{\"a\":1,\"b\":2,\"a\":3}").unwrap();
    let keys: Vec<&str> = entries(&v).iter().map(|(k, _)| k.as_str()).collect();
    assert_eq!(keys, vec!["a", "b"]);
    assert_eq!(number(lookup(&v, "a").unwrap()), 3.0);
    assert_eq!(number(lookup(&v, "b").unwrap()), 2.0);
}

#[test]
fn array_order_is_kept() {
    let v = parse_text("[3,1,2]").unwrap();
    assert_eq!(numbers(&v), vec![3.0, 1.0, 2.0]);
}

#[test]
fn integer_and_decimal_are_the_same_number() {
    let one = parse_text("1").unwrap();
    let one_point_zero = parse_text("1.0").unwrap();
    assert_eq!(one, one_point_zero);
    assert_eq!(number(&one), 1.0);
    assert_eq!(number(&one_point_zero), 1.0);
}

#[test]
fn number_normal_form() {
    let v = parse_text("[007.2500, -0.5, 12, -3., 0.50]").unwrap();
    match &v {
        JsonValue::Array(items) => {
            let texts: Vec<String> = items
                .iter()
                .map(|i| match i {
                    JsonValue::Number(n) => n.to_text(),
                    _ => panic!("expected a number"),
                })
                .collect();
            assert_eq!(texts, vec!["7.25", "-0.5", "12", "-3", "0.5"]);
        }
        _ => panic!("expected an array"),
    }
    assert_eq!(numbers(&v), vec![7.25, -0.5, 12.0, -3.0, 0.5]);
}

#[test]
fn escaped_quote_ends_the_string() {
    let err = lex("\"a\\\"b\"").unwrap_err();
    assert_eq!(err.message, "Unexpected character 'b'");
    assert_eq!((err.line, err.column), (1, 4));
    let v = parse_text("[\"a\\\"]").unwrap();
    assert_eq!(v, JsonValue::Array(vec![JsonValue::String("a\\".to_string())]));
}

#[test]
fn short_literal_fails() {
    let err = lex("{\"a\": tru}").unwrap_err();
    assert_eq!(err.message, "Unexpected literal 'tru}'");
    assert_eq!((err.line, err.column), (1, 10));
}

#[test]
fn literal_cut_by_end_of_input() {
    let err = lex("fal").unwrap_err();
    assert_eq!(err.message, "Unexpected literal 'fal'");
    assert_eq!((err.line, err.column), (1, 3));
    let err = lex("[nul]").unwrap_err();
    assert_eq!(err.message, "Unexpected literal 'nul]'");
}

#[test]
fn open_brace_alone_is_premature_end() {
    assert_eq!(parse_text("{"), Err("Unexpected end of input".to_string()));
}

#[test]
fn trailing_tokens_are_rejected() {
    assert_eq!(
        parse_text("{} 1"),
        Err("Unexpected extra tokens after valid JSON".to_string())
    );
    assert_eq!(
        parse_text("{} null"),
        Err("Unexpected extra tokens after valid JSON".to_string())
    );
    assert_eq!(
        parse_text("{} {}"),
        Err("Unexpected extra tokens after valid JSON".to_string())
    );
}

#[test]
fn trailing_letter_fails_in_the_lexer() {
    let err = lex("{} x").unwrap_err();
    assert_eq!(err.message, "Unexpected character 'x'");
    assert_eq!((err.line, err.column), (1, 3));
}

#[test]
fn nested_scenario() {
    let v = parse_text("{\"a\":1,\"b\":[1,2,3]}").unwrap();
    assert_eq!(entries(&v).len(), 2);
    assert_eq!(number(lookup(&v, "a").unwrap()), 1.0);
    assert_eq!(numbers(lookup(&v, "b").unwrap()), vec![1.0, 2.0, 3.0]);
}

#[test]
fn leaves_and_whitespace() {
    let v = parse_text(" [ true ,\n\tfalse,\r\nnull , \"x y\" ]\u{a0}").unwrap();
    assert_eq!(
        v,
        JsonValue::Array(vec![
            JsonValue::Boolean(true),
            JsonValue::Boolean(false),
            JsonValue::Null,
            JsonValue::String("x y".to_string()),
        ])
    );
}

#[test]
fn token_sequence() {
    let ts = lex("{\"k\": [-1.50, null]}").unwrap();
    assert_eq!(ts.len(), 9);
    assert_eq!(ts[0], Token::LeftBrace);
    assert_eq!(ts[1], Token::String("k".to_string()));
    assert_eq!(ts[2], Token::Colon);
    assert_eq!(ts[3], Token::LeftBracket);
    match &ts[4] {
        Token::Number(n) => {
            assert!(n.negative);
            assert_eq!(n.integer, "1");
            assert_eq!(n.fraction, "5");
            assert_eq!(as_f64(n), -1.5);
        }
        other => panic!("expected a number, got {:?}", other),
    }
    assert_eq!(ts[5], Token::Comma);
    assert_eq!(ts[6], Token::Null);
    assert_eq!(ts[7], Token::RightBracket);
    assert_eq!(ts[8], Token::RightBrace);
}

#[test]
fn unterminated_string() {
    let err = lex("[\"ab\ncd").unwrap_err();
    assert_eq!(err.message, "Unterminated string");
    assert_eq!((err.line, err.column), (2, 2));
}

#[test]
fn string_closing_at_end_of_input() {
    assert_eq!(parse_text("\"abc\""), Ok(JsonValue::String("abc".to_string())));
}

#[test]
fn invalid_numbers() {
    for (text, shown) in [("1.2.3", "1.2.3"), ("-", "-"), ("--1", "--1"), ("1-2", "1-2"), ("-.", "-.")] {
        let err = lex(text).unwrap_err();
        assert_eq!(err.message, format!("Invalid number '{}'", shown));
    }
    let err = lex("[1e5]").unwrap_err();
    assert_eq!(err.message, "Unexpected character 'e'");
    assert_eq!((err.line, err.column), (1, 2));
}

#[test]
fn unexpected_character_position() {
    let err = lex("\n\n  @").unwrap_err();
    assert_eq!(err.message, "Unexpected character '@'");
    assert_eq!((err.line, err.column), (3, 2));
}

#[test]
fn parser_errors() {
    assert_eq!(parse_text(":"), Err("Unknown token: Colon".to_string()));
    assert_eq!(parse_text(""), Err("Unexpected end of input".to_string()));
    assert_eq!(parse_text("{1:2}"), Err("Keys must be Strings".to_string()));
    assert_eq!(parse_text("{\"a\":1,}"), Err("Keys must be Strings".to_string()));
    assert_eq!(parse_text("{\"a\":1,"), Err("Unexpected end of input".to_string()));
    assert_eq!(
        parse_text("{\"a\" 1}"),
        Err("json structure should be key:value".to_string())
    );
    assert_eq!(parse_text("{\"a\":1 2}"), Err("Unexpected token Number(2)".to_string()));
    assert_eq!(parse_text("{\"a\":1"), Err("Unexpected end of input".to_string()));
    assert_eq!(parse_text("[1 2]"), Err("Unexpected token found: Number(2)".to_string()));
    assert_eq!(parse_text("[1"), Err("Unexpected end of input.".to_string()));
    assert_eq!(
        parse_text("{\"a\":1 \"b\":2}"),
        Err("Unexpected token String(\"b\")".to_string())
    );
    assert_eq!(parse_text("[1 -2.50]"), Err("Unexpected token found: Number(-2.5)".to_string()));
    assert_eq!(parse_text("}"), Err("Unknown token: RightBrace".to_string()));
    assert_eq!(parse_text("[,]"), Err("Unknown token: Comma".to_string()));
    assert_eq!(parse_text("[1,]"), Err("Unknown token: RightBracket".to_string()));
}

fn num(negative: bool, integer: &str, fraction: &str) -> JsonValue {
    JsonValue::Number(JsonNumber {
        negative,
        integer: integer.to_string(),
        fraction: fraction.to_string(),
    })
}

#[test]
fn spaced_text_reads_back_as_its_tree() {
    let tree = JsonValue::Object(vec![
        (
            "a".to_string(),
            JsonValue::Array(vec![num(false, "1", ""), num(true, "2", "5"), JsonValue::Boolean(true)]),
        ),
        ("b".to_string(), JsonValue::Null),
        ("c".to_string(), JsonValue::Object(vec![("d".to_string(), num(false, "", "05"))])),
    ]);
    let text = "{ \"a\" : [ 1 , -2.5 , true ] , \"b\" : null , \"c\" : { \"d\" : 0.05 } } ";
    assert_eq!(parse_text(text), Ok(tree));
}

#[test]
fn token_names() {
    let ts = lex("{}[]:, \"q\" true false null -0.10").unwrap();
    let names: Vec<String> = ts.iter().map(|t| t.name()).collect();
    assert_eq!(
        names,
        vec![
            "LeftBrace",
            "RightBrace",
            "LeftBracket",
            "RightBracket",
            "Colon",
            "Comma",
            "String(\"q\")",
            "True",
            "False",
            "Null",
            "Number(-0.1)",
        ]
    );
}
