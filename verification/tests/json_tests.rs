use hyperbase_mqtt::json::{parse_document, to_bytes, Json};

fn b(s: &str) -> Vec<u8> {
    s.as_bytes().to_vec()
}

fn parse_str(s: &str) -> Option<Json> {
    parse_document(&b(s))
}

#[test]
fn serializes_scalars_exactly() {
    assert_eq!(to_bytes(&Json::Null), b("null"));
    assert_eq!(to_bytes(&Json::Bool(true)), b("true"));
    assert_eq!(to_bytes(&Json::Bool(false)), b("false"));
    assert_eq!(to_bytes(&Json::Num(b("0"))), b("0"));
    assert_eq!(to_bytes(&Json::Num(b("-42"))), b("-42"));
    assert_eq!(to_bytes(&Json::Num(b("21.5"))), b("21.5"));
    assert_eq!(to_bytes(&Json::Num(b("-1.25e-3"))), b("-1.25e-3"));
}

#[test]
fn serializes_strings_with_escapes() {
    let s = Json::Str(b("a\"b\\c\nd"));
    assert_eq!(to_bytes(&s), b("\"a\\\"b\\\\c\\u000ad\""));
}

#[test]
fn serializes_arrays_and_objects_compactly() {
    let v = Json::Arr(vec![Json::Num(b("1")), Json::Bool(true), Json::Null]);
    assert_eq!(to_bytes(&v), b("[1,true,null]"));
    let o = Json::Obj(vec![(b("a"), Json::Num(b("1"))), (b("b"), Json::Arr(vec![]))]);
    assert_eq!(to_bytes(&o), b("{\"a\":1,\"b\":[]}"));
}

#[test]
fn parses_document_with_whitespace() {
    let r = parse_str("  { \"a\" : [ 1 , true , null ] }  ").unwrap();
    assert_eq!(
        r,
        Json::Obj(vec![(
            b("a"),
            Json::Arr(vec![Json::Num(b("1")), Json::Bool(true), Json::Null]),
        )])
    );
}

#[test]
fn keeps_number_tokens_verbatim() {
    assert_eq!(parse_str("-7"), Some(Json::Num(b("-7"))));
    assert_eq!(parse_str("9223372036854775807"), Some(Json::Num(b("9223372036854775807"))));
    assert_eq!(
        parse_str("184467440737095516170"),
        Some(Json::Num(b("184467440737095516170")))
    );
}

#[test]
fn parses_fractions_and_exponents() {
    assert_eq!(parse_str("1.5"), Some(Json::Num(b("1.5"))));
    assert_eq!(parse_str("[21.5]"), Some(Json::Arr(vec![Json::Num(b("21.5"))])));
    assert_eq!(parse_str("1e3"), Some(Json::Num(b("1e3"))));
    assert_eq!(parse_str("-2.5E+10"), Some(Json::Num(b("-2.5E+10"))));
    let v = parse_str("6.02e23").unwrap();
    assert_eq!(to_bytes(&v), b("6.02e23"));
}

#[test]
fn rejects_malformed_numbers() {
    assert_eq!(parse_str("1."), None);
    assert_eq!(parse_str(".5"), None);
    assert_eq!(parse_str("1e"), None);
    assert_eq!(parse_str("1e+"), None);
    assert_eq!(parse_str("+1"), None);
}

#[test]
fn rejects_leading_zeros_but_not_zero_itself() {
    assert_eq!(parse_str("0"), Some(Json::Num(b("0"))));
    assert_eq!(parse_str("-0"), Some(Json::Num(b("-0"))));
    assert_eq!(parse_str("0.5"), Some(Json::Num(b("0.5"))));
    assert_eq!(parse_str("007"), None);
    assert_eq!(parse_str("-01"), None);
}

#[test]
fn rejects_malformed_documents() {
    assert_eq!(parse_str(""), None);
    assert_eq!(parse_str("   "), None);
    assert_eq!(parse_str("{"), None);
    assert_eq!(parse_str("[1,]"), None);
    assert_eq!(parse_str("{\"a\" 1}"), None);
    assert_eq!(parse_str("nul"), None);
    assert_eq!(parse_str("true false"), None);
    assert_eq!(parse_str("\"unterminated"), None);
    assert_eq!(parse_str("-"), None);
}

#[test]
fn unescapes_string_escapes() {
    assert_eq!(parse_str("\"a\\nb\""), Some(Json::Str(b("a\nb"))));
    assert_eq!(parse_str("\"\\u0041\""), Some(Json::Str(b("A"))));
    assert_eq!(parse_str("\"q\\\"w\\\\e\\/r\""), Some(Json::Str(b("q\"w\\e/r"))));
    assert_eq!(parse_str("\"\\x41\""), None);
}

#[test]
fn unescapes_code_points_to_utf8() {
    assert_eq!(parse_str("\"\\u00e9\""), Some(Json::Str(b("é"))));
    assert_eq!(parse_str("\"\\u20ac\""), Some(Json::Str(b("€"))));
    assert_eq!(parse_str("\"\\ud83d\\ude00\""), Some(Json::Str(b("😀"))));
    assert_eq!(parse_str("\"\\uD83D\\uDE00!\""), Some(Json::Str(b("😀!"))));
    // a lone surrogate names no code point
    assert_eq!(parse_str("\"\\ud83d\""), None);
    assert_eq!(parse_str("\"\\ude00\""), None);
    assert_eq!(parse_str("\"\\ud83dx\""), None);
}

#[test]
fn keeps_raw_utf8_content() {
    let r = parse_str("\"héllo€\"").unwrap();
    assert_eq!(r, Json::Str(b("héllo€")));
    assert_eq!(to_bytes(&r), b("\"héllo€\""));
}

#[test]
fn round_trips_nested_document() {
    let doc = Json::Obj(vec![
        (b("empty"), Json::Obj(vec![])),
        (b("list"), Json::Arr(vec![
            Json::Num(b("-1")),
            Json::Str(b("x\ty")),
            Json::Arr(vec![Json::Null]),
            Json::Obj(vec![(b("k"), Json::Bool(false))]),
        ])),
        (b("n"), Json::Num(b("1234567890"))),
        (b("pi"), Json::Num(b("3.14159"))),
    ]);
    let bytes = to_bytes(&doc);
    assert_eq!(parse_document(&bytes), Some(doc));
}

#[test]
fn agrees_with_reference_parser_on_output() {
    let doc = Json::Obj(vec![
        (b("a"), Json::Num(b("5"))),
        (b("b"), Json::Str(b("x \"quoted\"\n"))),
        (b("c"), Json::Arr(vec![Json::Bool(true), Json::Null])),
    ]);
    let bytes = to_bytes(&doc);
    let v: serde_json::Value = serde_json::from_slice(&bytes).unwrap();
    assert_eq!(v["a"], serde_json::Value::Number(serde_json::Number::from(5)));
    assert_eq!(v["b"], serde_json::Value::String(String::from("x \"quoted\"\n")));
    assert_eq!(v["c"][0], serde_json::Value::Bool(true));
    assert_eq!(v["c"][1], serde_json::Value::Null);
}

#[test]
fn parses_reference_serializer_output() {
    let mut m = serde_json::Map::new();
    m.insert(String::from("k"), serde_json::Value::String(String::from("v")));
    m.insert(
        String::from("n"),
        serde_json::Value::Number(serde_json::Number::from(-3)),
    );
    let text = serde_json::to_string(&serde_json::Value::Object(m)).unwrap();
    let parsed = parse_document(&text.into_bytes()).unwrap();
    assert_eq!(
        parsed,
        Json::Obj(vec![(b("k"), Json::Str(b("v"))), (b("n"), Json::Num(b("-3")))])
    );
}
