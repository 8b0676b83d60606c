use lib::json::{from_str, to_string, to_string_pretty, JsonDe, JsonSer, Number, Value};
use lib::serde::err;

#[test]
fn json_parse_and_print_object() {
    let v = from_str(r#"{"id":42,"name":"alice"}"#).unwrap();
    assert_eq!(v.get("name").and_then(|x| x.as_str()), Some("alice"));
    assert_eq!(v.get("id").and_then(|x| x.as_i64()), Some(42));
    assert_eq!(to_string(&v), r#"{"id":42,"name":"alice"}"#);
}

#[test]
fn json_keys_sorted_and_last_wins() {
    assert_eq!(to_string(&from_str(r#"{"b":1,"a":2}"#).unwrap()), r#"{"a":2,"b":1}"#);
    assert_eq!(to_string(&from_str(r#"{"a":1,"a":2}"#).unwrap()), r#"{"a":2}"#);
}

#[test]
fn json_pretty() {
    let v = from_str(r#"{"a":[1,2],"b":{},"c":[]}"#).unwrap();
    assert_eq!(to_string_pretty(&v), "{\n  \"a\": [\n    1,\n    2\n  ],\n  \"b\": {},\n  \"c\": []\n}");
}

#[test]
fn json_numbers() {
    assert!(matches!(from_str("-0").unwrap(), Value::Number(Number::NegInt(0))));
    assert!(matches!(from_str("18446744073709551615").unwrap(), Value::Number(Number::PosInt(u64::MAX))));
    assert!(matches!(from_str("-9223372036854775808").unwrap(), Value::Number(Number::NegInt(i64::MIN))));
    match from_str(" 1.5e3 ").unwrap() {
        Value::Number(Number::Float(t)) => assert_eq!(t, "1.5e3"),
        other => panic!("unexpected {:?}", other),
    }
    let e = from_str("18446744073709551616").unwrap_err();
    assert_eq!((e.msg.as_str(), e.line, e.col), ("number out of range", 1, 21));
    let e = from_str("1.").unwrap_err();
    assert_eq!(e.msg, "expected digit after `.`");
    let e = from_str("1e+").unwrap_err();
    assert_eq!(e.msg, "expected digit in exponent");
    assert_eq!(from_str("-1").unwrap().as_u64(), None);
    assert_eq!(from_str("7").unwrap().as_u64(), Some(7));
}

#[test]
fn json_strings_and_escapes() {
    assert_eq!(from_str(r#""\u00e9\n\"""#).unwrap().as_str(), Some("é\n\""));
    assert_eq!(from_str(r#""\ud83d\ude00""#).unwrap().as_str(), Some("😀"));
    assert_eq!(to_string(&Value::String("a\"b\\c\n\u{1}".to_string())), "\"a\\\"b\\\\c\\n\\u0001\"");
    let e = from_str(r#""\ude00""#).unwrap_err();
    assert_eq!(e.msg, "unexpected low surrogate");
    let e = from_str("\"abc").unwrap_err();
    assert_eq!(e.msg, "unterminated string");
    let e = from_str("\"a\u{1}\"").unwrap_err();
    assert_eq!(e.msg, "control character in string");
    let e = from_str(r#""\x""#).unwrap_err();
    assert_eq!(e.msg, "invalid escape");
}

#[test]
fn json_literals_and_errors_with_positions() {
    assert!(from_str(" null ").unwrap().is_null());
    assert_eq!(from_str("true").unwrap().as_bool(), Some(true));
    let e = from_str("tru").unwrap_err();
    assert_eq!((e.msg.as_str(), e.line, e.col), ("invalid literal", 1, 1));
    let e = from_str("[1,2").unwrap_err();
    assert_eq!((e.msg.as_str(), e.line, e.col), ("expected `,` or `]`", 1, 5));
    let e = from_str("{\n  \"a\" 1}").unwrap_err();
    assert_eq!((e.msg.as_str(), e.line, e.col), ("expected :", 2, 7));
    let e = from_str("1 2").unwrap_err();
    assert_eq!((e.msg.as_str(), e.line, e.col), ("trailing characters", 1, 3));
    let e = from_str("").unwrap_err();
    assert_eq!(e.msg, "unexpected end of input");
    let e = from_str("{1:2}").unwrap_err();
    assert_eq!(e.msg, "expected string key");
    let e = from_str("@").unwrap_err();
    assert_eq!(e.msg, "expected value");
    assert_eq!(e.to_string(), "expected value at line 1 column 1");
}

#[test]
fn json_round_trip_compact() {
    let text = r#"{"a":[1,-2,3.25,"x",null,true,false,{"k":[]}],"b":"\u0007"}"#;
    let v = from_str(text).unwrap();
    let once = to_string(&v);
    assert_eq!(to_string(&from_str(&once).unwrap()), once);
}

#[test]
fn json_serializer_events() {
    let mut s = JsonSer::new();
    s.begin_map().unwrap();
    s.key("a").unwrap();
    s.begin_seq().unwrap();
    s.emit_u64(1).unwrap();
    s.emit_i64(-2).unwrap();
    s.emit_bool(true).unwrap();
    s.emit_null().unwrap();
    s.emit_str("x").unwrap();
    s.end_seq().unwrap();
    s.key("b").unwrap();
    s.emit_str("y").unwrap();
    s.end_map().unwrap();
    assert_eq!(s.out, r#"{"a":[1,-2,true,null,"x"],"b":"y"}"#);
    let mut t = JsonSer::with_capacity(8);
    assert_eq!(t.key("k").unwrap_err().0, err("key outside map").0);
}

#[test]
fn json_deserializer_finish() {
    let mut d = JsonDe::new("   ");
    assert!(d.finish().is_ok());
    let mut d = JsonDe::new("  x");
    assert_eq!(d.finish().unwrap_err().0, "trailing characters at line 1 column 3");
}

#[test]
fn json_written_value_reads_back() {
    let v = Value::Array(vec![
        Value::Null,
        Value::Bool(false),
        Value::Number(Number::NegInt(-9223372036854775808)),
        Value::Number(Number::PosInt(18446744073709551615)),
        Value::Number(Number::Float("-1.5e-7".to_string())),
        Value::String("tab\there \"q\" \\ \u{1f} ✓".to_string()),
        Value::Object(vec![
            ("a".to_string(), Value::Array(vec![])),
            ("b\n".to_string(), Value::Object(vec![])),
        ]),
    ]);
    let text = to_string(&v);
    let back = from_str(&text).unwrap();
    assert_eq!(to_string(&back), text);
    match &back {
        Value::Array(items) => {
            assert_eq!(items.len(), 7);
            assert!(matches!(items[2], Value::Number(Number::NegInt(-9223372036854775808))));
            assert!(matches!(items[3], Value::Number(Number::PosInt(18446744073709551615))));
            match &items[4] {
                Value::Number(Number::Float(t)) => assert_eq!(t, "-1.5e-7"),
                _ => panic!("expected a float"),
            }
            match &items[5] {
                Value::String(s) => assert_eq!(s, "tab\there \"q\" \\ \u{1f} ✓"),
                _ => panic!("expected a string"),
            }
        }
        _ => panic!("expected an array"),
    }
}

#[test]
fn json_pretty_value_reads_back() {
    let v = Value::Object(vec![
        ("a".to_string(), Value::Array(vec![
            Value::Number(Number::PosInt(1)),
            Value::Object(vec![("x".to_string(), Value::Null)]),
            Value::Array(vec![]),
        ])),
        ("s".to_string(), Value::String("é \"q\"\n".to_string())),
        ("z".to_string(), Value::Object(vec![])),
    ]);
    let s = to_string_pretty(&v);
    assert_eq!(
        s,
        "{\n  \"a\": [\n    1,\n    {\n      \"x\": null\n    },\n    []\n  ],\n  \"s\": \"é \\\"q\\\"\\n\",\n  \"z\": {}\n}"
    );
    let back = from_str(&s).unwrap();
    assert_eq!(to_string_pretty(&back), s);
    assert_eq!(to_string(&back), to_string(&v));
}
