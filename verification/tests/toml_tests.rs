use lib::toml::{from_str, to_string, Error, Value};

fn get<'a>(v: &'a Value, k: &str) -> &'a Value {
    match v {
        Value::Table(t) => &t.iter().find(|(key, _)| key == k).expect("key present").1,
        other => panic!("not a table: {:?}", other),
    }
}

fn as_int(v: &Value) -> i64 {
    match v {
        Value::Integer(n) => *n,
        other => panic!("not an integer: {:?}", other),
    }
}

fn text(v: &Value) -> &str {
    match v {
        Value::String(s) => s.as_str(),
        Value::Float(s) => s.as_str(),
        Value::Datetime(s) => s.as_str(),
        other => panic!("not text: {:?}", other),
    }
}

fn err(s: &str) -> Error {
    from_str(s).unwrap_err()
}

#[test]
fn toml_readme_example() {
    let v = from_str("[server]\nport = 8080\n").unwrap();
    assert_eq!(as_int(get(get(&v, "server"), "port")), 8080);
    assert_eq!(to_string(&v), "[server]\nport = 8080\n");
}

#[test]
fn toml_keys_come_out_sorted() {
    let v = from_str("b = 1\na = 2\nc = \"x\"\n").unwrap();
    assert_eq!(to_string(&v), "a = 2\nb = 1\nc = \"x\"\n");
    match &v {
        Value::Table(t) => {
            let keys: Vec<&str> = t.iter().map(|(k, _)| k.as_str()).collect();
            assert_eq!(keys, vec!["a", "b", "c"]);
        }
        _ => panic!(),
    }
}

#[test]
fn toml_strings() {
    let v = from_str("a = \"tab\\there \\u00e9 \\\"q\\\"\"\nb = 'C:\\path'\nc = \"\"\"\nline1\nline2\"\"\"\nd = '''\nraw\\n'''\ne = \"\"\"one \\\n   two\"\"\"\n").unwrap();
    assert_eq!(text(get(&v, "a")), "tab\there \u{e9} \"q\"");
    assert_eq!(text(get(&v, "b")), "C:\\path");
    assert_eq!(text(get(&v, "c")), "line1\nline2");
    assert_eq!(text(get(&v, "d")), "raw\\n");
    assert_eq!(text(get(&v, "e")), "one two");
}

#[test]
fn toml_integers() {
    let v = from_str("a = 0xff\nb = 0o17\nc = 0b101\nd = -0x10\ne = 1_000\nf = -42\ng = +7\n").unwrap();
    assert_eq!(as_int(get(&v, "a")), 255);
    assert_eq!(as_int(get(&v, "b")), 15);
    assert_eq!(as_int(get(&v, "c")), 5);
    assert_eq!(as_int(get(&v, "d")), -16);
    assert_eq!(as_int(get(&v, "e")), 1000);
    assert_eq!(as_int(get(&v, "f")), -42);
    assert_eq!(as_int(get(&v, "g")), 7);
    assert_eq!(as_int(get(&from_str("m = -9223372036854775808").unwrap(), "m")), i64::MIN);
}

#[test]
fn toml_floats_keep_their_text() {
    let v = from_str("a = 3.14\nb = 1e5\nc = -inf\nd = nan\ne = 6.626_070e-34\n").unwrap();
    assert!(matches!(get(&v, "a"), Value::Float(_)));
    assert_eq!(text(get(&v, "a")), "3.14");
    assert_eq!(text(get(&v, "b")), "1e5");
    assert_eq!(text(get(&v, "c")), "-inf");
    assert_eq!(text(get(&v, "d")), "nan");
    assert_eq!(text(get(&v, "e")), "6.626070e-34");
}

#[test]
fn toml_number_errors() {
    let e = err("x = 12abc");
    assert_eq!((e.msg.as_str(), e.line, e.col), ("bad int", 1, 5));
    assert_eq!(err("x = 0xzz").msg, "bad hex");
    assert_eq!(err("x = 0o9").msg, "bad oct");
    assert_eq!(err("x = 0b2").msg, "bad bin");
    assert_eq!(err("x = 1.").msg, "bad float");
    assert_eq!(err("x = .5").msg, "bad float");
    assert_eq!(err("x = 1.e5").msg, "bad float");
    assert_eq!(err("x = 9223372036854775808").msg, "bad int");
    let e = err("x = ");
    assert_eq!((e.msg.as_str(), e.line, e.col), ("empty number", 1, 5));
}

#[test]
fn toml_booleans_and_datetimes() {
    let v = from_str("t = true\nf = false\nd = 1979-05-27T07:32:00Z\nh = 07:32:00\n").unwrap();
    assert!(matches!(get(&v, "t"), Value::Boolean(true)));
    assert!(matches!(get(&v, "f"), Value::Boolean(false)));
    assert!(matches!(get(&v, "d"), Value::Datetime(_)));
    assert_eq!(text(get(&v, "d")), "1979-05-27T07:32:00Z");
    assert_eq!(text(get(&v, "h")), "07:32:00");
    assert_eq!(err("b = tru").msg, "invalid bool");
}

#[test]
fn toml_arrays_and_inline_tables() {
    let v = from_str("arr = [1, 2, # two\n  3,]\nt = { b = 1, a = \"x\", c.d = true }\n").unwrap();
    match get(&v, "arr") {
        Value::Array(a) => assert_eq!(a.iter().map(as_int).collect::<Vec<_>>(), vec![1, 2, 3]),
        other => panic!("{:?}", other),
    }
    assert!(matches!(get(get(get(&v, "t"), "c"), "d"), Value::Boolean(true)));
    assert_eq!(
        to_string(&v),
        "arr = [1, 2, 3]\n[t]\na = \"x\"\nb = 1\n[t.c]\nd = true\n"
    );
    assert_eq!(err("t = { a = 1, a = 2 }").msg, "duplicate key");
    assert_eq!(err("a = [\"x\" 2]").msg, "expected , or ]");
    assert_eq!(err("a = [1 2]").msg, "bad int");
}

#[test]
fn toml_dotted_keys_and_headers() {
    let v = from_str("a.b = 1\na.c = 2\n[x.y]\nz = 3\n").unwrap();
    assert_eq!(as_int(get(get(&v, "a"), "b")), 1);
    assert_eq!(as_int(get(get(&v, "a"), "c")), 2);
    assert_eq!(as_int(get(get(get(&v, "x"), "y"), "z")), 3);
    assert_eq!(to_string(&v), "[a]\nb = 1\nc = 2\n[x]\n[x.y]\nz = 3\n");
}

#[test]
fn toml_arrays_of_tables() {
    let v = from_str("[[fruit]]\nname = \"apple\"\n[fruit.info]\ncolor = \"red\"\n[[fruit]]\nname = \"pear\"\n").unwrap();
    match get(&v, "fruit") {
        Value::Array(a) => {
            assert_eq!(a.len(), 2);
            assert_eq!(text(get(&a[0], "name")), "apple");
            assert_eq!(text(get(get(&a[0], "info"), "color")), "red");
            assert_eq!(text(get(&a[1], "name")), "pear");
        }
        other => panic!("{:?}", other),
    }
    assert_eq!(
        to_string(&v),
        "[[fruit]]\nname = \"apple\"\n[fruit.info]\ncolor = \"red\"\n[[fruit]]\nname = \"pear\"\n"
    );
}

#[test]
fn toml_duplicate_and_conflicting_definitions() {
    let e = err("[a]\n[a]\n");
    assert_eq!((e.msg.as_str(), e.line, e.col), ("duplicate table", 3, 1));
    assert_eq!(e.to_string(), "duplicate table at line 3 column 1");
    let e = err("a = 1\na = 2");
    assert_eq!((e.msg.as_str(), e.line, e.col), ("duplicate key", 2, 6));
    assert_eq!(err("a = 1\n[a]\n").msg, "duplicate table");
    assert_eq!(err("a = 1\n[a.b]\n").msg, "not a table");
    assert_eq!(err("a = [1]\n[[a]]\n").msg, "not an array of tables");
    assert_eq!(err("a = 1\n[[a]]\n").msg, "not an array");
    assert_eq!(err("a.b = 1\n[a]\nb = 2\n").msg, "duplicate key");
    assert_eq!(err("[a]\nb = 1\n[c]\n[a.b]\n").msg, "duplicate table");
    assert_eq!(err("[a]\nb = 1\n[a.b.c]\n").msg, "not a table");
}

#[test]
fn toml_syntax_errors() {
    let e = err("a = 1 b");
    assert_eq!((e.msg.as_str(), e.line, e.col), ("bad int", 1, 5));
    let e = err("a = \"open");
    assert_eq!((e.msg.as_str(), e.line, e.col), ("unterminated string", 1, 10));
    let e = err("[a\n");
    assert_eq!((e.msg.as_str(), e.line, e.col), ("expected ]", 1, 3));
    let e = err("a = 'x'\nb 1");
    assert_eq!((e.msg.as_str(), e.line, e.col), ("expected =", 2, 3));
    assert_eq!(err("= 1").msg, "expected key");
    assert_eq!(err("a = \"\\q\"").msg, "invalid escape");
    assert_eq!(err("a = \"\\uD800\"").msg, "bad codepoint");
    assert_eq!(err("a = 'x' y").msg, "expected newline");
}

#[test]
fn toml_comments_and_blank_lines() {
    let v = from_str("# head\n\n  a = 1 # trailing\r\n\tb = 2\n").unwrap();
    assert_eq!(as_int(get(&v, "a")), 1);
    assert_eq!(as_int(get(&v, "b")), 2);
    assert_eq!(to_string(&from_str("").unwrap()), "");
}

#[test]
fn toml_serializer_quotes_keys_and_escapes() {
    let v = Value::Table(vec![
        ("a b".to_string(), Value::String("x\"y\u{1}".to_string())),
        ("f".to_string(), Value::Float("1.5".to_string())),
        ("n".to_string(), Value::Integer(-3)),
    ]);
    assert_eq!(to_string(&v), "\"a b\" = \"x\\\"y\\u0001\"\nf = 1.5\nn = -3\n");
    assert_eq!(to_string(&Value::Integer(1)), "");
}

#[test]
fn toml_written_plain_table_reads_back() {
    let v = Value::Table(vec![
        ("a b".to_string(), Value::String("x\"\n\u{1}é".to_string())),
        ("d".to_string(), Value::Datetime("1979-05-27T07:32:00Z".to_string())),
        ("f".to_string(), Value::Float("-1.5e3".to_string())),
        ("n".to_string(), Value::Integer(i64::MIN)),
        ("t".to_string(), Value::Boolean(true)),
        ("xs".to_string(), Value::Array(vec![Value::Integer(1), Value::String("a".to_string()), Value::Boolean(false)])),
        ("z".to_string(), Value::Array(vec![])),
    ]);
    let s = to_string(&v);
    assert_eq!(
        s,
        "\"a b\" = \"x\\\"\\n\\u0001é\"\nd = 1979-05-27T07:32:00Z\nf = -1.5e3\nn = -9223372036854775808\nt = true\nxs = [1, \"a\", false]\nz = []\n"
    );
    let back = from_str(&s).unwrap();
    assert_eq!(text(get(&back, "a b")), "x\"\n\u{1}é");
    assert_eq!(text(get(&back, "d")), "1979-05-27T07:32:00Z");
    assert!(matches!(get(&back, "f"), Value::Float(t) if t == "-1.5e3"));
    assert_eq!(as_int(get(&back, "n")), i64::MIN);
    assert!(matches!(get(&back, "t"), Value::Boolean(true)));
    match get(&back, "xs") {
        Value::Array(a) => {
            assert_eq!(a.len(), 3);
            assert_eq!(as_int(&a[0]), 1);
            assert_eq!(text(&a[1]), "a");
            assert!(matches!(a[2], Value::Boolean(false)));
        }
        other => panic!("not an array: {:?}", other),
    }
    assert!(matches!(get(&back, "z"), Value::Array(a) if a.is_empty()));
    assert_eq!(to_string(&back), s);
}

#[test]
fn toml_lines_come_before_headers() {
    let v = Value::Table(vec![
        ("a".to_string(), Value::Array(vec![Value::Table(vec![("x".to_string(), Value::Integer(1))])])),
        ("b".to_string(), Value::Array(vec![Value::Integer(1)])),
    ]);
    let s = to_string(&v);
    assert_eq!(s, "b = [1]\n[[a]]\nx = 1\n");
    let back = from_str(&s).unwrap();
    assert_eq!(to_string(&back), s);
    match get(&back, "b") {
        Value::Array(a) => assert_eq!(a.iter().map(as_int).collect::<Vec<_>>(), vec![1]),
        other => panic!("not an array: {:?}", other),
    }
    match get(&back, "a") {
        Value::Array(a) => {
            assert_eq!(a.len(), 1);
            assert_eq!(as_int(get(&a[0], "x")), 1);
        }
        other => panic!("not an array: {:?}", other),
    }
    let server = Value::Table(vec![("server".to_string(), Value::Table(vec![("port".to_string(), Value::Integer(8080))]))]);
    assert_eq!(to_string(&server), "[server]\nport = 8080\n");
}
