use lib::dotenvy::{apply_plan, parse, Error};

fn pairs(v: &[(&str, &str)]) -> Vec<(String, String)> {
    v.iter().map(|(k, x)| (k.to_string(), x.to_string())).collect()
}

#[test]
fn dotenv_basic_and_substitution() {
    let got = parse("KEY=value\nFOO=\"$KEY-bar\"\n", &[]).unwrap();
    assert_eq!(got, pairs(&[("KEY", "value"), ("FOO", "value-bar")]));
}

#[test]
fn dotenv_forms() {
    let text = "# comment\nexport A=1 # trailing\nB='x $A'\nC=\"a\\nb\\t${A}\"\n  D = spaced  \nE=\n";
    let got = parse(text, &[]).unwrap();
    assert_eq!(
        got,
        pairs(&[("A", "1"), ("B", "x $A"), ("C", "a\nb\t1"), ("D", "spaced"), ("E", "")])
    );
}

#[test]
fn dotenv_environment_fallback() {
    let env = pairs(&[("HOME", "/root")]);
    assert_eq!(parse("A=$HOME/x\n", &env).unwrap(), pairs(&[("A", "/root/x")]));
    assert_eq!(parse("A=${MISSING}z\n", &env).unwrap(), pairs(&[("A", "z")]));
    assert_eq!(parse("HOME=here\nA=$HOME\n", &env).unwrap(), pairs(&[("HOME", "here"), ("A", "here")]));
}

#[test]
fn dotenv_errors() {
    match parse("=x\n", &[]) {
        Err(Error::LineParse(line, col)) => assert_eq!((line.as_str(), col), ("=x", 0)),
        other => panic!("unexpected {:?}", other),
    }
    match parse("A\n", &[]) {
        Err(Error::LineParse(line, col)) => assert_eq!((line.as_str(), col), ("A", 1)),
        other => panic!("unexpected {:?}", other),
    }
    match parse("A=\"x", &[]) {
        Err(Error::LineParse(line, col)) => assert_eq!((line.as_str(), col), ("", 0)),
        other => panic!("unexpected {:?}", other),
    }
    match parse("A='x", &[]) {
        Err(Error::LineParse(line, col)) => assert_eq!((line.as_str(), col), ("x", 1)),
        other => panic!("unexpected {:?}", other),
    }
}

#[test]
fn dotenv_apply_plan() {
    let vars = pairs(&[("A", "1"), ("B", "2"), ("A", "3")]);
    assert_eq!(apply_plan(&vars, &[false, true, false], false), vec![true, false, false]);
    assert_eq!(apply_plan(&vars, &[false, true, false], true), vec![true, true, true]);
}

#[test]
fn dotenv_values_decode_utf8() {
    let got = parse("A=é\nB=\"ü$A\"\nC=\\ö x\nD='ß'\n", &[]).unwrap();
    assert_eq!(got, pairs(&[("A", "é"), ("B", "üé"), ("C", "ö x"), ("D", "ß")]));
    let got = parse("E=\"\\€\"\n", &[]).unwrap();
    assert_eq!(got, pairs(&[("E", "€")]));
}
