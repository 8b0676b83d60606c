use lib::regex::Regex;

fn re(p: &str) -> Regex {
    match Regex::new(p) {
        Ok(r) => r,
        Err(e) => panic!("pattern {:?} refused: {}", p, e),
    }
}

fn refused(p: &str) -> String {
    match Regex::new(p) {
        Ok(_) => panic!("pattern {:?} accepted", p),
        Err(e) => e,
    }
}

#[test]
fn regex_readme_example() {
    let r = re(r"\d+");
    assert!(r.is_match("answer 42"));
    assert_eq!(r.find("answer 42"), Some((7, 9)));
    assert_eq!(r.captures("answer 42"), Some(vec![Some(7), Some(9)]));
    assert!(!r.is_match("no digits"));
    assert_eq!(r.find("no digits"), None);
    assert_eq!(r.captures("no digits"), None);
}

#[test]
fn regex_leftmost_first() {
    assert_eq!(re("a|ab").find("ab"), Some((0, 1)));
    assert_eq!(re("ab|a").find("ab"), Some((0, 2)));
    assert_eq!(re("a+").find("baaa"), Some((1, 4)));
    assert_eq!(re("a*").find("baaa"), Some((0, 0)));
    assert_eq!(re("colou?r").find("color colour"), Some((0, 5)));
    assert_eq!(re("a|b").find("xxb"), Some((2, 3)));
}

#[test]
fn regex_groups() {
    assert_eq!(
        re("(a+)(b*)").captures("caaabbd"),
        Some(vec![Some(1), Some(6), Some(1), Some(4), Some(4), Some(6)])
    );
    assert_eq!(
        re("(a|ab)(c|bcd)").captures("abcd"),
        Some(vec![Some(0), Some(4), Some(0), Some(1), Some(1), Some(4)])
    );
    assert_eq!(re("(a)|b").captures("b"), Some(vec![Some(0), Some(1), None, None]));
}

#[test]
fn regex_anchors() {
    assert_eq!(re("^abc").find("xabc"), None);
    assert_eq!(re("^abc").find("abcd"), Some((0, 3)));
    assert_eq!(re("a$").find("ba"), Some((1, 2)));
    assert_eq!(re("a$").find("ab"), None);
    assert!(re("^$").is_match(""));
    assert!(!re("^$").is_match("x"));
}

#[test]
fn regex_classes_and_escapes() {
    assert_eq!(re("[a-c]+").find("xxbcay"), Some((2, 5)));
    assert_eq!(re("[^0-9]").find("12a"), Some((2, 3)));
    assert_eq!(re(r"\w+@\w+").find("mail bob@host."), Some((5, 13)));
    assert_eq!(re(r"\s").find("ab c"), Some((2, 3)));
    assert_eq!(re(r"\D\S").find("1 2ab"), Some((1, 3)));
    assert_eq!(re(r"\W").find("ab_c-d"), Some((4, 5)));
    assert_eq!(re("a.c").find("xabc"), Some((1, 4)));
    assert_eq!(re(r"a\.c").find("abc a.c"), Some((4, 7)));
    assert_eq!(re(r"[\n\t]").find("a\tb"), Some((1, 2)));
    assert_eq!(re(r"\t").find("a\tb"), Some((1, 2)));
    assert_eq!(re("[a-]").find("x-"), Some((1, 2)));
}

#[test]
fn regex_literal_prefix() {
    assert_eq!(re("abc").find("xxabc"), Some((2, 5)));
    assert_eq!(re("ab(c|d)").find("xxabd"), Some((2, 5)));
    assert_eq!(re("abc").find("ababab"), None);
    assert!(!re("needle").is_match("haystack"));
}

#[test]
fn regex_bytes_not_characters() {
    assert_eq!(re(".").find("\u{e9}"), Some((0, 1)));
}

#[test]
fn regex_errors() {
    assert_eq!(refused("(ab"), "expected )");
    assert_eq!(refused("a)"), "trailing input at 1");
    assert_eq!(refused("*a"), "unexpected '*'");
    assert_eq!(refused("a**"), "unexpected '*'");
    assert_eq!(refused("|^"), "unexpected '^'");
    assert_eq!(refused("[ab"), "unterminated class");
    assert_eq!(refused("\\"), "bad escape");
    assert_eq!(refused("[a-"), "bad range");
    assert_eq!(refused("("), "expected )");
}

#[test]
fn regex_found_text_matches_and_none_means_nowhere() {
    let re = Regex::new("(ab|c)+d?").unwrap();
    assert_eq!(re.find("xxabcabdz"), Some((2, 8)));
    assert_eq!(re.find("xyz"), None);
    let re = Regex::new("^a*b").unwrap();
    assert_eq!(re.find("aab"), Some((0, 3)));
    assert_eq!(re.find("cab"), None);
    let re = Regex::new("x$").unwrap();
    assert_eq!(re.find("xax"), Some((2, 3)));
    assert!(!re.is_match("xa"));
    let re = Regex::new("a*").unwrap();
    assert_eq!(re.find(""), Some((0, 0)));
    let re = Regex::new("b+|ab").unwrap();
    assert_eq!(re.find("aab"), Some((1, 3)));
}
