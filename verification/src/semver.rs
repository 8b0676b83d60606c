use vstd::prelude::*;
pub mod roundtrip;
pub mod ranges;
use vstd::string::*;
use crate::text::{trim, ws_back, ws_end, dec_digits, push_char, push_str, push_u64, copy_range, is_whitespace, lemma_subrange_all, skip_from, skip_next, elem_at, all_digits, digits_value, from_chars, is_alnum, is_digit, is_ws, pieces_are, split_chars, split_on, to_chars};
use std::cmp::Ordering;

verus! {

/// A parse error, with its message.
#[derive(Debug, Clone, PartialEq)]
pub struct Error(pub String);

/// The `Debug` text of a string: quoted, with escapes.
pub uninterp spec fn str_debug(s: Seq<char>) -> Seq<char>;

/// The `Debug` text of `s`, as `format!("{:?}", s)` writes it.
#[verifier::external_body]
fn debug_str(s: &str) -> (r: String)
    ensures
        r@ == str_debug(s@),
{
    format!("{:?}", s)
}

fn error_of(msg: &str) -> (e: Error)
    ensures
        e.0@ == msg@,
{
    Error(msg.to_owned())
}

fn error_with_debug(prefix: &str, v: &[char], lo: usize, hi: usize) -> (e: Error)
    requires
        lo <= hi <= v.len(),
    ensures
        e.0@ == prefix@ + str_debug(v@.subrange(lo as int, hi as int)),
{
    let mut part: Vec<char> = Vec::new();
    let mut i = lo;
    while i < hi
        invariant
            lo <= i <= hi <= v.len(),
            part@ =~= v@.subrange(lo as int, i as int),
        decreases hi - i,
    {
        part.push(v[i]);
        i = i + 1;
    }
    let s = from_chars(part.as_slice());
    let d = debug_str(s.as_str());
    let mut m = prefix.to_owned();
    m.append(d.as_str());
    Error(m)
}

/// A semantic version: `major.minor.patch`, an optional pre-release and build metadata.
#[derive(Debug, Clone)]
pub struct Version {
    pub major: u64,
    pub minor: u64,
    pub patch: u64,
    pub pre: Prerelease,
    pub build: BuildMetadata,
}

/// The pre-release part of a version: dot-separated identifiers, or empty.
#[derive(Debug, Clone, Default, PartialEq, Eq, Hash)]
pub struct Prerelease(String);

/// The build-metadata part of a version: dot-separated identifiers, or empty.
#[derive(Debug, Clone, Default, PartialEq, Eq, Hash)]
pub struct BuildMetadata(String);

impl View for Prerelease {
    type V = Seq<char>;

    closed spec fn view(&self) -> Seq<char> {
        self.0@
    }
}

impl View for BuildMetadata {
    type V = Seq<char>;

    closed spec fn view(&self) -> Seq<char> {
        self.0@
    }
}

/// Whether `c` may stand in an identifier.
pub open spec fn is_ident_char(c: char) -> bool {
    is_alnum(c) || c == '-'
}

/// The error of one identifier, if it has one.
pub open spec fn ident_error(id: Seq<char>, no_leading_zero: bool) -> Option<Seq<char>> {
    if id.len() == 0 {
        Some("empty identifier"@)
    } else if !(forall|i: int| 0 <= i < id.len() ==> is_ident_char(#[trigger] id[i])) {
        Some("invalid identifier char"@)
    } else if no_leading_zero && all_digits(id) && id.len() > 1 && id[0] == '0' {
        Some("leading zero in numeric identifier"@)
    } else {
        None
    }
}

/// The error of the first identifier that has one.
pub open spec fn first_ident_error(ids: Seq<Seq<char>>, no_leading_zero: bool) -> Option<Seq<char>>
    decreases ids.len(),
{
    if ids.len() == 0 {
        None
    } else {
        match ident_error(ids[0], no_leading_zero) {
            Some(e) => Some(e),
            None => first_ident_error(ids.drop_first(), no_leading_zero),
        }
    }
}

/// Why `text` is not a valid dot-separated list of identifiers, if it is not.
pub open spec fn identifiers_error(text: Seq<char>, no_leading_zero: bool) -> Option<Seq<char>> {
    if text.len() == 0 {
        Some("empty identifier"@)
    } else {
        first_ident_error(split_on(text, '.'), no_leading_zero)
    }
}

fn ident_check(id: &Vec<char>, no_leading_zero: bool) -> (r: Option<Error>)
    ensures
        match ident_error(id@, no_leading_zero) {
            Some(m) => r matches Some(e) && e.0@ == m,
            None => r is None,
        },
{
    if id.len() == 0 {
        return Some(error_of("empty identifier"));
    }
    let mut digits = true;
    let mut i: usize = 0;
    while i < id.len()
        invariant
            i <= id.len(),
            forall|j: int| 0 <= j < i ==> is_ident_char(#[trigger] id@[j]),
            digits == (forall|j: int| 0 <= j < i ==> is_digit(#[trigger] id@[j])),
        decreases id.len() - i,
    {
        let c = id[i];
        if !(('0' <= c && c <= '9') || ('a' <= c && c <= 'z') || ('A' <= c && c <= 'Z') || c
            == '-') {
            return Some(error_of("invalid identifier char"));
        }
        if !('0' <= c && c <= '9') {
            digits = false;
        }
        i = i + 1;
    }
    if no_leading_zero && digits && id.len() > 1 && id[0] == '0' {
        return Some(error_of("leading zero in numeric identifier"));
    }
    None
}

proof fn lemma_first_ident_error_skip(ids: Seq<Seq<char>>, k: int, nlz: bool)
    requires
        0 <= k < ids.len(),
        ident_error(ids[k], nlz) is None,
    ensures
        first_ident_error(ids.skip(k), nlz) == first_ident_error(ids.skip(k + 1), nlz),
{
    assert(ids.skip(k).drop_first() =~= ids.skip(k + 1));
}

fn validate_identifiers(t: &[char], lo: usize, hi: usize, no_leading_zero: bool) -> (r: Result<
    (),
    Error,
>)
    requires
        lo <= hi <= t.len(),
    ensures
        match identifiers_error(t@.subrange(lo as int, hi as int), no_leading_zero) {
            Some(m) => r matches Err(e) && e.0@ == m,
            None => r is Ok,
        },
{
    let ghost text = t@.subrange(lo as int, hi as int);
    if lo == hi {
        return Err(error_of("empty identifier"));
    }
    let ids = split_chars(t, lo, hi, '.');
    let ghost sp = split_on(text, '.');
    assert(sp.skip(0) =~= sp);
    let mut k: usize = 0;
    while k < ids.len()
        invariant
            lo < hi <= t.len(),
            text == t@.subrange(lo as int, hi as int),
            sp == split_on(text, '.'),
            pieces_are(ids@, sp),
            k <= ids.len(),
            first_ident_error(sp, no_leading_zero) == first_ident_error(
                sp.skip(k as int),
                no_leading_zero,
            ),
        decreases ids.len() - k,
    {
        assert(ids@[k as int]@ == sp[k as int]);
        match ident_check(&ids[k], no_leading_zero) {
            Some(e) => {
                assert(sp.skip(k as int)[0] == sp[k as int]);
                return Err(e);
            },
            None => {},
        }
        proof {
            lemma_first_ident_error_skip(sp, k as int, no_leading_zero);
        }
        k = k + 1;
    }
    assert(sp.skip(k as int) =~= Seq::<Seq<char>>::empty());
    Ok(())
}

impl Prerelease {
    /// The empty pre-release.
    pub fn empty() -> (p: Prerelease)
        ensures
            p@ == Seq::<char>::empty(),
    {
        Prerelease(String::new())
    }

    /// A pre-release from its text: empty, or dot-separated non-empty identifiers of
    /// ASCII letters, digits and `-`, numeric ones without a leading zero.
    pub fn new(text: &str) -> (r: Result<Prerelease, Error>)
        ensures
            text@.len() == 0 ==> (r matches Ok(p) && p@ == Seq::<char>::empty()),
            text@.len() > 0 ==> match identifiers_error(text@, true) {
                Some(m) => r matches Err(e) && e.0@ == m,
                None => r matches Ok(p) && p@ == text@,
            },
    {
        if text.is_empty() {
            return Ok(Prerelease::empty());
        }
        let chars = to_chars(text);
        assert(chars@.subrange(0, chars@.len() as int) =~= text@);
        validate_identifiers(chars.as_slice(), 0, chars.len(), true)?;
        Ok(Prerelease(text.to_owned()))
    }

    /// Whether the pre-release is empty.
    pub fn is_empty(&self) -> (r: bool)
        ensures
            r == (self@.len() == 0),
    {
        self.0.as_str().is_empty()
    }

    /// The text of the pre-release.
    pub fn as_str(&self) -> (s: &str)
        ensures
            s@ == self@,
    {
        self.0.as_str()
    }
}

impl BuildMetadata {
    /// The empty build metadata.
    pub fn empty() -> (b: BuildMetadata)
        ensures
            b@ == Seq::<char>::empty(),
    {
        BuildMetadata(String::new())
    }

    /// Build metadata from its text: empty, or dot-separated non-empty identifiers of
    /// ASCII letters, digits and `-`.
    pub fn new(text: &str) -> (r: Result<BuildMetadata, Error>)
        ensures
            text@.len() == 0 ==> (r matches Ok(b) && b@ == Seq::<char>::empty()),
            text@.len() > 0 ==> match identifiers_error(text@, false) {
                Some(m) => r matches Err(e) && e.0@ == m,
                None => r matches Ok(b) && b@ == text@,
            },
    {
        if text.is_empty() {
            return Ok(BuildMetadata::empty());
        }
        let chars = to_chars(text);
        assert(chars@.subrange(0, chars@.len() as int) =~= text@);
        validate_identifiers(chars.as_slice(), 0, chars.len(), false)?;
        Ok(BuildMetadata(text.to_owned()))
    }

    /// Whether the build metadata is empty.
    pub fn is_empty(&self) -> (r: bool)
        ensures
            r == (self@.len() == 0),
    {
        self.0.as_str().is_empty()
    }

    /// The text of the build metadata.
    pub fn as_str(&self) -> (s: &str)
        ensures
            s@ == self@,
    {
        self.0.as_str()
    }
}

fn string_of_range(t: &[char], lo: usize, hi: usize) -> (s: String)
    requires
        lo <= hi <= t.len(),
    ensures
        s@ == t@.subrange(lo as int, hi as int),
{
    let mut part: Vec<char> = Vec::new();
    let mut i = lo;
    while i < hi
        invariant
            lo <= i <= hi <= t.len(),
            part@ =~= t@.subrange(lo as int, i as int),
        decreases hi - i,
    {
        part.push(t[i]);
        i = i + 1;
    }
    from_chars(part.as_slice())
}

/// End of the run of ASCII digits that starts at `i`.
pub open spec fn digits_end(t: Seq<char>, i: int) -> int
    decreases t.len() - i,
{
    if 0 <= i < t.len() && is_digit(t[i]) {
        digits_end(t, i + 1)
    } else {
        i
    }
}

/// A number at `i`: its value and the position after it, or the error.
pub open spec fn spec_parse_num(t: Seq<char>, i: int) -> Result<(u64, int), Seq<char>> {
    let e = digits_end(t, i);
    if e == i {
        Err("expected number"@)
    } else if e - i > 1 && t[i] == '0' {
        Err("leading zero in numeric"@)
    } else if digits_value(t.subrange(i, e)) > u64::MAX {
        Err("number too large to fit in target type"@)
    } else {
        Ok((digits_value(t.subrange(i, e)) as u64, e))
    }
}

/// The position after a `.` at `i`, or the error.
pub open spec fn spec_expect_dot(t: Seq<char>, i: int) -> Result<int, Seq<char>> {
    if 0 <= i < t.len() && t[i] == '.' {
        Ok(i + 1)
    } else {
        Err("expected '.'"@)
    }
}

/// The first `+` at or after `i`, or the end of `t`.
pub open spec fn plus_end(t: Seq<char>, i: int) -> int
    decreases t.len() - i,
{
    if 0 <= i < t.len() && t[i] != '+' {
        plus_end(t, i + 1)
    } else {
        i
    }
}

/// The build metadata that starts at `j`, or the error.
pub open spec fn spec_build(t: Seq<char>, j: int) -> Result<Seq<char>, Seq<char>> {
    if j < t.len() && t[j] == '+' {
        let r = t.subrange(j + 1, t.len() as int);
        if r.len() == 0 {
            Err("empty build metadata"@)
        } else {
            match identifiers_error(r, false) {
                Some(m) => Err(m),
                None => Ok(r),
            }
        }
    } else if j < t.len() {
        Err("unexpected trailing data: "@ + str_debug(t.subrange(j, t.len() as int)))
    } else {
        Ok(Seq::empty())
    }
}

/// Pre-release and build metadata that start at `i`, or the error.
pub open spec fn spec_pre_build(t: Seq<char>, i: int) -> Result<(Seq<char>, Seq<char>), Seq<char>> {
    if i < t.len() && t[i] == '-' {
        let e = plus_end(t, i + 1);
        if e == i + 1 {
            Err("empty pre-release"@)
        } else {
            match identifiers_error(t.subrange(i + 1, e), true) {
                Some(m) => Err(m),
                None => match spec_build(t, e) {
                    Ok(b) => Ok((t.subrange(i + 1, e), b)),
                    Err(m) => Err(m),
                },
            }
        }
    } else {
        match spec_build(t, i) {
            Ok(b) => Ok((Seq::empty(), b)),
            Err(m) => Err(m),
        }
    }
}

/// A version text read as major, minor, patch, pre-release and build, or the error.
pub open spec fn spec_parse_version(t: Seq<char>) -> Result<
    (u64, u64, u64, Seq<char>, Seq<char>),
    Seq<char>,
> {
    match spec_parse_num(t, 0) {
        Err(m) => Err(m),
        Ok((major, i1)) => match spec_expect_dot(t, i1) {
            Err(m) => Err(m),
            Ok(i2) => match spec_parse_num(t, i2) {
                Err(m) => Err(m),
                Ok((minor, i3)) => match spec_expect_dot(t, i3) {
                    Err(m) => Err(m),
                    Ok(i4) => match spec_parse_num(t, i4) {
                        Err(m) => Err(m),
                        Ok((patch, i5)) => match spec_pre_build(t, i5) {
                            Err(m) => Err(m),
                            Ok((pre, build)) => Ok((major, minor, patch, pre, build)),
                        },
                    },
                },
            },
        },
    }
}

/// The parts of a version, as plain values.
pub open spec fn version_model(v: Version) -> (u64, u64, u64, Seq<char>, Seq<char>) {
    (v.major, v.minor, v.patch, v.pre@, v.build@)
}

proof fn lemma_digits_end_bounds(t: Seq<char>, i: int)
    requires
        0 <= i <= t.len(),
    ensures
        i <= digits_end(t, i) <= t.len(),
        forall|k: int| i <= k < digits_end(t, i) ==> is_digit(#[trigger] t[k]),
        digits_end(t, i) < t.len() ==> !is_digit(t[digits_end(t, i)]),
    decreases t.len() - i,
{
    if i < t.len() && is_digit(t[i]) {
        lemma_digits_end_bounds(t, i + 1);
    }
}

proof fn lemma_digits_value_prefix(s: Seq<char>, k: int)
    requires
        0 <= k <= s.len(),
    ensures
        digits_value(s.take(k)) <= digits_value(s),
    decreases s.len() - k,
{
    if k < s.len() {
        lemma_digits_value_prefix(s.drop_last(), k);
        assert(s.drop_last().take(k) =~= s.take(k));
    } else {
        assert(s.take(k) =~= s);
    }
}

fn parse_num(t: &[char], i: usize) -> (r: Result<(u64, usize), Error>)
    requires
        i <= t.len(),
    ensures
        match spec_parse_num(t@, i as int) {
            Ok((n, e)) => i <= e <= t.len() && r == Ok::<(u64, usize), Error>((n, e as usize)),
            Err(m) => r matches Err(err) && err.0@ == m,
        },
{
    proof {
        lemma_digits_end_bounds(t@, i as int);
    }
    let mut e = i;
    while e < t.len() && '0' <= t[e] && t[e] <= '9'
        invariant
            i <= e <= t.len(),
            digits_end(t@, i as int) == digits_end(t@, e as int),
        decreases t.len() - e,
    {
        e = e + 1;
    }
    if e == i {
        return Err(error_of("expected number"));
    }
    if e - i > 1 && t[i] == '0' {
        return Err(error_of("leading zero in numeric"));
    }
    let ghost s = t@.subrange(i as int, e as int);
    let mut v: u64 = 0;
    let mut k = i;
    while k < e
        invariant
            i <= k <= e <= t.len(),
            i < e,
            !(e - i > 1 && t@[i as int] == '0'),
            e == digits_end(t@, i as int),
            s == t@.subrange(i as int, e as int),
            forall|j: int| i <= j < e ==> is_digit(#[trigger] t@[j]),
            v == digits_value(s.take(k - i)),
        decreases e - k,
    {
        assert(s.take(k - i + 1).drop_last() =~= s.take(k - i));
        assert(s.take(k - i + 1).last() == t@[k as int]);
        assert(is_digit(t@[k as int]));
        let d = (t[k] as u32 - 48) as u64;
        assert(digits_value(s.take(k - i + 1)) == v * 10 + d);
        match v.checked_mul(10) {
            Some(x) => match x.checked_add(d) {
                Some(y) => {
                    v = y;
                },
                None => {
                    proof {
                        lemma_digits_value_prefix(s, k - i + 1);
                    }
                    return Err(error_of("number too large to fit in target type"));
                },
            },
            None => {
                proof {
                    lemma_digits_value_prefix(s, k - i + 1);
                }
                return Err(error_of("number too large to fit in target type"));
            },
        }
        k = k + 1;
    }
    assert(s.take(e - i) =~= s);
    Ok((v, e))
}

fn expect_dot(t: &[char], i: usize) -> (r: Result<usize, Error>)
    ensures
        match spec_expect_dot(t@, i as int) {
            Ok(j) => j <= t.len() && r == Ok::<usize, Error>(j as usize),
            Err(m) => r matches Err(err) && err.0@ == m,
        },
{
    if i < t.len() && t[i] == '.' {
        Ok(i + 1)
    } else {
        Err(error_of("expected '.'"))
    }
}

proof fn lemma_plus_end_bounds(t: Seq<char>, i: int)
    requires
        0 <= i <= t.len(),
    ensures
        i <= plus_end(t, i) <= t.len(),
    decreases t.len() - i,
{
    if i < t.len() && t[i] != '+' {
        lemma_plus_end_bounds(t, i + 1);
    }
}

fn parse_build(t: &[char], j: usize) -> (r: Result<BuildMetadata, Error>)
    requires
        j <= t.len(),
    ensures
        match spec_build(t@, j as int) {
            Ok(b) => r matches Ok(m) && m@ == b,
            Err(msg) => r matches Err(e) && e.0@ == msg,
        },
{
    if j < t.len() && t[j] == '+' {
        if j + 1 == t.len() {
            return Err(error_of("empty build metadata"));
        }
        match validate_identifiers(t, j + 1, t.len(), false) {
            Ok(()) => {},
            Err(e) => return Err(e),
        }
        Ok(BuildMetadata(string_of_range(t, j + 1, t.len())))
    } else if j < t.len() {
        Err(error_with_debug("unexpected trailing data: ", t, j, t.len()))
    } else {
        Ok(BuildMetadata::empty())
    }
}

fn parse_version(t: &[char]) -> (r: Result<Version, Error>)
    ensures
        match spec_parse_version(t@) {
            Ok(m) => r matches Ok(v) && version_model(v) == m,
            Err(msg) => r matches Err(e) && e.0@ == msg,
        },
{
    let (major, i1) = match parse_num(t, 0) {
        Ok(x) => x,
        Err(e) => return Err(e),
    };
    let i2 = match expect_dot(t, i1) {
        Ok(x) => x,
        Err(e) => return Err(e),
    };
    let (minor, i3) = match parse_num(t, i2) {
        Ok(x) => x,
        Err(e) => return Err(e),
    };
    let i4 = match expect_dot(t, i3) {
        Ok(x) => x,
        Err(e) => return Err(e),
    };
    let (patch, i5) = match parse_num(t, i4) {
        Ok(x) => x,
        Err(e) => return Err(e),
    };
    let pre;
    let rest;
    if i5 < t.len() && t[i5] == '-' {
        proof {
            lemma_plus_end_bounds(t@, i5 + 1);
        }
        let mut e = i5 + 1;
        while e < t.len() && t[e] != '+'
            invariant
                i5 + 1 <= e <= t.len(),
                plus_end(t@, i5 + 1) == plus_end(t@, e as int),
            decreases t.len() - e,
        {
            e = e + 1;
        }
        if e == i5 + 1 {
            return Err(error_of("empty pre-release"));
        }
        match validate_identifiers(t, i5 + 1, e, true) {
            Ok(()) => {},
            Err(err) => return Err(err),
        }
        pre = Prerelease(string_of_range(t, i5 + 1, e));
        rest = e;
    } else {
        pre = Prerelease::empty();
        rest = i5;
    }
    let build = match parse_build(t, rest) {
        Ok(b) => b,
        Err(e) => return Err(e),
    };
    Ok(Version { major, minor, patch, pre, build })
}

impl Version {
    /// The version `major.minor.patch`, with empty pre-release and build.
    pub fn new(major: u64, minor: u64, patch: u64) -> (v: Version)
        ensures
            version_model(v) == (major, minor, patch, Seq::<char>::empty(), Seq::<char>::empty()),
    {
        Version {
            major,
            minor,
            patch,
            pre: Prerelease::empty(),
            build: BuildMetadata::empty(),
        }
    }

    /// Parses `major.minor.patch[-pre][+build]`.
    pub fn parse(text: &str) -> (r: Result<Version, Error>)
        ensures
            match spec_parse_version(text@) {
                Ok(m) => r matches Ok(v) && version_model(v) == m,
                Err(msg) => r matches Err(e) && e.0@ == msg,
            },
    {
        let chars = to_chars(text);
        parse_version(chars.as_slice())
    }
}

/// Code-point order of two character sequences.
pub open spec fn lex_order(a: Seq<char>, b: Seq<char>) -> Ordering
    decreases a.len(),
{
    if a.len() == 0 && b.len() == 0 {
        Ordering::Equal
    } else if a.len() == 0 {
        Ordering::Less
    } else if b.len() == 0 {
        Ordering::Greater
    } else if a[0] < b[0] {
        Ordering::Less
    } else if a[0] > b[0] {
        Ordering::Greater
    } else {
        lex_order(a.drop_first(), b.drop_first())
    }
}

/// Order of two values.
pub open spec fn value_order(x: nat, y: nat) -> Ordering {
    if x < y {
        Ordering::Less
    } else if x > y {
        Ordering::Greater
    } else {
        Ordering::Equal
    }
}

/// Order of two pre-release identifiers: numeric ones by value and before
/// alphanumeric ones, which go in code-point order.
pub open spec fn ident_order(a: Seq<char>, b: Seq<char>) -> Ordering {
    if all_digits(a) && all_digits(b) {
        value_order(digits_value(a), digits_value(b))
    } else if all_digits(a) {
        Ordering::Less
    } else if all_digits(b) {
        Ordering::Greater
    } else {
        lex_order(a, b)
    }
}

/// Order of two lists of identifiers: the first that differs decides, and a
/// shorter list that is a prefix of the other comes first.
pub open spec fn idents_order(a: Seq<Seq<char>>, b: Seq<Seq<char>>) -> Ordering
    decreases a.len(),
{
    if a.len() == 0 && b.len() == 0 {
        Ordering::Equal
    } else if a.len() == 0 {
        Ordering::Less
    } else if b.len() == 0 {
        Ordering::Greater
    } else if ident_order(a[0], b[0]) != Ordering::Equal {
        ident_order(a[0], b[0])
    } else {
        idents_order(a.drop_first(), b.drop_first())
    }
}

/// Whether comparing the two lists reads every numeric identifier it compares as a
/// non-empty number that fits in 64 bits.
pub open spec fn idents_order_defined(a: Seq<Seq<char>>, b: Seq<Seq<char>>) -> bool
    decreases a.len(),
{
    if a.len() == 0 || b.len() == 0 {
        true
    } else if all_digits(a[0]) && all_digits(b[0]) {
        &&& a[0].len() > 0
        &&& b[0].len() > 0
        &&& digits_value(a[0]) <= u64::MAX
        &&& digits_value(b[0]) <= u64::MAX
        &&& (digits_value(a[0]) == digits_value(b[0]) ==> idents_order_defined(
            a.drop_first(),
            b.drop_first(),
        ))
    } else {
        ident_order(a[0], b[0]) == Ordering::Equal ==> idents_order_defined(
            a.drop_first(),
            b.drop_first(),
        )
    }
}

/// Order of two pre-releases: an empty one comes after any other.
pub open spec fn pre_order(a: Seq<char>, b: Seq<char>) -> Ordering {
    if a.len() == 0 && b.len() == 0 {
        Ordering::Equal
    } else if a.len() == 0 {
        Ordering::Greater
    } else if b.len() == 0 {
        Ordering::Less
    } else {
        idents_order(split_on(a, '.'), split_on(b, '.'))
    }
}

/// Whether comparing the two pre-releases is defined: see `idents_order_defined`.
pub open spec fn pre_order_defined(a: Seq<char>, b: Seq<char>) -> bool {
    a.len() == 0 || b.len() == 0 || idents_order_defined(split_on(a, '.'), split_on(b, '.'))
}

/// Precedence order of two versions: major, minor, patch, then pre-release;
/// build metadata does not count.
pub open spec fn version_order(a: Version, b: Version) -> Ordering {
    if a.major != b.major {
        if a.major < b.major { Ordering::Less } else { Ordering::Greater }
    } else if a.minor != b.minor {
        if a.minor < b.minor { Ordering::Less } else { Ordering::Greater }
    } else if a.patch != b.patch {
        if a.patch < b.patch { Ordering::Less } else { Ordering::Greater }
    } else {
        pre_order(a.pre@, b.pre@)
    }
}

fn digits_u64(id: &Vec<char>) -> (v: u64)
    requires
        all_digits(id@),
        digits_value(id@) <= u64::MAX,
    ensures
        v == digits_value(id@),
{
    let mut v: u64 = 0;
    let mut k: usize = 0;
    while k < id.len()
        invariant
            k <= id.len(),
            all_digits(id@),
            digits_value(id@) <= u64::MAX,
            v == digits_value(id@.take(k as int)),
        decreases id.len() - k,
    {
        assert(id@.take(k + 1).drop_last() =~= id@.take(k as int));
        assert(id@.take(k + 1).last() == id@[k as int]);
        assert(is_digit(id@[k as int]));
        proof {
            lemma_digits_value_prefix(id@, k + 1);
        }
        v = v * 10 + (id[k] as u32 - 48) as u64;
        k = k + 1;
    }
    assert(id@.take(k as int) =~= id@);
    v
}

fn is_all_digits(id: &Vec<char>) -> (r: bool)
    ensures
        r == all_digits(id@),
{
    let mut k: usize = 0;
    while k < id.len()
        invariant
            k <= id.len(),
            forall|j: int| 0 <= j < k ==> is_digit(#[trigger] id@[j]),
        decreases id.len() - k,
    {
        if !('0' <= id[k] && id[k] <= '9') {
            return false;
        }
        k = k + 1;
    }
    true
}

fn lex_compare(a: &Vec<char>, b: &Vec<char>) -> (r: Ordering)
    ensures
        r == lex_order(a@, b@),
{
    let mut k: usize = 0;
    assert(skip_from(a@, 0) =~= a@ && skip_from(b@, 0) =~= b@);
    while k < a.len() && k < b.len() && a[k] == b[k]
        invariant
            k <= a.len(),
            k <= b.len(),
            lex_order(a@, b@) == lex_order(skip_from(a@, k), skip_from(b@, k)),
        decreases a.len() - k,
    {
        assert(skip_from(a@, k).drop_first() =~= skip_next(a@, k));
        assert(skip_from(b@, k).drop_first() =~= skip_next(b@, k));
        k = k + 1;
    }
    if k == a.len() && k == b.len() {
        Ordering::Equal
    } else if k == a.len() {
        Ordering::Less
    } else if k == b.len() {
        Ordering::Greater
    } else if a[k] < b[k] {
        Ordering::Less
    } else {
        Ordering::Greater
    }
}

fn ident_compare(a: &Vec<char>, b: &Vec<char>) -> (r: Ordering)
    requires
        all_digits(a@) && all_digits(b@) ==> digits_value(a@) <= u64::MAX && digits_value(b@)
            <= u64::MAX,
    ensures
        r == ident_order(a@, b@),
{
    let an = is_all_digits(a);
    let bn = is_all_digits(b);
    if an && bn {
        let x = digits_u64(a);
        let y = digits_u64(b);
        if x < y {
            Ordering::Less
        } else if x > y {
            Ordering::Greater
        } else {
            Ordering::Equal
        }
    } else if an {
        Ordering::Less
    } else if bn {
        Ordering::Greater
    } else {
        lex_compare(a, b)
    }
}

fn idents_compare(a: &[char], b: &[char]) -> (r: Ordering)
    requires
        idents_order_defined(split_on(a@, '.'), split_on(b@, '.')),
    ensures
        r == idents_order(split_on(a@, '.'), split_on(b@, '.')),
{
    let xs = split_chars(a, 0, a.len(), '.');
    let ys = split_chars(b, 0, b.len(), '.');
    proof {
        lemma_subrange_all(a@);
        lemma_subrange_all(b@);
    }
    let ghost sa = split_on(a@, '.');
    let ghost sb = split_on(b@, '.');
    assert(skip_from(sa, 0) =~= sa && skip_from(sb, 0) =~= sb);
    let mut k: usize = 0;
    loop
        invariant
            sa == split_on(a@, '.'),
            sb == split_on(b@, '.'),
            pieces_are(xs@, sa),
            pieces_are(ys@, sb),
            k <= xs.len(),
            k <= ys.len(),
            idents_order(sa, sb) == idents_order(skip_from(sa, k), skip_from(sb, k)),
            idents_order_defined(skip_from(sa, k), skip_from(sb, k)),
        decreases xs.len() - k,
    {
        if k == xs.len() && k == ys.len() {
            assert(skip_from(sa, k).len() == 0 && skip_from(sb, k).len() == 0);
            return Ordering::Equal;
        } else if k == xs.len() {
            return Ordering::Less;
        } else if k == ys.len() {
            return Ordering::Greater;
        }
        assert(skip_from(sa, k)[0] == elem_at(xs@, k)@ && skip_from(sb, k)[0] == elem_at(ys@, k)@);
        let o = ident_compare(&xs[k], &ys[k]);
        match o {
            Ordering::Equal => {},
            _ => {
                return o;
            },
        }
        assert(skip_from(sa, k).drop_first() =~= skip_next(sa, k));
        assert(skip_from(sb, k).drop_first() =~= skip_next(sb, k));
        k = k + 1;
    }
}

fn pre_compare(a: &Prerelease, b: &Prerelease) -> (r: Ordering)
    requires
        pre_order_defined(a@, b@),
    ensures
        r == pre_order(a@, b@),
{
    let ae = a.is_empty();
    let be = b.is_empty();
    if ae && be {
        Ordering::Equal
    } else if ae {
        Ordering::Greater
    } else if be {
        Ordering::Less
    } else {
        let x = to_chars(a.as_str());
        let y = to_chars(b.as_str());
        idents_compare(x.as_slice(), y.as_slice())
    }
}

impl Prerelease {
    /// Precedence order of two pre-releases.
    pub fn cmp(&self, other: &Prerelease) -> (r: Ordering)
        requires
            pre_order_defined(self@, other@),
        ensures
            r == pre_order(self@, other@),
    {
        pre_compare(self, other)
    }
}

impl Version {
    /// Precedence order of two versions.
    pub fn cmp(&self, other: &Version) -> (r: Ordering)
        requires
            pre_order_defined(self.pre@, other.pre@),
        ensures
            r == version_order(*self, *other),
    {
        if self.major != other.major {
            if self.major < other.major { Ordering::Less } else { Ordering::Greater }
        } else if self.minor != other.minor {
            if self.minor < other.minor { Ordering::Less } else { Ordering::Greater }
        } else if self.patch != other.patch {
            if self.patch < other.patch { Ordering::Less } else { Ordering::Greater }
        } else {
            pre_compare(&self.pre, &other.pre)
        }
    }
}


/// A version requirement: a list of comparators that must all match.
#[derive(Debug, Clone, PartialEq)]
pub struct VersionReq {
    pub comparators: Vec<Comparator>,
}

/// One comparator of a requirement, such as `>=1.2.3` or `~1.4`.
#[derive(Debug, Clone, PartialEq)]
pub struct Comparator {
    pub op: Op,
    pub major: u64,
    pub minor: Option<u64>,
    pub patch: Option<u64>,
    pub pre: Prerelease,
}

/// The operator of a comparator.
#[derive(Debug, Clone, Copy, PartialEq, Eq, Structural)]
pub enum Op {
    Exact,
    Greater,
    GreaterEq,
    Less,
    LessEq,
    Tilde,
    Caret,
    Wildcard,
}

/// A comparator as plain values: operator, major, minor, patch and pre-release.
pub type ComparatorModel = (Op, u64, Option<u64>, Option<u64>, Seq<char>);

impl View for Comparator {
    type V = ComparatorModel;

    open spec fn view(&self) -> ComparatorModel {
        (self.op, self.major, self.minor, self.patch, self.pre@)
    }
}

impl View for VersionReq {
    type V = Seq<ComparatorModel>;

    open spec fn view(&self) -> Seq<ComparatorModel> {
        self.comparators@.map_values(|c: Comparator| c@)
    }
}

/// Whether `c` may stand in a version part: an ASCII letter or digit, or `*`.
pub open spec fn is_part_char(c: char) -> bool {
    is_alnum(c) || c == '*'
}

/// End of the run of part characters that starts at `i`.
pub open spec fn part_end(t: Seq<char>, i: int) -> int
    decreases t.len() - i,
{
    if 0 <= i < t.len() && is_part_char(t[i]) {
        part_end(t, i + 1)
    } else {
        i
    }
}

/// End of a comparator's pre-release: the first `+`, `,` or white space.
pub open spec fn pre_end(t: Seq<char>, i: int) -> int
    decreases t.len() - i,
{
    if 0 <= i < t.len() && t[i] != '+' && t[i] != ',' && !is_ws(t[i]) {
        pre_end(t, i + 1)
    } else {
        i
    }
}

/// Whether `t[i]` exists and is `c`.
pub open spec fn char_at(t: Seq<char>, i: int, c: char) -> bool {
    0 <= i < t.len() && t[i] == c
}

/// The operator that starts after white space at `i`, and the position after it;
/// with no operator, `Caret`.
pub open spec fn spec_take_op(t: Seq<char>, i: int) -> (Op, int) {
    let j = ws_end(t, i);
    if char_at(t, j, '>') && char_at(t, j + 1, '=') {
        (Op::GreaterEq, j + 2)
    } else if char_at(t, j, '<') && char_at(t, j + 1, '=') {
        (Op::LessEq, j + 2)
    } else if char_at(t, j, '>') {
        (Op::Greater, j + 1)
    } else if char_at(t, j, '<') {
        (Op::Less, j + 1)
    } else if char_at(t, j, '=') {
        (Op::Exact, j + 1)
    } else if char_at(t, j, '~') {
        (Op::Tilde, j + 1)
    } else if char_at(t, j, '^') {
        (Op::Caret, j + 1)
    } else {
        (Op::Caret, j)
    }
}

/// Whether a version part is a wildcard: `*`, `x` or `X`.
pub open spec fn is_wild(raw: Seq<char>) -> bool {
    raw =~= seq!['*'] || raw =~= seq!['x'] || raw =~= seq!['X']
}

/// The value of a version part, if it reads as a `u64`.
pub open spec fn part_value(raw: Seq<char>) -> Option<u64> {
    if raw.len() > 0 && all_digits(raw) && digits_value(raw) <= u64::MAX {
        Some(digits_value(raw) as u64)
    } else {
        None
    }
}

/// The comparator after its patch number, which ends at `e3`.
pub open spec fn spec_comparator_tail(
    t: Seq<char>,
    op: Op,
    major: u64,
    minor: u64,
    patch: u64,
    e3: int,
) -> Result<ComparatorModel, Seq<char>> {
    if char_at(t, e3, '-') {
        let pre = t.subrange(e3 + 1, pre_end(t, e3 + 1));
        if pre.len() == 0 {
            Ok((op, major, Some(minor), Some(patch), Seq::empty()))
        } else {
            match identifiers_error(pre, true) {
                Some(m) => Err(m),
                None => Ok((op, major, Some(minor), Some(patch), pre)),
            }
        }
    } else {
        Ok((op, major, Some(minor), Some(patch), Seq::empty()))
    }
}

/// The comparator after its minor number, which ends at `e2`.
pub open spec fn spec_comparator_patch(
    t: Seq<char>,
    op: Op,
    major: u64,
    minor: u64,
    e2: int,
) -> Result<ComparatorModel, Seq<char>> {
    let d2 = ws_end(t, e2);
    if !char_at(t, d2, '.') {
        Ok((op, major, Some(minor), None, Seq::empty()))
    } else {
        let s3 = ws_end(t, d2 + 1);
        let e3 = part_end(t, s3);
        let raw = t.subrange(s3, e3);
        if is_wild(raw) {
            Ok((Op::Wildcard, major, Some(minor), None, Seq::empty()))
        } else {
            match part_value(raw) {
                None => Err("bad patch: "@ + str_debug(raw)),
                Some(patch) => spec_comparator_tail(t, op, major, minor, patch, e3),
            }
        }
    }
}

/// The comparator after its major number, which ends at `e1`.
pub open spec fn spec_comparator_minor(t: Seq<char>, op: Op, major: u64, e1: int) -> Result<
    ComparatorModel,
    Seq<char>,
> {
    let d1 = ws_end(t, e1);
    if !char_at(t, d1, '.') {
        Ok((op, major, None, None, Seq::empty()))
    } else {
        let s2 = ws_end(t, d1 + 1);
        let e2 = part_end(t, s2);
        let raw = t.subrange(s2, e2);
        if is_wild(raw) {
            Ok((Op::Wildcard, major, None, None, Seq::empty()))
        } else {
            match part_value(raw) {
                None => Err("bad minor: "@ + str_debug(raw)),
                Some(minor) => spec_comparator_patch(t, op, major, minor, e2),
            }
        }
    }
}

/// A comparator text read as plain values, or the error.
pub open spec fn spec_parse_comparator(t: Seq<char>) -> Result<ComparatorModel, Seq<char>> {
    let (op, i0) = spec_take_op(t, 0);
    let s1 = ws_end(t, i0);
    let e1 = part_end(t, s1);
    let raw = t.subrange(s1, e1);
    if is_wild(raw) {
        if op != Op::Caret && op != Op::Wildcard {
            Err("wildcard with operator"@)
        } else {
            Ok((Op::Wildcard, 0, None, None, Seq::empty()))
        }
    } else {
        match part_value(raw) {
            None => Err("bad major: "@ + str_debug(raw)),
            Some(major) => spec_comparator_minor(t, op, major, e1),
        }
    }
}

/// The comparators of the first `k` parts, or the error of the first part that has one.
pub open spec fn spec_parse_parts(parts: Seq<Seq<char>>, k: int) -> Result<
    Seq<ComparatorModel>,
    Seq<char>,
>
    decreases k,
{
    if k <= 0 {
        Ok(Seq::empty())
    } else {
        match spec_parse_parts(parts, k - 1) {
            Err(m) => Err(m),
            Ok(cs) => match spec_parse_comparator(trim(parts[k - 1])) {
                Err(m) => Err(m),
                Ok(c) => Ok(cs.push(c)),
            },
        }
    }
}

/// A requirement text read as its comparators, or the error: `*` or nothing is the
/// empty list; otherwise comma-separated comparators.
pub open spec fn spec_parse_req(t: Seq<char>) -> Result<Seq<ComparatorModel>, Seq<char>> {
    let s = trim(t);
    if s =~= seq!['*'] || s.len() == 0 {
        Ok(Seq::empty())
    } else {
        spec_parse_parts(split_on(s, ','), split_on(s, ',').len() as int)
    }
}

fn skip_ws(t: &[char], i: usize) -> (j: usize)
    requires
        i <= t.len(),
    ensures
        j == ws_end(t@, i as int),
        i <= j <= t.len(),
{
    let mut j = i;
    while j < t.len() && is_whitespace(t[j])
        invariant
            i <= j <= t.len(),
            ws_end(t@, i as int) == ws_end(t@, j as int),
        decreases t.len() - j,
    {
        j = j + 1;
    }
    j
}

fn trim_back(t: &[char], lo: usize, hi: usize) -> (e: usize)
    requires
        lo <= hi <= t.len(),
    ensures
        e == ws_back(t@, lo as int, hi as int),
        lo <= e <= hi,
{
    let mut e = hi;
    while e > lo && is_whitespace(t[e - 1])
        invariant
            lo <= e <= hi <= t.len(),
            ws_back(t@, lo as int, hi as int) == ws_back(t@, lo as int, e as int),
        decreases e,
    {
        e = e - 1;
    }
    e
}

fn part_end_at(t: &[char], i: usize) -> (j: usize)
    requires
        i <= t.len(),
    ensures
        j == part_end(t@, i as int),
        i <= j <= t.len(),
{
    let mut j = i;
    while j < t.len() && (('0' <= t[j] && t[j] <= '9') || ('a' <= t[j] && t[j] <= 'z') || ('A'
        <= t[j] && t[j] <= 'Z') || t[j] == '*')
        invariant
            i <= j <= t.len(),
            part_end(t@, i as int) == part_end(t@, j as int),
        decreases t.len() - j,
    {
        j = j + 1;
    }
    j
}

fn pre_end_at(t: &[char], i: usize) -> (j: usize)
    requires
        i <= t.len(),
    ensures
        j == pre_end(t@, i as int),
        i <= j <= t.len(),
{
    let mut j = i;
    while j < t.len() && t[j] != '+' && t[j] != ',' && !is_whitespace(t[j])
        invariant
            i <= j <= t.len(),
            pre_end(t@, i as int) == pre_end(t@, j as int),
        decreases t.len() - j,
    {
        j = j + 1;
    }
    j
}

fn take_op(t: &[char], i: usize) -> (r: (Op, usize))
    requires
        i <= t.len(),
    ensures
        r.0 == spec_take_op(t@, i as int).0,
        r.1 == spec_take_op(t@, i as int).1,
        r.1 <= t.len(),
{
    let j = skip_ws(t, i);
    let n = t.len();
    if j < n && t[j] == '>' && j + 1 < n && t[j + 1] == '=' {
        (Op::GreaterEq, j + 2)
    } else if j < n && t[j] == '<' && j + 1 < n && t[j + 1] == '=' {
        (Op::LessEq, j + 2)
    } else if j < n && t[j] == '>' {
        (Op::Greater, j + 1)
    } else if j < n && t[j] == '<' {
        (Op::Less, j + 1)
    } else if j < n && t[j] == '=' {
        (Op::Exact, j + 1)
    } else if j < n && t[j] == '~' {
        (Op::Tilde, j + 1)
    } else if j < n && t[j] == '^' {
        (Op::Caret, j + 1)
    } else {
        (Op::Caret, j)
    }
}

fn wild_at(t: &[char], s: usize, e: usize) -> (r: bool)
    requires
        s <= e <= t.len(),
    ensures
        r == is_wild(t@.subrange(s as int, e as int)),
{
    let ghost raw = t@.subrange(s as int, e as int);
    if e - s == 1 {
        assert(raw[0] == t@[s as int]);
        let c = t[s];
        if c == '*' {
            assert(raw =~= seq!['*']);
        } else if c == 'x' {
            assert(raw =~= seq!['x']);
        } else if c == 'X' {
            assert(raw =~= seq!['X']);
        } else {
            assert(!(raw =~= seq!['*']) && !(raw =~= seq!['x']) && !(raw =~= seq!['X'])) by {
                assert(raw[0] == c);
            }
        }
        c == '*' || c == 'x' || c == 'X'
    } else {
        assert(raw.len() != 1);
        false
    }
}

fn part_num(t: &[char], s: usize, e: usize) -> (r: Option<u64>)
    requires
        s <= e <= t.len(),
    ensures
        r == part_value(t@.subrange(s as int, e as int)),
{
    let ghost raw = t@.subrange(s as int, e as int);
    if s == e {
        return None;
    }
    let mut k = s;
    while k < e
        invariant
            s <= k <= e <= t.len(),
            raw == t@.subrange(s as int, e as int),
            forall|j: int| s <= j < k ==> is_digit(#[trigger] t@[j]),
        decreases e - k,
    {
        if !('0' <= t[k] && t[k] <= '9') {
            assert(raw[k - s] == t@[k as int]);
            return None;
        }
        k = k + 1;
    }
    assert(all_digits(raw)) by {
        assert forall|j: int| 0 <= j < raw.len() implies is_digit(#[trigger] raw[j]) by {
            assert(raw[j] == t@[s + j]);
        }
    }
    let mut v: u64 = 0;
    let mut k = s;
    while k < e
        invariant
            s <= k <= e <= t.len(),
            s < e,
            raw == t@.subrange(s as int, e as int),
            all_digits(raw),
            v == digits_value(raw.take(k - s)),
        decreases e - k,
    {
        assert(raw.take(k - s + 1).drop_last() =~= raw.take(k - s));
        assert(raw.take(k - s + 1).last() == t@[k as int]);
        assert(is_digit(raw[k - s]));
        let d = (t[k] as u32 - 48) as u64;
        assert(digits_value(raw.take(k - s + 1)) == v * 10 + d);
        match v.checked_mul(10) {
            Some(x) => match x.checked_add(d) {
                Some(y) => {
                    v = y;
                },
                None => {
                    proof {
                        lemma_digits_value_prefix(raw, k - s + 1);
                    }
                    return None;
                },
            },
            None => {
                proof {
                    lemma_digits_value_prefix(raw, k - s + 1);
                }
                return None;
            },
        }
        k = k + 1;
    }
    assert(raw.take(e - s) =~= raw);
    Some(v)
}

fn prerelease_of_range(t: &[char], lo: usize, hi: usize) -> (r: Result<Prerelease, Error>)
    requires
        lo <= hi <= t.len(),
    ensures
        ({
            let text = t@.subrange(lo as int, hi as int);
            &&& text.len() == 0 ==> (r matches Ok(p) && p@ == Seq::<char>::empty())
            &&& text.len() > 0 ==> match identifiers_error(text, true) {
                Some(m) => r matches Err(e) && e.0@ == m,
                None => r matches Ok(p) && p@ == text,
            }
        }),
{
    if lo == hi {
        return Ok(Prerelease::empty());
    }
    match validate_identifiers(t, lo, hi, true) {
        Ok(()) => {},
        Err(e) => return Err(e),
    }
    Ok(Prerelease(string_of_range(t, lo, hi)))
}

fn comparator_tail(t: &[char], op: Op, major: u64, minor: u64, patch: u64, e3: usize) -> (r: Result<
    Comparator,
    Error,
>)
    requires
        e3 <= t.len(),
    ensures
        match spec_comparator_tail(t@, op, major, minor, patch, e3 as int) {
            Ok(m) => r matches Ok(c) && c@ == m,
            Err(msg) => r matches Err(e) && e.0@ == msg,
        },
{
    if e3 < t.len() && t[e3] == '-' {
        let pe = pre_end_at(t, e3 + 1);
        let pre = match prerelease_of_range(t, e3 + 1, pe) {
            Ok(p) => p,
            Err(e) => return Err(e),
        };
        Ok(Comparator { op, major, minor: Some(minor), patch: Some(patch), pre })
    } else {
        Ok(Comparator { op, major, minor: Some(minor), patch: Some(patch), pre: Prerelease::empty() })
    }
}

fn comparator_patch(t: &[char], op: Op, major: u64, minor: u64, e2: usize) -> (r: Result<
    Comparator,
    Error,
>)
    requires
        e2 <= t.len(),
    ensures
        match spec_comparator_patch(t@, op, major, minor, e2 as int) {
            Ok(m) => r matches Ok(c) && c@ == m,
            Err(msg) => r matches Err(e) && e.0@ == msg,
        },
{
    let d2 = skip_ws(t, e2);
    if !(d2 < t.len() && t[d2] == '.') {
        return Ok(
            Comparator { op, major, minor: Some(minor), patch: None, pre: Prerelease::empty() },
        );
    }
    let s3 = skip_ws(t, d2 + 1);
    let e3 = part_end_at(t, s3);
    if wild_at(t, s3, e3) {
        return Ok(
            Comparator {
                op: Op::Wildcard,
                major,
                minor: Some(minor),
                patch: None,
                pre: Prerelease::empty(),
            },
        );
    }
    match part_num(t, s3, e3) {
        None => Err(error_with_debug("bad patch: ", t, s3, e3)),
        Some(patch) => comparator_tail(t, op, major, minor, patch, e3),
    }
}

fn comparator_minor(t: &[char], op: Op, major: u64, e1: usize) -> (r: Result<Comparator, Error>)
    requires
        e1 <= t.len(),
    ensures
        match spec_comparator_minor(t@, op, major, e1 as int) {
            Ok(m) => r matches Ok(c) && c@ == m,
            Err(msg) => r matches Err(e) && e.0@ == msg,
        },
{
    let d1 = skip_ws(t, e1);
    if !(d1 < t.len() && t[d1] == '.') {
        return Ok(Comparator { op, major, minor: None, patch: None, pre: Prerelease::empty() });
    }
    let s2 = skip_ws(t, d1 + 1);
    let e2 = part_end_at(t, s2);
    if wild_at(t, s2, e2) {
        return Ok(
            Comparator { op: Op::Wildcard, major, minor: None, patch: None, pre: Prerelease::empty() },
        );
    }
    match part_num(t, s2, e2) {
        None => Err(error_with_debug("bad minor: ", t, s2, e2)),
        Some(minor) => comparator_patch(t, op, major, minor, e2),
    }
}

fn parse_comparator(t: &[char]) -> (r: Result<Comparator, Error>)
    ensures
        match spec_parse_comparator(t@) {
            Ok(m) => r matches Ok(c) && c@ == m,
            Err(msg) => r matches Err(e) && e.0@ == msg,
        },
{
    let (op, i0) = take_op(t, 0);
    let s1 = skip_ws(t, i0);
    let e1 = part_end_at(t, s1);
    if wild_at(t, s1, e1) {
        if op != Op::Caret && op != Op::Wildcard {
            return Err(error_of("wildcard with operator"));
        }
        return Ok(
            Comparator { op: Op::Wildcard, major: 0, minor: None, patch: None, pre: Prerelease::empty() },
        );
    }
    match part_num(t, s1, e1) {
        None => Err(error_with_debug("bad major: ", t, s1, e1)),
        Some(major) => comparator_minor(t, op, major, e1),
    }
}

proof fn lemma_parse_parts_err(parts: Seq<Seq<char>>, k: int, n: int)
    requires
        0 <= k <= n,
        spec_parse_parts(parts, k) is Err,
    ensures
        spec_parse_parts(parts, n) == spec_parse_parts(parts, k),
    decreases n - k,
{
    if k < n {
        lemma_parse_parts_err(parts, k, n - 1);
    }
}

fn parse_req(t: &[char]) -> (r: Result<VersionReq, Error>)
    ensures
        match spec_parse_req(t@) {
            Ok(cs) => r matches Ok(q) && q@ == cs,
            Err(msg) => r matches Err(e) && e.0@ == msg,
        },
{
    let lo = skip_ws(t, 0);
    let hi = trim_back(t, lo, t.len());
    let ghost s = t@.subrange(lo as int, hi as int);
    assert(s == trim(t@));
    if lo == hi || (hi == lo + 1 && t[lo] == '*') {
        if lo < hi {
            assert(s =~= seq!['*']);
        }
        let comparators: Vec<Comparator> = Vec::new();
        let q = VersionReq { comparators };
        assert(q@ =~= Seq::<ComparatorModel>::empty());
        return Ok(q);
    }
    assert(!(s =~= seq!['*'])) by {
        if s =~= seq!['*'] {
            assert(s[0] == t@[lo as int]);
        }
    }
    let parts = split_chars(t, lo, hi, ',');
    let ghost sp = split_on(s, ',');
    let mut comparators: Vec<Comparator> = Vec::new();
    assert(comparators@.map_values(|c: Comparator| c@) =~= Seq::<ComparatorModel>::empty());
    let mut k: usize = 0;
    while k < parts.len()
        invariant
            s == trim(t@),
            !(s =~= seq!['*']),
            s.len() > 0,
            sp == split_on(s, ','),
            pieces_are(parts@, sp),
            k <= parts.len(),
            spec_parse_parts(sp, k as int) == Ok::<Seq<ComparatorModel>, Seq<char>>(
                comparators@.map_values(|c: Comparator| c@),
            ),
        decreases parts.len() - k,
    {
        let p = parts[k].as_slice();
        assert(p@ == sp[k as int]);
        let plo = skip_ws(p, 0);
        let phi = trim_back(p, plo, p.len());
        let q = copy_range(p, plo, phi);
        assert(q@ == trim(sp[k as int]));
        match parse_comparator(q.as_slice()) {
            Err(e) => {
                proof {
                    lemma_parse_parts_err(sp, k + 1, sp.len() as int);
                }
                return Err(e);
            },
            Ok(c) => {
                let ghost before = comparators@;
                comparators.push(c);
                assert(comparators@.map_values(|c: Comparator| c@) =~= before.map_values(
                    |c: Comparator| c@,
                ).push(c@));
            },
        }
        k = k + 1;
    }
    Ok(VersionReq { comparators })
}

impl VersionReq {
    /// The requirement that any version without a pre-release matches.
    pub fn star() -> (q: VersionReq)
        ensures
            q@ == Seq::<ComparatorModel>::empty(),
    {
        let q = VersionReq { comparators: Vec::new() };
        assert(q@ =~= Seq::<ComparatorModel>::empty());
        q
    }

    /// Parses a requirement such as `>=1.2, <2` or `*`.
    pub fn parse(text: &str) -> (r: Result<VersionReq, Error>)
        ensures
            match spec_parse_req(text@) {
                Ok(cs) => r matches Ok(q) && q@ == cs,
                Err(msg) => r matches Err(e) && e.0@ == msg,
            },
    {
        let chars = to_chars(text);
        parse_req(chars.as_slice())
    }
}

/// Whether `v` is the comparator's version, as far as the comparator gives it.
pub open spec fn matches_exact(c: ComparatorModel, v: Version) -> bool {
    &&& v.major == c.1
    &&& (c.2 matches Some(m) ==> v.minor == m)
    &&& (c.3 matches Some(p) ==> v.patch == p)
    &&& v.pre@ == c.4
}

/// Whether `v` comes after the comparator's version, as far as the comparator gives it.
pub open spec fn matches_greater(c: ComparatorModel, v: Version) -> bool {
    if v.major != c.1 {
        v.major > c.1
    } else {
        match c.2 {
            None => false,
            Some(minor) => if v.minor != minor {
                v.minor > minor
            } else {
                match c.3 {
                    None => false,
                    Some(patch) => if v.patch != patch {
                        v.patch > patch
                    } else {
                        pre_order(v.pre@, c.4) == Ordering::Greater
                    },
                }
            },
        }
    }
}

/// `~`: same major; same minor where given; patch and pre-release at least the given ones.
pub open spec fn matches_tilde(c: ComparatorModel, v: Version) -> bool {
    if v.major != c.1 {
        false
    } else {
        match c.2 {
            None => true,
            Some(minor) => if v.minor != minor {
                false
            } else {
                match c.3 {
                    None => true,
                    Some(patch) => if v.patch != patch {
                        v.patch > patch
                    } else {
                        pre_order(v.pre@, c.4) != Ordering::Less
                    },
                }
            },
        }
    }
}

/// `^`: at least the given version, without changing the left-most non-zero part.
pub open spec fn matches_caret(c: ComparatorModel, v: Version) -> bool {
    if v.major != c.1 {
        false
    } else {
        match c.2 {
            None => true,
            Some(minor) => match c.3 {
                None => if c.1 > 0 {
                    v.minor >= minor
                } else {
                    v.minor == minor
                },
                Some(patch) => if c.1 > 0 && v.minor != minor {
                    v.minor > minor
                } else if c.1 > 0 && v.patch != patch {
                    v.patch > patch
                } else if c.1 == 0 && minor > 0 && v.minor != minor {
                    false
                } else if c.1 == 0 && minor > 0 && v.patch != patch {
                    v.patch > patch
                } else if c.1 == 0 && minor == 0 && (v.minor != minor || v.patch != patch) {
                    false
                } else {
                    pre_order(v.pre@, c.4) != Ordering::Less
                },
            },
        }
    }
}

/// `*`: same major, and same minor where given.
pub open spec fn matches_wildcard(c: ComparatorModel, v: Version) -> bool {
    v.major == c.1 && (c.2 matches Some(m) ==> v.minor == m)
}

/// Whether `v` matches the comparator.
pub open spec fn comparator_matches(c: ComparatorModel, v: Version) -> bool {
    match c.0 {
        Op::Exact => matches_exact(c, v),
        Op::Greater => matches_greater(c, v),
        Op::GreaterEq => matches_exact(c, v) || matches_greater(c, v),
        Op::Less => !matches_exact(c, v) && !matches_greater(c, v),
        Op::LessEq => !matches_greater(c, v),
        Op::Tilde => matches_tilde(c, v),
        Op::Caret => matches_caret(c, v),
        Op::Wildcard => matches_wildcard(c, v),
    }
}

/// Whether matching `v` against the comparator compares pre-releases only where that
/// comparison is defined: it compares them when the comparator gives the version
/// `v.major.v.minor.v.patch`.
pub open spec fn match_defined(c: ComparatorModel, v: Version) -> bool {
    (c.1 == v.major && c.2 == Some(v.minor) && c.3 == Some(v.patch)) ==> pre_order_defined(
        v.pre@,
        c.4,
    )
}

/// Whether the comparator lets a pre-release of `v` match: it names the same
/// `major.minor.patch` with a pre-release of its own.
pub open spec fn pre_allows(c: ComparatorModel, v: Version) -> bool {
    c.4.len() > 0 && c.1 == v.major && c.2 == Some(v.minor) && c.3 == Some(v.patch)
}

/// Whether `v` matches a requirement: every comparator matches, and a pre-release
/// version only where some comparator allows its pre-release; the empty requirement
/// matches exactly the versions without pre-release.
pub open spec fn req_matches(cs: Seq<ComparatorModel>, v: Version) -> bool {
    if cs.len() == 0 {
        v.pre@.len() == 0
    } else {
        &&& forall|i: int| 0 <= i < cs.len() ==> comparator_matches(#[trigger] cs[i], v)
        &&& (v.pre@.len() == 0 || exists|i: int|
            0 <= i < cs.len() && pre_allows(#[trigger] cs[i], v))
    }
}

fn pre_gt(a: &Prerelease, b: &Prerelease) -> (r: bool)
    requires
        pre_order_defined(a@, b@),
    ensures
        r == (pre_order(a@, b@) == Ordering::Greater),
{
    match pre_compare(a, b) {
        Ordering::Greater => true,
        _ => false,
    }
}

fn pre_ge(a: &Prerelease, b: &Prerelease) -> (r: bool)
    requires
        pre_order_defined(a@, b@),
    ensures
        r == (pre_order(a@, b@) != Ordering::Less),
{
    match pre_compare(a, b) {
        Ordering::Less => false,
        _ => true,
    }
}

impl Comparator {
    fn matches_exact(&self, v: &Version) -> (r: bool)
        ensures
            r == matches_exact(self@, *v),
    {
        if v.major != self.major {
            return false;
        }
        if let Some(m) = self.minor {
            if v.minor != m {
                return false;
            }
        }
        if let Some(p) = self.patch {
            if v.patch != p {
                return false;
            }
        }
        v.pre.0 == self.pre.0
    }

    fn matches_greater(&self, v: &Version) -> (r: bool)
        requires
            match_defined(self@, *v),
        ensures
            r == matches_greater(self@, *v),
    {
        if v.major != self.major {
            return v.major > self.major;
        }
        let minor = match self.minor {
            None => return false,
            Some(m) => m,
        };
        if v.minor != minor {
            return v.minor > minor;
        }
        let patch = match self.patch {
            None => return false,
            Some(p) => p,
        };
        if v.patch != patch {
            return v.patch > patch;
        }
        pre_gt(&v.pre, &self.pre)
    }

    fn matches_tilde(&self, v: &Version) -> (r: bool)
        requires
            match_defined(self@, *v),
        ensures
            r == matches_tilde(self@, *v),
    {
        if v.major != self.major {
            return false;
        }
        let minor = match self.minor {
            None => return true,
            Some(m) => m,
        };
        if v.minor != minor {
            return false;
        }
        let patch = match self.patch {
            None => return true,
            Some(p) => p,
        };
        if v.patch != patch {
            return v.patch > patch;
        }
        pre_ge(&v.pre, &self.pre)
    }

    fn matches_caret(&self, v: &Version) -> (r: bool)
        requires
            match_defined(self@, *v),
        ensures
            r == matches_caret(self@, *v),
    {
        if v.major != self.major {
            return false;
        }
        let minor = match self.minor {
            None => return true,
            Some(m) => m,
        };
        let patch = match self.patch {
            None => {
                if self.major > 0 {
                    return v.minor >= minor;
                }
                return v.minor == minor;
            },
            Some(p) => p,
        };
        if self.major > 0 {
            if v.minor != minor {
                return v.minor > minor;
            }
            if v.patch != patch {
                return v.patch > patch;
            }
        } else if minor > 0 {
            if v.minor != minor {
                return false;
            }
            if v.patch != patch {
                return v.patch > patch;
            }
        } else if v.minor != minor || v.patch != patch {
            return false;
        }
        pre_ge(&v.pre, &self.pre)
    }

    fn matches_wildcard(&self, v: &Version) -> (r: bool)
        ensures
            r == matches_wildcard(self@, *v),
    {
        if v.major != self.major {
            return false;
        }
        match self.minor {
            None => true,
            Some(m) => v.minor == m,
        }
    }

    /// Whether `version` matches this comparator.
    pub fn matches(&self, version: &Version) -> (r: bool)
        requires
            match_defined(self@, *version),
        ensures
            r == comparator_matches(self@, *version),
    {
        match self.op {
            Op::Exact => self.matches_exact(version),
            Op::Greater => self.matches_greater(version),
            Op::GreaterEq => self.matches_exact(version) || self.matches_greater(version),
            Op::Less => !self.matches_exact(version) && !self.matches_greater(version),
            Op::LessEq => !self.matches_greater(version),
            Op::Tilde => self.matches_tilde(version),
            Op::Caret => self.matches_caret(version),
            Op::Wildcard => self.matches_wildcard(version),
        }
    }

    fn pre_allows(&self, v: &Version) -> (r: bool)
        ensures
            r == pre_allows(self@, *v),
    {
        !self.pre.is_empty() && self.major == v.major && self.minor == Some(v.minor) && self.patch
            == Some(v.patch)
    }
}

impl VersionReq {
    /// Whether `version` matches every comparator of the requirement, with the
    /// pre-release rule of `req_matches`.
    pub fn matches(&self, version: &Version) -> (r: bool)
        requires
            forall|i: int|
                0 <= i < self@.len() ==> match_defined(#[trigger] self@[i], *version),
        ensures
            r == req_matches(self@, *version),
    {
        let n = self.comparators.len();
        if n == 0 {
            return version.pre.is_empty();
        }
        let mut k: usize = 0;
        while k < n
            invariant
                n == self.comparators.len(),
                n == self@.len(),
                k <= n,
                forall|i: int| 0 <= i < self@.len() ==> match_defined(#[trigger] self@[i], *version),
                forall|i: int| 0 <= i < k ==> comparator_matches(#[trigger] self@[i], *version),
            decreases n - k,
        {
            assert(self@[k as int] == self.comparators@[k as int]@);
            if !self.comparators[k].matches(version) {
                return false;
            }
            k = k + 1;
        }
        if version.pre.is_empty() {
            return true;
        }
        let mut k: usize = 0;
        while k < n
            invariant
                n == self.comparators.len(),
                n == self@.len(),
                k <= n,
                forall|i: int| 0 <= i < n ==> comparator_matches(#[trigger] self@[i], *version),
                forall|i: int| 0 <= i < k ==> !pre_allows(#[trigger] self@[i], *version),
            decreases n - k,
        {
            assert(self@[k as int] == self.comparators@[k as int]@);
            if self.comparators[k].pre_allows(version) {
                return true;
            }
            k = k + 1;
        }
        false
    }
}

/// The text of a version: `major.minor.patch`, then `-pre` and `+build` where present.
pub open spec fn version_text(v: Version) -> Seq<char> {
    dec_digits(v.major as nat) + seq!['.'] + dec_digits(v.minor as nat) + seq!['.'] + dec_digits(
        v.patch as nat,
    ) + (if v.pre@.len() > 0 {
        seq!['-'] + v.pre@
    } else {
        Seq::empty()
    }) + (if v.build@.len() > 0 {
        seq!['+'] + v.build@
    } else {
        Seq::empty()
    })
}

/// The text of a comparator's operator.
pub open spec fn op_text(op: Op) -> Seq<char> {
    match op {
        Op::Exact => seq!['='],
        Op::Greater => seq!['>'],
        Op::GreaterEq => seq!['>', '='],
        Op::Less => seq!['<'],
        Op::LessEq => seq!['<', '='],
        Op::Tilde => seq!['~'],
        Op::Caret => seq!['^'],
        Op::Wildcard => Seq::empty(),
    }
}

/// The text of a comparator: operator and major, then `.minor`, `.patch` and `-pre`
/// where given, with `.*` closing a wildcard.
pub open spec fn comparator_text(c: ComparatorModel) -> Seq<char> {
    op_text(c.0) + dec_digits(c.1 as nat) + match c.2 {
        Some(m) => seq!['.'] + dec_digits(m as nat) + match c.3 {
            Some(p) => seq!['.'] + dec_digits(p as nat) + (if c.4.len() > 0 {
                seq!['-'] + c.4
            } else {
                Seq::empty()
            }),
            None => if c.0 == Op::Wildcard {
                seq!['.', '*']
            } else {
                Seq::empty()
            },
        },
        None => if c.0 == Op::Wildcard {
            seq!['.', '*']
        } else {
            Seq::empty()
        },
    }
}

/// The text of the first `k` comparators, joined by `, `.
pub open spec fn comparators_text(cs: Seq<ComparatorModel>, k: int) -> Seq<char>
    decreases k,
{
    if k <= 0 {
        Seq::empty()
    } else if k == 1 {
        comparator_text(cs[0])
    } else {
        comparators_text(cs, k - 1) + seq![',', ' '] + comparator_text(cs[k - 1])
    }
}

/// The text of a requirement: `*` when empty, else its comparators joined by `, `.
pub open spec fn req_text(cs: Seq<ComparatorModel>) -> Seq<char> {
    if cs.len() == 0 {
        seq!['*']
    } else {
        comparators_text(cs, cs.len() as int)
    }
}

impl Version {
    /// The text of the version.
    pub fn to_string(&self) -> (s: String)
        ensures
            s@ == version_text(*self),
    {
        let mut s = String::new();
        push_u64(&mut s, self.major);
        push_char(&mut s, '.');
        push_u64(&mut s, self.minor);
        push_char(&mut s, '.');
        push_u64(&mut s, self.patch);
        let ghost base = s@;
        if !self.pre.is_empty() {
            push_char(&mut s, '-');
            push_str(&mut s, self.pre.as_str());
        }
        let ghost mid = s@;
        if !self.build.is_empty() {
            push_char(&mut s, '+');
            push_str(&mut s, self.build.as_str());
        }
        assert(s@ =~= version_text(*self));
        s
    }
}

impl Prerelease {
    /// The text of the pre-release.
    pub fn to_string(&self) -> (s: String)
        ensures
            s@ == self@,
    {
        self.0.clone()
    }
}

impl BuildMetadata {
    /// The text of the build metadata.
    pub fn to_string(&self) -> (s: String)
        ensures
            s@ == self@,
    {
        self.0.clone()
    }
}

impl Comparator {
    fn push_text(&self, s: &mut String)
        ensures
            final(s)@ == old(s)@ + comparator_text(self@),
    {
        let ghost start = s@;
        match self.op {
            Op::Exact => push_char(s, '='),
            Op::Greater => push_char(s, '>'),
            Op::GreaterEq => {
                push_char(s, '>');
                push_char(s, '=');
            },
            Op::Less => push_char(s, '<'),
            Op::LessEq => {
                push_char(s, '<');
                push_char(s, '=');
            },
            Op::Tilde => push_char(s, '~'),
            Op::Caret => push_char(s, '^'),
            Op::Wildcard => {},
        }
        assert(s@ =~= start + op_text(self.op));
        push_u64(s, self.major);
        let ghost head = s@;
        assert(head =~= start + op_text(self.op) + dec_digits(self.major as nat));
        match self.minor {
            Some(m) => {
                push_char(s, '.');
                push_u64(s, m);
                match self.patch {
                    Some(p) => {
                        push_char(s, '.');
                        push_u64(s, p);
                        if !self.pre.is_empty() {
                            push_char(s, '-');
                            push_str(s, self.pre.as_str());
                        }
                    },
                    None => {
                        if self.op == Op::Wildcard {
                            push_char(s, '.');
                            push_char(s, '*');
                        }
                    },
                }
            },
            None => {
                if self.op == Op::Wildcard {
                    push_char(s, '.');
                    push_char(s, '*');
                }
            },
        }
        assert(s@ =~= start + comparator_text(self@));
    }

    /// The text of the comparator.
    pub fn to_string(&self) -> (s: String)
        ensures
            s@ == comparator_text(self@),
    {
        let mut s = String::new();
        self.push_text(&mut s);
        assert(s@ =~= comparator_text(self@));
        s
    }
}

impl VersionReq {
    /// The text of the requirement.
    pub fn to_string(&self) -> (s: String)
        ensures
            s@ == req_text(self@),
    {
        let mut s = String::new();
        let n = self.comparators.len();
        if n == 0 {
            push_char(&mut s, '*');
            return s;
        }
        let mut k: usize = 0;
        while k < n
            invariant
                n == self.comparators.len(),
                n == self@.len(),
                k <= n,
                s@ == comparators_text(self@, k as int),
            decreases n - k,
        {
            assert(self@[k as int] == self.comparators@[k as int]@);
            if k > 0 {
                push_char(&mut s, ',');
                push_char(&mut s, ' ');
            }
            let ghost before = s@;
            self.comparators[k].push_text(&mut s);
            assert(s@ =~= comparators_text(self@, k + 1));
            k = k + 1;
        }
        s
    }
}

} // verus!
