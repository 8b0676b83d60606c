use vstd::prelude::*;
use vstd::string::*;
use vstd::utf8::{decode_utf8, valid_utf8};
use crate::text::{char_from_u32, copy_range, from_chars, is_whitespace, push_char, push_str, to_chars, trim, utf8_string, utf8_text, ws_back, ws_end};
use super::tree::{array_header, inline_set, keyval, keyval_exec, inline_exec, table_header, walk_array_exec, walk_table_exec, lemma_inline_ok, lemma_keyval_ok, lemma_walk_array_ok, lemma_walk_table_ok};
use super::{entries, holds, items, join_path, lemma_toml_array, lemma_toml_table, strs, toml_of, Entries, Error, Toml, Value, lemma_arr_ok, lemma_empty_ok, sorted_deep, tab_ok};

verus! {

/// Where a reader stands: byte offset, line number, and offset where that line starts.
pub type Cur = (int, int, int);

/// An error as plain values: message, line and column.
pub type TErr = (Seq<char>, int, int);

/// The error `m` at `c`.
pub open spec fn err_at(c: Cur, m: Seq<char>) -> TErr {
    (m, c.1, c.0 - c.2 + 1)
}

/// Whether byte `p` of `b` is `x`.
pub open spec fn at(b: Seq<u8>, p: int, x: u8) -> bool {
    0 <= p < b.len() && b[p] == x
}

/// Whether a CR LF pair starts at `p`.
pub open spec fn crlf(b: Seq<u8>, p: int) -> bool {
    at(b, p, 13) && at(b, p + 1, 10)
}

/// Whether three bytes `x` start at `p`.
pub open spec fn triple(b: Seq<u8>, p: int, x: u8) -> bool {
    at(b, p, x) && at(b, p + 1, x) && at(b, p + 2, x)
}

/// Whether the bytes `lit` stand at `p`.
pub open spec fn starts(b: Seq<u8>, p: int, lit: Seq<u8>) -> bool {
    0 <= p && p + lit.len() <= b.len() && forall|i: int| 0 <= i < lit.len() ==> b[p + i] == #[trigger] lit[i]
}

/// The cursor after the byte at `c`: a line feed starts a new line.
pub open spec fn step(b: Seq<u8>, c: Cur) -> Cur {
    if at(b, c.0, 10) {
        (c.0 + 1, c.1 + 1, c.0 + 1)
    } else {
        (c.0 + 1, c.1, c.2)
    }
}

/// The position after the spaces and tabs at `p`.
pub open spec fn blank_end(b: Seq<u8>, p: int) -> int
    decreases b.len() - p,
{
    if 0 <= p < b.len() && (b[p] == 32 || b[p] == 9) {
        blank_end(b, p + 1)
    } else {
        p
    }
}

/// The position of the line feed that ends the comment at `p`, or the end.
pub open spec fn comment_end(b: Seq<u8>, p: int) -> int
    decreases b.len() - p,
{
    if 0 <= p < b.len() && b[p] != 10 {
        comment_end(b, p + 1)
    } else {
        p
    }
}

/// The cursor after the blanks, comments and line ends at `c`.
pub open spec fn skip_wsc(b: Seq<u8>, c: Cur) -> Cur
    decreases b.len() - c.0,
{
    let p = blank_end(b, c.0);
    if at(b, p, 35) {
        let q = comment_end(b, p);
        if c.0 < q <= b.len() {
            skip_wsc(b, (q, c.1, c.2))
        } else {
            (p, c.1, c.2)
        }
    } else if at(b, p, 10) && c.0 <= p {
        skip_wsc(b, (p + 1, c.1 + 1, p + 1))
    } else if crlf(b, p) && c.0 <= p {
        skip_wsc(b, (p + 2, c.1 + 1, p + 2))
    } else {
        (p, c.1, c.2)
    }
}

/// The cursor after the end of a line at `c`: blanks, a comment, then a line end or
/// the end of input; anything else is an error.
pub open spec fn line_end(b: Seq<u8>, c: Cur) -> Result<Cur, TErr> {
    let p0 = blank_end(b, c.0);
    let p = if at(b, p0, 35) {
        comment_end(b, p0)
    } else {
        p0
    };
    if p >= b.len() {
        Ok((p, c.1, c.2))
    } else if at(b, p, 10) {
        Ok((p + 1, c.1 + 1, p + 1))
    } else if crlf(b, p) {
        Ok((p + 2, c.1 + 1, p + 2))
    } else {
        Err(err_at((p, c.1, c.2), "expected newline"@))
    }
}

/// The character a one-letter escape stands for.
pub open spec fn simple_escape(x: u8) -> Option<char> {
    if x == 98 {
        Some('\u{8}')
    } else if x == 116 {
        Some('\t')
    } else if x == 110 {
        Some('\n')
    } else if x == 102 {
        Some('\u{c}')
    } else if x == 114 {
        Some('\r')
    } else if x == 34 {
        Some('"')
    } else if x == 92 {
        Some('\\')
    } else if x == 47 {
        Some('/')
    } else {
        None
    }
}

/// The value of a hex digit byte.
pub open spec fn hex_digit(x: u8) -> Option<nat> {
    if 48 <= x <= 57 {
        Some((x - 48) as nat)
    } else if 97 <= x <= 102 {
        Some((x - 87) as nat)
    } else if 65 <= x <= 70 {
        Some((x - 55) as nat)
    } else {
        None
    }
}

/// The value of a run of hex digits, if all of them are.
pub open spec fn hex_run(s: Seq<u8>) -> Option<nat>
    decreases s.len(),
{
    if s.len() == 0 {
        Some(0)
    } else {
        match (hex_run(s.drop_last()), hex_digit(s.last())) {
            (Some(a), Some(d)) => Some(a * 16 + d),
            _ => None,
        }
    }
}

/// The value of `s` as `u32::from_str_radix(s, 16)` reads it: an optional `+`, then
/// one or more hex digits (at most eight here, so it fits).
pub open spec fn radix16(s: Seq<u8>) -> Option<nat> {
    let body = if s.len() > 0 && s[0] == 43 {
        s.drop_first()
    } else {
        s
    };
    if body.len() == 0 {
        None
    } else {
        hex_run(body)
    }
}

/// Whether `n` is a Unicode scalar value.
pub open spec fn is_scalar(n: nat) -> bool {
    n <= 0xD7FF || (0xE000 <= n <= 0x10FFFF)
}

/// A `\u` or `\U` escape's `n` hex digits at `c`, appended to `out`.
pub open spec fn unicode(b: Seq<u8>, c: Cur, n: int, out: Seq<char>) -> Result<(Seq<char>, Cur), TErr> {
    if c.0 + n > b.len() || c.0 < 0 {
        Err(err_at(c, "bad unicode escape"@))
    } else {
        match radix16(b.subrange(c.0, c.0 + n)) {
            None => Err(err_at(c, "bad unicode"@)),
            Some(cp) => if is_scalar(cp) {
                Ok((out.push(cp as char), (c.0 + n, c.1, c.2)))
            } else {
                Err(err_at(c, "bad codepoint"@))
            },
        }
    }
}

/// The escape whose letter is at `c` (just after the backslash), appended to `out`.
pub open spec fn escape(b: Seq<u8>, c: Cur, out: Seq<char>) -> Result<(Seq<char>, Cur), TErr> {
    if c.0 < 0 || c.0 >= b.len() {
        Err(err_at(c, "bad escape"@))
    } else {
        let x = b[c.0];
        let c1 = step(b, c);
        if x == 117 {
            unicode(b, c1, 4, out)
        } else if x == 85 {
            unicode(b, c1, 8, out)
        } else {
            match simple_escape(x) {
                Some(ch) => Ok((out.push(ch), c1)),
                None => Err(err_at(c1, "invalid escape"@)),
            }
        }
    }
}

/// The length of the UTF-8 sequence that byte `x` starts, as the reader takes it.
pub open spec fn utf8_len(x: u8) -> int {
    if x < 0xc0 {
        1
    } else if x < 0xe0 {
        2
    } else if x < 0xf0 {
        3
    } else {
        4
    }
}

/// One encoded character at `c`, appended to `out`.
pub open spec fn consume(b: Seq<u8>, c: Cur, out: Seq<char>) -> Result<(Seq<char>, Cur), TErr> {
    if c.0 < 0 || c.0 >= b.len() || c.0 + utf8_len(b[c.0]) > b.len() {
        Err(err_at(c, "invalid utf-8"@))
    } else {
        match utf8_text(b.subrange(c.0, c.0 + utf8_len(b[c.0]))) {
            Some(t) => Ok((out + t, (c.0 + utf8_len(b[c.0]), c.1, c.2))),
            None => Err(err_at(c, "invalid utf-8"@)),
        }
    }
}

/// The rest of a basic string from `c`, after the text `out`.
pub open spec fn basic_tail(b: Seq<u8>, c: Cur, out: Seq<char>) -> Result<(Seq<char>, Cur), TErr>
    decreases b.len() - c.0,
{
    if c.0 < 0 || c.0 >= b.len() {
        Err(err_at(c, "unterminated string"@))
    } else if b[c.0] == 34 {
        Ok((out, (c.0 + 1, c.1, c.2)))
    } else if b[c.0] == 10 {
        Err(err_at(c, "newline in string"@))
    } else if b[c.0] == 92 {
        match escape(b, (c.0 + 1, c.1, c.2), out) {
            Ok((o, c2)) => if c.0 < c2.0 <= b.len() {
                basic_tail(b, c2, o)
            } else {
                Ok((o, c2))
            },
            Err(e) => Err(e),
        }
    } else {
        match consume(b, c, out) {
            Ok((o, c2)) => if c.0 < c2.0 <= b.len() {
                basic_tail(b, c2, o)
            } else {
                Ok((o, c2))
            },
            Err(e) => Err(e),
        }
    }
}

/// A basic string whose quote is at `c`.
pub open spec fn basic(b: Seq<u8>, c: Cur) -> Result<(Seq<char>, Cur), TErr> {
    basic_tail(b, (c.0 + 1, c.1, c.2), Seq::empty())
}

/// The first position at or after `p` holding a quote or a line feed, or the end.
pub open spec fn lit_end(b: Seq<u8>, p: int) -> int
    decreases b.len() - p,
{
    if 0 <= p < b.len() && b[p] != 39 && b[p] != 10 {
        lit_end(b, p + 1)
    } else {
        p
    }
}

/// A literal string whose quote is at `c`.
pub open spec fn literal(b: Seq<u8>, c: Cur) -> Result<(Seq<char>, Cur), TErr> {
    let q = lit_end(b, c.0 + 1);
    if q >= b.len() {
        Err(err_at((q, c.1, c.2), "unterminated literal"@))
    } else if b[q] == 10 {
        Err(err_at((q, c.1, c.2), "newline in literal"@))
    } else {
        match utf8_text(b.subrange(c.0 + 1, q)) {
            None => Err(err_at((q, c.1, c.2), "invalid utf-8"@)),
            Some(t) => Ok((t, (q + 1, c.1, c.2))),
        }
    }
}

/// The cursor after the three quotes at `c` and a line end right after them.
pub open spec fn ml_open(b: Seq<u8>, c: Cur) -> Cur {
    let p = c.0 + 3;
    if at(b, p, 10) {
        (p + 1, c.1 + 1, p + 1)
    } else if crlf(b, p) {
        (p + 2, c.1 + 1, p + 2)
    } else {
        (p, c.1, c.2)
    }
}

/// Up to two more quotes `x` at `p`, each appended to `out` as `ch`.
pub open spec fn closing_quotes(b: Seq<u8>, p: int, out: Seq<char>, x: u8, ch: char) -> (Seq<char>, int) {
    if at(b, p, x) {
        if at(b, p + 1, x) {
            (out.push(ch).push(ch), p + 2)
        } else {
            (out.push(ch), p + 1)
        }
    } else {
        (out, p)
    }
}

/// Whether the backslash at `p` ends its line (only blanks between it and the line end).
pub open spec fn eol_backslash(b: Seq<u8>, p: int) -> bool {
    let i = blank_end(b, p + 1);
    at(b, i, 10) || crlf(b, i)
}

/// The cursor after the blanks and line ends at `c`.
pub open spec fn skip_ws_nl(b: Seq<u8>, c: Cur) -> Cur
    decreases b.len() - c.0,
{
    if at(b, c.0, 32) || at(b, c.0, 9) {
        skip_ws_nl(b, (c.0 + 1, c.1, c.2))
    } else if at(b, c.0, 10) {
        skip_ws_nl(b, (c.0 + 1, c.1 + 1, c.0 + 1))
    } else if crlf(b, c.0) {
        skip_ws_nl(b, (c.0 + 2, c.1 + 1, c.0 + 2))
    } else {
        c
    }
}

/// The rest of a multi-line basic string from `c`, after the text `out`.
pub open spec fn ml_basic_tail(b: Seq<u8>, c: Cur, out: Seq<char>) -> Result<(Seq<char>, Cur), TErr>
    decreases b.len() - c.0,
{
    if triple(b, c.0, 34) {
        let (o, p) = closing_quotes(b, c.0 + 3, out, 34, '"');
        Ok((o, (p, c.1, c.2)))
    } else if c.0 < 0 || c.0 >= b.len() {
        Err(err_at(c, "unterminated multi-line string"@))
    } else if b[c.0] == 92 {
        if eol_backslash(b, c.0) {
            let c2 = skip_ws_nl(b, (c.0 + 1, c.1, c.2));
            if c.0 < c2.0 <= b.len() {
                ml_basic_tail(b, c2, out)
            } else {
                Ok((out, c2))
            }
        } else {
            match escape(b, (c.0 + 1, c.1, c.2), out) {
                Ok((o, c2)) => if c.0 < c2.0 <= b.len() {
                    ml_basic_tail(b, c2, o)
                } else {
                    Ok((o, c2))
                },
                Err(e) => Err(e),
            }
        }
    } else {
        match consume(b, c, out) {
            Ok((o, c2)) => if c.0 < c2.0 <= b.len() {
                ml_basic_tail(b, c2, o)
            } else {
                Ok((o, c2))
            },
            Err(e) => Err(e),
        }
    }
}

/// A multi-line basic string whose first quote is at `c`.
pub open spec fn ml_basic(b: Seq<u8>, c: Cur) -> Result<(Seq<char>, Cur), TErr> {
    ml_basic_tail(b, ml_open(b, c), Seq::empty())
}

/// The rest of a multi-line literal string from `c`, whose text began at `start`.
pub open spec fn ml_lit_tail(b: Seq<u8>, c: Cur, start: int) -> Result<(Seq<char>, Cur), TErr>
    decreases b.len() - c.0,
{
    if triple(b, c.0, 39) {
        match utf8_text(b.subrange(start, c.0)) {
            None => Err(err_at((c.0 + 3, c.1, c.2), "invalid utf-8"@)),
            Some(t) => {
                let (o, p) = closing_quotes(b, c.0 + 3, t, 39, '\'');
                Ok((o, (p, c.1, c.2)))
            },
        }
    } else if c.0 < 0 || c.0 >= b.len() {
        Err(err_at(c, "unterminated multi-line literal"@))
    } else {
        ml_lit_tail(b, step(b, c), start)
    }
}

/// A multi-line literal string whose first quote is at `c`.
pub open spec fn ml_lit(b: Seq<u8>, c: Cur) -> Result<(Seq<char>, Cur), TErr> {
    ml_lit_tail(b, ml_open(b, c), ml_open(b, c).0)
}

/// Whether `x` may stand in a bare key.
pub open spec fn is_bare(x: u8) -> bool {
    (97 <= x <= 122) || (65 <= x <= 90) || (48 <= x <= 57) || x == 95 || x == 45
}

/// The end of the bare key at `p`.
pub open spec fn bare_end(b: Seq<u8>, p: int) -> int
    decreases b.len() - p,
{
    if 0 <= p < b.len() && is_bare(b[p]) {
        bare_end(b, p + 1)
    } else {
        p
    }
}

/// The characters of ASCII bytes.
pub open spec fn ascii_text(s: Seq<u8>) -> Seq<char> {
    s.map_values(|x: u8| x as char)
}

/// One key at `c`: a basic or literal string, or a bare key.
pub open spec fn key(b: Seq<u8>, c: Cur) -> Result<(Seq<char>, Cur), TErr> {
    if at(b, c.0, 34) {
        basic(b, c)
    } else if at(b, c.0, 39) {
        literal(b, c)
    } else if 0 <= c.0 < b.len() && is_bare(b[c.0]) {
        let e = bare_end(b, c.0);
        Ok((ascii_text(b.subrange(c.0, e)), (e, c.1, c.2)))
    } else {
        Err(err_at(c, "expected key"@))
    }
}

/// The rest of a dotted key from `c`, after the keys `keys`.
pub open spec fn key_rest(b: Seq<u8>, c: Cur, keys: Seq<Seq<char>>) -> Result<(Seq<Seq<char>>, Cur), TErr>
    decreases b.len() - c.0,
{
    let p = blank_end(b, c.0);
    if at(b, p, 46) {
        let q = blank_end(b, p + 1);
        match key(b, (q, c.1, c.2)) {
            Ok((k, c2)) => if c.0 < c2.0 <= b.len() {
                key_rest(b, c2, keys.push(k))
            } else {
                Ok((keys.push(k), c2))
            },
            Err(e) => Err(e),
        }
    } else {
        Ok((keys, (p, c.1, c.2)))
    }
}

/// A dotted key at `c`.
pub open spec fn key_path(b: Seq<u8>, c: Cur) -> Result<(Seq<Seq<char>>, Cur), TErr> {
    match key(b, c) {
        Ok((k, c1)) => key_rest(b, c1, seq![k]),
        Err(e) => Err(e),
    }
}

/// `s` without its underscores.
pub open spec fn drop_underscores(s: Seq<char>) -> Seq<char>
    decreases s.len(),
{
    if s.len() == 0 {
        s
    } else if s.last() == '_' {
        drop_underscores(s.drop_last())
    } else {
        drop_underscores(s.drop_last()).push(s.last())
    }
}

/// The value of digit `c` in base `radix` (digits, then letters of either case).
pub open spec fn radix_digit(c: char, radix: nat) -> Option<nat> {
    let d: int = if '0' <= c <= '9' {
        c as int - 48
    } else if 'a' <= c <= 'z' {
        c as int - 87
    } else if 'A' <= c <= 'Z' {
        c as int - 55
    } else {
        99
    };
    if d < radix {
        Some(d as nat)
    } else {
        None
    }
}

/// The value of a run of digits in base `radix`, if all of them are.
pub open spec fn digits_val(s: Seq<char>, radix: nat) -> Option<nat>
    decreases s.len(),
{
    if s.len() == 0 {
        Some(0)
    } else {
        match (digits_val(s.drop_last(), radix), radix_digit(s.last(), radix)) {
            (Some(a), Some(d)) => Some(a * radix + d),
            _ => None,
        }
    }
}

/// The value of `t` as `i64::from_str_radix(t, radix)` reads it: an optional `+` or
/// `-`, then one or more digits of the base; it must fit in an `i64`.
pub open spec fn from_radix(t: Seq<char>, radix: nat) -> Option<i64> {
    if t.len() == 0 || ((t[0] == '+' || t[0] == '-') && t.len() == 1) {
        None
    } else {
        let body = if t[0] == '+' || t[0] == '-' {
            t.drop_first()
        } else {
            t
        };
        match digits_val(body, radix) {
            None => None,
            Some(v) => {
                let n: int = if t[0] == '-' {
                    -v
                } else {
                    v as int
                };
                if i64::MIN <= n <= i64::MAX {
                    Some(n as i64)
                } else {
                    None
                }
            },
        }
    }
}

/// `n` negated where `neg`, wrapping (only `i64::MIN` wraps, to itself).
pub open spec fn signed(neg: bool, n: i64) -> i64 {
    if !neg {
        n
    } else if n == i64::MIN {
        n
    } else {
        (-n) as i64
    }
}

/// The end of the run of ASCII digits at `k`.
pub open spec fn digit_end(s: Seq<char>, k: int) -> int
    decreases s.len() - k,
{
    if 0 <= k < s.len() && '0' <= s[k] <= '9' {
        digit_end(s, k + 1)
    } else {
        k
    }
}

/// Whether `u[k..]` is an exponent: `e` or `E`, an optional sign, one or more digits.
pub open spec fn exp_ok(u: Seq<char>, k: int) -> bool {
    &&& 0 <= k < u.len()
    &&& (u[k] == 'e' || u[k] == 'E')
    &&& {
        let k2 = if k + 1 < u.len() && (u[k + 1] == '+' || u[k + 1] == '-') {
            k + 2
        } else {
            k + 1
        };
        digit_end(u, k2) > k2 && digit_end(u, k2) == u.len()
    }
}

/// Whether `u` is a decimal number: digits with an optional fraction (at least one
/// digit in all), then an optional exponent.
pub open spec fn decimal(u: Seq<char>) -> bool {
    let m = digit_end(u, 0);
    let f = if m < u.len() && u[m] == '.' {
        digit_end(u, m + 1)
    } else {
        m
    };
    let nd = if m < u.len() && u[m] == '.' {
        m + f - (m + 1)
    } else {
        m
    };
    nd > 0 && (f == u.len() || exp_ok(u, f))
}

/// ASCII lower case of `c`.
pub open spec fn lower(c: char) -> char {
    if 'A' <= c <= 'Z' {
        ((c as int) + 32) as char
    } else {
        c
    }
}

/// Whether `u` is the word `w`, ignoring ASCII case.
pub open spec fn word_ci(u: Seq<char>, w: Seq<char>) -> bool {
    u.len() == w.len() && forall|i: int| 0 <= i < u.len() ==> lower(#[trigger] u[i]) == w[i]
}

/// Whether `t` reads as an `f64` by the grammar std documents: an optional sign, then
/// `inf`, `infinity` or `nan` in any case, or a decimal number.
pub open spec fn f64_text(t: Seq<char>) -> bool {
    let u = if t.len() > 0 && (t[0] == '+' || t[0] == '-') {
        t.drop_first()
    } else {
        t
    };
    word_ci(u, "inf"@) || word_ci(u, "infinity"@) || word_ci(u, "nan"@) || decimal(u)
}

/// The position of the first `c` in `s`, or the length.
pub open spec fn first_of(s: Seq<char>, c: char) -> int
    decreases s.len(),
{
    if s.len() == 0 || s[0] == c {
        0
    } else {
        1 + first_of(s.drop_first(), c)
    }
}

/// The part of a float before its exponent.
pub open spec fn mantissa(t: Seq<char>) -> Seq<char> {
    t.take(if first_of(t, 'e') < first_of(t, 'E') {
        first_of(t, 'e')
    } else {
        first_of(t, 'E')
    })
}

/// Whether the dot of a float has a character before it and a digit after it.
pub open spec fn dot_ok(t: Seq<char>) -> bool {
    let m = mantissa(t);
    let d = first_of(m, '.');
    d != 0 && d != m.len() - 1 && d + 1 < m.len() && '0' <= m[d + 1] <= '9'
}

/// Whether a number text is taken as a float.
pub open spec fn is_float(t: Seq<char>) -> bool {
    t.contains('.') || t.contains('e') || t.contains('E') || t == "inf"@ || t == "nan"@
}

/// Whether `r` starts with `0` and then `x`.
pub open spec fn prefixed(r: Seq<char>, x: char) -> bool {
    r.len() >= 2 && r[0] == '0' && r[1] == x
}

/// A number token: an integer (decimal, or `0x`, `0o`, `0b` after an optional sign)
/// or a float, with underscores ignored; or the message.
pub open spec fn number(raw: Seq<char>) -> Result<Toml, Seq<char>> {
    let s = trim(raw);
    if s.len() == 0 {
        Err("empty number"@)
    } else {
        let neg = s[0] == '-';
        let rest = if s[0] == '+' || s[0] == '-' {
            s.drop_first()
        } else {
            s
        };
        if prefixed(rest, 'x') {
            match from_radix(drop_underscores(rest.skip(2)), 16) {
                Some(n) => Ok(Toml::Int(signed(neg, n))),
                None => Err("bad hex"@),
            }
        } else if prefixed(rest, 'o') {
            match from_radix(drop_underscores(rest.skip(2)), 8) {
                Some(n) => Ok(Toml::Int(signed(neg, n))),
                None => Err("bad oct"@),
            }
        } else if prefixed(rest, 'b') {
            match from_radix(drop_underscores(rest.skip(2)), 2) {
                Some(n) => Ok(Toml::Int(signed(neg, n))),
                None => Err("bad bin"@),
            }
        } else {
            let cleaned = drop_underscores(s);
            if is_float(cleaned) {
                if f64_text(cleaned) && (cleaned.contains('.') ==> dot_ok(cleaned)) {
                    Ok(Toml::Float(cleaned))
                } else {
                    Err("bad float"@)
                }
            } else {
                match from_radix(cleaned, 10) {
                    Some(n) => Ok(Toml::Int(n)),
                    None => Err("bad int"@),
                }
            }
        }
    }
}

/// Whether byte `x` is an ASCII digit.
pub open spec fn digit_byte(x: u8) -> bool {
    48 <= x <= 57
}

/// Whether a token is a date or a time: `DDDD-DD-` leading ten or more bytes, or
/// `DD:..:` leading eight or more.
pub open spec fn is_datetime(s: Seq<u8>) -> bool {
    (s.len() >= 10 && s[4] == 45 && s[7] == 45 && digit_byte(s[0]) && digit_byte(s[1]) && digit_byte(s[2])
        && digit_byte(s[3])) || (s.len() >= 8 && s[2] == 58 && s[5] == 58 && digit_byte(s[0])
        && digit_byte(s[1]))
}

/// Whether `x` ends a value token.
pub open spec fn stops(x: u8) -> bool {
    x == 10 || x == 13 || x == 44 || x == 93 || x == 125 || x == 35
}

/// The first position at or after `p` holding a byte that ends a token, or the end.
pub open spec fn scan_end(b: Seq<u8>, p: int) -> int
    decreases b.len() - p,
{
    if 0 <= p < b.len() && !stops(b[p]) {
        scan_end(b, p + 1)
    } else {
        p
    }
}

/// `i`, moved back over the blanks that end `b[lo..i]`.
pub open spec fn trim_back(b: Seq<u8>, lo: int, i: int) -> int
    decreases i - lo,
{
    if lo < i && 0 < i <= b.len() && (b[i - 1] == 32 || b[i - 1] == 9) {
        trim_back(b, lo, i - 1)
    } else {
        i
    }
}

/// The end of the value token at `p`.
pub open spec fn token_end(b: Seq<u8>, p: int) -> int {
    trim_back(b, p, scan_end(b, p))
}

/// A float, integer or date-time at `c`.
pub open spec fn num_or_date(b: Seq<u8>, c: Cur) -> Result<(Toml, Cur), TErr> {
    if starts(b, c.0, seq![105u8, 110u8, 102u8]) {
        Ok((Toml::Float("inf"@), (c.0 + 3, c.1, c.2)))
    } else if starts(b, c.0, seq![43u8, 105u8, 110u8, 102u8]) {
        Ok((Toml::Float("+inf"@), (c.0 + 4, c.1, c.2)))
    } else if starts(b, c.0, seq![45u8, 105u8, 110u8, 102u8]) {
        Ok((Toml::Float("-inf"@), (c.0 + 4, c.1, c.2)))
    } else if starts(b, c.0, seq![110u8, 97u8, 110u8]) {
        Ok((Toml::Float("nan"@), (c.0 + 3, c.1, c.2)))
    } else if starts(b, c.0, seq![43u8, 110u8, 97u8, 110u8]) {
        Ok((Toml::Float("+nan"@), (c.0 + 4, c.1, c.2)))
    } else if starts(b, c.0, seq![45u8, 110u8, 97u8, 110u8]) {
        Ok((Toml::Float("-nan"@), (c.0 + 4, c.1, c.2)))
    } else {
        let e = token_end(b, c.0);
        match utf8_text(b.subrange(c.0, e)) {
            None => Err(err_at(c, "invalid utf-8"@)),
            Some(raw) => if is_datetime(b.subrange(c.0, e)) {
                Ok((Toml::Datetime(raw), (e, c.1, c.2)))
            } else {
                match number(raw) {
                    Ok(v) => Ok((v, (e, c.1, c.2))),
                    Err(m) => Err(err_at(c, m)),
                }
            },
        }
    }
}

/// A boolean at `c`.
pub open spec fn boolean(b: Seq<u8>, c: Cur) -> Result<(Toml, Cur), TErr> {
    if starts(b, c.0, seq![116u8, 114u8, 117u8, 101u8]) {
        Ok((Toml::Bool(true), (c.0 + 4, c.1, c.2)))
    } else if starts(b, c.0, seq![102u8, 97u8, 108u8, 115u8, 101u8]) {
        Ok((Toml::Bool(false), (c.0 + 5, c.1, c.2)))
    } else {
        Err(err_at(c, "invalid bool"@))
    }
}

/// A value at `c`: the value and the cursor after it, or the error. `fuel` bounds the
/// nesting of arrays and inline tables; `b.len() - c.0 + 1` always suffices.
pub open spec fn value(b: Seq<u8>, c: Cur, fuel: nat) -> Result<(Toml, Cur), TErr>
    decreases fuel, 1int,
{
    if at(b, c.0, 34) {
        if triple(b, c.0, 34) {
            match ml_basic(b, c) {
                Ok((t, c2)) => Ok((Toml::Str(t), c2)),
                Err(e) => Err(e),
            }
        } else {
            match basic(b, c) {
                Ok((t, c2)) => Ok((Toml::Str(t), c2)),
                Err(e) => Err(e),
            }
        }
    } else if at(b, c.0, 39) {
        if triple(b, c.0, 39) {
            match ml_lit(b, c) {
                Ok((t, c2)) => Ok((Toml::Str(t), c2)),
                Err(e) => Err(e),
            }
        } else {
            match literal(b, c) {
                Ok((t, c2)) => Ok((Toml::Str(t), c2)),
                Err(e) => Err(e),
            }
        }
    } else if at(b, c.0, 91) {
        if fuel == 0 {
            Err(err_at(c, "nesting too deep"@))
        } else {
            array_items(b, (c.0 + 1, c.1, c.2), Seq::empty(), (fuel - 1) as nat)
        }
    } else if at(b, c.0, 123) {
        if fuel == 0 {
            Err(err_at(c, "nesting too deep"@))
        } else {
            let p = blank_end(b, c.0 + 1);
            if at(b, p, 125) {
                Ok((Toml::Tab(Seq::empty()), (p + 1, c.1, c.2)))
            } else {
                table_items(b, (p, c.1, c.2), Seq::empty(), (fuel - 1) as nat)
            }
        }
    } else if at(b, c.0, 116) || at(b, c.0, 102) {
        boolean(b, c)
    } else {
        num_or_date(b, c)
    }
}

/// An inline table whose `{` is at `c`.
pub open spec fn inline_table(b: Seq<u8>, c: Cur, fuel: nat) -> Result<(Toml, Cur), TErr> {
    let p = blank_end(b, c.0 + 1);
    if at(b, p, 125) {
        Ok((Toml::Tab(Seq::empty()), (p + 1, c.1, c.2)))
    } else {
        table_items(b, (p, c.1, c.2), Seq::empty(), fuel)
    }
}

/// The items of an array from `c`, after the items `acc`.
pub open spec fn array_items(b: Seq<u8>, c: Cur, acc: Seq<Toml>, fuel: nat) -> Result<(Toml, Cur), TErr>
    decreases fuel, b.len() - c.0 + 3,
{
    let c1 = skip_wsc(b, c);
    if c.0 < 0 || c.0 > b.len() {
        Err(err_at(c, "expected , or ]"@))
    } else if at(b, c1.0, 93) {
        Ok((Toml::Arr(acc), (c1.0 + 1, c1.1, c1.2)))
    } else {
        match value(b, c1, fuel) {
            Err(e) => Err(e),
            Ok((v, c2)) => {
                let c3 = skip_wsc(b, c2);
                if at(b, c3.0, 44) {
                    if c.0 < c3.0 + 1 <= b.len() {
                        array_items(b, (c3.0 + 1, c3.1, c3.2), acc.push(v), fuel)
                    } else {
                        Err(err_at(c3, "expected , or ]"@))
                    }
                } else if at(b, c3.0, 93) {
                    Ok((Toml::Arr(acc.push(v)), (c3.0 + 1, c3.1, c3.2)))
                } else {
                    Err(err_at(c3, "expected , or ]"@))
                }
            },
        }
    }
}

/// One `key = value` of an inline table at `c`, set into `t`, and the `,` or `}` after
/// it: the entries, the cursor after that byte, and whether it was the `}`.
pub open spec fn table_entry(b: Seq<u8>, c: Cur, t: Entries, fuel: nat) -> Result<(Entries, Cur, bool), TErr>
    decreases fuel, 2int,
{
    let p = blank_end(b, c.0);
    match key_path(b, (p, c.1, c.2)) {
        Err(e) => Err(e),
        Ok((keys, c1)) => {
            let p2 = blank_end(b, c1.0);
            if !at(b, p2, 61) {
                Err(err_at((p2, c1.1, c1.2), "expected ="@))
            } else {
                let p3 = blank_end(b, p2 + 1);
                match value(b, (p3, c1.1, c1.2), fuel) {
                    Err(e) => Err(e),
                    Ok((v, c2)) => match inline_set(t, keys, 0, v) {
                        Err(m) => Err(err_at(c2, m)),
                        Ok(t2) => {
                            let p4 = blank_end(b, c2.0);
                            if at(b, p4, 44) {
                                Ok((t2, (p4 + 1, c2.1, c2.2), false))
                            } else if at(b, p4, 125) {
                                Ok((t2, (p4 + 1, c2.1, c2.2), true))
                            } else {
                                Err(err_at((p4, c2.1, c2.2), "expected , or }"@))
                            }
                        },
                    },
                }
            }
        },
    }
}

/// The entries of an inline table from `c`, after the entries `t`.
pub open spec fn table_items(b: Seq<u8>, c: Cur, t: Entries, fuel: nat) -> Result<(Toml, Cur), TErr>
    decreases fuel, b.len() - c.0 + 3,
{
    if c.0 < 0 || c.0 > b.len() {
        Err(err_at(c, "expected ="@))
    } else {
        match table_entry(b, c, t, fuel) {
            Err(e) => Err(e),
            Ok((t2, c2, true)) => Ok((Toml::Tab(t2), c2)),
            Ok((t2, c2, false)) => if c.0 < c2.0 <= b.len() {
                table_items(b, c2, t2, fuel)
            } else {
                Err(err_at(c2, "expected , or }"@))
            },
        }
    }
}

/// What the document reader keeps between lines: the root table, the defined paths,
/// the array-of-tables paths, the current header's path, and whether that header is an
/// array of tables.
pub type DocState = (Entries, Seq<Seq<char>>, Seq<Seq<char>>, Seq<Seq<char>>, bool);

/// A header line whose `[` is at `c`.
pub open spec fn header(b: Seq<u8>, c: Cur, st: DocState) -> Result<(DocState, Cur), TErr> {
    let is_arr = at(b, c.0 + 1, 91);
    let p2 = if is_arr {
        c.0 + 2
    } else {
        c.0 + 1
    };
    match key_path(b, (blank_end(b, p2), c.1, c.2)) {
        Err(e) => Err(e),
        Ok((keys, c4)) => {
            let p5 = blank_end(b, c4.0);
            if !at(b, p5, 93) {
                Err(err_at((p5, c4.1, c4.2), "expected ]"@))
            } else if is_arr && !at(b, p5 + 1, 93) {
                Err(err_at((p5 + 1, c4.1, c4.2), "expected ]]"@))
            } else {
                let p7 = if is_arr {
                    p5 + 2
                } else {
                    p5 + 1
                };
                match line_end(b, (p7, c4.1, c4.2)) {
                    Err(e) => Err(e),
                    Ok(c8) => if is_arr {
                        match array_header(st.0, keys, st.2) {
                            Err(m) => Err(err_at(c8, m)),
                            Ok((r2, a2)) => Ok(((r2, st.1, a2, keys, true), c8)),
                        }
                    } else {
                        match table_header(st.0, keys, st.1, st.2) {
                            Err(m) => Err(err_at(c8, m)),
                            Ok((r2, d2)) => Ok(((r2, d2, st.2, keys, false), c8)),
                        }
                    },
                }
            }
        },
    }
}

/// A `key = value` line at `c`.
pub open spec fn keyval_line(b: Seq<u8>, c: Cur, st: DocState) -> Result<(DocState, Cur), TErr> {
    match key_path(b, c) {
        Err(e) => Err(e),
        Ok((keys, c1)) => {
            let p2 = blank_end(b, c1.0);
            if !at(b, p2, 61) {
                Err(err_at((p2, c1.1, c1.2), "expected ="@))
            } else {
                let p3 = blank_end(b, p2 + 1);
                match value(b, (p3, c1.1, c1.2), (b.len() - p3 + 1) as nat) {
                    Err(e) => Err(e),
                    Ok((v, c2)) => match keyval(st.0, st.3, 0, st.4, keys, v, st.1) {
                        Err(m) => Err(err_at(c2, m)),
                        Ok((r2, d2)) => match line_end(b, c2) {
                            Err(e) => Err(e),
                            Ok(c3) => Ok(((r2, d2, st.2, st.3, st.4), c3)),
                        },
                    },
                }
            }
        },
    }
}

/// The rest of a document from `c`, with what was read so far in `st`: the root table,
/// or the error.
pub open spec fn doc(b: Seq<u8>, c: Cur, st: DocState) -> Result<Entries, TErr>
    decreases b.len() - c.0,
{
    let c1 = skip_wsc(b, c);
    if c1.0 >= b.len() || c.0 < 0 || c.0 > b.len() {
        Ok(st.0)
    } else {
        let step = if b[c1.0] == 91 {
            header(b, c1, st)
        } else {
            keyval_line(b, c1, st)
        };
        match step {
            Err(e) => Err(e),
            Ok((st2, c2)) => if c.0 < c2.0 <= b.len() {
                doc(b, c2, st2)
            } else {
                Ok(st2.0)
            },
        }
    }
}

/// A TOML document: its root table, or the error.
pub open spec fn spec_from_str(b: Seq<u8>) -> Result<Entries, TErr> {
    doc(b, (0, 1, 0), (Seq::empty(), Seq::empty(), Seq::empty(), Seq::empty(), false))
}

/// Whether `e` is the error `x`.
pub open spec fn error_is(e: Error, x: TErr) -> bool {
    e.msg@ == x.0 && e.line == x.1 && e.col == x.2
}

/// Whether byte `p` of `b` is `x`.
fn byte_is(b: &[u8], p: usize, x: u8) -> (r: bool)
    ensures
        r == at(b@, p as int, x),
{
    p < b.len() && b[p] == x
}

/// Sixteen to the power `k`.
pub open spec fn pow16(k: nat) -> nat
    decreases k,
{
    if k == 0 {
        1
    } else {
        16 * pow16((k - 1) as nat)
    }
}

proof fn lemma_pow16_mono(k: nat)
    requires
        k <= 8,
    ensures
        pow16(k) <= 0x1_0000_0000,
    decreases k,
{
    reveal_with_fuel(pow16, 9);
    if k < 8 {
        lemma_pow16_up(k, 8);
    }
}

proof fn lemma_pow16_up(k: nat, m: nat)
    requires
        k <= m,
    ensures
        pow16(k) <= pow16(m),
    decreases m - k,
{
    if k < m {
        lemma_pow16_up(k, (m - 1) as nat);
    }
}

/// The value of `b[lo..hi]` as `u32::from_str_radix(.., 16)` reads it, for at most
/// eight bytes.
fn hex_value(b: &[u8], lo: usize, hi: usize) -> (r: Option<u32>)
    requires
        lo <= hi <= b@.len(),
        hi - lo <= 8,
    ensures
        match radix16(b@.subrange(lo as int, hi as int)) {
            Some(v) => r == Some(v as u32) && v < 0x1_0000_0000,
            None => r is None,
        },
{
    let ghost s = b@.subrange(lo as int, hi as int);
    let start = if lo < hi && b[lo] == 43 { lo + 1 } else { lo };
    let ghost body = b@.subrange(start as int, hi as int);
    assert(body =~= if s.len() > 0 && s[0] == 43 { s.drop_first() } else { s });
    if start == hi {
        return None;
    }
    let mut acc: u64 = 0;
    let mut i: usize = start;
    assert(b@.subrange(start as int, start as int) =~= Seq::<u8>::empty());
    while i < hi
        invariant
            start <= i <= hi <= b@.len(),
            hi - start <= 8,
            hex_run(b@.subrange(start as int, i as int)) == Some(acc as nat),
            acc < pow16((i - start) as nat),
            body == b@.subrange(start as int, hi as int),
            radix16(b@.subrange(lo as int, hi as int)) == hex_run(body),
        decreases hi - i,
    {
        proof {
            lemma_pow16_mono((i - start) as nat);
        }
        let x = b[i];
        let d: u64 = if 48 <= x && x <= 57 {
            (x - 48) as u64
        } else if 97 <= x && x <= 102 {
            (x - 87) as u64
        } else if 65 <= x && x <= 70 {
            (x - 55) as u64
        } else {
            assert(b@.subrange(start as int, i + 1).drop_last() =~= b@.subrange(start as int, i as int));
            assert(body.take(i + 1 - start) =~= b@.subrange(start as int, i + 1));
            proof {
                lemma_hex_run_none(body, (i + 1 - start) as nat);
            }
            return None;
        };
        assert(b@.subrange(start as int, i + 1).drop_last() =~= b@.subrange(start as int, i as int));
        acc = acc * 16 + d;
        i = i + 1;
    }
    proof {
        lemma_pow16_mono((hi - start) as nat);
    }
    Some(acc as u32)
}

/// Where a prefix of `s` holds a non-digit, `s` has no hex value.
proof fn lemma_hex_run_none(s: Seq<u8>, k: nat)
    requires
        0 < k <= s.len(),
        hex_run(s.take(k as int)) is None,
    ensures
        hex_run(s) is None,
    decreases s.len() - k,
{
    if k < s.len() {
        assert(s.take(k as int + 1).drop_last() =~= s.take(k as int));
        lemma_hex_run_none(s, k + 1);
    } else {
        assert(s.take(k as int) =~= s);
    }
}

/// Blanks end within the input, at or after their start.
proof fn lemma_blank_end(b: Seq<u8>, p: int)
    requires
        0 <= p <= b.len(),
    ensures
        p <= blank_end(b, p) <= b.len(),
    decreases b.len() - p,
{
    if p < b.len() && (b[p] == 32 || b[p] == 9) {
        lemma_blank_end(b, p + 1);
    }
}

/// A comment ends within the input, at or after its start.
proof fn lemma_comment_end(b: Seq<u8>, p: int)
    requires
        0 <= p <= b.len(),
    ensures
        p <= comment_end(b, p) <= b.len(),
    decreases b.len() - p,
{
    if p < b.len() && b[p] != 10 {
        lemma_comment_end(b, p + 1);
    }
}

/// A reader of TOML text: the bytes, the position, the line, and where it starts.
struct Parser<'a> {
    bytes: &'a [u8],
    pos: usize,
    line: usize,
    line_start: usize,
}

impl<'a> Parser<'a> {
    spec fn cur(&self) -> Cur {
        (self.pos as int, self.line as int, self.line_start as int)
    }

    spec fn wf(&self) -> bool {
        &&& self.pos <= self.bytes@.len() < usize::MAX
        &&& 1 <= self.line <= self.pos + 1
        &&& self.line_start <= self.pos
    }

    fn err(&self, msg: &str) -> (e: Error)
        requires
            self.wf(),
        ensures
            error_is(e, err_at(self.cur(), msg@)),
    {
        Error { line: self.line, col: self.pos - self.line_start + 1, msg: msg.to_owned() }
    }

    /// Whether the byte `off` after the position is `x`.
    fn has(&self, off: usize, x: u8) -> (r: bool)
        requires
            self.wf(),
        ensures
            r == at(self.bytes@, self.pos + off, x),
    {
        off < self.bytes.len() - self.pos && self.bytes[self.pos + off] == x
    }

    /// Moves past the byte at the position; a line feed starts a new line.
    fn bump(&mut self)
        requires
            old(self).wf(),
            old(self).pos < old(self).bytes@.len(),
        ensures
            final(self).wf(),
            final(self).bytes@ == old(self).bytes@,
            final(self).cur() == step(old(self).bytes@, old(self).cur()),
    {
        if self.bytes[self.pos] == 10 {
            self.pos = self.pos + 1;
            self.line = self.line + 1;
            self.line_start = self.pos;
        } else {
            self.pos = self.pos + 1;
        }
    }

    fn skip_ws(&mut self)
        requires
            old(self).wf(),
        ensures
            final(self).wf(),
            final(self).bytes@ == old(self).bytes@,
            final(self).cur() == (blank_end(old(self).bytes@, old(self).pos as int), old(self).line as int, old(self).line_start as int),
            final(self).pos >= old(self).pos,
    {
        while self.pos < self.bytes.len() && (self.bytes[self.pos] == 32 || self.bytes[self.pos] == 9)
            invariant
                self.wf(),
                self.bytes@ == old(self).bytes@,
                self.line == old(self).line,
                self.line_start == old(self).line_start,
                old(self).pos <= self.pos,
                blank_end(self.bytes@, old(self).pos as int) == blank_end(self.bytes@, self.pos as int),
            decreases self.bytes@.len() - self.pos,
        {
            self.pos = self.pos + 1;
        }
    }

    fn skip_comment(&mut self)
        requires
            old(self).wf(),
        ensures
            final(self).wf(),
            final(self).bytes@ == old(self).bytes@,
            final(self).cur() == (comment_end(old(self).bytes@, old(self).pos as int), old(self).line as int, old(self).line_start as int),
            final(self).pos >= old(self).pos,
    {
        while self.pos < self.bytes.len() && self.bytes[self.pos] != 10
            invariant
                self.wf(),
                self.bytes@ == old(self).bytes@,
                self.line == old(self).line,
                self.line_start == old(self).line_start,
                old(self).pos <= self.pos,
                comment_end(self.bytes@, old(self).pos as int) == comment_end(self.bytes@, self.pos as int),
            decreases self.bytes@.len() - self.pos,
        {
            self.pos = self.pos + 1;
        }
    }

    /// Moves past a line feed, or a CR LF pair, at the position.
    fn newline(&mut self, n: usize)
        requires
            old(self).wf(),
            n == 1 || n == 2,
            old(self).pos + n <= old(self).bytes@.len(),
        ensures
            final(self).wf(),
            final(self).bytes@ == old(self).bytes@,
            final(self).cur() == (old(self).pos + n, old(self).line + 1, old(self).pos + n),
    {
        self.pos = self.pos + n;
        self.line = self.line + 1;
        self.line_start = self.pos;
    }

    fn skip_wsc(&mut self)
        requires
            old(self).wf(),
        ensures
            final(self).wf(),
            final(self).bytes@ == old(self).bytes@,
            final(self).cur() == skip_wsc(old(self).bytes@, old(self).cur()),
            final(self).pos >= old(self).pos,
    {
        let ghost b = self.bytes@;
        loop
            invariant
                self.wf(),
                self.bytes@ == b,
                b == old(self).bytes@,
                skip_wsc(b, old(self).cur()) == skip_wsc(b, self.cur()),
                self.pos >= old(self).pos,
            decreases b.len() - self.pos,
        {
            let ghost c = self.cur();
            self.skip_ws();
            if self.has(0, 35) {
                proof {
                    lemma_comment_end(b, self.pos + 1);
                }
                self.skip_comment();
            } else if self.has(0, 10) {
                self.newline(1);
            } else if self.has(0, 13) && self.has(1, 10) {
                self.newline(2);
            } else {
                return;
            }
        }
    }

    fn skip_line_end(&mut self) -> (r: Result<(), Error>)
        requires
            old(self).wf(),
        ensures
            final(self).wf(),
            final(self).bytes@ == old(self).bytes@,
            match line_end(old(self).bytes@, old(self).cur()) {
                Ok(c) => r is Ok && final(self).cur() == c,
                Err(x) => r matches Err(e) && error_is(e, x),
            },
            final(self).pos >= old(self).pos,
    {
        self.skip_ws();
        if self.has(0, 35) {
            self.skip_comment();
        }
        if self.pos >= self.bytes.len() {
            Ok(())
        } else if self.has(0, 10) {
            self.newline(1);
            Ok(())
        } else if self.has(0, 13) && self.has(1, 10) {
            self.newline(2);
            Ok(())
        } else {
            Err(self.err("expected newline"))
        }
    }
}

impl<'a> Parser<'a> {
    fn parse_unicode(&mut self, n: usize, out: &mut String) -> (r: Result<(), Error>)
        requires
            old(self).wf(),
            n == 4 || n == 8,
        ensures
            final(self).wf(),
            final(self).bytes@ == old(self).bytes@,
            match unicode(old(self).bytes@, old(self).cur(), n as int, old(out)@) {
                Ok((o, c)) => r is Ok && final(out)@ == o && final(self).cur() == c,
                Err(x) => r matches Err(e) && error_is(e, x),
            },
    {
        if n > self.bytes.len() - self.pos {
            return Err(self.err("bad unicode escape"));
        }
        let cp = match hex_value(self.bytes, self.pos, self.pos + n) {
            Some(cp) => cp,
            None => return Err(self.err("bad unicode")),
        };
        match char_from_u32(cp) {
            Some(ch) => {
                proof {
                    vstd::utf8::char_u32_cast(ch, cp);
                }
                push_char(out, ch);
                self.pos = self.pos + n;
                Ok(())
            },
            None => Err(self.err("bad codepoint")),
        }
    }

    /// Reads the escape whose letter is at the position (just after a backslash).
    fn parse_escape(&mut self, out: &mut String) -> (r: Result<(), Error>)
        requires
            old(self).wf(),
        ensures
            final(self).wf(),
            final(self).bytes@ == old(self).bytes@,
            match escape(old(self).bytes@, old(self).cur(), old(out)@) {
                Ok((o, c)) => r is Ok && final(out)@ == o && final(self).cur() == c,
                Err(x) => r matches Err(e) && error_is(e, x),
            },
            r is Ok ==> final(self).pos > old(self).pos,
    {
        if self.pos >= self.bytes.len() {
            return Err(self.err("bad escape"));
        }
        let x = self.bytes[self.pos];
        self.bump();
        if x == 117 {
            return self.parse_unicode(4, out);
        }
        if x == 85 {
            return self.parse_unicode(8, out);
        }
        let ch = if x == 98 {
            '\u{8}'
        } else if x == 116 {
            '\t'
        } else if x == 110 {
            '\n'
        } else if x == 102 {
            '\u{c}'
        } else if x == 114 {
            '\r'
        } else if x == 34 {
            '"'
        } else if x == 92 {
            '\\'
        } else if x == 47 {
            '/'
        } else {
            return Err(self.err("invalid escape"));
        };
        push_char(out, ch);
        Ok(())
    }

    /// Reads one encoded character at the position.
    fn consume_utf8(&mut self, out: &mut String) -> (r: Result<(), Error>)
        requires
            old(self).wf(),
            old(self).pos < old(self).bytes@.len(),
        ensures
            final(self).wf(),
            final(self).bytes@ == old(self).bytes@,
            match consume(old(self).bytes@, old(self).cur(), old(out)@) {
                Ok((o, c)) => r is Ok && final(out)@ == o && final(self).cur() == c,
                Err(x) => r matches Err(e) && error_is(e, x),
            },
            r is Ok ==> final(self).pos > old(self).pos,
    {
        let x = self.bytes[self.pos];
        let n: usize = if x < 0xc0 {
            1
        } else if x < 0xe0 {
            2
        } else if x < 0xf0 {
            3
        } else {
            4
        };
        if n > self.bytes.len() - self.pos {
            return Err(self.err("invalid utf-8"));
        }
        match utf8_string(&self.bytes[self.pos..self.pos + n]) {
            Some(t) => {
                push_str(out, t.as_str());
                self.pos = self.pos + n;
                Ok(())
            },
            None => Err(self.err("invalid utf-8")),
        }
    }

    /// Reads a basic string whose quote is at the position.
    fn parse_basic_string(&mut self) -> (r: Result<String, Error>)
        requires
            old(self).wf(),
            old(self).pos < old(self).bytes@.len(),
        ensures
            final(self).wf(),
            final(self).bytes@ == old(self).bytes@,
            match basic(old(self).bytes@, old(self).cur()) {
                Ok((t, c)) => r matches Ok(s) && s@ == t && final(self).cur() == c,
                Err(x) => r matches Err(e) && error_is(e, x),
            },
            r is Ok ==> final(self).pos > old(self).pos,
    {
        let ghost b = self.bytes@;
        self.pos = self.pos + 1;
        let mut out = String::new();
        loop
            invariant
                self.wf(),
                self.bytes@ == b,
                b == old(self).bytes@,
                basic(b, old(self).cur()) == basic_tail(b, self.cur(), out@),
                self.pos > old(self).pos,
            decreases b.len() - self.pos,
        {
            if self.pos >= self.bytes.len() {
                return Err(self.err("unterminated string"));
            }
            let x = self.bytes[self.pos];
            if x == 34 {
                self.pos = self.pos + 1;
                return Ok(out);
            }
            if x == 10 {
                return Err(self.err("newline in string"));
            }
            if x == 92 {
                self.pos = self.pos + 1;
                match self.parse_escape(&mut out) {
                    Ok(()) => {},
                    Err(e) => return Err(e),
                }
            } else {
                match self.consume_utf8(&mut out) {
                    Ok(()) => {},
                    Err(e) => return Err(e),
                }
            }
        }
    }

    /// Reads a literal string whose quote is at the position.
    fn parse_literal_string(&mut self) -> (r: Result<String, Error>)
        requires
            old(self).wf(),
            old(self).pos < old(self).bytes@.len(),
        ensures
            final(self).wf(),
            final(self).bytes@ == old(self).bytes@,
            match literal(old(self).bytes@, old(self).cur()) {
                Ok((t, c)) => r matches Ok(s) && s@ == t && final(self).cur() == c,
                Err(x) => r matches Err(e) && error_is(e, x),
            },
            r is Ok ==> final(self).pos > old(self).pos,
    {
        let ghost b = self.bytes@;
        self.pos = self.pos + 1;
        let start = self.pos;
        while self.pos < self.bytes.len() && self.bytes[self.pos] != 39 && self.bytes[self.pos] != 10
            invariant
                self.wf(),
                self.bytes@ == b,
                b == old(self).bytes@,
                self.line == old(self).line,
                self.line_start == old(self).line_start,
                start == old(self).pos + 1,
                start <= self.pos,
                lit_end(b, start as int) == lit_end(b, self.pos as int),
            decreases b.len() - self.pos,
        {
            self.pos = self.pos + 1;
        }
        if self.pos >= self.bytes.len() {
            return Err(self.err("unterminated literal"));
        }
        if self.bytes[self.pos] == 10 {
            return Err(self.err("newline in literal"));
        }
        match utf8_string(&self.bytes[start..self.pos]) {
            Some(t) => {
                self.pos = self.pos + 1;
                Ok(t)
            },
            None => Err(self.err("invalid utf-8")),
        }
    }

    /// Moves past three quotes and a line end right after them.
    fn ml_open(&mut self)
        requires
            old(self).wf(),
            old(self).pos + 3 <= old(self).bytes@.len(),
        ensures
            final(self).wf(),
            final(self).bytes@ == old(self).bytes@,
            final(self).cur() == ml_open(old(self).bytes@, old(self).cur()),
    {
        self.pos = self.pos + 3;
        if self.has(0, 10) {
            self.newline(1);
        } else if self.has(0, 13) && self.has(1, 10) {
            self.newline(2);
        }
    }

    /// Whether the backslash at the position ends its line.
    fn is_line_ending_backslash(&self) -> (r: bool)
        requires
            self.wf(),
            self.pos < self.bytes@.len(),
        ensures
            r == eol_backslash(self.bytes@, self.pos as int),
    {
        let mut i = self.pos + 1;
        while i < self.bytes.len() && (self.bytes[i] == 32 || self.bytes[i] == 9)
            invariant
                self.pos + 1 <= i <= self.bytes@.len(),
                blank_end(self.bytes@, self.pos + 1) == blank_end(self.bytes@, i as int),
            decreases self.bytes@.len() - i,
        {
            i = i + 1;
        }
        byte_is(self.bytes, i, 10) || (byte_is(self.bytes, i, 13) && i + 1 < self.bytes.len() && self.bytes[i + 1] == 10)
    }

    fn skip_ws_newlines(&mut self)
        requires
            old(self).wf(),
        ensures
            final(self).wf(),
            final(self).bytes@ == old(self).bytes@,
            final(self).cur() == skip_ws_nl(old(self).bytes@, old(self).cur()),
            final(self).pos >= old(self).pos,
    {
        let ghost b = self.bytes@;
        loop
            invariant
                self.wf(),
                self.bytes@ == b,
                b == old(self).bytes@,
                skip_ws_nl(b, old(self).cur()) == skip_ws_nl(b, self.cur()),
                self.pos >= old(self).pos,
            decreases b.len() - self.pos,
        {
            if self.has(0, 32) || self.has(0, 9) {
                self.pos = self.pos + 1;
            } else if self.has(0, 10) {
                self.newline(1);
            } else if self.has(0, 13) && self.has(1, 10) {
                self.newline(2);
            } else {
                return;
            }
        }
    }

    /// Reads a multi-line basic string whose first quote is at the position.
    fn parse_multi_basic(&mut self) -> (r: Result<String, Error>)
        requires
            old(self).wf(),
            triple(old(self).bytes@, old(self).pos as int, 34),
        ensures
            final(self).wf(),
            final(self).bytes@ == old(self).bytes@,
            match ml_basic(old(self).bytes@, old(self).cur()) {
                Ok((t, c)) => r matches Ok(s) && s@ == t && final(self).cur() == c,
                Err(x) => r matches Err(e) && error_is(e, x),
            },
            r is Ok ==> final(self).pos > old(self).pos,
    {
        let ghost b = self.bytes@;
        self.ml_open();
        let mut out = String::new();
        loop
            invariant
                self.wf(),
                self.bytes@ == b,
                b == old(self).bytes@,
                ml_basic(b, old(self).cur()) == ml_basic_tail(b, self.cur(), out@),
                self.pos > old(self).pos,
            decreases b.len() - self.pos,
        {
            if self.has(0, 34) && self.has(1, 34) && self.has(2, 34) {
                self.pos = self.pos + 3;
                if self.has(0, 34) {
                    push_char(&mut out, '"');
                    self.pos = self.pos + 1;
                    if self.has(0, 34) {
                        push_char(&mut out, '"');
                        self.pos = self.pos + 1;
                    }
                }
                return Ok(out);
            }
            if self.pos >= self.bytes.len() {
                return Err(self.err("unterminated multi-line string"));
            }
            if self.bytes[self.pos] == 92 {
                if self.is_line_ending_backslash() {
                    self.pos = self.pos + 1;
                    self.skip_ws_newlines();
                    continue;
                }
                self.pos = self.pos + 1;
                match self.parse_escape(&mut out) {
                    Ok(()) => {},
                    Err(e) => return Err(e),
                }
            } else {
                match self.consume_utf8(&mut out) {
                    Ok(()) => {},
                    Err(e) => return Err(e),
                }
            }
        }
    }

    /// Reads a multi-line literal string whose first quote is at the position.
    fn parse_multi_literal(&mut self) -> (r: Result<String, Error>)
        requires
            old(self).wf(),
            triple(old(self).bytes@, old(self).pos as int, 39),
        ensures
            final(self).wf(),
            final(self).bytes@ == old(self).bytes@,
            match ml_lit(old(self).bytes@, old(self).cur()) {
                Ok((t, c)) => r matches Ok(s) && s@ == t && final(self).cur() == c,
                Err(x) => r matches Err(e) && error_is(e, x),
            },
            r is Ok ==> final(self).pos > old(self).pos,
    {
        let ghost b = self.bytes@;
        self.ml_open();
        let start = self.pos;
        loop
            invariant
                self.wf(),
                self.bytes@ == b,
                b == old(self).bytes@,
                start == ml_open(b, old(self).cur()).0,
                start <= self.pos,
                ml_lit(b, old(self).cur()) == ml_lit_tail(b, self.cur(), start as int),
                self.pos > old(self).pos,
            decreases b.len() - self.pos,
        {
            if self.has(0, 39) && self.has(1, 39) && self.has(2, 39) {
                let end = self.pos;
                self.pos = self.pos + 3;
                let mut s = match utf8_string(&self.bytes[start..end]) {
                    Some(s) => s,
                    None => return Err(self.err("invalid utf-8")),
                };
                if self.has(0, 39) {
                    push_char(&mut s, '\'');
                    self.pos = self.pos + 1;
                    if self.has(0, 39) {
                        push_char(&mut s, '\'');
                        self.pos = self.pos + 1;
                    }
                }
                return Ok(s);
            }
            if self.pos >= self.bytes.len() {
                return Err(self.err("unterminated multi-line literal"));
            }
            self.bump();
        }
    }
}

/// Bare keys end within the input, at or after their start.
proof fn lemma_bare_end(b: Seq<u8>, p: int)
    requires
        0 <= p <= b.len(),
    ensures
        p <= bare_end(b, p) <= b.len(),
    decreases b.len() - p,
{
    if p < b.len() && is_bare(b[p]) {
        lemma_bare_end(b, p + 1);
    }
}

impl<'a> Parser<'a> {
    /// Reads one key at the position.
    fn parse_key(&mut self) -> (r: Result<String, Error>)
        requires
            old(self).wf(),
        ensures
            final(self).wf(),
            final(self).bytes@ == old(self).bytes@,
            match key(old(self).bytes@, old(self).cur()) {
                Ok((k, c)) => r matches Ok(s) && s@ == k && final(self).cur() == c,
                Err(x) => r matches Err(e) && error_is(e, x),
            },
            r is Ok ==> final(self).pos > old(self).pos,
    {
        let ghost b = self.bytes@;
        if self.has(0, 34) {
            return self.parse_basic_string();
        }
        if self.has(0, 39) {
            return self.parse_literal_string();
        }
        if self.pos < self.bytes.len() && is_bare_key_char(self.bytes[self.pos]) {
            let start = self.pos;
            let mut out = String::new();
            assert(b.subrange(start as int, start as int) =~= Seq::<u8>::empty());
            while self.pos < self.bytes.len() && is_bare_key_char(self.bytes[self.pos])
                invariant
                    self.wf(),
                    self.bytes@ == b,
                    b == old(self).bytes@,
                    self.line == old(self).line,
                    self.line_start == old(self).line_start,
                    start == old(self).pos,
                    start <= self.pos,
                    bare_end(b, start as int) == bare_end(b, self.pos as int),
                    out@ == ascii_text(b.subrange(start as int, self.pos as int)),
                decreases b.len() - self.pos,
            {
                let x = self.bytes[self.pos];
                push_char(&mut out, x as char);
                assert(ascii_text(b.subrange(start as int, self.pos + 1)) =~= ascii_text(
                    b.subrange(start as int, self.pos as int),
                ).push(x as char));
                self.pos = self.pos + 1;
            }
            return Ok(out);
        }
        Err(self.err("expected key"))
    }

    /// Reads a dotted key at the position.
    fn parse_key_path(&mut self) -> (r: Result<Vec<String>, Error>)
        requires
            old(self).wf(),
        ensures
            final(self).wf(),
            final(self).bytes@ == old(self).bytes@,
            match key_path(old(self).bytes@, old(self).cur()) {
                Ok((ks, c)) => r matches Ok(v) && strs(v@) == ks && final(self).cur() == c,
                Err(x) => r matches Err(e) && error_is(e, x),
            },
            r matches Ok(v) ==> v@.len() > 0 && final(self).pos > old(self).pos,
    {
        let ghost b = self.bytes@;
        let k = match self.parse_key() {
            Ok(k) => k,
            Err(e) => return Err(e),
        };
        let mut keys: Vec<String> = Vec::new();
        keys.push(k);
        assert(strs(keys@) =~= seq![k@]);
        loop
            invariant
                self.wf(),
                self.bytes@ == b,
                b == old(self).bytes@,
                key_path(b, old(self).cur()) == key_rest(b, self.cur(), strs(keys@)),
                keys@.len() > 0,
                self.pos > old(self).pos,
            decreases b.len() - self.pos,
        {
            let ghost c = self.cur();
            self.skip_ws();
            if !self.has(0, 46) {
                return Ok(keys);
            }
            self.pos = self.pos + 1;
            self.skip_ws();
            let k = match self.parse_key() {
                Ok(k) => k,
                Err(e) => return Err(e),
            };
            let ghost before = strs(keys@);
            keys.push(k);
            assert(strs(keys@) =~= before.push(k@));
        }
    }

    /// Whether the bytes at the position start with `true`.
    fn at_true(&self) -> (r: bool)
        requires
            self.wf(),
        ensures
            r == starts(self.bytes@, self.pos as int, seq![116u8, 114u8, 117u8, 101u8]),
    {
        let r = self.has(0, 116) && self.has(1, 114) && self.has(2, 117) && self.has(3, 101);
        proof {
            let lit = seq![116u8, 114u8, 117u8, 101u8];
            if starts(self.bytes@, self.pos as int, lit) {
                assert(lit[0] == 116u8 && lit[1] == 114u8 && lit[2] == 117u8 && lit[3] == 101u8);
            }
        }
        r
    }

    /// Whether the bytes at the position start with `false`.
    fn at_false(&self) -> (r: bool)
        requires
            self.wf(),
        ensures
            r == starts(self.bytes@, self.pos as int, seq![102u8, 97u8, 108u8, 115u8, 101u8]),
    {
        let r = self.has(0, 102) && self.has(1, 97) && self.has(2, 108) && self.has(3, 115) && self.has(4, 101);
        proof {
            let lit = seq![102u8, 97u8, 108u8, 115u8, 101u8];
            if starts(self.bytes@, self.pos as int, lit) {
                assert(lit[0] == 102u8 && lit[1] == 97u8 && lit[2] == 108u8 && lit[3] == 115u8 && lit[4] == 101u8);
            }
        }
        r
    }

    /// Whether the bytes at the position start with `sign` (unless 0) and then
    /// three bytes `x`, `y`, `z`.
    fn at_word(&self, sign: u8, x: u8, y: u8, z: u8) -> (r: bool)
        requires
            self.wf(),
        ensures
            sign == 0 ==> r == starts(self.bytes@, self.pos as int, seq![x, y, z]),
            sign != 0 ==> r == starts(self.bytes@, self.pos as int, seq![sign, x, y, z]),
    {
        if sign == 0 {
            let r = self.has(0, x) && self.has(1, y) && self.has(2, z);
            proof {
                let lit = seq![x, y, z];
                if starts(self.bytes@, self.pos as int, lit) {
                    assert(lit[0] == x && lit[1] == y && lit[2] == z);
                }
            }
            r
        } else {
            let r = self.has(0, sign) && self.has(1, x) && self.has(2, y) && self.has(3, z);
            proof {
                let lit = seq![sign, x, y, z];
                if starts(self.bytes@, self.pos as int, lit) {
                    assert(lit[0] == sign && lit[1] == x && lit[2] == y && lit[3] == z);
                }
            }
            r
        }
    }

    fn parse_bool(&mut self) -> (r: Result<Value, Error>)
        requires
            old(self).wf(),
        ensures
            final(self).wf(),
            final(self).bytes@ == old(self).bytes@,
            match boolean(old(self).bytes@, old(self).cur()) {
                Ok((v, c)) => r matches Ok(x) && toml_of(x) == v && final(self).cur() == c,
                Err(x) => r matches Err(e) && error_is(e, x),
            },
            r is Ok ==> final(self).pos > old(self).pos,
    {
        if self.at_true() {
            self.pos = self.pos + 4;
            return Ok(Value::Boolean(true));
        }
        if self.at_false() {
            self.pos = self.pos + 5;
            return Ok(Value::Boolean(false));
        }
        Err(self.err("invalid bool"))
    }
}

/// Whether `x` may stand in a bare key.
fn is_bare_key_char(x: u8) -> (r: bool)
    ensures
        r == is_bare(x),
{
    (97 <= x && x <= 122) || (65 <= x && x <= 90) || (48 <= x && x <= 57) || x == 95 || x == 45
}

/// `s` without underscores, from position `from` on.
fn drop_us(s: &Vec<char>, from: usize) -> (r: Vec<char>)
    requires
        from <= s@.len(),
    ensures
        r@ == drop_underscores(s@.skip(from as int)),
{
    let mut r: Vec<char> = Vec::new();
    let mut i = from;
    assert(s@.subrange(from as int, from as int) =~= Seq::<char>::empty());
    while i < s.len()
        invariant
            from <= i <= s@.len(),
            r@ == drop_underscores(s@.subrange(from as int, i as int)),
        decreases s@.len() - i,
    {
        assert(s@.subrange(from as int, i + 1).drop_last() =~= s@.subrange(from as int, i as int));
        if s[i] != '_' {
            r.push(s[i]);
        }
        i = i + 1;
    }
    assert(s@.subrange(from as int, s@.len() as int) =~= s@.skip(from as int));
    r
}

/// The value of digit `c` in base `radix`.
fn radix_digit_exec(c: char, radix: u32) -> (r: Option<u32>)
    ensures
        match radix_digit(c, radix as nat) {
            Some(d) => r == Some(d as u32),
            None => r is None,
        },
{
    let d: u32 = if '0' <= c && c <= '9' {
        (c as u32) - 48
    } else if 'a' <= c && c <= 'z' {
        (c as u32) - 87
    } else if 'A' <= c && c <= 'Z' {
        (c as u32) - 55
    } else {
        99
    };
    if d < radix {
        Some(d)
    } else {
        None
    }
}

/// A prefix of digits is worth no more than the whole run.
proof fn lemma_digits_prefix(s: Seq<char>, radix: nat, k: int)
    requires
        0 <= k <= s.len(),
        radix >= 1,
        digits_val(s, radix) is Some,
    ensures
        digits_val(s.take(k), radix) is Some,
        digits_val(s.take(k), radix)->Some_0 <= digits_val(s, radix)->Some_0,
    decreases s.len(),
{
    if k == s.len() {
        assert(s.take(k) =~= s);
    } else {
        let a = digits_val(s.drop_last(), radix)->Some_0;
        let d = radix_digit(s.last(), radix)->Some_0;
        lemma_digits_prefix(s.drop_last(), radix, k);
        assert(s.drop_last().take(k) =~= s.take(k));
        assert(a * radix + d >= a) by (nonlinear_arith)
            requires
                radix >= 1,
        ;
    }
}

/// Where a prefix of `s` holds a non-digit, `s` has no value.
proof fn lemma_digits_none(s: Seq<char>, radix: nat, k: int)
    requires
        0 < k <= s.len(),
        digits_val(s.take(k), radix) is None,
    ensures
        digits_val(s, radix) is None,
    decreases s.len() - k,
{
    if k < s.len() {
        assert(s.take(k + 1).drop_last() =~= s.take(k));
        lemma_digits_none(s, radix, k + 1);
    } else {
        assert(s.take(k) =~= s);
    }
}

/// The value of `t` as `i64::from_str_radix(t, radix)` reads it.
fn from_radix_exec(t: &Vec<char>, radix: u32) -> (r: Option<i64>)
    requires
        2 <= radix <= 16,
    ensures
        r == from_radix(t@, radix as nat),
{
    if t.len() == 0 {
        return None;
    }
    let has_sign = t[0] == '+' || t[0] == '-';
    if has_sign && t.len() == 1 {
        return None;
    }
    let neg = t[0] == '-';
    let start: usize = if has_sign { 1 } else { 0 };
    let ghost body = if has_sign { t@.drop_first() } else { t@ };
    assert(body =~= t@.skip(start as int));
    let mut acc: u128 = 0;
    let mut i = start;
    assert(body.take(0) =~= Seq::<char>::empty());
    while i < t.len()
        invariant
            start <= i <= t@.len(),
            body == t@.skip(start as int),
            digits_val(body.take(i - start), radix as nat) == Some(acc as nat),
            acc <= 0x8000_0000_0000_0000,
            2 <= radix <= 16,
            t@.len() > 0,
            has_sign == (t@[0] == '+' || t@[0] == '-'),
            start == (if has_sign { 1usize } else { 0usize }),
            !(has_sign && t@.len() == 1),
            body == if has_sign { t@.drop_first() } else { t@ },
        decreases t@.len() - i,
    {
        assert(body.take(i + 1 - start).drop_last() =~= body.take(i - start));
        assert(body.take(i + 1 - start).last() == t@[i as int]);
        let d = match radix_digit_exec(t[i], radix) {
            Some(d) => d,
            None => {
                proof {
                    lemma_digits_none(body, radix as nat, i + 1 - start);
                }
                return None;
            },
        };
        assert(acc * (radix as u128) <= 0x8000_0000_0000_0000u128 * 16) by (nonlinear_arith)
            requires
                acc <= 0x8000_0000_0000_0000u128,
                radix <= 16,
        ;
        acc = acc * (radix as u128) + (d as u128);
        i = i + 1;
        if acc > 0x8000_0000_0000_0000 {
            proof {
                if digits_val(body, radix as nat) is Some {
                    lemma_digits_prefix(body, radix as nat, i - start);
                }
            }
            return None;
        }
    }
    assert(body.take(i - start) =~= body);
    if neg {
        if acc == 0x8000_0000_0000_0000 {
            Some(i64::MIN)
        } else {
            let m = acc as i64;
            Some(-m)
        }
    } else {
        if acc <= 0x7fff_ffff_ffff_ffff {
            Some(acc as i64)
        } else {
            None
        }
    }
}

/// Whether `c` occurs in `t`.
fn has_char(t: &Vec<char>, c: char) -> (r: bool)
    ensures
        r == t@.contains(c),
{
    let mut i: usize = 0;
    while i < t.len()
        invariant
            i <= t@.len(),
            forall|j: int| 0 <= j < i ==> t@[j] != c,
        decreases t@.len() - i,
    {
        if t[i] == c {
            return true;
        }
        i = i + 1;
    }
    false
}

/// The position of the first `c` in `t`, or the length.
fn first_index(t: &Vec<char>, c: char) -> (r: usize)
    ensures
        r as int == first_of(t@, c),
        r <= t@.len(),
{
    let mut i: usize = 0;
    while i < t.len()
        invariant
            i <= t@.len(),
            forall|j: int| 0 <= j < i ==> t@[j] != c,
        decreases t@.len() - i,
    {
        if t[i] == c {
            proof {
                lemma_first_of(t@, c, i as int);
            }
            return i;
        }
        i = i + 1;
    }
    proof {
        lemma_first_of(t@, c, i as int);
    }
    i
}

proof fn lemma_first_of(s: Seq<char>, c: char, i: int)
    requires
        0 <= i <= s.len(),
        forall|j: int| 0 <= j < i ==> s[j] != c,
        i < s.len() ==> s[i] == c,
    ensures
        first_of(s, c) == i,
    decreases i,
{
    if i > 0 {
        lemma_first_of(s.drop_first(), c, i - 1);
    }
}

/// The end of the run of digits at `k` in `u`.
fn digit_end_exec(u: &Vec<char>, k: usize) -> (r: usize)
    requires
        k <= u@.len(),
    ensures
        r as int == digit_end(u@, k as int),
        k <= r <= u@.len(),
{
    let mut i = k;
    while i < u.len() && '0' <= u[i] && u[i] <= '9'
        invariant
            k <= i <= u@.len(),
            digit_end(u@, k as int) == digit_end(u@, i as int),
        decreases u@.len() - i,
    {
        i = i + 1;
    }
    i
}

/// Whether `u` is a decimal number, as `decimal` says.
fn decimal_exec(u: &Vec<char>) -> (r: bool)
    ensures
        r == decimal(u@),
{
    let m = digit_end_exec(u, 0);
    let dot = m < u.len() && u[m] == '.';
    let f = if dot { digit_end_exec(u, m + 1) } else { m };
    let nd = if dot { f - 1 } else { m };
    if nd == 0 {
        return false;
    }
    if f == u.len() {
        return true;
    }
    if !(u[f] == 'e' || u[f] == 'E') {
        return false;
    }
    let k2 = if f + 1 < u.len() && (u[f + 1] == '+' || u[f + 1] == '-') { f + 2 } else { f + 1 };
    let k3 = digit_end_exec(u, k2);
    k3 > k2 && k3 == u.len()
}

/// ASCII lower case of `c`.
fn lower_exec(c: char) -> (r: char)
    ensures
        r == lower(c),
{
    if 'A' <= c && c <= 'Z' {
        let x = c as u8;
        ((x + 32) as char)
    } else {
        c
    }
}

/// Whether `u` is the word `w`, ignoring ASCII case.
fn word_ci_exec(u: &Vec<char>, w: &str) -> (r: bool)
    ensures
        r == word_ci(u@, w@),
{
    let wv = to_chars(w);
    if u.len() != wv.len() {
        return false;
    }
    let mut i: usize = 0;
    while i < u.len()
        invariant
            i <= u@.len(),
            u@.len() == wv@.len(),
            wv@ == w@,
            forall|j: int| 0 <= j < i ==> lower(#[trigger] u@[j]) == wv@[j],
        decreases u@.len() - i,
    {
        if lower_exec(u[i]) != wv[i] {
            return false;
        }
        i = i + 1;
    }
    true
}

/// Whether `t` reads as an `f64`, as `f64_text` says.
fn f64_text_exec(t: &Vec<char>) -> (r: bool)
    ensures
        r == f64_text(t@),
{
    let start: usize = if t.len() > 0 && (t[0] == '+' || t[0] == '-') { 1 } else { 0 };
    let u = copy_range(t.as_slice(), start, t.len());
    assert(u@ =~= if t@.len() > 0 && (t@[0] == '+' || t@[0] == '-') { t@.drop_first() } else { t@ });
    word_ci_exec(&u, "inf") || word_ci_exec(&u, "infinity") || word_ci_exec(&u, "nan") || decimal_exec(&u)
}

/// Whether the dot of a float has a character before it and a digit after it.
fn dot_ok_exec(t: &Vec<char>) -> (r: bool)
    ensures
        r == dot_ok(t@),
{
    let fe = first_index(t, 'e');
    let fbig = first_index(t, 'E');
    let ml = if fe < fbig { fe } else { fbig };
    let m = copy_range(t.as_slice(), 0, ml);
    assert(m@ =~= mantissa(t@));
    let d = first_index(&m, '.');
    d != 0 && m.len() > 0 && d != m.len() - 1 && d < m.len() - 1 && '0' <= m[d + 1] && m[d + 1] <= '9'
}

/// Whether `t` is the text `w` (three characters).
fn is_word3(t: &Vec<char>, w: &str) -> (r: bool)
    ensures
        r == (t@ == w@),
{
    let wv = to_chars(w);
    if t.len() != wv.len() {
        return false;
    }
    let mut i: usize = 0;
    while i < t.len()
        invariant
            i <= t@.len(),
            t@.len() == wv@.len(),
            wv@ == w@,
            forall|j: int| 0 <= j < i ==> t@[j] == wv@[j],
        decreases t@.len() - i,
    {
        if t[i] != wv[i] {
            return false;
        }
        i = i + 1;
    }
    assert(t@ =~= wv@);
    true
}

/// Reads a number token, as `number` says.
fn parse_number(raw: &str) -> (r: Result<Value, &'static str>)
    ensures
        match number(raw@) {
            Ok(v) => r matches Ok(x) && toml_of(x) == v,
            Err(m) => r matches Err(x) && x@ == m,
        },
{
    let v = to_chars(raw);
    let mut lo: usize = 0;
    while lo < v.len() && is_whitespace(v[lo])
        invariant
            lo <= v@.len(),
            ws_end(v@, 0) == ws_end(v@, lo as int),
        decreases v@.len() - lo,
    {
        lo = lo + 1;
    }
    let mut hi: usize = v.len();
    while hi > lo && is_whitespace(v[hi - 1])
        invariant
            lo <= hi <= v@.len(),
            ws_back(v@, lo as int, v@.len() as int) == ws_back(v@, lo as int, hi as int),
        decreases hi,
    {
        hi = hi - 1;
    }
    let s = copy_range(v.as_slice(), lo, hi);
    assert(s@ == trim(raw@));
    if s.len() == 0 {
        return Err("empty number");
    }
    let neg = s[0] == '-';
    let rs: usize = if s[0] == '+' || s[0] == '-' { 1 } else { 0 };
    let ghost rest = if s@[0] == '+' || s@[0] == '-' { s@.drop_first() } else { s@ };
    assert(rest =~= s@.skip(rs as int));
    let has_prefix = rs + 1 < s.len() && s[rs] == '0';
    if has_prefix && (s[rs + 1] == 'x' || s[rs + 1] == 'o' || s[rs + 1] == 'b') {
        let digits = drop_us(&s, rs + 2);
        assert(s@.skip(rs + 2) =~= rest.skip(2));
        let radix: u32 = if s[rs + 1] == 'x' { 16 } else if s[rs + 1] == 'o' { 8 } else { 2 };
        return match from_radix_exec(&digits, radix) {
            Some(n) => {
                let x = if !neg {
                    n
                } else if n == i64::MIN {
                    n
                } else {
                    -n
                };
                Ok(Value::Integer(x))
            },
            None => if radix == 16 {
                Err("bad hex")
            } else if radix == 8 {
                Err("bad oct")
            } else {
                Err("bad bin")
            },
        };
    }
    let cleaned = drop_us(&s, 0);
    assert(s@.skip(0) =~= s@);
    let has_dot = has_char(&cleaned, '.');
    if has_dot || has_char(&cleaned, 'e') || has_char(&cleaned, 'E') || is_word3(&cleaned, "inf") || is_word3(
        &cleaned,
        "nan",
    ) {
        if f64_text_exec(&cleaned) && (!has_dot || dot_ok_exec(&cleaned)) {
            return Ok(Value::Float(from_chars(cleaned.as_slice())));
        } else {
            return Err("bad float");
        }
    }
    match from_radix_exec(&cleaned, 10) {
        Some(n) => Ok(Value::Integer(n)),
        None => Err("bad int"),
    }
}

/// The result of reading a value, against its model.
pub open spec fn value_res(r: Result<Value, Error>, m: Result<(Toml, Cur), TErr>, c: Cur) -> bool {
    match m {
        Ok((v, c2)) => r matches Ok(x) && toml_of(x) == v && c == c2,
        Err(x) => r matches Err(e) && error_is(e, x),
    }
}

/// Whether `b[lo..hi]` is a date or a time, as `is_datetime` says.
fn is_datetime_exec(b: &[u8], lo: usize, hi: usize) -> (r: bool)
    requires
        lo <= hi <= b@.len(),
    ensures
        r == is_datetime(b@.subrange(lo as int, hi as int)),
{
    let n = hi - lo;
    let dig = |i: usize| -> (r: bool)
        requires
            i < b@.len(),
        ensures
            r == digit_byte(b@[i as int]),
        { 48 <= b[i] && b[i] <= 57 };
    (n >= 10 && b[lo + 4] == 45 && b[lo + 7] == 45 && dig(lo) && dig(lo + 1) && dig(lo + 2) && dig(lo + 3))
        || (n >= 8 && b[lo + 2] == 58 && b[lo + 5] == 58 && dig(lo) && dig(lo + 1))
}

impl<'a> Parser<'a> {
    /// The end of the value token at the position.
    fn scan_value_token(&self) -> (r: usize)
        requires
            self.wf(),
        ensures
            r as int == token_end(self.bytes@, self.pos as int),
            self.pos <= r <= self.bytes@.len(),
    {
        let mut i = self.pos;
        while i < self.bytes.len() && !(self.bytes[i] == 10 || self.bytes[i] == 13 || self.bytes[i] == 44
            || self.bytes[i] == 93 || self.bytes[i] == 125 || self.bytes[i] == 35)
            invariant
                self.pos <= i <= self.bytes@.len(),
                scan_end(self.bytes@, self.pos as int) == scan_end(self.bytes@, i as int),
            decreases self.bytes@.len() - i,
        {
            i = i + 1;
        }
        let ghost e = i;
        while i > self.pos && (self.bytes[i - 1] == 32 || self.bytes[i - 1] == 9)
            invariant
                self.pos <= i <= e <= self.bytes@.len(),
                e == scan_end(self.bytes@, self.pos as int),
                trim_back(self.bytes@, self.pos as int, e as int) == trim_back(self.bytes@, self.pos as int, i as int),
            decreases i,
        {
            i = i - 1;
        }
        i
    }

    fn parse_number_or_datetime(&mut self) -> (r: Result<Value, Error>)
        requires
            old(self).wf(),
        ensures
            final(self).wf(),
            final(self).bytes@ == old(self).bytes@,
            value_res(r, num_or_date(old(self).bytes@, old(self).cur()), final(self).cur()),
            r is Ok ==> final(self).pos > old(self).pos,
    {
        let ghost b = self.bytes@;
        let start = self.pos;
        if self.at_word(0, 105, 110, 102) {
            self.pos = self.pos + 3;
            return Ok(Value::Float("inf".to_owned()));
        }
        if self.at_word(43, 105, 110, 102) {
            self.pos = self.pos + 4;
            return Ok(Value::Float("+inf".to_owned()));
        }
        if self.at_word(45, 105, 110, 102) {
            self.pos = self.pos + 4;
            return Ok(Value::Float("-inf".to_owned()));
        }
        if self.at_word(0, 110, 97, 110) {
            self.pos = self.pos + 3;
            return Ok(Value::Float("nan".to_owned()));
        }
        if self.at_word(43, 110, 97, 110) {
            self.pos = self.pos + 4;
            return Ok(Value::Float("+nan".to_owned()));
        }
        if self.at_word(45, 110, 97, 110) {
            self.pos = self.pos + 4;
            return Ok(Value::Float("-nan".to_owned()));
        }
        let end = self.scan_value_token();
        let raw = match utf8_string(&self.bytes[start..end]) {
            Some(raw) => raw,
            None => return Err(self.err("invalid utf-8")),
        };
        let line = self.line;
        let col = start - self.line_start + 1;
        self.pos = end;
        if is_datetime_exec(self.bytes, start, end) {
            if end == start {
                assert(b.subrange(start as int, end as int).len() == 0);
            }
            return Ok(Value::Datetime(raw));
        }
        match parse_number(raw.as_str()) {
            Ok(v) => {
                if end == start {
                    proof {
                        lemma_empty_text(b.subrange(start as int, end as int));
                    }
                }
                Ok(v)
            },
            Err(m) => Err(Error { line, col, msg: m.to_owned() }),
        }
    }
}

/// Empty bytes are the empty text, which reads as no number.
proof fn lemma_empty_text(s: Seq<u8>)
    requires
        s.len() == 0,
    ensures
        utf8_text(s) matches Some(t) ==> number(t) is Err,
{
    if valid_utf8(s) {
        let t = decode_utf8(s);
        assert(t.len() == 0);
        assert(trim(t).len() == 0);
    }
}

impl<'a> Parser<'a> {
    /// Reads a value at the position.
    fn parse_value(&mut self, Ghost(fuel): Ghost<nat>) -> (r: Result<Value, Error>)
        requires
            old(self).wf(),
            fuel >= old(self).bytes@.len() - old(self).pos + 1,
        ensures
            final(self).wf(),
            final(self).bytes@ == old(self).bytes@,
            value_res(r, value(old(self).bytes@, old(self).cur(), fuel), final(self).cur()),
            r is Ok ==> final(self).pos > old(self).pos,
        decreases fuel, 1int,
    {
        if self.has(0, 34) {
            let r = if self.has(1, 34) && self.has(2, 34) {
                self.parse_multi_basic()
            } else {
                self.parse_basic_string()
            };
            return match r {
                Ok(s) => Ok(Value::String(s)),
                Err(e) => Err(e),
            };
        }
        if self.has(0, 39) {
            let r = if self.has(1, 39) && self.has(2, 39) {
                self.parse_multi_literal()
            } else {
                self.parse_literal_string()
            };
            return match r {
                Ok(s) => Ok(Value::String(s)),
                Err(e) => Err(e),
            };
        }
        if self.has(0, 91) {
            return self.parse_array(Ghost((fuel - 1) as nat));
        }
        if self.has(0, 123) {
            return self.parse_inline_table(Ghost((fuel - 1) as nat));
        }
        if self.has(0, 116) || self.has(0, 102) {
            return self.parse_bool();
        }
        self.parse_number_or_datetime()
    }

    /// Reads an array whose `[` is at the position.
    fn parse_array(&mut self, Ghost(fuel): Ghost<nat>) -> (r: Result<Value, Error>)
        requires
            old(self).wf(),
            at(old(self).bytes@, old(self).pos as int, 91),
            fuel >= old(self).bytes@.len() - old(self).pos,
        ensures
            final(self).wf(),
            final(self).bytes@ == old(self).bytes@,
            value_res(
                r,
                array_items(old(self).bytes@, (old(self).pos + 1, old(self).line as int, old(self).line_start as int), Seq::empty(), fuel),
                final(self).cur(),
            ),
            r is Ok ==> final(self).pos > old(self).pos,
        decreases fuel, 2int,
    {
        let ghost b = self.bytes@;
        self.pos = self.pos + 1;
        let ghost target = array_items(b, self.cur(), Seq::empty(), fuel);
        let mut arr: Vec<Value> = Vec::new();
        assert(items(arr@) =~= Seq::<Toml>::empty());
        loop
            invariant
                self.wf(),
                self.bytes@ == b,
                b == old(self).bytes@,
                target == array_items(b, (old(self).pos + 1, old(self).line as int, old(self).line_start as int), Seq::empty(), fuel),
                target == array_items(b, self.cur(), items(arr@), fuel),
                fuel >= b.len() - self.pos + 1,
                self.pos > old(self).pos,
            decreases b.len() - self.pos,
        {
            let ghost c = self.cur();
            let ghost acc = items(arr@);
            self.skip_wsc();
            if self.has(0, 93) {
                self.pos = self.pos + 1;
                proof {
                    lemma_toml_array(arr);
                }
                return Ok(Value::Array(arr));
            }
            let v = match self.parse_value(Ghost(fuel)) {
                Ok(v) => v,
                Err(e) => return Err(e),
            };
            arr.push(v);
            assert(items(arr@) =~= acc.push(toml_of(v)));
            self.skip_wsc();
            if self.has(0, 44) {
                self.pos = self.pos + 1;
            } else if self.has(0, 93) {
                self.pos = self.pos + 1;
                proof {
                    lemma_toml_array(arr);
                }
                return Ok(Value::Array(arr));
            } else {
                return Err(self.err("expected , or ]"));
            }
        }
    }

    /// Reads an inline table whose `{` is at the position.
    fn parse_inline_table(&mut self, Ghost(fuel): Ghost<nat>) -> (r: Result<Value, Error>)
        requires
            old(self).wf(),
            at(old(self).bytes@, old(self).pos as int, 123),
            fuel >= old(self).bytes@.len() - old(self).pos,
        ensures
            final(self).wf(),
            final(self).bytes@ == old(self).bytes@,
            value_res(r, inline_table(old(self).bytes@, old(self).cur(), fuel), final(self).cur()),
            r is Ok ==> final(self).pos > old(self).pos,
        decreases fuel, 3int,
    {
        let ghost b = self.bytes@;
        self.pos = self.pos + 1;
        self.skip_ws();
        let mut t: Vec<(String, Value)> = Vec::new();
        proof {
            lemma_toml_table(t);
            assert(entries(t@) =~= Seq::empty());
        }
        if self.has(0, 125) {
            self.pos = self.pos + 1;
            return Ok(Value::Table(t));
        }
        let ghost target = table_items(b, self.cur(), Seq::empty(), fuel);
        assert(target == inline_table(b, old(self).cur(), fuel));
        loop
            invariant
                self.wf(),
                self.bytes@ == b,
                b == old(self).bytes@,
                target == inline_table(b, old(self).cur(), fuel),
                target == table_items(b, self.cur(), entries(t@), fuel),
                fuel >= b.len() - self.pos + 1,
                self.pos > old(self).pos,
            decreases b.len() - self.pos,
        {
            match self.parse_table_entry(&mut t, Ghost(fuel)) {
                Ok(true) => {
                    proof {
                        lemma_toml_table(t);
                    }
                    return Ok(Value::Table(t));
                },
                Ok(false) => {},
                Err(e) => return Err(e),
            }
        }
    }

    /// Reads one `key = value` of an inline table into `t`, and the `,` or `}` after
    /// it; says whether that was the `}`.
    fn parse_table_entry(&mut self, t: &mut Vec<(String, Value)>, Ghost(fuel): Ghost<nat>) -> (r: Result<bool, Error>)
        requires
            old(self).wf(),
            fuel >= old(self).bytes@.len() - old(self).pos + 1,
        ensures
            final(self).wf(),
            final(self).bytes@ == old(self).bytes@,
            match table_entry(old(self).bytes@, old(self).cur(), entries(old(t)@), fuel) {
                Ok((t2, c2, done)) => r == Ok::<bool, Error>(done) && entries(final(t)@) == t2 && final(self).cur() == c2,
                Err(x) => r matches Err(e) && error_is(e, x),
            },
            r is Ok ==> final(self).pos > old(self).pos,
        decreases fuel, 2int,
    {
        self.skip_ws();
        let keys = match self.parse_key_path() {
            Ok(k) => k,
            Err(e) => return Err(e),
        };
        self.skip_ws();
        if !self.has(0, 61) {
            return Err(self.err("expected ="));
        }
        self.pos = self.pos + 1;
        self.skip_ws();
        let v = match self.parse_value(Ghost(fuel)) {
            Ok(v) => v,
            Err(e) => return Err(e),
        };
        match inline_exec(t, &keys, 0, v) {
            Ok(()) => {},
            Err(m) => return Err(self.err(m)),
        }
        self.skip_ws();
        if self.has(0, 44) {
            self.pos = self.pos + 1;
            Ok(false)
        } else if self.has(0, 125) {
            self.pos = self.pos + 1;
            Ok(true)
        } else {
            Err(self.err("expected , or }"))
        }
    }
}

impl<'a> Parser<'a> {
    /// Defines the table of a `[table]` header, as `table_header` says.
    fn define_table_header(&self, root: &mut Vec<(String, Value)>, keys: &Vec<String>, defined: &mut Vec<String>, arrays: &Vec<String>) -> (r: Result<(), Error>)
        requires
            self.wf(),
        ensures
            match table_header(entries(old(root)@), strs(keys@), strs(old(defined)@), strs(arrays@)) {
                Ok((n, d)) => r is Ok && entries(final(root)@) == n && strs(final(defined)@) == d,
                Err(m) => r matches Err(e) && error_is(e, err_at(self.cur(), m)),
            },
    {
        let joined = join_path(keys, keys.len());
        assert(strs(keys@).take(keys@.len() as int) =~= strs(keys@));
        if holds(defined, &joined) {
            return Err(self.err("duplicate table"));
        }
        let ghost d0 = strs(defined@);
        defined.push(joined);
        assert(strs(defined@) =~= d0.push(joined@));
        match walk_table_exec(root, keys, 0, arrays) {
            Ok(()) => Ok(()),
            Err(m) => Err(self.err(m)),
        }
    }

    /// Adds a table to the array of a `[[array]]` header, as `array_header` says.
    fn define_array_header(&self, root: &mut Vec<(String, Value)>, keys: &Vec<String>, arrays: &mut Vec<String>) -> (r: Result<(), Error>)
        requires
            self.wf(),
        ensures
            match array_header(entries(old(root)@), strs(keys@), strs(old(arrays)@)) {
                Ok((n, a)) => r is Ok && entries(final(root)@) == n && strs(final(arrays)@) == a,
                Err(m) => r matches Err(e) && error_is(e, err_at(self.cur(), m)),
            },
    {
        let added = match walk_array_exec(root, keys, 0, arrays) {
            Ok(a) => a,
            Err(m) => return Err(self.err(m)),
        };
        if added {
            let joined = join_path(keys, keys.len());
            assert(strs(keys@).take(keys@.len() as int) =~= strs(keys@));
            let ghost a0 = strs(arrays@);
            arrays.push(joined);
            assert(strs(arrays@) =~= a0.push(joined@));
        }
        Ok(())
    }

    /// Reads a header line whose `[` is at the position, and applies it.
    fn handle_header(&mut self, root: &mut Vec<(String, Value)>, defined: &mut Vec<String>, arrays: &mut Vec<String>, path: &mut Vec<String>, is_array: &mut bool) -> (r: Result<(), Error>)
        requires
            old(self).wf(),
            at(old(self).bytes@, old(self).pos as int, 91),
        ensures
            final(self).wf(),
            final(self).bytes@ == old(self).bytes@,
            match header(old(self).bytes@, old(self).cur(), (entries(old(root)@), strs(old(defined)@), strs(old(arrays)@), strs(old(path)@), *old(is_array))) {
                Ok((st, c)) => r is Ok && st == (entries(final(root)@), strs(final(defined)@), strs(final(arrays)@), strs(final(path)@), *final(is_array)) && final(self).cur() == c,
                Err(x) => r matches Err(e) && error_is(e, x),
            },
            r is Ok ==> final(self).pos > old(self).pos,
    {
        self.pos = self.pos + 1;
        let is_arr = self.has(0, 91);
        if is_arr {
            self.pos = self.pos + 1;
        }
        self.skip_ws();
        let keys = match self.parse_key_path() {
            Ok(k) => k,
            Err(e) => return Err(e),
        };
        self.skip_ws();
        if !self.has(0, 93) {
            return Err(self.err("expected ]"));
        }
        self.pos = self.pos + 1;
        if is_arr {
            if !self.has(0, 93) {
                return Err(self.err("expected ]]"));
            }
            self.pos = self.pos + 1;
        }
        match self.skip_line_end() {
            Ok(()) => {},
            Err(e) => return Err(e),
        }
        if is_arr {
            match self.define_array_header(root, &keys, arrays) {
                Ok(()) => {},
                Err(e) => return Err(e),
            }
        } else {
            match self.define_table_header(root, &keys, defined, arrays) {
                Ok(()) => {},
                Err(e) => return Err(e),
            }
        }
        *path = keys;
        *is_array = is_arr;
        Ok(())
    }

    /// Reads a `key = value` line at the position into the table of the current header.
    fn parse_keyval_into(&mut self, root: &mut Vec<(String, Value)>, defined: &mut Vec<String>, arrays: &Vec<String>, path: &Vec<String>, is_array: bool) -> (r: Result<(), Error>)
        requires
            old(self).wf(),
        ensures
            final(self).wf(),
            final(self).bytes@ == old(self).bytes@,
            match keyval_line(old(self).bytes@, old(self).cur(), (entries(old(root)@), strs(old(defined)@), strs(arrays@), strs(path@), is_array)) {
                Ok((st, c)) => r is Ok && st == (entries(final(root)@), strs(final(defined)@), strs(arrays@), strs(path@), is_array) && final(self).cur() == c,
                Err(x) => r matches Err(e) && error_is(e, x),
            },
            r is Ok ==> final(self).pos > old(self).pos,
    {
        let keys = match self.parse_key_path() {
            Ok(k) => k,
            Err(e) => return Err(e),
        };
        self.skip_ws();
        if !self.has(0, 61) {
            return Err(self.err("expected ="));
        }
        self.pos = self.pos + 1;
        self.skip_ws();
        let ghost fuel = (self.bytes@.len() - self.pos + 1) as nat;
        let value = match self.parse_value(Ghost(fuel)) {
            Ok(v) => v,
            Err(e) => return Err(e),
        };
        match keyval_exec(root, path, 0, is_array, &keys, value, defined) {
            Ok(()) => {},
            Err(m) => return Err(self.err(m)),
        }
        self.skip_line_end()
    }

    /// Reads the document from the position.
    fn parse_document(&mut self) -> (r: Result<Value, Error>)
        requires
            old(self).wf(),
        ensures
            match doc(old(self).bytes@, old(self).cur(), (Seq::empty(), Seq::empty(), Seq::empty(), Seq::empty(), false)) {
                Ok(t) => r matches Ok(v) && toml_of(v) == Toml::Tab(t),
                Err(x) => r matches Err(e) && error_is(e, x),
            },
    {
        let ghost b = self.bytes@;
        let mut root: Vec<(String, Value)> = Vec::new();
        let mut defined: Vec<String> = Vec::new();
        let mut arrays: Vec<String> = Vec::new();
        let mut path: Vec<String> = Vec::new();
        let mut is_array = false;
        assert(entries(root@) =~= Seq::empty());
        assert(strs(defined@) =~= Seq::empty());
        assert(strs(arrays@) =~= Seq::empty());
        assert(strs(path@) =~= Seq::empty());
        let ghost target = doc(b, self.cur(), (Seq::empty(), Seq::empty(), Seq::empty(), Seq::empty(), false));
        loop
            invariant
                self.wf(),
                self.bytes@ == b,
                b == old(self).bytes@,
                target == doc(b, old(self).cur(), (Seq::empty(), Seq::empty(), Seq::empty(), Seq::empty(), false)),
                target == doc(b, self.cur(), (entries(root@), strs(defined@), strs(arrays@), strs(path@), is_array)),
            decreases b.len() - self.pos,
        {
            self.skip_wsc();
            if self.pos >= self.bytes.len() {
                proof {
                    lemma_toml_table(root);
                }
                return Ok(Value::Table(root));
            }
            if self.has(0, 91) {
                match self.handle_header(&mut root, &mut defined, &mut arrays, &mut path, &mut is_array) {
                    Ok(()) => {},
                    Err(e) => return Err(e),
                }
            } else {
                match self.parse_keyval_into(&mut root, &mut defined, &arrays, &path, is_array) {
                    Ok(()) => {},
                    Err(e) => return Err(e),
                }
            }
        }
    }
}

/// Parses a TOML document into its root table.
pub fn from_str(s: &str) -> (r: Result<Value, Error>)
    requires
        s.spec_bytes().len() < usize::MAX,
    ensures
        match spec_from_str(s.spec_bytes()) {
            Ok(t) => r matches Ok(v) && toml_of(v) == Toml::Tab(t),
            Err(x) => r matches Err(e) && error_is(e, x),
        },
        r matches Ok(v) ==> sorted_deep(toml_of(v)),
{
    let mut p = Parser { bytes: s.as_bytes(), pos: 0, line: 1, line_start: 0 };
    proof {
        lemma_parsed_tables_sorted(s.spec_bytes());
    }
    p.parse_document()
}

/// A value read has only sorted tables.
pub proof fn lemma_value_ok(b: Seq<u8>, c: Cur, fuel: nat)
    ensures
        value(b, c, fuel) matches Ok((v, _)) ==> sorted_deep(v),
    decreases fuel, 1int,
{
    if at(b, c.0, 91) {
        if fuel > 0 {
            lemma_arr_ok(Seq::empty());
            lemma_array_items_ok(b, (c.0 + 1, c.1, c.2), Seq::empty(), (fuel - 1) as nat);
        }
    } else if at(b, c.0, 123) {
        if fuel > 0 {
            lemma_empty_ok();
            let p = blank_end(b, c.0 + 1);
            lemma_table_items_ok(b, (p, c.1, c.2), Seq::empty(), (fuel - 1) as nat);
        }
    }
}

/// An array read after sorted items has only sorted tables.
pub proof fn lemma_array_items_ok(b: Seq<u8>, c: Cur, acc: Seq<Toml>, fuel: nat)
    requires
        sorted_deep(Toml::Arr(acc)),
    ensures
        array_items(b, c, acc, fuel) matches Ok((v, _)) ==> sorted_deep(v),
    decreases fuel, b.len() - c.0 + 3,
{
    if 0 <= c.0 <= b.len() {
        let c1 = skip_wsc(b, c);
        if !at(b, c1.0, 93) {
            lemma_value_ok(b, c1, fuel);
            if let Ok((v, c2)) = value(b, c1, fuel) {
                lemma_arr_ok(acc);
                lemma_arr_ok(acc.push(v));
                let c3 = skip_wsc(b, c2);
                if at(b, c3.0, 44) && c.0 < c3.0 + 1 <= b.len() {
                    lemma_array_items_ok(b, (c3.0 + 1, c3.1, c3.2), acc.push(v), fuel);
                }
            }
        }
    }
}

/// An inline-table entry set into a sorted table keeps it sorted.
pub proof fn lemma_table_entry_ok(b: Seq<u8>, c: Cur, t: Entries, fuel: nat)
    requires
        tab_ok(t),
    ensures
        table_entry(b, c, t, fuel) matches Ok((t2, _, _)) ==> tab_ok(t2),
    decreases fuel, 2int,
{
    let p = blank_end(b, c.0);
    if let Ok((keys, c1)) = key_path(b, (p, c.1, c.2)) {
        let p2 = blank_end(b, c1.0);
        let p3 = blank_end(b, p2 + 1);
        lemma_value_ok(b, (p3, c1.1, c1.2), fuel);
        if let Ok((v, c2)) = value(b, (p3, c1.1, c1.2), fuel) {
            lemma_inline_ok(t, keys, 0, v);
        }
    }
}

/// An inline table read after sorted entries is sorted.
pub proof fn lemma_table_items_ok(b: Seq<u8>, c: Cur, t: Entries, fuel: nat)
    requires
        tab_ok(t),
    ensures
        table_items(b, c, t, fuel) matches Ok((v, _)) ==> sorted_deep(v),
    decreases fuel, b.len() - c.0 + 3,
{
    if 0 <= c.0 <= b.len() {
        lemma_table_entry_ok(b, c, t, fuel);
        if let Ok((t2, c2, done)) = table_entry(b, c, t, fuel) {
            if !done && c.0 < c2.0 <= b.len() {
                lemma_table_items_ok(b, c2, t2, fuel);
            }
        }
    }
}

/// Reading a line keeps the root sorted.
proof fn lemma_line_ok(b: Seq<u8>, c: Cur, st: DocState)
    requires
        tab_ok(st.0),
        0 <= c.0 < b.len(),
    ensures
        (if b[c.0] == 91 { header(b, c, st) } else { keyval_line(b, c, st) }) matches Ok((st2, _)) ==> tab_ok(st2.0),
{
    if b[c.0] == 91 {
        let is_arr = at(b, c.0 + 1, 91);
        let p2 = if is_arr { c.0 + 2 } else { c.0 + 1 };
        if let Ok((keys, c4)) = key_path(b, (blank_end(b, p2), c.1, c.2)) {
            lemma_walk_array_ok(st.0, keys, 0, st.2);
            lemma_walk_table_ok(st.0, keys, 0, st.2);
        }
    } else {
        if let Ok((keys, c1)) = key_path(b, c) {
            let p2 = blank_end(b, c1.0);
            let p3 = blank_end(b, p2 + 1);
            let fuel = (b.len() - p3 + 1) as nat;
            lemma_value_ok(b, (p3, c1.1, c1.2), fuel);
            if let Ok((v, c2)) = value(b, (p3, c1.1, c1.2), fuel) {
                lemma_keyval_ok(st.0, st.3, 0, st.4, keys, v, st.1);
            }
        }
    }
}

/// The rest of a document read onto a sorted root gives a sorted root.
proof fn lemma_doc_ok(b: Seq<u8>, c: Cur, st: DocState)
    requires
        tab_ok(st.0),
    ensures
        doc(b, c, st) matches Ok(t) ==> tab_ok(t),
    decreases b.len() - c.0,
{
    let c1 = skip_wsc(b, c);
    if !(c1.0 >= b.len() || c.0 < 0 || c.0 > b.len()) {
        lemma_skip_wsc_bound(b, c);
        lemma_line_ok(b, c1, st);
        let step = if b[c1.0] == 91 {
            header(b, c1, st)
        } else {
            keyval_line(b, c1, st)
        };
        if let Ok((st2, c2)) = step {
            if c.0 < c2.0 <= b.len() {
                lemma_doc_ok(b, c2, st2);
            }
        }
    }
}

/// Blanks, comments and line ends are skipped forward.
proof fn lemma_skip_wsc_bound(b: Seq<u8>, c: Cur)
    requires
        0 <= c.0 <= b.len(),
    ensures
        c.0 <= skip_wsc(b, c).0,
    decreases b.len() - c.0,
{
    lemma_blank_end(b, c.0);
    let p = blank_end(b, c.0);
    if at(b, p, 35) {
        let q = comment_end(b, p);
        if c.0 < q <= b.len() {
            lemma_skip_wsc_bound(b, (q, c.1, c.2));
        }
    } else if at(b, p, 10) && c.0 <= p {
        lemma_skip_wsc_bound(b, (p + 1, c.1 + 1, p + 1));
    } else if crlf(b, p) && c.0 <= p {
        lemma_skip_wsc_bound(b, (p + 2, c.1 + 1, p + 2));
    }
}

/// Every table of a document read, however deep, has its keys in increasing order,
/// each key once.
pub proof fn lemma_parsed_tables_sorted(b: Seq<u8>)
    ensures
        spec_from_str(b) matches Ok(t) ==> sorted_deep(Toml::Tab(t)),
{
    lemma_empty_ok();
    lemma_doc_ok(b, (0, 1, 0), (Seq::empty(), Seq::empty(), Seq::empty(), Seq::empty(), false));
}


/// Whether `x` is an ASCII letter or digit, `_` or `-`: the characters of a bare key.
pub open spec fn bare_key_byte(x: u8) -> bool {
    (48 <= x <= 57) || (65 <= x <= 90) || (97 <= x <= 122) || x == 95 || x == 45
}

/// A bare key is read exactly: from `p`, the run of ASCII letters, digits, `_` and `-`,
/// up to the first other byte or the end.
pub proof fn lemma_bare_end_exact(b: Seq<u8>, p: int)
    requires
        0 <= p <= b.len(),
    ensures
        p <= bare_end(b, p) <= b.len(),
        forall|i: int| p <= i < bare_end(b, p) ==> bare_key_byte(#[trigger] b[i]),
        bare_end(b, p) < b.len() ==> !bare_key_byte(b[bare_end(b, p)]),
    decreases b.len() - p,
{
    if p < b.len() && is_bare(b[p]) {
        lemma_bare_end_exact(b, p + 1);
    }
}

} // verus!
