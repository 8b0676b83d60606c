use vstd::prelude::*;
pub mod roundtrip;
use vstd::string::*;
use vstd::utf8::{decode_utf8, valid_utf8};
use crate::text::{dec_digits, lex_lt, push_char, push_str, push_u64, str_lt, to_chars, utf8_string, utf8_text, char_from_u32};

verus! {

/// A parse error: its message, and the line and column (both from 1) where it arose.
#[derive(Debug, Clone)]
pub struct Error {
    pub line: usize,
    pub col: usize,
    pub msg: String,
}

/// A parse error as plain values: message and byte position.
pub type ErrAt = (Seq<char>, int);



/// The line of byte `k` and the offset where that line starts, from `b[0..k]`.
pub open spec fn line_info(b: Seq<u8>, k: int) -> (int, int)
    decreases k,
{
    if k <= 0 {
        (1, 0)
    } else {
        let (l, s) = line_info(b, k - 1);
        if b[k - 1] == 10 {
            (l + 1, k)
        } else {
            (l, s)
        }
    }
}

/// Whether `e` is the error `m` at byte `pos` of `b`.
pub open spec fn error_at(e: Error, m: ErrAt, b: Seq<u8>) -> bool {
    let k = if m.1 < b.len() {
        m.1
    } else {
        b.len() as int
    };
    let (l, s) = line_info(b, k);
    e.msg@ == m.0 && e.line == l && e.col == m.1 - s + 1
}

/// Whether `c` is JSON white space.
pub open spec fn is_json_ws(c: u8) -> bool {
    c == 32 || c == 9 || c == 10 || c == 13
}

/// The position after the white space at `p`.
pub open spec fn ws_after(b: Seq<u8>, p: int) -> int
    decreases b.len() - p,
{
    if 0 <= p < b.len() && is_json_ws(b[p]) {
        ws_after(b, p + 1)
    } else {
        p
    }
}

/// Whether `c` is an ASCII digit.
pub open spec fn is_digit_byte(c: u8) -> bool {
    48 <= c <= 57
}

/// End of the run of ASCII digits at `p`.
pub open spec fn digits_after(b: Seq<u8>, p: int) -> int
    decreases b.len() - p,
{
    if 0 <= p < b.len() && is_digit_byte(b[p]) {
        digits_after(b, p + 1)
    } else {
        p
    }
}

/// The value of a hex digit byte, if it is one.
pub open spec fn hex_val(c: u8) -> Option<u32> {
    if 48 <= c <= 57 {
        Some((c - 48) as u32)
    } else if 97 <= c <= 102 {
        Some((c - 97 + 10) as u32)
    } else if 65 <= c <= 70 {
        Some((c - 65 + 10) as u32)
    } else {
        None
    }
}

/// The `k` hex digits at `p`, after the value `v` of those before: the value and the
/// position after them, or the error.
pub open spec fn spec_hex_digits(b: Seq<u8>, p: int, v: u32, k: nat) -> Result<(u32, int), ErrAt>
    decreases k,
{
    if k == 0 {
        Ok((v, p))
    } else if p < 0 || p >= b.len() {
        Err(("invalid unicode escape"@, p))
    } else {
        match hex_val(b[p]) {
            None => Err(("invalid hex digit"@, p + 1)),
            Some(d) => spec_hex_digits(b, p + 1, (v * 16 + d) as u32, (k - 1) as nat),
        }
    }
}

/// Four hex digits at `p`.
pub open spec fn spec_hex4(b: Seq<u8>, p: int) -> Result<(u32, int), ErrAt> {
    spec_hex_digits(b, p, 0, 4)
}

/// The code point of a `\u` escape whose digits start at `p` (with a second escape for
/// a surrogate pair), and the position after it, or the error.
pub open spec fn spec_unicode(b: Seq<u8>, p: int) -> Result<(u32, int), ErrAt> {
    match spec_hex4(b, p) {
        Err(e) => Err(e),
        Ok((high, p1)) => if 0xD800 <= high < 0xDC00 {
            if !(0 <= p1 < b.len() && b[p1] == 92) {
                Err(("expected low surrogate"@, if p1 < b.len() { p1 + 1 } else { p1 }))
            } else if !(p1 + 1 < b.len() && b[p1 + 1] == 117) {
                Err(("expected low surrogate"@, if p1 + 1 < b.len() { p1 + 2 } else { p1 + 1 }))
            } else {
                match spec_hex4(b, p1 + 2) {
                    Err(e) => Err(e),
                    Ok((low, p2)) => if !(0xDC00 <= low < 0xE000) {
                        Err(("invalid low surrogate"@, p2))
                    } else {
                        Ok(((0x10000 + (high - 0xD800) * 0x400 + (low - 0xDC00)) as u32, p2))
                    },
                }
            }
        } else if 0xDC00 <= high < 0xE000 {
            Err(("unexpected low surrogate"@, p1))
        } else {
            Ok((high, p1))
        },
    }
}

/// Whether a byte ends a run of plain string bytes: `"`, `\` or a control byte.
pub open spec fn ends_run(c: u8) -> bool {
    c == 34 || c == 92 || c < 0x20
}

/// End of the run of plain string bytes at `p`.
pub open spec fn run_end(b: Seq<u8>, p: int) -> int
    decreases b.len() - p,
{
    if 0 <= p < b.len() && !ends_run(b[p]) {
        run_end(b, p + 1)
    } else {
        p
    }
}

/// The character a one-letter escape stands for.
pub open spec fn simple_escape(c: u8) -> Option<char> {
    if c == 34 {
        Some('"')
    } else if c == 92 {
        Some('\\')
    } else if c == 47 {
        Some('/')
    } else if c == 98 {
        Some('\u{8}')
    } else if c == 102 {
        Some('\u{c}')
    } else if c == 110 {
        Some('\n')
    } else if c == 114 {
        Some('\r')
    } else if c == 116 {
        Some('\t')
    } else {
        None
    }
}

/// The escape at `p` (just after its `\`), appended to `out`: the text and position
/// after it, or the error.
pub open spec fn spec_escape(b: Seq<u8>, p: int, out: Seq<char>) -> Result<(Seq<char>, int), ErrAt> {
    if p < 0 || p >= b.len() {
        Err(("invalid escape"@, p))
    } else if b[p] == 117 {
        match spec_unicode(b, p + 1) {
            Err(e) => Err(e),
            Ok((cp, p2)) => if cp <= 0xD7FF || (0xE000 <= cp <= 0x10FFFF) {
                Ok((out.push(cp as char), p2))
            } else {
                Err(("invalid code point"@, p2))
            },
        }
    } else {
        match simple_escape(b[p]) {
            Some(c) => Ok((out.push(c), p + 1)),
            None => Err(("invalid escape"@, p + 1)),
        }
    }
}

/// A run of plain bytes ends within the input, at or after its start.
pub proof fn lemma_run_end(b: Seq<u8>, p: int)
    requires
        0 <= p <= b.len(),
    ensures
        p <= run_end(b, p) <= b.len(),
    decreases b.len() - p,
{
    if p < b.len() && !ends_run(b[p]) {
        lemma_run_end(b, p + 1);
    }
}

/// Reading hex digits moves past exactly those digits.
pub proof fn lemma_hex_digits_advance(b: Seq<u8>, p: int, v: u32, k: nat)
    requires
        spec_hex_digits(b, p, v, k) is Ok,
    ensures
        spec_hex_digits(b, p, v, k)->Ok_0.1 == p + k,
    decreases k,
{
    if k > 0 {
        let d = hex_val(b[p])->Some_0;
        lemma_hex_digits_advance(b, p + 1, (v * 16 + d) as u32, (k - 1) as nat);
    }
}

/// An escape that reads moves past at least one byte, and stays within the input.
pub proof fn lemma_escape_advances(b: Seq<u8>, p: int, out: Seq<char>)
    requires
        spec_escape(b, p, out) is Ok,
    ensures
        p < spec_escape(b, p, out)->Ok_0.1 <= b.len(),
{
    if b[p] == 117 {
        lemma_hex_digits_advance(b, p + 1, 0, 4);
        let p1 = spec_hex4(b, p + 1)->Ok_0.1;
        let high = spec_hex4(b, p + 1)->Ok_0.0;
        if 0xD800 <= high < 0xDC00 {
            lemma_hex_digits_advance(b, p1 + 2, 0, 4);
        }
        lemma_hex_bound(b, p + 1, 0, 4);
        if 0xD800 <= high < 0xDC00 {
            lemma_hex_bound(b, p1 + 2, 0, 4);
        }
    }
}

/// Reading hex digits stays within the input.
pub proof fn lemma_hex_bound(b: Seq<u8>, p: int, v: u32, k: nat)
    requires
        0 <= p,
        spec_hex_digits(b, p, v, k) is Ok,
    ensures
        spec_hex_digits(b, p, v, k)->Ok_0.1 <= b.len() || k == 0,
    decreases k,
{
    if k > 0 {
        let d = hex_val(b[p])->Some_0;
        lemma_hex_bound(b, p + 1, (v * 16 + d) as u32, (k - 1) as nat);
    }
}

/// The rest of a string with escapes, at a `\` at `p`, after the text `out`: the text
/// and the position after the closing quote, or the error.
pub open spec fn spec_string_tail(b: Seq<u8>, p: int, out: Seq<char>) -> Result<(Seq<char>, int), ErrAt>
    decreases b.len() - p,
{
    if p < 0 || p >= b.len() {
        Err(("invalid escape"@, p))
    } else {
        match spec_escape(b, p + 1, out) {
            Err(e) => Err(e),
            Ok((o1, q)) => {
                proof {
                    lemma_escape_advances(b, p + 1, out);
                    lemma_run_end(b, q);
                }
                let e = run_end(b, q);
                match utf8_text(b.subrange(q, e)) {
                    None => Err(("invalid utf-8"@, e)),
                    Some(t) => if e >= b.len() {
                        Err(("unterminated string"@, e))
                    } else if b[e] == 34 {
                        Ok((o1 + t, e + 1))
                    } else if b[e] < 0x20 {
                        Err(("control character in string"@, e))
                    } else {
                        spec_string_tail(b, e, o1 + t)
                    },
                }
            },
        }
    }
}

/// A string whose opening quote is at `p`: its text and the position after it, or
/// the error.
pub open spec fn spec_parse_string(b: Seq<u8>, p: int) -> Result<(Seq<char>, int), ErrAt> {
    let start = p + 1;
    let e = run_end(b, start);
    if e >= b.len() {
        Err(("unterminated string"@, e))
    } else if b[e] == 34 {
        match utf8_text(b.subrange(start, e)) {
            None => Err(("invalid utf-8"@, e)),
            Some(t) => Ok((t, e + 1)),
        }
    } else if b[e] < 0x20 {
        Err(("control character in string"@, e))
    } else {
        match utf8_text(b.subrange(start, e)) {
            None => Err(("invalid utf-8"@, e)),
            Some(t) => spec_string_tail(b, e, t),
        }
    }
}

struct Parser<'a> {
    bytes: &'a [u8],
    pos: usize,
}

/// The result of a parsing step, as plain values, against its model.
pub open spec fn step_result<T>(r: Result<T, Error>, m: Result<(Seq<char>, int), ErrAt>, b: Seq<u8>, pos: int, view: spec_fn(T) -> Seq<char>) -> bool {
    match m {
        Ok((t, q)) => r matches Ok(x) && view(x) == t && pos == q,
        Err(e) => r matches Err(x) && error_at(x, e, b),
    }
}

impl<'a> Parser<'a> {
    spec fn wf(&self) -> bool {
        self.pos <= self.bytes@.len() < usize::MAX
    }

    fn new(bytes: &'a [u8]) -> (p: Parser<'a>)
        requires
            bytes@.len() < usize::MAX,
        ensures
            p.wf(),
            p.bytes@ == bytes@,
            p.pos == 0,
    {
        Parser { bytes, pos: 0 }
    }

    fn error(&self, msg: &str) -> (e: Error)
        requires
            self.wf(),
        ensures
            error_at(e, (msg@, self.pos as int), self.bytes@),
    {
        let mut line: usize = 1;
        let mut last_nl: usize = 0;
        let cap = if self.pos < self.bytes.len() {
            self.pos
        } else {
            self.bytes.len()
        };
        let mut i: usize = 0;
        while i < cap
            invariant
                self.wf(),
                cap <= self.pos,
                cap <= self.bytes@.len(),
                i <= cap,
                (line as int, last_nl as int) == line_info(self.bytes@, i as int),
                1 <= line <= i + 1,
                last_nl <= i,
            decreases cap - i,
        {
            if self.bytes[i] == 10 {
                line = line + 1;
                last_nl = i + 1;
            }
            i = i + 1;
        }
        Error { line, col: self.pos - last_nl + 1, msg: msg.to_owned() }
    }

    fn peek(&self) -> (r: Option<u8>)
        ensures
            match r {
                Some(c) => self.pos < self.bytes@.len() && c == self.bytes@[self.pos as int],
                None => self.pos >= self.bytes@.len(),
            },
    {
        if self.pos < self.bytes.len() {
            Some(self.bytes[self.pos])
        } else {
            None
        }
    }

    fn bump(&mut self) -> (r: Option<u8>)
        requires
            old(self).wf(),
        ensures
            final(self).wf(),
            final(self).bytes@ == old(self).bytes@,
            match r {
                Some(c) => old(self).pos < old(self).bytes@.len() && c == old(self).bytes@[old(self).pos as int]
                    && final(self).pos == old(self).pos + 1,
                None => old(self).pos >= old(self).bytes@.len() && final(self).pos == old(self).pos,
            },
    {
        if self.pos < self.bytes.len() {
            let c = self.bytes[self.pos];
            self.pos = self.pos + 1;
            Some(c)
        } else {
            None
        }
    }

    fn skip_ws(&mut self)
        requires
            old(self).wf(),
        ensures
            final(self).wf(),
            final(self).bytes@ == old(self).bytes@,
            final(self).pos == ws_after(old(self).bytes@, old(self).pos as int),
    {
        while self.pos < self.bytes.len() && (self.bytes[self.pos] == 32 || self.bytes[self.pos] == 9
            || self.bytes[self.pos] == 10 || self.bytes[self.pos] == 13)
            invariant
                self.wf(),
                self.bytes@ == old(self).bytes@,
                old(self).pos <= self.pos,
                ws_after(self.bytes@, old(self).pos as int) == ws_after(self.bytes@, self.pos as int),
            decreases self.bytes@.len() - self.pos,
        {
            self.pos = self.pos + 1;
        }
    }

    fn parse_hex4(&mut self) -> (r: Result<u32, Error>)
        requires
            old(self).wf(),
        ensures
            final(self).wf(),
            final(self).bytes@ == old(self).bytes@,
            match spec_hex4(old(self).bytes@, old(self).pos as int) {
                Ok((v, q)) => r == Ok::<u32, Error>(v) && final(self).pos == q,
                Err(e) => r matches Err(x) && error_at(x, e, old(self).bytes@),
            },
    {
        let mut v: u32 = 0;
        let mut k: usize = 0;
        let ghost b = self.bytes@;
        while k < 4
            invariant
                self.wf(),
                self.bytes@ == b,
                b == old(self).bytes@,
                k <= 4,
                self.pos == old(self).pos + k,
                k == 0 ==> v == 0,
                k == 1 ==> v < 16,
                k == 2 ==> v < 256,
                k == 3 ==> v < 4096,
                k == 4 ==> v < 65536,
                spec_hex4(b, old(self).pos as int) == spec_hex_digits(b, self.pos as int, v, (4 - k) as nat),
            decreases 4 - k,
        {
            let c = match self.bump() {
                Some(c) => c,
                None => return Err(self.error("invalid unicode escape")),
            };
            let d: u8 = if 48 <= c && c <= 57 {
                c - 48
            } else if 97 <= c && c <= 102 {
                c - 97 + 10
            } else if 65 <= c && c <= 70 {
                c - 65 + 10
            } else {
                return Err(self.error("invalid hex digit"));
            };
            v = v * 16 + d as u32;
            k = k + 1;
        }
        Ok(v)
    }

    fn parse_unicode(&mut self) -> (r: Result<char, Error>)
        requires
            old(self).wf(),
        ensures
            final(self).wf(),
            final(self).bytes@ == old(self).bytes@,
            match spec_unicode(old(self).bytes@, old(self).pos as int) {
                Ok((cp, q)) => if cp <= 0xD7FF || (0xE000 <= cp <= 0x10FFFF) {
                    r matches Ok(c) && c as u32 == cp && final(self).pos == q
                } else {
                    r matches Err(x) && error_at(x, ("invalid code point"@, q), old(self).bytes@)
                },
                Err(e) => r matches Err(x) && error_at(x, e, old(self).bytes@),
            },
    {
        let high = match self.parse_hex4() {
            Ok(h) => h,
            Err(e) => return Err(e),
        };
        if 0xD800 <= high && high < 0xDC00 {
            let ghost p1 = self.pos as int;
            match self.bump() {
                Some(92) => {},
                _ => return Err(self.error("expected low surrogate")),
            }
            match self.bump() {
                Some(117) => {},
                _ => return Err(self.error("expected low surrogate")),
            }
            let low = match self.parse_hex4() {
                Ok(l) => l,
                Err(e) => return Err(e),
            };
            if !(0xDC00 <= low && low < 0xE000) {
                return Err(self.error("invalid low surrogate"));
            }
            let cp = 0x10000 + (high - 0xD800) * 0x400 + (low - 0xDC00);
            match char_from_u32(cp) {
                Some(c) => Ok(c),
                None => Err(self.error("invalid code point")),
            }
        } else if 0xDC00 <= high && high < 0xE000 {
            Err(self.error("unexpected low surrogate"))
        } else {
            match char_from_u32(high) {
                Some(c) => Ok(c),
                None => Err(self.error("invalid code point")),
            }
        }
    }

    fn run_to_end(&mut self)
        requires
            old(self).wf(),
        ensures
            final(self).wf(),
            final(self).bytes@ == old(self).bytes@,
            final(self).pos == run_end(old(self).bytes@, old(self).pos as int),
            old(self).pos <= final(self).pos,
            final(self).pos < final(self).bytes@.len() ==> ends_run(final(self).bytes@[final(self).pos as int]),
    {
        while self.pos < self.bytes.len() && !(self.bytes[self.pos] == 34 || self.bytes[self.pos]
            == 92 || self.bytes[self.pos] < 0x20)
            invariant
                self.wf(),
                self.bytes@ == old(self).bytes@,
                old(self).pos <= self.pos,
                run_end(self.bytes@, old(self).pos as int) == run_end(self.bytes@, self.pos as int),
            decreases self.bytes@.len() - self.pos,
        {
            self.pos = self.pos + 1;
        }
    }

    fn parse_string(&mut self) -> (r: Result<String, Error>)
        requires
            old(self).wf(),
            old(self).pos < old(self).bytes@.len(),
        ensures
            final(self).wf(),
            final(self).bytes@ == old(self).bytes@,
            match spec_parse_string(old(self).bytes@, old(self).pos as int) {
                Ok((t, q)) => r matches Ok(s) && s@ == t && final(self).pos == q,
                Err(e) => r matches Err(x) && error_at(x, e, old(self).bytes@),
            },
            r is Ok ==> final(self).pos > old(self).pos,
    {
        let ghost b = self.bytes@;
        self.pos = self.pos + 1;
        let start = self.pos;
        self.run_to_end();
        if self.pos == self.bytes.len() {
            return Err(self.error("unterminated string"));
        }
        if self.bytes[self.pos] == 34 {
            let s = match utf8_string(&self.bytes[start..self.pos]) {
                Some(s) => s,
                None => return Err(self.error("invalid utf-8")),
            };
            self.pos = self.pos + 1;
            return Ok(s);
        }
        if self.bytes[self.pos] < 0x20 {
            return Err(self.error("control character in string"));
        }
        let mut out = match utf8_string(&self.bytes[start..self.pos]) {
            Some(s) => s,
            None => return Err(self.error("invalid utf-8")),
        };
        let ghost target = spec_parse_string(b, old(self).pos as int);
        loop
            invariant
                self.wf(),
                self.bytes@ == b,
                b == old(self).bytes@,
                self.pos < b.len(),
                b[self.pos as int] == 92,
                target == spec_parse_string(b, old(self).pos as int),
                target == spec_string_tail(b, self.pos as int, out@),
                self.pos > old(self).pos,
            decreases b.len() - self.pos,
        {
            let ghost p0 = self.pos as int;
            let ghost o0 = out@;
            self.pos = self.pos + 1;
            let c = match self.peek() {
                Some(c) => c,
                None => return Err(self.error("invalid escape")),
            };
            self.pos = self.pos + 1;
            if c == 117 {
                let ch = match self.parse_unicode() {
                    Ok(ch) => ch,
                    Err(e) => return Err(e),
                };
                proof {
                    let cp = spec_unicode(b, p0 + 2)->Ok_0.0;
                    vstd::utf8::char_u32_cast(ch, cp);
                }
                push_char(&mut out, ch);
            } else {
                let ch = if c == 34 {
                    '"'
                } else if c == 92 {
                    '\\'
                } else if c == 47 {
                    '/'
                } else if c == 98 {
                    '\u{8}'
                } else if c == 102 {
                    '\u{c}'
                } else if c == 110 {
                    '\n'
                } else if c == 114 {
                    '\r'
                } else if c == 116 {
                    '\t'
                } else {
                    return Err(self.error("invalid escape"));
                };
                push_char(&mut out, ch);
            }
            assert(spec_escape(b, p0 + 1, o0) == Ok::<(Seq<char>, int), ErrAt>((out@, self.pos as int)));
            proof {
                lemma_escape_advances(b, p0 + 1, o0);
            }
            let chunk = self.pos;
            self.run_to_end();
            match utf8_string(&self.bytes[chunk..self.pos]) {
                Some(t) => push_str(&mut out, t.as_str()),
                None => return Err(self.error("invalid utf-8")),
            }
            if self.pos >= self.bytes.len() {
                return Err(self.error("unterminated string"));
            }
            if self.bytes[self.pos] == 34 {
                self.pos = self.pos + 1;
                return Ok(out);
            }
            if self.bytes[self.pos] < 0x20 {
                return Err(self.error("control character in string"));
            }
        }
    }

    fn digits_to_end(&mut self)
        requires
            old(self).wf(),
        ensures
            final(self).wf(),
            final(self).bytes@ == old(self).bytes@,
            final(self).pos == digits_after(old(self).bytes@, old(self).pos as int),
            old(self).pos <= final(self).pos,
    {
        while self.pos < self.bytes.len() && 48 <= self.bytes[self.pos] && self.bytes[self.pos] <= 57
            invariant
                self.wf(),
                self.bytes@ == old(self).bytes@,
                old(self).pos <= self.pos,
                digits_after(self.bytes@, old(self).pos as int) == digits_after(self.bytes@, self.pos as int),
            decreases self.bytes@.len() - self.pos,
        {
            self.pos = self.pos + 1;
        }
    }

    fn scan_number(&mut self) -> (r: Result<bool, Error>)
        requires
            old(self).wf(),
        ensures
            final(self).wf(),
            final(self).bytes@ == old(self).bytes@,
            old(self).pos <= final(self).pos,
            match spec_number_end(old(self).bytes@, old(self).pos as int) {
                Err(e) => r matches Err(x) && error_at(x, e, old(self).bytes@),
                Ok((e, is_float)) => r == Ok::<bool, Error>(is_float) && final(self).pos == e,
            },
    {
        let neg = self.pos < self.bytes.len() && self.bytes[self.pos] == 45;
        if neg {
            self.pos = self.pos + 1;
        }
        if self.pos < self.bytes.len() && self.bytes[self.pos] == 48 {
            self.pos = self.pos + 1;
        } else if self.pos < self.bytes.len() && 49 <= self.bytes[self.pos] && self.bytes[self.pos] <= 57 {
            self.digits_to_end();
        } else {
            return Err(self.error("invalid number"));
        }
        let mut is_float = false;
        if self.pos < self.bytes.len() && self.bytes[self.pos] == 46 {
            is_float = true;
            self.pos = self.pos + 1;
            if !(self.pos < self.bytes.len() && 48 <= self.bytes[self.pos] && self.bytes[self.pos] <= 57) {
                return Err(self.error("expected digit after `.`"));
            }
            self.digits_to_end();
        }
        if self.pos < self.bytes.len() && (self.bytes[self.pos] == 101 || self.bytes[self.pos] == 69) {
            is_float = true;
            self.pos = self.pos + 1;
            if self.pos < self.bytes.len() && (self.bytes[self.pos] == 43 || self.bytes[self.pos] == 45) {
                self.pos = self.pos + 1;
            }
            if !(self.pos < self.bytes.len() && 48 <= self.bytes[self.pos] && self.bytes[self.pos] <= 57) {
                return Err(self.error("expected digit in exponent"));
            }
            self.digits_to_end();
        }
        Ok(is_float)
    }

    fn parse_number(&mut self) -> (r: Result<Number, Error>)
        requires
            old(self).wf(),
        ensures
            final(self).wf(),
            final(self).bytes@ == old(self).bytes@,
            match spec_number_end(old(self).bytes@, old(self).pos as int) {
                Err(e) => r matches Err(x) && error_at(x, e, old(self).bytes@),
                Ok((e, is_float)) => number_result(r, old(self).bytes@, old(self).pos as int, e, is_float)
                    && (r is Ok ==> final(self).pos == e),
            },
    {
        let ghost b = self.bytes@;
        let start = self.pos;
        let is_float = match self.scan_number() {
            Ok(f) => f,
            Err(e) => return Err(e),
        };
        let end = self.pos;
        if is_float {
            let mut text = String::new();
            let mut k = start;
            while k < end
                invariant
                    start <= k <= end <= b.len(),
                    self.bytes@ == b,
                    text@ == byte_chars(b.subrange(start as int, k as int)),
                decreases end - k,
            {
                push_char(&mut text, self.bytes[k] as char);
                k = k + 1;
                assert(text@ =~= byte_chars(b.subrange(start as int, k as int)));
            }
            return Ok(Number::Float(text));
        }
        let neg = start < self.bytes.len() && self.bytes[start] == 45;
        let p1 = if neg {
            start + 1
        } else {
            start
        };
        proof {
            lemma_int_digits(b, start as int);
        }
        let v = match int_value(self.bytes, p1, end) {
            Some(v) => v,
            None => return Err(self.error("number out of range")),
        };
        if neg {
            if v > 0x8000_0000_0000_0000 {
                return Err(self.error("number out of range"));
            }
            let i: i64 = if v == 0x8000_0000_0000_0000 {
                -0x8000_0000_0000_0000
            } else {
                -(v as i64)
            };
            Ok(Number::NegInt(i))
        } else {
            Ok(Number::PosInt(v))
        }
    }
}

/// The integer part of a number without fraction or exponent is all digits.
proof fn lemma_int_digits(b: Seq<u8>, p: int)
    requires
        0 <= p <= b.len(),
        spec_number_end(b, p) matches Ok((e, f)) && !f,
    ensures
        ({
            let p1 = if byte_at(b, p, 45) {
                p + 1
            } else {
                p
            };
            let e = spec_number_end(b, p)->Ok_0.0;
            &&& p1 <= e <= b.len()
            &&& forall|j: int| p1 <= j < e ==> is_digit_byte(#[trigger] b[j])
        }),
{
    let p1 = if byte_at(b, p, 45) {
        p + 1
    } else {
        p
    };
    lemma_digits_after(b, p1);
}

/// A run of digits ends within the input, and is all digits.
proof fn lemma_digits_after(b: Seq<u8>, i: int)
    requires
        0 <= i <= b.len(),
    ensures
        i <= digits_after(b, i) <= b.len(),
        forall|j: int| i <= j < digits_after(b, i) ==> is_digit_byte(#[trigger] b[j]),
    decreases b.len() - i,
{
    if i < b.len() && is_digit_byte(b[i]) {
        lemma_digits_after(b, i + 1);
    }
}

/// The value of the digits `b[p..e]`, if it fits in a `u64`.
fn int_value(b: &[u8], p: usize, e: usize) -> (r: Option<u64>)
    requires
        p <= e <= b@.len(),
        forall|j: int| p <= j < e ==> is_digit_byte(#[trigger] b@[j]),
    ensures
        match r {
            Some(v) => v == byte_digits_value(b@.subrange(p as int, e as int)),
            None => byte_digits_value(b@.subrange(p as int, e as int)) > u64::MAX,
        },
{
    let ghost ds = b@.subrange(p as int, e as int);
    let mut v: u64 = 0;
    let mut k = p;
    while k < e
        invariant
            p <= k <= e <= b@.len(),
            ds == b@.subrange(p as int, e as int),
            forall|j: int| p <= j < e ==> is_digit_byte(#[trigger] b@[j]),
            v == byte_digits_value(ds.take(k - p)),
        decreases e - k,
    {
        assert(ds.take(k - p + 1).drop_last() =~= ds.take(k - p));
        assert(ds.take(k - p + 1).last() == b@[k as int]);
        assert(is_digit_byte(b@[k as int]));
        let d = (b[k] - 48) as u64;
        match v.checked_mul(10) {
            Some(x) => match x.checked_add(d) {
                Some(y) => {
                    v = y;
                },
                None => {
                    proof {
                        lemma_byte_digits_prefix(ds, k - p + 1);
                    }
                    return None;
                },
            },
            None => {
                proof {
                    lemma_byte_digits_prefix(ds, k - p + 1);
                }
                return None;
            },
        }
        k = k + 1;
    }
    assert(ds.take(e - p) =~= ds);
    Some(v)
}

/// A JSON number: non-negative integer, negative integer, or any other number,
/// which is held as its text.
#[derive(Debug, Clone)]
pub enum Number {
    PosInt(u64),
    NegInt(i64),
    Float(String),
}

/// Each byte read as the character with that code.
pub open spec fn byte_chars(b: Seq<u8>) -> Seq<char> {
    b.map_values(|x: u8| x as char)
}

/// The decimal value of a string of ASCII digit bytes.
pub open spec fn byte_digits_value(s: Seq<u8>) -> nat
    decreases s.len(),
{
    if s.len() == 0 {
        0
    } else {
        byte_digits_value(s.drop_last()) * 10 + (s.last() - 48) as nat
    }
}

/// A prefix of a string of digits has no greater value.
pub proof fn lemma_byte_digits_prefix(s: Seq<u8>, k: int)
    requires
        0 <= k <= s.len(),
    ensures
        byte_digits_value(s.take(k)) <= byte_digits_value(s),
    decreases s.len() - k,
{
    if k < s.len() {
        lemma_byte_digits_prefix(s.drop_last(), k);
        assert(s.drop_last().take(k) =~= s.take(k));
    } else {
        assert(s.take(k) =~= s);
    }
}

/// Whether `b[i]` exists and is `c`.
pub open spec fn byte_at(b: Seq<u8>, i: int, c: u8) -> bool {
    0 <= i < b.len() && b[i] == c
}

/// Whether `b[i]` exists and is an ASCII digit.
pub open spec fn digit_at(b: Seq<u8>, i: int) -> bool {
    0 <= i < b.len() && is_digit_byte(b[i])
}

/// The exponent part of a number at `p3`, if any: its end, and whether there is one.
pub open spec fn spec_exponent(b: Seq<u8>, p3: int, is_float: bool) -> Result<(int, bool), ErrAt> {
    if byte_at(b, p3, 101) || byte_at(b, p3, 69) {
        let p5 = if byte_at(b, p3 + 1, 43) || byte_at(b, p3 + 1, 45) {
            p3 + 2
        } else {
            p3 + 1
        };
        if digit_at(b, p5) {
            Ok((digits_after(b, p5), true))
        } else {
            Err(("expected digit in exponent"@, p5))
        }
    } else {
        Ok((p3, is_float))
    }
}

/// The end of a number at `p` by the JSON grammar (`-`, integer part, fraction,
/// exponent) and whether it has a fraction or exponent, or the error.
pub open spec fn spec_number_end(b: Seq<u8>, p: int) -> Result<(int, bool), ErrAt> {
    let p1 = if byte_at(b, p, 45) {
        p + 1
    } else {
        p
    };
    if !digit_at(b, p1) {
        Err(("invalid number"@, p1))
    } else {
        let p2 = if b[p1] == 48 {
            p1 + 1
        } else {
            digits_after(b, p1)
        };
        if byte_at(b, p2, 46) {
            if digit_at(b, p2 + 1) {
                spec_exponent(b, digits_after(b, p2 + 1), true)
            } else {
                Err(("expected digit after `.`"@, p2 + 1))
            }
        } else {
            spec_exponent(b, p2, false)
        }
    }
}

/// What a number at `p` that ends at `e` reads as: its text where it has a fraction or
/// exponent; else its integer value, or the error where it does not fit.
pub open spec fn number_result(r: Result<Number, Error>, b: Seq<u8>, p: int, e: int, is_float: bool) -> bool {
    let neg = byte_at(b, p, 45);
    let p1 = if neg {
        p + 1
    } else {
        p
    };
    let v = byte_digits_value(b.subrange(p1, e));
    if is_float {
        r matches Ok(Number::Float(s)) && s@ == byte_chars(b.subrange(p, e))
    } else if neg {
        if v <= 0x8000_0000_0000_0000 {
            r matches Ok(Number::NegInt(i)) && i == -v
        } else {
            r matches Err(x) && error_at(x, ("number out of range"@, e), b)
        }
    } else {
        if v <= u64::MAX {
            r matches Ok(Number::PosInt(u)) && u == v
        } else {
            r matches Err(x) && error_at(x, ("number out of range"@, e), b)
        }
    }
}

/// The lowercase hex digit for `d < 16`.
pub open spec fn hex_lower(d: int) -> char {
    if d < 10 {
        (d + 48) as char
    } else {
        (d - 10 + 97) as char
    }
}

/// How one character is written inside a JSON string.
pub open spec fn escape_json_char(c: char) -> Seq<char> {
    if c == '"' {
        seq!['\\', '"']
    } else if c == '\\' {
        seq!['\\', '\\']
    } else if c == '\n' {
        seq!['\\', 'n']
    } else if c == '\r' {
        seq!['\\', 'r']
    } else if c == '\t' {
        seq!['\\', 't']
    } else if c == '\u{8}' {
        seq!['\\', 'b']
    } else if c == '\u{c}' {
        seq!['\\', 'f']
    } else if (c as u32) < 0x20 {
        seq!['\\', 'u', '0', '0', hex_lower((c as u32) as int / 16), hex_lower((c as u32) as int % 16)]
    } else {
        seq![c]
    }
}

/// The characters of `s`, each written as inside a JSON string.
pub open spec fn escape_json(s: Seq<char>) -> Seq<char>
    decreases s.len(),
{
    if s.len() == 0 {
        Seq::empty()
    } else {
        escape_json(s.drop_last()) + escape_json_char(s.last())
    }
}

/// A JSON string literal for `s`.
pub open spec fn json_string(s: Seq<char>) -> Seq<char> {
    seq!['"'] + escape_json(s) + seq!['"']
}

fn push_escaped(out: &mut String, c: char)
    ensures
        final(out)@ == old(out)@ + escape_json_char(c),
{
    if c == '"' {
        push_str(out, "\\\"");
        proof { reveal_strlit("\\\""); }
    } else if c == '\\' {
        push_str(out, "\\\\");
        proof { reveal_strlit("\\\\"); }
    } else if c == '\n' {
        push_str(out, "\\n");
        proof { reveal_strlit("\\n"); }
    } else if c == '\r' {
        push_str(out, "\\r");
        proof { reveal_strlit("\\r"); }
    } else if c == '\t' {
        push_str(out, "\\t");
        proof { reveal_strlit("\\t"); }
    } else if c == '\u{8}' {
        push_str(out, "\\b");
        proof { reveal_strlit("\\b"); }
    } else if c == '\u{c}' {
        push_str(out, "\\f");
        proof { reveal_strlit("\\f"); }
    } else if (c as u32) < 0x20 {
        let v = c as u32;
        push_str(out, "\\u00");
        proof { reveal_strlit("\\u00"); }
        let hi = (v / 16) as u8;
        let lo = (v % 16) as u8;
        push_char(out, (hi + 48) as char);
        if lo < 10 {
            push_char(out, (lo + 48) as char);
        } else {
            push_char(out, (lo - 10 + 97) as char);
        }
    } else {
        push_char(out, c);
    }
    assert(final(out)@ =~= old(out)@ + escape_json_char(c));
}

/// Writes `s` as a JSON string literal.
pub fn write_string(out: &mut String, s: &str)
    ensures
        final(out)@ == old(out)@ + json_string(s@),
{
    let chars = to_chars(s);
    let ghost start = out@;
    push_char(out, '"');
    let mut k: usize = 0;
    while k < chars.len()
        invariant
            chars@ == s@,
            k <= chars.len(),
            out@ == start + seq!['"'] + escape_json(chars@.take(k as int)),
        decreases chars.len() - k,
    {
        assert(chars@.take(k + 1).drop_last() =~= chars@.take(k as int));
        push_escaped(out, chars[k]);
        k = k + 1;
        assert(out@ =~= start + seq!['"'] + escape_json(chars@.take(k as int)));
    }
    push_char(out, '"');
    assert(chars@.take(k as int) =~= s@);
    assert(out@ =~= start + json_string(s@));
}

/// Writes the decimal digits of `n`.
pub fn write_u64(out: &mut String, n: u64)
    ensures
        final(out)@ == old(out)@ + dec_digits(n as nat),
{
    push_u64(out, n);
}

/// The decimal text of `n`, with `-` when negative.
pub open spec fn i64_text(n: i64) -> Seq<char> {
    if n < 0 {
        seq!['-'] + dec_digits((-n) as nat)
    } else {
        dec_digits(n as nat)
    }
}

/// Writes the decimal text of `n`.
pub fn write_i64(out: &mut String, n: i64)
    ensures
        final(out)@ == old(out)@ + i64_text(n),
{
    if n < 0 {
        let ghost start = out@;
        push_char(out, '-');
        let u: u64 = if n == -0x8000_0000_0000_0000 {
            0x8000_0000_0000_0000
        } else {
            (-n) as u64
        };
        push_u64(out, u);
        assert(out@ =~= start + i64_text(n));
    } else {
        push_u64(out, n as u64);
    }
}

/// `depth` levels of two-space indentation.
pub open spec fn indent_text(depth: nat) -> Seq<char>
    decreases depth,
{
    if depth == 0 {
        Seq::empty()
    } else {
        indent_text((depth - 1) as nat) + seq![' ', ' ']
    }
}

/// Writes `depth` levels of indentation.
pub fn indent(out: &mut String, depth: usize)
    ensures
        final(out)@ == old(out)@ + indent_text(depth as nat),
{
    let ghost start = out@;
    let mut k: usize = 0;
    while k < depth
        invariant
            k <= depth,
            out@ == start + indent_text(k as nat),
        decreases depth - k,
    {
        push_char(out, ' ');
        push_char(out, ' ');
        k = k + 1;
        assert(out@ =~= start + indent_text(k as nat));
    }
}

/// The text of a parse error: `msg at line L column C`.
pub open spec fn error_text(e: Error) -> Seq<char> {
    e.msg@ + " at line "@ + dec_digits(e.line as nat) + " column "@ + dec_digits(e.col as nat)
}

impl Error {
    /// The text of the error.
    pub fn to_string(&self) -> (s: String)
        ensures
            s@ == error_text(*self),
    {
        let mut s = self.msg.clone();
        push_str(&mut s, " at line ");
        push_u64(&mut s, self.line as u64);
        push_str(&mut s, " column ");
        push_u64(&mut s, self.col as u64);
        s
    }
}

/// A serializer that writes compact JSON into `out`; it keeps, for each open array
/// (`0`) or object (`1`), whether something was written in it.
pub struct JsonSer {
    pub out: String,
    stack: Vec<(u8, bool)>,
}

/// The separator before a value: `,` inside an array that already has an element.
pub open spec fn value_sep(stack: Seq<(u8, bool)>) -> Seq<char> {
    if stack.len() > 0 && stack.last().0 == 0 && stack.last().1 {
        seq![',']
    } else {
        Seq::empty()
    }
}

/// The open containers after a value: an array it is in then has an element.
pub open spec fn after_value(stack: Seq<(u8, bool)>) -> Seq<(u8, bool)> {
    if stack.len() > 0 && stack.last().0 == 0 {
        stack.update(stack.len() - 1, (0u8, true))
    } else {
        stack
    }
}

impl JsonSer {
    /// The text written so far.
    pub closed spec fn text(&self) -> Seq<char> {
        self.out@
    }

    /// The open arrays and objects, innermost last.
    pub closed spec fn open(&self) -> Seq<(u8, bool)> {
        self.stack@
    }

    /// An empty serializer.
    pub fn new() -> (s: JsonSer)
        ensures
            s.text() == Seq::<char>::empty(),
            s.open() == Seq::<(u8, bool)>::empty(),
    {
        JsonSer { out: String::new(), stack: Vec::new() }
    }

    /// An empty serializer; the capacity is a hint only.
    pub fn with_capacity(c: usize) -> (s: JsonSer)
        ensures
            s.text() == Seq::<char>::empty(),
            s.open() == Seq::<(u8, bool)>::empty(),
    {
        JsonSer::new()
    }

    fn before_value(&mut self)
        ensures
            final(self).text() == old(self).text() + value_sep(old(self).open()),
            final(self).open() == after_value(old(self).open()),
    {
        let n = self.stack.len();
        if n > 0 {
            let top = self.stack[n - 1];
            if top.0 == 0 {
                if top.1 {
                    push_char(&mut self.out, ',');
                } else {
                    self.stack.set(n - 1, (0, true));
                }
            }
        }
        assert(self.stack@ =~= after_value(old(self).stack@));
    }

    /// Writes `null`.
    pub fn emit_null(&mut self) -> (r: Result<(), crate::serde::Error>)
        ensures
            r is Ok,
            final(self).text() == old(self).text() + value_sep(old(self).open()) + "null"@,
            final(self).open() == after_value(old(self).open()),
    {
        self.before_value();
        push_str(&mut self.out, "null");
        Ok(())
    }

    /// Writes `true` or `false`.
    pub fn emit_bool(&mut self, v: bool) -> (r: Result<(), crate::serde::Error>)
        ensures
            r is Ok,
            final(self).text() == old(self).text() + value_sep(old(self).open()) + (if v {
                "true"@
            } else {
                "false"@
            }),
            final(self).open() == after_value(old(self).open()),
    {
        self.before_value();
        if v {
            push_str(&mut self.out, "true");
        } else {
            push_str(&mut self.out, "false");
        }
        Ok(())
    }

    /// Writes an integer.
    pub fn emit_i64(&mut self, v: i64) -> (r: Result<(), crate::serde::Error>)
        ensures
            r is Ok,
            final(self).text() == old(self).text() + value_sep(old(self).open()) + i64_text(v),
            final(self).open() == after_value(old(self).open()),
    {
        self.before_value();
        write_i64(&mut self.out, v);
        Ok(())
    }

    /// Writes a non-negative integer.
    pub fn emit_u64(&mut self, v: u64) -> (r: Result<(), crate::serde::Error>)
        ensures
            r is Ok,
            final(self).text() == old(self).text() + value_sep(old(self).open()) + dec_digits(v as nat),
            final(self).open() == after_value(old(self).open()),
    {
        self.before_value();
        write_u64(&mut self.out, v);
        Ok(())
    }

    /// Writes a string literal.
    pub fn emit_str(&mut self, v: &str) -> (r: Result<(), crate::serde::Error>)
        ensures
            r is Ok,
            final(self).text() == old(self).text() + value_sep(old(self).open()) + json_string(v@),
            final(self).open() == after_value(old(self).open()),
    {
        self.before_value();
        write_string(&mut self.out, v);
        Ok(())
    }

    /// Opens an array.
    pub fn begin_seq(&mut self) -> (r: Result<(), crate::serde::Error>)
        ensures
            r is Ok,
            final(self).text() == old(self).text() + value_sep(old(self).open()) + seq!['['],
            final(self).open() == after_value(old(self).open()).push((0u8, false)),
    {
        self.before_value();
        push_char(&mut self.out, '[');
        self.stack.push((0, false));
        Ok(())
    }

    /// Closes an array.
    pub fn end_seq(&mut self) -> (r: Result<(), crate::serde::Error>)
        ensures
            r is Ok,
            final(self).text() == old(self).text() + seq![']'],
            final(self).open() == if old(self).open().len() > 0 {
                old(self).open().drop_last()
            } else {
                old(self).open()
            },
    {
        push_char(&mut self.out, ']');
        self.stack.pop();
        Ok(())
    }

    /// Opens an object.
    pub fn begin_map(&mut self) -> (r: Result<(), crate::serde::Error>)
        ensures
            r is Ok,
            final(self).text() == old(self).text() + value_sep(old(self).open()) + seq!['{'],
            final(self).open() == after_value(old(self).open()).push((1u8, false)),
    {
        self.before_value();
        push_char(&mut self.out, '{');
        self.stack.push((1, false));
        Ok(())
    }

    /// Writes a key and its `:`, after a `,` if the innermost container already has
    /// something; outside any container it is an error.
    pub fn key(&mut self, k: &str) -> (r: Result<(), crate::serde::Error>)
        ensures
            old(self).open().len() == 0 ==> (r matches Err(e) && e.0@ == "key outside map"@
                && final(self).text() == old(self).text() && final(self).open() == old(self).open()),
            old(self).open().len() > 0 ==> {
                let top = old(self).open().last();
                &&& r is Ok
                &&& final(self).text() == old(self).text() + (if top.1 {
                    seq![',']
                } else {
                    Seq::empty()
                }) + json_string(k@) + seq![':']
                &&& final(self).open() == old(self).open().update(old(self).open().len() - 1, (top.0, true))
            },
    {
        let n = self.stack.len();
        if n == 0 {
            return Err(crate::serde::err("key outside map"));
        }
        let ghost start = self.out@;
        let top = self.stack[n - 1];
        if top.1 {
            push_char(&mut self.out, ',');
        } else {
            self.stack.set(n - 1, (top.0, true));
        }
        write_string(&mut self.out, k);
        push_char(&mut self.out, ':');
        assert(self.stack@ =~= old(self).stack@.update(n - 1, (top.0, true)));
        Ok(())
    }

    /// Closes an object.
    pub fn end_map(&mut self) -> (r: Result<(), crate::serde::Error>)
        ensures
            r is Ok,
            final(self).text() == old(self).text() + seq!['}'],
            final(self).open() == if old(self).open().len() > 0 {
                old(self).open().drop_last()
            } else {
                old(self).open()
            },
    {
        push_char(&mut self.out, '}');
        self.stack.pop();
        Ok(())
    }
}

impl Default for JsonSer {
    fn default() -> (s: JsonSer)
        ensures
            s.text() == Seq::<char>::empty(),
            s.open() == Seq::<(u8, bool)>::empty(),
    {
        JsonSer::new()
    }
}

/// A deserializer over a JSON text.
pub struct JsonDe<'a> {
    p: Parser<'a>,
}

impl<'a> JsonDe<'a> {
    /// The input bytes and the position reached.
    pub closed spec fn state(&self) -> (Seq<u8>, int) {
        (self.p.bytes@, self.p.pos as int)
    }

    /// Whether the position lies within the input.
    pub closed spec fn wf(&self) -> bool {
        self.p.wf()
    }

    /// A deserializer at the start of `s`.
    pub fn new(s: &'a str) -> (d: JsonDe<'a>)
        requires
            s.spec_bytes().len() < usize::MAX,
        ensures
            d.wf(),
            d.state() == (s.spec_bytes(), 0int),
    {
        JsonDe { p: Parser::new(s.as_bytes()) }
    }

    /// Checks that only white space is left.
    pub fn finish(&mut self) -> (r: Result<(), crate::serde::Error>)
        requires
            old(self).wf(),
        ensures
            final(self).wf(),
            final(self).state() == (old(self).state().0, ws_after(old(self).state().0, old(self).state().1)),
            final(self).state().1 < final(self).state().0.len() ==> (r matches Err(e) && exists|x: Error|
                error_at(x, ("trailing characters"@, final(self).state().1), final(self).state().0) && e.0@
                    == error_text(x)),
            final(self).state().1 >= final(self).state().0.len() ==> r is Ok,
    {
        self.p.skip_ws();
        if self.p.pos < self.p.bytes.len() {
            let e = self.p.error("trailing characters");
            return Err(crate::serde::Error(e.to_string()));
        }
        Ok(())
    }
}

/// A JSON value as plain values; a number with a fraction or exponent is held as
/// its text.
pub enum Json {
    Null,
    Bool(bool),
    PosInt(u64),
    NegInt(i64),
    Float(Seq<char>),
    Str(Seq<char>),
    Array(Seq<Json>),
    Object(Seq<(Seq<char>, Json)>),
}

/// A JSON value. An object holds its members sorted by key, each key once; a number
/// with a fraction or exponent holds its text (as read, or as it is to be written).
#[derive(Debug)]
pub enum Value {
    Null,
    Bool(bool),
    Number(Number),
    String(String),
    Array(Vec<Value>),
    Object(Vec<(String, Value)>),
}

/// A number as plain values.
pub open spec fn number_json(n: Number) -> Json {
    match n {
        Number::PosInt(u) => Json::PosInt(u),
        Number::NegInt(i) => Json::NegInt(i),
        Number::Float(s) => Json::Float(s@),
    }
}

/// A value as plain values.
pub open spec fn json_of(v: Value) -> Json
    decreases v,
{
    match v {
        Value::Null => Json::Null,
        Value::Bool(b) => Json::Bool(b),
        Value::Number(n) => number_json(n),
        Value::String(s) => Json::Str(s@),
        Value::Array(a) => Json::Array(
            Seq::new(
                a@.len(),
                |i: int|
                    if 0 <= i < a@.len() {
                        json_of(a@[i])
                    } else {
                        Json::Null
                    },
            ),
        ),
        Value::Object(o) => Json::Object(
            Seq::new(
                o@.len(),
                |i: int|
                    if 0 <= i < o@.len() {
                        (o@[i].0@, json_of(o@[i].1))
                    } else {
                        (Seq::empty(), Json::Null)
                    },
            ),
        ),
    }
}

/// A number at `q` as a value, and the position after it, or the error.
pub open spec fn spec_number_json(b: Seq<u8>, q: int) -> Result<(Json, int), ErrAt> {
    match spec_number_end(b, q) {
        Err(e) => Err(e),
        Ok((e, f)) => {
            let neg = byte_at(b, q, 45);
            let p1 = if neg {
                q + 1
            } else {
                q
            };
            let v = byte_digits_value(b.subrange(p1, e));
            if f {
                Ok((Json::Float(byte_chars(b.subrange(q, e))), e))
            } else if neg {
                if v <= 0x8000_0000_0000_0000 {
                    Ok((Json::NegInt((-v) as i64), e))
                } else {
                    Err(("number out of range"@, e))
                }
            } else if v <= u64::MAX {
                Ok((Json::PosInt(v as u64), e))
            } else {
                Err(("number out of range"@, e))
            }
        },
    }
}

/// Whether the bytes `lit` stand at `p`.
pub open spec fn lit_at(b: Seq<u8>, p: int, lit: Seq<u8>) -> bool {
    0 <= p && p + lit.len() <= b.len() && b.subrange(p, p + lit.len()) == lit
}

/// A literal at `p`: the value, or the error.
pub open spec fn spec_literal(b: Seq<u8>, p: int, lit: Seq<u8>, v: Json) -> Result<(Json, int), ErrAt> {
    if lit_at(b, p, lit) {
        Ok((v, p + lit.len()))
    } else {
        Err(("invalid literal"@, p))
    }
}

/// The members of `m`, sorted by key, with `v` set at key `k`: in place where `k` is
/// there, else inserted in order.
pub open spec fn obj_insert(m: Seq<(Seq<char>, Json)>, k: Seq<char>, v: Json) -> Seq<(Seq<char>, Json)>
    decreases m.len(),
{
    if m.len() == 0 {
        seq![(k, v)]
    } else if m[0].0 == k {
        seq![(k, v)] + m.drop_first()
    } else if lex_lt(k, m[0].0) {
        seq![(k, v)] + m
    } else {
        seq![m[0]] + obj_insert(m.drop_first(), k, v)
    }
}

/// The bytes of `true`, `false` and `null`.
pub open spec fn true_bytes() -> Seq<u8> {
    seq![116u8, 114u8, 117u8, 101u8]
}

/// The bytes of `false`.
pub open spec fn false_bytes() -> Seq<u8> {
    seq![102u8, 97u8, 108u8, 115u8, 101u8]
}

/// The bytes of `null`.
pub open spec fn null_bytes() -> Seq<u8> {
    seq![110u8, 117u8, 108u8, 108u8]
}

/// A value after the white space at `p`: the value and the position after it, or the
/// error. `fuel` bounds the depth of the reading; `3 * (b.len() - p) + 3` always
/// suffices.
pub open spec fn spec_value(b: Seq<u8>, p: int, fuel: nat) -> Result<(Json, int), ErrAt>
    decreases fuel, 3int,
{
    let q = ws_after(b, p);
    if fuel == 0 || q < 0 || q >= b.len() {
        Err(("unexpected end of input"@, q))
    } else if b[q] == 123 {
        spec_object(b, q, (fuel - 1) as nat)
    } else if b[q] == 91 {
        spec_array(b, q, (fuel - 1) as nat)
    } else if b[q] == 34 {
        match spec_parse_string(b, q) {
            Ok((s, e)) => Ok((Json::Str(s), e)),
            Err(x) => Err(x),
        }
    } else if b[q] == 116 {
        spec_literal(b, q, true_bytes(), Json::Bool(true))
    } else if b[q] == 102 {
        spec_literal(b, q, false_bytes(), Json::Bool(false))
    } else if b[q] == 110 {
        spec_literal(b, q, null_bytes(), Json::Null)
    } else if b[q] == 45 || is_digit_byte(b[q]) {
        spec_number_json(b, q)
    } else {
        Err(("expected value"@, q))
    }
}

/// An array whose `[` is at `p`.
pub open spec fn spec_array(b: Seq<u8>, p: int, fuel: nat) -> Result<(Json, int), ErrAt>
    decreases fuel, 2int,
{
    let q = ws_after(b, p + 1);
    if byte_at(b, q, 93) {
        Ok((Json::Array(Seq::empty()), q + 1))
    } else {
        spec_elems(b, q, Seq::empty(), fuel)
    }
}

/// The elements of an array from `p`, after the elements `acc`.
pub open spec fn spec_elems(b: Seq<u8>, p: int, acc: Seq<Json>, fuel: nat) -> Result<(Json, int), ErrAt>
    decreases fuel, 1int,
{
    if fuel == 0 {
        Err(("unexpected end of input"@, p))
    } else {
        match spec_value(b, p, (fuel - 1) as nat) {
            Err(x) => Err(x),
            Ok((v, e)) => {
                let q = ws_after(b, e);
                if byte_at(b, q, 44) {
                    spec_elems(b, q + 1, acc.push(v), (fuel - 1) as nat)
                } else if byte_at(b, q, 93) {
                    Ok((Json::Array(acc.push(v)), q + 1))
                } else {
                    Err(("expected `,` or `]`"@, q))
                }
            },
        }
    }
}

/// An object whose `{` is at `p`.
pub open spec fn spec_object(b: Seq<u8>, p: int, fuel: nat) -> Result<(Json, int), ErrAt>
    decreases fuel, 2int,
{
    let q = ws_after(b, p + 1);
    if byte_at(b, q, 125) {
        Ok((Json::Object(Seq::empty()), q + 1))
    } else {
        spec_members(b, q, Seq::empty(), fuel)
    }
}

/// The members of an object from `p`, after the members `acc`; a later member with
/// the key of an earlier one replaces it.
pub open spec fn spec_members(b: Seq<u8>, p: int, acc: Seq<(Seq<char>, Json)>, fuel: nat) -> Result<
    (Json, int),
    ErrAt,
>
    decreases fuel, 1int,
{
    let q = ws_after(b, p);
    if fuel == 0 {
        Err(("unexpected end of input"@, q))
    } else if !byte_at(b, q, 34) {
        Err(("expected string key"@, q))
    } else {
        match spec_parse_string(b, q) {
            Err(x) => Err(x),
            Ok((k, e1)) => {
                let q2 = ws_after(b, e1);
                if !byte_at(b, q2, 58) {
                    Err(("expected :"@, q2))
                } else {
                    match spec_value(b, q2 + 1, (fuel - 1) as nat) {
                        Err(x) => Err(x),
                        Ok((v, e3)) => {
                            let m = obj_insert(acc, k, v);
                            let q4 = ws_after(b, e3);
                            if byte_at(b, q4, 44) {
                                spec_members(b, q4 + 1, m, (fuel - 1) as nat)
                            } else if byte_at(b, q4, 125) {
                                Ok((Json::Object(m), q4 + 1))
                            } else {
                                Err(("expected `,` or `}`"@, q4))
                            }
                        },
                    }
                }
            },
        }
    }
}

/// A JSON text: one value with white space around it, or the error.
pub open spec fn spec_from_str(b: Seq<u8>) -> Result<Json, ErrAt> {
    match spec_value(b, ws_after(b, 0), (3 * b.len() + 3) as nat) {
        Err(x) => Err(x),
        Ok((v, e)) => {
            let r = ws_after(b, e);
            if r < b.len() {
                Err(("trailing characters"@, r))
            } else {
                Ok(v)
            }
        },
    }
}

/// `a` never comes before itself.
pub proof fn lemma_lex_irrefl(a: Seq<char>)
    ensures
        !lex_lt(a, a),
    decreases a.len(),
{
    if a.len() > 0 {
        lemma_lex_irrefl(a.drop_first());
    }
}

/// Of two different texts, exactly one comes first.
pub proof fn lemma_lex_total(a: Seq<char>, b: Seq<char>)
    ensures
        a != b ==> (lex_lt(a, b) || lex_lt(b, a)),
        !(lex_lt(a, b) && lex_lt(b, a)),
    decreases a.len(),
{
    if a.len() > 0 && b.len() > 0 && a[0] == b[0] {
        lemma_lex_total(a.drop_first(), b.drop_first());
        if a.drop_first() == b.drop_first() {
            assert(a =~= seq![a[0]] + a.drop_first());
            assert(b =~= seq![b[0]] + b.drop_first());
        }
    } else if a.len() == 0 && b.len() == 0 {
        assert(a =~= b);
    }
}

/// The members of an object as plain values.
pub open spec fn members(m: Seq<(String, Value)>) -> Seq<(Seq<char>, Json)> {
    m.map_values(|kv: (String, Value)| (kv.0@, json_of(kv.1)))
}

proof fn lemma_obj_insert_at(m: Seq<(Seq<char>, Json)>, k: Seq<char>, v: Json, i: int)
    requires
        0 <= i <= m.len(),
        forall|j: int| 0 <= j < i ==> lex_lt(#[trigger] m[j].0, k),
        i < m.len() ==> !lex_lt(m[i].0, k),
    ensures
        obj_insert(m, k, v) == if i < m.len() && m[i].0 == k {
            m.take(i) + seq![(k, v)] + m.skip(i + 1)
        } else {
            m.take(i) + seq![(k, v)] + m.skip(i)
        },
    decreases i,
{
    if i == 0 {
        if m.len() > 0 {
            lemma_lex_total(m[0].0, k);
            assert(m.skip(1) =~= m.drop_first());
            assert(m.skip(0) =~= m);
        }
        assert(m.take(0) =~= Seq::<(Seq<char>, Json)>::empty());
    } else {
        lemma_lex_irrefl(k);
        lemma_lex_total(m[0].0, k);
        lemma_obj_insert_at(m.drop_first(), k, v, i - 1);
        assert(m.drop_first().take(i - 1) =~= m.take(i).drop_first());
        if i < m.len() {
            assert(m.drop_first().skip(i) =~= m.skip(i + 1));
        }
        assert(m.drop_first().skip(i - 1) =~= m.skip(i));
        assert(m.take(i) =~= seq![m[0]] + m.take(i).drop_first());
    }
}

fn object_insert(m: &mut Vec<(String, Value)>, k: String, v: Value)
    ensures
        members(final(m)@) == obj_insert(members(old(m)@), k@, json_of(v)),
{
    let ghost mm = members(m@);
    let mut i: usize = 0;
    while i < m.len() && str_lt(m[i].0.as_str(), k.as_str())
        invariant
            i <= m@.len(),
            mm == members(m@),
            m@ == old(m)@,
            forall|j: int| 0 <= j < i ==> lex_lt(#[trigger] mm[j].0, k@),
        decreases m@.len() - i,
    {
        i = i + 1;
    }
    proof {
        lemma_obj_insert_at(mm, k@, json_of(v), i as int);
    }
    if i < m.len() && m[i].0 == k {
        m.set(i, (k, v));
        assert(members(m@) =~= mm.take(i as int) + seq![(k@, json_of(v))] + mm.skip(i + 1));
    } else {
        let ghost kv = (k@, json_of(v));
        m.insert(i, (k, v));
        assert(members(m@) =~= mm.take(i as int) + seq![kv] + mm.skip(i as int));
    }
}

/// The result of reading a value, against its model.
pub open spec fn value_result(r: Result<Value, Error>, m: Result<(Json, int), ErrAt>, b: Seq<u8>, pos: int) -> bool {
    match m {
        Ok((j, e)) => r matches Ok(v) && json_of(v) == j && pos == e,
        Err(x) => r matches Err(err) && error_at(err, x, b),
    }
}

impl<'a> Parser<'a> {
    fn parse_literal(&mut self, lit: &[u8], val: Value) -> (r: Result<Value, Error>)
        requires
            old(self).wf(),
        ensures
            final(self).wf(),
            final(self).bytes@ == old(self).bytes@,
            value_result(r, spec_literal(old(self).bytes@, old(self).pos as int, lit@, json_of(val)), old(self).bytes@, final(self).pos as int),
    {
        if self.bytes.len() - self.pos < lit.len() {
            return Err(self.error("invalid literal"));
        }
        let mut k: usize = 0;
        while k < lit.len()
            invariant
                self.wf(),
                self.pos + lit@.len() <= self.bytes@.len(),
                k <= lit@.len(),
                forall|j: int| 0 <= j < k ==> self.bytes@[self.pos + j] == lit@[j],
            decreases lit@.len() - k,
        {
            if self.bytes[self.pos + k] != lit[k] {
                assert(self.bytes@.subrange(self.pos as int, self.pos + lit@.len())[k as int] != lit@[k as int]);
                return Err(self.error("invalid literal"));
            }
            k = k + 1;
        }
        assert(self.bytes@.subrange(self.pos as int, self.pos + lit@.len()) =~= lit@);
        self.pos = self.pos + lit.len();
        Ok(val)
    }

    fn parse_value(&mut self, Ghost(fuel): Ghost<nat>) -> (r: Result<Value, Error>)
        requires
            old(self).wf(),
            fuel >= 3 * (old(self).bytes@.len() - old(self).pos) + 3,
        ensures
            final(self).wf(),
            final(self).bytes@ == old(self).bytes@,
            value_result(r, spec_value(old(self).bytes@, old(self).pos as int, fuel), old(self).bytes@, final(self).pos as int),
            r is Ok ==> final(self).pos > old(self).pos,
        decreases fuel, 3int,
    {
        let ghost b = self.bytes@;
        self.skip_ws();
        proof {
            lemma_ws_after(b, old(self).pos as int);
        }
        if self.pos >= self.bytes.len() {
            return Err(self.error("unexpected end of input"));
        }
        let c = self.bytes[self.pos];
        if c == 123 {
            self.parse_object(Ghost((fuel - 1) as nat))
        } else if c == 91 {
            self.parse_array(Ghost((fuel - 1) as nat))
        } else if c == 34 {
            match self.parse_string() {
                Ok(s) => Ok(Value::String(s)),
                Err(e) => Err(e),
            }
        } else if c == 116 {
            let lit: [u8; 4] = [116, 114, 117, 101];
            assert(lit@ =~= true_bytes());
            self.parse_literal(&lit, Value::Bool(true))
        } else if c == 102 {
            let lit: [u8; 5] = [102, 97, 108, 115, 101];
            assert(lit@ =~= false_bytes());
            self.parse_literal(&lit, Value::Bool(false))
        } else if c == 110 {
            let lit: [u8; 4] = [110, 117, 108, 108];
            assert(lit@ =~= null_bytes());
            self.parse_literal(&lit, Value::Null)
        } else if c == 45 || (48 <= c && c <= 57) {
            let ghost q = self.pos as int;
            match self.parse_number() {
                Ok(n) => {
                    proof {
                        let (e, f) = spec_number_end(b, q)->Ok_0;
                        let neg = byte_at(b, q, 45);
                        let p1 = if neg { q + 1 } else { q };
                        lemma_number_end(b, q);
                    }
                    Ok(Value::Number(n))
                },
                Err(e) => Err(e),
            }
        } else {
            Err(self.error("expected value"))
        }
    }

    fn parse_array(&mut self, Ghost(fuel): Ghost<nat>) -> (r: Result<Value, Error>)
        requires
            old(self).wf(),
            old(self).pos < old(self).bytes@.len(),
            fuel >= 3 * (old(self).bytes@.len() - old(self).pos) + 2,
        ensures
            final(self).wf(),
            final(self).bytes@ == old(self).bytes@,
            value_result(r, spec_array(old(self).bytes@, old(self).pos as int, fuel), old(self).bytes@, final(self).pos as int),
            r is Ok ==> final(self).pos > old(self).pos,
        decreases fuel, 2int,
    {
        let ghost b = self.bytes@;
        let ghost p0 = self.pos as int;
        self.pos = self.pos + 1;
        self.skip_ws();
        proof {
            lemma_ws_after(b, p0 + 1);
        }
        let mut arr: Vec<Value> = Vec::new();
        if self.pos < self.bytes.len() && self.bytes[self.pos] == 93 {
            self.pos = self.pos + 1;
            proof {
                lemma_json_array(arr);
                assert(arr@.map_values(|v: Value| json_of(v)) =~= Seq::<Json>::empty());
            }
            return Ok(Value::Array(arr));
        }
        let ghost target = spec_array(b, p0, fuel);
        let ghost mut f: nat = fuel;
        assert(arr@.map_values(|v: Value| json_of(v)) =~= Seq::<Json>::empty());
        loop
            invariant
                self.wf(),
                self.bytes@ == b,
                b == old(self).bytes@,
                p0 == old(self).pos,
                self.pos > p0,
                f >= 3 * (b.len() - self.pos) + 4,
                f <= fuel,
                target == spec_array(b, p0, fuel),
                target == spec_elems(b, self.pos as int, arr@.map_values(|v: Value| json_of(v)), f),
            decreases b.len() - self.pos,
        {
            let ghost before = arr@.map_values(|v: Value| json_of(v));
            let v = match self.parse_value(Ghost((f - 1) as nat)) {
                Ok(v) => v,
                Err(e) => return Err(e),
            };
            arr.push(v);
            assert(arr@.map_values(|v: Value| json_of(v)) =~= before.push(json_of(v)));
            let ghost e = self.pos as int;
            self.skip_ws();
            proof {
                lemma_ws_after(b, e);
            }
            if self.pos < self.bytes.len() && self.bytes[self.pos] == 44 {
                self.pos = self.pos + 1;
                proof {
                    f = (f - 1) as nat;
                }
            } else if self.pos < self.bytes.len() && self.bytes[self.pos] == 93 {
                self.pos = self.pos + 1;
                proof {
                    lemma_json_array(arr);
                }
                return Ok(Value::Array(arr));
            } else {
                return Err(self.error("expected `,` or `]`"));
            }
        }
    }

    fn parse_object(&mut self, Ghost(fuel): Ghost<nat>) -> (r: Result<Value, Error>)
        requires
            old(self).wf(),
            old(self).pos < old(self).bytes@.len(),
            fuel >= 3 * (old(self).bytes@.len() - old(self).pos) + 2,
        ensures
            final(self).wf(),
            final(self).bytes@ == old(self).bytes@,
            value_result(r, spec_object(old(self).bytes@, old(self).pos as int, fuel), old(self).bytes@, final(self).pos as int),
            r is Ok ==> final(self).pos > old(self).pos,
        decreases fuel, 2int,
    {
        let ghost b = self.bytes@;
        let ghost p0 = self.pos as int;
        self.pos = self.pos + 1;
        self.skip_ws();
        proof {
            lemma_ws_after(b, p0 + 1);
        }
        let mut map: Vec<(String, Value)> = Vec::new();
        if self.pos < self.bytes.len() && self.bytes[self.pos] == 125 {
            self.pos = self.pos + 1;
            proof {
                lemma_json_object(map);
                assert(members(map@) =~= Seq::<(Seq<char>, Json)>::empty());
            }
            return Ok(Value::Object(map));
        }
        let ghost target = spec_object(b, p0, fuel);
        let ghost mut f: nat = fuel;
        assert(members(map@) =~= Seq::<(Seq<char>, Json)>::empty());
        loop
            invariant
                self.wf(),
                self.bytes@ == b,
                b == old(self).bytes@,
                p0 == old(self).pos,
                self.pos > p0,
                f >= 3 * (b.len() - self.pos) + 4,
                f <= fuel,
                target == spec_object(b, p0, fuel),
                target == spec_members(b, self.pos as int, members(map@), f),
            decreases b.len() - self.pos,
        {
            let ghost p1 = self.pos as int;
            self.skip_ws();
            proof {
                lemma_ws_after(b, p1);
            }
            if !(self.pos < self.bytes.len() && self.bytes[self.pos] == 34) {
                return Err(self.error("expected string key"));
            }
            let key = match self.parse_string() {
                Ok(k) => k,
                Err(e) => return Err(e),
            };
            let ghost e1 = self.pos as int;
            self.skip_ws();
            proof {
                lemma_ws_after(b, e1);
            }
            if !(self.pos < self.bytes.len() && self.bytes[self.pos] == 58) {
                return Err(self.error("expected :"));
            }
            self.pos = self.pos + 1;
            let val = match self.parse_value(Ghost((f - 1) as nat)) {
                Ok(v) => v,
                Err(e) => return Err(e),
            };
            object_insert(&mut map, key, val);
            let ghost e3 = self.pos as int;
            self.skip_ws();
            proof {
                lemma_ws_after(b, e3);
            }
            if self.pos < self.bytes.len() && self.bytes[self.pos] == 44 {
                self.pos = self.pos + 1;
                proof {
                    f = (f - 1) as nat;
                }
            } else if self.pos < self.bytes.len() && self.bytes[self.pos] == 125 {
                self.pos = self.pos + 1;
                proof {
                    lemma_json_object(map);
                }
                return Ok(Value::Object(map));
            } else {
                return Err(self.error("expected `,` or `}`"));
            }
        }
    }
}

/// An array value as plain values: its elements as plain values.
proof fn lemma_json_array(a: Vec<Value>)
    ensures
        json_of(Value::Array(a)) == Json::Array(a@.map_values(|v: Value| json_of(v))),
{
    let xs = json_of(Value::Array(a))->Array_0;
    assert(xs =~= a@.map_values(|v: Value| json_of(v)));
}

/// An object value as plain values: its members as plain values.
proof fn lemma_json_object(o: Vec<(String, Value)>)
    ensures
        json_of(Value::Object(o)) == Json::Object(members(o@)),
{
    let xs = json_of(Value::Object(o))->Object_0;
    assert(xs =~= members(o@));
}

/// White space ends within the input, at or after its start.
proof fn lemma_ws_after(b: Seq<u8>, p: int)
    requires
        0 <= p <= b.len(),
    ensures
        p <= ws_after(b, p) <= b.len(),
    decreases b.len() - p,
{
    if p < b.len() && is_json_ws(b[p]) {
        lemma_ws_after(b, p + 1);
    }
}

/// A number ends after its start.
proof fn lemma_number_end(b: Seq<u8>, p: int)
    requires
        0 <= p <= b.len(),
        spec_number_end(b, p) is Ok,
    ensures
        p < spec_number_end(b, p)->Ok_0.0 <= b.len(),
{
    let p1 = if byte_at(b, p, 45) { p + 1 } else { p };
    lemma_digits_after(b, p1);
    if b[p1] != 48 {
        assert(digits_after(b, p1) == digits_after(b, p1 + 1));
        lemma_digits_after(b, p1 + 1);
    }
    let p2 = if b[p1] == 48 { p1 + 1 } else { digits_after(b, p1) };
    if byte_at(b, p2, 46) {
        lemma_digits_after(b, p2 + 1);
        let p3 = digits_after(b, p2 + 1);
        if byte_at(b, p3, 101) || byte_at(b, p3, 69) {
            let p5 = if byte_at(b, p3 + 1, 43) || byte_at(b, p3 + 1, 45) { p3 + 2 } else { p3 + 1 };
            lemma_digits_after(b, p5);
        }
    } else if byte_at(b, p2, 101) || byte_at(b, p2, 69) {
        let p5 = if byte_at(b, p2 + 1, 43) || byte_at(b, p2 + 1, 45) { p2 + 2 } else { p2 + 1 };
        lemma_digits_after(b, p5);
    }
}

/// Parses a JSON text: one value, with only white space around it.
pub fn from_str(s: &str) -> (r: Result<Value, Error>)
    requires
        s.spec_bytes().len() < usize::MAX,
    ensures
        match spec_from_str(s.spec_bytes()) {
            Ok(j) => r matches Ok(v) && json_of(v) == j,
            Err(x) => r matches Err(e) && error_at(e, x, s.spec_bytes()),
        },
{
    let mut p = Parser::new(s.as_bytes());
    let ghost b = p.bytes@;
    p.skip_ws();
    proof {
        lemma_ws_after(b, 0);
    }
    let v = match p.parse_value(Ghost((3 * b.len() + 3) as nat)) {
        Ok(v) => v,
        Err(e) => return Err(e),
    };
    p.skip_ws();
    if p.pos < p.bytes.len() {
        return Err(p.error("trailing characters"));
    }
    Ok(v)
}

/// The compact text of a value: no white space, members in key order.
pub open spec fn compact_text(j: Json) -> Seq<char>
    decreases j, 0int,
{
    match j {
        Json::Null => "null"@,
        Json::Bool(b) => if b {
            "true"@
        } else {
            "false"@
        },
        Json::PosInt(u) => dec_digits(u as nat),
        Json::NegInt(i) => i64_text(i),
        Json::Float(t) => t,
        Json::Str(s) => json_string(s),
        Json::Array(xs) => seq!['['] + compact_items(xs, xs.len() as int) + seq![']'],
        Json::Object(ms) => seq!['{'] + compact_members(ms, ms.len() as int) + seq!['}'],
    }
}

/// The compact texts of the first `k` elements, separated by `,`.
pub open spec fn compact_items(xs: Seq<Json>, k: int) -> Seq<char>
    decreases xs, k,
{
    if k <= 0 || k > xs.len() {
        Seq::empty()
    } else if k == 1 {
        compact_text(xs[0])
    } else {
        compact_items(xs, k - 1) + seq![','] + compact_text(xs[k - 1])
    }
}

/// The compact texts of the first `k` members, `"key":value`, separated by `,`.
pub open spec fn compact_members(ms: Seq<(Seq<char>, Json)>, k: int) -> Seq<char>
    decreases ms, k,
{
    if k <= 0 || k > ms.len() {
        Seq::empty()
    } else {
        let m = json_string(ms[k - 1].0) + seq![':'] + compact_text(ms[k - 1].1);
        if k == 1 {
            m
        } else {
            compact_members(ms, k - 1) + seq![','] + m
        }
    }
}

fn write_compact(out: &mut String, v: &Value)
    ensures
        final(out)@ == old(out)@ + compact_text(json_of(*v)),
    decreases v,
{
    let ghost start = out@;
    match v {
        Value::Null => push_str(out, "null"),
        Value::Bool(b) => {
            if *b {
                push_str(out, "true");
            } else {
                push_str(out, "false");
            }
        },
        Value::Number(Number::PosInt(u)) => write_u64(out, *u),
        Value::Number(Number::NegInt(i)) => write_i64(out, *i),
        Value::Number(Number::Float(t)) => push_str(out, t.as_str()),
        Value::String(s) => write_string(out, s.as_str()),
        Value::Array(a) => {
            proof {
                lemma_json_array(*a);
            }
            let ghost xs = a@.map_values(|x: Value| json_of(x));
            push_char(out, '[');
            let mut i: usize = 0;
            while i < a.len()
                invariant
                    *v == Value::Array(*a),
                    i <= a@.len(),
                    xs == a@.map_values(|x: Value| json_of(x)),
                    out@ == start + seq!['['] + compact_items(xs, i as int),
                decreases a@.len() - i,
            {
                if i > 0 {
                    push_char(out, ',');
                }
                assert(decreases_to!(*v => (*v)->Array_0));
                assert((*v)->Array_0 == *a);
                assert(decreases_to!(*a => a@));
                assert(decreases_to!(a@ => a@[i as int]));
                assert(decreases_to!(*v => a@[i as int]));
                write_compact(out, &a[i]);
                assert(out@ =~= start + seq!['['] + compact_items(xs, i + 1));
                i = i + 1;
            }
            push_char(out, ']');
        },
        Value::Object(o) => {
            proof {
                lemma_json_object(*o);
            }
            let ghost ms = members(o@);
            push_char(out, '{');
            let mut i: usize = 0;
            while i < o.len()
                invariant
                    *v == Value::Object(*o),
                    i <= o@.len(),
                    ms == members(o@),
                    out@ == start + seq!['{'] + compact_members(ms, i as int),
                decreases o@.len() - i,
            {
                if i > 0 {
                    push_char(out, ',');
                }
                write_string(out, o[i].0.as_str());
                push_char(out, ':');
                assert(decreases_to!(*v => (*v)->Object_0));
                assert((*v)->Object_0 == *o);
                assert(decreases_to!(*o => o@));
                assert(decreases_to!(o@ => o@[i as int]));
                assert(decreases_to!(o@[i as int] => o@[i as int].1));
                assert(decreases_to!(*v => o@[i as int].1));
                write_compact(out, &o[i].1);
                assert(out@ =~= start + seq!['{'] + compact_members(ms, i + 1));
                i = i + 1;
            }
            push_char(out, '}');
        },
    }
    assert(out@ =~= start + compact_text(json_of(*v)));
}

/// The compact JSON text of `v`.
pub fn to_string(v: &Value) -> (s: String)
    ensures
        s@ == compact_text(json_of(*v)),
{
    let mut out = String::new();
    write_compact(&mut out, v);
    out
}

/// The indented text of a value at nesting `depth`: each element or member on a line
/// of its own, indented one level deeper; empty arrays and objects and other values as
/// in the compact text.
pub open spec fn pretty_text(j: Json, depth: nat) -> Seq<char>
    decreases j, 0int,
{
    match j {
        Json::Array(xs) => if xs.len() > 0 {
            seq!['['] + pretty_items(xs, xs.len() as int, depth) + seq!['\n'] + indent_text(depth)
                + seq![']']
        } else {
            compact_text(j)
        },
        Json::Object(ms) => if ms.len() > 0 {
            seq!['{'] + pretty_members(ms, ms.len() as int, depth) + seq!['\n'] + indent_text(depth)
                + seq!['}']
        } else {
            compact_text(j)
        },
        _ => compact_text(j),
    }
}

/// The first `k` elements, each on a new line at `depth + 1`, separated by `,`.
pub open spec fn pretty_items(xs: Seq<Json>, k: int, depth: nat) -> Seq<char>
    decreases xs, k,
{
    if k <= 0 || k > xs.len() {
        Seq::empty()
    } else {
        pretty_items(xs, k - 1, depth) + (if k > 1 {
            seq![',']
        } else {
            Seq::empty()
        }) + seq!['\n'] + indent_text(depth + 1) + pretty_text(xs[k - 1], depth + 1)
    }
}

/// The first `k` members, each on a new line at `depth + 1` as `"key": value`,
/// separated by `,`.
pub open spec fn pretty_members(ms: Seq<(Seq<char>, Json)>, k: int, depth: nat) -> Seq<char>
    decreases ms, k,
{
    if k <= 0 || k > ms.len() {
        Seq::empty()
    } else {
        pretty_members(ms, k - 1, depth) + (if k > 1 {
            seq![',']
        } else {
            Seq::empty()
        }) + seq!['\n'] + indent_text(depth + 1) + json_string(ms[k - 1].0) + seq![':', ' ']
            + pretty_text(ms[k - 1].1, depth + 1)
    }
}

fn write_pretty(out: &mut String, v: &Value, ind: &String, Ghost(depth): Ghost<nat>)
    requires
        ind@ == indent_text(depth),
    ensures
        final(out)@ == old(out)@ + pretty_text(json_of(*v), depth),
    decreases v,
{
    let ghost start = out@;
    match v {
        Value::Array(a) => {
            proof {
                lemma_json_array(*a);
            }
            if a.len() == 0 {
                write_compact(out, v);
                return;
            }
            let ghost xs = a@.map_values(|x: Value| json_of(x));
            push_char(out, '[');
            let mut inner = ind.clone();
            push_char(&mut inner, ' ');
            push_char(&mut inner, ' ');
            let mut i: usize = 0;
            while i < a.len()
                invariant
                    *v == Value::Array(*a),
                    ind@ == indent_text(depth),
                    inner@ == indent_text(depth + 1),
                    i <= a@.len(),
                    xs == a@.map_values(|x: Value| json_of(x)),
                    out@ == start + seq!['['] + pretty_items(xs, i as int, depth),
                decreases a@.len() - i,
            {
                if i > 0 {
                    push_char(out, ',');
                }
                push_char(out, '\n');
                push_str(out, inner.as_str());
                assert(decreases_to!(*v => (*v)->Array_0));
                assert((*v)->Array_0 == *a);
                assert(decreases_to!(*a => a@));
                assert(decreases_to!(a@ => a@[i as int]));
                write_pretty(out, &a[i], &inner, Ghost(depth + 1));
                assert(out@ =~= start + seq!['['] + pretty_items(xs, i + 1, depth));
                i = i + 1;
            }
            push_char(out, '\n');
            push_str(out, ind.as_str());
            push_char(out, ']');
        },
        Value::Object(o) => {
            proof {
                lemma_json_object(*o);
            }
            if o.len() == 0 {
                write_compact(out, v);
                return;
            }
            let ghost ms = members(o@);
            push_char(out, '{');
            let mut inner = ind.clone();
            push_char(&mut inner, ' ');
            push_char(&mut inner, ' ');
            let mut i: usize = 0;
            while i < o.len()
                invariant
                    *v == Value::Object(*o),
                    ind@ == indent_text(depth),
                    inner@ == indent_text(depth + 1),
                    i <= o@.len(),
                    ms == members(o@),
                    out@ == start + seq!['{'] + pretty_members(ms, i as int, depth),
                decreases o@.len() - i,
            {
                if i > 0 {
                    push_char(out, ',');
                }
                push_char(out, '\n');
                push_str(out, inner.as_str());
                write_string(out, o[i].0.as_str());
                push_char(out, ':');
                push_char(out, ' ');
                assert(decreases_to!(*v => (*v)->Object_0));
                assert((*v)->Object_0 == *o);
                assert(decreases_to!(*o => o@));
                assert(decreases_to!(o@ => o@[i as int]));
                assert(decreases_to!(o@[i as int] => o@[i as int].1));
                write_pretty(out, &o[i].1, &inner, Ghost(depth + 1));
                assert(out@ =~= start + seq!['{'] + pretty_members(ms, i + 1, depth));
                i = i + 1;
            }
            push_char(out, '\n');
            push_str(out, ind.as_str());
            push_char(out, '}');
        },
        _ => {
            write_compact(out, v);
        },
    }
    assert(out@ =~= start + pretty_text(json_of(*v), depth));
}

/// The indented JSON text of `v`.
pub fn to_string_pretty(v: &Value) -> (s: String)
    ensures
        s@ == pretty_text(json_of(*v), 0),
{
    let mut out = String::new();
    let ind = String::new();
    write_pretty(&mut out, v, &ind, Ghost(0));
    out
}

impl Value {
    /// Whether the value is `null`.
    pub fn is_null(&self) -> (r: bool)
        ensures
            r == (*self is Null),
    {
        match self {
            Value::Null => true,
            _ => false,
        }
    }

    /// The boolean, if the value is one.
    pub fn as_bool(&self) -> (r: Option<bool>)
        ensures
            r == (match *self {
                Value::Bool(b) => Some(b),
                _ => None::<bool>,
            }),
    {
        match self {
            Value::Bool(b) => Some(*b),
            _ => None,
        }
    }

    /// The string, if the value is one.
    pub fn as_str(&self) -> (r: Option<&str>)
        ensures
            match *self {
                Value::String(s) => r matches Some(t) && t@ == s@,
                _ => r is None,
            },
    {
        match self {
            Value::String(s) => Some(s.as_str()),
            _ => None,
        }
    }

    /// The elements, if the value is an array.
    pub fn as_array(&self) -> (r: Option<&Vec<Value>>)
        ensures
            match *self {
                Value::Array(a) => r == Some(&a),
                _ => r is None,
            },
    {
        match self {
            Value::Array(a) => Some(a),
            _ => None,
        }
    }

    /// The members, sorted by key, if the value is an object.
    pub fn as_object(&self) -> (r: Option<&Vec<(String, Value)>>)
        ensures
            match *self {
                Value::Object(o) => r == Some(&o),
                _ => r is None,
            },
    {
        match self {
            Value::Object(o) => Some(o),
            _ => None,
        }
    }

    /// The number as an `i64`, if it is an integer that fits.
    pub fn as_i64(&self) -> (r: Option<i64>)
        ensures
            r == (match *self {
                Value::Number(Number::NegInt(i)) => Some(i),
                Value::Number(Number::PosInt(u)) => if u <= i64::MAX {
                    Some(u as i64)
                } else {
                    None::<i64>
                },
                _ => None::<i64>,
            }),
    {
        match self {
            Value::Number(Number::NegInt(i)) => Some(*i),
            Value::Number(Number::PosInt(u)) => {
                if *u <= 0x7FFF_FFFF_FFFF_FFFF {
                    Some(*u as i64)
                } else {
                    None
                }
            },
            _ => None,
        }
    }

    /// The number as a `u64`, if it is a non-negative integer.
    pub fn as_u64(&self) -> (r: Option<u64>)
        ensures
            r == (match *self {
                Value::Number(Number::PosInt(u)) => Some(u),
                Value::Number(Number::NegInt(i)) => if i >= 0 {
                    Some(i as u64)
                } else {
                    None::<u64>
                },
                _ => None::<u64>,
            }),
    {
        match self {
            Value::Number(Number::PosInt(u)) => Some(*u),
            Value::Number(Number::NegInt(i)) => {
                if *i >= 0 {
                    Some(*i as u64)
                } else {
                    None
                }
            },
            _ => None,
        }
    }

    /// The value of member `key`, if the value is an object that has it.
    pub fn get(&self, key: &str) -> (r: Option<&Value>)
        ensures
            !(*self is Object) ==> r is None,
            *self is Object ==> (r is None <==> forall|i: int|
                0 <= i < (*self)->Object_0@.len() ==> (*self)->Object_0@[i].0@ != key@),
            r matches Some(x) ==> exists|i: int|
                0 <= i < (*self)->Object_0@.len() && (*self)->Object_0@[i].0@ == key@ && (
                *self)->Object_0@[i].1 == *x,
    {
        match self {
            Value::Object(o) => match find_key(o, key) {
                Some(i) => Some(&o[i].1),
                None => None,
            },
            _ => None,
        }
    }
}

/// The position of member `key`, if there is one.
fn find_key(o: &Vec<(String, Value)>, key: &str) -> (r: Option<usize>)
    ensures
        match r {
            Some(i) => i < o@.len() && o@[i as int].0@ == key@,
            None => forall|i: int| 0 <= i < o@.len() ==> o@[i].0@ != key@,
        },
{
    let k = key.to_owned();
    let mut i: usize = 0;
    while i < o.len()
        invariant
            i <= o@.len(),
            k@ == key@,
            forall|j: int| 0 <= j < i ==> o@[j].0@ != key@,
        decreases o@.len() - i,
    {
        if o[i].0 == k {
            return Some(i);
        }
        i = i + 1;
    }
    None
}

} // verus!
