use vstd::prelude::*;
use vstd::string::*;
use vstd::utf8::{decode_utf8, valid_utf8};
use crate::text::{push_char, push_str, trim_end, trim_end_chars, to_chars, ws_back, is_ws};

verus! {

/// A load or parse error.
#[derive(Debug)]
pub enum Error {
    /// Reading failed; the message says why.
    Io(String),
    /// A line could not be parsed: its text, and the column where parsing stopped.
    LineParse(String, usize),
    /// No `.env` file was found.
    NotFound,
}

/// A parse error as plain values: the text of the line and the column.
pub type ErrorModel = (Seq<char>, int);

/// Name of what `String::from_utf8_lossy` makes of some bytes.
pub uninterp spec fn lossy_text(b: Seq<u8>) -> Seq<char>;

/// The text of `b` as `String::from_utf8_lossy` reads it: invalid sequences become
/// U+FFFD, and valid UTF-8 is decoded as it is.
#[verifier::external_body]
fn lossy_string(b: &[u8]) -> (r: String)
    ensures
        r@ == lossy_text(b@),
        valid_utf8(b@) ==> r@ == decode_utf8(b@),
{
    String::from_utf8_lossy(b).into_owned()
}

/// Each byte read as the character with that code.
pub open spec fn byte_chars(b: Seq<u8>) -> Seq<char> {
    b.map_values(|x: u8| x as char)
}

/// Appends the characters of `s`.
fn append_chars(out: &mut Vec<char>, s: &str)
    ensures
        final(out)@ == old(out)@ + s@,
{
    let vc = to_chars(s);
    let mut k: usize = 0;
    let ghost before = out@;
    while k < vc.len()
        invariant
            k <= vc.len(),
            vc@ == s@,
            out@ == before + vc@.take(k as int),
        decreases vc.len() - k,
    {
        out.push(vc[k]);
        k = k + 1;
        assert(out@ =~= before + vc@.take(k as int));
    }
    assert(vc@.take(k as int) =~= s@);
}

/// Key and value pairs as plain values.
pub open spec fn pairs(v: Seq<(String, String)>) -> Seq<(Seq<char>, Seq<char>)> {
    v.map_values(|kv: (String, String)| (kv.0@, kv.1@))
}

/// The first `\n` at or after `i`, or the end.
pub open spec fn line_end(b: Seq<u8>, i: int) -> int
    decreases b.len() - i,
{
    if 0 <= i < b.len() && b[i] != 10 {
        line_end(b, i + 1)
    } else {
        i
    }
}

/// The position after the first `\n` at or after `i`, or the end.
pub open spec fn eol_after(b: Seq<u8>, i: int) -> int
    decreases b.len() - i,
{
    if 0 <= i < b.len() {
        if b[i] == 10 {
            i + 1
        } else {
            eol_after(b, i + 1)
        }
    } else {
        i
    }
}

/// The error for a line that starts at `ls`, where parsing stopped at `pos`.
pub open spec fn err_of(b: Seq<u8>, ls: int, pos: int) -> ErrorModel {
    (lossy_text(b.subrange(ls, line_end(b, ls))), pos - ls)
}

/// The position after the spaces and tabs at `i`.
pub open spec fn inline_ws_end(b: Seq<u8>, i: int) -> int
    decreases b.len() - i,
{
    if 0 <= i < b.len() && (b[i] == 32 || b[i] == 9) {
        inline_ws_end(b, i + 1)
    } else {
        i
    }
}

/// Whether `c` is an ASCII letter or digit.
pub open spec fn is_alnum_byte(c: u8) -> bool {
    (48 <= c <= 57) || (65 <= c <= 90) || (97 <= c <= 122)
}

/// End of a key at `i`: ASCII letters, digits, `_` and `.`.
pub open spec fn key_end(b: Seq<u8>, i: int) -> int
    decreases b.len() - i,
{
    if 0 <= i < b.len() && (is_alnum_byte(b[i]) || b[i] == 95 || b[i] == 46) {
        key_end(b, i + 1)
    } else {
        i
    }
}

/// End of a variable name at `i`: ASCII letters, digits and `_`.
pub open spec fn name_end(b: Seq<u8>, i: int) -> int
    decreases b.len() - i,
{
    if 0 <= i < b.len() && (is_alnum_byte(b[i]) || b[i] == 95) {
        name_end(b, i + 1)
    } else {
        i
    }
}

/// The first `'` at or after `i`, or the end.
pub open spec fn quote_end(b: Seq<u8>, i: int) -> int
    decreases b.len() - i,
{
    if 0 <= i < b.len() && b[i] != 39 {
        quote_end(b, i + 1)
    } else {
        i
    }
}

/// The value of the last of the first `k` pairs with key `name`.
pub open spec fn find_last(v: Seq<(Seq<char>, Seq<char>)>, k: int, name: Seq<char>) -> Option<Seq<char>>
    decreases k,
{
    if k <= 0 {
        None
    } else if v[k - 1].0 == name {
        Some(v[k - 1].1)
    } else {
        find_last(v, k - 1, name)
    }
}

/// The value of a variable: the last earlier assignment of it in the file, else the
/// environment, else empty.
pub open spec fn spec_lookup(
    locals: Seq<(Seq<char>, Seq<char>)>,
    env: Seq<(Seq<char>, Seq<char>)>,
    name: Seq<char>,
) -> Seq<char> {
    match find_last(locals, locals.len() as int, name) {
        Some(v) => v,
        None => match find_last(env, env.len() as int, name) {
            Some(v) => v,
            None => Seq::empty(),
        },
    }
}

/// A name ends at or after its start.
pub proof fn lemma_name_end(b: Seq<u8>, i: int)
    requires
        0 <= i <= b.len(),
    ensures
        i <= name_end(b, i) <= b.len(),
    decreases b.len() - i,
{
    if 0 <= i < b.len() && (is_alnum_byte(b[i]) || b[i] == 95) {
        lemma_name_end(b, i + 1);
    }
}

/// Skipping to the end of a line moves past at least one byte.
pub proof fn lemma_eol_after(b: Seq<u8>, i: int)
    requires
        0 <= i < b.len(),
    ensures
        i < eol_after(b, i) <= b.len(),
    decreases b.len() - i,
{
    if b[i] != 10 {
        if i + 1 < b.len() {
            lemma_eol_after(b, i + 1);
        } else {
            assert(eol_after(b, i + 1) == i + 1);
        }
    }
}

/// A variable reference after its `$`, at `p`: `NAME` or `{NAME}`; its value and the
/// position after it.
pub open spec fn spec_read_var(
    b: Seq<u8>,
    p: int,
    locals: Seq<(Seq<char>, Seq<char>)>,
    env: Seq<(Seq<char>, Seq<char>)>,
) -> (Seq<char>, int) {
    let braced = 0 <= p < b.len() && b[p] == 123;
    let s = if braced {
        p + 1
    } else {
        p
    };
    let e = name_end(b, s);
    let p2 = if braced && 0 <= e < b.len() && b[e] == 125 {
        e + 1
    } else {
        e
    };
    (spec_lookup(locals, env, byte_chars(b.subrange(s, e))), p2)
}

/// A variable reference never ends before it starts.
pub proof fn lemma_read_var_advances(
    b: Seq<u8>,
    p: int,
    locals: Seq<(Seq<char>, Seq<char>)>,
    env: Seq<(Seq<char>, Seq<char>)>,
)
    requires
        0 <= p <= b.len(),
    ensures
        p <= spec_read_var(b, p, locals, env).1 <= b.len(),
{
    lemma_name_end(b, p);
    if p < b.len() {
        lemma_name_end(b, p + 1);
    }
}

/// The end of the run of UTF-8 continuation bytes (0x80 to 0xBF) at `q`.
pub open spec fn cont_end(b: Seq<u8>, q: int) -> int
    decreases b.len() - q,
{
    if 0 <= q < b.len() && 0x80 <= b[q] < 0xC0 {
        cont_end(b, q + 1)
    } else {
        q
    }
}

/// The character whose first byte is the non-ASCII byte at `p`: its bytes decoded as
/// UTF-8 where they are valid (else as `String::from_utf8_lossy` reads them), and the
/// position after it.
pub open spec fn utf8_piece(b: Seq<u8>, p: int) -> (Seq<char>, int) {
    let q = cont_end(b, p + 1);
    let piece = b.subrange(p, q);
    (if valid_utf8(piece) {
        decode_utf8(piece)
    } else {
        lossy_text(piece)
    }, q)
}

/// A run of continuation bytes ends after it starts, within the bytes.
pub proof fn lemma_cont_end(b: Seq<u8>, q: int)
    requires
        0 <= q <= b.len(),
    ensures
        q <= cont_end(b, q) <= b.len(),
    decreases b.len() - q,
{
    if q < b.len() && 0x80 <= b[q] < 0xC0 {
        lemma_cont_end(b, q + 1);
    }
}

/// The character an escape `\c` stands for in a double-quoted value.
pub open spec fn escape_char(c: u8) -> char {
    if c == 110 {
        '\n'
    } else if c == 114 {
        '\r'
    } else if c == 116 {
        '\t'
    } else {
        c as char
    }
}

/// The rest of a double-quoted value from `p`, after the text `out`: the value and the
/// position after its line, or the error.
pub open spec fn spec_parse_double(
    b: Seq<u8>,
    p: int,
    out: Seq<char>,
    locals: Seq<(Seq<char>, Seq<char>)>,
    env: Seq<(Seq<char>, Seq<char>)>,
) -> Result<(Seq<char>, int), ErrorModel>
    decreases b.len() - p,
{
    if p < 0 || p >= b.len() {
        Err(err_of(b, p, p))
    } else if b[p] == 34 {
        Ok((out, eol_after(b, p + 1)))
    } else if b[p] == 92 {
        if p + 1 >= b.len() {
            Err(err_of(b, p + 1, p + 1))
        } else if b[p + 1] >= 0x80 {
            let (t, q) = utf8_piece(b, p + 1);
            proof {
                lemma_cont_end(b, p + 2);
            }
            spec_parse_double(b, q, out + t, locals, env)
        } else {
            spec_parse_double(b, p + 2, out.push(escape_char(b[p + 1])), locals, env)
        }
    } else if b[p] == 36 {
        let (v, p2) = spec_read_var(b, p + 1, locals, env);
        proof {
            lemma_read_var_advances(b, p + 1, locals, env);
        }
        spec_parse_double(b, p2, out + v, locals, env)
    } else if b[p] >= 0x80 {
        let (t, q) = utf8_piece(b, p);
        proof {
            lemma_cont_end(b, p + 1);
        }
        spec_parse_double(b, q, out + t, locals, env)
    } else {
        spec_parse_double(b, p + 1, out.push(b[p] as char), locals, env)
    }
}

/// The rest of a bare value from `p`, after the text `out`: up to the end of the line
/// or a `#`, with trailing white space dropped; and the position after it.
pub open spec fn spec_parse_bare(
    b: Seq<u8>,
    p: int,
    out: Seq<char>,
    locals: Seq<(Seq<char>, Seq<char>)>,
    env: Seq<(Seq<char>, Seq<char>)>,
) -> (Seq<char>, int)
    decreases b.len() - p,
{
    if p < 0 || p >= b.len() || b[p] == 10 {
        (trim_end(out), p)
    } else if b[p] == 35 {
        (trim_end(out), eol_after(b, p))
    } else if b[p] == 36 {
        let (v, p2) = spec_read_var(b, p + 1, locals, env);
        proof {
            lemma_read_var_advances(b, p + 1, locals, env);
        }
        spec_parse_bare(b, p2, out + v, locals, env)
    } else if b[p] == 92 {
        if p + 1 < b.len() && b[p + 1] >= 0x80 {
            let (t, q) = utf8_piece(b, p + 1);
            proof {
                lemma_cont_end(b, p + 2);
            }
            spec_parse_bare(b, q, out + t, locals, env)
        } else if p + 1 < b.len() {
            spec_parse_bare(b, p + 2, out.push(b[p + 1] as char), locals, env)
        } else {
            (trim_end(out), p + 1)
        }
    } else if b[p] >= 0x80 {
        let (t, q) = utf8_piece(b, p);
        proof {
            lemma_cont_end(b, p + 1);
        }
        spec_parse_bare(b, q, out + t, locals, env)
    } else {
        spec_parse_bare(b, p + 1, out.push(b[p] as char), locals, env)
    }
}

/// A single-quoted value whose quote is at `p`: its text as it stands and the position
/// after its line, or the error.
pub open spec fn spec_parse_single(b: Seq<u8>, p: int) -> Result<(Seq<char>, int), ErrorModel> {
    let s = p + 1;
    let e = quote_end(b, s);
    if e >= b.len() {
        Err(err_of(b, s, b.len() as int))
    } else {
        Ok((lossy_text(b.subrange(s, e)), eol_after(b, e + 1)))
    }
}

/// A value at `p`: single-quoted, double-quoted or bare.
pub open spec fn spec_parse_value(
    b: Seq<u8>,
    p: int,
    locals: Seq<(Seq<char>, Seq<char>)>,
    env: Seq<(Seq<char>, Seq<char>)>,
) -> Result<(Seq<char>, int), ErrorModel> {
    if 0 <= p < b.len() && b[p] == 39 {
        spec_parse_single(b, p)
    } else if 0 <= p < b.len() && b[p] == 34 {
        spec_parse_double(b, p + 1, Seq::empty(), locals, env)
    } else {
        Ok(spec_parse_bare(b, p, Seq::empty(), locals, env))
    }
}

/// Whether `export` and a space or tab start at `i`.
pub open spec fn starts_export(b: Seq<u8>, i: int) -> bool {
    &&& 0 <= i
    &&& i + 7 <= b.len()
    &&& b.subrange(i, i + 6) == seq![101u8, 120u8, 112u8, 111u8, 114u8, 116u8]
    &&& (b[i + 6] == 32 || b[i + 6] == 9)
}

/// An assignment `[export] KEY = value` at `p`: the pair and the position after it,
/// or the error.
pub open spec fn spec_parse_assignment(
    b: Seq<u8>,
    p: int,
    locals: Seq<(Seq<char>, Seq<char>)>,
    env: Seq<(Seq<char>, Seq<char>)>,
) -> Result<((Seq<char>, Seq<char>), int), ErrorModel> {
    let p1 = inline_ws_end(b, p);
    let p2 = if starts_export(b, p1) {
        inline_ws_end(b, p1 + 7)
    } else {
        p1
    };
    let ke = key_end(b, p2);
    if ke == p2 {
        Err(err_of(b, p, p2))
    } else {
        let p3 = inline_ws_end(b, ke);
        if !(0 <= p3 < b.len() && b[p3] == 61) {
            Err(err_of(b, p, p3))
        } else {
            match spec_parse_value(b, inline_ws_end(b, p3 + 1), locals, env) {
                Err(e) => Err(e),
                Ok((v, p5)) => Ok(((byte_chars(b.subrange(p2, ke)), v), p5)),
            }
        }
    }
}

/// The position after the blank space and `#` comments at `p`.
pub open spec fn skip_blank_comments(b: Seq<u8>, p: int) -> int
    decreases b.len() - p,
{
    if 0 <= p < b.len() {
        if b[p] == 32 || b[p] == 9 || b[p] == 13 || b[p] == 10 {
            skip_blank_comments(b, p + 1)
        } else if b[p] == 35 {
            proof {
                lemma_eol_after(b, p);
            }
            skip_blank_comments(b, eol_after(b, p))
        } else {
            p
        }
    } else {
        p
    }
}

/// The assignments from `p` on, after the assignments `locals`, or the first error; at
/// most `fuel` more are read, and each takes at least one byte, so `b.len() + 1` is
/// always enough.
pub open spec fn spec_parse_from(
    b: Seq<u8>,
    p: int,
    locals: Seq<(Seq<char>, Seq<char>)>,
    env: Seq<(Seq<char>, Seq<char>)>,
    fuel: nat,
) -> Result<Seq<(Seq<char>, Seq<char>)>, ErrorModel>
    decreases fuel,
{
    if fuel == 0 || p >= b.len() {
        Ok(locals)
    } else {
        let p1 = skip_blank_comments(b, p);
        if p1 >= b.len() {
            Ok(locals)
        } else {
            match spec_parse_assignment(b, p1, locals, env) {
                Err(e) => Err(e),
                Ok((kv, p2)) => spec_parse_from(b, p2, locals.push(kv), env, (fuel - 1) as nat),
            }
        }
    }
}

/// The assignments of a `.env` text, in order, or the first error; `env` is the
/// environment that variable references fall back on.
pub open spec fn spec_parse(b: Seq<u8>, env: Seq<(Seq<char>, Seq<char>)>) -> Result<
    Seq<(Seq<char>, Seq<char>)>,
    ErrorModel,
> {
    spec_parse_from(b, 0, Seq::empty(), env, (b.len() + 1) as nat)
}

/// Whether `e` is the parse error `m`.
pub open spec fn error_is(e: Error, m: ErrorModel) -> bool {
    e matches Error::LineParse(l, c) && l@ == m.0 && c == m.1
}

struct Parser<'a> {
    bytes: &'a [u8],
    pos: usize,
    locals: Vec<(String, String)>,
    env: &'a [(String, String)],
}

impl<'a> Parser<'a> {
    /// Whether a step kept the input, the assignments so far and the environment.
    spec fn same(&self, other: &Parser<'a>) -> bool {
        &&& self.bytes@ == other.bytes@
        &&& pairs(self.locals@) == pairs(other.locals@)
        &&& pairs(self.env@) == pairs(other.env@)
    }

    fn peek(&self) -> (r: Option<u8>)
        ensures
            match r {
                Some(c) => self.pos < self.bytes@.len() && c == self.bytes@[self.pos as int],
                None => self.pos >= self.bytes@.len(),
            },
    {
        if self.pos < self.bytes.len() {
            Some(self.bytes[self.pos])
        } else {
            None
        }
    }

    fn skip_to_eol(&mut self)
        requires
            old(self).pos <= old(self).bytes@.len(),
        ensures
            final(self).same(old(self)),
            final(self).pos == eol_after(old(self).bytes@, old(self).pos as int),
            old(self).pos <= final(self).pos <= final(self).bytes@.len(),
    {
        while self.pos < self.bytes.len()
            invariant
                self.same(old(self)),
                old(self).pos <= self.pos <= self.bytes@.len(),
                eol_after(self.bytes@, old(self).pos as int) == eol_after(self.bytes@, self.pos as int),
            decreases self.bytes@.len() - self.pos,
        {
            let c = self.bytes[self.pos];
            self.pos = self.pos + 1;
            if c == 10 {
                return;
            }
        }
    }

    fn skip_inline_ws(&mut self)
        requires
            old(self).pos <= old(self).bytes@.len(),
        ensures
            final(self).same(old(self)),
            final(self).pos == inline_ws_end(old(self).bytes@, old(self).pos as int),
            old(self).pos <= final(self).pos <= final(self).bytes@.len(),
    {
        while self.pos < self.bytes.len() && (self.bytes[self.pos] == 32 || self.bytes[self.pos] == 9)
            invariant
                self.same(old(self)),
                old(self).pos <= self.pos <= self.bytes@.len(),
                inline_ws_end(self.bytes@, old(self).pos as int) == inline_ws_end(self.bytes@, self.pos as int),
            decreases self.bytes@.len() - self.pos,
        {
            self.pos = self.pos + 1;
        }
    }

    fn skip_blank_and_comments(&mut self)
        requires
            old(self).pos <= old(self).bytes@.len(),
        ensures
            final(self).same(old(self)),
            final(self).pos == skip_blank_comments(old(self).bytes@, old(self).pos as int),
            old(self).pos <= final(self).pos <= final(self).bytes@.len(),
    {
        loop
            invariant
                self.same(old(self)),
                old(self).pos <= self.pos <= self.bytes@.len(),
                skip_blank_comments(self.bytes@, old(self).pos as int) == skip_blank_comments(self.bytes@, self.pos as int),
            decreases self.bytes@.len() - self.pos,
        {
            if self.pos >= self.bytes.len() {
                return;
            }
            let c = self.bytes[self.pos];
            if c == 32 || c == 9 || c == 13 || c == 10 {
                self.pos = self.pos + 1;
            } else if c == 35 {
                proof {
                    lemma_eol_after(self.bytes@, self.pos as int);
                }
                self.skip_to_eol();
            } else {
                return;
            }
        }
    }

    fn err(&self, line_start: usize) -> (e: Error)
        requires
            line_start <= self.pos <= self.bytes@.len(),
        ensures
            error_is(e, err_of(self.bytes@, line_start as int, self.pos as int)),
    {
        let mut end = line_start;
        while end < self.bytes.len() && self.bytes[end] != 10
            invariant
                line_start <= end <= self.bytes@.len(),
                line_end(self.bytes@, line_start as int) == line_end(self.bytes@, end as int),
            decreases self.bytes@.len() - end,
        {
            end = end + 1;
        }
        let line = lossy_string(&self.bytes[line_start..end]);
        Error::LineParse(line, self.pos - line_start)
    }

    fn lookup(&self, name: &String) -> (r: String)
        ensures
            r@ == spec_lookup(pairs(self.locals@), pairs(self.env@), name@),
    {
        let ghost ls = pairs(self.locals@);
        let mut k = self.locals.len();
        while k > 0
            invariant
                k <= self.locals@.len(),
                ls == pairs(self.locals@),
                find_last(ls, ls.len() as int, name@) == find_last(ls, k as int, name@),
            decreases k,
        {
            k = k - 1;
            assert(ls[k as int] == (self.locals@[k as int].0@, self.locals@[k as int].1@));
            if self.locals[k].0 == *name {
                return self.locals[k].1.clone();
            }
        }
        let ghost es = pairs(self.env@);
        let mut k = self.env.len();
        while k > 0
            invariant
                k <= self.env@.len(),
                es == pairs(self.env@),
                ls == pairs(self.locals@),
                find_last(ls, ls.len() as int, name@) is None,
                find_last(es, es.len() as int, name@) == find_last(es, k as int, name@),
            decreases k,
        {
            k = k - 1;
            assert(es[k as int] == (self.env@[k as int].0@, self.env@[k as int].1@));
            if self.env[k].0 == *name {
                return self.env[k].1.clone();
            }
        }
        String::new()
    }

    fn read_var(&mut self) -> (r: String)
        requires
            old(self).pos <= old(self).bytes@.len(),
        ensures
            final(self).same(old(self)),
            (r@, final(self).pos as int) == spec_read_var(old(self).bytes@, old(self).pos as int, pairs(old(self).locals@), pairs(old(self).env@)),
            old(self).pos <= final(self).pos <= final(self).bytes@.len(),
    {
        let braced = self.pos < self.bytes.len() && self.bytes[self.pos] == 123;
        if braced {
            self.pos = self.pos + 1;
        }
        let start = self.pos;
        let mut name = String::new();
        while self.pos < self.bytes.len() && ((48 <= self.bytes[self.pos] && self.bytes[self.pos] <= 57) || (65 <= self.bytes[self.pos] && self.bytes[self.pos] <= 90) || (97 <= self.bytes[self.pos] && self.bytes[self.pos] <= 122) || self.bytes[self.pos] == 95)
            invariant
                self.same(old(self)),
                old(self).pos <= start <= self.pos <= self.bytes@.len(),
                name_end(self.bytes@, start as int) == name_end(self.bytes@, self.pos as int),
                name@ == byte_chars(self.bytes@.subrange(start as int, self.pos as int)),
            decreases self.bytes@.len() - self.pos,
        {
            push_char(&mut name, self.bytes[self.pos] as char);
            self.pos = self.pos + 1;
            assert(name@ =~= byte_chars(self.bytes@.subrange(start as int, self.pos as int)));
        }
        if braced && self.pos < self.bytes.len() && self.bytes[self.pos] == 125 {
            self.pos = self.pos + 1;
        }
        self.lookup(&name)
    }

    fn parse_single(&mut self) -> (r: Result<String, Error>)
        requires
            old(self).pos < old(self).bytes@.len(),
        ensures
            final(self).same(old(self)),
            old(self).pos < final(self).pos <= final(self).bytes@.len(),
            match spec_parse_single(old(self).bytes@, old(self).pos as int) {
                Ok((v, p)) => r matches Ok(s) && s@ == v && final(self).pos == p,
                Err(m) => r matches Err(e) && error_is(e, m),
            },
    {
        let n = self.bytes.len();
        self.pos = self.pos + 1;
        let start = self.pos;
        while self.pos < self.bytes.len()
            invariant
                self.same(old(self)),
                old(self).pos < start <= self.pos <= self.bytes@.len(),
                start == old(self).pos + 1,
                quote_end(self.bytes@, start as int) == quote_end(self.bytes@, self.pos as int),
            decreases self.bytes@.len() - self.pos,
        {
            if self.bytes[self.pos] == 39 {
                let s = lossy_string(&self.bytes[start..self.pos]);
                self.pos = self.pos + 1;
                self.skip_to_eol();
                return Ok(s);
            }
            self.pos = self.pos + 1;
        }
        Err(self.err(start))
    }

    /// The character whose first byte is at `pos`, decoded; `pos` moves past it.
    fn read_piece(&mut self) -> (t: String)
        requires
            old(self).pos < old(self).bytes@.len(),
        ensures
            final(self).same(old(self)),
            (t@, final(self).pos as int) == utf8_piece(old(self).bytes@, old(self).pos as int),
            old(self).pos < final(self).pos <= final(self).bytes@.len(),
    {
        let n = self.bytes.len();
        let start = self.pos;
        self.pos = self.pos + 1;
        while self.pos < self.bytes.len() && 0x80 <= self.bytes[self.pos] && self.bytes[self.pos] < 0xC0
            invariant
                self.same(old(self)),
                start == old(self).pos,
                start < self.pos <= self.bytes@.len(),
                cont_end(self.bytes@, start + 1) == cont_end(self.bytes@, self.pos as int),
            decreases self.bytes@.len() - self.pos,
        {
            self.pos = self.pos + 1;
        }
        lossy_string(&self.bytes[start..self.pos])
    }

    fn parse_double(&mut self) -> (r: Result<String, Error>)
        requires
            old(self).pos < old(self).bytes@.len(),
        ensures
            final(self).same(old(self)),
            old(self).pos < final(self).pos <= final(self).bytes@.len(),
            match spec_parse_double(old(self).bytes@, old(self).pos + 1, Seq::empty(), pairs(old(self).locals@), pairs(old(self).env@)) {
                Ok((v, p)) => r matches Ok(s) && s@ == v && final(self).pos == p,
                Err(m) => r matches Err(e) && error_is(e, m),
            },
    {
        let n = self.bytes.len();
        self.pos = self.pos + 1;
        let mut out = String::new();
        let ghost target = spec_parse_double(self.bytes@, self.pos as int, Seq::empty(), pairs(self.locals@), pairs(self.env@));
        while self.pos < self.bytes.len()
            invariant
                self.same(old(self)),
                old(self).pos < self.pos <= self.bytes@.len(),
                target == spec_parse_double(old(self).bytes@, old(self).pos + 1, Seq::empty(), pairs(old(self).locals@), pairs(old(self).env@)),
                target == spec_parse_double(self.bytes@, self.pos as int, out@, pairs(self.locals@), pairs(self.env@)),
            decreases self.bytes@.len() - self.pos,
        {
            let c = self.bytes[self.pos];
            if c == 34 {
                self.pos = self.pos + 1;
                self.skip_to_eol();
                return Ok(out);
            } else if c == 92 {
                self.pos = self.pos + 1;
                match self.peek() {
                    Some(e) if e >= 0x80 => {
                        let t = self.read_piece();
                        push_str(&mut out, t.as_str());
                        continue;
                    },
                    Some(e) => {
                        let ch = if e == 110 {
                            '\n'
                        } else if e == 114 {
                            '\r'
                        } else if e == 116 {
                            '\t'
                        } else {
                            e as char
                        };
                        push_char(&mut out, ch);
                    },
                    None => return Err(self.err(self.pos)),
                }
                self.pos = self.pos + 1;
            } else if c == 36 {
                self.pos = self.pos + 1;
                let v = self.read_var();
                push_str(&mut out, v.as_str());
            } else if c >= 0x80 {
                let t = self.read_piece();
                push_str(&mut out, t.as_str());
            } else {
                push_char(&mut out, c as char);
                self.pos = self.pos + 1;
            }
        }
        Err(self.err(self.pos))
    }

    fn parse_bare(&mut self) -> (r: String)
        requires
            old(self).pos <= old(self).bytes@.len(),
        ensures
            final(self).same(old(self)),
            old(self).pos <= final(self).pos <= final(self).bytes@.len(),
            (r@, final(self).pos as int) == spec_parse_bare(old(self).bytes@, old(self).pos as int, Seq::empty(), pairs(old(self).locals@), pairs(old(self).env@)),
    {
        let mut out: Vec<char> = Vec::new();
        let ghost target = spec_parse_bare(self.bytes@, self.pos as int, Seq::empty(), pairs(self.locals@), pairs(self.env@));
        while self.pos < self.bytes.len() && self.bytes[self.pos] != 10
            invariant
                self.same(old(self)),
                old(self).pos <= self.pos <= self.bytes@.len(),
                target == spec_parse_bare(old(self).bytes@, old(self).pos as int, Seq::empty(), pairs(old(self).locals@), pairs(old(self).env@)),
                target == spec_parse_bare(self.bytes@, self.pos as int, out@, pairs(self.locals@), pairs(self.env@)),
            decreases self.bytes@.len() - self.pos,
        {
            let c = self.bytes[self.pos];
            if c == 35 {
                let trimmed = trim_end_chars(&out);
                self.skip_to_eol();
                return trimmed;
            } else if c == 36 {
                self.pos = self.pos + 1;
                let v = self.read_var();
                append_chars(&mut out, v.as_str());
            } else if c == 92 {
                self.pos = self.pos + 1;
                if self.pos < self.bytes.len() && self.bytes[self.pos] >= 0x80 {
                    let t = self.read_piece();
                    append_chars(&mut out, t.as_str());
                } else if self.pos < self.bytes.len() {
                    out.push(self.bytes[self.pos] as char);
                    self.pos = self.pos + 1;
                }
            } else if c >= 0x80 {
                let t = self.read_piece();
                append_chars(&mut out, t.as_str());
            } else {
                out.push(c as char);
                self.pos = self.pos + 1;
            }
        }
        trim_end_chars(&out)
    }

    fn parse_value(&mut self) -> (r: Result<String, Error>)
        requires
            old(self).pos <= old(self).bytes@.len(),
        ensures
            final(self).same(old(self)),
            old(self).pos <= final(self).pos <= final(self).bytes@.len(),
            match spec_parse_value(old(self).bytes@, old(self).pos as int, pairs(old(self).locals@), pairs(old(self).env@)) {
                Ok((v, p)) => r matches Ok(s) && s@ == v && final(self).pos == p,
                Err(m) => r matches Err(e) && error_is(e, m),
            },
    {
        match self.peek() {
            Some(39) => self.parse_single(),
            Some(34) => self.parse_double(),
            _ => Ok(self.parse_bare()),
        }
    }

    fn parse_assignment(&mut self) -> (r: Result<(String, String), Error>)
        requires
            old(self).pos < old(self).bytes@.len(),
        ensures
            final(self).same(old(self)),
            old(self).pos <= final(self).pos <= final(self).bytes@.len(),
            r is Ok ==> old(self).pos < final(self).pos,
            match spec_parse_assignment(old(self).bytes@, old(self).pos as int, pairs(old(self).locals@), pairs(old(self).env@)) {
                Ok((kv, p)) => r matches Ok(x) && x.0@ == kv.0 && x.1@ == kv.1 && final(self).pos == p,
                Err(m) => r matches Err(e) && error_is(e, m),
            },
    {
        let line_start = self.pos;
        self.skip_inline_ws();
        let ghost p1 = self.pos as int;
        let n = self.bytes.len();
        if n - self.pos >= 7 && self.bytes[self.pos] == 101 && self.bytes[self.pos + 1] == 120
            && self.bytes[self.pos + 2] == 112 && self.bytes[self.pos + 3] == 111 && self.bytes[self.pos + 4] == 114
            && self.bytes[self.pos + 5] == 116 && (self.bytes[self.pos + 6] == 32 || self.bytes[self.pos + 6] == 9) {
            assert(starts_export(self.bytes@, p1)) by {
                assert(self.bytes@.subrange(p1, p1 + 6) =~= seq![101u8, 120u8, 112u8, 111u8, 114u8, 116u8]);
            }
            self.pos = self.pos + 7;
            self.skip_inline_ws();
        } else {
            assert(!starts_export(self.bytes@, p1)) by {
                if starts_export(self.bytes@, p1) {
                    let w = self.bytes@.subrange(p1, p1 + 6);
                    assert(w[0] == self.bytes@[p1]);
                    assert(w[1] == self.bytes@[p1 + 1]);
                    assert(w[2] == self.bytes@[p1 + 2]);
                    assert(w[3] == self.bytes@[p1 + 3]);
                    assert(w[4] == self.bytes@[p1 + 4]);
                    assert(w[5] == self.bytes@[p1 + 5]);
                }
            }
        }
        let key_start = self.pos;
        let mut key = String::new();
        while self.pos < self.bytes.len() && ((48 <= self.bytes[self.pos] && self.bytes[self.pos] <= 57) || (65 <= self.bytes[self.pos] && self.bytes[self.pos] <= 90) || (97 <= self.bytes[self.pos] && self.bytes[self.pos] <= 122) || self.bytes[self.pos] == 95 || self.bytes[self.pos] == 46)
            invariant
                self.same(old(self)),
                line_start <= key_start <= self.pos <= self.bytes@.len(),
                key_end(self.bytes@, key_start as int) == key_end(self.bytes@, self.pos as int),
                key@ == byte_chars(self.bytes@.subrange(key_start as int, self.pos as int)),
            decreases self.bytes@.len() - self.pos,
        {
            push_char(&mut key, self.bytes[self.pos] as char);
            self.pos = self.pos + 1;
            assert(key@ =~= byte_chars(self.bytes@.subrange(key_start as int, self.pos as int)));
        }
        if self.pos == key_start {
            return Err(self.err(line_start));
        }
        self.skip_inline_ws();
        match self.peek() {
            Some(61) => {},
            _ => return Err(self.err(line_start)),
        }
        self.pos = self.pos + 1;
        self.skip_inline_ws();
        let value = match self.parse_value() {
            Ok(v) => v,
            Err(e) => return Err(e),
        };
        Ok((key, value))
    }
}

/// Parses a `.env` text into its assignments, in order; `env` holds the environment
/// that `$NAME` and `${NAME}` fall back on when the file has not assigned `NAME`.
pub fn parse(input: &str, env: &[(String, String)]) -> (r: Result<Vec<(String, String)>, Error>)
    ensures
        match spec_parse(input.spec_bytes(), pairs(env@)) {
            Ok(kvs) => r matches Ok(v) && pairs(v@) == kvs,
            Err(m) => r matches Err(e) && error_is(e, m),
        },
{
    let mut out: Vec<(String, String)> = Vec::new();
    let mut p = Parser { bytes: input.as_bytes(), pos: 0, locals: Vec::new(), env };
    let ghost b = p.bytes@;
    let ghost target = spec_parse(b, pairs(env@));
    let ghost mut fuel: nat = (b.len() + 1) as nat;
    assert(pairs(p.locals@) =~= Seq::<(Seq<char>, Seq<char>)>::empty());
    while p.pos < p.bytes.len()
        invariant
            b == input.spec_bytes(),
            p.bytes@ == b,
            pairs(p.env@) == pairs(env@),
            p.pos <= b.len(),
            pairs(out@) == pairs(p.locals@),
            target == spec_parse(b, pairs(env@)),
            target == spec_parse_from(b, p.pos as int, pairs(p.locals@), pairs(env@), fuel),
            fuel >= b.len() - p.pos + 1,
        decreases b.len() - p.pos,
    {
        p.skip_blank_and_comments();
        if p.pos >= p.bytes.len() {
            return Ok(out);
        }
        let (k, v) = match p.parse_assignment() {
            Ok(kv) => kv,
            Err(e) => return Err(e),
        };
        let ghost before = pairs(p.locals@);
        p.locals.push((k.clone(), v.clone()));
        out.push((k, v));
        assert(pairs(p.locals@) =~= before.push((k@, v@)));
        assert(pairs(out@) =~= pairs(p.locals@));
        proof {
            fuel = (fuel - 1) as nat;
        }
    }
    Ok(out)
}

/// Whether loading sets the `i`-th variable: always when overriding; otherwise only
/// where the environment did not have it before (`present[i]`) and no earlier entry
/// has the same name.
pub open spec fn spec_sets(vars: Seq<(Seq<char>, Seq<char>)>, present: Seq<bool>, ov: bool, i: int) -> bool {
    ov || (!present[i] && forall|j: int| 0 <= j < i ==> vars[j].0 != vars[i].0)
}

/// Which of `vars` loading sets, given which of them the environment had before.
pub fn apply_plan(vars: &[(String, String)], present: &[bool], ov: bool) -> (r: Vec<bool>)
    requires
        present.len() == vars.len(),
    ensures
        r.len() == vars.len(),
        forall|i: int| 0 <= i < vars.len() ==> r@[i] == spec_sets(pairs(vars@), present@, ov, i),
{
    let ghost vs = pairs(vars@);
    let mut r: Vec<bool> = Vec::new();
    let mut i: usize = 0;
    while i < vars.len()
        invariant
            vs == pairs(vars@),
            present.len() == vars.len(),
            i <= vars.len(),
            r.len() == i,
            forall|k: int| 0 <= k < i ==> r@[k] == spec_sets(vs, present@, ov, k),
        decreases vars.len() - i,
    {
        let mut set = ov || !present[i];
        if !ov && !present[i] {
            let mut j: usize = 0;
            while j < i
                invariant
                    vs == pairs(vars@),
                    i < vars.len(),
                    j <= i,
                    set == forall|k: int| 0 <= k < j ==> vs[k].0 != vs[i as int].0,
                decreases i - j,
            {
                assert(vs[j as int].0 == vars@[j as int].0@ && vs[i as int].0 == vars@[i as int].0@);
                if vars[j].0 == vars[i].0 {
                    set = false;
                }
                j = j + 1;
            }
        }
        r.push(set);
        i = i + 1;
    }
    r
}


/// Whether `c` may stand in a key: an ASCII letter or digit, `_` or `.`.
pub open spec fn key_byte(c: u8) -> bool {
    (48 <= c <= 57) || (65 <= c <= 90) || (97 <= c <= 122) || c == 95 || c == 46
}

/// Whether `c` is an ASCII letter or digit.
pub open spec fn plain_value_byte(c: u8) -> bool {
    (48 <= c <= 57) || (65 <= c <= 90) || (97 <= c <= 122)
}

/// A run of key bytes from `p` up to a byte that is none ends the key there.
proof fn lemma_key_run(b: Seq<u8>, p: int, e: int)
    requires
        0 <= p <= e < b.len(),
        forall|i: int| p <= i < e ==> key_byte(#[trigger] b[i]),
        !key_byte(b[e]),
    ensures
        key_end(b, p) == e,
    decreases e - p,
{
    if p < e {
        lemma_key_run(b, p + 1, e);
    }
}

/// A bare value reads a run of letters and digits as it stands.
proof fn lemma_bare_run(
    b: Seq<u8>,
    p: int,
    e: int,
    out: Seq<char>,
    locals: Seq<(Seq<char>, Seq<char>)>,
    env: Seq<(Seq<char>, Seq<char>)>,
)
    requires
        0 <= p <= e <= b.len(),
        forall|i: int| p <= i < e ==> plain_value_byte(#[trigger] b[i]),
    ensures
        spec_parse_bare(b, p, out, locals, env) == spec_parse_bare(b, e, out + byte_chars(b.subrange(p, e)), locals, env),
    decreases e - p,
{
    if p < e {
        lemma_bare_run(b, p + 1, e, out.push(b[p] as char), locals, env);
        assert(out.push(b[p] as char) + byte_chars(b.subrange(p + 1, e)) =~= out + byte_chars(b.subrange(p, e)));
    } else {
        assert(out + byte_chars(b.subrange(p, e)) =~= out);
    }
}

/// Keys are runs of ASCII letters, digits, `_` and `.`: for every such non-empty key
/// `k` and every value `v` of ASCII letters and digits, the line `k=v` reads as the one
/// assignment of `v` to `k`, whatever the environment.
pub proof fn lemma_key_value_line(k: Seq<u8>, v: Seq<u8>, env: Seq<(Seq<char>, Seq<char>)>)
    requires
        k.len() > 0,
        forall|i: int| 0 <= i < k.len() ==> key_byte(#[trigger] k[i]),
        forall|i: int| 0 <= i < v.len() ==> plain_value_byte(#[trigger] v[i]),
    ensures
        spec_parse(k + seq![61u8] + v + seq![10u8], env) == Ok::<Seq<(Seq<char>, Seq<char>)>, ErrorModel>(
            seq![(byte_chars(k), byte_chars(v))],
        ),
{
    let b = k + seq![61u8] + v + seq![10u8];
    let nk = k.len() as int;
    let nv = v.len() as int;
    let e = nk + 1 + nv;
    let empty: Seq<(Seq<char>, Seq<char>)> = Seq::empty();
    assert(b.len() == e + 1);
    assert(b[0] == k[0]);
    assert(skip_blank_comments(b, 0) == 0);
    assert(inline_ws_end(b, 0) == 0);
    if 6 < nk {
        assert(b[6] == k[6]);
    } else if 6 > nk && 6 < e {
        assert(b[6] == v[6 - nk - 1]);
    }
    assert(!starts_export(b, 0));
    assert forall|i: int| 0 <= i < nk implies key_byte(#[trigger] b[i]) by {
        assert(b[i] == k[i]);
    }
    assert(b[nk] == 61);
    lemma_key_run(b, 0, nk);
    assert(inline_ws_end(b, nk) == nk);
    if nv > 0 {
        assert(b[nk + 1] == v[0]);
    }
    assert(inline_ws_end(b, nk + 1) == nk + 1);
    assert forall|i: int| nk + 1 <= i < e implies plain_value_byte(#[trigger] b[i]) by {
        assert(b[i] == v[i - nk - 1]);
    }
    lemma_bare_run(b, nk + 1, e, Seq::empty(), empty, env);
    assert(b.subrange(nk + 1, e) =~= v);
    assert(Seq::<char>::empty() + byte_chars(v) =~= byte_chars(v));
    assert(b[e] == 10);
    let bv = byte_chars(v);
    if nv > 0 {
        assert(!is_ws(bv[nv - 1]));
        assert(ws_back(bv, 0, nv) == nv);
        assert(trim_end(bv) =~= bv);
    } else {
        assert(trim_end(bv) =~= bv);
    }
    assert(spec_parse_bare(b, nk + 1, Seq::empty(), empty, env) == (bv, e));
    assert(b.subrange(0, nk) =~= k);
    assert(spec_parse_assignment(b, 0, empty, env) == Ok::<((Seq<char>, Seq<char>), int), ErrorModel>(((byte_chars(k), bv), e)));
    assert(skip_blank_comments(b, e + 1) == e + 1);
    assert(skip_blank_comments(b, e) == e + 1);
    assert(spec_parse_from(b, e, empty.push((byte_chars(k), bv)), env, (b.len()) as nat) == Ok::<Seq<(Seq<char>, Seq<char>)>, ErrorModel>(
        empty.push((byte_chars(k), bv)),
    ));
    assert(empty.push((byte_chars(k), bv)) =~= seq![(byte_chars(k), byte_chars(v))]);
}


/// A key is read exactly: from `p`, the run of ASCII letters, digits, `_` and `.`, up to
/// the first other byte or the end.
pub proof fn lemma_key_end_exact(b: Seq<u8>, p: int)
    requires
        0 <= p <= b.len(),
    ensures
        p <= key_end(b, p) <= b.len(),
        forall|i: int| p <= i < key_end(b, p) ==> key_byte(#[trigger] b[i]),
        key_end(b, p) < b.len() ==> !key_byte(b[key_end(b, p)]),
    decreases b.len() - p,
{
    if p < b.len() && (is_alnum_byte(b[p]) || b[p] == 95 || b[p] == 46) {
        lemma_key_end_exact(b, p + 1);
    }
}

} // verus!
