use vstd::prelude::*;
pub mod roundtrip;
use vstd::string::*;
use vstd::utf8::{decode_utf8, encode_utf8, valid_utf8};
use crate::text::{push_char, push_str, to_chars, utf8_string, utf8_text};

verus! {

/// A read error: its message, and the line and column (both from 1) where it arose.
#[derive(Debug, Clone)]
pub struct Error {
    pub line: usize,
    pub col: usize,
    pub msg: String,
}

/// Where a reader stands: byte offset, line number, and offset where that line starts.
pub type Pos = (int, int, int);


/// The position after the blank lines (`\n` or `\r\n`) that start at `p`.
pub open spec fn skip_blank(b: Seq<u8>, p: Pos) -> Pos
    decreases b.len() - p.0,
{
    if 0 <= p.0 < b.len() && b[p.0] == 10 {
        skip_blank(b, (p.0 + 1, p.1 + 1, p.0 + 1))
    } else if 0 <= p.0 && p.0 + 1 < b.len() && b[p.0] == 13 && b[p.0 + 1] == 10 {
        skip_blank(b, (p.0 + 2, p.1 + 1, p.0 + 2))
    } else {
        p
    }
}

/// End of an unquoted field that starts at `i`: the first delimiter, `\r` or `\n`.
pub open spec fn unquoted_end(b: Seq<u8>, d: u8, i: int) -> int
    decreases b.len() - i,
{
    if 0 <= i < b.len() && b[i] != d && b[i] != 13 && b[i] != 10 {
        unquoted_end(b, d, i + 1)
    } else {
        i
    }
}

/// An unquoted field at `p`: its text or error, and the position after it.
pub open spec fn spec_read_unquoted(b: Seq<u8>, d: u8, p: Pos) -> (Result<Seq<char>, Seq<char>>, Pos) {
    let e = unquoted_end(b, d, p.0);
    let q = (e, p.1, p.2);
    match utf8_text(b.subrange(p.0, e)) {
        Some(t) => (Ok(t), q),
        None => (Err("invalid utf-8"@), q),
    }
}

/// The rest of a quoted field, read from `p`: `acc` is the text so far and `chunk` the
/// start of the bytes not yet decoded. A doubled quote stands for one quote; a single
/// one ends the field.
pub open spec fn spec_scan_quoted(b: Seq<u8>, q: u8, p: Pos, chunk: int, acc: Seq<char>) -> (
    Result<Seq<char>, Seq<char>>,
    Pos,
)
    decreases b.len() - p.0,
{
    if p.0 < 0 || p.0 >= b.len() {
        (Err("unterminated quoted field"@), p)
    } else if b[p.0] == q {
        match utf8_text(b.subrange(chunk, p.0)) {
            None => (Err("invalid utf-8"@), p),
            Some(t) => if p.0 + 1 < b.len() && b[p.0 + 1] == q {
                spec_scan_quoted(b, q, (p.0 + 2, p.1, p.2), p.0 + 2, acc + t + seq![q as char])
            } else {
                (Ok(acc + t), (p.0 + 1, p.1, p.2))
            },
        }
    } else if b[p.0] == 10 {
        spec_scan_quoted(b, q, (p.0 + 1, p.1 + 1, p.0 + 1), chunk, acc)
    } else {
        spec_scan_quoted(b, q, (p.0 + 1, p.1, p.2), chunk, acc)
    }
}

/// A field at `p`, quoted or not: its text or error, and the position after it.
pub open spec fn spec_read_field(b: Seq<u8>, d: u8, q: u8, p: Pos) -> (
    Result<Seq<char>, Seq<char>>,
    Pos,
) {
    if 0 <= p.0 < b.len() && b[p.0] == q {
        spec_scan_quoted(b, q, (p.0 + 1, p.1, p.2), p.0 + 1, Seq::empty())
    } else {
        spec_read_unquoted(b, d, p)
    }
}

/// The fields of a record from `p` on, after the fields `acc`; at most `fuel` more
/// fields are read, and each field but the last is followed by a delimiter, so
/// `b.len() + 1` is always enough.
pub open spec fn spec_read_fields(b: Seq<u8>, d: u8, q: u8, p: Pos, acc: Seq<Seq<char>>, fuel: nat) -> (
    Result<Seq<Seq<char>>, Seq<char>>,
    Pos,
)
    decreases fuel,
{
    if fuel == 0 {
        (Ok(acc), p)
    } else {
        let (f, p1) = spec_read_field(b, d, q, p);
        match f {
            Err(m) => (Err(m), p1),
            Ok(t) => {
                let acc1 = acc.push(t);
                if p1.0 < 0 || p1.0 >= b.len() {
                    (Ok(acc1), p1)
                } else if b[p1.0] == d {
                    spec_read_fields(b, d, q, (p1.0 + 1, p1.1, p1.2), acc1, (fuel - 1) as nat)
                } else if b[p1.0] == 13 {
                    let np = if p1.0 + 1 < b.len() && b[p1.0 + 1] == 10 {
                        p1.0 + 2
                    } else {
                        p1.0 + 1
                    };
                    (Ok(acc1), (np, p1.1 + 1, np))
                } else if b[p1.0] == 10 {
                    (Ok(acc1), (p1.0 + 1, p1.1 + 1, p1.0 + 1))
                } else {
                    (Err("expected delimiter or newline"@), p1)
                }
            },
        }
    }
}

/// The next record from `p`: none at the end of the input (blank lines are skipped),
/// else its fields or the error; and the position after it.
pub open spec fn spec_read_record(b: Seq<u8>, d: u8, q: u8, p: Pos) -> (
    Option<Result<Seq<Seq<char>>, Seq<char>>>,
    Pos,
) {
    let p0 = skip_blank(b, p);
    if p0.0 >= b.len() {
        (None, p0)
    } else {
        let (r, p1) = spec_read_fields(b, d, q, p0, Seq::empty(), (b.len() + 1) as nat);
        (Some(r), p1)
    }
}

/// Whether `e` is the error with message `m` at position `p`.
pub open spec fn error_at(e: Error, m: Seq<char>, p: Pos) -> bool {
    e.msg@ == m && e.line == p.1 && e.col == p.0 - p.2 + 1
}

/// Whether the strings of `v` hold the texts `t`.
pub open spec fn texts_are(v: Seq<String>, t: Seq<Seq<char>>) -> bool {
    v.map_values(|s: String| s@) == t
}

/// A CSV reader over UTF-8 text, with a delimiter and a quote byte.
pub struct Reader<'a> {
    bytes: &'a [u8],
    pos: usize,
    delim: u8,
    quote: u8,
    line: usize,
    line_start: usize,
}

impl<'a> View for Reader<'a> {
    /// The input bytes, the delimiter, the quote, and the position.
    type V = (Seq<u8>, u8, u8, Pos);

    closed spec fn view(&self) -> (Seq<u8>, u8, u8, Pos) {
        (self.bytes@, self.delim, self.quote, (self.pos as int, self.line as int, self.line_start as int))
    }
}

/// Whether a field-reading step left the input, delimiter and quote as they were.
pub open spec fn same_input(a: (Seq<u8>, u8, u8, Pos), b: (Seq<u8>, u8, u8, Pos)) -> bool {
    a.0 == b.0 && a.1 == b.1 && a.2 == b.2
}

/// The result of a field step, as plain values.
pub open spec fn field_result(r: Result<String, Error>, res: Result<Seq<char>, Seq<char>>, p: Pos) -> bool {
    match res {
        Ok(t) => r matches Ok(s) && s@ == t,
        Err(m) => r matches Err(e) && error_at(e, m, p),
    }
}

impl<'a> Reader<'a> {
    /// Whether the position lies within the input and the line counts are consistent.
    pub closed spec fn wf(&self) -> bool {
        &&& self.pos <= self.bytes@.len() < usize::MAX
        &&& self.line_start <= self.pos
        &&& 1 <= self.line <= self.pos + 1
    }

    /// A reader of `s`, with `,` as delimiter and `"` as quote.
    pub fn new(s: &'a str) -> (r: Reader<'a>)
        requires
            s.spec_bytes().len() < usize::MAX,
        ensures
            r.wf(),
            r@ == (s.spec_bytes(), 44u8, 34u8, (0int, 1int, 0int)),
    {
        Reader { bytes: s.as_bytes(), pos: 0, delim: 44, quote: 34, line: 1, line_start: 0 }
    }

    /// The reader with delimiter `d`.
    pub fn delimiter(self, d: u8) -> (r: Reader<'a>)
        ensures
            self.wf() ==> r.wf(),
            r@ == (self@.0, d, self@.2, self@.3),
    {
        let mut r = self;
        r.delim = d;
        r
    }

    /// The reader with quote `q`.
    pub fn quote(self, q: u8) -> (r: Reader<'a>)
        ensures
            self.wf() ==> r.wf(),
            r@ == (self@.0, self@.1, q, self@.3),
    {
        let mut r = self;
        r.quote = q;
        r
    }

    fn at_end(&self) -> (r: bool)
        ensures
            r == (self@.3.0 >= self@.0.len()),
    {
        self.pos >= self.bytes.len()
    }

    fn err(&self, msg: &str) -> (e: Error)
        requires
            self.wf(),
        ensures
            error_at(e, msg@, self@.3),
    {
        Error { line: self.line, col: self.pos - self.line_start + 1, msg: msg.to_owned() }
    }

    fn read_unquoted(&mut self) -> (r: Result<String, Error>)
        requires
            old(self).wf(),
        ensures
            final(self).wf(),
            same_input(final(self)@, old(self)@),
            spec_read_unquoted(old(self)@.0, old(self)@.1, old(self)@.3).1 == final(self)@.3,
            field_result(r, spec_read_unquoted(old(self)@.0, old(self)@.1, old(self)@.3).0, final(self)@.3),
            final(self)@.3.0 >= old(self)@.3.0,
            final(self)@.3.0 == old(self)@.3.0 ==> (old(self)@.3.0 >= old(self)@.0.len() || old(self)@.0[old(self)@.3.0] == old(self)@.1 || old(self)@.0[old(self)@.3.0] == 13 || old(self)@.0[old(self)@.3.0] == 10),
    {
        let start = self.pos;
        while self.pos < self.bytes.len() && self.bytes[self.pos] != self.delim && self.bytes[self.pos]
            != 13 && self.bytes[self.pos] != 10
            invariant
                self.wf(),
                same_input(self@, old(self)@),
                self.line == old(self).line,
                self.line_start == old(self).line_start,
                start == old(self).pos <= self.pos,
                unquoted_end(self@.0, self@.1, start as int) == unquoted_end(self@.0, self@.1, self.pos as int),
            decreases self.bytes@.len() - self.pos,
        {
            self.pos = self.pos + 1;
        }
        match utf8_string(&self.bytes[start..self.pos]) {
            Some(s) => Ok(s),
            None => Err(self.err("invalid utf-8")),
        }
    }

    fn read_quoted_owned(&mut self, prefix: String) -> (r: Result<String, Error>)
        requires
            old(self).wf(),
            old(self).pos + 1 < old(self)@.0.len(),
            old(self)@.0[old(self).pos as int] == old(self).quote,
            old(self)@.0[old(self).pos + 1] == old(self).quote,
        ensures
            final(self).wf(),
            same_input(final(self)@, old(self)@),
            spec_scan_quoted(old(self)@.0, old(self)@.2, (old(self)@.3.0 + 2, old(self)@.3.1, old(self)@.3.2), old(self)@.3.0 + 2, prefix@.push(old(self)@.2 as char)).1 == final(self)@.3,
            field_result(r, spec_scan_quoted(old(self)@.0, old(self)@.2, (old(self)@.3.0 + 2, old(self)@.3.1, old(self)@.3.2), old(self)@.3.0 + 2, prefix@.push(old(self)@.2 as char)).0, final(self)@.3),
            final(self)@.3.0 >= old(self)@.3.0,
    {
        let mut out = prefix;
        push_char(&mut out, self.quote as char);
        self.pos = self.pos + 2;
        let mut chunk = self.pos;
        let ghost target = spec_scan_quoted(self@.0, self@.2, self@.3, chunk as int, out@);
        loop
            invariant
                self.wf(),
                same_input(self@, old(self)@),
                old(self).pos < chunk <= self.pos,
                target == spec_scan_quoted(self@.0, self@.2, self@.3, chunk as int, out@),
                target == spec_scan_quoted(old(self)@.0, old(self)@.2, (old(self)@.3.0 + 2, old(self)@.3.1, old(self)@.3.2), old(self)@.3.0 + 2, prefix@.push(old(self)@.2 as char)),
            decreases self.bytes@.len() - self.pos,
        {
            if self.pos >= self.bytes.len() {
                return Err(self.err("unterminated quoted field"));
            }
            let b = self.bytes[self.pos];
            if b == self.quote {
                let ghost acc = out@;
                match utf8_string(&self.bytes[chunk..self.pos]) {
                    Some(s) => push_str(&mut out, s.as_str()),
                    None => return Err(self.err("invalid utf-8")),
                }
                if self.pos + 1 < self.bytes.len() && self.bytes[self.pos + 1] == self.quote {
                    let ghost decoded = out@;
                    push_char(&mut out, self.quote as char);
                    assert(out@ =~= decoded + seq![self.quote as char]);
                    self.pos = self.pos + 2;
                    chunk = self.pos;
                    continue;
                }
                self.pos = self.pos + 1;
                return Ok(out);
            }
            if b == 10 {
                self.line = self.line + 1;
                self.line_start = self.pos + 1;
            }
            self.pos = self.pos + 1;
        }
    }

    fn read_quoted(&mut self) -> (r: Result<String, Error>)
        requires
            old(self).wf(),
            old(self).pos < old(self)@.0.len(),
            old(self)@.0[old(self).pos as int] == old(self).quote,
        ensures
            final(self).wf(),
            same_input(final(self)@, old(self)@),
            spec_read_field(old(self)@.0, old(self)@.1, old(self)@.2, old(self)@.3).1 == final(self)@.3,
            field_result(r, spec_read_field(old(self)@.0, old(self)@.1, old(self)@.2, old(self)@.3).0, final(self)@.3),
            final(self)@.3.0 > old(self)@.3.0,
    {
        self.pos = self.pos + 1;
        let start = self.pos;
        let ghost target = spec_scan_quoted(self@.0, self@.2, self@.3, start as int, Seq::empty());
        while self.pos < self.bytes.len()
            invariant
                self.wf(),
                same_input(self@, old(self)@),
                old(self).pos < start <= self.pos,
                target == spec_read_field(old(self)@.0, old(self)@.1, old(self)@.2, old(self)@.3),
                target == spec_scan_quoted(self@.0, self@.2, self@.3, start as int, Seq::empty()),
            decreases self.bytes@.len() - self.pos,
        {
            let b = self.bytes[self.pos];
            if b == self.quote {
                if self.pos + 1 < self.bytes.len() && self.bytes[self.pos + 1] == self.quote {
                    let mut out = String::new();
                    match utf8_string(&self.bytes[start..self.pos]) {
                        Some(s) => push_str(&mut out, s.as_str()),
                        None => return Err(self.err("invalid utf-8")),
                    }
                    assert(Seq::<char>::empty() + out@ + seq![self.quote as char] =~= out@.push(
                        self.quote as char,
                    ));
                    return self.read_quoted_owned(out);
                }
                let r = match utf8_string(&self.bytes[start..self.pos]) {
                    Some(s) => s,
                    None => return Err(self.err("invalid utf-8")),
                };
                self.pos = self.pos + 1;
                return Ok(r);
            }
            if b == 10 {
                self.line = self.line + 1;
                self.line_start = self.pos + 1;
            }
            self.pos = self.pos + 1;
        }
        Err(self.err("unterminated quoted field"))
    }

    fn read_field(&mut self) -> (r: Result<String, Error>)
        requires
            old(self).wf(),
        ensures
            final(self).wf(),
            same_input(final(self)@, old(self)@),
            spec_read_field(old(self)@.0, old(self)@.1, old(self)@.2, old(self)@.3).1 == final(self)@.3,
            field_result(r, spec_read_field(old(self)@.0, old(self)@.1, old(self)@.2, old(self)@.3).0, final(self)@.3),
            final(self)@.3.0 >= old(self)@.3.0,
            final(self)@.3.0 == old(self)@.3.0 ==> (old(self)@.3.0 >= old(self)@.0.len() || old(self)@.0[old(self)@.3.0] == old(self)@.1 || old(self)@.0[old(self)@.3.0] == 13 || old(self)@.0[old(self)@.3.0] == 10),
    {
        if self.pos < self.bytes.len() && self.bytes[self.pos] == self.quote {
            self.read_quoted()
        } else {
            self.read_unquoted()
        }
    }

    /// The next record: `None` at the end of the input (blank lines are skipped), else
    /// its fields, or the error that stopped it.
    pub fn read_record(&mut self) -> (r: Option<Result<Vec<String>, Error>>)
        requires
            old(self).wf(),
        ensures
            final(self).wf(),
            same_input(final(self)@, old(self)@),
            spec_read_record(old(self)@.0, old(self)@.1, old(self)@.2, old(self)@.3).1 == final(self)@.3,
            match spec_read_record(old(self)@.0, old(self)@.1, old(self)@.2, old(self)@.3).0 {
                None => r is None,
                Some(Ok(fs)) => r matches Some(Ok(v)) && texts_are(v@, fs),
                Some(Err(m)) => r matches Some(Err(e)) && error_at(e, m, final(self)@.3),
            },
            r matches Some(Ok(_)) ==> final(self)@.3.0 > old(self)@.3.0,
    {
        while self.pos < self.bytes.len() && (self.bytes[self.pos] == 10 || (self.bytes[self.pos]
            == 13 && self.pos + 1 < self.bytes.len() && self.bytes[self.pos + 1] == 10))
            invariant
                self.wf(),
                same_input(self@, old(self)@),
                self.pos >= old(self).pos,
                skip_blank(self@.0, old(self)@.3) == skip_blank(self@.0, self@.3),
            decreases self.bytes@.len() - self.pos,
        {
            if self.bytes[self.pos] == 10 {
                self.pos = self.pos + 1;
            } else {
                self.pos = self.pos + 2;
            }
            self.line = self.line + 1;
            self.line_start = self.pos;
        }
        if self.at_end() {
            return None;
        }
        let ghost p0 = self@.3;
        let ghost target = spec_read_fields(self@.0, self@.1, self@.2, p0, Seq::empty(), (self@.0.len() + 1) as nat);
        let ghost mut fuel: nat = (self@.0.len() + 1) as nat;
        let mut record: Vec<String> = Vec::new();
        assert(record@.map_values(|s: String| s@) =~= Seq::<Seq<char>>::empty());
        loop
            invariant
                self.wf(),
                same_input(self@, old(self)@),
                p0 == skip_blank(self@.0, old(self)@.3),
                p0.0 < self@.0.len(),
                p0.0 >= old(self)@.3.0,
                self.pos >= p0.0,
                target == spec_read_fields(self@.0, self@.1, self@.2, p0, Seq::empty(), (self@.0.len() + 1) as nat),
                target == spec_read_fields(self@.0, self@.1, self@.2, self@.3, record@.map_values(|s: String| s@), fuel),
                fuel >= self@.0.len() - self.pos + 1,
            decreases self.bytes@.len() - self.pos,
        {
            let ghost before = self@.3;
            let field = match self.read_field() {
                Ok(f) => f,
                Err(e) => return Some(Err(e)),
            };
            let ghost texts = record@.map_values(|s: String| s@);
            record.push(field);
            assert(record@.map_values(|s: String| s@) =~= texts.push(field@));
            if self.pos >= self.bytes.len() {
                return Some(Ok(record));
            }
            let c = self.bytes[self.pos];
            if c == self.delim {
                self.pos = self.pos + 1;
                proof {
                    fuel = (fuel - 1) as nat;
                }
            } else if c == 13 {
                self.pos = self.pos + 1;
                if self.pos < self.bytes.len() && self.bytes[self.pos] == 10 {
                    self.pos = self.pos + 1;
                }
                self.line = self.line + 1;
                self.line_start = self.pos;
                return Some(Ok(record));
            } else if c == 10 {
                self.pos = self.pos + 1;
                self.line = self.line + 1;
                self.line_start = self.pos;
                return Some(Ok(record));
            } else {
                return Some(Err(self.err("expected delimiter or newline")));
            }
        }
    }
}

/// The records from `p` on, after the records `acc`, or the first error with the
/// position where it arose; at most `fuel` more records are read, and each record
/// takes at least one byte, so `b.len() + 1` is always enough.
pub open spec fn spec_parse_records(b: Seq<u8>, p: Pos, acc: Seq<Seq<Seq<char>>>, fuel: nat) -> Result<
    Seq<Seq<Seq<char>>>,
    (Seq<char>, Pos),
>
    decreases fuel,
{
    if fuel == 0 {
        Ok(acc)
    } else {
        let (r, p1) = spec_read_record(b, 44, 34, p);
        match r {
            None => Ok(acc),
            Some(Err(m)) => Err((m, p1)),
            Some(Ok(fs)) => spec_parse_records(b, p1, acc.push(fs), (fuel - 1) as nat),
        }
    }
}

/// All records of a CSV text, with `,` and `"`, or the first error.
pub open spec fn spec_parse_str(b: Seq<u8>) -> Result<Seq<Seq<Seq<char>>>, (Seq<char>, Pos)> {
    spec_parse_records(b, (0, 1, 0), Seq::empty(), (b.len() + 1) as nat)
}

/// Whether the records of `v` hold the texts `rs`.
pub open spec fn records_are(v: Seq<Vec<String>>, rs: Seq<Seq<Seq<char>>>) -> bool {
    v.len() == rs.len() && forall|i: int| 0 <= i < v.len() ==> texts_are((#[trigger] v[i])@, rs[i])
}

/// Reads every record of `s`, with `,` as delimiter and `"` as quote.
pub fn parse_str(s: &str) -> (r: Result<Vec<Vec<String>>, Error>)
    requires
        s.spec_bytes().len() < usize::MAX,
    ensures
        match spec_parse_str(s.spec_bytes()) {
            Ok(rs) => r matches Ok(v) && records_are(v@, rs),
            Err((m, p)) => r matches Err(e) && error_at(e, m, p),
        },
{
    let mut out: Vec<Vec<String>> = Vec::new();
    let mut rd = Reader::new(s);
    let ghost b = s.spec_bytes();
    let ghost target = spec_parse_str(b);
    let ghost mut fuel: nat = (b.len() + 1) as nat;
    let ghost mut models: Seq<Seq<Seq<char>>> = Seq::empty();
    loop
        invariant
            rd.wf(),
            b == s.spec_bytes(),
            rd@.0 == b,
            rd@.1 == 44u8,
            rd@.2 == 34u8,
            target == spec_parse_str(b),
            target == spec_parse_records(b, rd@.3, models, fuel),
            records_are(out@, models),
            fuel >= b.len() - rd@.3.0 + 1,
            rd@.3.0 <= b.len(),
        decreases b.len() - rd@.3.0,
    {
        let ghost before = rd@.3;
        match rd.read_record() {
            None => {
                return Ok(out);
            },
            Some(Err(e)) => {
                return Err(e);
            },
            Some(Ok(rec)) => {
                let ghost fs = rec@.map_values(|s: String| s@);
                proof {
                    models = models.push(fs);
                    fuel = (fuel - 1) as nat;
                }
                out.push(rec);
                assert(records_are(out@, models)) by {
                    assert forall|i: int| 0 <= i < out@.len() implies texts_are((#[trigger] out@[i])@, models[i]) by {
                        if i < out@.len() - 1 {
                        }
                    }
                }
            },
        }
    }
}

/// `s` with each `"` doubled.
pub open spec fn escape_quotes(s: Seq<char>) -> Seq<char>
    decreases s.len(),
{
    if s.len() == 0 {
        Seq::empty()
    } else if s.last() == '"' {
        escape_quotes(s.drop_last()) + seq!['"', '"']
    } else {
        escape_quotes(s.drop_last()).push(s.last())
    }
}

/// Whether a byte of a field forces quoting: the delimiter, `"`, `\n` or `\r`.
pub open spec fn forces_quote(b: u8, delim: u8) -> bool {
    b == delim || b == 34 || b == 10 || b == 13
}

/// Whether the UTF-8 bytes of a field hold a byte that forces quoting.
pub open spec fn needs_quoting(b: Seq<u8>, delim: u8) -> bool {
    exists|i: int| 0 <= i < b.len() && forces_quote(#[trigger] b[i], delim)
}

/// How a field is written: as it is, or quoted with its quotes doubled where one of
/// its bytes forces quoting.
pub open spec fn field_text(s: Seq<char>, delim: u8) -> Seq<char> {
    if needs_quoting(encode_utf8(s), delim) {
        seq!['"'] + escape_quotes(s) + seq!['"']
    } else {
        s
    }
}

/// The first `k` fields, each written as `field_text`, separated by the delimiter.
pub open spec fn fields_text(fs: Seq<Seq<char>>, delim: u8, k: int) -> Seq<char>
    decreases k,
{
    if k <= 0 {
        Seq::empty()
    } else if k == 1 {
        field_text(fs[0], delim)
    } else {
        fields_text(fs, delim, k - 1).push(delim as char) + field_text(fs[k - 1], delim)
    }
}

/// How a record is written: its fields separated by the delimiter, then `\n`.
pub open spec fn record_text(fs: Seq<Seq<char>>, delim: u8) -> Seq<char> {
    fields_text(fs, delim, fs.len() as int).push('\n')
}

/// The text of the first `k` records.
pub open spec fn records_text(rs: Seq<Seq<Seq<char>>>, delim: u8, k: int) -> Seq<char>
    decreases k,
{
    if k <= 0 {
        Seq::empty()
    } else {
        records_text(rs, delim, k - 1) + record_text(rs[k - 1], delim)
    }
}

/// A CSV writer that collects its output in `out`.
pub struct Writer {
    pub out: String,
    delim: u8,
    quote: u8,
    needs_quote: [bool; 256],
}

impl Writer {
    /// The delimiter.
    pub closed spec fn delim(&self) -> u8 {
        self.delim
    }

    /// The text written so far.
    pub closed spec fn text(&self) -> Seq<char> {
        self.out@
    }

    /// Whether the table of bytes that force quoting is the one for the delimiter.
    pub closed spec fn wf(&self) -> bool {
        &&& self.quote == 34
        &&& forall|b: u8| #[trigger] self.needs_quote@[b as int] == forces_quote(b, self.delim)
    }

    /// A writer with `,` as delimiter.
    pub fn new() -> (w: Writer)
        ensures
            w.wf(),
            w.delim() == 44,
            w.text() == Seq::<char>::empty(),
    {
        Writer::with_delim(44)
    }

    /// A writer with delimiter `delim`.
    pub fn with_delim(delim: u8) -> (w: Writer)
        ensures
            w.wf(),
            w.delim() == delim,
            w.text() == Seq::<char>::empty(),
    {
        let quote: u8 = 34;
        let mut nq = [false; 256];
        nq[delim as usize] = true;
        nq[quote as usize] = true;
        nq[10] = true;
        nq[13] = true;
        let w = Writer { out: String::new(), delim, quote, needs_quote: nq };
        assert forall|b: u8| #[trigger] w.needs_quote@[b as int] == forces_quote(b, delim) by {
            if b != delim && b != 34 && b != 10 && b != 13 {
                assert(nq@[b as int] == false);
            }
        }
        w
    }

    /// The text written so far.
    pub fn into_string(self) -> (s: String)
        ensures
            s@ == self.text(),
    {
        self.out
    }

    fn write_field(&mut self, s: &str)
        requires
            old(self).wf(),
        ensures
            final(self).wf(),
            final(self).delim() == old(self).delim(),
            final(self).text() == old(self).text() + field_text(s@, old(self).delim()),
    {
        let bytes = s.as_bytes();
        let mut needs = false;
        let mut i: usize = 0;
        while i < bytes.len()
            invariant
                self.wf(),
                bytes@ == s.spec_bytes(),
                i <= bytes.len(),
                needs == exists|j: int| 0 <= j < i && forces_quote(#[trigger] bytes@[j], self.delim),
            decreases bytes.len() - i,
        {
            if self.needs_quote[bytes[i] as usize] {
                needs = true;
            }
            i = i + 1;
        }
        assert(s.spec_bytes() == encode_utf8(s@));
        if !needs {
            push_str(&mut self.out, s);
            return;
        }
        let chars = to_chars(s);
        let ghost start = self.out@;
        push_char(&mut self.out, '"');
        let mut k: usize = 0;
        while k < chars.len()
            invariant
                self.wf(),
                self.delim == old(self).delim,
                chars@ == s@,
                k <= chars.len(),
                self.out@ == start + seq!['"'] + escape_quotes(chars@.take(k as int)),
            decreases chars.len() - k,
        {
            assert(chars@.take(k + 1).drop_last() =~= chars@.take(k as int));
            let c = chars[k];
            if c == '"' {
                push_char(&mut self.out, '"');
                push_char(&mut self.out, '"');
            } else {
                push_char(&mut self.out, c);
            }
            k = k + 1;
        }
        assert(chars@.take(k as int) =~= s@);
        push_char(&mut self.out, '"');
        assert(self.out@ =~= start + field_text(s@, self.delim));
    }

    /// Writes one record: its fields, separated by the delimiter and quoted where
    /// needed, then `\n`.
    pub fn write_record(&mut self, fields: &[String])
        requires
            old(self).wf(),
        ensures
            final(self).wf(),
            final(self).delim() == old(self).delim(),
            final(self).text() == old(self).text() + record_text(fields@.map_values(|f: String| f@), old(self).delim()),
    {
        let ghost fs = fields@.map_values(|f: String| f@);
        let ghost start = self.out@;
        let mut k: usize = 0;
        while k < fields.len()
            invariant
                self.wf(),
                self.delim == old(self).delim,
                fs == fields@.map_values(|f: String| f@),
                start == old(self).out@,
                k <= fields.len(),
                self.out@ == start + fields_text(fs, self.delim, k as int),
            decreases fields.len() - k,
        {
            if k > 0 {
                push_char(&mut self.out, self.delim as char);
            }
            let ghost mid = self.out@;
            self.write_field(fields[k].as_str());
            assert(fs[k as int] == fields@[k as int]@);
            assert(self.out@ =~= start + fields_text(fs, self.delim, k + 1));
            k = k + 1;
        }
        push_char(&mut self.out, '\n');
        assert(self.out@ =~= start + record_text(fs, self.delim));
    }
}

impl Default for Writer {
    fn default() -> (w: Writer)
        ensures
            w.wf(),
            w.delim() == 44,
            w.text() == Seq::<char>::empty(),
    {
        Writer::new()
    }
}

/// Writes the records with `,` as delimiter.
pub fn to_string(records: &[Vec<String>]) -> (s: String)
    ensures
        s@ == records_text(records@.map_values(|r: Vec<String>| r@.map_values(|f: String| f@)), 44, records@.len() as int),
{
    let ghost rs = records@.map_values(|r: Vec<String>| r@.map_values(|f: String| f@));
    let mut w = Writer::new();
    let mut k: usize = 0;
    while k < records.len()
        invariant
            w.wf(),
            w.delim() == 44,
            rs == records@.map_values(|r: Vec<String>| r@.map_values(|f: String| f@)),
            k <= records.len(),
            w.text() == records_text(rs, 44, k as int),
        decreases records.len() - k,
    {
        let ghost before = w.text();
        w.write_record(records[k].as_slice());
        assert(rs[k as int] == records@[k as int]@.map_values(|f: String| f@));
        assert(w.text() =~= records_text(rs, 44, k + 1));
        k = k + 1;
    }
    w.into_string()
}

} // verus!
