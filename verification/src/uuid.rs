use vstd::prelude::*;
use vstd::string::*;
use vstd::utf8::*;
use crate::hex::{hex_digit, nibble_at, spec_nibble};
use crate::text::push_char;

verus! {

/// A 128-bit universally unique identifier, stored big-endian.
#[derive(Copy, Clone, Eq, PartialEq, Ord, PartialOrd, Hash, Default, Debug)]
pub struct Uuid(pub [u8; 16]);

/// Why a text is not a UUID.
#[derive(Debug, PartialEq, Eq)]
pub enum Error {
    InvalidLength(usize),
    InvalidGroupLength,
    InvalidChar(u8),
}

/// The bytes of `urn:uuid:`.
pub open spec fn urn_prefix() -> Seq<u8> {
    seq![117u8, 114, 110, 58, 117, 117, 105, 100, 58]
}

/// The characters of `urn:uuid:`.
pub open spec fn urn_prefix_chars() -> Seq<char> {
    seq!['u', 'r', 'n', ':', 'u', 'u', 'i', 'd', ':']
}

/// A text with a leading `urn:uuid:` and then one pair of enclosing braces removed.
pub open spec fn strip(s: Seq<u8>) -> Seq<u8> {
    let s1 = if s.len() >= 9 && s.take(9) == urn_prefix() { s.skip(9) } else { s };
    if s1.len() >= 1 && s1[0] == 123 && s1.last() == 125 {
        s1.subrange(1, s1.len() - 1)
    } else {
        s1
    }
}

/// Text position of hex digit `k` (0..32), in the hyphenated or in the simple layout.
pub open spec fn digit_pos(k: int, dashed: bool) -> int {
    if !dashed {
        k
    } else {
        k + (if k >= 8 { 1int } else { 0 }) + (if k >= 12 { 1int } else { 0 }) + (if k >= 16 {
            1int
        } else {
            0
        }) + (if k >= 20 { 1int } else { 0 })
    }
}

/// Whether hex digits `0..end` of `t` are all valid.
pub open spec fn digits_ok(t: Seq<u8>, dashed: bool, end: int) -> bool {
    forall|k: int| 0 <= k < end ==> (#[trigger] spec_nibble(t[digit_pos(k, dashed)])) is Some
}

/// The first hex digit of `t` that is not one.
pub open spec fn first_bad_digit(t: Seq<u8>, dashed: bool) -> int {
    choose|k: int|
        0 <= k < 32 && spec_nibble(t[digit_pos(k, dashed)]) is None && digits_ok(t, dashed, k)
}

/// The byte that digits `2i` and `2i + 1` of `t` stand for.
pub open spec fn parsed_byte(t: Seq<u8>, dashed: bool, i: int) -> u8 {
    (spec_nibble(t[digit_pos(2 * i, dashed)])->0 * 16 + spec_nibble(
        t[digit_pos(2 * i + 1, dashed)],
    )->0) as u8
}

/// What parsing the UTF-8 bytes `s` gives: the 16 bytes of the UUID or the error.
pub open spec fn spec_parse(s: Seq<u8>) -> Result<Seq<u8>, Error> {
    let t = strip(s);
    if t.len() != 32 && t.len() != 36 {
        Err(Error::InvalidLength(t.len() as usize))
    } else {
        let dashed = t.len() == 36;
        if dashed && !(t[8] == 45 && t[13] == 45 && t[18] == 45 && t[23] == 45) {
            Err(Error::InvalidGroupLength)
        } else if !digits_ok(t, dashed, 32) {
            Err(Error::InvalidChar(t[digit_pos(first_bad_digit(t, dashed), dashed)]))
        } else {
            Ok(Seq::new(16, |i: int| parsed_byte(t, dashed, i)))
        }
    }
}

/// Whether a text position of the hyphenated form holds a `-`.
pub open spec fn dash_at(j: int) -> bool {
    j == 8 || j == 13 || j == 18 || j == 23
}

/// The hex digit index that text position `j` of the hyphenated form shows.
pub open spec fn digit_of_pos(j: int) -> int {
    j - (if j > 8 { 1int } else { 0 }) - (if j > 13 { 1int } else { 0 }) - (if j > 18 {
        1int
    } else {
        0
    }) - (if j > 23 { 1int } else { 0 })
}

/// The 36-character hyphenated lower-case form, `8-4-4-4-12` digits.
pub open spec fn hyphenated_text(b: Seq<u8>) -> Seq<char> {
    Seq::new(
        36,
        |j: int|
            if dash_at(j) {
                '-'
            } else {
                hex_digit(nibble_at(b, digit_of_pos(j)), false) as char
            },
    )
}

/// The 32-character form without hyphens.
pub open spec fn simple_text(b: Seq<u8>) -> Seq<char> {
    crate::hex::spec_encode(b, false)
}

/// The hyphenated form in braces.
pub open spec fn braced_text(b: Seq<u8>) -> Seq<char> {
    seq!['{'] + hyphenated_text(b) + seq!['}']
}

/// The hyphenated form after `urn:uuid:`.
pub open spec fn urn_text(b: Seq<u8>) -> Seq<char> {
    urn_prefix_chars() + hyphenated_text(b)
}

impl Uuid {
    /// The UUID with all bits zero.
    pub fn nil() -> (u: Uuid)
        ensures
            u.0@ == Seq::new(16, |i: int| 0u8),
    {
        let u = Uuid([0u8; 16]);
        assert(u.0@ =~= Seq::new(16, |i: int| 0u8));
        u
    }

    /// The UUID with all bits one.
    pub fn max() -> (u: Uuid)
        ensures
            u.0@ == Seq::new(16, |i: int| 0xffu8),
    {
        let u = Uuid([0xffu8; 16]);
        assert(u.0@ =~= Seq::new(16, |i: int| 0xffu8));
        u
    }

    /// The UUID with the given big-endian bytes.
    pub fn from_bytes(b: [u8; 16]) -> (u: Uuid)
        ensures
            u.0 == b,
    {
        Uuid(b)
    }

    /// The big-endian bytes.
    pub fn as_bytes(&self) -> (b: &[u8; 16])
        ensures
            *b == self.0,
    {
        &self.0
    }

    /// The big-endian bytes, by value.
    pub fn into_bytes(self) -> (b: [u8; 16])
        ensures
            b == self.0,
    {
        self.0
    }

    /// Whether every byte is zero.
    pub fn is_nil(&self) -> (r: bool)
        ensures
            r == forall|i: int| 0 <= i < 16 ==> self.0@[i] == 0,
    {
        let mut i: usize = 0;
        while i < 16
            invariant
                i <= 16,
                forall|j: int| 0 <= j < i ==> self.0@[j] == 0,
            decreases 16 - i,
        {
            if self.0[i] != 0 {
                return false;
            }
            i = i + 1;
        }
        true
    }

    /// The version field: the high nibble of byte 6.
    pub fn get_version_num(&self) -> (v: usize)
        ensures
            v == (self.0@[6] >> 4) as usize,
    {
        (self.0[6] >> 4) as usize
    }

    /// A version-4 UUID from 16 random bytes: the version nibble is set to 4 and
    /// the variant bits to `10`.
    pub fn new_v4_from_bytes(random: [u8; 16]) -> (u: Uuid)
        ensures
            forall|i: int| 0 <= i < 16 && i != 6 && i != 8 ==> u.0@[i] == random@[i],
            u.0@[6] == (random@[6] & 0x0f) | 0x40,
            u.0@[8] == (random@[8] & 0x3f) | 0x80,
    {
        let mut b = random;
        b[6] = (b[6] & 0x0f) | 0x40;
        b[8] = (b[8] & 0x3f) | 0x80;
        Uuid(b)
    }

    /// A version-7 UUID: the low 48 bits of the millisecond time stamp big-endian in
    /// bytes 0..6, then the 10 random bytes, with version nibble 7 and variant `10`.
    pub fn now_v7_from_parts(millis: u64, random: [u8; 10]) -> (u: Uuid)
        ensures
            forall|i: int| 0 <= i < 6 ==> u.0@[i] == (millis >> (8 * (5 - i)) as u64) as u8,
            forall|i: int| 6 <= i < 16 && i != 6 && i != 8 ==> u.0@[i] == random@[i - 6],
            u.0@[6] == (random@[0] & 0x0f) | 0x70,
            u.0@[8] == (random@[2] & 0x3f) | 0x80,
    {
        let mut b = [0u8; 16];
        let mut i: usize = 0;
        while i < 6
            invariant
                i <= 6,
                forall|j: int| 0 <= j < i ==> b@[j] == (millis >> (8 * (5 - j)) as u64) as u8,
            decreases 6 - i,
        {
            b[i] = (millis >> (8 * (5 - i) as u64)) as u8;
            i = i + 1;
        }
        while i < 16
            invariant
                6 <= i <= 16,
                forall|j: int| 0 <= j < 6 ==> b@[j] == (millis >> (8 * (5 - j)) as u64) as u8,
                forall|j: int| 6 <= j < i ==> b@[j] == random@[j - 6],
            decreases 16 - i,
        {
            b[i] = random[i - 6];
            i = i + 1;
        }
        b[6] = (b[6] & 0x0f) | 0x70;
        b[8] = (b[8] & 0x3f) | 0x80;
        Uuid(b)
    }

    /// Parses the hyphenated (36 characters) or simple (32) form, either case,
    /// optionally in braces and optionally after `urn:uuid:`.
    pub fn parse_str(input: &str) -> (r: Result<Uuid, Error>)
        ensures
            match spec_parse(input.spec_bytes()) {
                Ok(b) => r matches Ok(u) && u.0@ == b,
                Err(e) => r == Err::<Uuid, Error>(e),
            },
    {
        parse_bytes(input.as_bytes())
    }

    /// The hyphenated form of this UUID.
    pub fn hyphenated(&self) -> (h: Hyphenated)
        ensures
            h.0 == *self,
    {
        Hyphenated(*self)
    }

    /// The form without hyphens.
    pub fn simple(&self) -> (h: Simple)
        ensures
            h.0 == *self,
    {
        Simple(*self)
    }

    /// The hyphenated form in braces.
    pub fn braced(&self) -> (h: Braced)
        ensures
            h.0 == *self,
    {
        Braced(*self)
    }

    /// The hyphenated form after `urn:uuid:`.
    pub fn urn(&self) -> (h: Urn)
        ensures
            h.0 == *self,
    {
        Urn(*self)
    }

    /// The hyphenated lower-case text.
    pub fn to_string(&self) -> (s: String)
        ensures
            s@ == hyphenated_text(self.0@),
    {
        let mut s = String::new();
        hyphenated_into(&self.0, &mut s);
        s
    }
}

/// A UUID shown `xxxxxxxx-xxxx-xxxx-xxxx-xxxxxxxxxxxx`.
pub struct Hyphenated(pub Uuid);

/// A UUID shown as 32 hex digits.
pub struct Simple(pub Uuid);

/// A UUID shown hyphenated in braces.
pub struct Braced(pub Uuid);

/// A UUID shown hyphenated after `urn:uuid:`.
pub struct Urn(pub Uuid);

impl Hyphenated {
    /// The hyphenated text.
    pub fn to_string(&self) -> (s: String)
        ensures
            s@ == hyphenated_text(self.0.0@),
    {
        self.0.to_string()
    }
}

impl Simple {
    /// The 32-digit text.
    pub fn to_string(&self) -> (s: String)
        ensures
            s@ == simple_text(self.0.0@),
    {
        crate::hex::encode(&self.0.0)
    }
}

impl Braced {
    /// The braced text.
    pub fn to_string(&self) -> (s: String)
        ensures
            s@ == braced_text(self.0.0@),
    {
        let mut s = String::new();
        push_char(&mut s, '{');
        hyphenated_into(&self.0.0, &mut s);
        push_char(&mut s, '}');
        assert(s@ =~= braced_text(self.0.0@));
        s
    }
}

impl Urn {
    /// The URN text.
    pub fn to_string(&self) -> (s: String)
        ensures
            s@ == urn_text(self.0.0@),
    {
        let mut s = String::new();
        push_char(&mut s, 'u');
        push_char(&mut s, 'r');
        push_char(&mut s, 'n');
        push_char(&mut s, ':');
        push_char(&mut s, 'u');
        push_char(&mut s, 'u');
        push_char(&mut s, 'i');
        push_char(&mut s, 'd');
        push_char(&mut s, ':');
        hyphenated_into(&self.0.0, &mut s);
        assert(s@ =~= urn_text(self.0.0@));
        s
    }
}

/// Number of hyphens the hyphenated form has before the digits of byte `i`.
pub open spec fn dashes_before(i: int) -> int {
    (if i > 4 { 1int } else { 0 }) + (if i > 6 { 1int } else { 0 }) + (if i > 8 {
        1int
    } else {
        0
    }) + (if i > 10 { 1int } else { 0 })
}

fn hex_char(v: u8) -> (c: char)
    requires
        v < 16,
    ensures
        c == hex_digit(v, false) as char,
{
    if v < 10 {
        (v + 48) as char
    } else {
        (v - 10 + 97) as char
    }
}

fn hyphenated_into(b: &[u8; 16], out: &mut String)
    ensures
        final(out)@ == old(out)@ + hyphenated_text(b@),
{
    let ghost start = out@;
    let ghost text = hyphenated_text(b@);
    let mut i: usize = 0;
    while i < 16
        invariant
            i <= 16,
            text == hyphenated_text(b@),
            out@ =~= start + text.take(2 * i + dashes_before(i as int)),
        decreases 16 - i,
    {
        if i == 4 || i == 6 || i == 8 || i == 10 {
            push_char(out, '-');
        }
        let x = b[i];
        assert(x >> 4 < 16 && x & 0x0f < 16) by (bit_vector);
        let ghost p = 2 * i + dashes_before(i as int) + (if i == 4 || i == 6 || i == 8 || i == 10 {
            1int
        } else {
            0
        });
        assert(!dash_at(p) && digit_of_pos(p) == 2 * i);
        assert(!dash_at(p + 1) && digit_of_pos(p + 1) == 2 * i + 1);
        assert((2 * i) / 2 == i && (2 * i + 1) / 2 == i && (2 * i) % 2 == 0 && (2 * i + 1) % 2 == 1);
        push_char(out, hex_char(x >> 4));
        push_char(out, hex_char(x & 0x0f));
        i = i + 1;
    }
    assert(text.take(36) =~= text);
}

fn nibble(b: u8) -> (r: Result<u8, Error>)
    ensures
        match spec_nibble(b) {
            Some(v) => r == Ok::<u8, Error>(v),
            None => r == Err::<u8, Error>(Error::InvalidChar(b)),
        },
{
    if b >= 48 && b <= 57 {
        Ok(b - 48)
    } else if b >= 97 && b <= 102 {
        Ok(b - 97 + 10)
    } else if b >= 65 && b <= 70 {
        Ok(b - 65 + 10)
    } else {
        Err(Error::InvalidChar(b))
    }
}

fn digit_position(k: usize, dashed: bool) -> (p: usize)
    requires
        k < 32,
    ensures
        p == digit_pos(k as int, dashed),
{
    if !dashed {
        k
    } else {
        let mut p = k;
        if k >= 8 {
            p = p + 1;
        }
        if k >= 12 {
            p = p + 1;
        }
        if k >= 16 {
            p = p + 1;
        }
        if k >= 20 {
            p = p + 1;
        }
        p
    }
}

proof fn lemma_first_bad_digit(t: Seq<u8>, dashed: bool, k: int)
    requires
        0 <= k < 32,
        spec_nibble(t[digit_pos(k, dashed)]) is None,
        digits_ok(t, dashed, k),
    ensures
        first_bad_digit(t, dashed) == k,
        !digits_ok(t, dashed, 32),
{
    let j = first_bad_digit(t, dashed);
    assert(spec_nibble(t[digit_pos(j, dashed)]) is None && digits_ok(t, dashed, j));
    if j < k {
        assert(spec_nibble(t[digit_pos(j, dashed)]) is Some);
    } else if j > k {
        assert(spec_nibble(t[digit_pos(k, dashed)]) is Some);
    }
}

fn parse_bytes(s: &[u8]) -> (r: Result<Uuid, Error>)
    ensures
        match spec_parse(s@) {
            Ok(b) => r matches Ok(u) && u.0@ == b,
            Err(e) => r == Err::<Uuid, Error>(e),
        },
{
    let mut start: usize = 0;
    let mut end: usize = s.len();
    if s.len() >= 9 && s[0] == 117 && s[1] == 114 && s[2] == 110 && s[3] == 58 && s[4] == 117
        && s[5] == 117 && s[6] == 105 && s[7] == 100 && s[8] == 58 {
        assert(s@.take(9) =~= urn_prefix());
        start = 9;
    } else {
        assert(s.len() >= 9 ==> s@.take(9) != urn_prefix()) by {
            if s.len() >= 9 && s@.take(9) == urn_prefix() {
                assert(s@.take(9)[0] == s@[0]);
                assert(s@.take(9)[1] == s@[1]);
                assert(s@.take(9)[2] == s@[2]);
                assert(s@.take(9)[3] == s@[3]);
                assert(s@.take(9)[4] == s@[4]);
                assert(s@.take(9)[5] == s@[5]);
                assert(s@.take(9)[6] == s@[6]);
                assert(s@.take(9)[7] == s@[7]);
                assert(s@.take(9)[8] == s@[8]);
            }
        }
    }
    let ghost s1 = s@.subrange(start as int, end as int);
    assert(s1 =~= (if s@.len() >= 9 && s@.take(9) == urn_prefix() { s@.skip(9) } else { s@ }));
    if end > start && s[start] == 123 && s[end - 1] == 125 {
        start = start + 1;
        end = end - 1;
    }
    let ghost t = s@.subrange(start as int, end as int);
    assert(t =~= strip(s@));
    let len = end - start;
    if len != 32 && len != 36 {
        return Err(Error::InvalidLength(len));
    }
    let dashed = len == 36;
    if dashed && !(s[start + 8] == 45 && s[start + 13] == 45 && s[start + 18] == 45 && s[start
        + 23] == 45) {
        return Err(Error::InvalidGroupLength);
    }
    let mut out = [0u8; 16];
    let mut i: usize = 0;
    while i < 16
        invariant
            start <= end <= s.len(),
            t == s@.subrange(start as int, end as int),
            t == strip(s@),
            len == end - start,
            len == 32 || len == 36,
            dashed == (len == 36),
            dashed ==> t[8] == 45 && t[13] == 45 && t[18] == 45 && t[23] == 45,
            i <= 16,
            digits_ok(t, dashed, 2 * i),
            forall|j: int| 0 <= j < i ==> #[trigger] out@[j] == parsed_byte(t, dashed, j),
        decreases 16 - i,
    {
        let p = digit_position(2 * i, dashed);
        let q = digit_position(2 * i + 1, dashed);
        let hi = match nibble(s[start + p]) {
            Ok(v) => v,
            Err(e) => {
                proof {
                    lemma_first_bad_digit(t, dashed, 2 * i as int);
                }
                return Err(e);
            },
        };
        let lo = match nibble(s[start + q]) {
            Ok(v) => v,
            Err(e) => {
                proof {
                    lemma_first_bad_digit(t, dashed, 2 * i + 1);
                }
                return Err(e);
            },
        };
        assert(((hi << 4) | lo) == hi * 16 + lo) by (bit_vector)
            requires
                hi < 16,
                lo < 16,
        ;
        out[i] = (hi << 4) | lo;
        i = i + 1;
    }
    assert(out@ =~= Seq::new(16, |i: int| parsed_byte(t, dashed, i)));
    Ok(Uuid(out))
}

proof fn lemma_nibble_of_digit(v: u8)
    requires
        v < 16,
    ensures
        spec_nibble(hex_digit(v, false)) == Some(v),
{
}

proof fn lemma_byte_of_nibbles(b: u8)
    ensures
        ((b >> 4) * 16 + (b & 0x0f)) as u8 == b,
        b >> 4 < 16,
        b & 0x0f < 16,
{
    assert(((b >> 4) * 16 + (b & 0x0f)) as u8 == b && b >> 4 < 16 && b & 0x0f < 16)
        by (bit_vector);
}

proof fn lemma_ascii_bytes(c: Seq<char>)
    requires
        is_ascii_chars(c),
    ensures
        encode_utf8(c) =~= c.map_values(|x: char| x as u8),
{
    is_ascii_chars_encode_utf8(c);
}

/// The hyphenated text parses back to the same bytes, as digits.
proof fn lemma_parse_hyphen_digits(b: Seq<u8>, t: Seq<u8>)
    requires
        b.len() == 16,
        t == hyphenated_text(b).map_values(|x: char| x as u8),
    ensures
        t.len() == 36,
        t[8] == 45 && t[13] == 45 && t[18] == 45 && t[23] == 45,
        digits_ok(t, true, 32),
        Seq::new(16, |i: int| parsed_byte(t, true, i)) =~= b,
        t[0] != 117 && t[0] != 123,
{
    assert forall|k: int| 0 <= k < 32 implies #[trigger] spec_nibble(t[digit_pos(k, true)]) == Some(
        nibble_at(b, k),
    ) by {
        let j = digit_pos(k, true);
        assert(!dash_at(j) && digit_of_pos(j) == k);
        lemma_byte_of_nibbles(b[k / 2]);
        lemma_nibble_of_digit(nibble_at(b, k));
    }
    assert forall|i: int| 0 <= i < 16 implies #[trigger] parsed_byte(t, true, i) == b[i] by {
        assert((2 * i) / 2 == i && (2 * i + 1) / 2 == i && (2 * i) % 2 == 0 && (2 * i + 1) % 2
            == 1);
        lemma_byte_of_nibbles(b[i]);
        assert(spec_nibble(t[digit_pos(2 * i, true)]) == Some(nibble_at(b, 2 * i)));
        assert(spec_nibble(t[digit_pos(2 * i + 1, true)]) == Some(nibble_at(b, 2 * i + 1)));
    }
    lemma_byte_of_nibbles(b[0]);
}

/// Parsing the hyphenated text of a UUID gives the UUID back; so does parsing
/// its simple, braced and URN texts.
pub proof fn lemma_parse_display(b: Seq<u8>)
    requires
        b.len() == 16,
    ensures
        spec_parse(encode_utf8(hyphenated_text(b))) == Ok::<Seq<u8>, Error>(b),
        spec_parse(encode_utf8(simple_text(b))) == Ok::<Seq<u8>, Error>(b),
        spec_parse(encode_utf8(braced_text(b))) == Ok::<Seq<u8>, Error>(b),
        spec_parse(encode_utf8(urn_text(b))) == Ok::<Seq<u8>, Error>(b),
{
    let h = hyphenated_text(b);
    assert forall|j: int| 0 <= j < 36 implies '\0' <= #[trigger] h[j] <= '\u{7f}' by {
        if !dash_at(j) {
            lemma_byte_of_nibbles(b[digit_of_pos(j) / 2]);
        }
    }
    let th = h.map_values(|x: char| x as u8);
    lemma_ascii_bytes(h);
    lemma_parse_hyphen_digits(b, th);
    assert(strip(th) =~= th);
    // simple
    let sm = simple_text(b);
    assert forall|j: int| 0 <= j < 32 implies '\0' <= #[trigger] sm[j] <= '\u{7f}' by {
        lemma_byte_of_nibbles(b[j / 2]);
    }
    lemma_ascii_bytes(sm);
    let ts = sm.map_values(|x: char| x as u8);
    assert forall|k: int| 0 <= k < 32 implies #[trigger] spec_nibble(ts[digit_pos(k, false)])
        == Some(nibble_at(b, k)) by {
        lemma_byte_of_nibbles(b[k / 2]);
        lemma_nibble_of_digit(nibble_at(b, k));
    }
    assert forall|i: int| 0 <= i < 16 implies #[trigger] parsed_byte(ts, false, i) == b[i] by {
        assert((2 * i) / 2 == i && (2 * i + 1) / 2 == i && (2 * i) % 2 == 0 && (2 * i + 1) % 2
            == 1);
        lemma_byte_of_nibbles(b[i]);
        assert(spec_nibble(ts[digit_pos(2 * i, false)]) == Some(nibble_at(b, 2 * i)));
        assert(spec_nibble(ts[digit_pos(2 * i + 1, false)]) == Some(nibble_at(b, 2 * i + 1)));
    }
    lemma_byte_of_nibbles(b[0]);
    assert(strip(ts) =~= ts);
    assert(Seq::new(16, |i: int| parsed_byte(ts, false, i)) =~= b);
    // braced
    let br = braced_text(b);
    assert(is_ascii_chars(br));
    lemma_ascii_bytes(br);
    let tb = br.map_values(|x: char| x as u8);
    assert(tb.subrange(1, 37) =~= th);
    assert(strip(tb) =~= th);
    // urn
    let un = urn_text(b);
    assert(is_ascii_chars(un));
    lemma_ascii_bytes(un);
    let tu = un.map_values(|x: char| x as u8);
    assert(tu.take(9) =~= urn_prefix());
    assert(tu.skip(9) =~= th);
    assert(strip(tu) =~= th);
}

} // verus!
