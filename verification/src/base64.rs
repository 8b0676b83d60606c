use vstd::prelude::*;

verus! {

/// A failed base64 decode: the byte offset at fault and a short reason.
#[derive(Debug, Clone, PartialEq)]
pub struct Error {
    pub index: usize,
    pub msg: &'static str,
}

/// The byte `=`, used for padding.
pub open spec fn pad_byte() -> u8 {
    61u8
}

/// The alphabet character for a 6-bit value: the standard alphabet (`+`, `/`)
/// or the URL-safe one (`-`, `_`).
pub open spec fn alpha_char(v: int, url: bool) -> u8 {
    if v < 26 {
        (65 + v) as u8
    } else if v < 52 {
        (97 + v - 26) as u8
    } else if v < 62 {
        (48 + v - 52) as u8
    } else if v == 62 {
        if url { 45u8 } else { 43u8 }
    } else {
        if url { 95u8 } else { 47u8 }
    }
}

/// The 6-bit value of an alphabet character, or -1 for a byte outside the alphabet.
pub open spec fn sym_value(b: u8, url: bool) -> int {
    if 65 <= b <= 90 {
        b - 65
    } else if 97 <= b <= 122 {
        b - 97 + 26
    } else if 48 <= b <= 57 {
        b - 48 + 52
    } else if b == (if url { 45u8 } else { 43u8 }) {
        62
    } else if b == (if url { 95u8 } else { 47u8 }) {
        63
    } else {
        -1
    }
}

/// The decode table of an alphabet: the value of each byte, -1 where it is no symbol.
pub open spec fn spec_table(url: bool) -> Seq<i8> {
    Seq::new(256, |b: int| sym_value(b as u8, url) as i8)
}

/// The byte at `j`, or 0 past the end.
pub open spec fn byte_or_zero(input: Seq<u8>, j: int) -> u8 {
    if j < input.len() { input[j] } else { 0 }
}

/// The 6-bit value that output character `i` encodes.
pub open spec fn char_value(input: Seq<u8>, i: int) -> u8 {
    let g = i / 4;
    let a = byte_or_zero(input, 3 * g);
    let b = byte_or_zero(input, 3 * g + 1);
    let c = byte_or_zero(input, 3 * g + 2);
    let r = i % 4;
    if r == 0 {
        a >> 2
    } else if r == 1 {
        ((a & 3) << 4) | (b >> 4)
    } else if r == 2 {
        ((b & 15) << 2) | (c >> 6)
    } else {
        c & 63
    }
}

/// Number of alphabet characters in the encoding of `n` bytes, padding excluded.
pub open spec fn unpadded_len(n: int) -> int {
    4 * (n / 3) + if n % 3 == 0 { 0int } else { n % 3 + 1 }
}

/// Length of the encoding of `n` bytes.
pub open spec fn encoded_len(n: int, pad: bool) -> int {
    if pad && n % 3 != 0 { 4 * (n / 3) + 4 } else { unpadded_len(n) }
}

/// The base64 text of `input` as bytes: alphabet characters, then `=` up to a
/// multiple of four where `pad` is set.
pub open spec fn spec_encode(input: Seq<u8>, url: bool, pad: bool) -> Seq<u8> {
    Seq::new(
        encoded_len(input.len() as int, pad) as nat,
        |i: int|
            if i < unpadded_len(input.len() as int) {
                alpha_char(char_value(input, i) as int, url)
            } else {
                pad_byte()
            },
    )
}

/// The same text as characters.
pub open spec fn spec_encode_chars(input: Seq<u8>, url: bool, pad: bool) -> Seq<char> {
    spec_encode(input, url, pad).map_values(|b: u8| b as char)
}

/// Length of `s` once trailing `=` are dropped.
pub open spec fn trimmed_len(s: Seq<u8>) -> int
    decreases s.len(),
{
    if s.len() > 0 && s.last() == pad_byte() {
        trimmed_len(s.drop_last())
    } else {
        s.len() as int
    }
}

/// The symbol value of the character at `j` of `t` under `tbl`, 0 past the end.
pub open spec fn sv(t: Seq<u8>, tbl: Seq<i8>, j: int) -> u8 {
    if j < t.len() { tbl[t[j] as int] as u8 } else { 0 }
}

/// Output byte `m` decoded from the symbols of `t`.
pub open spec fn decoded_byte(t: Seq<u8>, tbl: Seq<i8>, m: int) -> u8 {
    let g = m / 3;
    let a = sv(t, tbl, 4 * g);
    let b = sv(t, tbl, 4 * g + 1);
    let c = sv(t, tbl, 4 * g + 2);
    let d = sv(t, tbl, 4 * g + 3);
    let r = m % 3;
    if r == 0 {
        ((a << 2) | (b >> 4)) as u8
    } else if r == 1 {
        ((b << 4) | (c >> 2)) as u8
    } else {
        ((c << 6) | d) as u8
    }
}

/// Number of bytes that `n` symbols decode to.
pub open spec fn decoded_len(n: int) -> int {
    3 * (n / 4) + if n % 4 == 2 { 1int } else if n % 4 == 3 { 2int } else { 0int }
}

/// Whether the characters of `t` before `end` are all symbols of `tbl`.
pub open spec fn all_syms(t: Seq<u8>, tbl: Seq<i8>, end: int) -> bool {
    forall|j: int| 0 <= j < end ==> #[trigger] tbl[t[j] as int] >= 0
}

/// The first position of `t` that holds no symbol of `tbl`.
pub open spec fn first_bad(t: Seq<u8>, tbl: Seq<i8>) -> int {
    choose|j: int| 0 <= j < t.len() && tbl[t[j] as int] < 0 && all_syms(t, tbl, j)
}

/// What decoding `input` with decode table `tbl` gives: the bytes, or the
/// offset and message of the error.
pub open spec fn spec_decode(input: Seq<u8>, tbl: Seq<i8>, require_pad: bool) -> Result<
    Seq<u8>,
    (int, Seq<char>),
> {
    let n = trimmed_len(input);
    let t = input.take(n);
    if require_pad && input.len() % 4 != 0 {
        Err((input.len() as int, "invalid padded length"@))
    } else if !require_pad && input.contains(pad_byte()) {
        Err((n, "unexpected padding"@))
    } else if require_pad && input.len() - n >= 4 {
        Err((n, "invalid padding"@))
    } else if n % 4 == 1 {
        Err((n, "invalid length"@))
    } else if !all_syms(t, tbl, n) {
        Err((first_bad(t, tbl), "invalid base64 char"@))
    } else if n % 4 == 2 && sv(t, tbl, n - 1) & 15 != 0 {
        Err((n - 1, "invalid trailing bits"@))
    } else if n % 4 == 3 && sv(t, tbl, n - 1) & 3 != 0 {
        Err((n - 1, "invalid trailing bits"@))
    } else {
        Ok(Seq::new(decoded_len(n) as nat, |m: int| decoded_byte(t, tbl, m)))
    }
}

/// Whether a result matches the decode specification.
pub open spec fn decode_matches(r: Result<Vec<u8>, Error>, s: Result<Seq<u8>, (int, Seq<char>)>) -> bool {
    match s {
        Ok(v) => r matches Ok(out) && out@ == v,
        Err((idx, msg)) => r matches Err(e) && e.index == idx && e.msg@ == msg,
    }
}

fn alphabet_char(v: u8, url: bool) -> (c: u8)
    requires
        v < 64,
    ensures
        c == alpha_char(v as int, url),
{
    if v < 26 {
        65 + v
    } else if v < 52 {
        97 + v - 26
    } else if v < 62 {
        48 + v - 52
    } else if v == 62 {
        if url { 45 } else { 43 }
    } else {
        if url { 95 } else { 47 }
    }
}

proof fn lemma_char_value_lt_64(input: Seq<u8>, i: int)
    ensures
        char_value(input, i) < 64,
{
    let a = byte_or_zero(input, 3 * (i / 4));
    let b = byte_or_zero(input, 3 * (i / 4) + 1);
    let c = byte_or_zero(input, 3 * (i / 4) + 2);
    assert(a >> 2 < 64 && ((a & 3) << 4) | (b >> 4) < 64 && ((b & 15) << 2) | (c >> 6) < 64 && c
        & 63 < 64) by (bit_vector);
}

proof fn lemma_group_index(g: int, r: int)
    requires
        0 <= g,
        0 <= r < 4,
    ensures
        (4 * g + r) / 4 == g,
        (4 * g + r) % 4 == r,
{
    assert((4 * g + r) / 4 == g) by (nonlinear_arith)
        requires
            0 <= g,
            0 <= r < 4,
    ;
    assert((4 * g + r) % 4 == r) by (nonlinear_arith)
        requires
            0 <= g,
            0 <= r < 4,
    ;
}

proof fn lemma_byte_index(g: int, r: int)
    requires
        0 <= g,
        0 <= r < 3,
    ensures
        (3 * g + r) / 3 == g,
        (3 * g + r) % 3 == r,
{
    assert((3 * g + r) / 3 == g) by (nonlinear_arith)
        requires
            0 <= g,
            0 <= r < 3,
    ;
    assert((3 * g + r) % 3 == r) by (nonlinear_arith)
        requires
            0 <= g,
            0 <= r < 3,
    ;
}

fn encode_with(input: &[u8], url: bool, pad: bool) -> (out: String)
    ensures
        out@ == spec_encode_chars(input@, url, pad),
{
    let n = input.len();
    let groups = n / 3;
    let rem = n % 3;
    let ghost spec = spec_encode(input@, url, pad);
    let mut out = String::new();
    let mut g: usize = 0;
    while g < groups
        invariant
            n == input.len(),
            groups == n / 3,
            g <= groups,
            spec == spec_encode(input@, url, pad),
            out@ =~= spec.take(4 * g as int).map_values(|b: u8| b as char),
        decreases groups - g,
    {
        let a = input[3 * g];
        let b = input[3 * g + 1];
        let c = input[3 * g + 2];
        let v: u32 = ((a as u32) << 16) | ((b as u32) << 8) | (c as u32);
        assert(((v >> 18) & 0x3f) < 64 && ((v >> 12) & 0x3f) < 64 && ((v >> 6) & 0x3f) < 64 && (v & 0x3f) < 64 && ((v >> 18) & 0x3f) == (a >> 2) as u32 && ((v >> 12) & 0x3f) == (((a & 3) << 4) | (b
            >> 4)) as u32 && ((v >> 6) & 0x3f) == (((b & 15) << 2) | (c >> 6)) as u32 && (v & 0x3f)
            == (c & 63) as u32) by (bit_vector)
            requires
                v == ((a as u32) << 16) | ((b as u32) << 8) | (c as u32),
        ;
        let ghost old_out = out@;
        crate::text::push_char(&mut out, alphabet_char(((v >> 18) & 0x3f) as u8, url) as char);
        crate::text::push_char(&mut out, alphabet_char(((v >> 12) & 0x3f) as u8, url) as char);
        crate::text::push_char(&mut out, alphabet_char(((v >> 6) & 0x3f) as u8, url) as char);
        crate::text::push_char(&mut out, alphabet_char((v & 0x3f) as u8, url) as char);
        proof {
            assert forall|r: int| 0 <= r < 4 implies #[trigger] spec[4 * g + r] == alpha_char(
                char_value(input@, 4 * g + r) as int,
                url,
            ) by {
                lemma_group_index(g as int, r);
                assert(4 * g + r < unpadded_len(n as int));
            }
            lemma_group_index(g as int, 0);
            lemma_group_index(g as int, 1);
            lemma_group_index(g as int, 2);
            lemma_group_index(g as int, 3);
        }
        g = g + 1;
    }
    if rem == 1 {
        let a = input[n - 1];
        let v: u32 = (a as u32) << 16;
        assert(((v >> 18) & 0x3f) < 64 && ((v >> 12) & 0x3f) < 64 && ((v >> 6) & 0x3f) < 64 && (v & 0x3f) < 64 && ((v >> 18) & 0x3f) == (a >> 2) as u32 && ((v >> 12) & 0x3f) == (((a & 3) << 4) | (0u8
            >> 4)) as u32) by (bit_vector)
            requires
                v == (a as u32) << 16,
        ;
        crate::text::push_char(&mut out, alphabet_char(((v >> 18) & 0x3f) as u8, url) as char);
        crate::text::push_char(&mut out, alphabet_char(((v >> 12) & 0x3f) as u8, url) as char);
        if pad {
            crate::text::push_char(&mut out, '=');
            crate::text::push_char(&mut out, '=');
        }
        proof {
            lemma_group_index(groups as int, 0);
            lemma_group_index(groups as int, 1);
            assert(3 * groups == n - 1);
        }
    } else if rem == 2 {
        let a = input[n - 2];
        let b = input[n - 1];
        let v: u32 = ((a as u32) << 16) | ((b as u32) << 8);
        assert(((v >> 18) & 0x3f) < 64 && ((v >> 12) & 0x3f) < 64 && ((v >> 6) & 0x3f) < 64 && (v & 0x3f) < 64 && ((v >> 18) & 0x3f) == (a >> 2) as u32 && ((v >> 12) & 0x3f) == (((a & 3) << 4) | (b
            >> 4)) as u32 && ((v >> 6) & 0x3f) == (((b & 15) << 2) | (0u8 >> 6)) as u32)
            by (bit_vector)
            requires
                v == ((a as u32) << 16) | ((b as u32) << 8),
        ;
        crate::text::push_char(&mut out, alphabet_char(((v >> 18) & 0x3f) as u8, url) as char);
        crate::text::push_char(&mut out, alphabet_char(((v >> 12) & 0x3f) as u8, url) as char);
        crate::text::push_char(&mut out, alphabet_char(((v >> 6) & 0x3f) as u8, url) as char);
        if pad {
            crate::text::push_char(&mut out, '=');
        }
        proof {
            lemma_group_index(groups as int, 0);
            lemma_group_index(groups as int, 1);
            lemma_group_index(groups as int, 2);
            assert(3 * groups == n - 2);
        }
    }
    assert(out@ =~= spec_encode_chars(input@, url, pad));
    out
}

/// Standard base64 text of `input`, padded with `=`.
pub fn encode(input: &[u8]) -> (out: String)
    ensures
        out@ == spec_encode_chars(input@, false, true),
{
    encode_with(input, false, true)
}

/// URL-safe base64 text of `input`, without padding.
pub fn encode_url(input: &[u8]) -> (out: String)
    ensures
        out@ == spec_encode_chars(input@, true, false),
{
    encode_with(input, true, false)
}

proof fn lemma_sym_alpha(v: int, b: u8, url: bool)
    requires
        0 <= v < 64,
    ensures
        sym_value(alpha_char(v, url), url) == v,
        sym_value(b, url) == v ==> alpha_char(v, url) == b,
        -1 <= sym_value(b, url) < 64,
{
}

fn decode_table(url: bool) -> (t: [i8; 256])
    ensures
        t@ == spec_table(url),
{
    let mut t = [-1i8; 256];
    let mut i: u8 = 0;
    while i < 64
        invariant
            i <= 64,
            forall|b: int|
                0 <= b < 256 ==> #[trigger] t@[b] == (if 0 <= sym_value(b as u8, url) < i {
                    sym_value(b as u8, url) as i8
                } else {
                    -1i8
                }),
        decreases 64 - i,
    {
        let c = alphabet_char(i, url);
        let ghost old_t = t@;
        t[c as usize] = i as i8;
        proof {
            assert forall|b: int| 0 <= b < 256 implies #[trigger] t@[b] == (if 0 <= sym_value(
                b as u8,
                url,
            ) < i + 1 {
                sym_value(b as u8, url) as i8
            } else {
                -1i8
            }) by {
                lemma_sym_alpha(i as int, b as u8, url);
                if b == c as int {
                } else {
                    assert(old_t[b] == t@[b]);
                }
            }
        }
        i = i + 1;
    }
    assert(t@ =~= spec_table(url));
    t
}

fn trim_padding(input: &[u8]) -> (end: usize)
    ensures
        end == trimmed_len(input@),
        end <= input.len(),
{
    let mut end = input.len();
    assert(input@.take(end as int) =~= input@);
    while end > 0 && input[end - 1] == 61
        invariant
            end <= input.len(),
            trimmed_len(input@) == trimmed_len(input@.take(end as int)),
        decreases end,
    {
        assert(input@.take(end as int).drop_last() =~= input@.take(end - 1));
        end = end - 1;
    }
    end
}

fn contains_pad(input: &[u8]) -> (r: bool)
    ensures
        r == input@.contains(pad_byte()),
{
    let mut i: usize = 0;
    while i < input.len()
        invariant
            i <= input.len(),
            forall|j: int| 0 <= j < i ==> input@[j] != pad_byte(),
        decreases input.len() - i,
    {
        if input[i] == 61 {
            assert(input@[i as int] == pad_byte());
            return true;
        }
        i = i + 1;
    }
    false
}

fn sym(b: u8, table: &[i8; 256], index: usize) -> (r: Result<u8, Error>)
    ensures
        match r {
            Ok(v) => table@[b as int] >= 0 && v == table@[b as int] as u8,
            Err(e) => table@[b as int] < 0 && e.index == index && e.msg@ == "invalid base64 char"@,
        },
{
    let v = table[b as usize];
    if v < 0 {
        return Err(Error { index, msg: "invalid base64 char" });
    }
    Ok(v as u8)
}

fn pack4(input: &[u8], i: usize, table: &[i8; 256]) -> (r: Result<u32, Error>)
    requires
        i + 4 <= input.len(),
        forall|b: int| 0 <= b < 256 ==> #[trigger] table@[b] < 64,
    ensures
        match r {
            Ok(v) => {
                &&& forall|k: int| i <= k < i + 4 ==> #[trigger] table@[input@[k] as int] >= 0
                &&& v == (((table@[input@[i as int] as int] as u8) as u32) << 18) | (((
                table@[input@[i + 1] as int] as u8) as u32) << 12) | (((table@[input@[i
                + 2] as int] as u8) as u32) << 6) | ((table@[input@[i + 3] as int] as u8) as u32)
            },
            Err(e) => {
                &&& i <= e.index < i + 4
                &&& table@[input@[e.index as int] as int] < 0
                &&& forall|k: int| i <= k < e.index ==> #[trigger] table@[input@[k] as int] >= 0
                &&& e.msg@ == "invalid base64 char"@
            },
        },
{
    let a = sym(input[i], table, i)? as u32;
    let b = sym(input[i + 1], table, i + 1)? as u32;
    let c = sym(input[i + 2], table, i + 2)? as u32;
    let d = sym(input[i + 3], table, i + 3)? as u32;
    Ok((a << 18) | (b << 12) | (c << 6) | d)
}

proof fn lemma_first_bad(t: Seq<u8>, tbl: Seq<i8>, j: int)
    requires
        0 <= j < t.len(),
        tbl[t[j] as int] < 0,
        all_syms(t, tbl, j),
    ensures
        first_bad(t, tbl) == j,
        !all_syms(t, tbl, t.len() as int),
{
    let k = first_bad(t, tbl);
    assert(tbl[t[k] as int] < 0 && all_syms(t, tbl, k));
    if k < j {
        assert(tbl[t[k] as int] >= 0);
    } else if k > j {
        assert(tbl[t[j] as int] >= 0);
    }
}

proof fn lemma_trimmed_len_bounds(s: Seq<u8>)
    ensures
        0 <= trimmed_len(s) <= s.len(),
    decreases s.len(),
{
    if s.len() > 0 && s.last() == pad_byte() {
        lemma_trimmed_len_bounds(s.drop_last());
    }
}

proof fn lemma_unpack(a: u8, b: u8, c: u8, d: u8, v: u32)
    requires
        a < 64,
        b < 64,
        c < 64,
        d < 64,
        v == ((a as u32) << 18) | ((b as u32) << 12) | ((c as u32) << 6) | (d as u32),
    ensures
        (v >> 16) as u8 == ((a << 2) | (b >> 4)) as u8,
        (v >> 8) as u8 == ((b << 4) | (c >> 2)) as u8,
        v as u8 == ((c << 6) | d) as u8,
{
    assert((v >> 16) as u8 == ((a << 2) | (b >> 4)) as u8 && (v >> 8) as u8 == ((b << 4) | (c >> 2))
        as u8 && v as u8 == ((c << 6) | d) as u8) by (bit_vector)
        requires
            a < 64,
            b < 64,
            c < 64,
            d < 64,
            v == ((a as u32) << 18) | ((b as u32) << 12) | ((c as u32) << 6) | (d as u32),
    ;
}

fn decode_with(input: &[u8], table: &[i8; 256], require_pad: bool) -> (r: Result<Vec<u8>, Error>)
    requires
        forall|b: int| 0 <= b < 256 ==> #[trigger] table@[b] < 64,
    ensures
        decode_matches(r, spec_decode(input@, table@, require_pad)),
{
    let ghost tbl = table@;
    if require_pad && input.len() % 4 != 0 {
        return Err(Error { index: input.len(), msg: "invalid padded length" });
    }
    let n = trim_padding(input);
    let ghost t = input@.take(n as int);
    if !require_pad && contains_pad(input) {
        return Err(Error { index: n, msg: "unexpected padding" });
    }
    if require_pad && input.len() - n >= 4 {
        return Err(Error { index: n, msg: "invalid padding" });
    }
    if n % 4 == 1 {
        return Err(Error { index: n, msg: "invalid length" });
    }
    let full_groups = n / 4;
    let rem = n % 4;
    let mut out: Vec<u8> = Vec::new();
    let mut g: usize = 0;
    while g < full_groups
        invariant
            n <= input.len(),
            n == trimmed_len(input@),
            !(require_pad && input.len() % 4 != 0),
            !require_pad ==> !input@.contains(pad_byte()),
            !(require_pad && input.len() - n >= 4),
            n % 4 != 1,
            t == input@.take(n as int),
            tbl == table@,
            forall|b: int| 0 <= b < 256 ==> #[trigger] table@[b] < 64,
            full_groups == n / 4,
            g <= full_groups,
            all_syms(t, tbl, 4 * g),
            out@ =~= Seq::new(3 * g as nat, |m: int| decoded_byte(t, tbl, m)),
        decreases full_groups - g,
    {
        let i = g * 4;
        let v = match pack4(input, i, table) {
            Ok(v) => v,
            Err(e) => {
                proof {
                    assert(t[e.index as int] == input@[e.index as int]);
                    assert(all_syms(t, tbl, e.index as int));
                    lemma_first_bad(t, tbl, e.index as int);
                }
                return Err(e);
            },
        };
        let ghost a = table@[input@[i as int] as int] as u8;
        let ghost b = table@[input@[i + 1] as int] as u8;
        let ghost c = table@[input@[i + 2] as int] as u8;
        let ghost d = table@[input@[i + 3] as int] as u8;
        proof {
            lemma_unpack(a, b, c, d, v);
        }
        out.push((v >> 16) as u8);
        out.push((v >> 8) as u8);
        out.push(v as u8);
        proof {
            assert forall|k: int| 0 <= k < 4 implies sv(t, tbl, 4 * g + k) == #[trigger] table@[
                input@[4 * g + k] as int] as u8 by {}
            assert forall|r: int| 0 <= r < 3 implies #[trigger] decoded_byte(t, tbl, 3 * g + r)
                == out@[3 * g + r] by {
                lemma_byte_index(g as int, r);
            }
        }
        g = g + 1;
    }
    if rem == 2 {
        let i = full_groups * 4;
        let a = match sym(input[i], table, i) {
            Ok(v) => v,
            Err(e) => {
                assert(t[i as int] == input@[i as int]);
                proof { lemma_first_bad(t, tbl, i as int); }
                return Err(e);
            },
        };
        let b = match sym(input[i + 1], table, i + 1) {
            Ok(v) => v,
            Err(e) => {
                assert(t[i + 1] == input@[i + 1]);
                assert(t[i as int] == input@[i as int]);
                assert(all_syms(t, tbl, i + 1));
                proof { lemma_first_bad(t, tbl, i + 1); }
                return Err(e);
            },
        };
        assert(all_syms(t, tbl, n as int)) by {
            assert(t[i as int] == input@[i as int]);
            assert(t[i + 1] == input@[i + 1]);
        }
        if b & 0x0f != 0 {
            return Err(Error { index: i + 1, msg: "invalid trailing bits" });
        }
        out.push((a << 2) | (b >> 4));
        proof {
            lemma_byte_index(full_groups as int, 0);
        }
    } else if rem == 3 {
        let i = full_groups * 4;
        let a = match sym(input[i], table, i) {
            Ok(v) => v,
            Err(e) => {
                assert(t[i as int] == input@[i as int]);
                proof { lemma_first_bad(t, tbl, i as int); }
                return Err(e);
            },
        };
        let b = match sym(input[i + 1], table, i + 1) {
            Ok(v) => v,
            Err(e) => {
                assert(t[i + 1] == input@[i + 1]);
                assert(t[i as int] == input@[i as int]);
                assert(all_syms(t, tbl, i + 1));
                proof { lemma_first_bad(t, tbl, i + 1); }
                return Err(e);
            },
        };
        let c = match sym(input[i + 2], table, i + 2) {
            Ok(v) => v,
            Err(e) => {
                assert(t[i + 2] == input@[i + 2]);
                assert(t[i + 1] == input@[i + 1]);
                assert(t[i as int] == input@[i as int]);
                assert(all_syms(t, tbl, i + 2));
                proof { lemma_first_bad(t, tbl, i + 2); }
                return Err(e);
            },
        };
        assert(all_syms(t, tbl, n as int)) by {
            assert(t[i as int] == input@[i as int]);
            assert(t[i + 1] == input@[i + 1]);
            assert(t[i + 2] == input@[i + 2]);
        }
        if c & 0x03 != 0 {
            return Err(Error { index: i + 2, msg: "invalid trailing bits" });
        }
        out.push((a << 2) | (b >> 4));
        out.push((b << 4) | (c >> 2));
        proof {
            lemma_byte_index(full_groups as int, 0);
            lemma_byte_index(full_groups as int, 1);
        }
    }
    assert(out@ =~= Seq::new(decoded_len(n as int) as nat, |m: int| decoded_byte(t, tbl, m)));
    Ok(out)
}

/// Bytes of a padded standard base64 text.
pub fn decode(s: &[u8]) -> (r: Result<Vec<u8>, Error>)
    ensures
        decode_matches(r, spec_decode(s@, spec_table(false), true)),
{
    let table = decode_table(false);
    decode_with(s, &table, true)
}

/// Bytes of an unpadded URL-safe base64 text; any `=` is refused.
pub fn decode_url(s: &[u8]) -> (r: Result<Vec<u8>, Error>)
    ensures
        decode_matches(r, spec_decode(s@, spec_table(true), false)),
{
    let table = decode_table(true);
    decode_with(s, &table, false)
}

proof fn lemma_div3(n: int)
    requires
        0 <= n,
    ensures
        n == 3 * (n / 3) + n % 3,
        0 <= n % 3 < 3,
{
    assert(n == 3 * (n / 3) + n % 3) by (nonlinear_arith)
        requires
            0 <= n,
    ;
}

proof fn lemma_div4(n: int)
    requires
        0 <= n,
    ensures
        n == 4 * (n / 4) + n % 4,
        0 <= n % 4 < 4,
{
    assert(n == 4 * (n / 4) + n % 4) by (nonlinear_arith)
        requires
            0 <= n,
    ;
}

proof fn lemma_trimmed_len_of(s: Seq<u8>, u: int)
    requires
        0 <= u <= s.len(),
        forall|i: int| u <= i < s.len() ==> s[i] == pad_byte(),
        u > 0 ==> s[u - 1] != pad_byte(),
    ensures
        trimmed_len(s) == u,
    decreases s.len(),
{
    if s.len() > u {
        lemma_trimmed_len_of(s.drop_last(), u);
    }
}

proof fn lemma_regroup(a: u8, b: u8, c: u8)
    ensures
        (((a >> 2) << 2) | ((((a & 3) << 4) | (b >> 4)) >> 4)) as u8 == a,
        (((((a & 3) << 4) | (b >> 4)) << 4) | ((((b & 15) << 2) | (c >> 6)) >> 2)) as u8 == b,
        (((((b & 15) << 2) | (c >> 6)) << 6) | (c & 63)) as u8 == c,
        (((a & 3) << 4) | (0u8 >> 4)) & 15 == 0,
        (((b & 15) << 2) | (0u8 >> 6)) & 3 == 0,
        ((0u8 & 15) << 2) | (0u8 >> 6) == 0,
        0u8 & 63 == 0,
{
    assert((((a >> 2) << 2) | ((((a & 3) << 4) | (b >> 4)) >> 4)) as u8 == a && (((((a & 3) << 4)
        | (b >> 4)) << 4) | ((((b & 15) << 2) | (c >> 6)) >> 2)) as u8 == b && (((((b & 15) << 2) | (c
        >> 6)) << 6) | (c & 63)) as u8 == c && (((a & 3) << 4) | (0u8 >> 4)) & 15 == 0 && (((b & 15)
        << 2) | (0u8 >> 6)) & 3 == 0 && ((0u8 & 15) << 2) | (0u8 >> 6) == 0 && 0u8 & 63 == 0)
        by (bit_vector);
}

proof fn lemma_sv_char_value(input: Seq<u8>, url: bool, pad: bool, j: int)
    requires
        0 <= j,
        3 * (j / 4) < input.len(),
    ensures
        sv(
            spec_encode(input, url, pad).take(unpadded_len(input.len() as int)),
            spec_table(url),
            j,
        ) == char_value(input, j),
{
    let n = input.len() as int;
    let u = unpadded_len(n);
    let s = spec_encode(input, url, pad);
    let t = s.take(u);
    let g = j / 4;
    let r = j % 4;
    lemma_div3(n);
    lemma_div4(j);
    lemma_div4(u);
    assert(u <= encoded_len(n, pad));
    if j < u {
        lemma_char_value_lt_64(input, j);
        lemma_sym_alpha(char_value(input, j) as int, 0, url);
        assert(t[j] == alpha_char(char_value(input, j) as int, url));
    } else {
        let q = n / 3;
        if n % 3 == 0 {
            assert(g >= q) by (nonlinear_arith)
                requires
                    j >= 4 * q,
                    g == j / 4,
                    j == 4 * g + r,
                    0 <= r < 4,
            ;
            assert(false) by (nonlinear_arith)
                requires
                    g >= q,
                    3 * g < n,
                    n == 3 * q,
            ;
        }
        assert(g == q) by (nonlinear_arith)
            requires
                3 * g < n,
                n == 3 * q + n % 3,
                0 < n % 3 < 3,
                j >= 4 * q + n % 3 + 1,
                j == 4 * g + r,
                0 <= r < 4,
        ;
        lemma_regroup(0, 0, 0);
        assert(byte_or_zero(input, 3 * g + 2) == 0);
        if n % 3 == 1 {
            assert(byte_or_zero(input, 3 * g + 1) == 0);
        }
    }
}

/// Decoding the encoding of any bytes gives those bytes back, for either
/// alphabet, when decoding asks for padding exactly where encoding wrote it.
pub proof fn lemma_decode_encode(input: Seq<u8>, url: bool, pad: bool)
    ensures
        spec_decode(spec_encode(input, url, pad), spec_table(url), pad) == Ok::<
            Seq<u8>,
            (int, Seq<char>),
        >(input),
{
    let n = input.len() as int;
    let u = unpadded_len(n);
    let s = spec_encode(input, url, pad);
    let tbl = spec_table(url);
    let t = s.take(u);
    lemma_div3(n);
    let q = n / 3;
    assert(u <= s.len());
    assert forall|i: int| 0 <= i < u implies #[trigger] s[i] != pad_byte() && tbl[s[i] as int] >= 0
        by {
        lemma_char_value_lt_64(input, i);
        lemma_sym_alpha(char_value(input, i) as int, 0, url);
    }
    lemma_trimmed_len_of(s, u);
    assert(trimmed_len(s) == u);
    assert(s.take(trimmed_len(s)) == t);
    // the text has the length that decoding asks for
    if pad {
        assert(s.len() % 4 == 0) by (nonlinear_arith)
            requires
                s.len() == if n % 3 != 0 { 4 * q + 4 } else { 4 * q },
        ;
    } else {
        assert(!s.contains(pad_byte()));
    }
    // symbol count
    lemma_div4(u);
    assert(u / 4 == q && u % 4 == (if n % 3 == 0 { 0 } else { n % 3 + 1 })) by (nonlinear_arith)
        requires
            u == 4 * q + if n % 3 == 0 { 0int } else { n % 3 + 1 },
            0 <= n % 3 < 3,
            q >= 0,
    ;
    assert(all_syms(t, tbl, u));
    lemma_regroup(input[0 as int], 0, 0);
    if u % 4 == 2 {
        lemma_sv_char_value(input, url, pad, u - 1);
        assert((u - 1) / 4 == q && (u - 1) % 4 == 1) by (nonlinear_arith)
            requires
                u == 4 * q + 2,
        ;
        assert(byte_or_zero(input, 3 * q + 1) == 0);
        lemma_regroup(input[3 * q], 0, 0);
    }
    if u % 4 == 3 {
        lemma_sv_char_value(input, url, pad, u - 1);
        assert((u - 1) / 4 == q && (u - 1) % 4 == 2) by (nonlinear_arith)
            requires
                u == 4 * q + 3,
        ;
        assert(byte_or_zero(input, 3 * q + 2) == 0);
        lemma_regroup(input[3 * q], input[3 * q + 1], 0);
    }
    assert(decoded_len(u) == n);
    let out = Seq::new(decoded_len(u) as nat, |m: int| decoded_byte(t, tbl, m));
    assert forall|m: int| 0 <= m < n implies #[trigger] out[m] == input[m] by {
        let g = m / 3;
        lemma_div3(m);
        assert(3 * g <= m);
        assert forall|k: int| 0 <= k < 4 implies #[trigger] sv(t, tbl, 4 * g + k) == char_value(
            input,
            4 * g + k,
        ) by {
            lemma_group_index(g, k);
            lemma_sv_char_value(input, url, pad, 4 * g + k);
        }
        lemma_group_index(g, 0);
        lemma_group_index(g, 1);
        lemma_group_index(g, 2);
        lemma_group_index(g, 3);
        lemma_regroup(
            byte_or_zero(input, 3 * g),
            byte_or_zero(input, 3 * g + 1),
            byte_or_zero(input, 3 * g + 2),
        );
        assert(m == 3 * g + m % 3);
    }
    assert(out =~= input);
}

/// Symbols regrouped into bytes and split again give the symbols back; a partial
/// group gives back its last symbol where that symbol's unused bits are zero.
proof fn lemma_split_symbols(x0: u8, x1: u8, x2: u8, x3: u8)
    requires
        x0 < 64,
        x1 < 64,
        x2 < 64,
        x3 < 64,
    ensures
        ({
            let a = ((x0 << 2) | (x1 >> 4)) as u8;
            let b = ((x1 << 4) | (x2 >> 2)) as u8;
            let c = ((x2 << 6) | x3) as u8;
            &&& a >> 2 == x0
            &&& ((a & 3) << 4) | (b >> 4) == x1
            &&& ((b & 15) << 2) | (c >> 6) == x2
            &&& c & 63 == x3
            &&& (x1 & 15 == 0 ==> ((a & 3) << 4) | (0u8 >> 4) == x1)
            &&& (x2 & 3 == 0 ==> ((b & 15) << 2) | (0u8 >> 6) == x2)
        }),
{
    assert({
        let a = ((x0 << 2) | (x1 >> 4)) as u8;
        let b = ((x1 << 4) | (x2 >> 2)) as u8;
        let c = ((x2 << 6) | x3) as u8;
        &&& a >> 2 == x0
        &&& ((a & 3) << 4) | (b >> 4) == x1
        &&& ((b & 15) << 2) | (c >> 6) == x2
        &&& c & 63 == x3
        &&& (x1 & 15 == 0 ==> ((a & 3) << 4) | (0u8 >> 4) == x1)
        &&& (x2 & 3 == 0 ==> ((b & 15) << 2) | (0u8 >> 6) == x2)
    }) by (bit_vector)
        requires
            x0 < 64,
            x1 < 64,
            x2 < 64,
            x3 < 64,
    ;
}

proof fn lemma_trailing_pads(s: Seq<u8>)
    ensures
        0 <= trimmed_len(s) <= s.len(),
        forall|i: int| trimmed_len(s) <= i < s.len() ==> s[i] == pad_byte(),
        !s.contains(pad_byte()) ==> trimmed_len(s) == s.len(),
    decreases s.len(),
{
    if s.len() > 0 && s.last() == pad_byte() {
        lemma_trailing_pads(s.drop_last());
        assert(s.contains(pad_byte())) by {
            assert(s[s.len() - 1] == pad_byte());
        }
        assert forall|i: int| trimmed_len(s) <= i < s.len() implies s[i] == pad_byte() by {
            if i < s.len() - 1 {
                assert(s[i] == s.drop_last()[i]);
            }
        }
    }
}

/// Encoding what a text decodes to gives the text back: where `spec_decode` accepts
/// `s`, encoding the decoded bytes with the same alphabet and padding yields `s`
/// again. Decoding takes only canonical text: symbols of the alphabet, the unused bits
/// of a last partial group zero, and (with padding) no more `=` than that group needs.
pub proof fn lemma_encode_decode(s: Seq<u8>, url: bool, pad: bool)
    requires
        spec_decode(s, spec_table(url), pad) is Ok,
    ensures
        spec_encode(spec_decode(s, spec_table(url), pad)->Ok_0, url, pad) == s,
{
    let tbl = spec_table(url);
    let n = trimmed_len(s);
    let t = s.take(n);
    let big_l = decoded_len(n);
    let b = Seq::new(big_l as nat, |m: int| decoded_byte(t, tbl, m));
    lemma_trailing_pads(s);
    lemma_div4(n);
    let q = n / 4;
    assert(n % 4 != 1);
    // lengths
    lemma_div3(big_l);
    assert(big_l / 3 == q && big_l % 3 == (if n % 4 == 2 { 1int } else if n % 4 == 3 { 2int } else { 0int })) by (nonlinear_arith)
        requires
            big_l == 3 * q + (if n % 4 == 2 { 1int } else if n % 4 == 3 { 2int } else { 0int }),
            q >= 0,
    ;
    assert(unpadded_len(big_l) == n);
    if pad {
        assert(s.len() % 4 == 0);
        assert(encoded_len(big_l, pad) == s.len()) by (nonlinear_arith)
            requires
                s.len() % 4 == 0,
                n <= s.len() < n + 4,
                n == 4 * q + n % 4,
                0 <= n % 4 < 4,
                encoded_len(big_l, pad) == if n % 4 != 0 { 4 * q + 4 } else { n },
        ;
    } else {
        assert(!s.contains(pad_byte()));
    }
    let e = spec_encode(b, url, pad);
    assert(e.len() == s.len());
    assert forall|i: int| 0 <= i < s.len() implies #[trigger] e[i] == s[i] by {
        if i < n {
            let g = i / 4;
            let r = i % 4;
            assert(i == 4 * g + r && 0 <= r < 4);
            assert(4 * g < n);
            assert(g <= q);
            let x0 = sv(t, tbl, 4 * g);
            let x1 = sv(t, tbl, 4 * g + 1);
            let x2 = sv(t, tbl, 4 * g + 2);
            let x3 = sv(t, tbl, 4 * g + 3);
            assert forall|j: int| 4 * g <= j < 4 * g + 4 implies sv(t, tbl, j) < 64 by {
                if j < t.len() {
                    lemma_sym_alpha(0, t[j], url);
                    assert(tbl[t[j] as int] >= 0);
                }
            }
            lemma_split_symbols(x0, x1, x2, x3);
            assert(3 * g == 3 * (i / 4));
            assert(byte_or_zero(b, 3 * g) == decoded_byte(t, tbl, 3 * g)) by {
                assert(3 * g < big_l);
                assert((3 * g) / 3 == g && (3 * g) % 3 == 0);
            }
            if 3 * g + 1 < big_l {
                assert(byte_or_zero(b, 3 * g + 1) == decoded_byte(t, tbl, 3 * g + 1));
                assert((3 * g + 1) / 3 == g && (3 * g + 1) % 3 == 1);
            } else {
                assert(byte_or_zero(b, 3 * g + 1) == 0);
            }
            if 3 * g + 2 < big_l {
                assert(byte_or_zero(b, 3 * g + 2) == decoded_byte(t, tbl, 3 * g + 2));
                assert((3 * g + 2) / 3 == g && (3 * g + 2) % 3 == 2);
            } else {
                assert(byte_or_zero(b, 3 * g + 2) == 0);
            }
            if n % 4 == 2 && g == q {
                assert(x1 == sv(t, tbl, n - 1));
            }
            if n % 4 == 3 && g == q {
                assert(x2 == sv(t, tbl, n - 1));
            }
            assert(char_value(b, i) == sv(t, tbl, i));
            assert(t[i] == s[i]);
            lemma_sym_alpha(sv(t, tbl, i) as int, s[i], url);
        }
    }
    assert(e =~= s);
}

} // verus!
