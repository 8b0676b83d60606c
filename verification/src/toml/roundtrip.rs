use vstd::prelude::*;
use vstd::utf8::{encode_utf8, encode_scalar, char_is_scalar, char_u32_cast, leading_byte_width_2, leading_byte_width_3, leading_byte_width_4};
use crate::encoding::{lemma_encode_append, lemma_encode_text, lemma_encode_one, lemma_scalar_bytes, lemma_encode_ascii_seq};
use super::de::{
    basic, basic_tail, consume, escape, unicode, utf8_len, simple_escape, radix16, hex_run, hex_digit, is_scalar, Cur,
    TErr, stops, scan_end, trim_back, token_end, num_or_date, starts, number, from_radix, digits_val, radix_digit,
    drop_underscores, is_float, prefixed, is_datetime, digit_byte, boolean, key, bare_end, is_bare, ascii_text, value,
    triple, at, key_path, keyval_line, blank_end, doc, spec_from_str, skip_wsc, DocState,
    array_items,
};
use super::tree::dotted;
use super::{key_pos, tab_insert, sorted_keys, Entries, lemma_key_pos, lemma_tab_insert_sorted};
use crate::json::{lemma_lex_irrefl, lemma_lex_total};
use crate::text::lex_lt;
use crate::json::i64_text;
use crate::text::{dec_digits, digit_char, is_ws, ws_end, ws_back, trim, utf8_text};
use super::Toml;
use super::ser::{
    escape_char, escaped, quoted, hex_upper, key_text, bare_char, value_text, line_text, scalars_text, arrays_text,
    subtables_text, table_arrays_text, document_text, items_text, table_array,
};

verus! {

/// Whether the bytes of `t` stand in `b` at `p`.
pub open spec fn text_at(b: Seq<u8>, p: int, t: Seq<char>) -> bool {
    0 <= p && p + encode_utf8(t).len() <= b.len() && b.subrange(p, p + encode_utf8(t).len())
        == encode_utf8(t)
}

/// The bytes of `x + y` at `p` are those of `x` at `p`, then those of `y`.
pub proof fn lemma_text_split(b: Seq<u8>, p: int, x: Seq<char>, y: Seq<char>)
    requires
        text_at(b, p, x + y),
    ensures
        text_at(b, p, x),
        text_at(b, p + encode_utf8(x).len(), y),
        encode_utf8(x + y).len() == encode_utf8(x).len() + encode_utf8(y).len(),
{
    lemma_encode_append(x, y);
    let ex = encode_utf8(x);
    let ey = encode_utf8(y);
    let n = ex.len() as int;
    assert(b.subrange(p, p + n) =~= ex) by {
        assert forall|i: int| 0 <= i < n implies b.subrange(p, p + n)[i] == ex[i] by {
            assert(b.subrange(p, p + n + ey.len())[i] == (ex + ey)[i]);
        }
    }
    assert(b.subrange(p + n, p + n + ey.len()) =~= ey) by {
        assert forall|i: int| 0 <= i < ey.len() implies b.subrange(p + n, p + n + ey.len())[i] == ey[i] by {
            assert(b.subrange(p, p + n + ey.len())[n + i] == (ex + ey)[n + i]);
        }
    }
}

/// The bytes of ASCII text at `p` are the characters' codes.
pub proof fn lemma_text_ascii(b: Seq<u8>, p: int, t: Seq<char>)
    requires
        text_at(b, p, t),
        forall|i: int| 0 <= i < t.len() ==> (#[trigger] t[i] as u32) < 0x80,
    ensures
        encode_utf8(t).len() == t.len(),
        forall|i: int| 0 <= i < t.len() ==> #[trigger] b[p + i] == (t[i] as u32) as u8,
{
    lemma_encode_ascii_seq(t);
    assert forall|i: int| 0 <= i < t.len() implies #[trigger] b[p + i] == (t[i] as u32) as u8 by {
        assert(b.subrange(p, p + t.len())[i] == encode_utf8(t)[i]);
    }
}

/// Distinct characters have distinct codes.
proof fn lemma_code_ne(c: char, d: char)
    requires
        c != d,
    ensures
        (c as u32) != (d as u32),
{
    if (c as u32) == (d as u32) {
        char_u32_cast(c, c as u32);
        char_u32_cast(d, d as u32);
    }
}

/// The first byte of a character's encoding tells its length.
proof fn lemma_lead_byte(c: char)
    ensures
        utf8_len(encode_scalar(c as u32)[0]) == encode_scalar(c as u32).len(),
{
    let v = c as u32;
    char_is_scalar(c);
    lemma_scalar_bytes(c);
    if v >= 0x80 {
        assert forall|x: u32| 0xC0 <= #[trigger] leading_byte_width_2(x) < 0xE0 by {
            assert(0xC0 <= (0xC0u8 | ((x >> 6) & 0x1F) as u8) < 0xE0) by (bit_vector);
        }
        assert forall|x: u32| 0xE0 <= #[trigger] leading_byte_width_3(x) < 0xF0 by {
            assert(0xE0 <= (0xE0u8 | ((x >> 12) & 0x0F) as u8) < 0xF0) by (bit_vector);
        }
        assert forall|x: u32| 0xF0 <= #[trigger] leading_byte_width_4(x) by {
            assert(0xF0 <= (0xF0u8 | ((x >> 18) & 0x7) as u8)) by (bit_vector);
        }
    }
}

/// Whether a character is written as itself inside a quoted string.
pub open spec fn plain_char(c: char) -> bool {
    c != '"' && c != '\\' && (c as u32) >= 0x20
}

/// Escaping distributes over concatenation.
proof fn lemma_escaped_append(a: Seq<char>, b: Seq<char>)
    ensures
        escaped(a + b) == escaped(a) + escaped(b),
    decreases b.len(),
{
    if b.len() == 0 {
        assert(a + b =~= a);
        assert(escaped(a) + escaped(b) =~= escaped(a));
    } else {
        lemma_escaped_append(a, b.drop_last());
        assert((a + b).drop_last() =~= a + b.drop_last());
        assert((a + b).last() == b.last());
        assert(escaped(a) + escaped(b) =~= escaped(a) + escaped(b.drop_last()) + escape_char(b.last()));
    }
}

/// The escaped form of a character that is not plain: ASCII, a backslash first.
proof fn lemma_escape_ascii(c: char)
    requires
        !plain_char(c),
    ensures
        forall|i: int| 0 <= i < escape_char(c).len() ==> (#[trigger] escape_char(c)[i] as u32) < 0x80,
        escape_char(c)[0] == '\\',
        escape_char(c).len() >= 2,
{
    let e = escape_char(c);
    if c != '"' && c != '\\' && c != '\n' && c != '\r' && c != '\t' && c != '\u{8}' && c != '\u{c}' {
        let v = (c as u32) as int;
        assert((hex_upper(v / 16) as u32) < 0x80);
        assert((hex_upper(v % 16) as u32) < 0x80);
    }
}

/// An uppercase hex digit's byte reads back as the digit.
proof fn lemma_hex_upper(d: int)
    requires
        0 <= d < 16,
    ensures
        hex_digit(((hex_upper(d) as u32) as u8)) == Some(d as nat),
        (hex_upper(d) as u32) < 0x80,
{
}

/// Reading one written character at `q` moves past it and adds it to `out`.
proof fn lemma_char_step(b: Seq<u8>, q: int, l: int, ls: int, out: Seq<char>, c: char)
    requires
        text_at(b, q, escape_char(c)),
        q + encode_utf8(escape_char(c)).len() < b.len(),
    ensures
        b[q] != 34 && b[q] != 10,
        b[q] == 92 ==> escape(b, (q + 1, l, ls), out) == Ok::<(Seq<char>, Cur), TErr>(
            (out.push(c), (q + encode_utf8(escape_char(c)).len(), l, ls)),
        ),
        b[q] != 92 ==> consume(b, (q, l, ls), out) == Ok::<(Seq<char>, Cur), TErr>(
            (out.push(c), (q + encode_utf8(escape_char(c)).len(), l, ls)),
        ),
        encode_utf8(escape_char(c)).len() >= 1,
{
    let e = escape_char(c);
    if plain_char(c) {
        assert(e =~= seq![c]);
        lemma_encode_one(c);
        lemma_scalar_bytes(c);
        lemma_lead_byte(c);
        let h = encode_scalar(c as u32);
        assert(b[q] == h[0]) by {
            assert(b.subrange(q, q + h.len())[0] == h[0]);
        }
        lemma_code_ne(c, '"');
        lemma_code_ne(c, '\\');
        if (c as u32) < 0x80 {
            assert(h[0] == (c as u32) as u8);
        } else {
            assert(h[0] >= 0x80);
        }
        assert(b.subrange(q, q + h.len()) == encode_utf8(seq![c]));
        lemma_encode_text(seq![c]);
        assert(out + seq![c] =~= out.push(c));
    } else {
        lemma_escape_ascii(c);
        lemma_text_ascii(b, q, e);
        let n = e.len() as int;
        assert(b[q + 0] == (e[0] as u32) as u8);
        assert(b[q] == 92u8);
        assert(b[q + 1] == (e[1] as u32) as u8);
        if c == '"' || c == '\\' || c == '\n' || c == '\r' || c == '\t' || c == '\u{8}' || c == '\u{c}' {
            assert(n == 2);
            assert(simple_escape(b[q + 1]) == Some(c));
        } else {
            let v = (c as u32) as int;
            assert(v < 0x20) by {
                lemma_code_ne(c, '"');
                lemma_code_ne(c, '\\');
            }
            assert(n == 6);
            assert(b[q + 1] == 117u8);
            lemma_hex_upper(v / 16);
            lemma_hex_upper(v % 16);
            let s = b.subrange(q + 2, q + 6);
            assert(b[q + 2] == (e[2] as u32) as u8);
            assert(b[q + 3] == (e[3] as u32) as u8);
            assert(b[q + 4] == (e[4] as u32) as u8);
            assert(b[q + 5] == (e[5] as u32) as u8);
            assert(s[0] == 48u8 && s[1] == 48u8);
            assert(s[2] == b[q + 4] && s[3] == b[q + 5]);
            assert(s.drop_last().drop_last().drop_last().drop_last() =~= Seq::<u8>::empty());
            let s1 = s.drop_last().drop_last().drop_last();
            assert(s1.len() == 1 && s1.last() == 48u8 && s1.drop_last().len() == 0);
            assert(hex_run(s1.drop_last()) == Some(0nat));
            assert(hex_digit(48u8) == Some(0nat));
            assert(hex_run(s1) == Some(0nat));
            assert(s.drop_last().drop_last().last() == 48u8);
            assert(s.drop_last().last() == b[q + 4]);
            assert(s.last() == b[q + 5]);
            assert(hex_run(s.drop_last().drop_last()) == Some(0nat));
            assert(hex_run(s.drop_last()) == Some((v / 16) as nat));
            assert(hex_run(s) == Some(v as nat));
            assert(radix16(s) == Some(v as nat));
            assert(is_scalar(v as nat));
            char_u32_cast(c, c as u32);
            assert((v as nat) as char == c);
            assert(unicode(b, (q + 2, l, ls), 4, out) == Ok::<(Seq<char>, Cur), TErr>((out.push(c), (q + 6, l, ls))));
        }
    }
}

/// The rest of a written string from `q`, then its closing quote, reads back.
proof fn lemma_basic_tail(b: Seq<u8>, q: int, l: int, ls: int, out: Seq<char>, s: Seq<char>)
    requires
        text_at(b, q, escaped(s)),
        q + encode_utf8(escaped(s)).len() < b.len(),
        b[q + encode_utf8(escaped(s)).len()] == 34,
    ensures
        basic_tail(b, (q, l, ls), out) == Ok::<(Seq<char>, Cur), TErr>(
            (out + s, (q + encode_utf8(escaped(s)).len() + 1, l, ls)),
        ),
    decreases s.len(),
{
    if s.len() == 0 {
        assert(escaped(s) =~= Seq::<char>::empty());
        assert(out + s =~= out);
    } else {
        let c = s[0];
        let r = s.drop_first();
        assert(s =~= seq![c] + r);
        lemma_escaped_append(seq![c], r);
        assert(seq![c].drop_last() =~= Seq::<char>::empty());
        assert(seq![c].last() == c);
        assert(escaped(Seq::<char>::empty()) =~= Seq::<char>::empty());
        assert(escaped(seq![c]) =~= escape_char(c));
        lemma_text_split(b, q, escape_char(c), escaped(r));
        let m = encode_utf8(escape_char(c)).len() as int;
        lemma_char_step(b, q, l, ls, out, c);
        lemma_basic_tail(b, q + m, l, ls, out.push(c), r);
        assert(out.push(c) + r =~= out + s);
    }
}

/// A written string at `p` reads back as the string.
pub proof fn lemma_basic(b: Seq<u8>, p: int, l: int, ls: int, s: Seq<char>)
    requires
        text_at(b, p, quoted(s)),
    ensures
        basic(b, (p, l, ls)) == Ok::<(Seq<char>, Cur), TErr>((s, (p + encode_utf8(quoted(s)).len(), l, ls))),
        b[p] == 34,
        encode_utf8(quoted(s)).len() >= 2,
{
    lemma_text_split(b, p, seq!['"'] + escaped(s), seq!['"']);
    lemma_text_split(b, p, seq!['"'], escaped(s));
    lemma_encode_one('"');
    lemma_scalar_bytes('"');
    let n = encode_utf8(escaped(s)).len() as int;
    assert(b[p] == 34u8) by {
        assert(b.subrange(p, p + 1)[0] == encode_utf8(seq!['"'])[0]);
    }
    assert(b[p + 1 + n] == 34u8) by {
        assert(b.subrange(p + 1 + n, p + 2 + n)[0] == encode_utf8(seq!['"'])[0]);
    }
    lemma_basic_tail(b, p + 1, l, ls, Seq::empty(), s);
    assert(Seq::<char>::empty() + s =~= s);
}

/// Whether `c` may stand inside a value token: it neither ends a token nor is a blank.
pub open spec fn token_char(c: char) -> bool {
    c != '\n' && c != '\r' && c != ',' && c != ']' && c != '}' && c != '#' && c != ' ' && c != '\t'
}

/// Whether `t` is a whole token: not empty, with token characters only.
pub open spec fn token_ok(t: Seq<char>) -> bool {
    t.len() > 0 && forall|i: int| 0 <= i < t.len() ==> token_char(#[trigger] t[i])
}

/// Whether a token may end at `q`: blanks from `q`, then a byte that ends a token or
/// the end of the input.
pub open spec fn token_stop(b: Seq<u8>, q: int) -> bool {
    exists|e: int| stop_at(b, q, e)
}

/// Whether the bytes from `q` to `e` are blanks, and `e` ends a token or the input.
pub open spec fn stop_at(b: Seq<u8>, q: int, e: int) -> bool {
    &&& q <= e <= b.len()
    &&& forall|j: int| q <= j < e ==> #[trigger] b[j] == 32 || b[j] == 9
    &&& e == b.len() || stops(b[e])
}

/// The bytes of a token neither end a token nor are blanks.
proof fn lemma_token_bytes(t: Seq<char>)
    requires
        token_ok(t),
    ensures
        encode_utf8(t).len() >= 1,
        forall|i: int| 0 <= i < encode_utf8(t).len() ==> !stops(#[trigger] encode_utf8(t)[i])
            && encode_utf8(t)[i] != 32 && encode_utf8(t)[i] != 9,
    decreases t.len(),
{
    let c = t[0];
    let r = t.drop_first();
    assert(token_char(t[0]));
    assert(t =~= seq![c] + r);
    lemma_encode_append(seq![c], r);
    lemma_encode_one(c);
    lemma_scalar_bytes(c);
    let h = encode_scalar(c as u32);
    assert forall|i: int| 0 <= i < h.len() implies !stops(#[trigger] h[i]) && h[i] != 32 && h[i] != 9 by {
        if (c as u32) < 0x80 {
            lemma_code_ne(c, '\n');
            lemma_code_ne(c, '\r');
            lemma_code_ne(c, ',');
            lemma_code_ne(c, ']');
            lemma_code_ne(c, '}');
            lemma_code_ne(c, '#');
            lemma_code_ne(c, ' ');
            lemma_code_ne(c, '\t');
        }
    }
    if r.len() > 0 {
        assert forall|i: int| 0 <= i < r.len() implies token_char(#[trigger] r[i]) by {
            assert(r[i] == t[i + 1]);
        }
        lemma_token_bytes(r);
    } else {
        assert(encode_utf8(r) =~= Seq::<u8>::empty());
    }
    assert forall|i: int| 0 <= i < encode_utf8(t).len() implies !stops(#[trigger] encode_utf8(t)[i])
        && encode_utf8(t)[i] != 32 && encode_utf8(t)[i] != 9 by {
        if i < h.len() {
            assert(encode_utf8(t)[i] == h[i]);
        } else {
            assert(encode_utf8(t)[i] == encode_utf8(r)[i - h.len()]);
        }
    }
}

/// Scanning from `q` stops at the first byte that ends a token.
proof fn lemma_scan_walk(b: Seq<u8>, q: int, e: int)
    requires
        0 <= q <= e <= b.len(),
        forall|j: int| q <= j < e ==> !stops(#[trigger] b[j]),
        e == b.len() || stops(b[e]),
    ensures
        scan_end(b, q) == e,
    decreases e - q,
{
    if q < e {
        lemma_scan_walk(b, q + 1, e);
    }
}

/// Trimming back from `e` over blanks stops at `q`, after a byte that is no blank.
proof fn lemma_trim_walk(b: Seq<u8>, lo: int, q: int, e: int)
    requires
        0 <= lo < q <= e <= b.len(),
        forall|j: int| q <= j < e ==> #[trigger] b[j] == 32 || b[j] == 9,
        b[q - 1] != 32 && b[q - 1] != 9,
    ensures
        trim_back(b, lo, e) == q,
    decreases e - q,
{
    if q < e {
        lemma_trim_walk(b, lo, q, e - 1);
    }
}

/// A whole token at `p` ends where its bytes end.
proof fn lemma_token_end(b: Seq<u8>, p: int, t: Seq<char>)
    requires
        text_at(b, p, t),
        token_ok(t),
        token_stop(b, p + encode_utf8(t).len()),
    ensures
        token_end(b, p) == p + encode_utf8(t).len(),
        utf8_text(b.subrange(p, p + encode_utf8(t).len())) == Some(t),
{
    let n = encode_utf8(t).len() as int;
    lemma_token_bytes(t);
    let pn = p + n;
    let e = choose|e: int| stop_at(b, pn, e);
    assert forall|j: int| p <= j < e implies !stops(#[trigger] b[j]) by {
        if j < p + n {
            assert(b.subrange(p, p + n)[j - p] == encode_utf8(t)[j - p]);
        }
    }
    lemma_scan_walk(b, p, e);
    assert(b[p + n - 1] == encode_utf8(t)[n - 1]) by {
        assert(b.subrange(p, p + n)[n - 1] == encode_utf8(t)[n - 1]);
    }
    lemma_trim_walk(b, p, p + n, e);
    lemma_encode_text(t);
}

/// The same token alone in its own bytes.
proof fn lemma_token_alone(t: Seq<char>)
    requires
        token_ok(t),
    ensures
        text_at(encode_utf8(t), 0, t),
        token_stop(encode_utf8(t), encode_utf8(t).len() as int),
{
    let e = encode_utf8(t);
    assert(e.subrange(0, e.len() as int) =~= e);
    assert(stop_at(e, e.len() as int, e.len() as int));
}

/// Whether `lit`'s bytes after the first are letters: no blank and none that ends a
/// token.
pub open spec fn letters_after_first(lit: Seq<u8>) -> bool {
    forall|i: int| 1 <= i < lit.len() ==> (97 <= #[trigger] lit[i] <= 122)
}

/// A literal of letters (after its first byte) stands at `p` in `b` just where it
/// stands at the start of the token's own bytes.
proof fn lemma_starts_local(b: Seq<u8>, p: int, t: Seq<char>, lit: Seq<u8>)
    requires
        text_at(b, p, t),
        token_ok(t),
        token_stop(b, p + encode_utf8(t).len()),
        letters_after_first(lit),
        lit.len() >= 1,
    ensures
        starts(b, p, lit) == starts(encode_utf8(t), 0, lit),
{
    let e = encode_utf8(t);
    let n = e.len() as int;
    lemma_token_bytes(t);
    if lit.len() <= n {
        if starts(b, p, lit) {
            assert forall|i: int| 0 <= i < lit.len() implies e[0 + i] == #[trigger] lit[i] by {
                assert(b.subrange(p, p + n)[i] == e[i]);
                assert(b[p + i] == lit[i]);
            }
        }
        if starts(e, 0, lit) {
            assert forall|i: int| 0 <= i < lit.len() implies b[p + i] == #[trigger] lit[i] by {
                assert(b.subrange(p, p + n)[i] == e[i]);
                assert(e[0 + i] == lit[i]);
            }
        }
    } else {
        if starts(b, p, lit) {
            let pn = p + n;
            let q = choose|q: int| stop_at(b, pn, q);
            assert(b[p + n] == lit[n]);
            assert(97 <= lit[n] <= 122);
            if q > p + n {
                assert(b[p + n] == 32 || b[p + n] == 9);
            } else {
                assert(stops(b[q]));
            }
        }
    }
}

/// A number or date token at `p` reads as it reads alone.
proof fn lemma_num_local(b: Seq<u8>, p: int, l: int, ls: int, t: Seq<char>)
    requires
        text_at(b, p, t),
        token_ok(t),
        token_stop(b, p + encode_utf8(t).len()),
    ensures
        ({
            let n = encode_utf8(t).len() as int;
            match num_or_date(encode_utf8(t), (0, 1, 0)) {
                Ok((v, c)) => c == (n, 1int, 0int) ==> num_or_date(b, (p, l, ls)) == Ok::<(Toml, Cur), TErr>((v, (p + n, l, ls))),
                Err(_) => true,
            }
        }),
{
    let e = encode_utf8(t);
    let n = e.len() as int;
    lemma_token_alone(t);
    lemma_token_end(b, p, t);
    lemma_token_end(e, 0, t);
    let l1 = seq![105u8, 110u8, 102u8];
    let l2 = seq![43u8, 105u8, 110u8, 102u8];
    let l3 = seq![45u8, 105u8, 110u8, 102u8];
    let l4 = seq![110u8, 97u8, 110u8];
    let l5 = seq![43u8, 110u8, 97u8, 110u8];
    let l6 = seq![45u8, 110u8, 97u8, 110u8];
    lemma_starts_local(b, p, t, l1);
    lemma_starts_local(b, p, t, l2);
    lemma_starts_local(b, p, t, l3);
    lemma_starts_local(b, p, t, l4);
    lemma_starts_local(b, p, t, l5);
    lemma_starts_local(b, p, t, l6);
    assert(e.subrange(0, n) =~= e);
    assert(b.subrange(p, p + n) == e);
}

/// The decimal digits of `m` are digit characters.
proof fn lemma_dec_chars(m: nat)
    ensures
        dec_digits(m).len() >= 1,
        forall|i: int| 0 <= i < dec_digits(m).len() ==> '0' <= #[trigger] dec_digits(m)[i] <= '9',
    decreases m,
{
    if m >= 10 {
        lemma_dec_chars(m / 10);
        let h = dec_digits(m / 10);
        assert forall|i: int| 0 <= i < dec_digits(m).len() implies '0' <= #[trigger] dec_digits(m)[i] <= '9' by {
            if i < h.len() {
                assert(dec_digits(m)[i] == h[i]);
            } else {
                assert(dec_digits(m)[i] == digit_char(m % 10));
            }
        }
    } else {
        assert(dec_digits(m) =~= seq![digit_char(m)]);
    }
}

/// The decimal digits of `m` read back as `m`.
proof fn lemma_digits_val_dec(m: nat)
    ensures
        digits_val(dec_digits(m), 10) == Some(m),
    decreases m,
{
    let d = dec_digits(m);
    if m >= 10 {
        lemma_digits_val_dec(m / 10);
        assert(d.drop_last() =~= dec_digits(m / 10));
        assert(d.last() == digit_char(m % 10));
        assert(radix_digit(digit_char(m % 10), 10) == Some((m % 10) as nat));
        assert(d.len() > 0);
        assert(digits_val(d, 10) == Some((m / 10) * 10 + (m % 10) as nat));
        assert((m / 10) * 10 + m % 10 == m);
    } else {
        assert(d =~= seq![digit_char(m)]);
        assert(d.drop_last() =~= Seq::<char>::empty());
        assert(radix_digit(digit_char(m), 10) == Some(m));
        assert(digits_val(d.drop_last(), 10) == Some(0nat));
        assert(digits_val(d, 10) == Some(0 * 10 + m));
    }
}

/// Text without underscores is kept whole.
proof fn lemma_no_underscores(s: Seq<char>)
    requires
        forall|i: int| 0 <= i < s.len() ==> #[trigger] s[i] != '_',
    ensures
        drop_underscores(s) == s,
    decreases s.len(),
{
    if s.len() > 0 {
        lemma_no_underscores(s.drop_last());
        assert(s.drop_last().push(s.last()) =~= s);
    }
}

/// Text whose first and last characters are no white space is its own trim.
proof fn lemma_trim_same(s: Seq<char>)
    requires
        s.len() > 0,
        !is_ws(s[0]),
        !is_ws(s[s.len() - 1]),
    ensures
        trim(s) == s,
{
    assert(ws_end(s, 0) == 0);
    assert(ws_back(s, 0, s.len() as int) == s.len());
    assert(s.subrange(0, s.len() as int) =~= s);
}

/// An integer's written text reads back alone as the integer.
#[verifier::spinoff_prover]
#[verifier::rlimit(40)]
proof fn lemma_int_alone(n: i64)
    ensures
        token_ok(i64_text(n)),
        num_or_date(encode_utf8(i64_text(n)), (0, 1, 0)) == Ok::<(Toml, Cur), TErr>(
            (Toml::Int(n), (encode_utf8(i64_text(n)).len() as int, 1, 0)),
        ),
        forall|i: int| 0 <= i < i64_text(n).len() ==> (#[trigger] i64_text(n)[i] as u32) < 0x80,
        i64_text(n)[0] == '-' || ('0' <= i64_text(n)[0] <= '9'),
{
    let t = i64_text(n);
    let m: nat = if n < 0 { (-n) as nat } else { n as nat };
    let d = dec_digits(m);
    lemma_dec_chars(m);
    lemma_digits_val_dec(m);
    assert(t == if n < 0 { seq!['-'] + d } else { d });
    assert forall|i: int| 0 <= i < t.len() implies (t[i] == '-' && i == 0 && n < 0) || ('0' <= #[trigger] t[i] <= '9') by {
        if n < 0 && i > 0 {
            assert(t[i] == d[i - 1]);
        }
    }
    assert forall|i: int| 0 <= i < t.len() implies token_char(#[trigger] t[i]) && (t[i] as u32) < 0x80 && t[i] != '_'
        && t[i] != '.' && t[i] != 'e' && t[i] != 'E' && !is_ws(t[i]) by {
        if n < 0 && i > 0 {
            assert(t[i] == d[i - 1]);
        }
    }
    assert(token_ok(t));
    let e = encode_utf8(t);
    lemma_encode_ascii_seq(t);
    lemma_token_alone(t);
    lemma_token_end(e, 0, t);
    assert(e.subrange(0, e.len() as int) =~= e);
    assert(e[0] == (t[0] as u32) as u8);
    assert(t.len() >= 1);
    if t.len() >= 2 {
        assert(e[1] == (t[1] as u32) as u8);
    }
    if t.len() >= 3 {
        assert(e[2] == (t[2] as u32) as u8);
    }
    if t.len() >= 5 {
        assert(e[4] == (t[4] as u32) as u8);
    }
    assert(!starts(e, 0, seq![105u8, 110u8, 102u8]));
    assert(!starts(e, 0, seq![43u8, 105u8, 110u8, 102u8]));
    assert(!starts(e, 0, seq![45u8, 105u8, 110u8, 102u8])) by {
        if t.len() >= 2 {
            assert(seq![45u8, 105u8, 110u8, 102u8][1] == 105u8);
        }
    }
    assert(!starts(e, 0, seq![110u8, 97u8, 110u8]));
    assert(!starts(e, 0, seq![43u8, 110u8, 97u8, 110u8]));
    assert(!starts(e, 0, seq![45u8, 110u8, 97u8, 110u8])) by {
        if t.len() >= 2 {
            assert(seq![45u8, 110u8, 97u8, 110u8][1] == 110u8);
        }
    }
    assert(!is_datetime(e));
    lemma_trim_same(t);
    lemma_no_underscores(t);
    assert(!t.contains('.') && !t.contains('e') && !t.contains('E'));
    assert(t != "inf"@ && t != "nan"@) by {
        reveal_strlit("inf");
        reveal_strlit("nan");
        if t == "inf"@ {
            assert(t[0] == 'i');
        }
        if t == "nan"@ {
            assert(t[0] == 'n');
        }
    }
    assert(!is_float(t));
    let rest = if t[0] == '+' || t[0] == '-' { t.drop_first() } else { t };
    assert(!prefixed(rest, 'x') && !prefixed(rest, 'o') && !prefixed(rest, 'b')) by {
        if rest.len() >= 2 {
            if n < 0 {
                assert(rest[1] == t[2]);
            } else {
                assert(rest[1] == t[1]);
            }
        }
    }
    if n < 0 {
        assert(t.drop_first() =~= d);
    }
    assert(from_radix(t, 10) == Some(n));
    assert(number(t) == Ok::<Toml, Seq<char>>(Toml::Int(n)));
}

/// Whether `t` is a float's text that the reader takes whole, alone, as that float.
pub open spec fn float_ok(t: Seq<char>) -> bool {
    &&& token_ok(t)
    &&& value(encode_utf8(t), (0, 1, 0), 0) == Ok::<(Toml, Cur), TErr>(
        (Toml::Float(t), (encode_utf8(t).len() as int, 1, 0)),
    )
}

/// Whether `s` is a date-time's text that the reader takes as one: a whole token
/// that looks like a date or a time.
pub open spec fn datetime_ok(s: Seq<char>) -> bool {
    token_ok(s) && is_datetime(encode_utf8(s))
}

/// Whether `v` is a plain value (neither array nor table) whose text reads back.
pub open spec fn scalar_ok(v: Toml) -> bool {
    match v {
        Toml::Str(_) => true,
        Toml::Int(_) => true,
        Toml::Bool(_) => true,
        Toml::Float(t) => float_ok(t),
        Toml::Datetime(s) => datetime_ok(s),
        _ => false,
    }
}

/// A date-time's text reads back alone as the date-time.
proof fn lemma_datetime_alone(s: Seq<char>)
    requires
        datetime_ok(s),
    ensures
        num_or_date(encode_utf8(s), (0, 1, 0)) == Ok::<(Toml, Cur), TErr>(
            (Toml::Datetime(s), (encode_utf8(s).len() as int, 1, 0)),
        ),
        digit_byte(encode_utf8(s)[0]),
{
    let e = encode_utf8(s);
    lemma_token_alone(s);
    lemma_token_end(e, 0, s);
    assert(e.subrange(0, e.len() as int) =~= e);
    assert(digit_byte(e[0]));
    assert(!starts(e, 0, seq![105u8, 110u8, 102u8]));
    assert(!starts(e, 0, seq![43u8, 105u8, 110u8, 102u8]));
    assert(!starts(e, 0, seq![45u8, 105u8, 110u8, 102u8]));
    assert(!starts(e, 0, seq![110u8, 97u8, 110u8]));
    assert(!starts(e, 0, seq![43u8, 110u8, 97u8, 110u8]));
    assert(!starts(e, 0, seq![45u8, 110u8, 97u8, 110u8]));
}

/// A plain value's text at `p`, followed by a byte that ends a token or by the end,
/// reads back as the value.
#[verifier::spinoff_prover]
#[verifier::rlimit(40)]
proof fn lemma_scalar(b: Seq<u8>, p: int, l: int, ls: int, v: Toml, fuel: nat)
    requires
        scalar_ok(v),
        text_at(b, p, value_text(v)),
        stop_at(b, p + encode_utf8(value_text(v)).len(), p + encode_utf8(value_text(v)).len()),
    ensures
        value(b, (p, l, ls), fuel) == Ok::<(Toml, Cur), TErr>(
            (v, (p + encode_utf8(value_text(v)).len(), l, ls)),
        ),
        b[p] != 32 && b[p] != 9,
{
    let n = encode_utf8(value_text(v)).len() as int;
    let q = p + n;
    assert(token_stop(b, q));
    match v {
        Toml::Str(s) => {
            lemma_basic(b, p, l, ls, s);
            if s.len() == 0 {
                assert(escaped(s) =~= Seq::<char>::empty());
                lemma_text_split(b, p, seq!['"'] + escaped(s), seq!['"']);
                assert(encode_utf8(seq!['"']).len() == 1) by {
                    lemma_encode_one('"');
                    lemma_scalar_bytes('"');
                }
                assert(n == 2);
                assert(!triple(b, p, 34));
            } else {
                let c = s[0];
                let r = s.drop_first();
                assert(s =~= seq![c] + r);
                lemma_escaped_append(seq![c], r);
                assert(seq![c].drop_last() =~= Seq::<char>::empty());
                assert(seq![c].last() == c);
                assert(escaped(Seq::<char>::empty()) =~= Seq::<char>::empty());
                assert(escaped(seq![c]) =~= escape_char(c));
                lemma_text_split(b, p, seq!['"'] + escaped(s), seq!['"']);
                lemma_text_split(b, p, seq!['"'], escaped(s));
                assert(encode_utf8(seq!['"']).len() == 1) by {
                    lemma_encode_one('"');
                    lemma_scalar_bytes('"');
                }
                lemma_text_split(b, p + 1, escape_char(c), escaped(r));
                lemma_char_step(b, p + 1, l, ls, Seq::empty(), c);
                assert(!triple(b, p, 34));
            }
        },
        Toml::Int(i) => {
            lemma_int_alone(i);
            let t = i64_text(i);
            lemma_text_ascii(b, p, t);
            assert(b[p + 0] == (t[0] as u32) as u8);
            lemma_num_local(b, p, l, ls, t);
        },
        Toml::Float(t) => {
            let e = encode_utf8(t);
            lemma_token_alone(t);
            lemma_token_bytes(t);
            assert(b[p] == e[0]) by {
                assert(b.subrange(p, p + n)[0] == e[0]);
            }
            lemma_num_local(b, p, l, ls, t);
        },
        Toml::Bool(x) => {
            let t = value_text(v);
            if x {
                reveal_strlit("true");
                assert(t == "true"@);
                assert(forall|i: int| 0 <= i < t.len() ==> (#[trigger] t[i] as u32) < 0x80);
                lemma_text_ascii(b, p, t);
                assert(b[p + 0] == (t[0] as u32) as u8);
                assert(b[p + 1] == (t[1] as u32) as u8);
                assert(b[p + 2] == (t[2] as u32) as u8);
                assert(b[p + 3] == (t[3] as u32) as u8);
                assert(starts(b, p, seq![116u8, 114u8, 117u8, 101u8]));
            } else {
                reveal_strlit("false");
                assert(t == "false"@);
                assert(forall|i: int| 0 <= i < t.len() ==> (#[trigger] t[i] as u32) < 0x80);
                lemma_text_ascii(b, p, t);
                assert(b[p + 0] == (t[0] as u32) as u8);
                assert(b[p + 1] == (t[1] as u32) as u8);
                assert(b[p + 2] == (t[2] as u32) as u8);
                assert(b[p + 3] == (t[3] as u32) as u8);
                assert(b[p + 4] == (t[4] as u32) as u8);
                assert(!starts(b, p, seq![116u8, 114u8, 117u8, 101u8]));
                assert(starts(b, p, seq![102u8, 97u8, 108u8, 115u8, 101u8]));
            }
        },
        Toml::Datetime(t) => {
            lemma_datetime_alone(t);
            let e = encode_utf8(t);
            assert(b[p] == e[0]) by {
                assert(b.subrange(p, p + n)[0] == e[0]);
            }
            lemma_num_local(b, p, l, ls, t);
        },
        _ => {},
    }
}

/// Bare bytes from `p` up to a byte that is not bare.
proof fn lemma_bare_walk(b: Seq<u8>, p: int, e: int)
    requires
        0 <= p <= e < b.len(),
        forall|j: int| p <= j < e ==> is_bare(#[trigger] b[j]),
        !is_bare(b[e]),
    ensures
        bare_end(b, p) == e,
    decreases e - p,
{
    if p < e {
        lemma_bare_walk(b, p + 1, e);
    }
}

/// A written key at `p`, then ` =`, reads back as the key, the cursor left on the `=`.
proof fn lemma_key(b: Seq<u8>, p: int, l: int, ls: int, k: Seq<char>)
    requires
        text_at(b, p, key_text(k)),
        p + encode_utf8(key_text(k)).len() + 1 < b.len(),
        b[p + encode_utf8(key_text(k)).len()] == 32,
        b[p + encode_utf8(key_text(k)).len() + 1] == 61,
    ensures
        key_path(b, (p, l, ls)) == Ok::<(Seq<Seq<char>>, Cur), TErr>(
            (seq![k], (p + encode_utf8(key_text(k)).len() + 1, l, ls)),
        ),
        b[p] != 32 && b[p] != 9 && b[p] != 35 && b[p] != 10 && b[p] != 13 && b[p] != 91,
{
    let kt = key_text(k);
    let n = encode_utf8(kt).len() as int;
    if k.len() > 0 && forall|i: int| 0 <= i < k.len() ==> bare_char(#[trigger] k[i]) {
        assert(kt == k);
        assert forall|i: int| 0 <= i < k.len() implies (#[trigger] k[i] as u32) < 0x80 by {
            assert(bare_char(k[i]));
        }
        lemma_text_ascii(b, p, k);
        assert forall|j: int| p <= j < p + n implies is_bare(#[trigger] b[j]) by {
            assert(b[p + (j - p)] == (k[j - p] as u32) as u8);
            assert(bare_char(k[j - p]));
        }
        lemma_bare_walk(b, p, p + n);
        assert(is_bare(b[p]));
        assert(b[p + 0] == (k[0] as u32) as u8);
        assert(ascii_text(b.subrange(p, p + n)) =~= k) by {
            assert forall|i: int| 0 <= i < n implies #[trigger] ascii_text(b.subrange(p, p + n))[i] == k[i] by {
                assert(b[p + i] == (k[i] as u32) as u8);
                assert(bare_char(k[i]));
                char_u32_cast(k[i], k[i] as u32);
            }
        }
    } else {
        lemma_basic(b, p, l, ls, k);
    }
    assert(blank_end(b, p + n + 1) == p + n + 1);
    assert(blank_end(b, p + n) == p + n + 1);
}

/// One written `key = value` line at `p` reads back: the entry goes into the root.
proof fn lemma_line(b: Seq<u8>, p: int, l: int, ls: int, st: DocState, k: Seq<char>, v: Toml)
    requires
        text_at(b, p, line_text((k, v))),
        plain_ok(v),
        st.3.len() == 0,
        !st.4,
        key_pos(st.0, k) == st.0.len(),
    ensures
        match keyval_line(b, (p, l, ls), st) {
            Ok((st2, c2)) => st2.0 == tab_insert(st.0, k, v) && st2.3 == st.3 && st2.4 == st.4 && c2.0 == p
                + encode_utf8(line_text((k, v))).len(),
            Err(_) => false,
        },
        b[p] != 32 && b[p] != 9 && b[p] != 35 && b[p] != 10 && b[p] != 13 && b[p] != 91,
{
    let kt = key_text(k);
    let vt = value_text(v);
    let eq = " = "@;
    reveal_strlit(" = ");
    assert(line_text((k, v)) == kt + eq + vt + seq!['\n']);
    lemma_text_split(b, p, kt + eq + vt, seq!['\n']);
    lemma_text_split(b, p, kt + eq, vt);
    lemma_text_split(b, p, kt, eq);
    let kn = encode_utf8(kt).len() as int;
    let vn = encode_utf8(vt).len() as int;
    assert(forall|i: int| 0 <= i < eq.len() ==> (#[trigger] eq[i] as u32) < 0x80);
    lemma_text_ascii(b, p + kn, eq);
    assert(b[p + kn + 0] == (eq[0] as u32) as u8);
    assert(b[p + kn + 1] == (eq[1] as u32) as u8);
    assert(b[p + kn + 2] == (eq[2] as u32) as u8);
    lemma_encode_one('\n');
    lemma_scalar_bytes('\n');
    let q = p + kn + 3 + vn;
    assert(b[q] == 10u8) by {
        assert(b.subrange(q, q + 1)[0] == encode_utf8(seq!['\n'])[0]);
    }
    lemma_key(b, p, l, ls, k);
    assert(stop_at(b, q, q));
    if scalar_ok(v) {
        lemma_scalar(b, p + kn + 3, l, ls, v, (b.len() - (p + kn + 3) + 1) as nat);
    } else {
        lemma_array_value(b, p + kn + 3, l, ls, v->Arr_0, (b.len() - (p + kn + 3) + 1) as nat);
    }
    assert(blank_end(b, p + kn + 1) == p + kn + 1);
    assert(blank_end(b, p + kn + 3) == p + kn + 3);
    assert(blank_end(b, p + kn + 2) == p + kn + 3);
    assert(blank_end(b, q) == q);
    assert(st.3 + seq![k].take(1) =~= seq![k]);
    assert(dotted(st.0, seq![k], 0, v, st.3, st.1) matches Ok((r, _)) && r == tab_insert(st.0, k, v));
}


/// At a byte that starts a line and no header, the document reads that line, then
/// the rest.
proof fn lemma_doc_step(b: Seq<u8>, c: Cur, st: DocState)
    requires
        0 <= c.0 < b.len(),
        b[c.0] != 32 && b[c.0] != 9 && b[c.0] != 35 && b[c.0] != 10 && b[c.0] != 13 && b[c.0] != 91,
        keyval_line(b, c, st) matches Ok((_, c2)) && c.0 < c2.0 <= b.len(),
    ensures
        doc(b, c, st) == doc(b, keyval_line(b, c, st)->Ok_0.1, keyval_line(b, c, st)->Ok_0.0),
{
    assert(blank_end(b, c.0) == c.0);
    assert(skip_wsc(b, c) == c);
}

/// A line at `p` inside the input: the document reads it, then the rest.
proof fn lemma_line_doc(b: Seq<u8>, p: int, l: int, ls: int, st: DocState, k: Seq<char>, v: Toml)
    requires
        text_at(b, p, line_text((k, v))),
        p + encode_utf8(line_text((k, v))).len() <= b.len(),
        plain_ok(v),
        st.3.len() == 0,
        !st.4,
        key_pos(st.0, k) == st.0.len(),
    ensures
        exists|st2: DocState, c2: Cur| st2.0 == tab_insert(st.0, k, v) && st2.3 == st.3 && st2.4 == st.4 && c2.0 == p
            + encode_utf8(line_text((k, v))).len() && doc(b, (p, l, ls), st) == doc(b, c2, st2),
{
    lemma_line(b, p, l, ls, st, k, v);
    let (st2, c2) = keyval_line(b, (p, l, ls), st)->Ok_0;
    lemma_doc_step(b, (p, l, ls), st);
}

/// At the end of the input, the document is the root read so far.
proof fn lemma_doc_end(b: Seq<u8>, l: int, ls: int, st: DocState)
    ensures
        doc(b, (b.len() as int, l, ls), st) == Ok::<Entries, TErr>(st.0),
{
    assert(blank_end(b, b.len() as int) == b.len());
}

/// Whether every item of `a` is a plain value whose text reads back.
pub open spec fn items_scalar(a: Seq<Toml>) -> bool {
    forall|i: int| 0 <= i < a.len() ==> scalar_ok(#[trigger] a[i])
}

/// The items of a written array, item by item.
proof fn lemma_items_at(b: Seq<u8>, q: int, a: Seq<Toml>, j: int, m: int)
    requires
        1 <= j < m <= a.len(),
        text_at(b, q, items_text(a, m)),
    ensures
        items_text(a, j + 1) == items_text(a, j) + ", "@ + value_text(a[j]),
        text_at(b, q + encode_utf8(items_text(a, j)).len(), ", "@ + value_text(a[j])),
        text_at(b, q, items_text(a, j + 1)),
    decreases m - j,
{
    assert(items_text(a, m) =~= items_text(a, m - 1) + (", "@ + value_text(a[m - 1])));
    lemma_text_split(b, q, items_text(a, m - 1), ", "@ + value_text(a[m - 1]));
    if j < m - 1 {
        lemma_items_at(b, q, a, j, m - 1);
    }
    assert(items_text(a, j + 1) == items_text(a, j) + ", "@ + value_text(a[j]));
    assert(items_text(a, j) + ", "@ + value_text(a[j]) =~= items_text(a, j) + (", "@ + value_text(a[j])));
    lemma_text_split(b, q, items_text(a, j), ", "@ + value_text(a[j]));
}

/// The first item of a written array stands first.
proof fn lemma_first_item_at(b: Seq<u8>, q: int, a: Seq<Toml>, m: int)
    requires
        1 <= m <= a.len(),
        text_at(b, q, items_text(a, m)),
    ensures
        text_at(b, q, items_text(a, 1)),
        items_text(a, 1) == value_text(a[0]),
    decreases m,
{
    if m > 1 {
        assert(items_text(a, m) =~= items_text(a, m - 1) + (", "@ + value_text(a[m - 1])));
        lemma_text_split(b, q, items_text(a, m - 1), ", "@ + value_text(a[m - 1]));
        lemma_first_item_at(b, q, a, m - 1);
    }
}

/// The comma and blank of `, ` at `x`.
proof fn lemma_comma(b: Seq<u8>, x: int, v: Seq<char>)
    requires
        text_at(b, x, ", "@ + v),
    ensures
        b[x] == 44 && b[x + 1] == 32,
        text_at(b, x + 2, v),
        encode_utf8(", "@ + v).len() == 2 + encode_utf8(v).len(),
        encode_utf8(", "@).len() == 2,
{
    reveal_strlit(", ");
    lemma_text_split(b, x, ", "@, v);
    let cs = ", "@;
    assert(forall|i: int| 0 <= i < cs.len() ==> (#[trigger] cs[i] as u32) < 0x80);
    lemma_text_ascii(b, x, cs);
    assert(b[x + 0] == (cs[0] as u32) as u8);
    assert(b[x + 1] == (cs[1] as u32) as u8);
}

/// The rest of a written array from its `j`-th item reads back.
#[verifier::spinoff_prover]
#[verifier::rlimit(40)]
proof fn lemma_array_rest(b: Seq<u8>, p: int, l: int, ls: int, a: Seq<Toml>, j: int, fuel: nat)
    requires
        items_scalar(a),
        1 <= j < a.len(),
        text_at(b, p + 1, items_text(a, a.len() as int)),
        p + 1 + encode_utf8(items_text(a, a.len() as int)).len() < b.len(),
        b[p + 1 + encode_utf8(items_text(a, a.len() as int)).len()] == 93,
    ensures
        array_items(b, (p + 2 + encode_utf8(items_text(a, j)).len(), l, ls), a.take(j), fuel) == Ok::<(Toml, Cur), TErr>(
            (Toml::Arr(a), (p + 2 + encode_utf8(items_text(a, a.len() as int)).len(), l, ls)),
        ),
    decreases a.len() - j,
{
    let m = a.len() as int;
    let x = p + 1 + encode_utf8(items_text(a, j)).len();
    lemma_items_at(b, p + 1, a, j, m);
    lemma_comma(b, x, value_text(a[j]));
    lemma_encode_append(items_text(a, j) + ", "@, value_text(a[j]));
    lemma_encode_append(items_text(a, j), ", "@);
    let vs = x + 2;
    let ve = vs + encode_utf8(value_text(a[j])).len();
    assert(ve == p + 1 + encode_utf8(items_text(a, j + 1)).len());
    assert(scalar_ok(a[j]));
    if j + 1 < m {
        lemma_items_at(b, p + 1, a, j + 1, m);
        lemma_comma(b, ve, value_text(a[j + 1]));
    } else {
        assert(b[ve] == 93);
    }
    assert(stop_at(b, ve, ve));
    lemma_scalar(b, vs, l, ls, a[j], fuel);
    assert(blank_end(b, vs) == vs);
    assert(blank_end(b, x + 1) == vs);
    assert(skip_wsc(b, (x + 1, l, ls)) == (vs, l, ls));
    assert(blank_end(b, ve) == ve);
    assert(skip_wsc(b, (ve, l, ls)) == (ve, l, ls));
    assert(a.take(j).push(a[j]) =~= a.take(j + 1));
    if j + 1 < m {
        lemma_array_rest(b, p, l, ls, a, j + 1, fuel);
    } else {
        assert(a.take(j + 1) =~= a);
    }
}

/// A written array of plain values reads back.
#[verifier::spinoff_prover]
#[verifier::rlimit(40)]
proof fn lemma_array_value(b: Seq<u8>, p: int, l: int, ls: int, a: Seq<Toml>, fuel: nat)
    requires
        items_scalar(a),
        fuel >= 1,
        text_at(b, p, value_text(Toml::Arr(a))),
    ensures
        value(b, (p, l, ls), fuel) == Ok::<(Toml, Cur), TErr>(
            (Toml::Arr(a), (p + encode_utf8(value_text(Toml::Arr(a))).len(), l, ls)),
        ),
        b[p] == 91,
{
    let m = a.len() as int;
    let it = items_text(a, m);
    assert(value_text(Toml::Arr(a)) == seq!['['] + it + seq![']']);
    lemma_text_split(b, p, seq!['['] + it, seq![']']);
    lemma_text_split(b, p, seq!['['], it);
    lemma_encode_one('[');
    lemma_scalar_bytes('[');
    lemma_encode_one(']');
    lemma_scalar_bytes(']');
    let n = encode_utf8(it).len() as int;
    assert(b[p] == 91u8) by {
        assert(b.subrange(p, p + 1)[0] == encode_utf8(seq!['['])[0]);
    }
    assert(b[p + 1 + n] == 93u8) by {
        assert(b.subrange(p + 1 + n, p + 2 + n)[0] == encode_utf8(seq![']'])[0]);
    }
    let f1 = (fuel - 1) as nat;
    if m == 0 {
        assert(n == 0) by {
            assert(it =~= Seq::<char>::empty());
        }
        assert(blank_end(b, p + 1) == p + 1);
        assert(skip_wsc(b, (p + 1, l, ls)) == (p + 1, l, ls));
        assert(Seq::<Toml>::empty() =~= a);
    } else {
        lemma_first_item_at(b, p + 1, a, m);
        let v0 = value_text(a[0]);
        let e0 = p + 1 + encode_utf8(v0).len();
        assert(scalar_ok(a[0]));
        if m > 1 {
            lemma_items_at(b, p + 1, a, 1, m);
            lemma_comma(b, e0, value_text(a[1]));
        }
        assert(stop_at(b, e0, e0));
        lemma_scalar(b, p + 1, l, ls, a[0], f1);
        assert(blank_end(b, p + 1) == p + 1);
        assert(skip_wsc(b, (p + 1, l, ls)) == (p + 1, l, ls));
        assert(blank_end(b, e0) == e0);
        assert(skip_wsc(b, (e0, l, ls)) == (e0, l, ls));
        assert(Seq::<Toml>::empty().push(a[0]) =~= a.take(1));
        if m > 1 {
            lemma_array_rest(b, p, l, ls, a, 1, f1);
        } else {
            assert(a.take(1) =~= a);
        }
    }
}

/// Whether `v` is written on one line and reads back: a plain value, or an array of
/// plain values.
pub open spec fn plain_ok(v: Toml) -> bool {
    scalar_ok(v) || (v is Arr && items_scalar(v->Arr_0))
}

/// Whether every value of `t` is written on one line and reads back.
pub open spec fn all_plain(t: Entries) -> bool {
    forall|i: int| 0 <= i < t.len() ==> plain_ok(#[trigger] t[i].1)
}

/// Whether `s` holds just the entries of `t` before `k1` that are no arrays and the
/// arrays before `k2`.
pub open spec fn read_so_far(s: Entries, t: Entries, k1: int, k2: int) -> bool {
    forall|e: (Seq<char>, Toml)| #![trigger s.contains(e)] s.contains(e) <==> exists|i: int| 0 <= i < t.len() && #[trigger] t[i] == e
        && ((i < k1 && !(t[i].1 is Arr)) || (i < k2 && t[i].1 is Arr))
}

/// Entries of a table with strictly increasing keys have distinct keys.
proof fn lemma_keys_distinct(t: Entries, i: int, j: int)
    requires
        sorted_keys(t),
        0 <= i < t.len(),
        0 <= j < t.len(),
        i != j,
    ensures
        t[i].0 != t[j].0,
{
    lemma_lex_irrefl(t[i].0);
    if i < j {
        assert(lex_lt(t[i].0, t[j].0));
    } else {
        assert(lex_lt(t[j].0, t[i].0));
    }
}

/// Inserting a new key adds just its entry.
proof fn lemma_insert_new(s: Entries, k: Seq<char>, v: Toml)
    requires
        forall|j: int| 0 <= j < s.len() ==> #[trigger] s[j].0 != k,
    ensures
        forall|e: (Seq<char>, Toml)| #[trigger] tab_insert(s, k, v).contains(e) <==> (s.contains(e) || e == (k, v)),
    decreases s.len(),
{
    let r = tab_insert(s, k, v);
    if s.len() == 0 {
        assert(r =~= seq![(k, v)]);
        assert forall|e: (Seq<char>, Toml)| #[trigger] r.contains(e) <==> (s.contains(e) || e == (k, v)) by {
            if e == (k, v) {
                assert(r[0] == e);
            }
        }
    } else {
        assert(s[0].0 != k);
        if lex_lt(k, s[0].0) {
            assert(r =~= seq![(k, v)] + s);
            assert forall|e: (Seq<char>, Toml)| #[trigger] r.contains(e) <==> (s.contains(e) || e == (k, v)) by {
                if r.contains(e) {
                    let i = choose|i: int| 0 <= i < r.len() && r[i] == e;
                    if i > 0 {
                        assert(s[i - 1] == e);
                    }
                }
                if s.contains(e) {
                    let i = choose|i: int| 0 <= i < s.len() && s[i] == e;
                    assert(r[i + 1] == e);
                }
                if e == (k, v) {
                    assert(r[0] == e);
                }
            }
        } else {
            let d = s.drop_first();
            assert forall|j: int| 0 <= j < d.len() implies #[trigger] d[j].0 != k by {
                assert(d[j] == s[j + 1]);
            }
            lemma_insert_new(d, k, v);
            let rd = tab_insert(d, k, v);
            assert(r =~= seq![s[0]] + rd);
            assert forall|e: (Seq<char>, Toml)| #[trigger] r.contains(e) <==> (s.contains(e) || e == (k, v)) by {
                if r.contains(e) {
                    let i = choose|i: int| 0 <= i < r.len() && r[i] == e;
                    if i > 0 {
                        assert(rd[i - 1] == e);
                        assert(rd.contains(e));
                        if d.contains(e) {
                            let m = choose|m: int| 0 <= m < d.len() && d[m] == e;
                            assert(s[m + 1] == e);
                        }
                    } else {
                        assert(s[0] == e);
                    }
                }
                if s.contains(e) {
                    let i = choose|i: int| 0 <= i < s.len() && s[i] == e;
                    if i > 0 {
                        assert(d[i - 1] == e);
                        assert(d.contains(e));
                        assert(rd.contains(e));
                        let m = choose|m: int| 0 <= m < rd.len() && rd[m] == e;
                        assert(r[m + 1] == e);
                    } else {
                        assert(r[0] == e);
                    }
                }
                if e == (k, v) {
                    assert(rd.contains(e));
                    let m = choose|m: int| 0 <= m < rd.len() && rd[m] == e;
                    assert(r[m + 1] == e);
                }
            }
        }
    }
}

/// Two tables with strictly increasing keys and the same entries are the same.
proof fn lemma_sorted_same(x: Entries, y: Entries)
    requires
        sorted_keys(x),
        sorted_keys(y),
        forall|e: (Seq<char>, Toml)| #[trigger] x.contains(e) <==> y.contains(e),
    ensures
        x == y,
    decreases x.len(),
{
    if x.len() == 0 {
        if y.len() > 0 {
            assert(y.contains(y[0]));
            assert(x.contains(y[0]));
        }
        assert(x =~= y);
    } else {
        assert(x.contains(x[0]));
        assert(y.contains(x[0]));
        let j = choose|j: int| 0 <= j < y.len() && y[j] == x[0];
        assert(y.contains(y[0]));
        assert(x.contains(y[0]));
        let i = choose|i: int| 0 <= i < x.len() && x[i] == y[0];
        lemma_lex_irrefl(x[0].0);
        lemma_lex_total(x[0].0, y[0].0);
        if j > 0 {
            assert(lex_lt(y[0].0, y[j].0));
            if i > 0 {
                assert(lex_lt(x[0].0, x[i].0));
            }
        } else if i > 0 {
            assert(lex_lt(x[0].0, x[i].0));
        }
        assert(x[0] == y[0]);
        let xd = x.drop_first();
        let yd = y.drop_first();
        assert forall|e: (Seq<char>, Toml)| #[trigger] xd.contains(e) <==> yd.contains(e) by {
            if xd.contains(e) {
                let a = choose|a: int| 0 <= a < xd.len() && xd[a] == e;
                assert(x[a + 1] == e);
                assert(x.contains(e));
                assert(y.contains(e));
                let c = choose|c: int| 0 <= c < y.len() && y[c] == e;
                lemma_keys_distinct(x, 0, a + 1);
                if c == 0 {
                    assert(false);
                }
                assert(yd[c - 1] == e);
            }
            if yd.contains(e) {
                let a = choose|a: int| 0 <= a < yd.len() && yd[a] == e;
                assert(y[a + 1] == e);
                assert(y.contains(e));
                assert(x.contains(e));
                let c = choose|c: int| 0 <= c < x.len() && x[c] == e;
                lemma_keys_distinct(y, 0, a + 1);
                if c == 0 {
                    assert(false);
                }
                assert(xd[c - 1] == e);
            }
        }
        assert forall|a: int, c: int| 0 <= a < c < xd.len() implies lex_lt(#[trigger] xd[a].0, #[trigger] xd[c].0) by {
            assert(xd[a] == x[a + 1] && xd[c] == x[c + 1]);
        }
        assert forall|a: int, c: int| 0 <= a < c < yd.len() implies lex_lt(#[trigger] yd[a].0, #[trigger] yd[c].0) by {
            assert(yd[a] == y[a + 1] && yd[c] == y[c + 1]);
        }
        lemma_sorted_same(xd, yd);
        assert(x =~= y) by {
            assert forall|a: int| 0 <= a < x.len() implies x[a] == y[a] by {
                if a > 0 {
                    assert(x[a] == xd[a - 1] && y[a] == yd[a - 1]);
                }
            }
        }
    }
}

/// The lines of plain values, piece by piece.
proof fn lemma_sc_step(b: Seq<u8>, q: int, t: Entries, k: int, m: int)
    requires
        all_plain(t),
        0 <= k < m <= t.len(),
        text_at(b, q, scalars_text(t, m)),
    ensures
        text_at(b, q, scalars_text(t, k + 1)),
        scalars_text(t, k + 1) == scalars_text(t, k) + if t[k].1 is Arr {
            Seq::<char>::empty()
        } else {
            line_text(t[k])
        },
    decreases m - k,
{
    assert(plain_ok(t[m - 1].1));
    assert(plain_ok(t[k].1));
    let piece = if t[m - 1].1 is Arr { Seq::<char>::empty() } else { line_text(t[m - 1]) };
    assert(scalars_text(t, m) == scalars_text(t, m - 1) + piece);
    lemma_text_split(b, q, scalars_text(t, m - 1), piece);
    if k < m - 1 {
        lemma_sc_step(b, q, t, k, m - 1);
    }
}

/// The lines of arrays, piece by piece.
proof fn lemma_ar_step(b: Seq<u8>, q: int, t: Entries, k: int, m: int)
    requires
        all_plain(t),
        0 <= k < m <= t.len(),
        text_at(b, q, arrays_text(t, m)),
    ensures
        text_at(b, q, arrays_text(t, k + 1)),
        arrays_text(t, k + 1) == arrays_text(t, k) + if t[k].1 is Arr {
            line_text(t[k])
        } else {
            Seq::<char>::empty()
        },
    decreases m - k,
{
    assert(plain_ok(t[m - 1].1));
    assert(plain_ok(t[k].1));
    let piece = if t[m - 1].1 is Arr { line_text(t[m - 1]) } else { Seq::<char>::empty() };
    if t[m - 1].1 is Arr {
        let a = t[m - 1].1->Arr_0;
        if a.len() > 0 {
            assert(scalar_ok(a[0]));
        }
        assert(!table_array(a));
    }
    assert(arrays_text(t, m) == arrays_text(t, m - 1) + piece);
    lemma_text_split(b, q, arrays_text(t, m - 1), piece);
    if k < m - 1 {
        lemma_ar_step(b, q, t, k, m - 1);
    } else {
        if t[k].1 is Arr {
            let a = t[k].1->Arr_0;
            if a.len() > 0 {
                assert(scalar_ok(a[0]));
            }
            assert(!table_array(a));
        }
    }
}

/// Tables of plain values and arrays have no sections.
proof fn lemma_no_subtables(t: Entries, k: int)
    requires
        all_plain(t),
        0 <= k <= t.len(),
    ensures
        subtables_text(t, Seq::empty(), k) == Seq::<char>::empty(),
        table_arrays_text(t, Seq::empty(), k) == Seq::<char>::empty(),
    decreases k,
{
    if k > 0 {
        assert(plain_ok(t[k - 1].1));
        if t[k - 1].1 is Arr {
            let a = t[k - 1].1->Arr_0;
            if a.len() > 0 {
                assert(scalar_ok(a[0]));
            }
            assert(!table_array(a));
        }
        lemma_no_subtables(t, k - 1);
        assert(subtables_text(t, Seq::empty(), k) =~= Seq::<char>::empty());
        assert(table_arrays_text(t, Seq::empty(), k) =~= Seq::<char>::empty());
    }
}

/// Reading one more line of entry `k` onto a root read so far: the new root.
#[verifier::spinoff_prover]
#[verifier::rlimit(40)]
proof fn lemma_read_line(b: Seq<u8>, p: int, l: int, ls: int, st: DocState, t: Entries, k: int, k1: int, k2: int)
    requires
        all_plain(t),
        sorted_keys(t),
        0 <= k < t.len(),
        text_at(b, p, line_text(t[k])),
        sorted_keys(st.0),
        read_so_far(st.0, t, k1, k2),
        t[k].1 is Arr || k1 == k,
        !(t[k].1 is Arr) || k2 == k,
        st.3.len() == 0,
        !st.4,
    ensures
        exists|st2: DocState, c2: Cur| {
            &&& sorted_keys(st2.0)
            &&& read_so_far(st2.0, t, if t[k].1 is Arr { k1 } else { k + 1 }, if t[k].1 is Arr { k + 1 } else { k2 })
            &&& st2.3.len() == 0
            &&& !st2.4
            &&& c2.0 == p + encode_utf8(line_text(t[k])).len()
            &&& doc(b, (p, l, ls), st) == doc(b, c2, st2)
        },
{
    let kv = t[k];
    assert(plain_ok(kv.1));
    assert forall|j: int| 0 <= j < st.0.len() implies #[trigger] st.0[j].0 != kv.0 by {
        assert(st.0.contains(st.0[j]));
        let i = choose|i: int| 0 <= i < t.len() && #[trigger] t[i] == st.0[j] && ((i < k1 && !(t[i].1 is Arr)) || (i < k2
            && t[i].1 is Arr));
        lemma_keys_distinct(t, i, k);
    }
    lemma_key_pos(st.0, kv.0, st.0.len() as int);
    lemma_line_doc(b, p, l, ls, st, kv.0, kv.1);
    let (st2, c2) = choose|st2: DocState, c2: Cur| st2.0 == tab_insert(st.0, kv.0, kv.1) && st2.3 == st.3 && st2.4
        == st.4 && c2.0 == p + encode_utf8(line_text((kv.0, kv.1))).len() && doc(b, (p, l, ls), st) == doc(b, c2, st2);
    lemma_insert_new(st.0, kv.0, kv.1);
    lemma_tab_insert_sorted(st.0, kv.0, kv.1);
    lemma_read_add(st.0, st2.0, t, k, k1, k2);
}

/// A skipped entry changes nothing read so far.
proof fn lemma_read_skip(s: Entries, t: Entries, k1: int, k2: int, k: int)
    requires
        read_so_far(s, t, k1, k2),
        0 <= k < t.len(),
        !(t[k].1 is Arr) || k1 == k,
        t[k].1 is Arr || k2 == k,
    ensures
        read_so_far(s, t, if t[k].1 is Arr { k + 1 } else { k1 }, if t[k].1 is Arr { k2 } else { k + 1 }),
{
    let n1 = if t[k].1 is Arr { k + 1 } else { k1 };
    let n2 = if t[k].1 is Arr { k2 } else { k + 1 };
    assert forall|e: (Seq<char>, Toml)| #![trigger s.contains(e)] s.contains(e) <==> exists|i: int| 0 <= i < t.len() && #[trigger] t[i] == e
        && ((i < n1 && !(t[i].1 is Arr)) || (i < n2 && t[i].1 is Arr)) by {
        if exists|i: int| 0 <= i < t.len() && #[trigger] t[i] == e && ((i < n1 && !(t[i].1 is Arr)) || (i < n2
            && t[i].1 is Arr)) {
            let i = choose|i: int| 0 <= i < t.len() && #[trigger] t[i] == e && ((i < n1 && !(t[i].1 is Arr)) || (i < n2
                && t[i].1 is Arr));
            assert((i < k1 && !(t[i].1 is Arr)) || (i < k2 && t[i].1 is Arr));
            assert(s.contains(e));
        }
        if s.contains(e) {
            let i = choose|i: int| 0 <= i < t.len() && #[trigger] t[i] == e && ((i < k1 && !(t[i].1 is Arr)) || (i < k2
                && t[i].1 is Arr));
            assert((i < n1 && !(t[i].1 is Arr)) || (i < n2 && t[i].1 is Arr));
        }
    }
}

/// An entry `k` added to what was read.
proof fn lemma_read_add(s: Entries, s2: Entries, t: Entries, k: int, k1: int, k2: int)
    requires
        read_so_far(s, t, k1, k2),
        0 <= k < t.len(),
        t[k].1 is Arr || k1 == k,
        !(t[k].1 is Arr) || k2 == k,
        forall|e: (Seq<char>, Toml)| #[trigger] s2.contains(e) <==> (s.contains(e) || e == t[k]),
    ensures
        read_so_far(s2, t, if t[k].1 is Arr { k1 } else { k + 1 }, if t[k].1 is Arr { k + 1 } else { k2 }),
{
    let n1 = if t[k].1 is Arr { k1 } else { k + 1 };
    let n2 = if t[k].1 is Arr { k + 1 } else { k2 };
    assert forall|e: (Seq<char>, Toml)| #![trigger s2.contains(e)] s2.contains(e) <==> exists|i: int| 0 <= i < t.len() && #[trigger] t[i] == e
        && ((i < n1 && !(t[i].1 is Arr)) || (i < n2 && t[i].1 is Arr)) by {
        if s2.contains(e) {
            if e == t[k] {
                assert(t[k] == e);
            } else {
                assert(s.contains(e));
                let i = choose|i: int| 0 <= i < t.len() && #[trigger] t[i] == e && ((i < k1 && !(t[i].1 is Arr)) || (i < k2
                    && t[i].1 is Arr));
                assert((i < n1 && !(t[i].1 is Arr)) || (i < n2 && t[i].1 is Arr));
            }
        }
        if exists|i: int| 0 <= i < t.len() && #[trigger] t[i] == e && ((i < n1 && !(t[i].1 is Arr)) || (i < n2
            && t[i].1 is Arr)) {
            let i = choose|i: int| 0 <= i < t.len() && #[trigger] t[i] == e && ((i < n1 && !(t[i].1 is Arr)) || (i < n2
                && t[i].1 is Arr));
            if i != k {
                assert((i < k1 && !(t[i].1 is Arr)) || (i < k2 && t[i].1 is Arr));
                assert(s.contains(e));
            }
            assert(s2.contains(e));
        }
    }
}

/// The array lines from the `k`-th entry on, onto a root holding every plain entry
/// and the arrays before `k`: the whole table.
#[verifier::spinoff_prover]
#[verifier::rlimit(40)]
proof fn lemma_doc_arrays(b: Seq<u8>, t: Entries, k: int, l: int, ls: int, st: DocState)
    requires
        all_plain(t),
        sorted_keys(t),
        0 <= k <= t.len(),
        b == encode_utf8(scalars_text(t, t.len() as int) + arrays_text(t, t.len() as int)),
        sorted_keys(st.0),
        read_so_far(st.0, t, t.len() as int, k),
        st.3.len() == 0,
        !st.4,
    ensures
        doc(
            b,
            ((encode_utf8(scalars_text(t, t.len() as int)).len() + encode_utf8(arrays_text(t, k)).len()) as int, l, ls),
            st,
        ) == Ok::<Entries, TErr>(t),
    decreases t.len() - k,
{
    let n = t.len() as int;
    let sc = scalars_text(t, n);
    let ar = arrays_text(t, k);
    let p = (encode_utf8(sc).len() + encode_utf8(ar).len()) as int;
    assert(b.subrange(0, b.len() as int) =~= b);
    lemma_text_split(b, 0, sc, arrays_text(t, n));
    let q = encode_utf8(sc).len() as int;
    if k == n {
        lemma_doc_end(b, l, ls, st);
        assert forall|e: (Seq<char>, Toml)| #[trigger] st.0.contains(e) <==> t.contains(e) by {
            if t.contains(e) {
                let i = choose|i: int| 0 <= i < t.len() && t[i] == e;
                assert(t[i] == e);
            }
            if st.0.contains(e) {
                let i = choose|i: int| 0 <= i < t.len() && #[trigger] t[i] == e && ((i < n && !(t[i].1 is Arr)) || (i < k
                    && t[i].1 is Arr));
                assert(t[i] == e);
            }
        }
        lemma_sorted_same(st.0, t);
    } else {
        lemma_ar_step(b, q, t, k, n);
        let piece = if t[k].1 is Arr { line_text(t[k]) } else { Seq::<char>::empty() };
        lemma_text_split(b, q, ar, piece);
        if k + 1 < n {
            lemma_ar_step(b, q, t, k + 1, n);
        }
        if t[k].1 is Arr {
            lemma_read_line(b, p, l, ls, st, t, k, n, k);
            let (st2, c2) = choose|st2: DocState, c2: Cur| {
                &&& sorted_keys(st2.0)
                &&& read_so_far(st2.0, t, n, k + 1)
                &&& st2.3.len() == 0
                &&& !st2.4
                &&& c2.0 == p + encode_utf8(line_text(t[k])).len()
                &&& doc(b, (p, l, ls), st) == doc(b, c2, st2)
            };
            lemma_doc_arrays(b, t, k + 1, c2.1, c2.2, st2);
        } else {
            assert(ar + piece =~= ar);
            lemma_read_skip(st.0, t, n, k, k);
            lemma_doc_arrays(b, t, k + 1, l, ls, st);
        }
    }
}

/// The plain lines from the `k`-th entry on, then the array lines, onto a root
/// holding the plain entries before `k`: the whole table.
#[verifier::spinoff_prover]
#[verifier::rlimit(40)]
proof fn lemma_doc_plain(b: Seq<u8>, t: Entries, k: int, l: int, ls: int, st: DocState)
    requires
        all_plain(t),
        sorted_keys(t),
        0 <= k <= t.len(),
        b == encode_utf8(scalars_text(t, t.len() as int) + arrays_text(t, t.len() as int)),
        sorted_keys(st.0),
        read_so_far(st.0, t, k, 0),
        st.3.len() == 0,
        !st.4,
    ensures
        doc(b, (encode_utf8(scalars_text(t, k)).len() as int, l, ls), st) == Ok::<Entries, TErr>(t),
    decreases t.len() - k,
{
    let n = t.len() as int;
    let sc = scalars_text(t, k);
    let p = encode_utf8(sc).len() as int;
    assert(b.subrange(0, b.len() as int) =~= b);
    lemma_text_split(b, 0, scalars_text(t, n), arrays_text(t, n));
    if k == n {
        assert(arrays_text(t, 0) =~= Seq::<char>::empty());
        assert(encode_utf8(Seq::<char>::empty()) =~= Seq::<u8>::empty());
        lemma_doc_arrays(b, t, 0, l, ls, st);
    } else {
        lemma_sc_step(b, 0, t, k, n);
        let piece = if t[k].1 is Arr { Seq::<char>::empty() } else { line_text(t[k]) };
        lemma_text_split(b, 0, sc, piece);
        if k + 1 < n {
            lemma_sc_step(b, 0, t, k + 1, n);
        }
        if t[k].1 is Arr {
            assert(sc + piece =~= sc);
            lemma_read_skip(st.0, t, k, 0, k);
            lemma_doc_plain(b, t, k + 1, l, ls, st);
        } else {
            lemma_read_line(b, p, l, ls, st, t, k, k, 0);
            let (st2, c2) = choose|st2: DocState, c2: Cur| {
                &&& sorted_keys(st2.0)
                &&& read_so_far(st2.0, t, k + 1, 0)
                &&& st2.3.len() == 0
                &&& !st2.4
                &&& c2.0 == p + encode_utf8(line_text(t[k])).len()
                &&& doc(b, (p, l, ls), st) == doc(b, c2, st2)
            };
            lemma_doc_plain(b, t, k + 1, c2.1, c2.2, st2);
        }
    }
}

/// Reading the text of a table of plain values and arrays of plain values gives the
/// table back: for entries in strictly increasing key order, each a string, integer,
/// boolean, a float whose text the reader takes whole as that float, a date-time
/// whose text is one token that looks like a date or a time, or an array of such
/// values, `spec_from_str` of the UTF-8 bytes of `document_text` is the entries.
pub proof fn lemma_toml_flat_roundtrip(t: Entries)
    requires
        sorted_keys(t),
        all_plain(t),
    ensures
        spec_from_str(encode_utf8(document_text(Toml::Tab(t)))) == Ok::<Entries, TErr>(t),
{
    let n = t.len() as int;
    lemma_no_subtables(t, n);
    assert(document_text(Toml::Tab(t)) =~= scalars_text(t, n) + arrays_text(t, n));
    let b = encode_utf8(scalars_text(t, n) + arrays_text(t, n));
    assert(scalars_text(t, 0) =~= Seq::<char>::empty());
    assert(encode_utf8(Seq::<char>::empty()) =~= Seq::<u8>::empty());
    let st: DocState = (Seq::empty(), Seq::empty(), Seq::empty(), Seq::empty(), false);
    assert(read_so_far(st.0, t, 0, 0));
    lemma_doc_plain(b, t, 0, 1, 0, st);
}


/// Keys of ASCII letters, digits, `_` and `-` are bare keys: for every such non-empty
/// key `k` and every integer `n`, the writer writes the table that maps `k` to `n` as
/// the line `k = n` with `k` unquoted, and the reader reads that line as that table.
pub proof fn lemma_bare_key_line(k: Seq<char>, n: i64)
    requires
        k.len() > 0,
        forall|i: int|
            0 <= i < k.len() ==> ('a' <= #[trigger] k[i] <= 'z') || ('A' <= k[i] <= 'Z') || ('0' <= k[i] <= '9')
                || k[i] == '_' || k[i] == '-',
    ensures
        document_text(Toml::Tab(seq![(k, Toml::Int(n))])) == k + " = "@ + i64_text(n) + "\n"@,
        spec_from_str(encode_utf8(k + " = "@ + i64_text(n) + "\n"@)) == Ok::<Entries, TErr>(seq![(k, Toml::Int(n))]),
{
    let t = seq![(k, Toml::Int(n))];
    assert forall|i: int| 0 <= i < k.len() implies bare_char(#[trigger] k[i]) by {}
    assert(key_text(k) == k);
    reveal_strlit("\n");
    assert(value_text(t[0].1) == i64_text(n));
    assert(line_text(t[0]) =~= k + " = "@ + i64_text(n) + "\n"@);
    assert(scalars_text(t, 0) =~= Seq::<char>::empty());
    assert(scalars_text(t, 1) =~= line_text(t[0]));
    assert(arrays_text(t, 0) =~= Seq::<char>::empty());
    assert(arrays_text(t, 1) =~= Seq::<char>::empty());
    assert(table_arrays_text(t, Seq::empty(), 0) =~= Seq::<char>::empty());
    assert(table_arrays_text(t, Seq::empty(), 1) =~= Seq::<char>::empty());
    assert(subtables_text(t, Seq::empty(), 0) =~= Seq::<char>::empty());
    assert(subtables_text(t, Seq::empty(), 1) =~= Seq::<char>::empty());
    assert(document_text(Toml::Tab(t)) =~= k + " = "@ + i64_text(n) + "\n"@);
    assert(all_plain(t));
    assert(sorted_keys(t));
    lemma_toml_flat_roundtrip(t);
}


/// Whether `c` is an ASCII letter or digit, `_` or `-`.
pub open spec fn bare_key_char(c: char) -> bool {
    ('a' <= c <= 'z') || ('A' <= c <= 'Z') || ('0' <= c <= '9') || c == '_' || c == '-'
}

/// The writer leaves a key bare exactly when it is not empty and all its characters
/// are ASCII letters, digits, `_` or `-`; any other key it writes quoted.
pub proof fn lemma_key_text_exact(k: Seq<char>)
    ensures
        (k.len() > 0 && forall|i: int| 0 <= i < k.len() ==> bare_key_char(#[trigger] k[i])) ==> key_text(k) == k,
        !(k.len() > 0 && forall|i: int| 0 <= i < k.len() ==> bare_key_char(#[trigger] k[i])) ==> key_text(k) == quoted(k),
{
    if k.len() > 0 && forall|i: int| 0 <= i < k.len() ==> bare_key_char(#[trigger] k[i]) {
        assert forall|i: int| 0 <= i < k.len() implies bare_char(#[trigger] k[i]) by {
            assert(bare_key_char(k[i]));
        }
    } else if k.len() > 0 {
        let i = choose|i: int| 0 <= i < k.len() && !bare_key_char(#[trigger] k[i]);
        assert(!bare_char(k[i]));
    }
}

} // verus!
