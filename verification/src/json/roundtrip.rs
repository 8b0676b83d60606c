use vstd::prelude::*;
use vstd::utf8::{encode_utf8, encode_scalar};
use crate::encoding::{lemma_encode_append, lemma_encode_text, lemma_encode_one, lemma_scalar_bytes, lemma_encode_ascii_seq};
use crate::json::{
    escape_json, escape_json_char, json_string, hex_lower, ends_run, run_end, spec_escape, spec_string_tail,
    spec_parse_string, spec_unicode, spec_hex4, spec_hex_digits, hex_val, simple_escape, Json, i64_text,
    spec_number_end, spec_number_json, spec_exponent, byte_at, digit_at, digits_after, is_digit_byte,
    byte_digits_value, byte_chars, compact_text, compact_items, compact_members, obj_insert, lemma_lex_irrefl,
    lemma_lex_total, spec_value, spec_array, spec_elems, spec_object, spec_members, spec_from_str, ws_after,
    is_json_ws, null_bytes, true_bytes, false_bytes, spec_literal, lit_at, pretty_text, pretty_items,
    pretty_members, indent_text,
};
use crate::toml::roundtrip::{text_at, lemma_text_split, lemma_text_ascii};
use crate::text::{utf8_text, dec_digits, digit_char, lex_lt};

verus! {

/// Whether a character is written as itself inside a JSON string.
pub open spec fn is_plain(c: char) -> bool {
    c != '"' && c != '\\' && (c as u32) >= 0x20
}

/// The length of the run of plain characters that starts `s`.
pub open spec fn plain_len(s: Seq<char>) -> nat
    decreases s.len(),
{
    if s.len() == 0 || !is_plain(s[0]) {
        0
    } else {
        1 + plain_len(s.drop_first())
    }
}

/// Escaping distributes over concatenation.
proof fn lemma_escape_json_append(a: Seq<char>, b: Seq<char>)
    ensures
        escape_json(a + b) == escape_json(a) + escape_json(b),
    decreases b.len(),
{
    if b.len() == 0 {
        assert(a + b =~= a);
        assert(escape_json(a) + escape_json(b) =~= escape_json(a));
    } else {
        lemma_escape_json_append(a, b.drop_last());
        assert((a + b).drop_last() =~= a + b.drop_last());
        assert((a + b).last() == b.last());
        assert(escape_json(a) + escape_json(b) =~= escape_json(a) + escape_json(b.drop_last()) + escape_json_char(b.last()));
    }
}

/// Plain characters are written as themselves.
proof fn lemma_escape_plain(u: Seq<char>)
    requires
        forall|i: int| 0 <= i < u.len() ==> is_plain(#[trigger] u[i]),
    ensures
        escape_json(u) == u,
    decreases u.len(),
{
    if u.len() > 0 {
        lemma_escape_plain(u.drop_last());
        let c = u.last();
        assert(is_plain(u[u.len() - 1]));
        assert(escape_json_char(c) =~= seq![c]);
        assert(u.drop_last().push(c) =~= u);
    }
}

/// The bytes of plain characters end no run.
proof fn lemma_plain_bytes(u: Seq<char>)
    requires
        forall|i: int| 0 <= i < u.len() ==> is_plain(#[trigger] u[i]),
    ensures
        forall|i: int| 0 <= i < encode_utf8(u).len() ==> !ends_run(#[trigger] encode_utf8(u)[i]),
    decreases u.len(),
{
    if u.len() > 0 {
        let c = u[0];
        assert(is_plain(u[0]));
        lemma_plain_bytes(u.drop_first());
        lemma_scalar_bytes(c);
        assert(u =~= seq![c] + u.drop_first());
        lemma_encode_append(seq![c], u.drop_first());
        lemma_encode_one(c);
        let h = encode_scalar(c as u32);
        assert(encode_utf8(u) == h + encode_utf8(u.drop_first()));
        lemma_char_code_ne(c, '"');
        lemma_char_code_ne(c, '\\');
        assert forall|i: int| 0 <= i < encode_utf8(u).len() implies !ends_run(#[trigger] encode_utf8(u)[i]) by {
            if i < h.len() {
                assert(encode_utf8(u)[i] == h[i]);
                if (c as u32) < 0x80 {
                    assert(h =~= seq![(c as u32) as u8]);
                    assert(h[i] == (c as u32) as u8);
                } else {
                    assert(h[i] >= 0x80);
                }
            } else {
                assert(encode_utf8(u)[i] == encode_utf8(u.drop_first())[i - h.len()]);
            }
        }
    }
}

/// Distinct characters have distinct codes.
proof fn lemma_char_code_ne(c: char, d: char)
    requires
        c != d,
    ensures
        (c as u32) != (d as u32),
{
    if (c as u32) == (d as u32) {
        vstd::utf8::char_u32_cast(c, c as u32);
        vstd::utf8::char_u32_cast(d, d as u32);
    }
}

/// The plain run starts `s`: its characters are plain, and the next is not.
proof fn lemma_plain_len(s: Seq<char>)
    ensures
        plain_len(s) <= s.len(),
        forall|i: int| 0 <= i < plain_len(s) ==> is_plain(#[trigger] s[i]),
        plain_len(s) < s.len() ==> !is_plain(s[plain_len(s) as int]),
    decreases s.len(),
{
    if s.len() > 0 && is_plain(s[0]) {
        lemma_plain_len(s.drop_first());
        assert forall|i: int| 0 <= i < plain_len(s) implies is_plain(#[trigger] s[i]) by {
            if i > 0 {
                assert(s[i] == s.drop_first()[i - 1]);
            }
        }
    }
}

/// A run of bytes that end no run, up to a byte that does.
proof fn lemma_run_walk(b: Seq<u8>, q: int, e: int)
    requires
        0 <= q <= e < b.len(),
        forall|j: int| q <= j < e ==> !ends_run(#[trigger] b[j]),
        ends_run(b[e]),
    ensures
        run_end(b, q) == e,
    decreases e - q,
{
    if q < e {
        lemma_run_walk(b, q + 1, e);
    }
}

/// The written form of a character that is not plain: ASCII, starting with `\`.
proof fn lemma_escape_char_bytes(c: char)
    requires
        !is_plain(c),
    ensures
        encode_utf8(escape_json_char(c)).len() == escape_json_char(c).len(),
        forall|i: int| 0 <= i < escape_json_char(c).len() ==> #[trigger] encode_utf8(escape_json_char(c))[i] == (escape_json_char(c)[i] as u32) as u8,
        escape_json_char(c)[0] == '\\',
        escape_json_char(c).len() >= 2,
{
    let e = escape_json_char(c);
    assert forall|i: int| 0 <= i < e.len() implies (#[trigger] e[i] as u32) < 0x80 by {
        if (c as u32) < 0x20 && c != '\n' && c != '\r' && c != '\t' && c != '\u{8}' && c != '\u{c}' {
            let v = (c as u32) as int;
            assert((hex_lower(v / 16) as u32) < 0x80);
            assert((hex_lower(v % 16) as u32) < 0x80);
        }
    }
    lemma_encode_ascii_seq(e);
}

/// The byte of a hex digit written by `hex_lower` reads back as the digit.
proof fn lemma_hex_lower(d: int)
    requires
        0 <= d < 16,
    ensures
        hex_val(((hex_lower(d) as u32) as u8)) == Some(d as u32),
        (hex_lower(d) as u32) < 0x80,
{
}

/// Reading the escape of a character that is not plain gives the character back.
proof fn lemma_escape_step(b: Seq<u8>, p: int, out: Seq<char>, c: char)
    requires
        !is_plain(c),
        0 <= p,
        p + encode_utf8(escape_json_char(c)).len() <= b.len(),
        b.subrange(p, p + encode_utf8(escape_json_char(c)).len()) == encode_utf8(escape_json_char(c)),
    ensures
        spec_escape(b, p + 1, out) == Ok::<(Seq<char>, int), (Seq<char>, int)>((out.push(c), p + encode_utf8(escape_json_char(c)).len())),
{
    let e = escape_json_char(c);
    lemma_escape_char_bytes(c);
    let n = e.len() as int;
    assert forall|i: int| 0 <= i < n implies #[trigger] b[p + i] == (e[i] as u32) as u8 by {
        assert(b.subrange(p, p + n)[i] == encode_utf8(e)[i]);
    }
    assert(b[p + 1] == (e[1] as u32) as u8);
    if c == '"' || c == '\\' || c == '\n' || c == '\r' || c == '\t' || c == '\u{8}' || c == '\u{c}' {
        assert(n == 2);
    } else {
        let v = (c as u32) as int;
        assert(v < 0x20) by {
            lemma_char_code_ne(c, '"');
            lemma_char_code_ne(c, '\\');
        }
        assert(n == 6);
        lemma_hex_lower(v / 16);
        lemma_hex_lower(v % 16);
        assert(b[p + 2] == 48u8 && b[p + 3] == 48u8);
        let h1 = b[p + 4];
        let h2 = b[p + 5];
        assert(hex_val(h1) == Some((v / 16) as u32));
        assert(hex_val(h2) == Some((v % 16) as u32));
        assert(hex_val(48u8) == Some(0u32));
        let v1 = (0u32 * 16 + 0) as u32;
        let v2 = (v1 * 16 + 0) as u32;
        let v3 = (v2 * 16 + (v / 16) as u32) as u32;
        let v4 = (v3 * 16 + (v % 16) as u32) as u32;
        assert(v4 == v);
        assert(spec_hex_digits(b, p + 6, v4, 0) == Ok::<(u32, int), (Seq<char>, int)>((v4, p + 6)));
        assert(spec_hex_digits(b, p + 5, v3, 1) == spec_hex_digits(b, p + 6, v4, 0));
        assert(spec_hex_digits(b, p + 4, v2, 2) == spec_hex_digits(b, p + 5, v3, 1));
        assert(spec_hex_digits(b, p + 3, v1, 3) == spec_hex_digits(b, p + 4, v2, 2));
        assert(spec_hex_digits(b, p + 2, 0, 4) == spec_hex_digits(b, p + 3, v1, 3));
        assert(spec_hex4(b, p + 2) == Ok::<(u32, int), (Seq<char>, int)>((v as u32, p + 6)));
        assert(spec_unicode(b, p + 2) == Ok::<(u32, int), (Seq<char>, int)>((v as u32, p + 6)));
        vstd::utf8::char_u32_cast(c, c as u32);
    }
}

/// The plain run at `q` of the written text of `s`: where it ends, what it reads as,
/// and what follows it.
proof fn lemma_run_facts(b: Seq<u8>, q: int, s: Seq<char>)
    requires
        0 <= q,
        q + encode_utf8(escape_json(s)).len() < b.len(),
        b.subrange(q, q + encode_utf8(escape_json(s)).len()) == encode_utf8(escape_json(s)),
        b[q + encode_utf8(escape_json(s)).len()] == 34,
    ensures
        ({
            let k = plain_len(s) as int;
            let u = s.take(k);
            let r = s.skip(k);
            let n = encode_utf8(u).len() as int;
            &&& run_end(b, q) == q + n
            &&& utf8_text(b.subrange(q, q + n)) == Some(u)
            &&& s == u + r
            &&& r.len() == 0 ==> n == encode_utf8(escape_json(s)).len()
            &&& r.len() > 0 ==> {
                &&& b[q + n] == 92
                &&& !is_plain(r[0])
                &&& q + n + encode_utf8(escape_json(r)).len() == q + encode_utf8(escape_json(s)).len()
                &&& b.subrange(q + n, q + n + encode_utf8(escape_json(r)).len()) == encode_utf8(escape_json(r))
            }
        }),
{
    lemma_plain_len(s);
    let k = plain_len(s) as int;
    let u = s.take(k);
    let r = s.skip(k);
    assert(s =~= u + r);
    assert forall|i: int| 0 <= i < u.len() implies is_plain(#[trigger] u[i]) by {
        assert(u[i] == s[i]);
    }
    lemma_escape_json_append(u, r);
    lemma_escape_plain(u);
    lemma_encode_append(u, escape_json(r));
    lemma_plain_bytes(u);
    lemma_encode_text(u);
    let big = encode_utf8(escape_json(s));
    let uu = encode_utf8(u);
    let rr = encode_utf8(escape_json(r));
    let n = uu.len() as int;
    assert(big =~= uu + rr);
    assert(b.subrange(q, q + n) =~= uu) by {
        assert forall|j: int| 0 <= j < n implies b.subrange(q, q + n)[j] == uu[j] by {
            assert(b.subrange(q, q + big.len())[j] == big[j]);
        }
    }
    assert forall|j: int| q <= j < q + n implies !ends_run(#[trigger] b[j]) by {
        assert(b.subrange(q, q + n)[j - q] == uu[j - q]);
    }
    if r.len() == 0 {
        assert(rr.len() == 0) by {
            assert(escape_json(r) =~= Seq::<char>::empty());
        }
        lemma_run_walk(b, q, q + n);
    } else {
        let c = r[0];
        let r1 = r.drop_first();
        assert(r =~= seq![c] + r1);
        lemma_escape_json_append(seq![c], r1);
        assert(seq![c].drop_last() =~= Seq::<char>::empty());
        assert(seq![c].last() == c);
        assert(escape_json(seq![c].drop_last()) =~= Seq::<char>::empty());
        assert(escape_json(seq![c]) =~= escape_json_char(c));
        lemma_encode_append(escape_json_char(c), escape_json(r1));
        lemma_escape_char_bytes(c);
        assert(rr[0] == 92u8);
        assert(b[q + n] == big[n]);
        assert(b.subrange(q + n, q + n + rr.len()) =~= rr) by {
            assert forall|j: int| 0 <= j < rr.len() implies b.subrange(q + n, q + n + rr.len())[j] == rr[j] by {
                assert(b.subrange(q, q + big.len())[n + j] == big[n + j]);
            }
        }
        lemma_run_walk(b, q, q + n);
    }
}

/// The rest of a written string from an escape at `p` reads back as the rest.
proof fn lemma_string_tail(b: Seq<u8>, p: int, out: Seq<char>, s: Seq<char>)
    requires
        s.len() > 0,
        !is_plain(s[0]),
        0 <= p,
        p + encode_utf8(escape_json(s)).len() < b.len(),
        b.subrange(p, p + encode_utf8(escape_json(s)).len()) == encode_utf8(escape_json(s)),
        b[p + encode_utf8(escape_json(s)).len()] == 34,
    ensures
        spec_string_tail(b, p, out) == Ok::<(Seq<char>, int), (Seq<char>, int)>((out + s, p + encode_utf8(escape_json(s)).len() + 1)),
    decreases s.len(),
{
    let c = s[0];
    let s1 = s.drop_first();
    assert(s =~= seq![c] + s1);
    lemma_escape_json_append(seq![c], s1);
    assert(seq![c].drop_last() =~= Seq::<char>::empty());
    assert(seq![c].last() == c);
    assert(escape_json(seq![c].drop_last()) =~= Seq::<char>::empty());
    assert(escape_json(seq![c]) =~= escape_json_char(c));
    lemma_encode_append(escape_json_char(c), escape_json(s1));
    let big = encode_utf8(escape_json(s));
    let ec = encode_utf8(escape_json_char(c));
    let e1 = encode_utf8(escape_json(s1));
    assert(big =~= ec + e1);
    assert(b.subrange(p, p + ec.len()) =~= ec) by {
        assert forall|j: int| 0 <= j < ec.len() implies b.subrange(p, p + ec.len())[j] == ec[j] by {
            assert(b.subrange(p, p + big.len())[j] == big[j]);
        }
    }
    lemma_escape_step(b, p, out, c);
    let q = p + ec.len();
    assert(b.subrange(q, q + e1.len()) =~= e1) by {
        assert forall|j: int| 0 <= j < e1.len() implies b.subrange(q, q + e1.len())[j] == e1[j] by {
            assert(b.subrange(p, p + big.len())[ec.len() + j] == big[ec.len() + j]);
        }
    }
    lemma_run_facts(b, q, s1);
    let k = plain_len(s1) as int;
    let u = s1.take(k);
    let r = s1.skip(k);
    let n = encode_utf8(u).len() as int;
    let o1 = out.push(c);
    if r.len() == 0 {
        assert(o1 + u =~= out + s);
    } else {
        lemma_string_tail(b, q + n, o1 + u, r);
        assert(o1 + u + r =~= out + s);
    }
}

/// A written string reads back as the string.
pub proof fn lemma_parse_json_string(b: Seq<u8>, p: int, s: Seq<char>)
    requires
        0 <= p,
        p + encode_utf8(json_string(s)).len() <= b.len(),
        b.subrange(p, p + encode_utf8(json_string(s)).len()) == encode_utf8(json_string(s)),
    ensures
        spec_parse_string(b, p) == Ok::<(Seq<char>, int), (Seq<char>, int)>((s, p + encode_utf8(json_string(s)).len())),
{
    let e = encode_utf8(escape_json(s));
    lemma_encode_append(seq!['"'] + escape_json(s), seq!['"']);
    lemma_encode_append(seq!['"'], escape_json(s));
    lemma_encode_one('"');
    lemma_scalar_bytes('"');
    let j = encode_utf8(json_string(s));
    assert(j =~= seq![34u8] + e + seq![34u8]);
    assert(b.subrange(p + 1, p + 1 + e.len()) =~= e) by {
        assert forall|x: int| 0 <= x < e.len() implies b.subrange(p + 1, p + 1 + e.len())[x] == e[x] by {
            assert(b.subrange(p, p + j.len())[x + 1] == j[x + 1]);
        }
    }
    assert(b[p + 1 + e.len()] == j[j.len() - 1]);
    lemma_run_facts(b, p + 1, s);
    let k = plain_len(s) as int;
    let u = s.take(k);
    let r = s.skip(k);
    let n = encode_utf8(u).len() as int;
    if r.len() == 0 {
        assert(u =~= s);
    } else {
        lemma_string_tail(b, p + 1 + n, u, r);
        assert(u + r =~= s);
    }
}

/// The written digits of `n`: ASCII digit bytes, without a leading zero for `n >= 1`,
/// that read back as `n`.
proof fn lemma_dec_bytes(n: nat)
    ensures
        encode_utf8(dec_digits(n)).len() == dec_digits(n).len(),
        dec_digits(n).len() >= 1,
        forall|i: int| 0 <= i < dec_digits(n).len() ==> is_digit_byte(#[trigger] encode_utf8(dec_digits(n))[i]),
        n >= 1 ==> encode_utf8(dec_digits(n))[0] != 48,
        byte_digits_value(encode_utf8(dec_digits(n))) == n,
    decreases n,
{
    let d = dec_digits(n);
    assert forall|i: int| 0 <= i < d.len() implies (#[trigger] d[i] as u32) < 0x80 && 48 <= (d[i] as u32) <= 57 by {
        lemma_dec_chars(n, i);
    }
    lemma_encode_ascii_seq(d);
    if n >= 10 {
        lemma_dec_bytes(n / 10);
        let h = dec_digits(n / 10);
        let c = digit_char(n % 10);
        assert(d == h.push(c));
        assert(h.push(c) =~= h + seq![c]);
        lemma_encode_append(h, seq![c]);
        lemma_encode_one(c);
        lemma_scalar_bytes(c);
        assert(c as u32 == n % 10 + 48);
        let bd = encode_utf8(d);
        assert(bd =~= encode_utf8(h) + seq![(c as u32) as u8]);
        assert(bd.drop_last() =~= encode_utf8(h));
        assert(bd[0] == encode_utf8(h)[0]);
        assert(bd.last() == (n % 10 + 48) as u8);
        assert(byte_digits_value(bd) == byte_digits_value(bd.drop_last()) * 10 + (bd.last() - 48) as nat);
        assert((n / 10) * 10 + n % 10 == n);
    } else {
        let c = digit_char(n);
        assert(d =~= seq![c]);
        assert(c as u32 == n + 48);
        let bd = encode_utf8(d);
        assert(bd.len() == 1 && bd[0] == (n + 48) as u8);
        assert(bd.drop_last() =~= Seq::<u8>::empty());
        assert(byte_digits_value(bd) == byte_digits_value(bd.drop_last()) * 10 + (bd.last() - 48) as nat);
        assert(byte_digits_value(bd.drop_last()) == 0);
    }
}

proof fn lemma_dec_chars(n: nat, i: int)
    requires
        0 <= i < dec_digits(n).len(),
    ensures
        48 <= (dec_digits(n)[i] as u32) <= 57,
    decreases n,
{
    if n >= 10 {
        let h = dec_digits(n / 10);
        if i < h.len() {
            lemma_dec_chars(n / 10, i);
        } else {
            assert(dec_digits(n)[i] == digit_char(n % 10));
        }
    }
}

/// A run of digit bytes from `x` to `e`, where a non-digit or the end follows.
proof fn lemma_digits_walk(b: Seq<u8>, x: int, e: int)
    requires
        0 <= x <= e <= b.len(),
        forall|k: int| x <= k < e ==> is_digit_byte(#[trigger] b[k]),
        e == b.len() || !is_digit_byte(b[e]),
    ensures
        digits_after(b, x) == e,
    decreases e - x,
{
    if x < e {
        lemma_digits_walk(b, x + 1, e);
    }
}

/// Whether `c` may follow a value: `,`, `]`, `}` or white space.
pub open spec fn closes_value(c: u8) -> bool {
    c == 44 || c == 93 || c == 125 || is_json_ws(c)
}

/// A written non-negative integer reads back.
proof fn lemma_number_pos(b: Seq<u8>, p: int, u: u64)
    requires
        0 <= p,
        p + encode_utf8(dec_digits(u as nat)).len() <= b.len(),
        b.subrange(p, p + encode_utf8(dec_digits(u as nat)).len()) == encode_utf8(dec_digits(u as nat)),
        p + encode_utf8(dec_digits(u as nat)).len() == b.len() || closes_value(b[p + encode_utf8(dec_digits(u as nat)).len()]),
    ensures
        spec_number_json(b, p) == Ok::<(Json, int), (Seq<char>, int)>((Json::PosInt(u), p + encode_utf8(dec_digits(u as nat)).len())),
{
    let t = encode_utf8(dec_digits(u as nat));
    let n = t.len() as int;
    lemma_dec_bytes(u as nat);
    assert forall|k: int| p <= k < p + n implies is_digit_byte(#[trigger] b[k]) by {
        assert(b.subrange(p, p + n)[k - p] == t[k - p]);
    }
    assert(b[p] == t[0]) by {
        assert(b.subrange(p, p + n)[0] == t[0]);
    }
    lemma_digits_walk(b, p, p + n);
    if u >= 1 {
        assert(b[p] != 48);
    } else {
        assert(n == 1) by {
            assert(dec_digits(0) =~= seq![digit_char(0)]);
        }
    }
    assert(b.subrange(p, p + n) == t);
    assert(spec_number_end(b, p) == Ok::<(int, bool), (Seq<char>, int)>((p + n, false)));
}

/// A written negative integer reads back.
proof fn lemma_number_neg(b: Seq<u8>, p: int, i: i64)
    requires
        i < 0,
        0 <= p,
        p + encode_utf8(i64_text(i)).len() <= b.len(),
        b.subrange(p, p + encode_utf8(i64_text(i)).len()) == encode_utf8(i64_text(i)),
        p + encode_utf8(i64_text(i)).len() == b.len() || closes_value(b[p + encode_utf8(i64_text(i)).len()]),
    ensures
        spec_number_json(b, p) == Ok::<(Json, int), (Seq<char>, int)>((Json::NegInt(i), p + encode_utf8(i64_text(i)).len())),
{
    let m = (-i) as nat;
    let d = encode_utf8(dec_digits(m));
    lemma_dec_bytes(m);
    lemma_encode_append(seq!['-'], dec_digits(m));
    lemma_encode_one('-');
    lemma_scalar_bytes('-');
    let t = encode_utf8(i64_text(i));
    assert(t =~= seq![45u8] + d);
    let n = t.len() as int;
    assert forall|k: int| p + 1 <= k < p + n implies #[trigger] is_digit_byte(b[k]) by {
        assert(b.subrange(p, p + n)[k - p] == t[k - p]);
    }
    assert(b[p] == 45) by {
        assert(b.subrange(p, p + n)[0] == t[0]);
    }
    assert(b[p + 1] == d[0]) by {
        assert(b.subrange(p, p + n)[1] == t[1]);
    }
    lemma_digits_walk(b, p + 1, p + n);
    if m >= 10 {
        assert(b[p + 1] != 48);
    } else {
        assert(n == 2) by {
            assert(dec_digits(m) =~= seq![digit_char(m)]);
        }
    }
    assert(b.subrange(p + 1, p + n) =~= d) by {
        assert forall|k: int| 0 <= k < d.len() implies b.subrange(p + 1, p + n)[k] == d[k] by {
            assert(b.subrange(p, p + n)[k + 1] == t[k + 1]);
        }
    }
    assert(spec_number_end(b, p) == Ok::<(int, bool), (Seq<char>, int)>((p + n, false)));
    assert(-m == i);
}

/// Whether `t` is the text of a number with a fraction or exponent, as the reader
/// takes it: ASCII, read whole by the number grammar, and read as a fraction or
/// exponent.
pub open spec fn float_ok(t: Seq<char>) -> bool {
    &&& forall|i: int| 0 <= i < t.len() ==> (#[trigger] t[i] as u32) < 0x80
    &&& spec_number_end(encode_utf8(t), 0) == Ok::<(int, bool), (Seq<char>, int)>((t.len() as int, true))
}

proof fn lemma_digits_after_bound(b: Seq<u8>, x: int)
    requires
        0 <= x <= b.len(),
    ensures
        x <= digits_after(b, x) <= b.len(),
    decreases b.len() - x,
{
    if x < b.len() && is_digit_byte(b[x]) {
        lemma_digits_after_bound(b, x + 1);
    }
}

/// Where `b` holds `t` at `p`, followed by a byte that closes a value or the end,
/// digit runs inside agree.
proof fn lemma_digits_after_shift(b: Seq<u8>, t: Seq<u8>, p: int, x: int)
    requires
        0 <= p <= x <= p + t.len() <= b.len(),
        b.subrange(p, p + t.len()) == t,
        p + t.len() == b.len() || closes_value(b[p + t.len()]),
    ensures
        digits_after(b, x) == p + digits_after(t, x - p),
    decreases p + t.len() - x,
{
    if x < p + t.len() {
        assert(b[x] == t[x - p]) by {
            assert(b.subrange(p, p + t.len())[x - p] == t[x - p]);
        }
        if is_digit_byte(b[x]) {
            lemma_digits_after_shift(b, t, p, x + 1);
        }
    }
}

/// A written number with a fraction or exponent reads back as its text.
proof fn lemma_number_float(b: Seq<u8>, p: int, t: Seq<char>)
    requires
        float_ok(t),
        0 <= p,
        p + t.len() <= b.len(),
        b.subrange(p, p + t.len()) == encode_utf8(t),
        p + t.len() == b.len() || closes_value(b[p + t.len()]),
    ensures
        spec_number_json(b, p) == Ok::<(Json, int), (Seq<char>, int)>((Json::Float(t), p + t.len())),
{
    let bt = encode_utf8(t);
    let n = t.len() as int;
    lemma_encode_ascii_seq(t);
    assert(bt.len() == n);
    assert forall|x: int, c: u8| p <= x <= p + n && !closes_value(c) implies #[trigger] byte_at(b, x, c) == byte_at(bt, x - p, c) by {
        if x < p + n {
            assert(b.subrange(p, p + n)[x - p] == bt[x - p]);
        }
    }
    assert forall|x: int| p <= x <= p + n implies #[trigger] digit_at(b, x) == digit_at(bt, x - p) by {
        if x < p + n {
            assert(b.subrange(p, p + n)[x - p] == bt[x - p]);
        }
    }
    assert forall|x: int| p <= x <= p + n implies #[trigger] digits_after(b, x) == p + digits_after(bt, x - p) by {
        lemma_digits_after_shift(b, bt, p, x);
    }
    assert forall|y: int| 0 <= y <= n implies #[trigger] digits_after(bt, y) <= n by {
        lemma_digits_after_bound(bt, y);
    }
    // follow the grammar through the same steps on both
    let q1 = if byte_at(bt, 0, 45) { 1int } else { 0int };
    assert(byte_at(b, p, 45) == byte_at(bt, 0, 45));
    assert(digit_at(bt, q1));
    let q2 = if bt[q1] == 48 { q1 + 1 } else { digits_after(bt, q1) };
    assert(b[p + q1] == bt[q1]) by {
        assert(b.subrange(p, p + n)[q1] == bt[q1]);
    }
    assert(q2 <= n);
    assert(byte_at(b, p + q2, 46) == byte_at(bt, q2, 46));
    if byte_at(bt, q2, 46) {
        assert(digit_at(b, p + q2 + 1) == digit_at(bt, q2 + 1));
        let q3 = digits_after(bt, q2 + 1);
        assert(digits_after(b, p + q2 + 1) == p + q3);
        assert(byte_at(b, p + q3, 101) == byte_at(bt, q3, 101));
        assert(byte_at(b, p + q3, 69) == byte_at(bt, q3, 69));
        if byte_at(bt, q3, 101) || byte_at(bt, q3, 69) {
            assert(byte_at(b, p + q3 + 1, 43) == byte_at(bt, q3 + 1, 43));
            assert(byte_at(b, p + q3 + 1, 45) == byte_at(bt, q3 + 1, 45));
            let q5 = if byte_at(bt, q3 + 1, 43) || byte_at(bt, q3 + 1, 45) { q3 + 2 } else { q3 + 1 };
            assert(digit_at(b, p + q5) == digit_at(bt, q5));
            assert(digits_after(b, p + q5) == p + digits_after(bt, q5));
        }
    } else {
        assert(byte_at(b, p + q2, 101) == byte_at(bt, q2, 101));
        assert(byte_at(b, p + q2, 69) == byte_at(bt, q2, 69));
        if byte_at(bt, q2, 101) || byte_at(bt, q2, 69) {
            assert(byte_at(b, p + q2 + 1, 43) == byte_at(bt, q2 + 1, 43));
            assert(byte_at(b, p + q2 + 1, 45) == byte_at(bt, q2 + 1, 45));
            let q5 = if byte_at(bt, q2 + 1, 43) || byte_at(bt, q2 + 1, 45) { q2 + 2 } else { q2 + 1 };
            assert(digit_at(b, p + q5) == digit_at(bt, q5));
            assert(digits_after(b, p + q5) == p + digits_after(bt, q5));
        }
    }
    assert(spec_number_end(b, p) == Ok::<(int, bool), (Seq<char>, int)>((p + n, true)));
    assert(byte_chars(b.subrange(p, p + n)) =~= t) by {
        assert forall|i: int| 0 <= i < n implies byte_chars(b.subrange(p, p + n))[i] == t[i] by {
            vstd::utf8::char_u32_cast(t[i], t[i] as u32);
        }
    }
}

/// Whether a value is one that reading its compact text gives back: negative
/// integers below zero, number texts with a fraction or exponent that the reader
/// takes whole, and object members in strictly increasing key order, throughout.
pub open spec fn json_wf(j: Json) -> bool
    decreases j, 0int,
{
    match j {
        Json::NegInt(i) => i < 0,
        Json::Float(t) => float_ok(t),
        Json::Array(xs) => items_wf(xs, xs.len() as int),
        Json::Object(ms) => members_wf(ms, ms.len() as int) && keys_sorted(ms),
        _ => true,
    }
}

/// Whether the first `k` elements are well formed.
pub open spec fn items_wf(xs: Seq<Json>, k: int) -> bool
    decreases xs, k,
{
    if k <= 0 || k > xs.len() {
        true
    } else {
        items_wf(xs, k - 1) && json_wf(xs[k - 1])
    }
}

/// Whether the values of the first `k` members are well formed.
pub open spec fn members_wf(ms: Seq<(Seq<char>, Json)>, k: int) -> bool
    decreases ms, k,
{
    if k <= 0 || k > ms.len() {
        true
    } else {
        members_wf(ms, k - 1) && json_wf(ms[k - 1].1)
    }
}

/// Whether the keys strictly increase.
pub open spec fn keys_sorted(ms: Seq<(Seq<char>, Json)>) -> bool {
    forall|a: int, c: int| 0 <= a < c < ms.len() ==> lex_lt(#[trigger] ms[a].0, #[trigger] ms[c].0)
}

proof fn lemma_items_wf(xs: Seq<Json>, k: int)
    requires
        0 <= k <= xs.len(),
    ensures
        items_wf(xs, k) <==> forall|i: int| 0 <= i < k ==> json_wf(#[trigger] xs[i]),
    decreases k,
{
    if k > 0 {
        lemma_items_wf(xs, k - 1);
    }
}

proof fn lemma_members_wf(ms: Seq<(Seq<char>, Json)>, k: int)
    requires
        0 <= k <= ms.len(),
    ensures
        members_wf(ms, k) <==> forall|i: int| 0 <= i < k ==> json_wf(#[trigger] ms[i].1),
    decreases k,
{
    if k > 0 {
        lemma_members_wf(ms, k - 1);
    }
}

/// A member after keys that all come before its own is appended.
proof fn lemma_obj_insert_last(m: Seq<(Seq<char>, Json)>, k: Seq<char>, v: Json)
    requires
        forall|i: int| 0 <= i < m.len() ==> lex_lt(#[trigger] m[i].0, k),
    ensures
        obj_insert(m, k, v) == m.push((k, v)),
    decreases m.len(),
{
    if m.len() == 0 {
        assert(seq![(k, v)] =~= m.push((k, v)));
    } else {
        assert(lex_lt(m[0].0, k));
        lemma_lex_irrefl(k);
        lemma_lex_total(m[0].0, k);
        assert forall|i: int| 0 <= i < m.drop_first().len() implies lex_lt(#[trigger] m.drop_first()[i].0, k) by {
            assert(m.drop_first()[i] == m[i + 1]);
        }
        lemma_obj_insert_last(m.drop_first(), k, v);
        assert(seq![m[0]] + m.drop_first().push((k, v)) =~= m.push((k, v)));
    }
}

/// The compact text of the elements splits after the first.
proof fn lemma_items_front(xs: Seq<Json>, k: int)
    requires
        2 <= k <= xs.len(),
    ensures
        compact_items(xs, k) == compact_text(xs[0]) + seq![','] + compact_items(xs.drop_first(), k - 1),
    decreases k,
{
    if k == 2 {
        assert(compact_items(xs.drop_first(), 1) == compact_text(xs[1]));
        assert(compact_items(xs, 1) == compact_text(xs[0]));
    } else {
        lemma_items_front(xs, k - 1);
        assert(xs.drop_first()[k - 2] == xs[k - 1]);
        assert(compact_items(xs, k) =~= compact_text(xs[0]) + seq![','] + compact_items(xs.drop_first(), k - 1));
    }
}

/// The text of one member: its key, `:`, its value.
pub open spec fn member_text(m: (Seq<char>, Json)) -> Seq<char> {
    json_string(m.0) + seq![':'] + compact_text(m.1)
}

/// The compact text of the members splits after the first.
proof fn lemma_members_front(ms: Seq<(Seq<char>, Json)>, k: int)
    requires
        1 <= k <= ms.len(),
    ensures
        k == 1 ==> compact_members(ms, k) == member_text(ms[0]),
        k >= 2 ==> compact_members(ms, k) == member_text(ms[0]) + seq![','] + compact_members(ms.drop_first(), k - 1),
    decreases k,
{
    if k == 2 {
        assert(compact_members(ms.drop_first(), 1) == member_text(ms[1]));
        assert(compact_members(ms, 1) == member_text(ms[0]));
    } else if k > 2 {
        lemma_members_front(ms, k - 1);
        assert(ms.drop_first()[k - 2] == ms[k - 1]);
        assert(compact_members(ms, k) =~= member_text(ms[0]) + seq![','] + compact_members(ms.drop_first(), k - 1));
    }
}

/// Where `b` holds `x + y` at `p`, it holds `x` at `p` and `y` after it.
proof fn lemma_split_at(b: Seq<u8>, p: int, x: Seq<u8>, y: Seq<u8>)
    requires
        0 <= p,
        p + x.len() + y.len() <= b.len(),
        b.subrange(p, p + x.len() + y.len()) == x + y,
    ensures
        b.subrange(p, p + x.len()) == x,
        b.subrange(p + x.len(), p + x.len() + y.len()) == y,
        forall|i: int| 0 <= i < x.len() ==> b[p + i] == #[trigger] x[i],
        forall|i: int| 0 <= i < y.len() ==> b[p + x.len() + i] == #[trigger] y[i],
{
    let w = b.subrange(p, p + x.len() + y.len());
    assert forall|i: int| 0 <= i < x.len() implies b[p + i] == #[trigger] x[i] by {
        assert(w[i] == (x + y)[i]);
        assert(w[i] == b[p + i]);
    }
    assert forall|i: int| 0 <= i < y.len() implies b[p + x.len() + i] == #[trigger] y[i] by {
        assert(w[x.len() + i] == (x + y)[x.len() + i]);
        assert(w[x.len() + i] == b[p + x.len() + i]);
    }
    assert(b.subrange(p, p + x.len()) =~= x);
    assert(b.subrange(p + x.len(), p + x.len() + y.len()) =~= y);
}

/// The encoding of the ASCII text `"null"`, and of the other literals.
proof fn lemma_literal_bytes()
    ensures
        encode_utf8("null"@) == null_bytes(),
        encode_utf8("true"@) == true_bytes(),
        encode_utf8("false"@) == false_bytes(),
{
    reveal_strlit("null");
    reveal_strlit("true");
    reveal_strlit("false");
    lemma_encode_ascii_seq("null"@);
    lemma_encode_ascii_seq("true"@);
    lemma_encode_ascii_seq("false"@);
    assert(encode_utf8("null"@) =~= null_bytes());
    assert(encode_utf8("true"@) =~= true_bytes());
    assert(encode_utf8("false"@) =~= false_bytes());
}

/// An ASCII character between two texts encodes as its code between their encodings.
proof fn lemma_encode_mid(x: Seq<char>, c: char, y: Seq<char>)
    requires
        (c as u32) < 0x80,
    ensures
        encode_utf8(x + seq![c] + y) == encode_utf8(x) + seq![(c as u32) as u8] + encode_utf8(y),
{
    lemma_encode_append(x + seq![c], y);
    lemma_encode_append(x, seq![c]);
    lemma_encode_one(c);
    lemma_scalar_bytes(c);
}

/// The first byte of a well-formed value's compact text.
proof fn lemma_first_byte(j: Json)
    requires
        json_wf(j),
    ensures
        encode_utf8(compact_text(j)).len() >= 1,
        j is Null ==> encode_utf8(compact_text(j))[0] == 110,
        j is Bool ==> encode_utf8(compact_text(j))[0] == (if j->Bool_0 { 116u8 } else { 102u8 }),
        (j is PosInt || j is NegInt || j is Float) ==> (encode_utf8(compact_text(j))[0] == 45 || is_digit_byte(encode_utf8(compact_text(j))[0])),
        j is Str ==> encode_utf8(compact_text(j))[0] == 34,
        j is Array ==> encode_utf8(compact_text(j))[0] == 91,
        j is Object ==> encode_utf8(compact_text(j))[0] == 123,
{
    let t = encode_utf8(compact_text(j));
    match j {
        Json::Null => {
            lemma_literal_bytes();
        },
        Json::Bool(v) => {
            lemma_literal_bytes();
        },
        Json::PosInt(u) => {
            lemma_dec_bytes(u as nat);
        },
        Json::NegInt(i) => {
            lemma_dec_bytes((-i) as nat);
            lemma_encode_append(seq!['-'], dec_digits((-i) as nat));
            lemma_encode_one('-');
            lemma_scalar_bytes('-');
        },
        Json::Float(tx) => {
            let bt = encode_utf8(tx);
            assert(spec_number_end(bt, 0) is Ok);
            let q1 = if byte_at(bt, 0, 45) { 1int } else { 0int };
            assert(digit_at(bt, q1));
        },
        Json::Str(x) => {
            lemma_encode_mid(Seq::empty(), '"', escape_json(x) + seq!['"']);
            assert(json_string(x) =~= Seq::<char>::empty() + seq!['"'] + (escape_json(x) + seq!['"']));
        },
        Json::Array(xs) => {
            lemma_encode_mid(Seq::empty(), '[', compact_items(xs, xs.len() as int) + seq![']']);
            assert(compact_text(j) =~= Seq::<char>::empty() + seq!['['] + (compact_items(xs, xs.len() as int) + seq![']']));
        },
        Json::Object(ms) => {
            lemma_encode_mid(Seq::empty(), '{', compact_members(ms, ms.len() as int) + seq!['}']);
            assert(compact_text(j) =~= Seq::<char>::empty() + seq!['{'] + (compact_members(ms, ms.len() as int) + seq!['}']));
        },
    }
}

/// A well-formed value's compact text, followed by the end or a byte that closes a
/// value, reads back as the value.
proof fn lemma_value(b: Seq<u8>, p: int, j: Json, fuel: nat)
    requires
        json_wf(j),
        0 <= p,
        p + encode_utf8(compact_text(j)).len() <= b.len(),
        b.subrange(p, p + encode_utf8(compact_text(j)).len()) == encode_utf8(compact_text(j)),
        p + encode_utf8(compact_text(j)).len() == b.len() || closes_value(b[p + encode_utf8(compact_text(j)).len()]),
        fuel >= 2 * encode_utf8(compact_text(j)).len(),
    ensures
        spec_value(b, p, fuel) == Ok::<(Json, int), (Seq<char>, int)>((j, p + encode_utf8(compact_text(j)).len())),
    decreases encode_utf8(compact_text(j)).len(), 0int,
{
    let t = encode_utf8(compact_text(j));
    let n = t.len() as int;
    lemma_first_byte(j);
    assert(b[p] == t[0]) by {
        assert(b.subrange(p, p + n)[0] == t[0]);
    }
    assert(ws_after(b, p) == p);
    match j {
        Json::Null => {
            lemma_literal_bytes();
        },
        Json::Bool(v) => {
            lemma_literal_bytes();
        },
        Json::PosInt(u) => {
            lemma_number_pos(b, p, u);
        },
        Json::NegInt(i) => {
            lemma_number_neg(b, p, i);
        },
        Json::Float(tx) => {
            lemma_encode_ascii_seq(tx);
            lemma_number_float(b, p, tx);
        },
        Json::Str(x) => {
            lemma_parse_json_string(b, p, x);
        },
        Json::Array(xs) => {
            let k = xs.len() as int;
            let items = compact_items(xs, k);
            lemma_encode_mid(Seq::empty(), '[', items + seq![']']);
            lemma_encode_append(items, seq![']']);
            lemma_encode_one(']');
            lemma_scalar_bytes(']');
            assert(compact_text(j) =~= Seq::<char>::empty() + seq!['['] + (items + seq![']']));
            let bi = encode_utf8(items);
            assert(t =~= seq![91u8] + (bi + seq![93u8]));
            lemma_split_at(b, p, seq![91u8], bi + seq![93u8]);
            lemma_split_at(b, p + 1, bi, seq![93u8]);
            assert(b[p + 1 + bi.len()] == seq![93u8][0]);
            if k == 0 {
                assert(bi.len() == 0);
                assert(b[p + 1] == 93);
                assert(xs =~= Seq::<Json>::empty());
            } else {
                lemma_items_wf(xs, k);
                let x0 = xs[0];
                assert(json_wf(x0));
                lemma_first_byte(x0);
                let t0 = encode_utf8(compact_text(x0));
                if k >= 2 {
                    lemma_items_front(xs, k);
                    lemma_encode_append(compact_text(x0) + seq![','], compact_items(xs.drop_first(), k - 1));
                    lemma_encode_append(compact_text(x0), seq![',']);
                    assert(bi[0] == t0[0]);
                } else {
                    assert(items == compact_text(x0));
                }
                assert(b[p + 1] == bi[0]);
                assert(ws_after(b, p + 1) == p + 1);
                assert forall|i: int| 0 <= i < xs.len() implies json_wf(#[trigger] xs[i]) by {}
                lemma_elems(b, p + 1, xs, Seq::empty(), (fuel - 1) as nat);
                assert(Seq::<Json>::empty() + xs =~= xs);
            }
        },
        Json::Object(ms) => {
            let k = ms.len() as int;
            let body = compact_members(ms, k);
            lemma_encode_mid(Seq::empty(), '{', body + seq!['}']);
            lemma_encode_append(body, seq!['}']);
            lemma_encode_one('}');
            lemma_scalar_bytes('}');
            assert(compact_text(j) =~= Seq::<char>::empty() + seq!['{'] + (body + seq!['}']));
            let bm = encode_utf8(body);
            assert(t =~= seq![123u8] + (bm + seq![125u8]));
            lemma_split_at(b, p, seq![123u8], bm + seq![125u8]);
            lemma_split_at(b, p + 1, bm, seq![125u8]);
            assert(b[p + 1 + bm.len()] == seq![125u8][0]);
            if k == 0 {
                assert(bm.len() == 0);
                assert(b[p + 1] == 125);
                assert(ms =~= Seq::<(Seq<char>, Json)>::empty());
            } else {
                lemma_members_wf(ms, k);
                lemma_members_front(ms, k);
                let m0 = member_text(ms[0]);
                lemma_encode_append(json_string(ms[0].0), seq![':'] + compact_text(ms[0].1));
                lemma_encode_mid(Seq::empty(), '"', escape_json(ms[0].0) + seq!['"']);
                assert(json_string(ms[0].0) =~= Seq::<char>::empty() + seq!['"'] + (escape_json(ms[0].0) + seq!['"']));
                assert(member_text(ms[0]) =~= json_string(ms[0].0) + (seq![':'] + compact_text(ms[0].1)));
                if k >= 2 {
                    lemma_encode_append(m0 + seq![','], compact_members(ms.drop_first(), k - 1));
                    lemma_encode_append(m0, seq![',']);
                }
                assert(bm[0] == 34u8);
                assert(b[p + 1] == bm[0]);
                assert(ws_after(b, p + 1) == p + 1);
                assert forall|i: int| 0 <= i < ms.len() implies json_wf(#[trigger] ms[i].1) by {}
                lemma_members(b, p + 1, ms, Seq::empty(), (fuel - 1) as nat);
                assert(Seq::<(Seq<char>, Json)>::empty() + ms =~= ms);
            }
        },
    }
}

/// The compact text of well-formed elements, followed by `]`, reads back as the
/// array of them after `acc`.
proof fn lemma_elems(b: Seq<u8>, p: int, xs: Seq<Json>, acc: Seq<Json>, fuel: nat)
    requires
        xs.len() >= 1,
        forall|i: int| 0 <= i < xs.len() ==> json_wf(#[trigger] xs[i]),
        0 <= p,
        p + encode_utf8(compact_items(xs, xs.len() as int)).len() < b.len(),
        b.subrange(p, p + encode_utf8(compact_items(xs, xs.len() as int)).len()) == encode_utf8(compact_items(xs, xs.len() as int)),
        b[p + encode_utf8(compact_items(xs, xs.len() as int)).len()] == 93,
        fuel >= 2 * encode_utf8(compact_items(xs, xs.len() as int)).len() + 2,
    ensures
        spec_elems(b, p, acc, fuel) == Ok::<(Json, int), (Seq<char>, int)>((Json::Array(acc + xs), p + encode_utf8(compact_items(xs, xs.len() as int)).len() + 1)),
    decreases encode_utf8(compact_items(xs, xs.len() as int)).len(), 1int,
{
    let k = xs.len() as int;
    let t = encode_utf8(compact_items(xs, k));
    let x0 = xs[0];
    let t0 = encode_utf8(compact_text(x0));
    if k == 1 {
        assert(compact_items(xs, 1) == compact_text(x0));
        assert(t0 == t);
        lemma_value(b, p, x0, (fuel - 1) as nat);
        assert(ws_after(b, p + t0.len()) == p + t0.len());
        assert(acc.push(x0) =~= acc + xs);
    } else {
        let rest = xs.drop_first();
        lemma_items_front(xs, k);
        let tr = encode_utf8(compact_items(rest, k - 1));
        lemma_encode_mid(compact_text(x0), ',', compact_items(rest, k - 1));
        assert(t =~= t0 + (seq![44u8] + tr));
        lemma_split_at(b, p, t0, seq![44u8] + tr);
        lemma_split_at(b, p + t0.len(), seq![44u8], tr);
        assert(b[p + t0.len()] == seq![44u8][0]);
        lemma_value(b, p, x0, (fuel - 1) as nat);
        assert(ws_after(b, p + t0.len()) == p + t0.len());
        assert forall|i: int| 0 <= i < rest.len() implies json_wf(#[trigger] rest[i]) by {
            assert(rest[i] == xs[i + 1]);
        }
        lemma_elems(b, p + t0.len() + 1, rest, acc.push(x0), (fuel - 1) as nat);
        assert(acc.push(x0) + rest =~= acc + xs);
    }
}

/// The compact text of well-formed members with increasing keys, all after the keys
/// of `acc`, followed by `}`, reads back as the object of `acc` and them.
proof fn lemma_members(b: Seq<u8>, p: int, ms: Seq<(Seq<char>, Json)>, acc: Seq<(Seq<char>, Json)>, fuel: nat)
    requires
        ms.len() >= 1,
        forall|i: int| 0 <= i < ms.len() ==> json_wf(#[trigger] ms[i].1),
        keys_sorted(ms),
        forall|a: int, c: int| 0 <= a < acc.len() && 0 <= c < ms.len() ==> lex_lt(#[trigger] acc[a].0, #[trigger] ms[c].0),
        0 <= p,
        p + encode_utf8(compact_members(ms, ms.len() as int)).len() < b.len(),
        b.subrange(p, p + encode_utf8(compact_members(ms, ms.len() as int)).len()) == encode_utf8(compact_members(ms, ms.len() as int)),
        b[p + encode_utf8(compact_members(ms, ms.len() as int)).len()] == 125,
        fuel >= 2 * encode_utf8(compact_members(ms, ms.len() as int)).len() + 2,
    ensures
        spec_members(b, p, acc, fuel) == Ok::<(Json, int), (Seq<char>, int)>((Json::Object(acc + ms), p + encode_utf8(compact_members(ms, ms.len() as int)).len() + 1)),
    decreases encode_utf8(compact_members(ms, ms.len() as int)).len(), 1int,
{
    let k = ms.len() as int;
    let t = encode_utf8(compact_members(ms, k));
    let (k0, v0) = ms[0];
    let ks = encode_utf8(json_string(k0));
    let tv = encode_utf8(compact_text(v0));
    let m0 = member_text(ms[0]);
    lemma_encode_mid(json_string(k0), ':', compact_text(v0));
    let tm = encode_utf8(m0);
    assert(tm =~= ks + (seq![58u8] + tv));
    lemma_members_front(ms, k);
    if k == 1 {
        assert(t == tm);
    } else {
        lemma_encode_mid(m0, ',', compact_members(ms.drop_first(), k - 1));
    }
    let after = if k == 1 { seq![125u8] } else { seq![44u8] + encode_utf8(compact_members(ms.drop_first(), k - 1)) };
    if k == 1 {
        assert(t == tm);
        assert(b.subrange(p, p + tm.len()) == tm);
        assert(b[p + tm.len()] == after[0]);
    } else {
        assert(t =~= tm + after);
        lemma_split_at(b, p, tm, after);
        assert(b[p + tm.len()] == after[0]);
    }
    lemma_split_at(b, p, ks, seq![58u8] + tv);
    lemma_split_at(b, p + ks.len(), seq![58u8], tv);
    assert(b[p + ks.len()] == seq![58u8][0]);
    lemma_parse_json_string(b, p, k0);
    lemma_encode_mid(Seq::empty(), '"', escape_json(k0) + seq!['"']);
    assert(json_string(k0) =~= Seq::<char>::empty() + seq!['"'] + (escape_json(k0) + seq!['"']));
    assert(ks[0] == 34);
    assert(b[p] == ks[0]);
    assert(ws_after(b, p) == p);
    let e1 = p + ks.len();
    assert(ws_after(b, e1) == e1);
    lemma_value(b, e1 + 1, v0, (fuel - 1) as nat);
    let e3 = e1 + 1 + tv.len();
    assert(ws_after(b, e3) == e3);
    assert forall|i: int| 0 <= i < acc.len() implies lex_lt(#[trigger] acc[i].0, k0) by {
        assert(lex_lt(acc[i].0, ms[0].0));
    }
    lemma_obj_insert_last(acc, k0, v0);
    if k == 1 {
        assert(acc.push((k0, v0)) =~= acc + ms);
    } else {
        let rest = ms.drop_first();
        let tr = encode_utf8(compact_members(rest, k - 1));
        lemma_split_at(b, p, tm, seq![44u8] + tr);
        lemma_split_at(b, p + tm.len(), seq![44u8], tr);
        let acc2 = acc.push((k0, v0));
        assert forall|i: int| 0 <= i < rest.len() implies json_wf(#[trigger] rest[i].1) by {
            assert(rest[i] == ms[i + 1]);
        }
        assert forall|a: int, c: int| 0 <= a < rest.len() && 0 <= c < rest.len() && a < c implies lex_lt(#[trigger] rest[a].0, #[trigger] rest[c].0) by {
            assert(rest[a] == ms[a + 1] && rest[c] == ms[c + 1]);
        }
        assert forall|a: int, c: int| 0 <= a < acc2.len() && 0 <= c < rest.len() implies lex_lt(#[trigger] acc2[a].0, #[trigger] rest[c].0) by {
            assert(rest[c] == ms[c + 1]);
            if a < acc.len() {
                assert(acc2[a] == acc[a]);
            } else {
                assert(acc2[a] == ms[0]);
            }
        }
        lemma_members(b, p + tm.len() + 1, rest, acc2, (fuel - 1) as nat);
        assert(acc2 + rest =~= acc + ms);
    }
}

/// Reading the compact text of a value gives the value back: for a value whose
/// negative integers are below zero, whose number texts are ones the reader takes
/// whole as numbers with a fraction or exponent, and whose objects list their keys
/// in strictly increasing order, `spec_from_str` of the UTF-8 bytes of
/// `compact_text(j)` is `j`.
pub proof fn lemma_json_roundtrip(j: Json)
    requires
        json_wf(j),
    ensures
        spec_from_str(encode_utf8(compact_text(j))) == Ok::<Json, (Seq<char>, int)>(j),
{
    let b = encode_utf8(compact_text(j));
    lemma_first_byte(j);
    assert(ws_after(b, 0) == 0);
    assert(b.subrange(0, b.len() as int) =~= b);
    lemma_value(b, 0, j, (3 * b.len() + 3) as nat);
    assert(ws_after(b, b.len() as int) == b.len());
}

/// A line break, then the indentation of `depth` levels.
pub open spec fn gap_text(depth: nat) -> Seq<char> {
    seq!['\n'] + indent_text(depth)
}

proof fn lemma_indent(depth: nat)
    ensures
        indent_text(depth).len() == 2 * depth,
        forall|i: int| 0 <= i < indent_text(depth).len() ==> #[trigger] indent_text(depth)[i] == ' ',
    decreases depth,
{
    if depth > 0 {
        lemma_indent((depth - 1) as nat);
        let a = indent_text((depth - 1) as nat);
        assert forall|i: int| 0 <= i < indent_text(depth).len() implies #[trigger] indent_text(depth)[i] == ' ' by {
            if i < a.len() {
                assert(indent_text(depth)[i] == a[i]);
            }
        }
    }
}

/// A gap's bytes: a line feed and two spaces a level.
proof fn lemma_gap_len(depth: nat)
    ensures
        encode_utf8(gap_text(depth)).len() == 1 + 2 * depth,
{
    let g = gap_text(depth);
    lemma_indent(depth);
    assert forall|i: int| 0 <= i < g.len() implies (#[trigger] g[i] as u32) < 0x80 by {
        if i > 0 {
            assert(g[i] == indent_text(depth)[i - 1]);
        }
    }
    lemma_encode_ascii_seq(g);
}

/// The bytes of a gap at `p` are white space, and reading skips them up to a byte
/// that is not.
proof fn lemma_gap_skip(b: Seq<u8>, p: int, depth: nat)
    requires
        text_at(b, p, gap_text(depth)),
        p + 1 + 2 * depth < b.len(),
        !is_json_ws(b[p + 1 + 2 * depth]),
    ensures
        encode_utf8(gap_text(depth)).len() == 1 + 2 * depth,
        ws_after(b, p) == p + 1 + 2 * depth,
{
    let g = gap_text(depth);
    lemma_indent(depth);
    assert forall|i: int| 0 <= i < g.len() implies (#[trigger] g[i] as u32) < 0x80 && (g[i] == '\n' || g[i] == ' ') by {
        if i > 0 {
            assert(g[i] == indent_text(depth)[i - 1]);
        }
    }
    lemma_text_ascii(b, p, g);
    assert forall|j: int| p <= j < p + 1 + 2 * depth implies is_json_ws(#[trigger] b[j]) by {
        assert(b[p + (j - p)] == (g[j - p] as u32) as u8);
    }
    lemma_ws_walk(b, p, p + 1 + 2 * depth);
}

proof fn lemma_ws_walk(b: Seq<u8>, p: int, e: int)
    requires
        0 <= p <= e < b.len(),
        forall|j: int| p <= j < e ==> is_json_ws(#[trigger] b[j]),
        !is_json_ws(b[e]),
    ensures
        ws_after(b, p) == e,
    decreases e - p,
{
    if p < e {
        lemma_ws_walk(b, p + 1, e);
    }
}

/// Reading a value after white space reads it where the white space ends.
proof fn lemma_value_after_ws(b: Seq<u8>, p: int, s0: int, fuel: nat)
    requires
        0 <= s0 < b.len(),
        ws_after(b, p) == s0,
        !is_json_ws(b[s0]),
    ensures
        spec_value(b, p, fuel) == spec_value(b, s0, fuel),
{
    assert(ws_after(b, s0) == s0);
}

/// The pretty text of a value starts as its compact text does.
proof fn lemma_pretty_first(j: Json, depth: nat)
    requires
        json_wf(j),
    ensures
        encode_utf8(pretty_text(j, depth)).len() >= 1,
        encode_utf8(pretty_text(j, depth))[0] == encode_utf8(compact_text(j))[0],
{
    lemma_first_byte(j);
    match j {
        Json::Array(xs) => {
            if xs.len() > 0 {
                let rest = pretty_items(xs, xs.len() as int, depth) + seq!['\n'] + indent_text(depth) + seq![']'];
                lemma_encode_mid(Seq::empty(), '[', rest);
                assert(pretty_text(j, depth) =~= Seq::<char>::empty() + seq!['['] + rest);
            }
        },
        Json::Object(ms) => {
            if ms.len() > 0 {
                let rest = pretty_members(ms, ms.len() as int, depth) + seq!['\n'] + indent_text(depth) + seq!['}'];
                lemma_encode_mid(Seq::empty(), '{', rest);
                assert(pretty_text(j, depth) =~= Seq::<char>::empty() + seq!['{'] + rest);
            }
        },
        _ => {},
    }
}

/// The pretty elements split after the first.
proof fn lemma_pitems_front(xs: Seq<Json>, k: int, depth: nat)
    requires
        1 <= k <= xs.len(),
    ensures
        pretty_items(xs, k, depth) == gap_text(depth + 1) + pretty_text(xs[0], depth + 1) + if k >= 2 {
            seq![','] + pretty_items(xs.drop_first(), k - 1, depth)
        } else {
            Seq::<char>::empty()
        },
    decreases k,
{
    if k == 1 {
        assert(pretty_items(xs, 0, depth) =~= Seq::<char>::empty());
        assert(pretty_items(xs, 1, depth) =~= gap_text(depth + 1) + pretty_text(xs[0], depth + 1) + Seq::<char>::empty());
    } else {
        lemma_pitems_front(xs, k - 1, depth);
        let rest = xs.drop_first();
        assert(rest[k - 2] == xs[k - 1]);
        if k == 2 {
            assert(pretty_items(rest, 0, depth) =~= Seq::<char>::empty());
            assert(pretty_items(rest, 1, depth) =~= gap_text(depth + 1) + pretty_text(rest[0], depth + 1));
        }
        assert(pretty_items(xs, k, depth) =~= gap_text(depth + 1) + pretty_text(xs[0], depth + 1) + (seq![','] + pretty_items(rest, k - 1, depth)));
    }
}

/// The text of one pretty member: its key, `: `, its value.
pub open spec fn pmember_text(m: (Seq<char>, Json), depth: nat) -> Seq<char> {
    json_string(m.0) + seq![':', ' '] + pretty_text(m.1, depth)
}

/// The pretty members split after the first.
proof fn lemma_pmembers_front(ms: Seq<(Seq<char>, Json)>, k: int, depth: nat)
    requires
        1 <= k <= ms.len(),
    ensures
        pretty_members(ms, k, depth) == gap_text(depth + 1) + pmember_text(ms[0], depth + 1) + if k >= 2 {
            seq![','] + pretty_members(ms.drop_first(), k - 1, depth)
        } else {
            Seq::<char>::empty()
        },
    decreases k,
{
    if k == 1 {
        assert(pretty_members(ms, 0, depth) =~= Seq::<char>::empty());
        assert(pretty_members(ms, 1, depth) =~= gap_text(depth + 1) + pmember_text(ms[0], depth + 1) + Seq::<char>::empty());
    } else {
        lemma_pmembers_front(ms, k - 1, depth);
        let rest = ms.drop_first();
        assert(rest[k - 2] == ms[k - 1]);
        if k == 2 {
            assert(pretty_members(rest, 0, depth) =~= Seq::<char>::empty());
            assert(pretty_members(rest, 1, depth) =~= gap_text(depth + 1) + pmember_text(rest[0], depth + 1));
        }
        assert(pretty_members(ms, k, depth) =~= gap_text(depth + 1) + pmember_text(ms[0], depth + 1) + (seq![','] + pretty_members(rest, k - 1, depth)));
    }
}

/// What follows the first pretty element: the rest, each after `,`, then the closing
/// line and `]`.
pub open spec fn items_tail(xs: Seq<Json>, depth: nat) -> Seq<char> {
    (if xs.len() >= 2 {
        seq![','] + pretty_items(xs.drop_first(), xs.len() - 1, depth)
    } else {
        Seq::<char>::empty()
    }) + gap_text(depth) + seq![']']
}

/// What follows the first pretty member: the rest, each after `,`, then the closing
/// line and `}`.
pub open spec fn members_tail(ms: Seq<(Seq<char>, Json)>, depth: nat) -> Seq<char> {
    (if ms.len() >= 2 {
        seq![','] + pretty_members(ms.drop_first(), ms.len() - 1, depth)
    } else {
        Seq::<char>::empty()
    }) + gap_text(depth) + seq!['}']
}

/// The byte at `p` of text `x + y` standing there is the first byte of `x`.
proof fn lemma_first_of(b: Seq<u8>, p: int, x: Seq<char>, y: Seq<char>)
    requires
        text_at(b, p, x + y),
        encode_utf8(x).len() >= 1,
    ensures
        b[p] == encode_utf8(x)[0],
{
    lemma_text_split(b, p, x, y);
    assert(b.subrange(p, p + encode_utf8(x).len())[0] == encode_utf8(x)[0]);
}

/// The byte of an ASCII character standing at `p`.
proof fn lemma_char_at(b: Seq<u8>, p: int, c: char, y: Seq<char>)
    requires
        text_at(b, p, seq![c] + y),
        (c as u32) < 0x80,
    ensures
        b[p] == (c as u32) as u8,
        text_at(b, p + 1, y),
        encode_utf8(seq![c] + y).len() == 1 + encode_utf8(y).len(),
{
    lemma_encode_one(c);
    lemma_scalar_bytes(c);
    lemma_text_split(b, p, seq![c], y);
    assert(b.subrange(p, p + 1)[0] == encode_utf8(seq![c])[0]);
}

/// A value's pretty text does not start with white space or a closing bracket.
proof fn lemma_pretty_start(j: Json, depth: nat)
    requires
        json_wf(j),
    ensures
        encode_utf8(pretty_text(j, depth)).len() >= 1,
        !is_json_ws(encode_utf8(pretty_text(j, depth))[0]),
        encode_utf8(pretty_text(j, depth))[0] != 93,
        encode_utf8(pretty_text(j, depth))[0] != 125,
{
    lemma_pretty_first(j, depth);
    lemma_first_byte(j);
}

/// A well-formed value's pretty text at `p`, at `depth`, followed by the end or a
/// byte that may follow a value, reads back as the value.
#[verifier::spinoff_prover]
#[verifier::rlimit(80)]
proof fn lemma_pvalue(b: Seq<u8>, p: int, j: Json, depth: nat, fuel: nat)
    requires
        json_wf(j),
        text_at(b, p, pretty_text(j, depth)),
        p + encode_utf8(pretty_text(j, depth)).len() == b.len() || closes_value(b[p + encode_utf8(pretty_text(j, depth)).len()]),
        fuel >= 2 * encode_utf8(pretty_text(j, depth)).len(),
    ensures
        spec_value(b, p, fuel) == Ok::<(Json, int), (Seq<char>, int)>((j, p + encode_utf8(pretty_text(j, depth)).len())),
    decreases encode_utf8(pretty_text(j, depth)).len(), 0int,
{
    let pt = pretty_text(j, depth);
    let n = encode_utf8(pt).len() as int;
    match j {
        Json::Array(xs) => {
            if xs.len() == 0 {
                lemma_value(b, p, j, fuel);
                return;
            }
            let k = xs.len() as int;
            lemma_items_wf(xs, k);
            lemma_pitems_front(xs, k, depth);
            let x0 = xs[0];
            let body = pretty_text(x0, depth + 1) + items_tail(xs, depth);
            assert(pt =~= seq!['['] + (gap_text(depth + 1) + body));
            lemma_char_at(b, p, '[', gap_text(depth + 1) + body);
            lemma_text_split(b, p + 1, gap_text(depth + 1), body);
            lemma_pretty_start(x0, depth + 1);
            lemma_encode_append(pretty_text(x0, depth + 1), items_tail(xs, depth));
            lemma_first_of(b, p + 1 + encode_utf8(gap_text(depth + 1)).len(), pretty_text(x0, depth + 1), items_tail(xs, depth));
            lemma_gap_len(depth + 1);
            lemma_gap_skip(b, p + 1, depth + 1);
            let s0 = p + 1 + encode_utf8(gap_text(depth + 1)).len();
            assert(ws_after(b, p) == p);
            assert(!byte_at(b, s0, 93));
            assert(ws_after(b, s0) == s0);
            lemma_encode_append(gap_text(depth + 1), body);
            assert forall|i: int| 0 <= i < xs.len() implies json_wf(#[trigger] xs[i]) by {}
            lemma_pelems(b, s0, s0, xs, Seq::empty(), depth, (fuel - 1) as nat);
            assert(Seq::<Json>::empty() + xs =~= xs);
        },
        Json::Object(ms) => {
            if ms.len() == 0 {
                lemma_value(b, p, j, fuel);
                return;
            }
            let k = ms.len() as int;
            lemma_members_wf(ms, k);
            lemma_pmembers_front(ms, k, depth);
            let body = pmember_text(ms[0], depth + 1) + members_tail(ms, depth);
            assert(pt =~= seq!['{'] + (gap_text(depth + 1) + body));
            lemma_char_at(b, p, '{', gap_text(depth + 1) + body);
            lemma_text_split(b, p + 1, gap_text(depth + 1), body);
            let js = json_string(ms[0].0);
            lemma_encode_mid(Seq::empty(), '"', escape_json(ms[0].0) + seq!['"']);
            assert(js =~= Seq::<char>::empty() + seq!['"'] + (escape_json(ms[0].0) + seq!['"']));
            assert(body =~= js + (seq![':', ' '] + pretty_text(ms[0].1, depth + 1) + members_tail(ms, depth)));
            lemma_first_of(b, p + 1 + encode_utf8(gap_text(depth + 1)).len(), js, seq![':', ' '] + pretty_text(ms[0].1, depth + 1) + members_tail(ms, depth));
            lemma_gap_len(depth + 1);
            lemma_gap_skip(b, p + 1, depth + 1);
            let s0 = p + 1 + encode_utf8(gap_text(depth + 1)).len();
            assert(ws_after(b, p) == p);
            assert(!byte_at(b, s0, 125));
            lemma_encode_append(gap_text(depth + 1), body);
            assert forall|i: int| 0 <= i < ms.len() implies json_wf(#[trigger] ms[i].1) by {}
            lemma_pmembers(b, s0, s0, ms, Seq::empty(), depth, (fuel - 1) as nat);
            assert(Seq::<(Seq<char>, Json)>::empty() + ms =~= ms);
        },
        _ => {
            lemma_value(b, p, j, fuel);
        },
    }
}

/// Pretty elements from the first, whose text starts at `s0` after the white space
/// from `x`, followed by the closing line and `]`, read back as the array of them
/// after `acc`.
#[verifier::spinoff_prover]
#[verifier::rlimit(80)]
proof fn lemma_pelems(b: Seq<u8>, x: int, s0: int, xs: Seq<Json>, acc: Seq<Json>, depth: nat, fuel: nat)
    requires
        xs.len() >= 1,
        forall|i: int| 0 <= i < xs.len() ==> json_wf(#[trigger] xs[i]),
        0 <= x <= s0,
        ws_after(b, x) == s0,
        text_at(b, s0, pretty_text(xs[0], depth + 1) + items_tail(xs, depth)),
        fuel >= 2 * encode_utf8(pretty_text(xs[0], depth + 1) + items_tail(xs, depth)).len() + 2,
    ensures
        spec_elems(b, x, acc, fuel) == Ok::<(Json, int), (Seq<char>, int)>(
            (Json::Array(acc + xs), s0 + encode_utf8(pretty_text(xs[0], depth + 1) + items_tail(xs, depth)).len()),
        ),
    decreases encode_utf8(pretty_text(xs[0], depth + 1) + items_tail(xs, depth)).len(), 1int,
{
    let x0 = xs[0];
    let p0 = pretty_text(x0, depth + 1);
    let tl = items_tail(xs, depth);
    lemma_text_split(b, s0, p0, tl);
    lemma_pretty_start(x0, depth + 1);
    lemma_first_of(b, s0, p0, tl);
    let e = s0 + encode_utf8(p0).len();
    let k = xs.len() as int;
    if k >= 2 {
        let rest = xs.drop_first();
        lemma_pitems_front(rest, k - 1, depth);
        let r0 = rest[0];
        let body = pretty_text(r0, depth + 1) + items_tail(rest, depth);
        assert(tl =~= seq![','] + (gap_text(depth + 1) + body));
        lemma_char_at(b, e, ',', gap_text(depth + 1) + body);
        lemma_text_split(b, e + 1, gap_text(depth + 1), body);
        assert(json_wf(rest[0])) by {
            assert(rest[0] == xs[1]);
        }
        lemma_pretty_start(r0, depth + 1);
        lemma_encode_append(pretty_text(r0, depth + 1), items_tail(rest, depth));
        lemma_encode_append(gap_text(depth + 1), body);
        lemma_first_of(b, e + 1 + encode_utf8(gap_text(depth + 1)).len(), pretty_text(r0, depth + 1), items_tail(rest, depth));
        lemma_gap_len(depth + 1);
        lemma_gap_skip(b, e + 1, depth + 1);
        assert(closes_value(b[e]));
    } else {
        assert(tl =~= gap_text(depth) + seq![']']);
        lemma_text_split(b, e, gap_text(depth), seq![']']);
        lemma_indent(depth);
        assert(encode_utf8(gap_text(depth)).len() >= 1);
        lemma_first_of(b, e, gap_text(depth), seq![']']);
        lemma_encode_ascii_seq(seq!['\n']);
        assert(encode_utf8(gap_text(depth))[0] == 10) by {
            lemma_encode_append(seq!['\n'], indent_text(depth));
        }
        assert(closes_value(b[e]));
    }
    lemma_value_after_ws(b, x, s0, (fuel - 1) as nat);
    lemma_pvalue(b, s0, x0, depth + 1, (fuel - 1) as nat);
    if k >= 2 {
        let rest = xs.drop_first();
        let r0 = rest[0];
        let s1 = e + 1 + encode_utf8(gap_text(depth + 1)).len();
        assert(ws_after(b, e) == e);
        assert forall|i: int| 0 <= i < rest.len() implies json_wf(#[trigger] rest[i]) by {
            assert(rest[i] == xs[i + 1]);
        }
        lemma_pelems(b, e + 1, s1, rest, acc.push(x0), depth, (fuel - 1) as nat);
        assert(acc.push(x0) + rest =~= acc + xs);
    } else {
        lemma_char_at(b, e + encode_utf8(gap_text(depth)).len(), ']', Seq::<char>::empty());
        lemma_gap_len(depth);
        lemma_gap_skip(b, e, depth);
        assert(acc.push(x0) =~= acc + xs);
    }
}

/// Pretty members from the first, whose text starts at `s0` after the white space
/// from `x`, with keys increasing and after those of `acc`, followed by the closing
/// line and `}`, read back as the object of `acc` and them.
#[verifier::spinoff_prover]
#[verifier::rlimit(80)]
proof fn lemma_pmembers(
    b: Seq<u8>,
    x: int,
    s0: int,
    ms: Seq<(Seq<char>, Json)>,
    acc: Seq<(Seq<char>, Json)>,
    depth: nat,
    fuel: nat,
)
    requires
        ms.len() >= 1,
        forall|i: int| 0 <= i < ms.len() ==> json_wf(#[trigger] ms[i].1),
        keys_sorted(ms),
        forall|a: int, c: int| 0 <= a < acc.len() && 0 <= c < ms.len() ==> lex_lt(#[trigger] acc[a].0, #[trigger] ms[c].0),
        0 <= x <= s0,
        ws_after(b, x) == s0,
        text_at(b, s0, pmember_text(ms[0], depth + 1) + members_tail(ms, depth)),
        fuel >= 2 * encode_utf8(pmember_text(ms[0], depth + 1) + members_tail(ms, depth)).len() + 2,
    ensures
        spec_members(b, x, acc, fuel) == Ok::<(Json, int), (Seq<char>, int)>(
            (Json::Object(acc + ms), s0 + encode_utf8(pmember_text(ms[0], depth + 1) + members_tail(ms, depth)).len()),
        ),
    decreases encode_utf8(pmember_text(ms[0], depth + 1) + members_tail(ms, depth)).len(), 1int,
{
    let (k0, v0) = ms[0];
    let js = json_string(k0);
    let pv = pretty_text(v0, depth + 1);
    let tl = members_tail(ms, depth);
    let whole = pmember_text(ms[0], depth + 1) + tl;
    assert(whole =~= js + (seq![':'] + (seq![' '] + (pv + tl))));
    lemma_text_split(b, s0, js, seq![':'] + (seq![' '] + (pv + tl)));
    let e1 = s0 + encode_utf8(js).len();
    lemma_char_at(b, e1, ':', seq![' '] + (pv + tl));
    lemma_char_at(b, e1 + 1, ' ', pv + tl);
    lemma_text_split(b, e1 + 2, pv, tl);
    lemma_pretty_start(v0, depth + 1);
    lemma_first_of(b, e1 + 2, pv, tl);
    lemma_encode_mid(Seq::empty(), '"', escape_json(k0) + seq!['"']);
    assert(js =~= Seq::<char>::empty() + seq!['"'] + (escape_json(k0) + seq!['"']));
    assert(text_at(b, s0, js));
    lemma_parse_json_string(b, s0, k0);
    assert(b[s0] == 34) by {
        assert(b.subrange(s0, s0 + encode_utf8(js).len())[0] == encode_utf8(js)[0]);
    }
    assert(ws_after(b, e1) == e1);
    lemma_ws_walk(b, e1 + 1, e1 + 2);
    lemma_value_after_ws(b, e1 + 1, e1 + 2, (fuel - 1) as nat);
    let e3 = e1 + 2 + encode_utf8(pv).len();
    let k = ms.len() as int;
    if k >= 2 {
        let rest = ms.drop_first();
        lemma_pmembers_front(rest, k - 1, depth);
        let body = pmember_text(rest[0], depth + 1) + members_tail(rest, depth);
        assert(tl =~= seq![','] + (gap_text(depth + 1) + body));
        lemma_char_at(b, e3, ',', gap_text(depth + 1) + body);
        assert(closes_value(b[e3]));
    } else {
        assert(tl =~= gap_text(depth) + seq!['}']);
        lemma_text_split(b, e3, gap_text(depth), seq!['}']);
        lemma_indent(depth);
        lemma_first_of(b, e3, gap_text(depth), seq!['}']);
        lemma_encode_ascii_seq(seq!['\n']);
        assert(encode_utf8(gap_text(depth))[0] == 10) by {
            lemma_encode_append(seq!['\n'], indent_text(depth));
        }
        assert(closes_value(b[e3]));
    }
    lemma_encode_append(js, seq![':'] + (seq![' '] + (pv + tl)));
    lemma_encode_append(pv, tl);
    lemma_pvalue(b, e1 + 2, v0, depth + 1, (fuel - 1) as nat);
    assert forall|i: int| 0 <= i < acc.len() implies lex_lt(#[trigger] acc[i].0, k0) by {
        assert(lex_lt(acc[i].0, ms[0].0));
    }
    lemma_obj_insert_last(acc, k0, v0);
    if k >= 2 {
        let rest = ms.drop_first();
        let body = pmember_text(rest[0], depth + 1) + members_tail(rest, depth);
        lemma_text_split(b, e3 + 1, gap_text(depth + 1), body);
        let r0 = rest[0];
        let rjs = json_string(r0.0);
        lemma_encode_mid(Seq::empty(), '"', escape_json(r0.0) + seq!['"']);
        assert(rjs =~= Seq::<char>::empty() + seq!['"'] + (escape_json(r0.0) + seq!['"']));
        assert(body =~= rjs + (seq![':', ' '] + pretty_text(r0.1, depth + 1) + members_tail(rest, depth)));
        lemma_first_of(b, e3 + 1 + encode_utf8(gap_text(depth + 1)).len(), rjs, seq![':', ' '] + pretty_text(r0.1, depth + 1) + members_tail(rest, depth));
        lemma_gap_len(depth + 1);
        lemma_gap_skip(b, e3 + 1, depth + 1);
        lemma_encode_append(gap_text(depth + 1), body);
        let s1 = e3 + 1 + encode_utf8(gap_text(depth + 1)).len();
        assert(ws_after(b, e3) == e3);
        let acc2 = acc.push((k0, v0));
        assert forall|i: int| 0 <= i < rest.len() implies json_wf(#[trigger] rest[i].1) by {
            assert(rest[i] == ms[i + 1]);
        }
        assert forall|a: int, c: int| 0 <= a < c < rest.len() implies lex_lt(#[trigger] rest[a].0, #[trigger] rest[c].0) by {
            assert(rest[a] == ms[a + 1] && rest[c] == ms[c + 1]);
        }
        assert forall|a: int, c: int| 0 <= a < acc2.len() && 0 <= c < rest.len() implies lex_lt(#[trigger] acc2[a].0, #[trigger] rest[c].0) by {
            assert(rest[c] == ms[c + 1]);
            if a < acc.len() {
                assert(acc2[a] == acc[a]);
            } else {
                assert(acc2[a] == ms[0]);
            }
        }
        lemma_pmembers(b, e3 + 1, s1, rest, acc2, depth, (fuel - 1) as nat);
        assert(acc2 + rest =~= acc + ms);
    } else {
        lemma_char_at(b, e3 + encode_utf8(gap_text(depth)).len(), '}', Seq::<char>::empty());
        lemma_gap_len(depth);
        lemma_gap_skip(b, e3, depth);
        assert(acc.push((k0, v0)) =~= acc + ms);
    }
}

/// Reading the pretty text of a value gives the value back, for the values whose
/// compact text reads back (`json_wf`): `spec_from_str` of the UTF-8 bytes of
/// `pretty_text(j, 0)` is `j`.
pub proof fn lemma_json_pretty_roundtrip(j: Json)
    requires
        json_wf(j),
    ensures
        spec_from_str(encode_utf8(pretty_text(j, 0))) == Ok::<Json, (Seq<char>, int)>(j),
{
    let b = encode_utf8(pretty_text(j, 0));
    lemma_pretty_start(j, 0);
    assert(ws_after(b, 0) == 0);
    assert(b.subrange(0, b.len() as int) =~= b);
    lemma_pvalue(b, 0, j, 0, (3 * b.len() + 3) as nat);
    assert(ws_after(b, b.len() as int) == b.len());
}


/// Whether every byte of `w` is JSON white space: space, tab, line feed or carriage
/// return.
pub open spec fn ws_bytes(w: Seq<u8>) -> bool {
    forall|i: int| 0 <= i < w.len() ==> (#[trigger] w[i] == 32 || w[i] == 9 || w[i] == 10 || w[i] == 13)
}

/// White space that runs to the end is skipped to the end.
proof fn lemma_ws_to_end(b: Seq<u8>, p: int)
    requires
        0 <= p <= b.len(),
        forall|j: int| p <= j < b.len() ==> is_json_ws(#[trigger] b[j]),
    ensures
        ws_after(b, p) == b.len(),
    decreases b.len() - p,
{
    if p < b.len() {
        lemma_ws_to_end(b, p + 1);
    }
}

/// White space around a value does not change what it reads as: for a well-formed
/// value and any runs `w1` and `w2` of spaces, tabs, line feeds and carriage returns,
/// `w1`, then the compact text of the value, then `w2` reads back as the value.
pub proof fn lemma_json_ws_around(j: Json, w1: Seq<u8>, w2: Seq<u8>)
    requires
        json_wf(j),
        ws_bytes(w1),
        ws_bytes(w2),
    ensures
        spec_from_str(w1 + encode_utf8(compact_text(j)) + w2) == Ok::<Json, (Seq<char>, int)>(j),
{
    let t = encode_utf8(compact_text(j));
    let b = w1 + t + w2;
    let n1 = w1.len() as int;
    let e = n1 + t.len();
    lemma_first_byte(j);
    assert(b[n1] == t[0]);
    assert forall|i: int| 0 <= i < n1 implies is_json_ws(#[trigger] b[i]) by {
        assert(b[i] == w1[i]);
    }
    lemma_ws_walk(b, 0, n1);
    assert(b.subrange(n1, e) =~= t);
    if e < b.len() {
        assert(b[e] == w2[0]);
    }
    lemma_value(b, n1, j, (3 * b.len() + 3) as nat);
    assert forall|i: int| e <= i < b.len() implies is_json_ws(#[trigger] b[i]) by {
        assert(b[i] == w2[i - e]);
    }
    lemma_ws_to_end(b, e);
}


/// White space is skipped exactly: from `p`, the reader skips the run of spaces, tabs,
/// line feeds and carriage returns, and stops at the first other byte or the end.
pub proof fn lemma_ws_after_exact(b: Seq<u8>, p: int)
    requires
        0 <= p <= b.len(),
    ensures
        p <= ws_after(b, p) <= b.len(),
        forall|i: int| p <= i < ws_after(b, p) ==> (#[trigger] b[i] == 32 || b[i] == 9 || b[i] == 10 || b[i] == 13),
        ws_after(b, p) < b.len() ==> !(b[ws_after(b, p)] == 32 || b[ws_after(b, p)] == 9 || b[ws_after(b, p)] == 10
            || b[ws_after(b, p)] == 13),
    decreases b.len() - p,
{
    if p < b.len() && is_json_ws(b[p]) {
        lemma_ws_after_exact(b, p + 1);
    }
}

} // verus!
