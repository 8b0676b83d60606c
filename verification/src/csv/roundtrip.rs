use vstd::prelude::*;
use vstd::utf8::{encode_utf8, encode_scalar};
use crate::encoding::{lemma_encode_append, lemma_encode_text, lemma_encode_one, lemma_scalar_bytes};
use crate::csv::{
    escape_quotes, field_text, fields_text, needs_quoting, record_text, records_text, spec_parse_str,
    spec_read_field, spec_read_fields, spec_read_record, spec_parse_records, spec_scan_quoted,
    unquoted_end, skip_blank, forces_quote, Pos,
};

verus! {

/// The bytes of a character other than `"` hold no `"` byte; `"`, `,` and `\n`
/// encode as their single ASCII byte.
proof fn lemma_char_bytes(c: char)
    ensures
        c != '"' ==> forall|i: int| 0 <= i < encode_scalar(c as u32).len() ==> #[trigger] encode_scalar(c as u32)[i] != 34,
        c == '"' ==> encode_scalar(c as u32) == seq![34u8],
        c == ',' ==> encode_scalar(c as u32) == seq![44u8],
        c == '\n' ==> encode_scalar(c as u32) == seq![10u8],
{
    lemma_scalar_bytes(c);
}

/// Doubling quotes distributes over concatenation.
proof fn lemma_escape_append(a: Seq<char>, b: Seq<char>)
    ensures
        escape_quotes(a + b) == escape_quotes(a) + escape_quotes(b),
    decreases b.len(),
{
    if b.len() == 0 {
        assert(a + b =~= a);
        assert(escape_quotes(a) + escape_quotes(b) =~= escape_quotes(a));
    } else {
        lemma_escape_append(a, b.drop_last());
        assert((a + b).drop_last() =~= a + b.drop_last());
        assert((a + b).last() == b.last());
        if b.last() == '"' {
            assert(escape_quotes(a) + escape_quotes(b) =~= escape_quotes(a) + escape_quotes(b.drop_last()) + seq!['"', '"']);
        } else {
            assert(escape_quotes(a) + escape_quotes(b) =~= (escape_quotes(a) + escape_quotes(b.drop_last())).push(b.last()));
        }
    }
}

/// A quoted field's scan skips bytes other than `"`, whatever newlines they hold.
proof fn lemma_scan_walk(b: Seq<u8>, p: Pos, chunk: int, acc: Seq<char>, k: nat)
    requires
        0 <= p.0,
        p.0 + k <= b.len(),
        forall|j: int| p.0 <= j < p.0 + k ==> #[trigger] b[j] != 34,
    ensures
        exists|p2: Pos|
            p2.0 == p.0 + k && #[trigger] spec_scan_quoted(b, 34, p2, chunk, acc) == spec_scan_quoted(b, 34, p, chunk, acc),
    decreases k,
{
    if k == 0 {
        assert(spec_scan_quoted(b, 34, p, chunk, acc) == spec_scan_quoted(b, 34, p, chunk, acc));
    } else {
        let p1: Pos = if b[p.0] == 10 { (p.0 + 1, p.1 + 1, p.0 + 1) } else { (p.0 + 1, p.1, p.2) };
        assert(spec_scan_quoted(b, 34, p, chunk, acc) == spec_scan_quoted(b, 34, p1, chunk, acc));
        lemma_scan_walk(b, p1, chunk, acc, (k - 1) as nat);
    }
}

/// Scanning a quoted field's doubled-quote text: where the bytes from `chunk` to `p`
/// encode `u` and those from `p` encode `s` with its quotes doubled, then a closing
/// quote not followed by another, the scan gives `acc + u + s` and ends after the
/// closing quote.
proof fn lemma_scan_field(b: Seq<u8>, p: Pos, chunk: int, acc: Seq<char>, u: Seq<char>, s: Seq<char>)
    requires
        0 <= chunk <= p.0,
        b.subrange(chunk, p.0) == encode_utf8(u),
        p.0 + encode_utf8(escape_quotes(s)).len() + 1 < b.len(),
        b.subrange(p.0, p.0 + encode_utf8(escape_quotes(s)).len()) == encode_utf8(escape_quotes(s)),
        b[p.0 + encode_utf8(escape_quotes(s)).len()] == 34,
        b[p.0 + encode_utf8(escape_quotes(s)).len() + 1] != 34,
    ensures
        spec_scan_quoted(b, 34, p, chunk, acc).0 == Ok::<Seq<char>, Seq<char>>(acc + u + s),
        spec_scan_quoted(b, 34, p, chunk, acc).1.0 == p.0 + encode_utf8(escape_quotes(s)).len() + 1,
    decreases s.len(),
{
    lemma_encode_text(u);
    if s.len() == 0 {
        assert(escape_quotes(s) =~= Seq::<char>::empty());
        assert(acc + u + s =~= acc + u);
    } else {
        let c = s[0];
        let rest = s.drop_first();
        assert(s =~= seq![c] + rest);
        lemma_escape_append(seq![c], rest);
        let one = escape_quotes(seq![c]);
        assert(seq![c].drop_last() =~= Seq::<char>::empty());
        assert(seq![c].last() == c);
        assert(escape_quotes(seq![c].drop_last()) =~= Seq::<char>::empty());
        lemma_encode_append(one, escape_quotes(rest));
        let e1 = encode_utf8(one);
        let er = encode_utf8(escape_quotes(rest));
        let len1 = e1.len() as int;
        assert(b.subrange(p.0, p.0 + len1) =~= e1) by {
            assert forall|j: int| 0 <= j < len1 implies b.subrange(p.0, p.0 + len1)[j] == e1[j] by {
                assert(b.subrange(p.0, p.0 + e1.len() + er.len())[j] == (e1 + er)[j]);
            }
        }
        assert(b.subrange(p.0 + len1, p.0 + len1 + er.len()) =~= er) by {
            assert forall|j: int| 0 <= j < er.len() implies b.subrange(p.0 + len1, p.0 + len1 + er.len())[j] == er[j] by {
                assert(b.subrange(p.0, p.0 + e1.len() + er.len())[len1 + j] == (e1 + er)[len1 + j]);
            }
        }
        lemma_char_bytes(c);
        if c == '"' {
            assert(one =~= seq!['"', '"']);
            assert(seq!['"', '"'] =~= seq!['"'] + seq!['"']);
            lemma_encode_append(seq!['"'], seq!['"']);
            lemma_encode_one('"');
            assert(e1 =~= seq![34u8, 34u8]);
            assert(b[p.0] == 34 && b[p.0 + 1] == 34);
            let p2: Pos = (p.0 + 2, p.1, p.2);
            let acc2 = acc + u + seq![34u8 as char];
            assert(b.subrange(p.0 + 2, p.0 + 2) =~= encode_utf8(Seq::<char>::empty()));
            lemma_scan_field(b, p2, p.0 + 2, acc2, Seq::<char>::empty(), rest);
            assert(34u8 as char == '"');
            assert(acc2 + Seq::<char>::empty() + rest =~= acc + u + s);
        } else {
            assert(one =~= seq![c]);
            lemma_encode_one(c);
            let k = len1 as nat;
            assert forall|j: int| p.0 <= j < p.0 + k implies #[trigger] b[j] != 34 by {
                assert(b.subrange(p.0, p.0 + len1)[j - p.0] == e1[j - p.0]);
            }
            lemma_scan_walk(b, p, chunk, acc, k);
            let p2 = choose|p2: Pos|
                p2.0 == p.0 + k && #[trigger] spec_scan_quoted(b, 34, p2, chunk, acc) == spec_scan_quoted(b, 34, p, chunk, acc);
            lemma_encode_append(u, seq![c]);
            assert(b.subrange(chunk, p.0 + len1) =~= encode_utf8(u) + e1) by {
                assert forall|j: int| 0 <= j < p.0 + len1 - chunk implies b.subrange(chunk, p.0 + len1)[j] == (encode_utf8(u) + e1)[j] by {
                    if j < p.0 - chunk {
                        assert(b.subrange(chunk, p.0)[j] == encode_utf8(u)[j]);
                    } else {
                        assert(b.subrange(p.0, p.0 + len1)[j - (p.0 - chunk)] == e1[j - (p.0 - chunk)]);
                    }
                }
            }
            lemma_scan_field(b, p2, chunk, acc, u + seq![c], rest);
            assert(acc + (u + seq![c]) + rest =~= acc + u + s);
        }
    }
}

/// An unquoted run of bytes other than `,`, `\r` and `\n` from `i` to `e`.
proof fn lemma_unquoted_run(b: Seq<u8>, i: int, e: int)
    requires
        0 <= i <= e < b.len(),
        forall|j: int| i <= j < e ==> #[trigger] b[j] != 44 && b[j] != 13 && b[j] != 10,
        b[e] == 44 || b[e] == 10,
    ensures
        unquoted_end(b, 44, i) == e,
    decreases e - i,
{
    if i < e {
        lemma_unquoted_run(b, i + 1, e);
    }
}

/// A written field, followed by `,` or `\n`, reads back as the field.
proof fn lemma_read_field(b: Seq<u8>, p: Pos, f: Seq<char>)
    requires
        0 <= p.0,
        p.0 + encode_utf8(field_text(f, 44)).len() < b.len(),
        b.subrange(p.0, p.0 + encode_utf8(field_text(f, 44)).len()) == encode_utf8(field_text(f, 44)),
        b[p.0 + encode_utf8(field_text(f, 44)).len()] == 44 || b[p.0 + encode_utf8(field_text(f, 44)).len()] == 10,
    ensures
        spec_read_field(b, 44, 34, p).0 == Ok::<Seq<char>, Seq<char>>(f),
        spec_read_field(b, 44, 34, p).1.0 == p.0 + encode_utf8(field_text(f, 44)).len(),
{
    let t = encode_utf8(field_text(f, 44));
    let n = t.len() as int;
    if needs_quoting(encode_utf8(f), 44) {
        let ef = escape_quotes(f);
        lemma_encode_append(seq!['"'] + ef, seq!['"']);
        lemma_encode_append(seq!['"'], ef);
        lemma_encode_one('"');
        lemma_char_bytes('"');
        let m = encode_utf8(ef);
        assert(t =~= seq![34u8] + m + seq![34u8]);
        assert(b[p.0] == t[0]);
        assert(b.subrange(p.0 + 1, p.0 + 1 + m.len()) =~= m) by {
            assert forall|j: int| 0 <= j < m.len() implies b.subrange(p.0 + 1, p.0 + 1 + m.len())[j] == m[j] by {
                assert(b.subrange(p.0, p.0 + n)[j + 1] == t[j + 1]);
            }
        }
        assert(b[p.0 + 1 + m.len()] == t[n - 1]);
        assert(b.subrange(p.0 + 1, p.0 + 1) =~= encode_utf8(Seq::<char>::empty()));
        lemma_scan_field(b, (p.0 + 1, p.1, p.2), p.0 + 1, Seq::<char>::empty(), Seq::<char>::empty(), f);
        assert(Seq::<char>::empty() + Seq::<char>::empty() + f =~= f);
    } else {
        assert(t == encode_utf8(f));
        assert forall|j: int| p.0 <= j < p.0 + n implies #[trigger] b[j] != 44 && b[j] != 13 && b[j] != 10 by {
            assert(b.subrange(p.0, p.0 + n)[j - p.0] == t[j - p.0]);
            if forces_quote(t[j - p.0], 44) {
                assert(needs_quoting(t, 44));
            }
        }
        if n > 0 {
            assert(b.subrange(p.0, p.0 + n)[0] == t[0]);
            if t[0] == 34 {
                assert(forces_quote(t[0], 44));
                assert(needs_quoting(t, 44));
            }
        }
        lemma_unquoted_run(b, p.0, p.0 + n);
        lemma_encode_text(f);
    }
}

/// A record's text splits after its first field: that field, `,`, then the rest.
proof fn lemma_fields_front(fs: Seq<Seq<char>>, k: int)
    requires
        2 <= k <= fs.len(),
    ensures
        fields_text(fs, 44, k) == field_text(fs[0], 44) + seq![','] + fields_text(fs.drop_first(), 44, k - 1),
    decreases k,
{
    assert(44u8 as char == ',');
    if k == 2 {
        assert(fields_text(fs.drop_first(), 44, 1) == field_text(fs[1], 44));
        assert(fields_text(fs, 44, 1) == field_text(fs[0], 44));
        assert(fields_text(fs, 44, 2) =~= field_text(fs[0], 44) + seq![','] + field_text(fs[1], 44));
    } else {
        lemma_fields_front(fs, k - 1);
        assert(fs.drop_first()[k - 2] == fs[k - 1]);
        assert(fields_text(fs, 44, k) =~= field_text(fs[0], 44) + seq![','] + fields_text(fs.drop_first(), 44, k - 1));
    }
}

/// The fields of a written record, followed by `\n`, read back as the fields.
proof fn lemma_read_fields(b: Seq<u8>, p: Pos, acc: Seq<Seq<char>>, fs: Seq<Seq<char>>, fuel: nat)
    requires
        fs.len() >= 1,
        fuel >= fs.len(),
        0 <= p.0,
        p.0 + encode_utf8(fields_text(fs, 44, fs.len() as int)).len() < b.len(),
        b.subrange(p.0, p.0 + encode_utf8(fields_text(fs, 44, fs.len() as int)).len()) == encode_utf8(
            fields_text(fs, 44, fs.len() as int),
        ),
        b[p.0 + encode_utf8(fields_text(fs, 44, fs.len() as int)).len()] == 10,
    ensures
        spec_read_fields(b, 44, 34, p, acc, fuel).0 == Ok::<Seq<Seq<char>>, Seq<char>>(acc + fs),
        spec_read_fields(b, 44, 34, p, acc, fuel).1.0 == p.0 + encode_utf8(fields_text(fs, 44, fs.len() as int)).len() + 1,
    decreases fs.len(),
{
    let t = encode_utf8(fields_text(fs, 44, fs.len() as int));
    let f0 = fs[0];
    let t0 = encode_utf8(field_text(f0, 44));
    if fs.len() == 1 {
        assert(fields_text(fs, 44, 1) == field_text(f0, 44));
        lemma_read_field(b, p, f0);
        assert(acc.push(f0) =~= acc + fs);
    } else {
        let rest = fs.drop_first();
        lemma_fields_front(fs, fs.len() as int);
        let tr = encode_utf8(fields_text(rest, 44, rest.len() as int));
        lemma_encode_append(field_text(f0, 44) + seq![','], fields_text(rest, 44, rest.len() as int));
        lemma_encode_append(field_text(f0, 44), seq![',']);
        lemma_encode_one(',');
        lemma_char_bytes(',');
        assert(t =~= t0 + seq![44u8] + tr);
        let n0 = t0.len() as int;
        assert(b.subrange(p.0, p.0 + n0) =~= t0) by {
            assert forall|j: int| 0 <= j < n0 implies b.subrange(p.0, p.0 + n0)[j] == t0[j] by {
                assert(b.subrange(p.0, p.0 + t.len())[j] == t[j]);
            }
        }
        assert(b[p.0 + n0] == 44) by {
            assert(b.subrange(p.0, p.0 + t.len())[n0] == t[n0]);
        }
        lemma_read_field(b, p, f0);
        let p1 = spec_read_field(b, 44, 34, p).1;
        let p2: Pos = (p1.0 + 1, p1.1, p1.2);
        assert(b.subrange(p2.0, p2.0 + tr.len()) =~= tr) by {
            assert forall|j: int| 0 <= j < tr.len() implies b.subrange(p2.0, p2.0 + tr.len())[j] == tr[j] by {
                assert(b.subrange(p.0, p.0 + t.len())[n0 + 1 + j] == t[n0 + 1 + j]);
            }
        }
        lemma_read_fields(b, p2, acc.push(f0), rest, (fuel - 1) as nat);
        assert(acc.push(f0) + rest =~= acc + fs);
    }
}

/// Whether a record is written as a line that the reader takes as a record: it has a
/// field, and is not one empty field (whose line would be blank).
pub open spec fn record_readable(fs: Seq<Seq<char>>) -> bool {
    fs.len() >= 1 && !(fs.len() == 1 && fs[0].len() == 0)
}

/// A written record has a byte for each field separator.
proof fn lemma_fields_len(fs: Seq<Seq<char>>, k: int)
    requires
        1 <= k <= fs.len(),
    ensures
        encode_utf8(fields_text(fs, 44, k)).len() >= k - 1,
    decreases k,
{
    if k > 1 {
        lemma_fields_len(fs, k - 1);
        let a = fields_text(fs, 44, k - 1);
        lemma_encode_append(a.push(44u8 as char), field_text(fs[k - 1], 44));
        assert(a.push(44u8 as char) =~= a + seq![44u8 as char]);
        lemma_encode_append(a, seq![44u8 as char]);
        lemma_encode_one(44u8 as char);
        lemma_char_bytes(',');
        assert(44u8 as char == ',');
    }
}

/// A written record reads back as the record.
proof fn lemma_read_record(b: Seq<u8>, p: Pos, fs: Seq<Seq<char>>)
    requires
        record_readable(fs),
        0 <= p.0,
        p.0 + encode_utf8(record_text(fs, 44)).len() <= b.len(),
        b.subrange(p.0, p.0 + encode_utf8(record_text(fs, 44)).len()) == encode_utf8(record_text(fs, 44)),
    ensures
        spec_read_record(b, 44, 34, p).0 == Some(Ok::<Seq<Seq<char>>, Seq<char>>(fs)),
        spec_read_record(b, 44, 34, p).1.0 == p.0 + encode_utf8(record_text(fs, 44)).len(),
{
    let ft = fields_text(fs, 44, fs.len() as int);
    let t = encode_utf8(ft);
    lemma_encode_append(ft, seq!['\n']);
    lemma_encode_one('\n');
    lemma_char_bytes('\n');
    assert(record_text(fs, 44) =~= ft + seq!['\n']);
    let r = encode_utf8(record_text(fs, 44));
    assert(r =~= t + seq![10u8]);
    let n = t.len() as int;
    assert(b.subrange(p.0, p.0 + n) =~= t) by {
        assert forall|j: int| 0 <= j < n implies b.subrange(p.0, p.0 + n)[j] == t[j] by {
            assert(b.subrange(p.0, p.0 + r.len())[j] == r[j]);
        }
    }
    assert(b[p.0 + n] == 10) by {
        assert(b.subrange(p.0, p.0 + r.len())[n] == r[n]);
    }
    // the line does not start blank
    let f0 = fs[0];
    let t0 = encode_utf8(field_text(f0, 44));
    if fs.len() == 1 {
        assert(ft == field_text(f0, 44));
    } else {
        lemma_fields_front(fs, fs.len() as int);
        lemma_encode_append(field_text(f0, 44) + seq![','], fields_text(fs.drop_first(), 44, fs.len() - 1));
        lemma_encode_append(field_text(f0, 44), seq![',']);
        lemma_encode_one(',');
        lemma_char_bytes(',');
        assert(t.subrange(0, t0.len() as int + 1) =~= t0 + seq![44u8]);
    }
    assert(b[p.0] != 10 && b[p.0] != 13) by {
        assert(b.subrange(p.0, p.0 + r.len())[0] == r[0]);
        if needs_quoting(encode_utf8(f0), 44) {
            lemma_encode_append(seq!['"'] + escape_quotes(f0), seq!['"']);
            lemma_encode_append(seq!['"'], escape_quotes(f0));
            lemma_encode_one('"');
            lemma_char_bytes('"');
            assert(t0[0] == 34);
            assert(t[0] == t0[0]);
        } else if f0.len() > 0 {
            assert(t0 == encode_utf8(f0));
            assert(t0.len() > 0);
            assert(t[0] == t0[0]);
            if t0[0] == 10 || t0[0] == 13 {
                assert(forces_quote(t0[0], 44));
                assert(needs_quoting(t0, 44));
            }
        } else {
            assert(fs.len() >= 2);
            assert(t0 =~= Seq::<u8>::empty());
            assert(t[0] == 44);
        }
    }
    assert(skip_blank(b, p) == p);
    lemma_fields_len(fs, fs.len() as int);
    lemma_read_fields(b, p, Seq::empty(), fs, (b.len() + 1) as nat);
    assert(Seq::<Seq<char>>::empty() + fs =~= fs);
}

/// The text of the first `j` records begins the text of the first `k`.
proof fn lemma_records_prefix(rs: Seq<Seq<Seq<char>>>, j: int, k: int)
    requires
        0 <= j <= k <= rs.len(),
    ensures
        encode_utf8(records_text(rs, 44, j)).len() <= encode_utf8(records_text(rs, 44, k)).len(),
        encode_utf8(records_text(rs, 44, k)).subrange(0, encode_utf8(records_text(rs, 44, j)).len() as int)
            == encode_utf8(records_text(rs, 44, j)),
    decreases k - j,
{
    if j == k {
        assert(encode_utf8(records_text(rs, 44, k)).subrange(0, encode_utf8(records_text(rs, 44, k)).len() as int)
            =~= encode_utf8(records_text(rs, 44, k)));
    } else {
        lemma_records_prefix(rs, j, k - 1);
        lemma_encode_append(records_text(rs, 44, k - 1), record_text(rs[k - 1], 44));
        let a = encode_utf8(records_text(rs, 44, k - 1));
        let c = encode_utf8(records_text(rs, 44, j));
        assert(encode_utf8(records_text(rs, 44, k)).subrange(0, c.len() as int) =~= c) by {
            assert forall|x: int| 0 <= x < c.len() implies encode_utf8(records_text(rs, 44, k)).subrange(0, c.len() as int)[x] == c[x] by {
                assert(a.subrange(0, c.len() as int)[x] == c[x]);
            }
        }
    }
}

/// Each written record takes at least one byte.
proof fn lemma_records_len(rs: Seq<Seq<Seq<char>>>, k: int)
    requires
        0 <= k <= rs.len(),
    ensures
        encode_utf8(records_text(rs, 44, k)).len() >= k,
    decreases k,
{
    if k > 0 {
        lemma_records_len(rs, k - 1);
        let fs = rs[k - 1];
        lemma_encode_append(records_text(rs, 44, k - 1), record_text(fs, 44));
        let ft = fields_text(fs, 44, fs.len() as int);
        assert(record_text(fs, 44) =~= ft + seq!['\n']);
        lemma_encode_append(ft, seq!['\n']);
        lemma_encode_one('\n');
        lemma_char_bytes('\n');
    }
}

/// Reading from the end of the text of the first `i` records gives the rest.
proof fn lemma_parse_records(b: Seq<u8>, rs: Seq<Seq<Seq<char>>>, i: int, p: Pos, fuel: nat)
    requires
        forall|r: int| 0 <= r < rs.len() ==> record_readable(#[trigger] rs[r]),
        b == encode_utf8(records_text(rs, 44, rs.len() as int)),
        0 <= i <= rs.len(),
        p.0 == encode_utf8(records_text(rs, 44, i)).len(),
        fuel >= rs.len() - i + 1,
    ensures
        spec_parse_records(b, p, rs.take(i), fuel) == Ok::<Seq<Seq<Seq<char>>>, (Seq<char>, Pos)>(rs),
    decreases rs.len() - i,
{
    if i == rs.len() {
        assert(skip_blank(b, p) == p);
        assert(rs.take(i) =~= rs);
    } else {
        let fs = rs[i];
        lemma_encode_append(records_text(rs, 44, i), record_text(fs, 44));
        lemma_records_prefix(rs, i + 1, rs.len() as int);
        let a = encode_utf8(records_text(rs, 44, i));
        let r = encode_utf8(record_text(fs, 44));
        let c = encode_utf8(records_text(rs, 44, i + 1));
        assert(c =~= a + r);
        assert(b.subrange(p.0, p.0 + r.len()) =~= r) by {
            assert forall|x: int| 0 <= x < r.len() implies b.subrange(p.0, p.0 + r.len())[x] == r[x] by {
                assert(b.subrange(0, c.len() as int)[a.len() + x] == c[a.len() + x]);
            }
        }
        lemma_read_record(b, p, fs);
        let p1 = spec_read_record(b, 44, 34, p).1;
        assert(rs.take(i).push(fs) =~= rs.take(i + 1));
        lemma_parse_records(b, rs, i + 1, p1, (fuel - 1) as nat);
    }
}

/// Written records read back: for records that each have a field and are not one
/// empty field, reading the text that `records_text` gives (with `,`) yields the
/// same records.
pub proof fn lemma_csv_roundtrip(rs: Seq<Seq<Seq<char>>>)
    requires
        forall|r: int| 0 <= r < rs.len() ==> record_readable(#[trigger] rs[r]),
    ensures
        spec_parse_str(encode_utf8(records_text(rs, 44, rs.len() as int))) == Ok::<Seq<Seq<Seq<char>>>, (Seq<char>, Pos)>(rs),
{
    let b = encode_utf8(records_text(rs, 44, rs.len() as int));
    lemma_records_len(rs, rs.len() as int);
    assert(records_text(rs, 44, 0) =~= Seq::<char>::empty());
    assert(encode_utf8(records_text(rs, 44, 0)) =~= Seq::<u8>::empty());
    assert(rs.take(0) =~= Seq::<Seq<Seq<char>>>::empty());
    lemma_parse_records(b, rs, 0, (0, 1, 0), (b.len() + 1) as nat);
}

} // verus!
