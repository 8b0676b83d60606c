use vstd::prelude::*;
use crate::semver::{
    Version, version_text, spec_parse_version, version_model, identifiers_error, first_ident_error,
    ident_error, is_ident_char, digits_end, plus_end, spec_parse_num, Op, ComparatorModel, op_text,
    comparator_text, comparators_text, req_text, spec_take_op, spec_parse_comparator, spec_comparator_minor,
    spec_comparator_patch, spec_comparator_tail, part_end, pre_end, is_part_char, is_wild, part_value,
    char_at, spec_parse_parts, spec_parse_req,
};
use crate::text::{dec_digits, digit_char, digits_value, all_digits, is_digit, split_on, lemma_split_on_nonempty, is_ws, ws_end, ws_back, trim, is_alnum};

verus! {

/// The decimal digits of `n` are digits, with no leading zero for `n >= 1`, and read
/// back as `n`.
proof fn lemma_dec_digits(n: nat)
    ensures
        dec_digits(n).len() >= 1,
        all_digits(dec_digits(n)),
        n >= 1 ==> dec_digits(n)[0] != '0',
        digits_value(dec_digits(n)) == n,
    decreases n,
{
    if n >= 10 {
        lemma_dec_digits(n / 10);
        let d = dec_digits(n / 10);
        let full = d.push(digit_char(n % 10));
        assert(full.drop_last() =~= d);
        assert(full[0] == d[0]);
        assert(full.last() == digit_char(n % 10));
        assert(dec_digits(n) == full);
        let c = digit_char(n % 10);
        assert(c as u32 == n % 10 + 48);
        assert(digits_value(full) == digits_value(d) * 10 + ((c as u32) - 48) as nat);
        assert((n / 10) * 10 + n % 10 == n);
        assert(digits_value(full) == n);
    } else {
        assert(dec_digits(n) =~= seq![digit_char(n)]);
        assert(dec_digits(n).drop_last() =~= Seq::<char>::empty());
        let c = digit_char(n);
        assert(c as u32 == n + 48);
        let t = dec_digits(n);
        assert(t.last() == c);
        assert(digits_value(t) == digits_value(t.drop_last()) * 10 + ((t.last() as u32) - 48) as nat);
        assert(digits_value(t.drop_last()) == 0);
    }
}

/// A run of digits from `i` that ends at `e`, where a non-digit or the end follows.
proof fn lemma_digits_run(t: Seq<char>, i: int, e: int)
    requires
        0 <= i <= e <= t.len(),
        forall|j: int| i <= j < e ==> is_digit(#[trigger] t[j]),
        e == t.len() || !is_digit(t[e]),
    ensures
        digits_end(t, i) == e,
    decreases e - i,
{
    if i < e {
        lemma_digits_run(t, i + 1, e);
    }
}

/// A run without `+` from `i` that ends at `e`, where a `+` or the end follows.
proof fn lemma_plus_run(t: Seq<char>, i: int, e: int)
    requires
        0 <= i <= e <= t.len(),
        forall|j: int| i <= j < e ==> #[trigger] t[j] != '+',
        e == t.len() || t[e] == '+',
    ensures
        plus_end(t, i) == e,
    decreases e - i,
{
    if i < e {
        lemma_plus_run(t, i + 1, e);
    }
}

/// Each character of `s` other than the separator is in one of its pieces.
proof fn lemma_split_covers(s: Seq<char>, sep: char, i: int)
    requires
        0 <= i < s.len(),
        s[i] != sep,
    ensures
        exists|k: int, j: int|
            0 <= k < split_on(s, sep).len() && 0 <= j < split_on(s, sep)[k].len()
                && #[trigger] split_on(s, sep)[k][j] == s[i],
    decreases s.len(),
{
    let r = split_on(s.drop_last(), sep);
    lemma_split_on_nonempty(s.drop_last(), sep);
    if i == s.len() - 1 {
        let k = r.len() - 1;
        let j = r.last().len() as int;
        assert(split_on(s, sep)[k] == r.last().push(s.last()));
        assert(split_on(s, sep)[k][j] == s[i]);
    } else {
        lemma_split_covers(s.drop_last(), sep, i);
        let (k, j) = choose|k: int, j: int|
            0 <= k < r.len() && 0 <= j < r[k].len() && #[trigger] r[k][j] == s.drop_last()[i];
        if s.last() == sep {
            assert(split_on(s, sep)[k][j] == s[i]);
        } else {
            assert(split_on(s, sep)[k][j] == s[i]);
        }
    }
}

/// Where no identifier has an error, each has none.
proof fn lemma_no_ident_error(ids: Seq<Seq<char>>, nlz: bool, k: int)
    requires
        first_ident_error(ids, nlz) is None,
        0 <= k < ids.len(),
    ensures
        ident_error(ids[k], nlz) is None,
    decreases ids.len(),
{
    if k > 0 {
        lemma_no_ident_error(ids.drop_first(), nlz, k - 1);
    }
}

/// Valid dot-separated identifiers hold no `+`.
proof fn lemma_identifiers_no_plus(text: Seq<char>, nlz: bool)
    requires
        identifiers_error(text, nlz) is None,
    ensures
        forall|i: int| 0 <= i < text.len() ==> #[trigger] text[i] != '+',
{
    assert forall|i: int| 0 <= i < text.len() implies #[trigger] text[i] != '+' by {
        if text[i] == '+' {
            let ps = split_on(text, '.');
            lemma_split_covers(text, '.', i);
            let (k, j) = choose|k: int, j: int|
                0 <= k < ps.len() && 0 <= j < ps[k].len() && #[trigger] ps[k][j] == text[i];
            lemma_no_ident_error(ps, nlz, k);
            assert(is_ident_char(ps[k][j]));
        }
    }
}

/// The decimal digits of `n` at `i`, followed by a non-digit or the end, read as `n`.
proof fn lemma_num_at(t: Seq<char>, i: int, n: u64)
    requires
        0 <= i,
        i + dec_digits(n as nat).len() <= t.len(),
        t.subrange(i, i + dec_digits(n as nat).len()) == dec_digits(n as nat),
        i + dec_digits(n as nat).len() == t.len() || !is_digit(t[i + dec_digits(n as nat).len()]),
    ensures
        spec_parse_num(t, i) == Ok::<(u64, int), Seq<char>>((n, i + dec_digits(n as nat).len())),
{
    let d = dec_digits(n as nat);
    let e = i + d.len();
    lemma_dec_digits(n as nat);
    assert forall|j: int| i <= j < e implies is_digit(#[trigger] t[j]) by {
        assert(t[j] == t.subrange(i, e)[j - i]);
    }
    lemma_digits_run(t, i, e);
    if d.len() > 1 {
        assert(n >= 10);
        assert(t[i] == d[0]);
    }
}

/// The text of a version reads back as the version: where its pre-release and build
/// metadata are empty or valid identifiers, parsing `version_text(v)` gives back its
/// major, minor, patch, pre-release and build metadata.
pub proof fn lemma_version_roundtrip(v: Version)
    requires
        v.pre@.len() == 0 || identifiers_error(v.pre@, true) is None,
        v.build@.len() == 0 || identifiers_error(v.build@, false) is None,
    ensures
        spec_parse_version(version_text(v)) == Ok::<(u64, u64, u64, Seq<char>, Seq<char>), Seq<char>>(
            version_model(v),
        ),
{
    let a = dec_digits(v.major as nat);
    let b = dec_digits(v.minor as nat);
    let c = dec_digits(v.patch as nat);
    let pre = v.pre@;
    let build = v.build@;
    let pp = if pre.len() > 0 { seq!['-'] + pre } else { Seq::<char>::empty() };
    let bb = if build.len() > 0 { seq!['+'] + build } else { Seq::<char>::empty() };
    let t = version_text(v);
    assert(t =~= a + seq!['.'] + b + seq!['.'] + c + pp + bb);
    lemma_dec_digits(v.major as nat);
    lemma_dec_digits(v.minor as nat);
    lemma_dec_digits(v.patch as nat);
    let i1 = a.len() as int;
    let i2 = i1 + 1;
    let i3 = i2 + b.len();
    let i4 = i3 + 1;
    let i5 = i4 + c.len();
    assert(t.subrange(0, i1) =~= a);
    assert(t[i1] == '.');
    lemma_num_at(t, 0, v.major);
    assert(t.subrange(i2, i3) =~= b);
    assert(t[i3] == '.');
    lemma_num_at(t, i2, v.minor);
    assert(t.subrange(i4, i5) =~= c);
    if pre.len() > 0 {
        assert(t[i5] == '-');
    } else if build.len() > 0 {
        assert(t[i5] == '+');
    } else {
        assert(i5 == t.len());
    }
    lemma_num_at(t, i4, v.patch);
    if pre.len() > 0 {
        lemma_identifiers_no_plus(pre, true);
        let e = i5 + 1 + pre.len();
        assert forall|j: int| i5 + 1 <= j < e implies #[trigger] t[j] != '+' by {
            assert(t[j] == pre[j - i5 - 1]);
        }
        if build.len() > 0 {
            assert(t[e] == '+');
            assert(t.subrange(e + 1, t.len() as int) =~= build);
        } else {
            assert(e == t.len());
        }
        lemma_plus_run(t, i5 + 1, e);
        assert(t.subrange(i5 + 1, e) =~= pre);
    } else {
        assert(pre =~= Seq::<char>::empty());
        if build.len() > 0 {
            assert(t.subrange(i5 + 1, t.len() as int) =~= build);
        }
    }
    if build.len() == 0 {
        assert(build =~= Seq::<char>::empty());
    }
}

/// Valid dot-separated identifiers hold only `.` and identifier characters.
proof fn lemma_identifiers_chars(text: Seq<char>, nlz: bool)
    requires
        identifiers_error(text, nlz) is None,
    ensures
        forall|i: int| 0 <= i < text.len() ==> #[trigger] text[i] == '.' || is_ident_char(text[i]),
{
    assert forall|i: int| 0 <= i < text.len() implies #[trigger] text[i] == '.' || is_ident_char(text[i]) by {
        if text[i] != '.' {
            let ps = split_on(text, '.');
            lemma_split_covers(text, '.', i);
            let (k, j) = choose|k: int, j: int|
                0 <= k < ps.len() && 0 <= j < ps[k].len() && #[trigger] ps[k][j] == text[i];
            lemma_no_ident_error(ps, nlz, k);
            assert(is_ident_char(ps[k][j]));
        }
    }
}

/// Whether a comparator is written in a form that reads back as it: a patch only
/// after a minor, a pre-release only after a patch and as valid identifiers, and a
/// wildcard with no patch or pre-release.
pub open spec fn comparator_wf(c: ComparatorModel) -> bool {
    &&& c.3 is Some ==> c.2 is Some
    &&& c.0 == Op::Wildcard ==> c.3 is None && c.4.len() == 0
    &&& c.4.len() > 0 ==> c.3 is Some && identifiers_error(c.4, true) is None
}

proof fn lemma_part_walk(t: Seq<char>, i: int, e: int)
    requires
        0 <= i <= e <= t.len(),
        forall|j: int| i <= j < e ==> is_part_char(#[trigger] t[j]),
        e == t.len() || !is_part_char(t[e]),
    ensures
        part_end(t, i) == e,
    decreases e - i,
{
    if i < e {
        lemma_part_walk(t, i + 1, e);
    }
}

/// The digits of `n` at `i` in `t`, followed by the end or a character that is not
/// part of a version part, read as the part `n`.
proof fn lemma_part_at(t: Seq<char>, i: int, n: u64)
    requires
        0 <= i,
        i + dec_digits(n as nat).len() <= t.len(),
        t.subrange(i, i + dec_digits(n as nat).len()) == dec_digits(n as nat),
        i + dec_digits(n as nat).len() == t.len() || !is_part_char(t[i + dec_digits(n as nat).len()]),
    ensures
        ws_end(t, i) == i,
        part_end(t, i) == i + dec_digits(n as nat).len(),
        t.subrange(i, part_end(t, i)) == dec_digits(n as nat),
        !is_wild(dec_digits(n as nat)),
        part_value(dec_digits(n as nat)) == Some(n),
{
    let d = dec_digits(n as nat);
    lemma_dec_digits(n as nat);
    assert forall|j: int| i <= j < i + d.len() implies is_part_char(#[trigger] t[j]) by {
        assert(t[j] == t.subrange(i, i + d.len())[j - i]);
        assert(is_digit(d[j - i]));
    }
    lemma_part_walk(t, i, i + d.len());
    assert(t[i] == d[0]);
    assert(is_digit(d[0]));
    if is_wild(d) {
        assert(d[0] == '*' || d[0] == 'x' || d[0] == 'X');
    }
}

/// The operator a comparator reads with: its own, or `Caret` for a wildcard (whose
/// operator comes from its `*`).
pub open spec fn read_op(op: Op) -> Op {
    if op == Op::Wildcard {
        Op::Caret
    } else {
        op
    }
}

/// Where the major number of a comparator's text ends.
pub open spec fn major_end(c: ComparatorModel) -> int {
    (op_text(c.0).len() + dec_digits(c.1 as nat).len()) as int
}

/// Where the minor number of a comparator's text ends.
pub open spec fn minor_end(c: ComparatorModel, m: u64) -> int {
    major_end(c) + 1 + dec_digits(m as nat).len()
}

/// The text after the major number.
proof fn lemma_comparator_layout(c: ComparatorModel)
    ensures
        comparator_text(c) == op_text(c.0) + dec_digits(c.1 as nat) + comparator_text(c).subrange(major_end(c), comparator_text(c).len() as int),
        comparator_text(c).subrange(op_text(c.0).len() as int, major_end(c)) == dec_digits(c.1 as nat),
{
    let t = comparator_text(c);
    let o = op_text(c.0);
    let dm = dec_digits(c.1 as nat);
    let rest = t.subrange(major_end(c), t.len() as int);
    assert(t =~= o + dm + rest);
    assert(t.subrange(o.len() as int, major_end(c)) =~= dm);
}

/// Visible ASCII characters are not white space.
proof fn lemma_visible_not_ws(c: char)
    requires
        33 <= (c as u32) <= 126,
    ensures
        !is_ws(c),
{
}

/// An operator's text followed by a digit reads as the operator (a wildcard has none
/// and reads as `Caret`).
proof fn lemma_take_op(t: Seq<char>, op: Op)
    requires
        op_text(op).len() < t.len(),
        t.subrange(0, op_text(op).len() as int) == op_text(op),
        is_digit(t[op_text(op).len() as int]),
    ensures
        spec_take_op(t, 0) == (read_op(op), op_text(op).len() as int),
{
    let o = op_text(op);
    let n = o.len() as int;
    assert forall|i: int| 0 <= i < n implies t[i] == #[trigger] o[i] by {
        assert(t.subrange(0, n)[i] == o[i]);
    }
    let d = t[n];
    assert(48 <= (d as u32) <= 57);
    if n == 0 {
        lemma_visible_not_ws(d);
    } else {
        assert(t[0] == o[0]);
        lemma_visible_not_ws(o[0]);
    }
    assert(ws_end(t, 0) == 0);
    assert(d != '=' && d != '>' && d != '<' && d != '~' && d != '^');
}

/// The text after a comparator's major number is empty or starts with `.`.
proof fn lemma_comparator_rest(c: ComparatorModel)
    ensures
        major_end(c) <= comparator_text(c).len(),
        major_end(c) == comparator_text(c).len() || comparator_text(c)[major_end(c)] == '.',
{
    lemma_comparator_layout(c);
    let t = comparator_text(c);
    let rest = t.subrange(major_end(c), t.len() as int);
    if rest.len() > 0 {
        assert(t[major_end(c)] == rest[0]);
    }
}

/// The head of a comparator's text: operator and major number.
proof fn lemma_comparator_head(c: ComparatorModel)
    requires
        comparator_wf(c),
    ensures
        spec_parse_comparator(comparator_text(c)) == spec_comparator_minor(comparator_text(c), read_op(c.0), c.1, major_end(c)),
{
    let t = comparator_text(c);
    let o = op_text(c.0);
    let dm = dec_digits(c.1 as nat);
    lemma_dec_digits(c.1 as nat);
    lemma_comparator_layout(c);
    lemma_comparator_rest(c);
    let i0 = o.len() as int;
    assert(t[i0] == dm[0]) by {
        assert(t.subrange(i0, major_end(c))[0] == dm[0]);
    }
    assert(t.subrange(0, i0) =~= o);
    lemma_take_op(t, c.0);
    lemma_part_at(t, i0, c.1);
}

/// The text after the minor number, as its pieces.
proof fn lemma_comparator_after_minor(c: ComparatorModel, m: u64)
    requires
        c.2 == Some(m),
    ensures
        minor_end(c, m) <= comparator_text(c).len(),
        comparator_text(c).subrange(minor_end(c, m), comparator_text(c).len() as int) == match c.3 {
            Some(p) => seq!['.'] + dec_digits(p as nat) + (if c.4.len() > 0 { seq!['-'] + c.4 } else { Seq::empty() }),
            None => if c.0 == Op::Wildcard { seq!['.', '*'] } else { Seq::<char>::empty() },
        },
{
    let t = comparator_text(c);
    lemma_comparator_layout(c);
    let dn = dec_digits(m as nat);
    let rest = t.subrange(major_end(c), t.len() as int);
    let rest2 = rest.subrange((1 + dn.len()) as int, rest.len() as int);
    assert(rest =~= seq!['.'] + dn + rest2);
    assert(t.subrange(minor_end(c, m), t.len() as int) =~= rest2);
}

/// A comparator with no patch reads from its minor number on.
proof fn lemma_comparator_no_patch(c: ComparatorModel, m: u64)
    requires
        comparator_wf(c),
        c.2 == Some(m),
        c.3 is None,
    ensures
        spec_comparator_patch(comparator_text(c), read_op(c.0), c.1, m, minor_end(c, m)) == Ok::<ComparatorModel, Seq<char>>(c),
{
    let t = comparator_text(c);
    let e2 = minor_end(c, m);
    lemma_comparator_after_minor(c, m);
    let rest2 = t.subrange(e2, t.len() as int);
    if c.0 == Op::Wildcard {
        assert(t[e2] == rest2[0]);
        assert(t[e2 + 1] == rest2[1]);
        lemma_part_walk(t, e2 + 1, e2 + 2);
        assert(t.subrange(e2 + 1, e2 + 2) =~= seq!['*']);
        lemma_visible_not_ws(t[e2 + 1]);
        lemma_visible_not_ws(t[e2]);
    } else {
        assert(e2 == t.len());
    }
    assert(c.4 =~= Seq::<char>::empty());
}

/// A comparator with a patch reads from its minor number on.
proof fn lemma_comparator_with_patch(c: ComparatorModel, m: u64, pt: u64)
    requires
        comparator_wf(c),
        c.2 == Some(m),
        c.3 == Some(pt),
    ensures
        spec_comparator_patch(comparator_text(c), read_op(c.0), c.1, m, minor_end(c, m)) == Ok::<ComparatorModel, Seq<char>>(c),
{
    let t = comparator_text(c);
    let e2 = minor_end(c, m);
    let pre = c.4;
    lemma_comparator_after_minor(c, m);
    let rest2 = t.subrange(e2, t.len() as int);
    let dp = dec_digits(pt as nat);
    lemma_dec_digits(pt as nat);
    assert(t[e2] == rest2[0]);
    lemma_visible_not_ws(t[e2]);
    let s3 = e2 + 1;
    let e3 = s3 + dp.len();
    assert(t.subrange(s3, e3) =~= dp) by {
        assert forall|j: int| 0 <= j < dp.len() implies t.subrange(s3, e3)[j] == dp[j] by {
            assert(t.subrange(s3, e3)[j] == rest2[1 + j]);
        }
    }
    if pre.len() > 0 {
        assert(t[e3] == rest2[(1 + dp.len()) as int]);
        assert(t[e3] == '-');
        lemma_part_at(t, s3, pt);
        lemma_identifiers_chars(pre, true);
        assert forall|j: int| e3 + 1 <= j < t.len() implies #[trigger] t[j] != '+' && t[j] != ',' && !is_ws(t[j]) by {
            assert(t[j] == rest2[j - e2]);
            assert(t[j] == pre[j - e3 - 1]);
            assert(pre[j - e3 - 1] == '.' || is_ident_char(pre[j - e3 - 1]));
            lemma_visible_not_ws(t[j]);
        }
        lemma_pre_walk(t, e3 + 1, t.len() as int);
        assert(t.subrange(e3 + 1, t.len() as int) =~= pre) by {
            assert forall|j: int| 0 <= j < pre.len() implies t.subrange(e3 + 1, t.len() as int)[j] == pre[j] by {
                assert(t.subrange(e3 + 1, t.len() as int)[j] == rest2[(2 + dp.len()) as int + j]);
            }
        }
    } else {
        assert(e3 == t.len());
        lemma_part_at(t, s3, pt);
        assert(pre =~= Seq::<char>::empty());
    }
}

/// A comparator with no minor number reads from its major number on.
proof fn lemma_comparator_no_minor(c: ComparatorModel)
    requires
        comparator_wf(c),
        c.2 is None,
    ensures
        spec_comparator_minor(comparator_text(c), read_op(c.0), c.1, major_end(c)) == Ok::<ComparatorModel, Seq<char>>(c),
{
    let t = comparator_text(c);
    let e1 = major_end(c);
    lemma_comparator_layout(c);
    let rest = t.subrange(e1, t.len() as int);
    if c.0 == Op::Wildcard {
        assert(rest =~= seq!['.', '*']);
        assert(t[e1] == rest[0]);
        assert(t[e1 + 1] == rest[1]);
        lemma_part_walk(t, e1 + 1, e1 + 2);
        assert(t.subrange(e1 + 1, e1 + 2) =~= seq!['*']);
        lemma_visible_not_ws(t[e1 + 1]);
        lemma_visible_not_ws(t[e1]);
    } else {
        assert(rest.len() == 0);
    }
    assert(c.4 =~= Seq::<char>::empty());
}

/// A comparator with a minor number reads from its major number on.
proof fn lemma_comparator_with_minor(c: ComparatorModel, m: u64)
    requires
        comparator_wf(c),
        c.2 == Some(m),
    ensures
        spec_comparator_minor(comparator_text(c), read_op(c.0), c.1, major_end(c)) == Ok::<ComparatorModel, Seq<char>>(c),
{
    let t = comparator_text(c);
    let e1 = major_end(c);
    lemma_comparator_layout(c);
    lemma_comparator_after_minor(c, m);
    let rest = t.subrange(e1, t.len() as int);
    let dn = dec_digits(m as nat);
    lemma_dec_digits(m as nat);
    let rest2 = rest.subrange((1 + dn.len()) as int, rest.len() as int);
    assert(rest =~= seq!['.'] + dn + rest2);
    assert(t[e1] == rest[0]);
    lemma_visible_not_ws(t[e1]);
    let s2 = e1 + 1;
    let e2 = s2 + dn.len();
    assert(e2 == minor_end(c, m));
    assert(t.subrange(s2, e2) =~= dn) by {
        assert forall|j: int| 0 <= j < dn.len() implies t.subrange(s2, e2)[j] == dn[j] by {
            assert(t.subrange(s2, e2)[j] == rest[1 + j]);
        }
    }
    let after = t.subrange(e2, t.len() as int);
    assert(e2 == t.len() || t[e2] == '.') by {
        if e2 < t.len() {
            assert(t[e2] == after[0]);
        }
    }
    lemma_part_at(t, s2, m);
    match c.3 {
        None => lemma_comparator_no_patch(c, m),
        Some(pt) => lemma_comparator_with_patch(c, m, pt),
    }
}

/// A comparator's text after the major number reads as the comparator.
proof fn lemma_comparator_minor(c: ComparatorModel)
    requires
        comparator_wf(c),
    ensures
        spec_comparator_minor(comparator_text(c), read_op(c.0), c.1, major_end(c)) == Ok::<ComparatorModel, Seq<char>>(c),
{
    match c.2 {
        None => lemma_comparator_no_minor(c),
        Some(m) => lemma_comparator_with_minor(c, m),
    }
}

/// A comparator's text reads back as the comparator.
pub proof fn lemma_comparator_roundtrip(c: ComparatorModel)
    requires
        comparator_wf(c),
    ensures
        spec_parse_comparator(comparator_text(c)) == Ok::<ComparatorModel, Seq<char>>(c),
{
    lemma_comparator_head(c);
    lemma_comparator_minor(c);
}

proof fn lemma_pre_walk(t: Seq<char>, i: int, e: int)
    requires
        0 <= i <= e <= t.len(),
        forall|j: int| i <= j < e ==> #[trigger] t[j] != '+' && t[j] != ',' && !is_ws(t[j]),
        e == t.len(),
    ensures
        pre_end(t, i) == e,
    decreases e - i,
{
    if i < e {
        lemma_pre_walk(t, i + 1, e);
    }
}

/// Whether every character is visible ASCII other than `,`.
pub open spec fn plain_text(s: Seq<char>) -> bool {
    forall|i: int| 0 <= i < s.len() ==> 33 <= (#[trigger] s[i] as u32) <= 126 && s[i] != ','
}

proof fn lemma_plain_concat(a: Seq<char>, b: Seq<char>)
    requires
        plain_text(a),
        plain_text(b),
    ensures
        plain_text(a + b),
{
    assert forall|i: int| 0 <= i < (a + b).len() implies 33 <= (#[trigger] (a + b)[i] as u32) <= 126 && (a + b)[i] != ',' by {
        if i < a.len() {
            assert((a + b)[i] == a[i]);
        } else {
            assert((a + b)[i] == b[i - a.len()]);
        }
    }
}

proof fn lemma_plain_digits(n: nat)
    ensures
        plain_text(dec_digits(n)),
{
    lemma_dec_digits(n);
    assert forall|i: int| 0 <= i < dec_digits(n).len() implies 33 <= (#[trigger] dec_digits(n)[i] as u32) <= 126 && dec_digits(n)[i] != ',' by {
        assert(is_digit(dec_digits(n)[i]));
    }
}

/// A well-formed comparator's text is non-empty visible ASCII without `,`.
proof fn lemma_comparator_plain(c: ComparatorModel)
    requires
        comparator_wf(c),
    ensures
        plain_text(comparator_text(c)),
        comparator_text(c).len() > 0,
        comparator_text(c)[0] != '*',
{
    let (op, major, minor, patch, pre) = c;
    lemma_plain_digits(major as nat);
    lemma_dec_digits(major as nat);
    let o = op_text(op);
    assert(plain_text(o));
    lemma_plain_concat(o, dec_digits(major as nat));
    let wild = seq!['.', '*'];
    assert(plain_text(wild));
    assert(plain_text(Seq::<char>::empty()));
    let tail = match minor {
        Some(m) => seq!['.'] + dec_digits(m as nat) + match patch {
            Some(p) => seq!['.'] + dec_digits(p as nat) + (if pre.len() > 0 {
                seq!['-'] + pre
            } else {
                Seq::empty()
            }),
            None => if op == Op::Wildcard {
                seq!['.', '*']
            } else {
                Seq::empty()
            },
        },
        None => if op == Op::Wildcard {
            seq!['.', '*']
        } else {
            Seq::empty()
        },
    };
    assert(comparator_text(c) == o + dec_digits(major as nat) + tail);
    match minor {
        Some(m) => {
            lemma_plain_digits(m as nat);
            assert(plain_text(seq!['.']));
            lemma_plain_concat(seq!['.'], dec_digits(m as nat));
            match patch {
                Some(p) => {
                    lemma_plain_digits(p as nat);
                    lemma_plain_concat(seq!['.'], dec_digits(p as nat));
                    if pre.len() > 0 {
                        lemma_identifiers_chars(pre, true);
                        assert forall|i: int| 0 <= i < pre.len() implies 33 <= (#[trigger] pre[i] as u32) <= 126 && pre[i] != ',' by {
                            assert(pre[i] == '.' || is_ident_char(pre[i]));
                        }
                        assert(plain_text(seq!['-']));
                        lemma_plain_concat(seq!['-'], pre);
                        lemma_plain_concat(seq!['.'] + dec_digits(p as nat), seq!['-'] + pre);
                    } else {
                        lemma_plain_concat(seq!['.'] + dec_digits(p as nat), Seq::empty());
                    }
                    lemma_plain_concat(seq!['.'] + dec_digits(m as nat), tail.subrange((1 + dec_digits(m as nat).len()) as int, tail.len() as int));
                    assert(tail =~= seq!['.'] + dec_digits(m as nat) + tail.subrange((1 + dec_digits(m as nat).len()) as int, tail.len() as int));
                },
                None => {
                    let t2 = if op == Op::Wildcard { wild } else { Seq::<char>::empty() };
                    lemma_plain_concat(seq!['.'] + dec_digits(m as nat), t2);
                    assert(tail =~= seq!['.'] + dec_digits(m as nat) + t2);
                },
            }
        },
        None => {},
    }
    lemma_plain_concat(o + dec_digits(major as nat), tail);
    if o.len() == 0 {
        assert(comparator_text(c)[0] == dec_digits(major as nat)[0]);
    } else {
        assert(comparator_text(c)[0] == o[0]);
    }
}

/// Splitting after a separator starts an empty piece.
proof fn lemma_split_sep(x: Seq<char>, sep: char)
    ensures
        split_on(x.push(sep), sep) == split_on(x, sep).push(Seq::<char>::empty()),
{
    assert(x.push(sep).drop_last() =~= x);
}

/// Text without the separator extends the last piece.
proof fn lemma_split_extend(x: Seq<char>, y: Seq<char>, sep: char)
    requires
        forall|i: int| 0 <= i < y.len() ==> #[trigger] y[i] != sep,
    ensures
        split_on(x + y, sep) == split_on(x, sep).update(split_on(x, sep).len() - 1, split_on(x, sep).last() + y),
    decreases y.len(),
{
    lemma_split_on_nonempty(x, sep);
    let r = split_on(x, sep);
    if y.len() == 0 {
        assert(x + y =~= x);
        assert(r.last() + y =~= r.last());
        assert(r.update(r.len() - 1, r.last()) =~= r);
    } else {
        let y1 = y.drop_last();
        lemma_split_extend(x, y1, sep);
        assert((x + y).drop_last() =~= x + y1);
        assert((x + y).last() == y.last());
        assert(y.last() == y[y.len() - 1]);
        let r1 = split_on(x + y1, sep);
        assert(r1.last() == r.last() + y1);
        assert(r1.last().push(y.last()) =~= r.last() + y);
        assert(split_on(x + y, sep) =~= r.update(r.len() - 1, r.last() + y));
    }
}

/// Piece `i` of a requirement's text: the first comparator's text, then each other
/// after a space.
pub open spec fn req_piece(cs: Seq<ComparatorModel>, i: int) -> Seq<char> {
    if i == 0 {
        comparator_text(cs[0])
    } else {
        seq![' '] + comparator_text(cs[i])
    }
}

/// The pieces of the text of the first `k` comparators between commas.
proof fn lemma_req_pieces(cs: Seq<ComparatorModel>, k: int)
    requires
        1 <= k <= cs.len(),
        forall|i: int| 0 <= i < cs.len() ==> comparator_wf(#[trigger] cs[i]),
    ensures
        split_on(comparators_text(cs, k), ',').len() == k,
        forall|i: int| 0 <= i < k ==> #[trigger] split_on(comparators_text(cs, k), ',')[i] == req_piece(cs, i),
    decreases k,
{
    let t = comparator_text(cs[k - 1]);
    lemma_comparator_plain(cs[k - 1]);
    if k == 1 {
        lemma_split_extend(Seq::empty(), t, ',');
        assert(Seq::<char>::empty() + t =~= t);
        assert(split_on(Seq::<char>::empty(), ',') =~= seq![Seq::<char>::empty()]);
        assert(Seq::<char>::empty() + t =~= t);
    } else {
        lemma_req_pieces(cs, k - 1);
        let prev = comparators_text(cs, k - 1);
        let y = seq![' '] + t;
        assert(comparators_text(cs, k) =~= prev.push(',') + y);
        lemma_split_sep(prev, ',');
        assert forall|i: int| 0 <= i < y.len() implies #[trigger] y[i] != ',' by {
            if i > 0 {
                assert(y[i] == t[i - 1]);
            }
        }
        lemma_split_extend(prev.push(','), y, ',');
        let r = split_on(prev, ',').push(Seq::<char>::empty());
        assert(Seq::<char>::empty() + y =~= y);
        assert forall|i: int| 0 <= i < k implies #[trigger] split_on(comparators_text(cs, k), ',')[i] == req_piece(cs, i) by {
            if i < k - 1 {
                assert(split_on(comparators_text(cs, k), ',')[i] == split_on(prev, ',')[i]);
            }
        }
    }
}

/// Trimming leaves visible text alone, and drops one leading space.
proof fn lemma_trim_plain(t: Seq<char>)
    requires
        t.len() > 0,
        33 <= (t[0] as u32) <= 126,
        33 <= (t[t.len() - 1] as u32) <= 126,
    ensures
        trim(t) == t,
        trim(seq![' '] + t) == t,
{
    lemma_visible_not_ws(t[0]);
    lemma_visible_not_ws(t[t.len() - 1]);
    assert(ws_end(t, 0) == 0);
    assert(ws_back(t, 0, t.len() as int) == t.len());
    assert(t.subrange(0, t.len() as int) =~= t);
    let u = seq![' '] + t;
    assert(u[0] == ' ');
    assert(u[1] == t[0]);
    assert(ws_end(u, 1) == 1);
    assert(ws_end(u, 0) == 1);
    assert(u[u.len() - 1] == t[t.len() - 1]);
    assert(ws_back(u, 1, u.len() as int) == u.len());
    assert(u.subrange(1, u.len() as int) =~= t);
}

/// Reading the pieces of the first `k` comparators gives them back.
proof fn lemma_parse_pieces(cs: Seq<ComparatorModel>, parts: Seq<Seq<char>>, k: int)
    requires
        0 <= k <= cs.len(),
        k <= parts.len(),
        forall|i: int| 0 <= i < cs.len() ==> comparator_wf(#[trigger] cs[i]),
        forall|i: int| 0 <= i < k ==> #[trigger] parts[i] == req_piece(cs, i),
    ensures
        spec_parse_parts(parts, k) == Ok::<Seq<ComparatorModel>, Seq<char>>(cs.take(k)),
    decreases k,
{
    if k == 0 {
        assert(cs.take(0) =~= Seq::<ComparatorModel>::empty());
    } else {
        lemma_parse_pieces(cs, parts, k - 1);
        let c = cs[k - 1];
        lemma_comparator_plain(c);
        let ct = comparator_text(c);
        assert(33 <= (ct[0] as u32) <= 126);
        assert(33 <= (ct[ct.len() - 1] as u32) <= 126);
        lemma_trim_plain(ct);
        assert(parts[k - 1] == req_piece(cs, k - 1));
        assert(trim(parts[k - 1]) == comparator_text(c));
        lemma_comparator_roundtrip(c);
        assert(cs.take(k - 1).push(c) =~= cs.take(k));
    }
}

/// A requirement's text reads back as the requirement: for comparators that are
/// each written in a form that reads back (see `comparator_wf`), parsing
/// `req_text(cs)` gives `cs`.
pub proof fn lemma_req_roundtrip(cs: Seq<ComparatorModel>)
    requires
        forall|i: int| 0 <= i < cs.len() ==> comparator_wf(#[trigger] cs[i]),
    ensures
        spec_parse_req(req_text(cs)) == Ok::<Seq<ComparatorModel>, Seq<char>>(cs),
{
    if cs.len() == 0 {
        let t = seq!['*'];
        assert(t[0] == '*');
        lemma_trim_plain(t);
        assert(req_text(cs) == t);
        assert(trim(t) =~= seq!['*']);
        assert(cs =~= Seq::<ComparatorModel>::empty());
    } else {
        let n = cs.len() as int;
        let t = comparators_text(cs, n);
        lemma_req_pieces(cs, n);
        lemma_req_plain(cs, n);
        lemma_trim_plain(t);
        lemma_parse_pieces(cs, split_on(t, ','), n);
        assert(cs.take(n) =~= cs);
        lemma_comparator_plain(cs[0]);
        lemma_req_first(cs, n);
        assert(t[0] == comparator_text(cs[0])[0]);
        assert(!(t =~= seq!['*']));
        assert(trim(t) == t);
        assert(req_text(cs) == t);
        assert(spec_parse_parts(split_on(t, ','), n) == Ok::<Seq<ComparatorModel>, Seq<char>>(cs));
        assert(split_on(trim(t), ',').len() == n);
        assert(spec_parse_req(t) == spec_parse_parts(split_on(t, ','), n));
    }
}

/// The text of the first `k` comparators is non-empty visible ASCII.
proof fn lemma_req_plain(cs: Seq<ComparatorModel>, k: int)
    requires
        1 <= k <= cs.len(),
        forall|i: int| 0 <= i < cs.len() ==> comparator_wf(#[trigger] cs[i]),
    ensures
        comparators_text(cs, k).len() > 0,
        forall|i: int| 0 <= i < comparators_text(cs, k).len() ==> 33 <= (#[trigger] comparators_text(cs, k)[i] as u32) <= 126 || comparators_text(cs, k)[i] == ' ',
        33 <= (comparators_text(cs, k)[0] as u32) <= 126,
        33 <= (comparators_text(cs, k)[comparators_text(cs, k).len() - 1] as u32) <= 126,
    decreases k,
{
    lemma_comparator_plain(cs[k - 1]);
    if k > 1 {
        lemma_req_plain(cs, k - 1);
        let prev = comparators_text(cs, k - 1);
        let t = comparator_text(cs[k - 1]);
        let all = comparators_text(cs, k);
        assert(all =~= prev + seq![',', ' '] + t);
        assert forall|i: int| 0 <= i < all.len() implies 33 <= (#[trigger] all[i] as u32) <= 126 || all[i] == ' ' by {
            if i < prev.len() {
                assert(all[i] == prev[i]);
            } else if i >= prev.len() + 2 {
                assert(all[i] == t[i - prev.len() - 2]);
            }
        }
        assert(all[0] == prev[0]);
        assert(all[all.len() - 1] == t[t.len() - 1]);
    }
}

/// The text of comparators starts with the first one's.
proof fn lemma_req_first(cs: Seq<ComparatorModel>, k: int)
    requires
        1 <= k <= cs.len(),
    ensures
        comparators_text(cs, k).len() >= comparator_text(cs[0]).len(),
        forall|i: int| 0 <= i < comparator_text(cs[0]).len() ==> #[trigger] comparators_text(cs, k)[i] == comparator_text(cs[0])[i],
    decreases k,
{
    if k > 1 {
        lemma_req_first(cs, k - 1);
        let prev = comparators_text(cs, k - 1);
        let all = comparators_text(cs, k);
        assert(all =~= prev + seq![',', ' '] + comparator_text(cs[k - 1]));
        assert forall|i: int| 0 <= i < comparator_text(cs[0]).len() implies #[trigger] all[i] == comparator_text(cs[0])[i] by {
            assert(all[i] == prev[i]);
        }
    }
}

} // verus!
