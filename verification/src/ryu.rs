use vstd::prelude::*;
pub mod bn;
pub mod shortest;
pub mod interval;
use crate::json::{i64_text, write_i64};
use crate::text::{push_char, push_str};
use crate::ryu::shortest::{finite_nonzero, raw_exp, raw_mant, shortest, shortest_digits};

verus! {

/// A finite nonzero float in decimal: the digits `digits[..n]` of `0.d1d2...` times
/// `10^k`, and its sign.
pub struct Decomposed {
    pub digits: [u8; 17],
    pub n: usize,
    pub k: i32,
    pub neg: bool,
}

impl Decomposed {
    /// Whether there are one to seventeen digits, each below ten.
    pub open spec fn wf(&self) -> bool {
        &&& 1 <= self.n <= 17
        &&& forall|i: int| 0 <= i < self.n ==> #[trigger] self.digits@[i] < 10
    }
}

/// The characters of decimal digits.
pub open spec fn digit_text(d: Seq<u8>) -> Seq<char> {
    d.map_values(|x: u8| (x + 48) as char)
}

/// `m` zeros.
pub open spec fn zeros(m: int) -> Seq<char> {
    Seq::new(if m > 0 { m as nat } else { 0 }, |i: int| '0')
}

/// Scientific notation: the first digit, the others after a point, then `e`, a `+`
/// for a nonnegative exponent, and the exponent.
pub open spec fn sci_text(d: Seq<u8>, exp: int) -> Seq<char> {
    digit_text(d.take(1)) + (if d.len() > 1 { seq!['.'] + digit_text(d.skip(1)) } else { Seq::empty() })
        + seq!['e'] + (if exp >= 0 { seq!['+'] } else { Seq::empty() }) + i64_text(exp as i64)
}

/// The digits written with the point at `k` (leading zeros for `k <= 0`, trailing zeros
/// and `.0` for `k` past the digits).
pub open spec fn plain_text(d: Seq<u8>, k: int) -> Seq<char> {
    if k <= 0 {
        seq!['0', '.'] + zeros(-k) + digit_text(d)
    } else if k >= d.len() {
        digit_text(d) + zeros(k - d.len()) + seq!['.', '0']
    } else {
        digit_text(d.take(k)) + seq!['.'] + digit_text(d.skip(k))
    }
}

/// How the digits `d` times `10^k` are written: in scientific notation where the
/// exponent `k - 1` is below -5 or at least 16, else as a plain decimal with at least
/// one digit after the point.
pub open spec fn decimal_text(d: Seq<u8>, k: int, neg: bool) -> Seq<char> {
    (if neg { seq!['-'] } else { Seq::empty() }) + if k - 1 < -5 || k - 1 >= 16 {
        sci_text(d, k - 1)
    } else {
        plain_text(d, k)
    }
}

/// Appends the digits `d[lo..hi]`.
fn push_digits(out: &mut String, d: &[u8; 17], lo: usize, hi: usize)
    requires
        lo <= hi <= 17,
        forall|i: int| lo <= i < hi ==> #[trigger] d@[i] < 10,
    ensures
        final(out)@ == old(out)@ + digit_text(d@.subrange(lo as int, hi as int)),
{
    let ghost start = out@;
    let mut i = lo;
    while i < hi
        invariant
            lo <= i <= hi <= 17,
            forall|j: int| lo <= j < hi ==> #[trigger] d@[j] < 10,
            out@ == start + digit_text(d@.subrange(lo as int, i as int)),
        decreases hi - i,
    {
        let x = d[i];
        push_char(out, (x + 48) as char);
        assert(digit_text(d@.subrange(lo as int, i + 1)) =~= digit_text(d@.subrange(lo as int, i as int)).push(
            (x + 48) as char,
        ));
        i = i + 1;
    }
}

/// Appends `m` zeros.
fn push_zeros(out: &mut String, m: i32)
    ensures
        final(out)@ == old(out)@ + zeros(m as int),
{
    let ghost start = out@;
    let mut i: i32 = 0;
    while i < m
        invariant
            0 <= i,
            m >= 0 ==> i <= m,
            m < 0 ==> i == 0,
            out@ == start + zeros(i as int),
        decreases m - i,
    {
        push_char(out, '0');
        assert(zeros(i + 1) =~= zeros(i as int).push('0'));
        i = i + 1;
    }
    assert(zeros(i as int) =~= zeros(m as int));
}

/// Appends the digits in scientific notation.
fn push_sci(out: &mut String, d: &Decomposed, exp: i64)
    requires
        d.wf(),
    ensures
        final(out)@ == old(out)@ + sci_text(d.digits@.take(d.n as int), exp as int),
{
    let ghost start = out@;
    let ghost ds = d.digits@.take(d.n as int);
    push_digits(out, &d.digits, 0, 1);
    let ghost s1 = out@;
    if d.n > 1 {
        push_char(out, '.');
        push_digits(out, &d.digits, 1, d.n);
    }
    assert(ds.take(1) =~= d.digits@.subrange(0, 1));
    assert(ds.skip(1) =~= d.digits@.subrange(1, d.n as int));
    let ghost s2 = out@;
    push_char(out, 'e');
    if exp >= 0 {
        push_char(out, '+');
    }
    write_i64(out, exp);
    assert(out@ =~= start + sci_text(ds, exp as int));
}

/// Appends the digits with the point at `k`.
fn push_plain(out: &mut String, d: &Decomposed, k: i32)
    requires
        d.wf(),
        -5 <= k <= 16,
    ensures
        final(out)@ == old(out)@ + plain_text(d.digits@.take(d.n as int), k as int),
{
    let ghost start = out@;
    let ghost ds = d.digits@.take(d.n as int);
    assert(ds =~= d.digits@.subrange(0, d.n as int));
    let nd = d.n as i32;
    if k <= 0 {
        push_char(out, '0');
        push_char(out, '.');
        push_zeros(out, -k);
        push_digits(out, &d.digits, 0, d.n);
    } else if k >= nd {
        push_digits(out, &d.digits, 0, d.n);
        push_zeros(out, k - nd);
        push_char(out, '.');
        push_char(out, '0');
    } else {
        let kk = k as usize;
        push_digits(out, &d.digits, 0, kk);
        push_char(out, '.');
        push_digits(out, &d.digits, kk, d.n);
        assert(ds.take(k as int) =~= d.digits@.subrange(0, k as int));
        assert(ds.skip(k as int) =~= d.digits@.subrange(k as int, d.n as int));
    }
    assert(out@ =~= start + plain_text(ds, k as int));
}

/// Appends a decomposed float, as `decimal_text` says.
pub fn format_digits(out: &mut String, d: &Decomposed)
    requires
        d.wf(),
    ensures
        final(out)@ == old(out)@ + decimal_text(d.digits@.take(d.n as int), d.k as int, d.neg),
{
    let ghost start = out@;
    if d.neg {
        push_char(out, '-');
    }
    let exp: i64 = (d.k as i64) - 1;
    if exp < -5 || exp >= 16 {
        push_sci(out, d, exp);
    } else {
        push_plain(out, d, d.k);
    }
    assert(out@ =~= start + decimal_text(d.digits@.take(d.n as int), d.k as int, d.neg));
}

/// Appends the decimal text of `n`.
pub fn write_int(out: &mut String, n: i64)
    ensures
        final(out)@ == old(out)@ + i64_text(n),
{
    write_i64(out, n);
}

/// The text of the float with bits `bits`: `NaN`, `inf` or `0.0` with its sign, or the
/// shortest digits (found from the exponent estimate `k_est`) as `decimal_text` writes
/// them.
pub open spec fn float_text(bits: u64, k_est: int) -> Seq<char> {
    let neg = bits >= 0x8000_0000_0000_0000;
    let sign = if neg { seq!['-'] } else { Seq::empty() };
    if raw_exp(bits) == 2047 {
        if raw_mant(bits) != 0 {
            "NaN"@
        } else {
            sign + "inf"@
        }
    } else if bits as int % 0x8000_0000_0000_0000 == 0 {
        sign + "0.0"@
    } else {
        let t = shortest_digits(bits, k_est);
        decimal_text(t.0.take(t.1 as int), t.2, neg)
    }
}

/// Appends the text of the float with bits `bits`, as `float_text` says; `k_est`
/// estimates the decimal exponent of a finite nonzero float.
pub fn write_f64_bits(out: &mut String, bits: u64, k_est: i32)
    requires
        finite_nonzero(bits) ==> -350 <= k_est <= 350,
    ensures
        final(out)@ == old(out)@ + float_text(bits, k_est as int),
{
    let ghost start = out@;
    let raw_exp = (bits / 0x10_0000_0000_0000) % 0x800;
    let raw_mant = bits % 0x10_0000_0000_0000;
    let neg = bits >= 0x8000_0000_0000_0000;
    if raw_exp == 0x7FF && raw_mant != 0 {
        push_str(out, "NaN");
        return;
    }
    if raw_exp == 0x7FF {
        if neg {
            push_char(out, '-');
        }
        push_str(out, "inf");
        assert(out@ =~= start + float_text(bits, k_est as int));
        return;
    }
    if bits % 0x8000_0000_0000_0000 == 0 {
        if neg {
            push_char(out, '-');
        }
        push_str(out, "0.0");
        assert(out@ =~= start + float_text(bits, k_est as int));
        return;
    }
    let d = shortest(bits, k_est);
    format_digits(out, &d);
}

} // verus!
