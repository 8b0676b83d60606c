use vstd::prelude::*;
use crate::ryu::Decomposed;
use crate::ryu::interval::{
    digits_value, reads_back, distance_to, lemma_shortest_within_gaps, lemma_shortest_no_fewer,
    lemma_shortest_closest, lemma_estimate_independent,
};
use crate::ryu::bn::{Bn, two_pow, ten_pow, lemma_two_pow_add, lemma_ten_pow_add, lemma_two_pow_pos, lemma_ten_pow_pos};

verus! {

/// 2^52, the hidden bit of a normal float's mantissa.
pub open spec fn hidden() -> int {
    0x10_0000_0000_0000
}

/// The biased exponent field of a float's bits.
pub open spec fn raw_exp(bits: u64) -> int {
    (bits as int / hidden()) % 2048
}

/// The stored mantissa field of a float's bits.
pub open spec fn raw_mant(bits: u64) -> int {
    bits as int % hidden()
}

/// Whether the bits are those of a finite nonzero float.
pub open spec fn finite_nonzero(bits: u64) -> bool {
    raw_exp(bits) != 2047 && bits as int % 0x8000_0000_0000_0000 != 0
}

/// The integer mantissa, with the hidden bit for a normal float.
pub open spec fn mantissa(bits: u64) -> nat {
    (if raw_exp(bits) == 0 {
        raw_mant(bits)
    } else {
        hidden() + raw_mant(bits)
    }) as nat
}

/// The binary exponent: the float is `mantissa * 2^exponent`.
pub open spec fn exponent(bits: u64) -> int {
    if raw_exp(bits) == 0 {
        1 - 1075
    } else {
        raw_exp(bits) - 1075
    }
}

/// Whether the float sits on a power of two, where the gap below is half the gap above.
pub open spec fn at_boundary(bits: u64) -> bool {
    raw_mant(bits) == 0 && raw_exp(bits) > 1
}

/// `a - b`, or zero where `b` is the larger.
pub open spec fn gap(a: nat, b: nat) -> nat {
    if a > b {
        (a - b) as nat
    } else {
        0
    }
}

/// The start `(r, s, mp, mm)` for `m * 2^e`: the float is `r / s`, and `mp / s`,
/// `mm / s` are the half gaps to its neighbours above and below.
pub open spec fn start(m: nat, e: int, boundary: bool) -> (nat, nat, nat, nat) {
    if e >= 0 {
        if boundary {
            (m * two_pow((e + 2) as nat), 4, two_pow((e + 1) as nat), two_pow(e as nat))
        } else {
            (m * two_pow((e + 1) as nat), 2, two_pow(e as nat), two_pow(e as nat))
        }
    } else if boundary {
        (m * 4, two_pow((2 - e) as nat), 2, 1)
    } else {
        (m * 2, two_pow((1 - e) as nat), 1, 1)
    }
}

/// The start scaled by the estimate `k`: `s` times `10^k` where `k >= 0`, else `r`,
/// `mp` and `mm` times `10^-k`.
pub open spec fn scaled(t: (nat, nat, nat, nat), k: int) -> (nat, nat, nat, nat) {
    if k >= 0 {
        (t.0, t.1 * ten_pow(k as nat), t.2, t.3)
    } else {
        (t.0 * ten_pow((-k) as nat), t.1, t.2 * ten_pow((-k) as nat), t.3 * ten_pow((-k) as nat))
    }
}

/// Whether `(r + mp) / s` is too large for the exponent: at least one for an even
/// mantissa, above one for an odd one.
pub open spec fn too_high(r: nat, mp: nat, s: nat, even: bool) -> bool {
    if even {
        r + mp >= s
    } else {
        r + mp > s
    }
}

/// Whether `(r + mp) / s` is too small for the exponent: at most a tenth. (Where it
/// is exactly a tenth the exponent goes one lower, so that the value with the gap
/// above is always more than a tenth and no decimal with fewer digits is missed.)
pub open spec fn too_low(r: nat, mp: nat, s: nat) -> bool {
    (r + mp) * 10 <= s
}

/// Raises the exponent `k`, multiplying `s` by ten, while the value is too high.
pub open spec fn raise(r: nat, mp: nat, s: nat, k: int, even: bool) -> (nat, int)
    decreases gap(r + mp + 1, s),
{
    if s > 0 && too_high(r, mp, s, even) {
        raise(r, mp, s * 10, k + 1, even)
    } else {
        (s, k)
    }
}

/// Lowers the exponent `k`, multiplying `r`, `mp` and `mm` by ten, while the value is
/// too low.
pub open spec fn lower(r: nat, mp: nat, mm: nat, s: nat, k: int) -> (nat, nat, nat, int)
    decreases gap(s + 1, (r + mp) * 10),
{
    if r + mp > 0 && too_low(r, mp, s) {
        lower(r * 10, mp * 10, mm * 10, s, k - 1)
    } else {
        (r, mp, mm, k)
    }
}

/// The digit that ends the generation: the digit `q` where only the gap below is
/// reached, one more where only the gap above is, and where both are, the nearer of
/// the two, an even digit on a tie.
pub open spec fn last_digit(q: int, r: nat, s: nat, low: bool, high: bool) -> int {
    if low && !high {
        q
    } else if !low && high {
        q + 1
    } else if 2 * r < s {
        q
    } else if 2 * r > s {
        q + 1
    } else if q % 2 == 0 {
        q
    } else {
        q + 1
    }
}

/// Adds one to the decimal whose first `j` digits are `d[0..j]`, with exponent `k`:
/// nines before the place turn to zeros and carry; where every digit was a nine, the
/// result is a single one with the exponent one higher.
pub open spec fn carry(d: Seq<u8>, j: nat, k: int) -> (Seq<u8>, int)
    decreases j,
{
    if j == 0 {
        (d.update(0, 1), k + 1)
    } else if d[j - 1] < 9 {
        (d.update(j - 1, (d[j - 1] + 1) as u8), k)
    } else {
        carry(d.update(j - 1, 0), (j - 1) as nat, k)
    }
}

/// Digit generation into `d` from place `c`: each round multiplies `r`, `mp` and `mm`
/// by ten and takes the quotient of `r` by `s` as the next digit; generation stops at
/// seventeen digits or where the rest falls within a half gap, rounding the last
/// digit (a last digit of ten is written as zero and carried into the digits before
/// it).
pub open spec fn gen(r: nat, mp: nat, mm: nat, s: nat, even: bool, d: Seq<u8>, c: nat, k: int) -> (Seq<u8>, nat, int)
    decreases 17 - c,
{
    if s == 0 || c >= 17 {
        (d, c, k)
    } else {
        let r1 = r * 10;
        let mp1 = mp * 10;
        let mm1 = mm * 10;
        let q = r1 / s;
        let r2 = r1 % s;
        let low = if even { r2 <= mm1 } else { r2 < mm1 };
        let high = if even { r2 + mp1 >= s } else { r2 + mp1 > s };
        if !low && !high {
            if c + 1 >= 17 {
                (d.update(c as int, q as u8), c + 1, k)
            } else {
                gen(r2, mp1, mm1, s, even, d.update(c as int, q as u8), c + 1, k)
            }
        } else {
            let f = last_digit(q as int, r2, s, low, high);
            if f == 10 {
                let (d2, k2) = carry(d.update(c as int, 0), c, k);
                (d2, c + 1, k2)
            } else {
                (d.update(c as int, f as u8), c + 1, k)
            }
        }
    }
}

/// Seventeen zero digits.
pub open spec fn zero_digits() -> Seq<u8> {
    Seq::new(17, |i: int| 0u8)
}

/// The count of digits without trailing zeros, keeping at least one.
pub open spec fn trimmed(d: Seq<u8>, c: nat) -> nat
    decreases c,
{
    if c > 1 && d[c - 1] == 0 {
        trimmed(d, (c - 1) as nat)
    } else {
        c
    }
}

/// The shortest decimal digits of the finite nonzero float with bits `bits`, found
/// from the exponent estimate `k_est`: the digits (seventeen places), how many count,
/// and the decimal exponent.
pub open spec fn shortest_digits(bits: u64, k_est: int) -> (Seq<u8>, nat, int) {
    let m = mantissa(bits);
    let even = m % 2 == 0;
    let t = scaled(start(m, exponent(bits), at_boundary(bits)), k_est);
    let (s1, k1) = raise(t.0, t.2, t.1, k_est, even);
    let (r2, mp2, mm2, k2) = lower(t.0, t.2, t.3, s1, k1);
    let (d, c, k3) = gen(r2, mp2, mm2, s1, even, zero_digits(), 0, k2);
    (d, trimmed(d, c), k3)
}

proof fn lemma_two_pow_mono(a: nat, b: nat)
    requires
        a <= b,
    ensures
        two_pow(a) <= two_pow(b),
{
    lemma_two_pow_add(a, (b - a) as nat);
    lemma_two_pow_pos((b - a) as nat);
    let x = two_pow(a);
    let y = two_pow((b - a) as nat);
    assert(x <= x * y) by (nonlinear_arith)
        requires
            y >= 1,
    ;
}

proof fn lemma_ten_pow_mono(a: nat, b: nat)
    requires
        a <= b,
    ensures
        ten_pow(a) <= ten_pow(b),
{
    lemma_ten_pow_add(a, (b - a) as nat);
    lemma_ten_pow_pos((b - a) as nat);
    let x = ten_pow(a);
    let y = ten_pow((b - a) as nat);
    assert(x <= x * y) by (nonlinear_arith)
        requires
            y >= 1,
    ;
}

proof fn lemma_ten_pow_strict(a: nat, b: nat)
    requires
        a < b,
    ensures
        ten_pow(a) < ten_pow(b),
{
    lemma_ten_pow_mono(a, (b - 1) as nat);
    lemma_ten_pow_pos((b - 1) as nat);
}

proof fn lemma_two_le_ten(j: nat)
    ensures
        two_pow(j) <= ten_pow(j),
    decreases j,
{
    if j > 0 {
        lemma_two_le_ten((j - 1) as nat);
    }
}

/// The mantissa of a finite nonzero float is in `1..2^53` and its exponent in
/// `-1074..=971`.
pub(crate) proof fn lemma_parts(bits: u64)
    requires
        finite_nonzero(bits),
    ensures
        1 <= mantissa(bits) < two_pow(53),
        -1074 <= exponent(bits) <= 971,
{
    reveal_with_fuel(two_pow, 54);
}

/// The unscaled start: the value plus upper gap is below `2^1027`, `s` in
/// `1..=2^1076`, and the value and gap are positive.
pub(crate) proof fn lemma_start_unscaled(m: nat, e: int, b: bool)
    requires
        1 <= m < two_pow(53),
        -1074 <= e <= 971,
    ensures
        ({
            let t = start(m, e, b);
            &&& t.0 + t.2 < two_pow(1027)
            &&& t.0 >= 1
            &&& t.2 >= 1
            &&& 1 <= t.1 <= two_pow(1076)
        }),
{
    let big = two_pow(53);
    lemma_two_pow_add(53, 973);
    lemma_two_pow_add(1026, 1);
    assert(two_pow(1) == 2 && two_pow(2) == 4) by {
        reveal_with_fuel(two_pow, 3);
    }
    lemma_two_pow_mono(2, 1076);
    if e >= 0 {
        let sh = if b { (e + 2) as nat } else { (e + 1) as nat };
        lemma_two_pow_mono(sh, 973);
        lemma_two_pow_mono((e + 1) as nat, 1026);
        lemma_two_pow_mono(e as nat, 1026);
        lemma_two_pow_pos(sh);
        lemma_two_pow_pos(e as nat);
        lemma_two_pow_pos((e + 1) as nat);
        let p = two_pow(sh);
        let q = two_pow(973);
        assert(m * p < big * q) by (nonlinear_arith)
            requires
                m < big,
                p <= q,
                p >= 1,
        ;
        assert(m * p >= 1) by (nonlinear_arith)
            requires
                m >= 1,
                p >= 1,
        ;
    } else {
        let sh = if b { (2 - e) as nat } else { (1 - e) as nat };
        lemma_two_pow_mono(sh, 1076);
        lemma_two_pow_pos(sh);
        lemma_two_pow_mono(55, 1026);
        lemma_two_pow_add(53, 2);
    }
}

/// Bounds on the scaled start: the value plus upper gap stays below `10^1377`, and
/// `s` lies in `1..10^1430`; the gap above and the value are positive.
proof fn lemma_start_bounds(bits: u64, k_est: int)
    requires
        finite_nonzero(bits),
        -350 <= k_est <= 350,
    ensures
        ({
            let t = scaled(start(mantissa(bits), exponent(bits), at_boundary(bits)), k_est);
            &&& t.0 + t.2 < ten_pow(1377)
            &&& 1 <= t.1 < ten_pow(1430)
            &&& t.2 >= 1
            &&& t.0 >= 1
        }),
{
    let t0 = start(mantissa(bits), exponent(bits), at_boundary(bits));
    lemma_parts(bits);
    lemma_start_unscaled(mantissa(bits), exponent(bits), at_boundary(bits));
    lemma_two_le_ten(1027);
    lemma_two_le_ten(1076);
    lemma_ten_pow_add(1027, 350);
    lemma_ten_pow_add(1076, 350);
    lemma_ten_pow_strict(1426, 1430);
    lemma_ten_pow_mono(1027, 1377);
    lemma_ten_pow_mono(1076, 1426);
    let c1 = ten_pow(1027);
    let c2 = ten_pow(1076);
    let d = ten_pow(350);
    if k_est >= 0 {
        let tp = ten_pow(k_est as nat);
        lemma_ten_pow_mono(k_est as nat, 350);
        lemma_ten_pow_pos(k_est as nat);
        let s0 = t0.1;
        assert(1 <= s0 * tp <= c2 * d) by (nonlinear_arith)
            requires
                1 <= s0 <= c2,
                1 <= tp <= d,
        ;
    } else {
        let tp = ten_pow((-k_est) as nat);
        lemma_ten_pow_mono((-k_est) as nat, 350);
        lemma_ten_pow_pos((-k_est) as nat);
        let a = t0.0;
        let g = t0.2;
        assert(a * tp + g * tp < c1 * d) by (nonlinear_arith)
            requires
                a + g < c1,
                1 <= tp <= d,
        ;
        assert(a * tp >= 1 && g * tp >= 1) by (nonlinear_arith)
            requires
                a >= 1,
                g >= 1,
                tp >= 1,
        ;
    }
}

/// The start `(r, s, mp, mm)` of a finite nonzero float's bits, as `start` says, and
/// whether its mantissa is even.
fn setup(bits: u64) -> (res: (Bn, Bn, Bn, Bn, bool))
    requires
        finite_nonzero(bits),
    ensures
        res.0.wf() && res.1.wf() && res.2.wf() && res.3.wf(),
        (res.0.val(), res.1.val(), res.2.val(), res.3.val()) == start(mantissa(bits), exponent(bits), at_boundary(bits)),
        res.4 == (mantissa(bits) % 2 == 0),
{
    let raw_exp = (bits / 0x10_0000_0000_0000) % 0x800;
    let raw_mant = bits % 0x10_0000_0000_0000;
    let m: u64 = if raw_exp == 0 { raw_mant } else { 0x10_0000_0000_0000 + raw_mant };
    let e: i32 = if raw_exp == 0 { 1 - 1075 } else { raw_exp as i32 - 1075 };
    let boundary = raw_mant == 0 && raw_exp > 1;
    let even = m % 2 == 0;
    let mut r = Bn::from_u64(m);
    let mut s = Bn::from_u64(1);
    let mut mp = Bn::from_u64(1);
    let mut mm = Bn::from_u64(1);
    proof {
        reveal_with_fuel(two_pow, 3);
    }
    if e >= 0 {
        if boundary {
            r.shl(e as u32 + 2);
            s.shl(2);
            mp.shl(e as u32 + 1);
            mm.shl(e as u32);
        } else {
            r.shl(e as u32 + 1);
            s.shl(1);
            mp.shl(e as u32);
            mm.shl(e as u32);
        }
    } else if boundary {
        r.shl(2);
        s.shl((2 - e) as u32);
        mp.shl(1);
    } else {
        r.shl(1);
        s.shl((1 - e) as u32);
    }
    proof {
        let t = start(mantissa(bits), exponent(bits), at_boundary(bits));
        if e >= 0 {
            lemma_one_times(two_pow(e as nat));
            lemma_one_times(two_pow((e + 1) as nat));
        } else {
            lemma_one_times(two_pow((2 - e) as nat));
            lemma_one_times(two_pow((1 - e) as nat));
        }
    }
    (r, s, mp, mm, even)
}

proof fn lemma_one_times(x: nat)
    ensures
        1 * x == x,
{
}

/// Whether `(r + mp) / s` is too large, as `too_high` says.
fn is_too_high(r: &Bn, mp: &Bn, s: &Bn, even: bool) -> (b: bool)
    requires
        r.wf(),
        mp.wf(),
        s.wf(),
    ensures
        b == too_high(r.val(), mp.val(), s.val(), even),
{
    let mut t = r.duplicate();
    t.add(mp);
    let c = t.compare(s);
    if even {
        c != -1
    } else {
        c == 1
    }
}

/// Whether `(r + mp) / s` is too small, as `too_low` says.
fn is_too_low(r: &Bn, mp: &Bn, s: &Bn) -> (b: bool)
    requires
        r.wf(),
        mp.wf(),
        s.wf(),
    ensures
        b == too_low(r.val(), mp.val(), s.val()),
{
    let mut t = r.duplicate();
    t.add(mp);
    t.mul_u32(10);
    let c = t.compare(s);
    c != 1
}

/// Raises the exponent while the value is too high, as `raise` says.
fn raise_exp(r: &Bn, mp: &Bn, s: &mut Bn, k: &mut i32, even: bool)
    requires
        r.wf(),
        mp.wf(),
        old(s).wf(),
        r.val() + mp.val() < ten_pow(1377),
        1 <= old(s).val() < ten_pow(1430),
        mp.val() >= 1,
        -350 <= *old(k) <= 350,
    ensures
        final(s).wf(),
        (final(s).val(), *final(k) as int) == raise(r.val(), mp.val(), old(s).val(), *old(k) as int, even),
        1 <= final(s).val() < ten_pow(1430),
        -350 <= *final(k) <= 350 + 1377,
        r.val() < final(s).val(),
{
    let ghost s0 = s.val();
    let ghost k0 = *k as int;
    let ghost a = r.val() + mp.val();
    assert(s0 * ten_pow(0) == s0) by (nonlinear_arith)
        requires
            ten_pow(0) == 1,
    ;
    assert(((*k - k0) as nat) == 0);
    while is_too_high(r, mp, s, even)
        invariant
            r.wf(),
            mp.wf(),
            s.wf(),
            a == r.val() + mp.val(),
            a < ten_pow(1377),
            mp.val() >= 1,
            1 <= s0,
            k0 <= *k <= k0 + 1377,
            -350 <= k0 <= 350,
            s.val() == s0 * ten_pow((*k - k0) as nat),
            1 <= s.val() < ten_pow(1430),
            raise(r.val(), mp.val(), s0, k0, even) == raise(r.val(), mp.val(), s.val(), *k as int, even),
        decreases gap(a + 1, s.val()),
    {
        let ghost j = (*k - k0) as nat;
        proof {
            lemma_ten_pow_pos(j);
            let tj = ten_pow(j);
            assert(tj <= s0 * tj) by (nonlinear_arith)
                requires
                    s0 >= 1,
            ;
            if j >= 1377 {
                lemma_ten_pow_mono(1377, j);
            }
            lemma_ten_pow_strict(1378, 1430);
            assert(ten_pow(1378) == 10 * ten_pow(1377));
            assert(ten_pow(j + 1) == 10 * ten_pow(j));
            assert(s0 * (10 * tj) == (s0 * tj) * 10) by (nonlinear_arith);
        }
        s.mul_u32(10);
        *k = *k + 1;
    }
}

/// Lowers the exponent while the value is too low, as `lower` says.
fn lower_exp(r: &mut Bn, mp: &mut Bn, mm: &mut Bn, s: &Bn, k: &mut i32)
    requires
        old(r).wf(),
        old(mp).wf(),
        old(mm).wf(),
        s.wf(),
        old(mp).val() >= 1,
        old(r).val() < s.val(),
        s.val() < ten_pow(1430),
        -350 <= *old(k) <= 350 + 1377,
    ensures
        final(r).wf(),
        final(mp).wf(),
        final(mm).wf(),
        (final(r).val(), final(mp).val(), final(mm).val(), *final(k) as int) == lower(
            old(r).val(),
            old(mp).val(),
            old(mm).val(),
            s.val(),
            *old(k) as int,
        ),
        final(r).val() < s.val(),
        final(mp).val() >= 1,
        -350 - 1430 <= *final(k) <= 350 + 1377,
{
    let ghost r0 = r.val();
    let ghost mp0 = mp.val();
    let ghost mm0 = mm.val();
    let ghost k0 = *k as int;
    assert(r0 * ten_pow(0) == r0 && mp0 * ten_pow(0) == mp0 && mm0 * ten_pow(0) == mm0) by (nonlinear_arith)
        requires
            ten_pow(0) == 1,
    ;
    assert(((k0 - *k) as nat) == 0);
    while is_too_low(r, mp, s)
        invariant
            r.wf(),
            mp.wf(),
            mm.wf(),
            s.wf(),
            s.val() < ten_pow(1430),
            k0 - 1430 <= *k <= k0,
            -350 <= k0 <= 350 + 1377,
            r.val() == r0 * ten_pow((k0 - *k) as nat),
            mp.val() == mp0 * ten_pow((k0 - *k) as nat),
            mm.val() == mm0 * ten_pow((k0 - *k) as nat),
            mp0 >= 1,
            mp.val() >= 1,
            r.val() < s.val(),
            lower(r0, mp0, mm0, s.val(), k0) == lower(r.val(), mp.val(), mm.val(), s.val(), *k as int),
        decreases gap(s.val() + 1, (r.val() + mp.val()) * 10),
    {
        let ghost j = (k0 - *k) as nat;
        proof {
            let tj = ten_pow(j);
            lemma_ten_pow_pos(j);
            assert((r0 + mp0) * tj >= tj) by (nonlinear_arith)
                requires
                    r0 + mp0 >= 1,
            ;
            assert(r.val() + mp.val() == (r0 + mp0) * tj) by (nonlinear_arith)
                requires
                    r.val() == r0 * tj,
                    mp.val() == mp0 * tj,
            ;
            assert(ten_pow(j + 1) == 10 * tj);
            if j + 1 >= 1430 {
                lemma_ten_pow_mono(1430, j + 1);
            }
            assert(r0 * (10 * tj) == (r0 * tj) * 10) by (nonlinear_arith);
            assert(mp0 * (10 * tj) == (mp0 * tj) * 10) by (nonlinear_arith);
            assert(mm0 * (10 * tj) == (mm0 * tj) * 10) by (nonlinear_arith);
        }
        r.mul_u32(10);
        mp.mul_u32(10);
        mm.mul_u32(10);
        *k = *k - 1;
    }
}

/// The quotient and remainder of `r` by `s`, for `r < 10 s`: subtracts `s` from `r`
/// while it is not below `s`, counting.
fn divide_small(r: &mut Bn, s: &Bn) -> (q: u8)
    requires
        old(r).wf(),
        s.wf(),
        s.val() >= 1,
        old(r).val() < 10 * s.val(),
    ensures
        final(r).wf(),
        q <= 9,
        q == old(r).val() / s.val(),
        final(r).val() == old(r).val() % s.val(),
{
    let ghost r0 = r.val();
    let mut d: u8 = 0;
    while r.compare(s) != -1
        invariant
            r.wf(),
            s.wf(),
            s.val() >= 1,
            r0 < 10 * s.val(),
            d <= 9,
            r.val() + d * s.val() == r0,
        decreases r.val(),
    {
        proof {
            let sv = s.val();
            assert((d + 1) * sv <= r0 ==> d + 1 <= 9) by (nonlinear_arith)
                requires
                    r0 < 10 * sv,
                    sv >= 1,
            ;
            assert((d + 1) * sv == d * sv + sv) by (nonlinear_arith);
        }
        r.sub(s);
        d += 1;
    }
    proof {
        vstd::arithmetic::div_mod::lemma_fundamental_div_mod_converse(r0 as int, s.val() as int, d as int, r.val() as int);
    }
    d
}

/// Generates the digits from place `count` on, as `gen` says.
fn gen_digits(r: Bn, mp: Bn, mm: Bn, s: &Bn, even: bool, digits: [u8; 17], count: usize, k: i32) -> (res: ([u8; 17], usize, i32))
    requires
        r.wf(),
        mp.wf(),
        mm.wf(),
        s.wf(),
        r.val() < s.val(),
        count < 17,
        forall|i: int| 0 <= i < count ==> #[trigger] digits@[i] < 10,
        -2000 <= k <= 2000,
    ensures
        (res.0@, res.1 as nat, res.2 as int) == gen(r.val(), mp.val(), mm.val(), s.val(), even, digits@, count as nat, k as int),
        count < res.1 <= 17,
        forall|i: int| 0 <= i < res.1 ==> #[trigger] res.0@[i] < 10,
        k <= res.2 <= k + 1,
    decreases 17 - count,
{
    let ghost rv = r.val();
    let ghost dg = digits@;
    let ghost c = count as nat;
    let mut r = r;
    let mut mp = mp;
    let mut mm = mm;
    let mut digits = digits;
    let mut count = count;
    r.mul_u32(10);
    mp.mul_u32(10);
    mm.mul_u32(10);
    let d = divide_small(&mut r, s);
    let ghost q = (rv * 10) / s.val();
    assert(d == q && r.val() == (rv * 10) % s.val());
    let low = if even { r.compare(&mm) != 1 } else { r.compare(&mm) == -1 };
    let mut r_plus = r.duplicate();
    r_plus.add(&mp);
    let high = if even { r_plus.compare(s) != -1 } else { r_plus.compare(s) == 1 };
    if !low && !high {
        digits[count] = d;
        count += 1;
        assert(digits@ == dg.update(c as int, q as u8));
        if count >= 17 {
            return (digits, count, k);
        }
        return gen_digits(r, mp, mm, s, even, digits, count, k);
    }
    let ghost f = last_digit(q as int, r.val(), s.val(), low, high);
    let final_d = if low && !high {
        d
    } else if !low && high {
        d + 1
    } else {
        let mut r2 = r.duplicate();
        r2.shl(1);
        let c = r2.compare(s);
        proof {
            reveal_with_fuel(two_pow, 2);
            let a = r.val();
            let b = r2.val();
            assert(b == 2 * a) by (nonlinear_arith)
                requires
                    b == a * two_pow(1),
                    two_pow(1) == 2,
            ;
        }
        if c == -1 {
            d
        } else if c == 1 {
            d + 1
        } else if d % 2 == 0 {
            d
        } else {
            d + 1
        }
    };
    let mut k = k;
    let ghost old_k = k;
    if final_d == 10 {
        digits[count] = 0;
        let ghost target = carry(digits@, c, k as int);
        let mut j = count;
        count += 1;
        loop
            invariant_except_break
                j <= c,
                c < 17,
                digits@.len() == 17,
                carry(digits@, j as nat, k as int) == target,
                k == old_k,
                -2000 <= old_k <= 2000,
                forall|i: int| 0 <= i <= c ==> #[trigger] digits@[i] < 10,
            ensures
                (digits@, k as int) == target,
                old_k <= k <= old_k + 1,
                forall|i: int| 0 <= i <= c ==> #[trigger] digits@[i] < 10,
            decreases j,
        {
            if j == 0 {
                digits[0] = 1;
                k += 1;
                break;
            }
            if digits[j - 1] < 9 {
                digits[j - 1] += 1;
                break;
            }
            digits[j - 1] = 0;
            j -= 1;
        }
    } else {
        digits[count] = final_d;
        count += 1;
    }
    assert(final_d == f);
    assert(f != 10 ==> digits@ =~= dg.update(c as int, f as u8));
    (digits, count, k)
}

/// The shortest decimal digits of the finite nonzero float with bits `bits`, as
/// `shortest_digits` says, from an estimate `k_est` of its decimal exponent. The
/// decimal `0.d1..dn * 10^k` they make reads back as the float; no decimal with fewer
/// significant digits does; of the decimals at the last digit's place that do, it is
/// the closest to the float, an even one on a tie; and the estimate changes nothing.
pub fn shortest(bits: u64, k_est: i32) -> (d: Decomposed)
    requires
        finite_nonzero(bits),
        -350 <= k_est <= 350,
    ensures
        d.wf(),
        d.neg == (bits >= 0x8000_0000_0000_0000),
        (d.digits@, d.n as nat, d.k as int) == shortest_digits(bits, k_est as int),
        reads_back(bits, digits_value(d.digits@, d.n as nat), d.k - d.n),
        forall|nn: nat, e: int| nn < ten_pow((d.n - 1) as nat) ==> !#[trigger] reads_back(bits, nn, e),
        forall|xx: nat| #[trigger] reads_back(bits, xx, d.k - d.n) ==> distance_to(
            bits,
            digits_value(d.digits@, d.n as nat),
            d.k - d.n,
        ) <= distance_to(bits, xx, d.k - d.n) && (distance_to(bits, digits_value(d.digits@, d.n as nat), d.k - d.n)
            == distance_to(bits, xx, d.k - d.n) && xx != digits_value(d.digits@, d.n as nat) ==> digits_value(
            d.digits@,
            d.n as nat,
        ) % 2 == 0),
        forall|k2: int| -350 <= k2 <= 350 ==> #[trigger] shortest_digits(bits, k2) == shortest_digits(bits, k_est as int),
{
    proof {
        lemma_shortest_within_gaps(bits, k_est as int);
        lemma_shortest_no_fewer(bits, k_est as int);
        lemma_shortest_closest(bits, k_est as int);
        assert forall|k2: int| -350 <= k2 <= 350 implies #[trigger] shortest_digits(bits, k2) == shortest_digits(bits, k_est as int) by {
            lemma_estimate_independent(bits, k2, k_est as int);
        }
    }
    let neg = bits >= 0x8000_0000_0000_0000;
    let (mut r, mut s, mut mp, mut mm, even) = setup(bits);
    proof {
        lemma_start_bounds(bits, k_est as int);
    }
    let mut k = k_est;
    if k >= 0 {
        s.mul_pow10(k as u32);
    } else {
        let p = (-k) as u32;
        r.mul_pow10(p);
        mp.mul_pow10(p);
        mm.mul_pow10(p);
    }
    raise_exp(&r, &mp, &mut s, &mut k, even);
    lower_exp(&mut r, &mut mp, &mut mm, &s, &mut k);
    let zeros = [0u8; 17];
    assert(zeros@ =~= zero_digits());
    let (digits, count, k) = gen_digits(r, mp, mm, &s, even, zeros, 0, k);
    let ghost c0 = count as nat;
    let mut count = count;
    while count > 1 && digits[count - 1] == 0
        invariant
            1 <= count <= c0 <= 17,
            digits@.len() == 17,
            trimmed(digits@, c0) == trimmed(digits@, count as nat),
        decreases count,
    {
        count -= 1;
    }
    Decomposed { digits, n: count, k, neg }
}

} // verus!
