use vstd::prelude::*;
use crate::ryu::bn::{ten_pow, two_pow, lemma_ten_pow_add, lemma_ten_pow_pos, lemma_two_pow_add, lemma_two_pow_pos};
use crate::ryu::shortest::{
    gen, carry, last_digit, raise, lower, too_high, too_low, start, scaled, trimmed, shortest_digits, mantissa,
    exponent, at_boundary, finite_nonzero, zero_digits, hidden, lemma_parts, lemma_start_unscaled,
};

verus! {

/// The number whose decimal digits are `d[0..n]`.
pub open spec fn digits_value(d: Seq<u8>, n: nat) -> nat
    decreases n,
{
    if n == 0 {
        0
    } else {
        digits_value(d, (n - 1) as nat) * 10 + d[n - 1] as nat
    }
}

/// Changing a digit at or after place `n` leaves the value of the first `n` alone.
pub proof fn lemma_value_update(d: Seq<u8>, i: int, x: u8, n: nat)
    requires
        n <= i < d.len(),
    ensures
        digits_value(d.update(i, x), n) == digits_value(d, n),
    decreases n,
{
    if n > 0 {
        lemma_value_update(d, i, x, (n - 1) as nat);
    }
}

/// A one followed by zeros is a power of ten.
proof fn lemma_value_unit(d: Seq<u8>, c: nat)
    requires
        c < d.len(),
        d[0] == 1,
        forall|i: int| 1 <= i <= c ==> #[trigger] d[i] == 0,
    ensures
        digits_value(d, c + 1) == ten_pow(c),
    decreases c,
{
    if c > 0 {
        lemma_value_unit(d, (c - 1) as nat);
        assert(d[c as int] == 0);
        assert(ten_pow(c) == 10 * ten_pow((c - 1) as nat));
    } else {
        assert(digits_value(d, 0) == 0);
        assert(ten_pow(0) == 1);
    }
}

/// Adding one to the first `j` digits: their value goes up by one and the digits
/// from `j` on stay; or, where they were all nines, a one followed by zeros with the
/// exponent one higher.
pub proof fn lemma_carry(d: Seq<u8>, j: nat, k: int)
    requires
        j < d.len(),
        forall|i: int| 0 <= i < j ==> #[trigger] d[i] <= 9,
    ensures
        ({
            let (d2, k2) = carry(d, j, k);
            &&& d2.len() == d.len()
            &&& k2 == k ==> digits_value(d2, j) == digits_value(d, j) + 1 && forall|i: int| j <= i < d.len() ==> #[trigger] d2[i] == d[i]
            &&& k2 != k ==> {
                &&& k2 == k + 1
                &&& digits_value(d, j) + 1 == ten_pow(j)
                &&& d2[0] == 1
                &&& forall|i: int| 1 <= i < j ==> #[trigger] d2[i] == 0
                &&& forall|i: int| j <= i < d.len() && i >= 1 ==> #[trigger] d2[i] == d[i]
            }
        }),
    decreases j,
{
    if j == 0 {
    } else if d[j - 1] < 9 {
        let d2 = d.update(j - 1, (d[j - 1] + 1) as u8);
        lemma_value_update(d, j - 1, (d[j - 1] + 1) as u8, (j - 1) as nat);
    } else {
        let d1 = d.update(j - 1, 0);
        assert forall|i: int| 0 <= i < j - 1 implies #[trigger] d1[i] <= 9 by {
            assert(d1[i] == d[i]);
        }
        lemma_carry(d1, (j - 1) as nat, k);
        lemma_value_update(d, j - 1, 0, (j - 1) as nat);
        let (d2, k2) = carry(d1, (j - 1) as nat, k);
        assert(carry(d, j, k) == carry(d1, (j - 1) as nat, k));
        if k2 == k {
            assert(d2[j - 1] == d1[j - 1]);
        } else {
            assert(ten_pow(j) == 10 * ten_pow((j - 1) as nat));
            if j >= 2 {
                assert(d2[j - 1] == d1[j - 1]);
            }
        }
    }
}

/// Digit generation from place `c` stops by rounding, within seventeen digits, and
/// the digits it gives lie within the half gaps: where the digits so far and the rest
/// `r / s` make up `w / s` at place `c`, and the generated digits (after a carry,
/// scaled back to exponent `k`) make up `nv` at place `n`, the value `nv / s` differs
/// from `w / s` (both scaled to place `n`) by at most the gap below `mm` and the gap
/// above `mp`, strictly for an odd mantissa.
pub proof fn lemma_gen_interval(r: nat, mp: nat, mm: nat, s: nat, even: bool, d: Seq<u8>, c: nat, k: int)
    requires
        s > 0,
        r < s,
        mp >= 1,
        c < 17,
        d.len() == 17,
        forall|i: int| 0 <= i < c ==> #[trigger] d[i] <= 9,
        (mp + mm) * ten_pow((17 - c) as nat) > s,
    ensures
        ({
            let (d2, n, k2) = gen(r, mp, mm, s, even, d, c, k);
            let x = (n - c) as nat;
            let w = digits_value(d, c) * s + r;
            let nv = digits_value(d2, n) * ten_pow((k2 - k) as nat);
            &&& c < n <= 17
            &&& d2.len() == 17
            &&& k <= k2 <= k + 1
            &&& if even {
                w * ten_pow(x) <= nv * s + mm * ten_pow(x)
            } else {
                w * ten_pow(x) < nv * s + mm * ten_pow(x)
            }
            &&& if even {
                nv * s <= w * ten_pow(x) + mp * ten_pow(x)
            } else {
                nv * s < w * ten_pow(x) + mp * ten_pow(x)
            }
        }),
    decreases 17 - c,
{
    let r1 = r * 10;
    let mp1 = mp * 10;
    let mm1 = mm * 10;
    let q = r1 / s;
    let r2 = r1 % s;
    vstd::arithmetic::div_mod::lemma_fundamental_div_mod(r1 as int, s as int);
    assert(r1 == q * s + r2);
    assert(r2 < s);
    assert(q <= 9) by (nonlinear_arith)
        requires
            r1 == q * s + r2,
            r < s,
            r1 == r * 10,
            s > 0,
    ;
    let low = if even { r2 <= mm1 } else { r2 < mm1 };
    let high = if even { r2 + mp1 >= s } else { r2 + mp1 > s };
    let dv = digits_value(d, c);
    let w = dv * s + r;
    assert(w * 10 == dv * 10 * s + r1) by (nonlinear_arith)
        requires
            w == dv * s + r,
            r1 == r * 10,
    ;
    assert(ten_pow(1) == 10) by {
        reveal_with_fuel(ten_pow, 2);
    }
    if !low && !high {
        let tc = ten_pow((16 - c) as nat);
        assert(ten_pow((17 - c) as nat) == 10 * tc);
        assert((mp + mm) * ten_pow((17 - c) as nat) == (mp1 + mm1) * tc) by (nonlinear_arith)
            requires
                ten_pow((17 - c) as nat) == 10 * tc,
                mp1 == mp * 10,
                mm1 == mm * 10,
        ;
        if c + 1 >= 17 {
            assert(tc == 1);
            assert((mp1 + mm1) * tc == mp1 + mm1) by (nonlinear_arith)
                requires
                    tc == 1,
            ;
            assert(false);
        }
        let d1 = d.update(c as int, q as u8);
        assert forall|i: int| 0 <= i < c + 1 implies #[trigger] d1[i] <= 9 by {
            if i < c {
                assert(d1[i] == d[i]);
            }
        }
        lemma_value_update(d, c as int, q as u8, c);
        assert(digits_value(d1, c + 1) == dv * 10 + q);
        lemma_gen_interval(r2, mp1, mm1, s, even, d1, c + 1, k);
        let (d2, n, k2) = gen(r2, mp1, mm1, s, even, d1, c + 1, k);
        assert(gen(r, mp, mm, s, even, d, c, k) == gen(r2, mp1, mm1, s, even, d1, c + 1, k));
        let x1 = (n - (c + 1)) as nat;
        let t1 = ten_pow(x1);
        assert(ten_pow((x1 + 1) as nat) == 10 * t1);
        let w1 = digits_value(d1, c + 1) * s + r2;
        assert(w1 == w * 10) by (nonlinear_arith)
            requires
                w1 == (dv * 10 + q) * s + r2,
                w * 10 == dv * 10 * s + r1,
                r1 == q * s + r2,
        ;
        assert(w1 * t1 == w * (10 * t1)) by (nonlinear_arith)
            requires
                w1 == w * 10,
        ;
        assert(mm1 * t1 == mm * (10 * t1)) by (nonlinear_arith)
            requires
                mm1 == mm * 10,
        ;
        assert(mp1 * t1 == mp * (10 * t1)) by (nonlinear_arith)
            requires
                mp1 == mp * 10,
        ;
        assert((n - c) as nat == (x1 + 1) as nat);
    } else {
        let f = last_digit(q as int, r2, s, low, high);
        assert(f == q ==> low);
        assert(f != q ==> f == q + 1 && high);
        let (d2, n, k2) = gen(r, mp, mm, s, even, d, c, k);
        let nv = digits_value(d2, n) * ten_pow((k2 - k) as nat);
        if f == 10 {
            let d0 = d.update(c as int, 0);
            assert forall|i: int| 0 <= i < c implies #[trigger] d0[i] <= 9 by {
                assert(d0[i] == d[i]);
            }
            lemma_carry(d0, c, k);
            lemma_value_update(d, c as int, 0, c);
            let (d3, k3) = carry(d0, c, k);
            assert(d2 == d3 && k2 == k3 && n == c + 1);
            if k3 == k {
                assert(d3[c as int] == 0);
                assert(ten_pow(0) == 1);
                assert(nv == (dv + 1) * 10);
                assert(nv == dv * 10 + 10);
            } else {
                if c >= 1 {
                    assert(d3[c as int] == d0[c as int]);
                }
                assert forall|i: int| 1 <= i <= c implies #[trigger] d3[i] == 0 by {
                    if i < c {
                    } else {
                        assert(d3[i] == d0[i]);
                    }
                }
                lemma_value_unit(d3, c);
                assert(ten_pow((c + 1) as nat) == 10 * ten_pow(c));
                assert(nv == ten_pow(c) * 10);
                assert(digits_value(d0, c) + 1 == ten_pow(c));
                assert(digits_value(d0, c) == dv);
                let tp = ten_pow(c);
                assert(nv == dv * 10 + 10) by (nonlinear_arith)
                    requires
                        nv == tp * 10,
                        dv + 1 == tp,
                ;
            }
            assert(f == 10);
            assert(nv == dv * 10 + 10);
        } else {
            assert(d2 == d.update(c as int, f as u8) && k2 == k && n == c + 1);
            lemma_value_update(d, c as int, f as u8, c);
            assert(ten_pow(0) == 1);
            assert(0 <= f <= 9);
            assert(d2[c as int] as int == f);
            assert(digits_value(d2, c + 1) == dv * 10 + f);
            assert(nv == digits_value(d2, c + 1) * 1);
            assert(nv == dv * 10 + f);
        }
        assert(nv * s == dv * 10 * s + f * s) by (nonlinear_arith)
            requires
                nv == dv * 10 + f,
        ;
        assert((q + 1) * s == q * s + s) by (nonlinear_arith);
        assert(mm * 10 == mm1 && mp * 10 == mp1);
    }
}

/// Raising the exponent multiplies `s` by a power of ten, up to where the value is no
/// longer too high.
proof fn lemma_raise(r: nat, mp: nat, s: nat, k: int, even: bool)
    requires
        s > 0,
    ensures
        ({
            let (s1, k1) = raise(r, mp, s, k, even);
            &&& k1 >= k
            &&& s1 == s * ten_pow((k1 - k) as nat)
            &&& !too_high(r, mp, s1, even)
        }),
    decreases gap(r + mp + 1, s),
{
    assert(ten_pow(0) == 1);
    if too_high(r, mp, s, even) {
        lemma_raise(r, mp, s * 10, k + 1, even);
        let (s1, k1) = raise(r, mp, s * 10, k + 1, even);
        let j = (k1 - (k + 1)) as nat;
        assert(ten_pow(j + 1) == 10 * ten_pow(j));
        assert((k1 - k) as nat == j + 1);
        assert(s * 10 * ten_pow(j) == s * (10 * ten_pow(j))) by (nonlinear_arith);
    } else {
        assert(s * 1 == s);
    }
}

/// `a - b`, or zero where `b` is the larger.
spec fn gap(a: nat, b: nat) -> nat {
    crate::ryu::shortest::gap(a, b)
}

/// Lowering the exponent multiplies `r`, `mp` and `mm` by a power of ten, up to where
/// the value is no longer too low, and keeps the value with the gap above within `s`.
proof fn lemma_lower(r: nat, mp: nat, mm: nat, s: nat, k: int)
    requires
        r + mp >= 1,
        r + mp <= s,
    ensures
        ({
            let (r2, mp2, mm2, k2) = lower(r, mp, mm, s, k);
            &&& k2 <= k
            &&& r2 == r * ten_pow((k - k2) as nat)
            &&& mp2 == mp * ten_pow((k - k2) as nat)
            &&& mm2 == mm * ten_pow((k - k2) as nat)
            &&& !too_low(r2, mp2, s)
            &&& r2 + mp2 <= s
        }),
    decreases crate::ryu::shortest::gap(s + 1, (r + mp) * 10),
{
    assert(ten_pow(0) == 1);
    if too_low(r, mp, s) {
        assert(r * 10 + mp * 10 >= 1 && r * 10 + mp * 10 <= s);
        lemma_lower(r * 10, mp * 10, mm * 10, s, k - 1);
        let (r2, mp2, mm2, k2) = lower(r * 10, mp * 10, mm * 10, s, k - 1);
        let j = (k - 1 - k2) as nat;
        let t = ten_pow(j);
        assert(ten_pow(j + 1) == 10 * t);
        assert((k - k2) as nat == j + 1);
        assert(r * 10 * t == r * (10 * t)) by (nonlinear_arith);
        assert(mp * 10 * t == mp * (10 * t)) by (nonlinear_arith);
        assert(mm * 10 * t == mm * (10 * t)) by (nonlinear_arith);
    } else {
        assert(r * 1 == r && mp * 1 == mp && mm * 1 == mm);
    }
}

/// Dropping trailing zeros divides the digits' value by a power of ten.
proof fn lemma_trimmed(d: Seq<u8>, c: nat)
    requires
        1 <= c <= d.len(),
    ensures
        1 <= trimmed(d, c) <= c,
        digits_value(d, c) == digits_value(d, trimmed(d, c)) * ten_pow((c - trimmed(d, c)) as nat),
    decreases c,
{
    if c > 1 && d[c - 1] == 0 {
        lemma_trimmed(d, (c - 1) as nat);
        let t = trimmed(d, c);
        let j = (c - 1 - t) as nat;
        assert(ten_pow(j + 1) == 10 * ten_pow(j));
        assert((c - t) as nat == j + 1);
        let v = digits_value(d, t);
        assert(trimmed(d, c) == trimmed(d, (c - 1) as nat));
        assert(digits_value(d, c) == digits_value(d, (c - 1) as nat) * 10);
        assert(v * ten_pow(j) * 10 == v * (10 * ten_pow(j))) by (nonlinear_arith);
    } else {
        assert(ten_pow(0) == 1);
        let v = digits_value(d, c);
        assert(v * 1 == v);
    }
}

/// The start's value is twice the mantissa times the gap above; the gap below equals
/// it, or is half of it on a power of two.
proof fn lemma_start_ratio(m: nat, e: int, b: bool)
    ensures
        ({
            let t = start(m, e, b);
            &&& t.0 == 2 * m * t.2
            &&& b ==> 2 * t.3 == t.2
            &&& !b ==> t.3 == t.2
        }),
{
    assert(two_pow(1) == 2) by {
        reveal_with_fuel(two_pow, 2);
    }
    if e >= 0 {
        lemma_two_pow_add(e as nat, 1);
        lemma_two_pow_add((e + 1) as nat, 1);
        let p = two_pow(e as nat);
        let p1 = two_pow((e + 1) as nat);
        assert(p1 == p * 2);
        assert(two_pow((e + 2) as nat) == p1 * 2);
        if b {
            assert(m * (p1 * 2) == 2 * m * p1) by (nonlinear_arith);
        } else {
            assert(m * (p * 2) == 2 * m * p) by (nonlinear_arith);
        }
    } else {
        if b {
            assert(m * 4 == 2 * m * 2) by (nonlinear_arith);
        } else {
            assert(m * 2 == 2 * m * 1) by (nonlinear_arith);
        }
    }
}

/// Whether the decimal `nv * 10^ex` lies within the gaps of the value `r / s`: no
/// further below it than `mm / s` and no further above than `mp / s`, strictly so
/// where `even` is false.
pub open spec fn within_gaps(nv: nat, ex: int, r: nat, s: nat, mp: nat, mm: nat, even: bool) -> bool {
    if ex >= 0 {
        let a = nv * ten_pow(ex as nat) * s;
        if even {
            r <= a + mm && a <= r + mp
        } else {
            r < a + mm && a < r + mp
        }
    } else {
        let t = ten_pow((-ex) as nat);
        if even {
            r * t <= nv * s + mm * t && nv * s <= r * t + mp * t
        } else {
            r * t < nv * s + mm * t && nv * s < r * t + mp * t
        }
    }
}

/// A positive factor cancels from both sides of an inequality.
proof fn lemma_cancel(f: int, x: int, y: int)
    requires
        f > 0,
    ensures
        f * x <= f * y ==> x <= y,
        f * x < f * y ==> x < y,
{
    if x > y {
        assert(f * x > f * y) by (nonlinear_arith)
            requires
                f > 0,
                x > y,
        ;
    }
    if x >= y {
        assert(f * x >= f * y) by (nonlinear_arith)
            requires
                f > 0,
                x >= y,
        ;
    }
}

/// Generation stops by rounding within seventeen digits: the gaps together exceed a
/// seventeenth-digit step.
proof fn lemma_enough_digits(m: nat, r: nat, mp: nat, mm: nat, s: nat, b: bool)
    requires
        1 <= m < 0x20_0000_0000_0000,
        b ==> m == 0x10_0000_0000_0000,
        r == 2 * m * mp,
        b ==> 2 * mm == mp,
        !b ==> mm == mp,
        mp >= 1,
        (r + mp) * 10 >= s,
    ensures
        (mp + mm) * ten_pow(17) > s,
{
    assert(ten_pow(17) == 100_000_000_000_000_000) by {
        reveal_with_fuel(ten_pow, 18);
    }
    if b {
        assert((mp + mm) * 100_000_000_000_000_000 > s) by (nonlinear_arith)
            requires
                m == 0x10_0000_0000_0000,
                r == 2 * m * mp,
                2 * mm == mp,
                mp >= 1,
                (r + mp) * 10 >= s,
        ;
    } else {
        assert((mp + mm) * 100_000_000_000_000_000 > s) by (nonlinear_arith)
            requires
                1 <= m < 0x20_0000_0000_0000,
                r == 2 * m * mp,
                mm == mp,
                mp >= 1,
                (r + mp) * 10 >= s,
        ;
    }
}

/// The state digit generation starts from for the float with bits `bits`: `r`, `mp`,
/// `mm`, `s` and the exponent, as `shortest_digits` computes them.
pub open spec fn gen_state(bits: u64, k_est: int) -> (nat, nat, nat, nat, int) {
    let m = mantissa(bits);
    let even = m % 2 == 0;
    let t = scaled(start(m, exponent(bits), at_boundary(bits)), k_est);
    let (s1, k1) = raise(t.0, t.2, t.1, k_est, even);
    let (r2, mp2, mm2, k2) = lower(t.0, t.2, t.3, s1, k1);
    (r2, mp2, mm2, s1, k2)
}

/// The generation state is the start scaled by powers of ten, `10^beta / 10^alpha`
/// being `10^k`, and it meets what generation needs.
#[verifier::spinoff_prover]
#[verifier::rlimit(60)]
proof fn lemma_state(bits: u64, k_est: int) -> (ab: (nat, nat))
    requires
        finite_nonzero(bits),
        -350 <= k_est <= 350,
    ensures
        ({
            let g = gen_state(bits, k_est);
            let t0 = start(mantissa(bits), exponent(bits), at_boundary(bits));
            &&& g.0 == t0.0 * ten_pow(ab.0)
            &&& g.1 == t0.2 * ten_pow(ab.0)
            &&& g.2 == t0.3 * ten_pow(ab.0)
            &&& g.3 == t0.1 * ten_pow(ab.1)
            &&& ab.1 - ab.0 == g.4
            &&& g.3 > 0
            &&& g.0 < g.3
            &&& g.1 >= 1
            &&& (g.1 + g.2) * ten_pow(17) > g.3
            &&& (g.0 + g.1) * 10 > g.3
            &&& g.0 + g.1 <= g.3
            &&& g.0 > g.2
        }),
{
    let m = mantissa(bits);
    let e = exponent(bits);
    let b = at_boundary(bits);
    let even = m % 2 == 0;
    lemma_parts(bits);
    lemma_start_unscaled(m, e, b);
    lemma_start_ratio(m, e, b);
    assert(two_pow(53) == 0x20_0000_0000_0000) by {
        reveal_with_fuel(two_pow, 54);
    }
    assert(b ==> m == 0x10_0000_0000_0000);
    let t0 = start(m, e, b);
    let rr = t0.0;
    let ss = t0.1;
    let mpp = t0.2;
    let mmm = t0.3;
    let ae: nat = if k_est < 0 { (-k_est) as nat } else { 0 };
    let be: nat = if k_est >= 0 { k_est as nat } else { 0 };
    let a0 = ten_pow(ae);
    let b0 = ten_pow(be);
    assert(ten_pow(0) == 1);
    lemma_ten_pow_pos(ae);
    lemma_ten_pow_pos(be);
    let t = scaled(t0, k_est);
    assert(t == (rr * a0, ss * b0, mpp * a0, mmm * a0)) by {
        if k_est >= 0 {
            assert(rr * 1 == rr && mpp * 1 == mpp && mmm * 1 == mmm);
        } else {
            assert(ss * 1 == ss);
        }
    }
    assert(ss * b0 >= 1 && rr * a0 >= 1 && mpp * a0 >= 1) by (nonlinear_arith)
        requires
            ss >= 1,
            b0 >= 1,
            rr >= 1,
            a0 >= 1,
            mpp >= 1,
    ;
    lemma_raise(t.0, t.2, t.1, k_est, even);
    let (s1, k1) = raise(t.0, t.2, t.1, k_est, even);
    let pp = ten_pow((k1 - k_est) as nat);
    lemma_lower(t.0, t.2, t.3, s1, k1);
    let (r2, mp2, mm2, k2) = lower(t.0, t.2, t.3, s1, k1);
    let qq = ten_pow((k1 - k2) as nat);
    lemma_ten_pow_pos((k1 - k2) as nat);
    lemma_ten_pow_pos((k1 - k_est) as nat);
    assert(r2 == 2 * m * mp2) by (nonlinear_arith)
        requires
            r2 == rr * a0 * qq,
            mp2 == mpp * a0 * qq,
            rr == 2 * m * mpp,
    ;
    assert(b ==> 2 * mm2 == mp2) by (nonlinear_arith)
        requires
            mm2 == mmm * a0 * qq,
            mp2 == mpp * a0 * qq,
            b ==> 2 * mmm == mpp,
    ;
    assert(mp2 >= 1) by (nonlinear_arith)
        requires
            mp2 == mpp * a0 * qq,
            mpp * a0 >= 1,
            qq >= 1,
    ;
    assert(r2 > mm2) by (nonlinear_arith)
        requires
            r2 == 2 * m * mp2,
            m >= 1,
            mp2 >= 1,
            b ==> 2 * mm2 == mp2,
            !b ==> mm2 == mp2,
    ;
    lemma_enough_digits(m, r2, mp2, mm2, s1, b);
    let alpha: nat = ae + (k1 - k2) as nat;
    let beta: nat = be + (k1 - k_est) as nat;
    lemma_ten_pow_add(ae, (k1 - k2) as nat);
    lemma_ten_pow_add(be, (k1 - k_est) as nat);
    assert(r2 == rr * ten_pow(alpha) && mp2 == mpp * ten_pow(alpha) && mm2 == mmm * ten_pow(alpha)) by (nonlinear_arith)
        requires
            r2 == rr * a0 * qq,
            mp2 == mpp * a0 * qq,
            mm2 == mmm * a0 * qq,
            ten_pow(alpha) == a0 * qq,
    ;
    assert(s1 == ss * ten_pow(beta)) by (nonlinear_arith)
        requires
            s1 == ss * b0 * pp,
            ten_pow(beta) == b0 * pp,
    ;
    assert(s1 > 0) by (nonlinear_arith)
        requires
            s1 == ss * b0 * pp,
            ss * b0 >= 1,
            pp >= 1,
    ;
    (alpha, beta)
}

/// From the generation bounds back to the start's scale: the trimmed digits lie within
/// the gaps of `rr / ss`.
#[verifier::spinoff_prover]
#[verifier::rlimit(60)]
proof fn lemma_scale_back(
    rr: nat,
    ss: nat,
    mpp: nat,
    mmm: nat,
    alpha: nat,
    beta: nat,
    r2: nat,
    mp2: nat,
    mm2: nat,
    s1: nat,
    k2: int,
    dg: Seq<u8>,
    ng: nat,
    k3: int,
    even: bool,
)
    requires
        r2 == rr * ten_pow(alpha),
        mp2 == mpp * ten_pow(alpha),
        mm2 == mmm * ten_pow(alpha),
        s1 == ss * ten_pow(beta),
        beta - alpha == k2,
        1 <= ng <= dg.len(),
        k2 <= k3,
        ({
            let tg = ten_pow(ng);
            let nv = digits_value(dg, ng) * ten_pow((k3 - k2) as nat);
            &&& if even { r2 * tg <= nv * s1 + mm2 * tg } else { r2 * tg < nv * s1 + mm2 * tg }
            &&& if even { nv * s1 <= r2 * tg + mp2 * tg } else { nv * s1 < r2 * tg + mp2 * tg }
        }),
    ensures
        1 <= trimmed(dg, ng) <= ng,
        within_gaps(digits_value(dg, trimmed(dg, ng)), k3 - trimmed(dg, ng), rr, ss, mpp, mmm, even),
{
    lemma_trimmed(dg, ng);
    let n = trimmed(dg, ng);
    let nn = digits_value(dg, n);
    let tz = ten_pow((ng - n) as nat);
    let tk = ten_pow((k3 - k2) as nat);
    let tg = ten_pow(ng);
    let nvg = digits_value(dg, ng) * tk;
    let ta = ten_pow(alpha);
    let tb = ten_pow(beta);
    let p1: nat = alpha + ng;
    let p2: nat = (ng - n) as nat + (k3 - k2) as nat + beta;
    lemma_ten_pow_add(alpha, ng);
    lemma_ten_pow_add((ng - n) as nat, (k3 - k2) as nat);
    lemma_ten_pow_add((ng - n) as nat + (k3 - k2) as nat, beta);
    let t1 = ten_pow(p1);
    let t2 = ten_pow(p2);
    assert(r2 * tg == rr * t1 && mm2 * tg == mmm * t1 && mp2 * tg == mpp * t1) by (nonlinear_arith)
        requires
            r2 == rr * ta,
            mm2 == mmm * ta,
            mp2 == mpp * ta,
            t1 == ta * tg,
    ;
    assert(nvg * s1 == nn * ss * t2) by (nonlinear_arith)
        requires
            nvg == digits_value(dg, ng) * tk,
            digits_value(dg, ng) == nn * tz,
            s1 == ss * tb,
            t2 == tz * tk * tb,
    ;
    let ex = k3 - n;
    assert(p2 - p1 == ex);
    lemma_ten_pow_pos(p1);
    lemma_ten_pow_pos(p2);
    if ex >= 0 {
        let te = ten_pow(ex as nat);
        lemma_ten_pow_add(p1, ex as nat);
        let a = nn * te * ss;
        assert(nn * ss * t2 == t1 * a) by (nonlinear_arith)
            requires
                t2 == t1 * te,
                a == nn * te * ss,
        ;
        assert(rr * t1 == t1 * rr && mmm * t1 == t1 * mmm && mpp * t1 == t1 * mpp) by (nonlinear_arith);
        assert(t1 * a + t1 * mmm == t1 * (a + mmm)) by (nonlinear_arith);
        assert(t1 * rr + t1 * mpp == t1 * (rr + mpp)) by (nonlinear_arith);
        lemma_cancel(t1 as int, rr as int, (a + mmm) as int);
        lemma_cancel(t1 as int, a as int, (rr + mpp) as int);
    } else {
        let te = ten_pow((-ex) as nat);
        lemma_ten_pow_add(p2, (-ex) as nat);
        assert(rr * t1 == t2 * (rr * te) && mmm * t1 == t2 * (mmm * te) && mpp * t1 == t2 * (mpp * te))
            by (nonlinear_arith)
            requires
                t1 == t2 * te,
        ;
        assert(nn * ss * t2 == t2 * (nn * ss)) by (nonlinear_arith);
        assert(t2 * (nn * ss) + t2 * (mmm * te) == t2 * (nn * ss + mmm * te)) by (nonlinear_arith);
        assert(t2 * (rr * te) + t2 * (mpp * te) == t2 * (rr * te + mpp * te)) by (nonlinear_arith);
        lemma_cancel(t2 as int, (rr * te) as int, (nn * ss + mmm * te) as int);
        lemma_cancel(t2 as int, (nn * ss) as int, (rr * te + mpp * te) as int);
    }
}

/// The shortest digits lie within the float's gaps: for the digits `d[0..n]` and
/// exponent `k` that `shortest_digits` gives, the decimal `0.d1..dn * 10^k`, that is
/// `digits_value(d, n) * 10^(k - n)`, differs from the float `r / s` (its value as
/// `start` writes it) by no more than the half gap below `mm / s` and the half gap
/// above `mp / s`, and by less for an odd mantissa, so that reading it back with
/// ties to even gives the float again.
pub proof fn lemma_shortest_within_gaps(bits: u64, k_est: int)
    requires
        finite_nonzero(bits),
        -350 <= k_est <= 350,
    ensures
        ({
            let (d, n, k) = shortest_digits(bits, k_est);
            &&& 1 <= n <= 17
            &&& reads_back(bits, digits_value(d, n), k - n)
        }),
{
    let m = mantissa(bits);
    let even = m % 2 == 0;
    let t0 = start(m, exponent(bits), at_boundary(bits));
    let ab = lemma_state(bits, k_est);
    let g = gen_state(bits, k_est);
    let z = zero_digits();
    assert(z.len() == 17);
    lemma_gen_interval(g.0, g.1, g.2, g.3, even, z, 0, g.4);
    let (dg, ng, k3) = gen(g.0, g.1, g.2, g.3, even, z, 0, g.4);
    assert(shortest_digits(bits, k_est) == (dg, trimmed(dg, ng), k3));
    assert(digits_value(z, 0) == 0);
    assert(ten_pow((ng - 0) as nat) == ten_pow(ng));
    lemma_scale_back(t0.0, t0.1, t0.2, t0.3, ab.0, ab.1, g.0, g.1, g.2, g.3, g.4, dg, ng, k3, even);
}

/// Whether `a / s` lies within the half gaps `down / s` and `up / s` of `v / s`,
/// strictly where `even` is false.
pub open spec fn in_gap(a: int, v: int, up: int, down: int, even: bool) -> bool {
    if even {
        v <= a + down && a <= v + up
    } else {
        v < a + down && a < v + up
    }
}

/// Digit generation goes on only while no decimal with as many digits lies within
/// the gaps: for every place `x` from one up to (not counting) the last generated, no
/// integer `X` at that place (`X * s` against the value `w` scaled by `10^x`) lies
/// within the scaled gaps.
pub proof fn lemma_gen_no_integer(r: nat, mp: nat, mm: nat, s: nat, even: bool, d: Seq<u8>, c: nat, k: int)
    requires
        s > 0,
        r < s,
        c < 17,
        d.len() == 17,
    ensures
        ({
            let (d2, n, k2) = gen(r, mp, mm, s, even, d, c, k);
            let w = digits_value(d, c) * s + r;
            forall|x: nat, xx: nat| 1 <= x < n - c ==> !#[trigger] in_gap(
                (xx * s) as int,
                (w * ten_pow(x)) as int,
                (mp * ten_pow(x)) as int,
                (mm * ten_pow(x)) as int,
                even,
            )
        }),
    decreases 17 - c,
{
    let r1 = r * 10;
    let mp1 = mp * 10;
    let mm1 = mm * 10;
    let q = r1 / s;
    let r2 = r1 % s;
    vstd::arithmetic::div_mod::lemma_fundamental_div_mod(r1 as int, s as int);
    assert(r1 == q * s + r2);
    let low = if even { r2 <= mm1 } else { r2 < mm1 };
    let high = if even { r2 + mp1 >= s } else { r2 + mp1 > s };
    let (d2, n, k2) = gen(r, mp, mm, s, even, d, c, k);
    let dv = digits_value(d, c);
    let w = dv * s + r;
    if !low && !high && c + 1 < 17 {
        let d1 = d.update(c as int, q as u8);
        assert(q <= 9) by (nonlinear_arith)
            requires
                r1 == q * s + r2,
                r < s,
                r1 == r * 10,
                s > 0,
        ;
        lemma_value_update(d, c as int, q as u8, c);
        assert(digits_value(d1, c + 1) == dv * 10 + q);
        lemma_gen_no_integer(r2, mp1, mm1, s, even, d1, c + 1, k);
        assert(gen(r, mp, mm, s, even, d, c, k) == gen(r2, mp1, mm1, s, even, d1, c + 1, k));
        let w1 = digits_value(d1, c + 1) * s + r2;
        let big_d = dv * 10 + q;
        assert(w * 10 == big_d * s + r2) by (nonlinear_arith)
            requires
                w == dv * s + r,
                r1 == r * 10,
                r1 == q * s + r2,
                big_d == dv * 10 + q,
        ;
        assert(w1 == w * 10);
        assert(ten_pow(1) == 10) by {
            reveal_with_fuel(ten_pow, 2);
        }
        assert forall|x: nat, xx: nat| 1 <= x < n - c implies !#[trigger] in_gap(
            (xx * s) as int,
            (w * ten_pow(x)) as int,
            (mp * ten_pow(x)) as int,
            (mm * ten_pow(x)) as int,
            even,
        ) by {
            if x == 1 {
                assert(w * ten_pow(x) == w * 10 && mp * ten_pow(x) == mp1 && mm * ten_pow(x) == mm1);
                if in_gap((xx * s) as int, (w * 10) as int, mp1 as int, mm1 as int, even) {
                    assert(xx * s > big_d * s) by {
                        if even {
                            assert(r2 > mm1);
                        } else {
                            assert(r2 >= mm1);
                        }
                    }
                    assert(xx > big_d) by (nonlinear_arith)
                        requires
                            xx * s > big_d * s,
                            s > 0,
                    ;
                    assert(xx * s >= big_d * s + s) by (nonlinear_arith)
                        requires
                            xx >= big_d + 1,
                            s > 0,
                    ;
                    assert(false);
                }
            } else {
                let x1 = (x - 1) as nat;
                let t1 = ten_pow(x1);
                assert(ten_pow(x) == 10 * t1);
                assert(w1 * t1 == w * ten_pow(x) && mp1 * t1 == mp * ten_pow(x) && mm1 * t1 == mm * ten_pow(x))
                    by (nonlinear_arith)
                    requires
                        w1 == w * 10,
                        mp1 == mp * 10,
                        mm1 == mm * 10,
                        ten_pow(x) == 10 * t1,
                ;
                assert(1 <= x1 < n - (c + 1));
                assert(!in_gap((xx * s) as int, (w1 * t1) as int, (mp1 * t1) as int, (mm1 * t1) as int, even));
            }
        }
    } else {
        if !low && !high {
            assert(n == c + 1);
        } else {
            let f = last_digit(q as int, r2, s, low, high);
            if f == 10 {
                let (d3, k3) = carry(d.update(c as int, 0), c, k);
                assert(n == c + 1);
            } else {
                assert(n == c + 1);
            }
        }
    }
}

/// A decimal `n * 10^e` within the gaps of the start's value, seen at a place `x` of
/// the generation state (where `e >= k - x`): the integer `n * 10^(e - k + x)` lies
/// within the scaled gaps.
proof fn lemma_gaps_scaled(
    nn: nat,
    e: int,
    x: nat,
    rr: nat,
    ss: nat,
    mpp: nat,
    mmm: nat,
    alpha: nat,
    beta: nat,
    r2: nat,
    mp2: nat,
    mm2: nat,
    s1: nat,
    k2: int,
    even: bool,
)
    requires
        r2 == rr * ten_pow(alpha),
        mp2 == mpp * ten_pow(alpha),
        mm2 == mmm * ten_pow(alpha),
        s1 == ss * ten_pow(beta),
        beta - alpha == k2,
        e >= k2 - x,
        within_gaps(nn, e, rr, ss, mpp, mmm, even),
    ensures
        in_gap(
            (nn * ten_pow((e - k2 + x) as nat) * s1) as int,
            (r2 * ten_pow(x)) as int,
            (mp2 * ten_pow(x)) as int,
            (mm2 * ten_pow(x)) as int,
            even,
        ),
{
    let j = (e - k2 + x) as nat;
    let tj = ten_pow(j);
    let tx = ten_pow(x);
    let ta = ten_pow(alpha);
    let tb = ten_pow(beta);
    let g = alpha + x;
    lemma_ten_pow_add(alpha, x);
    let tg = ten_pow(g);
    assert(tg == ta * tx);
    assert(r2 * tx == rr * tg && mp2 * tx == mpp * tg && mm2 * tx == mmm * tg) by (nonlinear_arith)
        requires
            r2 == rr * ta,
            mp2 == mpp * ta,
            mm2 == mmm * ta,
            tg == ta * tx,
    ;
    lemma_ten_pow_add(j, beta);
    let lhs = nn * tj * s1;
    assert(lhs == nn * ss * ten_pow(j + beta)) by (nonlinear_arith)
        requires
            lhs == nn * tj * s1,
            s1 == ss * tb,
            ten_pow(j + beta) == tj * tb,
    ;
    lemma_ten_pow_pos(g);
    if e >= 0 {
        let te = ten_pow(e as nat);
        lemma_ten_pow_add(e as nat, g);
        assert(j + beta == e + g);
        let a = nn * te * ss;
        assert(lhs == a * tg) by (nonlinear_arith)
            requires
                lhs == nn * ss * ten_pow(j + beta),
                ten_pow(j + beta) == te * tg,
                a == nn * te * ss,
        ;
        assert(rr * tg <= a * tg + mmm * tg <==> rr <= a + mmm) by (nonlinear_arith)
            requires
                tg >= 1,
        ;
        assert(a * tg <= rr * tg + mpp * tg <==> a <= rr + mpp) by (nonlinear_arith)
            requires
                tg >= 1,
        ;
        assert(rr * tg < a * tg + mmm * tg <==> rr < a + mmm) by (nonlinear_arith)
            requires
                tg >= 1,
        ;
        assert(a * tg < rr * tg + mpp * tg <==> a < rr + mpp) by (nonlinear_arith)
            requires
                tg >= 1,
        ;
    } else {
        let te = ten_pow((-e) as nat);
        let f = ten_pow((j + beta) as nat);
        lemma_ten_pow_add((j + beta) as nat, (-e) as nat);
        assert(g == j + beta + (-e));
        assert(tg == f * te);
        lemma_ten_pow_pos((j + beta) as nat);
        let ns = nn * ss;
        assert(lhs == ns * f) by (nonlinear_arith)
            requires
                lhs == nn * ss * f,
                ns == nn * ss,
        ;
        assert(rr * tg == (rr * te) * f && mmm * tg == (mmm * te) * f && mpp * tg == (mpp * te) * f)
            by (nonlinear_arith)
            requires
                tg == f * te,
        ;
        assert((rr * te) * f <= ns * f + (mmm * te) * f <==> rr * te <= ns + mmm * te) by (nonlinear_arith)
            requires
                f >= 1,
        ;
        assert(ns * f <= (rr * te) * f + (mpp * te) * f <==> ns <= rr * te + mpp * te) by (nonlinear_arith)
            requires
                f >= 1,
        ;
        assert((rr * te) * f < ns * f + (mmm * te) * f <==> rr * te < ns + mmm * te) by (nonlinear_arith)
            requires
                f >= 1,
        ;
        assert(ns * f < (rr * te) * f + (mpp * te) * f <==> ns < rr * te + mpp * te) by (nonlinear_arith)
            requires
                f >= 1,
        ;
    }
}

/// Whether the float's mantissa is even: its rounding interval then includes its ends.
pub open spec fn even_mantissa(bits: u64) -> bool {
    mantissa(bits) % 2 == 0
}

/// Whether the decimal `nv * 10^ex` reads back as the finite nonzero float with bits
/// `bits`: it lies within the float's rounding interval, the half-way points to the
/// neighbouring floats, ends included where the mantissa is even (round half to even).
pub open spec fn reads_back(bits: u64, nv: nat, ex: int) -> bool {
    let t = start(mantissa(bits), exponent(bits), at_boundary(bits));
    within_gaps(nv, ex, t.0, t.1, t.2, t.3, even_mantissa(bits))
}

/// How far the decimal `nv * 10^ex` is from the float with bits `bits`, scaled to an
/// integer by a positive factor that depends on `ex` alone, so that decimals with the
/// same exponent compare as their distances to the float do.
pub open spec fn distance_to(bits: u64, nv: nat, ex: int) -> int {
    let t = start(mantissa(bits), exponent(bits), at_boundary(bits));
    dist(scaled_diff(nv, ex, t.0, t.1), 0)
}

/// No decimal with fewer digits than the shortest digits lies within the float's gaps:
/// for the digits `d[0..n]` that `shortest_digits` gives, no `nn * 10^e` with
/// `nn < 10^(n - 1)`, that is with at most `n - 1` significant digits, lies within the
/// gaps of the float's value `r / s` (as `start` writes it), so none reads back as the
/// float.
#[verifier::spinoff_prover]
#[verifier::rlimit(80)]
pub proof fn lemma_shortest_no_fewer(bits: u64, k_est: int)
    requires
        finite_nonzero(bits),
        -350 <= k_est <= 350,
    ensures
        ({
            let (d, n, k) = shortest_digits(bits, k_est);
            forall|nn: nat, e: int| nn < ten_pow((n - 1) as nat) ==> !#[trigger] reads_back(bits, nn, e)
        }),
{
    let m = mantissa(bits);
    let even = even_mantissa(bits);
    let t0 = start(m, exponent(bits), at_boundary(bits));
    let ab = lemma_state(bits, k_est);
    let g = gen_state(bits, k_est);
    let z = zero_digits();
    assert(z.len() == 17);
    lemma_gen_interval(g.0, g.1, g.2, g.3, even, z, 0, g.4);
    lemma_gen_no_integer(g.0, g.1, g.2, g.3, even, z, 0, g.4);
    let (dg, ng, k3) = gen(g.0, g.1, g.2, g.3, even, z, 0, g.4);
    assert(shortest_digits(bits, k_est) == (dg, trimmed(dg, ng), k3));
    assert(digits_value(z, 0) == 0);
    assert(digits_value(z, 0) * g.3 + g.0 == g.0);
    lemma_trimmed(dg, ng);
    let n = trimmed(dg, ng);
    let (r2, mp2, mm2, s1, k2) = g;
    assert(ten_pow(0) == 1);
    assert(ten_pow(1) == 10) by {
        reveal_with_fuel(ten_pow, 2);
    }
    assert forall|nn: nat, e: int| nn < ten_pow((n - 1) as nat) implies !#[trigger] within_gaps(
        nn,
        e,
        t0.0,
        t0.1,
        t0.2,
        t0.3,
        even,
    ) by {
        if within_gaps(nn, e, t0.0, t0.1, t0.2, t0.3, even) {
            if ng == 1 {
                assert(nn == 0);
                let x: nat = if e >= k2 { 0 } else { (k2 - e) as nat };
                lemma_gaps_scaled(nn, e, x, t0.0, t0.1, t0.2, t0.3, ab.0, ab.1, r2, mp2, mm2, s1, k2, even);
                let tx = ten_pow(x);
                lemma_ten_pow_pos(x);
                assert(nn * ten_pow((e - k2 + x) as nat) * s1 == 0);
                assert(r2 * tx > mm2 * tx) by (nonlinear_arith)
                    requires
                        r2 > mm2,
                        tx >= 1,
                ;
            } else {
                let xg = (ng - 1) as nat;
                if e >= k2 - xg {
                    lemma_gaps_scaled(nn, e, xg, t0.0, t0.1, t0.2, t0.3, ab.0, ab.1, r2, mp2, mm2, s1, k2, even);
                    let xx = nn * ten_pow((e - k2 + xg) as nat);
                    assert(1 <= xg < ng - 0);
                    assert(!in_gap(
                        (xx * s1) as int,
                        (r2 * ten_pow(xg)) as int,
                        (mp2 * ten_pow(xg)) as int,
                        (mm2 * ten_pow(xg)) as int,
                        even,
                    ));
                } else {
                    let xs = (k2 - e) as nat;
                    lemma_gaps_scaled(nn, e, xs, t0.0, t0.1, t0.2, t0.3, ab.0, ab.1, r2, mp2, mm2, s1, k2, even);
                    let y = (xs - 1) as nat;
                    let ty = ten_pow(y);
                    let txs = ten_pow(xs);
                    assert(txs == 10 * ty);
                    assert((e - k2 + xs) as nat == 0);
                    assert(nn * ten_pow(0) * s1 == nn * s1) by (nonlinear_arith)
                        requires
                            ten_pow(0) == 1,
                    ;
                    lemma_ten_pow_mono_here((n - 1) as nat, y);
                    assert(nn < ty);
                    lemma_ten_pow_pos(y);
                    assert(nn * s1 < ty * s1) by (nonlinear_arith)
                        requires
                            nn < ty,
                            s1 > 0,
                    ;
                    assert(r2 * txs <= nn * s1 + mm2 * txs);
                    assert((r2 - mm2) * 10 * ty < s1 * ty) by (nonlinear_arith)
                        requires
                            r2 * txs <= nn * s1 + mm2 * txs,
                            nn * s1 < ty * s1,
                            txs == 10 * ty,
                    ;
                    assert((r2 - mm2) * 10 < s1) by (nonlinear_arith)
                        requires
                            (r2 - mm2) * 10 * ty < s1 * ty,
                            ty >= 1,
                    ;
                    assert(1 <= 1 < ng - 0);
                    assert(in_gap((1 * s1) as int, (r2 * ten_pow(1)) as int, (mp2 * ten_pow(1)) as int, (mm2 * ten_pow(1)) as int, even));
                }
            }
        }
    }
}

/// Powers of ten grow with the exponent.
proof fn lemma_ten_pow_mono_here(a: nat, b: nat)
    requires
        a <= b,
    ensures
        ten_pow(a) <= ten_pow(b),
    decreases b - a,
{
    if a < b {
        lemma_ten_pow_mono_here(a, (b - 1) as nat);
        lemma_ten_pow_pos((b - 1) as nat);
        assert(ten_pow(b) == 10 * ten_pow((b - 1) as nat));
    }
}

/// The distance between two integers.
pub open spec fn dist(a: int, b: int) -> int {
    if a >= b {
        a - b
    } else {
        b - a
    }
}

/// The generated decimal is the closest to the value of those at its last place that
/// lie within the gaps, an even one on a tie: for every integer `X` at the last place
/// (`X * s` against the value `w` scaled by `10^x`) within the scaled gaps, the
/// generated `nv` is no further from the value, and where it is as far and not `X`,
/// `nv` is even.
pub proof fn lemma_gen_closest(r: nat, mp: nat, mm: nat, s: nat, even: bool, d: Seq<u8>, c: nat, k: int)
    requires
        s > 0,
        r < s,
        mp >= 1,
        c < 17,
        d.len() == 17,
        forall|i: int| 0 <= i < c ==> #[trigger] d[i] <= 9,
        (mp + mm) * ten_pow((17 - c) as nat) > s,
    ensures
        ({
            let (d2, n, k2) = gen(r, mp, mm, s, even, d, c, k);
            let x = (n - c) as nat;
            let w = digits_value(d, c) * s + r;
            let nv = digits_value(d2, n) * ten_pow((k2 - k) as nat);
            forall|xx: nat| #[trigger] in_gap(
                (xx * s) as int,
                (w * ten_pow(x)) as int,
                (mp * ten_pow(x)) as int,
                (mm * ten_pow(x)) as int,
                even,
            ) ==> dist((nv * s) as int, (w * ten_pow(x)) as int) <= dist((xx * s) as int, (w * ten_pow(x)) as int)
                && (dist((nv * s) as int, (w * ten_pow(x)) as int) == dist((xx * s) as int, (w * ten_pow(x)) as int)
                && xx != nv ==> nv % 2 == 0)
        }),
    decreases 17 - c,
{
    lemma_gen_interval(r, mp, mm, s, even, d, c, k);
    let r1 = r * 10;
    let mp1 = mp * 10;
    let mm1 = mm * 10;
    let q = r1 / s;
    let r2 = r1 % s;
    vstd::arithmetic::div_mod::lemma_fundamental_div_mod(r1 as int, s as int);
    assert(r1 == q * s + r2);
    assert(q <= 9) by (nonlinear_arith)
        requires
            r1 == q * s + r2,
            r < s,
            r1 == r * 10,
            s > 0,
    ;
    let low = if even { r2 <= mm1 } else { r2 < mm1 };
    let high = if even { r2 + mp1 >= s } else { r2 + mp1 > s };
    let (d2, n, k2) = gen(r, mp, mm, s, even, d, c, k);
    let dv = digits_value(d, c);
    let w = dv * s + r;
    let big_d = dv * 10 + q;
    assert(w * 10 == big_d * s + r2) by (nonlinear_arith)
        requires
            w == dv * s + r,
            r1 == r * 10,
            r1 == q * s + r2,
            big_d == dv * 10 + q,
    ;
    assert(ten_pow(1) == 10) by {
        reveal_with_fuel(ten_pow, 2);
    }
    let nv = digits_value(d2, n) * ten_pow((k2 - k) as nat);
    if !low && !high {
        let tc = ten_pow((16 - c) as nat);
        assert(ten_pow((17 - c) as nat) == 10 * tc);
        assert((mp + mm) * ten_pow((17 - c) as nat) == (mp1 + mm1) * tc) by (nonlinear_arith)
            requires
                ten_pow((17 - c) as nat) == 10 * tc,
                mp1 == mp * 10,
                mm1 == mm * 10,
        ;
        if c + 1 >= 17 {
            assert(tc == 1);
            assert((mp1 + mm1) * tc == mp1 + mm1) by (nonlinear_arith)
                requires
                    tc == 1,
            ;
            assert(false);
        }
        let d1 = d.update(c as int, q as u8);
        assert forall|i: int| 0 <= i < c + 1 implies #[trigger] d1[i] <= 9 by {
            if i < c {
                assert(d1[i] == d[i]);
            }
        }
        lemma_value_update(d, c as int, q as u8, c);
        assert(digits_value(d1, c + 1) == dv * 10 + q);
        lemma_gen_closest(r2, mp1, mm1, s, even, d1, c + 1, k);
        assert(gen(r, mp, mm, s, even, d, c, k) == gen(r2, mp1, mm1, s, even, d1, c + 1, k));
        let w1 = digits_value(d1, c + 1) * s + r2;
        assert(w1 == w * 10);
        let x1 = (n - (c + 1)) as nat;
        let t1 = ten_pow(x1);
        assert(ten_pow((x1 + 1) as nat) == 10 * t1);
        assert((n - c) as nat == (x1 + 1) as nat);
        assert(w1 * t1 == w * (10 * t1) && mp1 * t1 == mp * (10 * t1) && mm1 * t1 == mm * (10 * t1)) by (nonlinear_arith)
            requires
                w1 == w * 10,
                mp1 == mp * 10,
                mm1 == mm * 10,
        ;
    } else {
        let f = last_digit(q as int, r2, s, low, high);
        assert(f == q ==> low);
        assert(f != q ==> f == q + 1 && high);
        assert(n == c + 1);
        let tq: int = nv as int - big_d as int;
        // the value of the digits generated, as gen_interval computes it
        if f == 10 {
            let d0 = d.update(c as int, 0);
            assert forall|i: int| 0 <= i < c implies #[trigger] d0[i] <= 9 by {
                assert(d0[i] == d[i]);
            }
            lemma_carry(d0, c, k);
            lemma_value_update(d, c as int, 0, c);
            let (d3, k3) = carry(d0, c, k);
            assert(d2 == d3 && k2 == k3);
            if k3 == k {
                assert(d3[c as int] == 0);
                assert(ten_pow(0) == 1);
                assert(nv == (dv + 1) * 10);
            } else {
                if c >= 1 {
                    assert(d3[c as int] == d0[c as int]);
                }
                assert forall|i: int| 1 <= i <= c implies #[trigger] d3[i] == 0 by {
                    if i < c {
                    } else {
                        assert(d3[i] == d0[i]);
                    }
                }
                lemma_value_unit(d3, c);
                assert(ten_pow((c + 1) as nat) == 10 * ten_pow(c));
                assert(digits_value(d0, c) + 1 == ten_pow(c));
                let tp = ten_pow(c);
                assert(nv == dv * 10 + 10) by (nonlinear_arith)
                    requires
                        nv == tp * 10,
                        dv + 1 == tp,
                ;
            }
        } else {
            assert(d2 == d.update(c as int, f as u8) && k2 == k);
            lemma_value_update(d, c as int, f as u8, c);
            assert(ten_pow(0) == 1);
            assert(0 <= f <= 9);
            assert(d2[c as int] as int == f);
            assert(digits_value(d2, c + 1) == dv * 10 + f);
            assert(nv == digits_value(d2, c + 1) * 1);
        }
        assert(nv == dv * 10 + f);
        assert(nv % 2 == f % 2) by {
            assert((dv * 10 + f) % 2 == f % 2) by (nonlinear_arith);
        }
        let wt = w * 10;
        assert(ten_pow((n - c) as nat) == 10);
        assert(w * ten_pow((n - c) as nat) == wt && mp * ten_pow((n - c) as nat) == mp1 && mm * ten_pow((n - c) as nat) == mm1);
        assert(nv * s == big_d * s + (f - q) * s) by (nonlinear_arith)
            requires
                nv == dv * 10 + f,
                big_d == dv * 10 + q,
        ;
        if f == q {
            assert(nv == big_d);
        } else {
            assert(nv == big_d + 1);
            assert(nv * s == big_d * s + s) by (nonlinear_arith)
                requires
                    nv == big_d + 1,
            ;
        }
        assert(r2 < s);
        assert forall|xx: nat| #[trigger] in_gap((xx * s) as int, wt as int, mp1 as int, mm1 as int, even) implies dist(
            (nv * s) as int,
            wt as int,
        ) <= dist((xx * s) as int, wt as int) && (dist((nv * s) as int, wt as int) == dist((xx * s) as int, wt as int)
            && xx != nv ==> nv % 2 == 0) by {
            if xx <= big_d - 1 {
                assert(xx * s <= (big_d - 1) * s) by (nonlinear_arith)
                    requires
                        xx <= big_d - 1,
                        s > 0,
                ;
                assert((big_d - 1) * s == big_d * s - s) by (nonlinear_arith);
            } else if xx == big_d {
                assert(dist((xx * s) as int, wt as int) == r2);
                if f != q {
                    assert(dist((nv * s) as int, wt as int) == s - r2);
                    if low {
                        assert(high);
                        assert(2 * r2 >= s);
                        if 2 * r2 == s {
                            assert(q % 2 == 1);
                        }
                    } else {
                        assert(!in_gap((big_d * s) as int, wt as int, mp1 as int, mm1 as int, even));
                    }
                }
            } else if xx == big_d + 1 {
                assert((big_d + 1) * s == big_d * s + s) by (nonlinear_arith);
                assert(dist((xx * s) as int, wt as int) == s - r2);
                if f == q {
                    assert(dist((nv * s) as int, wt as int) == r2);
                    if high {
                        assert(low);
                        assert(2 * r2 <= s);
                        if 2 * r2 == s {
                            assert(q % 2 == 0);
                        }
                    } else {
                        assert(!in_gap(((big_d + 1) * s) as int, wt as int, mp1 as int, mm1 as int, even));
                    }
                }
            } else {
                assert(xx * s >= (big_d + 2) * s) by (nonlinear_arith)
                    requires
                        xx >= big_d + 2,
                        s > 0,
                ;
                assert((big_d + 2) * s == big_d * s + 2 * s) by (nonlinear_arith);
            }
        }
    }
}

/// How far `nn * 10^e` is from the value `r / s`, scaled to an integer: times `s`
/// where `e >= 0`, times `s * 10^-e` where `e < 0`.
pub open spec fn scaled_diff(nn: nat, e: int, r: nat, s: nat) -> int {
    if e >= 0 {
        nn * ten_pow(e as nat) * s - r
    } else {
        nn * s - r * ten_pow((-e) as nat)
    }
}

/// The difference at the generation scale is the scaled difference times a positive
/// factor that depends on the exponent alone.
proof fn lemma_diff_scale(
    e: int,
    x: nat,
    rr: nat,
    ss: nat,
    alpha: nat,
    beta: nat,
    r2: nat,
    s1: nat,
    k2: int,
) -> (f: nat)
    requires
        r2 == rr * ten_pow(alpha),
        s1 == ss * ten_pow(beta),
        beta - alpha == k2,
        e >= k2 - x,
    ensures
        f >= 1,
        forall|y: nat| #[trigger] scaled_diff(y, e, rr, ss) * f == (y * ten_pow((e - k2 + x) as nat) * s1) as int - (r2 * ten_pow(x)) as int,
{
    let j = (e - k2 + x) as nat;
    let tj = ten_pow(j);
    let tx = ten_pow(x);
    let g = alpha + x;
    lemma_ten_pow_add(alpha, x);
    lemma_ten_pow_add(j, beta);
    let tg = ten_pow(g);
    let tjb = ten_pow(j + beta);
    assert(r2 * tx == rr * tg) by (nonlinear_arith)
        requires
            r2 == rr * ten_pow(alpha),
            tg == ten_pow(alpha) * tx,
    ;
    if e >= 0 {
        let te = ten_pow(e as nat);
        lemma_ten_pow_add(e as nat, g);
        assert(j + beta == e + g);
        lemma_ten_pow_pos(g);
        assert forall|y: nat| #[trigger] scaled_diff(y, e, rr, ss) * tg == (y * tj * s1) as int - (r2 * tx) as int by {
            assert(y * tj * s1 == y * te * ss * tg) by (nonlinear_arith)
                requires
                    s1 == ss * ten_pow(beta),
                    tjb == tj * ten_pow(beta),
                    tjb == te * tg,
            ;
            assert((y * te * ss - rr) * tg == y * te * ss * tg - rr * tg) by (nonlinear_arith);
        }
        tg
    } else {
        let te = ten_pow((-e) as nat);
        lemma_ten_pow_add((j + beta) as nat, (-e) as nat);
        assert(g == j + beta + (-e));
        lemma_ten_pow_pos((j + beta) as nat);
        assert forall|y: nat| #[trigger] scaled_diff(y, e, rr, ss) * tjb == (y * tj * s1) as int - (r2 * tx) as int by {
            assert(y * tj * s1 == y * ss * tjb) by (nonlinear_arith)
                requires
                    s1 == ss * ten_pow(beta),
                    tjb == tj * ten_pow(beta),
            ;
            assert(rr * tg == rr * te * tjb) by (nonlinear_arith)
                requires
                    tg == tjb * te,
            ;
            assert((y * ss - rr * te) * tjb == y * ss * tjb - rr * te * tjb) by (nonlinear_arith);
        }
        tjb
    }
}

/// The shortest digits are the closest to the float of the decimals at their last
/// place that read back, an even one on a tie: for the digits `d[0..n]` and exponent
/// `k` that `shortest_digits` gives, every `xx * 10^(k - n)` within the float's gaps
/// is no nearer to the float than `digits_value(d, n) * 10^(k - n)`, and where it is
/// as near and different, the last digit is even.
#[verifier::spinoff_prover]
#[verifier::rlimit(100)]
pub proof fn lemma_shortest_closest(bits: u64, k_est: int)
    requires
        finite_nonzero(bits),
        -350 <= k_est <= 350,
    ensures
        ({
            let (d, n, k) = shortest_digits(bits, k_est);
            let nn = digits_value(d, n);
            forall|xx: nat| #[trigger] reads_back(bits, xx, k - n) ==> distance_to(bits, nn, k - n)
                <= distance_to(bits, xx, k - n) && (distance_to(bits, nn, k - n) == distance_to(bits, xx, k - n)
                && xx != nn ==> nn % 2 == 0)
        }),
{
    let m = mantissa(bits);
    let even = even_mantissa(bits);
    let t0 = start(m, exponent(bits), at_boundary(bits));
    let ab = lemma_state(bits, k_est);
    let g = gen_state(bits, k_est);
    let z = zero_digits();
    assert(z.len() == 17);
    lemma_gen_interval(g.0, g.1, g.2, g.3, even, z, 0, g.4);
    lemma_gen_no_integer(g.0, g.1, g.2, g.3, even, z, 0, g.4);
    lemma_gen_closest(g.0, g.1, g.2, g.3, even, z, 0, g.4);
    let (dg, ng, k3) = gen(g.0, g.1, g.2, g.3, even, z, 0, g.4);
    assert(shortest_digits(bits, k_est) == (dg, trimmed(dg, ng), k3));
    assert(digits_value(z, 0) == 0);
    assert(digits_value(z, 0) * g.3 + g.0 == g.0);
    lemma_trimmed(dg, ng);
    lemma_shortest_within_gaps(bits, k_est);
    let n = trimmed(dg, ng);
    let nn = digits_value(dg, n);
    let (r2, mp2, mm2, s1, k2) = g;
    let e = k3 - n;
    assert(ten_pow(0) == 1);
    assert(within_gaps(nn, e, t0.0, t0.1, t0.2, t0.3, even));
    let jj: nat = ((ng - n) + (k3 - k2)) as nat;
    if jj > 0 && ng >= 2 {
        let xg = (ng - 1) as nat;
        lemma_gaps_scaled(nn, e, xg, t0.0, t0.1, t0.2, t0.3, ab.0, ab.1, r2, mp2, mm2, s1, k2, even);
        let xx = nn * ten_pow((e - k2 + xg) as nat);
        assert(!in_gap(
            (xx * s1) as int,
            (r2 * ten_pow(xg)) as int,
            (mp2 * ten_pow(xg)) as int,
            (mm2 * ten_pow(xg)) as int,
            even,
        ));
        assert(false);
    }
    if jj > 0 {
        // one digit, carried up: the only decimal at its place within the gaps is itself
        assert(ng == 1 && n == 1 && e == k2);
        assert forall|xx: nat| #[trigger] within_gaps(xx, e, t0.0, t0.1, t0.2, t0.3, even) implies xx == 1 by {
            lemma_gaps_scaled(xx, e, 0, t0.0, t0.1, t0.2, t0.3, ab.0, ab.1, r2, mp2, mm2, s1, k2, even);
            assert((e - k2 + 0) as nat == 0);
            assert(xx * ten_pow(0) * s1 == xx * s1) by (nonlinear_arith)
                requires
                    ten_pow(0) == 1,
            ;
            assert(r2 * ten_pow(0) == r2 && mp2 * ten_pow(0) == mp2 && mm2 * ten_pow(0) == mm2);
            if xx == 0 {
                assert(xx * s1 == 0);
            } else if xx >= 2 {
                assert(xx * s1 >= 2 * s1) by (nonlinear_arith)
                    requires
                        xx >= 2,
                        s1 > 0,
                ;
            }
        }
    } else {
        assert(ng == n && k3 == k2);
        let f = lemma_diff_scale(e, ng, t0.0, t0.1, ab.0, ab.1, r2, s1, k2);
        let tx = ten_pow(ng);
        assert((e - k2 + ng) as nat == 0);
        assert(forall|y: nat| #[trigger] (y * ten_pow(0) * s1) == y * s1) by {
            assert forall|y: nat| #[trigger] (y * ten_pow(0) * s1) == y * s1 by {
                assert(y * ten_pow(0) == y);
            }
        }
        let nv = digits_value(dg, ng) * ten_pow((k3 - k2) as nat);
        assert(nv == nn);
        assert forall|xx: nat| #[trigger] within_gaps(xx, e, t0.0, t0.1, t0.2, t0.3, even) implies dist(
            scaled_diff(nn, e, t0.0, t0.1),
            0,
        ) <= dist(scaled_diff(xx, e, t0.0, t0.1), 0) && (dist(scaled_diff(nn, e, t0.0, t0.1), 0) == dist(
            scaled_diff(xx, e, t0.0, t0.1),
            0,
        ) && xx != nn ==> nn % 2 == 0) by {
            lemma_gaps_scaled(xx, e, ng, t0.0, t0.1, t0.2, t0.3, ab.0, ab.1, r2, mp2, mm2, s1, k2, even);
            assert(xx * ten_pow(0) * s1 == xx * s1);
            assert(in_gap((xx * s1) as int, (r2 * tx) as int, (mp2 * tx) as int, (mm2 * tx) as int, even));
            let a = scaled_diff(nn, e, t0.0, t0.1);
            let b = scaled_diff(xx, e, t0.0, t0.1);
            assert(a * f == (nn * s1) as int - (r2 * tx) as int);
            assert(b * f == (xx * s1) as int - (r2 * tx) as int);
            assert(nn * ten_pow(0) * s1 == nn * s1);
            assert(dist((nv * s1) as int, (r2 * tx) as int) <= dist((xx * s1) as int, (r2 * tx) as int));
            assert(dist(a, 0) <= dist(b, 0)) by (nonlinear_arith)
                requires
                    f >= 1,
                    dist(a * f, 0) <= dist(b * f, 0),
            {
                assert(dist(a * f, 0) == dist(a, 0) * f);
                assert(dist(b * f, 0) == dist(b, 0) * f);
            }
            if dist(a, 0) == dist(b, 0) && xx != nn {
                assert(dist(a * f, 0) == dist(b * f, 0)) by (nonlinear_arith)
                    requires
                        dist(a, 0) == dist(b, 0),
                        f >= 1,
                {
                    assert(dist(a * f, 0) == dist(a, 0) * f);
                    assert(dist(b * f, 0) == dist(b, 0) * f);
                }
            }
        }
    }
}

/// Scaling `r`, `mp`, `mm` and `s` by a common factor changes no digit.
proof fn lemma_gen_scale(r: nat, mp: nat, mm: nat, s: nat, even: bool, d: Seq<u8>, c: nat, k: int, f: nat)
    requires
        f >= 1,
        s > 0,
    ensures
        gen(r * f, mp * f, mm * f, s * f, even, d, c, k) == gen(r, mp, mm, s, even, d, c, k),
    decreases 17 - c,
{
    if c < 17 {
        let r1 = r * 10;
        let q = r1 / s;
        let r2 = r1 % s;
        vstd::arithmetic::div_mod::lemma_fundamental_div_mod(r1 as int, s as int);
        let rf1 = r * f * 10;
        let sf = s * f;
        assert(rf1 == q * sf + r2 * f) by (nonlinear_arith)
            requires
                r1 == r * 10,
                r1 == q * s + r2,
                rf1 == r * f * 10,
                sf == s * f,
        ;
        assert(r2 * f < sf) by (nonlinear_arith)
            requires
                r2 < s,
                f >= 1,
                sf == s * f,
        ;
        assert(sf > 0) by (nonlinear_arith)
            requires
                s > 0,
                f >= 1,
                sf == s * f,
        ;
        vstd::arithmetic::div_mod::lemma_fundamental_div_mod_converse(rf1 as int, sf as int, q as int, (r2 * f) as int);
        let mp1 = mp * 10;
        let mm1 = mm * 10;
        assert(mp * f * 10 == mp1 * f && mm * f * 10 == mm1 * f) by (nonlinear_arith)
            requires
                mp1 == mp * 10,
                mm1 == mm * 10,
        ;
        assert((r2 * f <= mm1 * f) == (r2 <= mm1) && (r2 * f < mm1 * f) == (r2 < mm1)) by (nonlinear_arith)
            requires
                f >= 1,
        ;
        assert((r2 * f + mp1 * f >= s * f) == (r2 + mp1 >= s) && (r2 * f + mp1 * f > s * f) == (r2 + mp1 > s)) by (nonlinear_arith)
            requires
                f >= 1,
        ;
        assert((2 * (r2 * f) < s * f) == (2 * r2 < s) && (2 * (r2 * f) > s * f) == (2 * r2 > s)) by (nonlinear_arith)
            requires
                f >= 1,
        ;
        lemma_gen_scale(r2, mp1, mm1, s, even, d.update(c as int, q as u8), c + 1, k, f);
    }
}

/// The generation state does not depend on the estimate, up to a common power of
/// ten: for two estimates, the exponents agree, and one state is the other scaled.
proof fn lemma_state_same(bits: u64, a: int, b: int) -> (p: nat)
    requires
        finite_nonzero(bits),
        -350 <= a <= 350,
        -350 <= b <= 350,
        gen_state(bits, a).4 <= gen_state(bits, b).4,
    ensures
        ({
            let ga = gen_state(bits, a);
            let gb = gen_state(bits, b);
            &&& ga.4 == gb.4
            &&& ({
                let tp = ten_pow(p);
                ||| (gb.0 == ga.0 * tp && gb.1 == ga.1 * tp && gb.2 == ga.2 * tp && gb.3 == ga.3 * tp)
                ||| (ga.0 == gb.0 * tp && ga.1 == gb.1 * tp && ga.2 == gb.2 * tp && ga.3 == gb.3 * tp)
            })
        }),
{
    let ab1 = lemma_state(bits, a);
    let ab2 = lemma_state(bits, b);
    let ga = gen_state(bits, a);
    let gb = gen_state(bits, b);
    let t0 = start(mantissa(bits), exponent(bits), at_boundary(bits));
    let rm = t0.0 + t0.2;
    let ss = t0.1;
    let (a1, b1) = ab1;
    let (a2, b2) = ab2;
    // (ga.0 + ga.1) == rm * 10^a1, ga.3 == ss * 10^b1, b1 - a1 == ka
    assert(ga.0 + ga.1 == rm * ten_pow(a1)) by (nonlinear_arith)
        requires
            ga.0 == t0.0 * ten_pow(a1),
            ga.1 == t0.2 * ten_pow(a1),
            rm == t0.0 + t0.2,
    ;
    assert(gb.0 + gb.1 == rm * ten_pow(a2)) by (nonlinear_arith)
        requires
            gb.0 == t0.0 * ten_pow(a2),
            gb.1 == t0.2 * ten_pow(a2),
            rm == t0.0 + t0.2,
    ;
    if ga.4 < gb.4 {
        // rm <= ss * 10^ka and rm * 10 > ss * 10^kb with kb >= ka + 1: impossible
        let u = a1 + b2;
        let v = a2 + b1;
        // scale both to 10^(a1 + a2): rm * 10^(a1+a2) <= ss * 10^(b1+a2), rm * 10^(a1+a2) * 10 > ss * 10^(b2+a1)
        lemma_ten_pow_add(a1, a2);
        lemma_ten_pow_add(b1, a2);
        lemma_ten_pow_add(b2, a1);
        let tA = ten_pow(a1 + a2);
        let t1 = ten_pow(b1 + a2);
        let t2 = ten_pow(b2 + a1);
        assert(rm * tA <= ss * t1) by (nonlinear_arith)
            requires
                ga.0 + ga.1 <= ga.3,
                ga.0 + ga.1 == rm * ten_pow(a1),
                ga.3 == ss * ten_pow(b1),
                tA == ten_pow(a1) * ten_pow(a2),
                t1 == ten_pow(b1) * ten_pow(a2),
        ;
        let xx = rm * ten_pow(a2);
        let yy = ss * ten_pow(b2);
        let pa = ten_pow(a1);
        lemma_ten_pow_pos(a1);
        assert(xx * 10 > yy);
        assert(xx * 10 * pa > yy * pa) by (nonlinear_arith)
            requires
                xx * 10 > yy,
                pa >= 1,
        ;
        assert(xx * pa == rm * tA && yy * pa == ss * t2) by (nonlinear_arith)
            requires
                xx == rm * ten_pow(a2),
                yy == ss * ten_pow(b2),
                pa == ten_pow(a1),
                tA == ten_pow(a1) * ten_pow(a2),
                t2 == ten_pow(b2) * ten_pow(a1),
        ;
        assert(rm * tA * 10 > ss * t2) by (nonlinear_arith)
            requires
                xx * 10 * pa > yy * pa,
                xx * pa == rm * tA,
                yy * pa == ss * t2,
        ;
        // b2 + a1 >= b1 + a2 + 1
        assert(b2 + a1 >= b1 + a2 + 1);
        let dd = (b2 + a1 - (b1 + a2) - 1) as nat;
        lemma_ten_pow_add((b1 + a2 + 1) as nat, dd);
        lemma_ten_pow_pos(dd);
        assert(ten_pow((b1 + a2 + 1) as nat) == 10 * t1);
        assert(t2 >= 10 * t1) by (nonlinear_arith)
            requires
                t2 == ten_pow((b1 + a2 + 1) as nat) * ten_pow(dd),
                ten_pow(dd) >= 1,
                ten_pow((b1 + a2 + 1) as nat) == 10 * t1,
        ;
        assert(false) by (nonlinear_arith)
            requires
                rm * tA <= ss * t1,
                rm * tA * 10 > ss * t2,
                t2 >= 10 * t1,
        ;
    }
    // equal exponents: b1 - a1 == b2 - a2
    if a1 <= a2 {
        let p = (a2 - a1) as nat;
        lemma_ten_pow_add(a1, p);
        lemma_ten_pow_add(b1, p);
        assert(b2 == b1 + p);
        let tp = ten_pow(p);
        assert(gb.0 == ga.0 * tp && gb.1 == ga.1 * tp && gb.2 == ga.2 * tp && gb.3 == ga.3 * tp) by (nonlinear_arith)
            requires
                ga.0 == t0.0 * ten_pow(a1),
                ga.1 == t0.2 * ten_pow(a1),
                ga.2 == t0.3 * ten_pow(a1),
                ga.3 == t0.1 * ten_pow(b1),
                gb.0 == t0.0 * ten_pow(a2),
                gb.1 == t0.2 * ten_pow(a2),
                gb.2 == t0.3 * ten_pow(a2),
                gb.3 == t0.1 * ten_pow(b2),
                ten_pow(a2) == ten_pow(a1) * tp,
                ten_pow(b2) == ten_pow(b1) * tp,
        ;
        p
    } else {
        let p = (a1 - a2) as nat;
        lemma_ten_pow_add(a2, p);
        lemma_ten_pow_add(b2, p);
        assert(b1 == b2 + p);
        let tp = ten_pow(p);
        assert(ga.0 == gb.0 * tp && ga.1 == gb.1 * tp && ga.2 == gb.2 * tp && ga.3 == gb.3 * tp) by (nonlinear_arith)
            requires
                ga.0 == t0.0 * ten_pow(a1),
                ga.1 == t0.2 * ten_pow(a1),
                ga.2 == t0.3 * ten_pow(a1),
                ga.3 == t0.1 * ten_pow(b1),
                gb.0 == t0.0 * ten_pow(a2),
                gb.1 == t0.2 * ten_pow(a2),
                gb.2 == t0.3 * ten_pow(a2),
                gb.3 == t0.1 * ten_pow(b2),
                ten_pow(a1) == ten_pow(a2) * tp,
                ten_pow(b1) == ten_pow(b2) * tp,
        ;
        p
    }
}

/// The shortest digits do not depend on the estimate of the exponent: any two
/// estimates in range give the same digits, count and exponent.
pub proof fn lemma_estimate_independent(bits: u64, a: int, b: int)
    requires
        finite_nonzero(bits),
        -350 <= a <= 350,
        -350 <= b <= 350,
    ensures
        shortest_digits(bits, a) == shortest_digits(bits, b),
{
    let even = even_mantissa(bits);
    let ga = gen_state(bits, a);
    let gb = gen_state(bits, b);
    let z = zero_digits();
    lemma_state(bits, a);
    lemma_state(bits, b);
    let p = if ga.4 <= gb.4 { lemma_state_same(bits, a, b) } else { lemma_state_same(bits, b, a) };
    let tp = ten_pow(p);
    lemma_ten_pow_pos(p);
    if gb.0 == ga.0 * tp && gb.1 == ga.1 * tp && gb.2 == ga.2 * tp && gb.3 == ga.3 * tp {
        lemma_gen_scale(ga.0, ga.1, ga.2, ga.3, even, z, 0, ga.4, tp);
    } else {
        lemma_gen_scale(gb.0, gb.1, gb.2, gb.3, even, z, 0, gb.4, tp);
    }
    assert(ga.4 == gb.4);
    assert(shortest_digits(bits, a) == {
        let (d, c, k3) = gen(ga.0, ga.1, ga.2, ga.3, even, z, 0, ga.4);
        (d, trimmed(d, c), k3)
    });
    assert(shortest_digits(bits, b) == {
        let (d, c, k3) = gen(gb.0, gb.1, gb.2, gb.3, even, z, 0, gb.4);
        (d, trimmed(d, c), k3)
    });
}

} // verus!
