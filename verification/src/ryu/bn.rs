use vstd::prelude::*;

verus! {

/// 2^64, the base of the limbs.
pub open spec fn base() -> nat {
    0x1_0000_0000_0000_0000
}

/// `base()` to the power `i`.
pub open spec fn bpow(i: nat) -> nat
    decreases i,
{
    if i == 0 {
        1
    } else {
        base() * bpow((i - 1) as nat)
    }
}

/// Limb `i` of `s`, zero past its end.
pub open spec fn limb(s: Seq<u64>, i: int) -> nat {
    if 0 <= i < s.len() {
        s[i] as nat
    } else {
        0
    }
}

/// The value of the limbs of `s` below `i`, least significant first.
pub open spec fn pval(s: Seq<u64>, i: nat) -> nat
    decreases i,
{
    if i == 0 {
        0
    } else {
        pval(s, (i - 1) as nat) + limb(s, i - 1) * bpow((i - 1) as nat)
    }
}

/// The number the limbs of `s` stand for.
pub open spec fn limbs_val(s: Seq<u64>) -> nat {
    pval(s, s.len())
}

/// Whether the most significant limb, if there is one, is nonzero.
pub open spec fn normalized(s: Seq<u64>) -> bool {
    s.len() == 0 || s.last() != 0
}

proof fn lemma_bpow_pos(i: nat)
    ensures
        bpow(i) >= 1,
    decreases i,
{
    if i > 0 {
        lemma_bpow_pos((i - 1) as nat);
        let b = bpow((i - 1) as nat);
        assert(base() * b >= b) by (nonlinear_arith)
            requires
                b >= 1,
        ;
    }
}

proof fn lemma_bpow_mono(i: nat, j: nat)
    requires
        i <= j,
    ensures
        bpow(i) <= bpow(j),
    decreases j,
{
    if i < j {
        lemma_bpow_mono(i, (j - 1) as nat);
        lemma_bpow_pos((j - 1) as nat);
        let b = bpow((j - 1) as nat);
        assert(base() * b >= b) by (nonlinear_arith)
            requires
                b >= 1,
        ;
    }
}

/// The limbs below `i` stand for less than `base()` to the `i`.
proof fn lemma_pval_bound(s: Seq<u64>, i: nat)
    ensures
        pval(s, i) < bpow(i),
    decreases i,
{
    if i > 0 {
        let j = (i - 1) as nat;
        lemma_pval_bound(s, j);
        let b = bpow(j);
        let l = limb(s, j as int);
        let p = pval(s, j);
        assert(p + l * b < base() * b) by (nonlinear_arith)
            requires
                p < b,
                l < base(),
        ;
    }
}

/// Sequences that agree on their limbs below `i` have the same value there.
proof fn lemma_pval_agree(s: Seq<u64>, t: Seq<u64>, i: nat)
    requires
        forall|j: int| 0 <= j < i ==> limb(s, j) == limb(t, j),
    ensures
        pval(s, i) == pval(t, i),
    decreases i,
{
    if i > 0 {
        lemma_pval_agree(s, t, (i - 1) as nat);
    }
}

/// Past the end, further limbs add nothing.
proof fn lemma_pval_past(s: Seq<u64>, i: nat)
    requires
        i >= s.len(),
    ensures
        pval(s, i) == limbs_val(s),
    decreases i,
{
    if i > s.len() {
        lemma_pval_past(s, (i - 1) as nat);
        assert(limb(s, i - 1) == 0);
        assert(pval(s, i) == pval(s, (i - 1) as nat) + limb(s, i - 1) * bpow((i - 1) as nat));
    }
}

/// A pushed limb counts at the next place.
proof fn lemma_pval_push(s: Seq<u64>, x: u64)
    ensures
        pval(s.push(x), s.len()) == pval(s, s.len()),
        limbs_val(s.push(x)) == limbs_val(s) + x * bpow(s.len()),
{
    lemma_pval_agree(s.push(x), s, s.len());
}

/// A normalized number with `n > 0` limbs is at least `base()` to the `n - 1`.
proof fn lemma_val_lower(s: Seq<u64>)
    requires
        normalized(s),
        s.len() > 0,
    ensures
        limbs_val(s) >= bpow((s.len() - 1) as nat),
{
    let b = bpow((s.len() - 1) as nat);
    let l = limb(s, s.len() - 1);
    assert(l >= 1);
    assert(l * b >= b) by (nonlinear_arith)
        requires
            l >= 1,
    ;
}

/// A top limb of zero adds nothing.
proof fn lemma_val_drop_zero(s: Seq<u64>)
    requires
        s.len() > 0,
        s.last() == 0,
    ensures
        limbs_val(s) == limbs_val(s.drop_last()),
{
    let n = s.len();
    lemma_pval_agree(s, s.drop_last(), (n - 1) as nat);
    assert(limb(s, n - 1) == 0);
    assert(pval(s, n) == pval(s, (n - 1) as nat) + limb(s, n - 1) * bpow((n - 1) as nat));
}

/// Where the values of the limbs in `lo..hi` agree, the difference of the values
/// below `hi` is that below `lo`.
proof fn lemma_pval_diff(s: Seq<u64>, t: Seq<u64>, lo: nat, hi: nat)
    requires
        lo <= hi,
        forall|j: int| lo <= j < hi ==> limb(s, j) == limb(t, j),
    ensures
        pval(s, hi) - pval(t, hi) == pval(s, lo) - pval(t, lo),
    decreases hi - lo,
{
    if lo < hi {
        lemma_pval_diff(s, t, lo, (hi - 1) as nat);
    }
}

/// Where the limbs agree above `i` and limb `i` of `s` is the smaller, the value of
/// `s` below `n` is the smaller.
proof fn lemma_pval_lt(s: Seq<u64>, t: Seq<u64>, i: nat, n: nat)
    requires
        i < n,
        limb(s, i as int) < limb(t, i as int),
        forall|j: int| i < j < n ==> limb(s, j) == limb(t, j),
    ensures
        pval(s, n) < pval(t, n),
{
    lemma_pval_bound(s, i);
    let b = bpow(i);
    let si = limb(s, i as int);
    let ti = limb(t, i as int);
    let ps = pval(s, i);
    let pt = pval(t, i);
    assert(ps + si * b < pt + ti * b) by (nonlinear_arith)
        requires
            ps < b,
            si + 1 <= ti,
            pt >= 0,
    ;
    lemma_pval_diff(s, t, i + 1, n);
}

/// 2 to the power `n`.
pub open spec fn two_pow(n: nat) -> nat
    decreases n,
{
    if n == 0 {
        1
    } else {
        2 * two_pow((n - 1) as nat)
    }
}

/// 10 to the power `n`.
pub open spec fn ten_pow(n: nat) -> nat
    decreases n,
{
    if n == 0 {
        1
    } else {
        10 * ten_pow((n - 1) as nat)
    }
}

pub proof fn lemma_two_pow_add(a: nat, b: nat)
    ensures
        two_pow(a + b) == two_pow(a) * two_pow(b),
    decreases a,
{
    let y = two_pow(b);
    if a > 0 {
        lemma_two_pow_add((a - 1) as nat, b);
        let x = two_pow((a - 1) as nat);
        let ab = (a + b) as nat;
        assert(((ab - 1) as nat) == ((a - 1) as nat) + b);
        assert(two_pow(ab) == 2 * two_pow((ab - 1) as nat));
        assert(2 * (x * y) == (2 * x) * y) by (nonlinear_arith);
    } else {
        assert(1 * y == y);
    }
}

pub proof fn lemma_ten_pow_add(a: nat, b: nat)
    ensures
        ten_pow(a + b) == ten_pow(a) * ten_pow(b),
    decreases a,
{
    let y = ten_pow(b);
    if a > 0 {
        lemma_ten_pow_add((a - 1) as nat, b);
        let x = ten_pow((a - 1) as nat);
        let ab = (a + b) as nat;
        assert(((ab - 1) as nat) == ((a - 1) as nat) + b);
        assert(ten_pow(ab) == 10 * ten_pow((ab - 1) as nat));
        assert(10 * (x * y) == (10 * x) * y) by (nonlinear_arith);
    } else {
        assert(1 * y == y);
    }
}

/// `2^j` as a `u32`.
fn two_pow_u32(j: u32) -> (m: u32)
    requires
        j <= 31,
    ensures
        m == two_pow(j as nat),
{
    let mut m: u32 = 1;
    let mut i: u32 = 0;
    while i < j
        invariant
            i <= j <= 31,
            m == two_pow(i as nat),
            m <= 0x8000_0000,
        decreases j - i,
    {
        proof {
            lemma_two_pow_bound(i as nat);
        }
        m = m * 2;
        i += 1;
    }
    m
}

pub proof fn lemma_two_pow_pos(i: nat)
    ensures
        two_pow(i) >= 1,
    decreases i,
{
    if i > 0 {
        lemma_two_pow_pos((i - 1) as nat);
    }
}

pub proof fn lemma_ten_pow_pos(i: nat)
    ensures
        ten_pow(i) >= 1,
    decreases i,
{
    if i > 0 {
        lemma_ten_pow_pos((i - 1) as nat);
    }
}

proof fn lemma_two_pow_bound(i: nat)
    requires
        i < 31,
    ensures
        two_pow(i) <= 0x4000_0000,
{
    lemma_two_pow_add(i, (30 - i) as nat);
    lemma_two_pow_pos((30 - i) as nat);
    reveal_with_fuel(two_pow, 31);
    let a = two_pow(i);
    let b = two_pow((30 - i) as nat);
    assert(a <= a * b) by (nonlinear_arith)
        requires
            b >= 1,
    ;
}

/// `10^j` as a `u32`.
fn ten_pow_u32(j: u32) -> (m: u32)
    requires
        j <= 9,
    ensures
        m == ten_pow(j as nat),
{
    let mut m: u32 = 1;
    let mut i: u32 = 0;
    while i < j
        invariant
            i <= j <= 9,
            m == ten_pow(i as nat),
        decreases j - i,
    {
        proof {
            lemma_ten_pow_bound(i as nat);
        }
        m = m * 10;
        i += 1;
    }
    m
}

proof fn lemma_ten_pow_bound(i: nat)
    requires
        i < 9,
    ensures
        ten_pow(i) <= 100_000_000,
{
    lemma_ten_pow_add(i, (8 - i) as nat);
    lemma_ten_pow_pos((8 - i) as nat);
    reveal_with_fuel(ten_pow, 9);
    let a = ten_pow(i);
    let b = ten_pow((8 - i) as nat);
    assert(a <= a * b) by (nonlinear_arith)
        requires
            b >= 1,
    ;
}

/// A number in limbs, least significant first, with no zero limb on top.
pub struct Bn {
    l: Vec<u64>,
}

impl Bn {
    /// Its value.
    pub closed spec fn val(&self) -> nat {
        limbs_val(self.l@)
    }

    /// Whether the top limb is nonzero.
    pub closed spec fn wf(&self) -> bool {
        normalized(self.l@)
    }

    /// The number `x`.
    pub fn from_u64(x: u64) -> (b: Bn)
        ensures
            b.wf(),
            b.val() == x,
    {
        let mut l: Vec<u64> = Vec::new();
        assert(limbs_val(l@) == 0);
        if x != 0 {
            l.push(x);
            proof {
                lemma_pval_push(Seq::<u64>::empty(), x);
                assert(l@ =~= Seq::<u64>::empty().push(x));
                assert(bpow(0) == 1);
                let b0 = bpow(0);
                assert(x * b0 == x) by (nonlinear_arith)
                    requires
                        b0 == 1,
                ;
            }
        }
        Bn { l }
    }

    /// The same number.
    pub fn duplicate(&self) -> (b: Bn)
        requires
            self.wf(),
        ensures
            b.wf(),
            b.val() == self.val(),
    {
        let mut l: Vec<u64> = Vec::new();
        let mut i: usize = 0;
        while i < self.l.len()
            invariant
                i <= self.l@.len(),
                l@ == self.l@.take(i as int),
            decreases self.l@.len() - i,
        {
            l.push(self.l[i]);
            i += 1;
            assert(l@ =~= self.l@.take(i as int));
        }
        assert(l@ =~= self.l@);
        Bn { l }
    }

    /// Whether the number is zero.
    pub fn is_zero(&self) -> (z: bool)
        requires
            self.wf(),
        ensures
            z <==> self.val() == 0,
    {
        proof {
            if self.l@.len() > 0 {
                lemma_val_lower(self.l@);
                lemma_bpow_pos((self.l@.len() - 1) as nat);
            }
        }
        self.l.len() == 0
    }

    /// Multiplies by `m`.
    pub fn mul_u32(&mut self, m: u32)
        requires
            old(self).wf(),
        ensures
            final(self).wf(),
            final(self).val() == old(self).val() * m,
    {
        if self.l.len() == 0 {
            return;
        }
        if m == 0 {
            self.l = Vec::new();
            return;
        }
        let n = self.l.len();
        let ghost x = self.l@;
        let mut res: Vec<u64> = Vec::new();
        let mut c: u64 = 0;
        let mut i: usize = 0;
        while i < n
            invariant
                n == x.len(),
                x == self.l@,
                i <= n,
                res@.len() == i,
                c < 0x1_0000_0000,
                1 <= m,
                pval(res@, i as nat) + c * bpow(i as nat) == pval(x, i as nat) * m,
            decreases n - i,
        {
            let a = self.l[i];
            assert((a as int) * (m as int) + c < 0x1_0000_0000 * 0x1_0000_0000_0000_0000) by (nonlinear_arith)
                requires
                    a < 0x1_0000_0000_0000_0000,
                    m < 0x1_0000_0000,
                    c < 0x1_0000_0000,
            ;
            let p: u128 = a as u128 * m as u128 + c as u128;
            let lo = (p % 0x1_0000_0000_0000_0000) as u64;
            let hi = (p / 0x1_0000_0000_0000_0000) as u64;
            proof {
                let b = bpow(i as nat);
                let pr = pval(res@, i as nat);
                let pa = pval(x, i as nat);
                assert(pr + lo * b + hi * (base() * b) == (pa + a * b) * m) by (nonlinear_arith)
                    requires
                        pr + c * b == pa * m,
                        lo + hi * base() == a * m + c,
                ;
                lemma_pval_push(res@, lo);
            }
            res.push(lo);
            c = hi;
            i += 1;
        }
        proof {
            lemma_pval_push(res@, c);
        }
        if c != 0 {
            res.push(c);
        } else {
            proof {
                lemma_val_lower(x);
                let b = bpow((n - 1) as nat);
                let v = limbs_val(x);
                assert(v * m >= b) by (nonlinear_arith)
                    requires
                        v >= b,
                        m >= 1,
                ;
                assert(c * bpow(n as nat) == 0);
                assert(limbs_val(res@) == v * m);
                if res@.last() == 0 {
                    lemma_val_drop_zero(res@);
                    lemma_pval_bound(res@.drop_last(), (n - 1) as nat);
                    assert(false);
                }
            }
        }
        self.l = res;
    }

    /// Adds `o`.
    pub fn add(&mut self, o: &Bn)
        requires
            old(self).wf(),
            o.wf(),
        ensures
            final(self).wf(),
            final(self).val() == old(self).val() + o.val(),
    {
        let ghost x = self.l@;
        let ghost y = o.l@;
        let n = if self.l.len() >= o.l.len() { self.l.len() } else { o.l.len() };
        let mut res: Vec<u64> = Vec::new();
        let mut c: u64 = 0;
        let mut i: usize = 0;
        while i < n
            invariant
                x == self.l@,
                y == o.l@,
                n >= x.len(),
                n >= y.len(),
                n == x.len() || n == y.len(),
                i <= n,
                res@.len() == i,
                c <= 1,
                pval(res@, i as nat) + c * bpow(i as nat) == pval(x, i as nat) + pval(y, i as nat),
            decreases n - i,
        {
            let a: u64 = if i < self.l.len() { self.l[i] } else { 0 };
            let b: u64 = if i < o.l.len() { o.l[i] } else { 0 };
            assert(a == limb(x, i as int) && b == limb(y, i as int));
            let t: u128 = a as u128 + b as u128 + c as u128;
            let lo = (t % 0x1_0000_0000_0000_0000) as u64;
            let hi = (t / 0x1_0000_0000_0000_0000) as u64;
            proof {
                let bp = bpow(i as nat);
                let pr = pval(res@, i as nat);
                let px = pval(x, i as nat);
                let py = pval(y, i as nat);
                assert(pr + lo * bp + hi * (base() * bp) == px + a * bp + py + b * bp) by (nonlinear_arith)
                    requires
                        pr + c * bp == px + py,
                        lo + hi * base() == a + b + c,
                ;
                lemma_pval_push(res@, lo);
            }
            res.push(lo);
            c = hi;
            i += 1;
        }
        proof {
            lemma_pval_past(x, n as nat);
            lemma_pval_past(y, n as nat);
            lemma_pval_push(res@, c);
        }
        if c != 0 {
            res.push(c);
        } else if n > 0 {
            proof {
                let b = bpow((n - 1) as nat);
                if n == x.len() {
                    lemma_val_lower(x);
                } else {
                    lemma_val_lower(y);
                }
                let bn = bpow(n as nat);
                assert(c * bn == 0) by (nonlinear_arith)
                    requires
                        c == 0,
                ;
                assert(limbs_val(res@) >= b);
                if res@.last() == 0 {
                    lemma_val_drop_zero(res@);
                    lemma_pval_bound(res@.drop_last(), (n - 1) as nat);
                    assert(false);
                }
            }
        }
        self.l = res;
    }

    /// Subtracts `o`, which is at most the number.
    pub fn sub(&mut self, o: &Bn)
        requires
            old(self).wf(),
            o.wf(),
            o.val() <= old(self).val(),
        ensures
            final(self).wf(),
            final(self).val() == old(self).val() - o.val(),
    {
        let ghost x = self.l@;
        let ghost y = o.l@;
        let n = self.l.len();
        proof {
            if y.len() > n {
                lemma_val_lower(y);
                lemma_pval_bound(x, n as nat);
                lemma_bpow_mono(n as nat, (y.len() - 1) as nat);
                assert(false);
            }
        }
        let mut res: Vec<u64> = Vec::new();
        let mut br: u64 = 0;
        let mut i: usize = 0;
        while i < n
            invariant
                x == self.l@,
                y == o.l@,
                n == x.len(),
                y.len() <= n,
                i <= n,
                res@.len() == i,
                br <= 1,
                pval(res@, i as nat) + pval(y, i as nat) == pval(x, i as nat) + br * bpow(i as nat),
            decreases n - i,
        {
            let a: u64 = self.l[i];
            let b: u64 = if i < o.l.len() { o.l[i] } else { 0 };
            assert(a == limb(x, i as int) && b == limb(y, i as int));
            let d: u64;
            let nbr: u64;
            if (a as u128) >= (b as u128) + (br as u128) {
                d = (a as u128 - b as u128 - br as u128) as u64;
                nbr = 0;
            } else {
                d = (a as u128 + 0x1_0000_0000_0000_0000 - b as u128 - br as u128) as u64;
                nbr = 1;
            }
            proof {
                let bp = bpow(i as nat);
                let pr = pval(res@, i as nat);
                let px = pval(x, i as nat);
                let py = pval(y, i as nat);
                assert(pr + d * bp + py + b * bp == px + a * bp + nbr * (base() * bp)) by (nonlinear_arith)
                    requires
                        pr + py == px + br * bp,
                        d + b + br == a + nbr * base(),
                ;
                lemma_pval_push(res@, d);
            }
            res.push(d);
            br = nbr;
            i += 1;
        }
        proof {
            lemma_pval_past(y, n as nat);
            lemma_pval_bound(res@, n as nat);
            if br == 1 {
                assert(br * bpow(n as nat) == bpow(n as nat));
                assert(false);
            }
            assert(br * bpow(n as nat) == 0);
        }
        while res.len() > 0 && res[res.len() - 1] == 0
            invariant
                limbs_val(res@) == limbs_val(x) - limbs_val(y),
            decreases res@.len(),
        {
            proof {
                lemma_val_drop_zero(res@);
            }
            res.pop();
        }
        self.l = res;
    }

    /// Compares with `o`: -1 where the number is the smaller, 0 where they are
    /// equal, 1 where it is the larger.
    pub fn compare(&self, o: &Bn) -> (r: i8)
        requires
            self.wf(),
            o.wf(),
        ensures
            r == -1 <==> self.val() < o.val(),
            r == 0 <==> self.val() == o.val(),
            r == 1 <==> self.val() > o.val(),
    {
        let ghost x = self.l@;
        let ghost y = o.l@;
        let n = self.l.len();
        let m = o.l.len();
        if n != m {
            proof {
                if n < m {
                    lemma_pval_bound(x, n as nat);
                    lemma_bpow_mono(n as nat, (m - 1) as nat);
                    lemma_val_lower(y);
                } else {
                    lemma_pval_bound(y, m as nat);
                    lemma_bpow_mono(m as nat, (n - 1) as nat);
                    lemma_val_lower(x);
                }
            }
            return if n < m { -1 } else { 1 };
        }
        let mut i = n;
        while i > 0
            invariant
                x == self.l@,
                y == o.l@,
                n == x.len(),
                n == y.len(),
                i <= n,
                forall|j: int| i <= j < n ==> limb(x, j) == limb(y, j),
            decreases i,
        {
            i -= 1;
            if self.l[i] != o.l[i] {
                proof {
                    if self.l[i as int] < o.l[i as int] {
                        lemma_pval_lt(x, y, i as nat, n as nat);
                    } else {
                        lemma_pval_lt(y, x, i as nat, n as nat);
                    }
                }
                return if self.l[i] < o.l[i] { -1 } else { 1 };
            }
        }
        proof {
            lemma_pval_agree(x, y, n as nat);
        }
        0
    }

    /// Multiplies by `2^bits`.
    pub fn shl(&mut self, bits: u32)
        requires
            old(self).wf(),
        ensures
            final(self).wf(),
            final(self).val() == old(self).val() * two_pow(bits as nat),
    {
        let ghost v0 = self.val();
        assert(v0 * two_pow(0) == v0) by (nonlinear_arith)
            requires
                two_pow(0) == 1,
        ;
        let big = two_pow_u32(31);
        let mut rest = bits;
        while rest >= 31
            invariant
                self.wf(),
                rest <= bits,
                big == two_pow(31),
                self.val() == v0 * two_pow((bits - rest) as nat),
            decreases rest,
        {
            proof {
                lemma_two_pow_add((bits - rest) as nat, 31);
                let a = two_pow((bits - rest) as nat);
                assert(v0 * a * big == v0 * (a * big)) by (nonlinear_arith);
            }
            self.mul_u32(big);
            rest -= 31;
        }
        let m = two_pow_u32(rest);
        proof {
            lemma_two_pow_add((bits - rest) as nat, rest as nat);
            let a = two_pow((bits - rest) as nat);
            assert(v0 * a * m == v0 * (a * m)) by (nonlinear_arith);
        }
        self.mul_u32(m);
    }

    /// Multiplies by `10^k`: by `10^9` while `k` is at least 9, then by the rest.
    pub fn mul_pow10(&mut self, k: u32)
        requires
            old(self).wf(),
        ensures
            final(self).wf(),
            final(self).val() == old(self).val() * ten_pow(k as nat),
    {
        let ghost v0 = self.val();
        assert(v0 * ten_pow(0) == v0) by (nonlinear_arith)
            requires
                ten_pow(0) == 1,
        ;
        let big = ten_pow_u32(9);
        let mut rest = k;
        while rest >= 9
            invariant
                self.wf(),
                rest <= k,
                big == ten_pow(9),
                self.val() == v0 * ten_pow((k - rest) as nat),
            decreases rest,
        {
            proof {
                lemma_ten_pow_add((k - rest) as nat, 9);
                let a = ten_pow((k - rest) as nat);
                assert(v0 * a * big == v0 * (a * big)) by (nonlinear_arith);
            }
            self.mul_u32(big);
            rest -= 9;
        }
        if rest > 0 {
            let m = ten_pow_u32(rest);
            proof {
                lemma_ten_pow_add((k - rest) as nat, rest as nat);
                let a = ten_pow((k - rest) as nat);
                assert(v0 * a * m == v0 * (a * m)) by (nonlinear_arith);
            }
            self.mul_u32(m);
        }
    }
}

} // verus!
