use vstd::prelude::*;
use crate::regex::{
    Re, PI, Thr, escape, class_escape, atom, comp, comp_seq, comp_alt, program, groups_ok, inst_ok, block_ok, prog_ok, thr_ok, list_ok,
    add_thread, advances, step_threads, run_threads, none_seen, captures_of, start_at, span_of, lit_prefix,
    lemma_comp_ok, lemma_comp_seq_ok, lemma_comp_alt_ok, lemma_groups_ok_parts, lemma_program_ok,
    lemma_add_ok, lemma_step_ok, lemma_occurs_bound, count_false, lemma_count_mark, lemma_count_mono,
    lemma_count_len, occurs_from, lemma_match_span,
};

verus! {

/// Whether the pattern `r` matches the bytes `s[i..j]`: a byte, any byte, a byte of a
/// set (or not of it), the end of the input, parts one after another, one of the
/// branches (none: the empty string), a part repeated any number of times, at least
/// once or at most once, and a group as its part.
pub open spec fn re_match(r: Re, s: Seq<u8>, i: int, j: int) -> bool
    decreases r, 0int, 0int, 0int,
{
    match r {
        Re::Byte(b) => 0 <= i < s.len() && j == i + 1 && s[i] == b,
        Re::Any => 0 <= i < s.len() && j == i + 1,
        Re::Class(bits, neg) => 0 <= i < s.len() && j == i + 1 && ((s[i] < bits.len() && bits[s[i] as int])
            != neg),
        Re::End => i == s.len() && j == i,
        Re::Concat(xs) => seq_match(xs, xs.len() as int, s, i, j),
        Re::Alt(xs) => if xs.len() == 0 {
            i == j
        } else {
            alt_match(xs, 0, s, i, j)
        },
        Re::Star(x) => star_match(*x, s, i, j),
        Re::Plus(x) => plus_from(*x, s, i, j, i),
        Re::Opt(x) => i == j || re_match(*x, s, i, j),
        Re::Group(x, _) => re_match(*x, s, i, j),
    }
}

/// Whether the first `k` parts match `s[i..j]`, one after another.
pub open spec fn seq_match(xs: Seq<Re>, k: int, s: Seq<u8>, i: int, j: int) -> bool
    decreases xs, 2 * k + 1, 0int, 0int,
{
    if k <= 0 || k > xs.len() {
        i == j
    } else {
        seq_from(xs, k, s, i, j, i)
    }
}

/// Whether the first `k - 1` parts match `s[i..m]` and part `k` matches `s[m..j]`, for
/// some `m` in `from..=j`.
pub open spec fn seq_from(xs: Seq<Re>, k: int, s: Seq<u8>, i: int, j: int, from: int) -> bool
    decreases xs, 2 * k, j - from + 1, 0int,
{
    if from > j || k <= 0 || k > xs.len() {
        false
    } else {
        (seq_match(xs, k - 1, s, i, from) && re_match(xs[k - 1], s, from, j)) || seq_from(xs, k, s, i, j, from + 1)
    }
}

/// Whether one of the branches `xs[k..]` matches `s[i..j]`.
pub open spec fn alt_match(xs: Seq<Re>, k: int, s: Seq<u8>, i: int, j: int) -> bool
    decreases xs, xs.len() - k, 0int, 0int,
{
    if k < 0 || k >= xs.len() {
        false
    } else {
        re_match(xs[k], s, i, j) || alt_match(xs, k + 1, s, i, j)
    }
}

/// Whether `x` repeated any number of times matches `s[i..j]`.
pub open spec fn star_match(x: Re, s: Seq<u8>, i: int, j: int) -> bool
    decreases x, j - i + 1, 1int, 0int,
{
    i == j || (i < j && star_from(x, s, i, j, i + 1))
}

/// Whether `x` matches `s[i..m]` and repeated matches `s[m..j]`, for some `m` in
/// `from..=j` past `i`.
pub open spec fn star_from(x: Re, s: Seq<u8>, i: int, j: int, from: int) -> bool
    decreases x, j - i + 1, 0int, j - from + 1,
{
    if from > j || from <= i {
        false
    } else {
        (re_match(x, s, i, from) && star_match(x, s, from, j)) || star_from(x, s, i, j, from + 1)
    }
}

/// Whether `x` matches `s[i..m]` and repeated matches `s[m..j]`, for some `m` in
/// `from..=j`.
pub open spec fn plus_from(x: Re, s: Seq<u8>, i: int, j: int, from: int) -> bool
    decreases x, j - i + 2, 0int, j - from + 1,
{
    if from > j || from < i {
        false
    } else {
        (re_match(x, s, i, from) && star_match(x, s, from, j)) || plus_from(x, s, i, j, from + 1)
    }
}

/// A split point in range makes the search for one succeed.
proof fn lemma_seq_from(xs: Seq<Re>, k: int, s: Seq<u8>, i: int, j: int, from: int, m: int)
    requires
        from <= m <= j,
        0 < k <= xs.len(),
        seq_match(xs, k - 1, s, i, m),
        re_match(xs[k - 1], s, m, j),
    ensures
        seq_from(xs, k, s, i, j, from),
    decreases m - from,
{
    if from < m {
        lemma_seq_from(xs, k, s, i, j, from + 1, m);
    }
}

/// A split point in range makes the search for one succeed.
proof fn lemma_star_from(x: Re, s: Seq<u8>, i: int, j: int, from: int, m: int)
    requires
        i < from <= m <= j,
        re_match(x, s, i, m),
        star_match(x, s, m, j),
    ensures
        star_from(x, s, i, j, from),
    decreases m - from,
{
    if from < m {
        lemma_star_from(x, s, i, j, from + 1, m);
    }
}

/// A split point in range makes the search for one succeed.
proof fn lemma_plus_from(x: Re, s: Seq<u8>, i: int, j: int, from: int, m: int)
    requires
        i <= from <= m <= j,
        re_match(x, s, i, m),
        star_match(x, s, m, j),
    ensures
        plus_from(x, s, i, j, from),
    decreases m - from,
{
    if from < m {
        lemma_plus_from(x, s, i, j, from + 1, m);
    }
}

/// A successful search has a split point in range.
proof fn lemma_plus_point(x: Re, s: Seq<u8>, i: int, j: int, from: int) -> (m: int)
    requires
        plus_from(x, s, i, j, from),
    ensures
        from <= m <= j,
        i <= m,
        re_match(x, s, i, m),
        star_match(x, s, m, j),
    decreases j - from + 1,
{
    if re_match(x, s, i, from) && star_match(x, s, from, j) {
        from
    } else {
        lemma_plus_point(x, s, i, j, from + 1)
    }
}

/// Whether the program `code` goes in `k` steps from instruction `pc` at input
/// position `i` to instruction `e` at position `j`, every instruction before `e` in
/// `lo..hi`: a byte, any-byte or set instruction moves past a byte it accepts, a jump
/// or a choice goes to a target, a slot goes on, an end check goes on at the end.
pub open spec fn run_in(code: Seq<PI>, s: Seq<u8>, lo: int, hi: int, pc: int, i: int, e: int, j: int, k: nat) -> bool
    decreases k,
{
    if k == 0 {
        pc == e && i == j
    } else if !(lo <= pc < hi && 0 <= pc < code.len()) {
        false
    } else {
        let k1 = (k - 1) as nat;
        match code[pc] {
            PI::Byte(b) => 0 <= i < s.len() && s[i] == b && run_in(code, s, lo, hi, pc + 1, i + 1, e, j, k1),
            PI::Any => 0 <= i < s.len() && run_in(code, s, lo, hi, pc + 1, i + 1, e, j, k1),
            PI::Class(bits, neg) => 0 <= i < s.len() && ((s[i] < bits.len() && bits[s[i] as int]) != neg)
                && run_in(code, s, lo, hi, pc + 1, i + 1, e, j, k1),
            PI::Jmp(t) => run_in(code, s, lo, hi, t, i, e, j, k1),
            PI::Split(x, y) => run_in(code, s, lo, hi, x, i, e, j, k1) || run_in(code, s, lo, hi, y, i, e, j, k1),
            PI::Save(_) => run_in(code, s, lo, hi, pc + 1, i, e, j, k1),
            PI::End => i == s.len() && run_in(code, s, lo, hi, pc + 1, i, e, j, k1),
            PI::Match => false,
        }
    }
}

/// Whether every instruction in `lo..hi` keeps within `lo..=hi`.
pub open spec fn closed(code: Seq<PI>, lo: int, hi: int, n: nat) -> bool {
    &&& 0 <= lo <= hi <= code.len()
    &&& forall|q: int| lo <= q < hi ==> inst_ok(#[trigger] code[q], lo, hi, n)
}

/// A path never moves back in the input.
proof fn lemma_run_mono(code: Seq<PI>, s: Seq<u8>, lo: int, hi: int, pc: int, i: int, e: int, j: int, k: nat)
    requires
        run_in(code, s, lo, hi, pc, i, e, j, k),
    ensures
        i <= j,
    decreases k,
{
    if k > 0 {
        let k1 = (k - 1) as nat;
        match code[pc] {
            PI::Byte(b) => lemma_run_mono(code, s, lo, hi, pc + 1, i + 1, e, j, k1),
            PI::Any => lemma_run_mono(code, s, lo, hi, pc + 1, i + 1, e, j, k1),
            PI::Class(bits, neg) => lemma_run_mono(code, s, lo, hi, pc + 1, i + 1, e, j, k1),
            PI::Jmp(t) => lemma_run_mono(code, s, lo, hi, t, i, e, j, k1),
            PI::Split(x, y) => if run_in(code, s, lo, hi, x, i, e, j, k1) {
                lemma_run_mono(code, s, lo, hi, x, i, e, j, k1);
            } else {
                lemma_run_mono(code, s, lo, hi, y, i, e, j, k1);
            },
            PI::Save(_) => lemma_run_mono(code, s, lo, hi, pc + 1, i, e, j, k1),
            PI::End => lemma_run_mono(code, s, lo, hi, pc + 1, i, e, j, k1),
            PI::Match => {},
        }
    }
}

/// A path from its goal outside the range has no step.
proof fn lemma_run_exit(code: Seq<PI>, s: Seq<u8>, lo: int, hi: int, e: int, i: int, j: int, k: nat)
    requires
        run_in(code, s, lo, hi, e, i, e, j, k),
        !(lo <= e < hi),
    ensures
        i == j,
{
}

/// Two paths, the second from where the first ends, make one.
pub proof fn lemma_run_join(code: Seq<PI>, s: Seq<u8>, lo: int, hi: int, a: int, i: int, p: int, m: int, e: int, j: int, k1: nat, k2: nat)
    requires
        run_in(code, s, lo, hi, a, i, p, m, k1),
        run_in(code, s, lo, hi, p, m, e, j, k2),
    ensures
        run_in(code, s, lo, hi, a, i, e, j, k1 + k2),
    decreases k1,
{
    if k1 > 0 {
        let k0 = (k1 - 1) as nat;
        assert((k1 + k2 - 1) as nat == k0 + k2);
        match code[a] {
            PI::Byte(b) => lemma_run_join(code, s, lo, hi, a + 1, i + 1, p, m, e, j, k0, k2),
            PI::Any => lemma_run_join(code, s, lo, hi, a + 1, i + 1, p, m, e, j, k0, k2),
            PI::Class(bits, neg) => lemma_run_join(code, s, lo, hi, a + 1, i + 1, p, m, e, j, k0, k2),
            PI::Jmp(t) => lemma_run_join(code, s, lo, hi, t, i, p, m, e, j, k0, k2),
            PI::Split(x, y) => if run_in(code, s, lo, hi, x, i, p, m, k0) {
                lemma_run_join(code, s, lo, hi, x, i, p, m, e, j, k0, k2);
            } else {
                lemma_run_join(code, s, lo, hi, y, i, p, m, e, j, k0, k2);
            },
            PI::Save(_) => lemma_run_join(code, s, lo, hi, a + 1, i, p, m, e, j, k0, k2),
            PI::End => lemma_run_join(code, s, lo, hi, a + 1, i, p, m, e, j, k0, k2),
            PI::Match => {},
        }
    }
}

/// A path that enters a closed block `lo2..hi2` and ends outside it leaves through
/// its end: it splits into a path within the block to `hi2` and the rest.
proof fn lemma_run_split(
    code: Seq<PI>,
    s: Seq<u8>,
    lo: int,
    hi: int,
    lo2: int,
    hi2: int,
    n: nat,
    pc: int,
    i: int,
    e: int,
    j: int,
    k: nat,
) -> (r: (int, nat))
    requires
        run_in(code, s, lo, hi, pc, i, e, j, k),
        closed(code, lo2, hi2, n),
        lo <= lo2,
        hi2 <= hi,
        lo2 <= pc <= hi2,
        !(lo2 <= e < hi2),
    ensures
        r.1 <= k,
        run_in(code, s, lo2, hi2, pc, i, hi2, r.0, r.1),
        run_in(code, s, lo, hi, hi2, r.0, e, j, (k - r.1) as nat),
    decreases k,
{
    if pc == hi2 {
        (i, 0)
    } else {
        assert(k > 0);
        assert(inst_ok(code[pc], lo2, hi2, n));
        let k0 = (k - 1) as nat;
        match code[pc] {
            PI::Byte(b) => {
                let (m, k1) = lemma_run_split(code, s, lo, hi, lo2, hi2, n, pc + 1, i + 1, e, j, k0);
                (m, k1 + 1)
            },
            PI::Any => {
                let (m, k1) = lemma_run_split(code, s, lo, hi, lo2, hi2, n, pc + 1, i + 1, e, j, k0);
                (m, k1 + 1)
            },
            PI::Class(bits, neg) => {
                let (m, k1) = lemma_run_split(code, s, lo, hi, lo2, hi2, n, pc + 1, i + 1, e, j, k0);
                (m, k1 + 1)
            },
            PI::Jmp(t) => {
                let (m, k1) = lemma_run_split(code, s, lo, hi, lo2, hi2, n, t, i, e, j, k0);
                (m, k1 + 1)
            },
            PI::Split(x, y) => if run_in(code, s, lo, hi, x, i, e, j, k0) {
                let (m, k1) = lemma_run_split(code, s, lo, hi, lo2, hi2, n, x, i, e, j, k0);
                (m, k1 + 1)
            } else {
                let (m, k1) = lemma_run_split(code, s, lo, hi, lo2, hi2, n, y, i, e, j, k0);
                (m, k1 + 1)
            },
            PI::Save(_) => {
                let (m, k1) = lemma_run_split(code, s, lo, hi, lo2, hi2, n, pc + 1, i, e, j, k0);
                (m, k1 + 1)
            },
            PI::End => {
                let (m, k1) = lemma_run_split(code, s, lo, hi, lo2, hi2, n, pc + 1, i, e, j, k0);
                (m, k1 + 1)
            },
            PI::Match => (i, 0),
        }
    }
}

/// A block placed in the program at `base` keeps within its place there.
proof fn lemma_closed(code: Seq<PI>, c: Seq<PI>, base: int, n: nat)
    requires
        0 <= base,
        base + c.len() <= code.len(),
        code.subrange(base, base + c.len()) == c,
        block_ok(c, base, n),
    ensures
        closed(code, base, base + c.len(), n),
{
    assert forall|q: int| base <= q < base + c.len() implies inst_ok(#[trigger] code[q], base, base + c.len(), n) by {
        assert(code[q] == code.subrange(base, base + c.len())[q - base]);
    }
}


/// What a path through the instructions for `r`, placed at `base`, from their start
/// to their end reads: the pattern matches it.
#[verifier::spinoff_prover]
#[verifier::rlimit(100)]
pub proof fn lemma_comp_sound(r: Re, g: nat, code: Seq<PI>, s: Seq<u8>, base: int, i: int, j: int, k: nat)
    requires
        groups_ok(r, g),
        0 <= base,
        base + comp(r, base).len() <= code.len(),
        code.subrange(base, base + comp(r, base).len()) == comp(r, base),
        run_in(code, s, base, base + comp(r, base).len(), base, i, base + comp(r, base).len(), j, k),
    ensures
        re_match(r, s, i, j),
    decreases r, 0int, k,
{
    let c = comp(r, base);
    let hi = base + c.len();
    let n = 2 * (g + 1);
    assert forall|q: int| base <= q < hi implies code[q] == c[q - base] by {
        assert(code[q] == code.subrange(base, hi)[q - base]);
    }
    match r {
        Re::Byte(b) => {
            assert(c[0] == PI::Byte(b));
            assert(code[base] == c[0]);
            assert(k > 0);
            assert(0 <= i < s.len() && s[i] == b);
            assert(run_in(code, s, base, hi, base + 1, i + 1, hi, j, (k - 1) as nat));
            lemma_run_exit(code, s, base, hi, hi, i + 1, j, (k - 1) as nat);
            assert(j == i + 1);
            assert(re_match(Re::Byte(b), s, i, j));
        },
        Re::Any => {
            assert(code[base] == c[0]);
            assert(k > 0);
            lemma_run_exit(code, s, base, hi, hi, i + 1, j, (k - 1) as nat);
        },
        Re::Class(bits, neg) => {
            assert(code[base] == c[0]);
            assert(k > 0);
            lemma_run_exit(code, s, base, hi, hi, i + 1, j, (k - 1) as nat);
        },
        Re::End => {
            assert(code[base] == c[0]);
            assert(k > 0);
            lemma_run_exit(code, s, base, hi, hi, i, j, (k - 1) as nat);
        },
        Re::Concat(xs) => {
            lemma_groups_ok_parts(xs, xs.len() as int, g);
            lemma_seq_sound(xs, xs.len() as int, g, code, s, base, i, j, k);
        },
        Re::Alt(xs) => {
            lemma_groups_ok_parts(xs, xs.len() as int, g);
            if xs.len() == 0 {
                assert(comp_alt(xs, 0, base) == Seq::<PI>::empty());
                assert(c.len() == 0);
                lemma_run_exit(code, s, base, hi, base, i, j, k);
            } else {
                lemma_alt_sound(xs, 0, g, code, s, base, i, j, k);
            }
        },
        Re::Star(x) => {
            let body = comp(*x, base + 1);
            let bl = body.len() as int;
            lemma_comp_ok(*x, base + 1, g);
            assert(code.subrange(base + 1, base + 1 + bl) =~= body);
            lemma_closed(code, body, base + 1, n);
            assert(hi == base + 2 + bl);
            if i != j {
                assert(code[base] == PI::Split(base + 1, base + 2 + bl));
                assert(k > 0);
                let k0 = (k - 1) as nat;
                if run_in(code, s, base, hi, hi, i, hi, j, k0) {
                    lemma_run_exit(code, s, base, hi, hi, i, j, k0);
                }
                assert(run_in(code, s, base, hi, base + 1, i, hi, j, k0));
                let (m, k1) = lemma_run_split(code, s, base, hi, base + 1, base + 1 + bl, n, base + 1, i, hi, j, k0);
                lemma_comp_sound(*x, g, code, s, base + 1, i, m, k1);
                assert(code[base + 1 + bl] == PI::Jmp(base));
                let k2 = (k0 - k1) as nat;
                assert(k2 > 0);
                let k3 = (k2 - 1) as nat;
                assert(run_in(code, s, base, hi, base, m, hi, j, k3));
                lemma_comp_sound(r, g, code, s, base, m, j, k3);
                lemma_run_mono(code, s, base, hi, base, m, hi, j, k3);
                lemma_run_mono(code, s, base + 1, base + 1 + bl, base + 1, i, base + 1 + bl, m, k1);
                assert(re_match(r, s, m, j));
                assert(star_match(*x, s, m, j));
                if m != i {
                    lemma_star_from(*x, s, i, j, i + 1, m);
                }
                assert(star_match(*x, s, i, j));
            } else {
                assert(star_match(*x, s, i, j));
            }
            assert(re_match(r, s, i, j));
        },
        Re::Plus(x) => {
            let body = comp(*x, base);
            let bl = body.len() as int;
            lemma_comp_ok(*x, base, g);
            assert(code.subrange(base, base + bl) =~= body);
            lemma_closed(code, body, base, n);
            assert(hi == base + 1 + bl);
            let (m, k1) = lemma_run_split(code, s, base, hi, base, base + bl, n, base, i, hi, j, k);
            lemma_comp_sound(*x, g, code, s, base, i, m, k1);
            lemma_run_mono(code, s, base, base + bl, base, i, base + bl, m, k1);
            assert(code[base + bl] == PI::Split(base, base + 1 + bl));
            let k2 = (k - k1) as nat;
            assert(k2 > 0);
            let k3 = (k2 - 1) as nat;
            lemma_run_mono(code, s, base, hi, base + bl, m, hi, j, k2);
            if run_in(code, s, base, hi, hi, m, hi, j, k3) {
                lemma_run_exit(code, s, base, hi, hi, m, j, k3);
                assert(star_match(*x, s, m, j));
                lemma_plus_from(*x, s, i, j, i, m);
            } else {
                assert(run_in(code, s, base, hi, base, m, hi, j, k3));
                lemma_comp_sound(r, g, code, s, base, m, j, k3);
                assert(re_match(r, s, m, j));
                let m2 = lemma_plus_point(*x, s, m, j, m);
                if m2 != m {
                    lemma_star_from(*x, s, m, j, m + 1, m2);
                }
                assert(star_match(*x, s, m, j));
                lemma_plus_from(*x, s, i, j, i, m);
            }
        },
        Re::Opt(x) => {
            let body = comp(*x, base + 1);
            let bl = body.len() as int;
            lemma_comp_ok(*x, base + 1, g);
            assert(code.subrange(base + 1, base + 1 + bl) =~= body);
            lemma_closed(code, body, base + 1, n);
            assert(hi == base + 1 + bl);
            if i != j {
                assert(code[base] == PI::Split(base + 1, base + 1 + bl));
                let k0 = (k - 1) as nat;
                if run_in(code, s, base, hi, hi, i, hi, j, k0) {
                    lemma_run_exit(code, s, base, hi, hi, i, j, k0);
                }
                let (m, k1) = lemma_run_split(code, s, base, hi, base + 1, hi, n, base + 1, i, hi, j, k0);
                lemma_run_exit(code, s, base, hi, hi, m, j, (k0 - k1) as nat);
                lemma_comp_sound(*x, g, code, s, base + 1, i, m, k1);
            }
        },
        Re::Group(x, gi) => {
            let body = comp(*x, base + 1);
            let bl = body.len() as int;
            lemma_comp_ok(*x, base + 1, g);
            assert(code.subrange(base + 1, base + 1 + bl) =~= body);
            lemma_closed(code, body, base + 1, n);
            assert(hi == base + 2 + bl);
            assert(code[base] == PI::Save(2 * gi as int));
            let k0 = (k - 1) as nat;
            let (m, k1) = lemma_run_split(code, s, base, hi, base + 1, base + 1 + bl, n, base + 1, i, hi, j, k0);
            lemma_comp_sound(*x, g, code, s, base + 1, i, m, k1);
            assert(code[base + 1 + bl] == PI::Save(2 * gi as int + 1));
            let k2 = (k0 - k1) as nat;
            lemma_run_exit(code, s, base, hi, hi, m, j, (k2 - 1) as nat);
        },
    }
}

/// What a path through the instructions for the first `kk` parts reads: they match
/// it one after another.
proof fn lemma_seq_sound(xs: Seq<Re>, kk: int, g: nat, code: Seq<PI>, s: Seq<u8>, base: int, i: int, j: int, k: nat)
    requires
        0 <= kk <= xs.len(),
        forall|q: int| 0 <= q < xs.len() ==> groups_ok(#[trigger] xs[q], g),
        0 <= base,
        base + comp_seq(xs, kk, base).len() <= code.len(),
        code.subrange(base, base + comp_seq(xs, kk, base).len()) == comp_seq(xs, kk, base),
        run_in(
            code,
            s,
            base,
            base + comp_seq(xs, kk, base).len(),
            base,
            i,
            base + comp_seq(xs, kk, base).len(),
            j,
            k,
        ),
    ensures
        seq_match(xs, kk, s, i, j),
    decreases xs, kk, k,
{
    let c = comp_seq(xs, kk, base);
    let hi = base + c.len();
    let n = 2 * (g + 1);
    assert forall|q: int| base <= q < hi implies code[q] == c[q - base] by {
        assert(code[q] == code.subrange(base, hi)[q - base]);
    }
    if kk == 0 {
        lemma_run_exit(code, s, base, hi, base, i, j, k);
    } else {
        let before = comp_seq(xs, kk - 1, base);
        let b1 = before.len() as int;
        let last = comp(xs[kk - 1], base + b1);
        assert(c == before + last);
        lemma_comp_seq_ok(xs, kk - 1, base, g);
        lemma_comp_ok(xs[kk - 1], base + b1, g);
        assert(code.subrange(base, base + b1) =~= before);
        assert(code.subrange(base + b1, hi) =~= last);
        lemma_closed(code, before, base, n);
        lemma_closed(code, last, base + b1, n);
        let (m, k1) = lemma_run_split(code, s, base, hi, base, base + b1, n, base, i, hi, j, k);
        lemma_seq_sound(xs, kk - 1, g, code, s, base, i, m, k1);
        let k2 = (k - k1) as nat;
        let (m2, k3) = lemma_run_split(code, s, base, hi, base + b1, hi, n, base + b1, m, hi, j, k2);
        lemma_run_exit(code, s, base, hi, hi, m2, j, (k2 - k3) as nat);
        lemma_comp_sound(xs[kk - 1], g, code, s, base + b1, m, j, k3);
        lemma_run_mono(code, s, base, base + b1, base, i, base + b1, m, k1);
        lemma_run_mono(code, s, base + b1, hi, base + b1, m, hi, m2, k3);
        lemma_seq_from(xs, kk, s, i, j, i, m);
    }
}

/// What a path through the instructions for the branches `xs[kk..]` reads: one of
/// them matches it.
proof fn lemma_alt_sound(xs: Seq<Re>, kk: int, g: nat, code: Seq<PI>, s: Seq<u8>, base: int, i: int, j: int, k: nat)
    requires
        0 <= kk < xs.len(),
        forall|q: int| 0 <= q < xs.len() ==> groups_ok(#[trigger] xs[q], g),
        0 <= base,
        base + comp_alt(xs, kk, base).len() <= code.len(),
        code.subrange(base, base + comp_alt(xs, kk, base).len()) == comp_alt(xs, kk, base),
        run_in(
            code,
            s,
            base,
            base + comp_alt(xs, kk, base).len(),
            base,
            i,
            base + comp_alt(xs, kk, base).len(),
            j,
            k,
        ),
    ensures
        alt_match(xs, kk, s, i, j),
    decreases xs, xs.len() - kk, k,
{
    let c = comp_alt(xs, kk, base);
    let hi = base + c.len();
    let n = 2 * (g + 1);
    assert forall|q: int| base <= q < hi implies code[q] == c[q - base] by {
        assert(code[q] == code.subrange(base, hi)[q - base]);
    }
    if kk == xs.len() - 1 {
        lemma_comp_sound(xs[kk], g, code, s, base, i, j, k);
    } else {
        let a = comp(xs[kk], base + 1);
        let al = a.len() as int;
        let rb = base + 2 + al;
        let rest = comp_alt(xs, kk + 1, rb);
        assert(c == seq![PI::Split(base + 1, rb)] + a + seq![PI::Jmp(rb + rest.len())] + rest);
        assert(hi == rb + rest.len());
        lemma_comp_ok(xs[kk], base + 1, g);
        lemma_comp_alt_ok(xs, kk + 1, rb, g);
        assert(code.subrange(base + 1, base + 1 + al) =~= a);
        assert(code.subrange(rb, hi) =~= rest);
        lemma_closed(code, a, base + 1, n);
        lemma_closed(code, rest, rb, n);
        assert(code[base] == c[0]);
        assert(code[base] == PI::Split(base + 1, rb));
        let k0 = (k - 1) as nat;
        if run_in(code, s, base, hi, base + 1, i, hi, j, k0) {
            let (m, k1) = lemma_run_split(code, s, base, hi, base + 1, base + 1 + al, n, base + 1, i, hi, j, k0);
            lemma_comp_sound(xs[kk], g, code, s, base + 1, i, m, k1);
            assert(code[base + 1 + al] == c[1 + al]);
            assert(code[base + 1 + al] == PI::Jmp(hi));
            let k2 = (k0 - k1) as nat;
            lemma_run_exit(code, s, base, hi, hi, m, j, (k2 - 1) as nat);
        } else {
            let (m, k1) = lemma_run_split(code, s, base, hi, rb, hi, n, rb, i, hi, j, k0);
            lemma_run_exit(code, s, base, hi, hi, m, j, (k0 - k1) as nat);
            lemma_alt_sound(xs, kk + 1, g, code, s, rb, i, m, k1);
        }
    }
}



/// Whether a thread at input position `pos` has come along a path through the body of
/// the program: inside the body, a path from the body's start at the position that
/// slot 0 holds; at the match instruction, a path all the way through the body from
/// the position in slot 0 to the position in slot 1.
pub open spec fn path_ok(code: Seq<PI>, anchored: bool, s: Seq<u8>, t: Thr, pos: int) -> bool {
    let b: int = if anchored { 0 } else { 3 };
    let l = code.len() as int;
    &&& (b < t.0 <= l - 2 ==> t.1.len() >= 1 && t.1[0] is Some && reaches(
        code,
        s,
        b + 1,
        l - 2,
        t.1[0]->Some_0 as int,
        t.0,
        pos,
    ))
    &&& (t.0 == l - 1 ==> found_ok(code, anchored, s, t.1))
    &&& (anchored && t.0 == 0 ==> pos == 0)
    &&& (anchored && 0 < t.0 <= l - 2 ==> t.1[0] == Some(0usize))
}

/// Whether every thread of `list` has come along a path through the body.
pub open spec fn paths_ok(code: Seq<PI>, anchored: bool, s: Seq<u8>, list: Seq<Thr>, pos: int) -> bool {
    forall|i: int| 0 <= i < list.len() ==> path_ok(code, anchored, s, #[trigger] list[i], pos)
}

/// Whether match slots come from a path all the way through the body of the program,
/// from the position in slot 0 to the position in slot 1.
pub open spec fn found_ok(code: Seq<PI>, anchored: bool, s: Seq<u8>, c: Seq<Option<usize>>) -> bool {
    let b: int = if anchored { 0 } else { 3 };
    let l = code.len() as int;
    &&& c.len() >= 2
    &&& c[0] is Some
    &&& c[1] is Some
    &&& reaches(code, s, b + 1, l - 2, c[0]->Some_0 as int, l - 2, c[1]->Some_0 as int)
    &&& (anchored ==> c[0] == Some(0usize))
}

/// Whether the program goes from the start `lo` of the block `lo..hi` at position `i`
/// to instruction `e` at position `j`, every instruction before `e` in the block.
pub open spec fn reaches(code: Seq<PI>, s: Seq<u8>, lo: int, hi: int, i: int, e: int, j: int) -> bool {
    exists|k: nat| #[trigger] run_in(code, s, lo, hi, lo, i, e, j, k)
}

/// Following a thread that has come along a path keeps every thread on one.
proof fn lemma_add_paths(code: Seq<PI>, anchored: bool, n: nat, s: Seq<u8>, pos: int, list: Seq<Thr>, t: Thr, seen: Seq<bool>, fuel: nat)
    requires
        prog_ok(code, anchored, n),
        list_ok(code, anchored, n, list, pos),
        thr_ok(code, anchored, n, t, pos),
        paths_ok(code, anchored, s, list, pos),
        path_ok(code, anchored, s, t, pos),
        0 <= pos <= s.len(),
        s.len() <= usize::MAX,
    ensures
        paths_ok(code, anchored, s, add_thread(code, s, pos, list, t, seen, fuel).0, pos),
    decreases fuel,
{
    let pc = t.0;
    let b: int = if anchored { 0 } else { 3 };
    let l = code.len() as int;
    if !anchored {
        assert(code[0] == PI::Split(3, 1) && code[1] == PI::Any && code[2] == PI::Jmp(0));
    }
    if !(fuel == 0 || pc < 0 || pc >= code.len() || pc >= seen.len() || seen[pc]) {
        let seen1 = seen.update(pc, true);
        let f1 = (fuel - 1) as nat;
        if b < pc < l - 2 {
            assert(inst_ok(code[pc], b + 1, l - 2, n));
        }
        let ghost s0: int = if t.1.len() >= 1 && t.1[0] is Some { t.1[0]->Some_0 as int } else { 0 };
        let ghost k0: nat = choose|k: nat| #[trigger] run_in(code, s, b + 1, l - 2, b + 1, s0, pc, pos, k);
        match code[pc] {
            PI::Jmp(target) => {
                if b < pc < l - 2 {
                    assert(run_in(code, s, b + 1, l - 2, target, pos, target, pos, 0));
                    assert(run_in(code, s, b + 1, l - 2, pc, pos, target, pos, 1));
                    lemma_run_join(code, s, b + 1, l - 2, b + 1, s0, pc, pos, target, pos, k0, 1);
                    assert(reaches(code, s, b + 1, l - 2, s0, target, pos));
                }
                lemma_add_ok(code, anchored, n, s, pos, list, (target, t.1), seen1, f1);
                lemma_add_paths(code, anchored, n, s, pos, list, (target, t.1), seen1, f1);
            },
            PI::Split(x, y) => {
                if b < pc < l - 2 {
                    assert(run_in(code, s, b + 1, l - 2, x, pos, x, pos, 0));
                    assert(run_in(code, s, b + 1, l - 2, pc, pos, x, pos, 1));
                    lemma_run_join(code, s, b + 1, l - 2, b + 1, s0, pc, pos, x, pos, k0, 1);
                    assert(reaches(code, s, b + 1, l - 2, s0, x, pos));
                    assert(run_in(code, s, b + 1, l - 2, y, pos, y, pos, 0));
                    assert(run_in(code, s, b + 1, l - 2, pc, pos, y, pos, 1));
                    lemma_run_join(code, s, b + 1, l - 2, b + 1, s0, pc, pos, y, pos, k0, 1);
                    assert(reaches(code, s, b + 1, l - 2, s0, y, pos));
                }
                lemma_add_ok(code, anchored, n, s, pos, list, (x, t.1), seen1, f1);
                lemma_add_paths(code, anchored, n, s, pos, list, (x, t.1), seen1, f1);
                let (l2, s2) = add_thread(code, s, pos, list, (x, t.1), seen1, f1);
                lemma_add_paths(code, anchored, n, s, pos, l2, (y, t.1), s2, f1);
            },
            PI::Save(k) => {
                let sv = if 0 <= k < t.1.len() {
                    t.1.update(k, Some(pos as usize))
                } else {
                    t.1
                };
                if pc == b {
                    assert(sv[0]->Some_0 as int == pos);
                    assert(run_in(code, s, b + 1, l - 2, b + 1, pos, b + 1, pos, 0));
                    assert(reaches(code, s, b + 1, l - 2, pos, b + 1, pos));
                } else if b < pc < l - 2 {
                    assert(sv[0] == t.1[0]);
                    assert(run_in(code, s, b + 1, l - 2, pc + 1, pos, pc + 1, pos, 0));
                    assert(run_in(code, s, b + 1, l - 2, pc, pos, pc + 1, pos, 1));
                    lemma_run_join(code, s, b + 1, l - 2, b + 1, s0, pc, pos, pc + 1, pos, k0, 1);
                    assert(reaches(code, s, b + 1, l - 2, s0, pc + 1, pos));
                } else if pc == l - 2 {
                    assert(sv[0] == t.1[0]);
                    assert(sv[1]->Some_0 as int == pos);
                    assert(run_in(code, s, b + 1, l - 2, b + 1, sv[0]->Some_0 as int, l - 2, sv[1]->Some_0 as int, k0));
                    assert(reaches(code, s, b + 1, l - 2, sv[0]->Some_0 as int, l - 2, sv[1]->Some_0 as int));
                }
                lemma_add_ok(code, anchored, n, s, pos, list, (pc + 1, sv), seen1, f1);
                lemma_add_paths(code, anchored, n, s, pos, list, (pc + 1, sv), seen1, f1);
            },
            PI::End => {
                if pos == s.len() {
                    if b < pc < l - 2 {
                        assert(run_in(code, s, b + 1, l - 2, pc + 1, pos, pc + 1, pos, 0));
                        assert(run_in(code, s, b + 1, l - 2, pc, pos, pc + 1, pos, 1));
                        lemma_run_join(code, s, b + 1, l - 2, b + 1, s0, pc, pos, pc + 1, pos, k0, 1);
                        assert(reaches(code, s, b + 1, l - 2, s0, pc + 1, pos));
                    }
                    lemma_add_ok(code, anchored, n, s, pos, list, (pc + 1, t.1), seen1, f1);
                    lemma_add_paths(code, anchored, n, s, pos, list, (pc + 1, t.1), seen1, f1);
                }
            },
            _ => {
                let r = list.push(t);
                assert forall|i: int| 0 <= i < r.len() implies path_ok(code, anchored, s, #[trigger] r[i], pos) by {
                    if i < list.len() {
                        assert(r[i] == list[i]);
                    }
                }
            },
        }
    }
}

/// A step keeps every thread on a path, and a match it reports comes from one all the
/// way through the body.
proof fn lemma_step_paths(code: Seq<PI>, anchored: bool, n: nat, s: Seq<u8>, pos: int, cur: Seq<Thr>, i: int, next: Seq<Thr>, seen: Seq<bool>, fuel: nat)
    requires
        prog_ok(code, anchored, n),
        list_ok(code, anchored, n, cur, pos),
        list_ok(code, anchored, n, next, pos + 1),
        paths_ok(code, anchored, s, cur, pos),
        paths_ok(code, anchored, s, next, pos + 1),
        0 <= pos <= s.len(),
        s.len() <= usize::MAX,
    ensures
        paths_ok(code, anchored, s, step_threads(code, s, pos, cur, i, next, seen, fuel).0, pos + 1),
        step_threads(code, s, pos, cur, i, next, seen, fuel).1 matches Some(c) ==> found_ok(code, anchored, s, c),
    decreases cur.len() - i,
{
    let b: int = if anchored { 0 } else { 3 };
    let l = code.len() as int;
    if !anchored {
        assert(code[0] == PI::Split(3, 1) && code[1] == PI::Any && code[2] == PI::Jmp(0));
    }
    if 0 <= i < cur.len() {
        let t = cur[i];
        assert(thr_ok(code, anchored, n, t, pos));
        assert(path_ok(code, anchored, s, t, pos));
        if b < t.0 < l - 2 {
            assert(inst_ok(code[t.0], b + 1, l - 2, n));
        }
        if 0 <= t.0 < code.len() && code[t.0] is Match {
            if !anchored && t.0 < 3 {
                assert(code[0] == PI::Split(3, 1) && code[1] == PI::Any && code[2] == PI::Jmp(0));
            }
            assert(t.0 == l - 1);
        } else if advances(code, s, pos, t.0) {
            let t2 = (t.0 + 1, t.1);
            assert(thr_ok(code, anchored, n, t2, pos + 1));
            if b < t.0 < l - 2 {
                let s0 = t.1[0]->Some_0 as int;
                let k0: nat = choose|k: nat| #[trigger] run_in(code, s, b + 1, l - 2, b + 1, s0, t.0, pos, k);
                assert(run_in(code, s, b + 1, l - 2, t.0 + 1, pos + 1, t.0 + 1, pos + 1, 0));
                assert(run_in(code, s, b + 1, l - 2, t.0, pos, t.0 + 1, pos + 1, 1));
                lemma_run_join(code, s, b + 1, l - 2, b + 1, s0, t.0, pos, t.0 + 1, pos + 1, k0, 1);
                assert(reaches(code, s, b + 1, l - 2, s0, t.0 + 1, pos + 1));
            }
            if !anchored && t.0 <= b {
                assert(code[0] == PI::Split(3, 1) && code[1] == PI::Any && code[2] == PI::Jmp(0));
            }
            assert(path_ok(code, anchored, s, t2, pos + 1));
            lemma_add_ok(code, anchored, n, s, pos + 1, next, t2, seen, fuel);
            lemma_add_paths(code, anchored, n, s, pos + 1, next, t2, seen, fuel);
            let (n2, s2) = add_thread(code, s, pos + 1, next, t2, seen, fuel);
            lemma_step_paths(code, anchored, n, s, pos, cur, i + 1, n2, s2, fuel);
        } else {
            lemma_step_paths(code, anchored, n, s, pos, cur, i + 1, next, seen, fuel);
        }
    }
}

/// Running threads on paths reports only matches along a path through the body.
proof fn lemma_run_paths(code: Seq<PI>, anchored: bool, n: nat, s: Seq<u8>, pos: int, cur: Seq<Thr>, matched: Option<Seq<Option<usize>>>)
    requires
        prog_ok(code, anchored, n),
        list_ok(code, anchored, n, cur, pos),
        paths_ok(code, anchored, s, cur, pos),
        matched matches Some(c) ==> found_ok(code, anchored, s, c),
        0 <= pos <= s.len(),
        s.len() <= usize::MAX,
    ensures
        run_threads(code, s, pos, cur, matched) matches Some(c) ==> found_ok(code, anchored, s, c),
    decreases s.len() - pos,
{
    let fuel = (code.len() + 1) as nat;
    lemma_step_ok(code, anchored, n, s, pos, cur, 0, Seq::empty(), none_seen(code.len() as int), fuel);
    lemma_step_paths(code, anchored, n, s, pos, cur, 0, Seq::empty(), none_seen(code.len() as int), fuel);
    let (next, m) = step_threads(code, s, pos, cur, 0, Seq::empty(), none_seen(code.len() as int), fuel);
    let matched2 = match m {
        Some(x) => Some(x),
        None => matched,
    };
    if !(pos >= s.len() || next.len() == 0) {
        lemma_run_paths(code, anchored, n, s, pos + 1, next, matched2);
    }
}

/// A match that a well-shaped program reports comes from a path all the way through
/// its body.
proof fn lemma_found(code: Seq<PI>, n: nat, anchored: bool, s: Seq<u8>)
    requires
        prog_ok(code, anchored, n),
        s.len() <= usize::MAX,
    ensures
        captures_of(code, n, anchored, s) matches Some(c) ==> found_ok(code, anchored, s, c),
{
    if let Some(start) = start_at(code, anchored, s) {
        let prefix = lit_prefix(code, if anchored { 0 } else { 3 });
        if !(anchored || prefix.len() == 0) {
            lemma_occurs_bound(s, prefix, 0);
        }
        let fuel = (code.len() + 1) as nat;
        let t0: Thr = (0, Seq::new(n, |i: int| None));
        lemma_add_ok(code, anchored, n, s, start, Seq::empty(), t0, none_seen(code.len() as int), fuel);
        lemma_add_paths(code, anchored, n, s, start, Seq::empty(), t0, none_seen(code.len() as int), fuel);
        let (cur, _) = add_thread(code, s, start, Seq::empty(), t0, none_seen(code.len() as int), fuel);
        lemma_run_paths(code, anchored, n, s, start, cur, None);
    }
}

/// What the matcher finds, the pattern matches: where the program compiled from the
/// pattern `r` (its groups numbered from 1 to `g`, as `Regex::new` compiles it with
/// `2 * (g + 1)` slots) reports a match from `a` to `e` in `s`, `r` matches `s[a..e]`,
/// and where the pattern is anchored by a leading `^`, the match starts at 0.
pub proof fn lemma_find_sound(r: Re, g: nat, anchored: bool, s: Seq<u8>)
    requires
        groups_ok(r, g),
        s.len() <= usize::MAX,
    ensures
        span_of(captures_of(program(r, anchored), 2 * (g + 1), anchored, s)) matches Some((a, e)) ==> re_match(
            r,
            s,
            a as int,
            e as int,
        ) && (anchored ==> a == 0),
{
    let code = program(r, anchored);
    let n = 2 * (g + 1);
    lemma_program_ok(r, anchored, g);
    lemma_found(code, n, anchored, s);
    if let Some(c) = captures_of(code, n, anchored, s) {
        if let Some((a, e)) = span_of(captures_of(code, n, anchored, s)) {
            let b: int = if anchored { 0 } else { 3 };
            let l = code.len() as int;
            let body = comp(r, b + 1);
            assert(l - 2 == b + 1 + body.len());
            assert(code.subrange(b + 1, b + 1 + body.len()) =~= body);
            let k: nat = choose|k: nat| #[trigger] run_in(code, s, b + 1, l - 2, b + 1, a as int, l - 2, e as int, k);
            lemma_comp_sound(r, g, code, s, b + 1, a as int, e as int, k);
        }
    }
}


/// A path within a block is a path within any wider one.
proof fn lemma_run_widen(code: Seq<PI>, s: Seq<u8>, lo: int, hi: int, lo2: int, hi2: int, pc: int, i: int, e: int, j: int, k: nat)
    requires
        run_in(code, s, lo2, hi2, pc, i, e, j, k),
        lo <= lo2,
        hi2 <= hi,
    ensures
        run_in(code, s, lo, hi, pc, i, e, j, k),
    decreases k,
{
    if k > 0 {
        let k1 = (k - 1) as nat;
        match code[pc] {
            PI::Byte(b) => lemma_run_widen(code, s, lo, hi, lo2, hi2, pc + 1, i + 1, e, j, k1),
            PI::Any => lemma_run_widen(code, s, lo, hi, lo2, hi2, pc + 1, i + 1, e, j, k1),
            PI::Class(bits, neg) => lemma_run_widen(code, s, lo, hi, lo2, hi2, pc + 1, i + 1, e, j, k1),
            PI::Jmp(t) => lemma_run_widen(code, s, lo, hi, lo2, hi2, t, i, e, j, k1),
            PI::Split(x, y) => if run_in(code, s, lo2, hi2, x, i, e, j, k1) {
                lemma_run_widen(code, s, lo, hi, lo2, hi2, x, i, e, j, k1);
            } else {
                lemma_run_widen(code, s, lo, hi, lo2, hi2, y, i, e, j, k1);
            },
            PI::Save(_) => lemma_run_widen(code, s, lo, hi, lo2, hi2, pc + 1, i, e, j, k1),
            PI::End => lemma_run_widen(code, s, lo, hi, lo2, hi2, pc + 1, i, e, j, k1),
            PI::Match => {},
        }
    }
}

/// A successful search has a split point in range.
proof fn lemma_seq_point(xs: Seq<Re>, k: int, s: Seq<u8>, i: int, j: int, from: int) -> (m: int)
    requires
        seq_from(xs, k, s, i, j, from),
    ensures
        0 < k <= xs.len(),
        seq_match(xs, k - 1, s, i, m),
        re_match(xs[k - 1], s, m, j),
    decreases j - from + 1,
{
    if seq_match(xs, k - 1, s, i, from) && re_match(xs[k - 1], s, from, j) {
        from
    } else {
        lemma_seq_point(xs, k, s, i, j, from + 1)
    }
}

/// A successful search has a split point in range.
proof fn lemma_star_point(x: Re, s: Seq<u8>, i: int, j: int, from: int) -> (m: int)
    requires
        star_from(x, s, i, j, from),
    ensures
        i < m <= j,
        re_match(x, s, i, m),
        star_match(x, s, m, j),
    decreases j - from + 1,
{
    if re_match(x, s, i, from) && star_match(x, s, from, j) {
        from
    } else {
        lemma_star_point(x, s, i, j, from + 1)
    }
}

/// What the pattern `r` matches, a path through its instructions, placed at `base`,
/// reads from their start to their end.
#[verifier::spinoff_prover]
#[verifier::rlimit(100)]
pub proof fn lemma_comp_complete(r: Re, code: Seq<PI>, s: Seq<u8>, base: int, i: int, j: int) -> (k: nat)
    requires
        0 <= base,
        base + comp(r, base).len() <= code.len(),
        code.subrange(base, base + comp(r, base).len()) == comp(r, base),
        re_match(r, s, i, j),
    ensures
        run_in(code, s, base, base + comp(r, base).len(), base, i, base + comp(r, base).len(), j, k),
    decreases r, 0int, j - i,
{
    let c = comp(r, base);
    let hi = base + c.len();
    assert forall|q: int| base <= q < hi implies code[q] == c[q - base] by {
        assert(code[q] == code.subrange(base, hi)[q - base]);
    }
    match r {
        Re::Byte(b) => {
            assert(code[base] == c[0]);
            assert(run_in(code, s, base, hi, hi, j, hi, j, 0));
            1
        },
        Re::Any => {
            assert(code[base] == c[0]);
            assert(run_in(code, s, base, hi, hi, j, hi, j, 0));
            1
        },
        Re::Class(bits, neg) => {
            assert(code[base] == c[0]);
            assert(run_in(code, s, base, hi, hi, j, hi, j, 0));
            1
        },
        Re::End => {
            assert(code[base] == c[0]);
            assert(run_in(code, s, base, hi, hi, j, hi, j, 0));
            1
        },
        Re::Concat(xs) => lemma_seq_complete(xs, xs.len() as int, code, s, base, i, j),
        Re::Alt(xs) => {
            if xs.len() == 0 {
                assert(comp_alt(xs, 0, base) == Seq::<PI>::empty());
                0
            } else {
                lemma_alt_complete(xs, 0, code, s, base, i, j)
            }
        },
        Re::Star(x) => {
            let body = comp(*x, base + 1);
            let bl = body.len() as int;
            assert(hi == base + 2 + bl);
            assert(code[base] == PI::Split(base + 1, base + 2 + bl));
            assert(code[base + 1 + bl] == PI::Jmp(base));
            assert(code.subrange(base + 1, base + 1 + bl) =~= body);
            if i == j {
                assert(run_in(code, s, base, hi, hi, j, hi, j, 0));
                1
            } else {
                assert(star_match(*x, s, i, j));
                let m = lemma_star_point(*x, s, i, j, i + 1);
                let k1 = lemma_comp_complete(*x, code, s, base + 1, i, m);
                lemma_run_widen(code, s, base, hi, base + 1, base + 1 + bl, base + 1, i, base + 1 + bl, m, k1);
                let k2 = lemma_comp_complete(r, code, s, base, m, j);
                assert(run_in(code, s, base, hi, base + 1, i, base + 1, i, 0));
                assert(run_in(code, s, base, hi, base, i, base + 1, i, 1));
                lemma_run_join(code, s, base, hi, base, i, base + 1, i, base + 1 + bl, m, 1, k1);
                assert(run_in(code, s, base, hi, base, m, base, m, 0));
                assert(run_in(code, s, base, hi, base + 1 + bl, m, base, m, 1));
                lemma_run_join(code, s, base, hi, base, i, base + 1 + bl, m, base, m, 1 + k1, 1);
                lemma_run_join(code, s, base, hi, base, i, base, m, hi, j, 1 + k1 + 1, k2);
                1 + k1 + 1 + k2
            }
        },
        Re::Plus(x) => {
            let body = comp(*x, base);
            let bl = body.len() as int;
            assert(hi == base + 1 + bl);
            assert(code[base + bl] == PI::Split(base, base + 1 + bl));
            assert(code.subrange(base, base + bl) =~= body);
            let m0 = lemma_plus_point(*x, s, i, j, i);
            let m = if m0 == i && i != j {
                lemma_star_point(*x, s, i, j, i + 1)
            } else {
                m0
            };
            assert(re_match(*x, s, i, m) && star_match(*x, s, m, j));
            let k1 = lemma_comp_complete(*x, code, s, base, i, m);
            lemma_run_widen(code, s, base, hi, base, base + bl, base, i, base + bl, m, k1);
            if m == j {
                assert(run_in(code, s, base, hi, hi, j, hi, j, 0));
                assert(run_in(code, s, base, hi, base + bl, m, hi, j, 1));
                lemma_run_join(code, s, base, hi, base, i, base + bl, m, hi, j, k1, 1);
                k1 + 1
            } else {
                assert(i < m < j);
                let m2 = lemma_star_point(*x, s, m, j, m + 1);
                lemma_plus_from(*x, s, m, j, m, m2);
                assert(re_match(r, s, m, j));
                let k2 = lemma_comp_complete(r, code, s, base, m, j);
                assert(run_in(code, s, base, hi, base, m, base, m, 0));
                assert(run_in(code, s, base, hi, base + bl, m, base, m, 1));
                lemma_run_join(code, s, base, hi, base, i, base + bl, m, base, m, k1, 1);
                lemma_run_join(code, s, base, hi, base, i, base, m, hi, j, k1 + 1, k2);
                k1 + 1 + k2
            }
        },
        Re::Opt(x) => {
            let body = comp(*x, base + 1);
            let bl = body.len() as int;
            assert(hi == base + 1 + bl);
            assert(code[base] == PI::Split(base + 1, base + 1 + bl));
            assert(code.subrange(base + 1, base + 1 + bl) =~= body);
            if i == j {
                assert(run_in(code, s, base, hi, hi, j, hi, j, 0));
                1
            } else {
                let k1 = lemma_comp_complete(*x, code, s, base + 1, i, j);
                lemma_run_widen(code, s, base, hi, base + 1, hi, base + 1, i, hi, j, k1);
                k1 + 1
            }
        },
        Re::Group(x, gi) => {
            let body = comp(*x, base + 1);
            let bl = body.len() as int;
            assert(hi == base + 2 + bl);
            assert(code[base] == PI::Save(2 * gi as int));
            assert(code[base + 1 + bl] == PI::Save(2 * gi as int + 1));
            assert(code.subrange(base + 1, base + 1 + bl) =~= body);
            let k1 = lemma_comp_complete(*x, code, s, base + 1, i, j);
            lemma_run_widen(code, s, base, hi, base + 1, base + 1 + bl, base + 1, i, base + 1 + bl, j, k1);
            assert(run_in(code, s, base, hi, base + 1, i, base + 1, i, 0));
            assert(run_in(code, s, base, hi, base, i, base + 1, i, 1));
            lemma_run_join(code, s, base, hi, base, i, base + 1, i, base + 1 + bl, j, 1, k1);
            assert(run_in(code, s, base, hi, hi, j, hi, j, 0));
            assert(run_in(code, s, base, hi, base + 1 + bl, j, hi, j, 1));
            lemma_run_join(code, s, base, hi, base, i, base + 1 + bl, j, hi, j, 1 + k1, 1);
            1 + k1 + 1
        },
    }
}

/// What the first `kk` parts match one after another, a path through their
/// instructions reads.
proof fn lemma_seq_complete(xs: Seq<Re>, kk: int, code: Seq<PI>, s: Seq<u8>, base: int, i: int, j: int) -> (k: nat)
    requires
        0 <= kk <= xs.len(),
        0 <= base,
        base + comp_seq(xs, kk, base).len() <= code.len(),
        code.subrange(base, base + comp_seq(xs, kk, base).len()) == comp_seq(xs, kk, base),
        seq_match(xs, kk, s, i, j),
    ensures
        run_in(code, s, base, base + comp_seq(xs, kk, base).len(), base, i, base + comp_seq(xs, kk, base).len(), j, k),
    decreases xs, kk, 0int,
{
    let c = comp_seq(xs, kk, base);
    let hi = base + c.len();
    if kk == 0 {
        0
    } else {
        let before = comp_seq(xs, kk - 1, base);
        let b1 = before.len() as int;
        let last = comp(xs[kk - 1], base + b1);
        assert(c == before + last);
        assert forall|q: int| base <= q < hi implies code[q] == c[q - base] by {
            assert(code[q] == code.subrange(base, hi)[q - base]);
        }
        assert(code.subrange(base, base + b1) =~= before);
        assert(code.subrange(base + b1, hi) =~= last);
        let m = lemma_seq_point(xs, kk, s, i, j, i);
        let k1 = lemma_seq_complete(xs, kk - 1, code, s, base, i, m);
        lemma_run_widen(code, s, base, hi, base, base + b1, base, i, base + b1, m, k1);
        let k2 = lemma_comp_complete(xs[kk - 1], code, s, base + b1, m, j);
        lemma_run_widen(code, s, base, hi, base + b1, hi, base + b1, m, hi, j, k2);
        lemma_run_join(code, s, base, hi, base, i, base + b1, m, hi, j, k1, k2);
        k1 + k2
    }
}

/// What one of the branches `xs[kk..]` matches, a path through their instructions
/// reads.
proof fn lemma_alt_complete(xs: Seq<Re>, kk: int, code: Seq<PI>, s: Seq<u8>, base: int, i: int, j: int) -> (k: nat)
    requires
        0 <= kk < xs.len(),
        0 <= base,
        base + comp_alt(xs, kk, base).len() <= code.len(),
        code.subrange(base, base + comp_alt(xs, kk, base).len()) == comp_alt(xs, kk, base),
        alt_match(xs, kk, s, i, j),
    ensures
        run_in(code, s, base, base + comp_alt(xs, kk, base).len(), base, i, base + comp_alt(xs, kk, base).len(), j, k),
    decreases xs, xs.len() - kk, 0int,
{
    let c = comp_alt(xs, kk, base);
    let hi = base + c.len();
    assert forall|q: int| base <= q < hi implies code[q] == c[q - base] by {
        assert(code[q] == code.subrange(base, hi)[q - base]);
    }
    if kk == xs.len() - 1 {
        assert(!alt_match(xs, kk + 1, s, i, j));
        lemma_comp_complete(xs[kk], code, s, base, i, j)
    } else {
        let a = comp(xs[kk], base + 1);
        let al = a.len() as int;
        let rb = base + 2 + al;
        let rest = comp_alt(xs, kk + 1, rb);
        assert(c == seq![PI::Split(base + 1, rb)] + a + seq![PI::Jmp(rb + rest.len())] + rest);
        assert(hi == rb + rest.len());
        assert(code[base] == c[0]);
        assert(code[base] == PI::Split(base + 1, rb));
        assert(code.subrange(base + 1, base + 1 + al) =~= a);
        assert(code.subrange(rb, hi) =~= rest);
        if re_match(xs[kk], s, i, j) {
            let k1 = lemma_comp_complete(xs[kk], code, s, base + 1, i, j);
            lemma_run_widen(code, s, base, hi, base + 1, base + 1 + al, base + 1, i, base + 1 + al, j, k1);
            assert(code[base + 1 + al] == c[1 + al]);
            assert(code[base + 1 + al] == PI::Jmp(hi));
            assert(run_in(code, s, base, hi, base + 1, i, base + 1, i, 0));
            assert(run_in(code, s, base, hi, base, i, base + 1, i, 1));
            lemma_run_join(code, s, base, hi, base, i, base + 1, i, base + 1 + al, j, 1, k1);
            assert(run_in(code, s, base, hi, hi, j, hi, j, 0));
            assert(run_in(code, s, base, hi, base + 1 + al, j, hi, j, 1));
            lemma_run_join(code, s, base, hi, base, i, base + 1 + al, j, hi, j, 1 + k1, 1);
            1 + k1 + 1
        } else {
            let k1 = lemma_alt_complete(xs, kk + 1, code, s, rb, i, j);
            lemma_run_widen(code, s, base, hi, rb, hi, rb, i, hi, j, k1);
            assert(run_in(code, s, base, hi, rb, i, rb, i, 0));
            assert(run_in(code, s, base, hi, base, i, rb, i, 1));
            lemma_run_join(code, s, base, hi, base, i, rb, i, hi, j, 1, k1);
            1 + k1
        }
    }
}


/// Whether the matcher goes from instruction `pc` to `q` at `pos` without reading: a
/// jump, either target of a choice, past a slot, or past an end check at the end.
pub open spec fn eps_next(code: Seq<PI>, s: Seq<u8>, pos: int, pc: int, q: int) -> bool {
    0 <= pc < code.len() && match code[pc] {
        PI::Jmp(t) => q == t,
        PI::Split(x, y) => q == x || q == y,
        PI::Save(_) => q == pc + 1,
        PI::End => pos == s.len() && q == pc + 1,
        _ => false,
    }
}

/// Whether the instruction at `pc` waits for a byte or reports a match.
pub open spec fn waiting(code: Seq<PI>, pc: int) -> bool {
    0 <= pc < code.len() && (code[pc] is Byte || code[pc] is Any || code[pc] is Class || code[pc] is Match)
}

/// Whether some thread of `list` is at `pc`.
pub open spec fn has_pc(list: Seq<Thr>, pc: int) -> bool {
    exists|i: int| 0 <= i < list.len() && #[trigger] list[i].0 == pc
}

/// Whether every instruction reached at `pos` (but those in `pend`, still being
/// followed) has its waiting thread in `list` and its next instructions reached.
pub open spec fn closed_at(code: Seq<PI>, s: Seq<u8>, pos: int, list: Seq<Thr>, seen: Seq<bool>, pend: Set<int>) -> bool {
    &&& seen.len() == code.len()
    &&& forall|q: int| 0 <= q < seen.len() && #[trigger] seen[q] && !pend.contains(q) ==> (waiting(code, q) ==> has_pc(
        list,
        q,
    )) && (forall|q2: int| #[trigger] eps_next(code, s, pos, q, q2) ==> 0 <= q2 < seen.len() && seen[q2])
}

/// The instructions that a well-shaped program goes to without reading are in it.
proof fn lemma_eps_in(code: Seq<PI>, anchored: bool, n: nat, s: Seq<u8>, pos: int, pc: int, q: int)
    requires
        prog_ok(code, anchored, n),
        eps_next(code, s, pos, pc, q),
    ensures
        0 <= q < code.len(),
{
    let b: int = if anchored { 0 } else { 3 };
    let l = code.len() as int;
    if !anchored {
        assert(code[0] == PI::Split(3, 1) && code[1] == PI::Any && code[2] == PI::Jmp(0));
    }
    if b < pc < l - 2 {
        assert(inst_ok(code[pc], b + 1, l - 2, n));
    }
}

/// An instruction that does not wait, whose next instructions are all reached, is
/// closed too.
proof fn lemma_close_pc(code: Seq<PI>, s: Seq<u8>, pos: int, list: Seq<Thr>, seen: Seq<bool>, pend: Set<int>, pc: int)
    requires
        closed_at(code, s, pos, list, seen, pend.insert(pc)),
        !waiting(code, pc),
        forall|q2: int| #[trigger] eps_next(code, s, pos, pc, q2) ==> 0 <= q2 < seen.len() && seen[q2],
    ensures
        closed_at(code, s, pos, list, seen, pend),
{
    assert forall|q: int| 0 <= q < seen.len() && #[trigger] seen[q] && !pend.contains(q) implies (waiting(code, q)
        ==> has_pc(list, q)) && (forall|q2: int| #[trigger] eps_next(code, s, pos, q, q2) ==> 0 <= q2 < seen.len()
        && seen[q2]) by {
        if q != pc {
            assert(!pend.insert(pc).contains(q));
        }
    }
}

/// Following a thread reaches its instruction, keeps what was reached and the
/// threads there, and leaves every instruction reached closed.
proof fn lemma_add_closed(code: Seq<PI>, anchored: bool, n: nat, s: Seq<u8>, pos: int, list: Seq<Thr>, t: Thr, seen: Seq<bool>, fuel: nat, pend: Set<int>)
    requires
        prog_ok(code, anchored, n),
        closed_at(code, s, pos, list, seen, pend),
        fuel > count_false(seen),
        0 <= t.0 < code.len(),
    ensures
        ({
            let (l2, s2) = add_thread(code, s, pos, list, t, seen, fuel);
            &&& closed_at(code, s, pos, l2, s2, pend)
            &&& s2[t.0]
            &&& forall|q: int| 0 <= q < seen.len() && seen[q] ==> #[trigger] s2[q]
            &&& forall|q: int| has_pc(list, q) ==> #[trigger] has_pc(l2, q)
            &&& count_false(s2) <= count_false(seen)
        }),
    decreases fuel,
{
    let pc = t.0;
    if !seen[pc] {
        let seen1 = seen.update(pc, true);
        let f1 = (fuel - 1) as nat;
        lemma_count_mark(seen, pc);
        let p2 = pend.insert(pc);
        assert(closed_at(code, s, pos, list, seen1, p2));
        assert(seen1[pc]);
        match code[pc] {
            PI::Jmp(target) => {
                lemma_eps_in(code, anchored, n, s, pos, pc, target);
                lemma_add_closed(code, anchored, n, s, pos, list, (target, t.1), seen1, f1, p2);
                let (l2, s2) = add_thread(code, s, pos, list, (target, t.1), seen1, f1);
                assert(s2[pc]);
                lemma_close_pc(code, s, pos, l2, s2, pend, pc);
            },
            PI::Split(x, y) => {
                lemma_eps_in(code, anchored, n, s, pos, pc, x);
                lemma_eps_in(code, anchored, n, s, pos, pc, y);
                lemma_add_closed(code, anchored, n, s, pos, list, (x, t.1), seen1, f1, p2);
                let (l2, s2) = add_thread(code, s, pos, list, (x, t.1), seen1, f1);
                lemma_add_closed(code, anchored, n, s, pos, l2, (y, t.1), s2, f1, p2);
                let (l3, s3) = add_thread(code, s, pos, l2, (y, t.1), s2, f1);
                assert(s2[x] && s2[pc]);
                assert(s3[x] && s3[y] && s3[pc]);
                lemma_close_pc(code, s, pos, l3, s3, pend, pc);
                assert forall|q: int| has_pc(list, q) implies #[trigger] has_pc(l3, q) by {
                    assert(has_pc(l2, q));
                }
            },
            PI::Save(k) => {
                lemma_eps_in(code, anchored, n, s, pos, pc, pc + 1);
                let sv = if 0 <= k < t.1.len() {
                    t.1.update(k, Some(pos as usize))
                } else {
                    t.1
                };
                lemma_add_closed(code, anchored, n, s, pos, list, (pc + 1, sv), seen1, f1, p2);
                let (l2, s2) = add_thread(code, s, pos, list, (pc + 1, sv), seen1, f1);
                assert(s2[pc]);
                lemma_close_pc(code, s, pos, l2, s2, pend, pc);
            },
            PI::End => {
                if pos == s.len() {
                    lemma_eps_in(code, anchored, n, s, pos, pc, pc + 1);
                    lemma_add_closed(code, anchored, n, s, pos, list, (pc + 1, t.1), seen1, f1, p2);
                    let (l2, s2) = add_thread(code, s, pos, list, (pc + 1, t.1), seen1, f1);
                    assert(s2[pc]);
                    lemma_close_pc(code, s, pos, l2, s2, pend, pc);
                } else {
                    lemma_close_pc(code, s, pos, list, seen1, pend, pc);
                }
            },
            _ => {
                let r = list.push(t);
                assert(r[list.len() as int].0 == pc);
                assert(has_pc(r, pc));
                assert forall|q: int| has_pc(list, q) implies #[trigger] has_pc(r, q) by {
                    let i = choose|i: int| 0 <= i < list.len() && #[trigger] list[i].0 == q;
                    assert(r[i] == list[i]);
                }
                assert forall|q: int| 0 <= q < seen1.len() && #[trigger] seen1[q] && !pend.contains(q) implies (waiting(
                    code,
                    q,
                ) ==> has_pc(r, q)) && (forall|q2: int| #[trigger] eps_next(code, s, pos, q, q2) ==> 0 <= q2 < seen1.len()
                    && seen1[q2]) by {
                    if q != pc {
                        assert(!p2.contains(q));
                        if waiting(code, q) {
                            assert(has_pc(list, q));
                        }
                    }
                }
            },
        }
    }
}


/// Whether some thread of `list` waits at an instruction from which the program goes
/// on at `pos` to report a match ending at `e`.
pub open spec fn live_in(code: Seq<PI>, s: Seq<u8>, list: Seq<Thr>, pos: int, e: int) -> bool {
    exists|q: int, k: nat| has_pc(list, q) && waiting(code, q) && #[trigger] run_in(
        code,
        s,
        0,
        code.len() - 1,
        q,
        pos,
        code.len() - 1,
        e,
        k,
    )
}

/// From an instruction reached and closed, a path to the match instruction goes on
/// without reading to a waiting instruction that has its thread.
proof fn lemma_eps_reach(code: Seq<PI>, anchored: bool, n: nat, s: Seq<u8>, pos: int, list: Seq<Thr>, seen: Seq<bool>, pc: int, e: int, k: nat) -> (r: (int, nat))
    requires
        prog_ok(code, anchored, n),
        closed_at(code, s, pos, list, seen, Set::empty()),
        0 <= pc < seen.len(),
        seen[pc],
        run_in(code, s, 0, code.len() - 1, pc, pos, code.len() - 1, e, k),
    ensures
        has_pc(list, r.0),
        waiting(code, r.0),
        run_in(code, s, 0, code.len() - 1, r.0, pos, code.len() - 1, e, r.1),
        in_body(code, anchored, pc) ==> in_body(code, anchored, r.0),
    decreases k,
{
    let l = code.len() as int;
    let b: int = if anchored { 0 } else { 3 };
    if b < pc < l - 2 {
        assert(inst_ok(code[pc], b + 1, l - 2, n));
    }
    assert(!Set::<int>::empty().contains(pc));
    if waiting(code, pc) {
        (pc, k)
    } else {
        assert(pc != l - 1);
        assert(k > 0);
        let k1 = (k - 1) as nat;
        match code[pc] {
            PI::Jmp(t) => {
                assert(eps_next(code, s, pos, pc, t));
                lemma_eps_reach(code, anchored, n, s, pos, list, seen, t, e, k1)
            },
            PI::Split(x, y) => {
                assert(eps_next(code, s, pos, pc, x));
                assert(eps_next(code, s, pos, pc, y));
                if run_in(code, s, 0, l - 1, x, pos, l - 1, e, k1) {
                    lemma_eps_reach(code, anchored, n, s, pos, list, seen, x, e, k1)
                } else {
                    lemma_eps_reach(code, anchored, n, s, pos, list, seen, y, e, k1)
                }
            },
            PI::Save(_) => {
                assert(eps_next(code, s, pos, pc, pc + 1));
                lemma_eps_reach(code, anchored, n, s, pos, list, seen, pc + 1, e, k1)
            },
            PI::End => {
                assert(eps_next(code, s, pos, pc, pc + 1));
                lemma_eps_reach(code, anchored, n, s, pos, list, seen, pc + 1, e, k1)
            },
            _ => (pc, k),
        }
    }
}

/// A thread that moves past a byte is at an instruction before the last two.
proof fn lemma_advance_in(code: Seq<PI>, anchored: bool, n: nat, s: Seq<u8>, pos: int, pc: int)
    requires
        prog_ok(code, anchored, n),
        advances(code, s, pos, pc),
    ensures
        0 <= pc < code.len() - 2,
{
}

/// A step keeps a thread that the next list already has, unless it reports a match.
proof fn lemma_step_keep(code: Seq<PI>, anchored: bool, n: nat, s: Seq<u8>, pos: int, cur: Seq<Thr>, i: int, next: Seq<Thr>, seen: Seq<bool>, fuel: nat, q: int)
    requires
        prog_ok(code, anchored, n),
        closed_at(code, s, pos + 1, next, seen, Set::empty()),
        fuel == code.len() + 1,
        has_pc(next, q),
    ensures
        step_threads(code, s, pos, cur, i, next, seen, fuel).1 is Some || has_pc(
            step_threads(code, s, pos, cur, i, next, seen, fuel).0,
            q,
        ),
    decreases cur.len() - i,
{
    if 0 <= i < cur.len() {
        let t = cur[i];
        if 0 <= t.0 < code.len() && code[t.0] is Match {
        } else if advances(code, s, pos, t.0) {
            lemma_advance_in(code, anchored, n, s, pos, t.0);
            lemma_count_len(seen);
            let t2 = (t.0 + 1, t.1);
            lemma_add_closed(code, anchored, n, s, pos + 1, next, t2, seen, fuel, Set::empty());
            let (n2, s2) = add_thread(code, s, pos + 1, next, t2, seen, fuel);
            assert(has_pc(n2, q));
            lemma_step_keep(code, anchored, n, s, pos, cur, i + 1, n2, s2, fuel, q);
        } else {
            lemma_step_keep(code, anchored, n, s, pos, cur, i + 1, next, seen, fuel, q);
        }
    }
}

/// A step over threads one of which goes on to a match either reports a match or
/// leaves a thread that goes on to it at the next position.
proof fn lemma_step_live(code: Seq<PI>, anchored: bool, n: nat, s: Seq<u8>, pos: int, cur: Seq<Thr>, i: int, next: Seq<Thr>, seen: Seq<bool>, fuel: nat, ii: int, e: int, k: nat)
    requires
        prog_ok(code, anchored, n),
        closed_at(code, s, pos + 1, next, seen, Set::empty()),
        fuel == code.len() + 1,
        0 <= i <= ii < cur.len(),
        waiting(code, cur[ii].0),
        run_in(code, s, 0, code.len() - 1, cur[ii].0, pos, code.len() - 1, e, k),
    ensures
        step_threads(code, s, pos, cur, i, next, seen, fuel).1 is Some || (pos < s.len() && live_in(
            code,
            s,
            step_threads(code, s, pos, cur, i, next, seen, fuel).0,
            pos + 1,
            e,
        )),
    decreases cur.len() - i,
{
    let l = code.len() as int;
    let t = cur[i];
    lemma_count_len(seen);
    if 0 <= t.0 < code.len() && code[t.0] is Match {
    } else if i < ii {
        if advances(code, s, pos, t.0) {
            lemma_advance_in(code, anchored, n, s, pos, t.0);
            let t2 = (t.0 + 1, t.1);
            lemma_add_closed(code, anchored, n, s, pos + 1, next, t2, seen, fuel, Set::empty());
            let (n2, s2) = add_thread(code, s, pos + 1, next, t2, seen, fuel);
            lemma_step_live(code, anchored, n, s, pos, cur, i + 1, n2, s2, fuel, ii, e, k);
        } else {
            lemma_step_live(code, anchored, n, s, pos, cur, i + 1, next, seen, fuel, ii, e, k);
        }
    } else {
        assert(t.0 != l - 1);
        assert(k > 0);
        let k1 = (k - 1) as nat;
        assert(advances(code, s, pos, t.0));
        assert(run_in(code, s, 0, l - 1, t.0 + 1, pos + 1, l - 1, e, k1));
        lemma_advance_in(code, anchored, n, s, pos, t.0);
        let t2 = (t.0 + 1, t.1);
        lemma_add_closed(code, anchored, n, s, pos + 1, next, t2, seen, fuel, Set::empty());
        let (n2, s2) = add_thread(code, s, pos + 1, next, t2, seen, fuel);
        let (q, k2) = lemma_eps_reach(code, anchored, n, s, pos + 1, n2, s2, t.0 + 1, e, k1);
        lemma_step_keep(code, anchored, n, s, pos, cur, i + 1, n2, s2, fuel, q);
        let (nx, m) = step_threads(code, s, pos, cur, i + 1, n2, s2, fuel);
        if m is None {
            assert(has_pc(nx, q) && waiting(code, q) && run_in(code, s, 0, l - 1, q, pos + 1, l - 1, e, k2));
        }
    }
}

/// Running threads one of which goes on to a match reports a match.
proof fn lemma_run_live(code: Seq<PI>, anchored: bool, n: nat, s: Seq<u8>, pos: int, cur: Seq<Thr>, matched: Option<Seq<Option<usize>>>, e: int)
    requires
        prog_ok(code, anchored, n),
        0 <= pos <= s.len(),
        matched is Some || live_in(code, s, cur, pos, e),
    ensures
        run_threads(code, s, pos, cur, matched) is Some,
    decreases s.len() - pos,
{
    let l = code.len() as int;
    let fuel = (code.len() + 1) as nat;
    let seen0 = none_seen(code.len() as int);
    assert(closed_at(code, s, pos + 1, Seq::empty(), seen0, Set::empty()));
    let (next, m) = step_threads(code, s, pos, cur, 0, Seq::empty(), seen0, fuel);
    let matched2 = match m {
        Some(x) => Some(x),
        None => matched,
    };
    if matched is None {
        let (q, k) = choose|q: int, k: nat| has_pc(cur, q) && waiting(code, q) && #[trigger] run_in(
            code,
            s,
            0,
            l - 1,
            q,
            pos,
            l - 1,
            e,
            k,
        );
        let ii = choose|ii: int| 0 <= ii < cur.len() && #[trigger] cur[ii].0 == q;
        lemma_step_live(code, anchored, n, s, pos, cur, 0, Seq::empty(), seen0, fuel, ii, e, k);
        if m is None {
            let (q2, k2) = choose|q2: int, k2: nat| has_pc(next, q2) && waiting(code, q2) && #[trigger] run_in(
                code,
                s,
                0,
                l - 1,
                q2,
                pos + 1,
                l - 1,
                e,
                k2,
            );
            assert(next.len() > 0);
            lemma_run_live(code, anchored, n, s, pos + 1, next, matched2, e);
        } else if !(pos >= s.len() || next.len() == 0) {
            lemma_run_live(code, anchored, n, s, pos + 1, next, matched2, e);
        }
    } else if !(pos >= s.len() || next.len() == 0) {
        lemma_run_live(code, anchored, n, s, pos + 1, next, matched2, e);
    }
}

/// What a path from an instruction to the match instruction reads starts with the
/// literal prefix at that instruction.
proof fn lemma_prefix_read(code: Seq<PI>, s: Seq<u8>, pc: int, i: int, e: int, k: nat)
    requires
        code.len() >= 1,
        code[code.len() - 1] is Match,
        0 <= i <= s.len(),
        run_in(code, s, 0, code.len() - 1, pc, i, code.len() - 1, e, k),
    ensures
        i + lit_prefix(code, pc).len() <= s.len(),
        s.subrange(i, i + lit_prefix(code, pc).len()) == lit_prefix(code, pc),
    decreases code.len() - pc,
{
    let l = code.len() as int;
    if 0 <= pc < l {
        match code[pc] {
            PI::Save(_) => {
                assert(pc != l - 1);
                lemma_prefix_read(code, s, pc + 1, i, e, (k - 1) as nat);
            },
            PI::Byte(b) => {
                assert(pc != l - 1);
                lemma_prefix_read(code, s, pc + 1, i + 1, e, (k - 1) as nat);
                let rest = lit_prefix(code, pc + 1);
                assert(s.subrange(i, i + 1 + rest.len()) =~= seq![b] + s.subrange(i + 1, i + 1 + rest.len()));
            },
            _ => {
                assert(s.subrange(i, i) =~= Seq::<u8>::empty());
            },
        }
    } else {
        assert(s.subrange(i, i) =~= Seq::<u8>::empty());
    }
}

/// A needle that occurs at `a` is found from `i`, at `a` or before.
proof fn lemma_occurs_at(h: Seq<u8>, needle: Seq<u8>, i: int, a: int)
    requires
        0 <= i <= a,
        a + needle.len() <= h.len(),
        h.subrange(a, a + needle.len()) == needle,
    ensures
        occurs_from(h, needle, i) matches Some(o) && i <= o <= a,
    decreases a - i,
{
    if h.subrange(i, i + needle.len()) != needle {
        lemma_occurs_at(h, needle, i + 1, a);
    }
}

/// The program compiled from `r` goes from the instruction that sets slot 0, at `a`,
/// to the match instruction, reading a match of `r` from `a` to `e`.
proof fn lemma_tail_path(r: Re, anchored: bool, s: Seq<u8>, a: int, e: int, kb: nat) -> (k: nat)
    requires
        run_in(
            program(r, anchored),
            s,
            (if anchored { 0int } else { 3int }) + 1,
            program(r, anchored).len() - 2,
            (if anchored { 0int } else { 3int }) + 1,
            a,
            program(r, anchored).len() - 2,
            e,
            kb,
        ),
    ensures
        run_in(
            program(r, anchored),
            s,
            0,
            program(r, anchored).len() - 1,
            if anchored { 0int } else { 3int },
            a,
            program(r, anchored).len() - 1,
            e,
            k,
        ),
{
    let code = program(r, anchored);
    let b: int = if anchored { 0 } else { 3 };
    let l = code.len() as int;
    let body = comp(r, b + 1);
    assert(l == b + 3 + body.len());
    assert(code[b] == PI::Save(0));
    assert(code[l - 2] == PI::Save(1));
    lemma_run_widen(code, s, 0, l - 1, b + 1, l - 2, b + 1, a, l - 2, e, kb);
    assert(run_in(code, s, 0, l - 1, b + 1, a, b + 1, a, 0));
    assert(run_in(code, s, 0, l - 1, b, a, b + 1, a, 1));
    lemma_run_join(code, s, 0, l - 1, b, a, b + 1, a, l - 2, e, 1, kb);
    assert(run_in(code, s, 0, l - 1, l - 1, e, l - 1, e, 0));
    assert(run_in(code, s, 0, l - 1, l - 2, e, l - 1, e, 1));
    lemma_run_join(code, s, 0, l - 1, b, a, l - 2, e, l - 1, e, 1 + kb, 1);
    1 + kb + 1
}

/// The program compiled from `r` goes from its first instruction at `p` to the match
/// instruction reading a match of `r` from `a` to `e`: through the `.*?` loop up to
/// `a` where not anchored.
proof fn lemma_start_path(r: Re, anchored: bool, s: Seq<u8>, p: int, a: int, e: int, kb: nat) -> (k: nat)
    requires
        0 <= p <= a <= s.len(),
        anchored ==> p == a,
        run_in(
            program(r, anchored),
            s,
            (if anchored { 0int } else { 3int }) + 1,
            program(r, anchored).len() - 2,
            (if anchored { 0int } else { 3int }) + 1,
            a,
            program(r, anchored).len() - 2,
            e,
            kb,
        ),
    ensures
        run_in(program(r, anchored), s, 0, program(r, anchored).len() - 1, 0, p, program(r, anchored).len() - 1, e, k),
    decreases a - p,
{
    let code = program(r, anchored);
    let l = code.len() as int;
    let kt = lemma_tail_path(r, anchored, s, a, e, kb);
    if anchored {
        kt
    } else {
        assert(code[0] == PI::Split(3, 1) && code[1] == PI::Any && code[2] == PI::Jmp(0));
        if p == a {
            assert(run_in(code, s, 0, l - 1, 3, a, 3, a, 0));
            assert(run_in(code, s, 0, l - 1, 0, a, 3, a, 1));
            lemma_run_join(code, s, 0, l - 1, 0, a, 3, a, l - 1, e, 1, kt);
            1 + kt
        } else {
            let k2 = lemma_start_path(r, anchored, s, p + 1, a, e, kb);
            assert(run_in(code, s, 0, l - 1, 0, p + 1, 0, p + 1, 0));
            assert(run_in(code, s, 0, l - 1, 2, p + 1, 0, p + 1, 1));
            assert(run_in(code, s, 0, l - 1, 1, p, 0, p + 1, 2));
            assert(run_in(code, s, 0, l - 1, 0, p, 0, p + 1, 3));
            lemma_run_join(code, s, 0, l - 1, 0, p, 0, p + 1, l - 1, e, 3, k2);
            3 + k2
        }
    }
}

/// Where the pattern matches, the matcher finds a match: where `r` (its groups
/// numbered from 1 to `g`) matches `s[a..e]`, at `a == 0` where the pattern is
/// anchored, the program compiled from it reports a match in `s`.
pub proof fn lemma_find_complete(r: Re, g: nat, anchored: bool, s: Seq<u8>, a: int, e: int)
    requires
        groups_ok(r, g),
        s.len() <= usize::MAX,
        0 <= a <= s.len(),
        re_match(r, s, a, e),
        anchored ==> a == 0,
    ensures
        captures_of(program(r, anchored), 2 * (g + 1), anchored, s) is Some,
        span_of(captures_of(program(r, anchored), 2 * (g + 1), anchored, s)) is Some,
{
    let code = program(r, anchored);
    let n = 2 * (g + 1);
    let b: int = if anchored { 0 } else { 3 };
    let l = code.len() as int;
    lemma_program_ok(r, anchored, g);
    let body = comp(r, b + 1);
    assert(l - 2 == b + 1 + body.len());
    assert(code.subrange(b + 1, b + 1 + body.len()) =~= body);
    let kb = lemma_comp_complete(r, code, s, b + 1, a, e);
    let prefix = lit_prefix(code, b);
    let start: int = if anchored || prefix.len() == 0 {
        0
    } else {
        let kt = lemma_tail_path(r, anchored, s, a, e, kb);
        lemma_prefix_read(code, s, 3, a, e, kt);
        lemma_occurs_at(s, prefix, 0, a);
        occurs_from(s, prefix, 0)->Some_0
    };
    assert(start_at(code, anchored, s) == Some(start));
    let k0 = lemma_start_path(r, anchored, s, start, a, e, kb);
    let fuel = (code.len() + 1) as nat;
    let t0: Thr = (0, Seq::new(n, |i: int| None));
    let seen0 = none_seen(code.len() as int);
    lemma_count_len(seen0);
    assert(closed_at(code, s, start, Seq::empty(), seen0, Set::empty()));
    lemma_add_closed(code, anchored, n, s, start, Seq::empty(), t0, seen0, fuel, Set::empty());
    let (cur, s2) = add_thread(code, s, start, Seq::empty(), t0, seen0, fuel);
    let (q, k2) = lemma_eps_reach(code, anchored, n, s, start, cur, s2, 0, e, k0);
    assert(live_in(code, s, cur, start, e));
    lemma_run_live(code, anchored, n, s, start, cur, None, e);
    lemma_match_span(code, n, anchored, s);
}


/// The matcher finds nothing exactly where the pattern matches nowhere: for the
/// program compiled from the pattern `r` (its groups numbered from 1 to `g`), no match
/// is reported in `s` if and only if `r` matches no `s[a..e]` with `a` in the text
/// (and `a == 0` where the pattern is anchored by a leading `^`).
pub proof fn lemma_find_none(r: Re, g: nat, anchored: bool, s: Seq<u8>)
    requires
        groups_ok(r, g),
        s.len() <= usize::MAX,
    ensures
        span_of(captures_of(program(r, anchored), 2 * (g + 1), anchored, s)) is None <==> (forall|a: int, e: int|
            0 <= a <= s.len() && (anchored ==> a == 0) ==> !#[trigger] re_match(r, s, a, e)),
{
    let code = program(r, anchored);
    let n = 2 * (g + 1);
    lemma_program_ok(r, anchored, g);
    lemma_match_span(code, n, anchored, s);
    lemma_find_sound(r, g, anchored, s);
    if let Some((a, e)) = span_of(captures_of(code, n, anchored, s)) {
        assert(0 <= a <= s.len() && (anchored ==> a == 0) && re_match(r, s, a as int, e as int));
    } else {
        assert forall|a: int, e: int| 0 <= a <= s.len() && (anchored ==> a == 0) implies !#[trigger] re_match(
            r,
            s,
            a,
            e,
        ) by {
            if re_match(r, s, a, e) {
                lemma_find_complete(r, g, anchored, s, a, e);
            }
        }
    }
}


/// Whether instruction `pc` is in the body of the program or is its match instruction.
pub open spec fn in_body(code: Seq<PI>, anchored: bool, pc: int) -> bool {
    (if anchored { 0int } else { 3int }) < pc < code.len()
}

/// Where the match of a thread in the body started: its slot 0.
pub open spec fn start_of(t: Thr) -> int {
    t.1[0]->Some_0 as int
}

/// Whether the threads in the body come in the order of their starts, and those before
/// the body come last.
pub open spec fn order_ok(code: Seq<PI>, anchored: bool, list: Seq<Thr>) -> bool {
    &&& forall|i: int, j: int|
        #![trigger list[i], list[j]]
        0 <= i < j < list.len() && in_body(code, anchored, list[i].0) && in_body(code, anchored, list[j].0)
            ==> start_of(list[i]) <= start_of(list[j])
    &&& forall|i: int, j: int|
        #![trigger list[i], list[j]]
        0 <= i < j < list.len() && !in_body(code, anchored, list[i].0) ==> !in_body(code, anchored, list[j].0)
}

/// Whether every thread in the body started by `v`.
pub open spec fn starts_le(code: Seq<PI>, anchored: bool, list: Seq<Thr>, v: int) -> bool {
    forall|i: int| 0 <= i < list.len() && in_body(code, anchored, #[trigger] list[i].0) ==> start_of(list[i]) <= v
}

/// Whether every thread is in the body.
pub open spec fn all_body(code: Seq<PI>, anchored: bool, list: Seq<Thr>) -> bool {
    forall|i: int| 0 <= i < list.len() ==> in_body(code, anchored, #[trigger] list[i].0)
}

/// Whether `list` begins with `pre`.
pub open spec fn extends(list: Seq<Thr>, pre: Seq<Thr>) -> bool {
    pre.len() <= list.len() && forall|i: int| 0 <= i < pre.len() ==> #[trigger] list[i] == pre[i]
}

/// Following a thread appends threads that keep the order: those in the body start
/// where it does (or here, for a thread before the body), and those before the body
/// come last.
proof fn lemma_add_order(code: Seq<PI>, anchored: bool, n: nat, s: Seq<u8>, pos: int, list: Seq<Thr>, t: Thr, seen: Seq<bool>, fuel: nat, v: int)
    requires
        prog_ok(code, anchored, n),
        list_ok(code, anchored, n, list, pos),
        thr_ok(code, anchored, n, t, pos),
        0 <= pos <= s.len(),
        s.len() <= usize::MAX,
        order_ok(code, anchored, list),
        all_body(code, anchored, list),
        starts_le(code, anchored, list, v),
        in_body(code, anchored, t.0) ==> start_of(t) == v,
        !in_body(code, anchored, t.0) ==> pos == v,
    ensures
        order_ok(code, anchored, add_thread(code, s, pos, list, t, seen, fuel).0),
        starts_le(code, anchored, add_thread(code, s, pos, list, t, seen, fuel).0, v),
        (in_body(code, anchored, t.0) || t.0 == (if anchored { 0int } else { 3int })) ==> all_body(
            code,
            anchored,
            add_thread(code, s, pos, list, t, seen, fuel).0,
        ),
        extends(add_thread(code, s, pos, list, t, seen, fuel).0, list),
    decreases fuel,
{
    let pc = t.0;
    let b: int = if anchored { 0 } else { 3 };
    let l = code.len() as int;
    if !anchored {
        assert(code[0] == PI::Split(3, 1) && code[1] == PI::Any && code[2] == PI::Jmp(0));
    }
    if !(fuel == 0 || pc < 0 || pc >= code.len() || pc >= seen.len() || seen[pc]) {
        let seen1 = seen.update(pc, true);
        let f1 = (fuel - 1) as nat;
        if b < pc < l - 2 {
            assert(inst_ok(code[pc], b + 1, l - 2, n));
        }
        match code[pc] {
            PI::Jmp(target) => {
                lemma_add_order(code, anchored, n, s, pos, list, (target, t.1), seen1, f1, v);
            },
            PI::Split(x, y) => {
                lemma_add_order(code, anchored, n, s, pos, list, (x, t.1), seen1, f1, v);
                lemma_add_ok(code, anchored, n, s, pos, list, (x, t.1), seen1, f1);
                let (l2, s2) = add_thread(code, s, pos, list, (x, t.1), seen1, f1);
                lemma_add_order(code, anchored, n, s, pos, l2, (y, t.1), s2, f1, v);
                let (l3, s3) = add_thread(code, s, pos, l2, (y, t.1), s2, f1);
                assert forall|i: int| 0 <= i < list.len() implies #[trigger] l3[i] == list[i] by {
                    assert(l2[i] == list[i]);
                }
            },
            PI::Save(k) => {
                let sv = if 0 <= k < t.1.len() {
                    t.1.update(k, Some(pos as usize))
                } else {
                    t.1
                };
                if pc == b {
                    assert(sv[0]->Some_0 as int == pos);
                } else {
                    assert(sv[0] == t.1[0]);
                }
                lemma_add_order(code, anchored, n, s, pos, list, (pc + 1, sv), seen1, f1, v);
            },
            PI::End => {
                if pos == s.len() {
                    lemma_add_order(code, anchored, n, s, pos, list, (pc + 1, t.1), seen1, f1, v);
                }
            },
            _ => {
                let r = list.push(t);
                assert forall|i: int, j: int|
                    #![trigger r[i], r[j]]
                    0 <= i < j < r.len() && in_body(code, anchored, r[i].0) && in_body(code, anchored, r[j].0) implies start_of(r[i])
                        <= start_of(r[j]) by {
                    if j < list.len() {
                        assert(r[i] == list[i] && r[j] == list[j]);
                    } else {
                        assert(r[i] == list[i]);
                    }
                }
                assert forall|i: int, j: int|
                    #![trigger r[i], r[j]]
                    0 <= i < j < r.len() && !in_body(code, anchored, r[i].0) implies !in_body(code, anchored, r[j].0) by {
                    assert(r[i] == list[i]);
                }
                assert forall|i: int| 0 <= i < r.len() && in_body(code, anchored, #[trigger] r[i].0) implies start_of(r[i]) <= v by {
                    if i < list.len() {
                        assert(r[i] == list[i]);
                    }
                }
                assert forall|i: int| 0 <= i < list.len() implies #[trigger] r[i] == list[i] by {}
            },
        }
    }
}


/// What a step keeps of the order: the next threads stay in order, start by `pos + 1`
/// and by `w` where every thread left to step started by `w`, and stay in the body
/// where those left are; a match it reports is that of a thread in the body, and the
/// next threads started by its start.
proof fn lemma_step_order(code: Seq<PI>, anchored: bool, n: nat, s: Seq<u8>, pos: int, cur: Seq<Thr>, i: int, next: Seq<Thr>, seen: Seq<bool>, fuel: nat, w: int, track: bool)
    requires
        prog_ok(code, anchored, n),
        list_ok(code, anchored, n, cur, pos),
        list_ok(code, anchored, n, next, pos + 1),
        closed_at(code, s, pos + 1, next, seen, Set::empty()),
        fuel == code.len() + 1,
        0 <= pos <= s.len(),
        s.len() <= usize::MAX,
        order_ok(code, anchored, cur),
        starts_le(code, anchored, cur, pos),
        0 <= i <= cur.len(),
        order_ok(code, anchored, next),
        starts_le(code, anchored, next, pos + 1),
        forall|j: int| i <= j < cur.len() && in_body(code, anchored, cur[j].0) ==> starts_le(code, anchored, next, #[trigger] start_of(cur[j])),
        !all_body(code, anchored, next) ==> seen[2] && forall|j: int| i <= j < cur.len() ==> !in_body(code, anchored, #[trigger] cur[j].0),
        track ==> starts_le(code, anchored, next, w) && all_body(code, anchored, next) && forall|j: int| i <= j < cur.len()
            ==> in_body(code, anchored, #[trigger] cur[j].0) && start_of(cur[j]) <= w,
    ensures
        ({
            let (nx, m) = step_threads(code, s, pos, cur, i, next, seen, fuel);
            &&& order_ok(code, anchored, nx)
            &&& starts_le(code, anchored, nx, pos + 1)
            &&& extends(nx, next)
            &&& track ==> starts_le(code, anchored, nx, w) && all_body(code, anchored, nx)
            &&& m matches Some(c) ==> exists|idx: int|
                i <= idx < cur.len() && in_body(code, anchored, cur[idx].0) && #[trigger] cur[idx].1 == c && all_body(
                    code,
                    anchored,
                    nx,
                ) && starts_le(code, anchored, nx, start_of(cur[idx]))
        }),
    decreases cur.len() - i,
{
    let b: int = if anchored { 0 } else { 3 };
    let l = code.len() as int;
    if !anchored {
        assert(code[0] == PI::Split(3, 1) && code[1] == PI::Any && code[2] == PI::Jmp(0));
    }
    if 0 <= i < cur.len() {
        let t = cur[i];
        assert(thr_ok(code, anchored, n, t, pos));
        if b < t.0 < l - 2 {
            assert(inst_ok(code[t.0], b + 1, l - 2, n));
        }
        lemma_count_len(seen);
        if 0 <= t.0 < code.len() && code[t.0] is Match {
            assert(t.0 == l - 1);
            assert(in_body(code, anchored, t.0));
            assert(starts_le(code, anchored, next, start_of(cur[i])));
            assert(all_body(code, anchored, next));
        } else if advances(code, s, pos, t.0) {
            lemma_advance_in(code, anchored, n, s, pos, t.0);
            let t2 = (t.0 + 1, t.1);
            assert(thr_ok(code, anchored, n, t2, pos + 1));
            let v: int = if in_body(code, anchored, t.0) { start_of(t) } else { pos + 1 };
            lemma_add_ok(code, anchored, n, s, pos + 1, next, t2, seen, fuel);
            lemma_add_closed(code, anchored, n, s, pos + 1, next, t2, seen, fuel, Set::empty());
            let (n2, s2) = add_thread(code, s, pos + 1, next, t2, seen, fuel);
            if seen[t.0 + 1] {
                assert(n2 == next);
            } else {
                if in_body(code, anchored, t.0) {
                    assert(starts_le(code, anchored, next, start_of(cur[i])));
                    assert(all_body(code, anchored, next));
                } else {
                    assert(t.0 == 1);
                    assert(all_body(code, anchored, next));
                }
                lemma_add_order(code, anchored, n, s, pos + 1, next, t2, seen, fuel, v);
                assert(starts_le(code, anchored, n2, pos + 1));
                assert forall|j: int| i + 1 <= j < cur.len() && in_body(code, anchored, cur[j].0) implies starts_le(
                    code,
                    anchored,
                    n2,
                    #[trigger] start_of(cur[j]),
                ) by {
                    if in_body(code, anchored, t.0) {
                        assert(cur[i] == t);
                    } else {
                        assert(!in_body(code, anchored, cur[j].0));
                    }
                }
                if !in_body(code, anchored, t.0) {
                    assert(s2[2]);
                    assert forall|j: int| i + 1 <= j < cur.len() implies !in_body(code, anchored, #[trigger] cur[j].0) by {
                        assert(cur[i] == t);
                    }
                }
                if track {
                    assert(in_body(code, anchored, cur[i].0) && start_of(cur[i]) <= w);
                    assert(v <= w);
                    assert(starts_le(code, anchored, n2, w));
                }
            }
            assert(s2.len() == seen.len());
            assert(!all_body(code, anchored, n2) ==> s2[2]);
            lemma_step_order(code, anchored, n, s, pos, cur, i + 1, n2, s2, fuel, w, track);
            let (nx, m) = step_threads(code, s, pos, cur, i + 1, n2, s2, fuel);
            assert forall|j: int| 0 <= j < next.len() implies #[trigger] nx[j] == next[j] by {
                assert(n2[j] == next[j]);
            }
        } else {
            lemma_step_order(code, anchored, n, s, pos, cur, i + 1, next, seen, fuel, w, track);
        }
    }
}


/// The invariant of a step over `cur` from `i` with the next threads `next` so far.
pub open spec fn step_inv(code: Seq<PI>, anchored: bool, n: nat, s: Seq<u8>, pos: int, cur: Seq<Thr>, i: int, next: Seq<Thr>, seen: Seq<bool>) -> bool {
    &&& list_ok(code, anchored, n, cur, pos)
    &&& list_ok(code, anchored, n, next, pos + 1)
    &&& closed_at(code, s, pos + 1, next, seen, Set::empty())
    &&& 0 <= pos <= s.len()
    &&& s.len() <= usize::MAX
    &&& order_ok(code, anchored, cur)
    &&& starts_le(code, anchored, cur, pos)
    &&& 0 <= i <= cur.len()
    &&& order_ok(code, anchored, next)
    &&& starts_le(code, anchored, next, pos + 1)
    &&& forall|j: int| i <= j < cur.len() && in_body(code, anchored, cur[j].0) ==> starts_le(code, anchored, next, #[trigger] start_of(cur[j]))
    &&& !all_body(code, anchored, next) ==> seen[2] && forall|j: int| i <= j < cur.len() ==> !in_body(code, anchored, #[trigger] cur[j].0)
}

/// Stepping one thread that moves past the byte keeps the invariant, and the threads
/// it adds started where it did (or here, for one before the body).
proof fn lemma_advance_one(code: Seq<PI>, anchored: bool, n: nat, s: Seq<u8>, pos: int, cur: Seq<Thr>, i: int, next: Seq<Thr>, seen: Seq<bool>, fuel: nat)
    requires
        prog_ok(code, anchored, n),
        fuel == code.len() + 1,
        step_inv(code, anchored, n, s, pos, cur, i, next, seen),
        i < cur.len(),
        advances(code, s, pos, cur[i].0),
    ensures
        ({
            let t = cur[i];
            let (n2, s2) = add_thread(code, s, pos + 1, next, (t.0 + 1, t.1), seen, fuel);
            &&& step_inv(code, anchored, n, s, pos, cur, i + 1, n2, s2)
            &&& extends(n2, next)
            &&& s2[t.0 + 1]
            &&& starts_le(code, anchored, n2, if in_body(code, anchored, t.0) { start_of(t) } else { pos + 1 })
            &&& (in_body(code, anchored, t.0) ==> all_body(code, anchored, n2))
        }),
{
    let b: int = if anchored { 0 } else { 3 };
    let l = code.len() as int;
    if !anchored {
        assert(code[0] == PI::Split(3, 1) && code[1] == PI::Any && code[2] == PI::Jmp(0));
    }
    let t = cur[i];
    assert(thr_ok(code, anchored, n, t, pos));
    lemma_count_len(seen);
    lemma_advance_in(code, anchored, n, s, pos, t.0);
    let t2 = (t.0 + 1, t.1);
    assert(thr_ok(code, anchored, n, t2, pos + 1));
    let v: int = if in_body(code, anchored, t.0) { start_of(t) } else { pos + 1 };
    lemma_add_ok(code, anchored, n, s, pos + 1, next, t2, seen, fuel);
    lemma_add_closed(code, anchored, n, s, pos + 1, next, t2, seen, fuel, Set::empty());
    let (n2, s2) = add_thread(code, s, pos + 1, next, t2, seen, fuel);
    if seen[t.0 + 1] {
        assert(n2 == next);
        if in_body(code, anchored, t.0) {
            assert(starts_le(code, anchored, next, start_of(cur[i])));
            assert(all_body(code, anchored, next));
        }
    } else {
        if in_body(code, anchored, t.0) {
            assert(starts_le(code, anchored, next, start_of(cur[i])));
            assert(all_body(code, anchored, next));
        } else {
            assert(t.0 == 1);
            assert(all_body(code, anchored, next));
        }
        lemma_add_order(code, anchored, n, s, pos + 1, next, t2, seen, fuel, v);
        assert(starts_le(code, anchored, n2, pos + 1));
        assert forall|j: int| i + 1 <= j < cur.len() && in_body(code, anchored, cur[j].0) implies starts_le(
            code,
            anchored,
            n2,
            #[trigger] start_of(cur[j]),
        ) by {
            if in_body(code, anchored, t.0) {
                assert(cur[i] == t);
            } else {
                assert(!in_body(code, anchored, cur[j].0));
            }
        }
        if !in_body(code, anchored, t.0) {
            assert(s2[2]);
            assert forall|j: int| i + 1 <= j < cur.len() implies !in_body(code, anchored, #[trigger] cur[j].0) by {
                assert(cur[i] == t);
            }
        }
    }
    assert(s2.len() == seen.len());
    assert(!all_body(code, anchored, n2) ==> s2[2]);
}

/// Whether a thread in the body that started by `v` goes on from `pos` to report a
/// match ending at `e`.
pub open spec fn live_le(code: Seq<PI>, anchored: bool, s: Seq<u8>, list: Seq<Thr>, pos: int, e: int, v: int) -> bool {
    exists|j: int, k: nat|
        0 <= j < list.len() && waiting(code, list[j].0) && in_body(code, anchored, list[j].0) && start_of(list[j]) <= v
            && #[trigger] run_in(code, s, 0, code.len() - 1, list[j].0, pos, code.len() - 1, e, k)
}

/// Whether a step reported a match that started by `v`, the next threads all in the
/// body and started by its start.
pub open spec fn good_match(code: Seq<PI>, anchored: bool, m: Option<Seq<Option<usize>>>, nx: Seq<Thr>, v: int) -> bool {
    m matches Some(c) && c.len() >= 1 && c[0] is Some && (c[0]->Some_0 as int) <= v && all_body(code, anchored, nx)
        && starts_le(code, anchored, nx, c[0]->Some_0 as int)
}

/// A step over threads, one of which in the body started by `av` and goes on to a
/// match, reports a match that started by `av` or leaves such a thread.
proof fn lemma_step_left(code: Seq<PI>, anchored: bool, n: nat, s: Seq<u8>, pos: int, cur: Seq<Thr>, i: int, next: Seq<Thr>, seen: Seq<bool>, fuel: nat, ii: int, e: int, k: nat, av: int)
    requires
        prog_ok(code, anchored, n),
        fuel == code.len() + 1,
        step_inv(code, anchored, n, s, pos, cur, i, next, seen),
        i <= ii < cur.len(),
        waiting(code, cur[ii].0),
        in_body(code, anchored, cur[ii].0),
        start_of(cur[ii]) <= av,
        run_in(code, s, 0, code.len() - 1, cur[ii].0, pos, code.len() - 1, e, k),
    ensures
        ({
            let (nx, m) = step_threads(code, s, pos, cur, i, next, seen, fuel);
            good_match(code, anchored, m, nx, av) || (pos < s.len() && live_le(code, anchored, s, nx, pos + 1, e, av))
        }),
    decreases cur.len() - i,
{
    let l = code.len() as int;
    let t = cur[i];
    assert(thr_ok(code, anchored, n, t, pos));
    if 0 <= t.0 < code.len() && code[t.0] is Match {
        assert(t.0 == l - 1);
        assert(in_body(code, anchored, t.0));
        if i < ii {
            assert(start_of(cur[i]) <= start_of(cur[ii]));
        }
        assert(starts_le(code, anchored, next, start_of(cur[i])));
        assert(all_body(code, anchored, next));
    } else if i < ii {
        if advances(code, s, pos, t.0) {
            lemma_advance_one(code, anchored, n, s, pos, cur, i, next, seen, fuel);
            let (n2, s2) = add_thread(code, s, pos + 1, next, (t.0 + 1, t.1), seen, fuel);
            lemma_step_left(code, anchored, n, s, pos, cur, i + 1, n2, s2, fuel, ii, e, k, av);
        } else {
            lemma_step_left(code, anchored, n, s, pos, cur, i + 1, next, seen, fuel, ii, e, k, av);
        }
    } else {
        assert(t.0 != l - 1);
        assert(k > 0);
        let k1 = (k - 1) as nat;
        assert(advances(code, s, pos, t.0));
        assert(run_in(code, s, 0, l - 1, t.0 + 1, pos + 1, l - 1, e, k1));
        lemma_advance_one(code, anchored, n, s, pos, cur, i, next, seen, fuel);
        lemma_advance_in(code, anchored, n, s, pos, t.0);
        let (n2, s2) = add_thread(code, s, pos + 1, next, (t.0 + 1, t.1), seen, fuel);
        let (q, k2) = lemma_eps_reach(code, anchored, n, s, pos + 1, n2, s2, t.0 + 1, e, k1);
        let j = choose|j: int| 0 <= j < n2.len() && #[trigger] n2[j].0 == q;
        assert(start_of(n2[j]) <= av);
        lemma_step_order(code, anchored, n, s, pos, cur, i + 1, n2, s2, fuel, 0, false);
        let (nx, m) = step_threads(code, s, pos, cur, i + 1, n2, s2, fuel);
        assert(nx[j] == n2[j]);
        assert(run_in(code, s, 0, l - 1, nx[j].0, pos + 1, l - 1, e, k2));
        assert(live_le(code, anchored, s, nx, pos + 1, e, av));
    }
}


/// A step over threads whose `.*?` loop thread stands before `av` reports a match that
/// started by `av`, or leaves the loop thread (still before `av`) or a thread in the
/// body that started by `av` and goes on to the match that starts at `av`.
proof fn lemma_step_prefix(code: Seq<PI>, anchored: bool, n: nat, s: Seq<u8>, pos: int, cur: Seq<Thr>, i: int, next: Seq<Thr>, seen: Seq<bool>, fuel: nat, ip: int, e: int, av: int, kt: nat)
    requires
        prog_ok(code, anchored, n),
        fuel == code.len() + 1,
        step_inv(code, anchored, n, s, pos, cur, i, next, seen),
        !anchored,
        i <= ip < cur.len(),
        cur[ip].0 == 1,
        pos < av <= s.len(),
        run_in(code, s, 0, code.len() - 1, 4, av, code.len() - 1, e, kt),
    ensures
        ({
            let (nx, m) = step_threads(code, s, pos, cur, i, next, seen, fuel);
            good_match(code, anchored, m, nx, av) || (pos < s.len() && (live_le(code, anchored, s, nx, pos + 1, e, av)
                || (has_pc(nx, 1) && pos + 1 < av)))
        }),
    decreases cur.len() - i,
{
    let l = code.len() as int;
    let t = cur[i];
    assert(thr_ok(code, anchored, n, t, pos));
    assert(code[0] == PI::Split(3, 1) && code[1] == PI::Any && code[2] == PI::Jmp(0));
    if 0 <= t.0 < code.len() && code[t.0] is Match {
        assert(t.0 == l - 1);
        assert(in_body(code, anchored, t.0));
        assert(start_of(cur[i]) <= pos);
        assert(starts_le(code, anchored, next, start_of(cur[i])));
        assert(all_body(code, anchored, next));
    } else if i < ip {
        if advances(code, s, pos, t.0) {
            lemma_advance_one(code, anchored, n, s, pos, cur, i, next, seen, fuel);
            let (n2, s2) = add_thread(code, s, pos + 1, next, (t.0 + 1, t.1), seen, fuel);
            lemma_step_prefix(code, anchored, n, s, pos, cur, i + 1, n2, s2, fuel, ip, e, av, kt);
        } else {
            lemma_step_prefix(code, anchored, n, s, pos, cur, i + 1, next, seen, fuel, ip, e, av, kt);
        }
    } else {
        assert(advances(code, s, pos, t.0));
        lemma_advance_one(code, anchored, n, s, pos, cur, i, next, seen, fuel);
        let (n2, s2) = add_thread(code, s, pos + 1, next, (t.0 + 1, t.1), seen, fuel);
        assert(s2[2]);
        assert(!Set::<int>::empty().contains(2));
        assert(eps_next(code, s, pos + 1, 2, 0));
        assert(s2[0]);
        assert(!Set::<int>::empty().contains(0));
        assert(eps_next(code, s, pos + 1, 0, 3));
        assert(eps_next(code, s, pos + 1, 0, 1));
        assert(s2[3] && s2[1]);
        assert(!Set::<int>::empty().contains(3));
        assert(code[3] == PI::Save(0));
        assert(eps_next(code, s, pos + 1, 3, 4));
        assert(s2[4]);
        assert(!Set::<int>::empty().contains(1));
        assert(waiting(code, 1));
        assert(has_pc(n2, 1));
        lemma_step_order(code, anchored, n, s, pos, cur, i + 1, n2, s2, fuel, 0, false);
        let (nx, m) = step_threads(code, s, pos, cur, i + 1, n2, s2, fuel);
        if pos + 1 < av {
            let j = choose|j: int| 0 <= j < n2.len() && #[trigger] n2[j].0 == 1;
            assert(nx[j] == n2[j]);
            assert(has_pc(nx, 1));
        } else {
            let (q, k2) = lemma_eps_reach(code, anchored, n, s, pos + 1, n2, s2, 4, e, kt);
            let j = choose|j: int| 0 <= j < n2.len() && #[trigger] n2[j].0 == q;
            assert(start_of(n2[j]) <= pos + 1);
            assert(nx[j] == n2[j]);
            assert(run_in(code, s, 0, l - 1, nx[j].0, pos + 1, l - 1, e, k2));
            assert(live_le(code, anchored, s, nx, pos + 1, e, av));
        }
    }
}

/// Running threads that hold a match started by `av`, or a thread in the body that
/// started by `av` and goes on to a match, or the `.*?` loop before `av` (where a
/// match starts at `av`), reports a match that started by `av`.
proof fn lemma_run_left(code: Seq<PI>, anchored: bool, n: nat, s: Seq<u8>, pos: int, cur: Seq<Thr>, matched: Option<Seq<Option<usize>>>, e: int, av: int, kt: nat)
    requires
        prog_ok(code, anchored, n),
        list_ok(code, anchored, n, cur, pos),
        order_ok(code, anchored, cur),
        starts_le(code, anchored, cur, pos),
        0 <= pos <= s.len(),
        s.len() <= usize::MAX,
        run_in(code, s, 0, code.len() - 1, (if anchored { 0int } else { 3int }) + 1, av, code.len() - 1, e, kt),
        good_match(code, anchored, matched, cur, av) || live_le(code, anchored, s, cur, pos, e, av) || (!anchored
            && has_pc(cur, 1) && pos < av <= s.len()),
    ensures
        run_threads(code, s, pos, cur, matched) matches Some(c) && c.len() >= 1 && c[0] is Some && (c[0]->Some_0 as int)
            <= av,
    decreases s.len() - pos,
{
    let l = code.len() as int;
    let fuel = (code.len() + 1) as nat;
    let seen0 = none_seen(code.len() as int);
    assert(closed_at(code, s, pos + 1, Seq::empty(), seen0, Set::empty()));
    assert(step_inv(code, anchored, n, s, pos, cur, 0, Seq::empty(), seen0));
    lemma_step_ok(code, anchored, n, s, pos, cur, 0, Seq::empty(), seen0, fuel);
    let (next, m) = step_threads(code, s, pos, cur, 0, Seq::empty(), seen0, fuel);
    let matched2 = match m {
        Some(x) => Some(x),
        None => matched,
    };
    if good_match(code, anchored, matched, cur, av) {
        let c = matched->Some_0;
        let w = c[0]->Some_0 as int;
        lemma_step_order(code, anchored, n, s, pos, cur, 0, Seq::empty(), seen0, fuel, w, true);
        if let Some(c2) = m {
            let idx = choose|idx: int|
                0 <= idx < cur.len() && in_body(code, anchored, cur[idx].0) && #[trigger] cur[idx].1 == c2 && all_body(
                    code,
                    anchored,
                    next,
                ) && starts_le(code, anchored, next, start_of(cur[idx]));
            assert(thr_ok(code, anchored, n, cur[idx], pos));
            assert(good_match(code, anchored, matched2, next, av));
        } else {
            assert(good_match(code, anchored, matched2, next, av));
        }
        if !(pos >= s.len() || next.len() == 0) {
            lemma_run_left(code, anchored, n, s, pos + 1, next, matched2, e, av, kt);
        }
    } else if live_le(code, anchored, s, cur, pos, e, av) {
        let (j, k) = choose|j: int, k: nat|
            0 <= j < cur.len() && waiting(code, cur[j].0) && in_body(code, anchored, cur[j].0) && start_of(cur[j]) <= av
                && #[trigger] run_in(code, s, 0, code.len() - 1, cur[j].0, pos, code.len() - 1, e, k);
        lemma_step_left(code, anchored, n, s, pos, cur, 0, Seq::empty(), seen0, fuel, j, e, k, av);
        lemma_step_order(code, anchored, n, s, pos, cur, 0, Seq::empty(), seen0, fuel, 0, false);
        if good_match(code, anchored, m, next, av) {
            assert(good_match(code, anchored, matched2, next, av));
            if !(pos >= s.len() || next.len() == 0) {
                lemma_run_left(code, anchored, n, s, pos + 1, next, matched2, e, av, kt);
            }
        } else {
            assert(next.len() > 0);
            lemma_run_left(code, anchored, n, s, pos + 1, next, matched2, e, av, kt);
        }
    } else {
        let ip = choose|ip: int| 0 <= ip < cur.len() && #[trigger] cur[ip].0 == 1;
        assert(4 == (if anchored { 0int } else { 3int }) + 1);
        lemma_step_prefix(code, anchored, n, s, pos, cur, 0, Seq::empty(), seen0, fuel, ip, e, av, kt);
        lemma_step_order(code, anchored, n, s, pos, cur, 0, Seq::empty(), seen0, fuel, 0, false);
        if good_match(code, anchored, m, next, av) {
            assert(good_match(code, anchored, matched2, next, av));
            if !(pos >= s.len() || next.len() == 0) {
                lemma_run_left(code, anchored, n, s, pos + 1, next, matched2, e, av, kt);
            }
        } else {
            if live_le(code, anchored, s, next, pos + 1, e, av) {
                let (j, k) = choose|j: int, k: nat|
                    0 <= j < next.len() && waiting(code, next[j].0) && in_body(code, anchored, next[j].0) && start_of(next[j]) <= av
                        && #[trigger] run_in(code, s, 0, code.len() - 1, next[j].0, pos + 1, code.len() - 1, e, k);
                assert(next.len() > 0);
            } else {
                let j = choose|j: int| 0 <= j < next.len() && #[trigger] next[j].0 == 1;
                assert(next.len() > 0);
            }
            lemma_run_left(code, anchored, n, s, pos + 1, next, matched2, e, av, kt);
        }
    }
}


/// The matcher finds the leftmost match: where the pattern `r` (its groups numbered
/// from 1 to `g`) matches `s[av..ev]`, at `av == 0` where the pattern is anchored, the
/// program compiled from it reports a match that starts at `av` or before.
pub proof fn lemma_find_leftmost(r: Re, g: nat, anchored: bool, s: Seq<u8>, av: int, ev: int)
    requires
        groups_ok(r, g),
        s.len() <= usize::MAX,
        0 <= av <= s.len(),
        re_match(r, s, av, ev),
        anchored ==> av == 0,
    ensures
        span_of(captures_of(program(r, anchored), 2 * (g + 1), anchored, s)) matches Some((a, e)) && a <= av,
{
    let code = program(r, anchored);
    let n = 2 * (g + 1);
    let b: int = if anchored { 0 } else { 3 };
    let l = code.len() as int;
    lemma_program_ok(r, anchored, g);
    let body = comp(r, b + 1);
    assert(l - 2 == b + 1 + body.len());
    assert(code.subrange(b + 1, b + 1 + body.len()) =~= body);
    let kb = lemma_comp_complete(r, code, s, b + 1, av, ev);
    let k_tail = lemma_tail_path(r, anchored, s, av, ev, kb);
    assert(code[b] == PI::Save(0));
    let kt = (k_tail - 1) as nat;
    assert(run_in(code, s, 0, l - 1, b + 1, av, l - 1, ev, kt));
    let prefix = lit_prefix(code, b);
    let start: int = if anchored || prefix.len() == 0 {
        0
    } else {
        lemma_prefix_read(code, s, 3, av, ev, k_tail);
        lemma_occurs_at(s, prefix, 0, av);
        occurs_from(s, prefix, 0)->Some_0
    };
    assert(start_at(code, anchored, s) == Some(start));
    let fuel = (code.len() + 1) as nat;
    let t0: Thr = (0, Seq::new(n, |i: int| None));
    let seen0 = none_seen(code.len() as int);
    lemma_count_len(seen0);
    assert(closed_at(code, s, start, Seq::empty(), seen0, Set::empty()));
    lemma_add_ok(code, anchored, n, s, start, Seq::empty(), t0, seen0, fuel);
    lemma_add_order(code, anchored, n, s, start, Seq::empty(), t0, seen0, fuel, start);
    lemma_add_closed(code, anchored, n, s, start, Seq::empty(), t0, seen0, fuel, Set::empty());
    let (cur, s2) = add_thread(code, s, start, Seq::empty(), t0, seen0, fuel);
    assert(!Set::<int>::empty().contains(0));
    if !anchored {
        assert(code[0] == PI::Split(3, 1) && code[1] == PI::Any && code[2] == PI::Jmp(0));
        assert(eps_next(code, s, start, 0, 1));
        assert(eps_next(code, s, start, 0, 3));
        assert(s2[1] && s2[3]);
        assert(!Set::<int>::empty().contains(3));
        assert(eps_next(code, s, start, 3, 4));
        assert(!Set::<int>::empty().contains(1));
        assert(waiting(code, 1));
    } else {
        assert(eps_next(code, s, start, 0, 1));
    }
    assert(s2[b + 1]);
    if start < av {
        assert(!anchored);
        assert(has_pc(cur, 1));
    } else {
        let (q, k2) = lemma_eps_reach(code, anchored, n, s, start, cur, s2, b + 1, ev, kt);
        let j = choose|j: int| 0 <= j < cur.len() && #[trigger] cur[j].0 == q;
        assert(start_of(cur[j]) <= start);
        assert(run_in(code, s, 0, l - 1, cur[j].0, start, l - 1, ev, k2));
        assert(live_le(code, anchored, s, cur, start, ev, av));
    }
    lemma_run_left(code, anchored, n, s, start, cur, None, ev, av, kt);
    lemma_match_span(code, n, anchored, s);
}


/// What `find` reports, over the pattern as parsed: for the program compiled from the
/// pattern `r` (its groups numbered from 1 to `g`), a match from `a` to `e` is one of
/// `r` (at 0 where the pattern is anchored) and no match of `r` starts before `a`; no
/// match at all is reported exactly where `r` matches nowhere in `s`.
pub proof fn lemma_find_spec(r: Re, g: nat, anchored: bool, s: Seq<u8>)
    requires
        groups_ok(r, g),
        s.len() <= usize::MAX,
    ensures
        match span_of(captures_of(program(r, anchored), 2 * (g + 1), anchored, s)) {
            Some((a, e)) => re_match(r, s, a as int, e as int) && (anchored ==> a == 0) && forall|a2: int, e2: int|
                0 <= a2 < a ==> !#[trigger] re_match(r, s, a2, e2),
            None => forall|a2: int, e2: int|
                0 <= a2 <= s.len() && (anchored ==> a2 == 0) ==> !#[trigger] re_match(r, s, a2, e2),
        },
{
    lemma_find_sound(r, g, anchored, s);
    lemma_find_none(r, g, anchored, s);
    let code = program(r, anchored);
    let n = 2 * (g + 1);
    lemma_program_ok(r, anchored, g);
    lemma_match_span(code, n, anchored, s);
    if let Some((a, e)) = span_of(captures_of(code, n, anchored, s)) {
        assert forall|a2: int, e2: int| 0 <= a2 < a implies !#[trigger] re_match(r, s, a2, e2) by {
            if re_match(r, s, a2, e2) {
                if anchored {
                    assert(a == 0);
                }
                lemma_find_leftmost(r, g, anchored, s, a2, e2);
            }
        }
    }
}


/// Whether the escape `\c` stands for the byte `y`: `\n`, `\t` and `\r` for line feed,
/// tab and carriage return; `\d` for an ASCII digit, `\w` for a digit, letter or `_`,
/// `\s` for tab, line feed, carriage return or space, and `\D`, `\W`, `\S` for any
/// other byte; any other letter for itself.
pub open spec fn escape_denotes(c: u8, y: u8) -> bool {
    let digit = 48 <= y <= 57;
    let word = digit || (65 <= y <= 90) || (97 <= y <= 122) || y == 95;
    let space = y == 9 || y == 10 || y == 13 || y == 32;
    if c == 110 {
        y == 10
    } else if c == 116 {
        y == 9
    } else if c == 114 {
        y == 13
    } else if c == 100 {
        digit
    } else if c == 68 {
        !digit
    } else if c == 119 {
        word
    } else if c == 87 {
        !word
    } else if c == 115 {
        space
    } else if c == 83 {
        !space
    } else {
        y == c
    }
}

/// What an escape in a pattern matches: the escape whose letter is at `p` reads that
/// one letter and matches exactly the one-byte texts whose byte it stands for.
pub proof fn lemma_escape_meaning(s: Seq<u8>, p: int, t: Seq<u8>, i: int, j: int)
    requires
        0 <= p < s.len(),
    ensures
        escape(s, p) matches Ok((x, q)) && q == p + 1 && (re_match(x, t, i, j) <==> (0 <= i < t.len() && j == i + 1
            && escape_denotes(s[p], t[i]))),
{
}

/// What an escape inside a class stands for: `\n`, `\t` and `\r` for line feed, tab
/// and carriage return, any other letter for itself.
pub proof fn lemma_class_escape_meaning(s: Seq<u8>, p: int)
    requires
        0 <= p < s.len(),
    ensures
        class_escape(s, p) == Ok::<u8, Seq<char>>(
            if s[p] == 110 {
                10u8
            } else if s[p] == 116 {
                9u8
            } else if s[p] == 114 {
                13u8
            } else {
                s[p]
            },
        ),
{
}


/// In a pattern, a backslash and a letter make an atom that matches exactly the
/// one-byte texts whose byte the escape stands for.
pub proof fn lemma_escape_atom(s: Seq<u8>, p: int, g: nat, fuel: nat, t: Seq<u8>, i: int, j: int)
    requires
        0 <= p,
        p + 1 < s.len(),
        s[p] == 92,
    ensures
        atom(s, p, g, fuel) matches Ok((x, q, g2)) && q == p + 2 && g2 == g && (re_match(x, t, i, j) <==> (0 <= i
            < t.len() && j == i + 1 && escape_denotes(s[p + 1], t[i]))),
{
    lemma_escape_meaning(s, p + 1, t, i, j);
}

} // verus!
