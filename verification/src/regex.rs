use vstd::prelude::*;
use vstd::string::*;
use crate::text::{dec_digits, push_char, push_str, push_u64};

pub mod sound;

verus! {

/// A parsed pattern, as plain values. A class holds, for each byte, whether it is in
/// the set, and whether the set is negated; a group holds its number (from 1).
pub enum Re {
    Byte(u8),
    Any,
    Class(Seq<bool>, bool),
    Concat(Seq<Re>),
    Alt(Seq<Re>),
    Star(Box<Re>),
    Plus(Box<Re>),
    Opt(Box<Re>),
    Group(Box<Re>, nat),
    End,
}

/// A parsed pattern.
enum Ast {
    Byte(u8),
    Any,
    Class(Vec<bool>, bool),
    Concat(Vec<Ast>),
    Alt(Vec<Ast>),
    Star(Box<Ast>),
    Plus(Box<Ast>),
    Opt(Box<Ast>),
    Group(Box<Ast>, usize),
    End,
}

/// A parsed pattern as plain values.
spec fn re_of(a: Ast) -> Re
    decreases a,
{
    match a {
        Ast::Byte(b) => Re::Byte(b),
        Ast::Any => Re::Any,
        Ast::Class(bits, neg) => Re::Class(bits@, neg),
        Ast::Concat(xs) => Re::Concat(
            Seq::new(
                xs@.len(),
                |i: int|
                    if 0 <= i < xs@.len() {
                        re_of(xs@[i])
                    } else {
                        Re::Any
                    },
            ),
        ),
        Ast::Alt(xs) => Re::Alt(
            Seq::new(
                xs@.len(),
                |i: int|
                    if 0 <= i < xs@.len() {
                        re_of(xs@[i])
                    } else {
                        Re::Any
                    },
            ),
        ),
        Ast::Star(x) => Re::Star(Box::new(re_of(*x))),
        Ast::Plus(x) => Re::Plus(Box::new(re_of(*x))),
        Ast::Opt(x) => Re::Opt(Box::new(re_of(*x))),
        Ast::Group(x, i) => Re::Group(Box::new(re_of(*x)), i as nat),
        Ast::End => Re::End,
    }
}

/// The parts of a sequence or alternation as plain values.
spec fn res_of(xs: Seq<Ast>) -> Seq<Re> {
    xs.map_values(|x: Ast| re_of(x))
}

proof fn lemma_concat_of(xs: Vec<Ast>)
    ensures
        re_of(Ast::Concat(xs)) == Re::Concat(res_of(xs@)),
        re_of(Ast::Alt(xs)) == Re::Alt(res_of(xs@)),
{
    assert(re_of(Ast::Concat(xs))->Concat_0 =~= res_of(xs@));
    assert(re_of(Ast::Alt(xs))->Alt_0 =~= res_of(xs@));
}

/// Whether byte `p` of `s` is `x`.
pub open spec fn at(s: Seq<u8>, p: int, x: u8) -> bool {
    0 <= p < s.len() && s[p] == x
}

/// The set of the ASCII digits.
pub open spec fn digit_set() -> Seq<bool> {
    Seq::new(256, |b: int| 48 <= b <= 57)
}

/// The set of the ASCII word characters: digits, letters and `_`.
pub open spec fn word_set() -> Seq<bool> {
    Seq::new(256, |b: int| (48 <= b <= 57) || (65 <= b <= 90) || b == 95 || (97 <= b <= 122))
}

/// The set of the white-space bytes: tab, line feed, carriage return and space.
pub open spec fn space_set() -> Seq<bool> {
    Seq::new(256, |b: int| (9 <= b <= 10) || b == 13 || b == 32)
}

/// The set `bits` with the bytes `lo..=hi` added.
pub open spec fn range_add(bits: Seq<bool>, lo: u8, hi: u8) -> Seq<bool> {
    Seq::new(256, |b: int| bits[b] || (lo <= b <= hi))
}

/// The empty set of bytes.
pub open spec fn no_bytes() -> Seq<bool> {
    Seq::new(256, |b: int| false)
}

/// The escape whose letter is at `p` (just after the backslash), and the position
/// after it.
pub open spec fn escape(s: Seq<u8>, p: int) -> Result<(Re, int), Seq<char>> {
    if p < 0 || p >= s.len() {
        Err("bad escape"@)
    } else {
        let c = s[p];
        let r = if c == 100 {
            Re::Class(digit_set(), false)
        } else if c == 68 {
            Re::Class(digit_set(), true)
        } else if c == 119 {
            Re::Class(word_set(), false)
        } else if c == 87 {
            Re::Class(word_set(), true)
        } else if c == 115 {
            Re::Class(space_set(), false)
        } else if c == 83 {
            Re::Class(space_set(), true)
        } else if c == 110 {
            Re::Byte(10)
        } else if c == 116 {
            Re::Byte(9)
        } else if c == 114 {
            Re::Byte(13)
        } else {
            Re::Byte(c)
        };
        Ok((r, p + 1))
    }
}

/// The byte that an escape inside a class stands for, whose letter is at `p`.
pub open spec fn class_escape(s: Seq<u8>, p: int) -> Result<u8, Seq<char>> {
    if p < 0 || p >= s.len() {
        Err("bad escape"@)
    } else if s[p] == 110 {
        Ok(10)
    } else if s[p] == 116 {
        Ok(9)
    } else if s[p] == 114 {
        Ok(13)
    } else {
        Ok(s[p])
    }
}

/// One end of a class range at `p`: a byte, or an escape; and the position after it.
pub open spec fn class_byte(s: Seq<u8>, p: int) -> Result<(u8, int), Seq<char>> {
    if s[p] == 92 {
        match class_escape(s, p + 1) {
            Ok(x) => Ok((x, p + 2)),
            Err(m) => Err(m),
        }
    } else {
        Ok((s[p], p + 1))
    }
}

/// The rest of a class from `p`, after the set `bits`: the set and the position after
/// its `]`.
pub open spec fn class_items(s: Seq<u8>, p: int, bits: Seq<bool>) -> Result<(Seq<bool>, int), Seq<char>>
    decreases s.len() - p,
{
    if p < 0 || p >= s.len() {
        Err("unterminated class"@)
    } else if s[p] == 93 {
        Ok((bits, p + 1))
    } else {
        match class_byte(s, p) {
            Err(m) => Err(m),
            Ok((lo, p2)) => if at(s, p2, 45) && !at(s, p2 + 1, 93) {
                if p2 + 1 >= s.len() {
                    Err("bad range"@)
                } else {
                    match class_byte(s, p2 + 1) {
                        Err(m) => Err(m),
                        Ok((hi, p5)) => if p < p5 <= s.len() {
                            class_items(s, p5, range_add(bits, lo, hi))
                        } else {
                            Err("bad range"@)
                        },
                    }
                }
            } else if p < p2 <= s.len() {
                class_items(s, p2, range_add(bits, lo, lo))
            } else {
                Err("bad range"@)
            },
        }
    }
}

/// A class whose `[` is just before `p`.
pub open spec fn class(s: Seq<u8>, p: int) -> Result<(Re, int), Seq<char>> {
    let neg = at(s, p, 94);
    match class_items(s, if neg { p + 1 } else { p }, no_bytes()) {
        Ok((bits, q)) => Ok((Re::Class(bits, neg), q)),
        Err(m) => Err(m),
    }
}

/// The message for a byte that cannot start an atom.
pub open spec fn unexpected(c: u8) -> Seq<char> {
    "unexpected '"@ + seq![c as char] + "'"@
}

/// An atom at `p`, with `g` groups opened before it: the atom, the position after it,
/// and the groups opened so far. `fuel` bounds the nesting of groups.
pub open spec fn atom(s: Seq<u8>, p: int, g: nat, fuel: nat) -> Result<(Re, int, nat), Seq<char>>
    decreases fuel, 0int,
{
    if p < 0 || p >= s.len() {
        Err("unexpected end"@)
    } else {
        let c = s[p];
        if c == 40 {
            if fuel == 0 {
                Err("nesting too deep"@)
            } else {
                match alt(s, p + 1, g + 1, (fuel - 1) as nat) {
                    Ok((inner, q, g2)) => if at(s, q, 41) {
                        Ok((Re::Group(Box::new(inner), g + 1), q + 1, g2))
                    } else {
                        Err("expected )"@)
                    },
                    Err(m) => Err(m),
                }
            }
        } else if c == 91 {
            match class(s, p + 1) {
                Ok((r, q)) => Ok((r, q, g)),
                Err(m) => Err(m),
            }
        } else if c == 46 {
            Ok((Re::Any, p + 1, g))
        } else if c == 36 {
            Ok((Re::End, p + 1, g))
        } else if c == 92 {
            match escape(s, p + 1) {
                Ok((r, q)) => Ok((r, q, g)),
                Err(m) => Err(m),
            }
        } else if c == 41 || c == 124 || c == 42 || c == 43 || c == 63 || c == 94 {
            Err(unexpected(c))
        } else {
            Ok((Re::Byte(c), p + 1, g))
        }
    }
}

/// An atom at `p` and the `*`, `+` or `?` after it, if any.
pub open spec fn repeat(s: Seq<u8>, p: int, g: nat, fuel: nat) -> Result<(Re, int, nat), Seq<char>>
    decreases fuel, 1int,
{
    match atom(s, p, g, fuel) {
        Ok((a, q, g2)) => if at(s, q, 42) {
            Ok((Re::Star(Box::new(a)), q + 1, g2))
        } else if at(s, q, 43) {
            Ok((Re::Plus(Box::new(a)), q + 1, g2))
        } else if at(s, q, 63) {
            Ok((Re::Opt(Box::new(a)), q + 1, g2))
        } else {
            Ok((a, q, g2))
        },
        Err(m) => Err(m),
    }
}

/// The rest of a sequence from `p`, after the parts `parts`; it ends before `|`, `)`
/// or the end. One part stands alone; any other number makes a sequence.
pub open spec fn concat_rest(s: Seq<u8>, p: int, g: nat, parts: Seq<Re>, fuel: nat) -> Result<(Re, int, nat), Seq<char>>
    decreases fuel, s.len() - p + 2,
{
    if p < 0 || p > s.len() {
        Err("unexpected end"@)
    } else if p == s.len() || s[p] == 124 || s[p] == 41 {
        Ok((if parts.len() == 1 { parts[0] } else { Re::Concat(parts) }, p, g))
    } else {
        match repeat(s, p, g, fuel) {
            Ok((r, q, g2)) => if p < q <= s.len() {
                concat_rest(s, q, g2, parts.push(r), fuel)
            } else {
                Err("unexpected end"@)
            },
            Err(m) => Err(m),
        }
    }
}

/// The rest of an alternation from `p`, after the branches `alts`.
pub open spec fn alt_rest(s: Seq<u8>, p: int, g: nat, alts: Seq<Re>, fuel: nat) -> Result<(Re, int, nat), Seq<char>>
    decreases fuel, s.len() - p + 2,
{
    if p < 0 || p > s.len() {
        Err("unexpected end"@)
    } else if at(s, p, 124) {
        match concat_rest(s, p + 1, g, Seq::empty(), fuel) {
            Ok((c, q, g2)) => if p < q <= s.len() {
                alt_rest(s, q, g2, alts.push(c), fuel)
            } else {
                Err("unexpected end"@)
            },
            Err(m) => Err(m),
        }
    } else {
        Ok((if alts.len() == 1 { alts[0] } else { Re::Alt(alts) }, p, g))
    }
}

/// An alternation at `p`: sequences separated by `|`. One branch stands alone.
pub open spec fn alt(s: Seq<u8>, p: int, g: nat, fuel: nat) -> Result<(Re, int, nat), Seq<char>>
    decreases fuel, s.len() - p + 3,
{
    if p < 0 || p > s.len() {
        Err("unexpected end"@)
    } else {
        match concat_rest(s, p, g, Seq::empty(), fuel) {
            Ok((c, q, g2)) => if p <= q <= s.len() {
                alt_rest(s, q, g2, seq![c], fuel)
            } else {
                Err("unexpected end"@)
            },
            Err(m) => Err(m),
        }
    }
}

/// Whether every group in `r` has a number from 1 to `n`.
pub open spec fn groups_ok(r: Re, n: nat) -> bool
    decreases r, 0int,
{
    match r {
        Re::Concat(xs) => groups_ok_all(xs, xs.len() as int, n),
        Re::Alt(xs) => groups_ok_all(xs, xs.len() as int, n),
        Re::Star(x) => groups_ok(*x, n),
        Re::Plus(x) => groups_ok(*x, n),
        Re::Opt(x) => groups_ok(*x, n),
        Re::Group(x, i) => 1 <= i <= n && groups_ok(*x, n),
        _ => true,
    }
}

/// Whether every group in the first `k` parts has a number at most `n`.
pub open spec fn groups_ok_all(xs: Seq<Re>, k: int, n: nat) -> bool
    decreases xs, k,
{
    if k <= 0 || k > xs.len() {
        true
    } else {
        groups_ok_all(xs, k - 1, n) && groups_ok(xs[k - 1], n)
    }
}

/// The parts of a sequence or alternation keep the bound on group numbers.
pub(crate) proof fn lemma_groups_ok_parts(xs: Seq<Re>, k: int, n: nat)
    requires
        0 <= k <= xs.len(),
        groups_ok_all(xs, k, n),
    ensures
        forall|i: int| 0 <= i < k ==> groups_ok(#[trigger] xs[i], n),
    decreases k,
{
    if k > 0 {
        lemma_groups_ok_parts(xs, k - 1, n);
    }
}

/// Parts that each keep a bound keep it all together.
proof fn lemma_groups_ok_all(xs: Seq<Re>, k: int, n: nat)
    requires
        0 <= k <= xs.len(),
        forall|i: int| 0 <= i < k ==> groups_ok(#[trigger] xs[i], n),
    ensures
        groups_ok_all(xs, k, n),
    decreases k,
{
    if k > 0 {
        lemma_groups_ok_all(xs, k - 1, n);
    }
}

/// A bound on the group numbers holds of every larger bound.
proof fn lemma_groups_ok_mono(r: Re, n: nat, m: nat)
    requires
        groups_ok(r, n),
        n <= m,
    ensures
        groups_ok(r, m),
    decreases r,
{
    match r {
        Re::Concat(xs) => {
            lemma_groups_ok_parts(xs, xs.len() as int, n);
            assert forall|i: int| 0 <= i < xs.len() implies groups_ok(#[trigger] xs[i], m) by {
                lemma_groups_ok_mono(xs[i], n, m);
            }
            lemma_groups_ok_all(xs, xs.len() as int, m);
        },
        Re::Alt(xs) => {
            lemma_groups_ok_parts(xs, xs.len() as int, n);
            assert forall|i: int| 0 <= i < xs.len() implies groups_ok(#[trigger] xs[i], m) by {
                lemma_groups_ok_mono(xs[i], n, m);
            }
            lemma_groups_ok_all(xs, xs.len() as int, m);
        },
        Re::Star(x) => lemma_groups_ok_mono(*x, n, m),
        Re::Plus(x) => lemma_groups_ok_mono(*x, n, m),
        Re::Opt(x) => lemma_groups_ok_mono(*x, n, m),
        Re::Group(x, i) => lemma_groups_ok_mono(*x, n, m),
        _ => {},
    }
}

/// One of the fixed byte sets: none, the digits, the word bytes, the space bytes.
fn byte_set(kind: u8) -> (r: Vec<bool>)
    requires
        kind < 4,
    ensures
        kind == 0 ==> r@ == no_bytes(),
        kind == 1 ==> r@ == digit_set(),
        kind == 2 ==> r@ == word_set(),
        kind == 3 ==> r@ == space_set(),
{
    let mut r: Vec<bool> = Vec::new();
    let mut b: usize = 0;
    while b < 256
        invariant
            b <= 256,
            r@.len() == b,
            kind < 4,
            forall|x: int| 0 <= x < b ==> #[trigger] r@[x] == if kind == 0 {
                no_bytes()[x]
            } else if kind == 1 {
                digit_set()[x]
            } else if kind == 2 {
                word_set()[x]
            } else {
                space_set()[x]
            },
        decreases 256 - b,
    {
        let x = b;
        let v = if kind == 0 {
            false
        } else if kind == 1 {
            48 <= x && x <= 57
        } else if kind == 2 {
            (48 <= x && x <= 57) || (65 <= x && x <= 90) || x == 95 || (97 <= x && x <= 122)
        } else {
            (9 <= x && x <= 10) || x == 13 || x == 32
        };
        r.push(v);
        b = b + 1;
    }
    if kind == 0 {
        assert(r@ =~= no_bytes());
    } else if kind == 1 {
        assert(r@ =~= digit_set());
    } else if kind == 2 {
        assert(r@ =~= word_set());
    } else {
        assert(r@ =~= space_set());
    }
    r
}

/// Adds the bytes `lo..=hi` to the set `bits`.
fn add_range(bits: &mut Vec<bool>, lo: u8, hi: u8)
    requires
        old(bits)@.len() == 256,
    ensures
        final(bits)@ == range_add(old(bits)@, lo, hi),
{
    let mut b: u16 = lo as u16;
    while b <= hi as u16
        invariant
            bits@.len() == 256,
            lo <= b <= 256,
            forall|x: int| 0 <= x < 256 ==> #[trigger] bits@[x] == (old(bits)@[x] || (lo <= x < b && x <= hi)),
        decreases 256 - b,
    {
        bits.set(b as usize, true);
        b = b + 1;
    }
    assert(bits@ =~= range_add(old(bits)@, lo, hi));
}

/// A reader of a pattern: its bytes, the position, and the number of groups opened.
struct RParser<'a> {
    src: &'a [u8],
    pos: usize,
    groups: usize,
}

/// The result of a parsing step that gives a part of the pattern, against its model.
spec fn ast_res(r: Result<Ast, String>, m: Result<(Re, int, nat), Seq<char>>, pos: int, groups: int) -> bool {
    match m {
        Ok((x, q, g)) => r matches Ok(a) && re_of(a) == x && pos == q && groups == g,
        Err(e) => r matches Err(t) && t@ == e,
    }
}

impl<'a> RParser<'a> {
    spec fn wf(&self) -> bool {
        self.pos <= self.src@.len() < usize::MAX && self.groups <= self.pos
    }

    /// Reads one end of a class range (a byte, or an escape) at the position.
    fn class_byte(&mut self) -> (r: Result<u8, String>)
        requires
            old(self).wf(),
            old(self).pos < old(self).src@.len(),
        ensures
            final(self).wf(),
            final(self).src@ == old(self).src@,
            final(self).groups == old(self).groups,
            match class_byte(old(self).src@, old(self).pos as int) {
                Ok((x, q)) => r == Ok::<u8, String>(x) && final(self).pos == q,
                Err(m) => r matches Err(e) && e@ == m,
            },
    {
        let c = self.src[self.pos];
        self.pos = self.pos + 1;
        if c != 92 {
            return Ok(c);
        }
        if self.pos >= self.src.len() {
            return Err("bad escape".to_owned());
        }
        let x = self.src[self.pos];
        self.pos = self.pos + 1;
        if x == 110 {
            Ok(10)
        } else if x == 116 {
            Ok(9)
        } else if x == 114 {
            Ok(13)
        } else {
            Ok(x)
        }
    }

    /// Reads a class whose `[` is just before the position.
    fn parse_class(&mut self) -> (r: Result<Ast, String>)
        requires
            old(self).wf(),
        ensures
            final(self).wf(),
            final(self).src@ == old(self).src@,
            match class(old(self).src@, old(self).pos as int) {
                Ok((x, q)) => ast_res(r, Ok((x, q, old(self).groups as nat)), final(self).pos as int, final(self).groups as int),
                Err(m) => r matches Err(e) && e@ == m,
            },
            r is Ok ==> final(self).pos > old(self).pos,
            r matches Ok(a) ==> groups_ok(re_of(a), final(self).groups as nat),
            final(self).groups == old(self).groups,
    {
        let ghost s = self.src@;
        let neg = self.pos < self.src.len() && self.src[self.pos] == 94;
        if neg {
            self.pos = self.pos + 1;
        }
        let mut bits = byte_set(0);
        let ghost start = self.pos as int;
        loop
            invariant
                self.wf(),
                self.src@ == s,
                s == old(self).src@,
                self.groups == old(self).groups,
                bits@.len() == 256,
                self.pos >= start,
                start == if neg { old(self).pos + 1 } else { old(self).pos as int },
                neg == at(s, old(self).pos as int, 94),
                class_items(s, start, no_bytes()) == class_items(s, self.pos as int, bits@),
            decreases s.len() - self.pos,
        {
            if self.pos >= self.src.len() {
                return Err("unterminated class".to_owned());
            }
            let c = self.src[self.pos];
            if c == 93 {
                self.pos = self.pos + 1;
                return Ok(Ast::Class(bits, neg));
            }
            let ghost p = self.pos as int;
            let lo = match self.class_byte() {
                Ok(x) => x,
                Err(e) => return Err(e),
            };
            if self.pos < self.src.len() && self.src[self.pos] == 45 && !(self.pos + 1 < self.src.len()
                && self.src[self.pos + 1] == 93) {
                self.pos = self.pos + 1;
                if self.pos >= self.src.len() {
                    return Err("bad range".to_owned());
                }
                let hi = match self.class_byte() {
                    Ok(x) => x,
                    Err(e) => return Err(e),
                };
                add_range(&mut bits, lo, hi);
            } else {
                add_range(&mut bits, lo, lo);
            }
        }
    }

    /// Reads an escape whose letter is at the position.
    fn parse_escape(&mut self) -> (r: Result<Ast, String>)
        requires
            old(self).wf(),
        ensures
            final(self).wf(),
            final(self).src@ == old(self).src@,
            final(self).groups == old(self).groups,
            match escape(old(self).src@, old(self).pos as int) {
                Ok((x, q)) => r matches Ok(a) && re_of(a) == x && final(self).pos == q,
                Err(m) => r matches Err(e) && e@ == m,
            },
            r matches Ok(a) ==> groups_ok(re_of(a), final(self).groups as nat),
    {
        if self.pos >= self.src.len() {
            return Err("bad escape".to_owned());
        }
        let c = self.src[self.pos];
        self.pos = self.pos + 1;
        if c == 100 {
            Ok(Ast::Class(byte_set(1), false))
        } else if c == 68 {
            Ok(Ast::Class(byte_set(1), true))
        } else if c == 119 {
            Ok(Ast::Class(byte_set(2), false))
        } else if c == 87 {
            Ok(Ast::Class(byte_set(2), true))
        } else if c == 115 {
            Ok(Ast::Class(byte_set(3), false))
        } else if c == 83 {
            Ok(Ast::Class(byte_set(3), true))
        } else if c == 110 {
            Ok(Ast::Byte(10))
        } else if c == 116 {
            Ok(Ast::Byte(9))
        } else if c == 114 {
            Ok(Ast::Byte(13))
        } else {
            Ok(Ast::Byte(c))
        }
    }
}

impl<'a> RParser<'a> {
    fn parse_atom(&mut self, Ghost(fuel): Ghost<nat>) -> (r: Result<Ast, String>)
        requires
            old(self).wf(),
            fuel >= old(self).src@.len() - old(self).pos + 1,
        ensures
            final(self).wf(),
            final(self).src@ == old(self).src@,
            ast_res(r, atom(old(self).src@, old(self).pos as int, old(self).groups as nat, fuel), final(self).pos as int, final(self).groups as int),
            r is Ok ==> final(self).pos > old(self).pos,
            final(self).groups >= old(self).groups,
            r matches Ok(a) ==> groups_ok(re_of(a), final(self).groups as nat),
        decreases fuel, 0int,
    {
        if self.pos >= self.src.len() {
            return Err("unexpected end".to_owned());
        }
        let c = self.src[self.pos];
        self.pos = self.pos + 1;
        if c == 40 {
            self.groups = self.groups + 1;
            let idx = self.groups;
            let inner = match self.parse_alt(Ghost((fuel - 1) as nat)) {
                Ok(a) => a,
                Err(e) => return Err(e),
            };
            if !(self.pos < self.src.len() && self.src[self.pos] == 41) {
                return Err("expected )".to_owned());
            }
            self.pos = self.pos + 1;
            return Ok(Ast::Group(Box::new(inner), idx));
        }
        if c == 91 {
            return self.parse_class();
        }
        if c == 46 {
            return Ok(Ast::Any);
        }
        if c == 36 {
            return Ok(Ast::End);
        }
        if c == 92 {
            return self.parse_escape();
        }
        if c == 41 || c == 124 || c == 42 || c == 43 || c == 63 || c == 94 {
            let mut m = "unexpected '".to_owned();
            push_char(&mut m, c as char);
            push_str(&mut m, "'");
            assert(m@ =~= unexpected(c));
            return Err(m);
        }
        Ok(Ast::Byte(c))
    }

    fn parse_repeat(&mut self, Ghost(fuel): Ghost<nat>) -> (r: Result<Ast, String>)
        requires
            old(self).wf(),
            fuel >= old(self).src@.len() - old(self).pos + 1,
        ensures
            final(self).wf(),
            final(self).src@ == old(self).src@,
            ast_res(r, repeat(old(self).src@, old(self).pos as int, old(self).groups as nat, fuel), final(self).pos as int, final(self).groups as int),
            r is Ok ==> final(self).pos > old(self).pos,
            final(self).groups >= old(self).groups,
            r matches Ok(a) ==> groups_ok(re_of(a), final(self).groups as nat),
        decreases fuel, 1int,
    {
        let a = match self.parse_atom(Ghost(fuel)) {
            Ok(a) => a,
            Err(e) => return Err(e),
        };
        if self.pos < self.src.len() {
            let c = self.src[self.pos];
            if c == 42 {
                self.pos = self.pos + 1;
                return Ok(Ast::Star(Box::new(a)));
            }
            if c == 43 {
                self.pos = self.pos + 1;
                return Ok(Ast::Plus(Box::new(a)));
            }
            if c == 63 {
                self.pos = self.pos + 1;
                return Ok(Ast::Opt(Box::new(a)));
            }
        }
        Ok(a)
    }

    /// Reads a sequence: parts up to `|`, `)` or the end.
    fn parse_concat(&mut self, Ghost(fuel): Ghost<nat>) -> (r: Result<Ast, String>)
        requires
            old(self).wf(),
            fuel >= old(self).src@.len() - old(self).pos + 1,
        ensures
            final(self).wf(),
            final(self).src@ == old(self).src@,
            ast_res(r, concat_rest(old(self).src@, old(self).pos as int, old(self).groups as nat, Seq::empty(), fuel), final(self).pos as int, final(self).groups as int),
            r is Ok ==> final(self).pos >= old(self).pos,
            final(self).groups >= old(self).groups,
            r matches Ok(a) ==> groups_ok(re_of(a), final(self).groups as nat),
        decreases fuel, 2int,
    {
        let ghost s = self.src@;
        let mut parts: Vec<Ast> = Vec::new();
        assert(res_of(parts@) =~= Seq::<Re>::empty());
        loop
            invariant
                self.wf(),
                self.src@ == s,
                s == old(self).src@,
                concat_rest(s, old(self).pos as int, old(self).groups as nat, Seq::empty(), fuel) == concat_rest(
                    s,
                    self.pos as int,
                    self.groups as nat,
                    res_of(parts@),
                    fuel,
                ),
                fuel >= s.len() - self.pos + 1,
                self.pos >= old(self).pos,
                self.groups >= old(self).groups,
                forall|i: int| 0 <= i < parts@.len() ==> groups_ok(#[trigger] res_of(parts@)[i], self.groups as nat),
            decreases s.len() - self.pos,
        {
            if self.pos >= self.src.len() || self.src[self.pos] == 124 || self.src[self.pos] == 41 {
                if parts.len() == 1 {
                    let ghost ps = parts@;
                    let x = parts.pop();
                    return match x {
                        Some(a) => {
                            assert(re_of(a) == res_of(ps)[0]);
                            Ok(a)
                        },
                        None => Err("unexpected end".to_owned()),
                    };
                }
                proof {
                    lemma_concat_of(parts);
                    lemma_groups_ok_all(res_of(parts@), parts@.len() as int, self.groups as nat);
                }
                return Ok(Ast::Concat(parts));
            }
            let ghost g0 = self.groups;
            let r = match self.parse_repeat(Ghost(fuel)) {
                Ok(r) => r,
                Err(e) => return Err(e),
            };
            let ghost before = res_of(parts@);
            parts.push(r);
            assert(res_of(parts@) =~= before.push(re_of(r)));
            proof {
                assert forall|i: int| 0 <= i < parts@.len() implies groups_ok(#[trigger] res_of(parts@)[i], self.groups as nat) by {
                    if i < before.len() {
                        lemma_groups_ok_mono(before[i], g0 as nat, self.groups as nat);
                    }
                }
            }
        }
    }

    /// Reads an alternation: sequences separated by `|`.
    fn parse_alt(&mut self, Ghost(fuel): Ghost<nat>) -> (r: Result<Ast, String>)
        requires
            old(self).wf(),
            fuel >= old(self).src@.len() - old(self).pos + 1,
        ensures
            final(self).wf(),
            final(self).src@ == old(self).src@,
            ast_res(r, alt(old(self).src@, old(self).pos as int, old(self).groups as nat, fuel), final(self).pos as int, final(self).groups as int),
            r is Ok ==> final(self).pos >= old(self).pos,
            final(self).groups >= old(self).groups,
            r matches Ok(a) ==> groups_ok(re_of(a), final(self).groups as nat),
        decreases fuel, 3int,
    {
        let ghost s = self.src@;
        let first = match self.parse_concat(Ghost(fuel)) {
            Ok(c) => c,
            Err(e) => return Err(e),
        };
        let mut alts: Vec<Ast> = Vec::new();
        alts.push(first);
        assert(res_of(alts@) =~= seq![re_of(first)]);
        loop
            invariant
                self.wf(),
                self.src@ == s,
                s == old(self).src@,
                alt(s, old(self).pos as int, old(self).groups as nat, fuel) == alt_rest(
                    s,
                    self.pos as int,
                    self.groups as nat,
                    res_of(alts@),
                    fuel,
                ),
                fuel >= s.len() - self.pos + 1,
                self.pos >= old(self).pos,
                self.groups >= old(self).groups,
                forall|i: int| 0 <= i < alts@.len() ==> groups_ok(#[trigger] res_of(alts@)[i], self.groups as nat),
            decreases s.len() - self.pos,
        {
            if !(self.pos < self.src.len() && self.src[self.pos] == 124) {
                if alts.len() == 1 {
                    let ghost xs = alts@;
                    let x = alts.pop();
                    return match x {
                        Some(a) => {
                            assert(re_of(a) == res_of(xs)[0]);
                            Ok(a)
                        },
                        None => Err("unexpected end".to_owned()),
                    };
                }
                proof {
                    lemma_concat_of(alts);
                    lemma_groups_ok_all(res_of(alts@), alts@.len() as int, self.groups as nat);
                }
                return Ok(Ast::Alt(alts));
            }
            self.pos = self.pos + 1;
            let ghost g0 = self.groups;
            let c = match self.parse_concat(Ghost(fuel)) {
                Ok(c) => c,
                Err(e) => return Err(e),
            };
            let ghost before = res_of(alts@);
            alts.push(c);
            assert(res_of(alts@) =~= before.push(re_of(c)));
            proof {
                assert forall|i: int| 0 <= i < alts@.len() implies groups_ok(#[trigger] res_of(alts@)[i], self.groups as nat) by {
                    if i < before.len() {
                        lemma_groups_ok_mono(before[i], g0 as nat, self.groups as nat);
                    }
                }
            }
        }
    }
}

/// An instruction of a compiled pattern, as plain values.
pub enum PI {
    Byte(u8),
    Any,
    Class(Seq<bool>, bool),
    Match,
    Jmp(int),
    Split(int, int),
    Save(int),
    End,
}

/// An instruction of a compiled pattern: match a byte, any byte, or a byte of a set
/// (or not of it, where negated); report a match; jump; try two targets in order;
/// record the position in a slot; or require the end of the input.
enum Inst {
    Byte(u8),
    Any,
    Class(Vec<bool>, bool),
    Match,
    Jmp(usize),
    Split(usize, usize),
    Save(usize),
    End,
}

/// An instruction as plain values.
spec fn pi_of(i: Inst) -> PI {
    match i {
        Inst::Byte(b) => PI::Byte(b),
        Inst::Any => PI::Any,
        Inst::Class(bits, n) => PI::Class(bits@, n),
        Inst::Match => PI::Match,
        Inst::Jmp(t) => PI::Jmp(t as int),
        Inst::Split(a, b) => PI::Split(a as int, b as int),
        Inst::Save(k) => PI::Save(k as int),
        Inst::End => PI::End,
    }
}

/// A program as plain values.
spec fn prog_of(code: Seq<Inst>) -> Seq<PI> {
    code.map_values(|i: Inst| pi_of(i))
}

/// The instructions for `r`, placed at address `base`. A repetition or choice tries
/// its first target first: `*` and `?` prefer to take their part, `+` to repeat it.
pub open spec fn comp(r: Re, base: int) -> Seq<PI>
    decreases r, 0int,
{
    match r {
        Re::Byte(b) => seq![PI::Byte(b)],
        Re::Any => seq![PI::Any],
        Re::Class(bits, n) => seq![PI::Class(bits, n)],
        Re::End => seq![PI::End],
        Re::Concat(xs) => comp_seq(xs, xs.len() as int, base),
        Re::Alt(xs) => comp_alt(xs, 0, base),
        Re::Star(x) => {
            let body = comp(*x, base + 1);
            seq![PI::Split(base + 1, base + 2 + body.len())] + body + seq![PI::Jmp(base)]
        },
        Re::Plus(x) => {
            let body = comp(*x, base);
            body + seq![PI::Split(base, base + body.len() + 1)]
        },
        Re::Opt(x) => {
            let body = comp(*x, base + 1);
            seq![PI::Split(base + 1, base + 1 + body.len())] + body
        },
        Re::Group(x, i) => seq![PI::Save(2 * i as int)] + comp(*x, base + 1) + seq![PI::Save(2 * i as int + 1)],
    }
}

/// The instructions for the first `k` parts of a sequence, one after another, from `base`.
pub open spec fn comp_seq(xs: Seq<Re>, k: int, base: int) -> Seq<PI>
    decreases xs, k,
{
    if k <= 0 || k > xs.len() {
        Seq::empty()
    } else {
        let before = comp_seq(xs, k - 1, base);
        before + comp(xs[k - 1], base + before.len())
    }
}

/// The instructions for the branches `xs[i..]`, from `base`: each branch but the last
/// is a choice between it (then a jump to the end) and the later branches.
pub open spec fn comp_alt(xs: Seq<Re>, i: int, base: int) -> Seq<PI>
    decreases xs, xs.len() - i,
{
    if i < 0 || i >= xs.len() {
        Seq::empty()
    } else if i == xs.len() - 1 {
        comp(xs[i], base)
    } else {
        let a = comp(xs[i], base + 1);
        let rest_base = base + 2 + a.len();
        let rest = comp_alt(xs, i + 1, rest_base);
        seq![PI::Split(base + 1, rest_base)] + a + seq![PI::Jmp(rest_base + rest.len())] + rest
    }
}

/// Replacing the item after `p` in `p + [x] + q` by `y`.
proof fn lemma_patch(p: Seq<PI>, x: PI, q: Seq<PI>, y: PI)
    ensures
        (p + seq![x] + q).update(p.len() as int, y) == p + seq![y] + q,
{
    assert((p + seq![x] + q).update(p.len() as int, y) =~= p + seq![y] + q);
}

/// How many branches an alternation has, plus one; zero for anything else.
spec fn alt_width(a: Ast) -> int {
    match a {
        Ast::Alt(xs) => xs@.len() as int + 1,
        _ => 0,
    }
}

/// Appends the instructions for `a` to `code`.
#[verifier::spinoff_prover]
fn compile(a: &Ast, code: &mut Vec<Inst>, Ghost(n): Ghost<nat>)
    requires
        groups_ok(re_of(*a), n),
        2 * n + 1 < usize::MAX,
    ensures
        prog_of(final(code)@) == prog_of(old(code)@) + comp(re_of(*a), old(code)@.len() as int),
        final(code)@.len() >= old(code)@.len(),
    decreases a, alt_width(*a),
{
    let ghost start = prog_of(code@);
    let ghost base = code@.len() as int;
    match a {
        Ast::Byte(b) => {
            code.push(Inst::Byte(*b));
        },
        Ast::Any => {
            code.push(Inst::Any);
        },
        Ast::Class(bits, neg) => {
            let copy = copy_bits(bits);
            code.push(Inst::Class(copy, *neg));
        },
        Ast::End => {
            code.push(Inst::End);
        },
        Ast::Concat(xs) => {
            proof {
                lemma_concat_of(*xs);
            }
            let ghost rs = res_of(xs@);
            let mut i: usize = 0;
            while i < xs.len()
                invariant
                    *a == Ast::Concat(*xs),
                    i <= xs@.len(),
                    rs == res_of(xs@),
                    groups_ok(Re::Concat(rs), n),
                    2 * n + 1 < usize::MAX,
                    base == old(code)@.len(),
                    start == prog_of(old(code)@),
                    prog_of(code@) == start + comp_seq(rs, i as int, base),
                decreases xs@.len() - i,
            {
                assert(decreases_to!(*a => (*a)->Concat_0));
                assert((*a)->Concat_0 == *xs);
                assert(decreases_to!(*xs => xs@));
                assert(decreases_to!(xs@ => xs@[i as int]));
                assert(decreases_to!(*a => xs@[i as int]));
                assert(rs.len() == xs@.len());
                proof {
                    lemma_groups_ok_parts(rs, rs.len() as int, n);
                }
                assert(groups_ok(rs[i as int], n));
                compile(&xs[i], code, Ghost(n));
                assert(prog_of(code@) =~= start + comp_seq(rs, i + 1, base));
                i = i + 1;
            }
        },
        Ast::Alt(xs) => {
            proof {
                lemma_concat_of(*xs);
                let rs = res_of(xs@);
                lemma_groups_ok_parts(rs, rs.len() as int, n);
            }
            compile_alt(a, xs, 0, code, Ghost(n));
        },
        Ast::Star(x) => {
            let l1 = code.len();
            code.push(Inst::Split(0, 0));
            assert(prog_of(code@) =~= start + seq![PI::Split(0, 0)]);
            let l2 = code.len();
            compile(x, code, Ghost(n));
            let ghost body = comp(re_of(**x), base + 1);
            assert(prog_of(code@) =~= start + seq![PI::Split(0, 0)] + body);
            code.push(Inst::Jmp(l1));
            assert(prog_of(code@) =~= start + seq![PI::Split(0, 0)] + body + seq![PI::Jmp(base)]);
            let l3 = code.len();
            let ghost mid = prog_of(code@);
            code.set(l1, Inst::Split(l2, l3));
            assert(prog_of(code@) =~= mid.update(l1 as int, PI::Split(l2 as int, l3 as int)));
            assert(l2 == base + 1);
            assert(l3 == base + 2 + body.len());
            assert(re_of(*a) == Re::Star(Box::new(re_of(**x))));
            assert(comp(re_of(*a), base) == seq![PI::Split(base + 1, base + 2 + body.len())] + body + seq![PI::Jmp(base)]);
            proof {
                lemma_patch(start, PI::Split(0, 0), body + seq![PI::Jmp(base)], PI::Split(l2 as int, l3 as int));
            }
            assert(mid =~= start + seq![PI::Split(0, 0)] + (body + seq![PI::Jmp(base)]));
            assert(prog_of(code@) =~= start + seq![PI::Split(l2 as int, l3 as int)] + (body + seq![PI::Jmp(base)]));
            assert(prog_of(code@) =~= start + comp(re_of(*a), base));
        },
        Ast::Plus(x) => {
            let l1 = code.len();
            compile(x, code, Ghost(n));
            let ghost body = comp(re_of(**x), base);
            let split = code.len();
            code.push(Inst::Split(l1, 0));
            let l2 = code.len();
            let ghost mid = prog_of(code@);
            assert(mid =~= (start + body) + seq![PI::Split(l1 as int, 0)] + Seq::<PI>::empty());
            code.set(split, Inst::Split(l1, l2));
            proof {
                lemma_patch(start + body, PI::Split(l1 as int, 0), Seq::empty(), PI::Split(l1 as int, l2 as int));
            }
            assert(prog_of(code@) =~= mid.update(split as int, PI::Split(l1 as int, l2 as int)));
            assert(prog_of(code@) =~= start + comp(re_of(*a), base));
        },
        Ast::Opt(x) => {
            let split = code.len();
            code.push(Inst::Split(0, 0));
            assert(prog_of(code@) =~= start + seq![PI::Split(0, 0)]);
            let l1 = code.len();
            compile(x, code, Ghost(n));
            let ghost body = comp(re_of(**x), base + 1);
            assert(prog_of(code@) =~= start + seq![PI::Split(0, 0)] + body);
            let l2 = code.len();
            let ghost mid = prog_of(code@);
            code.set(split, Inst::Split(l1, l2));
            proof {
                lemma_patch(start, PI::Split(0, 0), body, PI::Split(l1 as int, l2 as int));
            }
            assert(prog_of(code@) =~= mid.update(split as int, PI::Split(l1 as int, l2 as int)));
            assert(prog_of(code@) =~= start + comp(re_of(*a), base));
        },
        Ast::Group(x, idx) => {
            code.push(Inst::Save(*idx * 2));
            assert(prog_of(code@) =~= start + seq![PI::Save(2 * *idx as int)]);
            compile(x, code, Ghost(n));
            let ghost body = comp(re_of(**x), base + 1);
            code.push(Inst::Save(*idx * 2 + 1));
            assert(prog_of(code@) =~= start + seq![PI::Save(2 * *idx as int)] + body + seq![PI::Save(2 * *idx as int + 1)]);
            assert(prog_of(code@) =~= start + comp(re_of(*a), base));
        },
    }
    assert(prog_of(code@) =~= start + comp(re_of(*a), base));
}

/// Appends the instructions for the branches `xs[i..]`.
fn compile_alt(a: &Ast, xs: &Vec<Ast>, i: usize, code: &mut Vec<Inst>, Ghost(n): Ghost<nat>)
    requires
        *a == Ast::Alt(*xs),
        forall|j: int| 0 <= j < xs@.len() ==> groups_ok(#[trigger] res_of(xs@)[j], n),
        2 * n + 1 < usize::MAX,
        i <= xs@.len(),
    ensures
        prog_of(final(code)@) == prog_of(old(code)@) + comp_alt(res_of(xs@), i as int, old(code)@.len() as int),
        final(code)@.len() >= old(code)@.len(),
    decreases a, xs@.len() - i,
{
    let ghost start = prog_of(code@);
    let ghost base = code@.len() as int;
    let ghost rs = res_of(xs@);
    if i >= xs.len() {
        assert(prog_of(code@) =~= start + comp_alt(rs, i as int, base));
        return;
    }
    assert(groups_ok(rs[i as int], n));
    assert(decreases_to!(*a => (*a)->Alt_0));
    assert((*a)->Alt_0 == *xs);
    assert(decreases_to!(*xs => xs@));
    assert(decreases_to!(xs@ => xs@[i as int]));
    assert(decreases_to!(*a => xs@[i as int]));
    if i == xs.len() - 1 {
        compile(&xs[i], code, Ghost(n));
        return;
    }
    let split = code.len();
    code.push(Inst::Split(0, 0));
    assert(prog_of(code@) =~= start + seq![PI::Split(0, 0)]);
    let l1 = code.len();
    compile(&xs[i], code, Ghost(n));
    let ghost body = comp(rs[i as int], base + 1);
    assert(prog_of(code@) =~= start + seq![PI::Split(0, 0)] + body);
    let jmp = code.len();
    code.push(Inst::Jmp(0));
    assert(prog_of(code@) =~= start + seq![PI::Split(0, 0)] + body + seq![PI::Jmp(0)]);
    let l2 = code.len();
    let ghost mid = prog_of(code@);
    code.set(split, Inst::Split(l1, l2));
    assert(prog_of(code@) =~= mid.update(split as int, PI::Split(l1 as int, l2 as int)));
    let ghost before_rest = prog_of(code@);
    compile_alt(a, xs, i + 1, code, Ghost(n));
    let ghost rest = comp_alt(rs, i + 1, l2 as int);
    assert(prog_of(code@) =~= start + seq![PI::Split(l1 as int, l2 as int)] + body + seq![PI::Jmp(0)] + rest);
    let end = code.len();
    let ghost mid2 = prog_of(code@);
    code.set(jmp, Inst::Jmp(end));
    assert(prog_of(code@) =~= mid2.update(jmp as int, PI::Jmp(end as int)));
    assert(prog_of(code@) =~= start + comp_alt(rs, i as int, base));
}

/// A copy of a byte set.
fn copy_bits(bits: &Vec<bool>) -> (r: Vec<bool>)
    ensures
        r@ == bits@,
{
    let mut r: Vec<bool> = Vec::new();
    let mut i: usize = 0;
    while i < bits.len()
        invariant
            i <= bits@.len(),
            r@ == bits@.take(i as int),
        decreases bits@.len() - i,
    {
        r.push(bits[i]);
        assert(r@ =~= bits@.take(i + 1));
        i = i + 1;
    }
    assert(bits@.take(bits@.len() as int) =~= bits@);
    r
}

/// The program for a parsed pattern: unless anchored, a lazy `.*?` loop first (try the
/// pattern, else skip a byte); then slot 0, the pattern, slot 1, and the match.
pub open spec fn program(r: Re, anchored: bool) -> Seq<PI> {
    let pre = if anchored {
        Seq::empty()
    } else {
        seq![PI::Split(3, 1), PI::Any, PI::Jmp(0)]
    };
    pre + seq![PI::Save(0)] + comp(r, pre.len() as int + 1) + seq![PI::Save(1), PI::Match]
}

/// The bytes that every match of the program from `i` must start with: the bytes of
/// its leading byte instructions, slots skipped.
pub open spec fn lit_prefix(code: Seq<PI>, i: int) -> Seq<u8>
    decreases code.len() - i,
{
    if i < 0 || i >= code.len() {
        Seq::empty()
    } else {
        match code[i] {
            PI::Save(_) => lit_prefix(code, i + 1),
            PI::Byte(b) => seq![b] + lit_prefix(code, i + 1),
            _ => Seq::empty(),
        }
    }
}

/// A thread of the matcher as plain values: its instruction and its slots.
pub type Thr = (int, Seq<Option<usize>>);

/// The threads after adding `t` at input position `pos` to `list`: jumps, choices
/// (first target first), slots and end checks are followed at once; an instruction
/// already reached at this position (`seen`) is not reached again. Every thread that
/// is added waits at a byte, set, any-byte or match instruction.
pub open spec fn add_thread(code: Seq<PI>, input: Seq<u8>, pos: int, list: Seq<Thr>, t: Thr, seen: Seq<bool>, fuel: nat) -> (Seq<Thr>, Seq<bool>)
    decreases fuel,
{
    let pc = t.0;
    if fuel == 0 || pc < 0 || pc >= code.len() || pc >= seen.len() || seen[pc] {
        (list, seen)
    } else {
        let seen1 = seen.update(pc, true);
        match code[pc] {
            PI::Jmp(target) => add_thread(code, input, pos, list, (target, t.1), seen1, (fuel - 1) as nat),
            PI::Split(a, b) => {
                let (l2, s2) = add_thread(code, input, pos, list, (a, t.1), seen1, (fuel - 1) as nat);
                add_thread(code, input, pos, l2, (b, t.1), s2, (fuel - 1) as nat)
            },
            PI::Save(k) => add_thread(
                code,
                input,
                pos,
                list,
                (
                    pc + 1,
                    if 0 <= k < t.1.len() {
                        t.1.update(k, Some(pos as usize))
                    } else {
                        t.1
                    },
                ),
                seen1,
                (fuel - 1) as nat,
            ),
            PI::End => if pos == input.len() {
                add_thread(code, input, pos, list, (pc + 1, t.1), seen1, (fuel - 1) as nat)
            } else {
                (list, seen1)
            },
            _ => (list.push(t), seen1),
        }
    }
}

/// Whether the thread at `pc` moves past the byte at `pos`.
pub open spec fn advances(code: Seq<PI>, input: Seq<u8>, pos: int, pc: int) -> bool {
    0 <= pc < code.len() && 0 <= pos < input.len() && match code[pc] {
        PI::Byte(b) => input[pos] == b,
        PI::Any => true,
        PI::Class(bits, neg) => (input[pos] < bits.len() && bits[input[pos] as int]) != neg,
        _ => false,
    }
}

/// One step of the matcher at `pos` over the threads `cur[i..]`, in order: each thread
/// that moves past the byte adds its next instruction at `pos + 1`; a thread at the
/// match instruction reports its slots and ends the step (threads after it are dropped).
pub open spec fn step_threads(code: Seq<PI>, input: Seq<u8>, pos: int, cur: Seq<Thr>, i: int, next: Seq<Thr>, seen: Seq<bool>, fuel: nat) -> (Seq<Thr>, Option<Seq<Option<usize>>>)
    decreases cur.len() - i,
{
    if i < 0 || i >= cur.len() {
        (next, None)
    } else {
        let t = cur[i];
        if 0 <= t.0 < code.len() && code[t.0] is Match {
            (next, Some(t.1))
        } else if advances(code, input, pos, t.0) {
            let (n2, s2) = add_thread(code, input, pos + 1, next, (t.0 + 1, t.1), seen, fuel);
            step_threads(code, input, pos, cur, i + 1, n2, s2, fuel)
        } else {
            step_threads(code, input, pos, cur, i + 1, next, seen, fuel)
        }
    }
}

/// No instruction reached yet.
pub open spec fn none_seen(n: int) -> Seq<bool> {
    Seq::new(n as nat, |i: int| false)
}

/// The matcher from `pos` with the threads `cur`, having found `matched` so far: the
/// slots of the last match found.
pub open spec fn run_threads(code: Seq<PI>, input: Seq<u8>, pos: int, cur: Seq<Thr>, matched: Option<Seq<Option<usize>>>) -> Option<Seq<Option<usize>>>
    decreases input.len() - pos,
{
    let fuel = (code.len() + 1) as nat;
    let (next, m) = step_threads(code, input, pos, cur, 0, Seq::empty(), none_seen(code.len() as int), fuel);
    let matched2 = match m {
        Some(x) => Some(x),
        None => matched,
    };
    if pos >= input.len() || next.len() == 0 {
        matched2
    } else {
        run_threads(code, input, pos + 1, next, matched2)
    }
}

/// The slots of the match that the program finds in `input` from `start`, with `n`
/// slots, all empty at first.
pub open spec fn run_program(code: Seq<PI>, n: nat, input: Seq<u8>, start: int) -> Option<Seq<Option<usize>>> {
    let fuel = (code.len() + 1) as nat;
    let (cur, _) = add_thread(code, input, start, Seq::empty(), (0, Seq::new(n, |i: int| None)), none_seen(code.len() as int), fuel);
    run_threads(code, input, start, cur, None)
}

/// The first position from `i` where `needle` occurs in `h`.
pub open spec fn occurs_from(h: Seq<u8>, needle: Seq<u8>, i: int) -> Option<int>
    decreases h.len() - i,
{
    if i < 0 || i + needle.len() > h.len() {
        None
    } else if h.subrange(i, i + needle.len()) == needle {
        Some(i)
    } else if i < h.len() {
        occurs_from(h, needle, i + 1)
    } else {
        None
    }
}

/// Where the matcher starts: at 0 where anchored or where the program has no literal
/// prefix; else at the first occurrence of the prefix (no match without one).
pub open spec fn start_at(code: Seq<PI>, anchored: bool, input: Seq<u8>) -> Option<int> {
    let prefix = lit_prefix(code, if anchored { 0 } else { 3 });
    if anchored || prefix.len() == 0 {
        Some(0)
    } else {
        occurs_from(input, prefix, 0)
    }
}

/// The slots of the leftmost-first match of the program in `input`: slot `2k` and
/// `2k + 1` hold where group `k` starts and ends, group 0 being the whole match.
pub open spec fn captures_of(code: Seq<PI>, n: nat, anchored: bool, input: Seq<u8>) -> Option<Seq<Option<usize>>> {
    match start_at(code, anchored, input) {
        None => None,
        Some(s) => run_program(code, n, input, s),
    }
}

/// How many entries of `s` are false.
pub open spec fn count_false(s: Seq<bool>) -> nat
    decreases s.len(),
{
    if s.len() == 0 {
        0
    } else {
        count_false(s.drop_last()) + if s.last() {
            0nat
        } else {
            1nat
        }
    }
}

/// Setting a false entry true takes one from the count.
pub(crate) proof fn lemma_count_mark(s: Seq<bool>, i: int)
    requires
        0 <= i < s.len(),
        !s[i],
    ensures
        count_false(s.update(i, true)) + 1 == count_false(s),
    decreases s.len(),
{
    let u = s.update(i, true);
    if i == s.len() - 1 {
        assert(u.drop_last() =~= s.drop_last());
    } else {
        assert(u.drop_last() =~= s.drop_last().update(i, true));
        lemma_count_mark(s.drop_last(), i);
    }
}

/// Where `t` is true wherever `s` is, it has no more false entries.
pub(crate) proof fn lemma_count_mono(s: Seq<bool>, t: Seq<bool>)
    requires
        s.len() == t.len(),
        forall|i: int| 0 <= i < s.len() && s[i] ==> t[i],
    ensures
        count_false(t) <= count_false(s),
    decreases s.len(),
{
    if s.len() > 0 {
        lemma_count_mono(s.drop_last(), t.drop_last());
    }
}

/// The count is at most the length.
pub(crate) proof fn lemma_count_len(s: Seq<bool>)
    ensures
        count_false(s) <= s.len(),
    decreases s.len(),
{
    if s.len() > 0 {
        lemma_count_len(s.drop_last());
    }
}

/// A thread of the matcher: its instruction and its slots.
struct Thread {
    pc: usize,
    saves: Vec<Option<usize>>,
}

spec fn thr(t: Thread) -> Thr {
    (t.pc as int, t.saves@)
}

spec fn thrs(v: Seq<Thread>) -> Seq<Thr> {
    v.map_values(|t: Thread| thr(t))
}

/// Slots as plain values.
pub open spec fn slots_view(r: Option<Vec<Option<usize>>>) -> Option<Seq<Option<usize>>> {
    match r {
        Some(v) => Some(v@),
        None => None,
    }
}

/// A copy of a thread's slots.
fn copy_saves(v: &Vec<Option<usize>>) -> (r: Vec<Option<usize>>)
    ensures
        r@ == v@,
{
    let mut r: Vec<Option<usize>> = Vec::new();
    let mut i: usize = 0;
    while i < v.len()
        invariant
            i <= v@.len(),
            r@ == v@.take(i as int),
        decreases v@.len() - i,
    {
        r.push(v[i]);
        assert(r@ =~= v@.take(i + 1));
        i = i + 1;
    }
    assert(v@.take(v@.len() as int) =~= v@);
    r
}

/// `n` entries, all `false`.
fn falses(n: usize) -> (r: Vec<bool>)
    ensures
        r@ == none_seen(n as int),
{
    let mut r: Vec<bool> = Vec::new();
    let mut i: usize = 0;
    while i < n
        invariant
            i <= n,
            r@ == none_seen(i as int),
        decreases n - i,
    {
        r.push(false);
        assert(r@ =~= none_seen(i + 1));
        i = i + 1;
    }
    r
}

/// `n` empty slots.
fn nones(n: usize) -> (r: Vec<Option<usize>>)
    ensures
        r@ == Seq::new(n as nat, |i: int| None::<usize>),
{
    let mut r: Vec<Option<usize>> = Vec::new();
    let mut i: usize = 0;
    while i < n
        invariant
            i <= n,
            r@ == Seq::new(i as nat, |j: int| None::<usize>),
        decreases n - i,
    {
        r.push(None);
        assert(r@ =~= Seq::new((i + 1) as nat, |j: int| None::<usize>));
        i = i + 1;
    }
    r
}

/// The first position where `needle` occurs in `h`.
fn find_bytes(h: &[u8], needle: &Vec<u8>) -> (r: Option<usize>)
    ensures
        match occurs_from(h@, needle@, 0) {
            Some(i) => r == Some(i as usize),
            None => r is None,
        },
{
    let n = needle.len();
    if n > h.len() {
        return None;
    }
    let mut i: usize = 0;
    while i <= h.len() - n
        invariant
            n == needle@.len(),
            n <= h@.len(),
            i <= h@.len() - n + 1,
            occurs_from(h@, needle@, 0) == occurs_from(h@, needle@, i as int),
        decreases h@.len() - i,
    {
        let mut j: usize = 0;
        while j < n && h[i + j] == needle[j]
            invariant
                j <= n,
                i + n <= h@.len(),
                h@.len() == h.len(),
                n == needle@.len(),
                forall|k: int| 0 <= k < j ==> h@[i + k] == needle@[k],
            decreases n - j,
        {
            j = j + 1;
        }
        if j == n {
            assert(h@.subrange(i as int, i + n) =~= needle@);
            return Some(i);
        }
        assert(h@.subrange(i as int, i + n)[j as int] != needle@[j as int]);
        i = i + 1;
    }
    None
}

/// The bytes of the leading byte instructions of `code` from `i`, slots skipped.
fn extract_prefix(code: &Vec<Inst>, i: usize) -> (r: Vec<u8>)
    ensures
        r@ == lit_prefix(prog_of(code@), i as int),
{
    let ghost p = prog_of(code@);
    let mut out: Vec<u8> = Vec::new();
    let mut k = i;
    loop
        invariant
            p == prog_of(code@),
            i <= k,
            lit_prefix(p, i as int) == out@ + lit_prefix(p, k as int),
        decreases code@.len() - k,
    {
        if k >= code.len() {
            assert(out@ + lit_prefix(p, k as int) =~= out@);
            return out;
        }
        match &code[k] {
            Inst::Save(_) => {},
            Inst::Byte(b) => {
                let ghost o = out@;
                out.push(*b);
                assert(o + lit_prefix(p, k as int) =~= out@ + lit_prefix(p, k + 1));
            },
            _ => {
                assert(out@ + lit_prefix(p, k as int) =~= out@);
                return out;
            },
        }
        k = k + 1;
    }
}

/// A compiled pattern: the program, the number of slots, whether it is anchored at
/// the start of the input, and the literal bytes that every match starts with.
pub struct Regex {
    code: Vec<Inst>,
    saves: usize,
    anchored: bool,
    prefix: Vec<u8>,
}

impl Regex {
    #[verifier::type_invariant]
    spec fn inv(&self) -> bool {
        &&& self.prefix@ == lit_prefix(prog_of(self.code@), if self.anchored { 0 } else { 3 })
        &&& prog_ok(prog_of(self.code@), self.anchored, self.saves as nat)
    }

    /// The program, as plain values.
    pub closed spec fn program(&self) -> Seq<PI> {
        prog_of(self.code@)
    }

    /// The number of slots: two for each group, group 0 included.
    pub closed spec fn slots(&self) -> nat {
        self.saves as nat
    }

    /// Whether the pattern is anchored at the start of the input.
    pub closed spec fn is_anchored(&self) -> bool {
        self.anchored
    }

    fn add(&self, list: &mut Vec<Thread>, t: Thread, pos: usize, input: &[u8], seen: &mut Vec<bool>, Ghost(fuel): Ghost<nat>)
        requires
            old(seen)@.len() == self.code@.len(),
            fuel > count_false(old(seen)@),
            pos <= input@.len(),
        ensures
            (thrs(final(list)@), final(seen)@) == add_thread(prog_of(self.code@), input@, pos as int, thrs(old(list)@), thr(t), old(seen)@, fuel),
            final(seen)@.len() == old(seen)@.len(),
            forall|i: int| 0 <= i < old(seen)@.len() && old(seen)@[i] ==> final(seen)@[i],
        decreases count_false(old(seen)@),
    {
        let pc = t.pc;
        if pc >= self.code.len() || seen[pc] {
            return;
        }
        let ghost s0 = seen@;
        seen.set(pc, true);
        proof {
            lemma_count_mark(s0, pc as int);
        }
        let ghost s1 = seen@;
        let ghost l0 = thrs(list@);
        match &self.code[pc] {
            Inst::Jmp(target) => {
                self.add(list, Thread { pc: *target, saves: t.saves }, pos, input, seen, Ghost((fuel - 1) as nat));
            },
            Inst::Split(a, b) => {
                let first = Thread { pc: *a, saves: copy_saves(&t.saves) };
                self.add(list, first, pos, input, seen, Ghost((fuel - 1) as nat));
                proof {
                    lemma_count_mono(s1, seen@);
                }
                self.add(list, Thread { pc: *b, saves: t.saves }, pos, input, seen, Ghost((fuel - 1) as nat));
            },
            Inst::Save(slot) => {
                let mut sv = t.saves;
                if *slot < sv.len() {
                    sv.set(*slot, Some(pos));
                }
                self.add(list, Thread { pc: pc + 1, saves: sv }, pos, input, seen, Ghost((fuel - 1) as nat));
            },
            Inst::End => {
                if pos == input.len() {
                    self.add(list, Thread { pc: pc + 1, saves: t.saves }, pos, input, seen, Ghost((fuel - 1) as nat));
                }
            },
            _ => {
                list.push(t);
                assert(thrs(list@) =~= l0.push(thr(t)));
            },
        }
    }

    /// Whether the thread at `pc` moves past the byte at `pos`.
    fn advances(&self, input: &[u8], pos: usize, pc: usize) -> (r: bool)
        ensures
            r == advances(prog_of(self.code@), input@, pos as int, pc as int),
    {
        if pc >= self.code.len() || pos >= input.len() {
            return false;
        }
        let x = input[pos];
        match &self.code[pc] {
            Inst::Byte(b) => x == *b,
            Inst::Any => true,
            Inst::Class(bits, neg) => ((x as usize) < bits.len() && bits[x as usize]) != *neg,
            _ => false,
        }
    }

    /// One step of the matcher at `pos` over the threads `cur`.
    fn step(&self, cur: &Vec<Thread>, pos: usize, input: &[u8]) -> (r: (Vec<Thread>, Option<Vec<Option<usize>>>))
        requires
            pos <= input@.len(),
        ensures
            (thrs(r.0@), slots_view(r.1)) == step_threads(
                prog_of(self.code@),
                input@,
                pos as int,
                thrs(cur@),
                0,
                Seq::empty(),
                none_seen(self.code@.len() as int),
                (self.code@.len() + 1) as nat,
            ),
    {
        let ghost code = prog_of(self.code@);
        let ghost fuel = (self.code@.len() + 1) as nat;
        let mut seen = falses(self.code.len());
        let mut next: Vec<Thread> = Vec::new();
        let ghost target = step_threads(code, input@, pos as int, thrs(cur@), 0, Seq::empty(), none_seen(self.code@.len() as int), fuel);
        assert(thrs(next@) =~= Seq::<Thr>::empty());
        proof {
            lemma_count_len(seen@);
        }
        let ilen = input.len();
        let mut i: usize = 0;
        while i < cur.len()
            invariant
                i <= cur@.len(),
                ilen == input@.len(),
                code == prog_of(self.code@),
                fuel == (self.code@.len() + 1) as nat,
                pos <= input@.len(),
                seen@.len() == self.code@.len(),
                count_false(seen@) <= self.code@.len(),
                target == step_threads(code, input@, pos as int, thrs(cur@), 0, Seq::empty(), none_seen(self.code@.len() as int), fuel),
                target == step_threads(code, input@, pos as int, thrs(cur@), i as int, thrs(next@), seen@, fuel),
            decreases cur@.len() - i,
        {
            let pc = cur[i].pc;
            if pc < self.code.len() {
                match &self.code[pc] {
                    Inst::Match => {
                        return (next, Some(copy_saves(&cur[i].saves)));
                    },
                    _ => {},
                }
            }
            if self.advances(input, pos, pc) {
                assert(pos < input@.len() && pc < self.code@.len());
                let t = Thread { pc: pc + 1, saves: copy_saves(&cur[i].saves) };
                let ghost s0 = seen@;
                self.add(&mut next, t, pos + 1, input, &mut seen, Ghost(fuel));
                proof {
                    lemma_count_mono(s0, seen@);
                }
            }
            i = i + 1;
        }
        (next, None)
    }

    /// The slots of the match that the program finds from `start`.
    fn exec(&self, input: &[u8], start: usize) -> (r: Option<Vec<Option<usize>>>)
        requires
            start <= input@.len(),
        ensures
            slots_view(r) == run_program(prog_of(self.code@), self.saves as nat, input@, start as int),
    {
        let ghost code = prog_of(self.code@);
        let mut seen = falses(self.code.len());
        let mut current: Vec<Thread> = Vec::new();
        let init = Thread { pc: 0, saves: nones(self.saves) };
        proof {
            lemma_count_len(seen@);
        }
        assert(thrs(current@) =~= Seq::<Thr>::empty());
        self.add(&mut current, init, start, input, &mut seen, Ghost((self.code@.len() + 1) as nat));
        let mut matched: Option<Vec<Option<usize>>> = None;
        let mut pos = start;
        loop
            invariant
                pos <= input@.len(),
                code == prog_of(self.code@),
                run_program(code, self.saves as nat, input@, start as int) == run_threads(code, input@, pos as int, thrs(current@), slots_view(matched)),
            decreases input@.len() - pos,
        {
            let (next, m) = self.step(&current, pos, input);
            match m {
                Some(x) => {
                    matched = Some(x);
                },
                None => {},
            }
            if pos >= input.len() || next.len() == 0 {
                return matched;
            }
            current = next;
            pos = pos + 1;
        }
    }
}

/// A pattern read as plain values: its program, number of slots and anchoring, or the
/// message. A `^` first anchors it; all of the rest must be read.
pub open spec fn spec_new(s: Seq<u8>) -> Result<(Seq<PI>, nat, bool), Seq<char>> {
    let anchored = at(s, 0, 94);
    let p0: int = if anchored { 1 } else { 0 };
    match alt(s, p0, 0, (s.len() + 1) as nat) {
        Ok((r, q, g)) => if q < s.len() {
            Err("trailing input at "@ + dec_digits(q as nat))
        } else {
            Ok((program(r, anchored), 2 * (g + 1), anchored))
        },
        Err(m) => Err(m),
    }
}

/// The pattern that `s` spells, with its number of groups, where it reads whole.
pub open spec fn parse_pattern(s: Seq<u8>) -> Option<(Re, nat)> {
    let p0: int = if at(s, 0, 94) { 1 } else { 0 };
    match alt(s, p0, 0, (s.len() + 1) as nat) {
        Ok((r, q, g)) => if q < s.len() {
            None
        } else {
            Some((r, g))
        },
        Err(_) => None,
    }
}

/// The span of the whole match, from its slots.
pub open spec fn span_of(c: Option<Seq<Option<usize>>>) -> Option<(usize, usize)> {
    match c {
        Some(s) => if s.len() >= 2 && s[0] is Some && s[1] is Some {
            Some((s[0]->Some_0, s[1]->Some_0))
        } else {
            None
        },
        None => None,
    }
}

impl Regex {
    /// Compiles a pattern: bytes, `.`, classes `[a-z]` and `[^a-z]`, escapes
    /// `\d \D \w \W \s \S \n \t \r`, groups, `|`, `*`, `+`, `?`, a leading `^` and `$`.
    pub fn new(pattern: &str) -> (r: Result<Regex, String>)
        requires
            pattern.spec_bytes().len() < usize::MAX / 4,
        ensures
            match spec_new(pattern.spec_bytes()) {
                Ok((prog, n, anchored)) => r matches Ok(re) && re.program() == prog && re.slots() == n
                    && re.is_anchored() == anchored,
                Err(m) => r matches Err(e) && e@ == m,
            },
            r is Ok ==> (parse_pattern(pattern.spec_bytes()) matches Some((x, g)) && groups_ok(x, g)
                && r->Ok_0.program() == program(x, at(pattern.spec_bytes(), 0, 94)) && r->Ok_0.slots() == 2 * (g
                + 1)),
    {
        let src = pattern.as_bytes();
        let ghost s = src@;
        let anchored = src.len() > 0 && src[0] == 94;
        let mut parser = RParser { src, pos: if anchored { 1 } else { 0 }, groups: 0 };
        let ast = match parser.parse_alt(Ghost((s.len() + 1) as nat)) {
            Ok(a) => a,
            Err(e) => return Err(e),
        };
        if parser.pos < src.len() {
            let mut m = "trailing input at ".to_owned();
            push_u64(&mut m, parser.pos as u64);
            return Err(m);
        }
        let mut code: Vec<Inst> = Vec::new();
        if !anchored {
            code.push(Inst::Split(3, 1));
            code.push(Inst::Any);
            code.push(Inst::Jmp(0));
        }
        let body_start = code.len();
        let ghost pre = prog_of(code@);
        assert(pre =~= if anchored { Seq::<PI>::empty() } else { seq![PI::Split(3, 1), PI::Any, PI::Jmp(0)] });
        code.push(Inst::Save(0));
        assert(prog_of(code@) =~= pre + seq![PI::Save(0)]);
        compile(&ast, &mut code, Ghost(parser.groups as nat));
        let ghost mid = prog_of(code@);
        code.push(Inst::Save(1));
        code.push(Inst::Match);
        assert(prog_of(code@) =~= mid + seq![PI::Save(1), PI::Match]);
        assert(prog_of(code@) =~= program(re_of(ast), anchored));
        proof {
            lemma_program_ok(re_of(ast), anchored, parser.groups as nat);
        }
        let prefix = extract_prefix(&code, body_start);
        Ok(Regex { code, saves: (parser.groups + 1) * 2, anchored, prefix })
    }

    /// Where the matcher starts in `input`, as `start_at` says.
    fn find_start(&self, input: &[u8]) -> (r: Option<usize>)
        ensures
            match start_at(self.program(), self.is_anchored(), input@) {
                Some(i) => r == Some(i as usize) && 0 <= i <= input@.len(),
                None => r is None,
            },
    {
        proof {
            use_type_invariant(self);
        }
        if self.anchored || self.prefix.len() == 0 {
            return Some(0);
        }
        let r = find_bytes(input, &self.prefix);
        proof {
            if r is Some {
                lemma_occurs_bound(input@, self.prefix@, 0);
            }
        }
        r
    }

    fn find_slow(&self, input: &[u8]) -> (r: Option<Vec<Option<usize>>>)
        ensures
            slots_view(r) == captures_of(self.program(), self.slots(), self.is_anchored(), input@),
    {
        proof {
            use_type_invariant(self);
        }
        let n = input.len();
        match self.find_start(input) {
            Some(start) => {
                assert(start as int <= n);
                self.exec(input, start)
            },
            None => None,
        }
    }

    /// Whether the pattern matches somewhere in `text`.
    pub fn is_match(&self, text: &str) -> (r: bool)
        ensures
            r == captures_of(self.program(), self.slots(), self.is_anchored(), text.spec_bytes()) is Some,
            r == span_of(captures_of(self.program(), self.slots(), self.is_anchored(), text.spec_bytes())) is Some,
    {
        let input = text.as_bytes();
        let _len = input.len();
        proof {
            use_type_invariant(self);
            lemma_match_span(self.program(), self.slots(), self.is_anchored(), input@);
        }
        self.find_slow(input).is_some()
    }

    /// The start and end of the leftmost-first match in `text`. Over the pattern as
    /// parsed (`parse_pattern`), `sound::lemma_find_spec` shows that the pattern
    /// matches the text between them, that no match of it starts earlier, and that
    /// there is none exactly where the pattern matches nowhere in the text.
    pub fn find(&self, text: &str) -> (r: Option<(usize, usize)>)
        ensures
            r == span_of(captures_of(self.program(), self.slots(), self.is_anchored(), text.spec_bytes())),
            r is Some == captures_of(self.program(), self.slots(), self.is_anchored(), text.spec_bytes()) is Some,
            r matches Some((a, b)) ==> a <= b <= text.spec_bytes().len(),
    {
        let input = text.as_bytes();
        let _len = input.len();
        proof {
            use_type_invariant(self);
            lemma_match_span(self.program(), self.slots(), self.is_anchored(), input@);
        }
        let caps = match self.find_slow(input) {
            Some(c) => c,
            None => return None,
        };
        if caps.len() < 2 {
            return None;
        }
        match (caps[0], caps[1]) {
            (Some(a), Some(b)) => Some((a, b)),
            _ => None,
        }
    }

    /// The slots of the leftmost-first match in `text`: slots `2k` and `2k + 1` hold where
    /// group `k` starts and ends (group 0 is the whole match; `None` for a group that
    /// took no part).
    pub fn captures(&self, text: &str) -> (r: Option<Vec<Option<usize>>>)
        ensures
            slots_view(r) == captures_of(self.program(), self.slots(), self.is_anchored(), text.spec_bytes()),
            r matches Some(v) ==> slots_ok(v@, self.slots(), text.spec_bytes().len() as int),
    {
        let input = text.as_bytes();
        let _len = input.len();
        proof {
            use_type_invariant(self);
            lemma_match_span(self.program(), self.slots(), self.is_anchored(), input@);
        }
        self.find_slow(input)
    }
}

/// An occurrence found lies within the input.
pub(crate) proof fn lemma_occurs_bound(h: Seq<u8>, needle: Seq<u8>, i: int)
    requires
        occurs_from(h, needle, i) is Some,
    ensures
        occurs_from(h, needle, i)->Some_0 + needle.len() <= h.len(),
        occurs_from(h, needle, i)->Some_0 >= i,
    decreases h.len() - i,
{
    if i >= 0 && i + needle.len() <= h.len() && h.subrange(i, i + needle.len()) != needle && i < h.len() {
        lemma_occurs_bound(h, needle, i + 1);
    }
}

/// Whether an instruction inside a pattern's body keeps to its place: jumps and choices
/// lead within `lo..=hi`, slots are those of groups (below `n`, not the whole match's),
/// and it is not the match instruction.
pub open spec fn inst_ok(i: PI, lo: int, hi: int, n: nat) -> bool {
    match i {
        PI::Jmp(t) => lo <= t <= hi,
        PI::Split(x, y) => lo <= x <= hi && lo <= y <= hi,
        PI::Save(k) => 2 <= k < n,
        PI::Match => false,
        _ => true,
    }
}

/// Whether every instruction of `c`, placed at `base`, keeps within `base..=base + c.len()`.
pub open spec fn block_ok(c: Seq<PI>, base: int, n: nat) -> bool {
    forall|k: int| 0 <= k < c.len() ==> inst_ok(#[trigger] c[k], base, base + c.len(), n)
}

/// A block that keeps within its place keeps within any wider one.
proof fn lemma_block_widen(c: Seq<PI>, base: int, n: nat, lo: int, hi: int)
    requires
        block_ok(c, base, n),
        lo <= base,
        base + c.len() <= hi,
    ensures
        forall|k: int| 0 <= k < c.len() ==> inst_ok(#[trigger] c[k], lo, hi, n),
{
}

/// The instructions for a pattern keep within their place.
pub(crate) proof fn lemma_comp_ok(r: Re, base: int, g: nat)
    requires
        groups_ok(r, g),
    ensures
        block_ok(comp(r, base), base, 2 * (g + 1)),
    decreases r, 0int,
{
    let n = 2 * (g + 1);
    match r {
        Re::Concat(xs) => {
            lemma_groups_ok_parts(xs, xs.len() as int, g);
            lemma_comp_seq_ok(xs, xs.len() as int, base, g);
        },
        Re::Alt(xs) => {
            lemma_groups_ok_parts(xs, xs.len() as int, g);
            lemma_comp_alt_ok(xs, 0, base, g);
        },
        Re::Star(x) => {
            lemma_comp_ok(*x, base + 1, g);
            let body = comp(*x, base + 1);
            let c = comp(r, base);
            lemma_block_widen(body, base + 1, n, base, base + c.len());
            assert forall|k: int| 0 <= k < c.len() implies inst_ok(#[trigger] c[k], base, base + c.len(), n) by {
                if 1 <= k < 1 + body.len() {
                    assert(c[k] == body[k - 1]);
                }
            }
        },
        Re::Plus(x) => {
            lemma_comp_ok(*x, base, g);
            let body = comp(*x, base);
            let c = comp(r, base);
            lemma_block_widen(body, base, n, base, base + c.len());
            assert forall|k: int| 0 <= k < c.len() implies inst_ok(#[trigger] c[k], base, base + c.len(), n) by {
                if k < body.len() {
                    assert(c[k] == body[k]);
                }
            }
        },
        Re::Opt(x) => {
            lemma_comp_ok(*x, base + 1, g);
            let body = comp(*x, base + 1);
            let c = comp(r, base);
            lemma_block_widen(body, base + 1, n, base, base + c.len());
            assert forall|k: int| 0 <= k < c.len() implies inst_ok(#[trigger] c[k], base, base + c.len(), n) by {
                if 1 <= k {
                    assert(c[k] == body[k - 1]);
                }
            }
        },
        Re::Group(x, i) => {
            lemma_comp_ok(*x, base + 1, g);
            let body = comp(*x, base + 1);
            let c = comp(r, base);
            lemma_block_widen(body, base + 1, n, base, base + c.len());
            assert forall|k: int| 0 <= k < c.len() implies inst_ok(#[trigger] c[k], base, base + c.len(), n) by {
                if 1 <= k < 1 + body.len() {
                    assert(c[k] == body[k - 1]);
                }
            }
        },
        _ => {},
    }
}

/// The instructions for the first `k` parts of a sequence keep within their place.
pub(crate) proof fn lemma_comp_seq_ok(xs: Seq<Re>, k: int, base: int, g: nat)
    requires
        forall|i: int| 0 <= i < xs.len() ==> groups_ok(#[trigger] xs[i], g),
    ensures
        block_ok(comp_seq(xs, k, base), base, 2 * (g + 1)),
    decreases xs, k,
{
    let n = 2 * (g + 1);
    if 0 < k <= xs.len() {
        lemma_comp_seq_ok(xs, k - 1, base, g);
        let before = comp_seq(xs, k - 1, base);
        let last = comp(xs[k - 1], base + before.len());
        lemma_comp_ok(xs[k - 1], base + before.len(), g);
        let c = comp_seq(xs, k, base);
        lemma_block_widen(before, base, n, base, base + c.len());
        lemma_block_widen(last, base + before.len(), n, base, base + c.len());
        assert forall|j: int| 0 <= j < c.len() implies inst_ok(#[trigger] c[j], base, base + c.len(), n) by {
            if j < before.len() {
                assert(c[j] == before[j]);
            } else {
                assert(c[j] == last[j - before.len()]);
            }
        }
    }
}

/// The instructions for the branches `xs[i..]` keep within their place.
pub(crate) proof fn lemma_comp_alt_ok(xs: Seq<Re>, i: int, base: int, g: nat)
    requires
        forall|j: int| 0 <= j < xs.len() ==> groups_ok(#[trigger] xs[j], g),
    ensures
        block_ok(comp_alt(xs, i, base), base, 2 * (g + 1)),
    decreases xs, xs.len() - i,
{
    let n = 2 * (g + 1);
    if 0 <= i < xs.len() {
        if i == xs.len() - 1 {
            lemma_comp_ok(xs[i], base, g);
        } else {
            let a = comp(xs[i], base + 1);
            let rest_base = base + 2 + a.len();
            let rest = comp_alt(xs, i + 1, rest_base);
            lemma_comp_ok(xs[i], base + 1, g);
            lemma_comp_alt_ok(xs, i + 1, rest_base, g);
            let c = comp_alt(xs, i, base);
            lemma_block_widen(a, base + 1, n, base, base + c.len());
            lemma_block_widen(rest, rest_base, n, base, base + c.len());
            assert forall|j: int| 0 <= j < c.len() implies inst_ok(#[trigger] c[j], base, base + c.len(), n) by {
                if 1 <= j < 1 + a.len() {
                    assert(c[j] == a[j - 1]);
                } else if j >= 2 + a.len() {
                    assert(c[j] == rest[j - 2 - a.len()]);
                }
            }
        }
    }
}

/// Whether a program has the shape a pattern compiles to, with `n` slots: unless
/// anchored, the `.*?` loop; then slot 0 at the body's start, a body whose instructions
/// keep within it, slot 1, and the match instruction last.
pub open spec fn prog_ok(code: Seq<PI>, anchored: bool, n: nat) -> bool {
    let b: int = if anchored { 0 } else { 3 };
    let l = code.len() as int;
    &&& l >= b + 3
    &&& n >= 2
    &&& !anchored ==> code[0] == PI::Split(3, 1) && code[1] == PI::Any && code[2] == PI::Jmp(0)
    &&& code[b] == PI::Save(0)
    &&& code[l - 2] == PI::Save(1)
    &&& code[l - 1] == PI::Match
    &&& forall|k: int| b < k < l - 2 ==> inst_ok(#[trigger] code[k], b + 1, l - 2, n)
}

/// A compiled pattern has that shape.
pub(crate) proof fn lemma_program_ok(r: Re, anchored: bool, g: nat)
    requires
        groups_ok(r, g),
    ensures
        prog_ok(program(r, anchored), anchored, 2 * (g + 1)),
{
    let b: int = if anchored { 0 } else { 3 };
    let body = comp(r, b + 1);
    lemma_comp_ok(r, b + 1, g);
    let code = program(r, anchored);
    assert forall|k: int| b < k < code.len() - 2 implies inst_ok(#[trigger] code[k], b + 1, code.len() - 2, 2 * (g + 1)) by {
        assert(code[k] == body[k - b - 1]);
    }
}

/// Whether a thread at input position `pos` is consistent with the program's shape: it
/// has `n` slots; inside the body, slot 0 holds where the match started; at the match
/// instruction, slots 0 and 1 hold its start and end.
pub open spec fn thr_ok(code: Seq<PI>, anchored: bool, n: nat, t: Thr, pos: int) -> bool {
    let b: int = if anchored { 0 } else { 3 };
    let l = code.len() as int;
    &&& t.1.len() == n
    &&& 0 <= t.0 < l
    &&& (b < t.0 <= l - 2 ==> t.1[0] is Some && t.1[0]->Some_0 <= pos)
    &&& (t.0 == l - 1 ==> t.1[0] is Some && t.1[1] is Some && t.1[0]->Some_0 <= t.1[1]->Some_0 <= pos)
}

/// Whether every thread of `list` is consistent at `pos`.
pub open spec fn list_ok(code: Seq<PI>, anchored: bool, n: nat, list: Seq<Thr>, pos: int) -> bool {
    forall|i: int| 0 <= i < list.len() ==> thr_ok(code, anchored, n, #[trigger] list[i], pos)
}

/// Whether match slots report a whole match within `len`: `n` slots, slot 0 its start
/// and slot 1 its end, start at most end at most `len`.
pub open spec fn slots_ok(s: Seq<Option<usize>>, n: nat, len: int) -> bool {
    &&& s.len() == n
    &&& s.len() >= 2
    &&& s[0] is Some
    &&& s[1] is Some
    &&& s[0]->Some_0 <= s[1]->Some_0 <= len
}

/// Following a consistent thread keeps a consistent list consistent.
pub(crate) proof fn lemma_add_ok(code: Seq<PI>, anchored: bool, n: nat, input: Seq<u8>, pos: int, list: Seq<Thr>, t: Thr, seen: Seq<bool>, fuel: nat)
    requires
        prog_ok(code, anchored, n),
        list_ok(code, anchored, n, list, pos),
        thr_ok(code, anchored, n, t, pos),
        0 <= pos <= input.len(),
        input.len() <= usize::MAX,
    ensures
        list_ok(code, anchored, n, add_thread(code, input, pos, list, t, seen, fuel).0, pos),
    decreases fuel,
{
    let pc = t.0;
    let b: int = if anchored { 0 } else { 3 };
    let l = code.len() as int;
    if !(fuel == 0 || pc < 0 || pc >= code.len() || pc >= seen.len() || seen[pc]) {
        let seen1 = seen.update(pc, true);
        let f1 = (fuel - 1) as nat;
        if b < pc < l - 2 {
            assert(inst_ok(code[pc], b + 1, l - 2, n));
        }
        match code[pc] {
            PI::Jmp(target) => {
                lemma_add_ok(code, anchored, n, input, pos, list, (target, t.1), seen1, f1);
            },
            PI::Split(x, y) => {
                lemma_add_ok(code, anchored, n, input, pos, list, (x, t.1), seen1, f1);
                let (l2, s2) = add_thread(code, input, pos, list, (x, t.1), seen1, f1);
                lemma_add_ok(code, anchored, n, input, pos, l2, (y, t.1), s2, f1);
            },
            PI::Save(k) => {
                let sv = if 0 <= k < t.1.len() {
                    t.1.update(k, Some(pos as usize))
                } else {
                    t.1
                };
                lemma_add_ok(code, anchored, n, input, pos, list, (pc + 1, sv), seen1, f1);
            },
            PI::End => {
                if pos == input.len() {
                    lemma_add_ok(code, anchored, n, input, pos, list, (pc + 1, t.1), seen1, f1);
                }
            },
            _ => {
                let r = list.push(t);
                assert forall|i: int| 0 <= i < r.len() implies thr_ok(code, anchored, n, #[trigger] r[i], pos) by {
                    if i < list.len() {
                        assert(r[i] == list[i]);
                    }
                }
            },
        }
    }
}

/// A step over consistent threads gives consistent threads for the next position, and
/// any match it reports is whole and ends by `pos`.
pub(crate) proof fn lemma_step_ok(code: Seq<PI>, anchored: bool, n: nat, input: Seq<u8>, pos: int, cur: Seq<Thr>, i: int, next: Seq<Thr>, seen: Seq<bool>, fuel: nat)
    requires
        prog_ok(code, anchored, n),
        list_ok(code, anchored, n, cur, pos),
        list_ok(code, anchored, n, next, pos + 1),
        0 <= pos <= input.len(),
        input.len() <= usize::MAX,
    ensures
        list_ok(code, anchored, n, step_threads(code, input, pos, cur, i, next, seen, fuel).0, pos + 1),
        step_threads(code, input, pos, cur, i, next, seen, fuel).1 matches Some(s) ==> slots_ok(s, n, pos),
    decreases cur.len() - i,
{
    let b: int = if anchored { 0 } else { 3 };
    let l = code.len() as int;
    if 0 <= i < cur.len() {
        let t = cur[i];
        assert(thr_ok(code, anchored, n, t, pos));
        if b < t.0 < l - 2 {
            assert(inst_ok(code[t.0], b + 1, l - 2, n));
        }
        if 0 <= t.0 < code.len() && code[t.0] is Match {
        } else if advances(code, input, pos, t.0) {
            let t2 = (t.0 + 1, t.1);
            assert(thr_ok(code, anchored, n, t2, pos + 1));
            lemma_add_ok(code, anchored, n, input, pos + 1, next, t2, seen, fuel);
            let (n2, s2) = add_thread(code, input, pos + 1, next, t2, seen, fuel);
            lemma_step_ok(code, anchored, n, input, pos, cur, i + 1, n2, s2, fuel);
        } else {
            lemma_step_ok(code, anchored, n, input, pos, cur, i + 1, next, seen, fuel);
        }
    }
}

/// Running consistent threads reports only whole matches within the input.
proof fn lemma_run_ok(code: Seq<PI>, anchored: bool, n: nat, input: Seq<u8>, pos: int, cur: Seq<Thr>, matched: Option<Seq<Option<usize>>>)
    requires
        prog_ok(code, anchored, n),
        list_ok(code, anchored, n, cur, pos),
        matched matches Some(s) ==> slots_ok(s, n, input.len() as int),
        0 <= pos <= input.len(),
        input.len() <= usize::MAX,
    ensures
        run_threads(code, input, pos, cur, matched) matches Some(s) ==> slots_ok(s, n, input.len() as int),
    decreases input.len() - pos,
{
    let fuel = (code.len() + 1) as nat;
    lemma_step_ok(code, anchored, n, input, pos, cur, 0, Seq::empty(), none_seen(code.len() as int), fuel);
    let (next, m) = step_threads(code, input, pos, cur, 0, Seq::empty(), none_seen(code.len() as int), fuel);
    let matched2 = match m {
        Some(x) => Some(x),
        None => matched,
    };
    if !(pos >= input.len() || next.len() == 0) {
        lemma_run_ok(code, anchored, n, input, pos + 1, next, matched2);
    }
}

/// A match that a well-shaped program reports in `input` is a whole match: there are
/// `n` slots, slot 0 holds where it starts and slot 1 where it ends, and
/// `start <= end <= input.len()`.
pub proof fn lemma_match_span(code: Seq<PI>, n: nat, anchored: bool, input: Seq<u8>)
    requires
        prog_ok(code, anchored, n),
        input.len() <= usize::MAX,
    ensures
        captures_of(code, n, anchored, input) matches Some(s) ==> slots_ok(s, n, input.len() as int),
{
    if let Some(start) = start_at(code, anchored, input) {
        let prefix = lit_prefix(code, if anchored { 0 } else { 3 });
        if !(anchored || prefix.len() == 0) {
            lemma_occurs_bound(input, prefix, 0);
        }
        let fuel = (code.len() + 1) as nat;
        let t0: Thr = (0, Seq::new(n, |i: int| None));
        lemma_add_ok(code, anchored, n, input, start, Seq::empty(), t0, none_seen(code.len() as int), fuel);
        let (cur, _) = add_thread(code, input, start, Seq::empty(), t0, none_seen(code.len() as int), fuel);
        lemma_run_ok(code, anchored, n, input, start, cur, None);
    }
}

} // verus!
