use vstd::prelude::*;
use crate::rand::{ChaCha20Rng, draw_u64, draws_u64, max_draws, zone_u64};

verus! {

/// `<[T]>::swap` exchanges the items at `a` and `b`; it panics when either index is
/// out of bounds, so both are required to be in bounds.
pub assume_specification<A>[ <[A]>::swap ](s: &mut [A], a: usize, b: usize)
    requires
        a < old(s)@.len(),
        b < old(s)@.len(),
    ensures
        final(s)@ == old(s)@.update(a as int, old(s)@[b as int]).update(b as int, old(s)@[a as int]),
;

/// Word positions wrap modulo 2^68.
pub open spec fn wrap_pos(p: int) -> int {
    p % 0x10_0000_0000_0000_0000
}

/// How many 64-bit draws a range sample over `0..span` takes from position `p`.
pub open spec fn pick_draws(k: Seq<u32>, p: int, span: int) -> nat {
    draws_u64(k, p, zone_u64(span), max_draws())
}

/// The value in `0..span` that a range sample from position `p` gives.
#[verifier::opaque]
pub open spec fn pick_value(k: Seq<u32>, p: int, span: int) -> int {
    (draw_u64(k, wrap_pos(p + 2 * (pick_draws(k, p, span) - 1))) as int) % span
}

/// The position after a range sample over `0..span` from position `p`.
#[verifier::opaque]
pub open spec fn pick_next(k: Seq<u32>, p: int, span: int) -> int {
    wrap_pos(p + 2 * pick_draws(k, p, span))
}

/// `s` with the items at `i` and `j` exchanged.
pub open spec fn swapped<T>(s: Seq<T>, i: int, j: int) -> Seq<T> {
    s.update(i, s[j]).update(j, s[i])
}

/// The Fisher-Yates shuffle of the first `i` items of `s`, from the back, with the
/// key stream `k` read from position `p`: the items and the final position.
pub open spec fn shuffled<T>(k: Seq<u32>, p: int, s: Seq<T>, i: nat) -> (Seq<T>, int)
    decreases i,
{
    if i <= 1 {
        (s, p)
    } else {
        let j = pick_value(k, p, i as int);
        shuffled(k, pick_next(k, p, i as int), swapped(s, i - 1, j), (i - 1) as nat)
    }
}

/// The partial Fisher-Yates shuffle of `s` from index `i` up to `end`: each step
/// swaps item `i` with one drawn from `i..len`.
#[verifier::opaque]
pub open spec fn partially_shuffled<T>(k: Seq<u32>, p: int, s: Seq<T>, i: nat, end: nat) -> (Seq<T>, int)
    decreases end - i,
{
    if i >= end || i >= s.len() {
        (s, p)
    } else {
        let j = i + pick_value(k, p, s.len() - i);
        partially_shuffled(k, pick_next(k, p, s.len() - i), swapped(s, i as int, j), i + 1, end)
    }
}

proof fn lemma_partial_step<T>(k: Seq<u32>, p: int, s: Seq<T>, i: nat, end: nat)
    requires
        i < end,
        i < s.len(),
    ensures
        partially_shuffled(k, p, s, i, end) == partially_shuffled(
            k,
            pick_next(k, p, s.len() - i),
            swapped(s, i as int, i + pick_value(k, p, s.len() - i)),
            i + 1,
            end,
        ),
{
    reveal(partially_shuffled);
}

proof fn lemma_partial_done<T>(k: Seq<u32>, p: int, s: Seq<T>, i: nat, end: nat)
    requires
        i >= end || i >= s.len(),
    ensures
        partially_shuffled(k, p, s, i, end) == (s, p),
{
    reveal(partially_shuffled);
}

/// Exchanging two items keeps the multiset of items.
pub proof fn lemma_swapped_multiset<T>(s: Seq<T>, i: int, j: int)
    requires
        0 <= i < s.len(),
        0 <= j < s.len(),
    ensures
        swapped(s, i, j).to_multiset() == s.to_multiset(),
        swapped(s, i, j).len() == s.len(),
{
    broadcast use vstd::seq_lib::group_to_multiset_ensures;
    broadcast use vstd::multiset::group_multiset_axioms;
    let a = s[i];
    let b = s[j];
    let s1 = s.update(i, b);
    assert(s1 =~= s.remove(i).insert(i, b));
    vstd::seq_lib::to_multiset_remove(s, i);
    vstd::seq_lib::to_multiset_insert(s.remove(i), i, b);
    let s2 = s1.update(j, a);
    assert(s2 =~= s1.remove(j).insert(j, a));
    vstd::seq_lib::to_multiset_remove(s1, j);
    vstd::seq_lib::to_multiset_insert(s1.remove(j), j, a);
    assert(s2.to_multiset() =~= s.to_multiset());
}

/// A value drawn uniformly from `0..span`.
fn draw_index(rng: &mut ChaCha20Rng, span: usize) -> (r: usize)
    requires
        old(rng).wf(),
        span > 0,
    ensures
        final(rng).wf(),
        final(rng)@.0 == old(rng)@.0,
        final(rng)@.1 == pick_next(old(rng)@.0, old(rng)@.1, span as int),
        r == pick_value(old(rng)@.0, old(rng)@.1, span as int),
        r < span,
{
    proof {
        reveal(pick_value);
        reveal(pick_next);
    }
    let d = rng.gen_range_u64(0, span as u64);
    d as usize
}

/// A range sample over a non-empty span lands in it.
pub proof fn lemma_pick_value_bound(k: Seq<u32>, p: int, span: int)
    requires
        span > 0,
    ensures
        0 <= pick_value(k, p, span) < span,
{
    reveal(pick_value);
}

/// A shuffle rearranges the items: it keeps their multiset and the length.
pub proof fn lemma_shuffled_multiset<T>(k: Seq<u32>, p: int, s: Seq<T>, i: nat)
    requires
        i <= s.len(),
    ensures
        shuffled(k, p, s, i).0.to_multiset() == s.to_multiset(),
        shuffled(k, p, s, i).0.len() == s.len(),
    decreases i,
{
    if i > 1 {
        let j = pick_value(k, p, i as int);
        lemma_pick_value_bound(k, p, i as int);
        lemma_swapped_multiset(s, i - 1, j);
        lemma_shuffled_multiset(k, pick_next(k, p, i as int), swapped(s, i - 1, j), (i - 1) as nat);
    }
}

/// A partial shuffle rearranges the items: it keeps their multiset and the length.
pub proof fn lemma_partially_shuffled_multiset<T>(k: Seq<u32>, p: int, s: Seq<T>, i: nat, end: nat)
    ensures
        partially_shuffled(k, p, s, i, end).0.to_multiset() == s.to_multiset(),
        partially_shuffled(k, p, s, i, end).0.len() == s.len(),
    decreases end - i,
{
    if i >= end || i >= s.len() {
        lemma_partial_done(k, p, s, i, end);
    } else {
        let j = i + pick_value(k, p, s.len() - i);
        lemma_pick_value_bound(k, p, s.len() - i);
        lemma_swapped_multiset(s, i as int, j);
        lemma_partial_step(k, p, s, i, end);
        lemma_partially_shuffled_multiset(k, pick_next(k, p, s.len() - i), swapped(s, i as int, j), i + 1, end);
    }
}

/// Exchanges item `i` with one drawn from `i..len`.
fn swap_with_later<T>(s: &mut [T], rng: &mut ChaCha20Rng, i: usize)
    requires
        old(rng).wf(),
        i < old(s)@.len(),
    ensures
        final(rng).wf(),
        final(rng)@.0 == old(rng)@.0,
        final(rng)@.1 == pick_next(old(rng)@.0, old(rng)@.1, old(s)@.len() - i),
        0 <= pick_value(old(rng)@.0, old(rng)@.1, old(s)@.len() - i) < old(s)@.len() - i,
        final(s)@ == swapped(old(s)@, i as int, i + pick_value(old(rng)@.0, old(rng)@.1, old(s)@.len() - i)),
{
    let len = s.len();
    let d = draw_index(rng, len - i);
    s.swap(i, i + d);
}

/// Exchanges item `i` with one drawn from `0..=i`.
fn swap_with_earlier<T>(s: &mut [T], rng: &mut ChaCha20Rng, i: usize)
    requires
        old(rng).wf(),
        i < old(s)@.len(),
    ensures
        final(rng).wf(),
        final(rng)@.0 == old(rng)@.0,
        final(rng)@.1 == pick_next(old(rng)@.0, old(rng)@.1, i + 1),
        0 <= pick_value(old(rng)@.0, old(rng)@.1, i + 1) <= i,
        final(s)@ == swapped(old(s)@, i as int, pick_value(old(rng)@.0, old(rng)@.1, i + 1)),
{
    assert(i < s.len());
    let j = draw_index(rng, i + 1);
    s.swap(i, j);
}

/// Random operations on a slice, drawing from a ChaCha generator.
pub trait SliceRandom {
    /// The type of the items.
    type Item;

    /// Shuffles the slice in place.
    fn shuffle(&mut self, rng: &mut ChaCha20Rng)
        requires
            old(rng).wf(),
    ;

    /// Shuffles the first `amount` places of the slice (all of it where it is
    /// shorter) with items drawn from the whole slice.
    fn partial_shuffle(&mut self, rng: &mut ChaCha20Rng, amount: usize)
        requires
            old(rng).wf(),
    ;

    /// An item drawn uniformly from the slice, or `None` where it is empty.
    fn choose_item(&self, rng: &mut ChaCha20Rng) -> Option<&Self::Item>
        requires
            old(rng).wf(),
    ;

    /// A place drawn uniformly from the slice, to write through, or `None` where it
    /// is empty.
    fn choose_mut(&mut self, rng: &mut ChaCha20Rng) -> Option<&mut Self::Item>
        requires
            old(rng).wf(),
    ;
}

impl<T> SliceRandom for [T] {
    type Item = T;

    fn shuffle(&mut self, rng: &mut ChaCha20Rng)
        ensures
            final(rng).wf(),
            final(rng)@.0 == old(rng)@.0,
            (final(self)@, final(rng)@.1) == shuffled(old(rng)@.0, old(rng)@.1, old(self)@, old(self)@.len()),
    {
        let ghost k = rng@.0;
        let ghost p0 = rng@.1;
        let ghost s0 = self@;
        let mut i = self.len();
        while i > 1
            invariant
                rng.wf(),
                rng@.0 == k,
                i <= self@.len(),
                self@.len() == s0.len(),
                shuffled(k, p0, s0, s0.len()) == shuffled(k, rng@.1, self@, i as nat),
            decreases i,
        {
            i -= 1;
            let ghost p = rng@.1;
            let ghost s = self@;
            swap_with_earlier(self, rng, i);
            assert(shuffled(k, p, s, (i + 1) as nat) == shuffled(k, rng@.1, self@, i as nat));
        }
    }

    fn partial_shuffle(&mut self, rng: &mut ChaCha20Rng, amount: usize)
        ensures
            final(rng).wf(),
            final(rng)@.0 == old(rng)@.0,
            (final(self)@, final(rng)@.1) == partially_shuffled(old(rng)@.0, old(rng)@.1, old(self)@, 0, amount as nat),
    {
        let ghost k = rng@.0;
        let ghost p0 = rng@.1;
        let ghost s0 = self@;
        let len = self.len();
        let end = if amount < len { amount } else { len };
        let mut i: usize = 0;
        while i < end
            invariant
                rng.wf(),
                rng@.0 == k,
                i <= end,
                end <= len,
                end <= amount,
                end == amount || end == len,
                len == self@.len(),
                self@.len() == s0.len(),
                partially_shuffled(k, p0, s0, 0, amount as nat) == partially_shuffled(k, rng@.1, self@, i as nat, amount as nat),
            decreases end - i,
        {
            let ghost p = rng@.1;
            let ghost s = self@;
            swap_with_later(self, rng, i);
            proof {
                lemma_partial_step(k, p, s, i as nat, amount as nat);
            }
            i += 1;
        }
        proof {
            lemma_partial_done(k, rng@.1, self@, i as nat, amount as nat);
        }
    }

    fn choose_item(&self, rng: &mut ChaCha20Rng) -> (r: Option<&T>)
        ensures
            self@.len() == 0 ==> r.is_none() && *final(rng) == *old(rng),
            self@.len() > 0 ==> {
                &&& final(rng).wf()
                &&& final(rng)@.0 == old(rng)@.0
                &&& final(rng)@.1 == pick_next(old(rng)@.0, old(rng)@.1, self@.len() as int)
                &&& r == Some(&self@[pick_value(old(rng)@.0, old(rng)@.1, self@.len() as int)])
            },
    {
        if self.len() == 0 {
            return None;
        }
        let i = draw_index(rng, self.len());
        Some(&self[i])
    }

    fn choose_mut(&mut self, rng: &mut ChaCha20Rng) -> (r: Option<&mut T>)
        ensures
            old(self)@.len() == 0 ==> r.is_none() && *final(rng) == *old(rng) && final(self)@ == old(self)@,
            old(self)@.len() > 0 ==> {
                let i = pick_value(old(rng)@.0, old(rng)@.1, old(self)@.len() as int);
                &&& final(rng).wf()
                &&& final(rng)@.0 == old(rng)@.0
                &&& final(rng)@.1 == pick_next(old(rng)@.0, old(rng)@.1, old(self)@.len() as int)
                &&& r matches Some(e) && *e == old(self)@[i] && final(self)@ == old(self)@.update(i, *final(e))
            },
    {
        if self.len() == 0 {
            return None;
        }
        let i = draw_index(rng, self.len());
        Some(&mut self[i])
    }
}

} // verus!
