use vstd::prelude::*;
use crate::semver::{Version, Op, ComparatorModel, comparator_matches, pre_order, spec_take_op};
use crate::text::ws_end;
use std::cmp::Ordering;

verus! {

/// Whether the version numbers `a` come before `b`, major first, then minor, then patch.
pub open spec fn triple_lt(a: (int, int, int), b: (int, int, int)) -> bool {
    a.0 < b.0 || (a.0 == b.0 && (a.1 < b.1 || (a.1 == b.1 && a.2 < b.2)))
}

/// The numbers of a version.
pub open spec fn numbers(v: Version) -> (int, int, int) {
    (v.major as int, v.minor as int, v.patch as int)
}

/// The lowest version numbers a comparator names: missing parts are 0.
pub open spec fn lower(c: ComparatorModel) -> (int, int, int) {
    (
        c.1 as int,
        match c.2 {
            Some(m) => m as int,
            None => 0,
        },
        match c.3 {
            Some(p) => p as int,
            None => 0,
        },
    )
}

/// The first version numbers that `^` no longer allows: the next change of the
/// left-most non-zero part that the comparator gives (`^1.2.3` up to `2.0.0`,
/// `^0.2.3` up to `0.3.0`, `^0.0.3` up to `0.0.4`, `^0.0` up to `0.1.0`, `^0` up to
/// `1.0.0`).
pub open spec fn caret_upper(c: ComparatorModel) -> (int, int, int) {
    if c.1 > 0 {
        (c.1 + 1, 0, 0)
    } else {
        match c.2 {
            None => (1, 0, 0),
            Some(m) => if m > 0 {
                (0, m + 1, 0)
            } else {
                match c.3 {
                    None => (0, 1, 0),
                    Some(p) => (0, 0, p + 1),
                }
            },
        }
    }
}

/// The first version numbers that `~` no longer allows: the next minor where the
/// comparator gives a minor (`~1.2.3` and `~1.2` up to `1.3.0`), else the next major.
pub open spec fn tilde_upper(c: ComparatorModel) -> (int, int, int) {
    match c.2 {
        Some(m) => (c.1 as int, m + 1, 0),
        None => (c.1 + 1, 0, 0),
    }
}

/// Whether the pre-release of `v` is not below that of the comparator.
pub open spec fn pre_not_below(c: ComparatorModel, v: Version) -> bool {
    pre_order(v.pre@, c.4) != Ordering::Less
}

/// Whether a comparator gives its parts in order: a patch only with a minor.
pub open spec fn parts_ok(c: ComparatorModel) -> bool {
    c.3 is Some ==> c.2 is Some
}

/// `^` matches exactly the versions from the comparator's version up to the next
/// breaking change: where the versions' numbers differ from the comparator's (or it
/// gives no patch), `v` matches if and only if its numbers are at least the
/// comparator's and below `caret_upper`; with the same numbers as a full comparator,
/// if and only if its pre-release is not below the comparator's.
pub proof fn lemma_caret_range(c: ComparatorModel, v: Version)
    requires
        c.0 == Op::Caret,
        parts_ok(c),
    ensures
        (c.3 is None || numbers(v) != lower(c)) ==> (comparator_matches(c, v) <==> !triple_lt(numbers(v), lower(c))
            && triple_lt(numbers(v), caret_upper(c))),
        (c.3 is Some && numbers(v) == lower(c)) ==> (comparator_matches(c, v) <==> pre_not_below(c, v)),
{
}

/// `~` matches exactly the versions from the comparator's version up to the next
/// minor (or major, where it gives no minor): as `lemma_caret_range`, with
/// `tilde_upper`.
pub proof fn lemma_tilde_range(c: ComparatorModel, v: Version)
    requires
        c.0 == Op::Tilde,
        parts_ok(c),
    ensures
        (c.3 is None || numbers(v) != lower(c)) ==> (comparator_matches(c, v) <==> !triple_lt(numbers(v), lower(c))
            && triple_lt(numbers(v), tilde_upper(c))),
        (c.3 is Some && numbers(v) == lower(c)) ==> (comparator_matches(c, v) <==> pre_not_below(c, v)),
{
}


/// The first version numbers past those the comparator gives: the next patch where
/// it gives a patch, else the next minor where it gives a minor, else the next major.
pub open spec fn given_upper(c: ComparatorModel) -> (int, int, int) {
    match c.3 {
        Some(p) => (c.1 as int, match c.2 {
            Some(m) => m as int,
            None => 0,
        }, p + 1),
        None => match c.2 {
            Some(m) => (c.1 as int, m + 1, 0),
            None => (c.1 + 1, 0, 0),
        },
    }
}

/// Whether the pre-release of `v` comes after that of the comparator.
pub open spec fn pre_above(c: ComparatorModel, v: Version) -> bool {
    pre_order(v.pre@, c.4) == Ordering::Greater
}

/// `=` matches exactly the versions whose numbers agree with every part the comparator
/// gives (from its version up to `given_upper`) and whose pre-release is the
/// comparator's.
pub proof fn lemma_exact_range(c: ComparatorModel, v: Version)
    requires
        c.0 == Op::Exact,
        parts_ok(c),
    ensures
        comparator_matches(c, v) <==> !triple_lt(numbers(v), lower(c)) && triple_lt(numbers(v), given_upper(c))
            && v.pre@ == c.4,
{
}

/// `>` matches exactly the versions past the comparator's: for a partial comparator,
/// those from `given_upper` on; for a full one, those with greater numbers, or the
/// same numbers and a later pre-release.
pub proof fn lemma_greater_range(c: ComparatorModel, v: Version)
    requires
        c.0 == Op::Greater,
        parts_ok(c),
    ensures
        c.3 is None ==> (comparator_matches(c, v) <==> !triple_lt(numbers(v), given_upper(c))),
        c.3 is Some ==> (comparator_matches(c, v) <==> triple_lt(lower(c), numbers(v)) || (numbers(v) == lower(c)
            && pre_above(c, v))),
{
}

/// `*` matches exactly the versions whose numbers agree with the parts the comparator
/// gives.
pub proof fn lemma_wildcard_range(c: ComparatorModel, v: Version)
    requires
        c.0 == Op::Wildcard,
        c.3 is None,
    ensures
        comparator_matches(c, v) <==> !triple_lt(numbers(v), lower(c)) && triple_lt(numbers(v), given_upper(c)),
{
}


/// `>=`, `<` and `<=` against a full comparator: `>=` matches the versions with greater
/// numbers, or the same numbers and the same or a later pre-release; `<` exactly the
/// others; `<=` those that `>` does not match.
pub proof fn lemma_full_order_ops(c: ComparatorModel, v: Version)
    requires
        c.2 is Some,
        c.3 is Some,
    ensures
        c.0 == Op::GreaterEq ==> (comparator_matches(c, v) <==> triple_lt(lower(c), numbers(v)) || (numbers(v)
            == lower(c) && (v.pre@ == c.4 || pre_above(c, v)))),
        c.0 == Op::Less ==> (comparator_matches(c, v) <==> triple_lt(numbers(v), lower(c)) || (numbers(v) == lower(c)
            && v.pre@ != c.4 && !pre_above(c, v))),
        c.0 == Op::LessEq ==> (comparator_matches(c, v) <==> triple_lt(numbers(v), lower(c)) || (numbers(v) == lower(c)
            && !pre_above(c, v))),
{
}

/// `>=`, `<` and `<=` against a partial comparator: `>=` matches the versions from its
/// version on (those whose numbers agree with its parts only with its pre-release),
/// `<` exactly the others, `<=` those below `given_upper`.
pub proof fn lemma_partial_order_ops(c: ComparatorModel, v: Version)
    requires
        c.3 is None,
    ensures
        c.0 == Op::GreaterEq ==> (comparator_matches(c, v) <==> !triple_lt(numbers(v), given_upper(c)) || (
        !triple_lt(numbers(v), lower(c)) && v.pre@ == c.4)),
        c.0 == Op::Less ==> (comparator_matches(c, v) <==> triple_lt(numbers(v), given_upper(c)) && (triple_lt(
            numbers(v),
            lower(c),
        ) || v.pre@ != c.4)),
        c.0 == Op::LessEq ==> (comparator_matches(c, v) <==> triple_lt(numbers(v), given_upper(c))),
{
}


/// A comparator with no operator is a caret one: where the text after white space
/// starts with a digit, the operator read is `^` and nothing of the text is taken; a
/// written `^` is taken as `^` too.
pub proof fn lemma_default_caret(t: Seq<char>, i: int)
    requires
        0 <= i <= t.len(),
    ensures
        (ws_end(t, i) < t.len() && '0' <= t[ws_end(t, i)] <= '9') ==> spec_take_op(t, i) == (Op::Caret, ws_end(t, i)),
        (ws_end(t, i) < t.len() && t[ws_end(t, i)] == '^') ==> spec_take_op(t, i) == (Op::Caret, ws_end(t, i) + 1),
{
    lemma_ws_end_from(t, i);
}

/// Skipping white space never goes back.
proof fn lemma_ws_end_from(t: Seq<char>, i: int)
    requires
        0 <= i <= t.len(),
    ensures
        i <= ws_end(t, i) <= t.len(),
    decreases t.len() - i,
{
    if i < t.len() {
        lemma_ws_end_from(t, i + 1);
    }
}

} // verus!
