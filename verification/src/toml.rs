use vstd::prelude::*;
use crate::text::{lex_lt, push_char, push_str, push_u64, str_lt};

mod tree;
mod de;
mod ser;
pub mod roundtrip;

pub use de::from_str;
pub use ser::to_string;

verus! {

/// A parse error: its message, and the line and column (both from 1) where it arose.
#[derive(Debug, Clone)]
pub struct Error {
    pub line: usize,
    pub col: usize,
    pub msg: String,
}

/// A TOML value. A table holds its entries sorted by key, each key once. A float holds
/// its text: as read (underscores taken out), or as it is to be written.
#[derive(Debug)]
pub enum Value {
    String(String),
    Integer(i64),
    Float(String),
    Boolean(bool),
    Datetime(String),
    Array(Vec<Value>),
    Table(Vec<(String, Value)>),
}

/// A TOML value as plain values.
pub enum Toml {
    Str(Seq<char>),
    Int(i64),
    Float(Seq<char>),
    Bool(bool),
    Datetime(Seq<char>),
    Arr(Seq<Toml>),
    Tab(Seq<(Seq<char>, Toml)>),
}

/// The entries of a table, as plain values.
pub type Entries = Seq<(Seq<char>, Toml)>;

/// A value as plain values.
pub open spec fn toml_of(v: Value) -> Toml
    decreases v,
{
    match v {
        Value::String(s) => Toml::Str(s@),
        Value::Integer(n) => Toml::Int(n),
        Value::Float(s) => Toml::Float(s@),
        Value::Boolean(b) => Toml::Bool(b),
        Value::Datetime(s) => Toml::Datetime(s@),
        Value::Array(a) => Toml::Arr(
            Seq::new(
                a@.len(),
                |i: int|
                    if 0 <= i < a@.len() {
                        toml_of(a@[i])
                    } else {
                        Toml::Bool(false)
                    },
            ),
        ),
        Value::Table(t) => Toml::Tab(
            Seq::new(
                t@.len(),
                |i: int|
                    if 0 <= i < t@.len() {
                        (t@[i].0@, toml_of(t@[i].1))
                    } else {
                        (Seq::empty(), Toml::Bool(false))
                    },
            ),
        ),
    }
}

/// The entries of a table as plain values.
pub open spec fn entries(t: Seq<(String, Value)>) -> Entries {
    t.map_values(|kv: (String, Value)| (kv.0@, toml_of(kv.1)))
}

/// The items of an array as plain values.
pub open spec fn items(a: Seq<Value>) -> Seq<Toml> {
    a.map_values(|v: Value| toml_of(v))
}

/// A table value as plain values: its entries as plain values.
pub proof fn lemma_toml_table(t: Vec<(String, Value)>)
    ensures
        toml_of(Value::Table(t)) == Toml::Tab(entries(t@)),
{
    assert(toml_of(Value::Table(t))->Tab_0 =~= entries(t@));
}

/// An array value as plain values: its items as plain values.
pub proof fn lemma_toml_array(a: Vec<Value>)
    ensures
        toml_of(Value::Array(a)) == Toml::Arr(items(a@)),
{
    assert(toml_of(Value::Array(a))->Arr_0 =~= items(a@));
}

/// The strings of `v` as plain values.
pub open spec fn strs(v: Seq<String>) -> Seq<Seq<char>> {
    v.map_values(|s: String| s@)
}

/// The position of the first entry with key `k`; the length where there is none.
pub open spec fn key_pos<V>(t: Seq<(Seq<char>, V)>, k: Seq<char>) -> int
    decreases t.len(),
{
    if t.len() == 0 {
        0
    } else if t[0].0 == k {
        0
    } else {
        1 + key_pos(t.drop_first(), k)
    }
}

/// The entries `t`, sorted by key, with `(k, v)` put in its place: `k` replaces an
/// entry with the same key, or goes before the first greater key.
pub open spec fn tab_insert<V>(t: Seq<(Seq<char>, V)>, k: Seq<char>, v: V) -> Seq<(Seq<char>, V)>
    decreases t.len(),
{
    if t.len() == 0 {
        seq![(k, v)]
    } else if t[0].0 == k {
        seq![(k, v)] + t.drop_first()
    } else if lex_lt(k, t[0].0) {
        seq![(k, v)] + t
    } else {
        seq![t[0]] + tab_insert(t.drop_first(), k, v)
    }
}

/// Whether the keys of `t` are strictly increasing.
pub open spec fn sorted_keys<V>(t: Seq<(Seq<char>, V)>) -> bool {
    forall|i: int, j: int| 0 <= i < j < t.len() ==> lex_lt(#[trigger] t[i].0, #[trigger] t[j].0)
}

/// `key_pos` is the first position with the key, or the length.
pub proof fn lemma_key_pos<V>(t: Seq<(Seq<char>, V)>, k: Seq<char>, i: int)
    requires
        0 <= i <= t.len(),
        forall|j: int| 0 <= j < i ==> #[trigger] t[j].0 != k,
        i < t.len() ==> t[i].0 == k,
    ensures
        key_pos(t, k) == i,
    decreases i,
{
    if i > 0 {
        assert(t[0].0 != k);
        lemma_key_pos(t.drop_first(), k, i - 1);
    }
}

/// `key_pos` lies within the table; where it is short of the length, the entry there
/// has the key, and none before it does.
pub proof fn lemma_key_pos_bound<V>(t: Seq<(Seq<char>, V)>, k: Seq<char>)
    ensures
        0 <= key_pos(t, k) <= t.len(),
        key_pos(t, k) < t.len() ==> t[key_pos(t, k)].0 == k,
        forall|j: int| 0 <= j < key_pos(t, k) ==> #[trigger] t[j].0 != k,
    decreases t.len(),
{
    if t.len() > 0 && t[0].0 != k {
        lemma_key_pos_bound(t.drop_first(), k);
        assert forall|j: int| 0 <= j < key_pos(t, k) implies #[trigger] t[j].0 != k by {
            if j > 0 {
                assert(t[j] == t.drop_first()[j - 1]);
            }
        }
    }
}

/// Inserting a key absent from `t` puts it before the first entry that is not less.
proof fn lemma_tab_insert_at<V>(t: Seq<(Seq<char>, V)>, k: Seq<char>, v: V, i: int)
    requires
        0 <= i <= t.len(),
        forall|j: int| 0 <= j < i ==> lex_lt(#[trigger] t[j].0, k),
        i < t.len() ==> !lex_lt(t[i].0, k),
    ensures
        tab_insert(t, k, v) == if i < t.len() && t[i].0 == k {
            t.take(i) + seq![(k, v)] + t.skip(i + 1)
        } else {
            t.take(i) + seq![(k, v)] + t.skip(i)
        },
    decreases i,
{
    if i == 0 {
        if t.len() > 0 {
            crate::json::lemma_lex_total(t[0].0, k);
            assert(t.skip(1) =~= t.drop_first());
            assert(t.skip(0) =~= t);
        }
        assert(t.take(0) =~= Seq::<(Seq<char>, V)>::empty());
    } else {
        crate::json::lemma_lex_irrefl(k);
        crate::json::lemma_lex_total(t[0].0, k);
        lemma_tab_insert_at(t.drop_first(), k, v, i - 1);
        assert(t.drop_first().take(i - 1) =~= t.take(i).drop_first());
        if i < t.len() {
            assert(t.drop_first().skip(i) =~= t.skip(i + 1));
        }
        assert(t.drop_first().skip(i - 1) =~= t.skip(i));
        assert(t.take(i) =~= seq![t[0]] + t.take(i).drop_first());
    }
}

/// After inserting `k`, the table has an entry with key `k`, holding `v`.
pub proof fn lemma_tab_insert_has<V>(t: Seq<(Seq<char>, V)>, k: Seq<char>, v: V)
    ensures
        key_pos(tab_insert(t, k, v), k) < tab_insert(t, k, v).len(),
        tab_insert(t, k, v)[key_pos(tab_insert(t, k, v), k)] == (k, v),
    decreases t.len(),
{
    lemma_key_pos_bound(tab_insert(t, k, v), k);
    if t.len() > 0 && t[0].0 != k && !lex_lt(k, t[0].0) {
        lemma_tab_insert_has(t.drop_first(), k, v);
        let r = tab_insert(t.drop_first(), k, v);
        lemma_key_pos_bound(r, k);
        let whole = tab_insert(t, k, v);
        assert(whole == seq![t[0]] + r);
        assert forall|j: int| 0 <= j < key_pos(r, k) + 1 implies #[trigger] whole[j].0 != k by {
            if j > 0 {
                assert(whole[j] == r[j - 1]);
            }
        }
        lemma_key_pos(tab_insert(t, k, v), k, key_pos(r, k) + 1);
    } else {
        lemma_key_pos(tab_insert(t, k, v), k, 0);
    }
}

/// Inserting into a table with strictly increasing keys keeps them so.
pub proof fn lemma_tab_insert_sorted<V>(t: Seq<(Seq<char>, V)>, k: Seq<char>, v: V)
    requires
        sorted_keys(t),
    ensures
        sorted_keys(tab_insert(t, k, v)),
    decreases t.len(),
{
    if t.len() == 0 {
    } else if t[0].0 == k {
        let r = tab_insert(t, k, v);
        assert forall|i: int, j: int| 0 <= i < j < r.len() implies lex_lt(#[trigger] r[i].0, #[trigger] r[j].0) by {
            assert(r[i].0 == t[i].0);
            assert(r[j].0 == t[j].0);
        }
    } else if lex_lt(k, t[0].0) {
        let r = tab_insert(t, k, v);
        assert forall|i: int, j: int| 0 <= i < j < r.len() implies lex_lt(#[trigger] r[i].0, #[trigger] r[j].0) by {
            if i == 0 {
                if j > 1 {
                    lemma_lex_trans(k, t[0].0, t[j - 1].0);
                }
            } else {
                assert(r[i] == t[i - 1]);
                assert(r[j] == t[j - 1]);
            }
        }
    } else {
        let tail = t.drop_first();
        assert(sorted_keys(tail)) by {
            assert forall|i: int, j: int| 0 <= i < j < tail.len() implies lex_lt(#[trigger] tail[i].0, #[trigger] tail[j].0) by {
                assert(tail[i] == t[i + 1]);
                assert(tail[j] == t[j + 1]);
            }
        }
        lemma_tab_insert_sorted(tail, k, v);
        lemma_tab_insert_keys(tail, k, v);
        crate::json::lemma_lex_total(t[0].0, k);
        let r = tab_insert(t, k, v);
        let rt = tab_insert(tail, k, v);
        assert(r == seq![t[0]] + rt);
        assert forall|i: int, j: int| 0 <= i < j < r.len() implies lex_lt(#[trigger] r[i].0, #[trigger] r[j].0) by {
            if i == 0 {
                assert(r[j] == rt[j - 1]);
                let x = rt[j - 1].0;
                if x == k {
                } else {
                    let m = choose|m: int| 0 <= m < tail.len() && tail[m].0 == x;
                    assert(tail[m] == t[m + 1]);
                }
            } else {
                assert(r[i] == rt[i - 1]);
                assert(r[j] == rt[j - 1]);
            }
        }
    }
}

/// Every key after inserting `k` is `k` or a key that was there.
pub proof fn lemma_tab_insert_keys<V>(t: Seq<(Seq<char>, V)>, k: Seq<char>, v: V)
    ensures
        forall|i: int| 0 <= i < tab_insert(t, k, v).len() ==> (#[trigger] tab_insert(t, k, v)[i]).0 == k
            || exists|m: int| 0 <= m < t.len() && t[m].0 == tab_insert(t, k, v)[i].0,
    decreases t.len(),
{
    let r = tab_insert(t, k, v);
    if t.len() == 0 {
    } else if t[0].0 == k {
        assert forall|i: int| 0 <= i < r.len() implies (#[trigger] r[i]).0 == k || exists|m: int|
            0 <= m < t.len() && t[m].0 == r[i].0 by {
            if i > 0 {
                assert(t[i].0 == r[i].0);
            }
        }
    } else if lex_lt(k, t[0].0) {
        assert forall|i: int| 0 <= i < r.len() implies (#[trigger] r[i]).0 == k || exists|m: int|
            0 <= m < t.len() && t[m].0 == r[i].0 by {
            if i > 0 {
                assert(t[i - 1].0 == r[i].0);
            }
        }
    } else {
        let tail = t.drop_first();
        lemma_tab_insert_keys(tail, k, v);
        let rt = tab_insert(tail, k, v);
        assert forall|i: int| 0 <= i < r.len() implies (#[trigger] r[i]).0 == k || exists|m: int|
            0 <= m < t.len() && t[m].0 == r[i].0 by {
            if i == 0 {
                assert(t[0].0 == r[0].0);
            } else {
                assert(r[i] == rt[i - 1]);
                if rt[i - 1].0 != k {
                    let m = choose|m: int| 0 <= m < tail.len() && tail[m].0 == rt[i - 1].0;
                    assert(t[m + 1].0 == r[i].0);
                }
            }
        }
    }
}

/// Order of texts is transitive.
pub proof fn lemma_lex_trans(a: Seq<char>, b: Seq<char>, c: Seq<char>)
    requires
        lex_lt(a, b),
        lex_lt(b, c),
    ensures
        lex_lt(a, c),
    decreases a.len(),
{
    if a.len() > 0 && b.len() > 0 && c.len() > 0 && a[0] == b[0] && b[0] == c[0] {
        lemma_lex_trans(a.drop_first(), b.drop_first(), c.drop_first());
    }
}

/// The position of the entry with key `k` in `t`; the length where there is none.
pub(crate) fn find_entry(t: &Vec<(String, Value)>, k: &String) -> (r: usize)
    ensures
        r == key_pos(entries(t@), k@),
        r <= t@.len(),
{
    let ghost e = entries(t@);
    let mut i: usize = 0;
    while i < t.len()
        invariant
            i <= t@.len(),
            e == entries(t@),
            forall|j: int| 0 <= j < i ==> #[trigger] e[j].0 != k@,
        decreases t@.len() - i,
    {
        if t[i].0 == *k {
            proof {
                lemma_key_pos(e, k@, i as int);
            }
            return i;
        }
        i = i + 1;
    }
    proof {
        lemma_key_pos(e, k@, i as int);
    }
    i
}

/// Puts `(k, v)` into the sorted table `t`.
pub(crate) fn insert_entry(t: &mut Vec<(String, Value)>, k: String, v: Value)
    ensures
        entries(final(t)@) == tab_insert(entries(old(t)@), k@, toml_of(v)),
{
    let ghost mm = entries(t@);
    let mut i: usize = 0;
    while i < t.len() && str_lt(t[i].0.as_str(), k.as_str())
        invariant
            i <= t@.len(),
            mm == entries(t@),
            t@ == old(t)@,
            forall|j: int| 0 <= j < i ==> lex_lt(#[trigger] mm[j].0, k@),
        decreases t@.len() - i,
    {
        i = i + 1;
    }
    proof {
        lemma_tab_insert_at(mm, k@, toml_of(v), i as int);
    }
    if i < t.len() && t[i].0 == k {
        t.set(i, (k, v));
        assert(entries(t@) =~= mm.take(i as int) + seq![(k@, toml_of(v))] + mm.skip(i + 1));
    } else {
        let ghost kv = (k@, toml_of(v));
        t.insert(i, (k, v));
        assert(entries(t@) =~= mm.take(i as int) + seq![kv] + mm.skip(i as int));
    }
}

/// The keys `ks` joined into one text, a unit separator (U+001F) between each two.
pub open spec fn join_keys(ks: Seq<Seq<char>>) -> Seq<char>
    decreases ks.len(),
{
    if ks.len() == 0 {
        Seq::empty()
    } else if ks.len() == 1 {
        ks[0]
    } else {
        join_keys(ks.drop_last()) + seq!['\u{1f}'] + ks.last()
    }
}

/// The first `n` keys of `keys`, joined.
pub(crate) fn join_path(keys: &Vec<String>, n: usize) -> (r: String)
    requires
        n <= keys@.len(),
    ensures
        r@ == join_keys(strs(keys@).take(n as int)),
{
    let mut out = String::new();
    let mut i: usize = 0;
    while i < n
        invariant
            i <= n <= keys@.len(),
            out@ == join_keys(strs(keys@).take(i as int)),
        decreases n - i,
    {
        let ghost ks = strs(keys@).take(i + 1);
        assert(ks.drop_last() =~= strs(keys@).take(i as int));
        if i > 0 {
            push_char(&mut out, '\u{1f}');
        } else {
            assert(strs(keys@).take(0) =~= Seq::<Seq<char>>::empty());
        }
        push_str(&mut out, keys[i].as_str());
        i = i + 1;
    }
    out
}

/// Whether `v` holds a string equal to `s`.
pub(crate) fn holds(v: &Vec<String>, s: &String) -> (r: bool)
    ensures
        r == strs(v@).contains(s@),
{
    let mut i: usize = 0;
    while i < v.len()
        invariant
            i <= v@.len(),
            forall|j: int| 0 <= j < i ==> v@[j]@ != s@,
        decreases v@.len() - i,
    {
        if v[i] == *s {
            assert(strs(v@)[i as int] == s@);
            return true;
        }
        i = i + 1;
    }
    false
}

/// The text of an error: its message, then where it arose.
pub open spec fn error_text(e: Error) -> Seq<char> {
    e.msg@ + " at line "@ + crate::text::dec_digits(e.line as nat) + " column "@
        + crate::text::dec_digits(e.col as nat)
}

impl Error {
    /// The message, then `at line L column C`.
    pub fn to_string(&self) -> (s: String)
        ensures
            s@ == error_text(*self),
    {
        let mut s = String::new();
        push_str(&mut s, self.msg.as_str());
        push_str(&mut s, " at line ");
        push_u64(&mut s, self.line as u64);
        push_str(&mut s, " column ");
        push_u64(&mut s, self.col as u64);
        s
    }
}

/// Whether every table in `v`, however deep, has strictly increasing keys.
pub open spec fn sorted_deep(v: Toml) -> bool
    decreases v, 0int,
{
    match v {
        Toml::Arr(a) => items_sorted(a, a.len() as int),
        Toml::Tab(t) => sorted_keys(t) && values_sorted(t, t.len() as int),
        _ => true,
    }
}

/// Whether the first `k` items have only sorted tables.
pub open spec fn items_sorted(a: Seq<Toml>, k: int) -> bool
    decreases a, k,
{
    if k <= 0 || k > a.len() {
        true
    } else {
        items_sorted(a, k - 1) && sorted_deep(a[k - 1])
    }
}

/// Whether the values of the first `k` entries have only sorted tables.
pub open spec fn values_sorted(t: Entries, k: int) -> bool
    decreases t, k,
{
    if k <= 0 || k > t.len() {
        true
    } else {
        values_sorted(t, k - 1) && sorted_deep(t[k - 1].1)
    }
}

/// `items_sorted` is about each item.
pub proof fn lemma_items_sorted(a: Seq<Toml>, k: int)
    requires
        0 <= k <= a.len(),
    ensures
        items_sorted(a, k) <==> forall|i: int| 0 <= i < k ==> sorted_deep(#[trigger] a[i]),
    decreases k,
{
    if k > 0 {
        lemma_items_sorted(a, k - 1);
    }
}

/// `values_sorted` is about each value.
pub proof fn lemma_values_sorted(t: Entries, k: int)
    requires
        0 <= k <= t.len(),
    ensures
        values_sorted(t, k) <==> forall|i: int| 0 <= i < k ==> sorted_deep(#[trigger] t[i].1),
    decreases k,
{
    if k > 0 {
        lemma_values_sorted(t, k - 1);
    }
}

/// Whether a table's entries are sorted, its values sorted deeply.
pub open spec fn tab_ok(t: Entries) -> bool {
    sorted_deep(Toml::Tab(t))
}

/// A sorted table's entries, each as plain facts.
pub proof fn lemma_tab_ok(t: Entries)
    ensures
        tab_ok(t) <==> (sorted_keys(t) && forall|i: int| 0 <= i < t.len() ==> sorted_deep(#[trigger] t[i].1)),
{
    lemma_values_sorted(t, t.len() as int);
}

/// An array's items, each as plain facts.
pub proof fn lemma_arr_ok(a: Seq<Toml>)
    ensures
        sorted_deep(Toml::Arr(a)) <==> forall|i: int| 0 <= i < a.len() ==> sorted_deep(#[trigger] a[i]),
{
    lemma_items_sorted(a, a.len() as int);
}

/// Every entry after inserting `(k, v)` is `(k, v)` or an entry that was there.
pub proof fn lemma_tab_insert_elems<V>(t: Seq<(Seq<char>, V)>, k: Seq<char>, v: V)
    ensures
        forall|i: int| 0 <= i < tab_insert(t, k, v).len() ==> #[trigger] tab_insert(t, k, v)[i] == (k, v)
            || exists|m: int| 0 <= m < t.len() && t[m] == tab_insert(t, k, v)[i],
    decreases t.len(),
{
    let r = tab_insert(t, k, v);
    if t.len() == 0 {
    } else if t[0].0 == k {
        assert forall|i: int| 0 <= i < r.len() implies #[trigger] r[i] == (k, v) || exists|m: int|
            0 <= m < t.len() && t[m] == r[i] by {
            if i > 0 {
                assert(t[i] == r[i]);
            }
        }
    } else if lex_lt(k, t[0].0) {
        assert forall|i: int| 0 <= i < r.len() implies #[trigger] r[i] == (k, v) || exists|m: int|
            0 <= m < t.len() && t[m] == r[i] by {
            if i > 0 {
                assert(t[i - 1] == r[i]);
            }
        }
    } else {
        let tail = t.drop_first();
        lemma_tab_insert_elems(tail, k, v);
        let rt = tab_insert(tail, k, v);
        assert forall|i: int| 0 <= i < r.len() implies #[trigger] r[i] == (k, v) || exists|m: int|
            0 <= m < t.len() && t[m] == r[i] by {
            if i == 0 {
                assert(t[0] == r[0]);
            } else {
                assert(r[i] == rt[i - 1]);
                if rt[i - 1] != (k, v) {
                    let m = choose|m: int| 0 <= m < tail.len() && tail[m] == rt[i - 1];
                    assert(t[m + 1] == r[i]);
                }
            }
        }
    }
}

/// Inserting a sorted value into a sorted table keeps it sorted.
pub proof fn lemma_insert_ok(t: Entries, k: Seq<char>, v: Toml)
    requires
        tab_ok(t),
        sorted_deep(v),
    ensures
        tab_ok(tab_insert(t, k, v)),
{
    lemma_tab_ok(t);
    lemma_tab_insert_sorted(t, k, v);
    lemma_tab_insert_elems(t, k, v);
    let r = tab_insert(t, k, v);
    assert forall|i: int| 0 <= i < r.len() implies sorted_deep(#[trigger] r[i].1) by {
        if r[i] != (k, v) {
            let m = choose|m: int| 0 <= m < t.len() && t[m] == r[i];
            assert(sorted_deep(t[m].1));
        }
    }
    lemma_tab_ok(r);
}

/// Replacing the value of an entry by a sorted value keeps a sorted table sorted.
pub proof fn lemma_replace_ok(t: Entries, j: int, v: Toml)
    requires
        tab_ok(t),
        0 <= j < t.len(),
        sorted_deep(v),
    ensures
        tab_ok(t.update(j, (t[j].0, v))),
{
    lemma_tab_ok(t);
    let r = t.update(j, (t[j].0, v));
    assert forall|a: int, b: int| 0 <= a < b < r.len() implies lex_lt(#[trigger] r[a].0, #[trigger] r[b].0) by {
        assert(r[a].0 == t[a].0);
        assert(r[b].0 == t[b].0);
    }
    lemma_tab_ok(r);
}

/// An empty table is sorted.
pub proof fn lemma_empty_ok()
    ensures
        tab_ok(Seq::empty()),
        sorted_deep(Toml::Tab(Seq::empty())),
{
    lemma_tab_ok(Seq::empty());
}

} // verus!
