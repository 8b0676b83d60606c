use vstd::prelude::*;
use super::{
    lemma_arr_ok, lemma_empty_ok, lemma_insert_ok, lemma_replace_ok, lemma_tab_ok, sorted_deep, tab_ok,
    entries, find_entry, holds, insert_entry, join_keys, join_path, key_pos, lemma_key_pos_bound,
    lemma_tab_insert_has, lemma_toml_array, lemma_toml_table, strs, tab_insert, toml_of, items,
    Entries, Toml, Value,
};

verus! {

/// The table `t` after walking the keys of a `[table]` header from `keys[i]`: each
/// missing key gets an empty table; an array of tables (one whose joined path is in
/// `arrays`) is entered at its last element. Anything else on the way is an error.
pub open spec fn walk_table(t: Entries, keys: Seq<Seq<char>>, i: int, arrays: Seq<Seq<char>>) -> Result<Entries, Seq<char>>
    decreases keys.len() - i,
{
    if i < 0 || i >= keys.len() {
        Ok(t)
    } else {
        let k = keys[i];
        let t1 = if key_pos(t, k) < t.len() {
            t
        } else {
            tab_insert(t, k, Toml::Tab(Seq::empty()))
        };
        let j = key_pos(t1, k);
        match t1[j].1 {
            Toml::Tab(inner) => match walk_table(inner, keys, i + 1, arrays) {
                Ok(n) => Ok(t1.update(j, (k, Toml::Tab(n)))),
                Err(m) => Err(m),
            },
            Toml::Arr(a) => if !arrays.contains(join_keys(keys.take(i + 1))) {
                Err("not a table"@)
            } else if a.len() > 0 && a.last() is Tab {
                match walk_table(a.last()->Tab_0, keys, i + 1, arrays) {
                    Ok(n) => Ok(t1.update(j, (k, Toml::Arr(a.drop_last().push(Toml::Tab(n)))))),
                    Err(m) => Err(m),
                }
            } else {
                Err("not a table"@)
            },
            _ => Err("not a table"@),
        }
    }
}

/// A `[table]` header with keys `keys` on the root `t`: the new root and set of defined
/// paths, or the message. A path can be defined only once.
pub open spec fn table_header(t: Entries, keys: Seq<Seq<char>>, defined: Seq<Seq<char>>, arrays: Seq<Seq<char>>) -> Result<(Entries, Seq<Seq<char>>), Seq<char>> {
    if defined.contains(join_keys(keys)) {
        Err("duplicate table"@)
    } else {
        match walk_table(t, keys, 0, arrays) {
            Ok(n) => Ok((n, defined.push(join_keys(keys)))),
            Err(m) => Err(m),
        }
    }
}

/// The table `t` after walking the keys of a `[[array]]` header from `keys[i]`, and
/// whether a new array was made. The last key gets a new array holding one empty table,
/// or, where it names an array of tables, one more empty table.
pub open spec fn walk_array(t: Entries, keys: Seq<Seq<char>>, i: int, arrays: Seq<Seq<char>>) -> Result<(Entries, bool), Seq<char>>
    decreases keys.len() - i,
{
    if i < 0 || i >= keys.len() {
        Ok((t, false))
    } else {
        let k = keys[i];
        if i == keys.len() - 1 {
            if key_pos(t, k) >= t.len() {
                Ok((tab_insert(t, k, Toml::Arr(seq![Toml::Tab(Seq::empty())])), true))
            } else {
                match t[key_pos(t, k)].1 {
                    Toml::Arr(a) => if !arrays.contains(join_keys(keys)) {
                        Err("not an array of tables"@)
                    } else {
                        Ok((t.update(key_pos(t, k), (k, Toml::Arr(a.push(Toml::Tab(Seq::empty()))))), false))
                    },
                    _ => Err("not an array"@),
                }
            }
        } else {
            let t1 = if key_pos(t, k) < t.len() {
                t
            } else {
                tab_insert(t, k, Toml::Tab(Seq::empty()))
            };
            let j = key_pos(t1, k);
            match t1[j].1 {
                Toml::Tab(inner) => match walk_array(inner, keys, i + 1, arrays) {
                    Ok((n, added)) => Ok((t1.update(j, (k, Toml::Tab(n))), added)),
                    Err(m) => Err(m),
                },
                Toml::Arr(a) => if !arrays.contains(join_keys(keys.take(i + 1))) {
                    Err("not a table"@)
                } else if a.len() > 0 && a.last() is Tab {
                    match walk_array(a.last()->Tab_0, keys, i + 1, arrays) {
                        Ok((n, added)) => Ok(
                            (t1.update(j, (k, Toml::Arr(a.drop_last().push(Toml::Tab(n))))), added),
                        ),
                        Err(m) => Err(m),
                    }
                } else {
                    Err("not a table"@)
                },
                _ => Err("not a table"@),
            }
        }
    }
}

/// A `[[array]]` header with keys `keys` on the root `t`: the new root and set of
/// array-of-tables paths, or the message.
pub open spec fn array_header(t: Entries, keys: Seq<Seq<char>>, arrays: Seq<Seq<char>>) -> Result<(Entries, Seq<Seq<char>>), Seq<char>> {
    match walk_array(t, keys, 0, arrays) {
        Ok((n, added)) => Ok((n, if added { arrays.push(join_keys(keys)) } else { arrays })),
        Err(m) => Err(m),
    }
}

/// The table `t` after setting the dotted key `keys[i..]` to `v`, under the path
/// `prefix`: missing keys on the way get empty tables, which may not be tables
/// already defined; the last key must be new, and its full path becomes defined.
pub open spec fn dotted(t: Entries, keys: Seq<Seq<char>>, i: int, v: Toml, prefix: Seq<Seq<char>>, defined: Seq<Seq<char>>) -> Result<(Entries, Seq<Seq<char>>), Seq<char>>
    decreases keys.len() - i,
{
    if i < 0 || i >= keys.len() {
        Ok((t, defined))
    } else {
        let k = keys[i];
        let joined = join_keys(prefix + keys.take(i + 1));
        if i == keys.len() - 1 {
            if key_pos(t, k) < t.len() {
                Err("duplicate key"@)
            } else {
                Ok((tab_insert(t, k, v), defined.push(joined)))
            }
        } else if key_pos(t, k) < t.len() && defined.contains(joined) {
            Err("cannot extend defined table"@)
        } else {
            let t1 = if key_pos(t, k) < t.len() {
                t
            } else {
                tab_insert(t, k, Toml::Tab(Seq::empty()))
            };
            let j = key_pos(t1, k);
            match t1[j].1 {
                Toml::Tab(inner) => match dotted(inner, keys, i + 1, v, prefix, defined) {
                    Ok((n, d)) => Ok((t1.update(j, (k, Toml::Tab(n))), d)),
                    Err(m) => Err(m),
                },
                _ => Err("not a table"@),
            }
        }
    }
}

/// The table `t` after setting the dotted key `keys[i..]` to `v` inside an inline
/// table: missing keys on the way get empty tables; the last key must be new.
pub open spec fn inline_set(t: Entries, keys: Seq<Seq<char>>, i: int, v: Toml) -> Result<Entries, Seq<char>>
    decreases keys.len() - i,
{
    if i < 0 || i >= keys.len() {
        Ok(t)
    } else {
        let k = keys[i];
        if i == keys.len() - 1 {
            if key_pos(t, k) < t.len() {
                Err("duplicate key"@)
            } else {
                Ok(tab_insert(t, k, v))
            }
        } else {
            let t1 = if key_pos(t, k) < t.len() {
                t
            } else {
                tab_insert(t, k, Toml::Tab(Seq::empty()))
            };
            let j = key_pos(t1, k);
            match t1[j].1 {
                Toml::Tab(inner) => match inline_set(inner, keys, i + 1, v) {
                    Ok(n) => Ok(t1.update(j, (k, Toml::Tab(n)))),
                    Err(m) => Err(m),
                },
                _ => Err("not a table"@),
            }
        }
    }
}

/// The root `t` after setting `keys` to `v` in the table that the current header
/// `path[pi..]` names (in the last table of an array where `is_array`). A header's path
/// always leads to a table; the `internal` errors stand for the cases it cannot be.
pub open spec fn keyval(t: Entries, path: Seq<Seq<char>>, pi: int, is_array: bool, keys: Seq<Seq<char>>, v: Toml, defined: Seq<Seq<char>>) -> Result<(Entries, Seq<Seq<char>>), Seq<char>>
    decreases path.len() - pi,
{
    if pi < 0 || pi >= path.len() {
        dotted(t, keys, 0, v, path, defined)
    } else {
        let k = path[pi];
        let j = key_pos(t, k);
        if j >= t.len() {
            Err("internal"@)
        } else if pi == path.len() - 1 && is_array {
            match t[j].1 {
                Toml::Arr(a) => if a.len() > 0 && a.last() is Tab {
                    match keyval(a.last()->Tab_0, path, pi + 1, is_array, keys, v, defined) {
                        Ok((n, d)) => Ok((t.update(j, (k, Toml::Arr(a.drop_last().push(Toml::Tab(n))))), d)),
                        Err(m) => Err(m),
                    }
                } else {
                    Err("internal: bad array"@)
                },
                _ => Err("internal: bad array"@),
            }
        } else {
            match t[j].1 {
                Toml::Tab(inner) => match keyval(inner, path, pi + 1, is_array, keys, v, defined) {
                    Ok((n, d)) => Ok((t.update(j, (k, Toml::Tab(n))), d)),
                    Err(m) => Err(m),
                },
                Toml::Arr(a) => if a.len() > 0 && a.last() is Tab {
                    match keyval(a.last()->Tab_0, path, pi + 1, is_array, keys, v, defined) {
                        Ok((n, d)) => Ok((t.update(j, (k, Toml::Arr(a.drop_last().push(Toml::Tab(n))))), d)),
                        Err(m) => Err(m),
                    }
                } else {
                    Err("internal"@)
                },
                _ => Err("internal"@),
            }
        }
    }
}

/// Makes sure `t` has an entry with key `k` (adding an empty table where it has none),
/// and gives its position.
fn open_entry(t: &mut Vec<(String, Value)>, k: &String) -> (j: usize)
    ensures
        entries(final(t)@) == if key_pos(entries(old(t)@), k@) < old(t)@.len() {
            entries(old(t)@)
        } else {
            tab_insert(entries(old(t)@), k@, Toml::Tab(Seq::empty()))
        },
        j == key_pos(entries(final(t)@), k@),
        j < final(t)@.len(),
        entries(final(t)@)[j as int].0 == k@,
{
    let j = find_entry(t, k);
    proof {
        lemma_key_pos_bound(entries(t@), k@);
    }
    if j < t.len() {
        return j;
    }
    let empty: Vec<(String, Value)> = Vec::new();
    proof {
        lemma_toml_table(empty);
        assert(entries(empty@) =~= Seq::empty());
    }
    insert_entry(t, k.clone(), Value::Table(empty));
    proof {
        lemma_tab_insert_has(entries(old(t)@), k@, Toml::Tab(Seq::empty()));
    }
    let j = find_entry(t, k);
    j
}

/// Puts `(key, v)` back at position `j` of `t` after it was taken out.
proof fn lemma_put_back(t: Seq<(String, Value)>, j: int, key: String, v: Value)
    requires
        0 <= j < t.len(),
    ensures
        entries(t.remove(j).insert(j, (key, v))) == entries(t).update(j, (key@, toml_of(v))),
{
    assert(entries(t.remove(j).insert(j, (key, v))) =~= entries(t).update(j, (key@, toml_of(v))));
}

/// An array after replacing its last item by `v`.
proof fn lemma_swap_last(a: Seq<Value>, v: Value)
    requires
        a.len() > 0,
    ensures
        items(a.drop_last().push(v)) == items(a).drop_last().push(toml_of(v)),
{
    assert(items(a.drop_last().push(v)) =~= items(a).drop_last().push(toml_of(v)));
}

/// Walks the keys of a `[table]` header from `keys[i]`, as `walk_table` says.
pub(crate) fn walk_table_exec(t: &mut Vec<(String, Value)>, keys: &Vec<String>, i: usize, arrays: &Vec<String>) -> (r: Result<(), &'static str>)
    requires
        i <= keys@.len(),
    ensures
        match walk_table(entries(old(t)@), strs(keys@), i as int, strs(arrays@)) {
            Ok(n) => r is Ok && entries(final(t)@) == n,
            Err(m) => r matches Err(x) && x@ == m,
        },
    decreases keys@.len() - i,
{
    if i >= keys.len() {
        return Ok(());
    }
    let ghost ks = strs(keys@);
    let j = open_entry(t, &keys[i]);
    let ghost t1 = entries(t@);
    let prefix = join_path(keys, i + 1);
    let ghost before = t@;
    let (key, val) = t.remove(j);
    assert(before[j as int] == (key, val));
    match val {
        Value::Table(mut inner) => {
            proof {
                lemma_toml_table(inner);
            }
            match walk_table_exec(&mut inner, keys, i + 1, arrays) {
                Ok(()) => {},
                Err(m) => return Err(m),
            }
            proof {
                lemma_toml_table(inner);
                lemma_put_back(before, j as int, key, Value::Table(inner));
            }
            t.insert(j, (key, Value::Table(inner)));
            Ok(())
        },
        Value::Array(mut a) => {
            proof {
                lemma_toml_array(a);
            }
            if !holds(arrays, &prefix) {
                return Err("not a table");
            }
            let ghost a0 = a@;
            match a.pop() {
                Some(Value::Table(mut inner)) => {
                    proof {
                        lemma_toml_table(inner);
                    }
                    match walk_table_exec(&mut inner, keys, i + 1, arrays) {
                        Ok(()) => {},
                        Err(m) => return Err(m),
                    }
                    proof {
                        lemma_toml_table(inner);
                    }
                    a.push(Value::Table(inner));
                    proof {
                        lemma_swap_last(a0, Value::Table(inner));
                        lemma_toml_array(a);
                        lemma_put_back(before, j as int, key, Value::Array(a));
                    }
                    t.insert(j, (key, Value::Array(a)));
                    Ok(())
                },
                Some(x) => {
                    assert(toml_of(x) == items(a0).last());
                    Err("not a table")
                },
                None => Err("not a table"),
            }
        },
        Value::String(_) => Err("not a table"),
        Value::Integer(_) => Err("not a table"),
        Value::Float(_) => Err("not a table"),
        Value::Boolean(_) => Err("not a table"),
        Value::Datetime(_) => Err("not a table"),
    }
}

/// Walks the keys of a `[[array]]` header from `keys[i]`, as `walk_array` says.
pub(crate) fn walk_array_exec(t: &mut Vec<(String, Value)>, keys: &Vec<String>, i: usize, arrays: &Vec<String>) -> (r: Result<bool, &'static str>)
    requires
        i <= keys@.len(),
    ensures
        match walk_array(entries(old(t)@), strs(keys@), i as int, strs(arrays@)) {
            Ok((n, added)) => r == Ok::<bool, &'static str>(added) && entries(final(t)@) == n,
            Err(m) => r matches Err(x) && x@ == m,
        },
    decreases keys@.len() - i,
{
    if i >= keys.len() {
        return Ok(false);
    }
    let ghost ks = strs(keys@);
    if i == keys.len() - 1 {
        let j = find_entry(t, &keys[i]);
        proof {
            lemma_key_pos_bound(entries(t@), ks[i as int]);
        }
        if j >= t.len() {
            let empty: Vec<(String, Value)> = Vec::new();
            proof {
                lemma_toml_table(empty);
                assert(entries(empty@) =~= Seq::empty());
            }
            let one = vec![Value::Table(empty)];
            proof {
                lemma_toml_array(one);
                assert(items(one@) =~= seq![Toml::Tab(Seq::empty())]);
            }
            insert_entry(t, keys[i].clone(), Value::Array(one));
            return Ok(true);
        }
        let whole = join_path(keys, keys.len());
        assert(strs(keys@).take(keys@.len() as int) =~= strs(keys@));
        let ghost before = t@;
        let (key, val) = t.remove(j);
        assert(before[j as int] == (key, val));
        match val {
            Value::Array(mut a) => {
                proof {
                    lemma_toml_array(a);
                }
                if !holds(arrays, &whole) {
                    return Err("not an array of tables");
                }
                let ghost a0 = a@;
                let empty: Vec<(String, Value)> = Vec::new();
                proof {
                    lemma_toml_table(empty);
                    assert(entries(empty@) =~= Seq::empty());
                }
                a.push(Value::Table(empty));
                proof {
                    assert(items(a@) =~= items(a0).push(Toml::Tab(Seq::empty())));
                    lemma_toml_array(a);
                    lemma_put_back(before, j as int, key, Value::Array(a));
                }
                t.insert(j, (key, Value::Array(a)));
                return Ok(false);
            },
            Value::String(_) => return Err("not an array"),
            Value::Integer(_) => return Err("not an array"),
            Value::Float(_) => return Err("not an array"),
            Value::Boolean(_) => return Err("not an array"),
            Value::Datetime(_) => return Err("not an array"),
            Value::Table(_) => return Err("not an array"),
        }
    }
    let j = open_entry(t, &keys[i]);
    let prefix = join_path(keys, i + 1);
    let ghost before = t@;
    let (key, val) = t.remove(j);
    assert(before[j as int] == (key, val));
    match val {
        Value::Table(mut inner) => {
            proof {
                lemma_toml_table(inner);
            }
            let added = match walk_array_exec(&mut inner, keys, i + 1, arrays) {
                Ok(x) => x,
                Err(m) => return Err(m),
            };
            proof {
                lemma_toml_table(inner);
                lemma_put_back(before, j as int, key, Value::Table(inner));
            }
            t.insert(j, (key, Value::Table(inner)));
            Ok(added)
        },
        Value::Array(mut a) => {
            proof {
                lemma_toml_array(a);
            }
            if !holds(arrays, &prefix) {
                return Err("not a table");
            }
            let ghost a0 = a@;
            match a.pop() {
                Some(Value::Table(mut inner)) => {
                    proof {
                        lemma_toml_table(inner);
                    }
                    let added = match walk_array_exec(&mut inner, keys, i + 1, arrays) {
                        Ok(x) => x,
                        Err(m) => return Err(m),
                    };
                    proof {
                        lemma_toml_table(inner);
                    }
                    a.push(Value::Table(inner));
                    proof {
                        lemma_swap_last(a0, Value::Table(inner));
                        lemma_toml_array(a);
                        lemma_put_back(before, j as int, key, Value::Array(a));
                    }
                    t.insert(j, (key, Value::Array(a)));
                    Ok(added)
                },
                Some(x) => {
                    assert(toml_of(x) == items(a0).last());
                    Err("not a table")
                },
                None => Err("not a table"),
            }
        },
        Value::String(_) => Err("not a table"),
        Value::Integer(_) => Err("not a table"),
        Value::Float(_) => Err("not a table"),
        Value::Boolean(_) => Err("not a table"),
        Value::Datetime(_) => Err("not a table"),
    }
}

/// Sets the dotted key `keys[i..]` to `v`, as `dotted` says; `full` holds the path
/// walked so far (the header's path, then `keys[..i]`), and `defined` the defined paths.
pub(crate) fn dotted_exec(t: &mut Vec<(String, Value)>, keys: &Vec<String>, i: usize, v: Value, full: &mut Vec<String>, defined: &mut Vec<String>, Ghost(prefix): Ghost<Seq<Seq<char>>>) -> (r: Result<(), &'static str>)
    requires
        i < keys@.len(),
        strs(old(full)@) == prefix + strs(keys@).take(i as int),
    ensures
        match dotted(entries(old(t)@), strs(keys@), i as int, toml_of(v), prefix, strs(old(defined)@)) {
            Ok((n, d)) => r is Ok && entries(final(t)@) == n && strs(final(defined)@) == d,
            Err(m) => r matches Err(x) && x@ == m,
        },
    decreases keys@.len() - i,
{
    let ghost ks = strs(keys@);
    let ghost full0 = strs(full@);
    let ghost d0 = strs(defined@);
    let ghost t0 = entries(t@);
    full.push(keys[i].clone());
    let joined = join_path(full, full.len());
    proof {
        assert(strs(full@).take(full@.len() as int) =~= strs(full@));
        assert(strs(full@) =~= full0.push(ks[i as int]));
        assert(ks.take(i + 1) =~= ks.take(i as int).push(ks[i as int]));
        assert(prefix + ks.take(i + 1) =~= (prefix + ks.take(i as int)).push(ks[i as int]));
    }
    let j = find_entry(t, &keys[i]);
    proof {
        lemma_key_pos_bound(t0, ks[i as int]);
    }
    if i == keys.len() - 1 {
        if j < t.len() {
            return Err("duplicate key");
        }
        insert_entry(t, keys[i].clone(), v);
        defined.push(joined);
        assert(strs(defined@) =~= d0.push(joined@));
        return Ok(());
    }
    if j < t.len() && holds(defined, &joined) {
        return Err("cannot extend defined table");
    }
    let j = open_entry(t, &keys[i]);
    let ghost before = t@;
    let (key, val) = t.remove(j);
    assert(before[j as int] == (key, val));
    match val {
        Value::Table(mut inner) => {
            proof {
                lemma_toml_table(inner);
            }
            match dotted_exec(&mut inner, keys, i + 1, v, full, defined, Ghost(prefix)) {
                Ok(()) => {},
                Err(m) => return Err(m),
            }
            proof {
                lemma_toml_table(inner);
                lemma_put_back(before, j as int, key, Value::Table(inner));
            }
            t.insert(j, (key, Value::Table(inner)));
            Ok(())
        },
        Value::String(_) => Err("not a table"),
        Value::Integer(_) => Err("not a table"),
        Value::Float(_) => Err("not a table"),
        Value::Boolean(_) => Err("not a table"),
        Value::Datetime(_) => Err("not a table"),
        Value::Array(_) => Err("not a table"),
    }
}

/// Sets the dotted key `keys[i..]` to `v` inside an inline table, as `inline_set` says.
pub(crate) fn inline_exec(t: &mut Vec<(String, Value)>, keys: &Vec<String>, i: usize, v: Value) -> (r: Result<(), &'static str>)
    requires
        i < keys@.len(),
    ensures
        match inline_set(entries(old(t)@), strs(keys@), i as int, toml_of(v)) {
            Ok(n) => r is Ok && entries(final(t)@) == n,
            Err(m) => r matches Err(x) && x@ == m,
        },
    decreases keys@.len() - i,
{
    let ghost ks = strs(keys@);
    if i == keys.len() - 1 {
        let j = find_entry(t, &keys[i]);
        proof {
            lemma_key_pos_bound(entries(t@), ks[i as int]);
        }
        if j < t.len() {
            return Err("duplicate key");
        }
        insert_entry(t, keys[i].clone(), v);
        return Ok(());
    }
    let j = open_entry(t, &keys[i]);
    let ghost before = t@;
    let (key, val) = t.remove(j);
    assert(before[j as int] == (key, val));
    match val {
        Value::Table(mut inner) => {
            proof {
                lemma_toml_table(inner);
            }
            match inline_exec(&mut inner, keys, i + 1, v) {
                Ok(()) => {},
                Err(m) => return Err(m),
            }
            proof {
                lemma_toml_table(inner);
                lemma_put_back(before, j as int, key, Value::Table(inner));
            }
            t.insert(j, (key, Value::Table(inner)));
            Ok(())
        },
        Value::String(_) => Err("not a table"),
        Value::Integer(_) => Err("not a table"),
        Value::Float(_) => Err("not a table"),
        Value::Boolean(_) => Err("not a table"),
        Value::Datetime(_) => Err("not a table"),
        Value::Array(_) => Err("not a table"),
    }
}

/// A copy of a list of strings.
fn copy_strings(v: &Vec<String>) -> (r: Vec<String>)
    ensures
        strs(r@) == strs(v@),
{
    let mut r: Vec<String> = Vec::new();
    let mut i: usize = 0;
    while i < v.len()
        invariant
            i <= v@.len(),
            strs(r@) == strs(v@).take(i as int),
        decreases v@.len() - i,
    {
        let ghost r0 = r@;
        let c = v[i].clone();
        r.push(c);
        assert(r@ == r0.push(c));
        assert(strs(r@) =~= strs(r0).push(c@));
        assert(strs(r@) =~= strs(v@).take(i + 1));
        i = i + 1;
    }
    assert(strs(v@).take(v@.len() as int) =~= strs(v@));
    r
}

/// Sets `keys` to `v` in the table that the header path `path[pi..]` names, as
/// `keyval` says.
pub(crate) fn keyval_exec(t: &mut Vec<(String, Value)>, path: &Vec<String>, pi: usize, is_array: bool, keys: &Vec<String>, v: Value, defined: &mut Vec<String>) -> (r: Result<(), &'static str>)
    requires
        pi <= path@.len(),
        keys@.len() > 0,
    ensures
        match keyval(entries(old(t)@), strs(path@), pi as int, is_array, strs(keys@), toml_of(v), strs(old(defined)@)) {
            Ok((n, d)) => r is Ok && entries(final(t)@) == n && strs(final(defined)@) == d,
            Err(m) => r matches Err(x) && x@ == m,
        },
    decreases path@.len() - pi,
{
    if pi >= path.len() {
        let mut full = copy_strings(path);
        assert(strs(keys@).take(0) =~= Seq::<Seq<char>>::empty());
        assert(strs(full@) =~= strs(path@) + strs(keys@).take(0));
        return dotted_exec(t, keys, 0, v, &mut full, defined, Ghost(strs(path@)));
    }
    let ghost ps = strs(path@);
    let j = find_entry(t, &path[pi]);
    proof {
        lemma_key_pos_bound(entries(t@), ps[pi as int]);
    }
    if j >= t.len() {
        return Err("internal");
    }
    let ghost before = t@;
    let (key, val) = t.remove(j);
    assert(before[j as int] == (key, val));
    if pi == path.len() - 1 && is_array {
        match val {
            Value::Array(mut a) => {
                proof {
                    lemma_toml_array(a);
                }
                let ghost a0 = a@;
                match a.pop() {
                    Some(Value::Table(mut inner)) => {
                        proof {
                            lemma_toml_table(inner);
                        }
                        match keyval_exec(&mut inner, path, pi + 1, is_array, keys, v, defined) {
                            Ok(()) => {},
                            Err(m) => return Err(m),
                        }
                        proof {
                            lemma_toml_table(inner);
                        }
                        a.push(Value::Table(inner));
                        proof {
                            lemma_swap_last(a0, Value::Table(inner));
                            lemma_toml_array(a);
                            lemma_put_back(before, j as int, key, Value::Array(a));
                        }
                        t.insert(j, (key, Value::Array(a)));
                        Ok(())
                    },
                    Some(x) => {
                        assert(toml_of(x) == items(a0).last());
                        Err("internal: bad array")
                    },
                    None => Err("internal: bad array"),
                }
            },
            Value::String(_) => Err("internal: bad array"),
            Value::Integer(_) => Err("internal: bad array"),
            Value::Float(_) => Err("internal: bad array"),
            Value::Boolean(_) => Err("internal: bad array"),
            Value::Datetime(_) => Err("internal: bad array"),
            Value::Table(_) => Err("internal: bad array"),
        }
    } else {
        match val {
            Value::Table(mut inner) => {
                proof {
                    lemma_toml_table(inner);
                }
                match keyval_exec(&mut inner, path, pi + 1, is_array, keys, v, defined) {
                    Ok(()) => {},
                    Err(m) => return Err(m),
                }
                proof {
                    lemma_toml_table(inner);
                    lemma_put_back(before, j as int, key, Value::Table(inner));
                }
                t.insert(j, (key, Value::Table(inner)));
                Ok(())
            },
            Value::Array(mut a) => {
                proof {
                    lemma_toml_array(a);
                }
                let ghost a0 = a@;
                match a.pop() {
                    Some(Value::Table(mut inner)) => {
                        proof {
                            lemma_toml_table(inner);
                        }
                        match keyval_exec(&mut inner, path, pi + 1, is_array, keys, v, defined) {
                            Ok(()) => {},
                            Err(m) => return Err(m),
                        }
                        proof {
                            lemma_toml_table(inner);
                        }
                        a.push(Value::Table(inner));
                        proof {
                            lemma_swap_last(a0, Value::Table(inner));
                            lemma_toml_array(a);
                            lemma_put_back(before, j as int, key, Value::Array(a));
                        }
                        t.insert(j, (key, Value::Array(a)));
                        Ok(())
                    },
                    Some(x) => {
                        assert(toml_of(x) == items(a0).last());
                        Err("internal")
                    },
                    None => Err("internal"),
                }
            },
            Value::String(_) => Err("internal"),
            Value::Integer(_) => Err("internal"),
            Value::Float(_) => Err("internal"),
            Value::Boolean(_) => Err("internal"),
            Value::Datetime(_) => Err("internal"),
        }
    }
}

/// The entry that a walk opens at `keys[i]`: where it is in `t1`, and that it is sorted.
proof fn lemma_open_ok(t: Entries, k: Seq<char>)
    requires
        tab_ok(t),
    ensures
        ({
            let t1 = if key_pos(t, k) < t.len() {
                t
            } else {
                tab_insert(t, k, Toml::Tab(Seq::empty()))
            };
            &&& tab_ok(t1)
            &&& 0 <= key_pos(t1, k) < t1.len()
            &&& t1[key_pos(t1, k)].0 == k
            &&& sorted_deep(t1[key_pos(t1, k)].1)
        }),
{
    let t1 = if key_pos(t, k) < t.len() {
        t
    } else {
        tab_insert(t, k, Toml::Tab(Seq::empty()))
    };
    if key_pos(t, k) >= t.len() {
        lemma_empty_ok();
        lemma_insert_ok(t, k, Toml::Tab(Seq::empty()));
        lemma_tab_insert_has(t, k, Toml::Tab(Seq::empty()));
    }
    lemma_key_pos_bound(t1, k);
    lemma_tab_ok(t1);
}

/// The last table of an array of sorted values, replaced by a sorted table, leaves the
/// array sorted.
proof fn lemma_swap_last_ok(a: Seq<Toml>, n: Entries)
    requires
        sorted_deep(Toml::Arr(a)),
        a.len() > 0,
        tab_ok(n),
    ensures
        sorted_deep(Toml::Arr(a.drop_last().push(Toml::Tab(n)))),
        sorted_deep(a.last()),
{
    lemma_arr_ok(a);
    lemma_arr_ok(a.drop_last().push(Toml::Tab(n)));
}

/// Walking a `[table]` header keeps a sorted root sorted.
pub proof fn lemma_walk_table_ok(t: Entries, keys: Seq<Seq<char>>, i: int, arrays: Seq<Seq<char>>)
    requires
        tab_ok(t),
    ensures
        walk_table(t, keys, i, arrays) matches Ok(n) ==> tab_ok(n),
    decreases keys.len() - i,
{
    if 0 <= i < keys.len() {
        let k = keys[i];
        lemma_open_ok(t, k);
        let t1 = if key_pos(t, k) < t.len() {
            t
        } else {
            tab_insert(t, k, Toml::Tab(Seq::empty()))
        };
        let j = key_pos(t1, k);
        match t1[j].1 {
            Toml::Tab(inner) => {
                lemma_walk_table_ok(inner, keys, i + 1, arrays);
                if let Ok(n) = walk_table(inner, keys, i + 1, arrays) {
                    lemma_replace_ok(t1, j, Toml::Tab(n));
                }
            },
            Toml::Arr(a) => {
                if a.len() > 0 && a.last() is Tab {
                    lemma_arr_ok(a);
                    let inner = a.last()->Tab_0;
                    lemma_walk_table_ok(inner, keys, i + 1, arrays);
                    if let Ok(n) = walk_table(inner, keys, i + 1, arrays) {
                        lemma_swap_last_ok(a, n);
                        lemma_replace_ok(t1, j, Toml::Arr(a.drop_last().push(Toml::Tab(n))));
                    }
                }
            },
            _ => {},
        }
    }
}

/// Walking a `[[array]]` header keeps a sorted root sorted.
pub proof fn lemma_walk_array_ok(t: Entries, keys: Seq<Seq<char>>, i: int, arrays: Seq<Seq<char>>)
    requires
        tab_ok(t),
    ensures
        walk_array(t, keys, i, arrays) matches Ok((n, _)) ==> tab_ok(n),
    decreases keys.len() - i,
{
    if 0 <= i < keys.len() {
        let k = keys[i];
        lemma_empty_ok();
        if i == keys.len() - 1 {
            if key_pos(t, k) >= t.len() {
                lemma_arr_ok(seq![Toml::Tab(Seq::empty())]);
                lemma_insert_ok(t, k, Toml::Arr(seq![Toml::Tab(Seq::empty())]));
            } else {
                lemma_key_pos_bound(t, k);
                lemma_tab_ok(t);
                let j = key_pos(t, k);
                if let Toml::Arr(a) = t[j].1 {
                    lemma_arr_ok(a);
                    lemma_arr_ok(a.push(Toml::Tab(Seq::empty())));
                    lemma_replace_ok(t, j, Toml::Arr(a.push(Toml::Tab(Seq::empty()))));
                }
            }
        } else {
            lemma_open_ok(t, k);
            let t1 = if key_pos(t, k) < t.len() {
                t
            } else {
                tab_insert(t, k, Toml::Tab(Seq::empty()))
            };
            let j = key_pos(t1, k);
            match t1[j].1 {
                Toml::Tab(inner) => {
                    lemma_walk_array_ok(inner, keys, i + 1, arrays);
                    if let Ok((n, _)) = walk_array(inner, keys, i + 1, arrays) {
                        lemma_replace_ok(t1, j, Toml::Tab(n));
                    }
                },
                Toml::Arr(a) => {
                    if a.len() > 0 && a.last() is Tab {
                        lemma_arr_ok(a);
                        let inner = a.last()->Tab_0;
                        lemma_walk_array_ok(inner, keys, i + 1, arrays);
                        if let Ok((n, _)) = walk_array(inner, keys, i + 1, arrays) {
                            lemma_swap_last_ok(a, n);
                            lemma_replace_ok(t1, j, Toml::Arr(a.drop_last().push(Toml::Tab(n))));
                        }
                    }
                },
                _ => {},
            }
        }
    }
}

/// Setting a sorted value under a dotted key keeps a sorted table sorted.
pub proof fn lemma_dotted_ok(t: Entries, keys: Seq<Seq<char>>, i: int, v: Toml, prefix: Seq<Seq<char>>, defined: Seq<Seq<char>>)
    requires
        tab_ok(t),
        sorted_deep(v),
    ensures
        dotted(t, keys, i, v, prefix, defined) matches Ok((n, _)) ==> tab_ok(n),
    decreases keys.len() - i,
{
    if 0 <= i < keys.len() {
        let k = keys[i];
        if i == keys.len() - 1 {
            lemma_insert_ok(t, k, v);
        } else {
            lemma_open_ok(t, k);
            let t1 = if key_pos(t, k) < t.len() {
                t
            } else {
                tab_insert(t, k, Toml::Tab(Seq::empty()))
            };
            let j = key_pos(t1, k);
            if let Toml::Tab(inner) = t1[j].1 {
                lemma_dotted_ok(inner, keys, i + 1, v, prefix, defined);
                if let Ok((n, _)) = dotted(inner, keys, i + 1, v, prefix, defined) {
                    lemma_replace_ok(t1, j, Toml::Tab(n));
                }
            }
        }
    }
}

/// Setting a sorted value in an inline table keeps it sorted.
pub proof fn lemma_inline_ok(t: Entries, keys: Seq<Seq<char>>, i: int, v: Toml)
    requires
        tab_ok(t),
        sorted_deep(v),
    ensures
        inline_set(t, keys, i, v) matches Ok(n) ==> tab_ok(n),
    decreases keys.len() - i,
{
    if 0 <= i < keys.len() {
        let k = keys[i];
        if i == keys.len() - 1 {
            lemma_insert_ok(t, k, v);
        } else {
            lemma_open_ok(t, k);
            let t1 = if key_pos(t, k) < t.len() {
                t
            } else {
                tab_insert(t, k, Toml::Tab(Seq::empty()))
            };
            let j = key_pos(t1, k);
            if let Toml::Tab(inner) = t1[j].1 {
                lemma_inline_ok(inner, keys, i + 1, v);
                if let Ok(n) = inline_set(inner, keys, i + 1, v) {
                    lemma_replace_ok(t1, j, Toml::Tab(n));
                }
            }
        }
    }
}

/// Setting a sorted value under the current header keeps a sorted root sorted.
pub proof fn lemma_keyval_ok(t: Entries, path: Seq<Seq<char>>, pi: int, is_array: bool, keys: Seq<Seq<char>>, v: Toml, defined: Seq<Seq<char>>)
    requires
        tab_ok(t),
        sorted_deep(v),
    ensures
        keyval(t, path, pi, is_array, keys, v, defined) matches Ok((n, _)) ==> tab_ok(n),
    decreases path.len() - pi,
{
    if pi < 0 || pi >= path.len() {
        lemma_dotted_ok(t, keys, 0, v, path, defined);
    } else {
        let k = path[pi];
        let j = key_pos(t, k);
        if j < t.len() {
            lemma_key_pos_bound(t, k);
            lemma_tab_ok(t);
            match t[j].1 {
                Toml::Tab(inner) => {
                    lemma_keyval_ok(inner, path, pi + 1, is_array, keys, v, defined);
                    if let Ok((n, _)) = keyval(inner, path, pi + 1, is_array, keys, v, defined) {
                        lemma_replace_ok(t, j, Toml::Tab(n));
                    }
                },
                Toml::Arr(a) => {
                    if a.len() > 0 && a.last() is Tab {
                        lemma_arr_ok(a);
                        let inner = a.last()->Tab_0;
                        lemma_keyval_ok(inner, path, pi + 1, is_array, keys, v, defined);
                        if let Ok((n, _)) = keyval(inner, path, pi + 1, is_array, keys, v, defined) {
                            lemma_swap_last_ok(a, n);
                            lemma_replace_ok(t, j, Toml::Arr(a.drop_last().push(Toml::Tab(n))));
                        }
                    }
                },
                _ => {},
            }
        }
    }
}

} // verus!
