use vstd::prelude::*;
use vstd::string::*;
use crate::json::{i64_text, write_i64};
use crate::text::{push_char, push_str, to_chars};
use super::{entries, items, lemma_toml_array, lemma_toml_table, toml_of, Entries, Toml, Value};

verus! {

/// The uppercase hex digit for `d < 16`.
pub open spec fn hex_upper(d: int) -> char {
    if d < 10 {
        (d + 48) as char
    } else {
        (d + 55) as char
    }
}

/// How a character is written inside a quoted string or key.
pub open spec fn escape_char(c: char) -> Seq<char> {
    if c == '"' {
        seq!['\\', '"']
    } else if c == '\\' {
        seq!['\\', '\\']
    } else if c == '\n' {
        seq!['\\', 'n']
    } else if c == '\r' {
        seq!['\\', 'r']
    } else if c == '\t' {
        seq!['\\', 't']
    } else if c == '\u{8}' {
        seq!['\\', 'b']
    } else if c == '\u{c}' {
        seq!['\\', 'f']
    } else if (c as int) < 0x20 {
        seq!['\\', 'u', '0', '0', hex_upper((c as int) / 16), hex_upper((c as int) % 16)]
    } else {
        seq![c]
    }
}

/// The characters of `s`, each escaped.
pub open spec fn escaped(s: Seq<char>) -> Seq<char>
    decreases s.len(),
{
    if s.len() == 0 {
        Seq::empty()
    } else {
        escaped(s.drop_last()) + escape_char(s.last())
    }
}

/// `s` as a quoted string.
pub open spec fn quoted(s: Seq<char>) -> Seq<char> {
    seq!['"'] + escaped(s) + seq!['"']
}

/// Whether `c` may stand in a bare key.
pub open spec fn bare_char(c: char) -> bool {
    ('a' <= c <= 'z') || ('A' <= c <= 'Z') || ('0' <= c <= '9') || c == '_' || c == '-'
}

/// How a key is written: bare where it is not empty and has only bare characters,
/// else quoted.
pub open spec fn key_text(k: Seq<char>) -> Seq<char> {
    if k.len() > 0 && forall|i: int| 0 <= i < k.len() ==> bare_char(#[trigger] k[i]) {
        k
    } else {
        quoted(k)
    }
}

/// The header path of key `k` under `prefix`.
pub open spec fn path_text(prefix: Seq<char>, k: Seq<char>) -> Seq<char> {
    if prefix.len() == 0 {
        key_text(k)
    } else {
        prefix + seq!['.'] + key_text(k)
    }
}

/// How a value is written after `key = `: arrays and tables inline.
pub open spec fn value_text(v: Toml) -> Seq<char>
    decreases v, 0int,
{
    match v {
        Toml::Str(s) => quoted(s),
        Toml::Int(n) => i64_text(n),
        Toml::Float(t) => t,
        Toml::Bool(b) => if b {
            "true"@
        } else {
            "false"@
        },
        Toml::Datetime(s) => s,
        Toml::Arr(a) => seq!['['] + items_text(a, a.len() as int) + seq![']'],
        Toml::Tab(t) => "{ "@ + pairs_text(t, t.len() as int) + " }"@,
    }
}

/// The first `k` items of an inline array, separated by `, `.
pub open spec fn items_text(a: Seq<Toml>, k: int) -> Seq<char>
    decreases a, k,
{
    if k <= 0 || k > a.len() {
        Seq::empty()
    } else if k == 1 {
        value_text(a[0])
    } else {
        items_text(a, k - 1) + ", "@ + value_text(a[k - 1])
    }
}

/// The first `k` entries of an inline table, `key = value`, separated by `, `.
pub open spec fn pairs_text(t: Entries, k: int) -> Seq<char>
    decreases t, k,
{
    if k <= 0 || k > t.len() {
        Seq::empty()
    } else {
        let p = key_text(t[k - 1].0) + " = "@ + value_text(t[k - 1].1);
        if k == 1 {
            p
        } else {
            pairs_text(t, k - 1) + ", "@ + p
        }
    }
}

/// Whether an array is written as an array of tables: it is not empty and holds only
/// tables.
pub open spec fn table_array(a: Seq<Toml>) -> bool {
    a.len() > 0 && forall|i: int| 0 <= i < a.len() ==> (#[trigger] a[i]) is Tab
}

/// The `key = value` line of entry `e`.
pub open spec fn line_text(e: (Seq<char>, Toml)) -> Seq<char> {
    key_text(e.0) + " = "@ + value_text(e.1) + seq!['\n']
}

/// The lines of the first `k` entries that are neither tables nor arrays.
pub open spec fn scalars_text(t: Entries, k: int) -> Seq<char>
    decreases k,
{
    if k <= 0 || k > t.len() {
        Seq::empty()
    } else {
        scalars_text(t, k - 1) + if t[k - 1].1 is Tab || t[k - 1].1 is Arr {
            Seq::empty()
        } else {
            line_text(t[k - 1])
        }
    }
}

/// A table under the header path `prefix`: first its plain entries, then its arrays
/// that are written inline, then its arrays of tables as `[[path]]` sections, then its
/// tables as `[path]` sections; so every line of the table comes before its first
/// header.
pub open spec fn table_text(t: Entries, prefix: Seq<char>) -> Seq<char>
    decreases t, 3int, 0int,
{
    scalars_text(t, t.len() as int) + arrays_text(t, t.len() as int) + table_arrays_text(
        t,
        prefix,
        t.len() as int,
    ) + subtables_text(t, prefix, t.len() as int)
}

/// The lines of the arrays among the first `k` entries that are not arrays of tables.
pub open spec fn arrays_text(t: Entries, k: int) -> Seq<char>
    decreases k,
{
    if k <= 0 || k > t.len() {
        Seq::empty()
    } else {
        arrays_text(t, k - 1) + match t[k - 1].1 {
            Toml::Arr(a) => if table_array(a) {
                Seq::empty()
            } else {
                line_text(t[k - 1])
            },
            _ => Seq::empty(),
        }
    }
}

/// The arrays of tables among the first `k` entries, as `[[path]]` sections.
pub open spec fn table_arrays_text(t: Entries, prefix: Seq<char>, k: int) -> Seq<char>
    decreases t, 2int, k,
{
    if k <= 0 || k > t.len() {
        Seq::empty()
    } else {
        table_arrays_text(t, prefix, k - 1) + match t[k - 1].1 {
            Toml::Arr(a) => if table_array(a) {
                sections_text(a, path_text(prefix, t[k - 1].0), a.len() as int)
            } else {
                Seq::empty()
            },
            _ => Seq::empty(),
        }
    }
}

/// The first `k` tables of an array of tables at `path`, each as a `[[path]]` section.
pub open spec fn sections_text(a: Seq<Toml>, path: Seq<char>, k: int) -> Seq<char>
    decreases a, 1int, k,
{
    if k <= 0 || k > a.len() {
        Seq::empty()
    } else {
        sections_text(a, path, k - 1) + "[["@ + path + "]]\n"@ + match a[k - 1] {
            Toml::Tab(inner) => table_text(inner, path),
            _ => Seq::empty(),
        }
    }
}

/// The tables among the first `k` entries, each as a `[path]` section.
pub open spec fn subtables_text(t: Entries, prefix: Seq<char>, k: int) -> Seq<char>
    decreases t, 2int, k,
{
    if k <= 0 || k > t.len() {
        Seq::empty()
    } else {
        subtables_text(t, prefix, k - 1) + match t[k - 1].1 {
            Toml::Tab(inner) => seq!['['] + path_text(prefix, t[k - 1].0) + "]\n"@ + table_text(
                inner,
                path_text(prefix, t[k - 1].0),
            ),
            _ => Seq::empty(),
        }
    }
}

/// The TOML text of a value: the sections of a table; nothing for anything else.
pub open spec fn document_text(v: Toml) -> Seq<char> {
    match v {
        Toml::Tab(t) => table_text(t, Seq::empty()),
        _ => Seq::empty(),
    }
}

/// The uppercase hex digit for `d < 16`.
fn hex_upper_exec(d: u32) -> (c: char)
    requires
        d < 16,
    ensures
        c == hex_upper(d as int),
{
    let x = d as u8;
    if x < 10 {
        (x + 48) as char
    } else {
        (x + 55) as char
    }
}

/// Appends `c`, escaped.
fn escape_char_exec(c: char, out: &mut String)
    ensures
        final(out)@ == old(out)@ + escape_char(c),
{
    let ghost start = out@;
    if c == '"' {
        push_char(out, '\\');
        push_char(out, '"');
    } else if c == '\\' {
        push_char(out, '\\');
        push_char(out, '\\');
    } else if c == '\n' {
        push_char(out, '\\');
        push_char(out, 'n');
    } else if c == '\r' {
        push_char(out, '\\');
        push_char(out, 'r');
    } else if c == '\t' {
        push_char(out, '\\');
        push_char(out, 't');
    } else if c == '\u{8}' {
        push_char(out, '\\');
        push_char(out, 'b');
    } else if c == '\u{c}' {
        push_char(out, '\\');
        push_char(out, 'f');
    } else if (c as u32) < 0x20 {
        let n = c as u32;
        push_char(out, '\\');
        push_char(out, 'u');
        push_char(out, '0');
        push_char(out, '0');
        push_char(out, hex_upper_exec(n / 16));
        push_char(out, hex_upper_exec(n % 16));
    } else {
        push_char(out, c);
    }
    assert(out@ =~= start + escape_char(c));
}

/// Appends `s` as a quoted string.
fn write_quoted(s: &str, out: &mut String)
    ensures
        final(out)@ == old(out)@ + quoted(s@),
{
    let ghost start = out@;
    let v = to_chars(s);
    push_char(out, '"');
    let mut i: usize = 0;
    assert(v@.take(0) =~= Seq::<char>::empty());
    while i < v.len()
        invariant
            i <= v@.len(),
            v@ == s@,
            out@ == start + seq!['"'] + escaped(v@.take(i as int)),
        decreases v@.len() - i,
    {
        assert(v@.take(i + 1).drop_last() =~= v@.take(i as int));
        escape_char_exec(v[i], out);
        assert(out@ =~= start + seq!['"'] + escaped(v@.take(i + 1)));
        i = i + 1;
    }
    assert(v@.take(v@.len() as int) =~= v@);
    push_char(out, '"');
    assert(out@ =~= start + quoted(s@));
}

/// How the key `k` is written.
fn key_repr(k: &str) -> (r: String)
    ensures
        r@ == key_text(k@),
{
    let v = to_chars(k);
    let mut bare = v.len() > 0;
    let mut i: usize = 0;
    while i < v.len()
        invariant
            i <= v@.len(),
            v@ == k@,
            bare == (v@.len() > 0 && forall|j: int| 0 <= j < i ==> bare_char(#[trigger] v@[j])),
        decreases v@.len() - i,
    {
        let c = v[i];
        let ok = ('a' <= c && c <= 'z') || ('A' <= c && c <= 'Z') || ('0' <= c && c <= '9') || c == '_'
            || c == '-';
        bare = bare && ok;
        i = i + 1;
    }
    if bare {
        k.to_owned()
    } else {
        let mut s = String::new();
        write_quoted(k, &mut s);
        s
    }
}

/// The header path of key `key` under `prefix`.
fn join_path(prefix: &str, key: &str) -> (r: String)
    ensures
        r@ == path_text(prefix@, key@),
{
    let k = key_repr(key);
    if prefix.unicode_len() == 0 {
        k
    } else {
        let mut s = prefix.to_owned();
        push_char(&mut s, '.');
        push_str(&mut s, k.as_str());
        s
    }
}

/// Whether an array is written as an array of tables.
fn all_tables(a: &Vec<Value>) -> (r: bool)
    ensures
        r == table_array(items(a@)),
{
    if a.len() == 0 {
        return false;
    }
    let mut i: usize = 0;
    while i < a.len()
        invariant
            i <= a@.len(),
            forall|j: int| 0 <= j < i ==> (#[trigger] items(a@)[j]) is Tab,
        decreases a@.len() - i,
    {
        match &a[i] {
            Value::Table(_) => {},
            _ => {
                assert(!(items(a@)[i as int] is Tab));
                return false;
            },
        }
        i = i + 1;
    }
    true
}

/// Appends how `v` is written after `key = `.
fn write_value(v: &Value, out: &mut String)
    ensures
        final(out)@ == old(out)@ + value_text(toml_of(*v)),
    decreases v,
{
    let ghost start = out@;
    match v {
        Value::String(s) => write_quoted(s.as_str(), out),
        Value::Integer(n) => write_i64(out, *n),
        Value::Float(t) => push_str(out, t.as_str()),
        Value::Boolean(b) => {
            if *b {
                push_str(out, "true");
            } else {
                push_str(out, "false");
            }
        },
        Value::Datetime(s) => push_str(out, s.as_str()),
        Value::Array(a) => {
            proof {
                lemma_toml_array(*a);
            }
            let ghost xs = items(a@);
            push_char(out, '[');
            let mut i: usize = 0;
            while i < a.len()
                invariant
                    *v == Value::Array(*a),
                    i <= a@.len(),
                    xs == items(a@),
                    out@ == start + seq!['['] + items_text(xs, i as int),
                decreases a@.len() - i,
            {
                if i > 0 {
                    push_str(out, ", ");
                }
                assert(decreases_to!(*v => (*v)->Array_0));
                assert((*v)->Array_0 == *a);
                assert(decreases_to!(*a => a@));
                assert(decreases_to!(a@ => a@[i as int]));
                assert(decreases_to!(*v => a@[i as int]));
                write_value(&a[i], out);
                assert(out@ =~= start + seq!['['] + items_text(xs, i + 1));
                i = i + 1;
            }
            push_char(out, ']');
        },
        Value::Table(t) => {
            proof {
                lemma_toml_table(*t);
            }
            let ghost es = entries(t@);
            push_str(out, "{ ");
            let mut i: usize = 0;
            while i < t.len()
                invariant
                    *v == Value::Table(*t),
                    i <= t@.len(),
                    es == entries(t@),
                    out@ == start + "{ "@ + pairs_text(es, i as int),
                decreases t@.len() - i,
            {
                if i > 0 {
                    push_str(out, ", ");
                }
                let k = key_repr(t[i].0.as_str());
                push_str(out, k.as_str());
                push_str(out, " = ");
                assert(decreases_to!(*v => (*v)->Table_0));
                assert((*v)->Table_0 == *t);
                assert(decreases_to!(*t => t@));
                assert(decreases_to!(t@ => t@[i as int]));
                assert(decreases_to!(t@[i as int] => t@[i as int].1));
                assert(decreases_to!(*v => t@[i as int].1));
                write_value(&t[i].1, out);
                assert(out@ =~= start + "{ "@ + pairs_text(es, i + 1));
                i = i + 1;
            }
            push_str(out, " }");
        },
    }
    assert(out@ =~= start + value_text(toml_of(*v)));
}

/// Appends the `key = value` line of an entry.
fn write_line(k: &String, v: &Value, out: &mut String)
    ensures
        final(out)@ == old(out)@ + line_text((k@, toml_of(*v))),
{
    let ghost start = out@;
    let kr = key_repr(k.as_str());
    push_str(out, kr.as_str());
    push_str(out, " = ");
    write_value(v, out);
    push_char(out, '\n');
    assert(out@ =~= start + line_text((k@, toml_of(*v))));
}

/// Appends a table under the header path `prefix`, as `table_text` says.
fn serialize_table(t: &Vec<(String, Value)>, prefix: &str, out: &mut String)
    ensures
        final(out)@ == old(out)@ + table_text(entries(t@), prefix@),
    decreases t,
{
    let ghost es = entries(t@);
    let ghost start = out@;
    let mut i: usize = 0;
    while i < t.len()
        invariant
            i <= t@.len(),
            es == entries(t@),
            out@ == start + scalars_text(es, i as int),
        decreases t@.len() - i,
    {
        match &t[i].1 {
            Value::Table(_) => {},
            Value::Array(_) => {},
            v => {
                write_line(&t[i].0, v, out);
            },
        }
        assert(out@ =~= start + scalars_text(es, i + 1));
        i = i + 1;
    }
    let ghost mid1 = out@;
    let mut i: usize = 0;
    assert(mid1 =~= mid1 + arrays_text(es, 0));
    while i < t.len()
        invariant
            i <= t@.len(),
            es == entries(t@),
            out@ == mid1 + arrays_text(es, i as int),
        decreases t@.len() - i,
    {
        match &t[i].1 {
            Value::Array(a) => {
                proof {
                    lemma_toml_array(*a);
                }
                if !all_tables(a) {
                    write_line(&t[i].0, &t[i].1, out);
                }
            },
            _ => {},
        }
        assert(out@ =~= mid1 + arrays_text(es, i + 1));
        i = i + 1;
    }
    let ghost mid15 = out@;
    let mut i: usize = 0;
    assert(mid15 =~= mid15 + table_arrays_text(es, prefix@, 0));
    while i < t.len()
        invariant
            i <= t@.len(),
            es == entries(t@),
            out@ == mid15 + table_arrays_text(es, prefix@, i as int),
        decreases t@.len() - i,
    {
        let ghost before = out@;
        match &t[i].1 {
            Value::Array(a) => {
                proof {
                    lemma_toml_array(*a);
                }
                if all_tables(a) {
                    let path = join_path(prefix, t[i].0.as_str());
                    let ghost xs = items(a@);
                    let mut j: usize = 0;
                    while j < a.len()
                        invariant
                            j <= a@.len(),
                            xs == items(a@),
                            t@[i as int].1 == Value::Array(*a),
                            i < t@.len(),
                            out@ == before + sections_text(xs, path@, j as int),
                        decreases a@.len() - j,
                    {
                        push_str(out, "[[");
                        push_str(out, path.as_str());
                        push_str(out, "]]\n");
                        match &a[j] {
                            Value::Table(inner) => {
                                proof {
                                    lemma_toml_table(*inner);
                                }
                                assert(decreases_to!(*t => t@));
                                assert(decreases_to!(t@ => t@[i as int]));
                                assert(decreases_to!(t@[i as int] => t@[i as int].1));
                                assert(decreases_to!(t@[i as int].1 => (t@[i as int].1)->Array_0));
                                assert(decreases_to!(*a => a@));
                                assert(decreases_to!(a@ => a@[j as int]));
                                assert(decreases_to!(a@[j as int] => (a@[j as int])->Table_0));
                                assert(decreases_to!(*t => *inner));
                                serialize_table(inner, path.as_str(), out);
                            },
                            _ => {},
                        }
                        assert(out@ =~= before + sections_text(xs, path@, j + 1));
                        j = j + 1;
                    }
                }
            },
            _ => {},
        }
        assert(out@ =~= mid15 + table_arrays_text(es, prefix@, i + 1));
        i = i + 1;
    }
    let ghost mid2 = out@;
    let mut i: usize = 0;
    assert(mid2 =~= mid2 + subtables_text(es, prefix@, 0));
    while i < t.len()
        invariant
            i <= t@.len(),
            es == entries(t@),
            out@ == mid2 + subtables_text(es, prefix@, i as int),
        decreases t@.len() - i,
    {
        let ghost before = out@;
        match &t[i].1 {
            Value::Table(inner) => {
                proof {
                    lemma_toml_table(*inner);
                }
                let path = join_path(prefix, t[i].0.as_str());
                push_char(out, '[');
                push_str(out, path.as_str());
                push_str(out, "]\n");
                assert(decreases_to!(*t => t@));
                assert(decreases_to!(t@ => t@[i as int]));
                assert(decreases_to!(t@[i as int] => t@[i as int].1));
                assert(decreases_to!(t@[i as int].1 => (t@[i as int].1)->Table_0));
                assert(decreases_to!(*t => *inner));
                serialize_table(inner, path.as_str(), out);
            },
            _ => {},
        }
        assert(out@ =~= mid2 + subtables_text(es, prefix@, i + 1));
        i = i + 1;
    }
    assert(out@ =~= start + table_text(es, prefix@));
}

/// The TOML text of a value: for a table, its plain entries and its arrays written
/// inline, then its arrays of tables, then its tables as sections, keys in the order
/// the table holds them; nothing for anything else.
pub fn to_string(v: &Value) -> (s: String)
    ensures
        s@ == document_text(toml_of(*v)),
{
    let mut out = String::new();
    match v {
        Value::Table(t) => {
            proof {
                lemma_toml_table(*t);
            }
            proof {
                reveal_strlit("");
                assert(""@ =~= Seq::<char>::empty());
            }
            serialize_table(t, "", &mut out);
            assert(out@ =~= table_text(entries(t@), Seq::empty()));
        },
        _ => {},
    }
    out
}

} // verus!
