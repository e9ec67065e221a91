//! Sorting a table by groups: a key whose preceding text holds a line that
//! is not a comment (a blank line, say) starts a group, and each group is
//! sorted on its own, keeping the group's leading text on its first key.
use vstd::prelude::*;
use vstd::relations::*;

use toml_edit::{Key, Table};

use crate::model::{
    DecorModel, EntryModel, KeyModel, TableModel, key_index, keys_distinct, lemma_present_from,
    present,
};
use crate::order::{
    chars_less, chars_lt, chars_of, lemma_chars_lt_asymmetric, lemma_chars_lt_connected,
    lemma_chars_lt_irreflexive, lemma_chars_lt_transitive, lemma_stable_order_range,
    distinct, sort_positions, stable_order,
};
use crate::toml::{
    decor_default, decor_prefix, item_clone, key_clone, key_leaf_decor, key_model,
    key_with_leaf_decor, raw_as_str, table_clear, table_clone, table_get_key_value,
    table_insert_formatted, table_iter, table_model,
};

verus! {

/// The number of lines of `s` (as `str::lines` splits it) that do not start
/// with `#`: a line starts at the beginning and after each `\n`, and a line
/// must hold at least one character (a final line ending starts no line).
pub open spec fn uncommented_lines(s: Seq<char>) -> nat
    decreases s.len(),
{
    if s.len() == 0 {
        0
    } else {
        let j = s.len() - 1;
        uncommented_lines(s.drop_last()) + if (j == 0 || s[j - 1] == '\n') && s[j] != '#' {
            1nat
        } else {
            0nat
        }
    }
}

/// Counts the lines of `s` that do not start with `#`.
pub fn count_uncommented_lines(s: &str) -> (r: usize)
    ensures
        r == uncommented_lines(s@),
{
    let cs = chars_of(s);
    let mut count: usize = 0;
    let mut i: usize = 0;
    while i < cs.len()
        invariant
            i <= cs@.len(),
            cs@ == s@,
            count == uncommented_lines(cs@.take(i as int)),
            count <= i,
        decreases cs@.len() - i,
    {
        let starts = (i == 0 || cs[i - 1] == '\n') && cs[i] != '#';
        if starts {
            count = count + 1;
        }
        assert(cs@.take(i + 1).drop_last() =~= cs@.take(i as int));
        i = i + 1;
    }
    assert(cs@.take(i as int) =~= cs@);
    count
}

/// The text before a key, or the empty text where it has none.
pub open spec fn prefix_text(k: KeyModel) -> Seq<char> {
    match k.decor.prefix {
        Some(Some(t)) => t,
        _ => Seq::empty(),
    }
}

/// Entry `j` starts a group.
pub open spec fn starts_group(es: Seq<EntryModel>, j: int) -> bool {
    uncommented_lines(prefix_text(es[j].key)) > 0
}

/// The entry that starts the group of entry `j` (the first group starts at
/// entry 0 whether or not entry 0 starts a group).
pub open spec fn group_start(es: Seq<EntryModel>, j: int) -> int
    decreases j,
{
    if j <= 0 {
        0
    } else if starts_group(es, j) {
        j
    } else {
        group_start(es, j - 1)
    }
}

/// The order of (group, name) pairs.
pub open spec fn group_lt(a: (usize, Seq<char>), b: (usize, Seq<char>)) -> bool {
    a.0 < b.0 || (a.0 == b.0 && chars_lt(a.1, b.1))
}

/// What entry `j` is sorted by: its group, then its name.
pub open spec fn group_key(es: Seq<EntryModel>, j: int) -> (usize, Seq<char>) {
    (group_start(es, j) as usize, es[j].key.name)
}

/// The entries in the order of their groups, and by name within a group.
pub open spec fn group_order(es: Seq<EntryModel>) -> Seq<int> {
    stable_order(
        Seq::new(es.len(), |j: int| group_key(es, j)),
        |a: (usize, Seq<char>), b: (usize, Seq<char>)| group_lt(a, b),
    )
}

/// The decor of a key that has neither prefix nor suffix.
pub open spec fn no_decor() -> DecorModel {
    DecorModel { prefix: None, suffix: None }
}

/// The key of entry `j`, without its decor where it starts a group.
pub open spec fn stripped_key(es: Seq<EntryModel>, j: int) -> KeyModel {
    if starts_group(es, j) {
        KeyModel { decor: no_decor(), ..es[j].key }
    } else {
        es[j].key
    }
}

/// Position `q` of the order `o` is the first of its group.
pub open spec fn first_of_group(es: Seq<EntryModel>, o: Seq<int>, q: int) -> bool {
    q == 0 || group_start(es, o[q - 1]) != group_start(es, o[q])
}

/// The key at position `q` of the sorted entries: the first key of a group
/// that a key started takes that key's decor.
pub open spec fn grouped_key(es: Seq<EntryModel>, o: Seq<int>, q: int) -> KeyModel {
    let j = o[q];
    let g = group_start(es, j);
    if first_of_group(es, o, q) && starts_group(es, g) {
        KeyModel { decor: es[g].key.decor, ..stripped_key(es, j) }
    } else {
        stripped_key(es, j)
    }
}

/// The entries sorted by groups.
pub open spec fn grouped_entries(es: Seq<EntryModel>) -> Seq<EntryModel> {
    let o = group_order(es);
    Seq::new(es.len(), |q: int| EntryModel { key: grouped_key(es, o, q), item: es[o[q]].item })
}

/// A table after sorting by groups: the entries that hold something, sorted
/// by groups (entries that hold nothing are dropped).
pub open spec fn grouped_model(t: TableModel) -> TableModel {
    TableModel { entries: grouped_entries(present(t.entries)), ..t }
}

/// `group_lt` is a strict total order.
pub proof fn lemma_group_lt_strict_total()
    ensures
        strict_total_ordering(|a: (usize, Seq<char>), b: (usize, Seq<char>)| group_lt(a, b)),
{
    assert forall|a: (usize, Seq<char>)| #[trigger] group_lt(a, a) == false by {
        lemma_chars_lt_irreflexive(a.1);
    }
    assert forall|a: (usize, Seq<char>), b: (usize, Seq<char>)|
        #[trigger] group_lt(a, b) && #[trigger] group_lt(b, a) implies a == b by {
        lemma_chars_lt_asymmetric(a.1, b.1);
    }
    assert forall|a: (usize, Seq<char>), b: (usize, Seq<char>), c: (usize, Seq<char>)|
        #[trigger] group_lt(a, b) && #[trigger] group_lt(b, c) implies group_lt(a, c) by {
        if a.0 == b.0 && b.0 == c.0 {
            lemma_chars_lt_transitive(a.1, b.1, c.1);
        }
    }
    assert forall|a: (usize, Seq<char>), b: (usize, Seq<char>)| a != b implies #[trigger] group_lt(
        a,
        b,
    ) || #[trigger] group_lt(b, a) by {
        if a.0 == b.0 && a.1 != b.1 {
            lemma_chars_lt_connected(a.1, b.1);
        }
    }
}

/// A group starts at or before its entries, at an entry that starts one.
pub proof fn lemma_group_start_range(es: Seq<EntryModel>, j: int)
    requires
        0 <= j,
    ensures
        0 <= group_start(es, j) <= j,
        j > 0 && starts_group(es, j) ==> group_start(es, j) == j,
        group_start(es, j) > 0 ==> starts_group(es, group_start(es, j)),
    decreases j,
{
    if j > 0 && !starts_group(es, j) {
        lemma_group_start_range(es, j - 1);
    }
}

/// In entries with distinct keys, the key of entry `k` is found at `k`.
pub proof fn lemma_key_index_distinct(es: Seq<EntryModel>, k: int)
    requires
        keys_distinct(es),
        0 <= k < es.len(),
    ensures
        key_index(es, es[k].key.name) == k,
    decreases es.len(),
{
    if k < es.len() - 1 {
        lemma_key_index_distinct(es.drop_last(), k);
        assert(es.drop_last()[k] == es[k]);
    } else {
        lemma_key_index_absent(es.drop_last(), es[k].key.name);
    }
}

/// A name that no entry has is not found.
pub proof fn lemma_key_index_absent(es: Seq<EntryModel>, name: Seq<char>)
    requires
        forall|i: int| 0 <= i < es.len() ==> es[i].key.name != name,
    ensures
        key_index(es, name) == -1,
    decreases es.len(),
{
    if es.len() > 0 {
        lemma_key_index_absent(es.drop_last(), name);
    }
}

/// The key of an entry that holds something, with its formatting.
fn present_key<'a>(t: &'a Table, name: &String, Ghost(j): Ghost<int>) -> (r: &'a Key)
    requires
        keys_distinct(table_model(*t).entries),
        0 <= j < present(table_model(*t).entries).len(),
        name@ == present(table_model(*t).entries)[j].key.name,
    ensures
        key_model(*r) == present(table_model(*t).entries)[j].key,
{
    let ghost m = table_model(*t);
    proof {
        let k = lemma_present_from(m.entries, j);
        lemma_key_index_distinct(m.entries, k);
    }
    let (k, _) = table_get_key_value(t, name.as_str()).unwrap();
    k
}

/// Sorts the table by groups.
pub fn sort_by_group(table: &mut Table)
    ensures
        table_model(*final(table)) == grouped_model(table_model(*old(table))),
{
    let ghost m = table_model(*table);
    let snapshot = table_clone(table);
    table_clear(table);
    let ghost ps = present(m.entries);
    let entries = table_iter(&snapshot);
    let n = entries.len();
    let mut flags: Vec<bool> = Vec::new();
    let mut starts: Vec<usize> = Vec::new();
    let mut curr: usize = 0;
    for j in 0..n
        invariant
            n == entries@.len(),
            n == ps.len(),
            table_model(snapshot) == m,
            ps == present(m.entries),
            keys_distinct(m.entries),
            forall|i: int| 0 <= i < n ==> (#[trigger] entries@[i]).0@ == ps[i].key.name,
            flags@.len() == j,
            starts@.len() == j,
            forall|i: int| 0 <= i < j ==> #[trigger] flags@[i] == starts_group(ps, i),
            forall|i: int| 0 <= i < j ==> #[trigger] starts@[i] == group_start(ps, i),
            j > 0 ==> curr == group_start(ps, j - 1),
            j == 0 ==> curr == 0,
    {
        let key = present_key(&snapshot, &entries[j].0, Ghost(j as int));
        let decor = key_leaf_decor(key);
        let text = match decor_prefix(&decor) {
            Some(raw) => match raw_as_str(&raw) {
                Some(s) => s,
                None => String::new(),
            },
            None => String::new(),
        };
        assert(text@ == prefix_text(ps[j as int].key));
        let count = count_uncommented_lines(text.as_str());
        if count > 0 {
            curr = j;
        }
        flags.push(count > 0);
        starts.push(curr);
    }
    let ghost keys_spec = Seq::new(n as nat, |j: int| group_key(ps, j));
    let mut keys: Vec<(usize, Vec<char>)> = Vec::new();
    for j in 0..n
        invariant
            n == entries@.len(),
            n == ps.len(),
            n == starts@.len(),
            forall|i: int| 0 <= i < n ==> (#[trigger] entries@[i]).0@ == ps[i].key.name,
            forall|i: int| 0 <= i < n ==> #[trigger] starts@[i] == group_start(ps, i),
            keys_spec == Seq::new(n as nat, |j: int| group_key(ps, j)),
            keys@.len() == j,
            forall|i: int| 0 <= i < j ==> #[trigger] keys@[i]@ == keys_spec[i],
    {
        proof {
            lemma_group_start_range(ps, j as int);
        }
        keys.push((starts[j], chars_of(entries[j].0.as_str())));
    }
    proof {
        lemma_group_lt_strict_total();
    }
    let ghost lt = |a: (usize, Seq<char>), b: (usize, Seq<char>)| group_lt(a, b);
    let less = (|a: &(usize, Vec<char>), b: &(usize, Vec<char>)| -> (r: bool)
        ensures
            r == group_lt(a@, b@),
        { a.0 < b.0 || (a.0 == b.0 && chars_less(&a.1, &b.1)) });
    let p = sort_positions(&keys, less, Ghost(lt));
    let ghost o = group_order(ps);
    assert(keys@.map_values(|k: (usize, Vec<char>)| k@) =~= keys_spec);
    proof {
        lemma_stable_order_range(keys_spec, lt);
        assert(o == stable_order(keys_spec, lt));
        assert(distinct(o));
    }
    assert(grouped_entries(ps).take(0) =~= Seq::<EntryModel>::empty());
    for q in 0..n
        invariant
            n == entries@.len(),
            n == ps.len(),
            n == starts@.len(),
            n == flags@.len(),
            n == p@.len(),
            table_model(snapshot) == m,
            ps == present(m.entries),
            keys_distinct(m.entries),
            forall|i: int| 0 <= i < n ==> (#[trigger] entries@[i]).0@ == ps[i].key.name,
            forall|i: int| 0 <= i < n ==> #[trigger] starts@[i] == group_start(ps, i),
            forall|i: int| 0 <= i < n ==> #[trigger] flags@[i] == starts_group(ps, i),
            p@.map_values(|x: usize| x as int) == o,
            o == group_order(ps),
            o.len() == n,
            forall|i: int| 0 <= i < n ==> 0 <= #[trigger] o[i] < n,
            distinct(o),
            table_model(*table) == (TableModel {
                entries: grouped_entries(ps).take(q as int),
                ..m
            }),
    {
        assert(p@.map_values(|x: usize| x as int)[q as int] == p@[q as int] as int);
        let j = p[q];
        proof {
            lemma_group_start_range(ps, j as int);
        }
        let source_key = present_key(&snapshot, &entries[j].0, Ghost(j as int));
        let mut key = key_clone(source_key);
        if flags[j] {
            key = key_with_leaf_decor(key, decor_default());
        }
        let first = q == 0 || starts[p[q - 1]] != starts[j];
        if q > 0 {
            assert(p@.map_values(|x: usize| x as int)[q - 1] == p@[q - 1] as int);
        }
        let g = starts[j];
        if first && flags[g] {
            let leader = present_key(&snapshot, &entries[g].0, Ghost(g as int));
            key = key_with_leaf_decor(key, key_leaf_decor(leader));
        }
        assert(key_model(key) == grouped_key(ps, o, q as int));
        proof {
            let k = lemma_present_from(m.entries, j as int);
            lemma_key_index_distinct(m.entries, k);
        }
        let (_, item) = table_get_key_value(&snapshot, entries[j].0.as_str()).unwrap();
        let ghost before = table_model(*table).entries;
        proof {
            assert forall|i: int| 0 <= i < before.len() implies before[i].key.name != key_model(
                key,
            ).name by {
                assert(before[i] == grouped_entries(ps)[i]);
                assert(o[i] != o[q as int]);
                lemma_distinct_present_names(m.entries, o[i], o[q as int]);
            }
            lemma_key_index_absent(before, key_model(key).name);
        }
        table_insert_formatted(table, &key, item_clone(item));
        assert(table_model(*table).entries =~= grouped_entries(ps).take(q + 1));
    }
    assert(grouped_entries(ps).take(n as int) =~= grouped_entries(ps));
}

/// Distinct entries that hold something have distinct names.
pub proof fn lemma_distinct_present_names(es: Seq<EntryModel>, a: int, b: int)
    requires
        keys_distinct(es),
        0 <= a < present(es).len(),
        0 <= b < present(es).len(),
        a != b,
    ensures
        present(es)[a].key.name != present(es)[b].key.name,
{
    lemma_present_order(es, a, b);
}

/// Entries that hold something keep their order.
pub proof fn lemma_present_order(es: Seq<EntryModel>, a: int, b: int)
    requires
        0 <= a < present(es).len(),
        0 <= b < present(es).len(),
        a != b,
    ensures
        exists|x: int, y: int|
            0 <= x < es.len() && 0 <= y < es.len() && x != y && present(es)[a] == es[x]
                && present(es)[b] == es[y],
    decreases es.len(),
{
    let p = present(es);
    let last = es.len() - 1;
    if crate::model::is_present(es.last()) && (a == p.len() - 1 || b == p.len() - 1) {
        if a == p.len() - 1 {
            let y = lemma_present_from(es.drop_last(), b);
            assert(p[b] == es.drop_last()[y]);
            assert(p[a] == es[last]);
            assert(es[y] == es.drop_last()[y]);
        } else {
            let x = lemma_present_from(es.drop_last(), a);
            assert(p[a] == es.drop_last()[x]);
            assert(p[b] == es[last]);
            assert(es[x] == es.drop_last()[x]);
        }
    } else {
        lemma_present_order(es.drop_last(), a, b);
        let (x, y) = choose|x: int, y: int|
            0 <= x < es.drop_last().len() && 0 <= y < es.drop_last().len() && x != y
                && present(es.drop_last())[a] == es.drop_last()[x] && present(es.drop_last())[b]
                == es.drop_last()[y];
        assert(es[x] == es.drop_last()[x]);
        assert(es[y] == es.drop_last()[y]);
    }
}

} // verus!
