//! Header positions: `toml_edit` prints tables in the order of their
//! positions, and these functions renumber them.
use vstd::prelude::*;

use toml_edit::{DocumentMut, Item, Table};

use crate::heading::{
    Heading, HeadingList, HeadingListView, HeadingView, headings_view, lists_view, strings_view,
};
use crate::model::{
    EntryModel, ItemModel, TableModel, key_index, lemma_key_index, lemma_present_from, lookup, present,
    with_item,
};
use crate::order::distinct;
use crate::toml::{
    ItemKind, document_model, document_root_mut, root_is_table, item_as_table_mut, item_as_tables_mut, item_kind, item_model, table_get_mut,
    table_iter, table_model, table_set_position, tables_get_mut, tables_len, tables_model,
};

verus! {

/// The next number after `x`: `usize` addition that wraps around (the
/// numbers count tables, so it never wraps in practice).
pub open spec fn step(x: usize) -> usize {
    if x == usize::MAX {
        0
    } else {
        (x + 1) as usize
    }
}

/// Adds one to a counter.
pub fn next_number(x: usize) -> (r: usize)
    ensures
        r == step(x),
{
    x.wrapping_add(1)
}

/// The table at `path` under `t` (`t` itself for the empty path), where each
/// key on the way holds a table.
pub open spec fn table_at(t: TableModel, path: Seq<Seq<char>>) -> Option<TableModel>
    decreases path.len(),
{
    if path.len() == 0 {
        Some(t)
    } else {
        match lookup(t.entries, path[0]) {
            ItemModel::Table(sub) => table_at(sub, path.drop_first()),
            _ => None,
        }
    }
}

/// `t` with the position of the table at `path` set to `pos` (unchanged
/// where there is no table at `path`).
pub open spec fn set_position_at(t: TableModel, path: Seq<Seq<char>>, pos: usize) -> TableModel
    decreases path.len(),
{
    if path.len() == 0 {
        TableModel { position: Some(pos), ..t }
    } else {
        match lookup(t.entries, path[0]) {
            ItemModel::Table(sub) => TableModel {
                entries: with_item(
                    t.entries,
                    key_index(t.entries, path[0]),
                    ItemModel::Table(set_position_at(sub, path.drop_first(), pos)),
                ),
                ..t
            },
            _ => t,
        }
    }
}

/// Where no table is at `path`, setting its position changes nothing.
pub proof fn lemma_set_position_absent(t: TableModel, path: Seq<Seq<char>>, pos: usize)
    requires
        table_at(t, path) is None,
    ensures
        set_position_at(t, path, pos) == t,
    decreases path.len(),
{
    if path.len() > 0 {
        match lookup(t.entries, path[0]) {
            ItemModel::Table(sub) => {
                lemma_set_position_absent(sub, path.drop_first(), pos);
                lemma_key_index(t.entries, path[0]);
                let k = key_index(t.entries, path[0]);
                assert(with_item(t.entries, k, ItemModel::Table(sub)) =~= t.entries);
            },
            _ => {},
        }
    }
}

/// Sets the position of the table at `path[i..]` under `t`; tells whether
/// there is such a table.
pub fn set_position_path(t: &mut Table, path: &Vec<String>, i: usize, pos: usize) -> (found: bool)
    requires
        i <= path@.len(),
    ensures
        found == table_at(table_model(*old(t)), strings_view(path@).skip(i as int)) is Some,
        table_model(*final(t)) == set_position_at(
            table_model(*old(t)),
            strings_view(path@).skip(i as int),
            pos,
        ),
    decreases path@.len() - i,
{
    let ghost m = table_model(*t);
    let ghost rest = strings_view(path@).skip(i as int);
    if i == path.len() {
        assert(rest.len() == 0);
        table_set_position(t, pos);
        return true;
    }
    assert(rest[0] == path@[i as int]@);
    assert(rest.drop_first() =~= strings_view(path@).skip(i + 1));
    match table_get_mut(t, path[i].as_str()) {
        None => false,
        Some(item) => {
            let ghost k = key_index(m.entries, path@[i as int]@);
            match item_as_table_mut(item) {
                None => {
                    proof {
                        lemma_key_index(m.entries, path@[i as int]@);
                    }
                    assert(with_item(m.entries, k, m.entries[k].item) =~= m.entries);
                    false
                },
                Some(sub) => set_position_path(sub, path, i + 1, pos),
            }
        },
    }
}

/// Numbers the tables under `t` from `idx` on, in document order: each
/// table (each table of an array of tables) takes the next number, then the
/// tables under it are numbered. Returns the table and the next number.
pub open spec fn walk(t: TableModel, idx: usize) -> (TableModel, usize)
    decreases t.entries, present(t.entries).len() + 1,
{
    let (es, next) = walk_entries(t.entries, 0, t.entries, idx);
    (TableModel { entries: es, ..t }, next)
}

/// Numbers the tables under the entries `i..` of `orig` that hold something,
/// changing them in `es` (the entries as changed so far).
pub open spec fn walk_entries(orig: Seq<EntryModel>, i: int, es: Seq<EntryModel>, idx: usize) -> (
    Seq<EntryModel>,
    usize,
)
    decreases orig, present(orig).len() - i,
{
    if i < 0 || i >= present(orig).len() {
        (es, idx)
    } else {
        let e = present(orig)[i];
        proof {
            lemma_present_from(orig, i);
        }
        let (item, next) = numbered(e.item, idx);
        walk_entries(orig, i + 1, with_item(es, key_index(es, e.key.name), item), next)
    }
}

/// Numbers what an item holds: a table takes the number `idx`, then the
/// tables under it are numbered; each table of an array of tables likewise.
pub open spec fn numbered(item: ItemModel, idx: usize) -> (ItemModel, usize)
    decreases item, 0nat,
{
    match item {
        ItemModel::Table(sub) => {
            let (w, next) = walk(sub, step(idx));
            (ItemModel::Table(TableModel { position: Some(idx), ..w }), next)
        },
        ItemModel::ArrayOfTables(ts) => {
            let (ws, next) = walk_tables(ts, idx);
            (ItemModel::ArrayOfTables(ws), next)
        },
        _ => (item, idx),
    }
}

/// Numbers the tables of an array of tables, and the tables under them.
pub open spec fn walk_tables(ts: Seq<TableModel>, idx: usize) -> (Seq<TableModel>, usize)
    decreases ts, 0nat,
{
    if ts.len() == 0 {
        (ts, idx)
    } else {
        let (init, mid) = walk_tables(ts.drop_last(), idx);
        let (w, next) = walk(ts.last(), step(mid));
        (init.push(TableModel { position: Some(mid), ..w }), next)
    }
}

/// The entries `es` agree with `orig` on all keys, and on the items of all
/// entries whose name is not among `done`.
pub open spec fn changed_only(es: Seq<EntryModel>, orig: Seq<EntryModel>, done: Seq<Seq<char>>) -> bool {
    &&& es.len() == orig.len()
    &&& forall|x: int| 0 <= x < es.len() ==> (#[trigger] es[x]).key == orig[x].key
    &&& forall|x: int|
        0 <= x < es.len() && !done.contains(#[trigger] es[x].key.name) ==> es[x] == orig[x]
}

/// Among distinct names, the `i`-th is not one of those before it.
pub proof fn lemma_name_not_before(pnames: Seq<Seq<char>>, i: int)
    requires
        distinct(pnames),
        0 <= i < pnames.len(),
    ensures
        !pnames.take(i).contains(pnames[i]),
{
    if pnames.take(i).contains(pnames[i]) {
        let j = choose|j: int| 0 <= j < i && pnames.take(i)[j] == pnames[i];
        assert(pnames[j] == pnames[i]);
    }
}

/// Changing only the entry `k`, named `pnames[i]`, keeps `changed_only`
/// with that name added to those done.
pub proof fn lemma_changed_only_step(
    es: Seq<EntryModel>,
    es2: Seq<EntryModel>,
    orig: Seq<EntryModel>,
    pnames: Seq<Seq<char>>,
    i: int,
    k: int,
)
    requires
        changed_only(es, orig, pnames.take(i)),
        0 <= i < pnames.len(),
        0 <= k < es.len(),
        es2.len() == es.len(),
        es[k].key.name == pnames[i],
        es2[k].key == es[k].key,
        forall|x: int| 0 <= x < es.len() && x != k ==> #[trigger] es2[x] == es[x],
    ensures
        changed_only(es2, orig, pnames.take(i + 1)),
{
    assert(pnames.take(i + 1) =~= pnames.take(i).push(pnames[i]));
    assert forall|x: int| 0 <= x < es2.len() implies (#[trigger] es2[x]).key == orig[x].key by {
        if x != k {
            assert(es2[x] == es[x]);
        }
    }
    assert forall|x: int|
        0 <= x < es2.len() && !pnames.take(i + 1).contains(#[trigger] es2[x].key.name) implies es2[x]
        == orig[x] by {
        if x != k {
            assert(es2[x] == es[x]);
            if pnames.take(i).contains(es[x].key.name) {
                let j = choose|j: int| 0 <= j < i && pnames.take(i)[j] == es[x].key.name;
                assert(pnames.take(i + 1)[j] == es[x].key.name);
            }
        } else {
            assert(pnames.take(i + 1)[i] == pnames[i]);
        }
    }
}

/// Numbers the tables that `item` holds, from `idx` on (see `numbered`).
pub fn number_entry(item: &mut Item, idx: &mut usize)
    ensures
        (item_model(*final(item)), *final(idx)) == numbered(item_model(*old(item)), *old(idx)),
    decreases item_model(*old(item)),
{
    let ghost it = item_model(*item);
    match item_kind(item) {
        ItemKind::Table => {
            let tab = item_as_table_mut(item).unwrap();
            let ghost sub = table_model(*tab);
            let number = *idx;
            table_set_position(tab, number);
            *idx = next_number(number);
            proof {
                assert(decreases_to!(it => it->Table_0));
                assert(decreases_to!(sub => sub.entries));
            }
            walk_tables_set_position(tab, idx);
            proof {
                let w = walk(sub, step(number));
                assert(walk(TableModel { position: Some(number), ..sub }, step(number)) == (
                TableModel { position: Some(number), ..w.0 }, w.1));
            }
        },
        ItemKind::ArrayOfTables => {
            let arr = item_as_tables_mut(item).unwrap();
            let count = tables_len(arr);
            let ghost ts = tables_model(*arr);
            let ghost idx_start = *idx;
            assert(ts.take(0) =~= Seq::<TableModel>::empty());
            for j in 0..count
                invariant
                    it == item_model(*old(item)),
                    it == ItemModel::ArrayOfTables(ts),
                    count == ts.len(),
                    tables_model(*arr).len() == ts.len(),
                    tables_model(*arr).skip(j as int) == ts.skip(j as int),
                    (tables_model(*arr).take(j as int), *idx) == walk_tables(
                        ts.take(j as int),
                        idx_start,
                    ),
            {
                let ghost before = tables_model(*arr);
                assert(before.skip(j as int)[0] == before[j as int]);
                assert(ts.skip(j as int)[0] == ts[j as int]);
                let tab = tables_get_mut(arr, j).unwrap();
                let number = *idx;
                table_set_position(tab, number);
                *idx = next_number(number);
                proof {
                    assert(decreases_to!(it => it->ArrayOfTables_0));
                    assert(decreases_to!(ts => ts[j as int]));
                    assert(decreases_to!(ts[j as int] => ts[j as int].entries));
                }
                walk_tables_set_position(tab, idx);
                proof {
                    let tj = ts[j as int];
                    let w = walk(tj, step(number));
                    assert(walk(TableModel { position: Some(number), ..tj }, step(number)) == (
                    TableModel { position: Some(number), ..w.0 }, w.1));
                    assert(ts.take(j + 1).drop_last() =~= ts.take(j as int));
                    assert(ts.take(j + 1).last() == tj);
                    assert(tables_model(*arr).take(j + 1) =~= before.take(j as int).push(
                        tables_model(*arr)[j as int],
                    ));
                    assert(tables_model(*arr).skip(j + 1) =~= before.skip(j + 1));
                    assert(ts.skip(j + 1) =~= ts.skip(j as int).drop_first());
                    assert(before.skip(j + 1) =~= before.skip(j as int).drop_first());
                }
            }
            assert(tables_model(*arr).take(count as int) =~= tables_model(*arr));
            assert(ts.take(count as int) =~= ts);
        },
        _ => {},
    }
}

/// The names of the keys of `t` that hold something, in order.
pub(crate) fn entry_names(t: &Table) -> (r: Vec<String>)
    ensures
        strings_view(r@) == present(table_model(*t).entries).map_values(|e: EntryModel| e.key.name),
        distinct(strings_view(r@)),
{
    let ghost pnames = present(table_model(*t).entries).map_values(|e: EntryModel| e.key.name);
    let entries = table_iter(t);
    let mut names: Vec<String> = Vec::new();
    let n = entries.len();
    for i in 0..n
        invariant
            n == entries@.len(),
            n == pnames.len(),
            pnames == present(table_model(*t).entries).map_values(|e: EntryModel| e.key.name),
            forall|j: int| 0 <= j < n ==> (#[trigger] entries@[j]).0@ == pnames[j],
            names@.len() == i,
            forall|j: int| 0 <= j < i ==> #[trigger] names@[j]@ == pnames[j],
    {
        names.push(entries[i].0.clone());
    }
    assert(entries@.map_values(|e: (String, &Item)| e.0@) =~= pnames);
    assert(strings_view(names@) =~= pnames);
    names
}

/// Numbers the tables under `table` from `idx` on (see `walk`).
pub fn walk_tables_set_position(table: &mut Table, idx: &mut usize)
    ensures
        (table_model(*final(table)), *final(idx)) == walk(table_model(*old(table)), *old(idx)),
    decreases table_model(*table).entries,
{
    let ghost m = table_model(*table);
    let ghost idx0 = *idx;
    let ghost pnames = present(m.entries).map_values(|e: EntryModel| e.key.name);
    let names = entry_names(table);
    assert forall|j: int| 0 <= j < names@.len() implies #[trigger] names@[j]@ == pnames[j] by {
        assert(strings_view(names@)[j] == names@[j]@);
    }
    let n = names.len();
    assert(pnames.take(0) =~= Seq::<Seq<char>>::empty());
    for i in 0..n
        invariant
            m == table_model(*old(table)),
            n == names@.len(),
            n == present(m.entries).len(),
            pnames == present(m.entries).map_values(|e: EntryModel| e.key.name),
            distinct(pnames),
            forall|j: int| 0 <= j < n ==> #[trigger] names@[j]@ == pnames[j],
            table_model(*table) == (TableModel { entries: table_model(*table).entries, ..m }),
            changed_only(table_model(*table).entries, m.entries, pnames.take(i as int)),
            walk_entries(m.entries, 0, m.entries, idx0) == walk_entries(
                m.entries,
                i as int,
                table_model(*table).entries,
                *idx,
            ),
    {
        let ghost es = table_model(*table).entries;
        let ghost e = present(m.entries)[i as int];
        assert(pnames[i as int] == e.key.name);
        let ghost kp = lemma_present_from(m.entries, i as int);
        proof {
            lemma_name_not_before(pnames, i as int);
        }
        let item = table_get_mut(table, names[i].as_str());
        proof {
            if item is None {
                assert(es[kp].key.name == e.key.name);
            }
        }
        let item = item.unwrap();
        let ghost k = key_index(es, e.key.name);
        proof {
            lemma_key_index(es, e.key.name);
            assert(es[kp].key.name == e.key.name);
            assert(kp == k);
            assert(es[k] == m.entries[k]);
        }
        proof {
            assert(decreases_to!(m.entries => m.entries[kp]));
            assert(decreases_to!(m.entries[kp] => m.entries[kp].item));
        }
        number_entry(item, idx);
        proof {
            let es2 = table_model(*table).entries;
            lemma_changed_only_step(es, es2, m.entries, pnames, i as int, k);
        }
    }
}

/// `a + b` in `usize`, wrapping around (the numbers count tables, so it
/// never wraps in practice).
pub open spec fn add_wrapping(a: usize, b: usize) -> usize {
    if a + b > usize::MAX {
        (a + b - usize::MAX - 1) as usize
    } else {
        (a + b) as usize
    }
}

fn add_numbers(a: usize, b: usize) -> (r: usize)
    ensures
        r == add_wrapping(a, b),
{
    a.wrapping_add(b)
}

/// The number that lexicographic ordering starts from: one after the first
/// dependency table's number (as if it were 0 where there is none).
pub open spec fn lex_base(first_table: Option<usize>) -> usize {
    step(
        match first_table {
            Some(f) => f,
            None => 0,
        },
    )
}

/// Whether lexicographic ordering numbers the table of heading `h`, in the
/// first list (`later` false) or a later one: a complete heading of a table
/// under a dependency table, or, after the first list, that of a dependency
/// table itself. The first dependency table keeps its number, so that the
/// others follow it and the tables around them keep their places.
pub open spec fn renumbered(h: HeadingView, later: bool) -> bool {
    match h {
        HeadingView::Complete(segs) => segs.len() > 1 || (later && segs.len() > 0),
        _ => false,
    }
}

/// Numbers the headings of lists `l..` from `c` on: the table of each
/// heading that `renumbered` picks takes the number `base + c` (where it
/// exists).
pub open spec fn lex_lists(
    root: TableModel,
    lists: Seq<HeadingListView>,
    l: int,
    c: usize,
    base: usize,
) -> TableModel
    decreases lists.len() - l,
{
    if l < 0 || l >= lists.len() {
        root
    } else {
        let (r, next) = lex_headings(root, lists[l].headings, 0, c, base, l > 0);
        lex_lists(r, lists, l + 1, next, base)
    }
}

/// The root after numbering heading `h` with `base + c` (see `lex_lists`).
pub open spec fn lex_one(root: TableModel, h: HeadingView, c: usize, base: usize, later: bool) -> TableModel {
    if renumbered(h, later) {
        set_position_at(root, h->Complete_0, add_wrapping(base, c))
    } else {
        root
    }
}

/// Numbers headings `h..` of one list (see `lex_lists`).
pub open spec fn lex_headings(
    root: TableModel,
    hs: Seq<HeadingView>,
    h: int,
    c: usize,
    base: usize,
    later: bool,
) -> (TableModel, usize)
    decreases hs.len() - h,
{
    if h < 0 || h >= hs.len() {
        (root, c)
    } else {
        lex_headings(lex_one(root, hs[h], c, base, later), hs, h + 1, step(c), base, later)
    }
}

/// The document's root table after ordering the dependency sub-tables by
/// their headings.
pub open spec fn sorted_lexicographically(
    root: TableModel,
    lists: Seq<HeadingListView>,
    first_table: Option<usize>,
) -> TableModel {
    lex_lists(root, lists, 0, 0, lex_base(first_table))
}

/// Positions the tables under the dependency tables and the dependency
/// tables after the first in the order of their headings, list by list,
/// from one after `first_table` (the first dependency table's number), which
/// keeps its own: each dependency table comes right before the tables under
/// it, and before the next dependency table.
pub fn sort_lexicographical(
    first_table: Option<usize>,
    heading_order: &Vec<HeadingList>,
    toml: &mut DocumentMut,
)
    requires
        root_is_table(*old(toml)),
    ensures
        root_is_table(*final(toml)),
        document_model(*final(toml)) == sorted_lexicographically(
            document_model(*old(toml)),
            lists_view(heading_order@),
            first_table,
        ),
{
    let ghost lists = lists_view(heading_order@);
    let base = next_number(
        match first_table {
            Some(f) => f,
            None => 0,
        },
    );
    let root = document_root_mut(toml);
    let mut c: usize = 0;
    let n = heading_order.len();
    for l in 0..n
        invariant
            n == heading_order@.len(),
            lists == lists_view(heading_order@),
            base == lex_base(first_table),
            lex_lists(document_model(*old(toml)), lists, 0, 0, base) == lex_lists(
                table_model(*root),
                lists,
                l as int,
                c,
                base,
            ),
    {
        let hs = &heading_order[l].headings;
        let ghost hv = lists[l as int].headings;
        assert(hv == headings_view(hs@));
        let later = l > 0;
        let ghost start = table_model(*root);
        let ghost c0 = c;
        let m = hs.len();
        for h in 0..m
            invariant
                m == hs@.len(),
                hv == headings_view(hs@),
                base == lex_base(first_table),
                lex_headings(start, hv, 0, c0, base, later) == lex_headings(
                    table_model(*root),
                    hv,
                    h as int,
                    c,
                    base,
                    later,
                ),
        {
            match &hs[h] {
                Heading::Complete(segs) => {
                    assert(hv[h as int] == HeadingView::Complete(strings_view(segs@)));
                    assert(strings_view(segs@).skip(0) =~= strings_view(segs@));
                    if segs.len() > 1 || (later && segs.len() > 0) {
                        set_position_path(root, segs, 0, add_numbers(base, c));
                    }
                },
                Heading::Next(_) => {},
            }
            c = next_number(c);
        }
    }
}

/// The first list collected under the key `key`, or -1.
pub open spec fn find_list(lists: Seq<HeadingListView>, key: Seq<char>) -> int
    decreases lists.len(),
{
    if lists.len() == 0 {
        -1
    } else {
        let before = find_list(lists.drop_last(), key);
        if before >= 0 {
            before
        } else if lists.last().key == key {
            lists.len() - 1
        } else {
            -1
        }
    }
}

/// Numbers the tables of the complete headings `h..` from `idx` on, where
/// the table exists.
pub open spec fn order_headings(root: TableModel, hs: Seq<HeadingView>, h: int, idx: usize) -> (
    TableModel,
    usize,
)
    decreases hs.len() - h,
{
    if h < 0 || h >= hs.len() {
        (root, idx)
    } else {
        match hs[h] {
            HeadingView::Complete(segs) => if table_at(root, segs) is Some {
                order_headings(set_position_at(root, segs, idx), hs, h + 1, step(idx))
            } else {
                order_headings(root, hs, h + 1, idx)
            },
            _ => order_headings(root, hs, h + 1, idx),
        }
    }
}

/// Numbers the tables named `name` from `idx` on: where a list of headings
/// was collected under the name, its complete headings' tables in turn;
/// otherwise the top-level table (or array of tables) of that name and the
/// tables under it. Returns the root and the next number.
pub open spec fn order_step(root: TableModel, name: Seq<char>, lists: Seq<HeadingListView>, idx: usize) -> (
    TableModel,
    usize,
) {
    let f = find_list(lists, name);
    if f >= 0 {
        order_headings(root, lists[f].headings, 0, idx)
    } else {
        let it = lookup(root.entries, name);
        if it is Empty {
            (root, idx)
        } else {
            let (it2, next) = numbered(it, idx);
            (TableModel { entries: with_item(root.entries, key_index(root.entries, name), it2), ..root }, next)
        }
    }
}

/// Numbers the tables named in `ordering[o..]`, in turn, from `idx` on (see
/// `order_step`).
pub open spec fn order_from(
    root: TableModel,
    ordering: Seq<Seq<char>>,
    o: int,
    lists: Seq<HeadingListView>,
    idx: usize,
) -> TableModel
    decreases ordering.len() - o,
{
    if o < 0 || o >= ordering.len() {
        root
    } else {
        let (r, next) = order_step(root, ordering[o], lists, idx);
        order_from(r, ordering, o + 1, lists, next)
    }
}

/// Once a prefix of the lists holds one collected under `key`, so do the
/// lists.
proof fn lemma_find_list_prefix(lists: Seq<HeadingListView>, key: Seq<char>, j: int)
    requires
        0 <= j <= lists.len(),
        find_list(lists.take(j), key) >= 0,
    ensures
        find_list(lists, key) == find_list(lists.take(j), key),
    decreases lists.len(),
{
    if j < lists.len() {
        assert(lists.drop_last().take(j) =~= lists.take(j));
        lemma_find_list_prefix(lists.drop_last(), key, j);
    } else {
        assert(lists.take(j) =~= lists);
    }
}

/// Finds the first list collected under `key`.
fn find_heading_list(lists: &Vec<HeadingList>, key: &String) -> (r: Option<usize>)
    ensures
        match r {
            Some(f) => {
                &&& f < lists@.len()
                &&& f as int == find_list(lists_view(lists@), key@)
            },
            None => find_list(lists_view(lists@), key@) == -1,
        },
{
    let ghost lv = lists_view(lists@);
    let mut i: usize = 0;
    while i < lists.len()
        invariant
            i <= lists@.len(),
            lv == lists_view(lists@),
            find_list(lv.take(i as int), key@) == -1,
        decreases lists@.len() - i,
    {
        assert(lv.take(i + 1).drop_last() =~= lv.take(i as int));
        if lists[i].key == *key {
            proof {
                assert(lv.take(i + 1).last() == lv[i as int]);
                lemma_find_list_prefix(lv, key@, i + 1);
            }
            return Some(i);
        }
        i = i + 1;
    }
    assert(lv.take(i as int) =~= lv);
    None
}

/// Positions the tables in the order given by `ordering`, numbering from 0.
pub fn sort_by_ordering(ordering: &[String], heading_order: &Vec<HeadingList>, toml: &mut DocumentMut)
    requires
        root_is_table(*old(toml)),
    ensures
        root_is_table(*final(toml)),
        document_model(*final(toml)) == order_from(
            document_model(*old(toml)),
            ordering@.map_values(|s: String| s@),
            0,
            lists_view(heading_order@),
            0,
        ),
{
    let ghost names = ordering@.map_values(|s: String| s@);
    let ghost lists = lists_view(heading_order@);
    let root = document_root_mut(toml);
    let mut idx: usize = 0;
    let n = ordering.len();
    for o in 0..n
        invariant
            n == ordering@.len(),
            names == ordering@.map_values(|s: String| s@),
            lists == lists_view(heading_order@),
            order_from(document_model(*old(toml)), names, 0, lists, 0) == order_from(
                table_model(*root),
                names,
                o as int,
                lists,
                idx,
            ),
    {
        let heading = &ordering[o];
        assert(names[o as int] == heading@);
        match find_heading_list(heading_order, heading) {
            Some(f) => {
                let hs = &heading_order[f].headings;
                let ghost hv = lists[f as int].headings;
                assert(hv == headings_view(hs@));
                let ghost start = table_model(*root);
                let ghost idx0 = idx;
                let m = hs.len();
                for h in 0..m
                    invariant
                        m == hs@.len(),
                        hv == headings_view(hs@),
                        order_headings(start, hv, 0, idx0) == order_headings(
                            table_model(*root),
                            hv,
                            h as int,
                            idx,
                        ),
                {
                    match &hs[h] {
                        Heading::Complete(segs) => {
                            assert(hv[h as int] == HeadingView::Complete(strings_view(segs@)));
                            assert(strings_view(segs@).skip(0) =~= strings_view(segs@));
                            let ghost before = table_model(*root);
                            if set_position_path(root, segs, 0, idx) {
                                idx = next_number(idx);
                            } else {
                                proof {
                                    lemma_set_position_absent(before, strings_view(segs@), idx);
                                }
                            }
                        },
                        Heading::Next(_) => {},
                    }
                }
            },
            None => {
                let ghost r0 = table_model(*root);
                match table_get_mut(root, heading.as_str()) {
                    Some(item) => {
                        number_entry(item, &mut idx);
                    },
                    None => {},
                }
            },
        }
    }
}

} // verus!
