//! What numbering the tables leaves as it was: everything but the positions.
use vstd::prelude::*;

use crate::array::sorted_array;
use crate::laws::{
    in_group_order, law_grouped_entries_sorted_within_groups, law_sorted_by_key_orders_names,
};
use crate::document_laws::{names_in_order, lemma_keyed_keys, lemma_pass_root, lemma_present_index, lemma_sort_dotted_keys};
use crate::group::{
    group_key, group_lt, group_order, grouped_entries, grouped_model, lemma_distinct_present_names,
    lemma_group_lt_strict_total, lemma_key_index_distinct,
};
use crate::order::{chars_le, chars_lt, distinct, lemma_chars_lt_strict_total, lemma_stable_order_range, stable_order};
use crate::numbering_laws::lemma_key_index_same_names;
use crate::sort::{
    PassState, keyed_from, keyed_item_sorted, keyed_step, pass_from, pass_step, passed_item,
    skipped, sorted_document, target_path,
};
use crate::table::{sort_at_path, sorted_table};
use crate::model::{
    ArrayModel, EntryModel, ItemModel, TableModel, ValueModel, key_index, keys_distinct, lemma_key_index,
    lemma_present_from, lookup, names, present, sort_dotted, sort_values_model, sorted_by_key,
    with_item,
};
use crate::heading::{HeadingListView, HeadingView};
use crate::position::{
    add_wrapping, changed_only, lemma_changed_only_step, lemma_name_not_before, find_list, lex_base, lex_headings, lex_lists, lex_one, renumbered, numbered, order_from,
    order_headings, order_step, set_position_at, sorted_lexicographically, step, table_at, walk,
    walk_entries, walk_tables,
};

verus! {

/// A table without the positions of the tables in it: what the numbering
/// of tables leaves as it was.
pub open spec fn content_table(t: TableModel) -> TableModel
    decreases t,
{
    TableModel { position: None, entries: content_entries(t.entries), ..t }
}

/// The entries without positions.
pub open spec fn content_entries(es: Seq<EntryModel>) -> Seq<EntryModel>
    decreases es,
{
    if es.len() == 0 {
        es
    } else {
        content_entries(es.drop_last()).push(
            EntryModel { key: es.last().key, item: content_item(es.last().item) },
        )
    }
}

/// An item without positions.
pub open spec fn content_item(i: ItemModel) -> ItemModel
    decreases i,
{
    match i {
        ItemModel::Table(t) => ItemModel::Table(content_table(t)),
        ItemModel::ArrayOfTables(ts) => ItemModel::ArrayOfTables(content_tables(ts)),
        _ => i,
    }
}

/// The tables of an array of tables without positions.
pub open spec fn content_tables(ts: Seq<TableModel>) -> Seq<TableModel>
    decreases ts,
{
    if ts.len() == 0 {
        ts
    } else {
        content_tables(ts.drop_last()).push(content_table(ts.last()))
    }
}

/// No two keys of a table, at any depth, are the same.
pub open spec fn keys_distinct_deep(t: TableModel) -> bool
    decreases t,
{
    keys_distinct(t.entries) && entries_distinct_deep(t.entries)
}

/// No two keys of a table under the entries are the same.
pub open spec fn entries_distinct_deep(es: Seq<EntryModel>) -> bool
    decreases es,
{
    es.len() == 0 || (entries_distinct_deep(es.drop_last()) && item_distinct_deep(es.last().item))
}

/// No two keys of a table under the item are the same.
pub open spec fn item_distinct_deep(i: ItemModel) -> bool
    decreases i,
{
    match i {
        ItemModel::Table(t) => keys_distinct_deep(t),
        ItemModel::ArrayOfTables(ts) => tables_distinct_deep(ts),
        _ => true,
    }
}

/// No two keys of any of the tables, at any depth, are the same.
pub open spec fn tables_distinct_deep(ts: Seq<TableModel>) -> bool
    decreases ts,
{
    ts.len() == 0 || (tables_distinct_deep(ts.drop_last()) && keys_distinct_deep(ts.last()))
}

pub(crate) proof fn lemma_content_entries(es: Seq<EntryModel>)
    ensures
        content_entries(es).len() == es.len(),
        forall|x: int|
            0 <= x < es.len() ==> #[trigger] content_entries(es)[x] == (EntryModel {
                key: es[x].key,
                item: content_item(es[x].item),
            }),
    decreases es.len(),
{
    if es.len() > 0 {
        lemma_content_entries(es.drop_last());
        assert forall|x: int| 0 <= x < es.len() implies #[trigger] content_entries(es)[x] == (
        EntryModel { key: es[x].key, item: content_item(es[x].item) }) by {
            if x < es.len() - 1 {
                assert(es.drop_last()[x] == es[x]);
            }
        }
    }
}

pub(crate) proof fn lemma_content_tables(ts: Seq<TableModel>)
    ensures
        content_tables(ts).len() == ts.len(),
        forall|x: int| 0 <= x < ts.len() ==> #[trigger] content_tables(ts)[x] == content_table(ts[x]),
    decreases ts.len(),
{
    if ts.len() > 0 {
        lemma_content_tables(ts.drop_last());
        assert forall|x: int| 0 <= x < ts.len() implies #[trigger] content_tables(ts)[x]
            == content_table(ts[x]) by {
            if x < ts.len() - 1 {
                assert(ts.drop_last()[x] == ts[x]);
            }
        }
    }
}

pub(crate) proof fn lemma_entries_distinct_deep(es: Seq<EntryModel>)
    requires
        entries_distinct_deep(es),
    ensures
        forall|x: int| 0 <= x < es.len() ==> item_distinct_deep(#[trigger] es[x].item),
    decreases es.len(),
{
    if es.len() > 0 {
        lemma_entries_distinct_deep(es.drop_last());
        assert forall|x: int| 0 <= x < es.len() implies item_distinct_deep(#[trigger] es[x].item) by {
            if x < es.len() - 1 {
                assert(es.drop_last()[x] == es[x]);
            }
        }
    }
}

pub(crate) proof fn lemma_tables_distinct_deep(ts: Seq<TableModel>)
    requires
        tables_distinct_deep(ts),
    ensures
        forall|x: int| 0 <= x < ts.len() ==> keys_distinct_deep(#[trigger] ts[x]),
    decreases ts.len(),
{
    if ts.len() > 0 {
        lemma_tables_distinct_deep(ts.drop_last());
        assert forall|x: int| 0 <= x < ts.len() implies keys_distinct_deep(#[trigger] ts[x]) by {
            if x < ts.len() - 1 {
                assert(ts.drop_last()[x] == ts[x]);
            }
        }
    }
}

/// Replacing an item by one with the same content keeps the content of the
/// entries.
pub(crate) proof fn lemma_content_with_item(es: Seq<EntryModel>, k: int, it: ItemModel)
    requires
        0 <= k < es.len(),
        content_item(it) == content_item(es[k].item),
    ensures
        content_entries(with_item(es, k, it)) == content_entries(es),
{
    let es2 = with_item(es, k, it);
    lemma_content_entries(es);
    lemma_content_entries(es2);
    assert(content_entries(es2) =~= content_entries(es));
}

/// Setting the position of a table leaves the content.
pub proof fn law_set_position_keeps_content(t: TableModel, p: Seq<Seq<char>>, pos: usize)
    ensures
        content_table(set_position_at(t, p, pos)) == content_table(t),
    decreases p.len(),
{
    if p.len() > 0 {
        match lookup(t.entries, p[0]) {
            ItemModel::Table(sub) => {
                lemma_key_index(t.entries, p[0]);
                let k = key_index(t.entries, p[0]);
                law_set_position_keeps_content(sub, p.drop_first(), pos);
                lemma_content_with_item(
                    t.entries,
                    k,
                    ItemModel::Table(set_position_at(sub, p.drop_first(), pos)),
                );
            },
            _ => {},
        }
    }
}


/// The names of the entries that hold something, in order.
pub open spec fn present_names(es: Seq<EntryModel>) -> Seq<Seq<char>> {
    present(es).map_values(|e: EntryModel| e.key.name)
}

pub(crate) proof fn lemma_numbered_content(item: ItemModel, idx: usize)
    requires
        item_distinct_deep(item),
    ensures
        content_item(numbered(item, idx).0) == content_item(item),
    decreases item, 0nat,
{
    match item {
        ItemModel::Table(sub) => {
            lemma_walk_content(sub, step(idx));
        },
        ItemModel::ArrayOfTables(ts) => {
            lemma_walk_tables_content(ts, idx);
        },
        _ => {},
    }
}

pub(crate) proof fn lemma_walk_content(t: TableModel, idx: usize)
    requires
        keys_distinct_deep(t),
    ensures
        content_table(walk(t, idx).0) == content_table(t),
    decreases t.entries, present(t.entries).len() + 1,
{
    assert(present_names(t.entries).take(0) =~= Seq::<Seq<char>>::empty());
    lemma_walk_entries_content(t.entries, 0, t.entries, idx);
}

pub(crate) proof fn lemma_walk_entries_content(orig: Seq<EntryModel>, i: int, es: Seq<EntryModel>, idx: usize)
    requires
        0 <= i,
        keys_distinct(orig),
        entries_distinct_deep(orig),
        changed_only(es, orig, present_names(orig).take(i)),
        content_entries(es) == content_entries(orig),
    ensures
        content_entries(walk_entries(orig, i, es, idx).0) == content_entries(orig),
    decreases orig, present(orig).len() - i,
{
    if i < present(orig).len() {
        let pnames = present_names(orig);
        let e = present(orig)[i];
        let k0 = lemma_present_from(orig, i);
        assert(pnames[i] == e.key.name);
        assert(distinct(pnames)) by {
            assert forall|a: int, b: int| 0 <= a < pnames.len() && 0 <= b < pnames.len() && a != b implies pnames[a]
                != pnames[b] by {
                lemma_distinct_present_names(orig, a, b);
            }
        }
        lemma_name_not_before(pnames, i);
        assert(es[k0].key == orig[k0].key);
        assert(es[k0] == orig[k0]);
        assert(keys_distinct(es)) by {
            assert forall|a: int, b: int|
                0 <= a < es.len() && 0 <= b < es.len() && a != b implies es[a].key.name
                != es[b].key.name by {
                assert(es[a].key == orig[a].key);
                assert(es[b].key == orig[b].key);
            }
        }
        lemma_key_index_distinct(es, k0);
        lemma_entries_distinct_deep(orig);
        assert(item_distinct_deep(orig[k0].item));
        assert(decreases_to!(orig => orig[k0]));
        assert(decreases_to!(orig[k0] => orig[k0].item));
        lemma_numbered_content(e.item, idx);
        let (item, next) = numbered(e.item, idx);
        let es2 = with_item(es, k0, item);
        lemma_content_with_item(es, k0, item);
        lemma_changed_only_step(es, es2, orig, pnames, i, k0);
        lemma_walk_entries_content(orig, i + 1, es2, next);
    }
}

pub(crate) proof fn lemma_walk_tables_content(ts: Seq<TableModel>, idx: usize)
    requires
        tables_distinct_deep(ts),
    ensures
        content_tables(walk_tables(ts, idx).0) == content_tables(ts),
    decreases ts, 0nat,
{
    if ts.len() > 0 {
        lemma_walk_tables_content(ts.drop_last(), idx);
        let (init, mid) = walk_tables(ts.drop_last(), idx);
        assert(decreases_to!(ts => ts[ts.len() - 1]));
        assert(decreases_to!(ts[ts.len() - 1] => ts[ts.len() - 1].entries));
        lemma_walk_content(ts.last(), step(mid));
        let w = walk(ts.last(), step(mid)).0;
        let out = init.push(TableModel { position: Some(mid), ..w });
        assert(out.drop_last() =~= init);
        assert(content_tables(out) == content_tables(init).push(content_table(out.last())));
    }
}


/// Whether keys are distinct at every depth depends on the content alone.
pub(crate) proof fn lemma_distinct_deep_content(t: TableModel)
    ensures
        keys_distinct_deep(content_table(t)) == keys_distinct_deep(t),
    decreases t,
{
    lemma_content_entries(t.entries);
    let c = content_entries(t.entries);
    assert(keys_distinct(c) == keys_distinct(t.entries)) by {
        if keys_distinct(t.entries) {
            assert forall|a: int, b: int| 0 <= a < c.len() && 0 <= b < c.len() && a != b implies c[a].key.name
                != c[b].key.name by {
                assert(c[a].key == t.entries[a].key);
                assert(c[b].key == t.entries[b].key);
            }
        }
        if keys_distinct(c) {
            assert forall|a: int, b: int|
                0 <= a < t.entries.len() && 0 <= b < t.entries.len() && a != b implies t.entries[a].key.name
                != t.entries[b].key.name by {
                assert(c[a].key == t.entries[a].key);
                assert(c[b].key == t.entries[b].key);
            }
        }
    }
    lemma_entries_distinct_deep_content(t.entries);
}

pub(crate) proof fn lemma_entries_distinct_deep_content(es: Seq<EntryModel>)
    ensures
        entries_distinct_deep(content_entries(es)) == entries_distinct_deep(es),
    decreases es,
{
    if es.len() > 0 {
        let c = content_entries(es);
        assert(c.drop_last() =~= content_entries(es.drop_last()));
        lemma_entries_distinct_deep_content(es.drop_last());
        assert(decreases_to!(es => es[es.len() - 1]));
        assert(decreases_to!(es[es.len() - 1] => es[es.len() - 1].item));
        lemma_item_distinct_deep_content(es.last().item);
    }
}

pub(crate) proof fn lemma_item_distinct_deep_content(i: ItemModel)
    ensures
        item_distinct_deep(content_item(i)) == item_distinct_deep(i),
    decreases i,
{
    match i {
        ItemModel::Table(t) => {
            lemma_distinct_deep_content(t);
        },
        ItemModel::ArrayOfTables(ts) => {
            lemma_tables_distinct_deep_content(ts);
        },
        _ => {},
    }
}

pub(crate) proof fn lemma_tables_distinct_deep_content(ts: Seq<TableModel>)
    ensures
        tables_distinct_deep(content_tables(ts)) == tables_distinct_deep(ts),
    decreases ts,
{
    if ts.len() > 0 {
        let c = content_tables(ts);
        assert(c.drop_last() =~= content_tables(ts.drop_last()));
        lemma_tables_distinct_deep_content(ts.drop_last());
        assert(decreases_to!(ts => ts[ts.len() - 1]));
        lemma_distinct_deep_content(ts.last());
    }
}

/// Tables with the same content have distinct keys at every depth alike.
pub(crate) proof fn lemma_distinct_deep_same_content(a: TableModel, b: TableModel)
    requires
        content_table(a) == content_table(b),
    ensures
        keys_distinct_deep(a) == keys_distinct_deep(b),
{
    lemma_distinct_deep_content(a);
    lemma_distinct_deep_content(b);
}

/// Numbering the tables under an item leaves its content, where keys are
/// distinct at every depth.
pub proof fn law_numbered_keeps_content(item: ItemModel, idx: usize)
    requires
        item_distinct_deep(item),
    ensures
        content_item(numbered(item, idx).0) == content_item(item),
{
    lemma_numbered_content(item, idx);
}


proof fn lemma_lex_headings_content(
    root: TableModel,
    hs: Seq<HeadingView>,
    h: int,
    c: usize,
    base: usize,
    later: bool,
)
    ensures
        content_table(lex_headings(root, hs, h, c, base, later).0) == content_table(root),
    decreases hs.len() - h,
{
    if 0 <= h < hs.len() {
        let r = lex_one(root, hs[h], c, base, later);
        if renumbered(hs[h], later) {
            law_set_position_keeps_content(root, hs[h]->Complete_0, add_wrapping(base, c));
        }
        lemma_lex_headings_content(r, hs, h + 1, step(c), base, later);
    }
}

proof fn lemma_lex_lists_content(root: TableModel, lists: Seq<HeadingListView>, l: int, c: usize, base: usize)
    ensures
        content_table(lex_lists(root, lists, l, c, base)) == content_table(root),
    decreases lists.len() - l,
{
    if 0 <= l < lists.len() {
        let (r, next) = lex_headings(root, lists[l].headings, 0, c, base, l > 0);
        lemma_lex_headings_content(root, lists[l].headings, 0, c, base, l > 0);
        lemma_lex_lists_content(r, lists, l + 1, next, base);
    }
}

/// Ordering the tables by their headings changes nothing but positions.
pub proof fn law_lexicographic_keeps_content(
    root: TableModel,
    lists: Seq<HeadingListView>,
    first_table: Option<usize>,
)
    ensures
        content_table(sorted_lexicographically(root, lists, first_table)) == content_table(root),
{
    lemma_lex_lists_content(root, lists, 0, 0, lex_base(first_table));
}

proof fn lemma_order_headings_content(root: TableModel, hs: Seq<HeadingView>, h: int, idx: usize)
    ensures
        content_table(order_headings(root, hs, h, idx).0) == content_table(root),
    decreases hs.len() - h,
{
    if 0 <= h < hs.len() {
        match hs[h] {
            HeadingView::Complete(segs) => {
                if table_at(root, segs) is Some {
                    law_set_position_keeps_content(root, segs, idx);
                    lemma_order_headings_content(set_position_at(root, segs, idx), hs, h + 1, step(idx));
                } else {
                    lemma_order_headings_content(root, hs, h + 1, idx);
                }
            },
            _ => {
                lemma_order_headings_content(root, hs, h + 1, idx);
            },
        }
    }
}

proof fn lemma_order_step_content(root: TableModel, name: Seq<char>, lists: Seq<HeadingListView>, idx: usize)
    requires
        keys_distinct_deep(root),
    ensures
        content_table(order_step(root, name, lists, idx).0) == content_table(root),
{
    let f = find_list(lists, name);
    if f >= 0 {
        lemma_order_headings_content(root, lists[f].headings, 0, idx);
    } else {
        let it = lookup(root.entries, name);
        if !(it is Empty) {
            lemma_key_index(root.entries, name);
            let k = key_index(root.entries, name);
            lemma_entries_distinct_deep(root.entries);
            assert(item_distinct_deep(root.entries[k].item));
            lemma_numbered_content(it, idx);
            let (it2, next) = numbered(it, idx);
            lemma_content_with_item(root.entries, k, it2);
        }
    }
}

proof fn lemma_order_from_content(
    root: TableModel,
    ordering: Seq<Seq<char>>,
    o: int,
    lists: Seq<HeadingListView>,
    idx: usize,
)
    requires
        keys_distinct_deep(root),
    ensures
        content_table(order_from(root, ordering, o, lists, idx)) == content_table(root),
    decreases ordering.len() - o,
{
    if 0 <= o < ordering.len() {
        let (r, next) = order_step(root, ordering[o], lists, idx);
        lemma_order_step_content(root, ordering[o], lists, idx);
        lemma_distinct_deep_same_content(root, r);
        lemma_order_from_content(r, ordering, o + 1, lists, next);
    }
}

/// Ordering the tables by a given ordering changes nothing but positions,
/// where keys are distinct at every depth.
pub proof fn law_ordering_keeps_content(
    root: TableModel,
    ordering: Seq<Seq<char>>,
    lists: Seq<HeadingListView>,
)
    requires
        keys_distinct_deep(root),
    ensures
        content_table(order_from(root, ordering, 0, lists, 0)) == content_table(root),
{
    lemma_order_from_content(root, ordering, 0, lists, 0);
}


pub(crate) proof fn lemma_entries_distinct_deep_from(es: Seq<EntryModel>)
    requires
        forall|x: int| 0 <= x < es.len() ==> item_distinct_deep(#[trigger] es[x].item),
    ensures
        entries_distinct_deep(es),
    decreases es.len(),
{
    if es.len() > 0 {
        assert forall|x: int| 0 <= x < es.drop_last().len() implies item_distinct_deep(
            #[trigger] es.drop_last()[x].item,
        ) by {
            assert(es.drop_last()[x] == es[x]);
        }
        lemma_entries_distinct_deep_from(es.drop_last());
    }
}

/// Entries whose keys are those of distinct entries, and whose items are
/// theirs, have distinct keys at every depth where those did.
proof fn lemma_picked_distinct(out: Seq<EntryModel>, es: Seq<EntryModel>, o: Seq<int>)
    requires
        keys_distinct(es),
        entries_distinct_deep(es),
        o.len() == out.len(),
        distinct(o),
        forall|q: int| 0 <= q < o.len() ==> 0 <= #[trigger] o[q] < es.len(),
        forall|q: int|
            0 <= q < o.len() ==> (#[trigger] out[q]).key.name == es[o[q]].key.name && out[q].item
                == es[o[q]].item,
    ensures
        keys_distinct(out),
        entries_distinct_deep(out),
{
    lemma_entries_distinct_deep(es);
    assert forall|a: int, b: int| 0 <= a < out.len() && 0 <= b < out.len() && a != b implies out[a].key.name
        != out[b].key.name by {
        assert(o[a] != o[b]);
        assert(out[a].key.name == es[o[a]].key.name);
        assert(out[b].key.name == es[o[b]].key.name);
    }
    assert forall|x: int| 0 <= x < out.len() implies item_distinct_deep(#[trigger] out[x].item) by {
        assert(out[x].item == es[o[x]].item);
    }
    lemma_entries_distinct_deep_from(out);
}

pub(crate) proof fn lemma_sort_values_distinct(t: TableModel)
    requires
        keys_distinct_deep(t),
    ensures
        keys_distinct_deep(sort_values_model(t)),
    decreases t,
{
    let d = sort_dotted(t.entries);
    lemma_sort_dotted_keys(t.entries);
    lemma_sort_dotted_distinct(t.entries);
    assert(keys_distinct(d)) by {
        assert forall|a: int, b: int| 0 <= a < d.len() && 0 <= b < d.len() && a != b implies d[a].key.name
            != d[b].key.name by {
            assert(d[a].key == t.entries[a].key);
            assert(d[b].key == t.entries[b].key);
        }
    }
    lemma_entries_distinct_deep_from(d);
    let lt = |x: Seq<char>, y: Seq<char>| chars_lt(x, y);
    lemma_chars_lt_strict_total();
    lemma_stable_order_range(names(d), lt);
    let o = stable_order(names(d), lt);
    lemma_picked_distinct(sorted_by_key(d), d, o);
}

pub(crate) proof fn lemma_sort_dotted_distinct(es: Seq<EntryModel>)
    requires
        entries_distinct_deep(es),
    ensures
        forall|x: int| 0 <= x < es.len() ==> item_distinct_deep(#[trigger] sort_dotted(es)[x].item),
    decreases es,
{
    if es.len() > 0 {
        lemma_sort_dotted_distinct(es.drop_last());
        lemma_sort_dotted_keys(es.drop_last());
        let last = es.last();
        assert(item_distinct_deep(last.item));
        match last.item {
            ItemModel::Table(sub) => {
                if sub.dotted {
                    assert(decreases_to!(es => es[es.len() - 1]));
                    assert(decreases_to!(es[es.len() - 1] => es[es.len() - 1].item));
                    lemma_sort_values_distinct(sub);
                }
            },
            _ => {},
        }
        assert forall|x: int| 0 <= x < es.len() implies item_distinct_deep(
            #[trigger] sort_dotted(es)[x].item,
        ) by {
            if x < es.len() - 1 {
                assert(sort_dotted(es)[x] == sort_dotted(es.drop_last())[x]);
            }
        }
    }
}

pub(crate) proof fn lemma_grouped_distinct(t: TableModel)
    requires
        keys_distinct_deep(t),
    ensures
        keys_distinct_deep(grouped_model(t)),
{
    let ps = present(t.entries);
    let keys = Seq::new(ps.len(), |j: int| group_key(ps, j));
    let lt = |a: (usize, Seq<char>), b: (usize, Seq<char>)| group_lt(a, b);
    lemma_group_lt_strict_total();
    lemma_stable_order_range(keys, lt);
    let o = group_order(ps);
    lemma_entries_distinct_deep(t.entries);
    assert(keys_distinct(ps)) by {
        assert forall|a: int, b: int| 0 <= a < ps.len() && 0 <= b < ps.len() && a != b implies ps[a].key.name
            != ps[b].key.name by {
            lemma_distinct_present_names(t.entries, a, b);
        }
    }
    assert forall|x: int| 0 <= x < ps.len() implies item_distinct_deep(#[trigger] ps[x].item) by {
        let k = lemma_present_from(t.entries, x);
    }
    lemma_entries_distinct_deep_from(ps);
    lemma_picked_distinct(grouped_entries(ps), ps, o);
}

pub(crate) proof fn lemma_sort_at_path_distinct(t: TableModel, path: Seq<Seq<char>>)
    requires
        keys_distinct_deep(t),
    ensures
        keys_distinct_deep(sort_at_path(t, path)),
    decreases path.len(),
{
    if path.len() == 0 {
        lemma_sort_values_distinct(t);
    } else {
        match lookup(t.entries, path[0]) {
            ItemModel::Table(sub) => {
                lemma_key_index(t.entries, path[0]);
                let k = key_index(t.entries, path[0]);
                lemma_entries_distinct_deep(t.entries);
                assert(item_distinct_deep(t.entries[k].item));
                lemma_sort_at_path_distinct(sub, path.drop_first());
                let es2 = sort_at_path(t, path).entries;
                assert(keys_distinct(es2)) by {
                    assert forall|a: int, b: int|
                        0 <= a < es2.len() && 0 <= b < es2.len() && a != b implies es2[a].key.name
                        != es2[b].key.name by {
                        assert(es2[a].key == t.entries[a].key);
                        assert(es2[b].key == t.entries[b].key);
                    }
                }
                assert forall|x: int| 0 <= x < es2.len() implies item_distinct_deep(
                    #[trigger] es2[x].item,
                ) by {
                    if x != k {
                        assert(es2[x] == t.entries[x]);
                    }
                }
                lemma_entries_distinct_deep_from(es2);
            },
            _ => {},
        }
    }
}

/// Sorting a table keeps its keys distinct at every depth.
pub(crate) proof fn lemma_sorted_table_distinct(t: TableModel, group: bool, table_path: Option<Seq<Seq<char>>>)
    requires
        keys_distinct_deep(t),
    ensures
        keys_distinct_deep(sorted_table(t, group, table_path)),
{
    if group {
        lemma_grouped_distinct(t);
    } else {
        match table_path {
            Some(p) => {
                if p.len() > 1 {
                    lemma_sort_at_path_distinct(t, p.drop_first());
                }
            },
            None => {
                lemma_sort_values_distinct(t);
            },
        }
    }
}


/// Replacing an item by one whose keys are distinct at every depth keeps
/// a table's keys distinct at every depth.
proof fn lemma_with_item_distinct(t: TableModel, k: int, it: ItemModel)
    requires
        keys_distinct_deep(t),
        0 <= k < t.entries.len(),
        item_distinct_deep(it),
    ensures
        keys_distinct_deep(TableModel { entries: with_item(t.entries, k, it), ..t }),
{
    let es2 = with_item(t.entries, k, it);
    lemma_entries_distinct_deep(t.entries);
    assert(keys_distinct(es2)) by {
        assert forall|a: int, b: int| 0 <= a < es2.len() && 0 <= b < es2.len() && a != b implies es2[a].key.name
            != es2[b].key.name by {
            assert(es2[a].key == t.entries[a].key);
            assert(es2[b].key == t.entries[b].key);
        }
    }
    assert forall|x: int| 0 <= x < es2.len() implies item_distinct_deep(#[trigger] es2[x].item) by {
        if x != k {
            assert(es2[x] == t.entries[x]);
        }
    }
    lemma_entries_distinct_deep_from(es2);
}

proof fn lemma_keyed_distinct(root: TableModel, pairs: Seq<(Seq<char>, Seq<char>)>, i: int, group: bool)
    requires
        0 <= i,
        keys_distinct_deep(root),
    ensures
        keys_distinct_deep(keyed_from(root, pairs, i, group)),
    decreases pairs.len() - i,
{
    if i < pairs.len() {
        let (h, k) = pairs[i];
        match lookup(root.entries, h) {
            ItemModel::Table(t) => {
                let inner = lookup(t.entries, k);
                if !(inner is Empty) {
                    lemma_key_index(root.entries, h);
                    let kh = key_index(root.entries, h);
                    lemma_entries_distinct_deep(root.entries);
                    assert(item_distinct_deep(root.entries[kh].item));
                    lemma_key_index(t.entries, k);
                    let kk = key_index(t.entries, k);
                    lemma_entries_distinct_deep(t.entries);
                    assert(item_distinct_deep(t.entries[kk].item));
                    match inner {
                        ItemModel::Table(u) => {
                            lemma_sorted_table_distinct(u, group, None);
                        },
                        _ => {},
                    }
                    assert(item_distinct_deep(keyed_item_sorted(inner, group)));
                    lemma_with_item_distinct(t, kk, keyed_item_sorted(inner, group));
                    let t2 = TableModel {
                        entries: with_item(t.entries, kk, keyed_item_sorted(inner, group)),
                        ..t
                    };
                    lemma_with_item_distinct(root, kh, ItemModel::Table(t2));
                }
            },
            _ => {},
        }
        lemma_keyed_distinct(keyed_step(root, h, k, group), pairs, i + 1, group);
    }
}

proof fn lemma_pass_distinct(ws: TableModel, i: int, st: PassState, hs: Seq<Seq<char>>, group: bool)
    requires
        0 <= i,
        keys_distinct_deep(ws),
        st.root.entries.len() == ws.entries.len(),
        forall|y: int| 0 <= y < ws.entries.len() ==> (#[trigger] st.root.entries[y]).key == ws.entries[y].key,
        forall|y: int| 0 <= y < ws.entries.len() ==> item_distinct_deep(#[trigger] st.root.entries[y].item),
    ensures
        keys_distinct_deep(pass_from(ws, i, st, hs, group).root),
    decreases present(ws.entries).len() - i,
{
    if i < present(ws.entries).len() {
        let e = present(ws.entries)[i];
        let ki = lemma_present_from(ws.entries, i);
        assert(st.root.entries[ki].key == ws.entries[ki].key);
        lemma_key_index(st.root.entries, e.key.name);
        let k = key_index(st.root.entries, e.key.name);
        lemma_entries_distinct_deep(ws.entries);
        assert(item_distinct_deep(ws.entries[ki].item));
        let it = passed_item(e, hs, group);
        match e.item {
            ItemModel::Table(t) => {
                lemma_sorted_table_distinct(t, group, target_path(e.item, e.key.name, hs));
            },
            _ => {},
        }
        assert(item_distinct_deep(it));
        let next = pass_step(ws, i, st, hs, group);
        assert forall|y: int| 0 <= y < ws.entries.len() implies item_distinct_deep(
            #[trigger] next.root.entries[y].item,
        ) by {
            if y != k {
                assert(next.root.entries[y] == st.root.entries[y]);
            }
        }
        lemma_pass_distinct(ws, i + 1, next, hs, group);
    } else {
        assert(keys_distinct(st.root.entries)) by {
            assert forall|a: int, b: int|
                0 <= a < st.root.entries.len() && 0 <= b < st.root.entries.len() && a != b implies st.root.entries[a].key.name
                != st.root.entries[b].key.name by {
                assert(st.root.entries[a].key == ws.entries[a].key);
                assert(st.root.entries[b].key == ws.entries[b].key);
            }
        }
        lemma_entries_distinct_deep_from(st.root.entries);
    }
}


/// What the key `k` of the top-level table `h` holds (`None` where `h` holds
/// no table).
pub open spec fn inner_at(root: TableModel, h: Seq<char>, k: Seq<char>) -> Option<ItemModel> {
    match lookup(root.entries, h) {
        ItemModel::Table(t) => Some(lookup(t.entries, k)),
        _ => None,
    }
}

proof fn lemma_lookup_content(es: Seq<EntryModel>, name: Seq<char>)
    ensures
        lookup(content_entries(es), name) == content_item(lookup(es, name)),
{
    lemma_content_entries(es);
    lemma_key_index_same_names(es, content_entries(es), name);
    lemma_key_index(es, name);
}

proof fn lemma_inner_at_content(t: TableModel, h: Seq<char>, k: Seq<char>)
    ensures
        inner_at(content_table(t), h, k) == (match inner_at(t, h, k) {
            Some(i) => Some(content_item(i)),
            None => None::<ItemModel>,
        }),
{
    lemma_lookup_content(t.entries, h);
    match lookup(t.entries, h) {
        ItemModel::Table(t1) => {
            lemma_lookup_content(t1.entries, k);
        },
        _ => {},
    }
}

proof fn lemma_keyed_step_inner(root: TableModel, h2: Seq<char>, k2: Seq<char>, group: bool, h: Seq<char>, k: Seq<char>)
    ensures
        (h2, k2) != (h, k) ==> inner_at(keyed_step(root, h2, k2, group), h, k) == inner_at(root, h, k),
        (h2, k2) == (h, k) ==> inner_at(keyed_step(root, h2, k2, group), h, k) == (match inner_at(
            root,
            h,
            k,
        ) {
            Some(i) => Some(if i is Empty { i } else { keyed_item_sorted(i, group) }),
            None => None::<ItemModel>,
        }),
{
    let r2 = keyed_step(root, h2, k2, group);
    match lookup(root.entries, h2) {
        ItemModel::Table(t) => {
            let inner = lookup(t.entries, k2);
            if !(inner is Empty) {
                lemma_key_index(root.entries, h2);
                let kh = key_index(root.entries, h2);
                lemma_key_index(t.entries, k2);
                let kk = key_index(t.entries, k2);
                let t2 = TableModel {
                    entries: with_item(t.entries, kk, keyed_item_sorted(inner, group)),
                    ..t
                };
                assert(r2.entries == with_item(root.entries, kh, ItemModel::Table(t2)));
                lemma_key_index_same_names(root.entries, r2.entries, h);
                lemma_key_index(root.entries, h);
                let khh = key_index(root.entries, h);
                if h != h2 {
                    if khh >= 0 {
                        assert(khh != kh);
                        assert(r2.entries[khh] == root.entries[khh]);
                    }
                    assert(lookup(r2.entries, h) == lookup(root.entries, h));
                } else {
                    assert(lookup(r2.entries, h) == ItemModel::Table(t2));
                    lemma_key_index_same_names(t.entries, t2.entries, k);
                    lemma_key_index(t.entries, k);
                    let kkk = key_index(t.entries, k);
                    if k != k2 {
                        if kkk >= 0 {
                            assert(kkk != kk);
                            assert(t2.entries[kkk] == t.entries[kkk]);
                        }
                        assert(lookup(t2.entries, k) == lookup(t.entries, k));
                    } else {
                        assert(lookup(t2.entries, k) == keyed_item_sorted(inner, group));
                    }
                }
            }
        },
        _ => {},
    }
}

proof fn lemma_keyed_from_untouched(
    root: TableModel,
    pairs: Seq<(Seq<char>, Seq<char>)>,
    i: int,
    group: bool,
    h: Seq<char>,
    k: Seq<char>,
)
    requires
        0 <= i,
        forall|x: int| i <= x < pairs.len() ==> #[trigger] pairs[x] != (h, k),
    ensures
        inner_at(keyed_from(root, pairs, i, group), h, k) == inner_at(root, h, k),
    decreases pairs.len() - i,
{
    if i < pairs.len() {
        lemma_keyed_step_inner(root, pairs[i].0, pairs[i].1, group, h, k);
        lemma_keyed_from_untouched(keyed_step(root, pairs[i].0, pairs[i].1, group), pairs, i + 1, group, h, k);
    }
}

proof fn lemma_keyed_from_sorts(
    root: TableModel,
    pairs: Seq<(Seq<char>, Seq<char>)>,
    i: int,
    group: bool,
    p: int,
    it: ItemModel,
)
    requires
        0 <= i <= p < pairs.len(),
        forall|x: int| 0 <= x < pairs.len() && x != p ==> #[trigger] pairs[x] != pairs[p],
        inner_at(root, pairs[p].0, pairs[p].1) == Some(it),
        !(it is Empty),
    ensures
        inner_at(keyed_from(root, pairs, i, group), pairs[p].0, pairs[p].1) == Some(
            keyed_item_sorted(it, group),
        ),
    decreases p - i,
{
    let (h, k) = pairs[p];
    let r2 = keyed_step(root, pairs[i].0, pairs[i].1, group);
    lemma_keyed_step_inner(root, pairs[i].0, pairs[i].1, group, h, k);
    if i < p {
        assert(pairs[i] != pairs[p]);
        lemma_keyed_from_sorts(r2, pairs, i + 1, group, p, it);
    } else {
        assert forall|x: int| i + 1 <= x < pairs.len() implies #[trigger] pairs[x] != (h, k) by {
            assert(x != p);
        }
        lemma_keyed_from_untouched(r2, pairs, i + 1, group, h, k);
    }
}

/// The arrays that the matcher's (heading, key) pairs name come out of the
/// sorted document sorted, where the heading is not itself one of the
/// dependency tables and the pair is named once: `workspace.members` lists
/// its members in order.
pub proof fn law_keyed_arrays_sorted(
    root: TableModel,
    hs: Seq<Seq<char>>,
    pairs: Seq<(Seq<char>, Seq<char>)>,
    group: bool,
    ordering: Seq<Seq<char>>,
    p: int,
    a: ArrayModel,
)
    requires
        keys_distinct_deep(root),
        0 <= p < pairs.len(),
        forall|x: int| 0 <= x < pairs.len() && x != p ==> #[trigger] pairs[x] != pairs[p],
        !hs.contains(pairs[p].0),
        pairs[p].0 != "target"@,
        inner_at(root, pairs[p].0, pairs[p].1) == Some(ItemModel::Value(ValueModel::Array(a))),
    ensures
        inner_at(sorted_document(root, hs, pairs, group, ordering), pairs[p].0, pairs[p].1) == Some(
            ItemModel::Value(ValueModel::Array(sorted_array(a))),
        ),
{
    let (h, k) = pairs[p];
    let sorted = ItemModel::Value(ValueModel::Array(sorted_array(a)));
    lemma_keyed_from_sorts(root, pairs, 0, group, p, ItemModel::Value(ValueModel::Array(a)));
    let ws = keyed_from(root, pairs, 0, group);
    assert(inner_at(ws, h, k) == Some(sorted));
    lemma_keyed_distinct(root, pairs, 0, group);
    lemma_keyed_keys(root, pairs, 0, group);
    lemma_key_index(ws.entries, h);
    let x = key_index(ws.entries, h);
    let e = ws.entries[x];
    let j = lemma_present_index(ws.entries, x);
    let st0 = PassState { root: ws, ordering, first_table: None, lists: Seq::empty() };
    lemma_pass_root(ws, 0, st0, hs, group, x, j);
    let st = pass_from(ws, 0, st0, hs, group);
    assert(skipped(e, hs));
    assert(st.root.entries[x].item == e.item);
    lemma_key_index_same_names(ws.entries, st.root.entries, h);
    assert(lookup(st.root.entries, h) == lookup(ws.entries, h));
    assert(inner_at(st.root, h, k) == Some(sorted));
    lemma_entries_distinct_deep(ws.entries);
    lemma_pass_distinct(ws, 0, st0, hs, group);
    let out = sorted_document(root, hs, pairs, group, ordering);
    if st.ordering.len() == 0 {
        law_lexicographic_keeps_content(st.root, st.lists, st.first_table);
    } else {
        law_ordering_keeps_content(st.root, st.ordering, st.lists);
    }
    assert(content_table(out) == content_table(st.root));
    lemma_inner_at_content(out, h, k);
    lemma_inner_at_content(st.root, h, k);
}


/// The tables that the matcher's (heading, key) pairs name come out of the
/// sorted document sorted, where the heading is not itself one of the
/// dependency tables and the pair is named once: by key, in the order of
/// `str`, or, where `group` is set, keeping the blank-line groups in order
/// and sorting the keys within each (`[workspace.dependencies]`).
pub proof fn law_keyed_tables_sorted(
    root: TableModel,
    hs: Seq<Seq<char>>,
    pairs: Seq<(Seq<char>, Seq<char>)>,
    group: bool,
    ordering: Seq<Seq<char>>,
    p: int,
    t: TableModel,
)
    requires
        keys_distinct_deep(root),
        0 <= p < pairs.len(),
        forall|x: int| 0 <= x < pairs.len() && x != p ==> #[trigger] pairs[x] != pairs[p],
        !hs.contains(pairs[p].0),
        pairs[p].0 != "target"@,
        inner_at(root, pairs[p].0, pairs[p].1) == Some(ItemModel::Table(t)),
        present(t.entries).len() <= usize::MAX,
    ensures
        inner_at(sorted_document(root, hs, pairs, group, ordering), pairs[p].0, pairs[p].1) matches Some(
            ItemModel::Table(o),
        ) && (!group ==> names_in_order(o.entries)) && (group ==> o.entries.len() == present(
            t.entries,
        ).len() && in_group_order(present(t.entries), names(o.entries))),
{
    let (h, k) = pairs[p];
    let sorted_t = sorted_table(t, group, None);
    let sorted = ItemModel::Table(sorted_t);
    lemma_keyed_from_sorts(root, pairs, 0, group, p, ItemModel::Table(t));
    let ws = keyed_from(root, pairs, 0, group);
    assert(inner_at(ws, h, k) == Some(sorted));
    lemma_keyed_distinct(root, pairs, 0, group);
    lemma_keyed_keys(root, pairs, 0, group);
    lemma_key_index(ws.entries, h);
    let x = key_index(ws.entries, h);
    let e = ws.entries[x];
    let j = lemma_present_index(ws.entries, x);
    let st0 = PassState { root: ws, ordering, first_table: None, lists: Seq::empty() };
    lemma_pass_root(ws, 0, st0, hs, group, x, j);
    let st = pass_from(ws, 0, st0, hs, group);
    assert(skipped(e, hs));
    assert(st.root.entries[x].item == e.item);
    lemma_key_index_same_names(ws.entries, st.root.entries, h);
    assert(lookup(st.root.entries, h) == lookup(ws.entries, h));
    assert(inner_at(st.root, h, k) == Some(sorted));
    lemma_entries_distinct_deep(ws.entries);
    lemma_pass_distinct(ws, 0, st0, hs, group);
    let out = sorted_document(root, hs, pairs, group, ordering);
    if st.ordering.len() == 0 {
        law_lexicographic_keeps_content(st.root, st.lists, st.first_table);
    } else {
        law_ordering_keeps_content(st.root, st.ordering, st.lists);
    }
    assert(content_table(out) == content_table(st.root));
    lemma_inner_at_content(out, h, k);
    lemma_inner_at_content(st.root, h, k);
    let io = inner_at(out, h, k)->Some_0;
    assert(content_item(io) == content_item(sorted));
    let o = io->Table_0;
    assert(content_table(o) == content_table(sorted_t));
    lemma_content_entries(o.entries);
    lemma_content_entries(sorted_t.entries);
    assert(o.entries.len() == sorted_t.entries.len());
    assert forall|a: int| 0 <= a < o.entries.len() implies #[trigger] o.entries[a].key.name
        == sorted_t.entries[a].key.name by {
        assert(content_entries(o.entries)[a] == content_entries(sorted_t.entries)[a]);
    }
    if group {
        let es = present(t.entries);
        law_grouped_entries_sorted_within_groups(es);
        assert(names(o.entries) =~= names(grouped_entries(es)));
    } else {
        law_sorted_by_key_orders_names(sort_dotted(t.entries));
        assert forall|a: int, b: int| 0 <= a < b < o.entries.len() implies chars_le(
            (#[trigger] o.entries[a]).key.name,
            (#[trigger] o.entries[b]).key.name,
        ) by {
            assert(o.entries[a].key.name == sorted_t.entries[a].key.name);
            assert(o.entries[b].key.name == sorted_t.entries[b].key.name);
        }
    }
}

/// The comments and whitespace above the header of a dependency table (a
/// top-level table whose key is one of the matcher's headings) stay with
/// that header in the sorted document.
pub proof fn law_dependency_header_decor_kept(
    root: TableModel,
    hs: Seq<Seq<char>>,
    pairs: Seq<(Seq<char>, Seq<char>)>,
    group: bool,
    ordering: Seq<Seq<char>>,
    x: int,
)
    requires
        keys_distinct_deep(root),
        0 <= x < root.entries.len(),
        hs.contains(keyed_from(root, pairs, 0, group).entries[x].key.name),
        keyed_from(root, pairs, 0, group).entries[x].key.name != "target"@,
        keyed_from(root, pairs, 0, group).entries[x].item is Table,
    ensures
        sorted_document(root, hs, pairs, group, ordering).entries[x].item is Table,
        sorted_document(root, hs, pairs, group, ordering).entries[x].item->Table_0.decor
            == keyed_from(root, pairs, 0, group).entries[x].item->Table_0.decor,
{
    let ws = keyed_from(root, pairs, 0, group);
    lemma_keyed_distinct(root, pairs, 0, group);
    lemma_keyed_keys(root, pairs, 0, group);
    let e = ws.entries[x];
    let t = e.item->Table_0;
    let j = lemma_present_index(ws.entries, x);
    let st0 = PassState { root: ws, ordering, first_table: None, lists: Seq::empty() };
    lemma_pass_root(ws, 0, st0, hs, group, x, j);
    let st = pass_from(ws, 0, st0, hs, group);
    assert(passed_item(e, hs, group) == ItemModel::Table(sorted_table(t, group, None)));
    assert(sorted_table(t, group, None).decor == t.decor);
    lemma_entries_distinct_deep(ws.entries);
    lemma_pass_distinct(ws, 0, st0, hs, group);
    let out = sorted_document(root, hs, pairs, group, ordering);
    if st.ordering.len() == 0 {
        law_lexicographic_keeps_content(st.root, st.lists, st.first_table);
    } else {
        law_ordering_keeps_content(st.root, st.ordering, st.lists);
    }
    assert(content_table(out) == content_table(st.root));
    lemma_content_entries(out.entries);
    lemma_content_entries(st.root.entries);
    assert(content_entries(out.entries)[x] == content_entries(st.root.entries)[x]);
    assert(content_item(out.entries[x].item) == content_item(st.root.entries[x].item));
}

} // verus!
