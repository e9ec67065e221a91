//! What holds of the sorted document for all inputs: the keys it keeps and
//! the order of the keys of its dependency tables.
use vstd::prelude::*;

use crate::group::{grouped_entries, lemma_distinct_present_names, lemma_key_index_distinct};
use crate::heading::{HeadingView, HeadingListView};
use crate::laws::{
    in_group_order, law_grouped_entries_sorted_within_groups, law_sorted_by_key_orders_names,
};
use crate::model::{
    EntryModel, ItemModel, TableModel, is_present, key_index, keys_distinct, lemma_key_index,
    lemma_present_from, lookup, names, present, sort_dotted, sort_values_model, sorted_by_key,
    with_item,
};
use crate::order::{
    chars_le, chars_lt, lemma_chars_lt_strict_total, lemma_stable_order_range, rearranged,
    stable_order,
};
use crate::position::{
    add_wrapping, find_list, lex_base, order_step, lex_headings, lex_lists, lex_one, renumbered, numbered,
    order_from, order_headings, set_position_at, step, table_at, walk, walk_entries,
};
use crate::sort::{
    PassState, keyed_from, keyed_step, pass_from, pass_step, passed_item, skipped,
    sorted_document,
};
use crate::table::sorted_table;

verus! {

/// What an item holds, as far as the names of a table go.
pub open spec fn inner_names(item: ItemModel) -> Option<Seq<Seq<char>>> {
    match item {
        ItemModel::Table(t) => Some(names(t.entries)),
        _ => None,
    }
}

/// The entries have the same keys, and each holds a table with the same
/// names in both, or a table in neither.
pub open spec fn same_layout(a: Seq<EntryModel>, b: Seq<EntryModel>) -> bool {
    &&& a.len() == b.len()
    &&& forall|x: int| 0 <= x < a.len() ==> (#[trigger] a[x]).key == b[x].key
    &&& forall|x: int| 0 <= x < a.len() ==> inner_names((#[trigger] a[x]).item) == inner_names(b[x].item)
}

/// The names of the entries come in the order of `str`.
pub open spec fn names_in_order(es: Seq<EntryModel>) -> bool {
    forall|i: int, j: int|
        0 <= i < j < es.len() ==> chars_le((#[trigger] es[i]).key.name, (#[trigger] es[j]).key.name)
}

pub(crate) proof fn lemma_same_layout_trans(a: Seq<EntryModel>, b: Seq<EntryModel>, c: Seq<EntryModel>)
    requires
        same_layout(a, b),
        same_layout(b, c),
    ensures
        same_layout(a, c),
{
    assert forall|x: int| 0 <= x < a.len() implies (#[trigger] a[x]).key == c[x].key && inner_names(
        a[x].item,
    ) == inner_names(c[x].item) by {
        assert(a[x].key == b[x].key);
        assert(inner_names(a[x].item) == inner_names(b[x].item));
        assert(b[x].key == c[x].key);
        assert(inner_names(b[x].item) == inner_names(c[x].item));
    }
}

pub(crate) proof fn lemma_with_item_layout(es: Seq<EntryModel>, k: int, it: ItemModel)
    requires
        0 <= k < es.len(),
        inner_names(it) == inner_names(es[k].item),
    ensures
        same_layout(es, with_item(es, k, it)),
{
}

pub(crate) proof fn lemma_set_position_keys(t: TableModel, p: Seq<Seq<char>>, pos: usize)
    ensures
        set_position_at(t, p, pos).entries.len() == t.entries.len(),
        forall|x: int|
            0 <= x < t.entries.len() ==> (#[trigger] set_position_at(t, p, pos).entries[x]).key
                == t.entries[x].key,
{
    if p.len() > 0 {
        match lookup(t.entries, p[0]) {
            ItemModel::Table(_) => {
                lemma_key_index(t.entries, p[0]);
            },
            _ => {},
        }
    }
}

pub(crate) proof fn lemma_set_position_layout(t: TableModel, p: Seq<Seq<char>>, pos: usize)
    ensures
        same_layout(t.entries, set_position_at(t, p, pos).entries),
{
    if p.len() > 0 {
        match lookup(t.entries, p[0]) {
            ItemModel::Table(sub) => {
                lemma_key_index(t.entries, p[0]);
                lemma_set_position_keys(sub, p.drop_first(), pos);
                let k = key_index(t.entries, p[0]);
                let sub2 = set_position_at(sub, p.drop_first(), pos);
                assert(names(sub2.entries) =~= names(sub.entries));
                lemma_with_item_layout(t.entries, k, ItemModel::Table(sub2));
            },
            _ => {},
        }
    }
}

pub(crate) proof fn lemma_walk_entries_keys(orig: Seq<EntryModel>, i: int, es: Seq<EntryModel>, idx: usize)
    requires
        0 <= i,
        es.len() == orig.len(),
        forall|x: int| 0 <= x < es.len() ==> (#[trigger] es[x]).key == orig[x].key,
    ensures
        walk_entries(orig, i, es, idx).0.len() == orig.len(),
        forall|x: int|
            0 <= x < orig.len() ==> (#[trigger] walk_entries(orig, i, es, idx).0[x]).key
                == orig[x].key,
    decreases present(orig).len() - i,
{
    if i < present(orig).len() {
        let e = present(orig)[i];
        let k0 = lemma_present_from(orig, i);
        assert(es[k0].key.name == e.key.name);
        lemma_key_index(es, e.key.name);
        let (item, next) = numbered(e.item, idx);
        let es2 = with_item(es, key_index(es, e.key.name), item);
        lemma_walk_entries_keys(orig, i + 1, es2, next);
    }
}

pub(crate) proof fn lemma_numbered_names(item: ItemModel, idx: usize)
    ensures
        inner_names(numbered(item, idx).0) == inner_names(item),
{
    match item {
        ItemModel::Table(sub) => {
            lemma_walk_entries_keys(sub.entries, 0, sub.entries, step(idx));
            assert(names(walk(sub, step(idx)).0.entries) =~= names(sub.entries));
        },
        _ => {},
    }
}

pub(crate) proof fn lemma_order_headings_layout(root: TableModel, hs: Seq<HeadingView>, h: int, idx: usize)
    ensures
        same_layout(root.entries, order_headings(root, hs, h, idx).0.entries),
    decreases hs.len() - h,
{
    if 0 <= h < hs.len() {
        match hs[h] {
            HeadingView::Complete(segs) => {
                if table_at(root, segs) is Some {
                    let r = set_position_at(root, segs, idx);
                    lemma_set_position_layout(root, segs, idx);
                    lemma_order_headings_layout(r, hs, h + 1, step(idx));
                    lemma_same_layout_trans(root.entries, r.entries, order_headings(r, hs, h + 1, step(idx)).0.entries);
                } else {
                    lemma_order_headings_layout(root, hs, h + 1, idx);
                }
            },
            _ => {
                lemma_order_headings_layout(root, hs, h + 1, idx);
            },
        }
    }
}

pub(crate) proof fn lemma_order_from_layout(
    root: TableModel,
    ordering: Seq<Seq<char>>,
    o: int,
    lists: Seq<HeadingListView>,
    idx: usize,
)
    ensures
        same_layout(root.entries, order_from(root, ordering, o, lists, idx).entries),
    decreases ordering.len() - o,
{
    if 0 <= o < ordering.len() {
        let (r, next) = order_step(root, ordering[o], lists, idx);
        lemma_order_step_layout(root, ordering[o], lists, idx);
        lemma_order_from_layout(r, ordering, o + 1, lists, next);
        lemma_same_layout_trans(root.entries, r.entries, order_from(r, ordering, o + 1, lists, next).entries);
    }
}

pub(crate) proof fn lemma_order_step_layout(root: TableModel, name: Seq<char>, lists: Seq<HeadingListView>, idx: usize)
    ensures
        same_layout(root.entries, order_step(root, name, lists, idx).0.entries),
{
    let f = find_list(lists, name);
    if f >= 0 {
        lemma_order_headings_layout(root, lists[f].headings, 0, idx);
    } else {
        let it = lookup(root.entries, name);
        if !(it is Empty) {
            lemma_key_index(root.entries, name);
            let k = key_index(root.entries, name);
            let (it2, next) = numbered(it, idx);
            lemma_numbered_names(it, idx);
            lemma_with_item_layout(root.entries, k, it2);
        }
    }
}

pub(crate) proof fn lemma_lex_headings_layout(
    root: TableModel,
    hs: Seq<HeadingView>,
    h: int,
    c: usize,
    base: usize,
    later: bool,
)
    ensures
        same_layout(root.entries, lex_headings(root, hs, h, c, base, later).0.entries),
    decreases hs.len() - h,
{
    if 0 <= h < hs.len() {
        let r = lex_one(root, hs[h], c, base, later);
        if renumbered(hs[h], later) {
            lemma_set_position_layout(root, hs[h]->Complete_0, add_wrapping(base, c));
        }
        lemma_lex_headings_layout(r, hs, h + 1, step(c), base, later);
        lemma_same_layout_trans(
            root.entries,
            r.entries,
            lex_headings(r, hs, h + 1, step(c), base, later).0.entries,
        );
    }
}

pub(crate) proof fn lemma_lex_lists_layout(root: TableModel, lists: Seq<HeadingListView>, l: int, c: usize, base: usize)
    ensures
        same_layout(root.entries, lex_lists(root, lists, l, c, base).entries),
    decreases lists.len() - l,
{
    if 0 <= l < lists.len() {
        let (r, next) = lex_headings(root, lists[l].headings, 0, c, base, l > 0);
        lemma_lex_headings_layout(root, lists[l].headings, 0, c, base, l > 0);
        lemma_lex_lists_layout(r, lists, l + 1, next, base);
        lemma_same_layout_trans(root.entries, r.entries, lex_lists(r, lists, l + 1, next, base).entries);
    }
}

pub(crate) proof fn lemma_keyed_keys(root: TableModel, pairs: Seq<(Seq<char>, Seq<char>)>, i: int, group: bool)
    requires
        0 <= i,
    ensures
        keyed_from(root, pairs, i, group).entries.len() == root.entries.len(),
        forall|x: int|
            0 <= x < root.entries.len() ==> (#[trigger] keyed_from(root, pairs, i, group).entries[x]).key
                == root.entries[x].key,
    decreases pairs.len() - i,
{
    if i < pairs.len() {
        let r = keyed_step(root, pairs[i].0, pairs[i].1, group);
        match lookup(root.entries, pairs[i].0) {
            ItemModel::Table(_) => {
                lemma_key_index(root.entries, pairs[i].0);
            },
            _ => {},
        }
        assert(r.entries.len() == root.entries.len());
        lemma_keyed_keys(r, pairs, i + 1, group);
    }
}

pub(crate) proof fn lemma_pass_root(
    ws: TableModel,
    i: int,
    st: PassState,
    hs: Seq<Seq<char>>,
    group: bool,
    x: int,
    j: int,
)
    requires
        keys_distinct(ws.entries),
        st.root.entries.len() == ws.entries.len(),
        forall|y: int| 0 <= y < ws.entries.len() ==> (#[trigger] st.root.entries[y]).key == ws.entries[y].key,
        0 <= j < present(ws.entries).len(),
        0 <= x < ws.entries.len(),
        present(ws.entries)[j] == ws.entries[x],
        0 <= i,
        i <= j ==> st.root.entries[x] == ws.entries[x],
        i > j ==> st.root.entries[x].item == passed_item(ws.entries[x], hs, group),
    ensures
        pass_from(ws, i, st, hs, group).root.entries.len() == ws.entries.len(),
        forall|y: int|
            0 <= y < ws.entries.len() ==> (#[trigger] pass_from(ws, i, st, hs, group).root.entries[y]).key
                == ws.entries[y].key,
        pass_from(ws, i, st, hs, group).root.entries[x].item == passed_item(ws.entries[x], hs, group),
    decreases present(ws.entries).len() - i,
{
    if i < present(ws.entries).len() {
        let e = present(ws.entries)[i];
        let ki = lemma_present_from(ws.entries, i);
        assert(keys_distinct(st.root.entries)) by {
            assert forall|a: int, b: int|
                0 <= a < st.root.entries.len() && 0 <= b < st.root.entries.len() && a != b implies st.root.entries[a].key.name
                != st.root.entries[b].key.name by {
                assert(st.root.entries[a].key == ws.entries[a].key);
                assert(st.root.entries[b].key == ws.entries[b].key);
            }
        }
        assert(st.root.entries[ki].key == ws.entries[ki].key);
        lemma_key_index_distinct(st.root.entries, ki);
        let next = pass_step(ws, i, st, hs, group);
        assert(next.root.entries == with_item(st.root.entries, ki, passed_item(e, hs, group)));
        if i == j {
            assert(ki == x);
        } else {
            lemma_distinct_present_names(ws.entries, i, j);
            assert(ki != x);
        }
        lemma_pass_root(ws, i + 1, next, hs, group, x, j);
    } else {
        assert(i > j);
    }
}

/// The position, among the entries that hold something, of an entry that
/// holds something.
pub(crate) proof fn lemma_present_index(es: Seq<EntryModel>, x: int) -> (j: int)
    requires
        0 <= x < es.len(),
        is_present(es[x]),
    ensures
        0 <= j < present(es).len(),
        present(es)[j] == es[x],
    decreases es.len(),
{
    if x == es.len() - 1 {
        present(es.drop_last()).len() as int
    } else {
        assert(es.drop_last()[x] == es[x]);
        let j = lemma_present_index(es.drop_last(), x);
        if is_present(es.last()) {
            assert(present(es) == present(es.drop_last()).push(es.last()));
        }
        j
    }
}

pub(crate) proof fn lemma_sort_dotted_keys(es: Seq<EntryModel>)
    ensures
        sort_dotted(es).len() == es.len(),
        forall|x: int| 0 <= x < es.len() ==> (#[trigger] sort_dotted(es)[x]).key == es[x].key,
    decreases es.len(),
{
    if es.len() > 0 {
        lemma_sort_dotted_keys(es.drop_last());
        assert forall|x: int| 0 <= x < es.len() implies (#[trigger] sort_dotted(es)[x]).key == es[x].key by {
            if x < es.len() - 1 {
                assert(sort_dotted(es)[x] == sort_dotted(es.drop_last())[x]);
                assert(es.drop_last()[x] == es[x]);
            }
        }
    }
}

/// The root's keys come out of the sorted document in place, and each
/// entry that holds something holds, as far as the names of a table go, what
/// the pass over the top-level entries left there.
pub(crate) proof fn lemma_document_layout(
    root: TableModel,
    hs: Seq<Seq<char>>,
    pairs: Seq<(Seq<char>, Seq<char>)>,
    group: bool,
    ordering: Seq<Seq<char>>,
    x: int,
)
    requires
        keys_distinct(root.entries),
        0 <= x < root.entries.len(),
        is_present(keyed_from(root, pairs, 0, group).entries[x]),
    ensures
        sorted_document(root, hs, pairs, group, ordering).entries.len() == root.entries.len(),
        forall|y: int|
            0 <= y < root.entries.len() ==> (#[trigger] sorted_document(
                root,
                hs,
                pairs,
                group,
                ordering,
            ).entries[y]).key == root.entries[y].key,
        inner_names(sorted_document(root, hs, pairs, group, ordering).entries[x].item) == inner_names(
            passed_item(keyed_from(root, pairs, 0, group).entries[x], hs, group),
        ),
{
    let ws = keyed_from(root, pairs, 0, group);
    lemma_keyed_keys(root, pairs, 0, group);
    assert(keys_distinct(ws.entries)) by {
        assert forall|a: int, b: int|
            0 <= a < ws.entries.len() && 0 <= b < ws.entries.len() && a != b implies ws.entries[a].key.name
            != ws.entries[b].key.name by {
            assert(ws.entries[a].key == root.entries[a].key);
            assert(ws.entries[b].key == root.entries[b].key);
        }
    }
    let j = lemma_present_index(ws.entries, x);
    let st0 = PassState { root: ws, ordering, first_table: None, lists: Seq::empty() };
    lemma_pass_root(ws, 0, st0, hs, group, x, j);
    let st = pass_from(ws, 0, st0, hs, group);
    let out = sorted_document(root, hs, pairs, group, ordering);
    if st.ordering.len() == 0 {
        lemma_lex_lists_layout(st.root, st.lists, 0, 0, lex_base(st.first_table));
    } else {
        lemma_order_from_layout(st.root, st.ordering, 0, st.lists, 0);
    }
    assert(same_layout(st.root.entries, out.entries));
    assert forall|y: int| 0 <= y < root.entries.len() implies (#[trigger] out.entries[y]).key
        == root.entries[y].key by {
        assert(st.root.entries[y].key == out.entries[y].key);
    }
    assert(inner_names(out.entries[x].item) == inner_names(st.root.entries[x].item));
}

/// A dependency table of the root comes out of the sorted document as the
/// pass sorted it, up to the positions of the tables under it.
pub(crate) proof fn lemma_dependency_table(
    root: TableModel,
    hs: Seq<Seq<char>>,
    pairs: Seq<(Seq<char>, Seq<char>)>,
    group: bool,
    ordering: Seq<Seq<char>>,
    x: int,
)
    requires
        keys_distinct(root.entries),
        0 <= x < root.entries.len(),
        hs.contains(keyed_from(root, pairs, 0, group).entries[x].key.name),
        keyed_from(root, pairs, 0, group).entries[x].key.name != "target"@,
        keyed_from(root, pairs, 0, group).entries[x].item is Table,
    ensures
        sorted_document(root, hs, pairs, group, ordering).entries[x].key == root.entries[x].key,
        sorted_document(root, hs, pairs, group, ordering).entries[x].item is Table,
        names(sorted_document(root, hs, pairs, group, ordering).entries[x].item->Table_0.entries)
            == names(
            sorted_table(keyed_from(root, pairs, 0, group).entries[x].item->Table_0, group, None).entries,
        ),
{
    lemma_document_layout(root, hs, pairs, group, ordering, x);
    let ws = keyed_from(root, pairs, 0, group);
    let e = ws.entries[x];
    let t = e.item->Table_0;
    assert(passed_item(e, hs, group) == ItemModel::Table(sorted_table(t, group, None)));
}

/// The pass over the top-level entries keeps the root's keys in place.
pub(crate) proof fn lemma_pass_keys(ws: TableModel, i: int, st: PassState, hs: Seq<Seq<char>>, group: bool)
    requires
        0 <= i,
        st.root.entries.len() == ws.entries.len(),
        forall|y: int| 0 <= y < ws.entries.len() ==> (#[trigger] st.root.entries[y]).key == ws.entries[y].key,
    ensures
        pass_from(ws, i, st, hs, group).root.entries.len() == ws.entries.len(),
        forall|y: int|
            0 <= y < ws.entries.len() ==> (#[trigger] pass_from(ws, i, st, hs, group).root.entries[y]).key
                == ws.entries[y].key,
    decreases present(ws.entries).len() - i,
{
    if i < present(ws.entries).len() {
        let e = present(ws.entries)[i];
        let ki = lemma_present_from(ws.entries, i);
        assert(st.root.entries[ki].key == ws.entries[ki].key);
        lemma_key_index(st.root.entries, e.key.name);
        lemma_pass_keys(ws, i + 1, pass_step(ws, i, st, hs, group), hs, group);
    }
}

/// Sorting keeps every top-level key, in place; a top-level table that is
/// not a dependency table keeps its keys, in their order.
pub proof fn law_top_level_keys_kept(
    root: TableModel,
    hs: Seq<Seq<char>>,
    pairs: Seq<(Seq<char>, Seq<char>)>,
    group: bool,
    ordering: Seq<Seq<char>>,
    x: int,
)
    requires
        0 <= x < root.entries.len(),
    ensures
        sorted_document(root, hs, pairs, group, ordering).entries.len() == root.entries.len(),
        sorted_document(root, hs, pairs, group, ordering).entries[x].key == root.entries[x].key,
        keys_distinct(root.entries) && is_present(keyed_from(root, pairs, 0, group).entries[x])
            && skipped(keyed_from(root, pairs, 0, group).entries[x], hs) ==> inner_names(
            sorted_document(root, hs, pairs, group, ordering).entries[x].item,
        ) == inner_names(keyed_from(root, pairs, 0, group).entries[x].item),
{
    lemma_keyed_keys(root, pairs, 0, group);
    let ws = keyed_from(root, pairs, 0, group);
    let st0 = PassState { root: ws, ordering, first_table: None, lists: Seq::empty() };
    lemma_pass_keys(ws, 0, st0, hs, group);
    let st = pass_from(ws, 0, st0, hs, group);
    let out = sorted_document(root, hs, pairs, group, ordering);
    if st.ordering.len() == 0 {
        lemma_lex_lists_layout(st.root, st.lists, 0, 0, lex_base(st.first_table));
    } else {
        lemma_order_from_layout(st.root, st.ordering, 0, st.lists, 0);
    }
    assert(out.entries[x].key == st.root.entries[x].key);
    if keys_distinct(root.entries) && is_present(ws.entries[x]) {
        lemma_document_layout(root, hs, pairs, group, ordering, x);
    }
}

/// In the sorted document (sorted without groups), the keys of each
/// dependency table (a top-level table whose key is one of the matcher's
/// headings) come in the order of `str`, and they are the keys that the
/// table had (after the matcher's pairs were sorted); where those keys are
/// distinct, as in every parsed table, they come in strictly ascending order.
pub proof fn law_dependency_keys_sorted(
    root: TableModel,
    hs: Seq<Seq<char>>,
    pairs: Seq<(Seq<char>, Seq<char>)>,
    ordering: Seq<Seq<char>>,
    x: int,
)
    requires
        keys_distinct(root.entries),
        0 <= x < root.entries.len(),
        hs.contains(keyed_from(root, pairs, 0, false).entries[x].key.name),
        keyed_from(root, pairs, 0, false).entries[x].key.name != "target"@,
        keyed_from(root, pairs, 0, false).entries[x].item is Table,
    ensures
        sorted_document(root, hs, pairs, false, ordering).entries[x].key == root.entries[x].key,
        sorted_document(root, hs, pairs, false, ordering).entries[x].item is Table,
        names_in_order(sorted_document(root, hs, pairs, false, ordering).entries[x].item->Table_0.entries),
        rearranged(
            names(sorted_document(root, hs, pairs, false, ordering).entries[x].item->Table_0.entries),
            names(keyed_from(root, pairs, 0, false).entries[x].item->Table_0.entries),
        ),
        keys_distinct(keyed_from(root, pairs, 0, false).entries[x].item->Table_0.entries)
            ==> forall|a: int, b: int|
            0 <= a < b < sorted_document(root, hs, pairs, false, ordering).entries[x].item->Table_0.entries.len()
                ==> chars_lt(
                (#[trigger] sorted_document(root, hs, pairs, false, ordering).entries[x].item->Table_0.entries[a]).key.name,
                (#[trigger] sorted_document(root, hs, pairs, false, ordering).entries[x].item->Table_0.entries[b]).key.name,
            ),
{
    lemma_dependency_table(root, hs, pairs, false, ordering, x);
    let ws = keyed_from(root, pairs, 0, false);
    let t = ws.entries[x].item->Table_0;
    let sorted = sort_values_model(t);
    let out = sorted_document(root, hs, pairs, false, ordering);
    let o = out.entries[x].item->Table_0;
    assert(names(o.entries) == names(sorted.entries));
    assert(o.entries.len() == names(o.entries).len());
    assert(sorted.entries.len() == names(sorted.entries).len());
    let d = sort_dotted(t.entries);
    lemma_sort_dotted_keys(t.entries);
    law_sorted_by_key_orders_names(d);
    let lt = |p: Seq<char>, q: Seq<char>| chars_lt(p, q);
    lemma_chars_lt_strict_total();
    lemma_stable_order_range(names(d), lt);
    assert forall|a: int, b: int| 0 <= a < b < o.entries.len() implies chars_le(
        (#[trigger] o.entries[a]).key.name,
        (#[trigger] o.entries[b]).key.name,
    ) by {
        assert(o.entries[a].key.name == names(o.entries)[a]);
        assert(o.entries[b].key.name == names(o.entries)[b]);
        assert(names(sorted.entries)[a] == sorted_by_key(d)[a].key.name);
        assert(names(sorted.entries)[b] == sorted_by_key(d)[b].key.name);
    }
    let ord = stable_order(names(d), lt);
    assert(names(d) =~= names(t.entries));
    assert(ord.len() == names(t.entries).len());
    assert forall|q: int| 0 <= q < ord.len() implies #[trigger] names(o.entries)[q] == names(
        t.entries,
    )[ord[q]] by {
        assert(names(sorted.entries)[q] == sorted_by_key(d)[q].key.name);
        assert(sorted_by_key(d)[q] == d[ord[q]]);
    }
    if keys_distinct(t.entries) {
        assert forall|a: int, b: int| 0 <= a < b < o.entries.len() implies chars_lt(
            (#[trigger] o.entries[a]).key.name,
            (#[trigger] o.entries[b]).key.name,
        ) by {
            assert(o.entries[a].key.name == names(o.entries)[a]);
            assert(o.entries[b].key.name == names(o.entries)[b]);
            assert(names(o.entries)[a] == names(t.entries)[ord[a]]);
            assert(names(o.entries)[b] == names(t.entries)[ord[b]]);
            assert(ord[a] != ord[b]);
            assert(t.entries[ord[a]].key.name != t.entries[ord[b]].key.name);
            assert(chars_le(o.entries[a].key.name, o.entries[b].key.name));
        }
    }
}


/// In the document sorted by groups, the keys of each dependency table keep
/// their groups in order and come in the order of `str` within each group.
pub proof fn law_dependency_groups_sorted(
    root: TableModel,
    hs: Seq<Seq<char>>,
    pairs: Seq<(Seq<char>, Seq<char>)>,
    ordering: Seq<Seq<char>>,
    x: int,
)
    requires
        keys_distinct(root.entries),
        0 <= x < root.entries.len(),
        hs.contains(keyed_from(root, pairs, 0, true).entries[x].key.name),
        keyed_from(root, pairs, 0, true).entries[x].key.name != "target"@,
        keyed_from(root, pairs, 0, true).entries[x].item is Table,
        present(keyed_from(root, pairs, 0, true).entries[x].item->Table_0.entries).len()
            <= usize::MAX,
    ensures
        sorted_document(root, hs, pairs, true, ordering).entries[x].key == root.entries[x].key,
        sorted_document(root, hs, pairs, true, ordering).entries[x].item is Table,
        names(sorted_document(root, hs, pairs, true, ordering).entries[x].item->Table_0.entries)
            == names(
            grouped_entries(present(keyed_from(root, pairs, 0, true).entries[x].item->Table_0.entries)),
        ),
        in_group_order(
            present(keyed_from(root, pairs, 0, true).entries[x].item->Table_0.entries),
            names(sorted_document(root, hs, pairs, true, ordering).entries[x].item->Table_0.entries),
        ),
{
    lemma_dependency_table(root, hs, pairs, true, ordering, x);
    let es = present(keyed_from(root, pairs, 0, true).entries[x].item->Table_0.entries);
    law_grouped_entries_sorted_within_groups(es);
}

} // verus!
