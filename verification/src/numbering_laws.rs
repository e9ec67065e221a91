//! What holds of the numbers that decide where tables are printed, for all
//! inputs.
use vstd::prelude::*;

use crate::document_laws::{
    lemma_keyed_keys, lemma_pass_root, lemma_present_index, lemma_walk_entries_keys,
};
use crate::group::lemma_key_index_distinct;
use crate::heading::{
    HeadingView, HeadingListView, complete_last, enter, gather, gather_from, gather_from_ok,
    gather_ok, heading_lt, lemma_gather_shape, lemma_heading_lt_strict_total, segments,
    sorted_headings, take_len,
};
use crate::model::{
    EntryModel, ItemModel, TableModel, key_index, keys_distinct, lemma_key_index,
    lemma_present_from, lookup, names, present, with_item,
};
use crate::order::{lemma_stable_order_range, stable_order};
use crate::sort::{
    PassState, collected, entry_collectable, keyed_from, keyed_item_sorted, keyed_step, list_key, pass_from,
    pass_step, skipped, sortable, sorted_document,
};
use crate::position::{
    add_wrapping, find_list, lex_base, order_step, lex_headings, lex_lists, lex_one, renumbered, numbered,
    order_from, order_headings, set_position_at, sorted_lexicographically, step, table_at, walk,
    walk_entries, walk_tables,
};

verus! {

/// The position of the table at `path` under `t`, where there is one.
pub open spec fn position_at(t: TableModel, path: Seq<Seq<char>>) -> Option<Option<usize>> {
    match table_at(t, path) {
        Some(s) => Some(s.position),
        None => None,
    }
}

/// The heading numbers the table at `segs` when headings are ordered, in
/// the first list (`later` false) or a later one: `renumbered` picks it, and
/// it has that path.
pub open spec fn numbers(h: HeadingView, later: bool, segs: Seq<Seq<char>>) -> bool {
    renumbered(h, later) && h->Complete_0 == segs
}

/// Whether the `q`-th of the headings of lists `l..` (one list after the
/// other) lies after the first list.
pub open spec fn later_at(lists: Seq<HeadingListView>, l: int, q: int) -> bool {
    l > 0 || (0 <= l < lists.len() && q >= lists[l].headings.len())
}

/// The headings of lists `l..`, one list after the other.
pub open spec fn headings_from(lists: Seq<HeadingListView>, l: int) -> Seq<HeadingView>
    decreases lists.len() - l,
{
    if l < 0 || l >= lists.len() {
        Seq::empty()
    } else {
        lists[l].headings + headings_from(lists, l + 1)
    }
}

pub(crate) proof fn lemma_key_index_same_names(a: Seq<EntryModel>, b: Seq<EntryModel>, name: Seq<char>)
    requires
        a.len() == b.len(),
        forall|x: int| 0 <= x < a.len() ==> (#[trigger] a[x]).key.name == b[x].key.name,
    ensures
        key_index(a, name) == key_index(b, name),
    decreases a.len(),
{
    if a.len() > 0 {
        assert(a.last().key.name == b.last().key.name);
        lemma_key_index_same_names(a.drop_last(), b.drop_last(), name);
    }
}

/// Setting the position of the table at a path sets what `position_at` gives
/// there.
pub(crate) proof fn lemma_position_at_set(t: TableModel, p: Seq<Seq<char>>, pos: usize)
    ensures
        position_at(set_position_at(t, p, pos), p) == (if table_at(t, p) is Some {
            Some(Some(pos))
        } else {
            None::<Option<usize>>
        }),
    decreases p.len(),
{
    if p.len() > 0 {
        match lookup(t.entries, p[0]) {
            ItemModel::Table(sub) => {
                lemma_key_index(t.entries, p[0]);
                let k = key_index(t.entries, p[0]);
                let sub2 = set_position_at(sub, p.drop_first(), pos);
                let t2 = set_position_at(t, p, pos);
                assert(t2.entries == with_item(t.entries, k, ItemModel::Table(sub2)));
                lemma_key_index_same_names(t.entries, t2.entries, p[0]);
                assert(lookup(t2.entries, p[0]) == ItemModel::Table(sub2));
                lemma_position_at_set(sub, p.drop_first(), pos);
            },
            _ => {},
        }
    }
}

/// Setting the position of the table at one path leaves what `position_at`
/// gives at any other path.
pub(crate) proof fn lemma_position_at_other(t: TableModel, p1: Seq<Seq<char>>, p2: Seq<Seq<char>>, pos: usize)
    requires
        p1 != p2,
    ensures
        position_at(set_position_at(t, p2, pos), p1) == position_at(t, p1),
    decreases p1.len(),
{
    let t2 = set_position_at(t, p2, pos);
    if p2.len() == 0 {
        if p1.len() == 0 {
            assert(p1 =~= p2);
        }
        assert(t2.entries == t.entries);
    } else if p1.len() == 0 {
    } else {
        match lookup(t.entries, p2[0]) {
            ItemModel::Table(sub) => {
                lemma_key_index(t.entries, p2[0]);
                let k2 = key_index(t.entries, p2[0]);
                let sub2 = set_position_at(sub, p2.drop_first(), pos);
                assert(t2.entries == with_item(t.entries, k2, ItemModel::Table(sub2)));
                lemma_key_index_same_names(t.entries, t2.entries, p1[0]);
                lemma_key_index(t.entries, p1[0]);
                let k1 = key_index(t.entries, p1[0]);
                if p1[0] != p2[0] {
                    if k1 >= 0 {
                        assert(k1 != k2);
                        assert(t2.entries[k1] == t.entries[k1]);
                    }
                    assert(lookup(t2.entries, p1[0]) == lookup(t.entries, p1[0]));
                } else {
                    assert(k1 == k2);
                    assert(lookup(t2.entries, p1[0]) == ItemModel::Table(sub2));
                    if p1.drop_first() == p2.drop_first() {
                        assert(p1 =~= seq![p1[0]] + p1.drop_first());
                        assert(p2 =~= seq![p2[0]] + p2.drop_first());
                    }
                    lemma_position_at_other(sub, p1.drop_first(), p2.drop_first(), pos);
                }
            },
            _ => {},
        }
    }
}

pub(crate) proof fn lemma_lex_headings_counter(
    root: TableModel,
    hs: Seq<HeadingView>,
    h: int,
    c: usize,
    base: usize,
    later: bool,
)
    requires
        0 <= h <= hs.len(),
        c + (hs.len() - h) <= usize::MAX,
    ensures
        lex_headings(root, hs, h, c, base, later).1 == c + (hs.len() - h),
    decreases hs.len() - h,
{
    if h < hs.len() {
        lemma_lex_headings_counter(lex_one(root, hs[h], c, base, later), hs, h + 1, step(c), base, later);
    }
}

pub(crate) proof fn lemma_lex_headings_untouched(
    root: TableModel,
    hs: Seq<HeadingView>,
    h: int,
    c: usize,
    base: usize,
    later: bool,
    segs: Seq<Seq<char>>,
)
    requires
        0 <= h,
        forall|g: int| h <= g < hs.len() ==> !numbers(#[trigger] hs[g], later, segs),
    ensures
        position_at(lex_headings(root, hs, h, c, base, later).0, segs) == position_at(root, segs),
    decreases hs.len() - h,
{
    if h < hs.len() {
        let r = lex_one(root, hs[h], c, base, later);
        if renumbered(hs[h], later) {
            assert(!numbers(hs[h], later, segs));
            lemma_position_at_other(root, segs, hs[h]->Complete_0, add_wrapping(base, c));
        }
        lemma_lex_headings_untouched(r, hs, h + 1, step(c), base, later, segs);
    }
}

pub(crate) proof fn lemma_lex_headings_set(
    root: TableModel,
    hs: Seq<HeadingView>,
    h: int,
    c: usize,
    base: usize,
    later: bool,
    g: int,
    segs: Seq<Seq<char>>,
)
    requires
        0 <= h <= g < hs.len(),
        numbers(hs[g], later, segs),
        forall|x: int| h <= x < hs.len() && x != g ==> !numbers(#[trigger] hs[x], later, segs),
        c + (hs.len() - h) <= usize::MAX,
    ensures
        position_at(lex_headings(root, hs, h, c, base, later).0, segs) == (if table_at(root, segs) is Some {
            Some(Some(add_wrapping(base, (c + (g - h)) as usize)))
        } else {
            None::<Option<usize>>
        }),
    decreases hs.len() - h,
{
    let r = lex_one(root, hs[h], c, base, later);
    assert(step(c) == c + 1);
    if h == g {
        lemma_position_at_set(root, segs, add_wrapping(base, c));
        lemma_lex_headings_untouched(r, hs, h + 1, step(c), base, later, segs);
    } else {
        if renumbered(hs[h], later) {
            assert(!numbers(hs[h], later, segs));
            lemma_position_at_other(root, segs, hs[h]->Complete_0, add_wrapping(base, c));
            lemma_position_at_set(root, hs[h]->Complete_0, add_wrapping(base, c));
        }
        assert(table_at(r, segs) is Some <==> table_at(root, segs) is Some);
        lemma_lex_headings_set(r, hs, h + 1, step(c), base, later, g, segs);
    }
}

pub(crate) proof fn lemma_lex_lists_untouched(
    root: TableModel,
    lists: Seq<HeadingListView>,
    l: int,
    c: usize,
    base: usize,
    segs: Seq<Seq<char>>,
)
    requires
        0 <= l,
        forall|q: int| 0 <= q < headings_from(lists, l).len() ==> !numbers(
            #[trigger] headings_from(lists, l)[q],
            later_at(lists, l, q),
            segs,
        ),
    ensures
        position_at(lex_lists(root, lists, l, c, base), segs) == position_at(root, segs),
    decreases lists.len() - l,
{
    if l < lists.len() {
        let hs = lists[l].headings;
        let (r, next) = lex_headings(root, hs, 0, c, base, l > 0);
        assert forall|g: int| 0 <= g < hs.len() implies !numbers(#[trigger] hs[g], l > 0, segs) by {
            assert(headings_from(lists, l)[g] == hs[g]);
            assert(later_at(lists, l, g) == (l > 0));
        }
        lemma_lex_headings_untouched(root, hs, 0, c, base, l > 0, segs);
        assert forall|q: int| 0 <= q < headings_from(lists, l + 1).len() implies !numbers(
            #[trigger] headings_from(lists, l + 1)[q],
            later_at(lists, l + 1, q),
            segs,
        ) by {
            assert(headings_from(lists, l)[hs.len() + q] == headings_from(lists, l + 1)[q]);
            assert(later_at(lists, l, hs.len() + q));
        }
        lemma_lex_lists_untouched(r, lists, l + 1, next, base, segs);
    }
}

pub(crate) proof fn lemma_lex_lists_set(
    root: TableModel,
    lists: Seq<HeadingListView>,
    l: int,
    c: usize,
    base: usize,
    q: int,
    segs: Seq<Seq<char>>,
)
    requires
        0 <= l,
        0 <= q < headings_from(lists, l).len(),
        numbers(headings_from(lists, l)[q], later_at(lists, l, q), segs),
        forall|x: int|
            0 <= x < headings_from(lists, l).len() && x != q ==> !numbers(
                #[trigger] headings_from(lists, l)[x],
                later_at(lists, l, x),
                segs,
            ),
        c + headings_from(lists, l).len() <= usize::MAX,
    ensures
        position_at(lex_lists(root, lists, l, c, base), segs) == (if table_at(root, segs) is Some {
            Some(Some(add_wrapping(base, (c + q) as usize)))
        } else {
            None::<Option<usize>>
        }),
    decreases lists.len() - l,
{
    let hs = lists[l].headings;
    let flat = headings_from(lists, l);
    let rest = headings_from(lists, l + 1);
    assert(flat == hs + rest);
    let (r, next) = lex_headings(root, hs, 0, c, base, l > 0);
    lemma_lex_headings_counter(root, hs, 0, c, base, l > 0);
    if q < hs.len() {
        assert(flat[q] == hs[q]);
        assert(later_at(lists, l, q) == (l > 0));
        assert forall|x: int| 0 <= x < hs.len() && x != q implies !numbers(#[trigger] hs[x], l > 0, segs) by {
            assert(flat[x] == hs[x]);
            assert(later_at(lists, l, x) == (l > 0));
        }
        lemma_lex_headings_set(root, hs, 0, c, base, l > 0, q, segs);
        assert forall|y: int| 0 <= y < rest.len() implies !numbers(
            #[trigger] rest[y],
            later_at(lists, l + 1, y),
            segs,
        ) by {
            assert(flat[hs.len() + y] == rest[y]);
            assert(later_at(lists, l, hs.len() + y));
        }
        lemma_lex_lists_untouched(r, lists, l + 1, next, base, segs);
    } else {
        assert forall|x: int| 0 <= x < hs.len() implies !numbers(#[trigger] hs[x], l > 0, segs) by {
            assert(flat[x] == hs[x]);
            assert(later_at(lists, l, x) == (l > 0));
        }
        lemma_lex_headings_untouched(root, hs, 0, c, base, l > 0, segs);
        assert(flat[q] == rest[q - hs.len()]);
        assert(later_at(lists, l, q));
        assert forall|y: int| 0 <= y < rest.len() && y != q - hs.len() implies !numbers(
            #[trigger] rest[y],
            later_at(lists, l + 1, y),
            segs,
        ) by {
            assert(flat[hs.len() + y] == rest[y]);
            assert(later_at(lists, l, hs.len() + y));
        }
        lemma_lex_lists_set(r, lists, l + 1, next, base, q - hs.len(), segs);
    }
}

/// Where no ordering is given, the tables that the collected headings name
/// are numbered in the order of the headings, from one after the first
/// dependency table's number: the table of the `q`-th heading takes the
/// number `q` past the base, where `renumbered` picks that heading (a table
/// under a dependency table, or a dependency table after the first) and no
/// other picked heading names the table. Each dependency table's list starts
/// with its own heading, so the tables come list by list: a dependency
/// table, then the tables under it, then the next dependency table.
pub proof fn law_headings_numbered_in_order(
    root: TableModel,
    lists: Seq<HeadingListView>,
    first_table: Option<usize>,
    q: int,
    segs: Seq<Seq<char>>,
)
    requires
        headings_from(lists, 0).len() <= usize::MAX,
        0 <= q < headings_from(lists, 0).len(),
        numbers(headings_from(lists, 0)[q], later_at(lists, 0, q), segs),
        forall|x: int|
            0 <= x < headings_from(lists, 0).len() && x != q ==> !numbers(
                #[trigger] headings_from(lists, 0)[x],
                later_at(lists, 0, x),
                segs,
            ),
        table_at(root, segs) is Some,
    ensures
        position_at(sorted_lexicographically(root, lists, first_table), segs) == Some(
            Some(add_wrapping(lex_base(first_table), q as usize)),
        ),
{
    lemma_lex_lists_set(root, lists, 0, 0, lex_base(first_table), q, segs);
}

/// Where no ordering is given, a table that no picked heading names keeps
/// its position: the first dependency table, and every table that is
/// neither a dependency table nor under one, such as `[package]` or
/// `[features]`, so these keep their places among the dependency tables.
pub proof fn law_unnumbered_tables_keep_position(
    root: TableModel,
    lists: Seq<HeadingListView>,
    first_table: Option<usize>,
    segs: Seq<Seq<char>>,
)
    requires
        forall|x: int|
            0 <= x < headings_from(lists, 0).len() ==> !numbers(
                #[trigger] headings_from(lists, 0)[x],
                later_at(lists, 0, x),
                segs,
            ),
    ensures
        position_at(sorted_lexicographically(root, lists, first_table), segs) == position_at(root, segs),
{
    lemma_lex_lists_untouched(root, lists, 0, 0, lex_base(first_table), segs);
}

/// The number of tables that `numbered` numbers in an item.
pub open spec fn item_size(item: ItemModel) -> nat
    decreases item, 0nat,
{
    match item {
        ItemModel::Table(sub) => 1 + table_size(sub),
        ItemModel::ArrayOfTables(ts) => tables_size(ts),
        _ => 0,
    }
}

/// The number of tables under a table.
pub open spec fn table_size(t: TableModel) -> nat
    decreases t.entries, present(t.entries).len() + 1,
{
    entries_size(t.entries, 0)
}

/// The number of tables under the entries `i..` of `orig` that hold
/// something.
pub open spec fn entries_size(orig: Seq<EntryModel>, i: int) -> nat
    decreases orig, present(orig).len() - i,
{
    if i < 0 || i >= present(orig).len() {
        0
    } else {
        proof {
            lemma_present_from(orig, i);
        }
        item_size(present(orig)[i].item) + entries_size(orig, i + 1)
    }
}

/// The number of tables of an array of tables, and under them.
pub open spec fn tables_size(ts: Seq<TableModel>) -> nat
    decreases ts, 0nat,
{
    if ts.len() == 0 {
        0
    } else {
        tables_size(ts.drop_last()) + 1 + table_size(ts.last())
    }
}

pub(crate) proof fn lemma_numbered_count(item: ItemModel, idx: usize)
    requires
        idx + item_size(item) <= usize::MAX,
    ensures
        numbered(item, idx).1 == idx + item_size(item),
    decreases item, 0nat,
{
    match item {
        ItemModel::Table(sub) => {
            assert(step(idx) == idx + 1);
            lemma_walk_count(sub, step(idx));
        },
        ItemModel::ArrayOfTables(ts) => {
            lemma_walk_tables_count(ts, idx);
        },
        _ => {},
    }
}

pub(crate) proof fn lemma_walk_count(t: TableModel, idx: usize)
    requires
        idx + table_size(t) <= usize::MAX,
    ensures
        walk(t, idx).1 == idx + table_size(t),
    decreases t.entries, present(t.entries).len() + 1,
{
    lemma_walk_entries_count(t.entries, 0, t.entries, idx);
}

pub(crate) proof fn lemma_walk_entries_count(orig: Seq<EntryModel>, i: int, es: Seq<EntryModel>, idx: usize)
    requires
        0 <= i,
        idx + entries_size(orig, i) <= usize::MAX,
    ensures
        walk_entries(orig, i, es, idx).1 == idx + entries_size(orig, i),
    decreases orig, present(orig).len() - i,
{
    if i < present(orig).len() {
        let e = present(orig)[i];
        let k = lemma_present_from(orig, i);
        assert(decreases_to!(orig => orig[k]));
        assert(decreases_to!(orig[k] => orig[k].item));
        lemma_numbered_count(e.item, idx);
        let (item, next) = numbered(e.item, idx);
        lemma_walk_entries_count(orig, i + 1, with_item(es, key_index(es, e.key.name), item), next);
    }
}

pub(crate) proof fn lemma_walk_tables_count(ts: Seq<TableModel>, idx: usize)
    requires
        idx + tables_size(ts) <= usize::MAX,
    ensures
        walk_tables(ts, idx).1 == idx + tables_size(ts),
    decreases ts, 0nat,
{
    if ts.len() > 0 {
        lemma_walk_tables_count(ts.drop_last(), idx);
        let mid = walk_tables(ts.drop_last(), idx).1;
        assert(step(mid) == mid + 1);
        assert(decreases_to!(ts => ts[ts.len() - 1]));
        assert(decreases_to!(ts[ts.len() - 1] => ts[ts.len() - 1].entries));
        lemma_walk_count(ts.last(), step(mid));
    }
}


/// The number of tables that `order_headings` numbers.
pub open spec fn headings_size(root: TableModel, hs: Seq<HeadingView>, h: int, idx: usize) -> nat
    decreases hs.len() - h,
{
    if h < 0 || h >= hs.len() {
        0
    } else {
        match hs[h] {
            HeadingView::Complete(segs) => if table_at(root, segs) is Some {
                1 + headings_size(set_position_at(root, segs, idx), hs, h + 1, step(idx))
            } else {
                headings_size(root, hs, h + 1, idx)
            },
            _ => headings_size(root, hs, h + 1, idx),
        }
    }
}

/// The number of tables that `order_step` numbers.
pub open spec fn step_size(root: TableModel, name: Seq<char>, lists: Seq<HeadingListView>, idx: usize) -> nat {
    let f = find_list(lists, name);
    if f >= 0 {
        headings_size(root, lists[f].headings, 0, idx)
    } else {
        item_size(lookup(root.entries, name))
    }
}

/// The number of tables that `order_from` numbers.
pub open spec fn order_count(
    root: TableModel,
    ordering: Seq<Seq<char>>,
    o: int,
    lists: Seq<HeadingListView>,
    idx: usize,
) -> nat
    decreases ordering.len() - o,
{
    if o < 0 || o >= ordering.len() {
        0
    } else {
        let (r, next) = order_step(root, ordering[o], lists, idx);
        step_size(root, ordering[o], lists, idx) + order_count(r, ordering, o + 1, lists, next)
    }
}

/// The root and the next number after the names `ordering[..q]` are
/// numbered (see `order_step`).
pub open spec fn order_state(
    root: TableModel,
    ordering: Seq<Seq<char>>,
    lists: Seq<HeadingListView>,
    idx: usize,
    q: int,
) -> (TableModel, usize)
    decreases q,
{
    if q <= 0 {
        (root, idx)
    } else {
        let (r, n) = order_state(root, ordering, lists, idx, q - 1);
        order_step(r, ordering[q - 1], lists, n)
    }
}

pub(crate) proof fn lemma_order_headings_count(root: TableModel, hs: Seq<HeadingView>, h: int, idx: usize)
    requires
        0 <= h,
        idx + headings_size(root, hs, h, idx) <= usize::MAX,
    ensures
        order_headings(root, hs, h, idx).1 == idx + headings_size(root, hs, h, idx),
    decreases hs.len() - h,
{
    if h < hs.len() {
        match hs[h] {
            HeadingView::Complete(segs) => {
                if table_at(root, segs) is Some {
                    assert(step(idx) == idx + 1);
                    lemma_order_headings_count(set_position_at(root, segs, idx), hs, h + 1, step(idx));
                } else {
                    lemma_order_headings_count(root, hs, h + 1, idx);
                }
            },
            _ => {
                lemma_order_headings_count(root, hs, h + 1, idx);
            },
        }
    }
}

pub(crate) proof fn lemma_order_step_count(root: TableModel, name: Seq<char>, lists: Seq<HeadingListView>, idx: usize)
    requires
        idx + step_size(root, name, lists, idx) <= usize::MAX,
    ensures
        order_step(root, name, lists, idx).1 == idx + step_size(root, name, lists, idx),
{
    let f = find_list(lists, name);
    if f >= 0 {
        lemma_order_headings_count(root, lists[f].headings, 0, idx);
    } else {
        lemma_numbered_count(lookup(root.entries, name), idx);
    }
}

/// Where the numbers that `order_from` hands out fit in `usize`, the number
/// reached after `q` names, plus those still to come, is all of them.
pub(crate) proof fn lemma_order_state_count(
    root: TableModel,
    ordering: Seq<Seq<char>>,
    lists: Seq<HeadingListView>,
    idx: usize,
    q: int,
)
    requires
        0 <= q <= ordering.len(),
        idx + order_count(root, ordering, 0, lists, idx) <= usize::MAX,
    ensures
        order_state(root, ordering, lists, idx, q).1 + order_count(
            order_state(root, ordering, lists, idx, q).0,
            ordering,
            q,
            lists,
            order_state(root, ordering, lists, idx, q).1,
        ) == idx + order_count(root, ordering, 0, lists, idx),
        order_from(root, ordering, 0, lists, idx) == order_from(
            order_state(root, ordering, lists, idx, q).0,
            ordering,
            q,
            lists,
            order_state(root, ordering, lists, idx, q).1,
        ),
    decreases q,
{
    if q > 0 {
        lemma_order_state_count(root, ordering, lists, idx, q - 1);
        let (r, n) = order_state(root, ordering, lists, idx, q - 1);
        lemma_order_step_count(r, ordering[q - 1], lists, n);
    }
}

/// The numbers reached never go down.
pub(crate) proof fn lemma_order_state_grows(
    root: TableModel,
    ordering: Seq<Seq<char>>,
    lists: Seq<HeadingListView>,
    idx: usize,
    a: int,
    b: int,
)
    requires
        0 <= a <= b <= ordering.len(),
        idx + order_count(root, ordering, 0, lists, idx) <= usize::MAX,
    ensures
        order_state(root, ordering, lists, idx, a).1 <= order_state(root, ordering, lists, idx, b).1,
    decreases b - a,
{
    if a < b {
        lemma_order_state_grows(root, ordering, lists, idx, a + 1, b);
        lemma_order_state_count(root, ordering, lists, idx, a);
        let (r, n) = order_state(root, ordering, lists, idx, a);
        lemma_order_step_count(r, ordering[a], lists, n);
    }
}

/// What `position_at` gives at a top-level key.
pub(crate) proof fn lemma_position_at_top(t: TableModel, n: Seq<char>)
    ensures
        position_at(t, seq![n]) == (match lookup(t.entries, n) {
            ItemModel::Table(s) => Some(s.position),
            _ => None::<Option<usize>>,
        }),
{
    let p = seq![n];
    assert(p.drop_first() =~= Seq::<Seq<char>>::empty());
    assert(p[0] == n);
    match lookup(t.entries, n) {
        ItemModel::Table(s) => {
            assert(table_at(s, p.drop_first()) == Some(s));
        },
        _ => {},
    }
}

/// The first list collected under `key`, where there is one, is one of the
/// lists, collected under `key`.
pub(crate) proof fn lemma_find_list_range(lists: Seq<HeadingListView>, key: Seq<char>)
    ensures
        -1 <= find_list(lists, key) < lists.len(),
        find_list(lists, key) >= 0 ==> lists[find_list(lists, key)].key == key,
    decreases lists.len(),
{
    if lists.len() > 0 {
        lemma_find_list_range(lists.drop_last(), key);
        let f = find_list(lists.drop_last(), key);
        if f >= 0 {
            assert(lists.drop_last()[f] == lists[f]);
        }
    }
}

pub(crate) proof fn lemma_order_headings_keeps(root: TableModel, hs: Seq<HeadingView>, h: int, idx: usize, n: Seq<char>)
    requires
        0 <= h,
        forall|g: int| h <= g < hs.len() ==> #[trigger] hs[g] != HeadingView::Complete(seq![n]),
    ensures
        position_at(order_headings(root, hs, h, idx).0, seq![n]) == position_at(root, seq![n]),
    decreases hs.len() - h,
{
    if h < hs.len() {
        match hs[h] {
            HeadingView::Complete(segs) => {
                if table_at(root, segs) is Some {
                    lemma_position_at_other(root, seq![n], segs, idx);
                    lemma_order_headings_keeps(set_position_at(root, segs, idx), hs, h + 1, step(idx), n);
                } else {
                    lemma_order_headings_keeps(root, hs, h + 1, idx, n);
                }
            },
            _ => {
                lemma_order_headings_keeps(root, hs, h + 1, idx, n);
            },
        }
    }
}

/// No heading of the lists is the complete heading of the top-level key `n`.
pub open spec fn unheaded(lists: Seq<HeadingListView>, n: Seq<char>) -> bool {
    forall|l: int, h: int|
        0 <= l < lists.len() && 0 <= h < lists[l].headings.len() ==> #[trigger] lists[l].headings[h]
            != HeadingView::Complete(seq![n])
}

pub(crate) proof fn lemma_order_step_keeps(root: TableModel, m: Seq<char>, lists: Seq<HeadingListView>, idx: usize, n: Seq<char>)
    requires
        m != n,
        unheaded(lists, n),
    ensures
        position_at(order_step(root, m, lists, idx).0, seq![n]) == position_at(root, seq![n]),
{
    let f = find_list(lists, m);
    lemma_find_list_range(lists, m);
    let r = order_step(root, m, lists, idx).0;
    lemma_position_at_top(root, n);
    lemma_position_at_top(r, n);
    if f >= 0 {
        let hs = lists[f].headings;
        assert forall|g: int| 0 <= g < hs.len() implies #[trigger] hs[g] != HeadingView::Complete(
            seq![n],
        ) by {
            assert(lists[f].headings[g] != HeadingView::Complete(seq![n]));
        }
        lemma_order_headings_keeps(root, hs, 0, idx, n);
    } else {
        let it = lookup(root.entries, m);
        if !(it is Empty) {
            lemma_key_index(root.entries, m);
            let km = key_index(root.entries, m);
            let (it2, next) = numbered(it, idx);
            assert(r.entries == with_item(root.entries, km, it2));
            lemma_key_index_same_names(root.entries, r.entries, n);
            lemma_key_index(root.entries, n);
            let kn = key_index(root.entries, n);
            if kn >= 0 {
                assert(kn != km);
                assert(r.entries[kn] == root.entries[kn]);
            }
            assert(lookup(r.entries, n) == lookup(root.entries, n));
        }
    }
}

pub(crate) proof fn lemma_order_prefix_keeps(
    root: TableModel,
    ordering: Seq<Seq<char>>,
    lists: Seq<HeadingListView>,
    idx: usize,
    q: int,
    n: Seq<char>,
)
    requires
        0 <= q <= ordering.len(),
        forall|x: int| 0 <= x < q ==> #[trigger] ordering[x] != n,
        unheaded(lists, n),
    ensures
        position_at(order_state(root, ordering, lists, idx, q).0, seq![n]) == position_at(root, seq![n]),
    decreases q,
{
    if q > 0 {
        lemma_order_prefix_keeps(root, ordering, lists, idx, q - 1, n);
        let (r, c) = order_state(root, ordering, lists, idx, q - 1);
        lemma_order_step_keeps(r, ordering[q - 1], lists, c, n);
    }
}

pub(crate) proof fn lemma_order_suffix_keeps(
    root: TableModel,
    ordering: Seq<Seq<char>>,
    o: int,
    lists: Seq<HeadingListView>,
    idx: usize,
    n: Seq<char>,
)
    requires
        0 <= o,
        forall|x: int| o <= x < ordering.len() ==> #[trigger] ordering[x] != n,
        unheaded(lists, n),
    ensures
        position_at(order_from(root, ordering, o, lists, idx), seq![n]) == position_at(root, seq![n]),
    decreases ordering.len() - o,
{
    if o < ordering.len() {
        let (r, next) = order_step(root, ordering[o], lists, idx);
        lemma_order_step_keeps(root, ordering[o], lists, idx, n);
        lemma_order_suffix_keeps(r, ordering, o + 1, lists, next, n);
    }
}

/// The top-level table named `ordering[q]` (once, with no list of headings
/// collected under the name) takes the number reached before `q`.
pub(crate) proof fn lemma_order_numbers_named(
    root: TableModel,
    ordering: Seq<Seq<char>>,
    lists: Seq<HeadingListView>,
    idx: usize,
    q: int,
)
    requires
        0 <= q < ordering.len(),
        idx + order_count(root, ordering, 0, lists, idx) <= usize::MAX,
        forall|x: int| 0 <= x < ordering.len() && x != q ==> #[trigger] ordering[x] != ordering[q],
        find_list(lists, ordering[q]) == -1,
        lookup(root.entries, ordering[q]) is Table,
        unheaded(lists, ordering[q]),
    ensures
        position_at(order_from(root, ordering, 0, lists, idx), seq![ordering[q]]) == Some(
            Some(order_state(root, ordering, lists, idx, q).1),
        ),
        order_state(root, ordering, lists, idx, q).1 < order_state(root, ordering, lists, idx, q + 1).1,
{
    let n = ordering[q];
    lemma_order_prefix_keeps(root, ordering, lists, idx, q, n);
    let (r, c) = order_state(root, ordering, lists, idx, q);
    lemma_position_at_top(root, n);
    lemma_position_at_top(r, n);
    let t = lookup(r.entries, n)->Table_0;
    lemma_key_index(r.entries, n);
    let k = key_index(r.entries, n);
    let (it2, next) = numbered(ItemModel::Table(t), c);
    let r2 = order_state(root, ordering, lists, idx, q + 1).0;
    assert(r2.entries == with_item(r.entries, k, it2));
    lemma_key_index_same_names(r.entries, r2.entries, n);
    assert(lookup(r2.entries, n) == it2);
    lemma_position_at_top(r2, n);
    assert(position_at(r2, seq![n]) == Some(Some(c)));
    lemma_order_state_count(root, ordering, lists, idx, q + 1);
    lemma_order_state_count(root, ordering, lists, idx, q);
    lemma_order_step_count(r, n, lists, c);
    lemma_order_suffix_keeps(r2, ordering, q + 1, lists, order_state(root, ordering, lists, idx, q + 1).1, n);
}

/// Where an ordering is given, the top-level tables that it names, each
/// once, and under which no headings were collected (tables other than the
/// dependency tables), are numbered in its order: a table named earlier is
/// printed before a table named later. (The numbers handed out, all told,
/// fit in `usize`.)
pub proof fn law_ordering_numbers_in_order(
    root: TableModel,
    ordering: Seq<Seq<char>>,
    lists: Seq<HeadingListView>,
    q1: int,
    q2: int,
)
    requires
        0 <= q1 < q2 < ordering.len(),
        order_count(root, ordering, 0, lists, 0) <= usize::MAX,
        forall|x: int| 0 <= x < ordering.len() && x != q1 ==> #[trigger] ordering[x] != ordering[q1],
        forall|x: int| 0 <= x < ordering.len() && x != q2 ==> #[trigger] ordering[x] != ordering[q2],
        find_list(lists, ordering[q1]) == -1,
        find_list(lists, ordering[q2]) == -1,
        lookup(root.entries, ordering[q1]) is Table,
        lookup(root.entries, ordering[q2]) is Table,
        unheaded(lists, ordering[q1]),
        unheaded(lists, ordering[q2]),
    ensures
        position_at(order_from(root, ordering, 0, lists, 0), seq![ordering[q1]]) == Some(
            Some(order_state(root, ordering, lists, 0, q1).1),
        ),
        position_at(order_from(root, ordering, 0, lists, 0), seq![ordering[q2]]) == Some(
            Some(order_state(root, ordering, lists, 0, q2).1),
        ),
        order_state(root, ordering, lists, 0, q1).1 < order_state(root, ordering, lists, 0, q2).1,
{
    lemma_order_numbers_named(root, ordering, lists, 0, q1);
    lemma_order_numbers_named(root, ordering, lists, 0, q2);
    lemma_order_state_grows(root, ordering, lists, 0, q1 + 1, q2);
}


/// `s` is what numbering some table from a number in `[lo, ..)` gives, where
/// the numbers handed out stay below `hi`.
pub open spec fn numbered_within(s: TableModel, lo: int, hi: int) -> bool {
    exists|sub: TableModel, c0: usize|
        #![trigger numbered(ItemModel::Table(sub), c0)]
        lo <= c0 && c0 + item_size(ItemModel::Table(sub)) <= hi && ItemModel::Table(s) == numbered(
            ItemModel::Table(sub),
            c0,
        ).0
}

/// After the entries `i..` of `orig` are numbered, the table that a key
/// leads to was numbered within the numbers handed out.
pub(crate) proof fn lemma_walk_entries_tables(
    orig: Seq<EntryModel>,
    i: int,
    es: Seq<EntryModel>,
    c: usize,
    lo: int,
    a: Seq<char>,
)
    requires
        0 <= i,
        es.len() == orig.len(),
        forall|x: int| 0 <= x < es.len() ==> (#[trigger] es[x]).key == orig[x].key,
        lo <= c,
        c + entries_size(orig, i) <= usize::MAX,
        lookup(es, a) is Table ==> (numbered_within(lookup(es, a)->Table_0, lo, c as int) || (
        es[key_index(es, a)] == orig[key_index(es, a)] && exists|j: int|
            i <= j < present(orig).len() && (#[trigger] present(orig)[j]).key.name == a)),
    ensures
        lookup(walk_entries(orig, i, es, c).0, a) is Table ==> numbered_within(
            lookup(walk_entries(orig, i, es, c).0, a)->Table_0,
            lo,
            walk_entries(orig, i, es, c).1 as int,
        ),
    decreases present(orig).len() - i,
{
    lemma_key_index(es, a);
    if i >= present(orig).len() {
        if lookup(es, a) is Table && !numbered_within(lookup(es, a)->Table_0, lo, c as int) {
            let j = choose|j: int| i <= j < present(orig).len() && (#[trigger] present(orig)[j]).key.name == a;
        }
    } else {
        let e = present(orig)[i];
        let k0 = lemma_present_from(orig, i);
        assert(es[k0].key.name == e.key.name);
        lemma_key_index(es, e.key.name);
        let kb = key_index(es, e.key.name);
        lemma_numbered_count(e.item, c);
        let (item2, c2) = numbered(e.item, c);
        let es2 = with_item(es, kb, item2);
        lemma_key_index_same_names(es, es2, a);
        let ka = key_index(es, a);
        if lookup(es2, a) is Table {
            if e.key.name == a {
                assert(ka == kb);
                assert(lookup(es2, a) == item2);
                let sub = e.item->Table_0;
                assert(e.item == ItemModel::Table(sub));
                assert(numbered_within(lookup(es2, a)->Table_0, lo, c2 as int)) by {
                    assert(numbered(ItemModel::Table(sub), c).0 == item2);
                }
            } else {
                assert(ka != kb);
                assert(es2[ka] == es[ka]);
                assert(lookup(es2, a) == lookup(es, a));
                if numbered_within(lookup(es, a)->Table_0, lo, c as int) {
                    let (sub, c0) = choose|sub: TableModel, c0: usize|
                        #![trigger numbered(ItemModel::Table(sub), c0)]
                        lo <= c0 && c0 + item_size(ItemModel::Table(sub)) <= c && ItemModel::Table(
                            lookup(es, a)->Table_0,
                        ) == numbered(ItemModel::Table(sub), c0).0;
                    assert(numbered_within(lookup(es2, a)->Table_0, lo, c2 as int));
                } else {
                    let j = choose|j: int|
                        i <= j < present(orig).len() && (#[trigger] present(orig)[j]).key.name == a;
                    assert(j != i);
                    assert(es2[ka] == orig[ka]);
                    assert(exists|j: int|
                        i + 1 <= j < present(orig).len() && (#[trigger] present(orig)[j]).key.name == a);
                }
            }
        }
        lemma_walk_entries_tables(orig, i + 1, es2, c2, lo, a);
    }
}

/// Every table under the walked table (reached by a non-empty path) has a
/// number among those the walk hands out.
pub(crate) proof fn lemma_walk_positions(t: TableModel, c: usize, p: Seq<Seq<char>>)
    requires
        p.len() > 0,
        c + table_size(t) <= usize::MAX,
    ensures
        table_at(walk(t, c).0, p) is Some ==> (position_at(walk(t, c).0, p) matches Some(Some(x)) && c
            <= x && x < c + table_size(t)),
    decreases p.len(),
{
    let w = walk(t, c).0;
    lemma_walk_entries_keys(t.entries, 0, t.entries, c);
    lemma_walk_entries_count(t.entries, 0, t.entries, c);
    let a = p[0];
    lemma_key_index(t.entries, a);
    let ka = key_index(t.entries, a);
    if lookup(t.entries, a) is Table {
        let j = lemma_present_index(t.entries, ka);
        assert(present(t.entries)[j].key.name == a);
    }
    lemma_walk_entries_tables(t.entries, 0, t.entries, c, c as int, a);
    match lookup(w.entries, a) {
        ItemModel::Table(s1) => {
            let (sub, c0) = choose|sub: TableModel, c0: usize|
                #![trigger numbered(ItemModel::Table(sub), c0)]
                c <= c0 && c0 + item_size(ItemModel::Table(sub)) <= c + table_size(t) && ItemModel::Table(
                    s1,
                ) == numbered(ItemModel::Table(sub), c0).0;
            assert(step(c0) == c0 + 1);
            let ws = walk(sub, step(c0)).0;
            assert(s1 == TableModel { position: Some(c0), ..ws });
            if p.len() == 1 {
                assert(p.drop_first() =~= Seq::<Seq<char>>::empty());
                assert(table_at(s1, p.drop_first()) == Some(s1));
            } else {
                let rest = p.drop_first();
                assert(table_at(s1, rest) == table_at(ws, rest));
                lemma_walk_positions(sub, step(c0), rest);
            }
        },
        _ => {},
    }
}

/// Numbering a table gives it the number `idx` and each table under it a
/// number after `idx` and before the next number: the tables under a table
/// come after it (where the numbers handed out fit in `usize`).
pub proof fn law_numbered_nested_after(t: TableModel, idx: usize, p: Seq<Seq<char>>)
    requires
        idx + item_size(ItemModel::Table(t)) <= usize::MAX,
        p.len() > 0,
    ensures
        numbered(ItemModel::Table(t), idx).0 is Table,
        numbered(ItemModel::Table(t), idx).0->Table_0.position == Some(idx),
        numbered(ItemModel::Table(t), idx).1 == idx + item_size(ItemModel::Table(t)),
        table_at(numbered(ItemModel::Table(t), idx).0->Table_0, p) is Some ==> (position_at(
            numbered(ItemModel::Table(t), idx).0->Table_0,
            p,
        ) matches Some(Some(x)) && idx < x && x < numbered(ItemModel::Table(t), idx).1),
{
    lemma_numbered_count(ItemModel::Table(t), idx);
    assert(step(idx) == idx + 1);
    let w = walk(t, step(idx)).0;
    let n = numbered(ItemModel::Table(t), idx).0->Table_0;
    assert(n == TableModel { position: Some(idx), ..w });
    assert(table_at(n, p) == table_at(w, p));
    lemma_walk_positions(t, step(idx), p);
}

/// The path of every heading starts with the segment `k`.
pub open spec fn starts_with(hs: Seq<HeadingView>, k: Seq<char>) -> bool {
    forall|g: int|
        0 <= g < hs.len() ==> segments(#[trigger] hs[g]).len() >= 1 && segments(hs[g])[0] == k
}

proof fn lemma_complete_last_starts(keys: Seq<HeadingView>, k: Seq<char>)
    requires
        keys.len() > 0,
        starts_with(keys, k),
    ensures
        starts_with(complete_last(keys), k),
{
    let r = complete_last(keys);
    assert forall|g: int| 0 <= g < r.len() implies segments(#[trigger] r[g]).len() >= 1 && segments(r[g])[0]
        == k by {
        if g < keys.len() - 1 {
            assert(r[g] == keys[g]);
        } else {
            assert(segments(r[g]) == segments(keys[keys.len() - 1]));
        }
    }
}

proof fn lemma_enter_starts(keys: Seq<HeadingView>, head: Seq<char>, depth: int, k: Seq<char>)
    requires
        keys.len() > 0,
        starts_with(keys, k),
        keys.last() is Complete ==> take_len(depth) <= segments(keys.last()).len(),
    ensures
        starts_with(enter(keys, head, depth), k),
{
    let r = enter(keys, head, depth);
    let last = keys[keys.len() - 1];
    assert(segments(last).len() >= 1 && segments(last)[0] == k);
    assert forall|g: int| 0 <= g < r.len() implies segments(#[trigger] r[g]).len() >= 1 && segments(r[g])[0]
        == k by {
        if g < keys.len() - 1 {
            assert(r[g] == keys[g]);
        } else {
            match last {
                HeadingView::Next(s) => {
                    assert(r[g] == HeadingView::Next(s.push(head)));
                },
                HeadingView::Complete(s) => {
                    if g == keys.len() - 1 {
                        assert(r[g] == keys[g]);
                    } else {
                        let s2 = s.take(take_len(depth)).push(head);
                        assert(r[g] == HeadingView::Next(s2));
                        assert(s2[0] == s[0]);
                    }
                },
            }
        }
    }
}

proof fn lemma_gather_starts(t: TableModel, keys: Seq<HeadingView>, depth: int, k: Seq<char>)
    requires
        gather_ok(t, keys, depth),
        starts_with(keys, k),
    ensures
        starts_with(gather(t, keys, depth), k),
    decreases t, present(t.entries).len() + 1,
{
    let empty = present(t.entries).len() == 0 && !t.implicit;
    if empty {
        lemma_complete_last_starts(keys, k);
    }
    let start = if empty {
        complete_last(keys)
    } else {
        keys
    };
    lemma_gather_from_starts(t, 0, start, depth, k);
}

proof fn lemma_gather_from_starts(t: TableModel, i: int, keys: Seq<HeadingView>, depth: int, k: Seq<char>)
    requires
        0 <= i,
        gather_from_ok(t, i, keys, depth),
        starts_with(keys, k),
    ensures
        starts_with(gather_from(t, i, keys, depth), k),
    decreases t, present(t.entries).len() - i,
{
    if i < present(t.entries).len() {
        let e = present(t.entries)[i];
        match e.item {
            ItemModel::Value(_) => {
                lemma_complete_last_starts(keys, k);
                lemma_gather_from_starts(t, i + 1, complete_last(keys), depth, k);
            },
            ItemModel::Table(sub) => {
                lemma_present_from(t.entries, i);
                let entered = enter(keys, e.key.name, depth);
                lemma_enter_starts(keys, e.key.name, depth, k);
                lemma_gather_starts(sub, entered, depth + 1, k);
                lemma_gather_from_starts(t, i + 1, gather(sub, entered, depth + 1), depth, k);
            },
            _ => {},
        }
    }
}

proof fn lemma_sorted_headings_starts(hs: Seq<HeadingView>, k: Seq<char>)
    requires
        starts_with(hs, k),
    ensures
        starts_with(sorted_headings(hs), k),
{
    let lt = |a: HeadingView, b: HeadingView| heading_lt(a, b);
    lemma_heading_lt_strict_total();
    lemma_stable_order_range(hs, lt);
    let o = stable_order(hs, lt);
    let r = sorted_headings(hs);
    assert forall|g: int| 0 <= g < r.len() implies segments(#[trigger] r[g]).len() >= 1 && segments(r[g])[0]
        == k by {
        assert(r[g] == hs[o[g]]);
    }
}

/// No heading of the lists is the complete heading of the one-segment path
/// `[n]`.
pub open spec fn avoids(lists: Seq<HeadingListView>, n: Seq<char>) -> bool {
    forall|l: int, g: int|
        0 <= l < lists.len() && 0 <= g < lists[l].headings.len() ==> #[trigger] lists[l].headings[g]
            != HeadingView::Complete(seq![n])
}

proof fn lemma_pass_avoids(ws: TableModel, i: int, st: PassState, hs: Seq<Seq<char>>, group: bool, n: Seq<char>)
    requires
        0 <= i,
        avoids(st.lists, n),
        forall|j: int|
            i <= j < present(ws.entries).len() ==> entry_collectable(#[trigger] present(ws.entries)[j], hs)
                && (collected(present(ws.entries)[j], hs) ==> list_key(present(ws.entries)[j], hs) != n),
    ensures
        avoids(pass_from(ws, i, st, hs, group).lists, n),
        st.ordering.len() == 0 ==> pass_from(ws, i, st, hs, group).ordering.len() == 0,
    decreases present(ws.entries).len() - i,
{
    if i < present(ws.entries).len() {
        let e = present(ws.entries)[i];
        let next = pass_step(ws, i, st, hs, group);
        assert(entry_collectable(e, hs));
        match e.item {
            ItemModel::Table(t) => {
                if collected(e, hs) {
                    let key = list_key(e, hs);
                    let h0 = seq![HeadingView::Complete(seq![key])];
                    lemma_gather_shape(t, h0, 1);
                    assert(starts_with(h0, key)) by {
                        assert(segments(h0[0]) == seq![key]);
                    }
                    lemma_gather_starts(t, h0, 1, key);
                    let sh = sorted_headings(gather(t, h0, 1));
                    lemma_sorted_headings_starts(gather(t, h0, 1), key);
                    assert(next.lists == st.lists.push(
                        HeadingListView { index: i as usize, key, headings: sh },
                    ));
                    assert forall|l: int, g: int|
                        0 <= l < next.lists.len() && 0 <= g < next.lists[l].headings.len() implies #[trigger] next.lists[l].headings[g]
                        != HeadingView::Complete(seq![n]) by {
                        if l < st.lists.len() {
                            assert(next.lists[l] == st.lists[l]);
                        } else {
                            assert(segments(sh[g])[0] == key);
                            if sh[g] == HeadingView::Complete(seq![n]) {
                                assert(segments(sh[g]) == seq![n]);
                            }
                        }
                    }
                }
            },
            _ => {},
        }
        assert(avoids(next.lists, n));
        lemma_pass_avoids(ws, i + 1, next, hs, group, n);
    }
}

proof fn lemma_headings_from_avoid(lists: Seq<HeadingListView>, l: int, n: Seq<char>)
    requires
        0 <= l,
        avoids(lists, n),
    ensures
        forall|q: int|
            0 <= q < headings_from(lists, l).len() ==> #[trigger] headings_from(lists, l)[q]
                != HeadingView::Complete(seq![n]),
    decreases lists.len() - l,
{
    if l < lists.len() {
        let hs = lists[l].headings;
        let rest = headings_from(lists, l + 1);
        lemma_headings_from_avoid(lists, l + 1, n);
        assert forall|q: int| 0 <= q < headings_from(lists, l).len() implies #[trigger] headings_from(
            lists,
            l,
        )[q] != HeadingView::Complete(seq![n]) by {
            if q < hs.len() {
                assert(headings_from(lists, l)[q] == hs[q]);
            } else {
                assert(headings_from(lists, l)[q] == rest[q - hs.len()]);
            }
        }
    }
}

/// The top-level table named `n` keeps its position, and stays a table or
/// not, when what the matcher's pairs name is sorted.
proof fn lemma_keyed_step_top(root: TableModel, h: Seq<char>, k: Seq<char>, group: bool, n: Seq<char>)
    ensures
        position_at(keyed_step(root, h, k, group), seq![n]) == position_at(root, seq![n]),
{
    let r = keyed_step(root, h, k, group);
    assert(seq![n].drop_first() =~= Seq::<Seq<char>>::empty());
    match lookup(root.entries, h) {
        ItemModel::Table(t) => {
            let inner = lookup(t.entries, k);
            if !(inner is Empty) {
                lemma_key_index(root.entries, h);
                lemma_key_index(root.entries, n);
                let kh = key_index(root.entries, h);
                let t2 = TableModel {
                    entries: with_item(t.entries, key_index(t.entries, k), keyed_item_sorted(inner, group)),
                    ..t
                };
                assert(r.entries == with_item(root.entries, kh, ItemModel::Table(t2)));
                lemma_key_index_same_names(root.entries, r.entries, n);
                if n == h {
                    assert(lookup(r.entries, n) == ItemModel::Table(t2));
                    assert(table_at(t2, seq![n].drop_first()) == Some(t2));
                    assert(table_at(t, seq![n].drop_first()) == Some(t));
                    assert(table_at(r, seq![n]) == Some(t2));
                    assert(table_at(root, seq![n]) == Some(t));
                }
                if n != h {
                    let kn = key_index(root.entries, n);
                    if kn >= 0 {
                        assert(kn != kh);
                        assert(r.entries[kn] == root.entries[kn]);
                    }
                    assert(lookup(r.entries, n) == lookup(root.entries, n));
                }
            }
        },
        _ => {},
    }
}

proof fn lemma_keyed_top(root: TableModel, pairs: Seq<(Seq<char>, Seq<char>)>, i: int, group: bool, n: Seq<char>)
    requires
        0 <= i,
    ensures
        position_at(keyed_from(root, pairs, i, group), seq![n]) == position_at(root, seq![n]),
    decreases pairs.len() - i,
{
    if i < pairs.len() {
        lemma_keyed_step_top(root, pairs[i].0, pairs[i].1, group, n);
        lemma_keyed_top(keyed_step(root, pairs[i].0, pairs[i].1, group), pairs, i + 1, group, n);
    }
}

/// Where no ordering is given, a top-level table that is not a dependency
/// table (such as `[package]` or `[features]`) keeps the position it was
/// parsed with, so it keeps its place among the dependency tables. This
/// asks that no dependency table's headings be collected under the table's
/// own name (a quoted dependency key shown as that name, or a `target` path
/// that reads as it).
pub proof fn law_other_tables_keep_position(
    root: TableModel,
    hs: Seq<Seq<char>>,
    pairs: Seq<(Seq<char>, Seq<char>)>,
    group: bool,
    ordering: Seq<Seq<char>>,
    x: int,
)
    requires
        keys_distinct(root.entries),
        ordering.len() == 0,
        0 <= x < root.entries.len(),
        keyed_from(root, pairs, 0, group).entries[x].item is Table,
        skipped(keyed_from(root, pairs, 0, group).entries[x], hs),
        sortable(root, hs, pairs, group),
        forall|i: int|
            0 <= i < present(keyed_from(root, pairs, 0, group).entries).len() && collected(
                #[trigger] present(keyed_from(root, pairs, 0, group).entries)[i],
                hs,
            ) ==> list_key(present(keyed_from(root, pairs, 0, group).entries)[i], hs)
                != root.entries[x].key.name,
    ensures
        position_at(sorted_document(root, hs, pairs, group, ordering), seq![root.entries[x].key.name])
            == position_at(root, seq![root.entries[x].key.name]),
{
    let n = root.entries[x].key.name;
    let ws = keyed_from(root, pairs, 0, group);
    lemma_keyed_keys(root, pairs, 0, group);
    assert(keys_distinct(ws.entries)) by {
        assert forall|a: int, b: int|
            0 <= a < ws.entries.len() && 0 <= b < ws.entries.len() && a != b implies ws.entries[a].key.name
            != ws.entries[b].key.name by {
            assert(ws.entries[a].key == root.entries[a].key);
            assert(ws.entries[b].key == root.entries[b].key);
        }
    }
    let j = lemma_present_index(ws.entries, x);
    let st0 = PassState { root: ws, ordering, first_table: None, lists: Seq::empty() };
    lemma_pass_root(ws, 0, st0, hs, group, x, j);
    assert forall|i: int| 0 <= i < present(ws.entries).len() implies entry_collectable(
        #[trigger] present(ws.entries)[i],
        hs,
    ) && (collected(present(ws.entries)[i], hs) ==> list_key(present(ws.entries)[i], hs) != n) by {
        assert(entry_collectable(present(ws.entries)[i], hs));
    }
    lemma_pass_avoids(ws, 0, st0, hs, group, n);
    let st = pass_from(ws, 0, st0, hs, group);
    lemma_headings_from_avoid(st.lists, 0, n);
    assert forall|q: int| 0 <= q < headings_from(st.lists, 0).len() implies !numbers(
        #[trigger] headings_from(st.lists, 0)[q],
        later_at(st.lists, 0, q),
        seq![n],
    ) by {
        let h = headings_from(st.lists, 0)[q];
        if numbers(h, later_at(st.lists, 0, q), seq![n]) {
            assert(h == HeadingView::Complete(seq![n]));
        }
    }
    law_unnumbered_tables_keep_position(st.root, st.lists, st.first_table, seq![n]);
    assert(ws.entries[x].key.name == n);
    assert(st.root.entries[x].key.name == n);
    lemma_key_index_distinct(ws.entries, x);
    assert(keys_distinct(st.root.entries)) by {
        assert forall|a: int, b: int|
            0 <= a < st.root.entries.len() && 0 <= b < st.root.entries.len() && a != b implies st.root.entries[a].key.name
            != st.root.entries[b].key.name by {
            assert(st.root.entries[a].key == ws.entries[a].key);
            assert(st.root.entries[b].key == ws.entries[b].key);
        }
    }
    lemma_key_index_distinct(st.root.entries, x);
    assert(st.root.entries[x].item == ws.entries[x].item);
    assert(seq![n].drop_first() =~= Seq::<Seq<char>>::empty());
    assert(position_at(st.root, seq![n]) == position_at(ws, seq![n]));
    lemma_keyed_top(root, pairs, 0, group, n);
}

/// The number that ordering by headings starts from: one past
/// `first_table` (one past 0 where there is none), wrapping at `usize`.
pub proof fn law_lex_base_follows_first_table(first_table: Option<usize>)
    ensures
        lex_base(first_table) == add_wrapping(
            match first_table {
                Some(f) => f,
                None => 0,
            },
            1,
        ),
{
}

pub(crate) proof fn lemma_numbers_names(h: HeadingView, later: bool, segs: Seq<Seq<char>>)
    ensures
        numbers(h, later, segs) ==> h == HeadingView::Complete(segs),
        h == HeadingView::Complete(segs) && (segs.len() > 1 || (later && segs.len() > 0)) ==> numbers(
            h,
            later,
            segs,
        ),
{
}

/// Where no ordering is given, the table of a complete heading with two or
/// more segments (a table under a dependency table), in any of the lists,
/// takes the number `q` past one after the first dependency table's
/// number, `q` being the heading's place among the headings of all lists,
/// one list after the other (where no other heading names that table).
pub proof fn law_sub_tables_numbered_by_heading(
    root: TableModel,
    lists: Seq<HeadingListView>,
    first_table: Option<usize>,
    q: int,
    segs: Seq<Seq<char>>,
)
    requires
        headings_from(lists, 0).len() <= usize::MAX,
        0 <= q < headings_from(lists, 0).len(),
        headings_from(lists, 0)[q] == HeadingView::Complete(segs),
        segs.len() >= 2,
        forall|x: int|
            0 <= x < headings_from(lists, 0).len() && x != q ==> #[trigger] headings_from(lists, 0)[x]
                != HeadingView::Complete(segs),
        table_at(root, segs) is Some,
    ensures
        position_at(sorted_lexicographically(root, lists, first_table), segs) == Some(
            Some(
                add_wrapping(
                    add_wrapping(
                        match first_table {
                            Some(f) => f,
                            None => 0,
                        },
                        1,
                    ),
                    q as usize,
                ),
            ),
        ),
{
    let flat = headings_from(lists, 0);
    lemma_numbers_names(flat[q], later_at(lists, 0, q), segs);
    assert forall|x: int| 0 <= x < flat.len() && x != q implies !numbers(
        #[trigger] flat[x],
        later_at(lists, 0, x),
        segs,
    ) by {
        lemma_numbers_names(flat[x], later_at(lists, 0, x), segs);
    }
    law_headings_numbered_in_order(root, lists, first_table, q, segs);
}

/// Where no ordering is given, a dependency table whose heading stands
/// after the first list (a dependency table after the first) takes the
/// number `q` past one after the first dependency table's number, `q` being
/// its heading's place among the headings of all lists.
pub proof fn law_later_dependency_tables_numbered_by_heading(
    root: TableModel,
    lists: Seq<HeadingListView>,
    first_table: Option<usize>,
    q: int,
    n: Seq<char>,
)
    requires
        lists.len() > 0,
        headings_from(lists, 0).len() <= usize::MAX,
        lists[0].headings.len() <= q < headings_from(lists, 0).len(),
        headings_from(lists, 0)[q] == HeadingView::Complete(seq![n]),
        forall|x: int|
            0 <= x < headings_from(lists, 0).len() && x != q ==> #[trigger] headings_from(lists, 0)[x]
                != HeadingView::Complete(seq![n]),
        table_at(root, seq![n]) is Some,
    ensures
        position_at(sorted_lexicographically(root, lists, first_table), seq![n]) == Some(
            Some(
                add_wrapping(
                    add_wrapping(
                        match first_table {
                            Some(f) => f,
                            None => 0,
                        },
                        1,
                    ),
                    q as usize,
                ),
            ),
        ),
{
    let flat = headings_from(lists, 0);
    assert(later_at(lists, 0, q));
    lemma_numbers_names(flat[q], later_at(lists, 0, q), seq![n]);
    assert forall|x: int| 0 <= x < flat.len() && x != q implies !numbers(
        #[trigger] flat[x],
        later_at(lists, 0, x),
        seq![n],
    ) by {
        lemma_numbers_names(flat[x], later_at(lists, 0, x), seq![n]);
    }
    law_headings_numbered_in_order(root, lists, first_table, q, seq![n]);
}

/// Where no ordering is given, a one-segment path that no heading after the
/// first list names (such as the first dependency table's own) keeps its
/// position.
pub proof fn law_first_list_tables_keep_position(
    root: TableModel,
    lists: Seq<HeadingListView>,
    first_table: Option<usize>,
    n: Seq<char>,
)
    requires
        forall|x: int|
            0 <= x < headings_from(lists, 0).len() && (lists.len() == 0 || x >= lists[0].headings.len())
                ==> #[trigger] headings_from(lists, 0)[x] != HeadingView::Complete(seq![n]),
    ensures
        position_at(sorted_lexicographically(root, lists, first_table), seq![n]) == position_at(
            root,
            seq![n],
        ),
{
    let flat = headings_from(lists, 0);
    assert forall|x: int| 0 <= x < flat.len() implies !numbers(
        #[trigger] flat[x],
        later_at(lists, 0, x),
        seq![n],
    ) by {
        lemma_numbers_names(flat[x], later_at(lists, 0, x), seq![n]);
    }
    law_unnumbered_tables_keep_position(root, lists, first_table, seq![n]);
}

/// The pass over the top-level entries records, as the number that ordering
/// by headings follows, the position of the first dependency table it
/// collects (one more than its place among the entries where it has none).
pub proof fn law_first_table_recorded(
    ws: TableModel,
    hs: Seq<Seq<char>>,
    group: bool,
    ordering: Seq<Seq<char>>,
    j: int,
)
    requires
        0 <= j < present(ws.entries).len(),
        collected(present(ws.entries)[j], hs),
        forall|i: int| 0 <= i < j ==> !collected(#[trigger] present(ws.entries)[i], hs),
    ensures
        pass_from(ws, 0, PassState { root: ws, ordering, first_table: None, lists: Seq::empty() }, hs, group).first_table
            == Some(
            match present(ws.entries)[j].item->Table_0.position {
                Some(p) => p,
                None => (j + 1) as usize,
            },
        ),
{
    lemma_first_table(ws, 0, PassState { root: ws, ordering, first_table: None, lists: Seq::empty() }, hs, group, j);
}

proof fn lemma_first_table(ws: TableModel, i: int, st: PassState, hs: Seq<Seq<char>>, group: bool, j: int)
    requires
        0 <= i,
        0 <= j < present(ws.entries).len(),
        collected(present(ws.entries)[j], hs),
        forall|x: int| 0 <= x < j ==> !collected(#[trigger] present(ws.entries)[x], hs),
        i <= j ==> st.first_table is None,
        i > j ==> st.first_table == Some(
            match present(ws.entries)[j].item->Table_0.position {
                Some(p) => p,
                None => (j + 1) as usize,
            },
        ),
    ensures
        pass_from(ws, i, st, hs, group).first_table == Some(
            match present(ws.entries)[j].item->Table_0.position {
                Some(p) => p,
                None => (j + 1) as usize,
            },
        ),
    decreases present(ws.entries).len() - i,
{
    if i < present(ws.entries).len() {
        let next = pass_step(ws, i, st, hs, group);
        if i < j {
            assert(!collected(present(ws.entries)[i], hs));
        }
        lemma_first_table(ws, i + 1, next, hs, group, j);
    }
}

} // verus!
