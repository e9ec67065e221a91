//! What holds of sorting one array, table or list of headings, for all
//! inputs.
use vstd::prelude::*;

use crate::array::{all_strings, lemma_stable_order_short, sorted_array, string_of};
use crate::group::{
    uncommented_lines,
    first_of_group, group_key, group_lt, group_order, group_start, grouped_entries, grouped_model,
    lemma_group_lt_strict_total, lemma_group_start_range, prefix_text, starts_group,
};
use crate::heading::{HeadingListView, HeadingView, gatherable, gatherable_from, heading_lt, lemma_heading_lt_strict_total, sorted_headings};
use crate::model::{
    ArrayModel, DecorModel, EntryModel, ItemModel, TableModel, ValueModel, is_present, lemma_present_from,
    names, present, sorted_by_key,
};
use crate::order::{
    chars_le, chars_lt, lemma_chars_lt_strict_total, lemma_stable_order_of_sorted,
    lemma_stable_order_range, lemma_stable_order_rearranged, lemma_stable_order_sorted,
    rearranged, stable_order,
};
use crate::sort::{
    PassState, collected, entry_collectable, keyed_from, pass_from, pass_step, sortable,
};

verus! {

/// An array of strings comes out in the order of `str`, holding the same
/// values, with its trailing text and trailing comma kept.
pub proof fn law_sorted_array_orders_strings(a: ArrayModel)
    requires
        all_strings(a.values),
    ensures
        all_strings(sorted_array(a).values),
        forall|i: int, j: int|
            0 <= i < j < sorted_array(a).values.len() ==> chars_le(
                string_of(#[trigger] sorted_array(a).values[i]),
                string_of(#[trigger] sorted_array(a).values[j]),
            ),
        rearranged(sorted_array(a).values, a.values),
        sorted_array(a).trailing == a.trailing,
        sorted_array(a).trailing_comma == a.trailing_comma,
        sorted_array(a).decor == (DecorModel { prefix: None, suffix: None }),
{
    let lt = |x: Seq<char>, y: Seq<char>| chars_lt(x, y);
    let keys = a.values.map_values(|v: ValueModel| string_of(v));
    lemma_chars_lt_strict_total();
    lemma_stable_order_range(keys, lt);
    lemma_stable_order_sorted(keys, lt);
    lemma_stable_order_rearranged(keys, lt, a.values);
    let o = stable_order(keys, lt);
    let r = sorted_array(a).values;
    assert forall|i: int| 0 <= i < r.len() implies #[trigger] r[i] is Str by {
        assert(r[i] == a.values[o[i]]);
    }
    assert forall|i: int, j: int| 0 <= i < j < r.len() implies chars_le(
        string_of(#[trigger] r[i]),
        string_of(#[trigger] r[j]),
    ) by {
        assert(!lt(keys[o[j]], keys[o[i]]));
        if keys[o[i]] != keys[o[j]] {
            assert(lt(keys[o[i]], keys[o[j]]) || lt(keys[o[j]], keys[o[i]]));
        }
    }
}

/// An array of two or more values that holds a value other than a string is
/// left exactly as it is.
pub proof fn law_sorted_array_keeps_other(a: ArrayModel)
    requires
        !all_strings(a.values),
        a.values.len() >= 2,
    ensures
        sorted_array(a) == a,
{
}

/// Sorting an array twice gives what sorting it once gives.
pub proof fn law_sorted_array_idempotent(a: ArrayModel)
    ensures
        sorted_array(sorted_array(a)) == sorted_array(a),
{
    if all_strings(a.values) {
        law_sorted_array_orders_strings(a);
        let r = sorted_array(a);
        let lt = |x: Seq<char>, y: Seq<char>| chars_lt(x, y);
        let keys = r.values.map_values(|v: ValueModel| string_of(v));
        lemma_chars_lt_strict_total();
        assert forall|i: int, j: int| 0 <= i < j < keys.len() implies !lt(
            #[trigger] keys[j],
            #[trigger] keys[i],
        ) by {
            assert(chars_le(string_of(r.values[i]), string_of(r.values[j])));
            if keys[i] != keys[j] {
                assert(lt(keys[i], keys[j]));
            } else {
                crate::order::lemma_chars_lt_irreflexive(keys[i]);
            }
            crate::order::lemma_chars_lt_asymmetric(keys[i], keys[j]);
        }
        lemma_stable_order_of_sorted(keys, lt);
        assert(sorted_array(r).values =~= r.values);
    } else if a.values.len() < 2 {
        let r = sorted_array(a);
        lemma_stable_order_short(a.values.map_values(|v: ValueModel| string_of(v)));
        assert(r.values =~= a.values);
        lemma_stable_order_short(r.values.map_values(|v: ValueModel| string_of(v)));
        assert(sorted_array(r).values =~= r.values);
    }
}

/// Sorting entries by key puts their names in the order of `str` and keeps
/// every entry.
pub proof fn law_sorted_by_key_orders_names(es: Seq<EntryModel>)
    ensures
        forall|i: int, j: int|
            0 <= i < j < es.len() ==> chars_le(
                (#[trigger] sorted_by_key(es)[i]).key.name,
                (#[trigger] sorted_by_key(es)[j]).key.name,
            ),
        rearranged(sorted_by_key(es), es),
{
    let lt = |x: Seq<char>, y: Seq<char>| chars_lt(x, y);
    let keys = names(es);
    lemma_chars_lt_strict_total();
    lemma_stable_order_range(keys, lt);
    lemma_stable_order_sorted(keys, lt);
    lemma_stable_order_rearranged(keys, lt, es);
    let o = stable_order(keys, lt);
    let r = sorted_by_key(es);
    assert forall|i: int, j: int| 0 <= i < j < es.len() implies chars_le(
        (#[trigger] r[i]).key.name,
        (#[trigger] r[j]).key.name,
    ) by {
        assert(!lt(keys[o[j]], keys[o[i]]));
        if keys[o[i]] != keys[o[j]] {
            assert(lt(keys[o[i]], keys[o[j]]) || lt(keys[o[j]], keys[o[i]]));
        }
    }
}

/// Sorting entries by key twice gives what sorting them once gives.
pub proof fn law_sorted_by_key_idempotent(es: Seq<EntryModel>)
    ensures
        sorted_by_key(sorted_by_key(es)) == sorted_by_key(es),
{
    law_sorted_by_key_orders_names(es);
    let r = sorted_by_key(es);
    let lt = |x: Seq<char>, y: Seq<char>| chars_lt(x, y);
    let keys = names(r);
    lemma_chars_lt_strict_total();
    lemma_stable_order_range(names(es), lt);
    assert(r.len() == es.len());
    assert forall|i: int, j: int| 0 <= i < j < keys.len() implies !lt(
        #[trigger] keys[j],
        #[trigger] keys[i],
    ) by {
        assert(chars_le(r[i].key.name, r[j].key.name));
        crate::order::lemma_chars_lt_irreflexive(keys[i]);
        crate::order::lemma_chars_lt_asymmetric(keys[i], keys[j]);
    }
    lemma_stable_order_of_sorted(keys, lt);
    assert(sorted_by_key(r) =~= r);
}

/// Sorted headings come in order (pending paths first, then by path) and
/// are the headings rearranged.
pub proof fn law_sorted_headings_ordered(hs: Seq<crate::heading::HeadingView>)
    ensures
        forall|i: int, j: int|
            0 <= i < j < hs.len() ==> !heading_lt(
                #[trigger] sorted_headings(hs)[j],
                #[trigger] sorted_headings(hs)[i],
            ),
        rearranged(sorted_headings(hs), hs),
{
    let lt = |a: crate::heading::HeadingView, b: crate::heading::HeadingView| heading_lt(a, b);
    lemma_heading_lt_strict_total();
    lemma_stable_order_range(hs, lt);
    lemma_stable_order_sorted(hs, lt);
    lemma_stable_order_rearranged(hs, lt, hs);
    let o = stable_order(hs, lt);
    assert forall|i: int, j: int| 0 <= i < j < hs.len() implies !heading_lt(
        #[trigger] sorted_headings(hs)[j],
        #[trigger] sorted_headings(hs)[i],
    ) by {
        assert(!lt(hs[o[j]], hs[o[i]]));
    }
}

/// The names `out`, taken in the order `group_order(es)`, keep the groups of
/// `es` in order, and within a group come in the order of `str`.
pub open spec fn in_group_order(es: Seq<EntryModel>, out: Seq<Seq<char>>) -> bool {
    forall|i: int, j: int|
        0 <= i < j < es.len() ==> group_start(es, #[trigger] group_order(es)[i]) <= group_start(
            es,
            #[trigger] group_order(es)[j],
        ) && (group_start(es, group_order(es)[i]) == group_start(es, group_order(es)[j])
            ==> chars_le(out[i], out[j]))
}

/// Sorting by groups keeps the groups in their order and sorts the names
/// within each group; each entry's item is kept.
pub proof fn law_grouped_entries_sorted_within_groups(es: Seq<EntryModel>)
    requires
        es.len() <= usize::MAX,
    ensures
        grouped_entries(es).len() == es.len(),
        in_group_order(es, names(grouped_entries(es))),
        rearranged(group_order(es), Seq::new(es.len(), |j: int| j)),
        forall|q: int|
            0 <= q < es.len() ==> (#[trigger] grouped_entries(es)[q]).item == es[group_order(
                es,
            )[q]].item,
{
    let keys = Seq::new(es.len(), |j: int| crate::group::group_key(es, j));
    let lt = |a: (usize, Seq<char>), b: (usize, Seq<char>)| crate::group::group_lt(a, b);
    lemma_group_lt_strict_total();
    lemma_stable_order_range(keys, lt);
    lemma_stable_order_sorted(keys, lt);
    let o = group_order(es);
    assert(o == stable_order(keys, lt));
    let out = names(grouped_entries(es));
    assert forall|i: int, j: int| 0 <= i < j < es.len() implies group_start(
        es,
        #[trigger] o[i],
    ) <= group_start(es, #[trigger] o[j]) && (group_start(es, o[i]) == group_start(es, o[j])
        ==> chars_le(out[i], out[j])) by {
        crate::group::lemma_group_start_range(es, o[i]);
        crate::group::lemma_group_start_range(es, o[j]);
        assert(!lt(keys[o[j]], keys[o[i]]));
        assert(keys[o[i]].0 == group_start(es, o[i]));
        assert(keys[o[j]].0 == group_start(es, o[j]));
        let ni = es[o[i]].key.name;
        let nj = es[o[j]].key.name;
        if ni != nj {
            crate::order::lemma_chars_lt_connected(ni, nj);
        }
        assert(out[i] == ni);
        assert(out[j] == nj);
    }
    let ids = Seq::new(es.len(), |j: int| j);
    assert(o.len() == ids.len());
    assert forall|j: int| 0 <= j < o.len() implies #[trigger] o[j] == ids[o[j]] by {}
}


/// Where an ordering is given, the pass over the top-level entries keeps it
/// at the start of the ordering it builds and adds every top-level key, so
/// that the tables it does not name come after; where none is given, none
/// is built.
pub proof fn law_ordering_extended(ws: TableModel, st: PassState, hs: Seq<Seq<char>>, group: bool)
    ensures
        st.ordering.len() == 0 ==> pass_from(ws, 0, st, hs, group).ordering.len() == 0,
        st.ordering.len() <= pass_from(ws, 0, st, hs, group).ordering.len(),
        pass_from(ws, 0, st, hs, group).ordering.take(st.ordering.len() as int) == st.ordering,
        st.ordering.len() > 0 ==> forall|i: int|
            0 <= i < present(ws.entries).len()
                ==> pass_from(ws, 0, st, hs, group).ordering.contains((#[trigger] present(ws.entries)[i]).key.name),
{
    lemma_pass_ordering(ws, 0, st, hs, group);
}

pub(crate) proof fn lemma_pass_ordering(ws: TableModel, i: int, st: PassState, hs: Seq<Seq<char>>, group: bool)
    requires
        0 <= i,
    ensures
        st.ordering.len() == 0 ==> pass_from(ws, i, st, hs, group).ordering.len() == 0,
        st.ordering.len() <= pass_from(ws, i, st, hs, group).ordering.len(),
        pass_from(ws, i, st, hs, group).ordering.take(st.ordering.len() as int) == st.ordering,
        st.ordering.len() > 0 ==> forall|j: int|
            i <= j < present(ws.entries).len()
                ==> pass_from(ws, i, st, hs, group).ordering.contains((#[trigger] present(ws.entries)[j]).key.name),
    decreases present(ws.entries).len() - i,
{
    let out = pass_from(ws, i, st, hs, group).ordering;
    if i < present(ws.entries).len() {
        let e = present(ws.entries)[i];
        let next = pass_step(ws, i, st, hs, group);
        lemma_pass_ordering(ws, i + 1, next, hs, group);
        let mid = next.ordering;
        assert(mid.take(st.ordering.len() as int) =~= st.ordering);
        assert(out.take(st.ordering.len() as int) =~= mid.take(mid.len() as int).take(
            st.ordering.len() as int,
        ));
        assert(mid.take(mid.len() as int) =~= mid);
        if st.ordering.len() > 0 {
            assert(mid.contains(e.key.name)) by {
                if st.ordering.contains(e.key.name) {
                    let a = choose|a: int| 0 <= a < st.ordering.len() && st.ordering[a] == e.key.name;
                    assert(mid[a] == mid.take(st.ordering.len() as int)[a]);
                } else {
                    assert(mid[mid.len() - 1] == e.key.name);
                }
            }
            let a = choose|a: int| 0 <= a < mid.len() && mid[a] == e.key.name;
            assert(out[a] == out.take(mid.len() as int)[a]);
        }
    } else {
        assert(out.take(st.ordering.len() as int) =~= st.ordering);
    }
}


/// Group starts never go back.
proof fn lemma_group_start_mono(es: Seq<EntryModel>, a: int, b: int)
    requires
        0 <= a <= b,
    ensures
        group_start(es, a) <= group_start(es, b),
    decreases b - a,
{
    if a < b {
        lemma_group_start_mono(es, a, b - 1);
        lemma_group_start_range(es, b - 1);
        lemma_group_start_range(es, a);
    }
}

/// An entry that starts a group is no later than the start of the group of
/// any entry after it.
proof fn lemma_group_start_at_least(es: Seq<EntryModel>, f: int, b: int)
    requires
        0 < f <= b,
        starts_group(es, f),
    ensures
        f <= group_start(es, b),
{
    lemma_group_start_mono(es, f, b);
}

/// Where the groups of positions `a < b` of the order differ, some position
/// in `(a, b]` is the first of its group.
proof fn lemma_group_change(es: Seq<EntryModel>, o: Seq<int>, a: int, b: int) -> (f: int)
    requires
        0 <= a < b < o.len(),
        group_start(es, o[a]) != group_start(es, o[b]),
    ensures
        a < f <= b,
        group_start(es, o[f - 1]) != group_start(es, o[f]),
    decreases b - a,
{
    if group_start(es, o[b - 1]) != group_start(es, o[b]) {
        b
    } else {
        lemma_group_change(es, o, a, b - 1)
    }
}

proof fn lemma_present_all(es: Seq<EntryModel>)
    requires
        forall|x: int| 0 <= x < es.len() ==> is_present(#[trigger] es[x]),
    ensures
        present(es) == es,
    decreases es.len(),
{
    if es.len() > 0 {
        assert forall|x: int| 0 <= x < es.drop_last().len() implies is_present(
            #[trigger] es.drop_last()[x],
        ) by {
            assert(es.drop_last()[x] == es[x]);
        }
        lemma_present_all(es.drop_last());
        assert(es.drop_last().push(es.last()) =~= es);
    }
}

/// Sorting by groups a second time changes nothing: the groups, their
/// leading text and the order within each are as the first sort left them.
pub proof fn law_grouped_idempotent(t: TableModel)
    requires
        present(t.entries).len() <= usize::MAX,
    ensures
        grouped_model(grouped_model(t)) == grouped_model(t),
{
    let es = present(t.entries);
    let n = es.len();
    let o = group_order(es);
    let out = grouped_entries(es);
    law_grouped_entries_sorted_within_groups(es);
    let keys = Seq::new(n, |j: int| group_key(es, j));
    let lt = |a: (usize, Seq<char>), b: (usize, Seq<char>)| group_lt(a, b);
    lemma_group_lt_strict_total();
    lemma_stable_order_range(keys, lt);
    assert(o == stable_order(keys, lt));
    assert forall|x: int| 0 <= x < n implies is_present(#[trigger] out[x]) by {
        let k = lemma_present_from(t.entries, o[x]);
    }
    lemma_present_all(out);
    // which positions of the output start a group
    assert forall|q: int| 0 <= q < n implies #[trigger] starts_group(out, q) == (first_of_group(
        es,
        o,
        q,
    ) && starts_group(es, group_start(es, o[q]))) by {
        lemma_group_start_range(es, o[q]);
        let g = group_start(es, o[q]);
        if first_of_group(es, o, q) && starts_group(es, g) {
            assert(prefix_text(out[q].key) == prefix_text(es[g].key));
        } else if starts_group(es, o[q]) {
            assert(prefix_text(out[q].key) == Seq::<char>::empty());
        } else {
            assert(out[q].key == es[o[q]].key);
        }
    }
    // the output's own group starts, in order
    let keys2 = Seq::new(n, |q: int| group_key(out, q));
    assert forall|a: int, b: int| 0 <= a < b < n implies !lt(#[trigger] keys2[b], #[trigger] keys2[a]) by {
        lemma_group_start_mono(out, a, b);
        lemma_group_start_range(out, a);
        lemma_group_start_range(out, b);
        let ga = group_start(es, o[a]);
        let gb = group_start(es, o[b]);
        if ga != gb {
            let f = lemma_group_change(es, o, a, b);
            lemma_group_start_range(es, o[f]);
            lemma_group_start_range(es, o[f - 1]);
            let gf1 = group_start(es, o[f - 1]);
            let gf = group_start(es, o[f]);
            assert(gf1 <= gf);
            assert(gf > 0);
            assert(first_of_group(es, o, f));
            assert(starts_group(out, f));
            lemma_group_start_at_least(out, f, b);
        } else {
            assert(chars_le(out[a].key.name, out[b].key.name));
            crate::order::lemma_chars_lt_irreflexive(out[a].key.name);
            crate::order::lemma_chars_lt_asymmetric(out[a].key.name, out[b].key.name);
        }
    }
    lemma_stable_order_of_sorted(keys2, lt);
    let o2 = group_order(out);
    assert(o2 == Seq::new(n, |i: int| i));
    let again = grouped_entries(out);
    assert forall|q: int| 0 <= q < n implies #[trigger] again[q] == out[q] by {
        assert(o2[q] == q);
        lemma_group_start_range(out, q);
        if starts_group(out, q) {
            if q > 0 {
                lemma_group_start_range(out, q - 1);
            }
            assert(group_start(out, q) == q);
            assert(first_of_group(out, o2, q));
            assert(again[q].key =~= out[q].key);
        } else {
            if q > 0 {
                assert(group_start(out, q) == group_start(out, q - 1));
                assert(o2[q - 1] == q - 1);
            }
        }
    }
    assert(again =~= out);
}

/// The heading lists that the pass over the top-level entries of `ws`
/// collects.
pub open spec fn collected_lists(ws: TableModel, hs: Seq<Seq<char>>, group: bool, ordering: Seq<Seq<char>>) -> Seq<
    HeadingListView,
> {
    pass_from(ws, 0, PassState { root: ws, ordering, first_table: None, lists: Seq::empty() }, hs, group).lists
}

/// The pass over the top-level entries collects the heading lists in the
/// order of the entries that they come from: their indexes strictly
/// increase, so no index occurs twice and each list comes after those of
/// the entries before it.
pub proof fn law_heading_lists_in_entry_order(ws: TableModel, hs: Seq<Seq<char>>, group: bool, ordering: Seq<Seq<char>>)
    requires
        present(ws.entries).len() <= usize::MAX,
    ensures
        forall|a: int, b: int|
            0 <= a < b < collected_lists(ws, hs, group, ordering).len() ==> (#[trigger] collected_lists(
                ws,
                hs,
                group,
                ordering,
            )[a]).index < (#[trigger] collected_lists(ws, hs, group, ordering)[b]).index,
{
    lemma_pass_lists_ordered(
        ws,
        0,
        PassState { root: ws, ordering, first_table: None, lists: Seq::empty() },
        hs,
        group,
    );
}

proof fn lemma_pass_lists_ordered(ws: TableModel, i: int, st: PassState, hs: Seq<Seq<char>>, group: bool)
    requires
        0 <= i <= present(ws.entries).len(),
        present(ws.entries).len() <= usize::MAX,
        forall|a: int, b: int|
            0 <= a < b < st.lists.len() ==> (#[trigger] st.lists[a]).index < (#[trigger] st.lists[b]).index,
        forall|a: int| 0 <= a < st.lists.len() ==> (#[trigger] st.lists[a]).index < i,
    ensures
        forall|a: int, b: int|
            0 <= a < b < pass_from(ws, i, st, hs, group).lists.len() ==> (#[trigger] pass_from(
                ws,
                i,
                st,
                hs,
                group,
            ).lists[a]).index < (#[trigger] pass_from(ws, i, st, hs, group).lists[b]).index,
    decreases present(ws.entries).len() - i,
{
    if i < present(ws.entries).len() {
        let next = pass_step(ws, i, st, hs, group);
        assert forall|a: int, b: int| 0 <= a < b < next.lists.len() implies (#[trigger] next.lists[a]).index
            < (#[trigger] next.lists[b]).index by {
            if b >= st.lists.len() {
                assert(next.lists[a] == st.lists[a]);
                assert(next.lists[b].index == i);
            } else {
                assert(next.lists[a] == st.lists[a]);
                assert(next.lists[b] == st.lists[b]);
            }
        }
        assert forall|a: int| 0 <= a < next.lists.len() implies (#[trigger] next.lists[a]).index < i + 1 by {
            if a < st.lists.len() {
                assert(next.lists[a] == st.lists[a]);
            } else {
                assert(next.lists[a].index == i);
            }
        }
        lemma_pass_lists_ordered(ws, i + 1, next, hs, group);
    }
}

/// Counting the uncommented lines of two texts, the first of which ends
/// where a line ends (or is empty), adds up: each line counts on its own,
/// whatever lines come before it.
pub proof fn law_uncommented_lines_add_up(a: Seq<char>, b: Seq<char>)
    requires
        a.len() == 0 || a.last() == '\n',
    ensures
        uncommented_lines(a + b) == uncommented_lines(a) + uncommented_lines(b),
    decreases b.len(),
{
    if b.len() > 0 {
        let ab = a + b;
        assert(ab.drop_last() =~= a + b.drop_last());
        law_uncommented_lines_add_up(a, b.drop_last());
        let j = ab.len() - 1;
        let jb = b.len() - 1;
        assert(ab[j] == b[jb]);
        if jb == 0 {
            if a.len() > 0 {
                assert(ab[j - 1] == a.last());
            }
        } else {
            assert(ab[j - 1] == b[jb - 1]);
        }
    }
}

/// One line, without its line ending or with it, counts once where it does
/// not start with `#` and not at all where it does; an empty text counts
/// no line.
pub proof fn law_uncommented_lines_of_one_line(l: Seq<char>)
    requires
        !l.contains('\n'),
    ensures
        uncommented_lines(l) == (if l.len() > 0 && l[0] != '#' { 1nat } else { 0nat }),
        uncommented_lines(l.push('\n')) == (if l.len() == 0 || l[0] != '#' { 1nat } else { 0nat }),
    decreases l.len(),
{
    if l.len() > 0 {
        law_uncommented_lines_of_one_line(l.drop_last());
        let j = l.len() - 1;
        if j > 0 {
            assert(l[j - 1] != '\n') by {
                if l[j - 1] == '\n' {
                    assert(l.contains('\n'));
                }
            }
            assert(l.drop_last()[0] == l[0]);
        }
        assert(!l.drop_last().contains('\n')) by {
            if l.drop_last().contains('\n') {
                let k = choose|k: int| 0 <= k < l.drop_last().len() && l.drop_last()[k] == '\n';
                assert(l[k] == '\n');
            }
        }
    }
    let m = l.push('\n');
    assert(m.drop_last() =~= l);
    if l.len() > 0 {
        assert(m[l.len() - 1] == l[l.len() - 1]);
        assert(l[l.len() - 1] != '\n') by {
            if l[l.len() - 1] == '\n' {
                assert(l.contains('\n'));
            }
        }
    }
}

/// Every entry of the table that holds something, at every depth, is a
/// value or a table (implicit tables included).
pub open spec fn plain(t: TableModel) -> bool
    decreases t, present(t.entries).len() + 1,
{
    plain_from(t, 0)
}

/// `plain` for the entries `i..` of the table.
pub open spec fn plain_from(t: TableModel, i: int) -> bool
    decreases t, present(t.entries).len() - i,
{
    if i < 0 || i >= present(t.entries).len() {
        true
    } else {
        match present(t.entries)[i].item {
            ItemModel::Value(_) => plain_from(t, i + 1),
            ItemModel::Table(sub) => {
                proof {
                    lemma_present_from(t.entries, i);
                }
                plain(sub) && plain_from(t, i + 1)
            },
            _ => false,
        }
    }
}

/// How deep tables nest under the table (0 where it holds none).
pub open spec fn height(t: TableModel) -> nat
    decreases t, present(t.entries).len() + 1,
{
    height_from(t, 0)
}

/// `height` over the entries `i..` of the table.
pub open spec fn height_from(t: TableModel, i: int) -> nat
    decreases t, present(t.entries).len() - i,
{
    if i < 0 || i >= present(t.entries).len() {
        0
    } else {
        match present(t.entries)[i].item {
            ItemModel::Table(sub) => {
                proof {
                    lemma_present_from(t.entries, i);
                }
                let below = 1 + height(sub);
                let rest = height_from(t, i + 1);
                if below >= rest {
                    below
                } else {
                    rest
                }
            },
            _ => height_from(t, i + 1),
        }
    }
}

/// Headings can be collected under every table built only of values and
/// tables, implicit ones included, entered at any depth from which its
/// nesting stays within `usize`.
pub proof fn law_plain_tables_gatherable(t: TableModel, depth: int)
    requires
        0 <= depth,
        plain(t),
        depth + height(t) <= usize::MAX,
    ensures
        gatherable(t, depth),
    decreases t, present(t.entries).len() + 1,
{
    lemma_plain_from_gatherable(t, 0, depth);
}

proof fn lemma_plain_from_gatherable(t: TableModel, i: int, depth: int)
    requires
        0 <= depth,
        0 <= i,
        plain_from(t, i),
        depth + height_from(t, i) <= usize::MAX,
    ensures
        gatherable_from(t, i, depth),
    decreases t, present(t.entries).len() - i,
{
    if i < present(t.entries).len() {
        match present(t.entries)[i].item {
            ItemModel::Value(_) => {
                lemma_plain_from_gatherable(t, i + 1, depth);
            },
            ItemModel::Table(sub) => {
                lemma_present_from(t.entries, i);
                law_plain_tables_gatherable(sub, depth + 1);
                lemma_plain_from_gatherable(t, i + 1, depth);
            },
            _ => {},
        }
    }
}

/// A document is sortable where, after the matcher's pairs are sorted,
/// every dependency table is built only of values and tables, nested less
/// deeply than `usize` counts.
pub proof fn law_plain_dependency_tables_sortable(
    root: TableModel,
    hs: Seq<Seq<char>>,
    pairs: Seq<(Seq<char>, Seq<char>)>,
    group: bool,
)
    requires
        forall|i: int|
            0 <= i < present(keyed_from(root, pairs, 0, group).entries).len() && collected(
                #[trigger] present(keyed_from(root, pairs, 0, group).entries)[i],
                hs,
            ) ==> plain(present(keyed_from(root, pairs, 0, group).entries)[i].item->Table_0)
                && 1 + height(present(keyed_from(root, pairs, 0, group).entries)[i].item->Table_0)
                <= usize::MAX,
    ensures
        sortable(root, hs, pairs, group),
{
    let ws = keyed_from(root, pairs, 0, group);
    assert forall|i: int| 0 <= i < present(ws.entries).len() implies #[trigger] entry_collectable(
        present(ws.entries)[i],
        hs,
    ) by {
        let e = present(ws.entries)[i];
        if collected(e, hs) {
            law_plain_tables_gatherable(e.item->Table_0, 1);
        }
    }
}

} // verus!
