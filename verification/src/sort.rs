//! Sorting a whole manifest.
use vstd::prelude::*;
use vstd::string::StringExecFns;

use toml_edit::{DocumentMut, Item, Table};

use crate::array::{sort_array, sorted_array};
use crate::heading::{
    Heading, HeadingList, HeadingListView, HeadingView, copy_prefix, gather, gather_headings,
    gatherable, gatherable_from, headings_view, lemma_gather_shape, lists_view, sort_headings, sorted_headings, strings_view,
};
use crate::model::{
    EntryModel, ItemModel, TableModel, ValueModel, key_index, lemma_key_index, lemma_present_from,
    lookup, present, with_item,
};
use crate::order::{chars_equal, chars_of, distinct};
use crate::position::{changed_only, lemma_changed_only_step, lemma_name_not_before, entry_names, order_from, sort_by_ordering, sort_lexicographical, sorted_lexicographically};
use crate::table::{sort_table, sorted_table};
use crate::toml::{
    ItemKind, document_clone, document_model, document_root, parse_document, root_is_table, parsed_document, document_root_mut, item_as_array_mut, item_as_table,
    item_as_table_mut, item_kind, item_model, key_repr, table_get_key_value, table_get_mut,
    table_iter, table_position,
    table_model,
};

verus! {

/// Which tables are sorted. Each field's entries are compared whole with a
/// heading or key.
pub struct Matcher<'a> {
    /// Toml headings with braces `[heading]`.
    pub heading: &'a [&'a str],
    /// Toml heading with braces `[heading]` and the key of the array to sort.
    pub heading_key: &'a [(&'a str, &'a str)],
}

/// The strings as sequences of characters.
pub open spec fn strs_view(s: Seq<&str>) -> Seq<Seq<char>> {
    s.map_values(|x: &str| x@)
}

/// The headings of a matcher.
pub open spec fn matcher_headings(m: Matcher) -> Seq<Seq<char>> {
    strs_view(m.heading@)
}

/// The (heading, key) pairs of a matcher.
pub open spec fn matcher_keys(m: Matcher) -> Seq<(Seq<char>, Seq<char>)> {
    m.heading_key@.map_values(|p: (&str, &str)| (p.0@, p.1@))
}

/// The matcher of the dependency tables and of the workspace's arrays and
/// tables that Cargo reads.
pub fn default_matcher() -> (m: Matcher<'static>)
    ensures
        m.heading@ == seq!["dependencies", "dev-dependencies", "build-dependencies"],
        m.heading_key@ == seq![
            ("workspace", "members"),
            ("workspace", "exclude"),
            ("workspace", "dependencies"),
            ("workspace", "dev-dependencies"),
            ("workspace", "build-dependencies"),
        ],
{
    Matcher {
        heading: &["dependencies", "dev-dependencies", "build-dependencies"],
        heading_key: &[
            ("workspace", "members"),
            ("workspace", "exclude"),
            ("workspace", "dependencies"),
            ("workspace", "dev-dependencies"),
            ("workspace", "build-dependencies"),
        ],
    }
}

/// Whether `key` is one of `names`.
pub fn str_in(names: &[&str], key: &str) -> (r: bool)
    ensures
        r == strs_view(names@).contains(key@),
{
    let k = chars_of(key);
    let mut i: usize = 0;
    while i < names.len()
        invariant
            i <= names@.len(),
            k@ == key@,
            !strs_view(names@).take(i as int).contains(key@),
        decreases names@.len() - i,
    {
        let c = chars_of(names[i]);
        if chars_equal(&c, &k) {
            assert(strs_view(names@)[i as int] == key@);
            return true;
        }
        assert(strs_view(names@).take(i + 1) =~= strs_view(names@).take(i as int).push(
            names@[i as int]@,
        ));
        i = i + 1;
    }
    assert(strs_view(names@).take(i as int) =~= strs_view(names@));
    false
}

/// The paths, under `path`, of the tables under `t` whose last key is one of
/// `hs`, in document order (a table before the tables under it).
pub open spec fn special_paths(t: TableModel, path: Seq<Seq<char>>, hs: Seq<Seq<char>>) -> Seq<
    Seq<Seq<char>>,
>
    decreases t, present(t.entries).len() + 1,
{
    special_from(t, 0, path, hs)
}

/// `special_paths` for the entries `i..` of `t`.
pub open spec fn special_from(t: TableModel, i: int, path: Seq<Seq<char>>, hs: Seq<Seq<char>>) -> Seq<
    Seq<Seq<char>>,
>
    decreases t, present(t.entries).len() - i,
{
    if i < 0 || i >= present(t.entries).len() {
        Seq::empty()
    } else {
        let e = present(t.entries)[i];
        match e.item {
            ItemModel::Table(sub) => {
                proof {
                    lemma_present_from(t.entries, i);
                }
                let p = path.push(e.key.name);
                let own = if hs.contains(e.key.name) {
                    seq![p]
                } else {
                    Seq::empty()
                };
                own + special_paths(sub, p, hs) + special_from(t, i + 1, path, hs)
            },
            _ => special_from(t, i + 1, path, hs),
        }
    }
}

/// Paths as mathematical values.
pub open spec fn paths_view(ps: Seq<Vec<String>>) -> Seq<Seq<Seq<char>>> {
    ps.map_values(|p: Vec<String>| strings_view(p@))
}

/// Appends to `result` the paths, under `path`, of the tables under `table`
/// whose last key is one of the matcher's headings.
pub fn collect_special_tables(
    table: &Table,
    path: &mut Vec<String>,
    result: &mut Vec<Vec<String>>,
    matcher: &Matcher,
)
    ensures
        strings_view(final(path)@) == strings_view(old(path)@),
        paths_view(final(result)@) == paths_view(old(result)@) + special_paths(
            table_model(*table),
            strings_view(old(path)@),
            matcher_headings(*matcher),
        ),
    decreases table_model(*table),
{
    let ghost m = table_model(*table);
    let ghost hs = matcher_headings(*matcher);
    let ghost p0 = strings_view(path@);
    let ghost r0 = paths_view(result@);
    let entries = table_iter(table);
    let n = entries.len();
    for i in 0..n
        invariant
            n == entries@.len(),
            m == table_model(*table),
            hs == matcher_headings(*matcher),
            n == present(m.entries).len(),
            forall|j: int| 0 <= j < n ==> (#[trigger] entries@[j]).0@ == present(m.entries)[j].key.name,
            forall|j: int|
                0 <= j < n ==> item_model(*(#[trigger] entries@[j]).1) == present(m.entries)[j].item,
            strings_view(path@) == p0,
            r0 + special_from(m, 0, p0, hs) == paths_view(result@) + special_from(
                m,
                i as int,
                p0,
                hs,
            ),
    {
        let key = &entries[i].0;
        let item = entries[i].1;
        let ghost e = present(m.entries)[i as int];
        let ghost before = paths_view(result@);
        match item_as_table(item) {
            Some(inner) => {
                path.push(key.clone());
                let ghost p = strings_view(path@);
                assert(p =~= p0.push(e.key.name));
                if str_in(matcher.heading, key.as_str()) {
                    let copy = copy_prefix(path, path.len());
                    assert(strings_view(path@).take(path@.len() as int) =~= strings_view(path@));
                    result.push(copy);
                    assert(paths_view(result@) =~= before.push(p));
                }
                let ghost mid = paths_view(result@);
                proof {
                    lemma_present_from(m.entries, i as int);
                }
                collect_special_tables(inner, path, result, matcher);
                let ghost full = path@;
                path.pop();
                proof {
                    assert(strings_view(full) == p);
                    assert(strings_view(path@) =~= p.drop_last());
                    assert(p.drop_last() =~= p0);
                    let own = if hs.contains(e.key.name) {
                        seq![p]
                    } else {
                        Seq::empty()
                    };
                    assert(mid =~= before + own);
                    assert(special_from(m, i as int, p0, hs) == own + special_paths(
                        table_model(*inner),
                        p,
                        hs,
                    ) + special_from(m, i + 1, p0, hs));
                    assert(paths_view(result@) =~= before + own + special_paths(
                        table_model(*inner),
                        p,
                        hs,
                    ));
                }
            },
            None => {},
        }
    }
    assert(paths_view(result@) + special_from(m, n as int, p0, hs) =~= paths_view(result@));
    assert(special_paths(m, p0, hs) == special_from(m, 0, p0, hs));
}


/// The segments of a path in reverse order, joined by dots: the key under
/// which the headings of a `target` table are collected.
pub open spec fn dotted_reverse(p: Seq<Seq<char>>) -> Seq<char>
    decreases p.len(),
{
    if p.len() == 0 {
        Seq::empty()
    } else if p.len() == 1 {
        p[0]
    } else {
        dotted_reverse(p.drop_first()) + seq!['.'] + p[0]
    }
}

/// Joins the segments of `p` in reverse order with dots.
pub fn join_reversed(p: &Vec<String>) -> (r: String)
    ensures
        r@ == dotted_reverse(strings_view(p@)),
{
    let ghost q = strings_view(p@);
    let n = p.len();
    if n == 0 {
        return String::new();
    }
    let mut s = p[n - 1].clone();
    let mut i = n - 1;
    assert(q.subrange(i as int, n as int) =~= seq![q[i as int]]);
    while i > 0
        invariant
            0 <= i < n,
            n == p@.len(),
            q == strings_view(p@),
            s@ == dotted_reverse(q.subrange(i as int, n as int)),
        decreases i,
    {
        proof {
            reveal_strlit(".");
        }
        s.append(".");
        s.append(p[i - 1].as_str());
        assert(q.subrange(i - 1, n as int).drop_first() =~= q.subrange(i as int, n as int));
        i = i - 1;
    }
    assert(q.subrange(0, n as int) =~= q);
    s
}

/// The path of the dependency table that a `target` entry stands for: the
/// last path, in document order, of a table under it whose key is one of the
/// headings `hs` (or `target` itself where that is one of them).
pub open spec fn target_path(item: ItemModel, name: Seq<char>, hs: Seq<Seq<char>>) -> Option<
    Seq<Seq<char>>,
> {
    if name == "target"@ {
        match item {
            ItemModel::Table(t) => {
                let found = seq![seq![name]] + special_paths(t, seq![name], hs);
                let last = found.last();
                if last.len() > 0 && hs.contains(last.last()) {
                    Some(last)
                } else {
                    None
                }
            },
            _ => None,
        }
    } else {
        None
    }
}

/// The path that `target_path` gives for the top-level entry `name`.
pub fn table_path_of(name: &String, item: &Item, matcher: &Matcher) -> (r: Option<Vec<String>>)
    ensures
        match r {
            None => target_path(item_model(*item), name@, matcher_headings(*matcher)) is None,
            Some(p) => target_path(item_model(*item), name@, matcher_headings(*matcher)) == Some(
                strings_view(p@),
            ),
        },
{
    let ghost hs = matcher_headings(*matcher);
    let n = chars_of(name.as_str());
    let target = chars_of("target");
    if !chars_equal(&n, &target) {
        return None;
    }
    match item_as_table(item) {
        None => None,
        Some(t) => {
            let mut path: Vec<String> = Vec::new();
            path.push(name.clone());
            let mut found: Vec<Vec<String>> = Vec::new();
            let mut first: Vec<String> = Vec::new();
            first.push(name.clone());
            found.push(first);
            assert(strings_view(path@) =~= seq![name@]);
            assert(paths_view(found@) =~= seq![seq![name@]]);
            collect_special_tables(t, &mut path, &mut found, matcher);
            let ghost all = paths_view(found@);
            let last = found.pop().unwrap();
            assert(strings_view(last@) == all.last());
            if last.len() == 0 {
                return None;
            }
            assert(strings_view(last@).last() == last@[last@.len() - 1]@);
            if str_in(matcher.heading, last[last.len() - 1].as_str()) {
                Some(last)
            } else {
                None
            }
        },
    }
}

/// What sorting does to the item under a (heading, key) pair of the
/// matcher: an array is sorted, a table is sorted by key (or by groups).
pub open spec fn keyed_item_sorted(item: ItemModel, group: bool) -> ItemModel {
    match item {
        ItemModel::Value(ValueModel::Array(a)) => ItemModel::Value(ValueModel::Array(sorted_array(a))),
        ItemModel::Table(t) => ItemModel::Table(sorted_table(t, group, None)),
        _ => item,
    }
}

/// The root table after sorting what the key `k` of the top-level table `h`
/// holds (unchanged where there is no such table or key).
pub open spec fn keyed_step(root: TableModel, h: Seq<char>, k: Seq<char>, group: bool) -> TableModel {
    match lookup(root.entries, h) {
        ItemModel::Table(t) => {
            let inner = lookup(t.entries, k);
            if inner is Empty {
                root
            } else {
                let t2 = TableModel {
                    entries: with_item(t.entries, key_index(t.entries, k), keyed_item_sorted(inner, group)),
                    ..t
                };
                TableModel {
                    entries: with_item(root.entries, key_index(root.entries, h), ItemModel::Table(t2)),
                    ..root
                }
            }
        },
        _ => root,
    }
}

/// The root table after `keyed_step` for the pairs `i..`, in turn.
pub open spec fn keyed_from(root: TableModel, pairs: Seq<(Seq<char>, Seq<char>)>, i: int, group: bool) -> TableModel
    decreases pairs.len() - i,
{
    if i < 0 || i >= pairs.len() {
        root
    } else {
        keyed_from(keyed_step(root, pairs[i].0, pairs[i].1, group), pairs, i + 1, group)
    }
}

/// Sorts what the key `k` of the top-level table `h` holds.
fn sort_keyed_entry(root: &mut Table, h: &str, k: &str, group: bool)
    ensures
        table_model(*final(root)) == keyed_step(table_model(*old(root)), h@, k@, group),
{
    let ghost m = table_model(*root);
    match table_get_mut(root, h) {
        None => {},
        Some(item) => {
            let ghost hi = key_index(m.entries, h@);
            match item_as_table_mut(item) {
                None => {
                    proof {
                        lemma_key_index(m.entries, h@);
                    }
                    assert(with_item(m.entries, hi, m.entries[hi].item) =~= m.entries);
                },
                Some(t) => {
                    let ghost tm = table_model(*t);
                    match table_get_mut(t, k) {
                        None => {
                            proof {
                                lemma_key_index(m.entries, h@);
                            }
                            assert(with_item(m.entries, hi, m.entries[hi].item) =~= m.entries);
                        },
                        Some(inner) => {
                            let ghost ki = key_index(tm.entries, k@);
                            let ghost im = item_model(*inner);
                            match item_as_array_mut(inner) {
                                Some(arr) => {
                                    sort_array(arr);
                                },
                                None => {
                                    match item_as_table_mut(inner) {
                                        Some(sub) => {
                                            sort_table(sub, group, &None);
                                        },
                                        None => {
                                            assert(keyed_item_sorted(im, group) == im);
                                            proof {
                                                lemma_key_index(tm.entries, k@);
                                            }
                                            assert(with_item(tm.entries, ki, im) =~= tm.entries);
                                        },
                                    }
                                },
                            }
                        },
                    }
                },
            }
        },
    }
}

/// Sorts, for each (heading, key) pair of the matcher in turn, what the key
/// of that top-level table holds: an array of strings, or a table.
pub fn sort_keyed(doc: &mut DocumentMut, matcher: &Matcher, group: bool)
    requires
        root_is_table(*old(doc)),
    ensures
        root_is_table(*final(doc)),
        document_model(*final(doc)) == keyed_from(
            document_model(*old(doc)),
            matcher_keys(*matcher),
            0,
            group,
        ),
{
    let ghost pairs = matcher_keys(*matcher);
    let root = document_root_mut(doc);
    let n = matcher.heading_key.len();
    for i in 0..n
        invariant
            n == matcher.heading_key@.len(),
            pairs == matcher_keys(*matcher),
            keyed_from(document_model(*old(doc)), pairs, 0, group) == keyed_from(
                table_model(*root),
                pairs,
                i as int,
                group,
            ),
    {
        let (h, k) = matcher.heading_key[i];
        assert(pairs[i as int] == (h@, k@));
        sort_keyed_entry(root, h, k, group);
    }
}


/// The top-level entry `e` is passed over: its key is not one of the
/// headings `hs`, and it is no `target` table that stands for one.
pub open spec fn skipped(e: EntryModel, hs: Seq<Seq<char>>) -> bool {
    !hs.contains(e.key.name) && target_path(e.item, e.key.name, hs) is None
}

/// The key under which the headings of entry `e` are collected: the key as
/// it is shown (quoted where it was written quoted), or, for a `target`
/// table, its path reversed.
pub open spec fn list_key(e: EntryModel, hs: Seq<Seq<char>>) -> Seq<char> {
    match target_path(e.item, e.key.name, hs) {
        Some(p) => dotted_reverse(p),
        None => e.key.repr,
    }
}

/// What the top-level entry `e` holds after the pass: a dependency table is
/// sorted (see `sorted_table`); anything else stays.
pub open spec fn passed_item(e: EntryModel, hs: Seq<Seq<char>>, group: bool) -> ItemModel {
    if skipped(e, hs) {
        e.item
    } else {
        match e.item {
            ItemModel::Table(t) => ItemModel::Table(
                sorted_table(t, group, target_path(e.item, e.key.name, hs)),
            ),
            _ => e.item,
        }
    }
}

/// The ordering after passing entry `e`: where an ordering is given, the
/// name of an entry that it lacks is added at its end, so that the tables it
/// does not name come after those it names.
pub open spec fn passed_ordering(e: EntryModel, ordering: Seq<Seq<char>>, hs: Seq<Seq<char>>) -> Seq<
    Seq<char>,
> {
    if !ordering.contains(e.key.name) && ordering.len() > 0 {
        ordering.push(e.key.name)
    } else {
        ordering
    }
}

/// Whether entry `e` is a dependency table whose headings are collected.
pub open spec fn collected(e: EntryModel, hs: Seq<Seq<char>>) -> bool {
    !skipped(e, hs) && e.item is Table
}

/// The number of the first dependency table after passing entry `i`: the
/// position that the first one among the top-level entries was parsed with
/// (one more than its index among them where it has none).
pub open spec fn passed_first(e: EntryModel, i: int, first: Option<usize>, hs: Seq<Seq<char>>) -> Option<
    usize,
> {
    if collected(e, hs) && first is None {
        match e.item->Table_0.position {
            Some(p) => Some(p),
            None => Some((i + 1) as usize),
        }
    } else {
        first
    }
}

/// The heading lists after passing entry `i`: for a dependency table, the
/// headings under it, starting from its own complete heading, sorted.
pub open spec fn passed_lists(e: EntryModel, i: int, lists: Seq<HeadingListView>, hs: Seq<Seq<char>>) -> Seq<
    HeadingListView,
> {
    match e.item {
        ItemModel::Table(t) => if collected(e, hs) {
            let key = list_key(e, hs);
            lists.push(
                HeadingListView {
                    index: i as usize,
                    key,
                    headings: sorted_headings(gather(t, seq![HeadingView::Complete(seq![key])], 1)),
                },
            )
        } else {
            lists
        },
        _ => lists,
    }
}

/// What the pass over the top-level entries has built so far.
pub struct PassState {
    pub root: TableModel,
    pub ordering: Seq<Seq<char>>,
    pub first_table: Option<usize>,
    pub lists: Seq<HeadingListView>,
}

/// The pass over the top-level entry `i` of `ws` (the root as the pass found
/// it).
pub open spec fn pass_step(ws: TableModel, i: int, st: PassState, hs: Seq<Seq<char>>, group: bool) -> PassState {
    let e = present(ws.entries)[i];
    PassState {
        root: TableModel {
            entries: with_item(
                st.root.entries,
                key_index(st.root.entries, e.key.name),
                passed_item(e, hs, group),
            ),
            ..st.root
        },
        ordering: passed_ordering(e, st.ordering, hs),
        first_table: passed_first(e, i, st.first_table, hs),
        lists: passed_lists(e, i, st.lists, hs),
    }
}

/// The pass over the top-level entries `i..` of `ws` that hold something.
pub open spec fn pass_from(ws: TableModel, i: int, st: PassState, hs: Seq<Seq<char>>, group: bool) -> PassState
    decreases present(ws.entries).len() - i,
{
    if i < 0 || i >= present(ws.entries).len() {
        st
    } else {
        pass_from(ws, i + 1, pass_step(ws, i, st, hs, group), hs, group)
    }
}

/// Headings can be collected under entry `e` where it is a dependency table.
pub open spec fn entry_collectable(e: EntryModel, hs: Seq<Seq<char>>) -> bool {
    collected(e, hs) ==> match e.item {
        ItemModel::Table(t) => gatherable(t, 1),
        _ => true,
    }
}

/// Headings can be collected under every dependency table of the root.
pub open spec fn collectable(root: TableModel, hs: Seq<Seq<char>>) -> bool {
    forall|i: int|
        0 <= i < present(root.entries).len() ==> #[trigger] entry_collectable(
            present(root.entries)[i],
            hs,
        )
}

/// The documents that can be sorted: after the arrays and tables of the
/// matcher's (heading, key) pairs are sorted, the dependency tables hold
/// only values and tables, all the way down (headings cannot be collected
/// under an array of tables).
pub open spec fn sortable(
    root: TableModel,
    hs: Seq<Seq<char>>,
    pairs: Seq<(Seq<char>, Seq<char>)>,
    group: bool,
) -> bool {
    collectable(keyed_from(root, pairs, 0, group), hs)
}

/// The root table of the sorted document: the arrays and tables of the
/// matcher's pairs sorted, each dependency table sorted, and the tables
/// positioned by their headings (no ordering) or by the ordering, which is
/// extended by the top-level keys that it lacks.
pub open spec fn sorted_document(
    root: TableModel,
    hs: Seq<Seq<char>>,
    pairs: Seq<(Seq<char>, Seq<char>)>,
    group: bool,
    ordering: Seq<Seq<char>>,
) -> TableModel {
    let ws = keyed_from(root, pairs, 0, group);
    let st = pass_from(
        ws,
        0,
        PassState { root: ws, ordering, first_table: None, lists: Seq::empty() },
        hs,
        group,
    );
    if st.ordering.len() == 0 {
        sorted_lexicographically(st.root, st.lists, st.first_table)
    } else {
        order_from(st.root, st.ordering, 0, st.lists, 0)
    }
}

/// Whether `s` is one of `v`.
fn strings_contain(v: &Vec<String>, s: &String) -> (r: bool)
    ensures
        r == strings_view(v@).contains(s@),
{
    let mut i: usize = 0;
    while i < v.len()
        invariant
            i <= v@.len(),
            !strings_view(v@).take(i as int).contains(s@),
        decreases v@.len() - i,
    {
        if v[i] == *s {
            assert(strings_view(v@)[i as int] == s@);
            return true;
        }
        assert(strings_view(v@).take(i + 1) =~= strings_view(v@).take(i as int).push(v@[i as int]@));
        i = i + 1;
    }
    assert(strings_view(v@).take(i as int) =~= strings_view(v@));
    false
}

/// The pass over one top-level entry `e`, whose item is `item`.
fn pass_item(
    item: &mut Item,
    name: &String,
    repr: &String,
    i: usize,
    matcher: &Matcher,
    group: bool,
    order: &mut Vec<String>,
    first_table: &mut Option<usize>,
    lists: &mut Vec<HeadingList>,
    Ghost(e): Ghost<EntryModel>,
)
    requires
        item_model(*old(item)) == e.item,
        name@ == e.key.name,
        repr@ == e.key.repr,
        entry_collectable(e, matcher_headings(*matcher)),
        i < usize::MAX,
    ensures
        item_model(*final(item)) == passed_item(e, matcher_headings(*matcher), group),
        strings_view(final(order)@) == passed_ordering(
            e,
            strings_view(old(order)@),
            matcher_headings(*matcher),
        ),
        *final(first_table) == passed_first(e, i as int, *old(first_table), matcher_headings(*matcher)),
        lists_view(final(lists)@) == passed_lists(
            e,
            i as int,
            lists_view(old(lists)@),
            matcher_headings(*matcher),
        ),
{
    let ghost hs = matcher_headings(*matcher);
    let tp = table_path_of(name, item, matcher);
    let listed = str_in(matcher.heading, name.as_str());
    if order.len() > 0 && !strings_contain(order, name) {
        let ghost before = order@;
        order.push(name.clone());
        assert(strings_view(order@) =~= strings_view(before).push(name@));
    }
    if !listed && tp.is_none() {
        return;
    }
    match item_as_table_mut(item) {
        Some(table) => {
            if first_table.is_none() {
                *first_table = match table_position(table) {
                    Some(p) => Some(p),
                    None => Some(i + 1),
                };
            }
            let key = match &tp {
                Some(p) => join_reversed(p),
                None => repr.clone(),
            };
            let mut top: Vec<String> = Vec::new();
            top.push(key.clone());
            assert(strings_view(top@) =~= seq![key@]);
            let mut headings: Vec<Heading> = Vec::new();
            headings.push(Heading::Complete(top));
            assert(headings_view(headings@) =~= seq![HeadingView::Complete(seq![key@])]);
            proof {
                lemma_gather_shape(
                    table_model(*table),
                    seq![HeadingView::Complete(seq![key@])],
                    1,
                );
            }
            gather_headings(table, &mut headings, 1);
            sort_headings(&mut headings);
            sort_table(table, group, &tp);
            let ghost before = lists@;
            lists.push(HeadingList { index: i, key, headings });
            assert(lists_view(lists@) =~= lists_view(before).push(lists@.last()@));
        },
        None => {},
    }
}


/// A copy of the strings.
fn copy_strings(v: &[String]) -> (r: Vec<String>)
    ensures
        strings_view(r@) == strings_view(v@),
{
    let mut r: Vec<String> = Vec::new();
    for i in 0..v.len()
        invariant
            r@.len() == i,
            forall|j: int| 0 <= j < i ==> #[trigger] r@[j]@ == v@[j]@,
    {
        r.push(v[i].clone());
    }
    assert(strings_view(r@) =~= strings_view(v@));
    r
}

/// Sorts a document: the arrays and tables of the matcher's (heading, key)
/// pairs, each dependency table (by key, or by groups where `group` is set),
/// and the order of the tables, by their headings where `ordering` is empty
/// and else by `ordering` (see `sorted_document`).
pub fn sort_document(doc: &mut DocumentMut, matcher: &Matcher, group: bool, ordering: &[String])
    requires
        root_is_table(*old(doc)),
        sortable(document_model(*old(doc)), matcher_headings(*matcher), matcher_keys(*matcher), group),
    ensures
        document_model(*final(doc)) == sorted_document(
            document_model(*old(doc)),
            matcher_headings(*matcher),
            matcher_keys(*matcher),
            group,
            strings_view(ordering@),
        ),
{
    let ghost hs = matcher_headings(*matcher);
    let ghost ord0 = strings_view(ordering@);
    let mut order = copy_strings(ordering);
    sort_keyed(doc, matcher, group);
    let ghost ws = document_model(*doc);
    let ghost start = PassState { root: ws, ordering: ord0, first_table: None, lists: Seq::empty() };
    let mut first_table: Option<usize> = None;
    let mut lists: Vec<HeadingList> = Vec::new();
    assert(lists_view(lists@) =~= Seq::<HeadingListView>::empty());
    let root = document_root_mut(doc);
    let names = entry_names(root);
    let ghost pnames = strings_view(names@);
    let n = names.len();
    assert(pnames.take(0) =~= Seq::<Seq<char>>::empty());
    for i in 0..n
        invariant
            n == names@.len(),
            n == present(ws.entries).len(),
            pnames == strings_view(names@),
            pnames == present(ws.entries).map_values(|e: EntryModel| e.key.name),
            distinct(pnames),
            hs == matcher_headings(*matcher),
            collectable(ws, hs),
            table_model(*root) == (TableModel { entries: table_model(*root).entries, ..ws }),
            changed_only(table_model(*root).entries, ws.entries, pnames.take(i as int)),
            pass_from(ws, 0, start, hs, group) == pass_from(
                ws,
                i as int,
                PassState {
                    root: table_model(*root),
                    ordering: strings_view(order@),
                    first_table,
                    lists: lists_view(lists@),
                },
                hs,
                group,
            ),
    {
        let ghost es = table_model(*root).entries;
        let ghost e = present(ws.entries)[i as int];
        let ghost st = PassState {
            root: table_model(*root),
            ordering: strings_view(order@),
            first_table,
            lists: lists_view(lists@),
        };
        assert(pnames[i as int] == e.key.name);
        assert(names@[i as int]@ == e.key.name);
        let ghost kp = lemma_present_from(ws.entries, i as int);
        proof {
            lemma_name_not_before(pnames, i as int);
        }
        assert(es[kp] == ws.entries[kp]);
        let kv = table_get_key_value(root, names[i].as_str());
        proof {
            if kv is None {
                assert(es[kp].key.name == e.key.name);
            }
        }
        let (key, _) = kv.unwrap();
        let repr = key_repr(key);
        proof {
            lemma_key_index(es, e.key.name);
            assert(es[kp].key.name == e.key.name);
            assert(key_index(es, e.key.name) == kp);
        }
        let item = table_get_mut(root, names[i].as_str());
        proof {
            if item is None {
                assert(es[kp].key.name == e.key.name);
            }
        }
        let item = item.unwrap();
        let ghost k = key_index(es, e.key.name);
        proof {
            lemma_key_index(es, e.key.name);
            assert(es[kp].key.name == e.key.name);
            assert(kp == k);
            assert(entry_collectable(present(ws.entries)[i as int], hs));
        }
        pass_item(
            item,
            &names[i],
            &repr,
            i,
            matcher,
            group,
            &mut order,
            &mut first_table,
            &mut lists,
            Ghost(e),
        );
        proof {
            let es2 = table_model(*root).entries;
            lemma_changed_only_step(es, es2, ws.entries, pnames, i as int, k);
            assert(PassState {
                root: table_model(*root),
                ordering: strings_view(order@),
                first_table,
                lists: lists_view(lists@),
            } == pass_step(ws, i as int, st, hs, group));
        }
    }
    if order.len() == 0 {
        sort_lexicographical(first_table, &lists, doc);
    } else {
        sort_by_ordering(order.as_slice(), &lists, doc);
    }
}


/// Whether everything under the table, entered at `depth`, is a value or a
/// table, the depth staying within `usize` (see `gatherable`).
pub fn check_gatherable(t: &Table, depth: usize) -> (r: bool)
    ensures
        r == gatherable(table_model(*t), depth as int),
    decreases table_model(*t),
{
    let ghost m = table_model(*t);
    let entries = table_iter(t);
    let n = entries.len();
    for i in 0..n
        invariant
            n == entries@.len(),
            m == table_model(*t),
            n == present(m.entries).len(),
            forall|j: int|
                0 <= j < n ==> item_model(*(#[trigger] entries@[j]).1) == present(m.entries)[j].item,
            gatherable(m, depth as int) == gatherable_from(m, i as int, depth as int),
    {
        let item = entries[i].1;
        match item_kind(item) {
            ItemKind::Value => {},
            ItemKind::Table => {
                let sub = item_as_table(item).unwrap();
                proof {
                    lemma_present_from(m.entries, i as int);
                }
                if depth == usize::MAX {
                    return false;
                }
                if !check_gatherable(sub, depth + 1) {
                    return false;
                }
            },
            _ => {
                return false;
            },
        }
    }
    true
}

/// Whether headings can be collected under every dependency table of the
/// document.
fn check_collectable(doc: &DocumentMut, matcher: &Matcher) -> (r: bool)
    requires
        root_is_table(*doc),
    ensures
        r == collectable(document_model(*doc), matcher_headings(*matcher)),
{
    let ghost hs = matcher_headings(*matcher);
    let root = document_root(doc);
    let ghost m = table_model(*root);
    let entries = table_iter(root);
    let n = entries.len();
    for i in 0..n
        invariant
            n == entries@.len(),
            m == table_model(*root),
            m == document_model(*doc),
            hs == matcher_headings(*matcher),
            n == present(m.entries).len(),
            forall|j: int| 0 <= j < n ==> (#[trigger] entries@[j]).0@ == present(m.entries)[j].key.name,
            forall|j: int|
                0 <= j < n ==> item_model(*(#[trigger] entries@[j]).1) == present(m.entries)[j].item,
            forall|j: int| 0 <= j < i ==> #[trigger] entry_collectable(present(m.entries)[j], hs),
    {
        let name = &entries[i].0;
        let item = entries[i].1;
        let ghost e = present(m.entries)[i as int];
        let tp = table_path_of(name, item, matcher);
        let listed = str_in(matcher.heading, name.as_str());
        if listed || tp.is_some() {
            match item_as_table(item) {
                Some(t) => {
                    if !check_gatherable(t, 1) {
                        assert(!entry_collectable(e, hs));
                        return false;
                    }
                },
                None => {},
            }
        }
        assert(entry_collectable(e, hs));
    }
    true
}

/// Whether `sort_document` can sort the document (see `sortable`).
pub fn is_sortable(doc: &DocumentMut, matcher: &Matcher, group: bool) -> (r: bool)
    requires
        root_is_table(*doc),
    ensures
        r == sortable(document_model(*doc), matcher_headings(*matcher), matcher_keys(*matcher), group),
{
    let mut copy = document_clone(doc);
    sort_keyed(&mut copy, matcher, group);
    check_collectable(&copy, matcher)
}

/// Parses `input` as a TOML document and sorts it (see `sort_document`).
pub fn sort_toml(input: &str, matcher: Matcher<'_>, group: bool, ordering: &[String]) -> (r: DocumentMut)
    requires
        parsed_document(input@) is Some,
        sortable(
            parsed_document(input@).unwrap(),
            matcher_headings(matcher),
            matcher_keys(matcher),
            group,
        ),
    ensures
        document_model(r) == sorted_document(
            parsed_document(input@).unwrap(),
            matcher_headings(matcher),
            matcher_keys(matcher),
            group,
            strings_view(ordering@),
        ),
{
    let mut toml = parse_document(input).unwrap();
    sort_document(&mut toml, &matcher, group, ordering);
    toml
}

/// `sort_toml` where `toml_edit` parses `input` and the document is
/// sortable; `None` otherwise.
pub fn try_sort_toml(input: &str, matcher: Matcher<'_>, group: bool, ordering: &[String]) -> (r: Option<DocumentMut>)
    ensures
        r is Some <==> parsed_document(input@) is Some && sortable(
            parsed_document(input@).unwrap(),
            matcher_headings(matcher),
            matcher_keys(matcher),
            group,
        ),
        r matches Some(d) ==> document_model(d) == sorted_document(
            parsed_document(input@).unwrap(),
            matcher_headings(matcher),
            matcher_keys(matcher),
            group,
            strings_view(ordering@),
        ),
{
    match parse_document(input) {
        Err(_) => None,
        Ok(doc) => {
            if is_sortable(&doc, &matcher, group) {
                Some(sort_toml(input, matcher, group, ordering))
            } else {
                None
            }
        },
    }
}

} // verus!
