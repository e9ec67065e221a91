//! Collecting the headers under a dependency table, in the order in which
//! they are to be printed.
use vstd::prelude::*;
use vstd::relations::*;

use toml_edit::Table;

use crate::model::{ItemModel, TableModel, lemma_present_from, present};
use crate::order::{
    chars_less, chars_lt, chars_of, lemma_chars_lt_asymmetric, lemma_chars_lt_connected,
    lemma_chars_lt_irreflexive, lemma_chars_lt_transitive, lemma_stable_order_range, sort_positions, stable_order};
use crate::toml::{ItemKind, item_as_table, item_kind, item_model, table_is_empty, table_is_implicit, table_iter, table_model};

verus! {

/// A header path while collecting the headers under a table: `Next` is a
/// sub-table that has neither a header nor values of its own yet,
/// `Complete` a table that is to be printed with a header.
#[derive(Debug)]
pub enum Heading {
    Next(Vec<String>),
    Complete(Vec<String>),
}

/// A heading as a mathematical value.
pub enum HeadingView {
    Next(Seq<Seq<char>>),
    Complete(Seq<Seq<char>>),
}

/// The strings as sequences of characters.
pub open spec fn strings_view(s: Seq<String>) -> Seq<Seq<char>> {
    s.map_values(|x: String| x@)
}

impl View for Heading {
    type V = HeadingView;

    open spec fn view(&self) -> HeadingView {
        match self {
            Heading::Next(s) => HeadingView::Next(strings_view(s@)),
            Heading::Complete(s) => HeadingView::Complete(strings_view(s@)),
        }
    }
}

/// The headings as mathematical values.
pub open spec fn headings_view(hs: Seq<Heading>) -> Seq<HeadingView> {
    hs.map_values(|h: Heading| h@)
}

/// The headings collected under one top-level table: the table's position
/// among the top-level entries, its key, and the headings in print order.
pub struct HeadingList {
    pub index: usize,
    pub key: String,
    pub headings: Vec<Heading>,
}

/// A heading list as a mathematical value.
pub struct HeadingListView {
    pub index: usize,
    pub key: Seq<char>,
    pub headings: Seq<HeadingView>,
}

impl View for HeadingList {
    type V = HeadingListView;

    open spec fn view(&self) -> HeadingListView {
        HeadingListView { index: self.index, key: self.key@, headings: headings_view(self.headings@) }
    }
}

/// Heading lists as mathematical values.
pub open spec fn lists_view(ls: Seq<HeadingList>) -> Seq<HeadingListView> {
    ls.map_values(|l: HeadingList| l@)
}

/// The path of a heading.
pub open spec fn segments(h: HeadingView) -> Seq<Seq<char>> {
    match h {
        HeadingView::Next(s) => s,
        HeadingView::Complete(s) => s,
    }
}

/// The headings with the last one marked complete.
pub open spec fn complete_last(keys: Seq<HeadingView>) -> Seq<HeadingView> {
    keys.drop_last().push(HeadingView::Complete(segments(keys.last())))
}

/// The headings after entering the sub-table `head` at `depth`: a pending
/// path grows by `head`; after a complete one, a new pending path starts
/// from its first `depth` segments.
pub open spec fn enter(keys: Seq<HeadingView>, head: Seq<char>, depth: int) -> Seq<HeadingView> {
    match keys.last() {
        HeadingView::Next(s) => keys.drop_last().push(HeadingView::Next(s.push(head))),
        HeadingView::Complete(s) => keys.push(
            HeadingView::Next(s.take(if depth >= 1 { depth } else { 1 }).push(head)),
        ),
    }
}

/// The number of segments kept from a complete path when a sub-table is
/// entered at `depth` (at least one).
pub open spec fn take_len(depth: int) -> int {
    if depth >= 1 {
        depth
    } else {
        1
    }
}

/// Everything under the table, entered at `depth`, is a value or a table,
/// and the depth never grows past `usize::MAX`: headings are collected only
/// where that holds.
pub open spec fn gatherable(t: TableModel, depth: int) -> bool
    decreases t, present(t.entries).len() + 1,
{
    gatherable_from(t, 0, depth)
}

/// Entries `i..` of the table hold values or gatherable tables.
pub open spec fn gatherable_from(t: TableModel, i: int, depth: int) -> bool
    decreases t, present(t.entries).len() - i,
{
    if i < 0 || i >= present(t.entries).len() {
        true
    } else {
        match present(t.entries)[i].item {
            ItemModel::Value(_) => gatherable_from(t, i + 1, depth),
            ItemModel::Table(sub) => {
                proof {
                    lemma_present_from(t.entries, i);
                }
                depth + 1 <= usize::MAX && gatherable(sub, depth + 1) && gatherable_from(
                    t,
                    i + 1,
                    depth,
                )
            },
            _ => false,
        }
    }
}

/// Collecting the headings under `t`, entered at `depth`, from `keys` runs
/// to its end: a heading is there to complete or to extend wherever one is
/// needed, a complete path is long enough for the segments kept from it,
/// the depth stays within `usize`, and every entry holds a value or a table.
pub open spec fn gather_ok(t: TableModel, keys: Seq<HeadingView>, depth: int) -> bool
    decreases t, present(t.entries).len() + 1,
{
    let empty = present(t.entries).len() == 0 && !t.implicit;
    &&& (empty ==> keys.len() > 0)
    &&& gather_from_ok(t, 0, if empty { complete_last(keys) } else { keys }, depth)
}

/// `gather_ok` for the entries `i..` of `t`.
pub open spec fn gather_from_ok(t: TableModel, i: int, keys: Seq<HeadingView>, depth: int) -> bool
    decreases t, present(t.entries).len() - i,
{
    if i < 0 || i >= present(t.entries).len() {
        true
    } else {
        let e = present(t.entries)[i];
        match e.item {
            ItemModel::Value(_) => keys.len() > 0 && gather_from_ok(t, i + 1, complete_last(keys), depth),
            ItemModel::Table(sub) => {
                proof {
                    lemma_present_from(t.entries, i);
                }
                &&& keys.len() > 0
                &&& (keys.last() is Complete ==> take_len(depth) <= segments(keys.last()).len())
                &&& depth + 1 <= usize::MAX
                &&& gather_ok(sub, enter(keys, e.key.name, depth), depth + 1)
                &&& gather_from_ok(t, i + 1, gather(sub, enter(keys, e.key.name, depth), depth + 1), depth)
            },
            _ => false,
        }
    }
}

/// The headings after collecting those under table `t`, entered at `depth`.
/// A table without entries that is not implicit completes the current path;
/// a value completes it too; a sub-table is entered and collected.
pub open spec fn gather(t: TableModel, keys: Seq<HeadingView>, depth: int) -> Seq<HeadingView>
    decreases t, present(t.entries).len() + 1,
{
    let start = if present(t.entries).len() == 0 && !t.implicit {
        complete_last(keys)
    } else {
        keys
    };
    gather_from(t, 0, start, depth)
}

/// The headings after collecting those of entries `i..` of table `t`.
pub open spec fn gather_from(t: TableModel, i: int, keys: Seq<HeadingView>, depth: int) -> Seq<
    HeadingView,
>
    decreases t, present(t.entries).len() - i,
{
    if i < 0 || i >= present(t.entries).len() {
        keys
    } else {
        let e = present(t.entries)[i];
        match e.item {
            ItemModel::Value(_) => gather_from(t, i + 1, complete_last(keys), depth),
            ItemModel::Table(sub) => {
                proof {
                    lemma_present_from(t.entries, i);
                }
                gather_from(t, i + 1, gather(sub, enter(keys, e.key.name, depth), depth + 1), depth)
            },
            _ => keys,
        }
    }
}

/// From at least one heading whose path keeps the segments that entering a
/// sub-table takes, collecting under a gatherable table runs to its end, and
/// leaves such a heading last.
pub proof fn lemma_gather_shape(t: TableModel, keys: Seq<HeadingView>, depth: int)
    requires
        keys.len() > 0,
        0 <= depth,
        take_len(depth) <= segments(keys.last()).len(),
        gatherable(t, depth),
    ensures
        gather_ok(t, keys, depth),
        gather(t, keys, depth).len() > 0,
        take_len(depth) <= segments(gather(t, keys, depth).last()).len(),
    decreases t, present(t.entries).len() + 1,
{
    let start = if present(t.entries).len() == 0 && !t.implicit {
        complete_last(keys)
    } else {
        keys
    };
    lemma_gather_from_shape(t, 0, start, depth);
}

/// `lemma_gather_shape` for the entries `i..`.
pub proof fn lemma_gather_from_shape(t: TableModel, i: int, keys: Seq<HeadingView>, depth: int)
    requires
        keys.len() > 0,
        0 <= depth,
        take_len(depth) <= segments(keys.last()).len(),
        0 <= i,
        gatherable_from(t, i, depth),
    ensures
        gather_from_ok(t, i, keys, depth),
        gather_from(t, i, keys, depth).len() > 0,
        take_len(depth) <= segments(gather_from(t, i, keys, depth).last()).len(),
    decreases t, present(t.entries).len() - i,
{
    if i < present(t.entries).len() {
        let e = present(t.entries)[i];
        match e.item {
            ItemModel::Value(_) => {
                lemma_gather_from_shape(t, i + 1, complete_last(keys), depth);
            },
            ItemModel::Table(sub) => {
                lemma_present_from(t.entries, i);
                let entered = enter(keys, e.key.name, depth);
                lemma_gather_shape(sub, entered, depth + 1);
                lemma_gather_from_shape(t, i + 1, gather(sub, entered, depth + 1), depth);
            },
            _ => {},
        }
    }
}

/// A copy of the first `n` strings.
pub(crate) fn copy_prefix(v: &Vec<String>, n: usize) -> (r: Vec<String>)
    requires
        n <= v@.len(),
    ensures
        strings_view(r@) == strings_view(v@).take(n as int),
{
    let mut r: Vec<String> = Vec::new();
    for i in 0..n
        invariant
            n <= v@.len(),
            r@.len() == i,
            forall|j: int| 0 <= j < i ==> #[trigger] r@[j]@ == v@[j]@,
    {
        let x = v[i].clone();
        r.push(x);
    }
    assert(strings_view(r@) =~= strings_view(v@).take(n as int));
    r
}

/// Collects into `keys` the headings of the tables under `table`, which is
/// entered at `depth` (a depth of 0 counts as 1).
pub fn gather_headings(table: &Table, keys: &mut Vec<Heading>, depth: usize)
    requires
        gather_ok(table_model(*table), headings_view(old(keys)@), depth as int),
    ensures
        headings_view(final(keys)@) == gather(
            table_model(*table),
            headings_view(old(keys)@),
            depth as int,
        ),
    decreases table_model(*table),
{
    let ghost m = table_model(*table);
    if table_is_empty(table) && !table_is_implicit(table) {
        let last = keys.pop().unwrap();
        let next = match last {
            Heading::Next(segs) => Heading::Complete(segs),
            comp => comp,
        };
        keys.push(next);
    }
    let ghost start = headings_view(keys@);
    assert(start =~= (if present(m.entries).len() == 0 && !m.implicit {
        complete_last(headings_view(old(keys)@))
    } else {
        headings_view(old(keys)@)
    }));
    let entries = table_iter(table);
    let n = entries.len();
    for i in 0..n
        invariant
            n == entries@.len(),
            m == table_model(*table),
            entries@.len() == present(m.entries).len(),
            forall|j: int|
                0 <= j < entries@.len() ==> (#[trigger] entries@[j]).0@ == present(
                    m.entries,
                )[j].key.name,
            forall|j: int|
                0 <= j < entries@.len() ==> item_model(*(#[trigger] entries@[j]).1) == present(
                    m.entries,
                )[j].item,
            gather_from_ok(m, i as int, headings_view(keys@), depth as int),
            gather_from(m, 0, start, depth as int) == gather_from(
                m,
                i as int,
                headings_view(keys@),
                depth as int,
            ),
    {
        let head = &entries[i].0;
        let item = entries[i].1;
        let ghost before = headings_view(keys@);
        assert(entries@[i as int].0@ == present(m.entries)[i as int].key.name);
        match item_kind(item) {
            ItemKind::Value => {
                let is_complete = match &keys[keys.len() - 1] {
                    Heading::Complete(_) => true,
                    Heading::Next(_) => false,
                };
                if !is_complete {
                    let last = keys.pop().unwrap();
                    let next = match last {
                        Heading::Next(segs) => Heading::Complete(segs),
                        comp => comp,
                    };
                    keys.push(next);
                }
                assert(headings_view(keys@) =~= complete_last(before));
            },
            ItemKind::Table => {
                let sub = item_as_table(item).unwrap();
                let last = keys.pop().unwrap();
                let ghost popped = keys@;
                let name = head.clone();
                let next = match last {
                    Heading::Next(segs) => {
                        let mut segs = segs;
                        let ghost old_segs = segs@;
                        segs.push(name);
                        assert(strings_view(segs@) =~= strings_view(old_segs).push(name@));
                        segs
                    },
                    Heading::Complete(segs) => {
                        let take = if depth >= 1 {
                            depth
                        } else {
                            1
                        };
                        let mut next = copy_prefix(&segs, take);
                        let ghost old_next = next@;
                        next.push(name);
                        assert(strings_view(next@) =~= strings_view(old_next).push(name@));
                        keys.push(Heading::Complete(segs));
                        next
                    },
                };
                keys.push(Heading::Next(next));
                let ghost entered = headings_view(keys@);
                assert(entered =~= enter(before, present(m.entries)[i as int].key.name, depth as int));
                proof {
                    lemma_present_from(m.entries, i as int);
                }
                gather_headings(sub, keys, depth + 1);
            },
            _ => {
                assert(false);
            },
        }
    }
    assert(gather_from(m, n as int, headings_view(keys@), depth as int) == headings_view(keys@));
}

/// The order of headings: pending paths before complete ones, then by path.
pub open spec fn heading_lt(a: HeadingView, b: HeadingView) -> bool {
    match (a, b) {
        (HeadingView::Next(_), HeadingView::Complete(_)) => true,
        (HeadingView::Complete(_), HeadingView::Next(_)) => false,
        _ => path_lt(segments(a), segments(b)),
    }
}

/// The lexicographic order of paths, segments ordered by `chars_lt`.
pub open spec fn path_lt(a: Seq<Seq<char>>, b: Seq<Seq<char>>) -> bool
    decreases a.len(),
{
    if b.len() == 0 {
        false
    } else if a.len() == 0 {
        true
    } else if a[0] != b[0] {
        chars_lt(a[0], b[0])
    } else {
        path_lt(a.drop_first(), b.drop_first())
    }
}

proof fn lemma_path_lt_irreflexive(a: Seq<Seq<char>>)
    ensures
        !path_lt(a, a),
    decreases a.len(),
{
    if a.len() > 0 {
        lemma_path_lt_irreflexive(a.drop_first());
    }
}

proof fn lemma_path_lt_asymmetric(a: Seq<Seq<char>>, b: Seq<Seq<char>>)
    ensures
        !(path_lt(a, b) && path_lt(b, a)),
    decreases a.len(),
{
    if a.len() > 0 && b.len() > 0 {
        if a[0] == b[0] {
            lemma_path_lt_asymmetric(a.drop_first(), b.drop_first());
        } else {
            lemma_chars_lt_asymmetric(a[0], b[0]);
        }
    }
}

proof fn lemma_path_lt_transitive(a: Seq<Seq<char>>, b: Seq<Seq<char>>, c: Seq<Seq<char>>)
    requires
        path_lt(a, b),
        path_lt(b, c),
    ensures
        path_lt(a, c),
    decreases a.len(),
{
    if a.len() > 0 {
        if a[0] == b[0] && b[0] == c[0] {
            lemma_path_lt_transitive(a.drop_first(), b.drop_first(), c.drop_first());
        } else if a[0] != b[0] && b[0] != c[0] {
            lemma_chars_lt_transitive(a[0], b[0], c[0]);
            if a[0] == c[0] {
                lemma_chars_lt_asymmetric(a[0], b[0]);
            }
        }
    }
}

proof fn lemma_path_lt_connected(a: Seq<Seq<char>>, b: Seq<Seq<char>>)
    requires
        a != b,
    ensures
        path_lt(a, b) || path_lt(b, a),
    decreases a.len(),
{
    if a.len() > 0 && b.len() > 0 {
        if a[0] == b[0] {
            if a.drop_first() == b.drop_first() {
                assert(a =~= seq![a[0]] + a.drop_first());
                assert(b =~= seq![b[0]] + b.drop_first());
            }
            lemma_path_lt_connected(a.drop_first(), b.drop_first());
        } else {
            lemma_chars_lt_connected(a[0], b[0]);
        }
    } else if a.len() == 0 && b.len() == 0 {
        assert(a =~= b);
    }
}

/// `heading_lt` is a strict total order.
pub proof fn lemma_heading_lt_strict_total()
    ensures
        strict_total_ordering(|a: HeadingView, b: HeadingView| heading_lt(a, b)),
{
    assert forall|a: HeadingView| #[trigger] heading_lt(a, a) == false by {
        lemma_path_lt_irreflexive(segments(a));
    }
    assert forall|a: HeadingView, b: HeadingView|
        #[trigger] heading_lt(a, b) && #[trigger] heading_lt(b, a) implies a == b by {
        lemma_path_lt_asymmetric(segments(a), segments(b));
    }
    assert forall|a: HeadingView, b: HeadingView, c: HeadingView|
        #[trigger] heading_lt(a, b) && #[trigger] heading_lt(b, c) implies heading_lt(a, c) by {
        if path_lt(segments(a), segments(b)) && path_lt(segments(b), segments(c)) {
            lemma_path_lt_transitive(segments(a), segments(b), segments(c));
        }
    }
    assert forall|a: HeadingView, b: HeadingView| a != b implies #[trigger] heading_lt(a, b)
        || #[trigger] heading_lt(b, a) by {
        if segments(a) != segments(b) {
            lemma_path_lt_connected(segments(a), segments(b));
        }
    }
}

/// Compares two paths by `path_lt`.
fn path_less(a: &Vec<String>, b: &Vec<String>) -> (r: bool)
    ensures
        r == path_lt(strings_view(a@), strings_view(b@)),
{
    let ghost av = strings_view(a@);
    let ghost bv = strings_view(b@);
    let mut i: usize = 0;
    assert(av.skip(0) =~= av);
    assert(bv.skip(0) =~= bv);
    while i < a.len() && i < b.len()
        invariant
            i <= a.len(),
            i <= b.len(),
            av == strings_view(a@),
            bv == strings_view(b@),
            path_lt(av, bv) == path_lt(av.skip(i as int), bv.skip(i as int)),
        decreases a.len() - i,
    {
        let x = chars_of(a[i].as_str());
        let y = chars_of(b[i].as_str());
        assert(av.skip(i as int)[0] == x@);
        assert(bv.skip(i as int)[0] == y@);
        if chars_less(&x, &y) {
            proof {
                lemma_chars_lt_irreflexive(x@);
            }
            return true;
        }
        if chars_less(&y, &x) {
            proof {
                lemma_chars_lt_irreflexive(x@);
                lemma_chars_lt_asymmetric(x@, y@);
            }
            return false;
        }
        proof {
            if x@ != y@ {
                lemma_chars_lt_connected(x@, y@);
            }
        }
        assert(av.skip(i as int).drop_first() =~= av.skip(i + 1));
        assert(bv.skip(i as int).drop_first() =~= bv.skip(i + 1));
        i = i + 1;
    }
    i < b.len()
}

/// Compares two headings by `heading_lt`.
fn heading_less(a: &Heading, b: &Heading) -> (r: bool)
    ensures
        r == heading_lt(a@, b@),
{
    match (a, b) {
        (Heading::Next(_), Heading::Complete(_)) => true,
        (Heading::Complete(_), Heading::Next(_)) => false,
        (Heading::Next(x), Heading::Next(y)) => path_less(x, y),
        (Heading::Complete(x), Heading::Complete(y)) => path_less(x, y),
    }
}

/// A copy of a heading.
fn heading_copy(h: &Heading) -> (r: Heading)
    ensures
        r@ == h@,
{
    match h {
        Heading::Next(s) => {
            assert(strings_view(s@).take(s@.len() as int) =~= strings_view(s@));
            Heading::Next(copy_prefix(s, s.len()))
        },
        Heading::Complete(s) => {
            assert(strings_view(s@).take(s@.len() as int) =~= strings_view(s@));
            Heading::Complete(copy_prefix(s, s.len()))
        },
    }
}

/// The headings sorted (stably) by `heading_lt`.
pub open spec fn sorted_headings(hs: Seq<HeadingView>) -> Seq<HeadingView> {
    stable_order(hs, |a: HeadingView, b: HeadingView| heading_lt(a, b)).map_values(
        |i: int| hs[i],
    )
}

/// Sorts the headings.
pub fn sort_headings(keys: &mut Vec<Heading>)
    ensures
        headings_view(final(keys)@) == sorted_headings(headings_view(old(keys)@)),
{
    proof {
        lemma_heading_lt_strict_total();
    }
    let ghost lt = |a: HeadingView, b: HeadingView| heading_lt(a, b);
    let less = (|a: &Heading, b: &Heading| -> (r: bool)
        ensures
            r == heading_lt(a@, b@),
        { heading_less(a, b) });
    let p = sort_positions(keys, less, Ghost(lt));
    let ghost hv = headings_view(keys@);
    assert(keys@.map_values(|k: Heading| k@) == hv);
    let ghost order = stable_order(hv, lt);
    let mut sorted: Vec<Heading> = Vec::new();
    let n = p.len();
    proof {
        lemma_stable_order_range(hv, lt);
    }
    for i in 0..n
        invariant
            n == p@.len(),
            p@.map_values(|x: usize| x as int) == order,
            order == stable_order(hv, lt),
            order.len() == hv.len(),
            hv == headings_view(keys@),
            hv.len() == keys@.len(),
            forall|j: int| 0 <= j < n ==> 0 <= #[trigger] order[j] < hv.len(),
            sorted@.len() == i,
            forall|j: int| 0 <= j < i ==> #[trigger] sorted@[j]@ == hv[order[j]],
    {
        assert(p@.map_values(|x: usize| x as int)[i as int] == p@[i as int] as int);
        let h = heading_copy(&keys[p[i]]);
        assert(h@ == hv[order[i as int]]);
        sorted.push(h);
    }
    assert(headings_view(sorted@) =~= order.map_values(|j: int| hv[j]));
    *keys = sorted;
}

} // verus!
