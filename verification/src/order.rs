//! Orders used for sorting: the lexicographic order of strings by code point
//! (the order of Rust's `str`), and a stable sort of positions by a strict
//! total order on keys.
use vstd::prelude::*;
use vstd::relations::*;
use vstd::seq_lib::lemma_sorted_unique;

verus! {

/// Strict lexicographic order of two strings, comparing code points; a proper
/// prefix comes first. This is the order of Rust's `str` (which orders
/// Unicode code points by their position in the code charts).
pub open spec fn chars_lt(a: Seq<char>, b: Seq<char>) -> bool
    decreases a.len(),
{
    if b.len() == 0 {
        false
    } else if a.len() == 0 {
        true
    } else if a[0] != b[0] {
        a[0] < b[0]
    } else {
        chars_lt(a.drop_first(), b.drop_first())
    }
}

/// `chars_lt` or equal.
pub open spec fn chars_le(a: Seq<char>, b: Seq<char>) -> bool {
    a == b || chars_lt(a, b)
}

/// No string is below itself.
pub proof fn lemma_chars_lt_irreflexive(a: Seq<char>)
    ensures
        !chars_lt(a, a),
    decreases a.len(),
{
    if a.len() > 0 {
        lemma_chars_lt_irreflexive(a.drop_first());
    }
}

/// No two strings are each below the other.
pub proof fn lemma_chars_lt_asymmetric(a: Seq<char>, b: Seq<char>)
    ensures
        !(chars_lt(a, b) && chars_lt(b, a)),
    decreases a.len(),
{
    if a.len() > 0 && b.len() > 0 && a[0] == b[0] {
        lemma_chars_lt_asymmetric(a.drop_first(), b.drop_first());
    }
}

/// `chars_lt` is transitive.
pub proof fn lemma_chars_lt_transitive(a: Seq<char>, b: Seq<char>, c: Seq<char>)
    requires
        chars_lt(a, b),
        chars_lt(b, c),
    ensures
        chars_lt(a, c),
    decreases a.len(),
{
    if a.len() > 0 && a[0] == b[0] && b[0] == c[0] {
        lemma_chars_lt_transitive(a.drop_first(), b.drop_first(), c.drop_first());
    }
}

/// Of two different strings, one is below the other.
pub proof fn lemma_chars_lt_connected(a: Seq<char>, b: Seq<char>)
    requires
        a != b,
    ensures
        chars_lt(a, b) || chars_lt(b, a),
    decreases a.len(),
{
    if a.len() > 0 && b.len() > 0 && a[0] == b[0] {
        if a.drop_first() == b.drop_first() {
            assert(a =~= seq![a[0]] + a.drop_first());
            assert(b =~= seq![b[0]] + b.drop_first());
        }
        lemma_chars_lt_connected(a.drop_first(), b.drop_first());
    } else if a.len() == 0 && b.len() == 0 {
        assert(a =~= b);
    }
}

/// `chars_lt` is a strict total order.
pub proof fn lemma_chars_lt_strict_total()
    ensures
        strict_total_ordering(|a: Seq<char>, b: Seq<char>| chars_lt(a, b)),
{
    assert forall|a: Seq<char>| #[trigger] chars_lt(a, a) == false by {
        lemma_chars_lt_irreflexive(a);
    }
    assert forall|a: Seq<char>, b: Seq<char>|
        #[trigger] chars_lt(a, b) && #[trigger] chars_lt(b, a) implies a == b by {
        lemma_chars_lt_asymmetric(a, b);
    }
    assert forall|a: Seq<char>, b: Seq<char>, c: Seq<char>|
        #[trigger] chars_lt(a, b) && #[trigger] chars_lt(b, c) implies chars_lt(a, c) by {
        lemma_chars_lt_transitive(a, b, c);
    }
    assert forall|a: Seq<char>, b: Seq<char>| a != b implies #[trigger] chars_lt(a, b)
        || #[trigger] chars_lt(b, a) by {
        lemma_chars_lt_connected(a, b);
    }
}

/// Compares two strings by `chars_lt`.
pub fn chars_less(a: &Vec<char>, b: &Vec<char>) -> (r: bool)
    ensures
        r == chars_lt(a@, b@),
{
    let mut i: usize = 0;
    assert(a@.skip(0) =~= a@);
    assert(b@.skip(0) =~= b@);
    while i < a.len() && i < b.len() && a[i] == b[i]
        invariant
            i <= a.len(),
            i <= b.len(),
            chars_lt(a@, b@) == chars_lt(a@.skip(i as int), b@.skip(i as int)),
        decreases a.len() - i,
    {
        assert(a@.skip(i as int).drop_first() =~= a@.skip(i + 1));
        assert(b@.skip(i as int).drop_first() =~= b@.skip(i + 1));
        i = i + 1;
    }
    if i == b.len() {
        false
    } else if i == a.len() {
        true
    } else {
        a[i] < b[i]
    }
}

/// Whether two strings are equal.
pub fn chars_equal(a: &Vec<char>, b: &Vec<char>) -> (r: bool)
    ensures
        r == (a@ == b@),
{
    if a.len() != b.len() {
        return false;
    }
    let mut i: usize = 0;
    while i < a.len()
        invariant
            i <= a.len(),
            a.len() == b.len(),
            a@.take(i as int) == b@.take(i as int),
        decreases a.len() - i,
    {
        if a[i] != b[i] {
            return false;
        }
        assert(a@.take(i + 1) =~= a@.take(i as int).push(a@[i as int]));
        assert(b@.take(i + 1) =~= b@.take(i as int).push(b@[i as int]));
        i = i + 1;
    }
    assert(a@ =~= a@.take(i as int));
    assert(b@ =~= b@.take(i as int));
    true
}

/// The characters of a string.
pub fn chars_of(s: &str) -> (v: Vec<char>)
    ensures
        v@ == s@,
{
    let mut v: Vec<char> = Vec::new();
    for c in it: s.chars()
        invariant
            v@ == it.seq().take(it.index() as int),
            it.seq() == s@,
    {
        v.push(c);
    }
    v
}

/// Position `a` comes no later than position `b` when the keys are sorted
/// stably by `lt`.
pub open spec fn position_le<K>(keys: Seq<K>, lt: spec_fn(K, K) -> bool, a: int, b: int) -> bool {
    lt(keys[a], keys[b]) || (keys[a] == keys[b] && a <= b)
}

/// The positions of `keys` in the order of a stable sort by `lt`.
pub open spec fn stable_order<K>(keys: Seq<K>, lt: spec_fn(K, K) -> bool) -> Seq<int> {
    Seq::new(keys.len(), |i: int| i).sort_by(|a: int, b: int| position_le(keys, lt, a, b))
}

/// The stable order lists each position of `keys` once.
pub proof fn lemma_stable_order_range<K>(keys: Seq<K>, lt: spec_fn(K, K) -> bool)
    requires
        strict_total_ordering(lt),
    ensures
        stable_order(keys, lt).len() == keys.len(),
        forall|j: int|
            0 <= j < keys.len() ==> 0 <= #[trigger] stable_order(keys, lt)[j] < keys.len(),
        distinct(stable_order(keys, lt)),
{
    broadcast use vstd::seq_lib::group_to_multiset_ensures;

    let ids = Seq::new(keys.len(), |i: int| i);
    let le = |a: int, b: int| position_le(keys, lt, a, b);
    lemma_position_le_total(keys, lt);
    ids.lemma_sort_by_ensures(le);
    let sorted = ids.sort_by(le);
    assert(sorted.len() == ids.len()) by {
        assert(sorted.to_multiset().len() == ids.to_multiset().len());
    }
    assert(ids.no_duplicates());
    ids.lemma_multiset_has_no_duplicates();
    assert forall|x: int| sorted.to_multiset().contains(x) implies sorted.to_multiset().count(x)
        == 1 by {
        broadcast use vstd::multiset::group_multiset_axioms;

    }
    sorted.lemma_multiset_has_no_duplicates_conv();
    assert forall|j: int| 0 <= j < keys.len() implies 0 <= #[trigger] sorted[j] < keys.len() by {
        assert(sorted.contains(sorted[j]));
        if !ids.contains(sorted[j]) {
        } else {
            let k = choose|k: int| 0 <= k < ids.len() && ids[k] == sorted[j];
        }
    }
}

/// Keys taken in the stable order come in order: no key is below one that
/// comes before it.
pub proof fn lemma_stable_order_sorted<K>(keys: Seq<K>, lt: spec_fn(K, K) -> bool)
    requires
        strict_total_ordering(lt),
    ensures
        forall|a: int, b: int|
            0 <= a < b < keys.len() ==> !lt(
                keys[#[trigger] stable_order(keys, lt)[b]],
                keys[#[trigger] stable_order(keys, lt)[a]],
            ),
{
    let ids = Seq::new(keys.len(), |i: int| i);
    let le = |a: int, b: int| position_le(keys, lt, a, b);
    lemma_position_le_total(keys, lt);
    ids.lemma_sort_by_ensures(le);
    lemma_stable_order_range(keys, lt);
    let o = stable_order(keys, lt);
    assert forall|a: int, b: int| 0 <= a < b < keys.len() implies !lt(
        keys[#[trigger] o[b]],
        keys[#[trigger] o[a]],
    ) by {
        assert(le(o[a], o[b]));
    }
}

/// Keys that are already in order keep their positions.
pub proof fn lemma_stable_order_of_sorted<K>(keys: Seq<K>, lt: spec_fn(K, K) -> bool)
    requires
        strict_total_ordering(lt),
        forall|a: int, b: int| 0 <= a < b < keys.len() ==> !lt(#[trigger] keys[b], #[trigger] keys[a]),
    ensures
        stable_order(keys, lt) == Seq::new(keys.len(), |i: int| i),
{
    let ids = Seq::new(keys.len(), |i: int| i);
    let le = |a: int, b: int| position_le(keys, lt, a, b);
    lemma_position_le_total(keys, lt);
    ids.lemma_sort_by_ensures(le);
    assert forall|a: int, b: int| 0 <= a < b < ids.len() implies #[trigger] le(ids[a], ids[b]) by {
        if keys[a] != keys[b] {
            assert(!lt(keys[b], keys[a]));
        }
    }
    lemma_sorted_unique(ids, ids.sort_by(le), le);
}

/// `position_le` is a total order on positions.
pub proof fn lemma_position_le_total<K>(keys: Seq<K>, lt: spec_fn(K, K) -> bool)
    requires
        strict_total_ordering(lt),
    ensures
        total_ordering(|a: int, b: int| position_le(keys, lt, a, b)),
{
}

/// `out` holds the elements of `s` rearranged: `out[j]` is `s[o[j]]` for
/// positions `o` that name each position of `s` once.
pub open spec fn rearranged<A>(out: Seq<A>, s: Seq<A>) -> bool {
    exists|o: Seq<int>|
        #![trigger o.len()]
        o.len() == s.len() && out.len() == s.len() && distinct(o) && (forall|j: int|
            0 <= j < o.len() ==> 0 <= #[trigger] o[j] < s.len()) && (forall|j: int|
            0 <= j < o.len() ==> #[trigger] out[j] == s[o[j]])
}

/// The elements of `s` taken in the stable order are `s` rearranged.
pub proof fn lemma_stable_order_rearranged<K, A>(keys: Seq<K>, lt: spec_fn(K, K) -> bool, s: Seq<A>)
    requires
        strict_total_ordering(lt),
        keys.len() == s.len(),
    ensures
        rearranged(stable_order(keys, lt).map_values(|i: int| s[i]), s),
{
    lemma_stable_order_range(keys, lt);
    let o = stable_order(keys, lt);
    assert(o.len() == s.len());
}

/// No two entries are equal.
pub open spec fn distinct<A>(s: Seq<A>) -> bool {
    forall|i: int, j: int| 0 <= i < s.len() && 0 <= j < s.len() && i != j ==> s[i] != s[j]
}

proof fn lemma_same_distinct_elements_same_multiset(x: Seq<int>, y: Seq<int>)
    requires
        distinct(x),
        distinct(y),
        forall|v: int| x.contains(v) <==> y.contains(v),
    ensures
        x.to_multiset() == y.to_multiset(),
{
    broadcast use vstd::multiset::group_multiset_axioms;
    broadcast use vstd::seq_lib::group_to_multiset_ensures;

    assert(x.no_duplicates());
    assert(y.no_duplicates());
    x.lemma_multiset_has_no_duplicates();
    y.lemma_multiset_has_no_duplicates();
    assert(x.to_multiset() =~= y.to_multiset());
}

/// Sorts the positions of `keys` stably by `lt`, which `less` computes.
pub fn sort_positions<K: View>(
    keys: &Vec<K>,
    less: impl Fn(&K, &K) -> bool,
    Ghost(lt): Ghost<spec_fn(K::V, K::V) -> bool>,
) -> (p: Vec<usize>)
    requires
        strict_total_ordering(lt),
        forall|a: &K, b: &K| #[trigger] less.requires((a, b)),
        forall|a: &K, b: &K, r: bool| #[trigger] less.ensures((a, b), r) ==> r == lt(a@, b@),
    ensures
        p@.map_values(|x: usize| x as int) == stable_order(keys@.map_values(|k: K| k@), lt),
{
    let ghost ks = keys@.map_values(|k: K| k@);
    let ghost le = |a: int, b: int| position_le(ks, lt, a, b);
    let n = keys.len();
    let mut p: Vec<usize> = Vec::new();
    for i in 0..n
        invariant
            n == keys.len(),
            ks == keys@.map_values(|k: K| k@),
            le == (|a: int, b: int| position_le(ks, lt, a, b)),
            strict_total_ordering(lt),
            forall|a: &K, b: &K| #[trigger] less.requires((a, b)),
            forall|a: &K, b: &K, r: bool| #[trigger] less.ensures((a, b), r) ==> r == lt(a@, b@),
            p@.len() == i,
            forall|a: int| 0 <= a < p@.len() ==> p@[a] < i,
            distinct(p@),
            forall|a: int, b: int| 0 <= a < b < p@.len() ==> le(p@[a] as int, p@[b] as int),
    {
        let mut pos: usize = 0;
        while pos < p.len() && !less(&keys[i], &keys[p[pos]])
            invariant
                n == keys.len(),
                i < n,
                ks == keys@.map_values(|k: K| k@),
                le == (|a: int, b: int| position_le(ks, lt, a, b)),
                strict_total_ordering(lt),
                forall|a: &K, b: &K| #[trigger] less.requires((a, b)),
                forall|a: &K, b: &K, r: bool| #[trigger] less.ensures((a, b), r) ==> r == lt(
                    a@,
                    b@,
                ),
                pos <= p@.len(),
                forall|a: int| 0 <= a < p@.len() ==> p@[a] < i,
                forall|a: int| 0 <= a < pos ==> !lt(ks[i as int], ks[p@[a] as int]),
            decreases p@.len() - pos,
        {
            pos = pos + 1;
        }
        let ghost old_p = p@;
        proof {
            if pos < old_p.len() {
                assert(lt(ks[i as int], ks[old_p[pos as int] as int]));
                assert forall|b: int| pos <= b < old_p.len() implies lt(
                    ks[i as int],
                    ks[old_p[b] as int],
                ) by {
                    if b > pos {
                        assert(le(old_p[pos as int] as int, old_p[b] as int));
                    }
                }
            }
            assert forall|a: int| 0 <= a < pos implies le(old_p[a] as int, i as int) by {
                if ks[old_p[a] as int] != ks[i as int] {
                    assert(lt(ks[old_p[a] as int], ks[i as int]) || lt(
                        ks[i as int],
                        ks[old_p[a] as int],
                    ));
                }
            }
        }
        p.insert(pos, i);
        proof {
            old_p.insert_ensures(pos as int, i);
            assert forall|a: int, b: int| 0 <= a < b < p@.len() implies le(
                p@[a] as int,
                p@[b] as int,
            ) by {
                if b < pos {
                } else if b == pos {
                } else if a < pos {
                    assert(le(old_p[a] as int, i as int));
                    assert(lt(ks[i as int], ks[old_p[b - 1] as int]));
                } else if a == pos {
                } else {
                    assert(le(old_p[a - 1] as int, old_p[b - 1] as int));
                }
            }
        }
    }
    proof {
        let ps = p@.map_values(|x: usize| x as int);
        let ids = Seq::new(ks.len(), |j: int| j);
        lemma_position_le_total(ks, lt);
        ids.lemma_sort_by_ensures(le);
        assert forall|v: int| ps.contains(v) <==> ids.contains(v) by {
            if ids.contains(v) {
                assert(ids[v] == v);
                assert(0 <= v < n);
                // every position below n occurs in p
                lemma_distinct_bounded_covers(p@, n as int, v);
                let a = choose|a: int| 0 <= a < p@.len() && p@[a] == v;
                assert(ps[a] == v);
            }
            if ps.contains(v) {
                let a = choose|a: int| 0 <= a < ps.len() && ps[a] == v;
                assert(ids[v] == v);
            }
        }
        lemma_same_distinct_elements_same_multiset(ps, ids);
        let sorted = ids.sort_by(le);
        assert(ids.to_multiset() =~= sorted.to_multiset());
        assert(sorted_by(ps, le));
        lemma_sorted_unique(ps, sorted, le);
    }
    p
}

/// A sequence of `n` distinct positions below `n` holds every position below `n`.
proof fn lemma_distinct_bounded_covers(s: Seq<usize>, n: int, v: int)
    requires
        s.len() == n,
        distinct(s),
        forall|a: int| 0 <= a < s.len() ==> s[a] < n,
        0 <= v < n,
    ensures
        exists|a: int| 0 <= a < s.len() && s[a] == v,
{
    if !(exists|a: int| 0 <= a < s.len() && s[a] == v) {
        let f = |x: usize| x as int;
        let image = s.map_values(f).to_set();
        let range = Set::new(|x: int| 0 <= x < n && x != v);
        assert(image.subset_of(range));
        vstd::set_lib::lemma_int_range(0, n);
        assert(range =~= Set::new(|x: int| 0 <= x < n).remove(v));
        assert(Set::new(|x: int| 0 <= x < n) =~= vstd::set_lib::set_int_range(0, n));
        vstd::set_lib::lemma_len_subset(image, range);
        assert(s.map_values(f).no_duplicates());
        s.map_values(f).unique_seq_to_set();
    }
}

} // verus!
