//! Sorting an array of strings, such as `workspace.members`.
use vstd::prelude::*;

use toml_edit::{Array, Value};

use crate::model::{ArrayModel, DecorModel, ValueModel};
use crate::order::{chars_less, chars_lt, chars_of, lemma_chars_lt_strict_total, lemma_stable_order_range, sort_positions, stable_order};
use crate::toml::{
    array_from_values, array_model, array_set_trailing, array_set_trailing_comma, array_trailing,
    array_trailing_comma, array_values, value_as_str, value_clone, value_model,
};

verus! {

/// Every value is a string.
pub open spec fn all_strings(vs: Seq<ValueModel>) -> bool {
    forall|i: int| 0 <= i < vs.len() ==> #[trigger] vs[i] is Str
}

/// The content of a string value (empty for any other value).
pub open spec fn string_of(v: ValueModel) -> Seq<char> {
    match v {
        ValueModel::Str { content, .. } => content,
        _ => Seq::empty(),
    }
}

/// The array after sorting: an array of strings is sorted (stably) by the
/// order of `str` and rebuilt, which drops the whitespace and comments around
/// the array itself (an array of fewer than two values is rebuilt too, as it
/// is); any other array stays exactly as it is. The text after the last
/// element and the trailing comma stay.
pub open spec fn sorted_array(a: ArrayModel) -> ArrayModel {
    if all_strings(a.values) || a.values.len() < 2 {
        ArrayModel {
            values: stable_order(
                a.values.map_values(|v: ValueModel| string_of(v)),
                |x: Seq<char>, y: Seq<char>| chars_lt(x, y),
            ).map_values(|i: int| a.values[i]),
            decor: DecorModel { prefix: None, suffix: None },
            ..a
        }
    } else {
        a
    }
}

/// The stable order of fewer than two positions leaves them in place.
pub(crate) proof fn lemma_stable_order_short(keys: Seq<Seq<char>>)
    requires
        keys.len() < 2,
    ensures
        stable_order(keys, |x: Seq<char>, y: Seq<char>| chars_lt(x, y)) =~= Seq::new(
            keys.len(),
            |i: int| i,
        ),
{
    lemma_chars_lt_strict_total();
    lemma_stable_order_range(keys, |x: Seq<char>, y: Seq<char>| chars_lt(x, y));
}

/// Sorts an array whose values are all strings, keeping the text after its
/// last element and its trailing comma. An array of fewer than two values is
/// rebuilt as it is: a sort never compares its values, so none of them is
/// found not to be a string.
pub fn sort_array(arr: &mut Array)
    ensures
        array_model(*final(arr)) == sorted_array(array_model(*old(arr))),
{
    let ghost m = array_model(*arr);
    let trailing = array_trailing(arr);
    let trailing_comma = array_trailing_comma(arr);
    let values = array_values(arr);
    let ghost vals = values@.map_values(|v: Value| value_model(v));
    let mut keys: Vec<Vec<char>> = Vec::new();
    let mut all = true;
    let n = values.len();
    for i in 0..n
        invariant
            n == values@.len(),
            vals == values@.map_values(|v: Value| value_model(v)),
            keys@.len() == i,
            all <==> all_strings(vals.take(i as int)),
            all ==> forall|j: int| 0 <= j < i ==> #[trigger] keys@[j]@ == string_of(vals[j]),
    {
        match value_as_str(&values[i]) {
            Some(s) => {
                keys.push(chars_of(s.as_str()));
            },
            None => {
                all = false;
                keys.push(Vec::new());
            },
        }
        assert(vals.take(i + 1).drop_last() =~= vals.take(i as int));
        assert(vals.take(i + 1)[i as int] == vals[i as int]);
    }
    assert(vals.take(n as int) =~= vals);
    if all || n < 2 {
        proof {
            lemma_chars_lt_strict_total();
        }
        let less = (|a: &Vec<char>, b: &Vec<char>| -> (r: bool)
            ensures
                r == chars_lt(a@, b@),
            { chars_less(a, b) });
        let ghost lt = |x: Seq<char>, y: Seq<char>| chars_lt(x, y);
        let p = sort_positions(&keys, less, Ghost(lt));
        let ghost kv = keys@.map_values(|k: Vec<char>| k@);
        let ghost order = stable_order(kv, lt);
        proof {
            lemma_stable_order_range(kv, lt);
        }
        let mut sorted: Vec<Value> = Vec::new();
        for i in 0..n
            invariant
                n == values@.len(),
                n == p@.len(),
                vals == values@.map_values(|v: Value| value_model(v)),
                kv.len() == n,
                p@.map_values(|x: usize| x as int) == order,
                order.len() == n,
                forall|j: int| 0 <= j < n ==> 0 <= #[trigger] order[j] < n,
                sorted@.len() == i,
                forall|j: int| 0 <= j < i ==> #[trigger] value_model(sorted@[j]) == vals[order[j]],
        {
            assert(p@.map_values(|x: usize| x as int)[i as int] == p@[i as int] as int);
            sorted.push(value_clone(&values[p[i]]));
        }
        *arr = array_from_values(sorted);
        proof {
            if all {
                assert(kv =~= vals.map_values(|v: ValueModel| string_of(v)));
            } else {
                lemma_stable_order_short(kv);
                lemma_stable_order_short(vals.map_values(|v: ValueModel| string_of(v)));
                assert(!all_strings(vals));
            }
            assert(sorted@.map_values(|v: Value| value_model(v)) =~= order.map_values(
                |i: int| vals[i],
            ));
            if !all {
                assert(order.map_values(|i: int| vals[i]) =~= vals);
            }
        }
    }
    array_set_trailing(arr, trailing);
    array_set_trailing_comma(arr, trailing_comma);
    assert(array_model(*arr) =~= sorted_array(m));
}

} // verus!
