//! The mathematical model of a TOML document as this library reads and
//! changes it: tables are sequences of keyed entries in document order, with
//! the formatting that the sorting rules look at (the text before a key) and
//! the header position that decides where a table is printed.
use vstd::prelude::*;

use crate::order::{chars_lt, stable_order};

verus! {

/// The whitespace and comments around a key, a value or a table header:
/// `None` where the decor has none; `Some(None)` where it refers to the
/// source text by span.
pub struct DecorModel {
    pub prefix: Option<Option<Seq<char>>>,
    pub suffix: Option<Option<Seq<char>>>,
}

/// A key: its name, the text that shows it (as written, quoted or not), and
/// the decor around it.
pub struct KeyModel {
    pub name: Seq<char>,
    pub repr: Seq<char>,
    pub decor: DecorModel,
}

/// An array value: its elements, the text after the last element, whether
/// it ends in a comma, and the whitespace and comments around the array.
pub struct ArrayModel {
    pub values: Seq<ValueModel>,
    pub trailing: Option<Seq<char>>,
    pub trailing_comma: bool,
    pub decor: DecorModel,
}

/// A value: a string, with its content and the text that `toml_edit` shows
/// for it (quotes and the whitespace and comments around it included); an
/// array; or any other value (number, boolean, date, inline table), by the
/// text shown for it, whitespace and comments included.
pub enum ValueModel {
    Str { content: Seq<char>, text: Seq<char> },
    Array(ArrayModel),
    Other(Seq<char>),
}

/// A table: whether it is implicit (shown only through its sub-tables),
/// whether it stands for dotted keys, its header position, the whitespace
/// and comments around its header, and its entries.
pub struct TableModel {
    pub implicit: bool,
    pub dotted: bool,
    pub position: Option<usize>,
    pub decor: DecorModel,
    pub entries: Seq<EntryModel>,
}

/// What a key of a table holds.
pub enum ItemModel {
    Empty,
    Value(ValueModel),
    Table(TableModel),
    ArrayOfTables(Seq<TableModel>),
}

/// A key of a table and what it holds.
pub struct EntryModel {
    pub key: KeyModel,
    pub item: ItemModel,
}

/// The entry holds something (a table hides keys that hold nothing).
pub open spec fn is_present(e: EntryModel) -> bool {
    !(e.item is Empty)
}

/// The entries that hold something, in order: what iterating a table yields.
pub open spec fn present(es: Seq<EntryModel>) -> Seq<EntryModel>
    decreases es.len(),
{
    if es.len() == 0 {
        es
    } else if is_present(es.last()) {
        present(es.drop_last()).push(es.last())
    } else {
        present(es.drop_last())
    }
}

/// Each entry that holds something is an entry of the table.
pub proof fn lemma_present_from(es: Seq<EntryModel>, i: int) -> (k: int)
    requires
        0 <= i < present(es).len(),
    ensures
        0 <= k < es.len(),
        present(es)[i] == es[k],
        is_present(es[k]),
    decreases es.len(),
{
    if is_present(es.last()) && i == present(es).len() - 1 {
        es.len() - 1
    } else {
        lemma_present_from(es.drop_last(), i)
    }
}

/// The names of the keys.
pub open spec fn names(es: Seq<EntryModel>) -> Seq<Seq<char>> {
    es.map_values(|e: EntryModel| e.key.name)
}

/// No two entries have the same key.
pub open spec fn keys_distinct(es: Seq<EntryModel>) -> bool {
    forall|i: int, j: int|
        0 <= i < es.len() && 0 <= j < es.len() && i != j ==> es[i].key.name != es[j].key.name
}

/// The position of the first entry named `name`, or -1.
pub open spec fn key_index(es: Seq<EntryModel>, name: Seq<char>) -> int
    decreases es.len(),
{
    if es.len() == 0 {
        -1
    } else if es.last().key.name == name {
        let before = key_index(es.drop_last(), name);
        if before >= 0 {
            before
        } else {
            es.len() - 1
        }
    } else {
        key_index(es.drop_last(), name)
    }
}

/// `key_index` finds an entry of that name, or none exists.
pub proof fn lemma_key_index(es: Seq<EntryModel>, name: Seq<char>)
    ensures
        -1 <= key_index(es, name) < es.len(),
        key_index(es, name) >= 0 ==> es[key_index(es, name)].key.name == name,
        key_index(es, name) == -1 ==> forall|i: int|
            0 <= i < es.len() ==> es[i].key.name != name,
    decreases es.len(),
{
    if es.len() > 0 {
        lemma_key_index(es.drop_last(), name);
        if key_index(es, name) == -1 {
            assert forall|i: int| 0 <= i < es.len() implies es[i].key.name != name by {
                if i < es.len() - 1 {
                    assert(es.drop_last()[i] == es[i]);
                }
            }
        }
    }
}

/// What the key `name` holds (`None` where there is no such key).
pub open spec fn lookup(es: Seq<EntryModel>, name: Seq<char>) -> ItemModel {
    let i = key_index(es, name);
    if i >= 0 {
        es[i].item
    } else {
        ItemModel::Empty
    }
}

/// The entries with the item of entry `i` replaced.
pub open spec fn with_item(es: Seq<EntryModel>, i: int, item: ItemModel) -> Seq<EntryModel> {
    es.update(i, EntryModel { key: es[i].key, item })
}

/// The entries after inserting `key` with `item`: in place where the key is
/// present, at the end otherwise.
pub open spec fn insert_entry(es: Seq<EntryModel>, key: KeyModel, item: ItemModel) -> Seq<
    EntryModel,
> {
    let i = key_index(es, key.name);
    if i >= 0 {
        es.update(i, EntryModel { key, item })
    } else {
        es.push(EntryModel { key, item })
    }
}

/// The entries in the order of their keys (a stable sort).
pub open spec fn sorted_by_key(es: Seq<EntryModel>) -> Seq<EntryModel> {
    stable_order(names(es), |a: Seq<char>, b: Seq<char>| chars_lt(a, b)).map_values(
        |i: int| es[i],
    )
}

/// A table after sorting its entries by key; tables that stand for dotted
/// keys are sorted the same way, recursively.
pub open spec fn sort_values_model(t: TableModel) -> TableModel
    decreases t,
{
    TableModel { entries: sorted_by_key(sort_dotted(t.entries)), ..t }
}

/// Each dotted-key table among the entries sorted by `sort_values_model`.
pub open spec fn sort_dotted(es: Seq<EntryModel>) -> Seq<EntryModel>
    decreases es,
{
    if es.len() == 0 {
        es
    } else {
        let last = es.last();
        let item = match last.item {
            ItemModel::Table(sub) => if sub.dotted {
                ItemModel::Table(sort_values_model(sub))
            } else {
                last.item
            },
            _ => last.item,
        };
        sort_dotted(es.drop_last()).push(EntryModel { key: last.key, item })
    }
}

} // verus!

