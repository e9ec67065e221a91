//! The calls into `toml_edit`. Each function here makes one call of
//! `toml_edit` and states, over the model of `crate::model`, what the
//! `toml_edit` source (version 0.22) shows that the call returns or changes.
//! Nothing here is proved: the rest of the library is proved against these
//! statements.
use vstd::prelude::*;

use toml_edit::{Array, ArrayOfTables, Decor, DocumentMut, Item, Key, RawString, Table, TomlError, Value};

use crate::order::distinct;
use crate::model::{
    ArrayModel, DecorModel, ItemModel, KeyModel, TableModel, ValueModel, insert_entry, key_index,
    keys_distinct, lookup, names, present, sort_values_model, with_item,
};

verus! {

/// `toml_edit::DocumentMut`, an opaque type to the proofs.
#[verifier::external_type_specification]
#[verifier::external_body]
pub struct ExDocumentMut(DocumentMut);

/// `toml_edit::Table`, an opaque type to the proofs.
#[verifier::external_type_specification]
#[verifier::external_body]
pub struct ExTable(Table);

/// `toml_edit::Item`, an opaque type to the proofs.
#[verifier::external_type_specification]
#[verifier::external_body]
pub struct ExItem(Item);

/// `toml_edit::Value`, an opaque type to the proofs.
#[verifier::external_type_specification]
#[verifier::external_body]
pub struct ExValue(Value);

/// `toml_edit::Array`, an opaque type to the proofs.
#[verifier::external_type_specification]
#[verifier::external_body]
pub struct ExArray(Array);

/// `toml_edit::ArrayOfTables`, an opaque type to the proofs.
#[verifier::external_type_specification]
#[verifier::external_body]
pub struct ExArrayOfTables(ArrayOfTables);

/// `toml_edit::Key`, an opaque type to the proofs.
#[verifier::external_type_specification]
#[verifier::external_body]
pub struct ExKey(Key);

/// `toml_edit::Decor`, an opaque type to the proofs.
#[verifier::external_type_specification]
#[verifier::external_body]
pub struct ExDecor(Decor);

/// `toml_edit::RawString`, an opaque type to the proofs.
#[verifier::external_type_specification]
#[verifier::external_body]
pub struct ExRawString(RawString);

/// `toml_edit::TomlError`, an opaque type to the proofs.
#[verifier::external_type_specification]
#[verifier::external_body]
pub struct ExTomlError(TomlError);

/// The root table of the document that `toml_edit` parses from `input`, or
/// `None` where it refuses the input.
pub uninterp spec fn parsed_document(input: Seq<char>) -> Option<TableModel>;

/// What the root table of a document holds (where its root is a table).
pub uninterp spec fn document_model(d: DocumentMut) -> TableModel;

/// The root item of the document is a table: `DocumentMut::as_table` and
/// `as_table_mut` panic on a document whose root a caller replaced (through
/// `as_item_mut`) by anything else.
pub uninterp spec fn root_is_table(d: DocumentMut) -> bool;

/// What a table holds.
pub uninterp spec fn table_model(t: Table) -> TableModel;

/// What an item holds.
pub uninterp spec fn item_model(i: Item) -> ItemModel;

/// What a value holds.
pub uninterp spec fn value_model(v: Value) -> ValueModel;

/// What an array holds.
pub uninterp spec fn array_model(a: Array) -> ArrayModel;

/// The tables of an array of tables.
pub uninterp spec fn tables_model(a: ArrayOfTables) -> Seq<TableModel>;

/// A key's name and decor.
pub uninterp spec fn key_model(k: Key) -> KeyModel;

/// A decor's prefix and suffix.
pub uninterp spec fn decor_model(d: Decor) -> DecorModel;

/// The text of a raw string, `None` where it only refers to a span of the
/// source.
pub uninterp spec fn raw_text(r: RawString) -> Option<Seq<char>>;

/// The four kinds of `toml_edit::Item`.
pub enum ItemKind {
    Empty,
    Value,
    Table,
    ArrayOfTables,
}

/// `str::parse::<DocumentMut>` (`DocumentMut::from_str`): the result is an
/// error exactly where `toml_edit` refuses the text, else a document whose
/// root table is `parsed_document(input)`.
#[verifier::external_body]
pub(crate) fn parse_document(input: &str) -> (r: Result<DocumentMut, TomlError>)
    ensures
        r is Ok <==> parsed_document(input@) is Some,
        r matches Ok(d) ==> document_model(d) == parsed_document(input@).unwrap() && root_is_table(d),
{
    input.parse::<DocumentMut>()
}

/// `DocumentMut::as_table_mut`: the root table, where the root is a table
/// (the call panics otherwise); changes to it are changes of the document,
/// whose root stays a table.
#[verifier::external_body]
pub(crate) fn document_root_mut(d: &mut DocumentMut) -> (r: &mut Table)
    requires
        root_is_table(*old(d)),
    ensures
        table_model(*r) == document_model(*old(d)),
        document_model(*final(d)) == table_model(*final(r)),
        root_is_table(*final(d)),
{
    d.as_table_mut()
}

/// `DocumentMut::as_table`: the root table, where the root is a table (the
/// call panics otherwise).
#[verifier::external_body]
pub(crate) fn document_root(d: &DocumentMut) -> (r: &Table)
    requires
        root_is_table(*d),
    ensures
        table_model(*r) == document_model(*d),
{
    d.as_table()
}

/// `DocumentMut::clone` (derived): the same document.
#[verifier::external_body]
pub(crate) fn document_clone(d: &DocumentMut) -> (r: DocumentMut)
    ensures
        document_model(r) == document_model(*d),
        root_is_table(r) == root_is_table(*d),
{
    d.clone()
}

/// `Table::iter`: the keys that hold something, with what they hold, in
/// order; the names are distinct (they index an `IndexMap`).
#[verifier::external_body]
pub(crate) fn table_iter<'a>(t: &'a Table) -> (r: Vec<(String, &'a Item)>)
    ensures
        r@.len() == present(table_model(*t).entries).len(),
        forall|i: int|
            0 <= i < r@.len() ==> (#[trigger] r@[i]).0@ == present(
                table_model(*t).entries,
            )[i].key.name,
        forall|i: int|
            0 <= i < r@.len() ==> item_model(*(#[trigger] r@[i]).1) == present(
                table_model(*t).entries,
            )[i].item,
        distinct(r@.map_values(|e: (String, &'a Item)| e.0@)),
{
    t.iter().map(|(k, v)| (k.to_owned(), v)).collect()
}



/// `Table::get_mut`: what the key holds, where it holds something (the only
/// entry of that name: keys index an `IndexMap`); changes to it are changes
/// of the table's entry.
#[verifier::external_body]
pub(crate) fn table_get_mut<'a>(t: &'a mut Table, key: &str) -> (r: Option<&'a mut Item>)
    ensures
        match r {
            None => {
                &&& lookup(table_model(*old(t)).entries, key@) is Empty
                &&& forall|j: int|
                    0 <= j < table_model(*old(t)).entries.len()
                        && table_model(*old(t)).entries[j].key.name == key@
                        ==> table_model(*old(t)).entries[j].item is Empty
                &&& *final(t) == *old(t)
            },
            Some(i) => {
                let m = table_model(*old(t));
                let k = key_index(m.entries, key@);
                &&& k >= 0
                &&& forall|j: int|
                    0 <= j < m.entries.len() && j != k ==> m.entries[j].key.name != key@
                &&& !(m.entries[k].item is Empty)
                &&& item_model(*i) == m.entries[k].item
                &&& table_model(*final(t)) == (TableModel {
                    entries: with_item(m.entries, k, item_model(*final(i))),
                    ..m
                })
            },
        },
{
    t.get_mut(key)
}

/// `Table::is_empty`: whether no key holds anything.
#[verifier::external_body]
pub(crate) fn table_is_empty(t: &Table) -> (r: bool)
    ensures
        r == (present(table_model(*t).entries).len() == 0),
{
    t.is_empty()
}

/// `Table::is_implicit`.
#[verifier::external_body]
pub(crate) fn table_is_implicit(t: &Table) -> (r: bool)
    ensures
        r == table_model(*t).implicit,
{
    t.is_implicit()
}

/// `Table::sort_values`: sorts the entries by key (`IndexMap::sort_keys`, a
/// stable sort by `Key`'s order, which is `str`'s order of the names), and
/// then the tables that stand for dotted keys, recursively.
#[verifier::external_body]
pub(crate) fn table_sort_values(t: &mut Table)
    ensures
        table_model(*final(t)) == sort_values_model(table_model(*old(t))),
{
    t.sort_values()
}

/// `Table::position`: the number that the table was given where it was
/// parsed or last set.
#[verifier::external_body]
pub(crate) fn table_position(t: &Table) -> (r: Option<usize>)
    ensures
        r == table_model(*t).position,
{
    t.position()
}

/// `Table::set_position`.
#[verifier::external_body]
pub(crate) fn table_set_position(t: &mut Table, pos: usize)
    ensures
        table_model(*final(t)) == (TableModel { position: Some(pos), ..table_model(*old(t)) }),
{
    t.set_position(pos)
}

/// `Table::clone` (derived). The keys of a table are distinct (they index
/// an `IndexMap`).
#[verifier::external_body]
pub(crate) fn table_clone(t: &Table) -> (r: Table)
    ensures
        table_model(r) == table_model(*t),
        keys_distinct(table_model(r).entries),
{
    t.clone()
}

/// `Table::clear`: removes every entry.
#[verifier::external_body]
pub(crate) fn table_clear(t: &mut Table)
    ensures
        table_model(*final(t)) == (TableModel { entries: Seq::empty(), ..table_model(*old(t)) }),
{
    t.clear()
}

/// `Table::get_key_value`: the key, with its formatting, and what it holds,
/// where it holds something.
#[verifier::external_body]
pub(crate) fn table_get_key_value<'a>(t: &'a Table, key: &str) -> (r: Option<(&'a Key, &'a Item)>)
    ensures
        r is Some <==> !(lookup(table_model(*t).entries, key@) is Empty),
        r is None ==> forall|j: int|
            0 <= j < table_model(*t).entries.len() && table_model(*t).entries[j].key.name == key@
                ==> table_model(*t).entries[j].item is Empty,
        r matches Some((k, i)) ==> {
            let m = table_model(*t);
            let n = key_index(m.entries, key@);
            &&& forall|j: int| 0 <= j < m.entries.len() && j != n ==> m.entries[j].key.name != key@
            &&& key_model(*k) == m.entries[n].key
            &&& item_model(*i) == m.entries[n].item
        },
{
    t.get_key_value(key)
}

/// `Table::insert_formatted`: the key and item replace an entry of the same
/// name in place, or are appended.
#[verifier::external_body]
pub(crate) fn table_insert_formatted(t: &mut Table, k: &Key, item: Item)
    ensures
        table_model(*final(t)) == (TableModel {
            entries: insert_entry(table_model(*old(t)).entries, key_model(*k), item_model(item)),
            ..table_model(*old(t))
        }),
{
    t.insert_formatted(k, item);
}

/// Which of its four variants an item is.
#[verifier::external_body]
pub(crate) fn item_kind(i: &Item) -> (r: ItemKind)
    ensures
        match item_model(*i) {
            ItemModel::Empty => r is Empty,
            ItemModel::Value(_) => r is Value,
            ItemModel::Table(_) => r is Table,
            ItemModel::ArrayOfTables(_) => r is ArrayOfTables,
        },
{
    match i {
        Item::None => ItemKind::Empty,
        Item::Value(_) => ItemKind::Value,
        Item::Table(_) => ItemKind::Table,
        Item::ArrayOfTables(_) => ItemKind::ArrayOfTables,
    }
}

/// `Item::as_table`.
#[verifier::external_body]
pub(crate) fn item_as_table(i: &Item) -> (r: Option<&Table>)
    ensures
        r is Some <==> item_model(*i) is Table,
        r matches Some(t) ==> item_model(*i) == ItemModel::Table(table_model(*t)),
{
    i.as_table()
}

/// `Item::as_table_mut`.
#[verifier::external_body]
pub(crate) fn item_as_table_mut(i: &mut Item) -> (r: Option<&mut Table>)
    ensures
        match r {
            None => { !(item_model(*old(i)) is Table) && *final(i) == *old(i) },
            Some(t) => {
                &&& item_model(*old(i)) == ItemModel::Table(table_model(*t))
                &&& item_model(*final(i)) == ItemModel::Table(table_model(*final(t)))
            },
        },
{
    i.as_table_mut()
}

/// `Item::as_array_mut`: the array where the item is an array value.
#[verifier::external_body]
pub(crate) fn item_as_array_mut(i: &mut Item) -> (r: Option<&mut Array>)
    ensures
        match r {
            None => {
                &&& !(item_model(*old(i)) matches ItemModel::Value(ValueModel::Array(_)))
                &&& *final(i) == *old(i)
            },
            Some(a) => {
                &&& item_model(*old(i)) == ItemModel::Value(ValueModel::Array(array_model(*a)))
                &&& item_model(*final(i)) == ItemModel::Value(
                    ValueModel::Array(array_model(*final(a))),
                )
            },
        },
{
    i.as_array_mut()
}

/// `Item::as_array_of_tables_mut`.
#[verifier::external_body]
pub(crate) fn item_as_tables_mut(i: &mut Item) -> (r: Option<&mut ArrayOfTables>)
    ensures
        match r {
            None => { !(item_model(*old(i)) is ArrayOfTables) && *final(i) == *old(i) },
            Some(a) => {
                &&& item_model(*old(i)) == ItemModel::ArrayOfTables(tables_model(*a))
                &&& item_model(*final(i)) == ItemModel::ArrayOfTables(tables_model(*final(a)))
            },
        },
{
    i.as_array_of_tables_mut()
}

/// `Item::clone`.
#[verifier::external_body]
pub(crate) fn item_clone(i: &Item) -> (r: Item)
    ensures
        item_model(r) == item_model(*i),
{
    i.clone()
}

/// `Array::iter`, cloning the values.
#[verifier::external_body]
pub(crate) fn array_values(a: &Array) -> (r: Vec<Value>)
    ensures
        r@.map_values(|v: Value| value_model(v)) == array_model(*a).values,
{
    a.iter().cloned().collect()
}

/// `Array::from_iter`: a new array of the values, with no trailing comma, an
/// empty trailing text and no decor of its own.
#[verifier::external_body]
pub(crate) fn array_from_values(vs: Vec<Value>) -> (r: Array)
    ensures
        array_model(r) == (ArrayModel {
            values: vs@.map_values(|v: Value| value_model(v)),
            trailing: Some(Seq::empty()),
            trailing_comma: false,
            decor: DecorModel { prefix: None, suffix: None },
        }),
{
    Array::from_iter(vs)
}

/// `Array::trailing`, cloned.
#[verifier::external_body]
pub(crate) fn array_trailing(a: &Array) -> (r: RawString)
    ensures
        raw_text(r) == array_model(*a).trailing,
{
    a.trailing().clone()
}

/// `Array::trailing_comma`.
#[verifier::external_body]
pub(crate) fn array_trailing_comma(a: &Array) -> (r: bool)
    ensures
        r == array_model(*a).trailing_comma,
{
    a.trailing_comma()
}

/// `Array::set_trailing`.
#[verifier::external_body]
pub(crate) fn array_set_trailing(a: &mut Array, r: RawString)
    ensures
        array_model(*final(a)) == (ArrayModel { trailing: raw_text(r), ..array_model(*old(a)) }),
{
    a.set_trailing(r)
}

/// `Array::set_trailing_comma`.
#[verifier::external_body]
pub(crate) fn array_set_trailing_comma(a: &mut Array, yes: bool)
    ensures
        array_model(*final(a)) == (ArrayModel { trailing_comma: yes, ..array_model(*old(a)) }),
{
    a.set_trailing_comma(yes)
}

/// `Value::as_str`: the content of a string value.
#[verifier::external_body]
pub(crate) fn value_as_str(v: &Value) -> (r: Option<String>)
    ensures
        match value_model(*v) {
            ValueModel::Str { content, .. } => { (r matches Some(x) && x@ == content) },
            _ => { r is None },
        },
{
    v.as_str().map(|s| s.to_owned())
}

/// `Value::clone` (derived).
#[verifier::external_body]
pub(crate) fn value_clone(v: &Value) -> (r: Value)
    ensures
        value_model(r) == value_model(*v),
{
    v.clone()
}

/// `ArrayOfTables::len`: the number of tables.
#[verifier::external_body]
pub(crate) fn tables_len(a: &ArrayOfTables) -> (r: usize)
    ensures
        r == tables_model(*a).len(),
{
    a.len()
}

/// `ArrayOfTables::get_mut`: table `i`; changes to it are changes of the
/// array of tables.
#[verifier::external_body]
pub(crate) fn tables_get_mut(a: &mut ArrayOfTables, i: usize) -> (r: Option<&mut Table>)
    ensures
        match r {
            None => { i >= tables_model(*old(a)).len() && *final(a) == *old(a) },
            Some(t) => {
                &&& i < tables_model(*old(a)).len()
                &&& table_model(*t) == tables_model(*old(a))[i as int]
                &&& tables_model(*final(a)) == tables_model(*old(a)).update(
                    i as int,
                    table_model(*final(t)),
                )
            },
        },
{
    a.get_mut(i)
}

/// `Key::clone`.
#[verifier::external_body]
pub(crate) fn key_clone(k: &Key) -> (r: Key)
    ensures
        key_model(r) == key_model(*k),
{
    k.clone()
}

/// `Key::leaf_decor`, cloned.
#[verifier::external_body]
pub(crate) fn key_leaf_decor(k: &Key) -> (r: Decor)
    ensures
        decor_model(r) == key_model(*k).decor,
{
    k.leaf_decor().clone()
}

/// `Key::display_repr`: the key as it is shown, as written where it was
/// parsed.
#[verifier::external_body]
pub(crate) fn key_repr(k: &Key) -> (r: String)
    ensures
        r@ == key_model(*k).repr,
{
    k.display_repr().into_owned()
}

/// `Key::with_leaf_decor`: the key with its decor replaced.
#[verifier::external_body]
pub(crate) fn key_with_leaf_decor(k: Key, d: Decor) -> (r: Key)
    ensures
        key_model(r) == (KeyModel { decor: decor_model(d), ..key_model(k) }),
{
    k.with_leaf_decor(d)
}

/// `Decor::default`: no prefix and no suffix.
#[verifier::external_body]
pub(crate) fn decor_default() -> (r: Decor)
    ensures
        decor_model(r) == (DecorModel { prefix: None, suffix: None }),
{
    Decor::default()
}

/// `Decor::prefix`, cloned.
#[verifier::external_body]
pub(crate) fn decor_prefix(d: &Decor) -> (r: Option<RawString>)
    ensures
        match decor_model(*d).prefix {
            None => { r is None },
            Some(t) => { (r matches Some(x) && raw_text(x) == t) },
        },
{
    d.prefix().cloned()
}

/// `RawString::as_str`.
#[verifier::external_body]
pub(crate) fn raw_as_str(r: &RawString) -> (s: Option<String>)
    ensures
        match raw_text(*r) {
            None => { s is None },
            Some(t) => { (s matches Some(x) && x@ == t) },
        },
{
    r.as_str().map(|s| s.to_owned())
}

} // verus!
