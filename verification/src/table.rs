//! Sorting the keys of one table.
use vstd::prelude::*;
use vstd::slice::slice_subrange;

use toml_edit::Table;

use crate::group::{grouped_model, sort_by_group};
use crate::heading::strings_view;
use crate::model::{ItemModel, TableModel, key_index, lemma_key_index, lookup, sort_values_model, with_item};
use crate::toml::{item_as_table_mut, table_get_mut, table_model, table_sort_values};

verus! {

/// The table with the table at `path` under it sorted by key (unchanged
/// where there is no table at `path`).
pub open spec fn sort_at_path(t: TableModel, path: Seq<Seq<char>>) -> TableModel
    decreases path.len(),
{
    if path.len() == 0 {
        sort_values_model(t)
    } else {
        match lookup(t.entries, path[0]) {
            ItemModel::Table(sub) => TableModel {
                entries: with_item(
                    t.entries,
                    key_index(t.entries, path[0]),
                    ItemModel::Table(sort_at_path(sub, path.drop_first())),
                ),
                ..t
            },
            _ => t,
        }
    }
}

/// A table after sorting: by groups where `group` is set; else, for a table
/// reached by a path (`target` tables), the table at the path's tail under
/// it, sorted by key (nothing where the path has one segment); else the table
/// itself, sorted by key.
pub open spec fn sorted_table(t: TableModel, group: bool, table_path: Option<Seq<Seq<char>>>) -> TableModel {
    if group {
        grouped_model(t)
    } else {
        match table_path {
            Some(p) => if p.len() > 1 {
                sort_at_path(t, p.drop_first())
            } else {
                t
            },
            None => sort_values_model(t),
        }
    }
}

/// Sorts the table at `path` under `table` by key.
pub fn sort_table_by_path(table: &mut Table, path: &[String])
    ensures
        table_model(*final(table)) == sort_at_path(table_model(*old(table)), strings_view(path@)),
    decreases path@.len(),
{
    let ghost m = table_model(*table);
    let ghost p = strings_view(path@);
    if path.len() == 0 {
        table_sort_values(table);
        return;
    }
    let rest = slice_subrange(path, 1, path.len());
    assert(p[0] == path@[0]@);
    assert(strings_view(rest@) =~= p.drop_first());
    match table_get_mut(table, path[0].as_str()) {
        None => {},
        Some(item) => {
            let ghost k = key_index(m.entries, path@[0]@);
            match item_as_table_mut(item) {
                None => {
                    proof {
                        lemma_key_index(m.entries, path@[0]@);
                    }
                    assert(with_item(m.entries, k, m.entries[k].item) =~= m.entries);
                },
                Some(inner) => sort_table_by_path(inner, rest),
            }
        },
    }
}

/// Sorts a table (see `sorted_table`).
pub fn sort_table(table: &mut Table, group: bool, table_path: &Option<Vec<String>>)
    ensures
        table_model(*final(table)) == sorted_table(
            table_model(*old(table)),
            group,
            match table_path {
                Some(p) => Some(strings_view(p@)),
                None => None,
            },
        ),
{
    if group {
        sort_by_group(table);
    } else {
        match table_path {
            Some(p) => {
                if p.len() > 1 {
                    let rest = slice_subrange(p.as_slice(), 1, p.len());
                    assert(strings_view(rest@) =~= strings_view(p@).drop_first());
                    sort_table_by_path(table, rest);
                }
            },
            None => table_sort_values(table),
        }
    }
}

} // verus!
