# cargo_sort

Sorting of `Cargo.toml` manifests, verified with Verus.

`sort::sort_toml` parses a manifest with `toml_edit` and sorts it: the keys of
the dependency tables (`[dependencies]`, `[dev-dependencies]`,
`[build-dependencies]`, and, under a `[target.*]` table, the last dependency
table found there), optionally group by
group where blank lines separate groups; the arrays and tables that the
matcher names, such as `workspace.members`; and the order in which the
tables are printed, either by their headers or by a given ordering of the
top-level tables. Ordered by their headers, the first dependency table keeps
its place, and the tables under it and the later dependency tables follow it
in the order of their headers; other tables keep the numbers they were
parsed with, which decide where `toml_edit` prints them.

Every function is proved against a mathematical model of the document
(`src/model.rs`). The calls into `toml_edit` are gathered in `src/toml.rs`,
each with the contract that the library relies on; nothing else is trusted.

- `src/order.rs`: the order of strings and a stable sort of positions.
- `src/array.rs`, `src/group.rs`, `src/table.rs`: sorting one array or table.
- `src/heading.rs`: collecting and sorting the headers under a table.
- `src/position.rs`: numbering tables, which decides where they are printed.
- `src/sort.rs`: the whole manifest.
- `src/laws.rs`, `src/document_laws.rs`, `src/numbering_laws.rs`,
  `src/content_laws.rs`: what holds of all inputs: sorted output, kept keys,
  idempotence of sorting an array, a table by key and a table by groups, the
  groups, the numbering of headers and of the tables named by an ordering,
  the positions kept by the tables that are not dependency tables,
  the heading lists collected in the order of their tables,
  header comments kept, and that numbering changes nothing but positions.
