use cargo_sort::array::sort_array;
use cargo_sort::group::{count_uncommented_lines, sort_by_group};
use cargo_sort::heading::{gather_headings, sort_headings, Heading, HeadingList};
use cargo_sort::order::{chars_equal, chars_less, chars_of};
use cargo_sort::position::{
    next_number, number_entry, set_position_path, sort_by_ordering, sort_lexicographical,
    walk_tables_set_position,
};
use cargo_sort::sort::{
    check_gatherable, collect_special_tables, default_matcher, is_sortable, join_reversed,
    sort_document,
    sort_keyed, str_in, table_path_of,
};
use cargo_sort::table::{sort_table, sort_table_by_path};
use toml_edit::{DocumentMut, Table};

fn parse(s: &str) -> DocumentMut {
    s.parse::<DocumentMut>().unwrap()
}

fn table<'a>(doc: &'a DocumentMut, path: &[&str]) -> &'a Table {
    let mut t = doc.as_table();
    for seg in path {
        t = t.get(seg).unwrap().as_table().unwrap();
    }
    t
}

fn table_mut<'a>(doc: &'a mut DocumentMut, path: &[&str]) -> &'a mut Table {
    let mut t = doc.as_table_mut();
    for seg in path {
        t = t.get_mut(seg).unwrap().as_table_mut().unwrap();
    }
    t
}

fn keys(t: &Table) -> Vec<String> {
    t.iter().map(|(k, _)| k.to_string()).collect()
}

fn strings(v: &[&str]) -> Vec<String> {
    v.iter().map(|s| s.to_string()).collect()
}

fn segs(h: &Heading) -> (bool, Vec<String>) {
    match h {
        Heading::Next(s) => (false, s.clone()),
        Heading::Complete(s) => (true, s.clone()),
    }
}

#[test]
fn chars_compare_by_code_point() {
    assert!(chars_less(&chars_of("a"), &chars_of("b")));
    assert!(chars_less(&chars_of("ab"), &chars_of("abc")));
    assert!(!chars_less(&chars_of("abc"), &chars_of("ab")));
    assert!(chars_less(&chars_of("Z"), &chars_of("a")));
    assert!(!chars_less(&chars_of("same"), &chars_of("same")));
    assert!(chars_equal(&chars_of("same"), &chars_of("same")));
    assert!(!chars_equal(&chars_of("same"), &chars_of("sane")));
    assert_eq!(chars_of("héllo"), vec!['h', 'é', 'l', 'l', 'o']);
}

#[test]
fn counts_lines_that_are_not_comments() {
    assert_eq!(count_uncommented_lines(""), 0);
    assert_eq!(count_uncommented_lines("\n"), 1);
    assert_eq!(count_uncommented_lines("# note\n"), 0);
    assert_eq!(count_uncommented_lines("\n# note\n"), 1);
    assert_eq!(count_uncommented_lines("\n\n"), 2);
    assert_eq!(count_uncommented_lines("  # indented\n"), 1);
}

#[test]
fn next_number_wraps() {
    assert_eq!(next_number(0), 1);
    assert_eq!(next_number(41), 42);
    assert_eq!(next_number(usize::MAX), 0);
}

#[test]
fn default_matcher_names_the_dependency_tables() {
    let m = default_matcher();
    assert_eq!(m.heading, &["dependencies", "dev-dependencies", "build-dependencies"]);
    assert_eq!(m.heading_key.len(), 5);
    assert_eq!(m.heading_key[0], ("workspace", "members"));
    assert!(str_in(m.heading, "dev-dependencies"));
    assert!(!str_in(m.heading, "dependency"));
    assert!(!str_in(&[], "dependencies"));
}

#[test]
fn join_reversed_reverses_the_path() {
    assert_eq!(join_reversed(&strings(&["target", "cfg(unix)", "dependencies"])), "dependencies.cfg(unix).target");
    assert_eq!(join_reversed(&strings(&["target"])), "target");
    assert_eq!(join_reversed(&Vec::new()), "");
}

#[test]
fn sort_array_sorts_strings() {
    let mut doc = parse("a = [\"c\", \"a\", \"b\"]\n");
    let arr = doc["a"].as_array_mut().unwrap();
    sort_array(arr);
    let got: Vec<&str> = arr.iter().map(|v| v.as_str().unwrap()).collect();
    assert_eq!(got, vec!["a", "b", "c"]);
    sort_array(arr);
    let again: Vec<&str> = arr.iter().map(|v| v.as_str().unwrap()).collect();
    assert_eq!(again, vec!["a", "b", "c"]);
}

#[test]
fn sort_array_keeps_mixed_arrays() {
    let mut doc = parse("a = [\"c\", 2, \"a\"]\n");
    let arr = doc["a"].as_array_mut().unwrap();
    sort_array(arr);
    assert_eq!(doc.to_string(), "a = [\"c\", 2, \"a\"]\n");
}

#[test]
fn sort_array_keeps_trailing_text() {
    let mut doc = parse("a = [\"b\", \"a\", # end\n]\n");
    let arr = doc["a"].as_array_mut().unwrap();
    let trailing = arr.trailing().as_str().map(|s| s.to_string());
    sort_array(arr);
    assert!(arr.trailing_comma());
    assert_eq!(arr.trailing().as_str().map(|s| s.to_string()), trailing);
}

#[test]
fn sort_table_sorts_by_key() {
    let mut doc = parse("[dependencies]\nc = 1\na = 1\nb = 1\n");
    let t = table_mut(&mut doc, &["dependencies"]);
    sort_table(t, false, &None);
    assert_eq!(keys(t), strings(&["a", "b", "c"]));
}

#[test]
fn sort_table_twice_is_sorting_once() {
    let mut doc = parse("[dependencies]\nc = 1\na = 1\nb = 1\n");
    let t = table_mut(&mut doc, &["dependencies"]);
    sort_table(t, false, &None);
    let once = doc.to_string();
    let t = table_mut(&mut doc, &["dependencies"]);
    sort_table(t, false, &None);
    assert_eq!(doc.to_string(), once);
    assert_eq!(once, "[dependencies]\na = 1\nb = 1\nc = 1\n");
}

#[test]
fn number_entry_numbers_a_table_before_its_sub_tables() {
    let mut doc = parse("[a]\nx = 1\n[a.b]\ny = 1\n[a.b.c]\nz = 1\n");
    let item = doc.as_table_mut().get_mut("a").unwrap();
    let mut idx = 5;
    number_entry(item, &mut idx);
    assert_eq!(idx, 8);
    assert_eq!(table(&doc, &["a"]).position(), Some(5));
    assert_eq!(table(&doc, &["a", "b"]).position(), Some(6));
    assert_eq!(table(&doc, &["a", "b", "c"]).position(), Some(7));
}

#[test]
fn sort_table_with_a_path_sorts_the_table_at_its_tail() {
    let mut doc = parse("[target.x.dependencies]\nb = 1\na = 1\n");
    let t = table_mut(&mut doc, &["target"]);
    sort_table(t, false, &Some(strings(&["target", "x", "dependencies"])));
    assert_eq!(keys(table(&doc, &["target", "x", "dependencies"])), strings(&["a", "b"]));
}

#[test]
fn sort_table_with_a_one_segment_path_changes_nothing() {
    let input = "[target]\nb = 1\na = 1\n";
    let mut doc = parse(input);
    let t = table_mut(&mut doc, &["target"]);
    sort_table(t, false, &Some(strings(&["target"])));
    assert_eq!(doc.to_string(), input);
}

#[test]
fn sort_table_by_path_sorts_the_nested_table() {
    let mut doc = parse("[a.b]\nz = 1\ny = 1\n[a.c]\nz = 1\ny = 1\n");
    let t = table_mut(&mut doc, &["a"]);
    sort_table_by_path(t, &strings(&["b"]));
    assert_eq!(keys(table(&doc, &["a", "b"])), strings(&["y", "z"]));
    assert_eq!(keys(table(&doc, &["a", "c"])), strings(&["z", "y"]));
}

#[test]
fn sort_table_by_path_ignores_a_missing_path() {
    let input = "[a]\nz = 1\ny = 1\n";
    let mut doc = parse(input);
    let t = table_mut(&mut doc, &["a"]);
    sort_table_by_path(t, &strings(&["missing", "deeper"]));
    assert_eq!(doc.to_string(), input);
}

#[test]
fn sort_by_group_keeps_groups_apart() {
    let mut doc = parse("[d]\nb = 1\na = 1\n\nd = 1\nc = 1\n");
    let t = table_mut(&mut doc, &["d"]);
    sort_by_group(t);
    assert_eq!(keys(t), strings(&["a", "b", "c", "d"]));
    assert_eq!(doc.to_string(), "[d]\na = 1\nb = 1\n\nc = 1\nd = 1\n");
}

#[test]
fn sort_by_group_first_group_may_start_with_text() {
    let mut doc = parse("x = 0\n\n[d]\n\nb = 1\na = 1\n");
    let t = table_mut(&mut doc, &["d"]);
    sort_by_group(t);
    assert_eq!(keys(t), strings(&["a", "b"]));
}

#[test]
fn gather_headings_collects_sub_tables() {
    let doc = parse("[dependencies]\na = 1\n[dependencies.c]\nv = 1\n[dependencies.b]\nv = 1\n");
    let t = table(&doc, &["dependencies"]);
    let mut hs = vec![Heading::Complete(strings(&["dependencies"]))];
    gather_headings(t, &mut hs, 1);
    let got: Vec<(bool, Vec<String>)> = hs.iter().map(segs).collect();
    assert_eq!(
        got,
        vec![
            (true, strings(&["dependencies"])),
            (true, strings(&["dependencies", "c"])),
            (true, strings(&["dependencies", "b"])),
        ]
    );
    sort_headings(&mut hs);
    let sorted: Vec<(bool, Vec<String>)> = hs.iter().map(segs).collect();
    assert_eq!(
        sorted,
        vec![
            (true, strings(&["dependencies"])),
            (true, strings(&["dependencies", "b"])),
            (true, strings(&["dependencies", "c"])),
        ]
    );
}

#[test]
fn sort_headings_puts_pending_paths_first() {
    let mut hs = vec![
        Heading::Complete(strings(&["b"])),
        Heading::Next(strings(&["z"])),
        Heading::Complete(strings(&["a", "x"])),
        Heading::Complete(strings(&["a"])),
    ];
    sort_headings(&mut hs);
    let got: Vec<(bool, Vec<String>)> = hs.iter().map(segs).collect();
    assert_eq!(
        got,
        vec![
            (false, strings(&["z"])),
            (true, strings(&["a"])),
            (true, strings(&["a", "x"])),
            (true, strings(&["b"])),
        ]
    );
}

#[test]
fn check_gatherable_refuses_arrays_of_tables() {
    let doc = parse("[dependencies]\na = 1\n[dependencies.b]\nv = 1\n");
    assert!(check_gatherable(table(&doc, &["dependencies"]), 1));
    let doc = parse("[[dependencies.b]]\nv = 1\n");
    assert!(!check_gatherable(table(&doc, &["dependencies"]), 1));
}

#[test]
fn collect_special_tables_finds_dependency_tables() {
    let doc = parse("[target.a.dependencies]\nx = 1\n[target.b.dev-dependencies]\ny = 1\n[target.b.other]\nz = 1\n");
    let m = default_matcher();
    let mut path = strings(&["target"]);
    let mut found = Vec::new();
    collect_special_tables(table(&doc, &["target"]), &mut path, &mut found, &m);
    assert_eq!(path, strings(&["target"]));
    assert_eq!(
        found,
        vec![
            strings(&["target", "a", "dependencies"]),
            strings(&["target", "b", "dev-dependencies"]),
        ]
    );
}

#[test]
fn table_path_of_gives_the_last_dependency_table() {
    let doc = parse("[target.a.dependencies]\nx = 1\n[target.b.dev-dependencies]\ny = 1\n");
    let m = default_matcher();
    let item = doc.as_table().get("target").unwrap();
    assert_eq!(
        table_path_of(&"target".to_string(), item, &m),
        Some(strings(&["target", "b", "dev-dependencies"]))
    );
    assert_eq!(table_path_of(&"other".to_string(), item, &m), None);
    let doc = parse("[target.a.other]\nx = 1\n");
    let item = doc.as_table().get("target").unwrap();
    assert_eq!(table_path_of(&"target".to_string(), item, &m), None);
}

#[test]
fn set_position_path_reports_whether_the_table_exists() {
    let mut doc = parse("[a]\nx = 1\n[a.b]\ny = 1\n");
    let root = doc.as_table_mut();
    assert!(set_position_path(root, &strings(&["a", "b"]), 0, 7));
    assert!(!set_position_path(root, &strings(&["a", "missing"]), 0, 8));
    assert!(!set_position_path(root, &strings(&["a", "x"]), 0, 9));
    assert_eq!(table(&doc, &["a", "b"]).position(), Some(7));
}

#[test]
fn walk_numbers_tables_in_document_order() {
    let mut doc = parse("[a]\n[a.b]\nx = 1\n[a.c]\ny = 1\n[[a.d]]\n[[a.d]]\n");
    let t = table_mut(&mut doc, &["a"]);
    let mut idx = 10;
    walk_tables_set_position(t, &mut idx);
    assert_eq!(idx, 14);
    assert_eq!(table(&doc, &["a", "b"]).position(), Some(10));
    assert_eq!(table(&doc, &["a", "c"]).position(), Some(11));
    let d = doc["a"]["d"].as_array_of_tables().unwrap();
    assert_eq!(d.get(0).unwrap().position(), Some(12));
    assert_eq!(d.get(1).unwrap().position(), Some(13));
}

#[test]
fn sort_lexicographical_numbers_tables_after_the_first() {
    let mut doc = parse("[dependencies]\n[dependencies.b]\n[dependencies.a]\n");
    let lists = vec![HeadingList {
        index: 0,
        key: "dependencies".to_string(),
        headings: vec![
            Heading::Complete(strings(&["dependencies"])),
            Heading::Complete(strings(&["dependencies", "a"])),
            Heading::Complete(strings(&["dependencies", "b"])),
        ],
    }];
    sort_lexicographical(Some(1), &lists, &mut doc);
    assert_eq!(table(&doc, &["dependencies"]).position(), Some(1));
    assert_eq!(table(&doc, &["dependencies", "a"]).position(), Some(3));
    assert_eq!(table(&doc, &["dependencies", "b"]).position(), Some(4));
    assert_eq!(doc.to_string(), "[dependencies]\n[dependencies.a]\n[dependencies.b]\n");
}

#[test]
fn sort_lexicographical_numbers_later_dependency_tables() {
    let mut doc = parse("[dependencies]\n[package]\n[dev-dependencies]\n");
    let lists = vec![
        HeadingList {
            index: 0,
            key: "dependencies".to_string(),
            headings: vec![Heading::Complete(strings(&["dependencies"]))],
        },
        HeadingList {
            index: 2,
            key: "dev-dependencies".to_string(),
            headings: vec![Heading::Complete(strings(&["dev-dependencies"]))],
        },
    ];
    sort_lexicographical(Some(1), &lists, &mut doc);
    assert_eq!(table(&doc, &["dependencies"]).position(), Some(1));
    assert_eq!(table(&doc, &["package"]).position(), Some(2));
    assert_eq!(table(&doc, &["dev-dependencies"]).position(), Some(3));
}

#[test]
fn sort_by_ordering_numbers_from_zero() {
    let mut doc = parse("[package]\n[features]\n[dependencies]\n");
    let lists = vec![HeadingList {
        index: 2,
        key: "dependencies".to_string(),
        headings: vec![Heading::Complete(strings(&["dependencies"]))],
    }];
    sort_by_ordering(&strings(&["dependencies", "package", "missing", "features"]), &lists, &mut doc);
    assert_eq!(table(&doc, &["dependencies"]).position(), Some(0));
    assert_eq!(table(&doc, &["package"]).position(), Some(1));
    assert_eq!(table(&doc, &["features"]).position(), Some(2));
}

#[test]
fn sort_keyed_sorts_only_the_matcher_pairs() {
    let mut doc = parse("[workspace]\nmembers = [\"b\", \"a\"]\nother = [\"b\", \"a\"]\n");
    sort_keyed(&mut doc, &default_matcher(), false);
    assert_eq!(doc.to_string().matches("[\"b\", \"a\"]").count(), 1);
    let m: Vec<&str> = doc["workspace"]["members"].as_array().unwrap().iter().map(|v| v.as_str().unwrap()).collect();
    assert_eq!(m, vec!["a", "b"]);
}

#[test]
fn sort_document_sorts_in_place() {
    let mut doc = parse("[dependencies]\nb = 1\na = 1\n");
    sort_document(&mut doc, &default_matcher(), false, &[]);
    assert_eq!(doc.to_string(), "[dependencies]\na = 1\nb = 1\n");
}

#[test]
fn sort_by_group_example_keeps_the_blank_line_above_its_group() {
    let mut doc = parse("[dependencies]\nc = '1'\na = '1'\n\nz = '1'\nb = '1'\n");
    let t = table_mut(&mut doc, &["dependencies"]);
    sort_by_group(t);
    assert_eq!(doc.to_string(), "[dependencies]\na = '1'\nc = '1'\n\nb = '1'\nz = '1'\n");
}

#[test]
fn gather_headings_takes_depth_zero_as_one() {
    let doc = parse("[d]\n[d.x]\nv = 1\n");
    let t = table(&doc, &["d"]);
    let mut hs = vec![Heading::Complete(strings(&["d"]))];
    gather_headings(t, &mut hs, 0);
    let got: Vec<(bool, Vec<String>)> = hs.iter().map(segs).collect();
    assert_eq!(got, vec![(true, strings(&["d"])), (true, strings(&["d", "x"]))]);
}

#[test]
fn gather_headings_completes_a_pending_heading_on_a_value() {
    let doc = parse("[d]\nv = 1\n");
    let t = table(&doc, &["d"]);
    let mut hs = vec![Heading::Complete(strings(&["a"])), Heading::Next(strings(&["d"]))];
    gather_headings(t, &mut hs, 7);
    let got: Vec<(bool, Vec<String>)> = hs.iter().map(segs).collect();
    assert_eq!(got, vec![(true, strings(&["a"])), (true, strings(&["d"]))]);
}

#[test]
fn a_mixed_array_keeps_its_spacing() {
    let input = "a =   [\"c\", 2, \"a\"]   # note\n";
    let mut doc = parse(input);
    let arr = doc["a"].as_array_mut().unwrap();
    sort_array(arr);
    assert_eq!(doc.to_string(), input);
}

#[test]
fn sort_by_group_twice_is_sorting_once() {
    let mut doc = parse("[d]\n# lead\nc = 1\na = 1\n\n# second\nz = 1\nb = 1\n\n\ny = 1\nx = 1\n");
    let t = table_mut(&mut doc, &["d"]);
    sort_by_group(t);
    let once = doc.to_string();
    let t = table_mut(&mut doc, &["d"]);
    sort_by_group(t);
    assert_eq!(doc.to_string(), once);
    assert_eq!(keys(table(&doc, &["d"])), strings(&["a", "c", "b", "z", "x", "y"]));
}

#[test]
fn is_sortable_refuses_an_array_of_tables_under_dependencies() {
    let m = default_matcher();
    assert!(is_sortable(&parse("[dependencies]\na = 1\n[dependencies.b]\nv = 1\n"), &m, false));
    assert!(!is_sortable(&parse("[[dependencies.x]]\na = 1\n"), &m, false));
    assert!(is_sortable(&parse("[[bin]]\nname = 'x'\n"), &m, true));
}
