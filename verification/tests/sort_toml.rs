use cargo_sort::sort::{default_matcher, sort_toml, try_sort_toml, Matcher};
use toml_edit::DocumentMut;

fn keys_of(doc: &DocumentMut, path: &[&str]) -> Vec<String> {
    let mut table = doc.as_table();
    for seg in path {
        table = table.get(seg).unwrap().as_table().unwrap();
    }
    table.iter().map(|(k, _)| k.to_string()).collect()
}

fn strings_of(doc: &DocumentMut, table: &str, key: &str) -> Vec<String> {
    doc[table][key]
        .as_array()
        .unwrap()
        .iter()
        .map(|v| v.as_str().unwrap().to_string())
        .collect()
}

#[test]
fn dependencies_come_out_sorted() {
    let input = "[package]\nname = \"x\"\n\n[dependencies]\nb = \"1\"\na = \"1\"\nc = \"1\"\n";
    let sorted = sort_toml(input, default_matcher(), false, &[]);
    assert_eq!(
        sorted.to_string(),
        "[package]\nname = \"x\"\n\n[dependencies]\na = \"1\"\nb = \"1\"\nc = \"1\"\n"
    );
}

#[test]
fn dev_and_build_dependencies_come_out_sorted() {
    let input = "[dev-dependencies]\nzeta = \"1\"\nalpha = \"1\"\n\n[build-dependencies]\ncc = \"1\"\nbindgen = \"1\"\n";
    let sorted = sort_toml(input, default_matcher(), false, &[]);
    assert_eq!(keys_of(&sorted, &["dev-dependencies"]), vec!["alpha", "zeta"]);
    assert_eq!(keys_of(&sorted, &["build-dependencies"]), vec!["bindgen", "cc"]);
}

#[test]
fn other_tables_keep_their_order() {
    let input = "[package]\nversion = \"0.1.0\"\nname = \"x\"\n\n[dependencies]\nb = \"1\"\na = \"1\"\n";
    let sorted = sort_toml(input, default_matcher(), false, &[]);
    assert_eq!(keys_of(&sorted, &["package"]), vec!["version", "name"]);
    assert_eq!(keys_of(&sorted, &["dependencies"]), vec!["a", "b"]);
}

#[test]
fn already_sorted_input_is_unchanged() {
    let input = "[package]\nname = \"x\"\n\n[dependencies]\na = \"1\"\nb = { version = \"1\", features = [\"z\", \"a\"] }\n";
    let sorted = sort_toml(input, default_matcher(), true, &[]);
    assert_eq!(sorted.to_string(), input);
    let again = sort_toml(&sorted.to_string(), default_matcher(), true, &[]);
    assert_eq!(again.to_string(), input);
}

#[test]
fn workspace_members_come_out_sorted() {
    let input = "[workspace]\nmembers = [\"b\", \"a\", \"c\"]\nexclude = [\"z\", \"y\"]\n";
    let sorted = sort_toml(input, default_matcher(), false, &[]);
    assert_eq!(strings_of(&sorted, "workspace", "members"), vec!["a", "b", "c"]);
    assert_eq!(strings_of(&sorted, "workspace", "exclude"), vec!["y", "z"]);
}

#[test]
fn array_with_a_value_other_than_a_string_is_kept() {
    let input = "[workspace]\nmembers = [\"b\", 1, \"a\"]\n";
    let sorted = sort_toml(input, default_matcher(), false, &[]);
    assert_eq!(sorted.to_string(), input);
}

#[test]
fn array_keeps_its_trailing_comma() {
    let input = "[workspace]\nmembers = [\n    \"b\",\n    \"a\",\n]\n";
    let sorted = sort_toml(input, default_matcher(), false, &[]);
    assert_eq!(strings_of(&sorted, "workspace", "members"), vec!["a", "b"]);
    assert!(sorted["workspace"]["members"].as_array().unwrap().trailing_comma());
}

#[test]
fn workspace_dependencies_come_out_sorted() {
    let input = "[workspace.dependencies]\nserde = \"1\"\nanyhow = \"1\"\n";
    let sorted = sort_toml(input, default_matcher(), false, &[]);
    assert_eq!(keys_of(&sorted, &["workspace", "dependencies"]), vec!["anyhow", "serde"]);
}

#[test]
fn groups_are_sorted_on_their_own() {
    let input = "[dependencies]\nb = \"1\"\na = \"1\"\n\nd = \"1\"\nc = \"1\"\n";
    let sorted = sort_toml(input, default_matcher(), true, &[]);
    assert_eq!(
        sorted.to_string(),
        "[dependencies]\na = \"1\"\nb = \"1\"\n\nc = \"1\"\nd = \"1\"\n"
    );
}

#[test]
fn without_groups_the_blank_line_moves_with_its_key() {
    let input = "[dependencies]\nb = \"1\"\na = \"1\"\n\nd = \"1\"\nc = \"1\"\n";
    let sorted = sort_toml(input, default_matcher(), false, &[]);
    assert_eq!(
        sorted.to_string(),
        "[dependencies]\na = \"1\"\nb = \"1\"\nc = \"1\"\n\nd = \"1\"\n"
    );
}

#[test]
fn comment_lines_do_not_start_a_group() {
    let input = "[dependencies]\nb = \"1\"\n# a comment\na = \"1\"\n";
    let sorted = sort_toml(input, default_matcher(), true, &[]);
    assert_eq!(keys_of(&sorted, &["dependencies"]), vec!["a", "b"]);
    assert_eq!(
        sorted.to_string(),
        "[dependencies]\n# a comment\na = \"1\"\nb = \"1\"\n"
    );
}

#[test]
fn nested_dependency_headers_are_ordered() {
    let input = "[dependencies]\na = \"1\"\n\n[dependencies.c]\nversion = \"1\"\n\n[dependencies.b]\nversion = \"1\"\n";
    let sorted = sort_toml(input, default_matcher(), false, &[]);
    let text = sorted.to_string();
    let b = text.find("[dependencies.b]").unwrap();
    let c = text.find("[dependencies.c]").unwrap();
    assert!(b < c);
    assert!(text.find("[dependencies]").unwrap() < b);
}

#[test]
fn quoted_dependency_table_is_sorted_but_its_headers_keep_their_place() {
    let input = "[\"dependencies\"]\nz = \"1\"\na = \"1\"\n\n[\"dependencies\".c]\nv = \"1\"\n\n[\"dependencies\".b]\nv = \"1\"\n";
    let sorted = sort_toml(input, default_matcher(), false, &[]);
    assert_eq!(keys_of(&sorted, &["dependencies"]), vec!["a", "b", "c", "z"]);
    let text = sorted.to_string();
    assert!(text.find("[\"dependencies\".c]").unwrap() < text.find("[\"dependencies\".b]").unwrap());
}

#[test]
fn target_dependencies_come_out_sorted() {
    let input = "[package]\nname = \"x\"\n\n[target.'cfg(unix)'.dependencies]\nb = \"1\"\na = \"1\"\n";
    let sorted = sort_toml(input, default_matcher(), false, &[]);
    assert_eq!(keys_of(&sorted, &["target", "cfg(unix)", "dependencies"]), vec!["a", "b"]);
}

#[test]
fn ordering_puts_named_tables_first() {
    let input = "[package]\nname = \"x\"\n\n[dependencies]\na = \"1\"\n";
    let ordering = vec!["dependencies".to_string(), "package".to_string()];
    let sorted = sort_toml(input, default_matcher(), false, &ordering);
    let text = sorted.to_string();
    assert!(text.find("[dependencies]").unwrap() < text.find("[package]").unwrap());
}

#[test]
fn unnamed_tables_come_after_the_ordering() {
    let input = "[features]\ndefault = []\n\n[package]\nname = \"x\"\n\n[dependencies]\na = \"1\"\n";
    let ordering = vec!["package".to_string(), "dependencies".to_string()];
    let sorted = sort_toml(input, default_matcher(), false, &ordering);
    let text = sorted.to_string();
    let package = text.find("[package]").unwrap();
    let deps = text.find("[dependencies]").unwrap();
    let features = text.find("[features]").unwrap();
    assert!(package < deps);
    assert!(deps < features);
}

#[test]
fn a_custom_matcher_sorts_its_own_tables() {
    let matcher = Matcher { heading: &["features"], heading_key: &[] };
    let input = "[features]\nz = []\na = []\n\n[dependencies]\nb = \"1\"\na = \"1\"\n";
    let sorted = sort_toml(input, matcher, false, &[]);
    assert_eq!(keys_of(&sorted, &["features"]), vec!["a", "z"]);
    assert_eq!(keys_of(&sorted, &["dependencies"]), vec!["b", "a"]);
}

#[test]
fn try_sort_toml_refuses_what_does_not_parse() {
    assert!(try_sort_toml("[dependencies\na = 1", default_matcher(), false, &[]).is_none());
}

#[test]
fn try_sort_toml_refuses_an_array_of_tables_under_dependencies() {
    let input = "[[dependencies.x]]\na = 1\n";
    assert!(try_sort_toml(input, default_matcher(), false, &[]).is_none());
}

#[test]
fn try_sort_toml_sorts_what_sort_toml_sorts() {
    let input = "[dependencies]\nb = \"1\"\na = \"1\"\n";
    let sorted = try_sort_toml(input, default_matcher(), false, &[]).unwrap();
    assert_eq!(sorted.to_string(), sort_toml(input, default_matcher(), false, &[]).to_string());
    assert_eq!(keys_of(&sorted, &["dependencies"]), vec!["a", "b"]);
}

const EXAMPLE_MANIFEST: &str = "[dependencies]\na=\"0.1.1\"\n# comments will stay with the item\nc=\"0.1.1\"\n\n# If --grouped is used the blank line will stay.\nb=\"0.1.1\"\n\n[dependencies.alpha]\nversion=\"0\"\n\n[build-dependencies]\nfoo=\"0\"\nbar=\"0\"\n\n# comments will also stay with header\n[dependencies.zed]\nversion=\"0\"\n\n[dependencies.beta]\nversion=\"0\"\n\n[dev-dependencies]\nbar=\"0\"\nfoo=\"0\"\n";

#[test]
fn example_manifest_orders_headers_table_by_table() {
    let sorted = sort_toml(EXAMPLE_MANIFEST, default_matcher(), false, &[]);
    let text = sorted.to_string();
    let at = |h: &str| text.find(h).unwrap();
    assert!(at("[dependencies]\n") < at("[dependencies.alpha]"));
    assert!(at("[dependencies.alpha]") < at("[dependencies.beta]"));
    assert!(at("[dependencies.beta]") < at("[dependencies.zed]"));
    assert!(at("[dependencies.zed]") < at("[build-dependencies]"));
    assert!(at("[build-dependencies]") < at("[dev-dependencies]"));
    assert!(text.contains("# comments will also stay with header\n[dependencies.zed]"));
    assert!(text.contains("# comments will stay with the item\nc="));
    assert_eq!(keys_of(&sorted, &["dependencies"]), vec!["a", "alpha", "b", "beta", "c", "zed"]);
    assert_eq!(keys_of(&sorted, &["build-dependencies"]), vec!["bar", "foo"]);
    assert_eq!(keys_of(&sorted, &["dev-dependencies"]), vec!["bar", "foo"]);
}

#[test]
fn package_keeps_its_text_and_dependencies_are_sorted() {
    let input = "[package]\nname = 'x'\nversion = '0.1.0'\nedition = '2021'\n\n[dependencies]\nserde = '1'\nanyhow = '1'\n";
    let sorted = sort_toml(input, default_matcher(), false, &[]);
    assert_eq!(
        sorted.to_string(),
        "[package]\nname = 'x'\nversion = '0.1.0'\nedition = '2021'\n\n[dependencies]\nanyhow = '1'\nserde = '1'\n"
    );
}

#[test]
fn nested_headers_are_reordered_and_their_items_kept() {
    let input = "[dependencies]\nb = '1'\na = '1'\n\n[dependencies.zed]\nversion = '1'\nfeatures = ['x']\n\n[dependencies.alpha]\nversion = '1'\n";
    let sorted = sort_toml(input, default_matcher(), false, &[]);
    assert_eq!(
        sorted.to_string(),
        "[dependencies]\na = '1'\nb = '1'\n\n[dependencies.alpha]\nversion = '1'\n\n[dependencies.zed]\nversion = '1'\nfeatures = ['x']\n"
    );
}

#[test]
fn target_table_text_is_sorted() {
    let input = "[target.'cfg(unix)'.dependencies]\nb = '1'\na = '1'\n";
    let sorted = sort_toml(input, default_matcher(), false, &[]);
    assert_eq!(sorted.to_string(), "[target.'cfg(unix)'.dependencies]\na = '1'\nb = '1'\n");
}

#[test]
fn ordering_puts_unnamed_tables_after_the_named() {
    let input = "[dependencies]\nb = 1\na = 1\n[features]\nx = []\n[package]\nname = 'x'\n";
    let ordering = vec!["package".to_owned(), "dependencies".to_owned()];
    let sorted = sort_toml(input, default_matcher(), false, &ordering);
    assert_eq!(sorted.to_string(), "[package]\nname = 'x'\n[dependencies]\na = 1\nb = 1\n[features]\nx = []\n");
}

#[test]
fn ordering_puts_an_unnamed_dependency_table_after_the_named() {
    let input = "[dev-dependencies]\nz = 1\n[package]\nname = 'x'\n[dependencies]\na = 1\n";
    let ordering = vec!["package".to_owned(), "dependencies".to_owned()];
    let sorted = sort_toml(input, default_matcher(), false, &ordering);
    let text = sorted.to_string();
    assert!(text.find("[package]").unwrap() < text.find("[dependencies]").unwrap());
    assert!(text.find("[dependencies]").unwrap() < text.find("[dev-dependencies]").unwrap());
}

#[test]
fn inline_table_dependencies_keep_their_specs() {
    let input = "[dependencies]\nserde = { path = \"x\" }\nanyhow = { version = \"1\" }\n";
    let sorted = sort_toml(input, default_matcher(), false, &[]);
    assert_eq!(
        sorted.to_string(),
        "[dependencies]\nanyhow = { version = \"1\" }\nserde = { path = \"x\" }\n"
    );
}

#[test]
fn tables_around_the_first_dependency_table_keep_their_order() {
    let input = "cargo-features = [\"x\"]\n[package]\nname = \"x\"\n[dependencies]\na = \"1\"\n[features]\nf = []\n";
    let sorted = sort_toml(input, default_matcher(), false, &[]);
    assert_eq!(sorted.to_string(), input);
}

#[test]
fn a_key_before_the_dependencies_keeps_the_tables_in_place() {
    let input = "a = 1\n[dependencies]\nx = 1\n[package]\nname = 'x'\n";
    let sorted = sort_toml(input, default_matcher(), false, &[]);
    assert_eq!(sorted.to_string(), input);
}

#[test]
fn a_table_between_dependency_tables_stays_between_them() {
    let input = "[dependencies]\nb = '1'\na = '1'\n[dependencies.z]\nv = '1'\n[package]\nname = 'x'\n[dev-dependencies]\nx = '1'\n";
    let sorted = sort_toml(input, default_matcher(), false, &[]);
    assert_eq!(
        sorted.to_string(),
        "[dependencies]\na = '1'\nb = '1'\n[dependencies.z]\nv = '1'\n[package]\nname = 'x'\n[dev-dependencies]\nx = '1'\n"
    );
}

#[test]
fn tables_other_than_dependency_tables_keep_their_positions() {
    let input = "[package]\nname = 'x'\n[dependencies]\nb = '1'\n[dependencies.z]\n[dependencies.a]\n[features]\nf = []\n[dev-dependencies]\nx = '1'\n";
    let sorted = sort_toml(input, default_matcher(), false, &[]);
    let parsed: DocumentMut = input.parse().unwrap();
    for name in ["package", "features"] {
        assert_eq!(
            sorted[name].as_table().unwrap().position(),
            parsed[name].as_table().unwrap().position()
        );
    }
    assert_eq!(sorted["dependencies"].as_table().unwrap().position(), Some(2));
}

#[test]
fn dependency_tables_keep_the_order_of_their_entries() {
    let input = "[dev-dependencies]\nb = '1'\na = '1'\n[dependencies]\nd = '1'\nc = '1'\n";
    let sorted = sort_toml(input, default_matcher(), false, &[]);
    assert_eq!(
        sorted.to_string(),
        "[dev-dependencies]\na = '1'\nb = '1'\n[dependencies]\nc = '1'\nd = '1'\n"
    );
}
