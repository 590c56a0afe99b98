use privilege_diff::collections::{StringMap, StringSet};
use privilege_diff::path::{path_lt_exec, PathMap};
use privilege_diff::text::decimal_string;

#[test]
fn decimal_strings_match_display() {
    for n in [0usize, 7, 10, 99, 100, 12345, usize::MAX] {
        assert_eq!(decimal_string(n), n.to_string());
    }
}

#[test]
fn string_sets_keep_sorted_distinct_values() {
    let mut set = StringSet::new();
    for value in ["b", "a", "c", "a"] {
        set.insert(value.to_owned());
    }
    assert_eq!(set.as_slice(), ["a", "b", "c"]);
    assert!(set.contains("b"));
    assert!(!set.contains("d"));
    assert_eq!(set.len(), 3);
}

#[test]
fn string_maps_replace_values_for_existing_keys() {
    let mut map: StringMap<String> = StringMap::new();
    map.insert("contents".to_owned(), "read".to_owned());
    map.insert("contents".to_owned(), "write".to_owned());
    map.insert("actions".to_owned(), "none".to_owned());
    assert_eq!(map.len(), 2);
    assert_eq!(map.get("contents").unwrap(), "write");
    assert_eq!(map.as_slice()[0].0, "actions");
}

#[test]
fn paths_order_by_components_and_keep_the_first_text() {
    assert!(path_lt_exec("a/b", "a.b"));
    assert!(path_lt_exec("a", "a/b"));
    assert!(!path_lt_exec("a//b", "a/b"));
    let mut map: PathMap<String> = PathMap::new();
    map.insert("a//b/".to_owned(), "first".to_owned());
    map.insert("a/b".to_owned(), "second".to_owned());
    assert_eq!(map.len(), 1);
    assert_eq!(map.as_slice()[0].0, "a//b/");
    assert_eq!(map.get("./a/b").map(String::as_str), None);
    assert_eq!(map.get("a/./b").unwrap(), "second");
}
