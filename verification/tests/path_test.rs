use osunbitdb::json::{Json, JsonMap, Number};
use osunbitdb::utils::{get_deep, remove_deep, set_deep, split_path};

fn num(i: i64) -> Json {
    Json::Number(Number::from_i64(i))
}

fn map(fields: Vec<(&str, Json)>) -> JsonMap {
    let mut m = JsonMap::new();
    for (k, v) in fields {
        m.insert(k.to_string(), v);
    }
    m
}

fn object(fields: Vec<(&str, Json)>) -> Json {
    Json::Object(map(fields))
}

#[test]
fn split_path_cuts_at_each_dot() {
    assert_eq!(split_path("a"), vec!["a"]);
    assert_eq!(split_path("a.b.c"), vec!["a", "b", "c"]);
    assert_eq!(split_path("profile.name"), vec!["profile", "name"]);
}

#[test]
fn split_path_keeps_empty_segments() {
    assert_eq!(split_path(""), vec![""]);
    assert_eq!(split_path("."), vec!["", ""]);
    assert_eq!(split_path("a."), vec!["a", ""]);
    assert_eq!(split_path(".a"), vec!["", "a"]);
    assert_eq!(split_path("a..b"), vec!["a", "", "b"]);
}

#[test]
fn split_path_counts_characters_not_bytes() {
    assert_eq!(split_path("\u{e9}t\u{e9}.\u{4e2d}\u{6587}"), vec!["\u{e9}t\u{e9}", "\u{4e2d}\u{6587}"]);
    assert_eq!(split_path("\u{10FFFF}.x"), vec!["\u{10FFFF}", "x"]);
}

#[test]
fn get_deep_walks_through_objects() {
    let m = map(vec![("a", object(vec![("b", object(vec![("c", num(7))]))])), ("x", num(1))]);
    assert_eq!(get_deep(&m, "x"), Some(&num(1)));
    assert_eq!(get_deep(&m, "a.b.c"), Some(&num(7)));
    assert_eq!(get_deep(&m, "a.b"), Some(&object(vec![("c", num(7))])));
}

#[test]
fn get_deep_is_absent_where_the_walk_fails() {
    let m = map(vec![("a", object(vec![("b", num(1))])), ("x", num(1))]);
    assert_eq!(get_deep(&m, "y"), None);
    assert_eq!(get_deep(&m, "a.c"), None);
    assert_eq!(get_deep(&m, "x.b"), None);
    assert_eq!(get_deep(&m, "a.b.c"), None);
    assert_eq!(get_deep(&m, "y.z"), None);
    assert_eq!(get_deep(&m, ""), None);
}

#[test]
fn set_deep_puts_a_top_level_field() {
    let mut m = map(vec![("x", num(1))]);
    set_deep(&mut m, "y", num(2));
    assert_eq!(m, map(vec![("x", num(1)), ("y", num(2))]));
    set_deep(&mut m, "x", num(3));
    assert_eq!(m, map(vec![("x", num(3)), ("y", num(2))]));
}

#[test]
fn set_deep_makes_the_objects_on_the_way() {
    let mut m = JsonMap::new();
    set_deep(&mut m, "a.b.c", num(7));
    assert_eq!(m, map(vec![("a", object(vec![("b", object(vec![("c", num(7))]))]))]));
}

#[test]
fn set_deep_goes_into_objects_that_are_there() {
    let mut m = map(vec![("a", object(vec![("keep", num(1))]))]);
    set_deep(&mut m, "a.b", num(2));
    assert_eq!(m, map(vec![("a", object(vec![("keep", num(1)), ("b", num(2))]))]));
}

#[test]
fn set_deep_drops_the_write_at_a_segment_that_is_no_object() {
    let before = map(vec![("a", num(1)), ("o", object(vec![("n", Json::Array(vec![]))]))]);
    let mut m = map(vec![("a", num(1)), ("o", object(vec![("n", Json::Array(vec![]))]))]);
    set_deep(&mut m, "a.b", num(2));
    assert_eq!(m, before);
    set_deep(&mut m, "a.b.c", num(2));
    assert_eq!(m, before);
    set_deep(&mut m, "o.n.x", num(2));
    assert_eq!(m, before);
}

#[test]
fn set_deep_replaces_a_value_of_any_kind_at_the_last_segment() {
    let mut m = map(vec![("a", object(vec![("b", object(vec![("c", num(7))]))]))]);
    set_deep(&mut m, "a.b", num(0));
    assert_eq!(m, map(vec![("a", object(vec![("b", num(0))]))]));
}

#[test]
fn remove_deep_takes_out_the_last_segment() {
    let mut m = map(vec![("a", object(vec![("b", num(1)), ("c", num(2))])), ("x", num(1))]);
    remove_deep(&mut m, "a.b");
    assert_eq!(m, map(vec![("a", object(vec![("c", num(2))])), ("x", num(1))]));
    remove_deep(&mut m, "x");
    assert_eq!(m, map(vec![("a", object(vec![("c", num(2))]))]));
    remove_deep(&mut m, "a");
    assert_eq!(m, JsonMap::new());
}

#[test]
fn remove_deep_changes_nothing_where_the_walk_fails() {
    let before = map(vec![("a", object(vec![("b", num(1))])), ("x", num(1))]);
    let mut m = map(vec![("a", object(vec![("b", num(1))])), ("x", num(1))]);
    remove_deep(&mut m, "missing");
    assert_eq!(m, before);
    remove_deep(&mut m, "a.missing");
    assert_eq!(m, before);
    remove_deep(&mut m, "x.b");
    assert_eq!(m, before);
    remove_deep(&mut m, "y.b");
    assert_eq!(m, before);
    remove_deep(&mut m, "a.b.c");
    assert_eq!(m, before);
}

#[test]
fn get_deep_finds_what_set_deep_put() {
    let mut m = map(vec![("a", object(vec![("k", num(1))]))]);
    set_deep(&mut m, "a.b.c", num(5));
    assert_eq!(get_deep(&m, "a.b.c"), Some(&num(5)));
    assert_eq!(get_deep(&m, "a.k"), Some(&num(1)));
}
