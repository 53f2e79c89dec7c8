use osunbitdb::json::{Json, JsonMap, Number};

fn num(i: i64) -> Json {
    Json::Number(Number::from_i64(i))
}

fn text(s: &str) -> Json {
    Json::String(s.to_string())
}

fn object(fields: Vec<(&str, Json)>) -> Json {
    let mut m = JsonMap::new();
    for (k, v) in fields {
        m.insert(k.to_string(), v);
    }
    Json::Object(m)
}

#[test]
fn number_from_i64_picks_the_variant_by_sign() {
    assert!(matches!(Number::from_i64(7), Number::PosInt(7)));
    assert!(matches!(Number::from_i64(0), Number::PosInt(0)));
    assert!(matches!(Number::from_i64(-7), Number::NegInt(-7)));
    assert!(matches!(Number::from_i64(i64::MIN), Number::NegInt(i64::MIN)));
}

#[test]
fn number_as_i64_covers_the_signed_range_only() {
    assert_eq!(Number::PosInt(5).as_i64(), Some(5));
    assert_eq!(Number::NegInt(-5).as_i64(), Some(-5));
    assert_eq!(Number::PosInt(i64::MAX as u64).as_i64(), Some(i64::MAX));
    assert_eq!(Number::PosInt(i64::MAX as u64 + 1).as_i64(), None);
    assert_eq!(Number::PosInt(u64::MAX).as_i64(), None);
    assert_eq!(Number::Float(1.5f64.to_bits()).as_i64(), None);
    assert_eq!(Number::Float(2.0f64.to_bits()).as_i64(), None);
}

#[test]
fn numbers_are_equal_by_value() {
    assert!(Number::PosInt(3).equals(&Number::PosInt(3)));
    assert!(!Number::PosInt(3).equals(&Number::PosInt(4)));
    assert!(Number::NegInt(-3).equals(&Number::NegInt(-3)));
    assert!(!Number::NegInt(-3).equals(&Number::PosInt(3)));
    assert!(Number::NegInt(3).equals(&Number::PosInt(3)));
    assert!(Number::PosInt(3).equals(&Number::NegInt(3)));
    assert!(!Number::PosInt(3).equals(&Number::Float(3.0f64.to_bits())));
    assert!(Number::Float(1.5f64.to_bits()).equals(&Number::Float(1.5f64.to_bits())));
    assert!(!Number::Float(1.5f64.to_bits()).equals(&Number::Float(2.5f64.to_bits())));
}

#[test]
fn negative_zero_equals_zero() {
    let zero = Number::Float(0.0f64.to_bits());
    let neg_zero = Number::Float((-0.0f64).to_bits());
    assert!(zero.equals(&neg_zero));
    assert!(neg_zero.equals(&zero));
    assert_eq!(Json::Number(zero), Json::Number(neg_zero));
}

#[test]
fn new_map_is_empty() {
    let m = JsonMap::new();
    assert_eq!(m.len(), 0);
    assert!(m.get("a").is_none());
    assert!(!m.contains_key("a"));
    assert_eq!(m.index_of("a"), None);
}

#[test]
fn insert_appends_new_keys_in_order() {
    let mut m = JsonMap::new();
    m.insert("b".to_string(), num(1));
    m.insert("a".to_string(), num(2));
    m.insert("c".to_string(), num(3));
    assert_eq!(m.len(), 3);
    let keys: Vec<&str> = m.entries.iter().map(|e| e.0.as_str()).collect();
    assert_eq!(keys, vec!["b", "a", "c"]);
    assert_eq!(m.index_of("a"), Some(1));
    assert_eq!(m.get("a"), Some(&num(2)));
}

#[test]
fn insert_replaces_a_bound_key_in_place() {
    let mut m = JsonMap::new();
    m.insert("b".to_string(), num(1));
    m.insert("a".to_string(), num(2));
    m.insert("b".to_string(), num(9));
    assert_eq!(m.len(), 2);
    let keys: Vec<&str> = m.entries.iter().map(|e| e.0.as_str()).collect();
    assert_eq!(keys, vec!["b", "a"]);
    assert_eq!(m.get("b"), Some(&num(9)));
    assert_eq!(m.get("a"), Some(&num(2)));
}

#[test]
fn remove_unbinds_the_key_and_keeps_the_rest() {
    let mut m = JsonMap::new();
    m.insert("a".to_string(), num(1));
    m.insert("b".to_string(), num(2));
    m.insert("c".to_string(), num(3));
    m.remove("b");
    assert_eq!(m.len(), 2);
    assert!(m.get("b").is_none());
    assert_eq!(m.get("a"), Some(&num(1)));
    assert_eq!(m.get("c"), Some(&num(3)));
    m.remove("missing");
    assert_eq!(m.len(), 2);
}

#[test]
fn remove_takes_out_shadowed_entries_too() {
    let mut m = JsonMap {
        entries: vec![
            ("a".to_string(), num(1)),
            ("b".to_string(), num(2)),
            ("a".to_string(), num(3)),
        ],
    };
    assert_eq!(m.get("a"), Some(&num(1)));
    m.remove("a");
    assert!(m.get("a").is_none());
    assert_eq!(m.len(), 1);
    assert_eq!(m.get("b"), Some(&num(2)));
}

#[test]
fn objects_are_equal_whatever_the_order_of_their_fields() {
    let a = object(vec![("x", num(1)), ("y", text("t"))]);
    let b = object(vec![("y", text("t")), ("x", num(1))]);
    assert_eq!(a, b);
    assert!(a.equals(&b));
}

#[test]
fn objects_differ_by_a_key_or_a_value() {
    let a = object(vec![("x", num(1)), ("y", num(2))]);
    assert_ne!(a, object(vec![("x", num(1))]));
    assert_ne!(a, object(vec![("x", num(1)), ("z", num(2))]));
    assert_ne!(a, object(vec![("x", num(1)), ("y", num(3))]));
    assert_ne!(object(vec![("x", num(1))]), a);
    assert_ne!(object(vec![]), a);
    assert_eq!(object(vec![]), object(vec![]));
}

#[test]
fn a_shadowed_entry_does_not_count_in_equality() {
    let shadowed = Json::Object(JsonMap {
        entries: vec![("a".to_string(), num(1)), ("a".to_string(), num(2))],
    });
    assert_eq!(shadowed, object(vec![("a", num(1))]));
    assert_eq!(object(vec![("a", num(1))]), shadowed);
    assert_ne!(shadowed, object(vec![("a", num(2))]));
}

#[test]
fn arrays_are_equal_position_by_position() {
    let a = Json::Array(vec![num(1), num(2)]);
    assert_eq!(a, Json::Array(vec![num(1), num(2)]));
    assert_ne!(a, Json::Array(vec![num(2), num(1)]));
    assert_ne!(a, Json::Array(vec![num(1)]));
    assert_ne!(a, Json::Array(vec![num(1), num(2), num(3)]));
}

#[test]
fn values_of_different_kinds_differ() {
    assert_ne!(Json::Null, Json::Bool(false));
    assert_ne!(num(0), Json::Bool(false));
    assert_ne!(text("1"), num(1));
    assert_ne!(Json::Array(vec![]), object(vec![]));
    assert_eq!(Json::Null, Json::Null);
    assert_eq!(Json::Bool(true), Json::Bool(true));
    assert_ne!(Json::Bool(true), Json::Bool(false));
    assert_eq!(text("a"), text("a"));
    assert_ne!(text("a"), text("b"));
    assert_ne!(text("a"), text("ab"));
}

#[test]
fn nested_documents_compare_by_value() {
    let a = object(vec![
        ("user", object(vec![("name", text("Alice")), ("tags", Json::Array(vec![text("x")]))])),
        ("n", num(1)),
    ]);
    let b = object(vec![
        ("n", num(1)),
        ("user", object(vec![("tags", Json::Array(vec![text("x")])), ("name", text("Alice"))])),
    ]);
    assert_eq!(a, b);
    let c = object(vec![
        ("n", num(1)),
        ("user", object(vec![("tags", Json::Array(vec![text("y")])), ("name", text("Alice"))])),
    ]);
    assert_ne!(a, c);
}

#[test]
fn duplicate_copies_the_whole_tree() {
    let a = object(vec![
        ("user", object(vec![("name", text("Alice")), ("tags", Json::Array(vec![text("x"), Json::Null]))])),
        ("n", Json::Number(Number::Float(1.5f64.to_bits()))),
        ("ok", Json::Bool(true)),
    ]);
    let b = a.duplicate();
    assert_eq!(a, b);
    let keys: Vec<&str> = match &b {
        Json::Object(m) => m.entries.iter().map(|e| e.0.as_str()).collect(),
        _ => panic!("an object is copied as an object"),
    };
    assert_eq!(keys, vec!["user", "n", "ok"]);
}

#[test]
fn accessors_read_each_kind() {
    let doc = object(vec![("a", num(1)), ("s", text("hi")), ("l", Json::Array(vec![num(1)]))]);
    assert_eq!(doc.get("a"), Some(&num(1)));
    assert!(doc.get("zz").is_none());
    assert!(num(1).get("a").is_none());
    assert_eq!(text("hi").as_str(), Some("hi"));
    assert_eq!(num(1).as_str(), None);
    assert_eq!(num(-4).as_i64(), Some(-4));
    assert_eq!(text("4").as_i64(), None);
    assert_eq!(Json::Array(vec![num(1)]).as_array().map(|v| v.len()), Some(1));
    assert!(num(1).as_array().is_none());
    assert_eq!(doc.as_object().map(|m| m.len()), Some(3));
    assert!(num(1).as_object().is_none());
}
