use osunbitdb::keys::{collection_prefix, expiry_key, key_bound, prefix_end, prefix_start};
use osunbitdb::make_key;

#[test]
fn make_key_joins_collection_and_id_with_a_colon() {
    assert_eq!(make_key("users", "u1"), b"users:u1".to_vec());
    assert_eq!(make_key("notifications:u1", "n1"), b"notifications:u1:n1".to_vec());
    assert_eq!(make_key("", ""), b":".to_vec());
    assert_eq!(make_key("users", ""), b"users:".to_vec());
    assert_eq!(make_key("", "u1"), b":u1".to_vec());
}

#[test]
fn make_key_encodes_text_as_utf8() {
    assert_eq!(make_key("caf\u{e9}", "\u{4e2d}"), "caf\u{e9}:\u{4e2d}".as_bytes().to_vec());
    assert_eq!(make_key("c", "\u{e9}"), vec![0x63, 0x3a, 0xc3, 0xa9]);
}

#[test]
fn the_same_key_can_come_from_two_pairs() {
    assert_eq!(make_key("a:b", "c"), make_key("a", "b:c"));
}

#[test]
fn prefix_start_is_the_collection_and_a_colon() {
    assert_eq!(prefix_start("users"), b"users:".to_vec());
    assert_eq!(prefix_start(""), b":".to_vec());
    assert_eq!(collection_prefix("users"), "users:");
}

#[test]
fn prefix_end_adds_the_last_code_point() {
    assert_eq!(prefix_end("users"), vec![0x75, 0x73, 0x65, 0x72, 0x73, 0x3a, 0xf4, 0x8f, 0xbf, 0xbf]);
    assert_eq!(prefix_end("users"), "users:\u{10FFFF}".as_bytes().to_vec());
}

#[test]
fn key_bound_stands_just_past_the_id() {
    assert_eq!(key_bound("users", "u3"), "users:u3\u{10FFFF}".as_bytes().to_vec());
    assert_eq!(key_bound("users", ""), prefix_end("users"));
    assert!(key_bound("users", "u3") > make_key("users", "u3"));
    assert!(key_bound("users", "u3") > make_key("users", "u3a"));
    assert!(key_bound("users", "u3") < make_key("users", "u4"));
}

#[test]
fn every_key_of_a_collection_lies_inside_its_range() {
    for id in ["", "a", "u1", "zzzz", "\u{e9}", "\u{ffff}", "\u{10FFFE}"] {
        let key = make_key("users", id);
        assert!(prefix_start("users") <= key);
        assert!(key < prefix_end("users"));
    }
}

#[test]
fn expiry_key_names_the_time_and_the_id() {
    assert_eq!(expiry_key("2030-01-01", "u1"), b"expire:2030-01-01:u1".to_vec());
    assert_eq!(expiry_key("", ""), b"expire::".to_vec());
}
