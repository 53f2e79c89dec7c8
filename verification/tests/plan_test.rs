use osunbitdb::client::{Ending, Operation};
use osunbitdb::errors::OsunbitDBError;
use osunbitdb::json::{Json, JsonMap, Number};
use osunbitdb::ops::increment;
use osunbitdb::transaction::{
    batch_add, batch_delete, batch_get, batch_get_result, begin_update, expiry_index, row_id,
    scan_page, scan_range, update, Row, Write,
};

fn num(i: i64) -> Json {
    Json::Number(Number::from_i64(i))
}

fn text(s: &str) -> Json {
    Json::String(s.to_string())
}

fn map(fields: Vec<(&str, Json)>) -> JsonMap {
    let mut m = JsonMap::new();
    for (k, v) in fields {
        m.insert(k.to_string(), v);
    }
    m
}

fn object(fields: Vec<(&str, Json)>) -> Json {
    Json::Object(map(fields))
}

fn row(key: &str, value: Json) -> Row {
    Row { key: key.as_bytes().to_vec(), value: Some(value) }
}

fn ids(page: &JsonMap) -> Vec<&str> {
    page.entries.iter().map(|e| e.0.as_str()).collect()
}

fn invalid(reason: &str) -> OsunbitDBError {
    OsunbitDBError::InvalidUpdate(reason.to_string())
}

fn document_write(write: &Write) -> (&[u8], &Json) {
    match write {
        Write::Document { key, document } => (key.as_slice(), document),
        other => panic!("not a document: {:?}", other),
    }
}

fn raw_write(write: &Write) -> (&[u8], &[u8]) {
    match write {
        Write::Raw { key, value } => (key.as_slice(), value.as_slice()),
        other => panic!("not raw: {:?}", other),
    }
}

#[test]
fn begin_update_gives_the_key_to_read() {
    assert_eq!(begin_update("users", "u1", &object(vec![])), Ok(b"users:u1".to_vec()));
    assert_eq!(begin_update("users", "u1", &object(vec![("a", num(1))])), Ok(b"users:u1".to_vec()));
}

#[test]
fn begin_update_refuses_fields_that_are_no_object() {
    for fields in [num(1), text("x"), Json::Null, Json::Array(vec![]), Json::Bool(false)] {
        assert_eq!(begin_update("users", "u1", &fields), Err(invalid("update fields must be an object")));
    }
}

#[test]
fn update_merges_into_the_stored_document() {
    let stored = object(vec![("name", text("Alice")), ("balance", num(100))]);
    let writes = update("users", "u1", Some(stored), &object(vec![("balance", increment(50))])).unwrap();
    assert_eq!(writes.len(), 1);
    let (key, document) = document_write(&writes[0]);
    assert_eq!(key, b"users:u1");
    assert_eq!(document, &object(vec![("name", text("Alice")), ("balance", num(150))]));
}

#[test]
fn update_starts_from_an_empty_object_where_nothing_is_stored() {
    let writes = update("users", "u9", None, &object(vec![("n", increment(2)), ("a.b", text("x"))])).unwrap();
    assert_eq!(writes.len(), 1);
    let (key, document) = document_write(&writes[0]);
    assert_eq!(key, b"users:u9");
    assert_eq!(document, &object(vec![("n", num(2)), ("a", object(vec![("b", text("x"))]))]));
    let writes = update("users", "u9", None, &object(vec![])).unwrap();
    assert_eq!(document_write(&writes[0]).1, &object(vec![]));
}

#[test]
fn update_refuses_fields_that_are_no_object() {
    let stored = object(vec![("balance", num(100))]);
    for fields in [num(1), text("x"), Json::Null, Json::Array(vec![]), Json::Bool(false)] {
        let outcome = update("users", "u1", Some(stored.duplicate()), &fields);
        assert_eq!(outcome.err(), Some(invalid("update fields must be an object")));
        let outcome = update("users", "u1", None, &fields);
        assert_eq!(outcome.err(), Some(invalid("update fields must be an object")));
        let outcome = update("users", "u1", Some(num(1)), &fields);
        assert_eq!(outcome.err(), Some(invalid("update fields must be an object")));
    }
}

#[test]
fn update_writes_back_a_stored_document_that_is_no_object() {
    let writes = update("users", "u1", Some(num(7)), &object(vec![("a", num(1))])).unwrap();
    assert_eq!(writes.len(), 1);
    assert_eq!(document_write(&writes[0]), (&b"users:u1"[..], &num(7)));
}

#[test]
fn update_writes_the_document_and_then_the_expiry_of_the_merged_document() {
    let stored = object(vec![("name", text("Alice"))]);
    let writes = update("sessions", "s1", Some(stored), &object(vec![("expiryAt", text("2030-01-01T00:00:00Z"))])).unwrap();
    assert_eq!(writes.len(), 2);
    let (key, document) = document_write(&writes[0]);
    assert_eq!(key, b"sessions:s1");
    assert_eq!(document, &object(vec![("name", text("Alice")), ("expiryAt", text("2030-01-01T00:00:00Z"))]));
    assert_eq!(raw_write(&writes[1]), (&b"expire:2030-01-01T00:00:00Z:s1"[..], &b"s1"[..]));
}

#[test]
fn update_indexes_an_expiry_that_was_stored_before() {
    let stored = object(vec![("expiryAt", text("t9")), ("n", num(1))]);
    let writes = update("sessions", "s2", Some(stored), &object(vec![("n", increment(1))])).unwrap();
    assert_eq!(writes.len(), 2);
    assert_eq!(raw_write(&writes[1]), (&b"expire:t9:s2"[..], &b"s2"[..]));
}

#[test]
fn update_drops_the_index_entry_with_the_expiry() {
    let stored = object(vec![("expiryAt", text("t9")), ("n", num(1))]);
    let writes = update("sessions", "s2", Some(stored), &object(vec![("expiryAt", osunbitdb::ops::remove())])).unwrap();
    assert_eq!(writes.len(), 1);
    assert_eq!(document_write(&writes[0]).1, &object(vec![("n", num(1))]));
}

#[test]
fn expiry_index_wants_a_top_level_string() {
    assert!(expiry_index(&object(vec![("expiryAt", num(5))]), "s1").is_none());
    assert!(expiry_index(&object(vec![("expiryAt", Json::Null)]), "s1").is_none());
    assert!(expiry_index(&object(vec![("meta", object(vec![("expiryAt", text("t"))]))]), "s1").is_none());
    assert!(expiry_index(&object(vec![]), "s1").is_none());
    assert!(expiry_index(&text("expiryAt"), "s1").is_none());
    let write = expiry_index(&object(vec![("expiryAt", text(""))]), "\u{e9}").unwrap();
    assert_eq!(raw_write(&write), ("expire::\u{e9}".as_bytes(), "\u{e9}".as_bytes()));
}

#[test]
fn scan_range_without_a_cursor_covers_the_collection() {
    let range = scan_range("users", 2, "");
    assert_eq!(range.lower, b"users:".to_vec());
    assert_eq!(range.upper, "users:\u{10FFFF}".as_bytes().to_vec());
    assert_eq!(range.limit, 3);
}

#[test]
fn scan_range_with_a_cursor_ends_just_past_it() {
    let range = scan_range("users", 10, "u3");
    assert_eq!(range.lower, b"users:".to_vec());
    assert_eq!(range.upper, "users:u3\u{10FFFF}".as_bytes().to_vec());
    assert_eq!(range.limit, 11);
    assert_eq!(scan_range("users", 0, "").limit, 1);
    assert_eq!(scan_range("users", u32::MAX - 1, "").limit, u32::MAX);
}

#[test]
fn row_id_strips_the_prefix_of_the_collection() {
    assert_eq!(row_id("users:u1", "users"), "u1");
    assert_eq!(row_id("users:", "users"), "");
    assert_eq!(row_id("users:a:b", "users"), "a:b");
    assert_eq!(row_id("users:user:x", "user"), "users:user:x");
    assert_eq!(row_id("other:u1", "users"), "other:u1");
    assert_eq!(row_id("user", "users"), "user");
    assert_eq!(row_id("", "users"), "");
    assert_eq!(row_id(":x", ""), "x");
    assert_eq!(row_id("caf\u{e9}:\u{4e2d}\u{6587}", "caf\u{e9}"), "\u{4e2d}\u{6587}");
}

#[test]
fn scan_page_binds_ids_in_the_order_of_the_rows() {
    let rows = vec![row("users:u5", num(5)), row("users:u4", num(4)), row("users:u3", num(3))];
    let page = scan_page("users", 2, "", &rows);
    assert_eq!(ids(&page), vec!["u5", "u4"]);
    assert_eq!(page.get("u5"), Some(&num(5)));
    assert_eq!(page.get("u4"), Some(&num(4)));
}

#[test]
fn scan_page_passes_over_the_row_of_the_cursor() {
    let rows = vec![row("users:u4", num(4)), row("users:u3", num(3)), row("users:u2", num(2))];
    let page = scan_page("users", 2, "u4", &rows);
    assert_eq!(ids(&page), vec!["u3", "u2"]);
    let rows = vec![row("users:u3", num(3)), row("users:u2", num(2)), row("users:u1", num(1))];
    let page = scan_page("users", 2, "u4", &rows);
    assert_eq!(ids(&page), vec!["u3", "u2"]);
}

#[test]
fn scan_page_takes_what_there_is_where_rows_run_out() {
    let rows = vec![row("users:u1", num(1))];
    assert_eq!(ids(&scan_page("users", 5, "", &rows)), vec!["u1"]);
    assert_eq!(ids(&scan_page("users", 5, "u1", &rows)), Vec::<&str>::new());
    assert_eq!(ids(&scan_page("users", 5, "", &vec![])), Vec::<&str>::new());
}

#[test]
fn scan_page_with_limit_zero_is_empty() {
    let rows = vec![row("users:u1", num(1))];
    assert_eq!(scan_page("users", 0, "", &rows).len(), 0);
}

#[test]
fn scan_page_reads_a_row_without_a_document_as_null() {
    let rows = vec![Row { key: b"users:u2".to_vec(), value: None }, row("users:u1", num(1))];
    let page = scan_page("users", 5, "", &rows);
    assert_eq!(ids(&page), vec!["u2", "u1"]);
    assert_eq!(page.get("u2"), Some(&Json::Null));
}

#[test]
fn scan_page_reads_bytes_that_are_no_text_with_the_replacement_character() {
    let rows = vec![
        Row { key: vec![0x75, 0x73, 0x65, 0x72, 0x73, 0x3a, 0xff, 0x31], value: Some(num(1)) },
        Row { key: vec![0xff, 0x73], value: Some(num(2)) },
    ];
    let page = scan_page("users", 5, "", &rows);
    assert_eq!(ids(&page), vec!["\u{FFFD}1", "\u{FFFD}s"]);
}

#[test]
fn scan_page_keeps_the_whole_key_where_the_prefix_is_missing() {
    let rows = vec![row("other:u1", num(1)), row("users:u1", num(2))];
    let page = scan_page("users", 5, "", &rows);
    assert_eq!(ids(&page), vec!["other:u1", "u1"]);
}

#[test]
fn scan_page_counts_a_repeated_id_each_time() {
    let rows = vec![row("users:u2", num(1)), row("users:u2", num(2)), row("users:u1", num(3))];
    let page = scan_page("users", 2, "", &rows);
    assert_eq!(ids(&page), vec!["u2"]);
    assert_eq!(page.get("u2"), Some(&num(2)));
}

#[test]
fn batch_add_plans_one_write_for_each_field() {
    let items = object(vec![
        ("tx1", object(vec![("amount", num(100))])),
        ("tx2", object(vec![("amount", num(200))])),
        ("tx3", num(3)),
    ]);
    let writes = batch_add("transactions:u1", &items).unwrap();
    assert_eq!(writes.len(), 3);
    assert_eq!(document_write(&writes[0]), (&b"transactions:u1:tx1"[..], &object(vec![("amount", num(100))])));
    assert_eq!(document_write(&writes[1]), (&b"transactions:u1:tx2"[..], &object(vec![("amount", num(200))])));
    assert_eq!(document_write(&writes[2]), (&b"transactions:u1:tx3"[..], &num(3)));
    assert_eq!(batch_add("c", &object(vec![])).unwrap().len(), 0);
}

#[test]
fn batch_add_refuses_items_that_are_no_object() {
    for items in [Json::Array(vec![text("a")]), num(1), Json::Null, text("x")] {
        let outcome = batch_add("c", &items);
        assert_eq!(outcome.err(), Some(invalid("batch_add expects a JSON object")));
    }
}

#[test]
fn batch_get_plans_one_read_for_each_string() {
    let wanted = Json::Array(vec![text("tx1"), num(5), text("tx2"), Json::Null, text("tx1")]);
    let lookups = batch_get("transactions:u1", &wanted).unwrap();
    let names: Vec<&str> = lookups.iter().map(|l| l.id.as_str()).collect();
    assert_eq!(names, vec!["tx1", "tx2", "tx1"]);
    assert_eq!(lookups[0].key, b"transactions:u1:tx1".to_vec());
    assert_eq!(lookups[1].key, b"transactions:u1:tx2".to_vec());
    assert_eq!(lookups[2].key, b"transactions:u1:tx1".to_vec());
    assert_eq!(batch_get("c", &Json::Array(vec![])).unwrap().len(), 0);
}

#[test]
fn batch_get_refuses_ids_that_are_no_array() {
    for wanted in [object(vec![("a", num(1))]), num(1), Json::Null, text("x")] {
        let outcome = batch_get("c", &wanted);
        assert_eq!(outcome.err(), Some(invalid("batch_get expects a JSON array of ids")));
    }
}

#[test]
fn batch_get_result_binds_what_was_found() {
    let found = vec![
        ("tx1".to_string(), Some(num(1))),
        ("tx2".to_string(), None),
        ("tx3".to_string(), Some(num(3))),
    ];
    let docs = batch_get_result(&found);
    assert_eq!(ids(&docs), vec!["tx1", "tx3"]);
    assert_eq!(docs.get("tx1"), Some(&num(1)));
    assert_eq!(docs.get("tx3"), Some(&num(3)));
    assert!(docs.get("tx2").is_none());
    assert_eq!(batch_get_result(&vec![]).len(), 0);
    let again = vec![("a".to_string(), Some(num(1))), ("b".to_string(), Some(num(2))), ("a".to_string(), Some(num(3)))];
    let docs = batch_get_result(&again);
    assert_eq!(ids(&docs), vec!["a", "b"]);
    assert_eq!(docs.get("a"), Some(&num(3)));
}

#[test]
fn batch_delete_plans_one_delete_for_each_string() {
    let wanted = Json::Array(vec![text("tx1"), Json::Bool(true), text("tx2")]);
    let keys = batch_delete("transactions:u1", &wanted).unwrap();
    assert_eq!(keys, vec![b"transactions:u1:tx1".to_vec(), b"transactions:u1:tx2".to_vec()]);
    assert_eq!(batch_delete("c", &Json::Array(vec![num(1)])).unwrap().len(), 0);
}

#[test]
fn batch_delete_refuses_ids_that_are_no_array() {
    for wanted in [object(vec![]), num(1), Json::Null, text("x")] {
        let outcome = batch_delete("c", &wanted);
        assert_eq!(outcome.err(), Some(invalid("batch_delete expects a JSON array of ids")));
    }
}

#[test]
fn an_error_has_its_message() {
    assert_eq!(
        invalid("update fields must be an object").message(),
        "Invalid update: update fields must be an object"
    );
    assert_eq!(invalid("").message(), "Invalid update: ");
    assert_eq!(OsunbitDBError::invalid_update("why"), invalid("why"));
}

#[test]
fn the_client_commits_what_writes_and_rolls_back_what_reads() {
    assert_eq!(Operation::Add.ending(), Ending::Commit);
    assert_eq!(Operation::Delete.ending(), Ending::Commit);
    assert_eq!(Operation::Update.ending(), Ending::Commit);
    assert_eq!(Operation::BatchAdd.ending(), Ending::Commit);
    assert_eq!(Operation::BatchDelete.ending(), Ending::Commit);
    assert_eq!(Operation::Get.ending(), Ending::Rollback);
    assert_eq!(Operation::Scan.ending(), Ending::Rollback);
    assert_eq!(Operation::BatchGet.ending(), Ending::Rollback);
}
