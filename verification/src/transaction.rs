//! What each operation of a transaction handle computes.
//!
//! A handle reads and writes through an engine that this crate does not
//! call. Each function here takes what the engine has handed back, where the
//! operation reads, and gives what is to be handed to the engine, where it
//! writes: the caller performs the reads and writes around it.

use vstd::prelude::*;
use vstd::string::*;
use vstd::utf8::*;
use crate::errors::OsunbitDBError;
use crate::fields::fields_put;
use crate::json::{items_view, Json, JsonMap};
use crate::keys::{
    bound_text,
    expiry_key,
    expiry_text,
    key_bound,
    key_text,
    make_key,
    prefix_start,
    prefix_text,
};
use crate::merge::{merge_update, merged};
use crate::text::{str_eq, strip_prefix, text_of, text_of_bytes, texts, without_prefix};
use crate::value::Value;

verus! {

/// A write for the engine.
#[derive(Debug)]
pub enum Write {
    /// Store a document, as JSON text, under a key.
    Document { key: Vec<u8>, document: Json },
    /// Store bytes as they are under a key.
    Raw { key: Vec<u8>, value: Vec<u8> },
}

/// A write as a mathematical value.
pub enum WriteValue {
    Document { key: Seq<u8>, document: Value },
    Raw { key: Seq<u8>, value: Seq<u8> },
}

impl View for Write {
    type V = WriteValue;

    open spec fn view(&self) -> WriteValue {
        match self {
            Write::Document { key, document } => WriteValue::Document {
                key: key@,
                document: document@,
            },
            Write::Raw { key, value } => WriteValue::Raw { key: key@, value: value@ },
        }
    }
}

impl Write {
    /// Whether the document of the write, where it has one, is well formed.
    pub open spec fn well_formed(&self) -> bool {
        match self {
            Write::Document { key, document } => document.well_formed(),
            Write::Raw { key, value } => true,
        }
    }
}

/// Whether each write of a list is well formed.
pub open spec fn writes_well_formed(writes: Seq<Write>) -> bool {
    forall|i: int| 0 <= i < writes.len() ==> (#[trigger] writes[i]).well_formed()
}

/// A document or none is well formed where the document, if there is one, is.
pub open spec fn present_well_formed(doc: Option<Json>) -> bool {
    match doc {
        Some(doc) => doc.well_formed(),
        None => true,
    }
}

/// The values of a list of writes, in order.
pub open spec fn writes_view(writes: Seq<Write>) -> Seq<WriteValue> {
    Seq::new(writes.len(), |i: int| writes[i]@)
}

/// The document that an update starts from: the stored one, and the empty
/// object where none is stored.
pub open spec fn start_value(stored: Option<Json>) -> Value {
    match stored {
        Some(doc) => doc@,
        None => Value::Object(Map::empty()),
    }
}

/// The write that indexes a document's expiry: there is one where the
/// document is an object whose field `expiryAt` is a string, and it stores
/// the id under the key `"expire:{expiryAt}:{id}"`.
pub open spec fn expiry_write(doc: Value, id: Seq<char>) -> Option<WriteValue> {
    match doc.field("expiryAt"@) {
        Some(Value::String(at)) => Some(
            WriteValue::Raw { key: encode_utf8(expiry_text(at, id)), value: encode_utf8(id) },
        ),
        _ => None,
    }
}

/// The writes of an update, in the order in which they are to be made: first
/// the merged document under the document's key, then the write that indexes
/// its expiry, where there is one.
pub open spec fn update_writes(
    collection: Seq<char>,
    id: Seq<char>,
    start: Value,
    fields: Seq<(Seq<char>, Value)>,
) -> Seq<WriteValue> {
    let document = merged(start, fields);
    let first = seq![
        WriteValue::Document { key: encode_utf8(key_text(collection, id)), document },
    ];
    match expiry_write(document, id) {
        Some(second) => first.push(second),
        None => first,
    }
}

/// A write or none, as a mathematical value.
pub open spec fn write_view(write: Option<Write>) -> Option<WriteValue> {
    match write {
        Some(w) => Some(w@),
        None => None,
    }
}

/// The write that indexes the expiry of the document `id`, where `doc` asks
/// for one.
pub fn expiry_index(doc: &Json, id: &str) -> (write: Option<Write>)
    ensures
        write_view(write) == expiry_write(doc@, id@),
{
    let at = match doc.get("expiryAt") {
        Some(v) => match v.as_str() {
            Some(at) => at,
            None => {
                return None;
            },
        },
        None => {
            return None;
        },
    };
    Some(Write::Raw { key: expiry_key(at, id), value: id.as_bytes_vec() })
}

/// Opens the update of the document `id` of `collection`: the key to read the
/// stored document from. An update that is no object is refused here, before
/// anything is read.
pub fn begin_update(collection: &str, id: &str, fields: &Json) -> (outcome: Result<
    Vec<u8>,
    OsunbitDBError,
>)
    ensures
        match *fields {
            Json::Object(_) => outcome matches Ok(key) && key@ == encode_utf8(
                key_text(collection@, id@),
            ),
            _ => outcome matches Err(e) && e is InvalidUpdate && e.cause()
                == "update fields must be an object"@,
        },
{
    match fields {
        Json::Object(_) => Ok(make_key(collection, id)),
        _ => Err(OsunbitDBError::invalid_update("update fields must be an object")),
    }
}

/// Plans the update of the document `id` of `collection`, given the document
/// `stored` that the engine holds under its key, if any.
///
/// An update that is no object is refused and nothing is to be written.
/// Otherwise the update is merged into the stored document, or into an empty
/// object where there is none, and the writes to make are, in this order:
/// the merged document under the document's key, then the entry that indexes
/// its expiry, where the merged document has one.
pub fn update(collection: &str, id: &str, stored: Option<Json>, fields: &Json) -> (outcome: Result<
    Vec<Write>,
    OsunbitDBError,
>)
    ensures
        match *fields {
            Json::Object(update) => outcome matches Ok(writes) && writes_view(writes@)
                == update_writes(collection@, id@, start_value(stored), update.fields()) && (
            present_well_formed(stored) && fields.well_formed() ==> writes_well_formed(writes@)),
            _ => outcome matches Err(e) && e is InvalidUpdate && e.cause()
                == "update fields must be an object"@,
        },
{
    let start = match stored {
        Some(doc) => doc,
        None => Json::Object(JsonMap::new()),
    };
    match merge_update(start, fields) {
        Ok(document) => {
            let expiry = expiry_index(&document, id);
            let mut writes: Vec<Write> = Vec::new();
            writes.push(Write::Document { key: make_key(collection, id), document });
            match expiry {
                Some(write) => {
                    writes.push(write);
                },
                None => {},
            }
            proof {
                if let Json::Object(update) = fields {
                    assert(writes_view(writes@) =~= update_writes(
                        collection@,
                        id@,
                        start_value(stored),
                        update.fields(),
                    ));
                }
            }
            Ok(writes)
        },
        Err(e) => Err(e),
    }
}

/// A scan for the engine: the rows whose keys lie between `lower` and
/// `upper`, both included, from the greatest key down, and no more than
/// `limit` of them.
#[derive(Debug)]
pub struct ReverseScan {
    pub lower: Vec<u8>,
    pub upper: Vec<u8>,
    pub limit: u32,
}

/// A row that the engine has handed back: its key and the document stored
/// under it, or nothing where the stored bytes are no JSON document.
#[derive(Debug)]
pub struct Row {
    pub key: Vec<u8>,
    pub value: Option<Json>,
}

/// The scan that fetches the page of `collection` that follows `cursor`.
///
/// Its range starts at the first key of the collection and ends just past
/// the cursor's key, or at the end of the collection where the cursor is
/// empty. It asks for one row more than `limit`, because the cursor's own
/// row may be among them and is dropped from the page.
pub fn scan_range(collection: &str, limit: u32, cursor: &str) -> (range: ReverseScan)
    requires
        limit < u32::MAX,
    ensures
        range.lower@ == encode_utf8(prefix_text(collection@)),
        range.upper@ == encode_utf8(bound_text(collection@, cursor@)),
        range.limit == limit + 1,
{
    ReverseScan {
        lower: prefix_start(collection),
        upper: key_bound(collection, cursor),
        limit: limit + 1,
    }
}

/// The id of the document that a key belongs to: the key's text without the
/// collection's prefix, and the key's whole text where it does not start
/// with that prefix.
pub open spec fn id_of_key(key_text: Seq<char>, collection: Seq<char>) -> Seq<char> {
    without_prefix(key_text, prefix_text(collection))
}

/// The id of the document that the key with the text `key_text` belongs to.
pub fn row_id(key_text: &str, collection: &str) -> (id: String)
    ensures
        id@ == id_of_key(key_text@, collection@),
{
    let prefix = crate::keys::collection_prefix(collection);
    strip_prefix(key_text, prefix.as_str())
}

/// The value that a row contributes to a page: its document, and null where
/// it has none.
pub open spec fn row_value(value: Option<Json>) -> Value {
    match value {
        Some(doc) => doc@,
        None => Value::Null,
    }
}

/// The id and the value of each row, in the order of the rows.
pub open spec fn listed(collection: Seq<char>, rows: Seq<Row>) -> Seq<(Seq<char>, Value)> {
    rows.map_values(
        |row: Row| (id_of_key(text_of(row.key@), collection), row_value(row.value)),
    )
}

/// The test that an entry is not the cursor's own. With the empty cursor
/// every entry passes.
pub open spec fn not_cursor(cursor: Seq<char>) -> spec_fn((Seq<char>, Value)) -> bool {
    |entry: (Seq<char>, Value)| cursor.len() == 0 || entry.0 != cursor
}

/// The first `n` of a list, and the whole list where it has fewer.
pub open spec fn first_n<A>(s: Seq<A>, n: int) -> Seq<A> {
    if 0 <= n < s.len() {
        s.take(n)
    } else {
        s
    }
}

/// The fields that result from binding each entry in turn.
pub open spec fn fields_collected(entries: Seq<(Seq<char>, Value)>) -> Seq<(Seq<char>, Value)>
    decreases entries.len(),
{
    if entries.len() == 0 {
        Seq::empty()
    } else {
        fields_put(fields_collected(entries.drop_last()), entries.last().0, entries.last().1)
    }
}

/// The fields of a page: of the rows in their order, without the cursor's
/// own, the first `limit` are bound, each id to its value.
pub open spec fn page_fields(collection: Seq<char>, limit: u32, cursor: Seq<char>, rows: Seq<Row>) -> Seq<
    (Seq<char>, Value),
> {
    fields_collected(first_n(listed(collection, rows).filter(not_cursor(cursor)), limit as int))
}

/// Makes a page of the rows that the engine has handed back for
/// `scan_range(collection, limit, cursor)`.
///
/// The page binds the id of each row to its document, in the order of the
/// rows, which is from the greatest id down. The cursor's own row is passed
/// over, and the page is full once it has taken `limit` rows.
pub fn scan_page(collection: &str, limit: u32, cursor: &str, rows: &Vec<Row>) -> (page: JsonMap)
    ensures
        page.fields() == page_fields(collection@, limit, cursor@, rows@),
        (forall|i: int| 0 <= i < rows@.len() ==> present_well_formed((#[trigger] rows@[i]).value))
            ==> page.well_formed(),
{
    let ghost test = not_cursor(cursor@);
    let ghost all = listed(collection@, rows@);
    let mut page = JsonMap::new();
    let mut count: u32 = 0;
    let n = rows.len();
    let mut i: usize = 0;
    let skip_cursor = !cursor.is_empty();
    proof {
        reveal(Seq::filter);
        assert(all.subrange(0, 0) =~= Seq::<(Seq<char>, Value)>::empty());
    }
    while i < n && count < limit
        invariant
            n == rows@.len(),
            i <= n,
            skip_cursor == (cursor@.len() != 0),
            test == not_cursor(cursor@),
            all == listed(collection@, rows@),
            count == all.subrange(0, i as int).filter(test).len(),
            count <= limit,
            page.fields() == fields_collected(all.subrange(0, i as int).filter(test)),
            (forall|i: int|
                0 <= i < rows@.len() ==> present_well_formed((#[trigger] rows@[i]).value))
                ==> page.well_formed(),
        decreases n - i,
    {
        let ghost taken = all.subrange(0, i + 1);
        let ghost kept = all.subrange(0, i as int).filter(test);
        proof {
            reveal(Seq::filter);
            assert(taken.drop_last() =~= all.subrange(0, i as int));
            assert(taken.last() == all[i as int]);
        }
        let text = text_of_bytes(rows[i].key.as_slice());
        let id = row_id(text.as_str(), collection);
        if !(skip_cursor && str_eq(id.as_str(), cursor)) {
            let value = match &rows[i].value {
                Some(doc) => doc.duplicate(),
                None => Json::Null,
            };
            page.insert(id, value);
            proof {
                assert(taken.filter(test) == kept.push(all[i as int]));
                assert(taken.filter(test).drop_last() =~= kept);
            }
            count += 1;
        }
        i += 1;
    }
    proof {
        let kept = all.subrange(0, i as int).filter(test);
        let rest = all.subrange(i as int, n as int);
        assert(all =~= all.subrange(0, i as int) + rest);
        Seq::filter_distributes_over_add(all.subrange(0, i as int), rest, test);
        let whole = all.filter(test);
        assert(whole == kept + rest.filter(test));
        if i == n {
            assert(rest =~= Seq::<(Seq<char>, Value)>::empty());
            assert(rest.filter(test) =~= Seq::<(Seq<char>, Value)>::empty()) by {
                reveal(Seq::filter);
            }
            assert(whole =~= kept);
        } else {
            assert(kept.len() == limit);
            assert(whole.take(limit as int) =~= kept);
        }
        assert(first_n(whole, limit as int) =~= kept);
    }
    page
}

/// A document to read: its id and the key that it is stored under.
#[derive(Debug)]
pub struct Lookup {
    pub id: String,
    pub key: Vec<u8>,
}

/// The test that a value is a string.
pub open spec fn is_text() -> spec_fn(Value) -> bool {
    |v: Value| v is String
}

/// The ids that a list of values names: its strings, in order. Values that
/// are no strings name nothing.
pub open spec fn named_ids(items: Seq<Value>) -> Seq<Seq<char>> {
    items.filter(is_text()).map_values(|v: Value| v->String_0)
}

/// The strings among `items`, in order.
fn string_items(items: &Vec<Json>) -> (ids: Vec<String>)
    ensures
        texts(ids@) == named_ids(items_view(items@)),
{
    let ghost all = items_view(items@);
    let ghost pick = |v: Value| v->String_0;
    let mut ids: Vec<String> = Vec::new();
    let n = items.len();
    let mut i: usize = 0;
    proof {
        reveal(Seq::filter);
        assert(all.subrange(0, 0) =~= Seq::<Value>::empty());
        assert(texts(ids@) =~= all.subrange(0, 0).filter(is_text()).map_values(pick));
    }
    while i < n
        invariant
            n == items@.len(),
            i <= n,
            all == items_view(items@),
            pick == |v: Value| v->String_0,
            texts(ids@) == all.subrange(0, i as int).filter(is_text()).map_values(pick),
        decreases n - i,
    {
        let ghost taken = all.subrange(0, i + 1);
        let ghost kept = all.subrange(0, i as int).filter(is_text());
        let ghost before = texts(ids@);
        proof {
            reveal(Seq::filter);
            assert(taken.drop_last() =~= all.subrange(0, i as int));
            assert(taken.last() == items@[i as int]@);
        }
        match items[i].as_str() {
            Some(id) => {
                ids.push(id.to_owned());
                proof {
                    assert(taken.filter(is_text()) == kept.push(all[i as int]));
                    assert(texts(ids@) =~= before.push(id@));
                    assert(kept.push(all[i as int]).map_values(pick) =~= kept.map_values(
                        pick,
                    ).push(id@));
                }
            },
            None => {},
        }
        i += 1;
    }
    assert(all.subrange(0, n as int) =~= all);
    ids
}

/// The writes of a batch of documents: one for each field, in the order of
/// the fields, the field's value under the key of the document that the
/// field's name is the id of.
pub open spec fn batch_writes(collection: Seq<char>, docs: Seq<(Seq<char>, Value)>) -> Seq<
    WriteValue,
> {
    docs.map_values(
        |doc: (Seq<char>, Value)|
            WriteValue::Document { key: encode_utf8(key_text(collection, doc.0)), document: doc.1 },
    )
}

/// Plans the writes of a batch: one for each field of `items`, in the order
/// of the fields. Items that are no object are refused.
pub fn batch_add(collection: &str, items: &Json) -> (outcome: Result<Vec<Write>, OsunbitDBError>)
    ensures
        match *items {
            Json::Object(docs) => outcome matches Ok(writes) && writes_view(writes@)
                == batch_writes(collection@, docs.fields()) && (items.well_formed()
                ==> writes_well_formed(writes@)),
            _ => outcome matches Err(e) && e is InvalidUpdate && e.cause()
                == "batch_add expects a JSON object"@,
        },
{
    let docs = match items {
        Json::Object(docs) => docs,
        _ => {
            return Err(OsunbitDBError::invalid_update("batch_add expects a JSON object"));
        },
    };
    let mut writes: Vec<Write> = Vec::new();
    let n = docs.entries.len();
    let mut i: usize = 0;
    while i < n
        invariant
            n == docs.entries@.len(),
            i <= n,
            writes@.len() == i,
            forall|j: int|
                0 <= j < i ==> (#[trigger] writes@[j])@ == batch_writes(
                    collection@,
                    docs.fields(),
                )[j],
            docs.well_formed() ==> writes_well_formed(writes@),
        decreases n - i,
    {
        writes.push(
            Write::Document {
                key: make_key(collection, docs.entries[i].0.as_str()),
                document: docs.entries[i].1.duplicate(),
            },
        );
        i += 1;
    }
    assert(writes_view(writes@) =~= batch_writes(collection@, docs.fields()));
    Ok(writes)
}

/// The ids of a list of lookups, in order.
pub open spec fn lookup_ids(lookups: Seq<Lookup>) -> Seq<Seq<char>> {
    Seq::new(lookups.len(), |i: int| lookups[i].id@)
}

/// Plans the reads of a batch: one for each string among `ids`, in their
/// order. What is no string among them is passed over; ids that are no array
/// are refused.
pub fn batch_get(collection: &str, ids: &Json) -> (outcome: Result<Vec<Lookup>, OsunbitDBError>)
    ensures
        match *ids {
            Json::Array(items) => outcome matches Ok(lookups) && {
                &&& lookup_ids(lookups@) == named_ids(items_view(items@))
                &&& forall|i: int|
                    0 <= i < lookups@.len() ==> (#[trigger] lookups@[i]).key@ == encode_utf8(
                        key_text(collection@, lookups@[i].id@),
                    )
            },
            _ => outcome matches Err(e) && e is InvalidUpdate && e.cause()
                == "batch_get expects a JSON array of ids"@,
        },
{
    let items = match ids {
        Json::Array(items) => items,
        _ => {
            return Err(OsunbitDBError::invalid_update("batch_get expects a JSON array of ids"));
        },
    };
    let mut names = string_items(items);
    let ghost wanted = texts(names@);
    let mut lookups: Vec<Lookup> = Vec::new();
    let n = names.len();
    let mut i: usize = 0;
    while i < n
        invariant
            n == names@.len(),
            i <= n,
            wanted == texts(names@),
            lookups@.len() == i,
            forall|j: int|
                0 <= j < i ==> (#[trigger] lookups@[j]).id@ == wanted[j] && lookups@[j].key@
                    == encode_utf8(key_text(collection@, wanted[j])),
        decreases n - i,
    {
        let id = names[i].clone();
        let key = make_key(collection, id.as_str());
        lookups.push(Lookup { id, key });
        i += 1;
    }
    assert(lookup_ids(lookups@) =~= wanted);
    Ok(lookups)
}

/// The entries of the documents that were found: each id with its document,
/// in the order of the reads.
pub open spec fn found_entries(found: Seq<(String, Option<Json>)>) -> Seq<(Seq<char>, Value)> {
    found.filter(|e: (String, Option<Json>)| e.1 is Some).map_values(
        |e: (String, Option<Json>)| (e.0@, row_value(e.1)),
    )
}

/// Gathers the outcome of a batch of reads: the object that binds the id of
/// each document that was found to that document, in the order of the reads.
pub fn batch_get_result(found: &Vec<(String, Option<Json>)>) -> (docs: JsonMap)
    ensures
        docs.fields() == fields_collected(found_entries(found@)),
        (forall|i: int| 0 <= i < found@.len() ==> present_well_formed((#[trigger] found@[i]).1))
            ==> docs.well_formed(),
{
    let ghost present = |e: (String, Option<Json>)| e.1 is Some;
    let ghost entry = |e: (String, Option<Json>)| (e.0@, row_value(e.1));
    let mut docs = JsonMap::new();
    let n = found.len();
    let mut i: usize = 0;
    proof {
        reveal(Seq::filter);
        assert(found@.subrange(0, 0) =~= Seq::<(String, Option<Json>)>::empty());
        assert(found@.subrange(0, 0).filter(present).map_values(entry) =~= Seq::<
            (Seq<char>, Value),
        >::empty());
    }
    while i < n
        invariant
            n == found@.len(),
            i <= n,
            present == |e: (String, Option<Json>)| e.1 is Some,
            entry == |e: (String, Option<Json>)| (e.0@, row_value(e.1)),
            docs.fields() == fields_collected(
                found@.subrange(0, i as int).filter(present).map_values(entry),
            ),
            (forall|i: int|
                0 <= i < found@.len() ==> present_well_formed((#[trigger] found@[i]).1))
                ==> docs.well_formed(),
        decreases n - i,
    {
        let ghost taken = found@.subrange(0, i + 1);
        let ghost kept = found@.subrange(0, i as int).filter(present);
        proof {
            reveal(Seq::filter);
            assert(taken.drop_last() =~= found@.subrange(0, i as int));
            assert(taken.last() == found@[i as int]);
        }
        match &found[i].1 {
            Some(doc) => {
                docs.insert(found[i].0.clone(), doc.duplicate());
                proof {
                    assert(taken.filter(present) == kept.push(found@[i as int]));
                    let after = kept.push(found@[i as int]).map_values(entry);
                    assert(after.drop_last() =~= kept.map_values(entry));
                    assert(after.last() == (found@[i as int].0@, row_value(found@[i as int].1)));
                }
            },
            None => {},
        }
        i += 1;
    }
    assert(found@.subrange(0, n as int) =~= found@);
    docs
}

/// Plans the deletes of a batch: the key of each string among `ids`, in
/// their order. What is no string among them is passed over; ids that are no
/// array are refused.
pub fn batch_delete(collection: &str, ids: &Json) -> (outcome: Result<Vec<Vec<u8>>, OsunbitDBError>)
    ensures
        match *ids {
            Json::Array(items) => outcome matches Ok(keys) && {
                &&& keys@.len() == named_ids(items_view(items@)).len()
                &&& forall|i: int|
                    0 <= i < keys@.len() ==> (#[trigger] keys@[i])@ == encode_utf8(
                        key_text(collection@, named_ids(items_view(items@))[i]),
                    )
            },
            _ => outcome matches Err(e) && e is InvalidUpdate && e.cause()
                == "batch_delete expects a JSON array of ids"@,
        },
{
    let items = match ids {
        Json::Array(items) => items,
        _ => {
            return Err(
                OsunbitDBError::invalid_update("batch_delete expects a JSON array of ids"),
            );
        },
    };
    let names = string_items(items);
    let ghost wanted = texts(names@);
    let mut keys: Vec<Vec<u8>> = Vec::new();
    let n = names.len();
    let mut i: usize = 0;
    while i < n
        invariant
            n == names@.len(),
            i <= n,
            wanted == texts(names@),
            keys@.len() == i,
            forall|j: int|
                0 <= j < i ==> (#[trigger] keys@[j])@ == encode_utf8(
                    key_text(collection@, wanted[j]),
                ),
        decreases n - i,
    {
        keys.push(make_key(collection, names[i].as_str()));
        i += 1;
    }
    Ok(keys)
}

} // verus!
