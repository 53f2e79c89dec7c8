//! The merge of an update into a document: for each field of the update in
//! turn, the operator that its value stands for is applied at the field's
//! dot path.

use vstd::prelude::*;
use vstd::string::*;
use crate::errors::OsunbitDBError;
use crate::json::{duplicate_items, items_view, items_well_formed, Json, JsonMap, Number};
use crate::ops::{operator_of, Operator, OperatorValue};
use crate::text::texts;
use crate::utils::{
    get_path,
    get_segments,
    path_segments,
    remove_path,
    remove_segments,
    set_path,
    set_segments,
    split_path,
};
use crate::value::{Value, value_as_i64};

verus! {

/// The sum of two integers of 64 signed bits, wrapped into that range.
pub open spec fn wrapped_sum(a: i64, b: i64) -> i64 {
    if a + b > i64::MAX {
        (a + b - 0x1_0000_0000_0000_0000) as i64
    } else if a + b < i64::MIN {
        (a + b + 0x1_0000_0000_0000_0000) as i64
    } else {
        (a + b) as i64
    }
}

/// The integer at a path, and 0 where the path leads to none that fits in 64
/// signed bits.
pub open spec fn current_int(doc: Map<Seq<char>, Value>, segments: Seq<Seq<char>>) -> i64 {
    match get_path(doc, segments) {
        Some(v) => match value_as_i64(v) {
            Some(i) => i,
            None => 0,
        },
        None => 0,
    }
}

/// The items of the array at a path, and none where the path leads to no
/// array.
pub open spec fn current_items(doc: Map<Seq<char>, Value>, segments: Seq<Seq<char>>) -> Seq<Value> {
    match get_path(doc, segments) {
        Some(v) => v.items(),
        None => Seq::empty(),
    }
}

/// `existing`, followed by those of `incoming` that are not yet in it, each
/// once and in the order of `incoming`.
pub open spec fn union_values(existing: Seq<Value>, incoming: Seq<Value>) -> Seq<Value>
    decreases incoming.len(),
{
    if incoming.len() == 0 {
        existing
    } else {
        let so_far = union_values(existing, incoming.drop_last());
        if so_far.contains(incoming.last()) {
            so_far
        } else {
            so_far.push(incoming.last())
        }
    }
}

/// The test that a value is none of `removed`.
pub open spec fn keeps(removed: Seq<Value>) -> spec_fn(Value) -> bool {
    |v: Value| !removed.contains(v)
}

/// The document after one field of an update has been applied at `path`.
pub open spec fn field_applied(doc: Map<Seq<char>, Value>, path: Seq<char>, payload: Value) -> Map<
    Seq<char>,
    Value,
> {
    let segments = path_segments(path);
    match operator_of(payload) {
        OperatorValue::Literal => set_path(doc, segments, payload),
        OperatorValue::Increment(delta) => set_path(
            doc,
            segments,
            Value::Int(wrapped_sum(current_int(doc, segments), delta) as int),
        ),
        OperatorValue::Remove => remove_path(doc, segments),
        OperatorValue::ArrayUnion(incoming) => set_path(
            doc,
            segments,
            Value::Array(union_values(current_items(doc, segments), incoming)),
        ),
        OperatorValue::ArrayRemove(removed) => set_path(
            doc,
            segments,
            Value::Array(current_items(doc, segments).filter(keeps(removed))),
        ),
    }
}

/// The document after the fields of an update have been applied, first to
/// last.
pub open spec fn fields_applied(doc: Map<Seq<char>, Value>, fields: Seq<(Seq<char>, Value)>) -> Map<
    Seq<char>,
    Value,
>
    decreases fields.len(),
{
    if fields.len() == 0 {
        doc
    } else {
        field_applied(fields_applied(doc, fields.drop_last()), fields.last().0, fields.last().1)
    }
}

/// The outcome of merging an update into a stored document: a document that
/// is no object stays as it is.
pub open spec fn merged(doc: Value, fields: Seq<(Seq<char>, Value)>) -> Value {
    match doc {
        Value::Object(m) => Value::Object(fields_applied(m, fields)),
        _ => doc,
    }
}

/// Whether a value equal to `needle` is among `items`.
pub fn contains_value(items: &Vec<Json>, needle: &Json) -> (found: bool)
    ensures
        found == items_view(items@).contains(needle@),
{
    let n = items.len();
    let mut i: usize = 0;
    while i < n
        invariant
            n == items@.len(),
            i <= n,
            forall|j: int| 0 <= j < i ==> items_view(items@)[j] != needle@,
        decreases n - i,
    {
        if items[i].equals(needle) {
            assert(items_view(items@)[i as int] == needle@);
            return true;
        }
        i += 1;
    }
    false
}

/// Appends to `existing` those of `incoming` that are not yet in it.
pub fn union_into(existing: &mut Vec<Json>, incoming: &Vec<Json>)
    ensures
        items_view(final(existing)@) == union_values(
            items_view(old(existing)@),
            items_view(incoming@),
        ),
        items_well_formed(old(existing)@) && items_well_formed(incoming@) ==> items_well_formed(
            final(existing)@,
        ),
{
    let n = incoming.len();
    let mut i: usize = 0;
    assert(items_view(incoming@).subrange(0, 0) =~= Seq::<Value>::empty());
    while i < n
        invariant
            n == incoming@.len(),
            i <= n,
            items_view(existing@) == union_values(
                items_view(old(existing)@),
                items_view(incoming@).subrange(0, i as int),
            ),
            items_well_formed(old(existing)@) && items_well_formed(incoming@)
                ==> items_well_formed(existing@),
        decreases n - i,
    {
        let ghost taken = items_view(incoming@).subrange(0, i + 1);
        let ghost before = items_view(existing@);
        proof {
            assert(taken.drop_last() =~= items_view(incoming@).subrange(0, i as int));
            assert(taken.last() == incoming@[i as int]@);
        }
        if !contains_value(existing, &incoming[i]) {
            existing.push(incoming[i].duplicate());
            assert(items_view(existing@) =~= before.push(incoming@[i as int]@));
        }
        i += 1;
    }
    assert(items_view(incoming@).subrange(0, n as int) =~= items_view(incoming@));
}

/// The items of `existing` that equal none of `removed`, in their order.
pub fn without_values(existing: &Vec<Json>, removed: &Vec<Json>) -> (kept: Vec<Json>)
    ensures
        items_view(kept@) == items_view(existing@).filter(keeps(items_view(removed@))),
        items_well_formed(existing@) ==> items_well_formed(kept@),
{
    let ghost test = keeps(items_view(removed@));
    let mut kept: Vec<Json> = Vec::new();
    let n = existing.len();
    let mut i: usize = 0;
    proof {
        reveal(Seq::filter);
        assert(items_view(existing@).subrange(0, 0) =~= Seq::<Value>::empty());
        assert(items_view(kept@) =~= Seq::<Value>::empty());
    }
    while i < n
        invariant
            n == existing@.len(),
            i <= n,
            test == keeps(items_view(removed@)),
            items_view(kept@) == items_view(existing@).subrange(0, i as int).filter(test),
            items_well_formed(existing@) ==> items_well_formed(kept@),
        decreases n - i,
    {
        let ghost taken = items_view(existing@).subrange(0, i + 1);
        let ghost before = items_view(kept@);
        proof {
            reveal(Seq::filter);
            assert(taken.drop_last() =~= items_view(existing@).subrange(0, i as int));
            assert(taken.last() == existing@[i as int]@);
        }
        if !contains_value(removed, &existing[i]) {
            kept.push(existing[i].duplicate());
            assert(items_view(kept@) =~= before.push(existing@[i as int]@));
        }
        i += 1;
    }
    assert(items_view(existing@).subrange(0, n as int) =~= items_view(existing@));
    kept
}

/// The items of the array at the path `segments`, copied; none where the
/// path leads to no array.
fn items_at(obj: &JsonMap, segments: &Vec<String>) -> (items: Vec<Json>)
    ensures
        items_view(items@) == current_items(obj@, texts(segments@)),
        obj.well_formed() ==> items_well_formed(items@),
{
    assert(texts(segments@).subrange(0, segments@.len() as int) =~= texts(
        segments@,
    ));
    let found = match get_segments(obj, segments, 0) {
        Some(v) => v.as_array(),
        None => None,
    };
    match found {
        Some(items) => duplicate_items(items),
        None => {
            let none: Vec<Json> = Vec::new();
            assert(items_view(none@) =~= Seq::<Value>::empty());
            none
        },
    }
}

/// Applies one field of an update to `obj`, at the dot path `path`.
pub fn apply_field(obj: &mut JsonMap, path: &str, payload: &Json)
    ensures
        final(obj)@ == field_applied(old(obj)@, path@, payload@),
        old(obj).well_formed() && payload.well_formed() ==> final(obj).well_formed(),
{
    let segments = split_path(path);
    assert(texts(segments@).subrange(0, segments@.len() as int) =~= texts(
        segments@,
    ));
    match Operator::of(payload) {
        Operator::Literal => {
            set_segments(obj, &segments, 0, payload.duplicate());
        },
        Operator::Increment(delta) => {
            let current = match get_segments(obj, &segments, 0) {
                Some(v) => match v.as_i64() {
                    Some(i) => i,
                    None => 0,
                },
                None => 0,
            };
            let sum = current.wrapping_add(delta);
            set_segments(obj, &segments, 0, Json::Number(Number::from_i64(sum)));
        },
        Operator::Remove => {
            remove_segments(obj, &segments, 0);
        },
        Operator::ArrayUnion(incoming) => {
            let mut items = items_at(obj, &segments);
            union_into(&mut items, &incoming);
            set_segments(obj, &segments, 0, Json::Array(items));
        },
        Operator::ArrayRemove(removed) => {
            let items = items_at(obj, &segments);
            let kept = without_values(&items, &removed);
            set_segments(obj, &segments, 0, Json::Array(kept));
        },
    }
}

/// Merges the update `fields` into `doc`.
///
/// An update that is no object is refused. Otherwise a document that is an
/// object has the fields of the update applied to it, first to last, and a
/// document that is no object is handed back as it came.
pub fn merge_update(doc: Json, fields: &Json) -> (outcome: Result<Json, OsunbitDBError>)
    ensures
        match *fields {
            Json::Object(update) => outcome matches Ok(after) && after@ == merged(
                doc@,
                update.fields(),
            ) && (doc.well_formed() && fields.well_formed() ==> after.well_formed()),
            _ => outcome matches Err(e) && e is InvalidUpdate && e.cause()
                == "update fields must be an object"@,
        },
{
    let update = match fields {
        Json::Object(update) => update,
        _ => {
            return Err(OsunbitDBError::invalid_update("update fields must be an object"));
        },
    };
    let mut obj = match doc {
        Json::Object(obj) => obj,
        other => {
            return Ok(other);
        },
    };
    let n = update.entries.len();
    let mut i: usize = 0;
    assert(update.fields().subrange(0, 0) =~= Seq::<(Seq<char>, Value)>::empty());
    while i < n
        invariant
            n == update.entries@.len(),
            i <= n,
            doc@ is Object,
            obj@ == fields_applied(doc@->Object_0, update.fields().subrange(0, i as int)),
            doc.well_formed() && update.well_formed() ==> obj.well_formed(),
        decreases n - i,
    {
        proof {
            let taken = update.fields().subrange(0, i + 1);
            assert(taken.drop_last() =~= update.fields().subrange(0, i as int));
        }
        apply_field(&mut obj, update.entries[i].0.as_str(), &update.entries[i].1);
        i += 1;
    }
    assert(update.fields().subrange(0, n as int) =~= update.fields());
    Ok(Json::Object(obj))
}

} // verus!
