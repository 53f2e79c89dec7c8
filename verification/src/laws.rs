//! What holds of the merge of an update, whatever the document and the
//! update are.

use vstd::prelude::*;
use crate::merge::{
    current_int,
    current_items,
    field_applied,
    fields_applied,
    keeps,
    merged,
    union_values,
    wrapped_sum,
};
use crate::ops::{operator_of, OperatorValue};
use crate::utils::{get_path, lemma_path_segments_nonempty, path_segments, remove_path, set_path};
use crate::value::Value;

verus! {

/// Whether two paths part ways: at some position both have a segment, the
/// segments differ, and before it the paths agree. Neither path then leads
/// through the place that the other names.
pub open spec fn paths_diverge(p: Seq<Seq<char>>, q: Seq<Seq<char>>) -> bool
    decreases p.len(),
{
    p.len() > 0 && q.len() > 0 && (p[0] != q[0] || paths_diverge(p.drop_first(), q.drop_first()))
}

/// Nothing stands at any path inside the empty object.
pub proof fn lemma_get_path_empty(q: Seq<Seq<char>>)
    ensures
        get_path(Map::empty(), q) is None,
{
}

/// Putting a value at one path leaves what stands at every path that parts
/// ways with it.
pub proof fn law_set_elsewhere(
    doc: Map<Seq<char>, Value>,
    p: Seq<Seq<char>>,
    value: Value,
    q: Seq<Seq<char>>,
)
    requires
        paths_diverge(p, q),
    ensures
        get_path(set_path(doc, p, value), q) == get_path(doc, q),
    decreases p.len(),
{
    if p[0] == q[0] {
        let rest_p = p.drop_first();
        let rest_q = q.drop_first();
        assert(paths_diverge(rest_p, rest_q));
        assert(p.len() >= 2 && q.len() >= 2);
        if !doc.dom().contains(p[0]) {
            law_set_elsewhere(Map::empty(), rest_p, value, rest_q);
            lemma_get_path_empty(rest_q);
        } else {
            match doc[p[0]] {
                Value::Object(child) => {
                    law_set_elsewhere(child, rest_p, value, rest_q);
                },
                _ => {},
            }
        }
    }
}

/// Taking out what stands at one path leaves what stands at every path that
/// parts ways with it.
pub proof fn law_remove_elsewhere(doc: Map<Seq<char>, Value>, p: Seq<Seq<char>>, q: Seq<Seq<char>>)
    requires
        paths_diverge(p, q),
    ensures
        get_path(remove_path(doc, p), q) == get_path(doc, q),
    decreases p.len(),
{
    if p[0] == q[0] {
        let rest_p = p.drop_first();
        let rest_q = q.drop_first();
        assert(paths_diverge(rest_p, rest_q));
        assert(p.len() >= 2 && q.len() >= 2);
        if doc.dom().contains(p[0]) {
            match doc[p[0]] {
                Value::Object(child) => {
                    law_remove_elsewhere(child, rest_p, rest_q);
                },
                _ => {},
            }
        }
    }
}

/// Applying one field of an update, whatever its operator, leaves what
/// stands at every path that parts ways with the field's own.
pub proof fn law_field_elsewhere(
    doc: Map<Seq<char>, Value>,
    path: Seq<char>,
    payload: Value,
    q: Seq<Seq<char>>,
)
    requires
        paths_diverge(path_segments(path), q),
    ensures
        get_path(field_applied(doc, path, payload), q) == get_path(doc, q),
{
    let p = path_segments(path);
    match operator_of(payload) {
        OperatorValue::Remove => {
            law_remove_elsewhere(doc, p, q);
        },
        OperatorValue::Literal => {
            law_set_elsewhere(doc, p, payload, q);
        },
        OperatorValue::Increment(delta) => {
            law_set_elsewhere(
                doc,
                p,
                Value::Int(wrapped_sum(current_int(doc, p), delta) as int),
                q,
            );
        },
        OperatorValue::ArrayUnion(incoming) => {
            law_set_elsewhere(
                doc,
                p,
                Value::Array(
                    union_values(current_items(doc, p), incoming),
                ),
                q,
            );
        },
        OperatorValue::ArrayRemove(removed) => {
            law_set_elsewhere(
                doc,
                p,
                Value::Array(
                    current_items(doc, p).filter(keeps(removed)),
                ),
                q,
            );
        },
    }
}

/// An update leaves what stands at every path that parts ways with the path
/// of each of its fields.
pub proof fn law_update_elsewhere(
    doc: Map<Seq<char>, Value>,
    fields: Seq<(Seq<char>, Value)>,
    q: Seq<Seq<char>>,
)
    requires
        forall|i: int| 0 <= i < fields.len() ==> paths_diverge(path_segments(fields[i].0), q),
    ensures
        get_path(fields_applied(doc, fields), q) == get_path(doc, q),
    decreases fields.len(),
{
    if fields.len() > 0 {
        let before = fields.drop_last();
        assert forall|i: int| 0 <= i < before.len() implies paths_diverge(
            path_segments(before[i].0),
            q,
        ) by {
            assert(before[i] == fields[i]);
        }
        law_update_elsewhere(doc, before, q);
        law_field_elsewhere(fields_applied(doc, before), fields.last().0, fields.last().1, q);
    }
}

/// Applying one field of an update never alters a sibling: a top-level field
/// other than the one that the path starts with is there after the update
/// exactly if it was there before, with the same value.
pub proof fn law_sibling_fields_persist(
    doc: Map<Seq<char>, Value>,
    path: Seq<char>,
    payload: Value,
    sibling: Seq<char>,
)
    requires
        sibling != path_segments(path)[0],
    ensures
        field_applied(doc, path, payload).dom().contains(sibling) == doc.dom().contains(sibling),
        doc.dom().contains(sibling) ==> field_applied(doc, path, payload)[sibling] == doc[sibling],
{
    let p = path_segments(path);
    let q = seq![sibling];
    lemma_path_segments_nonempty(path);
    assert(paths_diverge(p, q));
    law_field_elsewhere(doc, path, payload, q);
}

/// Taking out a field that is not there changes nothing: where nothing
/// stands at the path, the document after the removal is the document
/// before it.
pub proof fn law_remove_absent(doc: Map<Seq<char>, Value>, p: Seq<Seq<char>>)
    requires
        get_path(doc, p) is None,
    ensures
        remove_path(doc, p) == doc,
    decreases p.len(),
{
    if p.len() == 1 {
        assert(doc.remove(p[0]) =~= doc);
    } else if p.len() >= 2 && doc.dom().contains(p[0]) {
        match doc[p[0]] {
            Value::Object(child) => {
                law_remove_absent(child, p.drop_first());
                assert(doc.insert(p[0], Value::Object(child)) =~= doc);
            },
            _ => {},
        }
    }
}

/// A field of an update that asks to take out what is not there leaves the
/// document as it was.
pub proof fn law_remove_field_absent(doc: Map<Seq<char>, Value>, path: Seq<char>, payload: Value)
    requires
        operator_of(payload) == OperatorValue::Remove,
        get_path(doc, path_segments(path)) is None,
    ensures
        field_applied(doc, path, payload) == doc,
{
    law_remove_absent(doc, path_segments(path));
}

/// An increment of a field that is not there counts from zero: the field is
/// put at its path with the increment's amount as its value.
pub proof fn law_increment_missing(
    doc: Map<Seq<char>, Value>,
    path: Seq<char>,
    payload: Value,
    amount: i64,
)
    requires
        operator_of(payload) == OperatorValue::Increment(amount),
        get_path(doc, path_segments(path)) is None,
    ensures
        field_applied(doc, path, payload) == set_path(
            doc,
            path_segments(path),
            Value::Int(amount as int),
        ),
        path_segments(path).len() == 1 ==> field_applied(doc, path, payload) == doc.insert(
            path_segments(path)[0],
            Value::Int(amount as int),
        ),
{
}

/// An update that is merged into a document which is no object leaves it as
/// it was.
pub proof fn law_only_objects_merge(doc: Value, fields: Seq<(Seq<char>, Value)>)
    requires
        !(doc is Object),
    ensures
        merged(doc, fields) == doc,
{
}

/// Whether the way to a path is blocked: a segment before the last names a
/// value that is there and is no object.
pub open spec fn path_blocked(doc: Map<Seq<char>, Value>, p: Seq<Seq<char>>) -> bool
    decreases p.len(),
{
    p.len() >= 2 && doc.dom().contains(p[0]) && match doc[p[0]] {
        Value::Object(child) => path_blocked(child, p.drop_first()),
        _ => true,
    }
}

/// What is put at a path is found there afterwards, unless the way to the
/// path is blocked: then the write is dropped and the document stays as it
/// was.
pub proof fn law_set_then_get(doc: Map<Seq<char>, Value>, p: Seq<Seq<char>>, value: Value)
    requires
        p.len() >= 1,
    ensures
        path_blocked(doc, p) ==> set_path(doc, p, value) == doc,
        !path_blocked(doc, p) ==> get_path(set_path(doc, p, value), p) == Some(value),
    decreases p.len(),
{
    if p.len() >= 2 {
        if !doc.dom().contains(p[0]) {
            law_set_then_get(Map::empty(), p.drop_first(), value);
            assert(!path_blocked(Map::empty(), p.drop_first()));
        } else {
            match doc[p[0]] {
                Value::Object(child) => {
                    law_set_then_get(child, p.drop_first(), value);
                    if path_blocked(child, p.drop_first()) {
                        assert(doc.insert(p[0], Value::Object(child)) =~= doc);
                    }
                },
                _ => {},
            }
        }
    }
}

/// Nothing is found at a path after what stood there has been taken out.
pub proof fn law_remove_then_get(doc: Map<Seq<char>, Value>, p: Seq<Seq<char>>)
    ensures
        get_path(remove_path(doc, p), p) is None,
    decreases p.len(),
{
    if p.len() >= 2 && doc.dom().contains(p[0]) {
        match doc[p[0]] {
            Value::Object(child) => {
                law_remove_then_get(child, p.drop_first());
            },
            _ => {},
        }
    }
}

/// A value that is put where another was just put replaces it: of two
/// writes to one path the second alone counts.
pub proof fn law_set_overwrites(
    doc: Map<Seq<char>, Value>,
    p: Seq<Seq<char>>,
    first: Value,
    second: Value,
)
    ensures
        set_path(set_path(doc, p, first), p, second) == set_path(doc, p, second),
    decreases p.len(),
{
    if p.len() == 1 {
        assert(doc.insert(p[0], first).insert(p[0], second) =~= doc.insert(p[0], second));
    } else if p.len() >= 2 {
        let rest = p.drop_first();
        if !doc.dom().contains(p[0]) {
            law_set_overwrites(Map::empty(), rest, first, second);
            let inner = set_path(Map::empty(), rest, first);
            assert(doc.insert(p[0], Value::Object(inner)).insert(
                p[0],
                Value::Object(set_path(inner, rest, second)),
            ) =~= doc.insert(p[0], Value::Object(set_path(Map::empty(), rest, second))));
        } else {
            match doc[p[0]] {
                Value::Object(child) => {
                    law_set_overwrites(child, rest, first, second);
                    let inner = set_path(child, rest, first);
                    assert(doc.insert(p[0], Value::Object(inner)).insert(
                        p[0],
                        Value::Object(set_path(inner, rest, second)),
                    ) =~= doc.insert(p[0], Value::Object(set_path(child, rest, second))));
                },
                _ => {},
            }
        }
    }
}

/// Wrapped sums may be taken in any grouping.
pub proof fn law_wrapped_sum_associates(a: i64, b: i64, c: i64)
    ensures
        wrapped_sum(wrapped_sum(a, b), c) == wrapped_sum(a, wrapped_sum(b, c)),
{
}

/// Increments add up: two increments of one field, one after the other,
/// leave the document as one increment by the wrapped sum of their amounts
/// does.
pub proof fn law_increments_add_up(
    doc: Map<Seq<char>, Value>,
    path: Seq<char>,
    first: Value,
    second: Value,
    both: Value,
    a: i64,
    b: i64,
)
    requires
        operator_of(first) == OperatorValue::Increment(a),
        operator_of(second) == OperatorValue::Increment(b),
        operator_of(both) == OperatorValue::Increment(wrapped_sum(a, b)),
    ensures
        field_applied(field_applied(doc, path, first), path, second) == field_applied(
            doc,
            path,
            both,
        ),
{
    let p = path_segments(path);
    let start = current_int(doc, p);
    let once = Value::Int(wrapped_sum(start, a) as int);
    lemma_path_segments_nonempty(path);
    law_set_then_get(doc, p, once);
    law_set_overwrites(doc, p, once, Value::Int(wrapped_sum(wrapped_sum(start, a), b) as int));
    law_wrapped_sum_associates(start, a, b);
    if path_blocked(doc, p) {
        law_set_then_get(doc, p, Value::Int(wrapped_sum(start, wrapped_sum(a, b)) as int));
        law_set_then_get(doc, p, Value::Int(wrapped_sum(start, b) as int));
    }
}

/// A union keeps the array that was there at its start and adds to it, so
/// that every incoming value is in the outcome, every value of the outcome
/// was there or came in, and no value is added that was there or has been
/// added before.
pub proof fn law_union(existing: Seq<Value>, incoming: Seq<Value>)
    ensures
        existing.is_prefix_of(union_values(existing, incoming)),
        forall|i: int|
            0 <= i < incoming.len() ==> union_values(existing, incoming).contains(
                #[trigger] incoming[i],
            ),
        forall|i: int|
            0 <= i < union_values(existing, incoming).len() ==> existing.contains(
                #[trigger] union_values(existing, incoming)[i],
            ) || incoming.contains(union_values(existing, incoming)[i]),
        forall|i: int, j: int|
            0 <= i < j < union_values(existing, incoming).len() && existing.len() <= j
                ==> union_values(existing, incoming)[i] != union_values(existing, incoming)[j],
    decreases incoming.len(),
{
    let all = union_values(existing, incoming);
    if incoming.len() == 0 {
        assert(existing.is_prefix_of(all));
    } else {
        let before = incoming.drop_last();
        let so_far = union_values(existing, before);
        let last = incoming.last();
        law_union(existing, before);
        assert forall|i: int| 0 <= i < incoming.len() implies all.contains(
            #[trigger] incoming[i],
        ) by {
            if i < before.len() {
                assert(before[i] == incoming[i]);
                let at = choose|at: int| 0 <= at < so_far.len() && so_far[at] == before[i];
                assert(all[at] == incoming[i]);
            } else {
                if so_far.contains(last) {
                } else {
                    assert(all[so_far.len() as int] == last);
                }
            }
        }
        assert forall|i: int| 0 <= i < all.len() implies existing.contains(#[trigger] all[i])
            || incoming.contains(all[i]) by {
            if i < so_far.len() {
                assert(all[i] == so_far[i]);
                if before.contains(so_far[i]) {
                    let at = choose|at: int| 0 <= at < before.len() && before[at] == so_far[i];
                    assert(incoming[at] == all[i]);
                }
            } else {
                assert(all[i] == last);
                assert(incoming[incoming.len() - 1] == last);
            }
        }
        assert forall|i: int, j: int|
            0 <= i < j < all.len() && existing.len() <= j implies all[i] != all[j] by {
            if j < so_far.len() {
                assert(all[i] == so_far[i] && all[j] == so_far[j]);
            } else {
                assert(all[i] == so_far[i]);
            }
        }
    }
}

/// An array removal keeps, in their order, exactly the values that equal none
/// of those to remove.
pub proof fn law_array_remove(existing: Seq<Value>, removed: Seq<Value>)
    ensures
        forall|i: int|
            0 <= i < existing.filter(keeps(removed)).len() ==> !removed.contains(
                #[trigger] existing.filter(keeps(removed))[i],
            ) && existing.contains(existing.filter(keeps(removed))[i]),
        forall|i: int|
            0 <= i < existing.len() && !removed.contains(#[trigger] existing[i])
                ==> existing.filter(keeps(removed)).contains(existing[i]),
    decreases existing.len(),
{
    reveal(Seq::filter);
    let test = keeps(removed);
    let kept = existing.filter(test);
    if existing.len() > 0 {
        let before = existing.drop_last();
        let kept_before = before.filter(test);
        let last = existing.last();
        law_array_remove(before, removed);
        assert forall|i: int| 0 <= i < kept.len() implies !removed.contains(#[trigger] kept[i])
            && existing.contains(kept[i]) by {
            if i < kept_before.len() {
                assert(kept[i] == kept_before[i]);
                let at = choose|at: int| 0 <= at < before.len() && before[at] == kept_before[i];
                assert(existing[at] == kept[i]);
            } else {
                assert(kept[i] == last);
                assert(existing[existing.len() - 1] == last);
            }
        }
        assert forall|i: int|
            0 <= i < existing.len() && !removed.contains(#[trigger] existing[i]) implies kept.contains(
            existing[i],
        ) by {
            if i < before.len() {
                assert(before[i] == existing[i]);
                let at = choose|at: int|
                    0 <= at < kept_before.len() && kept_before[at] == before[i];
                assert(kept[at] == existing[i]);
            } else {
                assert(kept[kept.len() - 1] == existing[i]);
            }
        }
    }
}

} // verus!
