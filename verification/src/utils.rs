//! Dot-path addressing inside a JSON object tree.

use vstd::prelude::*;
use vstd::string::*;
use crate::fields::{field_keys, lemma_map_of_replace};
use crate::json::{entries_well_formed, entry_fields, Json, JsonMap};
use crate::text::texts;
use crate::value::Value;

verus! {

/// The segments of a dot path: what stands between its dots. A path without
/// a dot is one segment, and the empty path is one empty segment.
pub open spec fn path_segments(path: Seq<char>) -> Seq<Seq<char>>
    decreases path.len(),
{
    if path.len() == 0 {
        seq![Seq::<char>::empty()]
    } else {
        let before = path_segments(path.drop_last());
        if path.last() == '.' {
            before.push(Seq::<char>::empty())
        } else {
            before.update(before.len() - 1, before.last().push(path.last()))
        }
    }
}

/// A path has at least one segment.
pub proof fn lemma_path_segments_nonempty(path: Seq<char>)
    ensures
        path_segments(path).len() >= 1,
    decreases path.len(),
{
    if path.len() > 0 {
        lemma_path_segments_nonempty(path.drop_last());
    }
}

/// A path without a dot is a single segment: itself.
pub proof fn law_path_without_dot(path: Seq<char>)
    requires
        !path.contains('.'),
    ensures
        path_segments(path) == seq![path],
    decreases path.len(),
{
    if path.len() == 0 {
        assert(path =~= Seq::<char>::empty());
    } else {
        let before = path.drop_last();
        assert(!before.contains('.')) by {
            if before.contains('.') {
                let i = choose|i: int| 0 <= i < before.len() && before[i] == '.';
                assert(path[i] == '.');
            }
        }
        assert(path.last() != '.') by {
            assert(path[path.len() - 1] == path.last());
        }
        law_path_without_dot(before);
        assert(before.push(path.last()) =~= path);
        assert(seq![before].update(0, before.push(path.last())) =~= seq![path]);
    }
}

/// The segments of two paths joined by a dot are those of the first followed
/// by those of the second.
pub proof fn law_path_joined(a: Seq<char>, b: Seq<char>)
    ensures
        path_segments(a + seq!['.'] + b) == path_segments(a) + path_segments(b),
    decreases b.len(),
{
    let dotted = a + seq!['.'];
    lemma_path_segments_nonempty(a);
    if b.len() == 0 {
        assert(dotted + b =~= dotted);
        assert(dotted.drop_last() =~= a);
        assert(path_segments(b) =~= seq![Seq::<char>::empty()]);
        assert(path_segments(a).push(Seq::<char>::empty()) =~= path_segments(a) + path_segments(b));
    } else {
        let whole = dotted + b;
        assert(whole.drop_last() =~= dotted + b.drop_last());
        assert(whole.last() == b.last());
        law_path_joined(a, b.drop_last());
        lemma_path_segments_nonempty(b.drop_last());
        let left = path_segments(a);
        let right = path_segments(b.drop_last());
        if b.last() == '.' {
            assert((left + right).push(Seq::<char>::empty()) =~= left + right.push(
                Seq::<char>::empty(),
            ));
        } else {
            assert((left + right).update(
                (left + right).len() - 1,
                (left + right).last().push(b.last()),
            ) =~= left + right.update(right.len() - 1, right.last().push(b.last())));
        }
    }
}

/// Splits a dot path into its segments.
pub fn split_path(path: &str) -> (segments: Vec<String>)
    ensures
        texts(segments@) == path_segments(path@),
        segments@.len() >= 1,
{
    let n = path.unicode_len();
    let mut segments: Vec<String> = Vec::new();
    let mut start: usize = 0;
    let mut i: usize = 0;
    assert(path@.subrange(0, 0) =~= Seq::<char>::empty());
    assert(path_segments(path@.subrange(0, 0)) =~= texts(segments@).push(path@.subrange(0, 0)));
    for c in chars: path.chars()
        invariant
            chars.seq() == path@,
            n == path@.len(),
            i == chars.index(),
            start <= i <= n,
            path_segments(path@.subrange(0, i as int)) == texts(segments@).push(
                path@.subrange(start as int, i as int),
            ),
    {
        let ghost prefix = path@.subrange(0, i as int);
        let ghost longer = path@.subrange(0, i + 1);
        let ghost done = texts(segments@);
        proof {
            assert(longer.drop_last() =~= prefix);
            assert(longer.last() == c);
        }
        if c == '.' {
            segments.push(path.substring_char(start, i).to_owned());
            proof {
                assert(texts(segments@) =~= done.push(path@.subrange(start as int, i as int)));
                assert(path@.subrange(i + 1, i + 1) =~= Seq::<char>::empty());
            }
            start = i + 1;
        } else {
            proof {
                assert(path@.subrange(start as int, i + 1) =~= path@.subrange(
                    start as int,
                    i as int,
                ).push(c));
                assert(done.push(path@.subrange(start as int, i as int)).update(
                    done.len() as int,
                    path@.subrange(start as int, i + 1),
                ) =~= done.push(path@.subrange(start as int, i + 1)));
            }
        }
        i += 1;
    }
    let ghost done = texts(segments@);
    segments.push(path.substring_char(start, n).to_owned());
    proof {
        assert(path@.subrange(0, n as int) =~= path@);
        assert(texts(segments@) =~= done.push(path@.subrange(start as int, n as int)));
    }
    segments
}

/// The value at a path inside an object: each segment but the last has to
/// name an object, and the last names the value.
pub open spec fn get_path(obj: Map<Seq<char>, Value>, segments: Seq<Seq<char>>) -> Option<Value>
    decreases segments.len(),
{
    if segments.len() == 0 {
        None
    } else if !obj.dom().contains(segments[0]) {
        None
    } else if segments.len() == 1 {
        Some(obj[segments[0]])
    } else {
        match obj[segments[0]] {
            Value::Object(child) => get_path(child, segments.drop_first()),
            _ => None,
        }
    }
}

/// The object with `value` put at a path. A missing segment on the way
/// becomes an object; where a segment on the way names something that is not
/// an object, nothing changes.
pub open spec fn set_path(obj: Map<Seq<char>, Value>, segments: Seq<Seq<char>>, value: Value) -> Map<
    Seq<char>,
    Value,
>
    decreases segments.len(),
{
    if segments.len() == 0 {
        obj
    } else if segments.len() == 1 {
        obj.insert(segments[0], value)
    } else if !obj.dom().contains(segments[0]) {
        obj.insert(
            segments[0],
            Value::Object(set_path(Map::empty(), segments.drop_first(), value)),
        )
    } else {
        match obj[segments[0]] {
            Value::Object(child) => obj.insert(
                segments[0],
                Value::Object(set_path(child, segments.drop_first(), value)),
            ),
            _ => obj,
        }
    }
}

/// The object without what stands at a path. Where a segment on the way is
/// missing or names something that is not an object, nothing changes.
pub open spec fn remove_path(obj: Map<Seq<char>, Value>, segments: Seq<Seq<char>>) -> Map<
    Seq<char>,
    Value,
>
    decreases segments.len(),
{
    if segments.len() == 0 {
        obj
    } else if segments.len() == 1 {
        obj.remove(segments[0])
    } else if !obj.dom().contains(segments[0]) {
        obj
    } else {
        match obj[segments[0]] {
            Value::Object(child) => obj.insert(
                segments[0],
                Value::Object(remove_path(child, segments.drop_first())),
            ),
            _ => obj,
        }
    }
}

/// Entries stay well formed where the document of one of them is replaced
/// by a well-formed one.
proof fn lemma_entry_replaced(before: Seq<(String, Json)>, after: Seq<(String, Json)>, i: int)
    requires
        0 <= i < before.len(),
        after.len() == before.len(),
        after[i].0 == before[i].0,
        forall|j: int| 0 <= j < before.len() && j != i ==> after[j] == before[j],
    ensures
        entries_well_formed(before) && after[i].1.well_formed() ==> entries_well_formed(after),
{
    if entries_well_formed(before) && after[i].1.well_formed() {
        assert(field_keys(entry_fields(after)) =~= field_keys(entry_fields(before)));
        assert forall|a: int, b: int| 0 <= a < b < after.len() implies entry_fields(after)[a].0
            != entry_fields(after)[b].0 by {
            assert(entry_fields(after)[a].0 == entry_fields(before)[a].0);
            assert(entry_fields(after)[b].0 == entry_fields(before)[b].0);
        }
        assert forall|j: int| 0 <= j < after.len() implies (#[trigger] after[j]).1.well_formed() by {
            if j != i {
                assert(after[j] == before[j]);
            }
        }
    }
}

/// The value at the path made of `segments[from..]`.
pub fn get_segments<'a>(obj: &'a JsonMap, segments: &Vec<String>, from: usize) -> (found: Option<
    &'a Json,
>)
    requires
        from <= segments@.len(),
    ensures
        match found {
            Some(v) => get_path(
                obj@,
                texts(segments@).subrange(from as int, segments@.len() as int),
            ) == Some(v@) && (obj.well_formed() ==> v.well_formed()),
            None => get_path(
                obj@,
                texts(segments@).subrange(from as int, segments@.len() as int),
            ) is None,
        },
    decreases segments@.len() - from,
{
    let ghost rest = texts(segments@).subrange(from as int, segments@.len() as int);
    if from >= segments.len() {
        return None;
    }
    assert(rest[0] == segments@[from as int]@);
    match obj.get(segments[from].as_str()) {
        None => None,
        Some(v) => {
            if from + 1 == segments.len() {
                Some(v)
            } else {
                assert(rest.drop_first() =~= texts(segments@).subrange(
                    from + 1,
                    segments@.len() as int,
                ));
                match v {
                    Json::Object(child) => get_segments(child, segments, from + 1),
                    _ => None,
                }
            }
        },
    }
}

/// Looks up the value at a dot path.
pub fn get_deep<'a>(obj: &'a JsonMap, path: &str) -> (found: Option<&'a Json>)
    ensures
        match found {
            Some(v) => get_path(obj@, path_segments(path@)) == Some(v@) && (obj.well_formed()
                ==> v.well_formed()),
            None => get_path(obj@, path_segments(path@)) is None,
        },
{
    let segments = split_path(path);
    assert(texts(segments@).subrange(0, segments@.len() as int) =~= texts(
        segments@,
    ));
    get_segments(obj, &segments, 0)
}

/// Puts `value` at the path made of `segments[from..]`.
pub fn set_segments(obj: &mut JsonMap, segments: &Vec<String>, from: usize, value: Json)
    requires
        from < segments@.len(),
    ensures
        final(obj)@ == set_path(
            old(obj)@,
            texts(segments@).subrange(from as int, segments@.len() as int),
            value@,
        ),
        old(obj).well_formed() && value.well_formed() ==> final(obj).well_formed(),
    decreases segments@.len() - from,
{
    let ghost rest = texts(segments@).subrange(from as int, segments@.len() as int);
    let n = segments.len();
    assert(rest[0] == segments@[from as int]@);
    if from + 1 == n {
        obj.insert(segments[from].clone(), value);
        return ;
    }
    assert(rest.drop_first() =~= texts(segments@).subrange(
        from + 1,
        segments@.len() as int,
    ));
    match obj.index_of(segments[from].as_str()) {
        None => {
            let mut child = JsonMap::new();
            set_segments(&mut child, segments, from + 1, value);
            obj.insert(segments[from].clone(), Json::Object(child));
        },
        Some(i) => {
            let ghost before = obj.fields();
            let ghost entries_before = obj.entries@;
            match &mut obj.entries[i].1 {
                Json::Object(child) => {
                    set_segments(child, segments, from + 1, value);
                },
                _ => {},
            }
            proof {
                let after = obj.fields();
                assert(after =~= before.update(i as int, (before[i as int].0, after[i as int].1)));
                lemma_map_of_replace(before, i as int, after[i as int].1);
                if after[i as int].1 == before[i as int].1 {
                    assert(after =~= before);
                }
                lemma_entry_replaced(entries_before, obj.entries@, i as int);
            }
        },
    }
}

/// Puts `value` at a dot path, making the objects on the way that are
/// missing. Where a segment on the way names something that is not an object,
/// the write is dropped and `obj` stays as it was.
pub fn set_deep(obj: &mut JsonMap, path: &str, value: Json)
    ensures
        final(obj)@ == set_path(old(obj)@, path_segments(path@), value@),
        old(obj).well_formed() && value.well_formed() ==> final(obj).well_formed(),
{
    let segments = split_path(path);
    assert(texts(segments@).subrange(0, segments@.len() as int) =~= texts(
        segments@,
    ));
    set_segments(obj, &segments, 0, value);
}

/// Takes out what stands at the path made of `segments[from..]`.
pub fn remove_segments(obj: &mut JsonMap, segments: &Vec<String>, from: usize)
    requires
        from < segments@.len(),
    ensures
        final(obj)@ == remove_path(
            old(obj)@,
            texts(segments@).subrange(from as int, segments@.len() as int),
        ),
        old(obj).well_formed() ==> final(obj).well_formed(),
    decreases segments@.len() - from,
{
    let ghost rest = texts(segments@).subrange(from as int, segments@.len() as int);
    let n = segments.len();
    assert(rest[0] == segments@[from as int]@);
    if from + 1 == n {
        obj.remove(segments[from].as_str());
        return ;
    }
    assert(rest.drop_first() =~= texts(segments@).subrange(
        from + 1,
        segments@.len() as int,
    ));
    match obj.index_of(segments[from].as_str()) {
        None => {},
        Some(i) => {
            let ghost before = obj.fields();
            let ghost entries_before = obj.entries@;
            match &mut obj.entries[i].1 {
                Json::Object(child) => {
                    remove_segments(child, segments, from + 1);
                },
                _ => {},
            }
            proof {
                let after = obj.fields();
                assert(after =~= before.update(i as int, (before[i as int].0, after[i as int].1)));
                lemma_map_of_replace(before, i as int, after[i as int].1);
                if after[i as int].1 == before[i as int].1 {
                    assert(after =~= before);
                }
                lemma_entry_replaced(entries_before, obj.entries@, i as int);
            }
        },
    }
}

/// Takes out what stands at a dot path. Where a segment on the way is
/// missing or names something that is not an object, `obj` stays as it was.
pub fn remove_deep(obj: &mut JsonMap, path: &str)
    ensures
        final(obj)@ == remove_path(old(obj)@, path_segments(path@)),
        old(obj).well_formed() ==> final(obj).well_formed(),
{
    let segments = split_path(path);
    assert(texts(segments@).subrange(0, segments@.len() as int) =~= texts(
        segments@,
    ));
    remove_segments(obj, &segments, 0);
}

} // verus!
