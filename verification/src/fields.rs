//! The fields of an object as a list in their order, and the map that the
//! list stands for.

use vstd::prelude::*;
use crate::value::Value;

verus! {

/// The keys of a list of fields, in order.
pub open spec fn field_keys(fields: Seq<(Seq<char>, Value)>) -> Seq<Seq<char>> {
    Seq::new(fields.len(), |i: int| fields[i].0)
}

/// Whether `i` is the first position of `key` among `keys`.
pub open spec fn is_first_at(keys: Seq<Seq<char>>, key: Seq<char>, i: int) -> bool {
    &&& 0 <= i < keys.len()
    &&& keys[i] == key
    &&& forall|j: int| 0 <= j < i ==> keys[j] != key
}

/// The first position of `key` among `keys`, or -1 where it does not occur.
pub open spec fn first_index(keys: Seq<Seq<char>>, key: Seq<char>) -> int {
    if exists|i: int| is_first_at(keys, key, i) {
        choose|i: int| is_first_at(keys, key, i)
    } else {
        -1
    }
}

/// The map that a list of fields stands for: each key is bound to the value
/// of its first field.
pub open spec fn map_of(fields: Seq<(Seq<char>, Value)>) -> Map<Seq<char>, Value> {
    Map::new(
        |k: Seq<char>| first_index(field_keys(fields), k) >= 0,
        |k: Seq<char>| fields[first_index(field_keys(fields), k)].1,
    )
}

/// A list of fields after `key` has been bound to `value`: a key that is
/// already there keeps its place, at its first occurrence, and a new key goes
/// to the end.
pub open spec fn fields_put(fields: Seq<(Seq<char>, Value)>, key: Seq<char>, value: Value) -> Seq<
    (Seq<char>, Value),
> {
    let at = first_index(field_keys(fields), key);
    if at >= 0 {
        fields.update(at, (key, value))
    } else {
        fields.push((key, value))
    }
}

/// The test that a field has another key than `key`.
pub open spec fn other_key(key: Seq<char>) -> spec_fn((Seq<char>, Value)) -> bool {
    |field: (Seq<char>, Value)| field.0 != key
}

/// Whether no two fields of a list have the same key.
pub open spec fn distinct_keys(fields: Seq<(Seq<char>, Value)>) -> bool {
    forall|i: int, j: int| 0 <= i < j < fields.len() ==> fields[i].0 != fields[j].0
}

/// A key that occurs among `keys` has a first position there.
pub proof fn lemma_occurrence_has_first(keys: Seq<Seq<char>>, key: Seq<char>, j: int)
    requires
        0 <= j < keys.len(),
        keys[j] == key,
    ensures
        exists|i: int| is_first_at(keys, key, i),
    decreases j,
{
    if forall|m: int| 0 <= m < j ==> keys[m] != key {
        assert(is_first_at(keys, key, j));
    } else {
        let m = choose|m: int| 0 <= m < j && keys[m] == key;
        lemma_occurrence_has_first(keys, key, m);
    }
}

/// `first_index` is the first position of the key, and -1 exactly where the
/// key does not occur.
pub proof fn lemma_first_index(keys: Seq<Seq<char>>, key: Seq<char>)
    ensures
        first_index(keys, key) >= 0 ==> is_first_at(keys, key, first_index(keys, key)),
        first_index(keys, key) < 0 ==> first_index(keys, key) == -1 && forall|j: int|
            0 <= j < keys.len() ==> keys[j] != key,
{
    if !(exists|i: int| is_first_at(keys, key, i)) {
        assert forall|j: int| 0 <= j < keys.len() implies keys[j] != key by {
            if keys[j] == key {
                lemma_occurrence_has_first(keys, key, j);
            }
        }
    }
}

/// A first position of the key is the one that `first_index` gives.
pub proof fn lemma_first_index_is(keys: Seq<Seq<char>>, key: Seq<char>, i: int)
    requires
        is_first_at(keys, key, i),
    ensures
        first_index(keys, key) == i,
{
    let c = first_index(keys, key);
    assert(is_first_at(keys, key, c));
    if c < i {
        assert(keys[c] != key);
    } else if i < c {
        assert(keys[i] != key);
    }
}

/// Giving the first field of a key a new value rebinds that key and leaves
/// every other key as it was.
pub proof fn lemma_map_of_replace(fields: Seq<(Seq<char>, Value)>, i: int, value: Value)
    requires
        0 <= i < fields.len(),
        is_first_at(field_keys(fields), fields[i].0, i),
    ensures
        map_of(fields.update(i, (fields[i].0, value))) == map_of(fields).insert(
            fields[i].0,
            value,
        ),
{
    let key = fields[i].0;
    let after = fields.update(i, (key, value));
    assert(field_keys(after) =~= field_keys(fields));
    lemma_first_index_is(field_keys(fields), key, i);
    assert forall|k: Seq<char>| #[trigger]
        map_of(after).dom().contains(k) == map_of(fields).insert(key, value).dom().contains(k) && (
        map_of(after).dom().contains(k) ==> map_of(after)[k] == map_of(fields).insert(
            key,
            value,
        )[k]) by {
        lemma_first_index(field_keys(fields), k);
    }
    assert(map_of(after) =~= map_of(fields).insert(key, value));
}

/// Appending a field whose key is not yet bound binds that key and leaves
/// every other key as it was.
pub proof fn lemma_map_of_push(fields: Seq<(Seq<char>, Value)>, key: Seq<char>, value: Value)
    requires
        first_index(field_keys(fields), key) < 0,
    ensures
        map_of(fields.push((key, value))) == map_of(fields).insert(key, value),
{
    let after = fields.push((key, value));
    let keys = field_keys(fields);
    let keys_after = field_keys(after);
    assert(keys_after =~= keys.push(key));
    lemma_first_index(keys, key);
    assert(is_first_at(keys_after, key, fields.len() as int));
    lemma_first_index_is(keys_after, key, fields.len() as int);
    assert forall|k: Seq<char>| #[trigger]
        map_of(after).dom().contains(k) == map_of(fields).insert(key, value).dom().contains(k) && (
        map_of(after).dom().contains(k) ==> map_of(after)[k] == map_of(fields).insert(
            key,
            value,
        )[k]) by {
        if k != key {
            lemma_first_index(keys, k);
            lemma_first_index(keys_after, k);
            let c = first_index(keys, k);
            if c >= 0 {
                assert(is_first_at(keys_after, k, c));
                lemma_first_index_is(keys_after, k, c);
            } else {
                let d = first_index(keys_after, k);
                if d >= 0 {
                    assert(keys_after[d] == k);
                    assert(d < fields.len());
                    assert(keys[d] == k);
                }
            }
        }
    }
    assert(map_of(after) =~= map_of(fields).insert(key, value));
}

/// Binding a key in a list of fields binds it in the map that the list
/// stands for.
pub proof fn lemma_map_of_put(fields: Seq<(Seq<char>, Value)>, key: Seq<char>, value: Value)
    ensures
        map_of(fields_put(fields, key, value)) == map_of(fields).insert(key, value),
{
    let at = first_index(field_keys(fields), key);
    lemma_first_index(field_keys(fields), key);
    if at >= 0 {
        assert(fields[at].0 == field_keys(fields)[at]);
        lemma_map_of_replace(fields, at, value);
    } else {
        lemma_map_of_push(fields, key, value);
    }
}

/// Taking out the field at position `i` leaves every key but its own as it
/// was.
pub proof fn lemma_map_of_remove_at(fields: Seq<(Seq<char>, Value)>, i: int, k: Seq<char>)
    requires
        0 <= i < fields.len(),
        fields[i].0 != k,
    ensures
        map_of(fields.remove(i)).dom().contains(k) == map_of(fields).dom().contains(k),
        map_of(fields).dom().contains(k) ==> map_of(fields.remove(i))[k] == map_of(fields)[k],
{
    let after = fields.remove(i);
    let keys = field_keys(fields);
    let keys_after = field_keys(after);
    assert(keys_after =~= keys.remove(i));
    lemma_first_index(keys, k);
    lemma_first_index(keys_after, k);
    let c = first_index(keys, k);
    if c >= 0 {
        let c2 = if c < i {
            c
        } else {
            c - 1
        };
        assert(is_first_at(keys_after, k, c2)) by {
            assert forall|j: int| 0 <= j < c2 implies keys_after[j] != k by {
                if j < i {
                    assert(keys_after[j] == keys[j]);
                } else {
                    assert(keys_after[j] == keys[j + 1]);
                }
            }
        }
        lemma_first_index_is(keys_after, k, c2);
    } else {
        let d = first_index(keys_after, k);
        if d >= 0 {
            if d < i {
                assert(keys[d] == k);
            } else {
                assert(keys[d + 1] == k);
            }
        }
    }
}

/// A filter keeps a list whole where every item passes its test.
pub proof fn lemma_filter_keeps_all<A>(s: Seq<A>, test: spec_fn(A) -> bool)
    requires
        forall|i: int| 0 <= i < s.len() ==> test(s[i]),
    ensures
        s.filter(test) == s,
    decreases s.len(),
{
    reveal(Seq::filter);
    if s.len() > 0 {
        lemma_filter_keeps_all(s.drop_last(), test);
        assert(s.drop_last().push(s.last()) =~= s);
    }
}

/// A filter gives the same for a list with and without an item that fails
/// its test.
pub proof fn lemma_filter_skips<A>(s: Seq<A>, i: int, test: spec_fn(A) -> bool)
    requires
        0 <= i < s.len(),
        !test(s[i]),
    ensures
        s.remove(i).filter(test) == s.filter(test),
{
    let front = s.subrange(0, i);
    let one = seq![s[i]];
    let back = s.subrange(i + 1, s.len() as int);
    assert(s =~= front + one + back);
    assert(s.remove(i) =~= front + back);
    Seq::filter_distributes_over_add(front + one, back, test);
    Seq::filter_distributes_over_add(front, one, test);
    Seq::filter_distributes_over_add(front, back, test);
    assert(one.filter(test) =~= Seq::<A>::empty()) by {
        reveal(Seq::filter);
        assert(one.drop_last() =~= Seq::<A>::empty());
        assert(one.drop_last().filter(test) =~= Seq::<A>::empty());
    }
    assert(front.filter(test) + one.filter(test) =~= front.filter(test));
}

/// Every item of a filtered list is an item of the list.
pub proof fn lemma_filter_members<A>(s: Seq<A>, test: spec_fn(A) -> bool)
    ensures
        forall|i: int| 0 <= i < s.filter(test).len() ==> s.contains(#[trigger] s.filter(test)[i]),
    decreases s.len(),
{
    reveal(Seq::filter);
    let kept = s.filter(test);
    if s.len() > 0 {
        let before = s.drop_last();
        let kept_before = before.filter(test);
        lemma_filter_members(before, test);
        assert forall|i: int| 0 <= i < kept.len() implies s.contains(#[trigger] kept[i]) by {
            if i < kept_before.len() {
                assert(kept[i] == kept_before[i]);
                let at = choose|at: int| 0 <= at < before.len() && before[at] == kept_before[i];
                assert(s[at] == kept[i]);
            } else {
                assert(kept[i] == s[s.len() - 1]);
            }
        }
    }
}

/// A filter leaves the keys of a list distinct.
pub proof fn lemma_filter_keeps_distinct(
    fields: Seq<(Seq<char>, Value)>,
    test: spec_fn((Seq<char>, Value)) -> bool,
)
    requires
        distinct_keys(fields),
    ensures
        distinct_keys(fields.filter(test)),
    decreases fields.len(),
{
    reveal(Seq::filter);
    let kept = fields.filter(test);
    if fields.len() > 0 {
        let before = fields.drop_last();
        let kept_before = before.filter(test);
        assert(distinct_keys(before)) by {
            assert forall|i: int, j: int| 0 <= i < j < before.len() implies before[i].0
                != before[j].0 by {
                assert(before[i] == fields[i] && before[j] == fields[j]);
            }
        }
        lemma_filter_keeps_distinct(before, test);
        lemma_filter_members(before, test);
        assert forall|i: int, j: int| 0 <= i < j < kept.len() implies kept[i].0 != kept[j].0 by {
            if j < kept_before.len() {
                assert(kept[i] == kept_before[i] && kept[j] == kept_before[j]);
            } else {
                assert(kept[i] == kept_before[i]);
                let at = choose|at: int| 0 <= at < before.len() && before[at] == kept_before[i];
                assert(fields[at] == kept[i]);
                assert(kept[j] == fields[fields.len() - 1]);
            }
        }
    }
}

/// Binding a key leaves the keys of a list distinct.
pub proof fn law_put_keeps_distinct(fields: Seq<(Seq<char>, Value)>, key: Seq<char>, value: Value)
    requires
        distinct_keys(fields),
    ensures
        distinct_keys(fields_put(fields, key, value)),
{
    let after = fields_put(fields, key, value);
    let at = first_index(field_keys(fields), key);
    lemma_first_index(field_keys(fields), key);
    assert forall|i: int, j: int| 0 <= i < j < after.len() implies after[i].0 != after[j].0 by {
        if at >= 0 {
            assert(field_keys(fields)[at] == fields[at].0);
            assert(after[i].0 == fields[i].0 && after[j].0 == fields[j].0);
        } else if j < fields.len() {
            assert(after[i] == fields[i] && after[j] == fields[j]);
        } else {
            assert(field_keys(fields)[i] == fields[i].0);
        }
    }
}

} // verus!
