//! What holds of a page, whatever rows the engine has handed back.

use vstd::prelude::*;
use vstd::utf8::*;
use crate::fields::{
    distinct_keys,
    field_keys,
    fields_put,
    first_index,
    lemma_filter_keeps_all,
    lemma_filter_keeps_distinct,
    lemma_first_index,
};
use crate::keys::{
    bound_text,
    key_text,
    last_char,
    law_bound_covers_up_to_cursor,
    law_range_ends_after_keys,
    law_range_starts_at_prefix,
    prefix_text,
};
use crate::order::{bytes_le, bytes_lt, lemma_lt_irreflexive, proper_prefix};
use crate::text::text_of;
use crate::transaction::{
    fields_collected,
    first_n,
    id_of_key,
    listed,
    not_cursor,
    page_fields,
    row_value,
    Row,
};
use crate::value::Value;

verus! {

/// The id that a key was made for is read back from the key.
pub proof fn law_id_of_own_key(collection: Seq<char>, id: Seq<char>)
    ensures
        id_of_key(text_of(encode_utf8(key_text(collection, id))), collection) == id,
{
    let text = key_text(collection, id);
    encode_utf8_valid_utf8(text);
    encode_utf8_decode_utf8(text);
    assert(prefix_text(collection).is_prefix_of(text));
    assert(text.skip(prefix_text(collection).len() as int) =~= id);
}

/// Binding fields with distinct keys one after the other gives those fields.
proof fn lemma_collected_distinct(fields: Seq<(Seq<char>, Value)>)
    requires
        distinct_keys(fields),
    ensures
        fields_collected(fields) == fields,
    decreases fields.len(),
{
    if fields.len() == 0 {
        assert(fields =~= Seq::<(Seq<char>, Value)>::empty());
    } else {
        let before = fields.drop_last();
        let last = fields.last();
        assert(distinct_keys(before)) by {
            assert forall|i: int, j: int| 0 <= i < j < before.len() implies before[i].0
                != before[j].0 by {
                assert(before[i] == fields[i] && before[j] == fields[j]);
            }
        }
        lemma_collected_distinct(before);
        let keys = field_keys(before);
        lemma_first_index(keys, last.0);
        let at = first_index(keys, last.0);
        if at >= 0 {
            assert(keys[at] == before[at].0);
            assert(before[at] == fields[at]);
            assert(fields[at].0 != fields[fields.len() - 1].0);
        }
        assert(fields_put(before, last.0, last.1) == before.push(last));
        assert(before.push(last) =~= fields);
    }
}

/// A list of which at most one item fails a test loses at most one item to
/// the filter.
proof fn lemma_filter_drops_one<A>(s: Seq<A>, test: spec_fn(A) -> bool)
    requires
        forall|i: int, j: int| 0 <= i < j < s.len() ==> test(s[i]) || test(s[j]),
    ensures
        s.filter(test).len() + 1 >= s.len(),
    decreases s.len(),
{
    reveal(Seq::filter);
    if s.len() > 0 {
        let before = s.drop_last();
        assert forall|i: int, j: int| 0 <= i < j < before.len() implies test(before[i])
            || test(before[j]) by {
            assert(before[i] == s[i] && before[j] == s[j]);
        }
        if test(s.last()) {
            lemma_filter_drops_one(before, test);
        } else {
            assert forall|i: int| 0 <= i < before.len() implies test(before[i]) by {
                assert(before[i] == s[i]);
                assert(s[s.len() - 1] == s.last());
            }
            lemma_filter_keeps_all(before, test);
        }
    }
}

/// Where at most one item of a list fails a test, the first `n` that pass
/// are among the first `n + 1` items.
proof fn lemma_one_more_suffices<A>(s: Seq<A>, test: spec_fn(A) -> bool, n: int)
    requires
        0 <= n,
        forall|i: int, j: int| 0 <= i < j < s.len() ==> test(s[i]) || test(s[j]),
    ensures
        first_n(first_n(s, n + 1).filter(test), n) == first_n(s.filter(test), n),
{
    if n + 1 < s.len() {
        let head = s.take(n + 1);
        let tail = s.skip(n + 1);
        assert(s =~= head + tail);
        Seq::filter_distributes_over_add(head, tail, test);
        assert forall|i: int, j: int| 0 <= i < j < head.len() implies test(head[i]) || test(
            head[j],
        ) by {
            assert(head[i] == s[i] && head[j] == s[j]);
        }
        lemma_filter_drops_one(head, test);
        let kept = head.filter(test);
        let all = kept + tail.filter(test);
        assert(kept.len() >= n);
        assert(first_n(kept, n) =~= first_n(all, n));
    }
}

/// Where no two rows have the same id, a page lists rows as they came: the
/// first `limit` of the rows that are not the cursor's own, each id bound to
/// the value of its row.
pub proof fn law_page_of_distinct_ids(
    collection: Seq<char>,
    limit: u32,
    cursor: Seq<char>,
    rows: Seq<Row>,
)
    requires
        distinct_keys(listed(collection, rows)),
    ensures
        page_fields(collection, limit, cursor, rows) == first_n(
            listed(collection, rows).filter(not_cursor(cursor)),
            limit as int,
        ),
        distinct_keys(page_fields(collection, limit, cursor, rows)),
{
    let kept = listed(collection, rows).filter(not_cursor(cursor));
    lemma_filter_keeps_distinct(listed(collection, rows), not_cursor(cursor));
    let taken = first_n(kept, limit as int);
    assert(distinct_keys(taken)) by {
        assert forall|i: int, j: int| 0 <= i < j < taken.len() implies taken[i].0
            != taken[j].0 by {
            assert(taken[i] == kept[i] && taken[j] == kept[j]);
        }
    }
    lemma_collected_distinct(taken);
}

/// Fetching one row more than the limit is enough: where no two rows have
/// the same id, the page made of the first `limit + 1` rows is the page that
/// all the rows would give.
pub proof fn law_one_row_more_suffices(
    collection: Seq<char>,
    limit: u32,
    cursor: Seq<char>,
    rows: Seq<Row>,
)
    requires
        distinct_keys(listed(collection, rows)),
    ensures
        page_fields(collection, limit, cursor, first_n(rows, limit + 1)) == page_fields(
            collection,
            limit,
            cursor,
            rows,
        ),
{
    let all = listed(collection, rows);
    let test = not_cursor(cursor);
    assert(listed(collection, first_n(rows, limit + 1)) =~= first_n(all, limit + 1));
    assert forall|i: int, j: int| 0 <= i < j < all.len() implies test(all[i]) || test(all[j]) by {
        assert(all[i].0 != all[j].0);
    }
    lemma_one_more_suffices(all, test, limit as int);
}

/// The test that a row's key lies between two keys, both included.
pub open spec fn in_range(lower: Seq<u8>, upper: Seq<u8>) -> spec_fn(Row) -> bool {
    |row: Row| bytes_le(lower, row.key@) && bytes_le(row.key@, upper)
}

/// The rows that a reverse scan hands back from a store whose rows stand
/// from the greatest key down: the first `count` of the rows in the range.
pub open spec fn fetched(store: Seq<Row>, lower: Seq<u8>, upper: Seq<u8>, count: int) -> Seq<Row> {
    first_n(store.filter(in_range(lower, upper)), count)
}

/// The test that an entry's id comes before the cursor. With the empty
/// cursor every entry passes.
pub open spec fn below_cursor(cursor: Seq<char>) -> spec_fn((Seq<char>, Value)) -> bool {
    |entry: (Seq<char>, Value)|
        cursor.len() == 0 || bytes_lt(encode_utf8(entry.0), encode_utf8(cursor))
}

/// Filtering a list and then mapping it is mapping it and then filtering,
/// where the second test holds of an item's image exactly if the first holds
/// of the item.
proof fn lemma_filter_then_map<A, B>(
    s: Seq<A>,
    p: spec_fn(A) -> bool,
    f: spec_fn(A) -> B,
    q: spec_fn(B) -> bool,
)
    requires
        forall|i: int| 0 <= i < s.len() ==> p(s[i]) == q(f(s[i])),
    ensures
        s.filter(p).map_values(f) == s.map_values(f).filter(q),
    decreases s.len(),
{
    reveal(Seq::filter);
    if s.len() == 0 {
        assert(s.filter(p).map_values(f) =~= s.map_values(f).filter(q));
    } else {
        let before = s.drop_last();
        assert forall|i: int| 0 <= i < before.len() implies p(before[i]) == q(f(before[i])) by {
            assert(before[i] == s[i]);
        }
        lemma_filter_then_map(before, p, f, q);
        assert(s.last() == s[s.len() - 1]);
        assert(s.map_values(f).drop_last() =~= before.map_values(f));
        assert(s.map_values(f).last() == f(s.last()));
        if p(s.last()) {
            assert(before.filter(p).push(s.last()).map_values(f) =~= before.filter(p).map_values(
                f,
            ).push(f(s.last())));
        }
    }
}

/// Filtering a list twice is filtering it once by both tests.
proof fn lemma_filter_twice<A>(
    s: Seq<A>,
    p: spec_fn(A) -> bool,
    q: spec_fn(A) -> bool,
    both: spec_fn(A) -> bool,
)
    requires
        forall|i: int| 0 <= i < s.len() ==> both(s[i]) == (p(s[i]) && q(s[i])),
    ensures
        s.filter(p).filter(q) == s.filter(both),
    decreases s.len(),
{
    reveal(Seq::filter);
    if s.len() > 0 {
        let before = s.drop_last();
        assert forall|i: int| 0 <= i < before.len() implies both(before[i]) == (p(before[i])
            && q(before[i])) by {
            assert(before[i] == s[i]);
        }
        lemma_filter_twice(before, p, q, both);
        assert(s.last() == s[s.len() - 1]);
        if p(s.last()) {
            let kept = before.filter(p);
            assert(kept.push(s.last()).drop_last() =~= kept);
        }
    }
}

/// A page holds what comes next below the cursor.
///
/// Let the rows of a store be those of one collection, each under the key of
/// its id, from the greatest id down. Let none of the ids be a proper
/// extension of the cursor and, for the empty cursor, none start with
/// U+10FFFF. Then the page that is made of what a reverse scan of the range
/// hands back holds the first `limit` rows whose id comes before the cursor,
/// or the first `limit` rows of all where the cursor is empty: in the order
/// of the store, each id once, each bound to the value of its row.
pub proof fn law_page_is_next(
    collection: Seq<char>,
    limit: u32,
    cursor: Seq<char>,
    store: Seq<Row>,
    ids: Seq<Seq<char>>,
)
    requires
        ids.len() == store.len(),
        forall|i: int|
            0 <= i < store.len() ==> (#[trigger] store[i]).key@ == encode_utf8(
                key_text(collection, ids[i]),
            ),
        forall|i: int, j: int|
            0 <= i < j < ids.len() ==> bytes_lt(encode_utf8(ids[j]), encode_utf8(ids[i])),
        cursor.len() > 0 ==> forall|i: int|
            0 <= i < ids.len() ==> !proper_prefix(encode_utf8(cursor), encode_utf8(#[trigger] ids[i])),
        cursor.len() == 0 ==> forall|i: int|
            0 <= i < ids.len() ==> (#[trigger] ids[i]).len() == 0 || ids[i][0] != last_char(),
    ensures
        page_fields(
            collection,
            limit,
            cursor,
            fetched(
                store,
                encode_utf8(prefix_text(collection)),
                encode_utf8(bound_text(collection, cursor)),
                limit + 1,
            ),
        ) == first_n(listed(collection, store).filter(below_cursor(cursor)), limit as int),
{
    let lower = encode_utf8(prefix_text(collection));
    let upper = encode_utf8(bound_text(collection, cursor));
    let all = listed(collection, store);
    let near = |entry: (Seq<char>, Value)|
        cursor.len() == 0 || bytes_le(encode_utf8(entry.0), encode_utf8(cursor));
    let entry_of = |row: Row| (id_of_key(text_of(row.key@), collection), row_value(row.value));
    assert forall|i: int| 0 <= i < store.len() implies (#[trigger] all[i]).0 == ids[i] by {
        law_id_of_own_key(collection, ids[i]);
    }
    assert(distinct_keys(all)) by {
        assert forall|i: int, j: int| 0 <= i < j < all.len() implies all[i].0 != all[j].0 by {
            lemma_lt_irreflexive(encode_utf8(ids[i]));
        }
    }
    assert forall|i: int| 0 <= i < store.len() implies in_range(lower, upper)(store[i]) == near(
        entry_of(store[i]),
    ) by {
        assert(entry_of(store[i]) == all[i]);
        law_range_starts_at_prefix(collection, ids[i]);
        if cursor.len() == 0 {
            assert(cursor =~= Seq::<char>::empty());
            law_range_ends_after_keys(collection, ids[i]);
        } else {
            law_bound_covers_up_to_cursor(collection, ids[i], cursor);
        }
    }
    let window = store.filter(in_range(lower, upper));
    lemma_filter_then_map(store, in_range(lower, upper), entry_of, near);
    assert(listed(collection, window) == all.filter(near));
    lemma_filter_keeps_distinct(all, near);
    law_one_row_more_suffices(collection, limit, cursor, window);
    law_page_of_distinct_ids(collection, limit, cursor, window);
    assert forall|i: int| 0 <= i < all.len() implies below_cursor(cursor)(all[i]) == (near(all[i])
        && not_cursor(cursor)(all[i])) by {
        if cursor.len() > 0 {
            let a = encode_utf8(all[i].0);
            let b = encode_utf8(cursor);
            lemma_lt_irreflexive(b);
            if a == b {
                crate::text::lemma_same_bytes_same_chars(all[i].0, cursor);
            }
        }
    }
    lemma_filter_twice(all, near, not_cursor(cursor), below_cursor(cursor));
}

} // verus!
