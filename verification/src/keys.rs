//! The key codec: how a collection and an id become the key of a document,
//! and the boundary keys of a collection's range.
//!
//! Every key is the UTF-8 encoding of a text, so the byte order of the keys
//! is the code-point order of those texts.

use vstd::prelude::*;
use vstd::string::*;
use vstd::utf8::*;
use crate::order::{
    bytes_le,
    bytes_lt,
    lemma_le_extension,
    lemma_lt_after_common_prefix,
    lemma_lt_extension,
    proper_prefix,
};

verus! {

/// The greatest Unicode scalar value, U+10FFFF.
pub open spec fn last_char() -> char {
    '\u{10FFFF}'
}

/// The text of a document's key: the collection, a colon, the id.
pub open spec fn key_text(collection: Seq<char>, id: Seq<char>) -> Seq<char> {
    collection + seq![':'] + id
}

/// The text that every key of a collection starts with: the collection and a
/// colon.
pub open spec fn prefix_text(collection: Seq<char>) -> Seq<char> {
    collection + seq![':']
}

/// The text of the key just past an id: the id's key followed by U+10FFFF.
/// With the empty id it is the end of the collection's range.
pub open spec fn bound_text(collection: Seq<char>, id: Seq<char>) -> Seq<char> {
    collection + seq![':'] + id + seq![last_char()]
}

/// The text of the key under which a document's expiry is indexed.
pub open spec fn expiry_text(expiry_at: Seq<char>, id: Seq<char>) -> Seq<char> {
    "expire:"@ + expiry_at + seq![':'] + id
}

/// The encoding of a text in two parts is the encoding of the first part
/// followed by that of the second.
pub proof fn lemma_encode_concat(a: Seq<char>, b: Seq<char>)
    ensures
        encode_utf8(a + b) == encode_utf8(a) + encode_utf8(b),
    decreases a.len(),
{
    if a.len() == 0 {
        assert(a + b =~= b);
        assert(encode_utf8(a) + encode_utf8(b) =~= encode_utf8(b));
    } else {
        assert((a + b).drop_first() =~= a.drop_first() + b);
        lemma_encode_concat(a.drop_first(), b);
        assert(encode_scalar(a[0] as u32) + (encode_utf8(a.drop_first()) + encode_utf8(b))
            =~= (encode_scalar(a[0] as u32) + encode_utf8(a.drop_first())) + encode_utf8(b));
    }
}

/// The text `"{collection}:"`.
pub fn collection_prefix(collection: &str) -> (prefix: String)
    ensures
        prefix@ == prefix_text(collection@),
{
    proof {
        reveal_strlit(":");
        assert(":"@ =~= seq![':']);
    }
    collection.to_owned().concat(":")
}

/// The key of the document `id` of `collection`: the bytes of
/// `"{collection}:{id}"`.
pub fn make_key(collection: &str, id: &str) -> (key: Vec<u8>)
    ensures
        key@ == encode_utf8(key_text(collection@, id@)),
{
    let text = collection_prefix(collection).concat(id);
    text.as_str().as_bytes_vec()
}

/// The first key of a collection's range: the bytes of `"{collection}:"`.
pub fn prefix_start(collection: &str) -> (key: Vec<u8>)
    ensures
        key@ == encode_utf8(prefix_text(collection@)),
{
    collection_prefix(collection).as_str().as_bytes_vec()
}

/// The key just past `id`: the bytes of `"{collection}:{id}"` followed by
/// those of U+10FFFF.
pub fn key_bound(collection: &str, id: &str) -> (key: Vec<u8>)
    ensures
        key@ == encode_utf8(bound_text(collection@, id@)),
{
    proof {
        reveal_strlit("\u{10FFFF}");
        assert("\u{10FFFF}"@ =~= seq![last_char()]);
    }
    let text = collection_prefix(collection).concat(id).concat("\u{10FFFF}");
    text.as_str().as_bytes_vec()
}

/// The end of a collection's range: the bytes of `"{collection}:"` followed
/// by those of U+10FFFF.
pub fn prefix_end(collection: &str) -> (key: Vec<u8>)
    ensures
        key@ == encode_utf8(bound_text(collection@, Seq::empty())),
{
    proof {
        reveal_strlit("");
        assert(""@ =~= Seq::<char>::empty());
    }
    key_bound(collection, "")
}

/// The key under which the expiry of the document `id` is indexed: the bytes
/// of `"expire:{expiry_at}:{id}"`.
pub fn expiry_key(expiry_at: &str, id: &str) -> (key: Vec<u8>)
    ensures
        key@ == encode_utf8(expiry_text(expiry_at@, id@)),
{
    proof {
        reveal_strlit(":");
        assert(":"@ =~= seq![':']);
    }
    let text = "expire:".to_owned().concat(expiry_at).concat(":").concat(id);
    text.as_str().as_bytes_vec()
}

/// A document's key is the first key of its collection's range followed by
/// the bytes of the id, and the key just past an id is the id's key followed
/// by the four bytes of U+10FFFF.
pub proof fn lemma_key_layout(collection: Seq<char>, id: Seq<char>)
    ensures
        encode_utf8(key_text(collection, id)) == encode_utf8(prefix_text(collection))
            + encode_utf8(id),
        encode_utf8(bound_text(collection, id)) == encode_utf8(key_text(collection, id))
            + last_char_bytes(),
{
    lemma_encode_concat(prefix_text(collection), id);
    lemma_encode_concat(key_text(collection, id), seq![last_char()]);
    lemma_last_char_bytes();
}

/// U+10FFFF is encoded as the bytes F4 8F BF BF.
pub proof fn lemma_last_char_bytes()
    ensures
        encode_utf8(seq![last_char()]) == last_char_bytes(),
{
    let s = seq![last_char()];
    assert(s.drop_first() =~= Seq::<char>::empty());
    assert(encode_utf8(s) =~= encode_scalar(last_char() as u32) + encode_utf8(s.drop_first()));
    assert(last_char() as u32 == 0x10FFFFu32);
    assert(encode_scalar(0x10FFFFu32) =~= seq![0xF4u8, 0x8Fu8, 0xBFu8, 0xBFu8]) by {
        lemma_last_char_scalar();
    }
}

proof fn lemma_last_char_scalar()
    ensures
        !has_width_1_encoding(0x10FFFFu32),
        !has_width_2_encoding(0x10FFFFu32),
        !has_width_3_encoding(0x10FFFFu32),
        leading_byte_width_4(0x10FFFFu32) == 0xF4u8,
        third_last_continuation_byte(0x10FFFFu32) == 0x8Fu8,
        second_last_continuation_byte(0x10FFFFu32) == 0xBFu8,
        last_continuation_byte(0x10FFFFu32) == 0xBFu8,
{
    assert(leading_byte_width_4(0x10FFFFu32) == 0xF4u8) by (bit_vector);
    assert(third_last_continuation_byte(0x10FFFFu32) == 0x8Fu8) by (bit_vector);
    assert(second_last_continuation_byte(0x10FFFFu32) == 0xBFu8) by (bit_vector);
    assert(last_continuation_byte(0x10FFFFu32) == 0xBFu8) by (bit_vector);
}

/// The four bytes of U+10FFFF.
pub open spec fn last_char_bytes() -> Seq<u8> {
    seq![0xF4u8, 0x8Fu8, 0xBFu8, 0xBFu8]
}

proof fn lemma_narrow_scalar_bytes(v: u32)
    ensures
        has_width_1_encoding(v) ==> leading_byte_width_1(v) < 0xF4u8,
        has_width_2_encoding(v) ==> leading_byte_width_2(v) < 0xF4u8,
        has_width_3_encoding(v) ==> leading_byte_width_3(v) < 0xF4u8,
{
    assert(((v & 0x7F) as u8) < 0xF4u8) by (bit_vector);
    assert((0xC0 | ((v >> 6) & 0x1F) as u8) < 0xF4u8) by (bit_vector);
    assert((0xE0 | ((v >> 12) & 0x0F) as u8) < 0xF4u8) by (bit_vector);
}

proof fn lemma_wide_scalar_bytes(v: u32)
    requires
        0x10000 <= v < 0x10FFFF,
    ensures
        ({
            let b0 = leading_byte_width_4(v);
            let b1 = third_last_continuation_byte(v);
            let b2 = second_last_continuation_byte(v);
            let b3 = last_continuation_byte(v);
            ||| b0 < 0xF4u8
            ||| b0 == 0xF4u8 && b1 < 0x8Fu8
            ||| b0 == 0xF4u8 && b1 == 0x8Fu8 && b2 < 0xBFu8
            ||| b0 == 0xF4u8 && b1 == 0x8Fu8 && b2 == 0xBFu8 && b3 < 0xBFu8
        }),
{
    assert({
        let b0 = 0xF0 | ((v >> 18) & 0x7) as u8;
        let b1 = 0x80 | ((v >> 12) & 0x3F) as u8;
        let b2 = 0x80 | ((v >> 6) & 0x3F) as u8;
        let b3 = 0x80 | (v & 0x3F) as u8;
        ||| b0 < 0xF4u8
        ||| b0 == 0xF4u8 && b1 < 0x8Fu8
        ||| b0 == 0xF4u8 && b1 == 0x8Fu8 && b2 < 0xBFu8
        ||| b0 == 0xF4u8 && b1 == 0x8Fu8 && b2 == 0xBFu8 && b3 < 0xBFu8
    }) by (bit_vector)
        requires
            0x10000 <= v < 0x10FFFF,
    ;
}

/// The encoding of a text that does not start with U+10FFFF comes before the
/// encoding of U+10FFFF.
pub proof fn lemma_text_below_last_char(text: Seq<char>)
    requires
        text.len() == 0 || text[0] != last_char(),
    ensures
        bytes_lt(encode_utf8(text), last_char_bytes()),
{
    let top = last_char_bytes();
    if text.len() > 0 {
        let v = text[0] as u32;
        let first = encode_scalar(v);
        let rest = encode_utf8(text.drop_first());
        let all = encode_utf8(text);
        assert(all == first + rest);
        char_is_scalar(text[0]);
        assert(v != 0x10FFFFu32) by {
            char_u32_cast(text[0], v);
            char_u32_cast(last_char(), 0x10FFFFu32);
        }
        lemma_narrow_scalar_bytes(v);
        if has_width_1_encoding(v) || has_width_2_encoding(v) || has_width_3_encoding(v) {
            assert(all[0] == first[0]);
            assert(all[0] < top[0]);
        } else {
            lemma_wide_scalar_bytes(v);
            assert(first.len() == 4);
            assert(all[0] == first[0] && all[1] == first[1] && all[2] == first[2] && all[3]
                == first[3]);
            let a1 = all.drop_first();
            let a2 = a1.drop_first();
            let a3 = a2.drop_first();
            let t1 = top.drop_first();
            let t2 = t1.drop_first();
            let t3 = t2.drop_first();
            assert(a1[0] == all[1] && a2[0] == all[2] && a3[0] == all[3]);
            assert(t1[0] == 0x8Fu8 && t2[0] == 0xBFu8 && t3[0] == 0xBFu8);
            assert(bytes_lt(a3, t3) <== all[3] < 0xBFu8);
            assert(bytes_lt(a2, t2) <== (all[2] < 0xBFu8 || (all[2] == 0xBFu8 && bytes_lt(a3, t3))));
            assert(bytes_lt(a1, t1) <== (all[1] < 0x8Fu8 || (all[1] == 0x8Fu8 && bytes_lt(a2, t2))));
        }
    }
}

/// The first key of a collection's range comes at or before every key of the
/// collection.
pub proof fn law_range_starts_at_prefix(collection: Seq<char>, id: Seq<char>)
    ensures
        bytes_le(encode_utf8(prefix_text(collection)), encode_utf8(key_text(collection, id))),
{
    lemma_key_layout(collection, id);
    if id.len() == 0 {
        assert(key_text(collection, id) =~= prefix_text(collection));
    } else {
        assert(encode_utf8(id).len() > 0) by {
            assert(encode_utf8(id) == encode_scalar(id[0] as u32) + encode_utf8(id.drop_first()));
        }
        lemma_lt_extension(encode_utf8(prefix_text(collection)), encode_utf8(id));
    }
}

/// The end of a collection's range comes after the key of every id that does
/// not start with U+10FFFF.
pub proof fn law_range_ends_after_keys(collection: Seq<char>, id: Seq<char>)
    requires
        id.len() == 0 || id[0] != last_char(),
    ensures
        bytes_lt(
            encode_utf8(key_text(collection, id)),
            encode_utf8(bound_text(collection, Seq::empty())),
        ),
{
    let start = encode_utf8(prefix_text(collection));
    lemma_key_layout(collection, id);
    lemma_key_layout(collection, Seq::empty());
    assert(key_text(collection, Seq::empty()) =~= prefix_text(collection));
    lemma_text_below_last_char(id);
    lemma_lt_after_common_prefix(start, encode_utf8(id), last_char_bytes());
}

/// The key just past an id comes after the key of the id.
pub proof fn law_bound_after_key(collection: Seq<char>, id: Seq<char>)
    ensures
        bytes_lt(encode_utf8(key_text(collection, id)), encode_utf8(bound_text(collection, id))),
{
    lemma_key_layout(collection, id);
    lemma_lt_extension(encode_utf8(key_text(collection, id)), last_char_bytes());
}

/// Inside a collection the keys are ordered as the encodings of their ids.
pub proof fn law_keys_ordered_as_ids(collection: Seq<char>, a: Seq<char>, b: Seq<char>)
    ensures
        bytes_lt(encode_utf8(key_text(collection, a)), encode_utf8(key_text(collection, b)))
            == bytes_lt(encode_utf8(a), encode_utf8(b)),
{
    lemma_key_layout(collection, a);
    lemma_key_layout(collection, b);
    lemma_lt_after_common_prefix(
        encode_utf8(prefix_text(collection)),
        encode_utf8(a),
        encode_utf8(b),
    );
}

/// A key lies at or before the key just past a cursor exactly if its id comes
/// at or before the cursor, unless the id's encoding is a proper extension of
/// the cursor's: such an id comes after the cursor and yet before the key
/// just past it.
pub proof fn law_bound_covers_up_to_cursor(collection: Seq<char>, id: Seq<char>, cursor: Seq<char>)
    requires
        !proper_prefix(encode_utf8(cursor), encode_utf8(id)),
    ensures
        bytes_le(encode_utf8(key_text(collection, id)), encode_utf8(bound_text(collection, cursor)))
            == bytes_le(encode_utf8(id), encode_utf8(cursor)),
{
    let start = encode_utf8(prefix_text(collection));
    let a = encode_utf8(id);
    let b = encode_utf8(cursor);
    let top = last_char_bytes();
    lemma_key_layout(collection, id);
    lemma_key_layout(collection, cursor);
    assert(encode_utf8(bound_text(collection, cursor)) =~= start + (b + top));
    lemma_lt_after_common_prefix(start, a, b + top);
    lemma_le_extension(a, b, top);
    assert((start + a == start + (b + top)) == (a == b + top)) by {
        if start + a == start + (b + top) {
            assert(a =~= (start + a).skip(start.len() as int));
            assert(b + top =~= (start + (b + top)).skip(start.len() as int));
        }
    }
}

/// Two pairs of a collection and an id have the same key only if they are
/// the same pair, where neither collection holds a colon.
pub proof fn law_keys_distinct(c1: Seq<char>, id1: Seq<char>, c2: Seq<char>, id2: Seq<char>)
    requires
        !c1.contains(':'),
        !c2.contains(':'),
        encode_utf8(key_text(c1, id1)) == encode_utf8(key_text(c2, id2)),
    ensures
        c1 == c2,
        id1 == id2,
{
    let t1 = key_text(c1, id1);
    let t2 = key_text(c2, id2);
    crate::text::lemma_same_bytes_same_chars(t1, t2);
    assert(t1[c1.len() as int] == ':');
    assert(t2[c2.len() as int] == ':');
    if c1.len() < c2.len() {
        assert(t2[c1.len() as int] == c2[c1.len() as int]);
        assert(c2.contains(c2[c1.len() as int]));
    } else if c2.len() < c1.len() {
        assert(t1[c2.len() as int] == c1[c2.len() as int]);
        assert(c1.contains(c1[c2.len() as int]));
    }
    assert(c1 =~= t1.subrange(0, c1.len() as int));
    assert(c2 =~= t2.subrange(0, c2.len() as int));
    assert(id1 =~= t1.skip(c1.len() as int + 1));
    assert(id2 =~= t2.skip(c2.len() as int + 1));
}

} // verus!
