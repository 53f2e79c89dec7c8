//! The order of keys: byte strings compared byte by byte, a proper prefix
//! before what it is a prefix of.

use vstd::prelude::*;

verus! {

/// Whether `a` comes before `b`.
pub open spec fn bytes_lt(a: Seq<u8>, b: Seq<u8>) -> bool
    decreases a.len(),
{
    if b.len() == 0 {
        false
    } else if a.len() == 0 {
        true
    } else if a[0] != b[0] {
        a[0] < b[0]
    } else {
        bytes_lt(a.drop_first(), b.drop_first())
    }
}

/// Whether `a` comes before `b` or is `b`.
pub open spec fn bytes_le(a: Seq<u8>, b: Seq<u8>) -> bool {
    a == b || bytes_lt(a, b)
}

/// Whether `a` is a prefix of `b` and shorter than `b`.
pub open spec fn proper_prefix(a: Seq<u8>, b: Seq<u8>) -> bool {
    a.len() < b.len() && a.is_prefix_of(b)
}

/// Nothing comes before itself.
pub proof fn lemma_lt_irreflexive(a: Seq<u8>)
    ensures
        !bytes_lt(a, a),
    decreases a.len(),
{
    if a.len() > 0 {
        lemma_lt_irreflexive(a.drop_first());
    }
}

/// Of two byte strings that differ, exactly one comes before the other.
pub proof fn law_order_total(a: Seq<u8>, b: Seq<u8>)
    ensures
        a != b ==> (bytes_lt(a, b) != bytes_lt(b, a)),
        a == b ==> !bytes_lt(a, b),
    decreases a.len(),
{
    if a == b {
        lemma_lt_irreflexive(a);
    } else if a.len() > 0 && b.len() > 0 {
        if a[0] == b[0] {
            assert(a.drop_first() != b.drop_first()) by {
                if a.drop_first() == b.drop_first() {
                    assert(a =~= seq![a[0]] + a.drop_first());
                    assert(b =~= seq![b[0]] + b.drop_first());
                }
            }
            law_order_total(a.drop_first(), b.drop_first());
        }
    } else if a.len() == 0 && b.len() == 0 {
        assert(a =~= b);
    }
}

/// What comes before something that comes before a third comes before the
/// third.
pub proof fn law_order_transitive(a: Seq<u8>, b: Seq<u8>, c: Seq<u8>)
    requires
        bytes_lt(a, b),
        bytes_lt(b, c),
    ensures
        bytes_lt(a, c),
    decreases a.len(),
{
    if a.len() > 0 {
        if a[0] == b[0] && b[0] == c[0] {
            law_order_transitive(a.drop_first(), b.drop_first(), c.drop_first());
        }
    }
}

/// Two byte strings that start alike compare as what follows the common
/// start.
pub proof fn lemma_lt_after_common_prefix(p: Seq<u8>, a: Seq<u8>, b: Seq<u8>)
    ensures
        bytes_lt(p + a, p + b) == bytes_lt(a, b),
    decreases p.len(),
{
    if p.len() == 0 {
        assert(p + a =~= a);
        assert(p + b =~= b);
    } else {
        assert((p + a).drop_first() =~= p.drop_first() + a);
        assert((p + b).drop_first() =~= p.drop_first() + b);
        lemma_lt_after_common_prefix(p.drop_first(), a, b);
    }
}

/// A byte string comes before every proper extension of it.
pub proof fn lemma_lt_extension(a: Seq<u8>, more: Seq<u8>)
    requires
        more.len() > 0,
    ensures
        bytes_lt(a, a + more),
{
    lemma_lt_after_common_prefix(a, Seq::empty(), more);
    assert(a + Seq::<u8>::empty() =~= a);
}

/// Where `b` is no proper prefix of `a`, `a` comes at or before an extension
/// of `b` exactly if it comes at or before `b` itself.
pub proof fn lemma_le_extension(a: Seq<u8>, b: Seq<u8>, more: Seq<u8>)
    requires
        !proper_prefix(b, a),
    ensures
        bytes_le(a, b + more) == bytes_le(a, b),
    decreases a.len(),
{
    if more.len() == 0 {
        assert(b + more =~= b);
    } else if b.len() == 0 {
        assert(a.len() == 0);
        assert(a =~= b);
        assert(b + more =~= more);
    } else if a.len() == 0 {
    } else if a[0] == b[0] {
        let ta = a.drop_first();
        let tb = b.drop_first();
        assert((b + more).drop_first() =~= tb + more);
        assert(!proper_prefix(tb, ta)) by {
            if proper_prefix(tb, ta) {
                assert(b =~= seq![b[0]] + tb);
                assert(b.is_prefix_of(a));
            }
        }
        lemma_le_extension(ta, tb, more);
        assert(a =~= seq![a[0]] + ta);
        assert(b =~= seq![b[0]] + tb);
        assert(b + more =~= seq![b[0]] + (tb + more));
        assert((a == b) == (ta == tb));
        assert((a == b + more) == (ta == tb + more));
    } else {
        assert((b + more)[0] == b[0]);
    }
}

} // verus!
