//! JSON documents: the trees that the operations of this crate work on.

use vstd::prelude::*;
use crate::fields::{
    distinct_keys,
    field_keys,
    fields_put,
    first_index,
    is_first_at,
    law_put_keeps_distinct,
    lemma_filter_keeps_all,
    lemma_filter_keeps_distinct,
    lemma_filter_skips,
    lemma_first_index,
    lemma_first_index_is,
    lemma_map_of_put,
    lemma_map_of_remove_at,
    map_of,
    other_key,
};
use crate::text::str_eq;
use crate::value::{value_as_i64, Value};

verus! {

/// A JSON number: a non-negative integer, a negative integer, or the IEEE-754
/// bits of a binary64 floating-point number.
#[derive(Clone, Copy, Debug)]
pub enum Number {
    PosInt(u64),
    NegInt(i64),
    Float(u64),
}

/// A JSON document tree.
#[derive(Debug)]
pub enum Json {
    Null,
    Bool(bool),
    Number(Number),
    String(String),
    Array(Vec<Json>),
    Object(JsonMap),
}

/// A JSON object: its fields in insertion order.
///
/// A well-formed object has no two entries with the same key, and what this
/// crate makes of well-formed documents is well formed. Where a key does
/// occur more than once, the first occurrence is the field and the later
/// ones are shadowed.
#[derive(Debug)]
pub struct JsonMap {
    pub entries: Vec<(String, Json)>,
}

/// The bits of negative zero.
pub const NEG_ZERO_BITS: u64 = 0x8000_0000_0000_0000;

impl View for Number {
    type V = Value;

    open spec fn view(&self) -> Value {
        match *self {
            Number::PosInt(u) => Value::Int(u as int),
            Number::NegInt(i) => Value::Int(i as int),
            Number::Float(bits) => Value::Float(if bits == NEG_ZERO_BITS { 0 } else { bits }),
        }
    }
}

/// The values of a list of documents, in order.
pub open spec fn items_view(items: Seq<Json>) -> Seq<Value>
    decreases items,
{
    Seq::new(
        items.len(),
        |i: int|
            if 0 <= i < items.len() {
                items[i]@
            } else {
                Value::Null
            },
    )
}

/// The fields of a list of entries, in order: each key with the value of its
/// document.
pub open spec fn entry_fields(entries: Seq<(String, Json)>) -> Seq<(Seq<char>, Value)>
    decreases entries,
{
    Seq::new(
        entries.len(),
        |i: int|
            if 0 <= i < entries.len() {
                (entries[i].0@, entries[i].1@)
            } else {
                (Seq::empty(), Value::Null)
            },
    )
}

impl View for Json {
    type V = Value;

    open spec fn view(&self) -> Value
        decreases self,
    {
        match self {
            Json::Null => Value::Null,
            Json::Bool(b) => Value::Bool(*b),
            Json::Number(n) => n@,
            Json::String(s) => Value::String(s@),
            Json::Array(items) => Value::Array(items_view(items@)),
            Json::Object(m) => Value::Object(map_of(entry_fields(m.entries@))),
        }
    }
}

impl View for JsonMap {
    type V = Map<Seq<char>, Value>;

    open spec fn view(&self) -> Map<Seq<char>, Value> {
        map_of(self.fields())
    }
}

/// Whether each document of a list is well formed.
pub open spec fn items_well_formed(items: Seq<Json>) -> bool
    decreases items,
{
    forall|i: int| 0 <= i < items.len() ==> (#[trigger] items[i]).well_formed()
}

/// Whether no two entries of a list have the same key and the document of
/// each is well formed.
pub open spec fn entries_well_formed(entries: Seq<(String, Json)>) -> bool
    decreases entries,
{
    &&& distinct_keys(entry_fields(entries))
    &&& forall|i: int| 0 <= i < entries.len() ==> (#[trigger] entries[i]).1.well_formed()
}

impl Number {
    /// Whether the number is in the one form that stands for its value: a
    /// negative integer is below zero, and the bits of a floating-point
    /// number are those of a finite one.
    pub open spec fn well_formed(self) -> bool {
        match self {
            Number::PosInt(_) => true,
            Number::NegInt(i) => i < 0,
            Number::Float(bits) => (bits >> 52) & 0x7FF != 0x7FF,
        }
    }
}

impl Json {
    /// Whether the document is one that JSON text can hold: throughout it, no
    /// object has two entries with the same key and every number is well
    /// formed.
    pub open spec fn well_formed(&self) -> bool
        decreases self,
    {
        match self {
            Json::Number(n) => n.well_formed(),
            Json::Array(items) => items_well_formed(items@),
            Json::Object(m) => entries_well_formed(m.entries@),
            _ => true,
        }
    }
}

impl JsonMap {
    /// The fields in order, each key with the value bound to it.
    pub open spec fn fields(&self) -> Seq<(Seq<char>, Value)> {
        entry_fields(self.entries@)
    }

    /// The keys in order.
    pub open spec fn keys(&self) -> Seq<Seq<char>> {
        field_keys(self.fields())
    }

    /// Whether no two entries have the same key and the document of each is
    /// well formed.
    pub open spec fn well_formed(&self) -> bool {
        entries_well_formed(self.entries@)
    }

    /// An object without fields.
    pub fn new() -> (m: JsonMap)
        ensures
            m@ == Map::<Seq<char>, Value>::empty(),
            m.fields() == Seq::<(Seq<char>, Value)>::empty(),
            m.well_formed(),
    {
        let m = JsonMap { entries: Vec::new() };
        proof {
            assert forall|k: Seq<char>| !m@.dom().contains(k) by {
                lemma_first_index(m.keys(), k);
            }
            assert(m@ =~= Map::<Seq<char>, Value>::empty());
            assert(m.fields() =~= Seq::<(Seq<char>, Value)>::empty());
        }
        m
    }

    /// The number of entries.
    pub fn len(&self) -> (n: usize)
        ensures
            n == self.fields().len(),
    {
        self.entries.len()
    }

    /// The position of the entry that binds `key`.
    pub fn index_of(&self, key: &str) -> (found: Option<usize>)
        ensures
            match found {
                Some(i) => is_first_at(self.keys(), key@, i as int) && self@.dom().contains(key@)
                    && self@[key@] == self.entries@[i as int].1@,
                None => !self@.dom().contains(key@),
            },
    {
        let n = self.entries.len();
        let mut i: usize = 0;
        while i < n
            invariant
                n == self.entries@.len(),
                i <= n,
                forall|j: int| 0 <= j < i ==> self.keys()[j] != key@,
            decreases n - i,
        {
            if str_eq(self.entries[i].0.as_str(), key) {
                proof {
                    assert(is_first_at(self.keys(), key@, i as int));
                    lemma_first_index_is(self.keys(), key@, i as int);
                }
                return Some(i);
            }
            i += 1;
        }
        proof {
            lemma_first_index(self.keys(), key@);
        }
        None
    }

    /// Whether `key` is bound.
    pub fn contains_key(&self, key: &str) -> (found: bool)
        ensures
            found == self@.dom().contains(key@),
    {
        self.index_of(key).is_some()
    }

    /// The value bound to `key`.
    pub fn get(&self, key: &str) -> (found: Option<&Json>)
        ensures
            match found {
                Some(v) => self@.dom().contains(key@) && self@[key@] == v@ && (self.well_formed()
                    ==> v.well_formed()),
                None => !self@.dom().contains(key@),
            },
    {
        match self.index_of(key) {
            Some(i) => Some(&self.entries[i].1),
            None => None,
        }
    }

    /// Binds `key` to `value`. A key that is already bound keeps its place
    /// among the fields; a new key goes to the end.
    pub fn insert(&mut self, key: String, value: Json)
        ensures
            final(self)@ == old(self)@.insert(key@, value@),
            final(self).fields() == fields_put(old(self).fields(), key@, value@),
            old(self).well_formed() && value.well_formed() ==> final(self).well_formed(),
    {
        let ghost before = self.fields();
        let ghost entry = (key@, value@);
        proof {
            lemma_map_of_put(before, entry.0, entry.1);
            if distinct_keys(before) {
                law_put_keeps_distinct(before, entry.0, entry.1);
            }
        }
        match self.index_of(key.as_str()) {
            Some(i) => {
                proof {
                    lemma_first_index_is(self.keys(), key@, i as int);
                }
                self.entries.set(i, (key, value));
                assert(self.fields() =~= before.update(i as int, entry));
            },
            None => {
                self.entries.push((key, value));
                assert(self.fields() =~= before.push(entry));
            },
        }
    }

    /// Unbinds `key`: every entry with that key is taken out, and the other
    /// fields keep their order.
    pub fn remove(&mut self, key: &str)
        ensures
            final(self)@ == old(self)@.remove(key@),
            final(self).fields() == old(self).fields().filter(other_key(key@)),
            old(self).well_formed() ==> final(self).well_formed(),
    {
        let ghost test = other_key(key@);
        proof {
            if distinct_keys(self.fields()) {
                lemma_filter_keeps_distinct(self.fields(), test);
            }
        }
        loop
            invariant
                test == other_key(key@),
                old(self).well_formed() ==> forall|j: int|
                    0 <= j < self.entries@.len() ==> (#[trigger] self.entries@[j]).1.well_formed(),
                self@.remove(key@) == old(self)@.remove(key@),
                self.fields().filter(test) == old(self).fields().filter(test),
            ensures
                !self@.dom().contains(key@),
                self@.remove(key@) == old(self)@.remove(key@),
                self.fields().filter(test) == old(self).fields().filter(test),
                old(self).well_formed() ==> forall|j: int|
                    0 <= j < self.entries@.len() ==> (#[trigger] self.entries@[j]).1.well_formed(),
            decreases self.entries@.len(),
        {
            match self.index_of(key) {
                Some(i) => {
                    let ghost before = self.fields();
                    self.entries.remove(i);
                    proof {
                        assert(self.fields() =~= before.remove(i as int));
                        assert forall|k: Seq<char>| k != key@ implies (#[trigger] self@.dom().contains(k))
                            == map_of(before).dom().contains(k) && (self@.dom().contains(k)
                            ==> self@[k] == map_of(before)[k]) by {
                            lemma_map_of_remove_at(before, i as int, k);
                        }
                        assert(self@.remove(key@) =~= map_of(before).remove(key@));
                        lemma_filter_skips(before, i as int, test);
                    }
                },
                None => {
                    break ;
                },
            }
        }
        proof {
            assert(self@.remove(key@) =~= self@);
            assert forall|i: int| 0 <= i < self.fields().len() implies test(self.fields()[i]) by {
                lemma_first_index(self.keys(), key@);
                assert(self.keys()[i] == self.fields()[i].0);
            }
            lemma_filter_keeps_all(self.fields(), test);
        }
    }
}

impl Number {
    /// The number that holds the integer `i`.
    pub fn from_i64(i: i64) -> (n: Number)
        ensures
            n@ == Value::Int(i as int),
            n == (if i < 0 {
                Number::NegInt(i)
            } else {
                Number::PosInt(i as u64)
            }),
            n.well_formed(),
    {
        if i < 0 {
            Number::NegInt(i)
        } else {
            Number::PosInt(i as u64)
        }
    }

    /// The integer held, where it fits in 64 signed bits.
    pub fn as_i64(&self) -> (held: Option<i64>)
        ensures
            held == value_as_i64(self@),
    {
        match *self {
            Number::PosInt(u) => if u <= 0x7fff_ffff_ffff_ffff {
                Some(u as i64)
            } else {
                None
            },
            Number::NegInt(i) => Some(i),
            Number::Float(_) => None,
        }
    }

    /// Whether two numbers have the same value.
    pub fn equals(&self, other: &Number) -> (same: bool)
        ensures
            same == (self@ == other@),
    {
        match (*self, *other) {
            (Number::PosInt(a), Number::PosInt(b)) => a == b,
            (Number::NegInt(a), Number::NegInt(b)) => a == b,
            (Number::PosInt(a), Number::NegInt(b)) => b >= 0 && a == b as u64,
            (Number::NegInt(a), Number::PosInt(b)) => a >= 0 && a as u64 == b,
            (Number::Float(a), Number::Float(b)) => {
                let x = if a == NEG_ZERO_BITS {
                    0
                } else {
                    a
                };
                let y = if b == NEG_ZERO_BITS {
                    0
                } else {
                    b
                };
                x == y
            },
            _ => false,
        }
    }
}

/// Whether two lists of documents have the same values, position by position.
pub fn items_equal(a: &Vec<Json>, b: &Vec<Json>) -> (same: bool)
    ensures
        same == (items_view(a@) == items_view(b@)),
    decreases a,
{
    if a.len() != b.len() {
        assert(items_view(a@).len() != items_view(b@).len());
        return false;
    }
    let n = a.len();
    let mut i: usize = 0;
    while i < n
        invariant
            n == a@.len(),
            n == b@.len(),
            i <= n,
            forall|j: int| 0 <= j < i ==> a@[j]@ == b@[j]@,
        decreases n - i,
    {
        if !a[i].equals(&b[i]) {
            assert(items_view(a@)[i as int] != items_view(b@)[i as int]);
            return false;
        }
        i += 1;
    }
    assert(items_view(a@) =~= items_view(b@));
    true
}

impl JsonMap {
    /// Whether two objects bind the same keys to the same values, in whatever
    /// order their fields stand.
    pub fn equals(&self, other: &JsonMap) -> (same: bool)
        ensures
            same == (self@ == other@),
        decreases self,
    {
        let n = self.entries.len();
        let mut i: usize = 0;
        while i < n
            invariant
                n == self.entries@.len(),
                i <= n,
                forall|j: int|
                    0 <= j < i ==> other@.dom().contains(#[trigger] self.keys()[j]) && self@[self.keys()[j]]
                        == other@[self.keys()[j]],
            decreases n - i,
        {
            let key = self.entries[i].0.as_str();
            let mine = self.index_of(key);
            let theirs = other.index_of(key);
            match (mine, theirs) {
                (Some(p), Some(q)) => {
                    if !self.entries[p].1.equals(&other.entries[q].1) {
                        assert(self@[key@] != other@[key@]);
                        return false;
                    }
                },
                _ => {
                    proof {
                        assert(self.keys()[i as int] == key@);
                        lemma_first_index(self.keys(), key@);
                    }
                    assert(self@.dom().contains(key@) != other@.dom().contains(key@));
                    return false;
                },
            }
            i += 1;
        }
        let m = other.entries.len();
        let mut j: usize = 0;
        while j < m
            invariant
                m == other.entries@.len(),
                j <= m,
                forall|t: int| 0 <= t < j ==> self@.dom().contains(#[trigger] other.keys()[t]),
            decreases m - j,
        {
            if !self.contains_key(other.entries[j].0.as_str()) {
                proof {
                    let key = other.keys()[j as int];
                    lemma_first_index(other.keys(), key);
                    assert(other@.dom().contains(key));
                }
                return false;
            }
            j += 1;
        }
        proof {
            assert forall|k: Seq<char>| #[trigger]
                self@.dom().contains(k) == other@.dom().contains(k) && (self@.dom().contains(k)
                    ==> self@[k] == other@[k]) by {
                lemma_first_index(self.keys(), k);
                lemma_first_index(other.keys(), k);
                let c = first_index(self.keys(), k);
                let d = first_index(other.keys(), k);
                if c >= 0 {
                    assert(self.keys()[c] == k);
                }
                if d >= 0 {
                    assert(other.keys()[d] == k);
                }
            }
            assert(self@ =~= other@);
        }
        true
    }

    /// A copy of this object, field by field.
    pub fn duplicate(&self) -> (copy: JsonMap)
        ensures
            copy@ == self@,
            copy.fields() == self.fields(),
            self.well_formed() ==> copy.well_formed(),
        decreases self,
    {
        let mut entries: Vec<(String, Json)> = Vec::new();
        let n = self.entries.len();
        let mut i: usize = 0;
        while i < n
            invariant
                n == self.entries@.len(),
                i <= n,
                entries@.len() == i,
                forall|j: int|
                    0 <= j < i ==> entries@[j].0@ == self.entries@[j].0@ && entries@[j].1@
                        == self.entries@[j].1@,
                self.well_formed() ==> forall|j: int|
                    0 <= j < i ==> (#[trigger] entries@[j]).1.well_formed(),
            decreases n - i,
        {
            let key = self.entries[i].0.clone();
            let value = self.entries[i].1.duplicate();
            entries.push((key, value));
            i += 1;
        }
        let copy = JsonMap { entries };
        assert(copy.fields() =~= self.fields());
        copy
    }
}

/// A copy of a list of documents.
pub fn duplicate_items(items: &Vec<Json>) -> (copy: Vec<Json>)
    ensures
        items_view(copy@) == items_view(items@),
        items_well_formed(items@) ==> items_well_formed(copy@),
    decreases items,
{
    let mut copy: Vec<Json> = Vec::new();
    let n = items.len();
    let mut i: usize = 0;
    while i < n
        invariant
            n == items@.len(),
            i <= n,
            copy@.len() == i,
            forall|j: int| 0 <= j < i ==> copy@[j]@ == items@[j]@,
            items_well_formed(items@) ==> forall|j: int|
                0 <= j < i ==> (#[trigger] copy@[j]).well_formed(),
        decreases n - i,
    {
        copy.push(items[i].duplicate());
        i += 1;
    }
    assert(items_view(copy@) =~= items_view(items@));
    copy
}

impl Json {
    /// Whether two documents have the same value: numbers by their value,
    /// arrays position by position, objects as maps.
    pub fn equals(&self, other: &Json) -> (same: bool)
        ensures
            same == (self@ == other@),
        decreases self,
    {
        match (self, other) {
            (Json::Null, Json::Null) => true,
            (Json::Bool(a), Json::Bool(b)) => *a == *b,
            (Json::Number(a), Json::Number(b)) => a.equals(b),
            (Json::String(a), Json::String(b)) => str_eq(a.as_str(), b.as_str()),
            (Json::Array(a), Json::Array(b)) => items_equal(a, b),
            (Json::Object(a), Json::Object(b)) => a.equals(b),
            _ => false,
        }
    }

    /// A copy of this document.
    pub fn duplicate(&self) -> (copy: Json)
        ensures
            copy@ == self@,
            self.well_formed() ==> copy.well_formed(),
        decreases self,
    {
        match self {
            Json::Null => Json::Null,
            Json::Bool(b) => Json::Bool(*b),
            Json::Number(n) => Json::Number(*n),
            Json::String(s) => Json::String(s.clone()),
            Json::Array(items) => Json::Array(duplicate_items(items)),
            Json::Object(m) => Json::Object(m.duplicate()),
        }
    }
}

impl Json {
    /// The field `key` of an object; nothing for a document that is no object.
    pub fn get(&self, key: &str) -> (found: Option<&Json>)
        ensures
            match found {
                Some(v) => self@.field(key@) == Some(v@) && (self.well_formed()
                    ==> v.well_formed()),
                None => self@.field(key@) is None,
            },
    {
        match self {
            Json::Object(m) => m.get(key),
            _ => None,
        }
    }

    /// The text of a string.
    pub fn as_str(&self) -> (text: Option<&str>)
        ensures
            match text {
                Some(s) => self@ == Value::String(s@),
                None => !(self@ is String),
            },
    {
        match self {
            Json::String(s) => Some(s.as_str()),
            _ => None,
        }
    }

    /// The integer of a number that fits in 64 signed bits.
    pub fn as_i64(&self) -> (held: Option<i64>)
        ensures
            held == value_as_i64(self@),
    {
        match self {
            Json::Number(n) => n.as_i64(),
            _ => None,
        }
    }

    /// The items of an array.
    pub fn as_array(&self) -> (items: Option<&Vec<Json>>)
        ensures
            match items {
                Some(v) => self@ == Value::Array(items_view(v@)) && *self == Json::Array(*v),
                None => !(self@ is Array) && !(self is Array),
            },
    {
        match self {
            Json::Array(items) => Some(items),
            _ => None,
        }
    }

    /// The fields of an object.
    pub fn as_object(&self) -> (fields: Option<&JsonMap>)
        ensures
            match fields {
                Some(m) => self@ == Value::Object(m@) && *self == Json::Object(*m),
                None => !(self@ is Object) && !(self is Object),
            },
    {
        match self {
            Json::Object(m) => Some(m),
            _ => None,
        }
    }
}

impl PartialEq for Json {
    fn eq(&self, other: &Json) -> (same: bool) {
        self.equals(other)
    }
}

impl vstd::std_specs::cmp::PartialEqSpecImpl for Json {
    open spec fn obeys_eq_spec() -> bool {
        true
    }

    open spec fn eq_spec(&self, other: &Json) -> bool {
        self@ == other@
    }
}

impl PartialEq for JsonMap {
    fn eq(&self, other: &JsonMap) -> (same: bool) {
        self.equals(other)
    }
}

impl vstd::std_specs::cmp::PartialEqSpecImpl for JsonMap {
    open spec fn obeys_eq_spec() -> bool {
        true
    }

    open spec fn eq_spec(&self, other: &JsonMap) -> bool {
        self@ == other@
    }
}

} // verus!
