//! The mathematical value of a JSON document.

use vstd::prelude::*;

verus! {

/// The mathematical value of a JSON document.
///
/// Objects are maps, so two documents that differ only in the order of their
/// fields have the same value. Integers are unbounded; a floating-point number
/// is identified by its IEEE-754 bits, with negative zero folded into zero.
pub enum Value {
    Null,
    Bool(bool),
    Int(int),
    Float(u64),
    String(Seq<char>),
    Array(Seq<Value>),
    Object(Map<Seq<char>, Value>),
}

impl Value {
    /// The field `key` of an object; nothing for a value that is no object.
    pub open spec fn field(self, key: Seq<char>) -> Option<Value> {
        match self {
            Value::Object(m) => if m.dom().contains(key) {
                Some(m[key])
            } else {
                None
            },
            _ => None,
        }
    }

    /// The items of an array; none for a value that is no array.
    pub open spec fn items(self) -> Seq<Value> {
        match self {
            Value::Array(items) => items,
            _ => Seq::empty(),
        }
    }
}

/// The integer that a value holds, where it is one that fits in 64 signed bits.
pub open spec fn value_as_i64(v: Value) -> Option<i64> {
    match v {
        Value::Int(n) => if i64::MIN <= n <= i64::MAX {
            Some(n as i64)
        } else {
            None
        },
        _ => None,
    }
}

} // verus!
