//! The field operators of an update and the payloads that carry them.
//!
//! In an update, a field's value is either a literal, which is stored as it
//! stands, or an object tagged with the reserved key `__op`, which asks for a
//! change relative to what the document holds.

use vstd::prelude::*;
use vstd::string::*;
use crate::json::{duplicate_items, items_view, items_well_formed, Json, JsonMap, Number};
use crate::text::str_eq;
use crate::value::{Value, value_as_i64};

verus! {

/// What an update asks for one field, as a mathematical value.
pub enum OperatorValue {
    /// Store the value as it stands.
    Literal,
    /// Add to the integer that the field holds.
    Increment(i64),
    /// Take the field out.
    Remove,
    /// Append to the field's array the values that it lacks.
    ArrayUnion(Seq<Value>),
    /// Drop from the field's array the values listed.
    ArrayRemove(Seq<Value>),
}

/// What an update asks for one field.
#[derive(Debug)]
pub enum Operator {
    /// Store the value as it stands.
    Literal,
    /// Add to the integer that the field holds.
    Increment(i64),
    /// Take the field out.
    Remove,
    /// Append to the field's array the values that it lacks.
    ArrayUnion(Vec<Json>),
    /// Drop from the field's array the values listed.
    ArrayRemove(Vec<Json>),
}

impl View for Operator {
    type V = OperatorValue;

    open spec fn view(&self) -> OperatorValue {
        match self {
            Operator::Literal => OperatorValue::Literal,
            Operator::Increment(delta) => OperatorValue::Increment(*delta),
            Operator::Remove => OperatorValue::Remove,
            Operator::ArrayUnion(values) => OperatorValue::ArrayUnion(items_view(values@)),
            Operator::ArrayRemove(values) => OperatorValue::ArrayRemove(items_view(values@)),
        }
    }
}

impl Operator {
    /// Whether the values that the operator carries are well formed.
    pub open spec fn well_formed(&self) -> bool {
        match self {
            Operator::ArrayUnion(values) => items_well_formed(values@),
            Operator::ArrayRemove(values) => items_well_formed(values@),
            _ => true,
        }
    }
}

/// The amount of an increment: the integer under `amount`, and 0 where there
/// is none that fits in 64 signed bits.
pub open spec fn amount_of(payload: Value) -> i64 {
    match payload.field("amount"@) {
        Some(amount) => match value_as_i64(amount) {
            Some(delta) => delta,
            None => 0,
        },
        None => 0,
    }
}

/// The values of an array operator: the items of the array under `values`,
/// and none where there is no array.
pub open spec fn values_of(payload: Value) -> Seq<Value> {
    match payload.field("values"@) {
        Some(values) => values.items(),
        None => Seq::empty(),
    }
}

/// The operator that a field's value stands for. A value is an operator where
/// it is an object whose `__op` is one of the four known tags; every other
/// value, an unknown tag included, is a literal.
pub open spec fn operator_of(payload: Value) -> OperatorValue {
    match payload.field("__op"@) {
        Some(Value::String(tag)) => {
            if tag == "inc"@ {
                OperatorValue::Increment(amount_of(payload))
            } else if tag == "remove"@ {
                OperatorValue::Remove
            } else if tag == "array_union"@ {
                OperatorValue::ArrayUnion(values_of(payload))
            } else if tag == "array_remove"@ {
                OperatorValue::ArrayRemove(values_of(payload))
            } else {
                OperatorValue::Literal
            }
        },
        _ => OperatorValue::Literal,
    }
}

/// The values of an array operator's payload.
fn payload_values(payload: &Json) -> (values: Vec<Json>)
    ensures
        items_view(values@) == values_of(payload@),
        payload.well_formed() ==> items_well_formed(values@),
{
    match payload.get("values") {
        Some(values) => match values.as_array() {
            Some(items) => duplicate_items(items),
            None => {
                let none: Vec<Json> = Vec::new();
                assert(items_view(none@) =~= Seq::<Value>::empty());
                none
            },
        },
        None => {
            let none: Vec<Json> = Vec::new();
            assert(items_view(none@) =~= Seq::<Value>::empty());
            none
        },
    }
}

impl Operator {
    /// Reads the operator that a field's value stands for.
    pub fn of(payload: &Json) -> (op: Operator)
        ensures
            op@ == operator_of(payload@),
            payload.well_formed() ==> op.well_formed(),
    {
        let tag = match payload.get("__op") {
            Some(tag) => match tag.as_str() {
                Some(text) => text,
                None => {
                    return Operator::Literal;
                },
            },
            None => {
                return Operator::Literal;
            },
        };
        if str_eq(tag, "inc") {
            let delta = match payload.get("amount") {
                Some(amount) => match amount.as_i64() {
                    Some(delta) => delta,
                    None => 0,
                },
                None => 0,
            };
            Operator::Increment(delta)
        } else if str_eq(tag, "remove") {
            Operator::Remove
        } else if str_eq(tag, "array_union") {
            Operator::ArrayUnion(payload_values(payload))
        } else if str_eq(tag, "array_remove") {
            Operator::ArrayRemove(payload_values(payload))
        } else {
            Operator::Literal
        }
    }
}

/// The payload that asks to add `amount` to a field.
pub fn increment(amount: i64) -> (payload: Json)
    ensures
        payload@ == Value::Object(
            map!["__op"@ => Value::String("inc"@), "amount"@ => Value::Int(amount as int)],
        ),
        operator_of(payload@) == OperatorValue::Increment(amount),
        payload.well_formed(),
{
    let mut m = JsonMap::new();
    m.insert("__op".to_owned(), Json::String("inc".to_owned()));
    m.insert("amount".to_owned(), Json::Number(Number::from_i64(amount)));
    proof {
        reveal_strlit("__op");
        reveal_strlit("amount");
        assert("__op"@ != "amount"@) by {
            assert("__op"@.len() != "amount"@.len());
        }
        assert(m@ =~= map!["__op"@ => Value::String("inc"@), "amount"@ => Value::Int(amount as int)]);
    }
    Json::Object(m)
}

/// The payload that asks to take a field out.
pub fn remove() -> (payload: Json)
    ensures
        payload@ == Value::Object(map!["__op"@ => Value::String("remove"@)]),
        operator_of(payload@) == OperatorValue::Remove,
        payload.well_formed(),
{
    let mut m = JsonMap::new();
    m.insert("__op".to_owned(), Json::String("remove".to_owned()));
    proof {
        reveal_strlit("inc");
        reveal_strlit("remove");
        assert("inc"@ != "remove"@) by {
            assert("inc"@.len() != "remove"@.len());
        }
        assert(m@ =~= map!["__op"@ => Value::String("remove"@)]);
    }
    Json::Object(m)
}

/// The payload that asks to append to a field's array those of `values` that
/// it lacks.
pub fn array_union(values: Json) -> (payload: Json)
    ensures
        payload@ == Value::Object(
            map!["__op"@ => Value::String("array_union"@), "values"@ => values@],
        ),
        operator_of(payload@) == OperatorValue::ArrayUnion(values@.items()),
        values.well_formed() ==> payload.well_formed(),
{
    let mut m = JsonMap::new();
    m.insert("__op".to_owned(), Json::String("array_union".to_owned()));
    m.insert("values".to_owned(), values);
    proof {
        reveal_strlit("__op");
        reveal_strlit("values");
        reveal_strlit("inc");
        reveal_strlit("remove");
        reveal_strlit("array_union");
        assert("__op"@ != "values"@) by {
            assert("__op"@.len() != "values"@.len());
        }
        assert("array_union"@ != "inc"@) by {
            assert("array_union"@.len() != "inc"@.len());
        }
        assert("array_union"@ != "remove"@) by {
            assert("array_union"@.len() != "remove"@.len());
        }
        assert(m@ =~= map!["__op"@ => Value::String("array_union"@), "values"@ => values@]);
    }
    Json::Object(m)
}

/// The payload that asks to drop from a field's array every item that equals
/// one of `values`.
pub fn array_remove(values: Json) -> (payload: Json)
    ensures
        payload@ == Value::Object(
            map!["__op"@ => Value::String("array_remove"@), "values"@ => values@],
        ),
        operator_of(payload@) == OperatorValue::ArrayRemove(values@.items()),
        values.well_formed() ==> payload.well_formed(),
{
    let mut m = JsonMap::new();
    m.insert("__op".to_owned(), Json::String("array_remove".to_owned()));
    m.insert("values".to_owned(), values);
    proof {
        reveal_strlit("__op");
        reveal_strlit("values");
        reveal_strlit("inc");
        reveal_strlit("remove");
        reveal_strlit("array_union");
        reveal_strlit("array_remove");
        assert("__op"@ != "values"@) by {
            assert("__op"@.len() != "values"@.len());
        }
        assert("array_remove"@ != "inc"@) by {
            assert("array_remove"@.len() != "inc"@.len());
        }
        assert("array_remove"@ != "remove"@) by {
            assert("array_remove"@.len() != "remove"@.len());
        }
        assert("array_remove"@ != "array_union"@) by {
            assert("array_remove"@.len() != "array_union"@.len());
        }
        assert(m@ =~= map!["__op"@ => Value::String("array_remove"@), "values"@ => values@]);
    }
    Json::Object(m)
}

} // verus!
