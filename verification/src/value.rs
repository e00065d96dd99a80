use vstd::prelude::*;

verus! {

broadcast use vstd::std_specs::vec::group_vec_axioms, vstd::seq::group_seq_axioms;

/// A document value: the recursive sum of null, booleans, numbers, strings,
/// arrays and objects with string keys.
///
/// A number is kept as its decimal numeral text, never as a machine float,
/// so that encryption and decryption can preserve the exact written form.
/// Object entries are kept in insertion order.
pub enum Value {
    Null,
    Bool(bool),
    Number(String),
    Text(String),
    Array(Vec<Value>),
    Object(Vec<(String, Value)>),
}

/// The mathematical model of a document value: the same tree with every
/// string read as its sequence of code points.
pub enum SpecValue {
    Null,
    Bool(bool),
    Number(Seq<char>),
    Text(Seq<char>),
    Array(Seq<SpecValue>),
    Object(Seq<(Seq<char>, SpecValue)>),
}

/// The model of an executable document value.
pub open spec fn view_of(v: Value) -> SpecValue
    decreases v,
    via view_of_decreases
{
    match v {
        Value::Null => SpecValue::Null,
        Value::Bool(b) => SpecValue::Bool(b),
        Value::Number(s) => SpecValue::Number(s@),
        Value::Text(s) => SpecValue::Text(s@),
        Value::Array(vs) => SpecValue::Array(
            Seq::new(
                vs@.len(),
                |i: int|
                    if 0 <= i < vs@.len() {
                        view_of(vs@[i])
                    } else {
                        SpecValue::Null
                    },
            ),
        ),
        Value::Object(ps) => SpecValue::Object(
            Seq::new(
                ps@.len(),
                |i: int|
                    if 0 <= i < ps@.len() {
                        (ps@[i].0@, view_of(ps@[i].1))
                    } else {
                        (Seq::empty(), SpecValue::Null)
                    },
            ),
        ),
    }
}

#[via_fn]
proof fn view_of_decreases(v: Value) {
    match v {
        Value::Array(vs) => {
            assert forall|i: int| 0 <= i < vs@.len() implies decreases_to!(v => vs@[i]) by {
                assert(decreases_to!(vs => vs@));
                assert(decreases_to!(vs@ => vs@[i]));
            }
        },
        Value::Object(ps) => {
            assert forall|i: int| 0 <= i < ps@.len() implies decreases_to!(v => ps@[i].1) by {
                assert(decreases_to!(ps => ps@));
                assert(decreases_to!(ps@ => ps@[i]));
            }
        },
        _ => {},
    }
}

impl View for Value {
    type V = SpecValue;

    #[verifier::inline]
    open spec fn view(&self) -> SpecValue {
        view_of(*self)
    }
}

} // verus!
