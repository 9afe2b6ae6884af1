//! The value tree that the encoder reads and the decoder builds.

use vstd::prelude::*;

verus! {

broadcast use vstd::std_specs::vec::group_vec_axioms;

/// A JSON number: a non-negative or negative integer, or a finite double held
/// as its shortest decimal text.
#[derive(Debug, Clone, PartialEq)]
pub enum Number {
    PosInt(u64),
    NegInt(i64),
    Float(String),
}

/// A node of the value tree. An object keeps its fields in insertion order.
#[derive(Debug, PartialEq)]
pub enum Value {
    Null,
    Bool(bool),
    Number(Number),
    String(String),
    Array(Vec<Value>),
    Object(Vec<(String, Value)>),
}

/// The mathematical model of a number.
pub enum NumberModel {
    Int(int),
    Float(Seq<char>),
}

/// The mathematical model of a value tree.
pub enum Json {
    Null,
    Bool(bool),
    Num(NumberModel),
    Str(Seq<char>),
    Arr(Seq<Json>),
    Obj(Seq<(Seq<char>, Json)>),
}

impl View for Number {
    type V = NumberModel;

    open spec fn view(&self) -> NumberModel {
        match self {
            Number::PosInt(u) => NumberModel::Int(*u as int),
            Number::NegInt(i) => NumberModel::Int(*i as int),
            Number::Float(t) => NumberModel::Float(t@),
        }
    }
}

impl View for Value {
    type V = Json;

    open spec fn view(&self) -> Json
        decreases self,
    {
        match self {
            Value::Null => Json::Null,
            Value::Bool(b) => Json::Bool(*b),
            Value::Number(n) => Json::Num(n@),
            Value::String(s) => Json::Str(s@),
            Value::Array(a) => Json::Arr(Seq::new(a@.len(), |i: int| if 0 <= i < a@.len() { a@[i].view() } else { Json::Null })),
            Value::Object(o) => Json::Obj(
                Seq::new(
                    o@.len(),
                    |i: int|
                        {
                            let key: Seq<char> = if 0 <= i < o@.len() {
                                o@[i].0@
                            } else {
                                Seq::empty()
                            };
                            let val: Json = if 0 <= i < o@.len() {
                                o@[i].1.view()
                            } else {
                                Json::Null
                            };
                            (key, val)
                        },
                ),
            ),
        }
    }
}

} // verus!
