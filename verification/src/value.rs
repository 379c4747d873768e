//! Values of any type.

use vstd::prelude::*;

use crate::element::{F32, F64};
use crate::model::Model;

verus! {

/// A value of any type.
#[derive(Debug, PartialEq)]
pub enum Value {
    Unit,
    Bool(bool),
    I8(i8),
    I16(i16),
    I32(i32),
    I64(i64),
    U8(u8),
    U16(u16),
    U32(u32),
    U64(u64),
    F32(F32),
    F64(F64),
    /// A string.
    Text(String),
    ArrayBool(Vec<bool>),
    ArrayI8(Vec<i8>),
    ArrayI16(Vec<i16>),
    ArrayI32(Vec<i32>),
    ArrayI64(Vec<i64>),
    ArrayU8(Vec<u8>),
    ArrayU16(Vec<u16>),
    ArrayU32(Vec<u32>),
    ArrayU64(Vec<u64>),
    ArrayF32(Vec<F32>),
    ArrayF64(Vec<F64>),
    /// A list.
    List(Vec<Value>),
    /// A map. Keys come in the order in which they are written, and may come more than once.
    Dict(Vec<(Value, Value)>),
}

impl View for Value {
    type V = Model;

    open spec fn view(&self) -> Model {
        model(*self)
    }
}

/// What a value stands for.
pub open spec fn model(v: Value) -> Model
    decreases v,
{
    match v {
        Value::Unit => Model::Unit,
        Value::Bool(v) => Model::Bool(v),
        Value::I8(v) => Model::I8(v),
        Value::I16(v) => Model::I16(v),
        Value::I32(v) => Model::I32(v),
        Value::I64(v) => Model::I64(v),
        Value::U8(v) => Model::U8(v),
        Value::U16(v) => Model::U16(v),
        Value::U32(v) => Model::U32(v),
        Value::U64(v) => Model::U64(v),
        Value::F32(v) => Model::F32(v),
        Value::F64(v) => Model::F64(v),
        Value::Text(text) => Model::Text(text@),
        Value::ArrayBool(vs) => Model::ArrayBool(vs@),
        Value::ArrayI8(vs) => Model::ArrayI8(vs@),
        Value::ArrayI16(vs) => Model::ArrayI16(vs@),
        Value::ArrayI32(vs) => Model::ArrayI32(vs@),
        Value::ArrayI64(vs) => Model::ArrayI64(vs@),
        Value::ArrayU8(vs) => Model::ArrayU8(vs@),
        Value::ArrayU16(vs) => Model::ArrayU16(vs@),
        Value::ArrayU32(vs) => Model::ArrayU32(vs@),
        Value::ArrayU64(vs) => Model::ArrayU64(vs@),
        Value::ArrayF32(vs) => Model::ArrayF32(vs@),
        Value::ArrayF64(vs) => Model::ArrayF64(vs@),
        Value::List(vs) => Model::List(models(vs@)),
        Value::Dict(es) => Model::Dict(entries(es@)),
    }
}

/// What the elements of a list stand for.
pub open spec fn models(vs: Seq<Value>) -> Seq<Model>
    decreases vs,
{
    if vs.len() == 0 {
        Seq::empty()
    } else {
        seq![model(vs[0])] + models(vs.skip(1))
    }
}

/// What the keys and values of a map stand for.
pub open spec fn entries(es: Seq<(Value, Value)>) -> Seq<(Model, Model)>
    decreases es,
{
    if es.len() == 0 {
        Seq::empty()
    } else {
        seq![(model(es[0].0), model(es[0].1))] + entries(es.skip(1))
    }
}

/// Each element of a list stands for an element.
pub proof fn lemma_models(vs: Seq<Value>)
    ensures
        models(vs).len() == vs.len(),
        forall|i: int| 0 <= i < vs.len() ==> #[trigger] models(vs)[i] == model(vs[i]),
    decreases vs,
{
    if vs.len() > 0 {
        lemma_models(vs.skip(1));
        assert forall|i: int| 0 <= i < vs.len() implies #[trigger] models(vs)[i] == model(
            vs[i],
        ) by {
            if i > 0 {
                assert(models(vs)[i] == models(vs.skip(1))[i - 1]);
            }
        }
    }
}

/// Each key and value of a map stands for a key and a value.
pub proof fn lemma_entries(es: Seq<(Value, Value)>)
    ensures
        entries(es).len() == es.len(),
        forall|i: int|
            0 <= i < es.len() ==> #[trigger] entries(es)[i] == (model(es[i].0), model(es[i].1)),
    decreases es,
{
    if es.len() > 0 {
        lemma_entries(es.skip(1));
        assert forall|i: int| 0 <= i < es.len() implies #[trigger] entries(es)[i] == (
            model(es[i].0),
            model(es[i].1),
        ) by {
            if i > 0 {
                assert(entries(es)[i] == entries(es.skip(1))[i - 1]);
            }
        }
    }
}

} // verus!
