//! What values are, and the bytes that stand for them.

use vstd::prelude::*;
use vstd::utf8::encode_utf8;

use crate::constants::{
    Type, ARRAY_DELIMIT, LIST_BEGIN, LIST_END, MAP_BEGIN, MAP_END, STRING_DELIMIT,
};
use crate::element::{elements_bytes, Element, F32, F64};
use crate::escape::escape;

verus! {

/// A value of any type.
pub ghost enum Model {
    Unit,
    Bool(bool),
    I8(i8),
    I16(i16),
    I32(i32),
    I64(i64),
    U8(u8),
    U16(u16),
    U32(u32),
    U64(u64),
    F32(F32),
    F64(F64),
    /// A string.
    Text(Seq<char>),
    ArrayBool(Seq<bool>),
    ArrayI8(Seq<i8>),
    ArrayI16(Seq<i16>),
    ArrayI32(Seq<i32>),
    ArrayI64(Seq<i64>),
    ArrayU8(Seq<u8>),
    ArrayU16(Seq<u16>),
    ArrayU32(Seq<u32>),
    ArrayU64(Seq<u64>),
    ArrayF32(Seq<F32>),
    ArrayF64(Seq<F64>),
    /// A list.
    List(Seq<Model>),
    /// A map. Keys come in the order in which they are written, and may come more than once.
    Dict(Seq<(Model, Model)>),
}

/// How deep lists and maps are nested in a value.
pub open spec fn nesting(m: Model) -> nat
    decreases m,
{
    match m {
        Model::List(vs) => 1 + list_nesting(vs),
        Model::Dict(es) => 1 + map_nesting(es),
        _ => 0,
    }
}

/// How deep lists and maps are nested in the elements of a list.
pub open spec fn list_nesting(vs: Seq<Model>) -> nat
    decreases vs,
{
    if vs.len() == 0 {
        0
    } else {
        larger(nesting(vs[0]), list_nesting(vs.skip(1)))
    }
}

/// How deep lists and maps are nested in the keys and values of a map.
pub open spec fn map_nesting(es: Seq<(Model, Model)>) -> nat
    decreases es,
{
    if es.len() == 0 {
        0
    } else {
        larger(larger(nesting(es[0].0), nesting(es[0].1)), map_nesting(es.skip(1)))
    }
}

/// The larger one of two numbers.
pub open spec fn larger(a: nat, b: nat) -> nat {
    if a >= b {
        a
    } else {
        b
    }
}

/// Whether the type of everything in a value can be told from its bytes: there is no array of
/// 8-bit signed integers in it.
pub open spec fn describes_itself(m: Model) -> bool
    decreases m,
{
    match m {
        Model::ArrayI8(_) => false,
        Model::List(vs) => list_describes_itself(vs),
        Model::Dict(es) => map_describes_itself(es),
        _ => true,
    }
}

/// Whether the type of everything in the elements of a list can be told from their bytes.
pub open spec fn list_describes_itself(vs: Seq<Model>) -> bool
    decreases vs,
{
    vs.len() == 0 || (describes_itself(vs[0]) && list_describes_itself(vs.skip(1)))
}

/// Whether the type of everything in the keys and values of a map can be told from their bytes.
pub open spec fn map_describes_itself(es: Seq<(Model, Model)>) -> bool
    decreases es,
{
    es.len() == 0 || (describes_itself(es[0].0) && describes_itself(es[0].1)
        && map_describes_itself(es.skip(1)))
}

/// The bytes of a value of type `N`.
pub open spec fn scalar_encoding<N: Element>(v: N) -> Seq<u8> {
    seq![N::kind().code()] + v.to_bytes()
}

/// The bytes of an array.
pub open spec fn array_encoding<N: Element>(vs: Seq<N>) -> Seq<u8> {
    seq![ARRAY_DELIMIT, N::kind().code()] + escape(elements_bytes(vs), ARRAY_DELIMIT).push(
        ARRAY_DELIMIT,
    )
}

/// The bytes of a string.
pub open spec fn text_encoding(text: Seq<char>) -> Seq<u8> {
    seq![STRING_DELIMIT] + escape(encode_utf8(text), STRING_DELIMIT).push(STRING_DELIMIT)
}

/// The bytes of a value that is neither a list nor a map.
#[verifier::opaque]
pub open spec fn leaf_encoding(m: Model) -> Seq<u8> {
    match m {
        Model::Unit => seq![Type::Unit.code()],
        Model::Bool(v) => scalar_encoding(v),
        Model::I8(v) => scalar_encoding(v),
        Model::I16(v) => scalar_encoding(v),
        Model::I32(v) => scalar_encoding(v),
        Model::I64(v) => scalar_encoding(v),
        Model::U8(v) => scalar_encoding(v),
        Model::U16(v) => scalar_encoding(v),
        Model::U32(v) => scalar_encoding(v),
        Model::U64(v) => scalar_encoding(v),
        Model::F32(v) => scalar_encoding(v),
        Model::F64(v) => scalar_encoding(v),
        Model::Text(text) => text_encoding(text),
        Model::ArrayBool(vs) => array_encoding(vs),
        Model::ArrayI8(vs) => array_encoding(vs),
        Model::ArrayI16(vs) => array_encoding(vs),
        Model::ArrayI32(vs) => array_encoding(vs),
        Model::ArrayI64(vs) => array_encoding(vs),
        Model::ArrayU8(vs) => array_encoding(vs),
        Model::ArrayU16(vs) => array_encoding(vs),
        Model::ArrayU32(vs) => array_encoding(vs),
        Model::ArrayU64(vs) => array_encoding(vs),
        Model::ArrayF32(vs) => array_encoding(vs),
        Model::ArrayF64(vs) => array_encoding(vs),
        _ => Seq::empty(),
    }
}

/// The bytes of a value.
pub open spec fn encoding(m: Model) -> Seq<u8>
    decreases m,
{
    match m {
        Model::List(vs) => seq![LIST_BEGIN] + list_encoding(vs),
        Model::Dict(es) => seq![MAP_BEGIN] + map_encoding(es),
        _ => leaf_encoding(m),
    }
}

/// The bytes of the elements of a list, up to its end.
pub open spec fn list_encoding(vs: Seq<Model>) -> Seq<u8>
    decreases vs,
{
    if vs.len() == 0 {
        seq![LIST_END]
    } else {
        encoding(vs[0]) + list_encoding(vs.skip(1))
    }
}

/// The bytes of the keys and values of a map, up to its end.
pub open spec fn map_encoding(es: Seq<(Model, Model)>) -> Seq<u8>
    decreases es,
{
    if es.len() == 0 {
        seq![MAP_END]
    } else {
        encoding(es[0].0) + encoding(es[0].1) + map_encoding(es.skip(1))
    }
}

} // verus!
