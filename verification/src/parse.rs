//! What the bytes of a stream stand for.

use vstd::prelude::*;
use vstd::utf8::{decode_utf8, valid_utf8};

use crate::constants::{
    Type, ARRAY_DELIMIT, LIST_BEGIN, LIST_END, MAP_BEGIN, MAP_END, STRING_DELIMIT,
};
use crate::element::{elements, parse_error_text, Element, F32, F64};
use crate::error::{depth_text, invalid_length_text, invalid_type_text, type_bit_text};
use crate::escape::{text_end, unescape};
use crate::grammar::{cut_short, invalid, Parsed, Stop};
use crate::model::Model;
use crate::utf8::utf8_error_text;

verus! {

/// A value of type `N`, with its type bit.
pub open spec fn parse_element<N: Element>(s: Seq<u8>) -> Parsed<N> {
    let width = N::kind().width() as int;
    if s.len() <= width {
        Parsed::Partial(
            Stop { text: invalid_length_text(s.len(), N::kind().label()), at: 0, opened: 0 },
        )
    } else {
        match N::from_bytes(s.subrange(1, 1 + width)) {
            Some(v) => Parsed::Whole(v, (1 + width) as nat),
            None => invalid(parse_error_text(N::kind(), s.subrange(1, 1 + width)), 1),
        }
    }
}

/// A string, with its delimiters.
pub open spec fn parse_text(s: Seq<u8>) -> Parsed<Seq<char>> {
    match text_end(s.skip(1), STRING_DELIMIT) {
        None => cut_short(1),
        Some(k) => {
            let data = unescape(s.skip(1).take(k));
            if valid_utf8(data) {
                Parsed::Whole(decode_utf8(data), (k + 2) as nat)
            } else {
                invalid("invalid UTF-8: "@ + utf8_error_text(data), (k + 2) as nat)
            }
        },
    }
}

/// An array of values of type `N`, with its delimiters and type bit.
pub open spec fn parse_array<N: Element>(s: Seq<u8>) -> Parsed<Seq<N>> {
    match text_end(s.skip(2), ARRAY_DELIMIT) {
        None => cut_short(2),
        Some(k) => match elements::<N>(unescape(s.skip(2).take(k))) {
            Ok(vs) => Parsed::Whole(vs, (k + 3) as nat),
            Err(text) => invalid(text, (k + 2) as nat),
        },
    }
}

/// A value of type `t`, with its type bit.
pub open spec fn parse_scalar(t: Type, s: Seq<u8>) -> Parsed<Model> {
    match t {
        Type::Unit => Parsed::Whole(Model::Unit, 1),
        Type::Bool => parse_element::<bool>(s).map(|v: bool| Model::Bool(v)),
        Type::I8 => parse_element::<i8>(s).map(|v: i8| Model::I8(v)),
        Type::I16 => parse_element::<i16>(s).map(|v: i16| Model::I16(v)),
        Type::I32 => parse_element::<i32>(s).map(|v: i32| Model::I32(v)),
        Type::I64 => parse_element::<i64>(s).map(|v: i64| Model::I64(v)),
        Type::U8 => parse_element::<u8>(s).map(|v: u8| Model::U8(v)),
        Type::U16 => parse_element::<u16>(s).map(|v: u16| Model::U16(v)),
        Type::U32 => parse_element::<u32>(s).map(|v: u32| Model::U32(v)),
        Type::U64 => parse_element::<u64>(s).map(|v: u64| Model::U64(v)),
        Type::F32 => parse_element::<F32>(s).map(|v: F32| Model::F32(v)),
        Type::F64 => parse_element::<F64>(s).map(|v: F64| Model::F64(v)),
    }
}

/// An array of values of type `t`, with its delimiters and type bit.
pub open spec fn parse_any_array(t: Type, s: Seq<u8>) -> Parsed<Model> {
    match t {
        Type::Bool => parse_array::<bool>(s).map(|vs: Seq<bool>| Model::ArrayBool(vs)),
        Type::I16 => parse_array::<i16>(s).map(|vs: Seq<i16>| Model::ArrayI16(vs)),
        Type::I32 => parse_array::<i32>(s).map(|vs: Seq<i32>| Model::ArrayI32(vs)),
        Type::I64 => parse_array::<i64>(s).map(|vs: Seq<i64>| Model::ArrayI64(vs)),
        Type::U8 => parse_array::<u8>(s).map(|vs: Seq<u8>| Model::ArrayU8(vs)),
        Type::U16 => parse_array::<u16>(s).map(|vs: Seq<u16>| Model::ArrayU16(vs)),
        Type::U32 => parse_array::<u32>(s).map(|vs: Seq<u32>| Model::ArrayU32(vs)),
        Type::U64 => parse_array::<u64>(s).map(|vs: Seq<u64>| Model::ArrayU64(vs)),
        Type::F32 => parse_array::<F32>(s).map(|vs: Seq<F32>| Model::ArrayF32(vs)),
        Type::F64 => parse_array::<F64>(s).map(|vs: Seq<F64>| Model::ArrayF64(vs)),
        _ => invalid(invalid_type_text(t.label(), "a supported array type"@), 0),
    }
}

/// A value that is neither a list nor a map.
#[verifier::opaque]
pub open spec fn parse_leaf(s: Seq<u8>) -> Parsed<Model> {
    if s.len() == 0 {
        cut_short(0)
    } else if s[0] == ARRAY_DELIMIT {
        if s.len() == 1 {
            cut_short(0)
        } else {
            match Type::from_code(s[1]) {
                Some(t) => parse_any_array(t, s),
                None => invalid(type_bit_text(s[1]), 0),
            }
        }
    } else if s[0] == STRING_DELIMIT {
        parse_text(s).map(|text: Seq<char>| Model::Text(text))
    } else {
        match Type::from_code(s[0]) {
            Some(t) => parse_scalar(t, s),
            None => invalid(type_bit_text(s[0]), 0),
        }
    }
}

/// A value of any type, in which lists and maps may be nested `room` deep. Errors call the limit
/// on the nesting `limit`.
pub open spec fn parse_value(s: Seq<u8>, room: nat, limit: nat) -> Parsed<Model>
    decreases s.len(), 0nat,
{
    if s.len() == 0 {
        cut_short(0)
    } else if s[0] == LIST_BEGIN {
        if room == 0 {
            invalid(depth_text(limit), 1)
        } else {
            parse_list(s.skip(1), (room - 1) as nat, limit).raise(1).shift(1).map(
                |vs: Seq<Model>| Model::List(vs),
            )
        }
    } else if s[0] == MAP_BEGIN {
        if room == 0 {
            invalid(depth_text(limit), 1)
        } else {
            parse_map(s.skip(1), (room - 1) as nat, limit).raise(1).shift(1).map(
                |es: Seq<(Model, Model)>| Model::Dict(es),
            )
        }
    } else {
        parse_leaf(s)
    }
}

/// The elements of a list, up to its end.
pub open spec fn parse_list(s: Seq<u8>, room: nat, limit: nat) -> Parsed<Seq<Model>>
    decreases s.len(), 1nat,
{
    if s.len() == 0 {
        cut_short(0)
    } else if s[0] == LIST_END {
        Parsed::Whole(Seq::empty(), 1)
    } else {
        match parse_value(s, room, limit) {
            Parsed::Whole(v, n) if 0 < n <= s.len() => parse_list(
                s.skip(n as int),
                room,
                limit,
            ).shift(n).map(|vs: Seq<Model>| seq![v] + vs),
            other => other.failure(),
        }
    }
}

/// The keys and values of a map, up to its end.
pub open spec fn parse_map(s: Seq<u8>, room: nat, limit: nat) -> Parsed<Seq<(Model, Model)>>
    decreases s.len(), 2nat,
{
    if s.len() == 0 {
        cut_short(0)
    } else if s[0] == MAP_END {
        Parsed::Whole(Seq::empty(), 1)
    } else {
        match parse_value(s, room, limit) {
            Parsed::Whole(k, n) if 0 < n <= s.len() => parse_entry(
                k,
                s.skip(n as int),
                room,
                limit,
            ).shift(n),
            other => other.failure(),
        }
    }
}

/// The value of the key `k` and the keys and values behind it, up to the end of a map.
pub open spec fn parse_entry(k: Model, s: Seq<u8>, room: nat, limit: nat) -> Parsed<
    Seq<(Model, Model)>,
>
    decreases s.len(), 1nat,
{
    match parse_value(s, room, limit) {
        Parsed::Whole(v, n) if 0 < n <= s.len() => parse_map(
            s.skip(n as int),
            room,
            limit,
        ).shift(n).map(|es: Seq<(Model, Model)>| seq![(k, v)] + es),
        other => other.failure(),
    }
}

} // verus!
