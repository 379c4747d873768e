//! What holds of reading and writing together.

use bytes::Bytes;
use vstd::prelude::*;
use vstd::utf8::{encode_utf8, encode_utf8_decode_utf8, encode_utf8_valid_utf8};

use crate::access::{closed, opened, Opening};
use crate::constants::{
    Type, ARRAY_DELIMIT, ESCAPE, LIST_BEGIN, LIST_END, MAP_BEGIN, MAP_END, STRING_DELIMIT,
};
use crate::element::{elements_bytes, elements_round_trip, Element, F32, F64};
use crate::error::{depth_text, Error};
use crate::de::{read_string, Outcome, State, Step};
use crate::escape::{
    closes_at, dangling, escape, escape_round_trip, lemma_closes_extend, lemma_open_escape,
    lemma_tail_extend, lemma_tail_none, lemma_tail_resume, lemma_tail_start, lemma_text_end,
    lemma_text_open_prefix, let_go, tail_end, text_end, waiting,
};
use crate::grammar::{
    lemma_skip_value, settled, skip_entry, skip_leaf, skip_list, skip_map, skip_scalar,
    skip_text, skip_value, Parsed,
};
use crate::model::{
    array_encoding, describes_itself, encoding, larger, leaf_encoding, list_describes_itself,
    list_encoding, list_nesting, map_describes_itself, map_encoding, map_nesting, nesting,
    scalar_encoding, text_encoding, Model,
};
use crate::parse::{
    parse_any_array, parse_array, parse_element, parse_entry, parse_leaf, parse_list, parse_map,
    parse_scalar, parse_text, parse_value,
};
use crate::read::{decoded, fault, flow, ignored};
use crate::skip::skip_string;

verus! {

/// Whether skipping comes to the same as reading, where reading gives a value.
pub open spec fn agrees<T>(read: Parsed<T>, skipped: Parsed<()>) -> bool {
    read matches Parsed::Whole(_, n) ==> skipped == Parsed::Whole((), n)
}

proof fn lemma_scalar_agrees(t: Type, s: Seq<u8>)
    requires
        s.len() > 0,
    ensures
        agrees(parse_scalar(t, s), skip_scalar(t, s)),
{
    let bytes = s.subrange(1, 1 + t.width() as int);
    match t {
        Type::Unit => {},
        Type::Bool => <bool>::from_bytes_domain(bytes),
        Type::I8 => <i8>::from_bytes_domain(bytes),
        Type::I16 => <i16>::from_bytes_domain(bytes),
        Type::I32 => <i32>::from_bytes_domain(bytes),
        Type::I64 => <i64>::from_bytes_domain(bytes),
        Type::U8 => <u8>::from_bytes_domain(bytes),
        Type::U16 => <u16>::from_bytes_domain(bytes),
        Type::U32 => <u32>::from_bytes_domain(bytes),
        Type::U64 => <u64>::from_bytes_domain(bytes),
        Type::F32 => <F32>::from_bytes_domain(bytes),
        Type::F64 => <F64>::from_bytes_domain(bytes),
    }
}

proof fn lemma_leaf_agrees(s: Seq<u8>)
    ensures
        agrees(parse_leaf(s), skip_leaf(s)),
{
    reveal(parse_leaf);
    reveal(skip_leaf);
    if s.len() > 0 && s[0] != ARRAY_DELIMIT && s[0] != STRING_DELIMIT {
        if let Some(t) = Type::from_code(s[0]) {
            lemma_scalar_agrees(t, s);
        }
    }
}

/// A value that can be read can be skipped, and skipping it ends where reading it does.
pub proof fn reading_is_skipping(s: Seq<u8>, room: nat, limit: nat)
    ensures
        agrees(parse_value(s, room, limit), skip_value(s, room, limit)),
    decreases s.len(), 0nat,
{
    if s.len() > 0 {
        if s[0] == LIST_BEGIN {
            if room > 0 {
                lemma_list_agrees(s.skip(1), (room - 1) as nat, limit);
            }
        } else if s[0] == MAP_BEGIN {
            if room > 0 {
                lemma_map_agrees(s.skip(1), (room - 1) as nat, limit);
            }
        } else {
            lemma_leaf_agrees(s);
        }
    }
}

proof fn lemma_list_agrees(s: Seq<u8>, room: nat, limit: nat)
    ensures
        agrees(parse_list(s, room, limit), skip_list(s, room, limit)),
    decreases s.len(), 1nat,
{
    if s.len() > 0 && s[0] != LIST_END {
        reading_is_skipping(s, room, limit);
        lemma_skip_value(s, room, limit);
        if let Parsed::Whole(_, n) = parse_value(s, room, limit) {
            lemma_list_agrees(s.skip(n as int), room, limit);
        }
    }
}

proof fn lemma_map_agrees(s: Seq<u8>, room: nat, limit: nat)
    ensures
        agrees(parse_map(s, room, limit), skip_map(s, room, limit)),
    decreases s.len(), 2nat,
{
    if s.len() > 0 && s[0] != MAP_END {
        reading_is_skipping(s, room, limit);
        lemma_skip_value(s, room, limit);
        if let Parsed::Whole(k, n) = parse_value(s, room, limit) {
            lemma_entry_agrees(k, s.skip(n as int), room, limit);
        }
    }
}

proof fn lemma_entry_agrees(k: Model, s: Seq<u8>, room: nat, limit: nat)
    ensures
        agrees(parse_entry(k, s, room, limit), skip_entry(s, room, limit)),
    decreases s.len(), 1nat,
{
    reading_is_skipping(s, room, limit);
    lemma_skip_value(s, room, limit);
    if let Parsed::Whole(_, n) = parse_value(s, room, limit) {
        lemma_map_agrees(s.skip(n as int), room, limit);
    }
}

/// A value that is neither a list nor a map takes up some of the bytes there are, or reading it
/// stops inside them.
proof fn lemma_leaf_within(s: Seq<u8>)
    ensures
        parse_leaf(s).within(s.len()),
{
    reveal(parse_leaf);
    if s.len() > 0 {
        lemma_text_end(s.skip(1), STRING_DELIMIT);
        if s.len() > 1 {
            lemma_text_end(s.skip(2), ARRAY_DELIMIT);
        }
    }
}

/// A value takes up some of the bytes there are, or reading it stops inside them.
pub proof fn lemma_parse_value(s: Seq<u8>, room: nat, limit: nat)
    ensures
        parse_value(s, room, limit).within(s.len()),
        parse_value(s, room, limit) matches Parsed::Whole(_, n) ==> n > 0,
    decreases s.len(), 0nat,
{
    reading_is_skipping(s, room, limit);
    lemma_skip_value(s, room, limit);
    if s.len() > 0 {
        if s[0] == LIST_BEGIN {
            if room > 0 {
                lemma_list_within(s.skip(1), (room - 1) as nat, limit);
            }
        } else if s[0] == MAP_BEGIN {
            if room > 0 {
                lemma_map_within(s.skip(1), (room - 1) as nat, limit);
            }
        } else {
            lemma_leaf_within(s);
        }
    }
}

proof fn lemma_list_within(s: Seq<u8>, room: nat, limit: nat)
    ensures
        parse_list(s, room, limit).within(s.len()),
    decreases s.len(), 1nat,
{
    if s.len() > 0 && s[0] != LIST_END {
        lemma_parse_value(s, room, limit);
        if let Parsed::Whole(_, n) = parse_value(s, room, limit) {
            lemma_list_within(s.skip(n as int), room, limit);
        }
    }
}

proof fn lemma_map_within(s: Seq<u8>, room: nat, limit: nat)
    ensures
        parse_map(s, room, limit).within(s.len()),
    decreases s.len(), 2nat,
{
    if s.len() > 0 && s[0] != MAP_END {
        lemma_parse_value(s, room, limit);
        if let Parsed::Whole(k, n) = parse_value(s, room, limit) {
            lemma_entry_within(k, s.skip(n as int), room, limit);
        }
    }
}

proof fn lemma_entry_within(k: Model, s: Seq<u8>, room: nat, limit: nat)
    ensures
        parse_entry(k, s, room, limit).within(s.len()),
    decreases s.len(), 1nat,
{
    lemma_parse_value(s, room, limit);
    if let Parsed::Whole(_, n) = parse_value(s, room, limit) {
        lemma_map_within(s.skip(n as int), room, limit);
    }
}

/// The bytes behind a value of type `N` have no say in what it is.
pub proof fn lemma_element_extend<N: Element>(s: Seq<u8>, more: Seq<u8>)
    ensures
        settled(parse_element::<N>(s), parse_element::<N>(s + more)),
{
    if s.len() > N::kind().width() {
        assert((s + more).subrange(1, 1 + N::kind().width() as int) =~= s.subrange(
            1,
            1 + N::kind().width() as int,
        ));
    }
}

proof fn lemma_scalar_extend(t: Type, s: Seq<u8>, more: Seq<u8>)
    ensures
        settled(parse_scalar(t, s), parse_scalar(t, s + more)),
{
    match t {
        Type::Unit => {},
        Type::Bool => lemma_element_extend::<bool>(s, more),
        Type::I8 => lemma_element_extend::<i8>(s, more),
        Type::I16 => lemma_element_extend::<i16>(s, more),
        Type::I32 => lemma_element_extend::<i32>(s, more),
        Type::I64 => lemma_element_extend::<i64>(s, more),
        Type::U8 => lemma_element_extend::<u8>(s, more),
        Type::U16 => lemma_element_extend::<u16>(s, more),
        Type::U32 => lemma_element_extend::<u32>(s, more),
        Type::U64 => lemma_element_extend::<u64>(s, more),
        Type::F32 => lemma_element_extend::<F32>(s, more),
        Type::F64 => lemma_element_extend::<F64>(s, more),
    }
}

/// The bytes behind text have no say in where it ends, nor in what it is.
pub proof fn lemma_text_end_extend(s: Seq<u8>, more: Seq<u8>, end: u8)
    ensures
        text_end(s, end) matches Some(k) ==> text_end(s + more, end) == Some(k) && 0 <= k < s.len()
            && (s + more).take(k) == s.take(k),
{
    lemma_text_end(s, end);
    lemma_text_end(s + more, end);
    if let Some(k) = text_end(s, end) {
        lemma_closes_extend(s, more, end, k);
        assert(closes_at(s + more, end, k));
        assert((s + more).take(k) =~= s.take(k));
    }
}

/// The bytes behind a string have no say in what it is.
pub proof fn lemma_text_extend(s: Seq<u8>, more: Seq<u8>)
    requires
        s.len() > 0,
    ensures
        settled(parse_text(s), parse_text(s + more)),
{
    assert((s + more).skip(1) =~= s.skip(1) + more);
    lemma_text_end_extend(s.skip(1), more, STRING_DELIMIT);
}

proof fn lemma_array_extend<N: Element>(s: Seq<u8>, more: Seq<u8>)
    requires
        s.len() > 1,
    ensures
        settled(parse_array::<N>(s), parse_array::<N>(s + more)),
{
    assert((s + more).skip(2) =~= s.skip(2) + more);
    lemma_text_end_extend(s.skip(2), more, ARRAY_DELIMIT);
}

proof fn lemma_any_array_extend(t: Type, s: Seq<u8>, more: Seq<u8>)
    requires
        s.len() > 1,
    ensures
        settled(parse_any_array(t, s), parse_any_array(t, s + more)),
{
    match t {
        Type::Bool => lemma_array_extend::<bool>(s, more),
        Type::I16 => lemma_array_extend::<i16>(s, more),
        Type::I32 => lemma_array_extend::<i32>(s, more),
        Type::I64 => lemma_array_extend::<i64>(s, more),
        Type::U8 => lemma_array_extend::<u8>(s, more),
        Type::U16 => lemma_array_extend::<u16>(s, more),
        Type::U32 => lemma_array_extend::<u32>(s, more),
        Type::U64 => lemma_array_extend::<u64>(s, more),
        Type::F32 => lemma_array_extend::<F32>(s, more),
        Type::F64 => lemma_array_extend::<F64>(s, more),
        _ => {},
    }
}

proof fn lemma_leaf_extend(s: Seq<u8>, more: Seq<u8>)
    ensures
        settled(parse_leaf(s), parse_leaf(s + more)),
{
    reveal(parse_leaf);
    if s.len() > 0 {
        let t = s + more;
        assert(t[0] == s[0]);
        if s[0] == ARRAY_DELIMIT {
            if s.len() > 1 {
                assert(t[1] == s[1]);
                if let Some(ty) = Type::from_code(s[1]) {
                    lemma_any_array_extend(ty, s, more);
                }
            }
        } else if s[0] == STRING_DELIMIT {
            lemma_text_extend(s, more);
        } else if let Some(ty) = Type::from_code(s[0]) {
            lemma_scalar_extend(ty, s, more);
        }
    }
}

/// What has been read of a stream does not depend on what follows: a value stays the value that
/// it was, and bytes that are no value do not become one.
pub proof fn reading_is_settled(s: Seq<u8>, more: Seq<u8>, room: nat, limit: nat)
    ensures
        settled(parse_value(s, room, limit), parse_value(s + more, room, limit)),
    decreases s.len(), 0nat,
{
    if s.len() > 0 {
        let t = s + more;
        assert(t[0] == s[0]);
        assert(t.skip(1) =~= s.skip(1) + more);
        if s[0] == LIST_BEGIN {
            if room > 0 {
                lemma_list_extend(s.skip(1), more, (room - 1) as nat, limit);
            }
        } else if s[0] == MAP_BEGIN {
            if room > 0 {
                lemma_map_extend(s.skip(1), more, (room - 1) as nat, limit);
            }
        } else {
            lemma_leaf_extend(s, more);
        }
    }
}

proof fn lemma_list_extend(s: Seq<u8>, more: Seq<u8>, room: nat, limit: nat)
    ensures
        settled(parse_list(s, room, limit), parse_list(s + more, room, limit)),
    decreases s.len(), 1nat,
{
    if s.len() > 0 && s[0] != LIST_END {
        lemma_parse_value(s, room, limit);
        reading_is_settled(s, more, room, limit);
        if let Parsed::Whole(_, n) = parse_value(s, room, limit) {
            lemma_list_extend(s.skip(n as int), more, room, limit);
            assert((s + more).skip(n as int) =~= s.skip(n as int) + more);
        }
    }
}

proof fn lemma_map_extend(s: Seq<u8>, more: Seq<u8>, room: nat, limit: nat)
    ensures
        settled(parse_map(s, room, limit), parse_map(s + more, room, limit)),
    decreases s.len(), 2nat,
{
    if s.len() > 0 && s[0] != MAP_END {
        lemma_parse_value(s, room, limit);
        reading_is_settled(s, more, room, limit);
        if let Parsed::Whole(k, n) = parse_value(s, room, limit) {
            lemma_entry_extend(k, s.skip(n as int), more, room, limit);
            assert((s + more).skip(n as int) =~= s.skip(n as int) + more);
        }
    }
}

proof fn lemma_entry_extend(k: Model, s: Seq<u8>, more: Seq<u8>, room: nat, limit: nat)
    ensures
        settled(parse_entry(k, s, room, limit), parse_entry(k, s + more, room, limit)),
    decreases s.len(), 1nat,
{
    lemma_parse_value(s, room, limit);
    reading_is_settled(s, more, room, limit);
    if let Parsed::Whole(_, n) = parse_value(s, room, limit) {
        lemma_map_extend(s.skip(n as int), more, room, limit);
        assert((s + more).skip(n as int) =~= s.skip(n as int) + more);
    }
}

/// A stream that is cut off inside a value is not taken for a value, whatever the value and
/// wherever the cut.
pub proof fn truncation_is_noticed(s: Seq<u8>, room: nat, limit: nat, n: nat, k: nat)
    requires
        parse_value(s, room, limit) matches Parsed::Whole(_, len) && len == n,
        k < n,
    ensures
        parse_value(s.take(k as int), room, limit) is Partial,
{
    lemma_parse_value(s, room, limit);
    let t = s.take(k as int);
    reading_is_settled(t, s.skip(k as int), room, limit);
    assert(t + s.skip(k as int) =~= s);
    lemma_parse_value(t, room, limit);
}

/// A value of type `N` is read back as it was written, and skipped as a whole.
pub proof fn element_round_trip<N: Element>(v: N, rest: Seq<u8>)
    ensures
        scalar_encoding(v).len() == 1 + N::kind().width(),
        parse_element::<N>(scalar_encoding(v) + rest) == Parsed::Whole(v, scalar_encoding(v).len()),
        skip_scalar(N::kind(), scalar_encoding(v) + rest) == Parsed::Whole(
            (),
            scalar_encoding(v).len(),
        ),
{
    v.round_trip();
    N::width_bounds();
    let s = scalar_encoding(v) + rest;
    assert(s.subrange(1, 1 + N::kind().width() as int) =~= v.to_bytes());
    N::from_bytes_domain(v.to_bytes());
}

/// An array of values of any type `N` is read back as it was written, and skipped as a whole.
pub proof fn array_round_trip<N: Element>(vs: Seq<N>, rest: Seq<u8>)
    ensures
        parse_array::<N>(array_encoding(vs) + rest) == Parsed::Whole(vs, array_encoding(vs).len()),
        skip_text((array_encoding(vs) + rest).skip(2), ARRAY_DELIMIT).shift(2) == Parsed::Whole(
            (),
            array_encoding(vs).len(),
        ),
{
    let data = elements_bytes(vs);
    let text = escape(data, ARRAY_DELIMIT);
    let s = array_encoding(vs) + rest;
    escape_round_trip(data, ARRAY_DELIMIT, rest);
    elements_round_trip(vs);
    assert(s.skip(2) =~= text.push(ARRAY_DELIMIT) + rest);
    assert(s.skip(2).take(text.len() as int) =~= text);
}

/// A string is read back as it was written, and skipped as a whole.
pub proof fn text_round_trip(text: Seq<char>, rest: Seq<u8>)
    ensures
        parse_text(text_encoding(text) + rest) == Parsed::Whole(text, text_encoding(text).len()),
        skip_text((text_encoding(text) + rest).skip(1), STRING_DELIMIT).shift(1) == Parsed::Whole(
            (),
            text_encoding(text).len(),
        ),
{
    let data = encode_utf8(text);
    let t = escape(data, STRING_DELIMIT);
    let s = text_encoding(text) + rest;
    escape_round_trip(data, STRING_DELIMIT, rest);
    encode_utf8_valid_utf8(text);
    encode_utf8_decode_utf8(text);
    assert(s.skip(1) =~= t.push(STRING_DELIMIT) + rest);
    assert(s.skip(1).take(t.len() as int) =~= t);
}

/// Where the bytes of a value begin, no list or map ends.
proof fn lemma_first_byte(m: Model)
    ensures
        encoding(m).len() > 0,
        encoding(m)[0] != LIST_END,
        encoding(m)[0] != MAP_END,
{
    reveal(leaf_encoding);
}

proof fn lemma_leaf_written(m: Model, rest: Seq<u8>)
    requires
        !(m is List),
        !(m is Dict),
    ensures
        leaf_encoding(m).len() > 0,
        leaf_encoding(m)[0] != LIST_BEGIN,
        leaf_encoding(m)[0] != MAP_BEGIN,
        !(m is ArrayI8) ==> parse_leaf(leaf_encoding(m) + rest) == Parsed::Whole(
            m,
            leaf_encoding(m).len(),
        ),
        skip_leaf(leaf_encoding(m) + rest) == Parsed::Whole((), leaf_encoding(m).len()),
{
    reveal(leaf_encoding);
    reveal(parse_leaf);
    reveal(skip_leaf);
    let s = leaf_encoding(m) + rest;
    assert(s[0] == leaf_encoding(m)[0]);
    match m {
        Model::Unit => {},
        Model::Bool(v) => element_round_trip(v, rest),
        Model::I8(v) => element_round_trip(v, rest),
        Model::I16(v) => element_round_trip(v, rest),
        Model::I32(v) => element_round_trip(v, rest),
        Model::I64(v) => element_round_trip(v, rest),
        Model::U8(v) => element_round_trip(v, rest),
        Model::U16(v) => element_round_trip(v, rest),
        Model::U32(v) => element_round_trip(v, rest),
        Model::U64(v) => element_round_trip(v, rest),
        Model::F32(v) => element_round_trip(v, rest),
        Model::F64(v) => element_round_trip(v, rest),
        Model::Text(text) => text_round_trip(text, rest),
        Model::ArrayBool(vs) => {
            assert(s[1] == Type::Bool.code());
            array_round_trip(vs, rest);
        },
        Model::ArrayI8(vs) => {
            assert(s[1] == Type::I8.code());
            array_round_trip(vs, rest);
        },
        Model::ArrayI16(vs) => {
            assert(s[1] == Type::I16.code());
            array_round_trip(vs, rest);
        },
        Model::ArrayI32(vs) => {
            assert(s[1] == Type::I32.code());
            array_round_trip(vs, rest);
        },
        Model::ArrayI64(vs) => {
            assert(s[1] == Type::I64.code());
            array_round_trip(vs, rest);
        },
        Model::ArrayU8(vs) => {
            assert(s[1] == Type::U8.code());
            array_round_trip(vs, rest);
        },
        Model::ArrayU16(vs) => {
            assert(s[1] == Type::U16.code());
            array_round_trip(vs, rest);
        },
        Model::ArrayU32(vs) => {
            assert(s[1] == Type::U32.code());
            array_round_trip(vs, rest);
        },
        Model::ArrayU64(vs) => {
            assert(s[1] == Type::U64.code());
            array_round_trip(vs, rest);
        },
        Model::ArrayF32(vs) => {
            assert(s[1] == Type::F32.code());
            array_round_trip(vs, rest);
        },
        Model::ArrayF64(vs) => {
            assert(s[1] == Type::F64.code());
            array_round_trip(vs, rest);
        },
        _ => {},
    }
}

/// What is read is what was written: reading the bytes of a value gives the value, and ends
/// where they do.
pub proof fn round_trip(m: Model, rest: Seq<u8>, room: nat, limit: nat)
    requires
        describes_itself(m),
        nesting(m) <= room,
    ensures
        parse_value(encoding(m) + rest, room, limit) == Parsed::Whole(m, encoding(m).len()),
    decreases m,
{
    let s = encoding(m) + rest;
    lemma_first_byte(m);
    assert(s[0] == encoding(m)[0]);
    match m {
        Model::List(vs) => {
            assert(s.skip(1) =~= list_encoding(vs) + rest);
            lemma_list_round_trip(vs, rest, (room - 1) as nat, limit);
        },
        Model::Dict(es) => {
            assert(s.skip(1) =~= map_encoding(es) + rest);
            lemma_map_round_trip(es, rest, (room - 1) as nat, limit);
        },
        _ => lemma_leaf_written(m, rest),
    }
}

proof fn lemma_list_round_trip(vs: Seq<Model>, rest: Seq<u8>, room: nat, limit: nat)
    requires
        list_describes_itself(vs),
        list_nesting(vs) <= room,
    ensures
        parse_list(list_encoding(vs) + rest, room, limit) == Parsed::Whole(
            vs,
            list_encoding(vs).len(),
        ),
    decreases vs,
{
    let s = list_encoding(vs) + rest;
    if vs.len() == 0 {
        assert(vs =~= Seq::empty());
    } else {
        let others = list_encoding(vs.skip(1)) + rest;
        let n = encoding(vs[0]).len();
        assert(s =~= encoding(vs[0]) + others);
        lemma_first_byte(vs[0]);
        round_trip(vs[0], others, room, limit);
        lemma_list_round_trip(vs.skip(1), rest, room, limit);
        assert(s.skip(n as int) =~= others);
        assert(seq![vs[0]] + vs.skip(1) =~= vs);
    }
}

/// A key and a value in front of what is left of a map.
proof fn lemma_map_cons(s: Seq<u8>, k: Model, n: nat, v: Model, m: nat, room: nat, limit: nat)
    requires
        s.len() > 0,
        s[0] != MAP_END,
        parse_value(s, room, limit) == Parsed::Whole(k, n),
        parse_value(s.skip(n as int), room, limit) == Parsed::Whole(v, m),
    ensures
        parse_map(s, room, limit) == parse_map(
            s.skip(n as int).skip(m as int),
            room,
            limit,
        ).shift(m).map(|es: Seq<(Model, Model)>| seq![(k, v)] + es).shift(n),
{
    lemma_parse_value(s, room, limit);
    lemma_parse_value(s.skip(n as int), room, limit);
}

proof fn lemma_map_round_trip(es: Seq<(Model, Model)>, rest: Seq<u8>, room: nat, limit: nat)
    requires
        map_describes_itself(es),
        map_nesting(es) <= room,
    ensures
        parse_map(map_encoding(es) + rest, room, limit) == Parsed::Whole(
            es,
            map_encoding(es).len(),
        ),
    decreases es,
{
    let s = map_encoding(es) + rest;
    if es.len() == 0 {
        assert(es =~= Seq::empty());
    } else {
        let k = es[0].0;
        let v = es[0].1;
        let others = map_encoding(es.skip(1)) + rest;
        let t = encoding(v) + others;
        assert(s =~= encoding(k) + t);
        lemma_first_byte(k);
        lemma_first_byte(v);
        round_trip(k, t, room, limit);
        assert(s.skip(encoding(k).len() as int) =~= t);
        round_trip(v, others, room, limit);
        assert(t.skip(encoding(v).len() as int) =~= others);
        lemma_map_round_trip(es.skip(1), rest, room, limit);
        lemma_map_cons(s, k, encoding(k).len(), v, encoding(v).len(), room, limit);
        assert(seq![(k, v)] + es.skip(1) =~= es);
    }
}

/// The bytes of two values are the same only where the values are, and none of them are the
/// beginning of others.
pub proof fn encoding_is_unambiguous(a: Model, b: Model, rest: Seq<u8>)
    requires
        describes_itself(a),
        describes_itself(b),
        encoding(a) + rest == encoding(b),
    ensures
        a == b,
        rest.len() == 0,
{
    let room = larger(nesting(a), nesting(b));
    round_trip(a, rest, room, room);
    round_trip(b, Seq::empty(), room, room);
    assert(encoding(b) + Seq::<u8>::empty() =~= encoding(b));
}

/// Skipping the bytes of a value, whatever it holds, ends where they do.
pub proof fn skipping_is_exact(m: Model, rest: Seq<u8>, room: nat, limit: nat)
    requires
        nesting(m) <= room,
    ensures
        skip_value(encoding(m) + rest, room, limit) == Parsed::Whole((), encoding(m).len()),
    decreases m,
{
    let s = encoding(m) + rest;
    lemma_first_byte(m);
    assert(s[0] == encoding(m)[0]);
    match m {
        Model::List(vs) => {
            assert(s.skip(1) =~= list_encoding(vs) + rest);
            lemma_list_skipped(vs, rest, (room - 1) as nat, limit);
        },
        Model::Dict(es) => {
            assert(s.skip(1) =~= map_encoding(es) + rest);
            lemma_map_skipped(es, rest, (room - 1) as nat, limit);
        },
        _ => lemma_leaf_written(m, rest),
    }
}

proof fn lemma_list_skipped(vs: Seq<Model>, rest: Seq<u8>, room: nat, limit: nat)
    requires
        list_nesting(vs) <= room,
    ensures
        skip_list(list_encoding(vs) + rest, room, limit) == Parsed::Whole(
            (),
            list_encoding(vs).len(),
        ),
    decreases vs,
{
    let s = list_encoding(vs) + rest;
    if vs.len() > 0 {
        let others = list_encoding(vs.skip(1)) + rest;
        assert(s =~= encoding(vs[0]) + others);
        lemma_first_byte(vs[0]);
        skipping_is_exact(vs[0], others, room, limit);
        lemma_list_skipped(vs.skip(1), rest, room, limit);
        assert(s.skip(encoding(vs[0]).len() as int) =~= others);
    }
}

proof fn lemma_map_skipped(es: Seq<(Model, Model)>, rest: Seq<u8>, room: nat, limit: nat)
    requires
        map_nesting(es) <= room,
    ensures
        skip_map(map_encoding(es) + rest, room, limit) == Parsed::Whole(
            (),
            map_encoding(es).len(),
        ),
    decreases es,
{
    let s = map_encoding(es) + rest;
    if es.len() > 0 {
        let k = es[0].0;
        let v = es[0].1;
        let others = map_encoding(es.skip(1)) + rest;
        let t = encoding(v) + others;
        assert(s =~= encoding(k) + t);
        lemma_first_byte(k);
        lemma_first_byte(v);
        skipping_is_exact(k, t, room, limit);
        assert(s.skip(encoding(k).len() as int) =~= t);
        skipping_is_exact(v, others, room, limit);
        assert(t.skip(encoding(v).len() as int) =~= others);
        lemma_map_skipped(es.skip(1), rest, room, limit);
    }
}

/// Whether reading stops because lists and maps are nested too deep, with as many of them open as
/// there is room for.
pub open spec fn too_deep<T>(p: Parsed<T>, room: nat, limit: nat) -> bool {
    p matches Parsed::Invalid(stop) && stop.text == depth_text(limit) && stop.opened == room
}

/// A value in which lists and maps are nested deeper than is allowed is refused, both where it
/// is read and where it is skipped.
pub proof fn deep_nesting_is_refused(m: Model, rest: Seq<u8>, room: nat, limit: nat)
    requires
        nesting(m) > room,
    ensures
        describes_itself(m) ==> too_deep(
            parse_value(encoding(m) + rest, room, limit),
            room,
            limit,
        ),
        too_deep(skip_value(encoding(m) + rest, room, limit), room, limit),
    decreases m,
{
    let s = encoding(m) + rest;
    lemma_first_byte(m);
    assert(s[0] == encoding(m)[0]);
    match m {
        Model::List(vs) => {
            if room > 0 {
                assert(s.skip(1) =~= list_encoding(vs) + rest);
                lemma_deep_list(vs, rest, (room - 1) as nat, limit);
            }
        },
        Model::Dict(es) => {
            if room > 0 {
                assert(s.skip(1) =~= map_encoding(es) + rest);
                lemma_deep_map(es, rest, (room - 1) as nat, limit);
            }
        },
        _ => {},
    }
}

proof fn lemma_deep_list(vs: Seq<Model>, rest: Seq<u8>, room: nat, limit: nat)
    requires
        list_nesting(vs) > room,
    ensures
        list_describes_itself(vs) ==> too_deep(
            parse_list(list_encoding(vs) + rest, room, limit),
            room,
            limit,
        ),
        too_deep(skip_list(list_encoding(vs) + rest, room, limit), room, limit),
    decreases vs,
{
    let s = list_encoding(vs) + rest;
    let others = list_encoding(vs.skip(1)) + rest;
    assert(s =~= encoding(vs[0]) + others);
    lemma_first_byte(vs[0]);
    if nesting(vs[0]) > room {
        deep_nesting_is_refused(vs[0], others, room, limit);
    } else {
        if list_describes_itself(vs) {
            round_trip(vs[0], others, room, limit);
        }
        skipping_is_exact(vs[0], others, room, limit);
        lemma_deep_list(vs.skip(1), rest, room, limit);
        assert(s.skip(encoding(vs[0]).len() as int) =~= others);
    }
}

proof fn lemma_deep_map(es: Seq<(Model, Model)>, rest: Seq<u8>, room: nat, limit: nat)
    requires
        map_nesting(es) > room,
    ensures
        map_describes_itself(es) ==> too_deep(
            parse_map(map_encoding(es) + rest, room, limit),
            room,
            limit,
        ),
        too_deep(skip_map(map_encoding(es) + rest, room, limit), room, limit),
    decreases es,
{
    let s = map_encoding(es) + rest;
    let k = es[0].0;
    let v = es[0].1;
    let others = map_encoding(es.skip(1)) + rest;
    let t = encoding(v) + others;
    assert(s =~= encoding(k) + t);
    lemma_first_byte(k);
    lemma_first_byte(v);
    if nesting(k) > room {
        deep_nesting_is_refused(k, t, room, limit);
    } else {
        if map_describes_itself(es) {
            round_trip(k, t, room, limit);
        }
        skipping_is_exact(k, t, room, limit);
        assert(s.skip(encoding(k).len() as int) =~= t);
        if nesting(v) > room {
            deep_nesting_is_refused(v, others, room, limit);
        } else {
            if map_describes_itself(es) {
                round_trip(v, others, room, limit);
            }
            skipping_is_exact(v, others, room, limit);
            assert(t.skip(encoding(v).len() as int) =~= others);
            lemma_deep_map(es.skip(1), rest, room, limit);
        }
    }
}

proof fn lemma_leaf_bounded(s: Seq<u8>)
    ensures
        parse_leaf(s) matches Parsed::Whole(m, _) ==> nesting(m) == 0 && describes_itself(m),
{
    reveal(parse_leaf);
}

/// What is read is never nested deeper than is allowed, and tells its type itself.
pub proof fn reading_is_bounded(s: Seq<u8>, room: nat, limit: nat)
    ensures
        parse_value(s, room, limit) matches Parsed::Whole(m, _) ==> nesting(m) <= room
            && describes_itself(m),
    decreases s.len(), 0nat,
{
    if s.len() > 0 {
        if s[0] == LIST_BEGIN {
            if room > 0 {
                lemma_list_bounded(s.skip(1), (room - 1) as nat, limit);
            }
        } else if s[0] == MAP_BEGIN {
            if room > 0 {
                lemma_map_bounded(s.skip(1), (room - 1) as nat, limit);
            }
        } else {
            lemma_leaf_bounded(s);
        }
    }
}

proof fn lemma_list_bounded(s: Seq<u8>, room: nat, limit: nat)
    ensures
        parse_list(s, room, limit) matches Parsed::Whole(vs, _) ==> list_nesting(vs) <= room
            && list_describes_itself(vs),
    decreases s.len(), 1nat,
{
    if s.len() > 0 && s[0] != LIST_END {
        lemma_parse_value(s, room, limit);
        reading_is_bounded(s, room, limit);
        if let Parsed::Whole(v, n) = parse_value(s, room, limit) {
            let t = s.skip(n as int);
            lemma_list_bounded(t, room, limit);
            if let Parsed::Whole(vs, _) = parse_list(t, room, limit) {
                assert((seq![v] + vs).skip(1) =~= vs);
            }
        }
    }
}

proof fn lemma_map_bounded(s: Seq<u8>, room: nat, limit: nat)
    ensures
        parse_map(s, room, limit) matches Parsed::Whole(es, _) ==> map_nesting(es) <= room
            && map_describes_itself(es),
    decreases s.len(), 2nat,
{
    if s.len() > 0 && s[0] != MAP_END {
        lemma_parse_value(s, room, limit);
        reading_is_bounded(s, room, limit);
        if let Parsed::Whole(k, n) = parse_value(s, room, limit) {
            lemma_entry_bounded(k, s.skip(n as int), room, limit);
        }
    }
}

proof fn lemma_entry_bounded(k: Model, s: Seq<u8>, room: nat, limit: nat)
    requires
        nesting(k) <= room,
        describes_itself(k),
    ensures
        parse_entry(k, s, room, limit) matches Parsed::Whole(es, _) ==> map_nesting(es) <= room
            && map_describes_itself(es),
    decreases s.len(), 1nat,
{
    lemma_parse_value(s, room, limit);
    reading_is_bounded(s, room, limit);
    if let Parsed::Whole(v, n) = parse_value(s, room, limit) {
        let t = s.skip(n as int);
        lemma_map_bounded(t, room, limit);
        if let Parsed::Whole(es, _) = parse_map(t, room, limit) {
            assert((seq![(k, v)] + es).skip(1) =~= es);
        }
    }
}

/// A higher limit on the nesting lets the same values through, and reads them in the same way.
pub proof fn higher_limit_reads_the_same(
    s: Seq<u8>,
    room: nat,
    limit: nat,
    more_room: nat,
    higher: nat,
)
    requires
        room <= more_room,
    ensures
        parse_value(s, room, limit) matches Parsed::Whole(m, n) ==> parse_value(
            s,
            more_room,
            higher,
        ) == Parsed::Whole(m, n),
    decreases s.len(), 0nat,
{
    if s.len() > 0 {
        if s[0] == LIST_BEGIN {
            if room > 0 {
                lemma_list_limit(
                    s.skip(1),
                    (room - 1) as nat,
                    limit,
                    (more_room - 1) as nat,
                    higher,
                );
            }
        } else if s[0] == MAP_BEGIN {
            if room > 0 {
                lemma_map_limit(
                    s.skip(1),
                    (room - 1) as nat,
                    limit,
                    (more_room - 1) as nat,
                    higher,
                );
            }
        }
    }
}

proof fn lemma_list_limit(s: Seq<u8>, room: nat, limit: nat, more_room: nat, higher: nat)
    requires
        room <= more_room,
    ensures
        parse_list(s, room, limit) matches Parsed::Whole(vs, n) ==> parse_list(
            s,
            more_room,
            higher,
        ) == Parsed::Whole(vs, n),
    decreases s.len(), 1nat,
{
    if s.len() > 0 && s[0] != LIST_END {
        lemma_parse_value(s, room, limit);
        higher_limit_reads_the_same(s, room, limit, more_room, higher);
        if let Parsed::Whole(_, n) = parse_value(s, room, limit) {
            lemma_list_limit(s.skip(n as int), room, limit, more_room, higher);
        }
    }
}

proof fn lemma_map_limit(s: Seq<u8>, room: nat, limit: nat, more_room: nat, higher: nat)
    requires
        room <= more_room,
    ensures
        parse_map(s, room, limit) matches Parsed::Whole(es, n) ==> parse_map(s, more_room, higher)
            == Parsed::Whole(es, n),
    decreases s.len(), 2nat,
{
    if s.len() > 0 && s[0] != MAP_END {
        lemma_parse_value(s, room, limit);
        higher_limit_reads_the_same(s, room, limit, more_room, higher);
        if let Parsed::Whole(k, n) = parse_value(s, room, limit) {
            lemma_entry_limit(k, s.skip(n as int), room, limit, more_room, higher);
        }
    }
}

proof fn lemma_entry_limit(
    k: Model,
    s: Seq<u8>,
    room: nat,
    limit: nat,
    more_room: nat,
    higher: nat,
)
    requires
        room <= more_room,
    ensures
        parse_entry(k, s, room, limit) matches Parsed::Whole(es, n) ==> parse_entry(
            k,
            s,
            more_room,
            higher,
        ) == Parsed::Whole(es, n),
    decreases s.len(), 1nat,
{
    lemma_parse_value(s, room, limit);
    higher_limit_reads_the_same(s, room, limit, more_room, higher);
    if let Parsed::Whole(_, n) = parse_value(s, room, limit) {
        lemma_map_limit(s.skip(n as int), room, limit, more_room, higher);
    }
}

/// Decoding what a value was encoded to gives the value back.
pub proof fn decoding_undoes_encoding(m: Model, max_depth: nat)
    requires
        describes_itself(m),
        nesting(m) <= max_depth,
    ensures
        decoded(encoding(m), None, max_depth) == Ok::<Model, Seq<char>>(m),
{
    round_trip(m, Seq::empty(), max_depth, max_depth);
    assert(encoding(m) + Seq::<u8>::empty() =~= encoding(m));
}

/// A stream that goes on behind a value is refused.
pub proof fn trailing_bytes_are_refused(
    bytes: Seq<u8>,
    rest: Seq<u8>,
    fault: Option<Seq<char>>,
    max_depth: nat,
)
    requires
        decoded(bytes, None, max_depth) is Ok,
        rest.len() > 0,
    ensures
        decoded(bytes + rest, fault, max_depth) == Err::<Model, Seq<char>>(
            "expected end of stream, found trailing bytes"@,
        ),
{
    lemma_parse_value(bytes, max_depth, max_depth);
    reading_is_settled(bytes, rest, max_depth, max_depth);
}

/// A stream that breaks off inside a value is refused, wherever it does.
pub proof fn truncated_streams_are_refused(bytes: Seq<u8>, k: nat, max_depth: nat)
    requires
        decoded(bytes, None, max_depth) is Ok,
        k < bytes.len(),
    ensures
        decoded(bytes.take(k as int), None, max_depth) is Err,
{
    lemma_parse_value(bytes, max_depth, max_depth);
    truncation_is_noticed(bytes, max_depth, max_depth, bytes.len(), k);
}

/// An error of the source of a stream is not passed over in silence.
pub proof fn broken_sources_are_refused(bytes: Seq<u8>, text: Seq<char>, max_depth: nat)
    ensures
        decoded(bytes, Some(text), max_depth) is Err,
        ignored(bytes, Some(text), max_depth) is Err,
        decoded(bytes, None, max_depth) is Ok ==> decoded(bytes, Some(text), max_depth) == Err::<
            Model,
            Seq<char>,
        >(text),
{
}

/// How a stream is cut into chunks makes no difference to what is read.
pub proof fn chunks_make_no_difference(
    a: Seq<Result<Bytes, Error>>,
    b: Seq<Result<Bytes, Error>>,
    max_depth: nat,
)
    requires
        flow(a) == flow(b),
        fault(a) == fault(b),
    ensures
        decoded(flow(a), fault(a), max_depth) == decoded(flow(b), fault(b), max_depth),
        ignored(flow(a), fault(a), max_depth) == ignored(flow(b), fault(b), max_depth),
{
}

/// What can be decoded can be ignored.
pub proof fn ignoring_follows_decoding(
    bytes: Seq<u8>,
    fault: Option<Seq<char>>,
    max_depth: nat,
)
    requires
        decoded(bytes, fault, max_depth) is Ok,
    ensures
        ignored(bytes, fault, max_depth) is Ok,
{
    reading_is_skipping(bytes, max_depth, max_depth);
}

/// Every value can be ignored, arrays of any type among them.
pub proof fn encodings_can_be_ignored(m: Model, max_depth: nat)
    requires
        nesting(m) <= max_depth,
    ensures
        ignored(encoding(m), None, max_depth) is Ok,
{
    skipping_is_exact(m, Seq::empty(), max_depth, max_depth);
    assert(encoding(m) + Seq::<u8>::empty() =~= encoding(m));
}

/// The limit on the nesting of lists and maps decides which values are decoded: those that keep
/// to it are, those that do not are refused.
pub proof fn limit_is_exact(m: Model, max_depth: nat)
    requires
        describes_itself(m),
    ensures
        decoded(encoding(m), None, max_depth) == if nesting(m) <= max_depth {
            Ok::<Model, Seq<char>>(m)
        } else {
            Err::<Model, Seq<char>>(depth_text(max_depth))
        },
{
    if nesting(m) <= max_depth {
        decoding_undoes_encoding(m, max_depth);
    } else {
        deep_nesting_is_refused(m, Seq::empty(), max_depth, max_depth);
        assert(encoding(m) + Seq::<u8>::empty() =~= encoding(m));
    }
}

/// Nothing is decoded that is nested deeper than the limit.
pub proof fn decoding_keeps_the_limit(
    bytes: Seq<u8>,
    fault: Option<Seq<char>>,
    max_depth: nat,
)
    ensures
        decoded(bytes, fault, max_depth) matches Ok(m) ==> nesting(m) <= max_depth,
{
    reading_is_bounded(bytes, max_depth, max_depth);
}

/// The bytes of `chunks`, one behind the other.
pub open spec fn to_come(chunks: Seq<Seq<u8>>) -> Seq<u8>
    decreases chunks.len(),
{
    if chunks.len() == 0 {
        Seq::empty()
    } else {
        chunks[0] + to_come(chunks.skip(1))
    }
}

/// Reading text until it ends or fails, from a decoder to which `chunks` arrive, and then the end
/// of the stream: the outcome, and the bytes that are left, those to come among them.
pub open spec fn read_string_through(
    s: State,
    opened: bool,
    chunks: Seq<Seq<u8>>,
    begin: u8,
    end: u8,
) -> (Outcome, Seq<u8>)
    decreases chunks.len(),
{
    let (t, o, outcome) = read_string(s, opened, begin, end);
    if !(outcome is Waits) {
        (outcome, t.pending + to_come(chunks))
    } else if chunks.len() == 0 {
        let (u, _, last) = read_string(State { terminated: true, ..t }, o, begin, end);
        (last, u.pending)
    } else {
        read_string_through(
            State { pending: t.pending + chunks[0], ..t },
            o,
            chunks.skip(1),
            begin,
            end,
        )
    }
}

/// Skipping text until it ends or fails, in the same way.
pub open spec fn skip_string_through(
    s: State,
    opened: bool,
    escaped: bool,
    chunks: Seq<Seq<u8>>,
    begin: u8,
    end: u8,
) -> (Outcome, Seq<u8>)
    decreases chunks.len(),
{
    let (t, o, x, outcome) = skip_string(s, opened, escaped, begin, end);
    if !(outcome is Waits) {
        (outcome, t.pending + to_come(chunks))
    } else if chunks.len() == 0 {
        let (u, _, _, last) = skip_string(State { terminated: true, ..t }, o, x, begin, end);
        (last, u.pending)
    } else {
        skip_string_through(
            State { pending: t.pending + chunks[0], ..t },
            o,
            x,
            chunks.skip(1),
            begin,
            end,
        )
    }
}

/// What comes of text, given where it ends in all of the bytes there will be.
spec fn text_outcome(end: Option<int>) -> Outcome {
    match end {
        Some(_) => Outcome::Ends,
        None => Outcome::Fails("unexpected end of stream"@),
    }
}

proof fn lemma_read_through(s: State, chunks: Seq<Seq<u8>>, begin: u8, end: u8)
    requires
        !s.terminated,
    ensures
        ({
            let all = s.pending + to_come(chunks);
            let (outcome, rest) = read_string_through(s, true, chunks, begin, end);
            &&& outcome == text_outcome(text_end(all, end))
            &&& text_end(all, end) matches Some(k) ==> rest == all.skip(k + 1)
        }),
    decreases chunks.len(),
{
    let p = s.pending;
    let all = p + to_come(chunks);
    lemma_text_end_extend(p, to_come(chunks), end);
    if let Some(k) = text_end(p, end) {
        assert(p.skip(k + 1) + to_come(chunks) =~= all.skip(k + 1));
    } else if chunks.len() == 0 {
        assert(all =~= p);
    } else {
        assert(all =~= (p + chunks[0]) + to_come(chunks.skip(1)));
        lemma_read_through(State { pending: p + chunks[0], ..s }, chunks.skip(1), begin, end);
    }
}

/// What is left of text that goes on with `more`, where lots of `p` have been let go of.
proof fn lemma_let_go(escaped: bool, p: Seq<u8>, more: Seq<u8>, end: u8)
    requires
        tail_end(escaped, p, end) is None,
        end != ESCAPE || !escaped,
    ensures
        ({
            let n = let_go(p.len()) as int;
            let x = dangling(waiting(escaped) + p.take(n));
            let left = p.skip(n) + more;
            &&& 0 <= n <= p.len()
            &&& end != ESCAPE || !x
            &&& match tail_end(x, left, end) {
                Some(k) => {
                    &&& 0 <= k < left.len()
                    &&& tail_end(escaped, p + more, end) == Some(n + k)
                    &&& left.skip(k + 1) == (p + more).skip(n + k + 1)
                },
                None => tail_end(escaped, p + more, end) is None,
            }
        }),
{
    let n = let_go(p.len()) as int;
    let w = waiting(escaped);
    let left = p.skip(n) + more;
    lemma_tail_none(escaped, p, end);
    lemma_text_open_prefix(w + p, end, w.len() + n);
    assert((w + p).take(w.len() + n) =~= w + p.take(n));
    lemma_open_escape(w + p.take(n), end);
    lemma_tail_resume(escaped, p.take(n), left, end);
    assert(p.take(n) + left =~= p + more);
    if let Some(k) = tail_end(dangling(w + p.take(n)), left, end) {
        assert(left.skip(k + 1) =~= (p + more).skip(n + k + 1));
    }
}

proof fn lemma_skip_through(s: State, escaped: bool, chunks: Seq<Seq<u8>>, begin: u8, end: u8)
    requires
        !s.terminated,
        end != ESCAPE || !escaped,
    ensures
        ({
            let all = s.pending + to_come(chunks);
            let (outcome, rest) = skip_string_through(s, true, escaped, chunks, begin, end);
            &&& outcome == text_outcome(tail_end(escaped, all, end))
            &&& tail_end(escaped, all, end) matches Some(k) ==> rest == all.skip(k + 1)
        }),
    decreases chunks.len(),
{
    let p = s.pending;
    let all = p + to_come(chunks);
    lemma_tail_extend(escaped, p, to_come(chunks), end);
    if let Some(k) = tail_end(escaped, p, end) {
        assert(p.skip(k + 1) + to_come(chunks) =~= all.skip(k + 1));
    } else {
        let n = let_go(p.len()) as int;
        let q = p.skip(n);
        let x = dangling(waiting(escaped) + p.take(n));
        lemma_let_go(escaped, p, to_come(chunks), end);
        if chunks.len() == 0 {
            assert(all =~= p);
            assert(q + to_come(chunks) =~= q);
        } else {
            let after = q + chunks[0];
            assert(q + to_come(chunks) =~= after + to_come(chunks.skip(1)));
            lemma_skip_through(State { pending: after, ..s }, x, chunks.skip(1), begin, end);
        }
    }
}

/// Skipping a string comes to the same as reading it, however the stream is cut into chunks: it
/// ends or fails with it, and where it ends the same bytes are left.
pub proof fn skipping_a_string_is_reading_it(
    s: State,
    chunks: Seq<Seq<u8>>,
    begin: u8,
    end: u8,
)
    requires
        !s.terminated,
    ensures
        ({
            let (read, rest) = read_string_through(s, false, chunks, begin, end);
            let (skipped, left) = skip_string_through(s, false, false, chunks, begin, end);
            skipped == read && (read is Ends ==> left == rest)
        }),
    decreases chunks.len(),
{
    let p = s.pending;
    if p.len() == 0 {
        if chunks.len() > 0 {
            skipping_a_string_is_reading_it(
                State { pending: p + chunks[0], ..s },
                chunks.skip(1),
                begin,
                end,
            );
        }
    } else if p[0] == begin {
        let t = s.consume(1);
        lemma_read_through(t, chunks, begin, end);
        lemma_skip_through(t, false, chunks, begin, end);
        lemma_tail_start(t.pending + to_come(chunks), end);
        lemma_tail_start(t.pending, end);
        assert(read_string(s, false, begin, end) == read_string(t, true, begin, end));
        assert(skip_string(s, false, false, begin, end) == skip_string(
            t,
            true,
            false,
            begin,
            end,
        ));
    }
}

/// The bytes of `xs`, one behind the other; `bytes` gives those of each.
pub open spec fn run<T>(xs: Seq<T>, bytes: spec_fn(T) -> Seq<u8>) -> Seq<u8>
    decreases xs.len(),
{
    if xs.len() == 0 {
        Seq::empty()
    } else {
        bytes(xs[0]) + run(xs.skip(1), bytes)
    }
}

/// Whether `x` is read back from its bytes, whatever follows them, and cannot be taken for the end
/// of what holds it.
pub open spec fn reads_back<T>(
    read: spec_fn(Seq<u8>) -> Parsed<T>,
    bytes: spec_fn(T) -> Seq<u8>,
    x: T,
    end: u8,
) -> bool {
    &&& bytes(x).len() > 0
    &&& bytes(x)[0] != end
    &&& forall|rest: Seq<u8>| #[trigger]
        read(bytes(x) + rest) == Parsed::Whole(x, bytes(x).len())
}

/// A decoder, the bytes still to come to it, and whether all of the list or map has been read.
pub ghost struct Walk {
    /// The decoder.
    pub state: State,
    /// The bytes still to come.
    pub more: Seq<u8>,
    /// Whether all of the list or map has been read.
    pub done: bool,
}

impl Walk {
    /// The bytes that are unread, those to come among them.
    pub open spec fn unread(self) -> Seq<u8> {
        self.state.pending + self.more
    }
}

/// Whether a list or map, which begins with `begin`, is being opened: in front of the bytes
/// `content`, behind its first byte or not, and inside `depth` others.
pub open spec fn opening(
    s: State,
    more: Seq<u8>,
    stage: Opening,
    begin: u8,
    content: Seq<u8>,
    depth: nat,
) -> bool {
    &&& s.terminated ==> more.len() == 0
    &&& if stage == Opening::Begin {
        s.room() > 0 && s.depth == depth && s.pending + more == seq![begin] + content
    } else {
        s.depth == depth + 1 && s.pending + more == content
    }
}

/// Whether reading the item `v`, in whatever chunks its bytes arrive, and then looking at what
/// follows it, leads from `a` to `b`.
pub open spec fn walked<T>(
    read: spec_fn(Seq<u8>) -> Parsed<T>,
    end: u8,
    a: Walk,
    v: T,
    b: Walk,
) -> bool {
    exists|mid: State, n: nat|
        {
            &&& #[trigger] read_past(a, n, mid, b.more)
            &&& read(a.unread()) == Parsed::Whole(v, n)
            &&& closed(mid, end, b.state, Step::Done(b.done))
        }
}

/// Whether `n` bytes have been consumed since `a`, which leads to `mid`, with `more` to come.
pub open spec fn read_past(a: Walk, n: nat, mid: State, more: Seq<u8>) -> bool {
    &&& mid.pending + more == a.unread().skip(n as int)
    &&& mid.depth == a.state.depth
    &&& mid.terminated ==> more.len() == 0
}

/// Whether `i` of the items `xs` have been read of a list or map inside `depth` others.
pub open spec fn at_item<T>(
    w: Walk,
    xs: Seq<T>,
    bytes: spec_fn(T) -> Seq<u8>,
    end: u8,
    rest: Seq<u8>,
    depth: nat,
    i: int,
) -> bool {
    if i < xs.len() {
        &&& !w.done
        &&& w.state.depth == depth + 1
        &&& w.unread() == run(xs.skip(i), bytes) + (seq![end] + rest)
    } else {
        w.done && w.state.depth == depth && w.unread() == rest
    }
}

/// A list or map whose opening has to wait for bytes is still being opened when it goes on.
pub proof fn opening_goes_on(
    s: State,
    more: Seq<u8>,
    stage: Opening,
    begin: u8,
    end: u8,
    content: Seq<u8>,
    depth: nat,
    after: State,
    next: Opening,
)
    requires
        opening(s, more, stage, begin, content, depth),
        opened(s, stage, begin, end, after, next, Step::Read),
    ensures
        opening(after, more, next, begin, content, depth),
{
    if stage == Opening::Begin && s.pending.len() > 0 {
        assert((seq![begin] + content)[0] == begin);
        assert((s.pending + more)[0] == s.pending[0]);
        assert(s.pending.skip(1) + more =~= (s.pending + more).skip(1));
        assert((seq![begin] + content).skip(1) =~= content);
    }
}

/// The opening of a list or map neither fails nor misses what it holds.
pub proof fn opening_finds_the_items<T>(
    xs: Seq<T>,
    bytes: spec_fn(T) -> Seq<u8>,
    begin: u8,
    end: u8,
    rest: Seq<u8>,
    depth: nat,
    s: State,
    stage: Opening,
    next: Opening,
    w: Walk,
    r: Step<Result<bool, Error>>,
)
    requires
        xs.len() > 0 ==> bytes(xs[0]).len() > 0 && bytes(xs[0])[0] != end,
        opening(s, w.more, stage, begin, run(xs, bytes) + (seq![end] + rest), depth),
        opened(s, stage, begin, end, w.state, next, r),
        r matches Step::Done(Ok(done)) ==> w.done == done,
    ensures
        !(r matches Step::Done(Err(_))),
        r is Done ==> at_item(w, xs, bytes, end, rest, depth, 0),
{
    let content = run(xs, bytes) + (seq![end] + rest);
    let p = s.pending;
    if stage == Opening::Begin && p.len() > 0 {
        assert((seq![begin] + content)[0] == begin);
        assert((p + w.more)[0] == p[0]);
        assert(p.skip(1) + w.more =~= (p + w.more).skip(1));
        assert((seq![begin] + content).skip(1) =~= content);
    }
    if r is Done {
        let t = if stage == Opening::Begin {
            s.consume(1).push()
        } else {
            s
        };
        let q = t.pending;
        assert(q + w.more == content);
        assert(content.len() > 0);
        assert(q.len() > 0 ==> q[0] == content[0]);
        if xs.len() == 0 {
            assert(content =~= seq![end] + rest);
            assert(q.skip(1) + w.more =~= content.skip(1));
            assert(content.skip(1) =~= rest);
        } else {
            assert(content[0] == bytes(xs[0])[0]);
            assert(xs.skip(0) =~= xs);
        }
    }
}

proof fn lemma_walked_item<T>(
    read: spec_fn(Seq<u8>) -> Parsed<T>,
    bytes: spec_fn(T) -> Seq<u8>,
    xs: Seq<T>,
    end: u8,
    rest: Seq<u8>,
    depth: nat,
    i: int,
    a: Walk,
    v: T,
    b: Walk,
)
    requires
        0 <= i < xs.len(),
        forall|j: int| 0 <= j < xs.len() ==> #[trigger] reads_back(read, bytes, xs[j], end),
        at_item(a, xs, bytes, end, rest, depth, i),
        walked(read, end, a, v, b),
    ensures
        v == xs[i],
        at_item(b, xs, bytes, end, rest, depth, i + 1),
{
    let x = xs[i];
    let others = run(xs.skip(i + 1), bytes) + (seq![end] + rest);
    assert(reads_back(read, bytes, x, end));
    assert(xs.skip(i).skip(1) =~= xs.skip(i + 1));
    assert(xs.skip(i)[0] == x);
    assert(a.unread() =~= bytes(x) + others);
    let (mid, n) = choose|mid: State, n: nat|
        {
            &&& #[trigger] read_past(a, n, mid, b.more)
            &&& read(a.unread()) == Parsed::Whole(v, n)
            &&& closed(mid, end, b.state, Step::Done(b.done))
        };
    assert(n == bytes(x).len());
    assert(a.unread().skip(n as int) =~= others);
    let q = mid.pending;
    assert(q + b.more == others);
    assert(others.len() > 0);
    assert(q.len() > 0 ==> q[0] == others[0]);
    if i + 1 == xs.len() {
        assert(others =~= seq![end] + rest);
        assert(q.skip(1) + b.more =~= others.skip(1));
        assert(others.skip(1) =~= rest);
    } else {
        let y = xs[i + 1];
        assert(reads_back(read, bytes, y, end));
        assert(xs.skip(i + 1)[0] == y);
        assert(others[0] == bytes(y)[0]);
    }
}

/// Reading what a list or map holds, item by item, gives its items in order, in whatever chunks
/// they arrive. Behind the last one it ends, with as many others open as before it, and what
/// follows it unread. An item of a list is an element; one of a map is a key and its value.
pub proof fn items_come_in_order<T>(
    read: spec_fn(Seq<u8>) -> Parsed<T>,
    bytes: spec_fn(T) -> Seq<u8>,
    xs: Seq<T>,
    begin: u8,
    end: u8,
    rest: Seq<u8>,
    depth: nat,
    s: State,
    stage: Opening,
    next: Opening,
    walk: Seq<Walk>,
    vs: Seq<T>,
)
    requires
        forall|j: int| 0 <= j < xs.len() ==> #[trigger] reads_back(read, bytes, xs[j], end),
        vs.len() == xs.len(),
        walk.len() == xs.len() + 1,
        opening(s, walk[0].more, stage, begin, run(xs, bytes) + (seq![end] + rest), depth),
        opened(s, stage, begin, end, walk[0].state, next, Step::Done(Ok(walk[0].done))),
        forall|i: int|
            0 <= i < xs.len() && !walk[i].done ==> walked(
                read,
                end,
                #[trigger] walk[i],
                vs[i],
                walk[i + 1],
            ),
    ensures
        vs == xs,
        forall|i: int| 0 <= i < xs.len() ==> !(#[trigger] walk[i]).done,
        walk.last().done,
        walk.last().state.depth == depth,
        walk.last().unread() == rest,
{
    if xs.len() > 0 {
        assert(reads_back(read, bytes, xs[0], end));
    }
    opening_finds_the_items(
        xs,
        bytes,
        begin,
        end,
        rest,
        depth,
        s,
        stage,
        next,
        walk[0],
        Step::Done(Ok(walk[0].done)),
    );
    lemma_items_from(read, bytes, xs, end, rest, depth, walk, vs, 0);
    assert(vs =~= xs);
}

proof fn lemma_items_from<T>(
    read: spec_fn(Seq<u8>) -> Parsed<T>,
    bytes: spec_fn(T) -> Seq<u8>,
    xs: Seq<T>,
    end: u8,
    rest: Seq<u8>,
    depth: nat,
    walk: Seq<Walk>,
    vs: Seq<T>,
    k: int,
)
    requires
        0 <= k <= xs.len(),
        forall|j: int| 0 <= j < xs.len() ==> #[trigger] reads_back(read, bytes, xs[j], end),
        vs.len() == xs.len(),
        walk.len() == xs.len() + 1,
        at_item(walk[k], xs, bytes, end, rest, depth, k),
        forall|i: int|
            0 <= i < xs.len() && !walk[i].done ==> walked(
                read,
                end,
                #[trigger] walk[i],
                vs[i],
                walk[i + 1],
            ),
    ensures
        forall|i: int| k <= i < xs.len() ==> vs[i] == xs[i],
        forall|i: int| k <= i < xs.len() ==> !(#[trigger] walk[i]).done,
        at_item(walk.last(), xs, bytes, end, rest, depth, xs.len() as int),
    decreases xs.len() - k,
{
    if k < xs.len() {
        assert(!walk[k].done);
        lemma_walked_item(read, bytes, xs, end, rest, depth, k, walk[k], vs[k], walk[k + 1]);
        lemma_items_from(read, bytes, xs, end, rest, depth, walk, vs, k + 1);
    }
}

/// Reading a key and then its value.
pub open spec fn read_pair<K, V>(
    key: spec_fn(Seq<u8>) -> Parsed<K>,
    value: spec_fn(Seq<u8>) -> Parsed<V>,
) -> spec_fn(Seq<u8>) -> Parsed<(K, V)> {
    |s: Seq<u8>|
        match key(s) {
            Parsed::Whole(k, n) => value(s.skip(n as int)).shift(n).map(|v: V| (k, v)),
            other => other.failure(),
        }
}

/// The bytes of a key, and then those of its value.
pub open spec fn pair_bytes<K, V>(
    key: spec_fn(K) -> Seq<u8>,
    value: spec_fn(V) -> Seq<u8>,
) -> spec_fn((K, V)) -> Seq<u8> {
    |e: (K, V)| key(e.0) + value(e.1)
}

/// A key and its value are read back where both of them are.
pub proof fn pairs_read_back<K, V>(
    key: spec_fn(Seq<u8>) -> Parsed<K>,
    key_bytes: spec_fn(K) -> Seq<u8>,
    value: spec_fn(Seq<u8>) -> Parsed<V>,
    value_bytes: spec_fn(V) -> Seq<u8>,
    k: K,
    v: V,
    end: u8,
)
    requires
        reads_back(key, key_bytes, k, end),
        reads_back(value, value_bytes, v, end),
    ensures
        reads_back(read_pair(key, value), pair_bytes(key_bytes, value_bytes), (k, v), end),
{
    let kb = key_bytes(k);
    let vb = value_bytes(v);
    assert forall|rest: Seq<u8>| #[trigger]
        read_pair(key, value)(pair_bytes(key_bytes, value_bytes)((k, v)) + rest) == Parsed::Whole(
            (k, v),
            pair_bytes(key_bytes, value_bytes)((k, v)).len(),
        ) by {
        let s = kb + vb + rest;
        assert(s =~= kb + (vb + rest));
        assert(s.skip(kb.len() as int) =~= vb + rest);
        assert(key(kb + (vb + rest)) == Parsed::Whole(k, kb.len()));
        assert(value(vb + rest) == Parsed::Whole(v, vb.len()));
    }
}

/// Reading a value of any type.
pub open spec fn value_reader(room: nat, limit: nat) -> spec_fn(Seq<u8>) -> Parsed<Model> {
    |s: Seq<u8>| parse_value(s, room, limit)
}

/// The bytes of a value of any type.
pub open spec fn value_bytes() -> spec_fn(Model) -> Seq<u8> {
    |m: Model| encoding(m)
}

/// A value of any type is read back inside a list or map.
pub proof fn values_read_back(m: Model, room: nat, limit: nat, end: u8)
    requires
        describes_itself(m),
        nesting(m) <= room,
        end == LIST_END || end == MAP_END,
    ensures
        reads_back(value_reader(room, limit), value_bytes(), m, end),
{
    lemma_first_byte(m);
    assert forall|rest: Seq<u8>| #[trigger]
        value_reader(room, limit)(value_bytes()(m) + rest) == Parsed::Whole(
            m,
            value_bytes()(m).len(),
        ) by {
        round_trip(m, rest, room, limit);
    }
}

proof fn lemma_list_items(xs: Seq<Model>, rest: Seq<u8>, room: nat, limit: nat)
    requires
        list_describes_itself(xs),
        list_nesting(xs) <= room,
    ensures
        run(xs, value_bytes()) + (seq![LIST_END] + rest) == list_encoding(xs) + rest,
        forall|j: int|
            0 <= j < xs.len() ==> #[trigger] reads_back(
                value_reader(room, limit),
                value_bytes(),
                xs[j],
                LIST_END,
            ),
    decreases xs,
{
    if xs.len() == 0 {
        assert(run(xs, value_bytes()) + (seq![LIST_END] + rest) =~= list_encoding(xs) + rest);
    } else {
        values_read_back(xs[0], room, limit, LIST_END);
        lemma_list_items(xs.skip(1), rest, room, limit);
        let others = run(xs.skip(1), value_bytes());
        assert(run(xs, value_bytes()) + (seq![LIST_END] + rest) =~= encoding(xs[0]) + (others + (
        seq![LIST_END] + rest)));
        assert(list_encoding(xs) + rest =~= encoding(xs[0]) + (list_encoding(xs.skip(1)) + rest));
        assert forall|j: int| 0 <= j < xs.len() implies #[trigger] reads_back(
            value_reader(room, limit),
            value_bytes(),
            xs[j],
            LIST_END,
        ) by {
            if j > 0 {
                assert(xs.skip(1)[j - 1] == xs[j]);
            }
        }
    }
}

proof fn lemma_map_items(es: Seq<(Model, Model)>, rest: Seq<u8>, room: nat, limit: nat)
    requires
        map_describes_itself(es),
        map_nesting(es) <= room,
    ensures
        run(es, pair_bytes(value_bytes(), value_bytes())) + (seq![MAP_END] + rest) == map_encoding(
            es,
        ) + rest,
        forall|j: int|
            0 <= j < es.len() ==> #[trigger] reads_back(
                read_pair(value_reader(room, limit), value_reader(room, limit)),
                pair_bytes(value_bytes(), value_bytes()),
                es[j],
                MAP_END,
            ),
    decreases es,
{
    let read = value_reader(room, limit);
    let bytes = pair_bytes(value_bytes(), value_bytes());
    if es.len() == 0 {
        assert(run(es, bytes) + (seq![MAP_END] + rest) =~= map_encoding(es) + rest);
    } else {
        let k = es[0].0;
        let v = es[0].1;
        values_read_back(k, room, limit, MAP_END);
        values_read_back(v, room, limit, MAP_END);
        pairs_read_back(read, value_bytes(), read, value_bytes(), k, v, MAP_END);
        lemma_map_items(es.skip(1), rest, room, limit);
        let others = run(es.skip(1), bytes);
        let first = encoding(k) + encoding(v);
        assert(es[0] == (k, v));
        assert(run(es, bytes) + (seq![MAP_END] + rest) =~= first + (others + (seq![MAP_END]
            + rest)));
        assert(map_encoding(es) + rest =~= first + (map_encoding(es.skip(1)) + rest));
        assert forall|j: int| 0 <= j < es.len() implies #[trigger] reads_back(
            read_pair(read, read),
            bytes,
            es[j],
            MAP_END,
        ) by {
            if j > 0 {
                assert(es.skip(1)[j - 1] == es[j]);
            }
        }
    }
}

/// Walking through a list of values gives its elements in order, then ends, with as many lists
/// and maps open as before it and what follows it unread.
pub proof fn list_access_gives_its_elements(
    xs: Seq<Model>,
    rest: Seq<u8>,
    depth: nat,
    room: nat,
    limit: nat,
    s: State,
    stage: Opening,
    next: Opening,
    walk: Seq<Walk>,
    vs: Seq<Model>,
)
    requires
        list_describes_itself(xs),
        list_nesting(xs) <= room,
        vs.len() == xs.len(),
        walk.len() == xs.len() + 1,
        opening(s, walk[0].more, stage, LIST_BEGIN, list_encoding(xs) + rest, depth),
        opened(s, stage, LIST_BEGIN, LIST_END, walk[0].state, next, Step::Done(Ok(walk[0].done))),
        forall|i: int|
            0 <= i < xs.len() && !walk[i].done ==> walked(
                value_reader(room, limit),
                LIST_END,
                #[trigger] walk[i],
                vs[i],
                walk[i + 1],
            ),
    ensures
        vs == xs,
        forall|i: int| 0 <= i < xs.len() ==> !(#[trigger] walk[i]).done,
        walk.last().done,
        walk.last().state.depth == depth,
        walk.last().unread() == rest,
{
    lemma_list_items(xs, rest, room, limit);
    items_come_in_order(
        value_reader(room, limit),
        value_bytes(),
        xs,
        LIST_BEGIN,
        LIST_END,
        rest,
        depth,
        s,
        stage,
        next,
        walk,
        vs,
    );
}

/// Walking through a map gives its keys, each with its value, in order, then ends, with as many
/// lists and maps open as before it and what follows it unread.
pub proof fn map_access_gives_its_entries(
    es: Seq<(Model, Model)>,
    rest: Seq<u8>,
    depth: nat,
    room: nat,
    limit: nat,
    s: State,
    stage: Opening,
    next: Opening,
    walk: Seq<Walk>,
    vs: Seq<(Model, Model)>,
)
    requires
        map_describes_itself(es),
        map_nesting(es) <= room,
        vs.len() == es.len(),
        walk.len() == es.len() + 1,
        opening(s, walk[0].more, stage, MAP_BEGIN, map_encoding(es) + rest, depth),
        opened(s, stage, MAP_BEGIN, MAP_END, walk[0].state, next, Step::Done(Ok(walk[0].done))),
        forall|i: int|
            0 <= i < es.len() && !walk[i].done ==> walked(
                read_pair(value_reader(room, limit), value_reader(room, limit)),
                MAP_END,
                #[trigger] walk[i],
                vs[i],
                walk[i + 1],
            ),
    ensures
        vs == es,
        forall|i: int| 0 <= i < es.len() ==> !(#[trigger] walk[i]).done,
        walk.last().done,
        walk.last().state.depth == depth,
        walk.last().unread() == rest,
{
    lemma_map_items(es, rest, room, limit);
    items_come_in_order(
        read_pair(value_reader(room, limit), value_reader(room, limit)),
        pair_bytes(value_bytes(), value_bytes()),
        es,
        MAP_BEGIN,
        MAP_END,
        rest,
        depth,
        s,
        stage,
        next,
        walk,
        vs,
    );
}

/// A value of type `N` is read back inside a list or map.
pub proof fn elements_read_back<N: Element>(v: N, end: u8)
    requires
        end == LIST_END || end == MAP_END,
    ensures
        reads_back(|s: Seq<u8>| parse_element::<N>(s), |v: N| scalar_encoding(v), v, end),
{
    N::kind().code_is_unambiguous(N::kind());
    assert forall|rest: Seq<u8>|
        #![trigger scalar_encoding(v) + rest]
        parse_element::<N>(scalar_encoding(v) + rest) == Parsed::Whole(
            v,
            scalar_encoding(v).len(),
        ) by {
        element_round_trip(v, rest);
    }
}

} // verus!
