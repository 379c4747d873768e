//! What the words of the contracts mean.
//!
//! The contracts speak of streams, values and texts by functions of their own. The laws here tie
//! those functions to sequences, numbers and bytes.

use bytes::Bytes;
use vstd::prelude::*;
use vstd::utf8::encode_utf8;

use crate::access::{
    buffered, lemma_piece_len, lemma_unescape_take, piece_at, piece_len, Turn,
};
use crate::buf::bytes_contents;
use crate::constants::{Type, ARRAY_DELIMIT};
use crate::de::Step;
use crate::element::{
    be_value, be_value_bytes, elements, elements_bytes, elements_concat, elements_len,
    elements_round_trip, Element, F32, F64,
};
use crate::error::{invalid_length_text, invalid_value_text, Error};
use crate::escape::{
    closes_at, dangling, escape, lemma_closes_extend, lemma_open_never_closes,
    lemma_text_concat, lemma_text_end, lemma_text_push, text_end, text_open, unescape,
};
use crate::grammar::{lemma_skip_value, skip_value_extend};
use crate::laws::{
    decoding_undoes_encoding, round_trip, skipping_is_exact, truncation_is_noticed,
};
use crate::model::{
    describes_itself, encoding, larger, leaf_encoding, list_describes_itself, list_encoding,
    list_nesting, map_describes_itself, map_encoding, map_nesting, nesting, Model,
};
use crate::read::{decoded, fault, flow, ignored, joined, later};
use crate::text::decimal;
use crate::value::{entries, lemma_entries, lemma_models, models, Value};

verus! {

/// Going through a sequence item by item.
proof fn lemma_flat_map<A, B>(s: Seq<A>, f: spec_fn(A) -> Seq<B>)
    ensures
        s.len() == 0 ==> s.flat_map(f) == Seq::<B>::empty(),
        s.len() > 0 ==> s.flat_map(f) == f(s[0]) + s.skip(1).flat_map(f),
{
    if s.len() > 0 {
        assert(s.map_values(f).drop_first() =~= s.skip(1).map_values(f));
    }
}

/// The bytes of a stream are those of all of its chunks, in their order, however many there are.
pub proof fn streams_are_their_chunks(chunks: Seq<Bytes>)
    ensures
        joined(chunks) == chunks.flat_map(|c: Bytes| bytes_contents(c)),
    decreases chunks.len(),
{
    let f = |c: Bytes| bytes_contents(c);
    lemma_flat_map(chunks, f);
    if chunks.len() > 0 {
        streams_are_their_chunks(chunks.skip(1));
    }
}

/// Chunks behind chunks are bytes behind bytes, and one chunk is its bytes.
pub proof fn chunks_join_in_order(a: Seq<Bytes>, c: Bytes, b: Seq<Bytes>)
    ensures
        joined(Seq::<Bytes>::empty()) == Seq::<u8>::empty(),
        joined(seq![c]) == bytes_contents(c),
        joined(a + b) == joined(a) + joined(b),
        joined(a.push(c)) == joined(a) + bytes_contents(c),
    decreases a.len(),
{
    assert(seq![c].skip(1) =~= Seq::<Bytes>::empty());
    assert(bytes_contents(c) + Seq::<u8>::empty() =~= bytes_contents(c));
    if a.len() == 0 {
        assert(a + b =~= b);
        assert(a.push(c) =~= seq![c]);
        assert(Seq::<u8>::empty() + joined(b) =~= joined(b));
        assert(Seq::<u8>::empty() + bytes_contents(c) =~= bytes_contents(c));
    } else {
        chunks_join_in_order(a.skip(1), c, b);
        assert((a + b).skip(1) =~= a.skip(1) + b);
        assert(a.push(c).skip(1) =~= a.skip(1).push(c));
        assert(joined(a + b) =~= joined(a) + joined(b));
        assert(joined(a.push(c)) =~= joined(a) + bytes_contents(c));
    }
}

/// A source without errors hands out all of its chunks, in their order, and nothing else.
pub proof fn sound_sources_hand_out_all(source: Seq<Result<Bytes, Error>>)
    requires
        forall|i: int| 0 <= i < source.len() ==> (#[trigger] source[i]) is Ok,
    ensures
        flow(source) == source.flat_map(|r: Result<Bytes, Error>| bytes_contents(r->Ok_0)),
        fault(source) is None,
        later(source) == Seq::<Result<Bytes, Error>>::empty(),
    decreases source.len(),
{
    let f = |r: Result<Bytes, Error>| bytes_contents(r->Ok_0);
    lemma_flat_map(source, f);
    if source.len() > 0 {
        sound_sources_hand_out_all(source.skip(1));
    }
}

/// What comes behind chunks comes behind their bytes.
pub proof fn sources_go_on(a: Seq<Result<Bytes, Error>>, b: Seq<Result<Bytes, Error>>)
    requires
        forall|i: int| 0 <= i < a.len() ==> (#[trigger] a[i]) is Ok,
    ensures
        flow(a + b) == flow(a) + flow(b),
        fault(a + b) == fault(b),
        later(a + b) == later(b),
    decreases a.len(),
{
    if a.len() == 0 {
        assert(a + b =~= b);
        assert(flow(a) + flow(b) =~= flow(b));
    } else {
        sources_go_on(a.skip(1), b);
        assert((a + b).skip(1) =~= a.skip(1) + b);
        assert(flow(a + b) =~= flow(a) + flow(b));
    }
}

/// The first error of a source counts, wherever it is and whatever follows it: the bytes in front
/// of it are all that the stream hands out, and what follows it comes later.
pub proof fn first_error_counts(
    a: Seq<Result<Bytes, Error>>,
    e: Error,
    b: Seq<Result<Bytes, Error>>,
)
    requires
        forall|i: int| 0 <= i < a.len() ==> (#[trigger] a[i]) is Ok,
    ensures
        flow(a.push(Err(e)) + b) == flow(a),
        fault(a.push(Err(e)) + b) == Some(e@),
        later(a.push(Err(e)) + b) == b,
{
    let tail = seq![Err::<Bytes, Error>(e)] + b;
    sources_go_on(a, tail);
    assert(a.push(Err(e)) + b =~= a + tail);
    assert(tail.skip(1) =~= b);
    assert(flow(a) + Seq::<u8>::empty() =~= flow(a));
}

/// A value is decoded from its bytes, into however many chunks they are cut.
pub proof fn every_cut_is_decoded(m: Model, chunks: Seq<Bytes>, max_depth: nat)
    requires
        describes_itself(m),
        nesting(m) <= max_depth,
        chunks.flat_map(|c: Bytes| bytes_contents(c)) == encoding(m),
    ensures
        decoded(joined(chunks), None, max_depth) == Ok::<Model, Seq<char>>(m),
{
    streams_are_their_chunks(chunks);
    decoding_undoes_encoding(m, max_depth);
}

/// A source that breaks off inside a value, or right behind it, fails with its own error, whatever
/// it hands out later.
pub proof fn errors_of_the_source_are_handed_back(
    a: Seq<Result<Bytes, Error>>,
    e: Error,
    b: Seq<Result<Bytes, Error>>,
    m: Model,
    max_depth: nat,
)
    requires
        forall|i: int| 0 <= i < a.len() ==> (#[trigger] a[i]) is Ok,
        describes_itself(m),
        nesting(m) <= max_depth,
        flow(a).is_prefix_of(encoding(m)),
    ensures
        ({
            let source = a.push(Err(e)) + b;
            &&& decoded(flow(source), fault(source), max_depth) == Err::<Model, Seq<char>>(e@)
            &&& ignored(flow(source), fault(source), max_depth) == Err::<(), Seq<char>>(e@)
        }),
{
    first_error_counts(a, e, b);
    let p = flow(a);
    let whole = encoding(m);
    round_trip(m, Seq::empty(), max_depth, max_depth);
    assert(whole + Seq::<u8>::empty() =~= whole);
    skipping_is_exact(m, Seq::empty(), max_depth, max_depth);
    assert(p =~= whole.take(p.len() as int));
    if p.len() < whole.len() {
        truncation_is_noticed(whole, max_depth, max_depth, whole.len(), p.len());
        skip_value_extend(p, whole.skip(p.len() as int), max_depth, max_depth);
        assert(p + whole.skip(p.len() as int) =~= whole);
        lemma_skip_value(p, max_depth, max_depth);
    } else {
        assert(p =~= whole);
    }
}

/// A string stands for its characters.
pub proof fn strings_stand_for_their_characters(a: String, b: String)
    ensures
        Value::Text(a)@ == Model::Text(a@),
        Value::Text(a)@ == Value::Text(b)@ ==> a@ == b@,
{
}

/// A list stands for its elements, each of them, in their order.
pub proof fn lists_stand_for_their_elements(vs: Vec<Value>, ws: Vec<Value>)
    ensures
        Value::List(vs)@ == Model::List(vs@.map_values(|v: Value| v@)),
        Value::List(vs)@ == Value::List(ws)@ ==> vs@.len() == ws@.len() && forall|i: int|
            0 <= i < vs@.len() ==> (#[trigger] vs@[i])@ == ws@[i]@,
{
    lemma_models(vs@);
    lemma_models(ws@);
    assert(models(vs@) =~= vs@.map_values(|v: Value| v@));
    if Value::List(vs)@ == Value::List(ws)@ {
        assert(models(vs@) == models(ws@));
        assert forall|i: int| 0 <= i < vs@.len() implies (#[trigger] vs@[i])@ == ws@[i]@ by {
            assert(models(vs@)[i] == vs@[i]@);
            assert(models(ws@)[i] == ws@[i]@);
        }
    }
}

/// A map stands for its keys and values, each of them, in their order.
pub proof fn maps_stand_for_their_entries(es: Vec<(Value, Value)>, fs: Vec<(Value, Value)>)
    ensures
        Value::Dict(es)@ == Model::Dict(es@.map_values(|e: (Value, Value)| (e.0@, e.1@))),
        Value::Dict(es)@ == Value::Dict(fs)@ ==> es@.len() == fs@.len() && forall|i: int|
            0 <= i < es@.len() ==> (#[trigger] es@[i]).0@ == fs@[i].0@ && es@[i].1@ == fs@[i].1@,
{
    lemma_entries(es@);
    lemma_entries(fs@);
    assert(entries(es@) =~= es@.map_values(|e: (Value, Value)| (e.0@, e.1@)));
    if Value::Dict(es)@ == Value::Dict(fs)@ {
        assert(entries(es@) == entries(fs@));
        assert forall|i: int| 0 <= i < es@.len() implies (#[trigger] es@[i]).0@ == fs@[i].0@
            && es@[i].1@ == fs@[i].1@ by {
            assert(entries(es@)[i] == (es@[i].0@, es@[i].1@));
            assert(entries(fs@)[i] == (fs@[i].0@, fs@[i].1@));
        }
    }
}

/// A value that takes up a fixed number of bytes stands for itself.
pub proof fn numbers_stand_for_themselves(
    b: bool,
    i: i8,
    j: i16,
    k: i32,
    l: i64,
    t: u8,
    u: u16,
    v: u32,
    w: u64,
    f: F32,
    g: F64,
)
    ensures
        Value::Unit@ == Model::Unit,
        Value::Bool(b)@ == Model::Bool(b),
        Value::I8(i)@ == Model::I8(i),
        Value::I16(j)@ == Model::I16(j),
        Value::I32(k)@ == Model::I32(k),
        Value::I64(l)@ == Model::I64(l),
        Value::U8(t)@ == Model::U8(t),
        Value::U16(u)@ == Model::U16(u),
        Value::U32(v)@ == Model::U32(v),
        Value::U64(w)@ == Model::U64(w),
        Value::F32(f)@ == Model::F32(f),
        Value::F64(g)@ == Model::F64(g),
{
}

/// An array stands for its items, each of them, in their order.
pub proof fn arrays_stand_for_their_items(
    b: Vec<bool>,
    i: Vec<i8>,
    j: Vec<i16>,
    k: Vec<i32>,
    l: Vec<i64>,
    t: Vec<u8>,
    u: Vec<u16>,
    v: Vec<u32>,
    w: Vec<u64>,
    f: Vec<F32>,
    g: Vec<F64>,
)
    ensures
        Value::ArrayBool(b)@ == Model::ArrayBool(b@),
        Value::ArrayI8(i)@ == Model::ArrayI8(i@),
        Value::ArrayI16(j)@ == Model::ArrayI16(j@),
        Value::ArrayI32(k)@ == Model::ArrayI32(k@),
        Value::ArrayI64(l)@ == Model::ArrayI64(l@),
        Value::ArrayU8(t)@ == Model::ArrayU8(t@),
        Value::ArrayU16(u)@ == Model::ArrayU16(u@),
        Value::ArrayU32(v)@ == Model::ArrayU32(v@),
        Value::ArrayU64(w)@ == Model::ArrayU64(w@),
        Value::ArrayF32(f)@ == Model::ArrayF32(f@),
        Value::ArrayF64(g)@ == Model::ArrayF64(g@),
{
}

/// What is decoded from the bytes of a value holds what the value holds.
pub proof fn decoded_values_hold_the_same(v: Value, w: Value, max_depth: nat)
    requires
        describes_itself(v@),
        nesting(v@) <= max_depth,
        decoded(encoding(v@), None, max_depth) == Ok::<Model, Seq<char>>(w@),
    ensures
        w@ == v@,
        match v {
            Value::Text(a) => w matches Value::Text(b) && b@ == a@,
            Value::ArrayBool(a) => w matches Value::ArrayBool(b) && b@ == a@,
            Value::ArrayI16(a) => w matches Value::ArrayI16(b) && b@ == a@,
            Value::ArrayI32(a) => w matches Value::ArrayI32(b) && b@ == a@,
            Value::ArrayI64(a) => w matches Value::ArrayI64(b) && b@ == a@,
            Value::ArrayU8(a) => w matches Value::ArrayU8(b) && b@ == a@,
            Value::ArrayU16(a) => w matches Value::ArrayU16(b) && b@ == a@,
            Value::ArrayU32(a) => w matches Value::ArrayU32(b) && b@ == a@,
            Value::ArrayU64(a) => w matches Value::ArrayU64(b) && b@ == a@,
            Value::ArrayF32(a) => w matches Value::ArrayF32(b) && b@ == a@,
            Value::ArrayF64(a) => w matches Value::ArrayF64(b) && b@ == a@,
            Value::ArrayI8(_) => false,
            Value::List(a) => w matches Value::List(b) && b@.len() == a@.len() && forall|i: int|
                0 <= i < a@.len() ==> (#[trigger] b@[i])@ == a@[i]@,
            Value::Dict(a) => w matches Value::Dict(b) && b@.len() == a@.len() && forall|i: int|
                0 <= i < a@.len() ==> (#[trigger] b@[i]).0@ == a@[i].0@ && b@[i].1@ == a@[i].1@,
            _ => w == v,
        },
{
    decoding_undoes_encoding(v@, max_depth);
    if let Value::List(a) = v {
        if let Value::List(b) = w {
            lists_stand_for_their_elements(b, a);
        }
    }
    if let Value::Dict(a) = v {
        if let Value::Dict(b) = w {
            maps_stand_for_their_entries(b, a);
        }
    }
}

/// A list or map is nested one deeper than the deepest value in it, everything else not at all.
pub proof fn nesting_is_counted(m: Model)
    ensures
        match m {
            Model::List(ms) => {
                &&& nesting(m) >= 1
                &&& forall|i: int| 0 <= i < ms.len() ==> nesting(#[trigger] ms[i]) < nesting(m)
                &&& nesting(m) == 1 || exists|i: int|
                    0 <= i < ms.len() && nesting(#[trigger] ms[i]) + 1 == nesting(m)
            },
            Model::Dict(es) => {
                &&& nesting(m) >= 1
                &&& forall|i: int|
                    0 <= i < es.len() ==> nesting((#[trigger] es[i]).0) < nesting(m) && nesting(
                        es[i].1,
                    ) < nesting(m)
                &&& nesting(m) == 1 || exists|i: int|
                    0 <= i < es.len() && (nesting((#[trigger] es[i]).0) + 1 == nesting(m)
                        || nesting(es[i].1) + 1 == nesting(m))
            },
            _ => nesting(m) == 0,
        },
{
    match m {
        Model::List(ms) => {
            lemma_list_nesting(ms);
        },
        Model::Dict(es) => {
            lemma_map_nesting(es);
        },
        _ => {},
    }
}

proof fn lemma_list_nesting(ms: Seq<Model>)
    ensures
        forall|i: int| 0 <= i < ms.len() ==> nesting(#[trigger] ms[i]) <= list_nesting(ms),
        list_nesting(ms) == 0 || exists|i: int|
            0 <= i < ms.len() && nesting(#[trigger] ms[i]) == list_nesting(ms),
    decreases ms.len(),
{
    if ms.len() > 0 {
        let rest = ms.skip(1);
        lemma_list_nesting(rest);
        assert forall|i: int| 0 <= i < ms.len() implies nesting(#[trigger] ms[i])
            <= list_nesting(ms) by {
            if i > 0 {
                assert(rest[i - 1] == ms[i]);
            }
        }
        if list_nesting(ms) > 0 {
            if nesting(ms[0]) < list_nesting(rest) {
                let i = choose|i: int|
                    0 <= i < rest.len() && nesting(#[trigger] rest[i]) == list_nesting(rest);
                assert(ms[i + 1] == rest[i]);
            } else {
                assert(nesting(ms[0]) == list_nesting(ms));
            }
        }
    }
}

proof fn lemma_map_nesting(es: Seq<(Model, Model)>)
    ensures
        forall|i: int|
            0 <= i < es.len() ==> nesting((#[trigger] es[i]).0) <= map_nesting(es) && nesting(
                es[i].1,
            ) <= map_nesting(es),
        map_nesting(es) == 0 || exists|i: int|
            0 <= i < es.len() && (nesting((#[trigger] es[i]).0) == map_nesting(es) || nesting(
                es[i].1,
            ) == map_nesting(es)),
    decreases es.len(),
{
    if es.len() > 0 {
        let rest = es.skip(1);
        lemma_map_nesting(rest);
        assert forall|i: int| 0 <= i < es.len() implies nesting((#[trigger] es[i]).0)
            <= map_nesting(es) && nesting(es[i].1) <= map_nesting(es) by {
            if i > 0 {
                assert(rest[i - 1] == es[i]);
            }
        }
        if map_nesting(es) > 0 {
            if larger(nesting(es[0].0), nesting(es[0].1)) < map_nesting(rest) {
                let i = choose|i: int|
                    0 <= i < rest.len() && (nesting((#[trigger] rest[i]).0) == map_nesting(rest)
                        || nesting(rest[i].1) == map_nesting(rest));
                assert(es[i + 1] == rest[i]);
            } else {
                assert(nesting(es[0].0) == map_nesting(es) || nesting(es[0].1) == map_nesting(es));
            }
        }
    }
}

/// All there is in a value can be told from its bytes, but for arrays of 8-bit signed integers.
pub proof fn only_one_array_does_not_describe_itself(m: Model)
    ensures
        describes_itself(m) == match m {
            Model::ArrayI8(_) => false,
            Model::List(ms) => forall|i: int|
                0 <= i < ms.len() ==> describes_itself(#[trigger] ms[i]),
            Model::Dict(es) => forall|i: int|
                0 <= i < es.len() ==> describes_itself((#[trigger] es[i]).0) && describes_itself(
                    es[i].1,
                ),
            _ => true,
        },
{
    match m {
        Model::List(ms) => {
            lemma_list_describes_itself(ms);
        },
        Model::Dict(es) => {
            lemma_map_describes_itself(es);
        },
        _ => {},
    }
}

proof fn lemma_list_describes_itself(ms: Seq<Model>)
    ensures
        list_describes_itself(ms) == forall|i: int|
            0 <= i < ms.len() ==> describes_itself(#[trigger] ms[i]),
    decreases ms.len(),
{
    if ms.len() > 0 {
        let rest = ms.skip(1);
        lemma_list_describes_itself(rest);
        if list_describes_itself(ms) {
            assert forall|i: int| 0 <= i < ms.len() implies describes_itself(#[trigger] ms[i]) by {
                if i > 0 {
                    assert(rest[i - 1] == ms[i]);
                }
            }
        } else if describes_itself(ms[0]) {
            let i = choose|i: int| 0 <= i < rest.len() && !describes_itself(#[trigger] rest[i]);
            assert(ms[i + 1] == rest[i]);
        }
    }
}

proof fn lemma_map_describes_itself(es: Seq<(Model, Model)>)
    ensures
        map_describes_itself(es) == forall|i: int|
            0 <= i < es.len() ==> describes_itself((#[trigger] es[i]).0) && describes_itself(
                es[i].1,
            ),
    decreases es.len(),
{
    if es.len() > 0 {
        let rest = es.skip(1);
        lemma_map_describes_itself(rest);
        if map_describes_itself(es) {
            assert forall|i: int| 0 <= i < es.len() implies describes_itself((#[trigger] es[i]).0)
                && describes_itself(es[i].1) by {
                if i > 0 {
                    assert(rest[i - 1] == es[i]);
                }
            }
        } else if describes_itself(es[0].0) && describes_itself(es[0].1) {
            let i = choose|i: int|
                0 <= i < rest.len() && !(describes_itself((#[trigger] rest[i]).0)
                    && describes_itself(rest[i].1));
            assert(es[i + 1] == rest[i]);
        }
    }
}

/// The bytes of a 8-bit signed integer, in two's complement: the most significant one comes first.
pub proof fn i8_bytes(v: i8, bytes: Seq<u8>)
    ensures
        i8::kind() == Type::I8,
        v.to_bytes().len() == 1,
        ({
            let s = v.to_bytes();
            s[0]
        }) == if v >= 0 {
            v as int
        } else {
            v + 0x100
        },
        i8::from_bytes(bytes) is Some <==> bytes.len() == 1,
        i8::from_bytes(bytes) == Some(v) <==> bytes == v.to_bytes(),
{
    v.round_trip();
    lemma_horner(v.to_bytes());
    be_value_bytes(bytes);
    lemma_horner(bytes);
    let n = be_value(v.to_bytes());
    be_value_bytes(v.to_bytes());
}

/// The bytes of a 16-bit signed integer, in two's complement: the most significant one comes first.
pub proof fn i16_bytes(v: i16, bytes: Seq<u8>)
    ensures
        i16::kind() == Type::I16,
        v.to_bytes().len() == 2,
        ({
            let s = v.to_bytes();
            256 * s[0] + s[1]
        }) == if v >= 0 {
            v as int
        } else {
            v + 0x10000
        },
        i16::from_bytes(bytes) is Some <==> bytes.len() == 2,
        i16::from_bytes(bytes) == Some(v) <==> bytes == v.to_bytes(),
{
    v.round_trip();
    lemma_horner(v.to_bytes());
    be_value_bytes(bytes);
    lemma_horner(bytes);
    let n = be_value(v.to_bytes());
    be_value_bytes(v.to_bytes());
}

/// The bytes of a 32-bit signed integer, in two's complement: the most significant one comes first.
pub proof fn i32_bytes(v: i32, bytes: Seq<u8>)
    ensures
        i32::kind() == Type::I32,
        v.to_bytes().len() == 4,
        ({
            let s = v.to_bytes();
            256 * (256 * (256 * s[0] + s[1]) + s[2]) + s[3]
        }) == if v >= 0 {
            v as int
        } else {
            v + 0x100000000
        },
        i32::from_bytes(bytes) is Some <==> bytes.len() == 4,
        i32::from_bytes(bytes) == Some(v) <==> bytes == v.to_bytes(),
{
    v.round_trip();
    lemma_horner(v.to_bytes());
    be_value_bytes(bytes);
    lemma_horner(bytes);
    let n = be_value(v.to_bytes());
    be_value_bytes(v.to_bytes());
}

/// The bytes of a 64-bit signed integer, in two's complement: the most significant one comes first.
pub proof fn i64_bytes(v: i64, bytes: Seq<u8>)
    ensures
        i64::kind() == Type::I64,
        v.to_bytes().len() == 8,
        ({
            let s = v.to_bytes();
            256 * (256 * (256 * (256 * (256 * (256 * (256 * s[0] + s[1]) + s[2]) + s[3]) + s[4])
                + s[5]) + s[6]) + s[7]
        }) == if v >= 0 {
            v as int
        } else {
            v + 0x10000000000000000
        },
        i64::from_bytes(bytes) is Some <==> bytes.len() == 8,
        i64::from_bytes(bytes) == Some(v) <==> bytes == v.to_bytes(),
{
    v.round_trip();
    lemma_horner(v.to_bytes());
    be_value_bytes(bytes);
    lemma_horner(bytes);
    let n = be_value(v.to_bytes());
    be_value_bytes(v.to_bytes());
}

/// The bytes of a 8-bit unsigned integer: the most significant one comes first.
pub proof fn u8_bytes(v: u8, bytes: Seq<u8>)
    ensures
        u8::kind() == Type::U8,
        v.to_bytes().len() == 1,
        ({
            let s = v.to_bytes();
            s[0]
        }) == v,
        u8::from_bytes(bytes) is Some <==> bytes.len() == 1,
        u8::from_bytes(bytes) == Some(v) <==> bytes == v.to_bytes(),
{
    v.round_trip();
    lemma_horner(v.to_bytes());
    be_value_bytes(bytes);
    lemma_horner(bytes);
    let n = be_value(v.to_bytes());
    be_value_bytes(v.to_bytes());
}

/// The bytes of a 16-bit unsigned integer: the most significant one comes first.
pub proof fn u16_bytes(v: u16, bytes: Seq<u8>)
    ensures
        u16::kind() == Type::U16,
        v.to_bytes().len() == 2,
        ({
            let s = v.to_bytes();
            256 * s[0] + s[1]
        }) == v,
        u16::from_bytes(bytes) is Some <==> bytes.len() == 2,
        u16::from_bytes(bytes) == Some(v) <==> bytes == v.to_bytes(),
{
    v.round_trip();
    lemma_horner(v.to_bytes());
    be_value_bytes(bytes);
    lemma_horner(bytes);
    let n = be_value(v.to_bytes());
    be_value_bytes(v.to_bytes());
}

/// The bytes of a 32-bit unsigned integer: the most significant one comes first.
pub proof fn u32_bytes(v: u32, bytes: Seq<u8>)
    ensures
        u32::kind() == Type::U32,
        v.to_bytes().len() == 4,
        ({
            let s = v.to_bytes();
            256 * (256 * (256 * s[0] + s[1]) + s[2]) + s[3]
        }) == v,
        u32::from_bytes(bytes) is Some <==> bytes.len() == 4,
        u32::from_bytes(bytes) == Some(v) <==> bytes == v.to_bytes(),
{
    v.round_trip();
    lemma_horner(v.to_bytes());
    be_value_bytes(bytes);
    lemma_horner(bytes);
    let n = be_value(v.to_bytes());
    be_value_bytes(v.to_bytes());
}

/// The bytes of a 64-bit unsigned integer: the most significant one comes first.
pub proof fn u64_bytes(v: u64, bytes: Seq<u8>)
    ensures
        u64::kind() == Type::U64,
        v.to_bytes().len() == 8,
        ({
            let s = v.to_bytes();
            256 * (256 * (256 * (256 * (256 * (256 * (256 * s[0] + s[1]) + s[2]) + s[3]) + s[4])
                + s[5]) + s[6]) + s[7]
        }) == v,
        u64::from_bytes(bytes) is Some <==> bytes.len() == 8,
        u64::from_bytes(bytes) == Some(v) <==> bytes == v.to_bytes(),
{
    v.round_trip();
    lemma_horner(v.to_bytes());
    be_value_bytes(bytes);
    lemma_horner(bytes);
    let n = be_value(v.to_bytes());
    be_value_bytes(v.to_bytes());
}

/// The bytes of a 32-bit floating-point number: the most significant one comes first.
pub proof fn f32_bytes(v: F32, bytes: Seq<u8>)
    ensures
        F32::kind() == Type::F32,
        v.to_bytes().len() == 4,
        ({
            let s = v.to_bytes();
            256 * (256 * (256 * s[0] + s[1]) + s[2]) + s[3]
        }) == v.0,
        F32::from_bytes(bytes) is Some <==> bytes.len() == 4,
        F32::from_bytes(bytes) == Some(v) <==> bytes == v.to_bytes(),
{
    v.round_trip();
    lemma_horner(v.to_bytes());
    be_value_bytes(bytes);
    lemma_horner(bytes);
    let n = be_value(v.to_bytes());
    be_value_bytes(v.to_bytes());
}

/// The bytes of a 64-bit floating-point number: the most significant one comes first.
pub proof fn f64_bytes(v: F64, bytes: Seq<u8>)
    ensures
        F64::kind() == Type::F64,
        v.to_bytes().len() == 8,
        ({
            let s = v.to_bytes();
            256 * (256 * (256 * (256 * (256 * (256 * (256 * s[0] + s[1]) + s[2]) + s[3]) + s[4])
                + s[5]) + s[6]) + s[7]
        }) == v.0,
        F64::from_bytes(bytes) is Some <==> bytes.len() == 8,
        F64::from_bytes(bytes) == Some(v) <==> bytes == v.to_bytes(),
{
    v.round_trip();
    lemma_horner(v.to_bytes());
    be_value_bytes(bytes);
    lemma_horner(bytes);
    let n = be_value(v.to_bytes());
    be_value_bytes(v.to_bytes());
}

/// The byte of a truth value.
pub proof fn bool_bytes(v: bool, bytes: Seq<u8>)
    ensures
        <bool as Element>::kind() == Type::Bool,
        v.to_bytes() == seq![if v { 1u8 } else { 0u8 }],
        <bool as Element>::from_bytes(bytes) == Some(v) <==> bytes == v.to_bytes(),
        <bool as Element>::from_bytes(bytes) is Some <==> bytes == seq![0u8] || bytes == seq![1u8],
{
    if bytes.len() == 1 {
        assert(bytes =~= seq![bytes[0]]);
    }
    assert(v.to_bytes()[0] == if v { 1u8 } else { 0u8 });
}

proof fn lemma_horner(s: Seq<u8>)
    ensures
        s.len() == 1 ==> be_value(s) == s[0],
        s.len() == 2 ==> be_value(s) == 256 * s[0] + s[1],
        s.len() == 4 ==> be_value(s) == 256 * (256 * (256 * s[0] + s[1]) + s[2]) + s[3],
        s.len() == 8 ==> be_value(s) == 256 * (256 * (256 * (256 * (256 * (256 * (256 * s[0] + s[1])
            + s[2]) + s[3]) + s[4]) + s[5]) + s[6]) + s[7],
{
    reveal_with_fuel(be_value, 9);
}

/// One call for the next piece of an array, of which the first `c` bytes of text have been read.
proof fn lemma_turn<T: Element>(turn: Turn<T>, all: Seq<u8>, c: int, vals: Seq<T>) -> (d: int)
    requires
        buffered(turn),
        !(turn.r matches Step::Done(Err(_))),
        0 <= c <= all.len(),
        text_open(all.take(c), ARRAY_DELIMIT),
        !dangling(all.take(c)),
        elements::<T>(unescape(all.take(c))) == Ok::<Seq<T>, Seq<char>>(
            vals + turn.was_ready.unwrap_or(Seq::empty()),
        ),
        turn.was_done ==> closes_at(all, ARRAY_DELIMIT, c) && turn.was_ready is None
            && turn.before.pending == all.skip(c + 1),
        !turn.was_done ==> turn.before.pending == all.skip(c),
    ensures
        c <= d <= all.len(),
        text_open(all.take(d), ARRAY_DELIMIT),
        !dangling(all.take(d)),
        turn.done ==> closes_at(all, ARRAY_DELIMIT, d) && turn.ready is None && turn.after.pending
            == all.skip(d + 1),
        !turn.done ==> turn.after.pending == all.skip(d),
        turn.r is Done ==> turn.ready is None,
        match turn.r {
            Step::Done(Ok(vs)) => elements::<T>(unescape(all.take(d))) == Ok::<Seq<T>, Seq<char>>(
                vals + vs@,
            ),
            _ => elements::<T>(unescape(all.take(d))) == Ok::<Seq<T>, Seq<char>>(
                vals + turn.ready.unwrap_or(Seq::empty()),
            ),
        },
{
    reveal(buffered);
    let p = turn.before.pending;
    let width = T::kind().width();
    let quota = turn.max * width;
    lemma_piece_len(p, quota);
    let i = if turn.was_done || turn.was_ready is Some || piece_len(p, quota) is None {
        0
    } else {
        piece_len(p, quota)->0
    };
    let d = c + i;
    assert(p.skip(0) =~= p);
    if turn.was_done {
        if let Step::Done(Ok(vs)) = turn.r {
            assert(vs@ =~= Seq::<T>::empty());
        }
    } else {
        if turn.was_ready is None && piece_len(p, quota) is Some {
            let a = all.take(c);
            let b = p.take(i);
            assert(all.take(d) =~= a + b);
            lemma_text_concat(a, b, ARRAY_DELIMIT);
            T::width_bounds();
            elements_len::<T>(unescape(a));
            assert(vals + Seq::<T>::empty() =~= vals);
            assert(unescape(a).len() % width == 0) by {
                vstd::arithmetic::div_mod::lemma_mod_multiples_basic(
                    vals.len() as int,
                    width as int,
                );
            }
            elements_concat::<T>(unescape(a), unescape(b));
        }
        assert(p.skip(i) =~= all.skip(d));
        if d < all.len() {
            assert(all.skip(d).skip(1) =~= all.skip(d + 1));
            assert(all.skip(d)[0] == all[d]);
        }
    }
    d
}

/// The values that calls for the pieces of an array return, one behind the other, are those that
/// the text which has been consumed stands for, whatever the sizes of the pieces are and however
/// the bytes arrive. Where the array has been read to its end, that is all of its text.
pub proof fn pieces_are_the_array<T: Element>(
    turns: Seq<Turn<T>>,
    arrived: Seq<Seq<u8>>,
) -> (d: int)
    requires
        turns.len() > 0,
        arrived.len() == turns.len(),
        forall|i: int| 0 <= i < turns.len() ==> buffered(#[trigger] turns[i]),
        forall|i: int|
            0 <= i < turns.len() ==> !((#[trigger] turns[i]).r matches Step::Done(Err(_))),
        !turns[0].was_done,
        turns[0].was_ready is None,
        forall|i: int|
            0 < i < turns.len() ==> {
                let last = turns[i - 1];
                &&& (#[trigger] turns[i]).was_done == last.done
                &&& turns[i].before.pending == last.after.pending + arrived[i - 1]
                &&& turns[i].was_ready == if last.r is Read {
                    last.ready
                } else {
                    None
                }
            },
    ensures
        ({
            let all = turns[0].before.pending + arrived.flatten();
            let last = turns.last();
            let given = turns.flat_map(
                |t: Turn<T>| match t.r {
                    Step::Done(Ok(vs)) => vs@,
                    _ => Seq::empty(),
                },
            );
            &&& 0 <= d <= all.len()
            &&& last.after.pending + arrived.last() == all.skip(
                if last.done {
                    d + 1
                } else {
                    d
                },
            )
            &&& elements::<T>(unescape(all.take(d))) == Ok::<Seq<T>, Seq<char>>(
                given + last.ready.unwrap_or(Seq::empty()),
            )
            &&& last.done ==> text_end(all, ARRAY_DELIMIT) == Some(d) && elements::<T>(
                unescape(all.take(d)),
            ) == Ok::<Seq<T>, Seq<char>>(given)
            &&& text_open(all.take(d), ARRAY_DELIMIT)
            &&& !dangling(all.take(d))
            &&& last.done ==> closes_at(all, ARRAY_DELIMIT, d) && last.ready is None
            &&& last.r is Done ==> last.ready is None
        }),
    decreases turns.len(),
{
    let f = |t: Turn<T>|
        match t.r {
            Step::Done(Ok(vs)) => vs@,
            _ => Seq::empty(),
        };
    let base = turns[0].before.pending;
    let n = turns.len() - 1;
    let last = turns[n];
    let new = arrived.last();
    let fewer = turns.drop_last();
    let before = base + arrived.drop_last().flatten();
    let all = base + arrived.flatten();
    assert(arrived.drop_last().push(new) =~= arrived);
    arrived.drop_last().lemma_flatten_push(new);
    assert(all =~= before + new);
    assert(fewer.map_values(f).push(f(last)) =~= turns.map_values(f));
    fewer.map_values(f).lemma_flatten_push(f(last));
    let vals = fewer.flat_map(f);
    let c = if n == 0 {
        assert(before =~= base);
        assert(before.take(0) =~= Seq::<u8>::empty());
        assert(before.skip(0) =~= before);
        assert(vals =~= Seq::<T>::empty());
        0
    } else {
        let c = pieces_are_the_array(fewer, arrived.drop_last());
        assert(fewer.last() == turns[n - 1]);
        assert(arrived.drop_last().last() == arrived[n - 1]);
        c
    };
    assert(vals + Seq::<T>::empty() =~= vals);
    let d = lemma_turn(last, before, c, vals);
    assert(all.take(d) =~= before.take(d));
    assert(turns.flat_map(f) == vals + f(last));
    assert(f(last) + Seq::<T>::empty() =~= f(last));
    assert((vals + f(last)) + Seq::<T>::empty() =~= vals + f(last));
    if last.done {
        lemma_closes_extend(before, new, ARRAY_DELIMIT, d);
        lemma_text_end(all, ARRAY_DELIMIT);
        assert(before.skip(d + 1) + new =~= all.skip(d + 1));
    } else {
        assert(before.skip(d) + new =~= all.skip(d));
    }
    d
}

/// Each type has a type bit of its own, and a fixed number of bytes behind it.
pub proof fn types_have_type_bits(t: Type, code: u8)
    ensures
        Type::from_code(code) == Some(t) <==> code == t.code(),
        Type::from_code(code) is None <==> code > 11,
        t == Type::Unit <==> t.code() == 0,
        t == Type::Bool <==> t.code() == 1,
        t == Type::F32 <==> t.code() == 2,
        t == Type::F64 <==> t.code() == 3,
        t == Type::I8 <==> t.code() == 4,
        t == Type::I16 <==> t.code() == 5,
        t == Type::I32 <==> t.code() == 6,
        t == Type::I64 <==> t.code() == 7,
        t == Type::U8 <==> t.code() == 8,
        t == Type::U16 <==> t.code() == 9,
        t == Type::U32 <==> t.code() == 10,
        t == Type::U64 <==> t.code() == 11,
        t.width() == match t {
            Type::Unit => 0nat,
            Type::Bool | Type::I8 | Type::U8 => 1,
            Type::I16 | Type::U16 => 2,
            Type::I32 | Type::U32 | Type::F32 => 4,
            Type::I64 | Type::U64 | Type::F64 => 8,
        },
{
}

/// Text is made of bytes that are neither the delimiter nor an escape byte, and of escape bytes
/// each with the byte behind it. It stands for the last bytes of these, and ends at the first
/// delimiter behind them.
pub proof fn text_is_made_of_tokens(ts: Seq<Seq<u8>>, end: u8, tail: Seq<u8>)
    requires
        end != 92,
        forall|i: int|
            0 <= i < ts.len() ==> {
                ||| (#[trigger] ts[i]).len() == 1 && ts[i][0] != end && ts[i][0] != 92
                ||| ts[i].len() == 2 && ts[i][0] == 92
            },
    ensures
        unescape(ts.flatten()) == ts.map_values(|t: Seq<u8>| t.last()),
        tail.len() > 0 && tail[0] == end ==> text_end(ts.flatten() + tail, end) == Some(
            ts.flatten().len() as int,
        ),
        tail.len() == 0 || tail == seq![92u8] ==> text_end(ts.flatten() + tail, end) is None,
{
    let s = ts.flatten();
    lemma_tokens(ts, end);
    lemma_text_end(s + tail, end);
    assert((s + tail).take(s.len() as int) =~= s);
    if tail.len() > 0 && tail[0] == end {
        assert(closes_at(s + tail, end, s.len() as int));
    } else if tail.len() == 0 {
        assert(s + tail =~= s);
    } else if tail == seq![92u8] {
        lemma_text_push(s, 92, end);
        assert(s + tail =~= s.push(92));
    }
}

proof fn lemma_tokens(ts: Seq<Seq<u8>>, end: u8)
    requires
        end != 92,
        forall|i: int|
            0 <= i < ts.len() ==> {
                ||| (#[trigger] ts[i]).len() == 1 && ts[i][0] != end && ts[i][0] != 92
                ||| ts[i].len() == 2 && ts[i][0] == 92
            },
    ensures
        unescape(ts.flatten()) == ts.map_values(|t: Seq<u8>| t.last()),
        text_open(ts.flatten(), end),
        !dangling(ts.flatten()),
    decreases ts.len(),
{
    let f = |t: Seq<u8>| t.last();
    if ts.len() > 0 {
        let rest = ts.drop_last();
        let t = ts.last();
        lemma_tokens(rest, end);
        let s = rest.flatten();
        assert(rest.push(t) =~= ts);
        rest.lemma_flatten_push(t);
        if t.len() == 1 {
            assert(s + t =~= s.push(t[0]));
            lemma_text_push(s, t[0], end);
        } else {
            assert(s + t =~= s.push(t[0]).push(t[1]));
            lemma_text_push(s, t[0], end);
            lemma_text_push(s.push(t[0]), t[1], end);
        }
        assert(rest.map_values(f).push(t.last()) =~= ts.map_values(f));
    } else {
        assert(ts.map_values(f) =~= Seq::<u8>::empty());
    }
}

/// Data is escaped byte by byte: an escape byte is put in front of those that need one.
pub proof fn data_is_escaped_byte_by_byte(s: Seq<u8>, end: u8)
    ensures
        escape(s, end) == s.flat_map(
            |b: u8|
                if b == end || b == 92 {
                    seq![92u8, b]
                } else {
                    seq![b]
                },
        ),
    decreases s.len(),
{
    let f = |b: u8|
        if b == end || b == 92 {
            seq![92u8, b]
        } else {
            seq![b]
        };
    if s.len() > 0 {
        let rest = s.drop_last();
        data_is_escaped_byte_by_byte(rest, end);
        assert(rest.map_values(f).push(f(s.last())) =~= s.map_values(f));
        rest.map_values(f).lemma_flatten_push(f(s.last()));
        assert(escape(s, end) =~= rest.flat_map(f) + f(s.last()));
    }
}

/// The data of an array are the bytes of its items, one behind the other. Where something else
/// follows them the first bytes of it are wrong.
pub proof fn data_is_made_of_items<N: Element>(vs: Seq<N>, tail: Seq<u8>)
    ensures
        elements_bytes(vs) == vs.flat_map(|v: N| v.to_bytes()),
        elements::<N>(vs.flat_map(|v: N| v.to_bytes())) == Ok::<Seq<N>, Seq<char>>(vs),
        0 < tail.len() < N::kind().width() ==> elements::<N>(
            vs.flat_map(|v: N| v.to_bytes()) + tail,
        ) == Err::<Seq<N>, Seq<char>>(invalid_length_text(tail.len(), N::kind().label())),
        tail.len() >= N::kind().width() && N::from_bytes(
            tail.take(N::kind().width() as int),
        ) is None ==> elements::<N>(vs.flat_map(|v: N| v.to_bytes()) + tail) == Err::<
            Seq<N>,
            Seq<char>,
        >(invalid_value_text(decimal(tail[0] as nat), "a boolean"@)),
    decreases vs.len(),
{
    let f = |v: N| v.to_bytes();
    lemma_flat_map(vs, f);
    N::width_bounds();
    elements_round_trip(vs);
    let width = N::kind().width() as int;
    if vs.len() == 0 {
        assert(vs.flat_map(f) + tail =~= tail);
    } else {
        vs[0].round_trip();
        data_is_made_of_items(vs.skip(1), tail);
        let s = vs.flat_map(f) + tail;
        assert(s.take(width) =~= vs[0].to_bytes());
        assert(s.skip(width) =~= vs.skip(1).flat_map(f) + tail);
    }
}

/// A list is written as its elements between brackets.
pub proof fn lists_are_written_between_brackets(ms: Seq<Model>)
    ensures
        encoding(Model::List(ms)) == seq![91u8] + ms.flat_map(|m: Model| encoding(m)) + seq![93u8],
{
    lemma_list_written(ms);
    assert(encoding(Model::List(ms)) =~= seq![91u8] + ms.flat_map(|m: Model| encoding(m))
        + seq![93u8]);
}

proof fn lemma_list_written(ms: Seq<Model>)
    ensures
        list_encoding(ms) == ms.flat_map(|m: Model| encoding(m)) + seq![93u8],
    decreases ms.len(),
{
    let f = |m: Model| encoding(m);
    lemma_flat_map(ms, f);
    if ms.len() == 0 {
        assert(ms.flat_map(f) + seq![93u8] =~= seq![93u8]);
    } else {
        lemma_list_written(ms.skip(1));
        assert(list_encoding(ms) =~= ms.flat_map(f) + seq![93u8]);
    }
}

/// A map is written as its keys, each with its value, between braces.
pub proof fn maps_are_written_between_braces(es: Seq<(Model, Model)>)
    ensures
        encoding(Model::Dict(es)) == seq![123u8] + es.flat_map(
            |e: (Model, Model)| encoding(e.0) + encoding(e.1),
        ) + seq![125u8],
{
    lemma_map_written(es);
    assert(encoding(Model::Dict(es)) =~= seq![123u8] + es.flat_map(
        |e: (Model, Model)| encoding(e.0) + encoding(e.1),
    ) + seq![125u8]);
}

proof fn lemma_map_written(es: Seq<(Model, Model)>)
    ensures
        map_encoding(es) == es.flat_map(|e: (Model, Model)| encoding(e.0) + encoding(e.1))
            + seq![125u8],
    decreases es.len(),
{
    let f = |e: (Model, Model)| encoding(e.0) + encoding(e.1);
    lemma_flat_map(es, f);
    if es.len() == 0 {
        assert(es.flat_map(f) + seq![125u8] =~= seq![125u8]);
    } else {
        lemma_map_written(es.skip(1));
        assert(map_encoding(es) =~= es.flat_map(f) + seq![125u8]);
    }
}

/// A string is written as its UTF-8 bytes between quotes, with an escape byte in front of quotes
/// and escape bytes.
pub proof fn strings_are_written_between_quotes(text: Seq<char>)
    ensures
        encoding(Model::Text(text)) == seq![34u8] + encode_utf8(text).flat_map(
            |b: u8|
                if b == 34 || b == 92 {
                    seq![92u8, b]
                } else {
                    seq![b]
                },
        ) + seq![34u8],
{
    reveal(leaf_encoding);
    let f = |b: u8|
        if b == 34 || b == 92 {
            seq![92u8, b]
        } else {
            seq![b]
        };
    assert(escape(encode_utf8(text), 34) == encode_utf8(text).flat_map(f)) by {
        lemma_escaped(encode_utf8(text), 34, f);
    }
    assert(encoding(Model::Text(text)) =~= seq![34u8] + encode_utf8(text).flat_map(f)
        + seq![34u8]);
}

proof fn lemma_escaped(s: Seq<u8>, end: u8, f: spec_fn(u8) -> Seq<u8>)
    requires
        forall|b: u8|
            #![trigger f(b)]
            f(b) == if b == end || b == 92 {
                seq![92u8, b]
            } else {
                seq![b]
            },
    ensures
        escape(s, end) == s.flat_map(f),
    decreases s.len(),
{
    if s.len() > 0 {
        let rest = s.drop_last();
        lemma_escaped(rest, end, f);
        assert(rest.map_values(f).push(f(s.last())) =~= s.map_values(f));
        rest.map_values(f).lemma_flatten_push(f(s.last()));
        assert(escape(s, end) =~= rest.flat_map(f) + f(s.last()));
    }
}

/// An array is written as its type bit and the bytes of its items between `=`, with an escape byte
/// in front of `=` and escape bytes.
pub proof fn arrays_are_written_between_delimiters(
    b: Seq<bool>,
    i: Seq<i8>,
    j: Seq<i16>,
    k: Seq<i32>,
    l: Seq<i64>,
    t: Seq<u8>,
    u: Seq<u16>,
    v: Seq<u32>,
    w: Seq<u64>,
    f: Seq<F32>,
    g: Seq<F64>,
)
    ensures
        encoding(Model::ArrayBool(b)) == seq![61u8, 1u8] + escape(
            b.flat_map(|x: bool| x.to_bytes()),
            61,
        ) + seq![61u8],
        encoding(Model::ArrayI8(i)) == seq![61u8, 4u8] + escape(
            i.flat_map(|x: i8| x.to_bytes()),
            61,
        ) + seq![61u8],
        encoding(Model::ArrayI16(j)) == seq![61u8, 5u8] + escape(
            j.flat_map(|x: i16| x.to_bytes()),
            61,
        ) + seq![61u8],
        encoding(Model::ArrayI32(k)) == seq![61u8, 6u8] + escape(
            k.flat_map(|x: i32| x.to_bytes()),
            61,
        ) + seq![61u8],
        encoding(Model::ArrayI64(l)) == seq![61u8, 7u8] + escape(
            l.flat_map(|x: i64| x.to_bytes()),
            61,
        ) + seq![61u8],
        encoding(Model::ArrayU8(t)) == seq![61u8, 8u8] + escape(
            t.flat_map(|x: u8| x.to_bytes()),
            61,
        ) + seq![61u8],
        encoding(Model::ArrayU16(u)) == seq![61u8, 9u8] + escape(
            u.flat_map(|x: u16| x.to_bytes()),
            61,
        ) + seq![61u8],
        encoding(Model::ArrayU32(v)) == seq![61u8, 10u8] + escape(
            v.flat_map(|x: u32| x.to_bytes()),
            61,
        ) + seq![61u8],
        encoding(Model::ArrayU64(w)) == seq![61u8, 11u8] + escape(
            w.flat_map(|x: u64| x.to_bytes()),
            61,
        ) + seq![61u8],
        encoding(Model::ArrayF32(f)) == seq![61u8, 2u8] + escape(
            f.flat_map(|x: F32| x.to_bytes()),
            61,
        ) + seq![61u8],
        encoding(Model::ArrayF64(g)) == seq![61u8, 3u8] + escape(
            g.flat_map(|x: F64| x.to_bytes()),
            61,
        ) + seq![61u8],
{
    reveal(leaf_encoding);
    data_is_made_of_items(b, Seq::empty());
    assert(encoding(Model::ArrayBool(b)) =~= seq![61u8, 1u8] + escape(
        elements_bytes(b),
        61,
    ) + seq![61u8]);
    data_is_made_of_items(i, Seq::empty());
    assert(encoding(Model::ArrayI8(i)) =~= seq![61u8, 4u8] + escape(
        elements_bytes(i),
        61,
    ) + seq![61u8]);
    data_is_made_of_items(j, Seq::empty());
    assert(encoding(Model::ArrayI16(j)) =~= seq![61u8, 5u8] + escape(
        elements_bytes(j),
        61,
    ) + seq![61u8]);
    data_is_made_of_items(k, Seq::empty());
    assert(encoding(Model::ArrayI32(k)) =~= seq![61u8, 6u8] + escape(
        elements_bytes(k),
        61,
    ) + seq![61u8]);
    data_is_made_of_items(l, Seq::empty());
    assert(encoding(Model::ArrayI64(l)) =~= seq![61u8, 7u8] + escape(
        elements_bytes(l),
        61,
    ) + seq![61u8]);
    data_is_made_of_items(t, Seq::empty());
    assert(encoding(Model::ArrayU8(t)) =~= seq![61u8, 8u8] + escape(
        elements_bytes(t),
        61,
    ) + seq![61u8]);
    data_is_made_of_items(u, Seq::empty());
    assert(encoding(Model::ArrayU16(u)) =~= seq![61u8, 9u8] + escape(
        elements_bytes(u),
        61,
    ) + seq![61u8]);
    data_is_made_of_items(v, Seq::empty());
    assert(encoding(Model::ArrayU32(v)) =~= seq![61u8, 10u8] + escape(
        elements_bytes(v),
        61,
    ) + seq![61u8]);
    data_is_made_of_items(w, Seq::empty());
    assert(encoding(Model::ArrayU64(w)) =~= seq![61u8, 11u8] + escape(
        elements_bytes(w),
        61,
    ) + seq![61u8]);
    data_is_made_of_items(f, Seq::empty());
    assert(encoding(Model::ArrayF32(f)) =~= seq![61u8, 2u8] + escape(
        elements_bytes(f),
        61,
    ) + seq![61u8]);
    data_is_made_of_items(g, Seq::empty());
    assert(encoding(Model::ArrayF64(g)) =~= seq![61u8, 3u8] + escape(
        elements_bytes(g),
        61,
    ) + seq![61u8]);
}

/// A value that takes up a fixed number of bytes is written as its type bit and those bytes.
pub proof fn numbers_are_written_behind_type_bits(
    b: bool,
    i: i8,
    j: i16,
    k: i32,
    l: i64,
    t: u8,
    u: u16,
    v: u32,
    w: u64,
    f: F32,
    g: F64,
)
    ensures
        encoding(Model::Unit) == seq![0u8],
        encoding(Model::Bool(b)) == seq![1u8] + b.to_bytes(),
        encoding(Model::I8(i)) == seq![4u8] + i.to_bytes(),
        encoding(Model::I16(j)) == seq![5u8] + j.to_bytes(),
        encoding(Model::I32(k)) == seq![6u8] + k.to_bytes(),
        encoding(Model::I64(l)) == seq![7u8] + l.to_bytes(),
        encoding(Model::U8(t)) == seq![8u8] + t.to_bytes(),
        encoding(Model::U16(u)) == seq![9u8] + u.to_bytes(),
        encoding(Model::U32(v)) == seq![10u8] + v.to_bytes(),
        encoding(Model::U64(w)) == seq![11u8] + w.to_bytes(),
        encoding(Model::F32(f)) == seq![2u8] + f.to_bytes(),
        encoding(Model::F64(g)) == seq![3u8] + g.to_bytes(),
{
    reveal(leaf_encoding);
}

/// The next piece of the text of an array is as many tokens of it as bytes of data are asked for,
/// or all that are left in front of its end. While neither is there it has no next piece.
pub proof fn pieces_are_counted_in_tokens(ts: Seq<Seq<u8>>, tail: Seq<u8>, quota: nat)
    requires
        ts.len() <= quota,
        forall|i: int|
            0 <= i < ts.len() ==> {
                ||| (#[trigger] ts[i]).len() == 1 && ts[i][0] != 61 && ts[i][0] != 92
                ||| ts[i].len() == 2 && ts[i][0] == 92
            },
    ensures
        ts.len() == quota || (tail.len() > 0 && tail[0] == 61) ==> piece_len(
            ts.flatten() + tail,
            quota,
        ) == Some(ts.flatten().len() as int),
        ts.len() < quota && (tail.len() == 0 || tail == seq![92u8]) ==> piece_len(
            ts.flatten() + tail,
            quota,
        ) is None,
{
    let s = ts.flatten();
    let p = s + tail;
    lemma_tokens(ts, 61);
    lemma_piece_len(p, quota);
    assert(p.take(s.len() as int) =~= s);
    assert(unescape(s).len() == ts.len());
    if ts.len() == quota || (tail.len() > 0 && tail[0] == 61) {
        assert(piece_at(p, quota, s.len() as int));
    } else if tail.len() == 0 || tail == seq![92u8] {
        assert(text_open(p, 61) && unescape(p) == unescape(s)) by {
            if tail.len() == 0 {
                assert(p =~= s);
            } else {
                lemma_text_push(s, 92, 61);
                assert(p =~= s.push(92));
            }
        }
        if let Some(i) = piece_len(p, quota) {
            lemma_open_never_closes(p, 61, i);
            lemma_unescape_take(p, i);
        }
    }
}

/// A piece that is returned holds as many values as it may, or ends the array. One that waits for
/// the byte behind it holds as many as it may.
pub proof fn pieces_are_full<T: Element>(turn: Turn<T>)
    requires
        buffered(turn),
        !turn.was_done,
        turn.was_ready is None,
    ensures
        turn.r matches Step::Done(Ok(vs)) ==> vs@.len() <= turn.max && (turn.done || vs@.len()
            == turn.max),
        turn.ready matches Some(vs) ==> vs.len() == turn.max,
{
    reveal(buffered);
    let p = turn.before.pending;
    let width = T::kind().width();
    let max = turn.max;
    T::width_bounds();
    lemma_piece_len(p, max * width);
    if let Some(i) = piece_len(p, max * width) {
        elements_len::<T>(unescape(p.take(i)));
        if let Ok(vs) = elements::<T>(unescape(p.take(i))) {
            let n = vs.len();
            if i < p.len() {
                assert(p.skip(i)[0] == p[i]);
            }
            assert(n <= max) by (nonlinear_arith)
                requires
                    n * width <= max * width,
                    width > 0,
            ;
            if n * width == max * width {
                assert(n == max) by (nonlinear_arith)
                    requires
                        n * width == max * width,
                        width > 0,
                ;
            }
        }
    }
}

/// A piece is refused where the stream ends in front of its end or right behind it, and where it
/// holds something that is no value; it is then consumed only where all of it was there. It waits
/// where bytes are missing, and only there.
pub proof fn pieces_fail_where_the_array_does<T: Element>(turn: Turn<T>)
    requires
        buffered(turn),
        !turn.was_done,
    ensures
        turn.after.depth == turn.before.depth,
        turn.after.max_depth == turn.before.max_depth,
        turn.after.terminated == turn.before.terminated,
        turn.r is Read ==> !turn.before.terminated && !turn.done,
        turn.was_ready is Some ==> {
            let p = turn.before.pending;
            &&& turn.r is Read <==> p.len() == 0 && !turn.before.terminated
            &&& (turn.r matches Step::Done(Ok(_))) <==> p.len() > 0
            &&& turn.r matches Step::Done(Err(e)) ==> e@ == "unexpected end of stream"@
                && turn.after == turn.before && turn.ready is None && !turn.done
        },
        turn.was_ready is None ==> {
            let p = turn.before.pending;
            match piece_len(p, turn.max * T::kind().width()) {
                None => {
                    &&& turn.after == turn.before
                    &&& turn.r is Read <==> !turn.before.terminated
                    &&& turn.before.terminated ==> (turn.r matches Step::Done(Err(e)) && e@
                        == "unexpected end of stream"@)
                },
                Some(i) => match elements::<T>(unescape(p.take(i))) {
                    Err(text) => {
                        &&& turn.r matches Step::Done(Err(e)) && e@ == text
                        &&& turn.after.pending == p.skip(i)
                    },
                    Ok(_) => {
                        &&& (turn.r matches Step::Done(Ok(_))) <==> i < p.len()
                        &&& turn.r is Read <==> i == p.len() && !turn.before.terminated
                        &&& turn.r matches Step::Done(Err(e)) ==> e@ == "unexpected end of stream"@
                            && turn.after.pending.len() == 0
                    },
                },
            }
        },
{
    reveal(buffered);
    lemma_piece_len(turn.before.pending, turn.max * T::kind().width());
}

} // verus!
