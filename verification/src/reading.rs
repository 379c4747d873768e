//! What bytes are read as.
//!
//! The laws here say what the bytes of a stream are, by what they start with: what they stand for,
//! where they end, and where reading stops that does not get so far.

use vstd::prelude::*;
use vstd::utf8::{decode_utf8, valid_utf8};

use crate::constants::Type;
use crate::element::{elements, Element, F32, F64};
use crate::error::{invalid_length_text, invalid_type_text, invalid_value_text};
use crate::escape::{let_go, text_end, unescape, SKIP_LEN};
use crate::grammar::{
    lemma_skip_value, skip_entry, skip_leaf, skip_list, skip_map, skip_value, skip_value_extend,
    Parsed, Stop,
};
use crate::laws::{lemma_parse_value, reading_is_settled};
use crate::model::Model;
use crate::parse::{
    parse_array, parse_entry, parse_leaf, parse_list, parse_map, parse_value,
};
use crate::read::{decoded, ignored};
use crate::text::decimal;
use crate::utf8::utf8_error_text;

verus! {

/// Where there is nothing, everything is missing.
pub proof fn nothing_is_no_value(room: nat, limit: nat)
    ensures
        parse_value(Seq::empty(), room, limit) == Parsed::<Model>::Partial(
            Stop { text: "unexpected end of stream"@, at: 0, opened: 0 },
        ),
        skip_value(Seq::empty(), room, limit) == Parsed::<()>::Partial(
            Stop { text: "unexpected end of stream"@, at: 0, opened: 0 },
        ),
{
}

/// A byte that opens nothing and is no type bit is no value, and is not consumed.
pub proof fn unknown_type_bits_are_refused(b: u8, s: Seq<u8>, room: nat, limit: nat)
    requires
        b > 11,
        b != 34,
        b != 61,
        b != 91,
        b != 123,
    ensures
        parse_value(seq![b] + s, room, limit) == Parsed::<Model>::Invalid(
            Stop { text: "invalid type bit: "@ + decimal(b as nat), at: 0, opened: 0 },
        ),
        skip_value(seq![b] + s, room, limit) == Parsed::<()>::Invalid(
            Stop { text: "invalid type bit: "@ + decimal(b as nat), at: 0, opened: 0 },
        ),
{
    reveal(parse_leaf);
    reveal(skip_leaf);
    assert((seq![b] + s)[0] == b);
}

/// The unit value is its type bit.
pub proof fn units_are_read(s: Seq<u8>, room: nat, limit: nat)
    ensures
        parse_value(seq![0u8] + s, room, limit) == Parsed::Whole(Model::Unit, 1),
        skip_value(seq![0u8] + s, room, limit) == Parsed::Whole((), 1),
{
    reveal(parse_leaf);
    reveal(skip_leaf);
    assert((seq![0u8] + s)[0] == 0);
}

/// A number of which bytes are missing stays unread.
pub proof fn short_numbers_stay_unread(t: Type, s: Seq<u8>, room: nat, limit: nat)
    requires
        s.len() < t.width(),
    ensures
        parse_value(seq![t.code()] + s, room, limit) == Parsed::<Model>::Partial(
            Stop { text: invalid_length_text(1 + s.len(), t.label()), at: 0, opened: 0 },
        ),
        skip_value(seq![t.code()] + s, room, limit) == Parsed::<()>::Partial(
            Stop { text: invalid_length_text(1 + s.len(), t.label()), at: 0, opened: 0 },
        ),
{
    reveal(parse_leaf);
    reveal(skip_leaf);
    t.code_is_unambiguous(t);
    assert((seq![t.code()] + s)[0] == t.code());
}

/// The byte of a truth value is zero or one. Behind another one only the type bit is consumed.
pub proof fn other_truth_values_are_refused(b: u8, s: Seq<u8>, room: nat, limit: nat)
    requires
        b > 1,
    ensures
        parse_value(seq![1u8, b] + s, room, limit) == Parsed::<Model>::Invalid(
            Stop {
                text: invalid_value_text(decimal(b as nat), "a boolean"@),
                at: 1,
                opened: 0,
            },
        ),
        skip_value(seq![1u8, b] + s, room, limit) == Parsed::<()>::Invalid(
            Stop {
                text: invalid_value_text(decimal(b as nat), "a boolean"@),
                at: 1,
                opened: 0,
            },
        ),
{
    reveal(parse_leaf);
    reveal(skip_leaf);
    let t = seq![1u8, b] + s;
    assert(t[0] == 1 && t[1] == b);
    assert(t.subrange(1, 2) =~= seq![b]);
}

/// A number that is all there is read as the value that its bytes are, and nothing behind it.
pub proof fn numbers_are_read(t: Type, bytes: Seq<u8>, s: Seq<u8>, room: nat, limit: nat)
    requires
        bytes.len() == t.width(),
        t == Type::Bool ==> bytes[0] <= 1,
    ensures
        skip_value(seq![t.code()] + bytes + s, room, limit) == Parsed::Whole((), 1 + bytes.len()),
        parse_value(seq![t.code()] + bytes + s, room, limit) == Parsed::Whole(
            match t {
                Type::Unit => Model::Unit,
                Type::Bool => Model::Bool(<bool as Element>::from_bytes(bytes)->0),
                Type::I8 => Model::I8(<i8 as Element>::from_bytes(bytes)->0),
                Type::I16 => Model::I16(<i16 as Element>::from_bytes(bytes)->0),
                Type::I32 => Model::I32(<i32 as Element>::from_bytes(bytes)->0),
                Type::I64 => Model::I64(<i64 as Element>::from_bytes(bytes)->0),
                Type::U8 => Model::U8(<u8 as Element>::from_bytes(bytes)->0),
                Type::U16 => Model::U16(<u16 as Element>::from_bytes(bytes)->0),
                Type::U32 => Model::U32(<u32 as Element>::from_bytes(bytes)->0),
                Type::U64 => Model::U64(<u64 as Element>::from_bytes(bytes)->0),
                Type::F32 => Model::F32(<F32 as Element>::from_bytes(bytes)->0),
                Type::F64 => Model::F64(<F64 as Element>::from_bytes(bytes)->0),
            },
            1 + bytes.len(),
        ),
{
    reveal(parse_leaf);
    reveal(skip_leaf);
    t.code_is_unambiguous(t);
    let all = seq![t.code()] + bytes + s;
    assert(all[0] == t.code());
    assert(all.subrange(1, 1 + t.width() as int) =~= bytes);
    match t {
        Type::Unit => {},
        Type::Bool => <bool as Element>::from_bytes_domain(bytes),
        Type::I8 => <i8 as Element>::from_bytes_domain(bytes),
        Type::I16 => <i16 as Element>::from_bytes_domain(bytes),
        Type::I32 => <i32 as Element>::from_bytes_domain(bytes),
        Type::I64 => <i64 as Element>::from_bytes_domain(bytes),
        Type::U8 => <u8 as Element>::from_bytes_domain(bytes),
        Type::U16 => <u16 as Element>::from_bytes_domain(bytes),
        Type::U32 => <u32 as Element>::from_bytes_domain(bytes),
        Type::U64 => <u64 as Element>::from_bytes_domain(bytes),
        Type::F32 => <F32 as Element>::from_bytes_domain(bytes),
        Type::F64 => <F64 as Element>::from_bytes_domain(bytes),
    }
}

/// A string is read up to its closing quote. Its opening quote is gone while that is missing, and
/// both are where it is no UTF-8.
pub proof fn strings_are_read(s: Seq<u8>, room: nat, limit: nat)
    ensures
        parse_value(seq![34u8] + s, room, limit) == match text_end(s, 34) {
            None => Parsed::Partial(
                Stop { text: "unexpected end of stream"@, at: 1, opened: 0 },
            ),
            Some(k) => {
                let data = unescape(s.take(k));
                if valid_utf8(data) {
                    Parsed::Whole(Model::Text(decode_utf8(data)), (k + 2) as nat)
                } else {
                    Parsed::Invalid(
                        Stop {
                            text: "invalid UTF-8: "@ + utf8_error_text(data),
                            at: (k + 2) as nat,
                            opened: 0,
                        },
                    )
                }
            },
        },
{
    reveal(parse_leaf);
    let t = seq![34u8] + s;
    assert(t[0] == 34);
    assert(t.skip(1) =~= s);
}

/// A string is skipped up to its closing quote, whatever it holds. While that is missing its
/// opening quote is gone, and so are lots of the bytes behind it.
pub proof fn strings_are_skipped(s: Seq<u8>, room: nat, limit: nat)
    ensures
        skip_value(seq![34u8] + s, room, limit) == match text_end(s, 34) {
            None => Parsed::Partial(
                Stop { text: "unexpected end of stream"@, at: 1 + let_go(s.len()), opened: 0 },
            ),
            Some(k) => Parsed::Whole((), (k + 2) as nat),
        },
{
    reveal(skip_leaf);
    let t = seq![34u8] + s;
    assert(t[0] == 34);
    assert(t.skip(1) =~= s);
}

/// Text that is skipped is let go of in lots of 4097 bytes, but for its last byte.
pub proof fn text_is_let_go_of_in_lots(len: nat)
    ensures
        let_go(len) % 4097 == 0,
        len == 0 ==> let_go(len) == 0,
        len > 0 ==> let_go(len) < len <= let_go(len) + 4097,
{
    assert(SKIP_LEN == 4097);
}

/// An array is skipped up to its closing delimiter, whatever its type bit is and whatever it holds.
pub proof fn arrays_are_skipped(code: u8, s: Seq<u8>, room: nat, limit: nat)
    ensures
        skip_value(seq![61u8], room, limit) == Parsed::<()>::Partial(
            Stop { text: "unexpected end of stream"@, at: 1, opened: 0 },
        ),
        skip_value(seq![61u8, code] + s, room, limit) == match text_end(s, 61) {
            None => Parsed::Partial(
                Stop { text: "unexpected end of stream"@, at: 2, opened: 0 },
            ),
            Some(k) => Parsed::Whole((), (k + 3) as nat),
        },
{
    reveal(skip_leaf);
    let t = seq![61u8, code] + s;
    assert(t[0] == 61);
    assert(t.skip(2) =~= s);
}

/// What reading the text `s` of an array of values of type `N` comes to.
proof fn lemma_array_read<N: Element>(code: u8, s: Seq<u8>)
    ensures
        parse_array::<N>(seq![61u8, code] + s) == match text_end(s, 61) {
            None => Parsed::Partial(
                Stop { text: "unexpected end of stream"@, at: 2, opened: 0 },
            ),
            Some(k) => match elements::<N>(unescape(s.take(k))) {
                Ok(vs) => Parsed::Whole(vs, (k + 3) as nat),
                Err(text) => Parsed::Invalid(Stop { text, at: (k + 2) as nat, opened: 0 }),
            },
        },
{
    assert((seq![61u8, code] + s).skip(2) =~= s);
}

/// An array stays unread until its type bit is there, and is refused where that is none, or is
/// that of a type which cannot be told from the array itself.
pub proof fn arrays_of_other_types_are_refused(code: u8, s: Seq<u8>, room: nat, limit: nat)
    ensures
        parse_value(seq![61u8], room, limit) == Parsed::<Model>::Partial(
            Stop { text: "unexpected end of stream"@, at: 0, opened: 0 },
        ),
        code > 11 ==> parse_value(seq![61u8, code] + s, room, limit) == Parsed::<Model>::Invalid(
            Stop { text: "invalid type bit: "@ + decimal(code as nat), at: 0, opened: 0 },
        ),
        code == 0 ==> parse_value(seq![61u8, code] + s, room, limit) == Parsed::<Model>::Invalid(
            Stop {
                text: invalid_type_text("none"@, "a supported array type"@),
                at: 0,
                opened: 0,
            },
        ),
        code == 4 ==> parse_value(seq![61u8, code] + s, room, limit) == Parsed::<Model>::Invalid(
            Stop {
                text: invalid_type_text("i8"@, "a supported array type"@),
                at: 0,
                opened: 0,
            },
        ),
{
    reveal(parse_leaf);
    let t = seq![61u8, code] + s;
    assert(t[0] == 61 && t[1] == code);
}

/// An array with the type bit 1 is read up to its closing delimiter. Its opening is gone while
/// that is missing, and all but that is where it holds something else.
pub proof fn bool_arrays_are_read(s: Seq<u8>, room: nat, limit: nat)
    ensures
        parse_value(seq![61u8, 1u8] + s, room, limit) == match text_end(s, 61) {
            None => Parsed::Partial(
                Stop { text: "unexpected end of stream"@, at: 2, opened: 0 },
            ),
            Some(k) => match elements::<bool>(unescape(s.take(k))) {
                Ok(vs) => Parsed::Whole(Model::ArrayBool(vs), (k + 3) as nat),
                Err(text) => Parsed::Invalid(Stop { text, at: (k + 2) as nat, opened: 0 }),
            },
        },
{
    reveal(parse_leaf);
    lemma_array_read::<bool>(1, s);
    let t = seq![61u8, 1u8] + s;
    assert(t[0] == 61 && t[1] == 1);
}

/// An array with the type bit 5 is read up to its closing delimiter. Its opening is gone while
/// that is missing, and all but that is where it holds something else.
pub proof fn i16_arrays_are_read(s: Seq<u8>, room: nat, limit: nat)
    ensures
        parse_value(seq![61u8, 5u8] + s, room, limit) == match text_end(s, 61) {
            None => Parsed::Partial(
                Stop { text: "unexpected end of stream"@, at: 2, opened: 0 },
            ),
            Some(k) => match elements::<i16>(unescape(s.take(k))) {
                Ok(vs) => Parsed::Whole(Model::ArrayI16(vs), (k + 3) as nat),
                Err(text) => Parsed::Invalid(Stop { text, at: (k + 2) as nat, opened: 0 }),
            },
        },
{
    reveal(parse_leaf);
    lemma_array_read::<i16>(5, s);
    let t = seq![61u8, 5u8] + s;
    assert(t[0] == 61 && t[1] == 5);
}

/// An array with the type bit 6 is read up to its closing delimiter. Its opening is gone while
/// that is missing, and all but that is where it holds something else.
pub proof fn i32_arrays_are_read(s: Seq<u8>, room: nat, limit: nat)
    ensures
        parse_value(seq![61u8, 6u8] + s, room, limit) == match text_end(s, 61) {
            None => Parsed::Partial(
                Stop { text: "unexpected end of stream"@, at: 2, opened: 0 },
            ),
            Some(k) => match elements::<i32>(unescape(s.take(k))) {
                Ok(vs) => Parsed::Whole(Model::ArrayI32(vs), (k + 3) as nat),
                Err(text) => Parsed::Invalid(Stop { text, at: (k + 2) as nat, opened: 0 }),
            },
        },
{
    reveal(parse_leaf);
    lemma_array_read::<i32>(6, s);
    let t = seq![61u8, 6u8] + s;
    assert(t[0] == 61 && t[1] == 6);
}

/// An array with the type bit 7 is read up to its closing delimiter. Its opening is gone while
/// that is missing, and all but that is where it holds something else.
pub proof fn i64_arrays_are_read(s: Seq<u8>, room: nat, limit: nat)
    ensures
        parse_value(seq![61u8, 7u8] + s, room, limit) == match text_end(s, 61) {
            None => Parsed::Partial(
                Stop { text: "unexpected end of stream"@, at: 2, opened: 0 },
            ),
            Some(k) => match elements::<i64>(unescape(s.take(k))) {
                Ok(vs) => Parsed::Whole(Model::ArrayI64(vs), (k + 3) as nat),
                Err(text) => Parsed::Invalid(Stop { text, at: (k + 2) as nat, opened: 0 }),
            },
        },
{
    reveal(parse_leaf);
    lemma_array_read::<i64>(7, s);
    let t = seq![61u8, 7u8] + s;
    assert(t[0] == 61 && t[1] == 7);
}

/// An array with the type bit 8 is read up to its closing delimiter. Its opening is gone while
/// that is missing, and all but that is where it holds something else.
pub proof fn u8_arrays_are_read(s: Seq<u8>, room: nat, limit: nat)
    ensures
        parse_value(seq![61u8, 8u8] + s, room, limit) == match text_end(s, 61) {
            None => Parsed::Partial(
                Stop { text: "unexpected end of stream"@, at: 2, opened: 0 },
            ),
            Some(k) => match elements::<u8>(unescape(s.take(k))) {
                Ok(vs) => Parsed::Whole(Model::ArrayU8(vs), (k + 3) as nat),
                Err(text) => Parsed::Invalid(Stop { text, at: (k + 2) as nat, opened: 0 }),
            },
        },
{
    reveal(parse_leaf);
    lemma_array_read::<u8>(8, s);
    let t = seq![61u8, 8u8] + s;
    assert(t[0] == 61 && t[1] == 8);
}

/// An array with the type bit 9 is read up to its closing delimiter. Its opening is gone while
/// that is missing, and all but that is where it holds something else.
pub proof fn u16_arrays_are_read(s: Seq<u8>, room: nat, limit: nat)
    ensures
        parse_value(seq![61u8, 9u8] + s, room, limit) == match text_end(s, 61) {
            None => Parsed::Partial(
                Stop { text: "unexpected end of stream"@, at: 2, opened: 0 },
            ),
            Some(k) => match elements::<u16>(unescape(s.take(k))) {
                Ok(vs) => Parsed::Whole(Model::ArrayU16(vs), (k + 3) as nat),
                Err(text) => Parsed::Invalid(Stop { text, at: (k + 2) as nat, opened: 0 }),
            },
        },
{
    reveal(parse_leaf);
    lemma_array_read::<u16>(9, s);
    let t = seq![61u8, 9u8] + s;
    assert(t[0] == 61 && t[1] == 9);
}

/// An array with the type bit 10 is read up to its closing delimiter. Its opening is gone while
/// that is missing, and all but that is where it holds something else.
pub proof fn u32_arrays_are_read(s: Seq<u8>, room: nat, limit: nat)
    ensures
        parse_value(seq![61u8, 10u8] + s, room, limit) == match text_end(s, 61) {
            None => Parsed::Partial(
                Stop { text: "unexpected end of stream"@, at: 2, opened: 0 },
            ),
            Some(k) => match elements::<u32>(unescape(s.take(k))) {
                Ok(vs) => Parsed::Whole(Model::ArrayU32(vs), (k + 3) as nat),
                Err(text) => Parsed::Invalid(Stop { text, at: (k + 2) as nat, opened: 0 }),
            },
        },
{
    reveal(parse_leaf);
    lemma_array_read::<u32>(10, s);
    let t = seq![61u8, 10u8] + s;
    assert(t[0] == 61 && t[1] == 10);
}

/// An array with the type bit 11 is read up to its closing delimiter. Its opening is gone while
/// that is missing, and all but that is where it holds something else.
pub proof fn u64_arrays_are_read(s: Seq<u8>, room: nat, limit: nat)
    ensures
        parse_value(seq![61u8, 11u8] + s, room, limit) == match text_end(s, 61) {
            None => Parsed::Partial(
                Stop { text: "unexpected end of stream"@, at: 2, opened: 0 },
            ),
            Some(k) => match elements::<u64>(unescape(s.take(k))) {
                Ok(vs) => Parsed::Whole(Model::ArrayU64(vs), (k + 3) as nat),
                Err(text) => Parsed::Invalid(Stop { text, at: (k + 2) as nat, opened: 0 }),
            },
        },
{
    reveal(parse_leaf);
    lemma_array_read::<u64>(11, s);
    let t = seq![61u8, 11u8] + s;
    assert(t[0] == 61 && t[1] == 11);
}

/// An array with the type bit 2 is read up to its closing delimiter. Its opening is gone while
/// that is missing, and all but that is where it holds something else.
pub proof fn f32_arrays_are_read(s: Seq<u8>, room: nat, limit: nat)
    ensures
        parse_value(seq![61u8, 2u8] + s, room, limit) == match text_end(s, 61) {
            None => Parsed::Partial(
                Stop { text: "unexpected end of stream"@, at: 2, opened: 0 },
            ),
            Some(k) => match elements::<F32>(unescape(s.take(k))) {
                Ok(vs) => Parsed::Whole(Model::ArrayF32(vs), (k + 3) as nat),
                Err(text) => Parsed::Invalid(Stop { text, at: (k + 2) as nat, opened: 0 }),
            },
        },
{
    reveal(parse_leaf);
    lemma_array_read::<F32>(2, s);
    let t = seq![61u8, 2u8] + s;
    assert(t[0] == 61 && t[1] == 2);
}

/// An array with the type bit 3 is read up to its closing delimiter. Its opening is gone while
/// that is missing, and all but that is where it holds something else.
pub proof fn f64_arrays_are_read(s: Seq<u8>, room: nat, limit: nat)
    ensures
        parse_value(seq![61u8, 3u8] + s, room, limit) == match text_end(s, 61) {
            None => Parsed::Partial(
                Stop { text: "unexpected end of stream"@, at: 2, opened: 0 },
            ),
            Some(k) => match elements::<F64>(unescape(s.take(k))) {
                Ok(vs) => Parsed::Whole(Model::ArrayF64(vs), (k + 3) as nat),
                Err(text) => Parsed::Invalid(Stop { text, at: (k + 2) as nat, opened: 0 }),
            },
        },
{
    reveal(parse_leaf);
    lemma_array_read::<F64>(3, s);
    let t = seq![61u8, 3u8] + s;
    assert(t[0] == 61 && t[1] == 3);
}

/// Lists and maps for which there is no room are refused behind their opening byte.
pub proof fn there_is_only_so_much_room(b: u8, s: Seq<u8>, limit: nat)
    requires
        b == 91 || b == 123,
    ensures
        parse_value(seq![b] + s, 0, limit) == Parsed::<Model>::Invalid(
            Stop {
                text: "nesting depth limit exceeded (max "@ + decimal(limit) + ")"@,
                at: 1,
                opened: 0,
            },
        ),
        skip_value(seq![b] + s, 0, limit) == Parsed::<()>::Invalid(
            Stop {
                text: "nesting depth limit exceeded (max "@ + decimal(limit) + ")"@,
                at: 1,
                opened: 0,
            },
        ),
{
    assert((seq![b] + s)[0] == b);
}

/// A list is read as the values between its brackets. Where one of them is missing or wrong,
/// reading stops inside it with the list open.
pub proof fn lists_are_read(
    ps: Seq<Seq<u8>>,
    ms: Seq<Model>,
    tail: Seq<u8>,
    room: nat,
    limit: nat,
)
    requires
        ps.len() == ms.len(),
        forall|i: int|
            0 <= i < ps.len() ==> parse_value(#[trigger] ps[i], room, limit) == Parsed::Whole(
                ms[i],
                ps[i].len(),
            ),
    ensures
        ({
            let n = 1 + ps.flatten().len();
            let r = parse_value(seq![91u8] + ps.flatten() + tail, room + 1, limit);
            if tail.len() == 0 {
                r == Parsed::<Model>::Partial(
                    Stop { text: "unexpected end of stream"@, at: n, opened: 1 },
                )
            } else if tail[0] == 93 {
                r == Parsed::Whole(Model::List(ms), n + 1)
            } else {
                match parse_value(tail, room, limit) {
                    Parsed::Whole(..) => true,
                    Parsed::Partial(stop) => r == Parsed::<Model>::Partial(
                        Stop { text: stop.text, at: n + stop.at, opened: 1 + stop.opened },
                    ),
                    Parsed::Invalid(stop) => r == Parsed::<Model>::Invalid(
                        Stop { text: stop.text, at: n + stop.at, opened: 1 + stop.opened },
                    ),
                }
            }
        }),
{
    let s = seq![91u8] + ps.flatten() + tail;
    assert(s[0] == 91);
    assert(s.skip(1) =~= ps.flatten() + tail);
    lemma_list_read(ps, ms, tail, room, limit);
}

proof fn lemma_list_read(
    ps: Seq<Seq<u8>>,
    ms: Seq<Model>,
    tail: Seq<u8>,
    room: nat,
    limit: nat,
)
    requires
        ps.len() == ms.len(),
        forall|i: int|
            0 <= i < ps.len() ==> parse_value(#[trigger] ps[i], room, limit) == Parsed::Whole(
                ms[i],
                ps[i].len(),
            ),
    ensures
        ({
            let n = ps.flatten().len();
            let r = parse_list(ps.flatten() + tail, room, limit);
            if tail.len() == 0 {
                r == Parsed::<Seq<Model>>::Partial(
                    Stop { text: "unexpected end of stream"@, at: n, opened: 0 },
                )
            } else if tail[0] == 93 {
                r == Parsed::Whole(ms, n + 1)
            } else {
                match parse_value(tail, room, limit) {
                    Parsed::Whole(..) => true,
                    Parsed::Partial(stop) => r == Parsed::<Seq<Model>>::Partial(stop.shift(n)),
                    Parsed::Invalid(stop) => r == Parsed::<Seq<Model>>::Invalid(stop.shift(n)),
                }
            }
        }),
    decreases ps.len(),
{
    let s = ps.flatten() + tail;
    if ps.len() == 0 {
        assert(s =~= tail);
        assert(ms =~= Seq::<Model>::empty());
    } else {
        let p = ps[0];
        let others = ps.skip(1);
        assert(ps.drop_first() =~= others);
        let rest = others.flatten() + tail;
        assert(s =~= p + rest);
        assert forall|i: int| 0 <= i < others.len() implies parse_value(
            #[trigger] others[i],
            room,
            limit,
        ) == Parsed::Whole(ms.skip(1)[i], others[i].len()) by {
            assert(others[i] == ps[i + 1]);
        }
        lemma_list_read(others, ms.skip(1), tail, room, limit);
        lemma_parse_value(p, room, limit);
        reading_is_settled(p, rest, room, limit);
        lemma_no_end(p, room, limit);
        assert(s[0] == p[0]);
        assert(s.skip(p.len() as int) =~= rest);
        assert(seq![ms[0]] + ms.skip(1) =~= ms);
    }
}

/// No value starts with the end of a list or map.
proof fn lemma_no_end(p: Seq<u8>, room: nat, limit: nat)
    ensures
        p.len() > 0 && parse_value(p, room, limit) is Whole ==> p[0] != 93 && p[0] != 125,
        p.len() > 0 && skip_value(p, room, limit) is Whole ==> p[0] != 93 && p[0] != 125,
{
    reveal(parse_leaf);
    reveal(skip_leaf);
}

/// A list is skipped as the values between its brackets. Where one of them is missing or wrong,
/// skipping stops inside it with the list open.
pub proof fn lists_are_skipped(ps: Seq<Seq<u8>>, tail: Seq<u8>, room: nat, limit: nat)
    requires
        forall|i: int|
            0 <= i < ps.len() ==> skip_value(#[trigger] ps[i], room, limit) == Parsed::Whole(
                (),
                ps[i].len(),
            ),
    ensures
        ({
            let n = 1 + ps.flatten().len();
            let r = skip_value(seq![91u8] + ps.flatten() + tail, room + 1, limit);
            if tail.len() == 0 {
                r == Parsed::<()>::Partial(
                    Stop { text: "unexpected end of stream"@, at: n, opened: 1 },
                )
            } else if tail[0] == 93 {
                r == Parsed::Whole((), n + 1)
            } else {
                match skip_value(tail, room, limit) {
                    Parsed::Whole(..) => true,
                    Parsed::Partial(stop) => r == Parsed::<()>::Partial(
                        Stop { text: stop.text, at: n + stop.at, opened: 1 + stop.opened },
                    ),
                    Parsed::Invalid(stop) => r == Parsed::<()>::Invalid(
                        Stop { text: stop.text, at: n + stop.at, opened: 1 + stop.opened },
                    ),
                }
            }
        }),
{
    let s = seq![91u8] + ps.flatten() + tail;
    assert(s[0] == 91);
    assert(s.skip(1) =~= ps.flatten() + tail);
    lemma_list_skipped(ps, tail, room, limit);
}

proof fn lemma_list_skipped(ps: Seq<Seq<u8>>, tail: Seq<u8>, room: nat, limit: nat)
    requires
        forall|i: int|
            0 <= i < ps.len() ==> skip_value(#[trigger] ps[i], room, limit) == Parsed::Whole(
                (),
                ps[i].len(),
            ),
    ensures
        ({
            let n = ps.flatten().len();
            let r = skip_list(ps.flatten() + tail, room, limit);
            if tail.len() == 0 {
                r == Parsed::<()>::Partial(
                    Stop { text: "unexpected end of stream"@, at: n, opened: 0 },
                )
            } else if tail[0] == 93 {
                r == Parsed::Whole((), n + 1)
            } else {
                match skip_value(tail, room, limit) {
                    Parsed::Whole(..) => true,
                    Parsed::Partial(stop) => r == Parsed::<()>::Partial(stop.shift(n)),
                    Parsed::Invalid(stop) => r == Parsed::<()>::Invalid(stop.shift(n)),
                }
            }
        }),
    decreases ps.len(),
{
    let s = ps.flatten() + tail;
    if ps.len() == 0 {
        assert(s =~= tail);
    } else {
        let p = ps[0];
        let others = ps.skip(1);
        assert(ps.drop_first() =~= others);
        let rest = others.flatten() + tail;
        assert(s =~= p + rest);
        assert forall|i: int| 0 <= i < others.len() implies skip_value(
            #[trigger] others[i],
            room,
            limit,
        ) == Parsed::Whole((), others[i].len()) by {
            assert(others[i] == ps[i + 1]);
        }
        lemma_list_skipped(others, tail, room, limit);
        lemma_skip_value(p, room, limit);
        skip_value_extend(p, rest, room, limit);
        lemma_no_end(p, room, limit);
        assert(s[0] == p[0]);
        assert(s.skip(p.len() as int) =~= rest);
    }
}

/// A map is read as the keys and values between its braces, by turns. Where one of them is missing
/// or wrong, reading stops inside it with the map open; no key goes without a value.
pub proof fn maps_are_read(
    ps: Seq<Seq<u8>>,
    ms: Seq<Model>,
    tail: Seq<u8>,
    room: nat,
    limit: nat,
)
    requires
        ps.len() == ms.len(),
        forall|i: int|
            0 <= i < ps.len() ==> parse_value(#[trigger] ps[i], room, limit) == Parsed::Whole(
                ms[i],
                ps[i].len(),
            ),
    ensures
        ({
            let n = 1 + ps.flatten().len();
            let r = parse_value(seq![123u8] + ps.flatten() + tail, room + 1, limit);
            if tail.len() == 0 {
                r == Parsed::<Model>::Partial(
                    Stop { text: "unexpected end of stream"@, at: n, opened: 1 },
                )
            } else if tail[0] == 125 && ps.len() % 2 == 0 {
                r == Parsed::Whole(
                    Model::Dict(
                        Seq::new(ps.len() / 2, |i: int| (ms[2 * i], ms[2 * i + 1])),
                    ),
                    n + 1,
                )
            } else {
                match parse_value(tail, room, limit) {
                    Parsed::Whole(..) => true,
                    Parsed::Partial(stop) => r == Parsed::<Model>::Partial(
                        Stop { text: stop.text, at: n + stop.at, opened: 1 + stop.opened },
                    ),
                    Parsed::Invalid(stop) => r == Parsed::<Model>::Invalid(
                        Stop { text: stop.text, at: n + stop.at, opened: 1 + stop.opened },
                    ),
                }
            }
        }),
{
    let s = seq![123u8] + ps.flatten() + tail;
    assert(s[0] == 123);
    assert(s.skip(1) =~= ps.flatten() + tail);
    let es = Seq::new(ps.len() / 2, |i: int| (ms[2 * i], ms[2 * i + 1]));
    lemma_map_read(ps, ms, es, tail, room, limit);
}

proof fn lemma_map_read(
    ps: Seq<Seq<u8>>,
    ms: Seq<Model>,
    es: Seq<(Model, Model)>,
    tail: Seq<u8>,
    room: nat,
    limit: nat,
)
    requires
        ps.len() == ms.len(),
        es.len() == ps.len() / 2,
        forall|i: int| 0 <= i < es.len() ==> #[trigger] es[i] == (ms[2 * i], ms[2 * i + 1]),
        forall|i: int|
            0 <= i < ps.len() ==> parse_value(#[trigger] ps[i], room, limit) == Parsed::Whole(
                ms[i],
                ps[i].len(),
            ),
    ensures
        ({
            let n = ps.flatten().len();
            let r = parse_map(ps.flatten() + tail, room, limit);
            if tail.len() == 0 {
                r == Parsed::<Seq<(Model, Model)>>::Partial(
                    Stop { text: "unexpected end of stream"@, at: n, opened: 0 },
                )
            } else if tail[0] == 125 && ps.len() % 2 == 0 {
                r == Parsed::Whole(es, n + 1)
            } else {
                match parse_value(tail, room, limit) {
                    Parsed::Whole(..) => true,
                    Parsed::Partial(stop) => r == Parsed::<Seq<(Model, Model)>>::Partial(
                        stop.shift(n),
                    ),
                    Parsed::Invalid(stop) => r == Parsed::<Seq<(Model, Model)>>::Invalid(
                        stop.shift(n),
                    ),
                }
            }
        }),
    decreases ps.len(),
{
    let s = ps.flatten() + tail;
    if ps.len() == 0 {
        assert(s =~= tail);
        assert(es =~= Seq::<(Model, Model)>::empty());
    } else {
        let p = ps[0];
        let others = ps.skip(1);
        assert(ps.drop_first() =~= others);
        let rest = others.flatten() + tail;
        assert(s =~= p + rest);
        lemma_parse_value(p, room, limit);
        reading_is_settled(p, rest, room, limit);
        lemma_no_end(p, room, limit);
        assert(s[0] == p[0]);
        assert(s.skip(p.len() as int) =~= rest);
        assert(parse_map(s, room, limit) == parse_entry(ms[0], rest, room, limit).shift(p.len()));
        if ps.len() == 1 {
            assert(rest =~= tail);
        } else {
            let q = others[0];
            assert(q == ps[1]);
            let more = others.skip(1);
            assert(others.drop_first() =~= more);
            let left = more.flatten() + tail;
            assert(rest =~= q + left);
            lemma_parse_value(q, room, limit);
            reading_is_settled(q, left, room, limit);
            assert(rest.skip(q.len() as int) =~= left);
            assert forall|i: int| 0 <= i < more.len() implies parse_value(
                #[trigger] more[i],
                room,
                limit,
            ) == Parsed::Whole(ms.skip(2)[i], more[i].len()) by {
                assert(more[i] == ps[i + 2]);
            }
            assert forall|i: int| 0 <= i < es.skip(1).len() implies #[trigger] es.skip(1)[i] == (
                ms.skip(2)[2 * i],
                ms.skip(2)[2 * i + 1],
            ) by {
                assert(es.skip(1)[i] == es[i + 1]);
            }
            lemma_map_read(more, ms.skip(2), es.skip(1), tail, room, limit);
            assert(es[0] == (ms[0], ms[1]));
            assert(seq![(ms[0], ms[1])] + es.skip(1) =~= es);
        }
    }
}

/// A map is skipped as the keys and values between its braces, by turns. Where one of them is
/// missing or wrong, skipping stops inside it with the map open; no key goes without a value.
pub proof fn maps_are_skipped(ps: Seq<Seq<u8>>, tail: Seq<u8>, room: nat, limit: nat)
    requires
        forall|i: int|
            0 <= i < ps.len() ==> skip_value(#[trigger] ps[i], room, limit) == Parsed::Whole(
                (),
                ps[i].len(),
            ),
    ensures
        ({
            let n = 1 + ps.flatten().len();
            let r = skip_value(seq![123u8] + ps.flatten() + tail, room + 1, limit);
            if tail.len() == 0 {
                r == Parsed::<()>::Partial(
                    Stop { text: "unexpected end of stream"@, at: n, opened: 1 },
                )
            } else if tail[0] == 125 && ps.len() % 2 == 0 {
                r == Parsed::Whole((), n + 1)
            } else {
                match skip_value(tail, room, limit) {
                    Parsed::Whole(..) => true,
                    Parsed::Partial(stop) => r == Parsed::<()>::Partial(
                        Stop { text: stop.text, at: n + stop.at, opened: 1 + stop.opened },
                    ),
                    Parsed::Invalid(stop) => r == Parsed::<()>::Invalid(
                        Stop { text: stop.text, at: n + stop.at, opened: 1 + stop.opened },
                    ),
                }
            }
        }),
{
    let s = seq![123u8] + ps.flatten() + tail;
    assert(s[0] == 123);
    assert(s.skip(1) =~= ps.flatten() + tail);
    lemma_map_skipped(ps, tail, room, limit);
}

proof fn lemma_map_skipped(ps: Seq<Seq<u8>>, tail: Seq<u8>, room: nat, limit: nat)
    requires
        forall|i: int|
            0 <= i < ps.len() ==> skip_value(#[trigger] ps[i], room, limit) == Parsed::Whole(
                (),
                ps[i].len(),
            ),
    ensures
        ({
            let n = ps.flatten().len();
            let r = skip_map(ps.flatten() + tail, room, limit);
            if tail.len() == 0 {
                r == Parsed::<()>::Partial(
                    Stop { text: "unexpected end of stream"@, at: n, opened: 0 },
                )
            } else if tail[0] == 125 && ps.len() % 2 == 0 {
                r == Parsed::Whole((), n + 1)
            } else {
                match skip_value(tail, room, limit) {
                    Parsed::Whole(..) => true,
                    Parsed::Partial(stop) => r == Parsed::<()>::Partial(stop.shift(n)),
                    Parsed::Invalid(stop) => r == Parsed::<()>::Invalid(stop.shift(n)),
                }
            }
        }),
    decreases ps.len(),
{
    let s = ps.flatten() + tail;
    if ps.len() == 0 {
        assert(s =~= tail);
    } else {
        let p = ps[0];
        let others = ps.skip(1);
        assert(ps.drop_first() =~= others);
        let rest = others.flatten() + tail;
        assert(s =~= p + rest);
        lemma_skip_value(p, room, limit);
        skip_value_extend(p, rest, room, limit);
        lemma_no_end(p, room, limit);
        assert(s[0] == p[0]);
        assert(s.skip(p.len() as int) =~= rest);
        assert(skip_map(s, room, limit) == skip_entry(rest, room, limit).shift(p.len()));
        if ps.len() == 1 {
            assert(rest =~= tail);
        } else {
            let q = others[0];
            assert(q == ps[1]);
            let more = others.skip(1);
            assert(others.drop_first() =~= more);
            let left = more.flatten() + tail;
            assert(rest =~= q + left);
            lemma_skip_value(q, room, limit);
            skip_value_extend(q, left, room, limit);
            assert(rest.skip(q.len() as int) =~= left);
            assert forall|i: int| 0 <= i < more.len() implies skip_value(
                #[trigger] more[i],
                room,
                limit,
            ) == Parsed::Whole((), more[i].len()) by {
                assert(more[i] == ps[i + 2]);
            }
            lemma_map_skipped(more, tail, room, limit);
        }
    }
}

/// A stream is decoded where it holds one value, nothing behind it, and its source does not fail.
/// Otherwise the first thing that is wrong with it is the error.
pub proof fn streams_hold_one_value(bytes: Seq<u8>, fault: Option<Seq<char>>, max_depth: nat)
    ensures
        forall|m: Model|
            decoded(bytes, fault, max_depth) == Ok::<Model, Seq<char>>(m) <==> fault is None
                && parse_value(bytes, max_depth, max_depth) == Parsed::Whole(m, bytes.len()),
        parse_value(bytes, max_depth, max_depth) matches Parsed::Whole(_, n) ==> {
            &&& n <= bytes.len()
            &&& n < bytes.len() ==> decoded(bytes, fault, max_depth) == Err::<Model, Seq<char>>(
                "expected end of stream, found trailing bytes"@,
            )
            &&& n == bytes.len() && fault is Some ==> decoded(bytes, fault, max_depth) == Err::<
                Model,
                Seq<char>,
            >(fault->0)
        },
        parse_value(bytes, max_depth, max_depth) matches Parsed::Partial(stop) ==> decoded(
            bytes,
            fault,
            max_depth,
        ) == Err::<Model, Seq<char>>(fault.unwrap_or(stop.text)),
        parse_value(bytes, max_depth, max_depth) matches Parsed::Invalid(stop) ==> decoded(
            bytes,
            fault,
            max_depth,
        ) == Err::<Model, Seq<char>>(stop.text),
{
    lemma_parse_value(bytes, max_depth, max_depth);
}

/// A stream is skipped where it holds one value, nothing behind it, and its source does not fail.
/// Otherwise the first thing that is wrong with it is the error.
pub proof fn skipped_streams_hold_one_value(
    bytes: Seq<u8>,
    fault: Option<Seq<char>>,
    max_depth: nat,
)
    ensures
        ignored(bytes, fault, max_depth) is Ok <==> fault is None && skip_value(
            bytes,
            max_depth,
            max_depth,
        ) == Parsed::Whole((), bytes.len()),
        skip_value(bytes, max_depth, max_depth) matches Parsed::Whole(_, n) ==> {
            &&& n <= bytes.len()
            &&& n < bytes.len() ==> ignored(bytes, fault, max_depth) == Err::<(), Seq<char>>(
                "expected end of stream, found trailing bytes"@,
            )
            &&& n == bytes.len() && fault is Some ==> ignored(bytes, fault, max_depth) == Err::<
                (),
                Seq<char>,
            >(fault->0)
        },
        skip_value(bytes, max_depth, max_depth) matches Parsed::Partial(stop) ==> ignored(
            bytes,
            fault,
            max_depth,
        ) == Err::<(), Seq<char>>(fault.unwrap_or(stop.text)),
        skip_value(bytes, max_depth, max_depth) matches Parsed::Invalid(stop) ==> ignored(
            bytes,
            fault,
            max_depth,
        ) == Err::<(), Seq<char>>(stop.text),
{
    lemma_skip_value(bytes, max_depth, max_depth);
    if let Parsed::Whole(u, _) = skip_value(bytes, max_depth, max_depth) {
        assert(u == ());
    }
}

} // verus!
