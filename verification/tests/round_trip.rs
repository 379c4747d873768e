use std::collections::VecDeque;

use bytes::Bytes;
use tbon::constants::{
    Type, ARRAY_DELIMIT, ESCAPE, LIST_BEGIN, LIST_END, MAP_BEGIN, MAP_END, STRING_DELIMIT, TRUE,
};
use tbon::element::{F32, F64};
use tbon::en::encode;
use tbon::error::Error;
use tbon::read::{
    decode, decode_with_max_depth, flow_len, joined_len, try_decode, try_decode_with_max_depth, try_ignore,
    try_ignore_with_max_depth, Reader,
};
use tbon::value::Value;

fn chunks(bytes: &[u8], size: usize) -> VecDeque<Result<Bytes, Error>> {
    bytes
        .chunks(size.max(1))
        .map(|chunk| Ok(Bytes::copy_from_slice(chunk)))
        .collect()
}

fn decode_from_chunks(bytes: &[u8], size: usize) -> Result<Value, Error> {
    try_decode(chunks(bytes, size))
}

fn run_test(value: Value) {
    let bytes = encode(&value);
    let decoded = decode_from_chunks(&bytes, 4096).unwrap();
    assert_eq!(decoded, value);
}

fn chunk_sizes(bytes: &[u8]) -> std::ops::RangeInclusive<usize> {
    1..=bytes.len().clamp(1, 16)
}

fn assert_decode_bytes_fails(bytes: &[u8]) {
    for size in chunk_sizes(bytes) {
        assert!(decode_from_chunks(bytes, size).is_err());
        assert!(try_ignore(chunks(bytes, size)).is_err());
    }
}

fn text(s: &str) -> Value {
    Value::Text(s.to_string())
}

fn f64_value(f: f64) -> Value {
    Value::F64(F64(f.to_bits()))
}

fn u8_list(items: &[u8]) -> Value {
    Value::List(items.iter().map(|i| Value::U8(*i)).collect())
}

#[test]
fn test_encode_large_seq_no_stack_overflow() {
    let value = Value::List((0..100_000u64).map(Value::U64).collect());

    let encoded = encode(&value);
    assert!(!encoded.is_empty());
    assert_eq!(encoded[0], LIST_BEGIN);
    assert_eq!(encoded[encoded.len() - 1], LIST_END);
}

#[test]
fn test_encode_large_map_no_stack_overflow() {
    let value = Value::Dict(
        (0..50_000u64)
            .map(|i| (Value::U64(i), Value::U64(i + 1)))
            .collect(),
    );

    let encoded = encode(&value);
    assert!(!encoded.is_empty());
    assert_eq!(encoded[0], MAP_BEGIN);
    assert_eq!(encoded[encoded.len() - 1], MAP_END);
}

#[test]
fn test_decode_chunk_boundaries() {
    let value = Value::List(vec![
        Value::Bool(true),
        Value::I16(-1),
        f64_value(3.14),
        text("hello"),
        u8_list(&[1, 2, 3]),
    ]);

    let bytes = encode(&value);
    for size in chunk_sizes(&bytes) {
        let decoded = decode_from_chunks(&bytes, size).unwrap();
        assert_eq!(decoded, value);
    }
}

#[test]
fn test_decode_chunk_boundaries_with_escapes() {
    let value = Value::List(vec![
        text("this is a \"string\" within a \\ string"),
        Value::ArrayU8(vec![b'=', b'\\', 1, 2, b'=', b'\\']),
    ]);

    let bytes = encode(&value);
    for size in chunk_sizes(&bytes) {
        let decoded = decode_from_chunks(&bytes, size).unwrap();
        assert_eq!(decoded, value);
    }
}

#[test]
fn test_truncated_escape_fails() {
    assert_decode_bytes_fails(&[STRING_DELIMIT, ESCAPE]);
    assert_decode_bytes_fails(&[ARRAY_DELIMIT, Type::U8.to_u8(), ESCAPE]);
}

#[test]
fn test_unterminated_string_fails() {
    assert_decode_bytes_fails(&[STRING_DELIMIT, b'a', b'b']);
}

#[test]
fn test_invalid_utf8_string_fails() {
    let bytes = [STRING_DELIMIT, 0xFF, STRING_DELIMIT];
    for size in chunk_sizes(&bytes) {
        let e = decode_from_chunks(&bytes, size).unwrap_err();
        assert_eq!(
            e.message(),
            "invalid UTF-8: invalid utf-8 sequence of 1 bytes from index 0"
        );
    }
}

#[test]
fn test_malformed_arrays_fail() {
    // unknown array dtype
    let bytes = [ARRAY_DELIMIT, 0xFF];
    for size in chunk_sizes(&bytes) {
        let e = decode_from_chunks(&bytes, size).unwrap_err();
        assert_eq!(e.message(), "invalid type bit: 255");
    }

    // missing array end delimiter
    assert_decode_bytes_fails(&[ARRAY_DELIMIT, Type::U8.to_u8(), 1, 2, 3]);
}

#[test]
fn test_trailing_bytes_fail() {
    let bytes = [Type::Bool.to_u8(), TRUE, 0xFF, 0xFF];
    let result = decode_from_chunks(&bytes, 1);
    assert!(result.is_err());
    assert_eq!(
        result.unwrap_err().message(),
        "expected end of stream, found trailing bytes"
    );
}

#[test]
fn test_ignored_any_consumes_nested_values() {
    let value = Value::List(vec![
        Value::Dict(vec![(text("a"), u8_list(&[1, 2, 3, b'=', b'\\']))]),
        Value::List(vec![
            text("hello"),
            text("this is a \"string\" within a \\ string"),
        ]),
        Value::ArrayU8(vec![b'=', b'\\', 0, 1, 2, b'=', b'\\']),
        Value::Dict(vec![(
            text("nested"),
            Value::Dict(vec![(text("k"), u8_list(&[9, 8, 7]))]),
        )]),
    ]);

    let bytes = encode(&value);
    for size in chunk_sizes(&bytes) {
        assert!(try_ignore(chunks(&bytes, size)).is_ok());
    }
}

#[test]
fn test_decode_ignored_any_deep_nesting() {
    const DEPTH: usize = 2048;
    let mut bytes = vec![LIST_BEGIN; DEPTH];
    bytes.extend(vec![LIST_END; DEPTH]);

    assert!(try_ignore_with_max_depth(chunks(&bytes, 1), DEPTH + 1).is_ok());
}

#[test]
fn test_decode_reject_too_deep_nesting() {
    const DEPTH: usize = 1025;
    let mut bytes = vec![LIST_BEGIN; DEPTH];
    bytes.extend(vec![LIST_END; DEPTH]);

    assert!(try_ignore(chunks(&bytes, 1)).is_err());
}

#[test]
fn test_truncated_streams_fail() {
    let value = Value::List(vec![Value::Dict(vec![
        (text("a"), Value::U64(1)),
        (text("b"), Value::U64(2)),
    ])]);
    let bytes = encode(&value);

    let mut min_success = None;
    for i in 0..=bytes.len() {
        let result = decode_from_chunks(&bytes[..i], 1);
        if result.is_ok_and(|decoded| decoded == value) {
            min_success = Some(i);
            break;
        }
    }

    let min_success = min_success.expect("expected at least one successful decode");
    for i in 0..min_success {
        for size in [1usize, 2, 3, 7] {
            let result = decode_from_chunks(&bytes[..i], size);
            assert!(result.is_err(), "expected truncation to fail at {i}");
        }
    }
}

#[test]
fn test_corrupt_stream_fails() {
    let value = Value::List(vec![text("hello"), u8_list(&[1, 2, 3])]);
    let mut bytes = encode(&value);
    if let Some(first) = bytes.first_mut() {
        *first = 0xFF;
    }

    assert!(decode_from_chunks(&bytes, 3).is_err());
}

#[test]
fn test_primitives() {
    run_test(Value::Bool(true));
    run_test(Value::Bool(false));

    for u in 0..66000u64 {
        run_test(Value::U64(u));
    }

    for i in -66000..66000i64 {
        run_test(Value::I64(i));
    }

    let mut seed: u32 = 1;
    for _ in 0..100000 {
        seed = seed.wrapping_mul(1664525).wrapping_add(1013904223);
        let f: f32 = (seed >> 8) as f32 / 16777216.0;
        run_test(Value::F32(F32(f.to_bits())));
    }
}

fn recode(value: Value) -> Value {
    decode_from_chunks(&encode(&value), 3).unwrap()
}

fn recode_f32(f: f32) -> f32 {
    match recode(Value::F32(F32(f.to_bits()))) {
        Value::F32(bits) => f32::from_bits(bits.0),
        other => panic!("not a number: {other:?}"),
    }
}

fn recode_f64(f: f64) -> f64 {
    match recode(Value::F64(F64(f.to_bits()))) {
        Value::F64(bits) => f64::from_bits(bits.0),
        other => panic!("not a number: {other:?}"),
    }
}

#[test]
fn test_undefined_numbers() {
    assert!(recode_f32(f32::NAN).is_nan());

    let inf = recode_f32(f32::INFINITY);
    assert!(inf.is_infinite() && inf.is_sign_positive());

    let inf = recode_f32(f32::NEG_INFINITY);
    assert!(inf.is_infinite() && inf.is_sign_negative());

    assert!(recode_f64(f64::NAN).is_nan());

    let inf = recode_f64(f64::INFINITY);
    assert!(inf.is_infinite() && inf.is_sign_positive());

    let inf = recode_f64(f64::NEG_INFINITY);
    assert!(inf.is_infinite() && inf.is_sign_negative());
}

#[test]
fn test_strings() {
    run_test(text("hello world"));
    run_test(text("Привет, мир"));
    run_test(text("this is a \"string\" within a \\ string"));
    run_test(text("this \"string\" is \\\terminated by a \\"));
}

#[test]
fn test_compound() {
    run_test(Value::List(vec![text("hello"), text("world")]));

    run_test(Value::Dict(vec![(
        Value::I32(-1),
        text("\' \"\"     "),
    )]));

    run_test(Value::Dict(vec![
        (text("one"), Value::Dict(vec![])),
        (
            text("two"),
            Value::Dict(vec![(text("three"), Value::F32(F32(4f32.to_bits())))]),
        ),
    ]));
}

#[test]
fn test_tuple() {
    run_test(Value::List(vec![u8_list(&[]), Value::Dict(vec![])]));

    let bytes: Vec<u8> = (0..255).collect();
    run_test(Value::List(vec![
        Value::Bool(true),
        Value::I16(-1),
        f64_value(3.14),
        text(" hello \"world\""),
        u8_list(&bytes),
    ]));

    run_test(Value::List(vec![
        Value::Bool(true),
        Value::List(vec![]),
        Value::Unit,
        Value::List(vec![]),
        Value::Bool(false),
    ]));

    run_test(Value::List(vec![
        Value::ArrayU8(vec![1, 2, 3]),
        Value::Dict(vec![]),
    ]));
}

#[test]
fn test_bytes() {
    run_test(Value::ArrayU8(vec![1, 2, 3]));
}

#[test]
fn test_uuid() {
    run_test(Value::ArrayU8(vec![0; 16]));
}

#[test]
fn every_scalar_is_read_back() {
    run_test(Value::Unit);
    for i in [i8::MIN, -1, 0, 1, i8::MAX] {
        run_test(Value::I8(i));
    }
    for i in [i16::MIN, -1, 0, 1, i16::MAX] {
        run_test(Value::I16(i));
    }
    for i in [i32::MIN, -1, 0, 1, i32::MAX] {
        run_test(Value::I32(i));
    }
    for i in [i64::MIN, -1, 0, 1, i64::MAX] {
        run_test(Value::I64(i));
    }
    for u in 0..=u8::MAX {
        run_test(Value::U8(u));
    }
    for u in [0, 1, u16::MAX] {
        run_test(Value::U16(u));
    }
    for u in [0, 1, u32::MAX] {
        run_test(Value::U32(u));
    }
    run_test(Value::U64(u64::MAX));
}

#[test]
fn every_array_is_read_back() {
    run_test(Value::ArrayBool(vec![true, false, true]));
    run_test(Value::ArrayI16(vec![-1, 0, 61, 92, i16::MIN]));
    run_test(Value::ArrayI32(vec![-1, 0x3D3D_3D3D, 0x5C5C_5C5C]));
    run_test(Value::ArrayI64(vec![i64::MIN, i64::MAX]));
    run_test(Value::ArrayU8((0..=255).collect()));
    run_test(Value::ArrayU16(vec![0x3D5C, 0x5C3D]));
    run_test(Value::ArrayU32(vec![u32::MAX, 0]));
    run_test(Value::ArrayU64(vec![u64::MAX, 0]));
    run_test(Value::ArrayF32(vec![F32(1.5f32.to_bits())]));
    run_test(Value::ArrayF64(vec![F64(1.5f64.to_bits()), F64(0)]));
    run_test(Value::ArrayU8(vec![]));
}

#[test]
fn bytes_of_values() {
    assert_eq!(encode(&Value::Unit), [0]);
    assert_eq!(encode(&Value::Bool(true)), [1, 1]);
    assert_eq!(encode(&Value::I16(-2)), [5, 0xFF, 0xFE]);
    assert_eq!(encode(&Value::U32(0x01020304)), [10, 1, 2, 3, 4]);
    assert_eq!(encode(&text("a\"\\")), *b"\"a\\\"\\\\\"");
    assert_eq!(
        encode(&Value::ArrayU8(vec![1, b'=', b'\\'])),
        [b'=', 8, 1, b'\\', b'=', b'\\', b'\\', b'=']
    );
    assert_eq!(
        encode(&Value::List(vec![Value::Unit, Value::List(vec![])])),
        [b'[', 0, b'[', b']', b']']
    );
    assert_eq!(
        encode(&Value::Dict(vec![(Value::Bool(false), Value::Unit)])),
        [b'{', 1, 0, 0, b'}']
    );
}

#[test]
fn needless_escapes_are_understood() {
    let decoded = decode_from_chunks(b"\"\\a\\b\"", 2).unwrap();
    assert_eq!(decoded, text("ab"));
}

#[test]
fn duplicate_keys_are_kept_in_order() {
    run_test(Value::Dict(vec![
        (Value::U8(1), Value::U8(2)),
        (Value::U8(1), Value::U8(3)),
    ]));
}

#[test]
fn keys_need_values() {
    let e = decode_from_chunks(&[MAP_BEGIN, 0, MAP_END], 1).unwrap_err();
    assert_eq!(e.message(), "invalid type bit: 125");
    let e = try_ignore(chunks(&[MAP_BEGIN, 0, MAP_END], 1)).unwrap_err();
    assert_eq!(e.message(), "invalid type bit: 125");
}

#[test]
fn arrays_of_signed_bytes_can_only_be_ignored() {
    let bytes = encode(&Value::ArrayI8(vec![-1, 61]));
    let e = decode_from_chunks(&bytes, 1).unwrap_err();
    assert_eq!(e.message(), "invalid type: i8, expected a supported array type");
    assert!(try_ignore(chunks(&bytes, 1)).is_ok());
}

#[test]
fn arrays_of_units_are_refused() {
    let e = decode_from_chunks(&[b'=', 0, b'='], 1).unwrap_err();
    assert_eq!(
        e.message(),
        "invalid type: none, expected a supported array type"
    );
}

#[test]
fn arrays_hold_whole_elements() {
    let e = decode_from_chunks(&[b'=', 9, 1, 2, 3, b'='], 1).unwrap_err();
    assert_eq!(e.message(), "invalid length: 1, expected u16");
    let e = decode_from_chunks(&[b'=', 1, 1, 7, b'='], 1).unwrap_err();
    assert_eq!(e.message(), "invalid value: 7, expected a boolean");
}

#[test]
fn limit_on_nesting() {
    let nested = b"[[[]]]";
    assert!(try_decode_with_max_depth(chunks(nested, 1), 3).is_ok());
    let e = try_decode_with_max_depth(chunks(nested, 1), 2).unwrap_err();
    assert_eq!(e.message(), "nesting depth limit exceeded (max 2)");
    let e = try_ignore_with_max_depth(chunks(nested, 1), 2).unwrap_err();
    assert_eq!(e.message(), "nesting depth limit exceeded (max 2)");
    assert!(try_decode_with_max_depth(chunks(&[0], 1), 0).is_ok());
    assert!(try_decode_with_max_depth(chunks(b"{}", 1), 0).is_err());
}

#[test]
fn limit_on_nesting_by_default() {
    let mut bytes = vec![LIST_BEGIN; 1024];
    bytes.extend(vec![LIST_END; 1024]);
    assert!(decode_from_chunks(&bytes, 100).is_ok());
    bytes.insert(0, LIST_BEGIN);
    bytes.push(LIST_END);
    let e = decode_from_chunks(&bytes, 100).unwrap_err();
    assert_eq!(e.message(), "nesting depth limit exceeded (max 1024)");
}

#[test]
fn lists_side_by_side_do_not_count_as_nested() {
    assert!(try_decode_with_max_depth(chunks(b"[[][][]{}{}]", 1), 2).is_ok());
    assert!(try_ignore_with_max_depth(chunks(b"[[][][]{}{}]", 1), 2).is_ok());
}

#[test]
fn errors_of_the_source_come_through() {
    let broken = |bytes: &[u8]| {
        let mut source = chunks(bytes, 1);
        source.push_back(Err(Error::custom("connection lost".to_string())));
        source
    };
    let e = try_decode(broken(b"\"ab")).unwrap_err();
    assert_eq!(e.message(), "connection lost");
    let e = try_decode(broken(&[0])).unwrap_err();
    assert_eq!(e.message(), "connection lost");
    let e = try_ignore(broken(b"[")).unwrap_err();
    assert_eq!(e.message(), "connection lost");
    let e = try_decode(broken(&[0xFF])).unwrap_err();
    assert_eq!(e.message(), "invalid type bit: 255");
    let e = try_decode(broken(&[0, 0])).unwrap_err();
    assert_eq!(e.message(), "expected end of stream, found trailing bytes");
}

#[test]
fn streams_without_errors() {
    let whole = || VecDeque::from([Bytes::from_static(b"[\"a"), Bytes::from_static(b"b\"]")]);
    assert_eq!(decode(whole()).unwrap(), Value::List(vec![text("ab")]));
    assert!(decode_with_max_depth(whole(), 1).is_ok());
    let e = decode_with_max_depth(whole(), 0).unwrap_err();
    assert_eq!(e.message(), "nesting depth limit exceeded (max 0)");
}

#[test]
fn empty_chunks_are_no_end() {
    let mut source = VecDeque::new();
    for chunk in [&b""[..], b"[", b"", b"]", b""] {
        source.push_back(Bytes::from_static(chunk));
    }
    assert_eq!(decode(source).unwrap(), Value::List(vec![]));
}

#[test]
fn nothing_is_no_value() {
    let e = decode(VecDeque::new()).unwrap_err();
    assert_eq!(e.message(), "unexpected end of stream");
    let e = try_ignore(VecDeque::new()).unwrap_err();
    assert_eq!(e.message(), "unexpected end of stream");
}

#[test]
fn short_numbers() {
    let e = decode_from_chunks(&[10, 1, 2], 1).unwrap_err();
    assert_eq!(e.message(), "invalid length: 3, expected u32");
    let e = try_ignore(chunks(&[10, 1, 2], 1)).unwrap_err();
    assert_eq!(e.message(), "invalid length: 3, expected u32");
}

#[test]
fn lone_array_delimiter() {
    let e = decode_from_chunks(b"=", 1).unwrap_err();
    assert_eq!(e.message(), "unexpected end of stream");
}

#[test]
fn long_text_is_skipped_across_chunks() {
    let mut long = "x\\\"".repeat(5000);
    long.push('\\');
    let value = Value::List(vec![text(&long), Value::ArrayU8(vec![b'='; 10_000])]);
    let bytes = encode(&value);
    for size in [1, 7, 4096, 4097, 4098, bytes.len()] {
        assert!(try_ignore(chunks(&bytes, size)).is_ok());
        assert_eq!(decode_from_chunks(&bytes, size).unwrap(), value);
    }
}

#[test]
fn encodings_differ_and_none_begins_another() {
    let values = [
        Value::Unit,
        Value::Bool(false),
        Value::U8(1),
        Value::I8(1),
        Value::U16(1),
        text(""),
        text("a"),
        text("\"a"),
        Value::ArrayU8(vec![]),
        Value::ArrayU8(vec![0]),
        Value::ArrayU16(vec![]),
        Value::List(vec![]),
        Value::List(vec![Value::Unit]),
        Value::List(vec![Value::List(vec![])]),
        Value::Dict(vec![]),
        Value::Dict(vec![(Value::Unit, Value::Unit)]),
    ];
    for (i, a) in values.iter().enumerate() {
        for (j, b) in values.iter().enumerate() {
            assert_eq!(encode(b).starts_with(&encode(a)), i == j);
        }
    }
}

#[test]
fn a_higher_limit_reads_the_same() {
    let bytes = b"[{\"k\"[]}\"v\"]";
    let lowest = try_decode_with_max_depth(chunks(bytes, 1), 3).unwrap();
    for limit in 4..9 {
        assert_eq!(try_decode_with_max_depth(chunks(bytes, 1), limit).unwrap(), lowest);
    }
    assert!(try_decode_with_max_depth(chunks(bytes, 1), 2).is_err());
}

#[test]
fn several_values_in_one() {
    run_test(Value::List(vec![
        text("one"),
        f64_value(2.0),
        Value::List(vec![Value::I32(3), Value::I32(4)]),
        Value::ArrayU8(vec![5]),
    ]));
    run_test(Value::List(vec![
        Value::List(vec![text("one"), f64_value(2.0)]),
        Value::List(vec![text("two"), f64_value(3.0)]),
    ]));
}

#[test]
fn lengths_of_streams() {
    let mut source = chunks(b"abcde", 2);
    assert_eq!(flow_len(&source), Some(5));
    source.push_back(Err(Error::custom("broken".to_string())));
    source.push_back(Ok(Bytes::from_static(b"more")));
    assert_eq!(flow_len(&source), Some(5));
    assert_eq!(flow_len(&VecDeque::new()), Some(0));
    let whole = VecDeque::from([Bytes::from_static(b"abc"), Bytes::from_static(b"de")]);
    assert_eq!(joined_len(&whole), Some(5));
}

#[test]
fn readers_halt_where_the_source_breaks_off() {
    let mut source = chunks(b"[[", 1);
    source.push_back(Err(Error::custom("broken".to_string())));
    source.push_back(Ok(Bytes::from_static(b"]]")));
    let mut reader = Reader::new(source, 5);
    assert_eq!(reader.read_value().unwrap_err().message(), "broken");

    let mut reader = Reader::new(chunks(&[0, 0], 1), 5);
    assert_eq!(reader.read_value().unwrap(), Value::Unit);
    assert_eq!(
        reader.ensure_eof().unwrap_err().message(),
        "expected end of stream, found trailing bytes"
    );
    assert!(reader.ignore_value().is_ok());
    assert!(reader.ensure_eof().is_ok());
}

#[test]
fn readers_go_on_where_they_have_stopped() {
    let broken = |before: &'static [u8], after: &'static [u8]| {
        VecDeque::from([
            Ok(Bytes::from_static(before)),
            Err(Error::custom("broken".to_string())),
            Ok(Bytes::from_static(after)),
        ])
    };

    // A number stays unread until all of it is there.
    let mut reader = Reader::new(broken(&[5, 1], &[2]), 5);
    assert_eq!(reader.read_value().unwrap_err().message(), "broken");
    assert_eq!(reader.read_value().unwrap(), Value::I16(258));
    assert!(reader.ensure_eof().is_ok());

    // The opening byte of a string is gone.
    let mut reader = Reader::new(broken(&[b'"', 0], &[0]), 5);
    assert_eq!(reader.read_value().unwrap_err().message(), "broken");
    assert_eq!(reader.read_value().unwrap(), Value::Unit);
    assert!(reader.ignore_value().is_ok());
    assert!(reader.ensure_eof().is_ok());

    // The opening byte of an array that is skipped is gone, that of one that is read is not.
    let mut reader = Reader::new(broken(b"=", &[8, b'=']), 5);
    assert_eq!(reader.ignore_value().unwrap_err().message(), "broken");
    assert_eq!(reader.read_value().unwrap(), Value::U8(b'='));
    let mut reader = Reader::new(broken(b"=", &[8, b'=']), 5);
    assert_eq!(reader.read_value().unwrap_err().message(), "broken");
    assert_eq!(reader.read_value().unwrap(), Value::ArrayU8(vec![]));

    // Lists that were open stay open.
    let mut reader = Reader::new(broken(b"[", b"["), 1);
    assert_eq!(reader.read_value().unwrap_err().message(), "broken");
    assert_eq!(
        reader.read_value().unwrap_err().message(),
        "nesting depth limit exceeded (max 1)"
    );
    assert!(reader.ensure_eof().is_ok());

    // A type bit is gone where what follows it is wrong.
    let mut reader = Reader::new(chunks(&[1, b'"', b'a', b'"'], 1), 5);
    assert_eq!(
        reader.read_value().unwrap_err().message(),
        "invalid value: 34, expected a boolean"
    );
    assert_eq!(reader.read_value().unwrap(), text("a"));
}
