use bytes::Bytes;
use tbon::access::{ArrayAccess, MapAccess, Opening, Piece, SeqAccess};
use tbon::constants::Type;
use tbon::de::{Decoder, Lead, Step, COMPACT_LEN, DEFAULT_MAX_DEPTH};
use tbon::element::{F32, F64};
use tbon::en::encode;
use tbon::error::Error;
use tbon::escape::{Scan, Skim, SKIP_LEN};
use tbon::skip::Skip;
use tbon::value::Value;

fn open(bytes: &[u8]) -> Decoder {
    let mut decoder = Decoder::with_max_depth(DEFAULT_MAX_DEPTH);
    decoder.extend(bytes);
    decoder
}

fn closed(bytes: &[u8]) -> Decoder {
    let mut decoder = open(bytes);
    assert!(decoder.buffer(None).is_ok());
    decoder
}

fn failure<T>(step: Step<Result<T, Error>>) -> String {
    match step {
        Step::Done(Err(e)) => e.message().to_string(),
        _ => panic!("expected an error"),
    }
}

#[test]
fn bytes_arrive_and_are_consumed() {
    let mut decoder = open(b"ab");
    assert_eq!(decoder.remaining(), 2);
    assert!(!decoder.is_terminated());
    decoder.consume(1);
    assert_eq!(decoder.available(), b"b");
    let chunk = Bytes::from_static(b"cd");
    assert!(decoder.has_room(&chunk));
    assert!(decoder.buffer(Some(Ok(chunk))).is_ok());
    assert_eq!(decoder.available(), b"bcd");
    let e = decoder.buffer(Some(Err(Error::custom("broken".to_string()))));
    assert_eq!(e.unwrap_err().message(), "broken");
    assert_eq!(decoder.available(), b"bcd");
    assert!(decoder.buffer(None).is_ok());
    assert!(decoder.is_terminated());
}

#[test]
fn compaction_keeps_what_has_not_been_consumed() {
    let bytes: Vec<u8> = (0..20_000u32).map(|i| (i % 251) as u8).collect();
    let mut decoder = open(&bytes);
    decoder.consume(COMPACT_LEN);
    decoder.maybe_compact();
    assert_eq!(decoder.available(), &bytes[COMPACT_LEN..]);
    decoder.consume(5000);
    assert_eq!(decoder.available(), &bytes[COMPACT_LEN + 5000..]);
    decoder.extend(b"end");
    assert_eq!(decoder.remaining(), 20_000 - COMPACT_LEN - 5000 + 3);
    decoder.consume(decoder.remaining());
    assert_eq!(decoder.available(), b"");
}

#[test]
fn depth_is_limited() {
    let mut decoder = Decoder::with_max_depth(1);
    assert_eq!(decoder.max_depth(), 1);
    assert!(decoder.push_depth().is_ok());
    assert_eq!(decoder.depth(), 1);
    assert_eq!(
        decoder.push_depth().unwrap_err().message(),
        "nesting depth limit exceeded (max 1)"
    );
    decoder.pop_depth();
    assert_eq!(decoder.depth(), 0);
}

#[test]
fn contents_are_shown() {
    assert_eq!(open(b"plain").contents(10), "plain");
    assert_eq!(open(b"plain").contents(3), "pla");
    assert_eq!(open(&[b'a', 200, 255, b'b']).contents(10), "a 200  255 b");
    assert_eq!(open(b"").contents(10), "");
}

#[test]
fn delimiters_are_expected() {
    let mut decoder = closed(b"[x");
    assert!(matches!(decoder.expect_delimiter(b'['), Step::Done(Ok(()))));
    assert_eq!(
        failure(decoder.expect_delimiter(b'[')),
        "unexpected delimiter x, expected [ at x"
    );
    assert_eq!(decoder.available(), b"x");

    let mut decoder = open(&[7, 128, b'0', b'1', b'2', b'3', b'4', b'5', b'6', b'7', b'8']);
    assert_eq!(
        failure(decoder.expect_delimiter(3)),
        "unexpected delimiter 7, expected 3 at \u{7} 128 01234567"
    );
    assert!(matches!(open(b"").expect_delimiter(b'['), Step::Read));
    assert_eq!(
        failure(closed(b"").expect_delimiter(b'[')),
        "unexpected end of stream"
    );
}

#[test]
fn delimiters_may_come() {
    let mut decoder = closed(b"]x");
    assert!(matches!(decoder.maybe_delimiter(b']'), Step::Done(true)));
    assert!(matches!(decoder.maybe_delimiter(b']'), Step::Done(false)));
    assert_eq!(decoder.available(), b"x");
    assert!(matches!(open(b"").maybe_delimiter(b']'), Step::Read));
    assert!(matches!(closed(b"").maybe_delimiter(b']'), Step::Done(false)));
}

#[test]
fn end_of_stream_is_checked() {
    assert!(matches!(open(b"").ensure_eof(), Step::Read));
    assert!(matches!(closed(b"").ensure_eof(), Step::Done(Ok(()))));
    assert_eq!(
        failure(open(b"x").ensure_eof()),
        "expected end of stream, found trailing bytes"
    );
}

#[test]
fn elements_are_parsed() {
    let mut decoder = open(&[9, 1]);
    assert!(matches!(decoder.parse_element::<u16>(), Step::Read));
    decoder.extend(&[2, 99]);
    assert!(matches!(
        decoder.parse_element::<u16>(),
        Step::Done(Ok(0x0102))
    ));
    assert_eq!(decoder.available(), &[99]);

    let mut decoder = open(&encode(&Value::F64(F64(f64::to_bits(-0.5)))));
    match decoder.parse_element::<F64>() {
        Step::Done(Ok(bits)) => assert_eq!(f64::from_bits(bits.0), -0.5),
        _ => panic!("expected a number"),
    }
    let mut decoder = open(&encode(&Value::F32(F32(f32::to_bits(2.5)))));
    match decoder.parse_element::<F32>() {
        Step::Done(Ok(bits)) => assert_eq!(f32::from_bits(bits.0), 2.5),
        _ => panic!("expected a number"),
    }
}

#[test]
fn wrong_elements_are_refused() {
    assert_eq!(
        failure(open(&[8, 1]).parse_element::<bool>()),
        "invalid type: u8, expected bool"
    );
    assert_eq!(
        failure(open(&[200, 1]).parse_element::<bool>()),
        "invalid value: 200, expected a TBON type bit"
    );
    assert_eq!(
        failure(open(&[1, 7]).parse_element::<bool>()),
        "invalid value: 7, expected a boolean"
    );
    assert_eq!(
        failure(closed(&[10]).parse_element::<u32>()),
        "invalid length: 1, expected u32"
    );
}

#[test]
fn units_are_parsed() {
    let mut decoder = closed(&[0, 1, 77]);
    assert!(matches!(decoder.parse_unit(), Step::Done(Ok(()))));
    assert_eq!(failure(decoder.parse_unit()), "invalid type: bool, expected none");
    assert_eq!(
        failure(decoder.parse_unit()),
        "invalid type: (unknown), expected none"
    );
    assert_eq!(failure(decoder.parse_unit()), "unexpected end of stream");
    assert!(matches!(open(b"").parse_unit(), Step::Read));
}

#[test]
fn strings_are_parsed_as_they_arrive() {
    let mut decoder = open(b"");
    let mut scan = Scan::new();
    for b in b"\"a\\\"\\\\b" {
        assert!(matches!(decoder.parse_string(&mut scan), Step::Read));
        decoder.extend(&[*b]);
    }
    assert!(matches!(decoder.parse_string(&mut scan), Step::Read));
    decoder.extend(b"\"rest");
    match decoder.parse_string(&mut scan) {
        Step::Done(Ok(s)) => assert_eq!(s, "a\"\\b"),
        _ => panic!("expected a string"),
    }
    assert_eq!(decoder.available(), b"rest");
}

#[test]
fn wrong_strings_are_refused() {
    let parse = |bytes: &[u8]| failure(closed(bytes).parse_string(&mut Scan::new()));
    assert_eq!(parse(b""), "unexpected end of stream");
    assert_eq!(parse(b"\"ab"), "unexpected end of stream");
    assert_eq!(parse(b"\"ab\\\""), "unexpected end of stream");
    assert_eq!(parse(b"x"), "unexpected delimiter x, expected \" at x");
    assert_eq!(
        parse(&[b'"', b'a', 0xC3, b'"']),
        "invalid UTF-8: incomplete utf-8 byte sequence from index 1"
    );
}

#[test]
fn delimited_text_is_unescaped() {
    let mut decoder = open(b"<a\\>b>c");
    match decoder.buffer_string(&mut Scan::new(), b'<', b'>') {
        Step::Done(Ok(data)) => assert_eq!(&data[..], b"a>b"),
        _ => panic!("expected text"),
    }
    assert_eq!(decoder.available(), b"c");
}

#[test]
fn options_are_told_apart() {
    let mut decoder = closed(&[0, 1, 1]);
    assert!(matches!(decoder.decode_option(), Step::Done(Ok(false))));
    assert!(matches!(decoder.decode_option(), Step::Done(Ok(true))));
    assert_eq!(decoder.remaining(), 2);
    assert_eq!(failure(closed(b"").decode_option()), "unexpected end of stream");
    assert!(matches!(open(b"").decode_option(), Step::Read));
}

#[test]
fn leads_are_told_apart() {
    let lead = |bytes: &[u8]| match open(bytes).decode_any() {
        Step::Done(Ok(lead)) => lead,
        _ => panic!("expected a value"),
    };
    assert_eq!(lead(b"[]"), Lead::List);
    assert_eq!(lead(b"{"), Lead::Dict);
    assert_eq!(lead(b"\"a"), Lead::Text);
    assert_eq!(lead(&[b'=', 8]), Lead::Array(Type::U8));
    assert_eq!(lead(&[0]), Lead::Scalar(Type::Unit));
    assert_eq!(lead(&[4]), Lead::Scalar(Type::I8));
    assert!(matches!(open(b"").decode_any(), Step::Read));
    assert!(matches!(open(b"=").decode_any(), Step::Read));
    assert_eq!(failure(closed(b"=").decode_any()), "unexpected end of stream");
    assert_eq!(failure(open(&[99]).decode_any()), "invalid type bit: 99");
    assert_eq!(failure(open(&[b'=', 99]).decode_any()), "invalid type bit: 99");
}

#[test]
fn types_have_bits_and_names() {
    for code in 0..=255u8 {
        match Type::from_u8(code) {
            Some(t) => assert_eq!(t.to_u8(), code),
            None => assert!(code > 11),
        }
    }
    assert_eq!(Type::Unit.name(), "none");
    assert_eq!(Type::U64.name(), "u64");
    assert_eq!(Type::U64.to_u8(), 11);
}

/// Reads all of an array, `max` elements at a time, from chunks of `size` bytes.
fn read_in_pieces(bytes: &[u8], size: usize, max: usize) -> Result<Vec<i16>, Error> {
    let mut decoder = Decoder::with_max_depth(DEFAULT_MAX_DEPTH);
    let mut chunks = bytes.chunks(size);
    let mut more = |decoder: &mut Decoder| {
        let event = chunks.next().map(|c| Ok(Bytes::copy_from_slice(c)));
        assert!(decoder.buffer(event).is_ok());
    };
    let mut stage = Opening::Begin;
    let mut access = loop {
        match ArrayAccess::<i16>::new(&mut decoder, &mut stage) {
            Step::Read => more(&mut decoder),
            Step::Done(r) => break r?,
        }
    };
    let mut items = Vec::new();
    loop {
        let mut piece = Piece::new(max);
        let values = loop {
            match access.buffer(&mut decoder, &mut piece) {
                Step::Read => more(&mut decoder),
                Step::Done(r) => break r?,
            }
        };
        assert!(values.len() <= max);
        if values.is_empty() {
            assert!(access.is_done());
            return Ok(items);
        }
        items.extend(values);
    }
}

#[test]
fn test_array() {
    let data: Vec<i16> = (0..512).collect();
    let bytes = encode(&Value::ArrayI16(data.clone()));
    for size in [1, 2, 3, 100, bytes.len()] {
        for max in [1, 2, 100, 511, 512, 513] {
            assert_eq!(read_in_pieces(&bytes, size, max).unwrap(), data);
        }
    }
}

#[test]
fn empty_arrays_have_no_elements() {
    assert_eq!(read_in_pieces(&[b'=', 5, b'='], 1, 7).unwrap(), []);
}

#[test]
fn wrong_arrays_are_refused() {
    let message = |bytes: &[u8]| read_in_pieces(bytes, 1, 2).unwrap_err().message().to_string();
    assert_eq!(message(b"="), "unexpected end of stream");
    assert_eq!(message(&[b'=', 5]), "unexpected end of stream");
    assert_eq!(message(&[b'=', 5, 0]), "unexpected end of stream");
    assert_eq!(message(&[b'=', 5, 0, 1]), "unexpected end of stream");
    assert_eq!(message(&[b'=', 5, 0, 1, 0, 2]), "unexpected end of stream");
    assert_eq!(message(&[b'=', 5, 0, b'=']), "invalid length: 1, expected i16");
    assert_eq!(message(b"x"), "unexpected delimiter x, expected = at x");
    assert_eq!(
        message(&[b'=', 8, 0]),
        "unexpected delimiter 8, expected 5 at \u{8}"
    );
}

#[test]
fn pieces_of_no_size_are_empty() {
    let mut decoder = closed(&[b'=', 8, 1, b'=']);
    let mut access = match ArrayAccess::<u8>::new(&mut decoder, &mut Opening::Begin) {
        Step::Done(Ok(access)) => access,
        _ => panic!("expected an array"),
    };
    match access.buffer(&mut decoder, &mut Piece::new(0)) {
        Step::Done(Ok(values)) => assert!(values.is_empty()),
        _ => panic!("expected a piece"),
    }
    assert!(!access.is_done());
    match access.buffer(&mut decoder, &mut Piece::new(9)) {
        Step::Done(Ok(values)) => assert_eq!(values, [1]),
        _ => panic!("expected a piece"),
    }
    assert!(access.is_done());
    assert_eq!(decoder.remaining(), 0);
}

#[test]
fn lists_are_read_element_by_element() {
    let mut decoder = closed(&[b'[', 0, 0, b']']);
    let mut access = match SeqAccess::new(&mut decoder, &mut Opening::Begin, Some(2)) {
        Step::Done(Ok(access)) => access,
        _ => panic!("expected a list"),
    };
    assert_eq!(access.size_hint(), Some(2));
    assert_eq!(decoder.depth(), 1);
    let mut count = 0;
    while access.next_element() {
        assert!(matches!(decoder.parse_unit(), Step::Done(Ok(()))));
        assert!(matches!(access.end_element(&mut decoder), Step::Done(())));
        count += 1;
    }
    assert_eq!(count, 2);
    assert_eq!(decoder.depth(), 0);
    assert_eq!(decoder.remaining(), 0);
}

#[test]
fn maps_are_read_key_by_key() {
    let mut decoder = closed(&[b'{', 0, 0, b'}']);
    let mut access = match MapAccess::new(&mut decoder, &mut Opening::Begin, None) {
        Step::Done(Ok(access)) => access,
        _ => panic!("expected a map"),
    };
    assert_eq!(access.size_hint(), None);
    assert!(access.next_key());
    assert!(matches!(decoder.parse_unit(), Step::Done(Ok(()))));
    assert!(access.next_value().is_ok());
    assert!(matches!(decoder.parse_unit(), Step::Done(Ok(()))));
    assert!(matches!(access.end_value(&mut decoder), Step::Done(())));
    assert!(!access.next_key());
    assert_eq!(
        access.next_value().unwrap_err().message(),
        "called MapAccess::next_value but the map has already ended"
    );
    assert_eq!(decoder.depth(), 0);
}

#[test]
fn empty_lists_and_maps_are_closed_at_once() {
    let mut decoder = closed(b"[]{}");
    match SeqAccess::new(&mut decoder, &mut Opening::Begin, None) {
        Step::Done(Ok(access)) => assert!(!access.next_element()),
        _ => panic!("expected a list"),
    }
    match MapAccess::new(&mut decoder, &mut Opening::Begin, None) {
        Step::Done(Ok(access)) => assert!(!access.next_key()),
        _ => panic!("expected a map"),
    }
    assert_eq!(decoder.depth(), 0);
    assert!(matches!(decoder.ensure_eof(), Step::Done(Ok(()))));
}

#[test]
fn lists_wait_for_what_follows_their_beginning() {
    let mut decoder = open(b"[");
    let mut stage = Opening::Begin;
    assert!(matches!(SeqAccess::new(&mut decoder, &mut stage, None), Step::Read));
    assert_eq!(stage, Opening::Content);
    assert_eq!(decoder.remaining(), 0);
    assert_eq!(decoder.depth(), 1);
    decoder.extend(b"]x");
    match SeqAccess::new(&mut decoder, &mut stage, None) {
        Step::Done(Ok(access)) => assert!(!access.next_element()),
        _ => panic!("expected a list"),
    }
    assert_eq!(decoder.depth(), 0);
    assert_eq!(decoder.available(), b"x");

    assert_eq!(
        failure(SeqAccess::new(&mut open(b"{"), &mut Opening::Begin, None)),
        "unexpected delimiter {, expected [ at {"
    );
    let mut shallow = Decoder::with_max_depth(0);
    shallow.extend(b"[");
    assert_eq!(
        failure(SeqAccess::new(&mut shallow, &mut Opening::Begin, None)),
        "nesting depth limit exceeded (max 0)"
    );
    assert_eq!(shallow.remaining(), 0);
}

#[test]
fn arrays_wait_behind_what_they_have_consumed() {
    let mut decoder = open(b"=");
    let mut stage = Opening::Begin;
    assert!(matches!(ArrayAccess::<u8>::new(&mut decoder, &mut stage), Step::Read));
    assert_eq!((stage, decoder.remaining()), (Opening::Dtype, 0));
    decoder.extend(&[8]);
    assert!(matches!(ArrayAccess::<u8>::new(&mut decoder, &mut stage), Step::Read));
    assert_eq!((stage, decoder.remaining()), (Opening::Content, 0));
    decoder.extend(&[1, 2]);
    let mut access = match ArrayAccess::<u8>::new(&mut decoder, &mut stage) {
        Step::Done(Ok(access)) => access,
        _ => panic!("expected an array"),
    };
    let mut piece = Piece::new(2);
    assert!(matches!(access.buffer(&mut decoder, &mut piece), Step::Read));
    assert_eq!(decoder.remaining(), 0);
    decoder.extend(b"=x");
    match access.buffer(&mut decoder, &mut piece) {
        Step::Done(Ok(values)) => assert_eq!(values, [1, 2]),
        _ => panic!("expected a piece"),
    }
    assert!(access.is_done());
    assert_eq!(decoder.available(), b"x");
}

#[test]
fn pieces_are_lost_where_the_source_fails() {
    let mut decoder = open(&[b'=', 8, 1, 2, 3]);
    let mut access = match ArrayAccess::<u8>::new(&mut decoder, &mut Opening::Begin) {
        Step::Done(Ok(access)) => access,
        _ => panic!("expected an array"),
    };
    assert!(matches!(access.buffer(&mut decoder, &mut Piece::new(3)), Step::Read));
    assert_eq!(decoder.remaining(), 0);
    let e = decoder.buffer(Some(Err(Error::custom("broken".to_string()))));
    assert_eq!(e.unwrap_err().message(), "broken");

    decoder.extend(&[4, 5, b'=']);
    match access.buffer(&mut decoder, &mut Piece::new(1)) {
        Step::Done(Ok(values)) => assert_eq!(values, [4]),
        _ => panic!("expected a piece"),
    }
    match access.buffer(&mut decoder, &mut Piece::new(1)) {
        Step::Done(Ok(values)) => assert_eq!(values, [5]),
        _ => panic!("expected a piece"),
    }
    assert!(access.is_done());
}

#[test]
fn strings_wait_behind_their_opening_byte() {
    let mut decoder = open(b"\"ab");
    let mut scan = Scan::new();
    assert!(!scan.is_opened());
    assert!(matches!(decoder.parse_string(&mut scan), Step::Read));
    assert!(scan.is_opened());
    assert_eq!(decoder.available(), b"ab");
    assert!(decoder.buffer(None).is_ok());
    assert_eq!(failure(decoder.parse_string(&mut scan)), "unexpected end of stream");
    assert_eq!(decoder.available(), b"ab");
}

#[test]
fn values_are_skipped_as_they_arrive() {
    let value = Value::List(vec![
        Value::Dict(vec![(Value::Text("k\"".to_string()), Value::I64(-1))]),
        Value::ArrayU8(vec![b'=', b'\\', b']']),
        Value::List(vec![]),
        Value::Dict(vec![]),
        Value::Unit,
    ]);
    let mut bytes = encode(&value);
    let len = bytes.len();
    bytes.extend(b"rest");

    let mut decoder = Decoder::with_max_depth(2);
    let mut skip = Skip::new();
    for (i, b) in bytes.iter().enumerate() {
        match decoder.ignore_value(&mut skip) {
            Step::Read => assert!(i < len),
            Step::Done(r) => {
                assert!(r.is_ok());
                assert_eq!(i, len);
                break;
            }
        }
        decoder.extend(&[*b]);
    }
    assert_eq!(decoder.depth(), 0);
    assert_eq!(decoder.remaining(), 0);
}

#[test]
fn skipping_stops_behind_the_value() {
    let mut decoder = open(b"[\"]\"]rest");
    assert!(matches!(
        decoder.ignore_value(&mut Skip::new()),
        Step::Done(Ok(()))
    ));
    assert_eq!(decoder.available(), b"rest");
}

#[test]
fn wrong_values_are_not_skipped() {
    let skip = |bytes: &[u8]| failure(closed(bytes).ignore_value(&mut Skip::new()));
    assert_eq!(skip(b""), "unexpected end of stream");
    assert_eq!(skip(b"["), "unexpected end of stream");
    assert_eq!(skip(b"="), "unexpected end of stream");
    assert_eq!(skip(&[b'=', 200, 1]), "unexpected end of stream");
    assert_eq!(skip(b"\"a\\\""), "unexpected end of stream");
    assert_eq!(skip(b"]"), "invalid type bit: 93");
    assert_eq!(skip(&[b'{', 0]), "unexpected end of stream");
    assert_eq!(skip(&[1, 2]), "invalid value: 2, expected a boolean");
    assert_eq!(skip(&[11, 2]), "invalid length: 2, expected u64");
}

#[test]
fn skipping_stops_where_the_error_is() {
    let stop = |bytes: &[u8]| {
        let mut decoder = Decoder::with_max_depth(2);
        decoder.extend(bytes);
        assert!(decoder.buffer(None).is_ok());
        failure(decoder.ignore_value(&mut Skip::new()));
        (bytes.len() - decoder.remaining(), decoder.depth())
    };
    assert_eq!(stop(b""), (0, 0));
    assert_eq!(stop(b"="), (1, 0));
    assert_eq!(stop(&[200]), (0, 0));
    assert_eq!(stop(&[1, 2]), (1, 0));
    assert_eq!(stop(&[11, 2]), (0, 0));
    assert_eq!(stop(b"[["), (2, 2));
    assert_eq!(stop(b"[[["), (3, 2));
    assert_eq!(stop(b"[[]{]"), (4, 2));
    assert_eq!(stop(&[b'{', 0, b'[', 1, 2, b']']), (4, 2));
    assert_eq!(stop(b"[\"ab"), (2, 1));
    let mut bytes = vec![b'x'; SKIP_LEN + 3];
    bytes[0] = b'"';
    assert_eq!(stop(&bytes), (1 + SKIP_LEN, 0));
}

#[test]
fn text_is_skipped_up_to_its_end() {
    let mut decoder = open(b"\"ab\\");
    let mut skim = Skim::new();
    assert!(matches!(decoder.ignore_string(&mut skim, b'"', b'"'), Step::Read));
    assert!(skim.is_opened());
    assert!(!skim.is_escaped());
    assert_eq!(decoder.available(), b"ab\\");
    decoder.extend(b"\"c\"d");
    assert!(matches!(
        decoder.ignore_string(&mut skim, b'"', b'"'),
        Step::Done(Ok(()))
    ));
    assert_eq!(decoder.available(), b"d");
    assert_eq!(
        failure(open(b"x").ignore_string(&mut Skim::new(), b'"', b'"')),
        "unexpected delimiter x, expected \" at x"
    );
}

#[test]
fn text_without_an_end_is_left_unread() {
    let mut decoder = closed(b"\"ab");
    assert_eq!(
        failure(decoder.ignore_value(&mut Skip::new())),
        "unexpected end of stream"
    );
    assert_eq!(decoder.available(), b"ab");

    let mut decoder = closed(&[b'[', b'=', 8, 1, 2, 3]);
    assert_eq!(
        failure(decoder.ignore_value(&mut Skip::new())),
        "unexpected end of stream"
    );
    assert_eq!(decoder.available(), &[1, 2, 3]);
    assert_eq!(decoder.depth(), 1);
    assert_eq!(decoder.max_depth(), DEFAULT_MAX_DEPTH);
}

#[test]
fn long_text_is_let_go_of_in_lots() {
    for (len, left) in [
        (SKIP_LEN, SKIP_LEN),
        (SKIP_LEN + 1, 1),
        (2 * SKIP_LEN, SKIP_LEN),
        (2 * SKIP_LEN + 1, 1),
    ] {
        for size in [1, 100, 5000, len + 1] {
            let mut bytes = vec![b'x'; len];
            bytes.insert(0, b'"');
            let mut decoder = Decoder::with_max_depth(DEFAULT_MAX_DEPTH);
            let mut skim = Skim::new();
            for chunk in bytes.chunks(size) {
                decoder.extend(chunk);
                assert!(matches!(decoder.ignore_string(&mut skim, b'"', b'"'), Step::Read));
            }
            assert_eq!(decoder.remaining(), left);
            assert!(decoder.buffer(None).is_ok());
            assert_eq!(
                failure(decoder.ignore_string(&mut skim, b'"', b'"')),
                "unexpected end of stream"
            );
            assert_eq!(decoder.remaining(), left);
        }
    }
}

#[test]
fn escapes_are_not_lost_between_lots() {
    for pad in SKIP_LEN - 3..SKIP_LEN + 3 {
        let mut bytes = vec![b'"'];
        bytes.extend(vec![b'x'; pad]);
        bytes.extend(b"\\\"\\\\y\"rest");
        for size in [1, 4096, SKIP_LEN, SKIP_LEN + 1, bytes.len()] {
            let mut decoder = Decoder::with_max_depth(DEFAULT_MAX_DEPTH);
            let mut skim = Skim::new();
            let mut chunks = bytes.chunks(size);
            while let Step::Read = decoder.ignore_string(&mut skim, b'"', b'"') {
                decoder.extend(chunks.next().unwrap());
            }
            let unread = decoder.remaining() + chunks.map(|chunk| chunk.len()).sum::<usize>();
            assert_eq!(unread, 4);
        }
    }
}
