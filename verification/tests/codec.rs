//! Tests for the CSV codec: the byte writer core, the record encoder and
//! header mode, and the typed record decoder with inference.

use csv_codec::decode::DeserializeErrorKind;
use csv_codec::decode::Inferred;
use csv_codec::decode::RecordDecoder;
use csv_codec::decode::try_negative_integer64;
use csv_codec::decode::try_positive_integer64;
use csv_codec::encode::RecordEncoder;
use csv_codec::encode::SeHeader;
use csv_codec::encode::SerializeError;
use csv_codec::writer::is_non_numeric;
use csv_codec::writer::QuoteStyle;
use csv_codec::writer::Terminator;
use csv_codec::writer::WriteResult;
use csv_codec::writer::Writer;
use csv_codec::writer::WriterBuilder;

/// Drive `field` + `terminator` + `finish` through a large buffer and
/// collect everything written.
fn encode_record(w: &mut Writer, fields: &[&[u8]], terminate: bool) -> Vec<u8> {
    let mut out = Vec::new();
    let mut buf = [0u8; 256];
    for (ix, f) in fields.iter().enumerate() {
        if ix > 0 {
            let (res, n) = w.delimiter(&mut buf);
            assert_eq!(res, WriteResult::InputEmpty);
            out.extend_from_slice(&buf[..n]);
        }
        let (res, nin, nout) = w.field(f, &mut buf);
        assert_eq!(res, WriteResult::InputEmpty);
        assert_eq!(nin, f.len());
        out.extend_from_slice(&buf[..nout]);
    }
    if terminate {
        let (res, n) = w.terminator(&mut buf);
        assert_eq!(res, WriteResult::InputEmpty);
        out.extend_from_slice(&buf[..n]);
    } else {
        let (res, n) = w.finish(&mut buf);
        assert_eq!(res, WriteResult::InputEmpty);
        out.extend_from_slice(&buf[..n]);
    }
    out
}

#[test]
fn zero_field_record_writes_empty_quoted_field() {
    let mut w = Writer::new();
    let mut buf = [0u8; 8];
    let (res, n) = w.terminator(&mut buf);
    assert_eq!(res, WriteResult::InputEmpty);
    assert_eq!(&buf[..n], b"\"\"\n");
}

#[test]
fn finish_is_idempotent() {
    let mut w = Writer::new();
    let mut buf = [0u8; 16];
    let (res, _, _) = w.field(b"a\"b", &mut buf);
    assert_eq!(res, WriteResult::InputEmpty);
    let (res, n) = w.finish(&mut buf);
    assert_eq!(res, WriteResult::InputEmpty);
    assert!(n > 0);
    let (res, n) = w.finish(&mut buf);
    assert_eq!(res, WriteResult::InputEmpty);
    assert_eq!(n, 0);
}

#[test]
fn quote_doubling_default_and_escape_mode() {
    let mut w = Writer::new();
    assert_eq!(encode_record(&mut w, &[b"a\"b"], false), b"\"a\"\"b\"");

    let mut b = WriterBuilder::new();
    b.double_quote(false);
    b.escape(b'\\');
    let mut w = b.build();
    assert_eq!(encode_record(&mut w, &[b"a\"b"], false), b"\"a\\\"b\"");
}

#[test]
fn buffer_starvation_makes_no_more_than_one_byte_per_call() {
    let mut w = Writer::new();
    let input: &[u8] = b"a\"b";
    let mut consumed = 0;
    let mut out = Vec::new();
    let mut tiny = [0u8; 1];
    for _ in 0..8 {
        let (res, nin, nout) = w.field(&input[consumed..], &mut tiny);
        assert!(nout <= 1);
        out.extend_from_slice(&tiny[..nout]);
        consumed += nin;
        if res == WriteResult::InputEmpty {
            break;
        }
        assert_eq!(res, WriteResult::OutputFull);
    }
    // A one-byte buffer can never hold the two-byte escaped quote: the
    // writer reports `OutputFull` without progress until given more room.
    assert!(consumed < input.len());
    let mut big = [0u8; 16];
    let (res, nin, nout) = w.field(&input[consumed..], &mut big);
    assert_eq!(res, WriteResult::InputEmpty);
    assert_eq!(nin, input.len() - consumed);
    out.extend_from_slice(&big[..nout]);
    let (res, n) = w.finish(&mut big);
    assert_eq!(res, WriteResult::InputEmpty);
    out.extend_from_slice(&big[..n]);
    assert_eq!(out, b"\"a\"\"b\"");
}

#[test]
fn necessary_quoting_marks_exactly_the_special_bytes() {
    let mut b = WriterBuilder::new();
    b.comment(Some(b'#'));
    let w = b.build();
    assert!(w.should_quote(b"a,b"));
    assert!(w.should_quote(b"a\"b"));
    assert!(w.should_quote(b"a\nb"));
    assert!(w.should_quote(b"a\rb"));
    assert!(w.should_quote(b"a#b"));
    assert!(!w.should_quote(b"plain"));
    // The escape byte matters only when double-quote escaping is off.
    assert!(!w.should_quote(b"a\\b"));
    let mut b = WriterBuilder::new();
    b.double_quote(false);
    let w = b.build();
    assert!(w.should_quote(b"a\\b"));
    // A terminator that is not newline-based marks only itself.
    let mut b = WriterBuilder::new();
    b.terminator(Terminator::Any(b';'));
    let w = b.build();
    assert!(w.should_quote(b"a;b"));
    assert!(!w.should_quote(b"a\nb"));
}

#[test]
fn non_numeric_follows_the_float_grammar() {
    assert!(!is_non_numeric(b"3.5"));
    assert!(!is_non_numeric(b"-7"));
    assert!(!is_non_numeric(b"+42"));
    assert!(!is_non_numeric(b".5"));
    assert!(!is_non_numeric(b"1e-3"));
    assert!(!is_non_numeric(b"inf"));
    assert!(!is_non_numeric(b"Infinity"));
    assert!(!is_non_numeric(b"NaN"));
    assert!(is_non_numeric(b""));
    assert!(is_non_numeric(b"hello"));
    assert!(is_non_numeric(b"1.2.3"));
    assert!(is_non_numeric(b"0x1A"));
    assert!(is_non_numeric(b"."));
    assert!(is_non_numeric(&[0xff, 0xfe]));
}

#[test]
fn non_numeric_style_quotes_text_only() {
    let mut b = WriterBuilder::new();
    b.quote_style(QuoteStyle::NonNumeric);
    let mut w = b.build();
    let out = encode_record(&mut w, &[b"12", b"abc"], true);
    assert_eq!(out, b"12,\"abc\"\n");
}

#[test]
fn always_and_never_styles() {
    let mut b = WriterBuilder::new();
    b.quote_style(QuoteStyle::Always);
    let mut w = b.build();
    assert_eq!(encode_record(&mut w, &[b"x"], true), b"\"x\"\n");

    let mut b = WriterBuilder::new();
    b.quote_style(QuoteStyle::Never);
    let mut w = b.build();
    assert_eq!(encode_record(&mut w, &[b"x"], true), b"x\n");
}

#[test]
fn crlf_terminator_and_getters() {
    let mut b = WriterBuilder::new();
    b.delimiter(b';');
    b.terminator(Terminator::CRLF);
    b.quote(b'\'');
    b.escape(b'!');
    b.double_quote(false);
    let w = b.build();
    assert_eq!(w.get_delimiter(), b';');
    assert_eq!(w.get_terminator(), Terminator::CRLF);
    assert_eq!(w.get_quote_style(), QuoteStyle::Necessary);
    assert_eq!(w.get_quote(), b'\'');
    assert_eq!(w.get_escape(), b'!');
    assert!(!w.get_double_quote());
    assert!(w.is_special_byte(b';'));
    assert!(w.is_special_byte(b'\''));
    assert!(w.is_special_byte(b'!'));
    assert!(w.is_special_byte(b'\r'));
    assert!(w.is_special_byte(b'\n'));
    assert!(!w.is_special_byte(b','));

    let mut w = b.build();
    assert_eq!(encode_record(&mut w, &[b"x"], true), b"x\r\n");
}

#[test]
fn record_encoder_writes_typed_fields() {
    let mut enc = RecordEncoder::new(Writer::new());
    enc.write_bool(true);
    enc.write_u64(9007);
    enc.write_i64(-45);
    enc.write_str("he said \"hi\"");
    enc.write_none();
    enc.write_char('x');
    enc.write_terminator();
    let out = enc.into_output();
    assert_eq!(out, b"true,9007,-45,\"he said \"\"hi\"\"\",,x\n");
}

#[test]
fn record_encoder_round_trips_through_the_decoder() {
    let mut enc = RecordEncoder::new(Writer::new());
    enc.write_u64(7);
    enc.write_str("a,b");
    enc.write_bool(false);
    enc.write_terminator();
    assert_eq!(enc.output().as_slice(), b"7,\"a,b\",false\n");

    // Hand the decoder the tokenized fields back.
    let fields = vec![b"7".to_vec(), b"a,b".to_vec(), b"false".to_vec()];
    let mut dec = RecordDecoder::new(fields, None);
    assert_eq!(dec.decode_u64().unwrap(), 7);
    assert_eq!(dec.decode_string().unwrap(), "a,b");
    assert!(!dec.decode_bool().unwrap());
}

#[test]
fn encoder_refuses_maps_and_payload_variants() {
    let mut enc = RecordEncoder::new(Writer::new());
    assert!(matches!(
        enc.begin_map(),
        Err(SerializeError::Unsupported { .. })
    ));
    assert!(matches!(
        enc.begin_payload_variant(),
        Err(SerializeError::Unsupported { .. })
    ));
}

#[test]
fn header_state_machine_accepts_one_struct_level() {
    let enc = RecordEncoder::new(Writer::new());
    let mut hdr = SeHeader::new(enc);
    assert!(!hdr.wrote_header());
    hdr.begin_struct_field("id").unwrap();
    hdr.handle_scalar("u64").unwrap();
    hdr.end_struct_field();
    hdr.begin_struct_field("name").unwrap();
    hdr.handle_scalar("str").unwrap();
    hdr.end_struct_field();
    assert!(hdr.wrote_header());
    let mut enc = hdr.into_encoder();
    enc.write_terminator();
    assert_eq!(enc.into_output(), b"id,name\n");
}

#[test]
fn header_rejects_scalar_outside_struct() {
    let enc = RecordEncoder::new(Writer::new());
    let mut hdr = SeHeader::new(enc);
    // A bare scalar first only defers the error ...
    hdr.handle_scalar("u64").unwrap();
    assert!(!hdr.wrote_header());
    // ... which surfaces as soon as a struct field turns up.
    let e = hdr.begin_struct_field("id").unwrap_err();
    assert!(matches!(e, SerializeError::ScalarOutsideStruct { .. }));
    // After struct fields, a bare scalar is an immediate error.
    let enc = RecordEncoder::new(Writer::new());
    let mut hdr = SeHeader::new(enc);
    hdr.begin_struct_field("id").unwrap();
    hdr.end_struct_field();
    let e = hdr.handle_scalar("u64").unwrap_err();
    assert!(matches!(e, SerializeError::ScalarOutsideStruct { .. }));
}

#[test]
fn header_rejects_container_inside_struct_field() {
    let enc = RecordEncoder::new(Writer::new());
    let mut hdr = SeHeader::new(enc);
    hdr.begin_struct_field("inner").unwrap();
    let e = hdr.handle_container("tuple").unwrap_err();
    assert!(matches!(e, SerializeError::ContainerInsideStruct { .. }));
    // Outside a struct field a container is fine.
    hdr.end_struct_field();
    hdr.handle_container("tuple").unwrap();
}

#[test]
fn header_round_trip_reorders_by_name() {
    // Serialize the header and two rows of a struct { id, name }.
    let enc = RecordEncoder::new(Writer::new());
    let mut hdr = SeHeader::new(enc);
    hdr.begin_struct_field("id").unwrap();
    hdr.end_struct_field();
    hdr.begin_struct_field("name").unwrap();
    hdr.end_struct_field();
    assert!(hdr.wrote_header());
    let mut enc = hdr.into_encoder();
    enc.write_terminator();
    let rows = [(3u64, "alpha"), (11u64, "beta")];
    for (id, name) in rows.iter() {
        enc.write_u64(*id);
        enc.write_str(name);
        enc.write_terminator();
    }
    assert_eq!(enc.into_output(), b"id,name\n3,alpha\n11,beta\n");

    // Feed the decoder the same data with header and fields swapped: the
    // struct is rebuilt by keying on the header names, not on position.
    let headers = vec![b"name".to_vec(), b"id".to_vec()];
    let rows_swapped = [
        vec![b"alpha".to_vec(), b"3".to_vec()],
        vec![b"beta".to_vec(), b"11".to_vec()],
    ];
    let mut rebuilt = Vec::new();
    for row in rows_swapped.iter() {
        let mut dec = RecordDecoder::new(row.clone(), Some(headers.clone()));
        let mut id: Option<u64> = None;
        let mut name: Option<String> = None;
        while let Some(key) = dec.next_header_bytes() {
            match key.as_slice() {
                b"id" => id = Some(dec.decode_u64().unwrap()),
                b"name" => name = Some(dec.decode_string().unwrap()),
                _ => dec.skip_field().unwrap(),
            }
        }
        rebuilt.push((id.unwrap(), name.unwrap()));
    }
    assert_eq!(rebuilt[0], (3, "alpha".to_string()));
    assert_eq!(rebuilt[1], (11, "beta".to_string()));
}

#[test]
fn type_inference_positional_tuple() {
    let fields = vec![
        b"true".to_vec(),
        b"-7".to_vec(),
        b"3.5".to_vec(),
        b"hello".to_vec(),
    ];
    let mut dec = RecordDecoder::new(fields, None);
    assert_eq!(dec.decode_any().unwrap(), Inferred::Bool(true));
    assert_eq!(dec.decode_any().unwrap(), Inferred::I64(-7));
    match dec.decode_any().unwrap() {
        Inferred::Float(t) => assert_eq!(t.parse::<f64>().unwrap(), 3.5),
        other => panic!("expected a float, got {:?}", other),
    }
    assert_eq!(dec.decode_any().unwrap(), Inferred::Text("hello".to_string()));
}

#[test]
fn type_inference_widths_and_bytes() {
    let fields = vec![
        b"42".to_vec(),
        b"18446744073709551616".to_vec(),
        b"-9223372036854775809".to_vec(),
        vec![0xff, 0x00],
    ];
    let mut dec = RecordDecoder::new(fields, None);
    assert_eq!(dec.decode_any().unwrap(), Inferred::U64(42));
    assert_eq!(
        dec.decode_any().unwrap(),
        Inferred::U128(18446744073709551616)
    );
    assert_eq!(
        dec.decode_any().unwrap(),
        Inferred::I128(-9223372036854775809)
    );
    assert_eq!(dec.decode_any().unwrap(), Inferred::Bytes(vec![0xff, 0x00]));
}

#[test]
fn typed_decoding_accepts_decimal_and_hex() {
    let fields = vec![
        b"255".to_vec(),
        b"0x1A".to_vec(),
        b"-128".to_vec(),
        b"true".to_vec(),
        b"x".to_vec(),
        b"3.25".to_vec(),
    ];
    let mut dec = RecordDecoder::new(fields, None);
    assert_eq!(dec.decode_u8().unwrap(), 255);
    assert_eq!(dec.decode_u64().unwrap(), 26);
    assert_eq!(dec.decode_i8().unwrap(), -128);
    assert!(dec.decode_bool().unwrap());
    assert_eq!(dec.decode_char().unwrap(), 'x');
    let text = dec.decode_float_text().unwrap();
    assert_eq!(text.parse::<f64>().unwrap(), 3.25);
}

#[test]
fn decoder_errors_carry_kind_and_field_index() {
    // End of row: no index.
    let mut dec = RecordDecoder::new(vec![], None);
    let e = dec.decode_u64().unwrap_err();
    assert_eq!(e.field(), None);
    assert_eq!(*e.kind(), DeserializeErrorKind::UnexpectedEndOfRow);
    assert_eq!(e.kind().description(), "expected field, but got end of row");

    // Parse failures carry the zero-based index of the failing field.
    let fields = vec![b"7".to_vec(), b"notanumber".to_vec()];
    let mut dec = RecordDecoder::new(fields, None);
    dec.decode_u64().unwrap();
    let e = dec.decode_u64().unwrap_err();
    assert_eq!(e.field(), Some(1));
    assert_eq!(*e.kind(), DeserializeErrorKind::ParseInt);

    let mut dec = RecordDecoder::new(vec![vec![0xff]], None);
    let e = dec.decode_string().unwrap_err();
    assert_eq!(e.field(), Some(0));
    assert_eq!(*e.kind(), DeserializeErrorKind::InvalidUtf8);

    let mut dec = RecordDecoder::new(vec![b"yes".to_vec()], None);
    let e = dec.decode_bool().unwrap_err();
    assert_eq!(*e.kind(), DeserializeErrorKind::ParseBool);

    let mut dec = RecordDecoder::new(vec![b"abc".to_vec()], None);
    let e = dec.decode_float_text().unwrap_err();
    assert_eq!(*e.kind(), DeserializeErrorKind::ParseFloat);

    let mut dec = RecordDecoder::new(vec![b"ab".to_vec()], None);
    let e = dec.decode_char().unwrap_err();
    assert!(matches!(e.kind(), DeserializeErrorKind::Message(_)));
}

#[test]
fn identifier_requests_are_unsupported() {
    let dec = RecordDecoder::new(vec![b"x".to_vec()], None);
    let e = dec.decode_identifier().unwrap_err();
    assert!(matches!(e.kind(), DeserializeErrorKind::Unsupported(_)));
    assert_eq!(e.kind().description(), "unsupported deserializer method");
}

#[test]
fn option_fields_absent_on_empty_or_missing() {
    let fields = vec![b"".to_vec(), b"5".to_vec()];
    let mut dec = RecordDecoder::new(fields, None);
    assert!(dec.decode_option_is_none());
    assert!(!dec.decode_option_is_none());
    assert_eq!(dec.decode_u64().unwrap(), 5);
    assert!(dec.decode_option_is_none());
}

#[test]
fn unit_variants_decode_by_name() {
    let variants = ["Red", "Green", "Blue"];
    let fields = vec![b"Green".to_vec(), b"Purple".to_vec()];
    let mut dec = RecordDecoder::new(fields, None);
    assert_eq!(dec.decode_unit_variant(&variants).unwrap(), 1);
    let e = dec.decode_unit_variant(&variants).unwrap_err();
    assert!(matches!(e.kind(), DeserializeErrorKind::Message(_)));
}

#[test]
fn try_integer_helpers_match_parse() {
    assert_eq!(try_positive_integer64("42"), Some(42));
    assert_eq!(try_positive_integer64("+42"), Some(42));
    assert_eq!(try_positive_integer64("-42"), None);
    assert_eq!(try_positive_integer64("18446744073709551615"), Some(u64::MAX));
    assert_eq!(try_positive_integer64("18446744073709551616"), None);
    assert_eq!(try_negative_integer64("-42"), Some(-42));
    assert_eq!(try_negative_integer64("-9223372036854775808"), Some(i64::MIN));
    assert_eq!(try_negative_integer64("-9223372036854775809"), None);
    assert_eq!(try_negative_integer64("4 2"), None);
}

#[test]
fn multi_byte_characters_survive_text_decoding() {
    // Two-byte UTF-8: the decoders go through real UTF-8 validation.
    let heart = "é";
    let fields = vec![heart.as_bytes().to_vec(), heart.as_bytes().to_vec()];
    let mut dec = RecordDecoder::new(fields, None);
    assert_eq!(dec.decode_string().unwrap(), heart);
    assert_eq!(dec.decode_char().unwrap(), 'é');

    let mut enc = RecordEncoder::new(Writer::new());
    enc.write_char('é');
    enc.write_terminator();
    assert_eq!(enc.into_output(), "é\n".as_bytes());
}
