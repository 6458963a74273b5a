use amp_async::codecs::Version;
use amp_async::de::{eq_ignore_ascii_case, from_bytes, Deserializer, FloatWord};
use amp_async::frame::RawFrame;
use amp_async::number::{
    format_tag, parse_signed, parse_tag, parse_unsigned, push_decimal, push_integer,
};
use amp_async::ser::{to_bytes, Compound, Serializer};
use amp_async::types::{AmpList, Error, ErrorResponse, OkResponse, Request, Response};
use bytes::Bytes;

const LIST_ENC: [u8; 42] = [
    0, 1, 97, 0, 1, 49, 0, 1, 98, 0, 1, 50, 0, 0, 0, 1, 97, 0, 1, 51, 0, 1, 98, 0, 1, 52, 0, 0, 0,
    1, 97, 0, 1, 53, 0, 1, 98, 0, 1, 54, 0, 0,
];

fn ab(a: u32, b: u64) -> RawFrame {
    let mut sa = Serializer::default();
    sa.serialize_u32(a).unwrap();
    let mut sb = Serializer::default();
    sb.serialize_u64(b).unwrap();
    vec![(b"a".to_vec(), sa.into_bytes()), (b"b".to_vec(), sb.into_bytes())]
}

fn de(input: &[u8]) -> Deserializer {
    Deserializer::from_bytes(Bytes::copy_from_slice(input), Version::V1)
}

fn de2(input: &[u8]) -> Deserializer {
    Deserializer::from_bytes(Bytes::copy_from_slice(input), Version::V2)
}

#[test]
fn amp_list_enc() {
    let list = AmpList(vec![ab(1, 2), ab(3, 4), ab(5, 6)]);
    let mut serializer = Serializer::default();
    list.serialize(&mut serializer).unwrap();
    let bytes = serializer.into_bytes();
    assert_eq!(bytes, LIST_ENC.as_ref());
}

#[test]
fn amp_list_dec() {
    let mut deserializer = de(&LIST_ENC);
    let list = AmpList::deserialize(&mut deserializer).unwrap();
    deserializer.finish().unwrap();

    assert_eq!(list.0, vec![ab(1, 2), ab(3, 4), ab(5, 6)]);
}

#[test]
fn trailling_dicts() {
    match from_bytes(Version::V1, Bytes::copy_from_slice(&LIST_ENC)) {
        Err(Error::RemainingBytes) => (),
        _ => unreachable!(),
    }
}

#[test]
fn amp_list_of_nothing() {
    let mut serializer = Serializer::default();
    AmpList(Vec::new()).serialize(&mut serializer).unwrap();
    assert_eq!(serializer.into_bytes(), Vec::<u8>::new());
    let mut deserializer = de(b"");
    assert_eq!(AmpList::deserialize(&mut deserializer).unwrap(), AmpList(Vec::new()));
}

#[test]
fn amp_list_stops_at_faulty_record() {
    let list = AmpList(vec![ab(1, 2), vec![(Vec::new(), b"x".to_vec())]]);
    let mut serializer = Serializer::default();
    assert!(matches!(list.serialize(&mut serializer), Err(Error::EmptyKey)));
    let mut deserializer = de(&LIST_ENC[..20]);
    assert!(matches!(AmpList::deserialize(&mut deserializer), Err(Error::ExpectedMapKey)));
}

#[test]
fn scalars_are_text() {
    let mut s = Serializer::default();
    s.serialize_bool(true).unwrap();
    s.serialize_bool(false).unwrap();
    s.serialize_i8(-128).unwrap();
    s.serialize_i16(-7).unwrap();
    s.serialize_i32(0).unwrap();
    s.serialize_i64(i64::MIN).unwrap();
    s.serialize_u8(255).unwrap();
    s.serialize_u16(10).unwrap();
    s.serialize_u32(4000000000).unwrap();
    s.serialize_u64(u64::MAX).unwrap();
    s.serialize_char('é').unwrap();
    s.serialize_str("hé").unwrap();
    s.serialize_bytes(&[0, 255]).unwrap();
    s.serialize_none().unwrap();
    s.serialize_unit().unwrap();
    let mut expected = Vec::new();
    expected.extend_from_slice(b"TrueFalse-128-70-9223372036854775808255104000000000");
    expected.extend_from_slice(b"18446744073709551615");
    expected.extend_from_slice("éhé".as_bytes());
    expected.extend_from_slice(&[0, 255]);
    assert_eq!(s.into_bytes(), expected);
}

#[test]
fn lengths_are_filled_in() {
    let mut s = Serializer::default();
    let offset = s.prep_len();
    assert_eq!(offset, 0);
    assert_eq!(s.len(), 2);
    s.push_bytes(b"abc");
    s.write_len(offset, true).unwrap();
    let offset = s.prep_len();
    assert_eq!(offset, 5);
    s.write_len(offset, false).unwrap();
    assert_eq!(s.into_bytes(), vec![0, 3, b'a', b'b', b'c', 0, 0]);
}

#[test]
fn faulty_lengths_leave_the_placeholder() {
    let mut s = Serializer::default();
    let offset = s.prep_len();
    assert!(matches!(s.write_len(offset, true), Err(Error::EmptyKey)));
    assert_eq!(s.into_bytes(), vec![0x55, 0xaa]);

    let mut s = Serializer::default();
    assert!(matches!(s.push_key(&[b'k'; 256]), Err(Error::KeyTooLong)));
    assert_eq!(s.len(), 258);
    let mut s = Serializer::default();
    s.push_key(&[b'k'; 255]).unwrap();
    assert_eq!(&s.into_bytes()[..2], &[0x00, 0xff][..]);

    let mut s = Serializer::default();
    assert!(matches!(s.push_value(&vec![1u8; 65536]), Err(Error::ValueTooLong)));
    let mut s = Serializer::new(Version::V2);
    assert!(matches!(s.push_value(&vec![1u8; 65536]), Err(Error::ValueTooLong)));
    let mut s = Serializer::default();
    assert!(matches!(s.push_long_value(&vec![1u8; 65536]), Err(Error::ValueTooLong)));
}

#[test]
fn long_values_are_chained_in_v2() {
    let value = vec![5u8; 65536];
    let mut s = Serializer::new(Version::V2);
    s.push_long_value(&value).unwrap();
    let bytes = s.into_bytes();
    assert_eq!(bytes.len(), 65536 + 4);
    assert_eq!(&bytes[..2], &[0xff, 0xff][..]);
    assert_eq!(&bytes[65537..65539], &[0x00, 0x01][..]);

    let mut s = Serializer::new(Version::V2);
    s.push_long_value(b"").unwrap();
    assert_eq!(s.into_bytes(), vec![0, 0]);

    let mut s = Serializer::new(Version::V2);
    s.push_long_value(&vec![5u8; 65535]).unwrap();
    let bytes = s.into_bytes();
    assert_eq!(bytes.len(), 65535 + 4);
    assert_eq!(&bytes[65537..], &[0x00, 0x00][..]);

    let mut d = de2(&bytes);
    let mut sub = d.next_value().unwrap();
    assert_eq!(sub.deserialize_bytes().unwrap(), vec![5u8; 65535]);
    assert_eq!(d.remaining(), 0);
}

#[test]
fn compound_writes_records_and_sequences() {
    let mut s = Serializer::default();
    {
        let mut record = Compound::new(&mut s);
        record.serialize_field("a", b"13").unwrap();
        record.serialize_key(b"b").unwrap();
        record.serialize_value(b"81").unwrap();
        record.end();
    }
    {
        let mut seq = Compound::new(&mut s);
        seq.serialize_element(b"xy").unwrap();
        seq.serialize_item(b"raw").unwrap();
        seq.end_seq();
    }
    assert_eq!(
        s.into_bytes(),
        vec![0, 1, b'a', 0, 2, b'1', b'3', 0, 1, b'b', 0, 2, b'8', b'1', 0, 0, 0, 2, b'x', b'y', b'r', b'a', b'w']
    );
    let mut s = Serializer::default();
    let mut record = Compound::new(&mut s);
    assert!(matches!(record.serialize_field("", b"1"), Err(Error::EmptyKey)));
}

#[test]
fn to_bytes_reports_the_first_fault() {
    let b = vec![
        (b"ok".to_vec(), b"1".to_vec()),
        (vec![b'k'; 300], vec![0u8; 70000]),
        (Vec::new(), Vec::new()),
    ];
    assert!(matches!(to_bytes(Version::V1, &b), Err(Error::KeyTooLong)));
    let b = vec![(b"k".to_vec(), vec![0u8; 70000])];
    assert!(matches!(to_bytes(Version::V1, &b), Err(Error::ValueTooLong)));
    assert_eq!(to_bytes(Version::V2, &b).unwrap().len(), 3 + 70000 + 4 + 2);
}

#[test]
fn box_round_trip_through_the_serializer() {
    for version in [Version::V1, Version::V2] {
        let b = vec![(b"k".to_vec(), vec![3u8; 65535]), (b"empty".to_vec(), Vec::new())];
        let bytes = to_bytes(version, &b).unwrap();
        assert_eq!(from_bytes(version, Bytes::from(bytes)).unwrap(), b);
    }
}

#[test]
fn records_of_the_protocol() {
    let request = Request { tag: None, command: "Ping".into(), fields: Vec::new() };
    assert_eq!(request.clone().into_box(), vec![(b"_command".to_vec(), b"Ping".to_vec())]);
    assert_eq!(
        request.into_bytes(Version::V1).unwrap(),
        b"\x00\x08_command\x00\x04Ping\x00\x00".to_vec()
    );
    let ok = OkResponse { tag: b"1".to_vec(), fields: vec![(b"total".to_vec(), b"444".to_vec())] };
    assert_eq!(
        ok.clone().into_bytes(Version::V1).unwrap(),
        b"\x00\x07_answer\x00\x011\x00\x05total\x00\x03444\x00\x00".to_vec()
    );
    let err = ErrorResponse { tag: b"1".to_vec(), code: "C".into(), description: "d".into() };
    assert_eq!(
        err.clone().into_bytes(Version::V1).unwrap(),
        b"\x00\x06_error\x00\x011\x00\x0b_error_code\x00\x01C\x00\x12_error_description\x00\x01d\x00\x00"
            .to_vec()
    );
    assert_eq!(Response::from_result(Ok(ok.clone())), Response::Success(ok.clone()));
    assert_eq!(Response::from_result(Err(err.clone())), Response::Failure(err.clone()));
    assert_eq!(Response::Success(ok.clone()).into_result(), Ok(ok));
    assert_eq!(Response::Failure(err.clone()).into_result(), Err(err));
}

#[test]
fn error_responses_have_default_texts() {
    let e = ErrorResponse::new(b"7".to_vec(), None, None);
    assert_eq!(
        e,
        ErrorResponse { tag: b"7".to_vec(), code: "UNKNOWN".into(), description: "Unknown Error".into() }
    );
    let e = ErrorResponse::new(b"7".to_vec(), Some("X".into()), Some("why".into()));
    assert_eq!(e, ErrorResponse { tag: b"7".to_vec(), code: "X".into(), description: "why".into() });
}

#[test]
fn numbers_as_text() {
    let mut out = b"x".to_vec();
    push_decimal(0, &mut out);
    push_decimal(1234567890, &mut out);
    push_decimal(u64::MAX, &mut out);
    push_integer(-1, &mut out);
    push_integer(0, &mut out);
    push_integer(i64::MAX, &mut out);
    push_integer(i64::MIN, &mut out);
    assert_eq!(
        out,
        b"x0123456789018446744073709551615-109223372036854775807-9223372036854775808".to_vec()
    );
}

#[test]
fn tags_are_lowercase_hex() {
    assert_eq!(format_tag(1), b"1".to_vec());
    assert_eq!(format_tag(0), b"0".to_vec());
    assert_eq!(format_tag(10), b"a".to_vec());
    assert_eq!(format_tag(255), b"ff".to_vec());
    assert_eq!(format_tag(0x1234abcd), b"1234abcd".to_vec());
    assert_eq!(format_tag(u64::MAX), b"ffffffffffffffff".to_vec());
}

#[test]
fn tags_read_back() {
    for n in [0u64, 1, 9, 10, 15, 16, 255, 4096, 0xdeadbeef, u64::MAX] {
        assert_eq!(parse_tag(&format_tag(n)), Some(n));
    }
    assert_eq!(parse_tag(b"FF"), Some(255));
    assert_eq!(parse_tag(b"+1f"), Some(31));
    assert_eq!(parse_tag(b"0010"), Some(16));
    assert_eq!(parse_tag(b""), None);
    assert_eq!(parse_tag(b"+"), None);
    assert_eq!(parse_tag(b"-1"), None);
    assert_eq!(parse_tag(b"1g"), None);
    assert_eq!(parse_tag(b" 1"), None);
    assert_eq!(parse_tag(b"10000000000000000"), None);
    assert_eq!(parse_tag(&[0xff]), None);
}

#[test]
fn integers_are_parsed_within_bounds() {
    assert_eq!(parse_unsigned(b"42", 100), Some(42));
    assert_eq!(parse_unsigned(b"101", 100), None);
    assert_eq!(parse_unsigned(b"4a", 100), None);
    assert_eq!(parse_unsigned(b"", 100), None);
    assert_eq!(parse_signed(b"5", 10, 20), None);
    assert_eq!(parse_signed(b"15", 10, 20), Some(15));
    assert_eq!(parse_signed(b"-15", 10, 20), None);
    assert_eq!(parse_signed(b"-15", -20, -10), Some(-15));
    assert_eq!(parse_signed(b"-5", -20, -10), None);
    assert_eq!(parse_signed(b"5", -20, -10), None);
    assert_eq!(parse_unsigned(b"+7", 255), Some(7));
    assert_eq!(parse_unsigned(b"255", 255), Some(255));
    assert_eq!(parse_unsigned(b"256", 255), None);
    assert_eq!(parse_unsigned(b"-0", 255), None);
    assert_eq!(parse_unsigned(b"18446744073709551615", u64::MAX), Some(u64::MAX));
    assert_eq!(parse_unsigned(b"18446744073709551616", u64::MAX), None);
    assert_eq!(parse_signed(b"-128", -128, 127), Some(-128));
    assert_eq!(parse_signed(b"-129", -128, 127), None);
    assert_eq!(parse_signed(b"127", -128, 127), Some(127));
    assert_eq!(parse_signed(b"128", -128, 127), None);
    assert_eq!(parse_signed(b"-", -128, 127), None);
    assert_eq!(parse_signed(b"+", -128, 127), None);
    assert_eq!(parse_signed(b"-0", -128, 127), Some(0));
    assert_eq!(parse_signed(b"0012", -128, 127), Some(12));
    assert_eq!(parse_signed(b"-9223372036854775808", i64::MIN, i64::MAX), Some(i64::MIN));
    assert_eq!(parse_signed(b"9223372036854775808", i64::MIN, i64::MAX), None);
}

#[test]
fn scalars_are_read_from_text() {
    assert_eq!(de(b"true").deserialize_bool().unwrap(), true);
    assert_eq!(de(b"True").deserialize_bool().unwrap(), true);
    assert_eq!(de(b"FALSE").deserialize_bool().unwrap(), false);
    assert!(matches!(de(b"yes").deserialize_bool(), Err(Error::ExpectedBool)));
    assert!(matches!(de(b"").deserialize_bool(), Err(Error::ExpectedBool)));
    assert_eq!(de(b"-12").deserialize_i8().unwrap(), -12);
    assert!(matches!(de(b"200").deserialize_i8(), Err(Error::ExpectedInteger)));
    assert_eq!(de(b"-32768").deserialize_i16().unwrap(), -32768);
    assert_eq!(de(b"2147483647").deserialize_i32().unwrap(), i32::MAX);
    assert_eq!(de(b"444").deserialize_i64().unwrap(), 444);
    assert_eq!(de(b"200").deserialize_u8().unwrap(), 200);
    assert_eq!(de(b"65535").deserialize_u16().unwrap(), 65535);
    assert!(matches!(de(b"65536").deserialize_u16(), Err(Error::ExpectedInteger)));
    assert_eq!(de(b"4294967295").deserialize_u32().unwrap(), u32::MAX);
    assert_eq!(de(b"81").deserialize_u64().unwrap(), 81);
    assert!(matches!(de(b"").deserialize_u64(), Err(Error::ExpectedInteger)));
    assert!(matches!(de(b"1.5").deserialize_u64(), Err(Error::ExpectedInteger)));
    assert_eq!(de("hé".as_bytes()).deserialize_str().unwrap(), "hé");
    assert!(matches!(de(&[0xff]).deserialize_str(), Err(Error::ExpectedUtf8)));
    assert_eq!(de(&[0, 255]).deserialize_bytes().unwrap(), vec![0, 255]);
    assert_eq!(de("é".as_bytes()).deserialize_char().unwrap(), 'é');
    assert!(matches!(de(b"ab").deserialize_char(), Err(Error::ExpectedChar)));
    assert!(matches!(de(b"").deserialize_char(), Err(Error::ExpectedChar)));
    assert!(matches!(de(&[0xc3]).deserialize_char(), Err(Error::ExpectedUtf8)));
    assert!(!de(b"").deserialize_option());
    assert!(de(b"x").deserialize_option());
    assert_eq!(de(b"NaN").deserialize_float_word(), Some(FloatWord::Nan));
    assert_eq!(de(b"inf").deserialize_float_word(), Some(FloatWord::Inf));
    assert_eq!(de(b"-INF").deserialize_float_word(), Some(FloatWord::NegInf));
    assert_eq!(de(b"1.5").deserialize_float_word(), None);
}

#[test]
fn a_read_scalar_consumes_its_scope() {
    let mut d = de(b"12");
    assert_eq!(d.deserialize_u8().unwrap(), 12);
    assert_eq!(d.remaining(), 0);
    d.finish().unwrap();
    let mut d = de(b"1x");
    assert!(d.deserialize_u8().is_err());
    assert_eq!(d.remaining(), 2);
    assert!(matches!(d.finish(), Err(Error::RemainingBytes)));
}

#[test]
fn keys_values_and_elements_are_scoped() {
    let mut d = de(&[0, 1, b'a', 0, 2, b'1', b'3', 0, 0, 9]);
    let mut key = d.next_key().unwrap().unwrap();
    assert_eq!(key.deserialize_bytes().unwrap(), b"a".to_vec());
    let mut value = d.next_value().unwrap();
    assert_eq!(value.deserialize_u8().unwrap(), 13);
    assert!(d.next_key().unwrap().is_none());
    assert_eq!(d.remaining(), 1);

    assert!(matches!(de(&[0]).next_key(), Err(Error::ExpectedMapKey)));
    assert!(matches!(de(&[1, 0, 1]).next_key(), Err(Error::ExpectedMapKey)));
    assert!(matches!(de(&[0, 2, 1]).next_key(), Err(Error::ExpectedMapKey)));
    assert!(matches!(de(&[0]).next_value(), Err(Error::ExpectedMapValue)));
    assert!(matches!(de(&[0, 2, 1]).next_value(), Err(Error::ExpectedMapValue)));

    let mut d = de(&[0, 1, b'x', 0, 0]);
    let mut element = d.next_element().unwrap().unwrap();
    assert_eq!(element.deserialize_bytes().unwrap(), b"x".to_vec());
    assert!(d.next_element().unwrap().is_none());
    assert!(matches!(de(&[0]).next_element(), Err(Error::ExpectedSeqLength)));
    assert!(matches!(de(&[0, 3, 1]).next_element(), Err(Error::ExpectedSeqValue)));
}

#[test]
fn case_is_ignored_for_ascii_letters_only() {
    assert!(eq_ignore_ascii_case(b"TrUe", b"true"));
    assert!(!eq_ignore_ascii_case(b"true", b"tru"));
    assert!(!eq_ignore_ascii_case(b"[", b"{"));
    assert!(!eq_ignore_ascii_case(b"@", b"`"));
}
