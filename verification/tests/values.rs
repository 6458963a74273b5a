use amp_async::codecs::Version;
use amp_async::types::Error;
use amp_async::value::{value_to_bytes, Value};
use amp_async::value_de::{value_from_bytes, Schema};
use bytes::Bytes;

const WWW_EXAMPLE: &[u8] = &[
    0x00, 0x04, 0x5F, 0x61, 0x73, 0x6B, 0x00, 0x02, 0x32, 0x33, 0x00, 0x08, 0x5F, 0x63, 0x6F,
    0x6D, 0x6D, 0x61, 0x6E, 0x64, 0x00, 0x03, 0x53, 0x75, 0x6D, 0x00, 0x01, 0x61, 0x00, 0x02,
    0x31, 0x33, 0x00, 0x01, 0x62, 0x00, 0x02, 0x38, 0x31, 0x00, 0x00,
];

const LIST_ENC: [u8; 42] = [
    0, 1, 97, 0, 1, 49, 0, 1, 98, 0, 1, 50, 0, 0, 0, 1, 97, 0, 1, 51, 0, 1, 98, 0, 1, 52, 0, 0, 0,
    1, 97, 0, 1, 53, 0, 1, 98, 0, 1, 54, 0, 0,
];

fn ab(a: u64, b: u64) -> Value {
    Value::Record(vec![(b"a".to_vec(), Value::UInt(a)), (b"b".to_vec(), Value::UInt(b))])
}

fn read(schema: Schema, input: &[u8]) -> Result<Value, Error> {
    value_from_bytes(Version::V1, &schema, Bytes::copy_from_slice(input))
}

#[test]
fn a_request_with_integers_is_the_canonical_frame() {
    let request = Value::Record(vec![
        (b"_ask".to_vec(), Value::Present(Box::new(Value::Bytes(b"23".to_vec())))),
        (b"_command".to_vec(), Value::Str("Sum".into())),
        (b"a".to_vec(), Value::UInt(13)),
        (b"b".to_vec(), Value::UInt(81)),
    ]);
    assert_eq!(value_to_bytes(Version::V1, &request).unwrap(), WWW_EXAMPLE);
}

#[test]
fn a_list_of_records_is_their_frames() {
    let list = Value::List(vec![ab(1, 2), ab(3, 4), ab(5, 6)]);
    assert_eq!(value_to_bytes(Version::V1, &list).unwrap(), LIST_ENC.to_vec());
    let schema = Schema::List(Box::new(Schema::Dictionary(Box::new(Schema::U64))));
    assert_eq!(read(schema, &LIST_ENC).unwrap(), list);
}

#[test]
fn a_single_record_leaves_the_rest_of_a_list() {
    let schema = Schema::Dictionary(Box::new(Schema::Bytes));
    assert!(matches!(read(schema, &LIST_ENC), Err(Error::RemainingBytes)));
}

#[test]
fn values_are_written_as_the_table_says() {
    let v = Version::V1;
    assert_eq!(value_to_bytes(v, &Value::Unit).unwrap(), b"".to_vec());
    assert_eq!(value_to_bytes(v, &Value::Bool(true)).unwrap(), b"True".to_vec());
    assert_eq!(value_to_bytes(v, &Value::Bool(false)).unwrap(), b"False".to_vec());
    assert_eq!(value_to_bytes(v, &Value::Int(-42)).unwrap(), b"-42".to_vec());
    assert_eq!(value_to_bytes(v, &Value::UInt(0)).unwrap(), b"0".to_vec());
    assert_eq!(value_to_bytes(v, &Value::Char('ß')).unwrap(), "ß".as_bytes().to_vec());
    assert_eq!(value_to_bytes(v, &Value::Str("hi".into())).unwrap(), b"hi".to_vec());
    assert_eq!(value_to_bytes(v, &Value::Bytes(vec![0, 1])).unwrap(), vec![0, 1]);
    assert_eq!(value_to_bytes(v, &Value::Absent).unwrap(), b"".to_vec());
    assert_eq!(
        value_to_bytes(v, &Value::Present(Box::new(Value::Int(7)))).unwrap(),
        b"7".to_vec()
    );
    assert_eq!(
        value_to_bytes(v, &Value::Sequence(vec![Value::Int(10), Value::Absent, Value::Str("x".into())]))
            .unwrap(),
        vec![0, 2, b'1', b'0', 0, 0, 0, 1, b'x']
    );
    assert_eq!(
        value_to_bytes(
            v,
            &Value::Record(vec![(
                b"inner".to_vec(),
                Value::Record(vec![(b"k".to_vec(), Value::Bool(true))])
            )])
        )
        .unwrap(),
        b"\x00\x05inner\x00\x0b\x00\x01k\x00\x04True\x00\x00\x00\x00".to_vec()
    );
}

#[test]
fn faults_are_reported_in_writing_order() {
    let long = Value::Bytes(vec![0u8; 65536]);
    assert!(matches!(
        value_to_bytes(Version::V1, &Value::Sequence(vec![Value::Int(1), long])),
        Err(Error::ValueTooLong)
    ));
    let long = Value::Bytes(vec![0u8; 65536]);
    assert!(matches!(
        value_to_bytes(Version::V2, &Value::Sequence(vec![long])),
        Err(Error::ValueTooLong)
    ));
    let record = |key: Vec<u8>, value: Value| Value::Record(vec![(key, value)]);
    assert!(matches!(
        value_to_bytes(Version::V1, &record(Vec::new(), Value::Bytes(vec![0u8; 65536]))),
        Err(Error::EmptyKey)
    ));
    assert!(matches!(
        value_to_bytes(Version::V1, &record(vec![b'k'; 256], Value::Unit)),
        Err(Error::KeyTooLong)
    ));
    assert!(matches!(
        value_to_bytes(Version::V1, &record(b"k".to_vec(), Value::Bytes(vec![0u8; 65536]))),
        Err(Error::ValueTooLong)
    ));
    let bytes =
        value_to_bytes(Version::V2, &record(b"k".to_vec(), Value::Bytes(vec![0u8; 65536]))).unwrap();
    assert_eq!(bytes.len(), 3 + 65536 + 4 + 2);
    let schema = Schema::Dictionary(Box::new(Schema::Bytes));
    assert_eq!(
        value_from_bytes(Version::V2, &schema, Bytes::from(bytes)).unwrap(),
        record(b"k".to_vec(), Value::Bytes(vec![0u8; 65536]))
    );
}

#[test]
fn scalars_are_read_by_type() {
    assert_eq!(read(Schema::Unit, b"").unwrap(), Value::Unit);
    assert_eq!(read(Schema::Bool, b"TRUE").unwrap(), Value::Bool(true));
    assert!(matches!(read(Schema::Bool, b"1"), Err(Error::ExpectedBool)));
    assert_eq!(read(Schema::I8, b"-128").unwrap(), Value::Int(-128));
    assert!(matches!(read(Schema::I8, b"128"), Err(Error::ExpectedInteger)));
    assert_eq!(read(Schema::I16, b"300").unwrap(), Value::Int(300));
    assert_eq!(read(Schema::I32, b"-70000").unwrap(), Value::Int(-70000));
    assert_eq!(read(Schema::I64, b"444").unwrap(), Value::Int(444));
    assert_eq!(read(Schema::U8, b"255").unwrap(), Value::UInt(255));
    assert!(matches!(read(Schema::U8, b"-1"), Err(Error::ExpectedInteger)));
    assert_eq!(read(Schema::U16, b"65535").unwrap(), Value::UInt(65535));
    assert_eq!(read(Schema::U32, b"70000").unwrap(), Value::UInt(70000));
    assert_eq!(read(Schema::U64, b"81").unwrap(), Value::UInt(81));
    assert_eq!(read(Schema::Char, "ß".as_bytes()).unwrap(), Value::Char('ß'));
    assert!(matches!(read(Schema::Char, b"ab"), Err(Error::ExpectedChar)));
    assert_eq!(read(Schema::Str, b"hi").unwrap(), Value::Str("hi".into()));
    assert!(matches!(read(Schema::Str, &[0x80]), Err(Error::ExpectedUtf8)));
    assert_eq!(read(Schema::Bytes, &[0x80]).unwrap(), Value::Bytes(vec![0x80]));
    assert!(matches!(read(Schema::Unit, b"x"), Err(Error::RemainingBytes)));
}

#[test]
fn empty_input_is_an_absent_value() {
    let optional = || Schema::Optional(Box::new(Schema::U8));
    assert_eq!(read(optional(), b"").unwrap(), Value::Absent);
    assert_eq!(read(optional(), b"7").unwrap(), Value::Present(Box::new(Value::UInt(7))));
    assert!(matches!(read(optional(), b"x"), Err(Error::ExpectedInteger)));
    assert!(matches!(read(Schema::U8, b""), Err(Error::ExpectedInteger)));
}

#[test]
fn elements_and_entries_are_scoped() {
    let seq = || Schema::Sequence(Box::new(Schema::U8));
    assert_eq!(
        read(seq(), &[0, 1, b'7', 0, 2, b'1', b'2', 0, 0]).unwrap(),
        Value::Sequence(vec![Value::UInt(7), Value::UInt(12)])
    );
    assert!(matches!(read(seq(), &[0, 1, b'7']), Err(Error::ExpectedSeqLength)));
    assert!(matches!(read(seq(), &[0, 5, b'7']), Err(Error::ExpectedSeqValue)));
    // bytes that an element leaves in its scope come before its own error
    assert!(matches!(read(seq(), &[0, 1, b'x', 0, 0]), Err(Error::RemainingBytes)));
    assert!(matches!(read(seq(), &[0, 0, 0, 1, b'7', 0, 0]), Err(Error::ExpectedInteger)));
    let units = Schema::Sequence(Box::new(Schema::Unit));
    assert!(matches!(read(units, &[0, 1, b'x', 0, 0]), Err(Error::RemainingBytes)));
    let map = || Schema::Dictionary(Box::new(Schema::Bool));
    assert_eq!(
        read(map(), b"\x00\x01k\x00\x04true\x00\x00").unwrap(),
        Value::Record(vec![(b"k".to_vec(), Value::Bool(true))])
    );
    assert!(matches!(read(map(), b"\x00\x01k\x00\x04trux\x00\x00"), Err(Error::ExpectedBool)));
    assert!(matches!(read(map(), b"\x00\x01k"), Err(Error::ExpectedMapValue)));
    assert!(matches!(read(map(), b"\x00\x01k\x00\x04true"), Err(Error::ExpectedMapKey)));
    let units = Schema::Dictionary(Box::new(Schema::Unit));
    assert!(matches!(read(units, b"\x00\x01k\x00\x01x\x00\x00"), Err(Error::RemainingBytes)));
}

#[test]
fn a_list_of_items_that_take_nothing_ends() {
    let schema = Schema::List(Box::new(Schema::Unit));
    assert_eq!(read(schema, b"").unwrap(), Value::List(Vec::new()));
    let schema = Schema::List(Box::new(Schema::Unit));
    assert!(matches!(read(schema, b"x"), Err(Error::RemainingBytes)));
}
