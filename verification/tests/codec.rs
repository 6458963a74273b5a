use amp_async::codecs::{encode_list, CodecError, Dec, Enc, Version};
use amp_async::ser::Serializer;
use amp_async::types::Request;
use bytes::BytesMut;

const WWW_EXAMPLE: &[u8] = &[
    0x00, 0x04, 0x5F, 0x61, 0x73, 0x6B, 0x00, 0x02, 0x32, 0x33, 0x00, 0x08, 0x5F, 0x63, 0x6F,
    0x6D, 0x6D, 0x61, 0x6E, 0x64, 0x00, 0x03, 0x53, 0x75, 0x6D, 0x00, 0x01, 0x61, 0x00, 0x02,
    0x31, 0x33, 0x00, 0x01, 0x62, 0x00, 0x02, 0x38, 0x31, 0x00, 0x00,
];
const WWW_EXAMPLE_DEC: &[(&[u8], &[u8])] = &[
    (b"_ask", b"23"),
    (b"_command", b"Sum"),
    (b"a", b"13"),
    (b"b", b"81"),
];

fn example_box() -> Vec<(Vec<u8>, Vec<u8>)> {
    WWW_EXAMPLE_DEC.iter().map(|(k, v)| (k.to_vec(), v.to_vec())).collect()
}

fn pairs(frame: &[(Vec<u8>, Vec<u8>)]) -> Vec<(&[u8], &[u8])> {
    frame.iter().map(|(k, v)| (k.as_ref(), v.as_ref())).collect()
}

#[test]
fn decode_example() {
    let mut dec = Dec::new();
    let mut buf = BytesMut::new();
    buf.extend(WWW_EXAMPLE);

    let frame = dec.decode(&mut buf).unwrap().unwrap();

    assert_eq!(pairs(&frame), WWW_EXAMPLE_DEC);
    assert_eq!(buf.len(), 0);
    assert_eq!(dec, Dec::new());
}

#[test]
fn codecs_decode_example() {
    let mut dec = Dec::with_version(Version::V1);
    let mut buf = BytesMut::new();
    buf.extend(WWW_EXAMPLE);

    let frame = dec.decode(&mut buf).unwrap().unwrap();

    assert_eq!(pairs(&frame), WWW_EXAMPLE_DEC);
    assert_eq!(buf.len(), 0);
}

#[test]
fn encode_example() {
    let codec = Enc::new();
    let mut buf = BytesMut::new();

    codec.encode(&example_box(), &mut buf).unwrap();
    assert_eq!(buf, WWW_EXAMPLE);
}

fn number(n: u32) -> Vec<u8> {
    let mut serializer = Serializer::default();
    serializer.serialize_u32(n).unwrap();
    serializer.into_bytes()
}

#[test]
fn codecs_encode_example() {
    let fields = vec![(b"a".to_vec(), number(13)), (b"b".to_vec(), number(81))];

    let buf = Request { command: "Sum".into(), tag: Some(b"23".to_vec()), fields }
        .into_bytes(Version::V1)
        .unwrap();

    assert_eq!(buf, WWW_EXAMPLE);
}

#[test]
fn encode_rejects_empty_key() {
    let codec = Enc::new();
    let mut buf = BytesMut::new();
    let res = codec.encode(&vec![(b"a".to_vec(), b"1".to_vec()), (Vec::new(), b"x".to_vec())], &mut buf);
    assert!(matches!(res, Err(CodecError::EmptyKey)));
    // the pair before the faulty one was written
    assert_eq!(&buf[..], &[0, 1, b'a', 0, 1, b'1'][..]);
}

#[test]
fn encode_rejects_long_key() {
    let codec = Enc::new();
    let mut buf = BytesMut::new();
    let res = codec.encode(&vec![(vec![b'k'; 256], b"x".to_vec())], &mut buf);
    assert!(matches!(res, Err(CodecError::KeyTooLong)));
    let mut buf = BytesMut::new();
    codec.encode(&vec![(vec![b'k'; 255], b"x".to_vec())], &mut buf).unwrap();
    assert_eq!(buf.len(), 2 + 255 + 2 + 1 + 2);
    assert_eq!(&buf[..2], &[0x00, 0xff][..]);
}

#[test]
fn encode_v1_rejects_long_value() {
    let codec = Enc::new();
    let mut buf = BytesMut::new();
    let res = codec.encode(&vec![(b"k".to_vec(), vec![7u8; 65536])], &mut buf);
    assert!(matches!(res, Err(CodecError::ValueTooLong)));
    let mut buf = BytesMut::new();
    codec.encode(&vec![(b"k".to_vec(), vec![7u8; 65535])], &mut buf).unwrap();
    assert_eq!(buf.len(), 3 + 2 + 65535 + 2);
    assert_eq!(&buf[3..5], &[0xff, 0xff][..]);
}

#[test]
fn empty_box_is_the_closing_segment() {
    let mut buf = BytesMut::new();
    Enc::new().encode(&Vec::new(), &mut buf).unwrap();
    assert_eq!(&buf[..], &[0u8, 0][..]);
    let mut dec = Dec::new();
    assert_eq!(dec.decode(&mut buf).unwrap(), Some(Vec::new()));
}

#[test]
fn round_trip_v1() {
    let boxes = vec![
        vec![(b"k".to_vec(), Vec::new())],
        vec![(vec![1u8; 255], vec![2u8; 65535]), (b"x".to_vec(), b"y".to_vec())],
        example_box(),
    ];
    for b in boxes {
        let mut buf = BytesMut::new();
        Enc::new().encode(&b, &mut buf).unwrap();
        let mut dec = Dec::new();
        assert_eq!(dec.decode(&mut buf).unwrap(), Some(b));
        assert_eq!(buf.len(), 0);
        assert_eq!(dec, Dec::new());
    }
}

#[test]
fn v2_splits_long_values() {
    for (len, segments) in [(65534usize, 1usize), (65535, 2), (65536, 2), (70000, 2), (131070, 3), (131071, 3)] {
        let value: Vec<u8> = (0..len).map(|i| (i % 251) as u8).collect();
        let b = vec![(b"k".to_vec(), value.clone())];
        let mut buf = BytesMut::new();
        Enc::with_version(Version::V2).encode(&b, &mut buf).unwrap();
        assert_eq!(buf.len(), 3 + len + 2 * segments + 2);
        if len >= 65535 {
            assert_eq!(&buf[3..5], &[0xff, 0xff][..]);
        }
        let mut dec = Dec::with_version(Version::V2);
        let frame = dec.decode(&mut buf).unwrap().unwrap();
        assert_eq!(frame, b);
        assert_eq!(buf.len(), 0);
    }
}

#[test]
fn v2_multiple_of_limit_ends_with_empty_segment() {
    let b = vec![(b"k".to_vec(), vec![9u8; 65535])];
    let mut buf = BytesMut::new();
    Enc::with_version(Version::V2).encode(&b, &mut buf).unwrap();
    let n = buf.len();
    // value segment, empty segment, closing segment
    assert_eq!(&buf[n - 4..], &[0u8, 0, 0, 0][..]);
}

#[test]
fn v1_reads_full_segment_as_plain_value() {
    let b = vec![(b"k".to_vec(), vec![9u8; 65535])];
    let mut buf = BytesMut::new();
    Enc::new().encode(&b, &mut buf).unwrap();
    let mut dec = Dec::new();
    assert_eq!(dec.decode(&mut buf).unwrap(), Some(b));
}

#[test]
fn decode_is_resumable() {
    let mut dec = Dec::new();
    let mut buf = BytesMut::new();
    for (i, byte) in WWW_EXAMPLE.iter().enumerate() {
        buf.extend(&[*byte]);
        let res = dec.decode(&mut buf).unwrap();
        if i + 1 < WWW_EXAMPLE.len() {
            assert_eq!(res, None);
        } else {
            assert_eq!(pairs(&res.unwrap()), WWW_EXAMPLE_DEC);
        }
    }
    assert_eq!(buf.len(), 0);
}

#[test]
fn decode_partial_segment_consumes_nothing() {
    let mut dec = Dec::new();
    let mut buf = BytesMut::from(&[0u8, 4, b'_', b'a'][..]);
    assert_eq!(dec.decode(&mut buf).unwrap(), None);
    assert_eq!(&buf[..], &[0u8, 4, b'_', b'a'][..]);
    assert_eq!(dec, Dec::new());
}

#[test]
fn decode_rejects_long_key() {
    let mut dec = Dec::new();
    let mut buf = BytesMut::from(&[0x01u8, 0x00][..]);
    buf.extend(&[b'k'; 256]);
    assert!(matches!(dec.decode(&mut buf), Err(CodecError::KeyTooLong)));
}

#[test]
fn decode_two_frames() {
    let mut buf = BytesMut::new();
    buf.extend(WWW_EXAMPLE);
    buf.extend(&[0u8, 1, b'z', 0, 0, 0, 0]);
    let mut dec = Dec::new();
    assert_eq!(pairs(&dec.decode(&mut buf).unwrap().unwrap()), WWW_EXAMPLE_DEC);
    assert_eq!(dec.decode(&mut buf).unwrap(), Some(vec![(b"z".to_vec(), Vec::new())]));
    assert_eq!(dec.decode(&mut buf).unwrap(), None);
}

#[test]
fn encode_list_prefixes_each_item() {
    let mut out = BytesMut::new();
    encode_list(&vec![b"ab".to_vec(), Vec::new(), b"c".to_vec()], &mut out).unwrap();
    assert_eq!(&out[..], &[0u8, 2, b'a', b'b', 0, 0, 0, 1, b'c'][..]);
}

#[test]
fn encode_list_limits_the_whole() {
    let mut out = BytesMut::new();
    let res = encode_list(&vec![vec![1u8; 40000], vec![2u8; 30000]], &mut out);
    assert!(matches!(res, Err(CodecError::ValueTooLong)));
    assert_eq!(out.len(), 40002);
    let mut out = BytesMut::new();
    encode_list(&vec![vec![1u8; 40000], vec![2u8; 25531]], &mut out).unwrap();
    assert_eq!(out.len(), 65535);
    let mut out = BytesMut::new();
    assert!(matches!(
        encode_list(&vec![vec![1u8; 65534]], &mut out),
        Err(CodecError::ValueTooLong)
    ));
}

#[test]
fn a_stream_that_ends_inside_a_frame_is_faulty() {
    // between two frames
    let mut buf = BytesMut::new();
    assert_eq!(Dec::new().decode_eof(&mut buf).unwrap(), None);
    // a last frame
    let mut buf = BytesMut::from(WWW_EXAMPLE);
    assert_eq!(pairs(&Dec::new().decode_eof(&mut buf).unwrap().unwrap()), WWW_EXAMPLE_DEC);
    // inside a segment
    let mut buf = BytesMut::from(&WWW_EXAMPLE[..5]);
    assert!(matches!(Dec::new().decode_eof(&mut buf), Err(CodecError::BadLength)));
    // between two segments, before the closing one
    let mut buf = BytesMut::from(&WWW_EXAMPLE[..WWW_EXAMPLE.len() - 2]);
    assert!(matches!(Dec::new().decode_eof(&mut buf), Err(CodecError::BadLength)));
    // between a key and its value
    let mut buf = BytesMut::from(&WWW_EXAMPLE[..6]);
    assert!(matches!(Dec::new().decode_eof(&mut buf), Err(CodecError::BadLength)));
    let mut buf = BytesMut::from(&[0x01u8, 0x00][..]);
    assert!(matches!(Dec::new().decode_eof(&mut buf), Err(CodecError::KeyTooLong)));
}
