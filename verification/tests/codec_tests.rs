use bytes::Bytes;
use bytehaus::codec::{make_record, encode, decode, crc_region, push_bytes, HEADER_BYTES};
use bytehaus::errors::ByteHausError;

#[test]
fn round_trip_simple() {
    let key = Bytes::copy_from_slice(b"hello");
    let value = Bytes::copy_from_slice(b"world");
    let record = make_record(key, value, 42, false);
    let encoded = encode(&record);
    let decoded = decode(&encoded).unwrap();
    assert_eq!(decoded.key.as_ref(), b"hello");
    assert_eq!(decoded.value.as_ref(), b"world");
    assert_eq!(decoded.tstamp, 42);
    assert!(!decoded.tombstone);
    assert_eq!(decoded.ksz, 5);
    assert_eq!(decoded.value_sz, 5);
}

#[test]
fn round_trip_arbitrary_bytes() {
    let key = Bytes::copy_from_slice(&[0x00, 0xFF, 0x80, 0x7F]);
    let value = Bytes::copy_from_slice(&[0xDE, 0xAD, 0xBE, 0xEF, 0x00]);
    let record = make_record(key, value, u64::MAX, false);
    let encoded = encode(&record);
    let decoded = decode(&encoded).unwrap();
    assert_eq!(decoded.key.as_ref(), &[0x00, 0xFF, 0x80, 0x7F]);
    assert_eq!(decoded.value.as_ref(), &[0xDE, 0xAD, 0xBE, 0xEF, 0x00]);
    assert_eq!(decoded.tstamp, u64::MAX);
}

#[test]
fn round_trip_empty_value() {
    let key = Bytes::copy_from_slice(b"k");
    let value = Bytes::copy_from_slice(b"");
    let record = make_record(key, value, 7, false);
    let encoded = encode(&record);
    let decoded = decode(&encoded).unwrap();
    assert_eq!(decoded.key.as_ref(), b"k");
    assert_eq!(decoded.value.as_ref(), b"");
    assert!(!decoded.tombstone);
}

#[test]
fn tombstone_distinct_from_empty_value() {
    let tomb = make_record(
        Bytes::copy_from_slice(b"k"),
        Bytes::copy_from_slice(b""),
        7,
        true,
    );
    let tomb_bytes = encode(&tomb);
    let empty = make_record(
        Bytes::copy_from_slice(b"k"),
        Bytes::copy_from_slice(b""),
        7,
        false,
    );
    let empty_bytes = encode(&empty);
    // value_size field: reserved marker for the tombstone, zero otherwise
    assert_eq!(&tomb_bytes[16..20], &[0xFF, 0xFF, 0xFF, 0xFF]);
    assert_eq!(&empty_bytes[16..20], &[0x00, 0x00, 0x00, 0x00]);
    let d1 = decode(&tomb_bytes).unwrap();
    assert!(d1.tombstone);
    assert_eq!(d1.value.as_ref(), b"");
    let d2 = decode(&empty_bytes).unwrap();
    assert!(!d2.tombstone);
}

#[test]
fn exact_encoding_bytes() {
    let record = make_record(
        Bytes::copy_from_slice(b"k"),
        Bytes::copy_from_slice(b"v"),
        1,
        false,
    );
    let encoded = encode(&record);
    let expected: Vec<u8> = vec![
        72, 57, 144, 186, // checksum
        1, 0, 0, 0, 0, 0, 0, 0, // timestamp
        1, 0, 0, 0, // key size
        1, 0, 0, 0, // value size
        0x6b, // 'k'
        0x76, // 'v'
    ];
    assert_eq!(encoded, expected);
}

#[test]
fn checksum_formula() {
    let data: Vec<u8> = vec![1, 2, 3];
    assert_eq!(crc_region(&data, 0, 3), 1026);
    assert_eq!(crc_region(&data, 0, 0), 0);
}

#[test]
fn decode_truncated() {
    let record = make_record(
        Bytes::copy_from_slice(b"key"),
        Bytes::copy_from_slice(b"value"),
        9,
        false,
    );
    let mut encoded = encode(&record);
    encoded.pop();
    assert!(matches!(decode(&encoded), Err(ByteHausError::TruncatedError)));
    let short: Vec<u8> = vec![0; HEADER_BYTES - 1];
    assert!(matches!(decode(&short), Err(ByteHausError::TruncatedError)));
}

#[test]
fn decode_corrupt() {
    let record = make_record(
        Bytes::copy_from_slice(b"key"),
        Bytes::copy_from_slice(b"value"),
        9,
        false,
    );
    let mut encoded = encode(&record);
    // damage a timestamp byte: sizes stay intact, the checksum does not
    encoded[4] = encoded[4].wrapping_add(1);
    assert!(matches!(decode(&encoded), Err(ByteHausError::CorruptRecord)));
}

#[test]
fn keydir_record_of_a_record() {
    let live = make_record(
        Bytes::copy_from_slice(b"k"),
        Bytes::copy_from_slice(b"vv"),
        9,
        false,
    );
    let entry = live.get_keydir_record(3, 25).unwrap();
    assert_eq!(entry.file_id, 3);
    assert_eq!(entry.value_sz, 2);
    assert_eq!(entry.value_pos, 25);
    assert_eq!(entry.tstamp, 9);
    let tomb = make_record(
        Bytes::copy_from_slice(b"k"),
        Bytes::copy_from_slice(b""),
        9,
        true,
    );
    assert!(tomb.get_keydir_record(3, 25).is_none());
}

#[test]
fn push_bytes_appends() {
    let mut dst: Vec<u8> = vec![1, 2];
    push_bytes(&mut dst, &[3, 4, 5]);
    assert_eq!(dst, vec![1, 2, 3, 4, 5]);
}
