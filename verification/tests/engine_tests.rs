use bytes::Bytes;
use bytehaus::engine::ByteHaus;
use bytehaus::errors::ByteHausError;
use bytehaus::store::{DataFile, HintFile};
use bytehaus::codec::{make_record, encode};

fn open_store(max: usize) -> ByteHaus {
    let mut db = ByteHaus::new(String::from("bytehaus-data"), max);
    db.open_db().unwrap();
    db
}

#[test]
fn write_then_read() {
    let mut db = open_store(1 << 20);
    db.write(String::from("greeting"), String::from("hello")).unwrap();
    assert_eq!(db.read(String::from("greeting")), Some(String::from("hello")));
    assert_eq!(db.read(String::from("missing")), None);
}

#[test]
fn overwrite_takes_latest() {
    let mut db = open_store(1 << 20);
    db.write(String::from("k"), String::from("first")).unwrap();
    db.write(String::from("k"), String::from("second")).unwrap();
    assert_eq!(db.read(String::from("k")), Some(String::from("second")));
}

#[test]
fn empty_value_is_legitimate() {
    let mut db = open_store(1 << 20);
    db.write(String::from("k"), String::from("")).unwrap();
    assert_eq!(db.read(String::from("k")), Some(String::from("")));
}

#[test]
fn delete_then_read() {
    let mut db = open_store(1 << 20);
    db.write(String::from("k"), String::from("v")).unwrap();
    db.delete(String::from("k")).unwrap();
    assert_eq!(db.read(String::from("k")), None);
}

#[test]
fn delete_missing_key_fails() {
    let mut db = open_store(1 << 20);
    assert_eq!(
        db.delete(String::from("never-written")),
        Err(ByteHausError::DeleteKeyMissing)
    );
}

#[test]
fn closed_store_fails_deterministically() {
    let mut db = ByteHaus::new(String::from("d"), 1 << 20);
    assert_eq!(
        db.write(String::from("k"), String::from("v")),
        Err(ByteHausError::DiskWriteFailed)
    );
    assert_eq!(db.read(String::from("k")), None);
    assert_eq!(db.delete(String::from("k")), Err(ByteHausError::DiskWriteFailed));
    assert_eq!(db.close_db(), Err(ByteHausError::DiskWriteFailed));
    let mut db2 = open_store(1 << 20);
    db2.write(String::from("k"), String::from("v")).unwrap();
    db2.close_db().unwrap();
    assert_eq!(db2.read(String::from("k")), None);
    assert_eq!(
        db2.write(String::from("k"), String::from("w")),
        Err(ByteHausError::DiskWriteFailed)
    );
}

#[test]
fn scenario_write_delete_and_reopen() {
    let mut db = open_store(1 << 20);
    db.write(String::from("a"), String::from("1")).unwrap();
    db.write(String::from("b"), String::from("2")).unwrap();
    db.write(String::from("a"), String::from("3")).unwrap();
    db.delete(String::from("b")).unwrap();
    assert_eq!(db.read(String::from("a")), Some(String::from("3")));
    assert_eq!(db.read(String::from("b")), None);
    // close, then reopen the same store: the prior active file is sealed
    // and fully scanned by recovery
    db.close_db().unwrap();
    db.open_db().unwrap();
    assert_eq!(db.read(String::from("a")), Some(String::from("3")));
    assert_eq!(db.read(String::from("b")), None);
}

#[test]
fn scenario_reopen_from_directory_snapshot() {
    let mut db = open_store(1 << 20);
    db.write(String::from("a"), String::from("1")).unwrap();
    db.write(String::from("b"), String::from("2")).unwrap();
    db.write(String::from("a"), String::from("3")).unwrap();
    db.delete(String::from("b")).unwrap();
    db.close_db().unwrap();
    let (files, hints) = db.storage_snapshot();
    let mut db2 = ByteHaus::with_files(String::from("bytehaus-data"), 1 << 20, files, hints);
    db2.open_db().unwrap();
    assert_eq!(db2.read(String::from("a")), Some(String::from("3")));
    assert_eq!(db2.read(String::from("b")), None);
}

#[test]
fn rotation_seals_exactly_once() {
    // each record is 20 header bytes + 4 key bytes + 6 value bytes = 30
    let mut db = open_store(100);
    db.write(String::from("key1"), String::from("value1")).unwrap();
    db.write(String::from("key2"), String::from("value2")).unwrap();
    db.write(String::from("key3"), String::from("value3")).unwrap();
    assert_eq!(db.sealed_count(), 0);
    db.write(String::from("key4"), String::from("value4")).unwrap();
    assert_eq!(db.sealed_count(), 1);
    let (files_before, _) = db.storage_snapshot();
    db.write(String::from("key5"), String::from("value5")).unwrap();
    assert_eq!(db.sealed_count(), 1);
    // the sealed file's bytes never change after sealing
    let (files_after, _) = db.storage_snapshot();
    assert_eq!(files_before[0].file_id, files_after[0].file_id);
    assert_eq!(files_before[0].bytes, files_after[0].bytes);
    for (k, v) in [
        ("key1", "value1"),
        ("key2", "value2"),
        ("key3", "value3"),
        ("key4", "value4"),
        ("key5", "value5"),
    ] {
        assert_eq!(db.read(String::from(k)), Some(String::from(v)));
    }
}

#[test]
fn reopen_after_rotation() {
    let mut db = open_store(100);
    for (k, v) in [("key1", "value1"), ("key2", "value2"), ("key3", "value3"), ("key4", "value4")] {
        db.write(String::from(k), String::from(v)).unwrap();
    }
    db.delete(String::from("key2")).unwrap();
    db.close_db().unwrap();
    db.open_db().unwrap();
    assert_eq!(db.read(String::from("key1")), Some(String::from("value1")));
    assert_eq!(db.read(String::from("key2")), None);
    assert_eq!(db.read(String::from("key4")), Some(String::from("value4")));
}

#[test]
fn open_rejects_orphan_hint_file() {
    let record = make_record(
        Bytes::copy_from_slice(b"a"),
        Bytes::copy_from_slice(b"1"),
        1,
        false,
    );
    let df = DataFile { file_id: 1, bytes: encode(&record) };
    let orphan = HintFile { file_id: 7, bytes: Vec::new() };
    let mut db = ByteHaus::with_files(String::from("d"), 1 << 20, vec![df], vec![orphan]);
    assert_eq!(db.open_db(), Err(ByteHausError::ReconstructionFailed));
}

#[test]
fn open_fails_when_identifiers_exhausted() {
    let df = DataFile { file_id: u64::MAX, bytes: Vec::new() };
    let mut db = ByteHaus::with_files(String::from("d"), 1 << 20, vec![df], Vec::new());
    assert_eq!(db.open_db(), Err(ByteHausError::DataFileCreateFailed));
}

#[test]
fn recovery_tolerates_truncated_tail() {
    let r1 = make_record(
        Bytes::copy_from_slice(b"a"),
        Bytes::copy_from_slice(b"1"),
        1,
        false,
    );
    let r2 = make_record(
        Bytes::copy_from_slice(b"b"),
        Bytes::copy_from_slice(b"2"),
        2,
        false,
    );
    let mut bytes = encode(&r1);
    bytes.extend_from_slice(&encode(&r2));
    // a partial third record: fewer bytes than one header
    bytes.extend_from_slice(&[9, 9, 9, 9, 9]);
    let df = DataFile { file_id: 1, bytes };
    let mut db = ByteHaus::with_files(String::from("d"), 1 << 20, vec![df], Vec::new());
    db.open_db().unwrap();
    assert_eq!(db.read(String::from("a")), Some(String::from("1")));
    assert_eq!(db.read(String::from("b")), Some(String::from("2")));
}

#[test]
fn recovery_skips_damaged_record() {
    let r1 = make_record(
        Bytes::copy_from_slice(b"a"),
        Bytes::copy_from_slice(b"1"),
        1,
        false,
    );
    let r2 = make_record(
        Bytes::copy_from_slice(b"b"),
        Bytes::copy_from_slice(b"2"),
        2,
        false,
    );
    let mut bytes = encode(&r1);
    let mut second = encode(&r2);
    second[4] = second[4].wrapping_add(1); // checksum now wrong
    bytes.extend_from_slice(&second);
    let df = DataFile { file_id: 1, bytes };
    let mut db = ByteHaus::with_files(String::from("d"), 1 << 20, vec![df], Vec::new());
    db.open_db().unwrap();
    assert_eq!(db.read(String::from("a")), Some(String::from("1")));
    assert_eq!(db.read(String::from("b")), None);
}

#[test]
fn recovery_skips_non_utf8_payloads() {
    let bad_key = make_record(
        Bytes::copy_from_slice(&[0xFF, 0xFE]),
        Bytes::copy_from_slice(b"x"),
        1,
        false,
    );
    let bad_value = make_record(
        Bytes::copy_from_slice(b"v"),
        Bytes::copy_from_slice(&[0xC0, 0x00]),
        2,
        false,
    );
    let good = make_record(
        Bytes::copy_from_slice(b"g"),
        Bytes::copy_from_slice(b"ok"),
        3,
        false,
    );
    let mut bytes = encode(&bad_key);
    bytes.extend_from_slice(&encode(&bad_value));
    bytes.extend_from_slice(&encode(&good));
    let df = DataFile { file_id: 1, bytes };
    let mut db = ByteHaus::with_files(String::from("d"), 1 << 20, vec![df], Vec::new());
    db.open_db().unwrap();
    assert_eq!(db.read(String::from("g")), Some(String::from("ok")));
    assert_eq!(db.read(String::from("v")), None);
}

#[test]
fn reconstruct_keydir_from_log() {
    let r1 = make_record(
        Bytes::copy_from_slice(b"a"),
        Bytes::copy_from_slice(b"1"),
        1,
        false,
    );
    let r2 = make_record(
        Bytes::copy_from_slice(b"b"),
        Bytes::copy_from_slice(b"22"),
        2,
        false,
    );
    let tomb = make_record(
        Bytes::copy_from_slice(b"a"),
        Bytes::copy_from_slice(b""),
        3,
        true,
    );
    let mut bytes = encode(&r1);
    bytes.extend_from_slice(&encode(&r2));
    bytes.extend_from_slice(&encode(&tomb));
    let df = DataFile { file_id: 1, bytes };
    let mut db = ByteHaus::with_files(String::from("d"), 1 << 20, vec![df], Vec::new());
    let kd = db.reconstruct_from_hint_file().unwrap();
    assert_eq!(kd.len(), 1);
    assert!(!kd.contains("a"));
    let entry = kd.get("b").unwrap();
    assert_eq!(entry.file_id, 1);
    assert_eq!(entry.value_sz, 2);
    assert_eq!(entry.tstamp, 2);
}

#[test]
fn write_to_file_appends_encoding() {
    let mut db = open_store(1 << 20);
    let record = make_record(
        Bytes::copy_from_slice(b"k"),
        Bytes::copy_from_slice(b"v"),
        5,
        false,
    );
    let expected = encode(&record);
    db.write_to_file(record).unwrap();
    let (files, _) = db.storage_snapshot();
    assert_eq!(files.last().unwrap().bytes, expected);
}

#[test]
fn update_keydir_returns_ok() {
    let mut db = open_store(1 << 20);
    db.write(String::from("a"), String::from("1")).unwrap();
    let entry = bytehaus::keydir::KeyDirRecord {
        file_id: 99,
        value_sz: 0,
        value_pos: 0,
        tstamp: 0,
    };
    db.update_keydir(String::from("zzz"), entry).unwrap();
    assert_eq!(db.read(String::from("a")), Some(String::from("1")));
}

#[test]
fn cycle_data_file_seals_active() {
    let mut db = open_store(1 << 20);
    db.write(String::from("a"), String::from("1")).unwrap();
    assert_eq!(db.sealed_count(), 0);
    db.cycle_data_file().unwrap();
    assert_eq!(db.sealed_count(), 1);
    assert_eq!(db.read(String::from("a")), Some(String::from("1")));
    db.write(String::from("b"), String::from("2")).unwrap();
    assert_eq!(db.read(String::from("b")), Some(String::from("2")));
}

#[test]
fn recovery_is_idempotent() {
    let mut db = open_store(100);
    db.write(String::from("key1"), String::from("value1")).unwrap();
    db.write(String::from("key2"), String::from("value2")).unwrap();
    db.write(String::from("key3"), String::from("value3")).unwrap();
    db.write(String::from("key4"), String::from("value4")).unwrap();
    db.delete(String::from("key3")).unwrap();
    db.close_db().unwrap();
    let (f1, h1) = db.storage_snapshot();
    let (f2, h2) = db.storage_snapshot();
    let mut a = ByteHaus::with_files(String::from("d"), 100, f1, h1);
    a.open_db().unwrap();
    let mut b = ByteHaus::with_files(String::from("d"), 100, f2, h2);
    b.open_db().unwrap();
    for k in ["key1", "key2", "key3", "key4", "other"] {
        assert_eq!(a.read(String::from(k)), b.read(String::from(k)));
    }
    let kd_a = a.reconstruct_from_hint_file().unwrap();
    let kd_b = b.reconstruct_from_hint_file().unwrap();
    assert_eq!(kd_a.len(), kd_b.len());
    // entry for entry: same file, offset, size and timestamp
    for k in ["key1", "key2", "key4"] {
        let ea = kd_a.get(k).unwrap();
        let eb = kd_b.get(k).unwrap();
        assert_eq!(ea, eb);
    }
    assert!(kd_a.get("key3").is_none());
    assert!(kd_b.get("key3").is_none());
}
