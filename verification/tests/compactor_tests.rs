use bytes::Bytes;
use bytehaus::engine::ByteHaus;
use bytehaus::compactor::Compactor;
use bytehaus::store::{DataFile, HintFile};
use bytehaus::codec::{make_record, encode, decode};

#[test]
fn merge_keeps_newest_and_drops_tombstoned() {
    let f1 = {
        let a1 = make_record(
            Bytes::copy_from_slice(b"a"),
            Bytes::copy_from_slice(b"1"),
            1,
            false,
        );
        let b2 = make_record(
            Bytes::copy_from_slice(b"b"),
            Bytes::copy_from_slice(b"2"),
            2,
            false,
        );
        let mut bytes = encode(&a1);
        bytes.extend_from_slice(&encode(&b2));
        DataFile { file_id: 1, bytes }
    };
    let f2 = {
        let a3 = make_record(
            Bytes::copy_from_slice(b"a"),
            Bytes::copy_from_slice(b"3"),
            3,
            false,
        );
        let tomb_b = make_record(
            Bytes::copy_from_slice(b"b"),
            Bytes::copy_from_slice(b""),
            4,
            true,
        );
        let mut bytes = encode(&a3);
        bytes.extend_from_slice(&encode(&tomb_b));
        DataFile { file_id: 2, bytes }
    };
    let inputs = vec![f1, f2];
    let hints: Vec<HintFile> = Vec::new();
    let (merged, hint) = Compactor::merge_files(&inputs, &hints, 2).unwrap();
    assert_eq!(merged.file_id, 2);
    assert_eq!(hint.file_id, 2);
    // exactly one live record survives: the newest value of "a"
    let only = decode(&merged.bytes).unwrap();
    assert_eq!(only.key.as_ref(), b"a");
    assert_eq!(only.value.as_ref(), b"3");
    assert!(!only.tombstone);
    let record_len = 20 + 1 + 1;
    assert_eq!(merged.bytes.len(), record_len);
}

#[test]
fn recovery_from_merged_file_and_hint() {
    let mut db = ByteHaus::new(String::from("d"), 1 << 20);
    db.open_db().unwrap();
    db.write(String::from("a"), String::from("1")).unwrap();
    db.write(String::from("b"), String::from("2")).unwrap();
    db.write(String::from("a"), String::from("3")).unwrap();
    db.delete(String::from("b")).unwrap();
    db.cycle_data_file().unwrap();
    db.write(String::from("c"), String::from("4")).unwrap();
    db.cycle_data_file().unwrap();
    assert_eq!(db.sealed_count(), 2);
    db.launch_compactor().unwrap();
    assert_eq!(db.sealed_count(), 1);
    assert_eq!(db.read(String::from("a")), Some(String::from("3")));
    assert_eq!(db.read(String::from("b")), None);
    assert_eq!(db.read(String::from("c")), Some(String::from("4")));
    // the merged file and its hint file survive a close and reopen
    db.close_db().unwrap();
    let (files, hints) = db.storage_snapshot();
    assert_eq!(hints.len(), 1);
    let mut db2 = ByteHaus::with_files(String::from("d"), 1 << 20, files, hints);
    db2.open_db().unwrap();
    assert_eq!(db2.read(String::from("a")), Some(String::from("3")));
    assert_eq!(db2.read(String::from("b")), None);
    assert_eq!(db2.read(String::from("c")), Some(String::from("4")));
}

#[test]
fn create_hint_file_indexes_live_records() {
    let a1 = make_record(
        Bytes::copy_from_slice(b"a"),
        Bytes::copy_from_slice(b"old"),
        1,
        false,
    );
    let a2 = make_record(
        Bytes::copy_from_slice(b"a"),
        Bytes::copy_from_slice(b"new"),
        2,
        false,
    );
    let mut bytes = encode(&a1);
    bytes.extend_from_slice(&encode(&a2));
    let df = DataFile { file_id: 5, bytes };
    let hint = Compactor::create_hint_file(&df).unwrap();
    assert_eq!(hint.file_id, 5);
    // one entry: key size 4 | key 1 | value size 4 | value pos 8 | tstamp 8
    assert_eq!(hint.bytes.len(), 24 + 1);
    // recovery through the hint yields the newest value
    let mut db = ByteHaus::with_files(String::from("d"), 1 << 20, vec![df], vec![hint]);
    db.open_db().unwrap();
    assert_eq!(db.read(String::from("a")), Some(String::from("new")));
}

#[test]
fn malformed_hint_falls_back_to_scan() {
    let a1 = make_record(
        Bytes::copy_from_slice(b"a"),
        Bytes::copy_from_slice(b"1"),
        1,
        false,
    );
    let df = DataFile { file_id: 1, bytes: encode(&a1) };
    // a hint file that is not a whole number of entries
    let bad_hint = HintFile { file_id: 1, bytes: vec![1, 2, 3] };
    let mut db = ByteHaus::with_files(String::from("d"), 1 << 20, vec![df], vec![bad_hint]);
    db.open_db().unwrap();
    assert_eq!(db.read(String::from("a")), Some(String::from("1")));
}

#[test]
fn compactor_with_one_sealed_file_is_a_no_op() {
    let mut db = ByteHaus::new(String::from("d"), 1 << 20);
    db.open_db().unwrap();
    db.write(String::from("a"), String::from("1")).unwrap();
    db.cycle_data_file().unwrap();
    assert_eq!(db.sealed_count(), 1);
    db.launch_compactor().unwrap();
    assert_eq!(db.sealed_count(), 1);
    assert_eq!(db.read(String::from("a")), Some(String::from("1")));
}

#[test]
fn merge_drops_non_utf8_payloads() {
    let bad = make_record(
        Bytes::copy_from_slice(b"bad"),
        Bytes::copy_from_slice(&[0xC0, 0x00]),
        1,
        false,
    );
    let good = make_record(
        Bytes::copy_from_slice(b"good"),
        Bytes::copy_from_slice(b"yes"),
        2,
        false,
    );
    let mut bytes = encode(&bad);
    bytes.extend_from_slice(&encode(&good));
    let inputs = vec![DataFile { file_id: 1, bytes }];
    let hints: Vec<HintFile> = Vec::new();
    let (merged, _) = Compactor::merge_files(&inputs, &hints, 1).unwrap();
    let only = decode(&merged.bytes).unwrap();
    assert_eq!(only.key.as_ref(), b"good");
    assert_eq!(only.value.as_ref(), b"yes");
    assert_eq!(merged.bytes.len(), 20 + 4 + 3);
}
