//! The store's laws, stated and proved against the contracts of the public
//! operations: what a successful write or delete means for later reads, that
//! recovery is deterministic, that the codec round-trips, and that a
//! truncated tail never changes what recovery rebuilds.

use vstd::prelude::*;
use vstd::utf8::encode_utf8;
use vstd::utf8::decode_utf8;
use vstd::utf8::valid_utf8;
use crate::codec::{
    SpecRecord, MAX_KEY_BYTES, MAX_VALUE_BYTES, HEADER_BYTES, spec_all_wf, spec_record_bytes,
    spec_complete_at, spec_crc_matches, spec_parsed_record, spec_rec_len, spec_parse,
    spec_encode_all, lemma_record_extends, lemma_parse_encode_all, lemma_parse_exact,
};
use crate::model::{FileModel, spec_abs, spec_live_map, spec_replay};
use crate::keydir::KeyDirRecord;
use crate::engine::ByteHaus;

verus! {

/// After `write(key, value)` succeeds, `read(key)` returns exactly `value`:
/// the store's view maps the key to that value, and it stays mapped so under
/// any later write or delete of a different key — until overwritten or
/// deleted itself. `write`'s contract gives `post@ == pre@.insert(key@,
/// value@)`, and `read` returns exactly the view's binding.
pub proof fn law_write_then_read(
    pre: ByteHaus,
    post: ByteHaus,
    key: Seq<char>,
    value: Seq<char>,
    other_key: Seq<char>,
    other_value: Seq<char>,
)
    requires
        post@ == pre@.insert(key, value),
        other_key != key,
    ensures
        post@.contains_key(key),
        post@[key] == value,
        post@.insert(other_key, other_value)[key] == value,
        post@.remove(other_key)[key] == value,
{
}

/// After `delete(key)` succeeds, `read(key)` returns `None`: the store's
/// view no longer contains the key, and a write of a different key does not
/// bring it back. (That `delete` of a key never written fails with
/// `DeleteKeyMissing` is `delete`'s own contract.)
pub proof fn law_delete_then_read(
    pre: ByteHaus,
    post: ByteHaus,
    key: Seq<char>,
    other_key: Seq<char>,
    other_value: Seq<char>,
)
    requires
        post@ == pre@.remove(key),
        other_key != key,
    ensures
        !post@.contains_key(key),
        !post@.insert(other_key, other_value).contains_key(key),
{
}

/// Recovery is idempotent: two stores opened over the same on-disk state —
/// the same data files and hint files — have the same view and the same set
/// of live keys in their keydirs. `open_db`'s contract pins the view to a
/// function of the files alone, so recovering twice changes nothing.
pub proof fn law_recovery_idempotent(a: ByteHaus, b: ByteHaus)
    requires
        a.inv(),
        b.inv(),
        a.spec_open(),
        b.spec_open(),
        a.spec_files() == b.spec_files(),
        a.spec_hints() == b.spec_hints(),
    ensures
        a@ == b@,
        a.spec_keydir().dom() == b.spec_keydir().dom(),
{
    a.lemma_view_functional();
    b.lemma_view_functional();
    assert(a.byte_map() == b.byte_map());
    assert forall|k: Seq<char>| #[trigger] a.spec_keydir().dom().contains(k)
        == b.spec_keydir().dom().contains(k) by {
        assert(a.spec_keydir().contains_key(k) == a.byte_map().contains_key(encode_utf8(k)));
        assert(b.spec_keydir().contains_key(k) == b.byte_map().contains_key(encode_utf8(k)));
    }
    assert(a.spec_keydir().dom() =~= b.spec_keydir().dom());
}

/// The codec round-trips: decoding the encoding of any record — any key and
/// value byte sequences that fit the size fields, any timestamp — recovers
/// exactly that key, value and timestamp, consuming exactly the encoded
/// bytes, and a file of such records parses back to exactly those records.
pub proof fn law_codec_round_trip(key: Seq<u8>, value: Seq<u8>, tstamp: u64, tombstone: bool)
    requires
        key.len() <= MAX_KEY_BYTES,
        value.len() <= MAX_VALUE_BYTES,
        tombstone ==> value.len() == 0,
    ensures
        ({
            let r = SpecRecord { tstamp, key, value, tombstone };
            let b = spec_record_bytes(r);
            &&& spec_complete_at(b)
            &&& spec_crc_matches(b)
            &&& spec_parsed_record(b) == r
            &&& spec_rec_len(b) == b.len()
            &&& spec_parse(b) == seq![r]
        }),
{
    let r = SpecRecord { tstamp, key, value, tombstone };
    let b = spec_record_bytes(r);
    lemma_record_extends(r, Seq::empty());
    assert(b + Seq::<u8>::empty() =~= b);
    lemma_parse_exact(seq![r]);
    assert(seq![r].drop_first() =~= Seq::<SpecRecord>::empty());
    assert(spec_encode_all(seq![r]) == spec_record_bytes(r) + spec_encode_all(
        Seq::<SpecRecord>::empty(),
    ));
    assert(spec_encode_all(seq![r]) =~= b);
}

/// Crash tolerance: a data file holding whole records followed by any extra
/// bytes short of one full record replays to exactly the same state as the
/// file holding just the whole records. Recovery ignores a truncated tail.
pub proof fn law_crash_tolerance(
    m0: Map<Seq<u8>, Seq<u8>>,
    records: Seq<SpecRecord>,
    extra: Seq<u8>,
)
    requires
        spec_all_wf(records),
        !spec_complete_at(extra),
    ensures
        spec_replay(m0, spec_parse(spec_encode_all(records) + extra))
            == spec_replay(m0, spec_parse(spec_encode_all(records))),
{
    lemma_parse_encode_all(records, extra);
    lemma_parse_exact(records);
    assert(spec_parse(extra) == Seq::<SpecRecord>::empty());
    assert(records + Seq::<SpecRecord>::empty() =~= records);
}

/// A store freshly opened over a directory sees exactly the live map its
/// files denote, read through UTF-8.
pub proof fn law_open_view(e: ByteHaus, files: Seq<FileModel>, hints: Seq<FileModel>)
    requires
        e@ == spec_abs(spec_live_map(files, hints)),
    ensures
        forall|k: Seq<char>| #[trigger] e@.contains_key(k)
            == spec_live_map(files, hints).contains_key(encode_utf8(k)),
{
}

/// Recovery rebuilds literally identical keydirs from the same on-disk
/// state: the same keys and, per key, the same file identifier, value
/// offset, value size and timestamp. `reconstruct_from_hint_file` pins its
/// result to `spec_recover_keydir`, a function of the file bytes alone, so
/// two runs with no writes between cannot differ.
pub proof fn law_recovery_rebuilds_identically(
    kd_a: Map<Seq<char>, KeyDirRecord>,
    kd_b: Map<Seq<char>, KeyDirRecord>,
    files: Seq<FileModel>,
    hints: Seq<FileModel>,
)
    requires
        kd_a == ByteHaus::spec_recover_keydir(files, hints, files.len() as int),
        kd_b == ByteHaus::spec_recover_keydir(files, hints, files.len() as int),
    ensures
        kd_a == kd_b,
{
}

/// A scan of whole records followed by a partial tail builds, entry for
/// entry, the same keydir as a scan of just the whole records: the same
/// keys, offsets, sizes and timestamps. Records sit at the same offsets in
/// both files, so even the location metadata agrees.
proof fn lemma_scan_keydir_crash(
    kd: Map<Seq<char>, KeyDirRecord>,
    b1: Seq<u8>,
    b2: Seq<u8>,
    pos: int,
    records: Seq<SpecRecord>,
    extra: Seq<u8>,
    fid: u64,
)
    requires
        spec_all_wf(records),
        !spec_complete_at(extra),
        0 <= pos <= b1.len(),
        0 <= pos <= b2.len(),
        b1.subrange(pos, b1.len() as int) == spec_encode_all(records) + extra,
        b2.subrange(pos, b2.len() as int) == spec_encode_all(records),
    ensures
        ByteHaus::spec_scan_keydir(kd, b1, pos, fid) == ByteHaus::spec_scan_keydir(
            kd,
            b2,
            pos,
            fid,
        ),
    decreases records.len(),
{
    let s1 = b1.subrange(pos, b1.len() as int);
    let s2 = b2.subrange(pos, b2.len() as int);
    if records.len() == 0 {
        assert(s1 =~= extra);
        assert(s2.len() == 0);
        assert(!spec_complete_at(s1));
        assert(!spec_complete_at(s2));
    } else {
        let r0 = records[0];
        let rest = records.drop_first();
        assert(spec_all_wf(rest));
        let rb = spec_record_bytes(r0);
        lemma_record_extends(r0, spec_encode_all(rest) + extra);
        lemma_record_extends(r0, spec_encode_all(rest));
        assert(s1 =~= rb + (spec_encode_all(rest) + extra));
        assert(s2 =~= rb + spec_encode_all(rest));
        assert(spec_complete_at(s1));
        assert(spec_complete_at(s2));
        assert(spec_rec_len(s1) == rb.len());
        assert(spec_rec_len(s2) == rb.len());
        assert(spec_parsed_record(s1) == r0);
        assert(spec_parsed_record(s2) == r0);
        assert(spec_crc_matches(s1));
        assert(spec_crc_matches(s2));
        let l = rb.len() as int;
        assert(b1.subrange(pos + l, b1.len() as int)
            =~= s1.subrange(l, s1.len() as int));
        assert(b1.subrange(pos + l, b1.len() as int) =~= spec_encode_all(rest) + extra);
        assert(b2.subrange(pos + l, b2.len() as int)
            =~= s2.subrange(l, s2.len() as int));
        assert(b2.subrange(pos + l, b2.len() as int) =~= spec_encode_all(rest));
        let kd2 = if valid_utf8(r0.key) {
            if r0.tombstone {
                kd.remove(decode_utf8(r0.key))
            } else if valid_utf8(r0.value) {
                kd.insert(
                    decode_utf8(r0.key),
                    KeyDirRecord {
                        file_id: fid,
                        value_sz: r0.value.len() as usize,
                        value_pos: (pos + HEADER_BYTES + r0.key.len()) as usize,
                        tstamp: r0.tstamp,
                    },
                )
            } else {
                kd
            }
        } else {
            kd
        };
        assert(ByteHaus::spec_scan_keydir(kd, b1, pos, fid)
            == ByteHaus::spec_scan_keydir(kd2, b1, pos + l, fid));
        assert(ByteHaus::spec_scan_keydir(kd, b2, pos, fid)
            == ByteHaus::spec_scan_keydir(kd2, b2, pos + l, fid));
        lemma_scan_keydir_crash(kd2, b1, b2, pos + l, rest, extra, fid);
    }
}

/// Crash tolerance at the keydir level: a data file holding whole records
/// followed by any extra bytes short of one full record recovers to exactly
/// the same keydir — entries, offsets, sizes and timestamps included — as
/// the file truncated to just the whole records.
pub proof fn law_crash_tolerance_keydir(
    kd: Map<Seq<char>, KeyDirRecord>,
    records: Seq<SpecRecord>,
    extra: Seq<u8>,
    fid: u64,
)
    requires
        spec_all_wf(records),
        !spec_complete_at(extra),
    ensures
        ByteHaus::spec_scan_keydir(kd, spec_encode_all(records) + extra, 0, fid)
            == ByteHaus::spec_scan_keydir(kd, spec_encode_all(records), 0, fid),
{
    let b1 = spec_encode_all(records) + extra;
    let b2 = spec_encode_all(records);
    assert(b1.subrange(0, b1.len() as int) =~= b1);
    assert(b2.subrange(0, b2.len() as int) =~= b2);
    lemma_scan_keydir_crash(kd, b1, b2, 0, records, extra, fid);
}

} // verus!
