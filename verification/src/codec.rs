//! The record codec: the byte-exact layout of one log entry, its integrity
//! checksum, and the parser that recovers a sequence of records from the raw
//! bytes of a data file.
//!
//! On-disk layout of one record (little-endian integers):
//!
//! ```text
//! crc(4) | tstamp(8) | key_size(4) | value_size(4) | key bytes | value bytes
//! ```
//!
//! The checksum covers every byte after the checksum field itself. A deletion
//! is written as a record whose `value_size` field holds the reserved marker
//! `0xFFFF_FFFF` and whose value is empty; a legitimate empty value is encoded
//! with `value_size = 0`, so the two are always distinguishable.

use vstd::prelude::*;
use vstd::bytes::*;
use vstd::slice::slice_subrange;
use bytes::Bytes;
use crate::ext::bytes_content;
use crate::ext::bytes_copy_from_slice;
use crate::ext::bytes_as_slice;
use crate::errors::ByteHausError;

verus! {

/// Number of bytes in the fixed-width record header.
pub const HEADER_BYTES: usize = 20;

/// Reserved `value_size` encoding that marks a record as a tombstone.
pub const TOMBSTONE_SIZE_MARKER: u32 = 0xFFFF_FFFF;

/// Largest key, in bytes, that the size field can describe.
pub const MAX_KEY_BYTES: usize = 0xFFFF_FFFF;

/// Largest value, in bytes, that the size field can describe without
/// colliding with the tombstone marker.
pub const MAX_VALUE_BYTES: usize = 0xFFFF_FFFE;

/// The mathematical model of one log record.
pub struct SpecRecord {
    pub tstamp: u64,
    pub key: Seq<u8>,
    pub value: Seq<u8>,
    pub tombstone: bool,
}

/// A record whose sizes fit the header fields; tombstones carry no value.
pub open spec fn spec_record_wf(r: SpecRecord) -> bool {
    &&& r.key.len() <= MAX_KEY_BYTES
    &&& r.value.len() <= MAX_VALUE_BYTES
    &&& (r.tombstone ==> r.value.len() == 0)
}

/// One step of the checksum: multiply-accumulate modulo 2^32.
pub open spec fn crc_step(acc: u32, b: u8) -> u32 {
    (((acc * 31) + b) % 0x1_0000_0000) as u32
}

pub open spec fn spec_crc_acc(s: Seq<u8>, acc: u32) -> u32
    decreases s.len(),
{
    if s.len() == 0 {
        acc
    } else {
        spec_crc_acc(s.drop_first(), crc_step(acc, s[0]))
    }
}

/// The 32-bit integrity checksum of a byte sequence.
pub open spec fn spec_crc(s: Seq<u8>) -> u32 {
    spec_crc_acc(s, 0)
}

/// Everything after the checksum field: header tail, key bytes, value bytes.
pub open spec fn spec_size_field(r: SpecRecord) -> u32 {
    if r.tombstone {
        TOMBSTONE_SIZE_MARKER
    } else {
        r.value.len() as u32
    }
}

pub open spec fn spec_payload(r: SpecRecord) -> Seq<u8> {
    spec_u64_to_le_bytes(r.tstamp) + spec_u32_to_le_bytes(r.key.len() as u32)
        + spec_u32_to_le_bytes(spec_size_field(r)) + r.key + r.value
}

/// The complete byte encoding of one record.
pub open spec fn spec_record_bytes(r: SpecRecord) -> Seq<u8> {
    spec_u32_to_le_bytes(spec_crc(spec_payload(r))) + spec_payload(r)
}

// ---------------------------------------------------------------------------
// Parsing a suffix of a data file. All `spec_hdr_*` functions read the record
// that begins at offset 0 of the given byte sequence.
// ---------------------------------------------------------------------------

pub open spec fn spec_has_header(s: Seq<u8>) -> bool {
    s.len() >= HEADER_BYTES
}

pub open spec fn spec_hdr_crc(s: Seq<u8>) -> u32 {
    spec_u32_from_le_bytes(s.subrange(0, 4))
}

pub open spec fn spec_hdr_tstamp(s: Seq<u8>) -> u64 {
    spec_u64_from_le_bytes(s.subrange(4, 12))
}

pub open spec fn spec_hdr_ksz(s: Seq<u8>) -> u32 {
    spec_u32_from_le_bytes(s.subrange(12, 16))
}

pub open spec fn spec_hdr_size_field(s: Seq<u8>) -> u32 {
    spec_u32_from_le_bytes(s.subrange(16, 20))
}

pub open spec fn spec_hdr_tombstone(s: Seq<u8>) -> bool {
    spec_hdr_size_field(s) == TOMBSTONE_SIZE_MARKER
}

pub open spec fn spec_hdr_vsz(s: Seq<u8>) -> int {
    if spec_hdr_tombstone(s) {
        0
    } else {
        spec_hdr_size_field(s) as int
    }
}

/// Total length of the record that starts the sequence, header included.
pub open spec fn spec_rec_len(s: Seq<u8>) -> int {
    HEADER_BYTES + spec_hdr_ksz(s) + spec_hdr_vsz(s)
}

/// True when the sequence holds at least one whole record.
pub open spec fn spec_complete_at(s: Seq<u8>) -> bool {
    spec_has_header(s) && s.len() >= spec_rec_len(s)
}

pub open spec fn spec_parsed_record(s: Seq<u8>) -> SpecRecord {
    SpecRecord {
        tstamp: spec_hdr_tstamp(s),
        key: s.subrange(HEADER_BYTES as int, HEADER_BYTES + spec_hdr_ksz(s)),
        value: s.subrange(HEADER_BYTES + spec_hdr_ksz(s), spec_rec_len(s)),
        tombstone: spec_hdr_tombstone(s),
    }
}

pub open spec fn spec_crc_matches(s: Seq<u8>) -> bool {
    spec_hdr_crc(s) == spec_crc(s.subrange(4, spec_rec_len(s)))
}

/// All checksum-valid records of a byte sequence, in file order. A record
/// whose checksum fails is skipped over by its declared length; a trailing
/// truncated record ends the parse.
pub open spec fn spec_parse(s: Seq<u8>) -> Seq<SpecRecord>
    decreases s.len(),
{
    if !spec_complete_at(s) {
        Seq::empty()
    } else {
        let rest = spec_parse(s.subrange(spec_rec_len(s), s.len() as int));
        if spec_crc_matches(s) {
            seq![spec_parsed_record(s)] + rest
        } else {
            rest
        }
    }
}

/// The concatenated encoding of a sequence of records.
pub open spec fn spec_encode_all(rs: Seq<SpecRecord>) -> Seq<u8>
    decreases rs.len(),
{
    if rs.len() == 0 {
        Seq::empty()
    } else {
        spec_record_bytes(rs[0]) + spec_encode_all(rs.drop_first())
    }
}

pub open spec fn spec_all_wf(rs: Seq<SpecRecord>) -> bool {
    forall|i: int| 0 <= i < rs.len() ==> spec_record_wf(#[trigger] rs[i])
}

// ---------------------------------------------------------------------------
// The executable record and codec.
// ---------------------------------------------------------------------------

/// The byte-aligned format of a single log record, as held in memory.
pub struct ByteHausRecord {
    /// Checksum over every encoded byte after the checksum field itself.
    pub crc: u32,
    /// Timestamp of the write that produced the record.
    pub tstamp: u64,
    /// The key size in bytes.
    pub ksz: usize,
    /// The value size in bytes.
    pub value_sz: usize,
    /// The actual key.
    pub key: Bytes,
    /// The actual value; empty for a tombstone.
    pub value: Bytes,
    /// Whether this record marks a deletion.
    pub tombstone: bool,
}

impl ByteHausRecord {
    /// The mathematical record this value stands for.
    pub open spec fn model(self) -> SpecRecord {
        SpecRecord {
            tstamp: self.tstamp,
            key: bytes_content(self.key),
            value: bytes_content(self.value),
            tombstone: self.tombstone,
        }
    }

    /// Sizes and checksum agree with the key and value actually held.
    pub open spec fn wf(self) -> bool {
        &&& spec_record_wf(self.model())
        &&& self.ksz == bytes_content(self.key).len()
        &&& self.value_sz == bytes_content(self.value).len()
        &&& self.crc == spec_crc(spec_payload(self.model()))
    }

    /// The keydir entry this record produces once it sits in the file with
    /// the given identifier at the given value offset: `None` for a
    /// tombstone, which removes its key from the keydir instead.
    pub fn get_keydir_record(&self, file_id: u64, value_pos: usize) -> (r: Option<
        crate::keydir::KeyDirRecord,
    >)
        ensures
            ({
                match r {
                    Some(e) => {
                        &&& !self.tombstone
                        &&& e.file_id == file_id
                        &&& e.value_sz == self.value_sz
                        &&& e.value_pos == value_pos
                        &&& e.tstamp == self.tstamp
                    },
                    None => self.tombstone,
                }
            }),
    {
        if self.tombstone {
            None
        } else {
            Some(crate::keydir::KeyDirRecord {
                file_id,
                value_sz: self.value_sz,
                value_pos,
                tstamp: self.tstamp,
            })
        }
    }
}

/// Appends every byte of `src` to `dst`.
pub fn push_bytes(dst: &mut Vec<u8>, src: &[u8])
    ensures
        final(dst)@ == old(dst)@ + src@,
{
    let mut i: usize = 0;
    while i < src.len()
        invariant
            i <= src@.len(),
            dst@ == old(dst)@ + src@.subrange(0, i as int),
        decreases src@.len() - i,
    {
        dst.push(src[i]);
        proof {
            assert(old(dst)@ + src@.subrange(0, i as int + 1)
                =~= (old(dst)@ + src@.subrange(0, i as int)).push(src@[i as int]));
        }
        i = i + 1;
    }
    proof {
        assert(src@.subrange(0, src@.len() as int) =~= src@);
    }
}

/// Computes the checksum of `data[start..end]`.
pub fn crc_region(data: &Vec<u8>, start: usize, end: usize) -> (r: u32)
    requires
        start <= end,
        end <= data@.len(),
    ensures
        r == spec_crc(data@.subrange(start as int, end as int)),
{
    let mut acc: u32 = 0;
    let mut i: usize = start;
    while i < end
        invariant
            start <= i <= end <= data@.len(),
            spec_crc_acc(data@.subrange(i as int, end as int), acc)
                == spec_crc(data@.subrange(start as int, end as int)),
        decreases end - i,
    {
        let b = data[i];
        let wide: u64 = (acc as u64) * 31 + (b as u64);
        let next: u32 = (wide % 0x1_0000_0000) as u32;
        proof {
            let s = data@.subrange(i as int, end as int);
            assert(s[0] == data@[i as int]);
            assert(s.drop_first() =~= data@.subrange(i as int + 1, end as int));
            assert(next == crc_step(acc, b));
        }
        acc = next;
        i = i + 1;
    }
    proof {
        assert(data@.subrange(end as int, end as int).len() == 0);
    }
    acc
}

/// Builds a well-formed in-memory record, computing sizes and checksum.
pub fn make_record(key: Bytes, value: Bytes, tstamp: u64, tombstone: bool) -> (r: ByteHausRecord)
    requires
        bytes_content(key).len() <= MAX_KEY_BYTES,
        bytes_content(value).len() <= MAX_VALUE_BYTES,
        tombstone ==> bytes_content(value).len() == 0,
    ensures
        r.wf(),
        r.model() == (SpecRecord {
            tstamp,
            key: bytes_content(key),
            value: bytes_content(value),
            tombstone,
        }),
{
    let ghost m = SpecRecord {
        tstamp,
        key: bytes_content(key),
        value: bytes_content(value),
        tombstone,
    };
    let ks = bytes_as_slice(&key);
    let vs = bytes_as_slice(&value);
    let ksz = ks.len();
    let value_sz = vs.len();
    let mut payload = u64_to_le_bytes(tstamp);
    let mut kszb = u32_to_le_bytes(ksz as u32);
    payload.append(&mut kszb);
    let size_field: u32 = if tombstone {
        TOMBSTONE_SIZE_MARKER
    } else {
        value_sz as u32
    };
    let mut szb = u32_to_le_bytes(size_field);
    payload.append(&mut szb);
    push_bytes(&mut payload, ks);
    push_bytes(&mut payload, vs);
    proof {
        assert(payload@ =~= spec_payload(m));
    }
    let crc = crc_region(&payload, 0, payload.len());
    proof {
        assert(payload@.subrange(0, payload@.len() as int) =~= payload@);
    }
    ByteHausRecord { crc, tstamp, ksz, value_sz, key, value, tombstone }
}

/// Encodes one record into the bytes appended to a data file.
pub fn encode(record: &ByteHausRecord) -> (out: Vec<u8>)
    requires
        record.wf(),
    ensures
        out@ == spec_record_bytes(record.model()),
        out@.len() == HEADER_BYTES + record.ksz + record.value_sz,
{
    let ghost m = record.model();
    let mut out = u32_to_le_bytes(record.crc);
    let mut tsb = u64_to_le_bytes(record.tstamp);
    out.append(&mut tsb);
    let mut kszb = u32_to_le_bytes(record.ksz as u32);
    out.append(&mut kszb);
    let size_field: u32 = if record.tombstone {
        TOMBSTONE_SIZE_MARKER
    } else {
        record.value_sz as u32
    };
    let mut szb = u32_to_le_bytes(size_field);
    out.append(&mut szb);
    push_bytes(&mut out, bytes_as_slice(&record.key));
    push_bytes(&mut out, bytes_as_slice(&record.value));
    proof {
        assert(out@ =~= spec_record_bytes(m));
    }
    out
}

/// The outcome of decoding the record that begins at one file offset.
pub enum DecodeOutcome {
    /// A whole, checksum-valid record.
    Complete { record: ByteHausRecord, consumed: usize, value_pos: usize },
    /// A whole record whose checksum does not match its bytes.
    Corrupt { consumed: usize },
    /// Fewer bytes remain than the record's header and declared sizes claim.
    Truncated,
}

/// Decodes the record beginning at `pos` in `data`.
pub fn decode_at(data: &Vec<u8>, pos: usize) -> (r: DecodeOutcome)
    requires
        pos <= data@.len(),
    ensures
        ({
            let s = data@.subrange(pos as int, data@.len() as int);
            match r {
                DecodeOutcome::Truncated => !spec_complete_at(s),
                DecodeOutcome::Corrupt { consumed } => {
                    &&& spec_complete_at(s)
                    &&& !spec_crc_matches(s)
                    &&& consumed == spec_rec_len(s)
                },
                DecodeOutcome::Complete { record, consumed, value_pos } => {
                    &&& spec_complete_at(s)
                    &&& spec_crc_matches(s)
                    &&& record.wf()
                    &&& record.model() == spec_parsed_record(s)
                    &&& consumed == spec_rec_len(s)
                    &&& value_pos == pos + HEADER_BYTES + spec_hdr_ksz(s)
                    &&& value_pos + record.value_sz <= data@.len()
                    &&& data@.subrange(value_pos as int, value_pos + record.value_sz)
                        == spec_parsed_record(s).value
                },
            }
        }),
{
    let len = data.len();
    let ghost s = data@.subrange(pos as int, data@.len() as int);
    if len - pos < HEADER_BYTES {
        return DecodeOutcome::Truncated;
    }
    let all = data.as_slice();
    let stored_crc = u32_from_le_bytes(slice_subrange(all, pos, pos + 4));
    let tstamp = u64_from_le_bytes(slice_subrange(all, pos + 4, pos + 12));
    let ksz32 = u32_from_le_bytes(slice_subrange(all, pos + 12, pos + 16));
    let size_field = u32_from_le_bytes(slice_subrange(all, pos + 16, pos + 20));
    proof {
        assert(data@.subrange(pos as int, pos + 4) =~= s.subrange(0, 4));
        assert(data@.subrange(pos + 4, pos + 12) =~= s.subrange(4, 12));
        assert(data@.subrange(pos + 12, pos + 16) =~= s.subrange(12, 16));
        assert(data@.subrange(pos + 16, pos + 20) =~= s.subrange(16, 20));
    }
    let tombstone = size_field == TOMBSTONE_SIZE_MARKER;
    let vsz64: u64 = if tombstone {
        0
    } else {
        size_field as u64
    };
    let total64: u64 = (HEADER_BYTES as u64) + (ksz32 as u64) + vsz64;
    if ((len - pos) as u64) < total64 {
        return DecodeOutcome::Truncated;
    }
    let consumed = total64 as usize;
    let ksz = ksz32 as usize;
    let value_sz = vsz64 as usize;
    proof {
        assert(consumed == spec_rec_len(s));
        assert(spec_complete_at(s));
    }
    let crc = crc_region(data, pos + 4, pos + consumed);
    proof {
        assert(data@.subrange(pos + 4, (pos + consumed) as int)
            =~= s.subrange(4, spec_rec_len(s)));
    }
    if crc != stored_crc {
        return DecodeOutcome::Corrupt { consumed };
    }
    let key = bytes_copy_from_slice(slice_subrange(all, pos + HEADER_BYTES, pos + HEADER_BYTES + ksz));
    let value_pos = pos + HEADER_BYTES + ksz;
    let value = bytes_copy_from_slice(slice_subrange(all, value_pos, pos + consumed));
    proof {
        assert(data@.subrange(pos + HEADER_BYTES, pos + HEADER_BYTES + ksz)
            =~= s.subrange(HEADER_BYTES as int, HEADER_BYTES + spec_hdr_ksz(s)));
        assert(data@.subrange(value_pos as int, (pos + consumed) as int)
            =~= s.subrange(HEADER_BYTES + spec_hdr_ksz(s), spec_rec_len(s)));
        lemma_payload_reparse(s);
    }
    let record = ByteHausRecord {
        crc: stored_crc,
        tstamp,
        ksz,
        value_sz,
        key,
        value,
        tombstone,
    };
    DecodeOutcome::Complete { record, consumed, value_pos }
}

/// Decodes a whole buffer holding exactly one record, per the codec contract:
/// a missing tail is reported as truncation, a checksum mismatch as
/// corruption, distinctly.
pub fn decode(data: &Vec<u8>) -> (r: Result<ByteHausRecord, ByteHausError>)
    ensures
        ({
            let s = data@;
            match r {
                Ok(record) => {
                    &&& spec_complete_at(s)
                    &&& spec_crc_matches(s)
                    &&& record.wf()
                    &&& record.model() == spec_parsed_record(s)
                },
                Err(ByteHausError::TruncatedError) => !spec_complete_at(s),
                Err(ByteHausError::CorruptRecord) => spec_complete_at(s) && !spec_crc_matches(s),
                Err(_) => false,
            }
        }),
{
    proof {
        assert(data@.subrange(0, data@.len() as int) =~= data@);
    }
    match decode_at(data, 0) {
        DecodeOutcome::Complete { record, consumed: _, value_pos: _ } => Ok(record),
        DecodeOutcome::Corrupt { consumed: _ } => Err(ByteHausError::CorruptRecord),
        DecodeOutcome::Truncated => Err(ByteHausError::TruncatedError),
    }
}

// ---------------------------------------------------------------------------
// Lemmas about the codec.
// ---------------------------------------------------------------------------

/// The header tail of a complete record re-encodes to the very bytes it was
/// parsed from, so a parsed record is well formed and its payload is the byte
/// region the checksum covers.
pub proof fn lemma_payload_reparse(s: Seq<u8>)
    requires
        spec_complete_at(s),
    ensures
        spec_record_wf(spec_parsed_record(s)),
        spec_payload(spec_parsed_record(s)) == s.subrange(4, spec_rec_len(s)),
        spec_crc_matches(s) ==> s.subrange(0, spec_rec_len(s))
            == spec_record_bytes(spec_parsed_record(s)),
{
    lemma_auto_spec_u32_to_from_le_bytes();
    lemma_auto_spec_u64_to_from_le_bytes();
    let r = spec_parsed_record(s);
    let k = spec_hdr_ksz(s) as int;
    let v = spec_hdr_vsz(s);
    assert(r.key.len() == k);
    assert(r.value.len() == v);
    assert(spec_size_field(r) == spec_hdr_size_field(s)) by {
        if spec_hdr_tombstone(s) {
        } else {
            assert(r.value.len() as u32 == spec_hdr_size_field(s));
        }
    }
    assert(spec_u64_to_le_bytes(spec_hdr_tstamp(s)) == s.subrange(4, 12));
    assert(spec_u32_to_le_bytes(spec_hdr_ksz(s)) == s.subrange(12, 16));
    assert(spec_u32_to_le_bytes(spec_hdr_size_field(s)) == s.subrange(16, 20));
    assert(spec_payload(r) =~= s.subrange(4, spec_rec_len(s)));
    if spec_crc_matches(s) {
        assert(spec_u32_to_le_bytes(spec_hdr_crc(s)) == s.subrange(0, 4));
        assert(spec_record_bytes(r) =~= s.subrange(0, spec_rec_len(s)));
    }
}

/// A well-formed record followed by anything parses back to exactly itself,
/// consuming exactly its own encoding.
pub proof fn lemma_record_extends(r: SpecRecord, rest: Seq<u8>)
    requires
        spec_record_wf(r),
    ensures
        ({
            let b = spec_record_bytes(r) + rest;
            &&& spec_record_bytes(r).len() == HEADER_BYTES + r.key.len() + r.value.len()
            &&& spec_complete_at(b)
            &&& spec_rec_len(b) == spec_record_bytes(r).len()
            &&& spec_crc_matches(b)
            &&& spec_parsed_record(b) == r
            &&& b.subrange(spec_rec_len(b), b.len() as int) == rest
        }),
{
    lemma_auto_spec_u32_to_from_le_bytes();
    lemma_auto_spec_u64_to_from_le_bytes();
    let p = spec_payload(r);
    let e = spec_record_bytes(r);
    let b = e + rest;
    let k = r.key.len() as int;
    let v = r.value.len() as int;
    assert(p.len() == 16 + k + v);
    assert(e.len() == 20 + k + v);
    assert(b.subrange(0, 4) =~= spec_u32_to_le_bytes(spec_crc(p)));
    assert(b.subrange(4, 12) =~= spec_u64_to_le_bytes(r.tstamp));
    assert(b.subrange(12, 16) =~= spec_u32_to_le_bytes(r.key.len() as u32));
    assert(b.subrange(16, 20) =~= spec_u32_to_le_bytes(spec_size_field(r)));
    assert(spec_hdr_tstamp(b) == r.tstamp);
    assert(spec_hdr_ksz(b) == r.key.len() as u32);
    assert(spec_hdr_size_field(b) == spec_size_field(r));
    assert(spec_hdr_tombstone(b) == r.tombstone) by {
        if !r.tombstone {
            assert(r.value.len() as u32 != TOMBSTONE_SIZE_MARKER);
        }
    }
    assert(spec_rec_len(b) == e.len());
    assert(spec_complete_at(b));
    assert(b.subrange(HEADER_BYTES as int, HEADER_BYTES + k) =~= r.key);
    assert(b.subrange(HEADER_BYTES + k, spec_rec_len(b)) =~= r.value);
    assert(spec_parsed_record(b) == r);
    assert(b.subrange(4, spec_rec_len(b)) =~= p);
    assert(spec_hdr_crc(b) == spec_crc(p));
    assert(spec_crc_matches(b));
    assert(b.subrange(spec_rec_len(b), b.len() as int) =~= rest);
}

/// Parsing a buffer that begins with one well-formed encoded record yields
/// that record followed by the parse of the remainder.
pub proof fn lemma_parse_record_prefix(r: SpecRecord, rest: Seq<u8>)
    requires
        spec_record_wf(r),
    ensures
        spec_parse(spec_record_bytes(r) + rest) == seq![r] + spec_parse(rest),
{
    lemma_record_extends(r, rest);
}

/// Parsing the concatenated encoding of well-formed records, followed by any
/// tail, yields those records followed by the parse of the tail.
pub proof fn lemma_parse_encode_all(rs: Seq<SpecRecord>, tail: Seq<u8>)
    requires
        spec_all_wf(rs),
    ensures
        spec_parse(spec_encode_all(rs) + tail) == rs + spec_parse(tail),
    decreases rs.len(),
{
    if rs.len() == 0 {
        assert(spec_encode_all(rs) + tail =~= tail);
        assert(rs + spec_parse(tail) =~= spec_parse(tail));
    } else {
        let rest = rs.drop_first();
        assert(spec_all_wf(rest));
        lemma_parse_encode_all(rest, tail);
        assert(spec_encode_all(rs) + tail
            =~= spec_record_bytes(rs[0]) + (spec_encode_all(rest) + tail));
        lemma_parse_record_prefix(rs[0], spec_encode_all(rest) + tail);
        assert(seq![rs[0]] + (rest + spec_parse(tail)) =~= rs + spec_parse(tail));
    }
}

/// The parse of the exact encoding of well-formed records is those records.
pub proof fn lemma_parse_exact(rs: Seq<SpecRecord>)
    requires
        spec_all_wf(rs),
    ensures
        spec_parse(spec_encode_all(rs)) == rs,
{
    lemma_parse_encode_all(rs, Seq::empty());
    assert(spec_encode_all(rs) + Seq::<u8>::empty() =~= spec_encode_all(rs));
    assert(!spec_complete_at(Seq::<u8>::empty()));
    assert(rs + spec_parse(Seq::<u8>::empty()) =~= rs);
}

/// Appending one record's encoding to an exactly-encoded log extends the
/// encoding by that record.
pub proof fn lemma_encode_all_push(rs: Seq<SpecRecord>, r: SpecRecord)
    ensures
        spec_encode_all(rs.push(r)) == spec_encode_all(rs) + spec_record_bytes(r),
    decreases rs.len(),
{
    if rs.len() == 0 {
        assert(rs.push(r)[0] == r);
        assert(rs.push(r).drop_first() =~= Seq::<SpecRecord>::empty());
        assert(spec_encode_all(Seq::<SpecRecord>::empty()) == Seq::<u8>::empty());
        assert(spec_encode_all(rs.push(r))
            == spec_record_bytes(r) + spec_encode_all(Seq::<SpecRecord>::empty()));
        assert(spec_record_bytes(r) + Seq::<u8>::empty() =~= spec_record_bytes(r));
        assert(spec_encode_all(rs) + spec_record_bytes(r) =~= spec_record_bytes(r));
    } else {
        assert(rs.push(r).drop_first() =~= rs.drop_first().push(r));
        lemma_encode_all_push(rs.drop_first(), r);
        assert(rs.push(r)[0] == rs[0]);
        assert(spec_encode_all(rs.push(r))
            == spec_record_bytes(rs[0]) + spec_encode_all(rs.drop_first().push(r)));
        assert(spec_encode_all(rs.drop_first().push(r))
            == spec_encode_all(rs.drop_first()) + spec_record_bytes(r));
        assert(spec_encode_all(rs)
            == spec_record_bytes(rs[0]) + spec_encode_all(rs.drop_first()));
        assert(spec_record_bytes(rs[0])
            + (spec_encode_all(rs.drop_first()) + spec_record_bytes(r))
            =~= (spec_record_bytes(rs[0]) + spec_encode_all(rs.drop_first()))
                + spec_record_bytes(r));
    }
}

/// Every record recovered by the parser is well formed.
pub proof fn lemma_parse_wf(s: Seq<u8>)
    ensures
        spec_all_wf(spec_parse(s)),
    decreases s.len(),
{
    if spec_complete_at(s) {
        lemma_payload_reparse(s);
        lemma_parse_wf(s.subrange(spec_rec_len(s), s.len() as int));
        let rest = spec_parse(s.subrange(spec_rec_len(s), s.len() as int));
        if spec_crc_matches(s) {
            assert forall|i: int| 0 <= i < spec_parse(s).len()
                implies spec_record_wf(#[trigger] spec_parse(s)[i]) by {
                if i == 0 {
                } else {
                    assert(spec_parse(s)[i] == rest[i - 1]);
                }
            }
        }
    }
}

} // verus!
