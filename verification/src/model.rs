//! The mathematical model of the store: what a set of data files and hint
//! files means as a mapping from keys to values.
//!
//! A data file's meaning is the left-to-right replay of its parsed records;
//! a hint file, when present and well formed, is authoritative for its data
//! file's contributions and is applied instead of a scan. Files contribute in
//! increasing identifier order, so later files win.

use vstd::prelude::*;
use vstd::bytes::*;
use vstd::utf8::valid_utf8;
use vstd::utf8::decode_utf8;
use vstd::utf8::encode_utf8;
use crate::codec::SpecRecord;
use crate::codec::spec_record_wf;
use crate::codec::spec_all_wf;
use crate::codec::spec_parse;
use crate::codec::lemma_parse_wf;
use crate::codec::MAX_KEY_BYTES;
use crate::codec::MAX_VALUE_BYTES;

verus! {

/// Fixed bytes of a hint entry: key_size(4), value_size(4), value_pos(8),
/// tstamp(8); the key bytes sit between key_size and value_size.
pub const HINT_FIXED_BYTES: usize = 24;

/// The model of one on-disk file: its identifier and its bytes.
pub struct FileModel {
    pub file_id: u64,
    pub bytes: Seq<u8>,
}

/// Identifiers strictly increase along the file list.
pub open spec fn spec_ids_increasing(files: Seq<FileModel>) -> bool {
    forall|i: int, j: int|
        #![trigger files[i].file_id, files[j].file_id]
        0 <= i < j < files.len() ==> files[i].file_id < files[j].file_id
}

/// The bytes of the first file carrying the given identifier, if any.
pub open spec fn spec_lookup(files: Seq<FileModel>, id: u64) -> Option<Seq<u8>>
    decreases files.len(),
{
    if files.len() == 0 {
        None
    } else if files[0].file_id == id {
        Some(files[0].bytes)
    } else {
        spec_lookup(files.drop_first(), id)
    }
}

/// The bytes of the first hint file for the given identifier, if any.
pub open spec fn spec_hint_for(hints: Seq<FileModel>, id: u64) -> Option<Seq<u8>>
    decreases hints.len(),
{
    if hints.len() == 0 {
        None
    } else if hints[0].file_id == id {
        Some(hints[0].bytes)
    } else {
        spec_hint_for(hints.drop_first(), id)
    }
}

// ---------------------------------------------------------------------------
// Hint-file format.
// ---------------------------------------------------------------------------

/// The model of one hint entry.
pub struct SpecHintEntry {
    pub key: Seq<u8>,
    pub value_sz: int,
    pub value_pos: int,
    pub tstamp: u64,
}

pub open spec fn hint_ksz(s: Seq<u8>) -> u32 {
    spec_u32_from_le_bytes(s.subrange(0, 4))
}

pub open spec fn hint_entry_len(s: Seq<u8>) -> int {
    HINT_FIXED_BYTES + hint_ksz(s)
}

pub open spec fn hint_complete_at(s: Seq<u8>) -> bool {
    s.len() >= 4 && s.len() >= hint_entry_len(s)
}

pub open spec fn spec_hint_entry(s: Seq<u8>) -> SpecHintEntry {
    let k = hint_ksz(s) as int;
    SpecHintEntry {
        key: s.subrange(4, 4 + k),
        value_sz: spec_u32_from_le_bytes(s.subrange(4 + k, 8 + k)) as int,
        value_pos: spec_u64_from_le_bytes(s.subrange(8 + k, 16 + k)) as int,
        tstamp: spec_u64_from_le_bytes(s.subrange(16 + k, 24 + k)),
    }
}

/// All whole entries of a hint file, in order.
pub open spec fn spec_parse_hint(s: Seq<u8>) -> Seq<SpecHintEntry>
    decreases s.len(),
{
    if !hint_complete_at(s) {
        Seq::empty()
    } else {
        seq![spec_hint_entry(s)] + spec_parse_hint(s.subrange(hint_entry_len(s), s.len() as int))
    }
}

/// A hint file is well formed when it is a whole number of entries.
pub open spec fn spec_hint_well_formed(s: Seq<u8>) -> bool
    decreases s.len(),
{
    if s.len() == 0 {
        true
    } else if !hint_complete_at(s) {
        false
    } else {
        spec_hint_well_formed(s.subrange(hint_entry_len(s), s.len() as int))
    }
}

/// The byte encoding of one hint entry.
pub open spec fn spec_hint_entry_bytes(key: Seq<u8>, value_sz: u32, value_pos: u64, tstamp: u64) -> Seq<u8> {
    spec_u32_to_le_bytes(key.len() as u32) + key + spec_u32_to_le_bytes(value_sz)
        + spec_u64_to_le_bytes(value_pos) + spec_u64_to_le_bytes(tstamp)
}

/// Applies one hint entry: an in-bounds entry whose key and referenced value
/// bytes are valid text inserts that value; anything else is ignored.
/// Whether a hint entry is adopted: in bounds, sizes within the format's
/// limits, and both the key and the referenced value bytes valid text.
pub open spec fn spec_hint_entry_live(e: SpecHintEntry, fbytes: Seq<u8>) -> bool {
    &&& 0 <= e.value_pos
    &&& 0 <= e.value_sz <= MAX_VALUE_BYTES
    &&& e.value_pos + e.value_sz <= fbytes.len()
    &&& e.key.len() <= MAX_KEY_BYTES
    &&& valid_utf8(e.key)
    &&& valid_utf8(fbytes.subrange(e.value_pos, e.value_pos + e.value_sz))
}

pub open spec fn spec_apply_hint_entry(
    m: Map<Seq<u8>, Seq<u8>>,
    e: SpecHintEntry,
    fbytes: Seq<u8>,
) -> Map<Seq<u8>, Seq<u8>> {
    if spec_hint_entry_live(e, fbytes) {
        m.insert(e.key, fbytes.subrange(e.value_pos, e.value_pos + e.value_sz))
    } else {
        m
    }
}

pub open spec fn spec_apply_hint(
    m: Map<Seq<u8>, Seq<u8>>,
    es: Seq<SpecHintEntry>,
    fbytes: Seq<u8>,
) -> Map<Seq<u8>, Seq<u8>>
    decreases es.len(),
{
    if es.len() == 0 {
        m
    } else {
        spec_apply_hint(spec_apply_hint_entry(m, es[0], fbytes), es.drop_first(), fbytes)
    }
}

// ---------------------------------------------------------------------------
// Replay of parsed records.
// ---------------------------------------------------------------------------

/// Applies one record: a live record with textual key and value inserts; a
/// tombstone with a textual key removes; a record whose key or value is not
/// valid text is treated as damaged and ignored.
pub open spec fn spec_apply_record(m: Map<Seq<u8>, Seq<u8>>, r: SpecRecord) -> Map<Seq<u8>, Seq<u8>> {
    if !valid_utf8(r.key) {
        m
    } else if r.tombstone {
        m.remove(r.key)
    } else if valid_utf8(r.value) {
        m.insert(r.key, r.value)
    } else {
        m
    }
}

pub open spec fn spec_replay(m: Map<Seq<u8>, Seq<u8>>, rs: Seq<SpecRecord>) -> Map<Seq<u8>, Seq<u8>>
    decreases rs.len(),
{
    if rs.len() == 0 {
        m
    } else {
        spec_replay(spec_apply_record(m, rs[0]), rs.drop_first())
    }
}

// ---------------------------------------------------------------------------
// The live map of a set of files.
// ---------------------------------------------------------------------------

/// One file's contribution: its well-formed hint file if it has one,
/// otherwise a full scan of its records.
pub open spec fn spec_file_contrib(
    m: Map<Seq<u8>, Seq<u8>>,
    f: FileModel,
    hints: Seq<FileModel>,
) -> Map<Seq<u8>, Seq<u8>> {
    match spec_hint_for(hints, f.file_id) {
        Some(h) => if spec_hint_well_formed(h) {
            spec_apply_hint(m, spec_parse_hint(h), f.bytes)
        } else {
            spec_replay(m, spec_parse(f.bytes))
        },
        None => spec_replay(m, spec_parse(f.bytes)),
    }
}

pub open spec fn spec_live_upto(
    files: Seq<FileModel>,
    hints: Seq<FileModel>,
    n: int,
) -> Map<Seq<u8>, Seq<u8>>
    decreases n,
{
    if n <= 0 {
        Map::empty()
    } else {
        spec_file_contrib(spec_live_upto(files, hints, n - 1), files[n - 1], hints)
    }
}

/// The mapping from key bytes to live value bytes that a set of files holds.
pub open spec fn spec_live_map(files: Seq<FileModel>, hints: Seq<FileModel>) -> Map<Seq<u8>, Seq<u8>> {
    spec_live_upto(files, hints, files.len() as int)
}

/// The text-level reading of a byte-level live map.
pub open spec fn spec_abs(m: Map<Seq<u8>, Seq<u8>>) -> Map<Seq<char>, Seq<char>> {
    Map::new(
        |k: Seq<char>| m.contains_key(encode_utf8(k)),
        |k: Seq<char>| decode_utf8(m[encode_utf8(k)]),
    )
}

/// Bounds and UTF-8 validity of one live binding.
pub open spec fn spec_entry_ok(k: Seq<u8>, v: Seq<u8>) -> bool {
    &&& valid_utf8(k)
    &&& valid_utf8(v)
    &&& k.len() <= MAX_KEY_BYTES
    &&& v.len() <= MAX_VALUE_BYTES
}

pub open spec fn spec_map_ok(m: Map<Seq<u8>, Seq<u8>>) -> bool {
    forall|k: Seq<u8>| #[trigger] m.contains_key(k) ==> spec_entry_ok(k, m[k])
}

// ---------------------------------------------------------------------------
// Lemmas.
// ---------------------------------------------------------------------------

pub proof fn lemma_replay_concat(m: Map<Seq<u8>, Seq<u8>>, a: Seq<SpecRecord>, b: Seq<SpecRecord>)
    ensures
        spec_replay(m, a + b) == spec_replay(spec_replay(m, a), b),
    decreases a.len(),
{
    if a.len() == 0 {
        assert(a + b =~= b);
    } else {
        assert((a + b)[0] == a[0]);
        assert((a + b).drop_first() =~= a.drop_first() + b);
        lemma_replay_concat(spec_apply_record(m, a[0]), a.drop_first(), b);
    }
}

pub proof fn lemma_replay_push(m: Map<Seq<u8>, Seq<u8>>, rs: Seq<SpecRecord>, r: SpecRecord)
    ensures
        spec_replay(m, rs.push(r)) == spec_apply_record(spec_replay(m, rs), r),
{
    assert(rs.push(r) =~= rs + seq![r]);
    lemma_replay_concat(m, rs, seq![r]);
    let one = seq![r];
    assert(one.drop_first() =~= Seq::<SpecRecord>::empty());
    assert(spec_replay(spec_apply_record(spec_replay(m, rs), r), one.drop_first())
        == spec_apply_record(spec_replay(m, rs), r));
}

pub proof fn lemma_replay_ok(m: Map<Seq<u8>, Seq<u8>>, rs: Seq<SpecRecord>)
    requires
        spec_map_ok(m),
        spec_all_wf(rs),
    ensures
        spec_map_ok(spec_replay(m, rs)),
    decreases rs.len(),
{
    if rs.len() != 0 {
        assert(spec_record_wf(rs[0]));
        assert(spec_map_ok(spec_apply_record(m, rs[0])));
        assert(spec_all_wf(rs.drop_first()));
        lemma_replay_ok(spec_apply_record(m, rs[0]), rs.drop_first());
    }
}

pub proof fn lemma_apply_hint_ok(m: Map<Seq<u8>, Seq<u8>>, es: Seq<SpecHintEntry>, fbytes: Seq<u8>)
    requires
        spec_map_ok(m),
    ensures
        spec_map_ok(spec_apply_hint(m, es, fbytes)),
    decreases es.len(),
{
    if es.len() != 0 {
        assert(spec_map_ok(spec_apply_hint_entry(m, es[0], fbytes)));
        lemma_apply_hint_ok(spec_apply_hint_entry(m, es[0], fbytes), es.drop_first(), fbytes);
    }
}

/// Every binding of the live map has a textual key and value within bounds.
pub proof fn lemma_live_upto_ok(files: Seq<FileModel>, hints: Seq<FileModel>, n: int)
    ensures
        spec_map_ok(spec_live_upto(files, hints, n)),
    decreases n,
{
    if n > 0 {
        lemma_live_upto_ok(files, hints, n - 1);
        let m = spec_live_upto(files, hints, n - 1);
        let f = files[n - 1];
        match spec_hint_for(hints, f.file_id) {
            Some(h) => {
                if spec_hint_well_formed(h) {
                    lemma_apply_hint_ok(m, spec_parse_hint(h), f.bytes);
                } else {
                    lemma_parse_wf(f.bytes);
                    lemma_replay_ok(m, spec_parse(f.bytes));
                }
            },
            None => {
                lemma_parse_wf(f.bytes);
                lemma_replay_ok(m, spec_parse(f.bytes));
            },
        }
    }
}

/// The fold up to `n` reads only the first `n` files.
pub proof fn lemma_live_upto_prefix(
    files1: Seq<FileModel>,
    files2: Seq<FileModel>,
    hints: Seq<FileModel>,
    n: int,
)
    requires
        n <= files1.len(),
        n <= files2.len(),
        forall|i: int| 0 <= i < n ==> files1[i] == files2[i],
    ensures
        spec_live_upto(files1, hints, n) == spec_live_upto(files2, hints, n),
    decreases n,
{
    if n > 0 {
        lemma_live_upto_prefix(files1, files2, hints, n - 1);
    }
}

pub proof fn lemma_hint_for_absent(hints: Seq<FileModel>, id: u64)
    requires
        forall|i: int| 0 <= i < hints.len() ==> #[trigger] hints[i].file_id != id,
    ensures
        spec_hint_for(hints, id) is None,
    decreases hints.len(),
{
    if hints.len() != 0 {
        assert(hints[0].file_id != id);
        assert forall|i: int| 0 <= i < hints.drop_first().len()
            implies #[trigger] hints.drop_first()[i].file_id != id by {
            assert(hints.drop_first()[i] == hints[i + 1]);
        }
        lemma_hint_for_absent(hints.drop_first(), id);
    }
}

pub proof fn lemma_lookup_absent(files: Seq<FileModel>, id: u64)
    requires
        forall|i: int| 0 <= i < files.len() ==> #[trigger] files[i].file_id != id,
    ensures
        spec_lookup(files, id) is None,
    decreases files.len(),
{
    if files.len() != 0 {
        assert(files[0].file_id != id);
        assert forall|i: int| 0 <= i < files.drop_first().len()
            implies #[trigger] files.drop_first()[i].file_id != id by {
            assert(files.drop_first()[i] == files[i + 1]);
        }
        lemma_lookup_absent(files.drop_first(), id);
    }
}

/// With increasing identifiers, looking up the identifier of the `i`-th file
/// finds exactly that file.
pub proof fn lemma_lookup_at(files: Seq<FileModel>, i: int)
    requires
        spec_ids_increasing(files),
        0 <= i < files.len(),
    ensures
        spec_lookup(files, files[i].file_id) == Some(files[i].bytes),
    decreases files.len(),
{
    if i == 0 {
    } else {
        assert(files[0].file_id < files[i].file_id);
        assert(spec_ids_increasing(files.drop_first())) by {
            assert forall|p: int, q: int|
                0 <= p < q < files.drop_first().len()
                implies #[trigger] files.drop_first()[p].file_id
                    < #[trigger] files.drop_first()[q].file_id by {
                assert(files.drop_first()[p] == files[p + 1]);
                assert(files.drop_first()[q] == files[q + 1]);
            }
        }
        assert(files.drop_first()[i - 1] == files[i]);
        lemma_lookup_at(files.drop_first(), i - 1);
    }
}

/// Replacing the last file with one of the same identifier changes only that
/// identifier's lookup.
pub proof fn lemma_lookup_update_last(files: Seq<FileModel>, g: FileModel)
    requires
        spec_ids_increasing(files),
        files.len() > 0,
        g.file_id == files[files.len() - 1].file_id,
    ensures
        spec_lookup(files.update(files.len() - 1, g), g.file_id) == Some(g.bytes),
        forall|id: u64| id != g.file_id
            ==> #[trigger] spec_lookup(files.update(files.len() - 1, g), id)
                == spec_lookup(files, id),
    decreases files.len(),
{
    let n = files.len() as int;
    let files2 = files.update(n - 1, g);
    if n == 1 {
        assert(files2[0] == g);
        assert(files2.drop_first() =~= Seq::<FileModel>::empty());
        assert(files.drop_first() =~= Seq::<FileModel>::empty());
    } else {
        assert(files[0].file_id < files[n - 1].file_id);
        assert(files2[0] == files[0]);
        assert(spec_ids_increasing(files.drop_first())) by {
            assert forall|p: int, q: int|
                0 <= p < q < files.drop_first().len()
                implies #[trigger] files.drop_first()[p].file_id
                    < #[trigger] files.drop_first()[q].file_id by {
                assert(files.drop_first()[p] == files[p + 1]);
                assert(files.drop_first()[q] == files[q + 1]);
            }
        }
        assert(files.drop_first()[files.drop_first().len() - 1] == files[n - 1]);
        lemma_lookup_update_last(files.drop_first(), g);
        assert(files2.drop_first() =~= files.drop_first().update(files.drop_first().len() - 1, g));
        assert(files2[0].file_id != g.file_id);
        assert(spec_lookup(files2, g.file_id)
            == spec_lookup(files.drop_first().update(files.drop_first().len() - 1, g), g.file_id));
        assert forall|id: u64| id != g.file_id
            implies #[trigger] spec_lookup(files2, id) == spec_lookup(files, id) by {
            if files[0].file_id == id {
                assert(spec_lookup(files2, id) == Some(files2[0].bytes));
                assert(spec_lookup(files, id) == Some(files[0].bytes));
            } else {
                assert(spec_lookup(files2, id)
                    == spec_lookup(files.drop_first().update(files.drop_first().len() - 1, g), id));
                assert(spec_lookup(files, id) == spec_lookup(files.drop_first(), id));
            }
        }
    }
}

/// Appending a file with a fresh identifier adds exactly that lookup.
pub proof fn lemma_lookup_push(files: Seq<FileModel>, g: FileModel)
    requires
        forall|i: int| 0 <= i < files.len() ==> #[trigger] files[i].file_id != g.file_id,
    ensures
        spec_lookup(files.push(g), g.file_id) == Some(g.bytes),
        forall|id: u64| id != g.file_id
            ==> #[trigger] spec_lookup(files.push(g), id) == spec_lookup(files, id),
    decreases files.len(),
{
    if files.len() == 0 {
        assert(files.push(g)[0] == g);
        assert(files.push(g).drop_first() =~= Seq::<FileModel>::empty());
        assert(files =~= Seq::<FileModel>::empty());
    } else {
        assert(files.push(g)[0] == files[0]);
        assert(files[0].file_id != g.file_id);
        assert forall|i: int| 0 <= i < files.drop_first().len()
            implies #[trigger] files.drop_first()[i].file_id != g.file_id by {
            assert(files.drop_first()[i] == files[i + 1]);
        }
        lemma_lookup_push(files.drop_first(), g);
        assert(files.push(g).drop_first() =~= files.drop_first().push(g));
        assert(spec_lookup(files.push(g), g.file_id)
            == spec_lookup(files.drop_first().push(g), g.file_id));
        assert forall|id: u64| id != g.file_id
            implies #[trigger] spec_lookup(files.push(g), id) == spec_lookup(files, id) by {
            if files[0].file_id == id {
                assert(spec_lookup(files.push(g), id) == Some(files.push(g)[0].bytes));
                assert(spec_lookup(files, id) == Some(files[0].bytes));
            } else {
                assert(spec_lookup(files.push(g), id)
                    == spec_lookup(files.drop_first().push(g), id));
                assert(spec_lookup(files, id) == spec_lookup(files.drop_first(), id));
            }
        }
    }
}

/// Inserting an encoded binding into a byte-level map inserts the text-level
/// binding into its reading.
pub proof fn lemma_abs_insert(m: Map<Seq<u8>, Seq<u8>>, k: Seq<char>, v: Seq<char>)
    ensures
        spec_abs(m.insert(encode_utf8(k), encode_utf8(v))) == spec_abs(m).insert(k, v),
{
    let m2 = m.insert(encode_utf8(k), encode_utf8(v));
    assert forall|k2: Seq<char>| #[trigger] spec_abs(m2).contains_key(k2)
        == spec_abs(m).insert(k, v).contains_key(k2) by {
        vstd::utf8::encode_utf8_decode_utf8(k);
        vstd::utf8::encode_utf8_decode_utf8(k2);
    }
    assert forall|k2: Seq<char>| spec_abs(m2).contains_key(k2)
        implies #[trigger] spec_abs(m2)[k2] == spec_abs(m).insert(k, v)[k2] by {
        vstd::utf8::encode_utf8_decode_utf8(k);
        vstd::utf8::encode_utf8_decode_utf8(k2);
        vstd::utf8::encode_utf8_decode_utf8(v);
    }
    assert(spec_abs(m2) =~= spec_abs(m).insert(k, v));
}

/// Removing an encoded key from a byte-level map removes the text-level key
/// from its reading.
pub proof fn lemma_abs_remove(m: Map<Seq<u8>, Seq<u8>>, k: Seq<char>)
    ensures
        spec_abs(m.remove(encode_utf8(k))) == spec_abs(m).remove(k),
{
    let m2 = m.remove(encode_utf8(k));
    assert forall|k2: Seq<char>| #[trigger] spec_abs(m2).contains_key(k2)
        == spec_abs(m).remove(k).contains_key(k2) by {
        vstd::utf8::encode_utf8_decode_utf8(k);
        vstd::utf8::encode_utf8_decode_utf8(k2);
    }
    assert forall|k2: Seq<char>| spec_abs(m2).contains_key(k2)
        implies #[trigger] spec_abs(m2)[k2] == spec_abs(m).remove(k)[k2] by {
        vstd::utf8::encode_utf8_decode_utf8(k);
        vstd::utf8::encode_utf8_decode_utf8(k2);
    }
    assert(spec_abs(m2) =~= spec_abs(m).remove(k));
}

/// One hint entry's encoding followed by anything parses back to itself.
pub proof fn lemma_hint_entry_extends(
    key: Seq<u8>,
    value_sz: u32,
    value_pos: u64,
    tstamp: u64,
    rest: Seq<u8>,
)
    requires
        key.len() <= MAX_KEY_BYTES,
    ensures
        ({
            let e = spec_hint_entry_bytes(key, value_sz, value_pos, tstamp);
            let b = e + rest;
            &&& e.len() == HINT_FIXED_BYTES + key.len()
            &&& hint_complete_at(b)
            &&& hint_entry_len(b) == e.len()
            &&& spec_hint_entry(b) == (SpecHintEntry {
                key,
                value_sz: value_sz as int,
                value_pos: value_pos as int,
                tstamp,
            })
            &&& b.subrange(hint_entry_len(b), b.len() as int) == rest
            &&& spec_parse_hint(b) == seq![
                SpecHintEntry { key, value_sz: value_sz as int, value_pos: value_pos as int, tstamp },
            ] + spec_parse_hint(rest)
            &&& (spec_hint_well_formed(b) <==> spec_hint_well_formed(rest))
        }),
{
    lemma_auto_spec_u32_to_from_le_bytes();
    lemma_auto_spec_u64_to_from_le_bytes();
    let e = spec_hint_entry_bytes(key, value_sz, value_pos, tstamp);
    let b = e + rest;
    let k = key.len() as int;
    assert(e.len() == 24 + k);
    assert(b.subrange(0, 4) =~= spec_u32_to_le_bytes(key.len() as u32));
    assert(hint_ksz(b) == key.len() as u32);
    assert(hint_entry_len(b) == e.len());
    assert(hint_complete_at(b));
    assert(b.subrange(4, 4 + k) =~= key);
    assert(b.subrange(4 + k, 8 + k) =~= spec_u32_to_le_bytes(value_sz));
    assert(b.subrange(8 + k, 16 + k) =~= spec_u64_to_le_bytes(value_pos));
    assert(b.subrange(16 + k, 24 + k) =~= spec_u64_to_le_bytes(tstamp));
    assert(b.subrange(hint_entry_len(b), b.len() as int) =~= rest);
    assert(b.len() != 0);
}


/// Bounds under which a hint entry can be written with fixed-width fields.
pub open spec fn spec_hint_entry_wf(e: SpecHintEntry) -> bool {
    &&& 0 <= e.value_sz <= u32::MAX
    &&& 0 <= e.value_pos <= u64::MAX
    &&& e.key.len() <= MAX_KEY_BYTES
}

pub open spec fn spec_hint_entry_enc(e: SpecHintEntry) -> Seq<u8> {
    spec_hint_entry_bytes(e.key, e.value_sz as u32, e.value_pos as u64, e.tstamp)
}

/// The concatenated encoding of a sequence of hint entries.
pub open spec fn spec_hint_encode_all(es: Seq<SpecHintEntry>) -> Seq<u8>
    decreases es.len(),
{
    if es.len() == 0 {
        Seq::empty()
    } else {
        spec_hint_entry_enc(es[0]) + spec_hint_encode_all(es.drop_first())
    }
}

pub open spec fn spec_hint_all_wf(es: Seq<SpecHintEntry>) -> bool {
    forall|i: int| 0 <= i < es.len() ==> spec_hint_entry_wf(#[trigger] es[i])
}

/// The encoding of hint entries parses back to exactly those entries and is
/// well formed.
pub proof fn lemma_parse_hint_encode_all(es: Seq<SpecHintEntry>, tail: Seq<u8>)
    requires
        spec_hint_all_wf(es),
    ensures
        spec_parse_hint(spec_hint_encode_all(es) + tail) == es + spec_parse_hint(tail),
        spec_hint_well_formed(spec_hint_encode_all(es) + tail) == spec_hint_well_formed(tail),
    decreases es.len(),
{
    if es.len() == 0 {
        assert(spec_hint_encode_all(es) + tail =~= tail);
        assert(es + spec_parse_hint(tail) =~= spec_parse_hint(tail));
    } else {
        let e = es[0];
        let rest = es.drop_first();
        assert(spec_hint_all_wf(rest));
        lemma_parse_hint_encode_all(rest, tail);
        assert(spec_hint_encode_all(es) + tail
            =~= spec_hint_entry_enc(e) + (spec_hint_encode_all(rest) + tail));
        lemma_hint_entry_extends(
            e.key,
            e.value_sz as u32,
            e.value_pos as u64,
            e.tstamp,
            spec_hint_encode_all(rest) + tail,
        );
        assert(SpecHintEntry {
            key: e.key,
            value_sz: (e.value_sz as u32) as int,
            value_pos: (e.value_pos as u64) as int,
            tstamp: e.tstamp,
        } == e);
        assert(seq![e] + (rest + spec_parse_hint(tail)) =~= es + spec_parse_hint(tail));
    }
}

pub proof fn lemma_hint_encode_all_push(es: Seq<SpecHintEntry>, e: SpecHintEntry)
    ensures
        spec_hint_encode_all(es.push(e)) == spec_hint_encode_all(es) + spec_hint_entry_enc(e),
    decreases es.len(),
{
    if es.len() == 0 {
        assert(es.push(e)[0] == e);
        assert(es.push(e).drop_first() =~= Seq::<SpecHintEntry>::empty());
        assert(spec_hint_encode_all(Seq::<SpecHintEntry>::empty()) == Seq::<u8>::empty());
        assert(spec_hint_encode_all(es.push(e))
            == spec_hint_entry_enc(e) + spec_hint_encode_all(Seq::<SpecHintEntry>::empty()));
        assert(spec_hint_entry_enc(e) + Seq::<u8>::empty() =~= spec_hint_entry_enc(e));
        assert(spec_hint_encode_all(es) + spec_hint_entry_enc(e) =~= spec_hint_entry_enc(e));
    } else {
        assert(es.push(e).drop_first() =~= es.drop_first().push(e));
        lemma_hint_encode_all_push(es.drop_first(), e);
        assert(es.push(e)[0] == es[0]);
        assert(spec_hint_encode_all(es.push(e))
            == spec_hint_entry_enc(es[0]) + spec_hint_encode_all(es.drop_first().push(e)));
        assert(spec_hint_encode_all(es)
            == spec_hint_entry_enc(es[0]) + spec_hint_encode_all(es.drop_first()));
        assert(spec_hint_entry_enc(es[0])
            + (spec_hint_encode_all(es.drop_first()) + spec_hint_entry_enc(e))
            =~= (spec_hint_entry_enc(es[0]) + spec_hint_encode_all(es.drop_first()))
                + spec_hint_entry_enc(e));
    }
}

pub proof fn lemma_apply_hint_concat(
    m: Map<Seq<u8>, Seq<u8>>,
    a: Seq<SpecHintEntry>,
    b: Seq<SpecHintEntry>,
    fb: Seq<u8>,
)
    ensures
        spec_apply_hint(m, a + b, fb) == spec_apply_hint(spec_apply_hint(m, a, fb), b, fb),
    decreases a.len(),
{
    if a.len() == 0 {
        assert(a + b =~= b);
    } else {
        assert((a + b)[0] == a[0]);
        assert((a + b).drop_first() =~= a.drop_first() + b);
        lemma_apply_hint_concat(spec_apply_hint_entry(m, a[0], fb), a.drop_first(), b, fb);
    }
}

pub proof fn lemma_apply_hint_push(
    m: Map<Seq<u8>, Seq<u8>>,
    es: Seq<SpecHintEntry>,
    e: SpecHintEntry,
    fb: Seq<u8>,
)
    ensures
        spec_apply_hint(m, es.push(e), fb) == spec_apply_hint_entry(
            spec_apply_hint(m, es, fb),
            e,
            fb,
        ),
{
    assert(es.push(e) =~= es + seq![e]);
    lemma_apply_hint_concat(m, es, seq![e], fb);
    let one = seq![e];
    assert(one.drop_first() =~= Seq::<SpecHintEntry>::empty());
    assert(spec_apply_hint(spec_apply_hint_entry(spec_apply_hint(m, es, fb), e, fb), one.drop_first(), fb)
        == spec_apply_hint_entry(spec_apply_hint(m, es, fb), e, fb));
}


// ---------------------------------------------------------------------------
// The timestamps of the live map: a parallel fold with the same gates that
// records, for each live key, the timestamp of the newest record that set it.
// ---------------------------------------------------------------------------

pub open spec fn spec_apply_record_ts(t: Map<Seq<u8>, u64>, r: SpecRecord) -> Map<Seq<u8>, u64> {
    if !valid_utf8(r.key) {
        t
    } else if r.tombstone {
        t.remove(r.key)
    } else if valid_utf8(r.value) {
        t.insert(r.key, r.tstamp)
    } else {
        t
    }
}

pub open spec fn spec_replay_ts(t: Map<Seq<u8>, u64>, rs: Seq<SpecRecord>) -> Map<Seq<u8>, u64>
    decreases rs.len(),
{
    if rs.len() == 0 {
        t
    } else {
        spec_replay_ts(spec_apply_record_ts(t, rs[0]), rs.drop_first())
    }
}

pub open spec fn spec_apply_hint_entry_ts(
    t: Map<Seq<u8>, u64>,
    e: SpecHintEntry,
    fbytes: Seq<u8>,
) -> Map<Seq<u8>, u64> {
    if spec_hint_entry_live(e, fbytes) {
        t.insert(e.key, e.tstamp)
    } else {
        t
    }
}

pub open spec fn spec_apply_hint_ts(
    t: Map<Seq<u8>, u64>,
    es: Seq<SpecHintEntry>,
    fbytes: Seq<u8>,
) -> Map<Seq<u8>, u64>
    decreases es.len(),
{
    if es.len() == 0 {
        t
    } else {
        spec_apply_hint_ts(spec_apply_hint_entry_ts(t, es[0], fbytes), es.drop_first(), fbytes)
    }
}

pub open spec fn spec_file_contrib_ts(
    t: Map<Seq<u8>, u64>,
    f: FileModel,
    hints: Seq<FileModel>,
) -> Map<Seq<u8>, u64> {
    match spec_hint_for(hints, f.file_id) {
        Some(h) => if spec_hint_well_formed(h) {
            spec_apply_hint_ts(t, spec_parse_hint(h), f.bytes)
        } else {
            spec_replay_ts(t, spec_parse(f.bytes))
        },
        None => spec_replay_ts(t, spec_parse(f.bytes)),
    }
}

pub open spec fn spec_live_upto_ts(
    files: Seq<FileModel>,
    hints: Seq<FileModel>,
    n: int,
) -> Map<Seq<u8>, u64>
    decreases n,
{
    if n <= 0 {
        Map::empty()
    } else {
        spec_file_contrib_ts(spec_live_upto_ts(files, hints, n - 1), files[n - 1], hints)
    }
}

/// For each live key, the timestamp of the newest record that set it.
pub open spec fn spec_live_map_ts(files: Seq<FileModel>, hints: Seq<FileModel>) -> Map<Seq<u8>, u64> {
    spec_live_upto_ts(files, hints, files.len() as int)
}

} // verus!
