//! The compactor: merges sealed data files into one compacted file that
//! holds exactly one live record per key — tombstoned keys are finally
//! reclaimed here — and produces the paired hint file for fast recovery.

use vstd::prelude::*;
use vstd::utf8::valid_utf8;
use vstd::slice::slice_subrange;
use vstd::slice::slice_to_vec;
use vstd::slice::slice_index_get;
use vstd::bytes::u32_from_le_bytes;
use vstd::bytes::u64_from_le_bytes;
use vstd::bytes::u32_to_le_bytes;
use vstd::bytes::u64_to_le_bytes;
use crate::codec::{
    SpecRecord, DecodeOutcome, MAX_VALUE_BYTES, spec_record_wf, spec_all_wf, spec_encode_all,
    spec_parse, spec_complete_at, spec_rec_len, spec_parsed_record, decode_at, make_record,
    encode, push_bytes, lemma_parse_exact, lemma_encode_all_push,
};
use crate::model::{
    SpecHintEntry, HINT_FIXED_BYTES, spec_ids_increasing, spec_live_map, spec_live_upto,
    spec_replay, spec_apply_record, spec_entry_ok, hint_ksz, hint_entry_len, hint_complete_at,
    spec_hint_entry, spec_parse_hint, spec_hint_well_formed, spec_apply_hint,
    spec_apply_hint_entry, spec_hint_entry_wf, spec_hint_entry_enc, spec_hint_encode_all,
    spec_hint_all_wf, lemma_parse_hint_encode_all, lemma_hint_encode_all_push,
    lemma_apply_hint_push, lemma_replay_push, spec_apply_record_ts, spec_replay_ts,
    spec_apply_hint_entry_ts, spec_apply_hint_ts, spec_live_upto_ts, spec_live_map_ts,
};
use crate::store::{
    DataFile, HintFile, read_at, file_models, hint_models, lemma_file_models_len,
    lemma_file_models_index, lemma_hint_models_len, lemma_hint_models_index,
};
use crate::ext::bytes_copy_from_slice;
use crate::ext::bytes_as_slice;
use crate::ext::utf8_valid;
use crate::errors::ByteHausError;

verus! {

broadcast use lemma_file_models_len, lemma_file_models_index, lemma_hint_models_len, lemma_hint_models_index;

/// One live binding gathered during a merge pass: the key, its newest value,
/// the producing record's timestamp, and where the value lies in the scanned
/// file.
pub struct LiveRec {
    pub key: Vec<u8>,
    pub value: Vec<u8>,
    pub tstamp: u64,
    pub value_pos: usize,
    pub value_sz: usize,
}

/// No two gathered entries share a key.
pub open spec fn live_distinct(s: Seq<LiveRec>) -> bool {
    forall|i: int, j: int|
        #![trigger s[i], s[j]]
        0 <= i < j < s.len() ==> s[i].key@ != s[j].key@
}

/// The key-to-value mapping a gathered list stands for.
pub open spec fn live_view(s: Seq<LiveRec>) -> Map<Seq<u8>, Seq<u8>>
    decreases s.len(),
{
    if s.len() == 0 {
        Map::empty()
    } else {
        live_view(s.drop_last()).insert(s.last().key@, s.last().value@)
    }
}

/// Every gathered entry is a textual, in-bounds binding.
pub open spec fn live_entries_ok(s: Seq<LiveRec>) -> bool {
    forall|i: int| 0 <= i < s.len()
        ==> spec_entry_ok((#[trigger] s[i]).key@, s[i].value@)
}

/// The entry's value bytes lie at its recorded position in the file.
pub open spec fn live_rec_in_file(r: LiveRec, fb: Seq<u8>) -> bool {
    &&& r.value_pos + r.value_sz <= fb.len()
    &&& r.value_sz == r.value@.len()
    &&& fb.subrange(r.value_pos as int, r.value_pos + r.value_sz) == r.value@
}

pub open spec fn live_located(s: Seq<LiveRec>, fb: Seq<u8>) -> bool {
    forall|i: int| 0 <= i < s.len() ==> live_rec_in_file(#[trigger] s[i], fb)
}

/// The key-to-timestamp mapping a gathered list stands for.
pub open spec fn live_view_ts(s: Seq<LiveRec>) -> Map<Seq<u8>, u64>
    decreases s.len(),
{
    if s.len() == 0 {
        Map::empty()
    } else {
        live_view_ts(s.drop_last()).insert(s.last().key@, s.last().tstamp)
    }
}

proof fn lemma_live_view_ts_absent(s: Seq<LiveRec>, kb: Seq<u8>)
    requires
        forall|t: int| 0 <= t < s.len() ==> (#[trigger] s[t]).key@ != kb,
    ensures
        !live_view_ts(s).contains_key(kb),
    decreases s.len(),
{
    if s.len() != 0 {
        assert(s.last().key@ != kb);
        assert forall|t: int| 0 <= t < s.drop_last().len()
            implies (#[trigger] s.drop_last()[t]).key@ != kb by {
            assert(s.drop_last()[t] == s[t]);
        }
        lemma_live_view_ts_absent(s.drop_last(), kb);
    }
}

proof fn lemma_live_view_ts_remove(s: Seq<LiveRec>, i: int)
    requires
        live_distinct(s),
        0 <= i < s.len(),
    ensures
        live_view_ts(s.remove(i)) == live_view_ts(s).remove(s[i].key@),
    decreases s.len(),
{
    let n = s.len() as int;
    let k = s[i].key@;
    if i == n - 1 {
        assert(s.remove(i) =~= s.drop_last());
        assert forall|t: int| 0 <= t < s.drop_last().len()
            implies (#[trigger] s.drop_last()[t]).key@ != k by {
            assert(s.drop_last()[t] == s[t]);
        }
        lemma_live_view_ts_absent(s.drop_last(), k);
        assert(live_view_ts(s) == live_view_ts(s.drop_last()).insert(k, s.last().tstamp));
        assert(live_view_ts(s).remove(k) =~= live_view_ts(s.drop_last()));
    } else {
        let dl = s.drop_last();
        assert(live_distinct(dl)) by {
            assert forall|p: int, q: int| 0 <= p < q < dl.len()
                implies (#[trigger] dl[p]).key@ != (#[trigger] dl[q]).key@ by {
                assert(dl[p] == s[p]);
                assert(dl[q] == s[q]);
            }
        }
        assert(dl[i] == s[i]);
        lemma_live_view_ts_remove(dl, i);
        assert(s.remove(i).drop_last() =~= dl.remove(i));
        assert(s.remove(i).last() == s.last());
        assert(live_view_ts(s.remove(i))
            == live_view_ts(dl.remove(i)).insert(s.last().key@, s.last().tstamp));
        assert(s.last().key@ != k);
        assert(live_view_ts(dl).remove(k).insert(s.last().key@, s.last().tstamp)
            =~= live_view_ts(dl).insert(s.last().key@, s.last().tstamp).remove(k));
    }
}

proof fn lemma_live_view_ts_entries(s: Seq<LiveRec>)
    requires
        live_distinct(s),
    ensures
        forall|i: int| 0 <= i < s.len()
            ==> live_view_ts(s).contains_key((#[trigger] s[i]).key@)
                && live_view_ts(s)[s[i].key@] == s[i].tstamp,
    decreases s.len(),
{
    if s.len() != 0 {
        let dl = s.drop_last();
        assert(live_distinct(dl)) by {
            assert forall|p: int, q: int| 0 <= p < q < dl.len()
                implies (#[trigger] dl[p]).key@ != (#[trigger] dl[q]).key@ by {
                assert(dl[p] == s[p]);
                assert(dl[q] == s[q]);
            }
        }
        lemma_live_view_ts_entries(dl);
        assert forall|i: int| 0 <= i < s.len()
            implies live_view_ts(s).contains_key((#[trigger] s[i]).key@)
                && live_view_ts(s)[s[i].key@] == s[i].tstamp by {
            if i < s.len() - 1 {
                assert(dl[i] == s[i]);
                assert(s[i].key@ != s.last().key@);
            }
        }
    }
}

proof fn lemma_live_view_absent(s: Seq<LiveRec>, kb: Seq<u8>)
    requires
        forall|t: int| 0 <= t < s.len() ==> (#[trigger] s[t]).key@ != kb,
    ensures
        !live_view(s).contains_key(kb),
    decreases s.len(),
{
    if s.len() != 0 {
        assert(s.last().key@ != kb);
        assert forall|t: int| 0 <= t < s.drop_last().len()
            implies (#[trigger] s.drop_last()[t]).key@ != kb by {
            assert(s.drop_last()[t] == s[t]);
        }
        lemma_live_view_absent(s.drop_last(), kb);
    }
}

proof fn lemma_live_view_remove(s: Seq<LiveRec>, i: int)
    requires
        live_distinct(s),
        0 <= i < s.len(),
    ensures
        live_view(s.remove(i)) == live_view(s).remove(s[i].key@),
    decreases s.len(),
{
    let n = s.len() as int;
    let k = s[i].key@;
    if i == n - 1 {
        assert(s.remove(i) =~= s.drop_last());
        assert forall|t: int| 0 <= t < s.drop_last().len()
            implies (#[trigger] s.drop_last()[t]).key@ != k by {
            assert(s.drop_last()[t] == s[t]);
        }
        lemma_live_view_absent(s.drop_last(), k);
        assert(live_view(s) == live_view(s.drop_last()).insert(k, s.last().value@));
        assert(live_view(s).remove(k) =~= live_view(s.drop_last()));
    } else {
        let dl = s.drop_last();
        assert(live_distinct(dl)) by {
            assert forall|p: int, q: int| 0 <= p < q < dl.len()
                implies (#[trigger] dl[p]).key@ != (#[trigger] dl[q]).key@ by {
                assert(dl[p] == s[p]);
                assert(dl[q] == s[q]);
            }
        }
        assert(dl[i] == s[i]);
        lemma_live_view_remove(dl, i);
        assert(s.remove(i).drop_last() =~= dl.remove(i));
        assert(s.remove(i).last() == s.last());
        assert(live_view(s.remove(i))
            == live_view(dl.remove(i)).insert(s.last().key@, s.last().value@));
        assert(s.last().key@ != k);
        assert(live_view(dl).remove(k).insert(s.last().key@, s.last().value@)
            =~= live_view(dl).insert(s.last().key@, s.last().value@).remove(k));
    }
}

proof fn lemma_live_view_entries(s: Seq<LiveRec>)
    requires
        live_distinct(s),
    ensures
        forall|i: int| 0 <= i < s.len()
            ==> live_view(s).contains_key((#[trigger] s[i]).key@)
                && live_view(s)[s[i].key@] == s[i].value@,
    decreases s.len(),
{
    if s.len() != 0 {
        let dl = s.drop_last();
        assert(live_distinct(dl)) by {
            assert forall|p: int, q: int| 0 <= p < q < dl.len()
                implies (#[trigger] dl[p]).key@ != (#[trigger] dl[q]).key@ by {
                assert(dl[p] == s[p]);
                assert(dl[q] == s[q]);
            }
        }
        lemma_live_view_entries(dl);
        assert forall|i: int| 0 <= i < s.len()
            implies live_view(s).contains_key((#[trigger] s[i]).key@)
                && live_view(s)[s[i].key@] == s[i].value@ by {
            if i < s.len() - 1 {
                assert(dl[i] == s[i]);
                assert(s[i].key@ != s.last().key@);
            }
        }
    }
}

proof fn lemma_live_view_exists(s: Seq<LiveRec>, kb: Seq<u8>)
    requires
        live_view(s).contains_key(kb),
    ensures
        exists|i: int| 0 <= i < s.len() && (#[trigger] s[i]).key@ == kb,
    decreases s.len(),
{
    if s.len() != 0 {
        if s.last().key@ == kb {
            assert(s[s.len() - 1].key@ == kb);
        } else {
            lemma_live_view_exists(s.drop_last(), kb);
            let i = choose|i: int|
                0 <= i < s.drop_last().len() && (#[trigger] s.drop_last()[i]).key@ == kb;
            assert(s[i].key@ == kb);
        }
    }
}

/// Byte-for-byte slice equality.
fn eq_bytes(a: &[u8], b: &[u8]) -> (r: bool)
    ensures
        r == (a@ == b@),
{
    if a.len() != b.len() {
        proof {
            if a@ == b@ {
                assert(a@.len() == b@.len());
            }
        }
        return false;
    }
    let mut i: usize = 0;
    while i < a.len()
        invariant
            i <= a@.len(),
            a@.len() == b@.len(),
            forall|t: int| 0 <= t < i ==> a@[t] == b@[t],
        decreases a@.len() - i,
    {
        if *slice_index_get(a, i) != *slice_index_get(b, i) {
            proof {
                if a@ == b@ {
                    assert(a@[i as int] == b@[i as int]);
                }
            }
            return false;
        }
        i = i + 1;
    }
    proof {
        assert(a@ =~= b@);
    }
    true
}

/// The index of the entry holding this key, if any.
fn find_key(entries: &Vec<LiveRec>, key: &[u8]) -> (r: Option<usize>)
    ensures
        match r {
            Some(i) => i < entries@.len() && entries@[i as int].key@ == key@,
            None => forall|t: int| 0 <= t < entries@.len()
                ==> (#[trigger] entries@[t]).key@ != key@,
        },
{
    let mut i: usize = 0;
    while i < entries.len()
        invariant
            i <= entries@.len(),
            forall|t: int| 0 <= t < i ==> (#[trigger] entries@[t]).key@ != key@,
        decreases entries@.len() - i,
    {
        let e = &entries[i];
        if eq_bytes(e.key.as_slice(), key) {
            return Some(i);
        }
        i = i + 1;
    }
    None
}

/// Inserts a gathered binding: last writer wins.
fn live_put(entries: &mut Vec<LiveRec>, rec: LiveRec)
    requires
        live_distinct(old(entries)@),
    ensures
        live_distinct(final(entries)@),
        live_view(final(entries)@) == live_view(old(entries)@).insert(rec.key@, rec.value@),
        live_view_ts(final(entries)@) == live_view_ts(old(entries)@).insert(rec.key@, rec.tstamp),
        forall|i: int| 0 <= i < final(entries)@.len()
            ==> (#[trigger] final(entries)@[i]) == rec
                || exists|j: int| 0 <= j < old(entries)@.len()
                    && final(entries)@[i] == #[trigger] old(entries)@[j],
{
    let ghost s0 = entries@;
    let ghost k = rec.key@;
    match find_key(entries, rec.key.as_slice()) {
        Some(i) => {
            proof {
                lemma_live_view_remove(s0, i as int);
                lemma_live_view_ts_remove(s0, i as int);
            }
            let _ = entries.remove(i);
            let ghost s1 = entries@;
            proof {
                assert(s1 == s0.remove(i as int));
                assert forall|t: int| 0 <= t < s1.len()
                    implies (#[trigger] s1[t]).key@ != k by {
                    if t < i {
                        assert(s1[t] == s0[t]);
                    } else {
                        assert(s1[t] == s0[t + 1]);
                    }
                }
                assert(live_distinct(s1)) by {
                    assert forall|p: int, q: int| 0 <= p < q < s1.len()
                        implies (#[trigger] s1[p]).key@ != (#[trigger] s1[q]).key@ by {
                        let p0: int = if p < i { p } else { p + 1 };
                        let q0: int = if q < i { q } else { q + 1 };
                        assert(s1[p] == s0[p0]);
                        assert(s1[q] == s0[q0]);
                    }
                }
            }
            entries.push(rec);
            proof {
                assert(entries@.drop_last() =~= s1);
                assert(entries@.last() == rec);
                assert(live_view(entries@) == live_view(s1).insert(k, rec.value@));
                assert(live_view(s1) == live_view(s0).remove(k));
                assert(live_view(s0).remove(k).insert(k, rec.value@)
                    =~= live_view(s0).insert(k, rec.value@));
                assert(live_view_ts(entries@) == live_view_ts(s1).insert(k, rec.tstamp));
                assert(live_view_ts(s1) == live_view_ts(s0).remove(k));
                assert(live_view_ts(s0).remove(k).insert(k, rec.tstamp)
                    =~= live_view_ts(s0).insert(k, rec.tstamp));
                assert forall|p: int, q: int| 0 <= p < q < entries@.len()
                    implies (#[trigger] entries@[p]).key@ != (#[trigger] entries@[q]).key@ by {
                    if q == entries@.len() - 1 {
                        assert(entries@[p] == s1[p]);
                    } else {
                        assert(entries@[p] == s1[p]);
                        assert(entries@[q] == s1[q]);
                    }
                }
                assert forall|t: int| 0 <= t < entries@.len()
                    implies (#[trigger] entries@[t]) == rec
                        || exists|j: int| 0 <= j < s0.len()
                            && entries@[t] == #[trigger] s0[j] by {
                    if t < entries@.len() - 1 {
                        let j0: int = if t < i { t } else { t + 1 };
                        assert(entries@[t] == s0[j0]);
                    }
                }
            }
        },
        None => {
            entries.push(rec);
            proof {
                assert(entries@.drop_last() =~= s0);
                assert(entries@.last() == rec);
                assert forall|p: int, q: int| 0 <= p < q < entries@.len()
                    implies (#[trigger] entries@[p]).key@ != (#[trigger] entries@[q]).key@ by {
                    if q == entries@.len() - 1 {
                        assert(entries@[p] == s0[p]);
                    } else {
                        assert(entries@[p] == s0[p]);
                        assert(entries@[q] == s0[q]);
                    }
                }
                assert forall|t: int| 0 <= t < entries@.len()
                    implies (#[trigger] entries@[t]) == rec
                        || exists|j: int| 0 <= j < s0.len()
                            && entries@[t] == #[trigger] s0[j] by {
                    if t < entries@.len() - 1 {
                        assert(entries@[t] == s0[t]);
                    }
                }
            }
        },
    }
}

/// Drops a gathered binding, if present.
fn live_remove(entries: &mut Vec<LiveRec>, key: &[u8])
    requires
        live_distinct(old(entries)@),
    ensures
        live_distinct(final(entries)@),
        live_view(final(entries)@) == live_view(old(entries)@).remove(key@),
        live_view_ts(final(entries)@) == live_view_ts(old(entries)@).remove(key@),
        forall|i: int| 0 <= i < final(entries)@.len()
            ==> exists|j: int| 0 <= j < old(entries)@.len()
                && (#[trigger] final(entries)@[i]) == old(entries)@[j],
{
    let ghost s0 = entries@;
    match find_key(entries, key) {
        Some(i) => {
            proof {
                lemma_live_view_remove(s0, i as int);
                lemma_live_view_ts_remove(s0, i as int);
            }
            let _ = entries.remove(i);
            proof {
                let s1 = entries@;
                assert(live_distinct(s1)) by {
                    assert forall|p: int, q: int| 0 <= p < q < s1.len()
                        implies (#[trigger] s1[p]).key@ != (#[trigger] s1[q]).key@ by {
                        let p0: int = if p < i { p } else { p + 1 };
                        let q0: int = if q < i { q } else { q + 1 };
                        assert(s1[p] == s0[p0]);
                        assert(s1[q] == s0[q0]);
                    }
                }
                assert forall|t: int| 0 <= t < s1.len()
                    implies exists|j: int| 0 <= j < s0.len() && (#[trigger] s1[t]) == s0[j] by {
                    let j0: int = if t < i { t } else { t + 1 };
                    assert(s1[t] == s0[j0]);
                }
            }
        },
        None => {
            proof {
                lemma_live_view_absent(s0, key@);
                assert(live_view(s0).remove(key@) =~= live_view(s0));
                lemma_live_view_ts_absent(s0, key@);
                assert(live_view_ts(s0).remove(key@) =~= live_view_ts(s0));
                assert forall|t: int| 0 <= t < s0.len()
                    implies exists|j: int| 0 <= j < s0.len() && (#[trigger] s0[t]) == s0[j] by {
                    assert(s0[t] == s0[t]);
                }
            }
        },
    }
}


/// Replays one data file's records into the gathered list, stopping cleanly
/// at a trailing truncated record and skipping checksum-invalid records.
fn scan_file_live(
    entries: &mut Vec<LiveRec>,
    f: &DataFile,
    Ghost(m0): Ghost<Map<Seq<u8>, Seq<u8>>>,
    Ghost(t0): Ghost<Map<Seq<u8>, u64>>,
)
    requires
        live_distinct(old(entries)@),
        live_entries_ok(old(entries)@),
        live_view(old(entries)@) == m0,
        live_view_ts(old(entries)@) == t0,
    ensures
        live_distinct(final(entries)@),
        live_entries_ok(final(entries)@),
        live_view(final(entries)@) == spec_replay(m0, spec_parse(f@.bytes)),
        live_view_ts(final(entries)@) == spec_replay_ts(t0, spec_parse(f@.bytes)),
        forall|i: int| 0 <= i < final(entries)@.len()
            ==> live_rec_in_file(#[trigger] final(entries)@[i], f@.bytes)
                || exists|j: int| 0 <= j < old(entries)@.len()
                    && final(entries)@[i] == old(entries)@[j],
{
    let len = f.bytes.len();
    let ghost whole = f.bytes@;
    let mut pos: usize = 0;
    let mut done = false;
    proof {
        assert(whole.subrange(0, whole.len() as int) =~= whole);
    }
    while !done
        invariant
            pos <= len,
            len == f.bytes@.len(),
            whole == f.bytes@,
            live_distinct(entries@),
            live_entries_ok(entries@),
            spec_replay(
                live_view(entries@),
                spec_parse(whole.subrange(pos as int, whole.len() as int)),
            ) == spec_replay(m0, spec_parse(whole)),
            spec_replay_ts(
                live_view_ts(entries@),
                spec_parse(whole.subrange(pos as int, whole.len() as int)),
            ) == spec_replay_ts(t0, spec_parse(whole)),
            done ==> live_view(entries@) == spec_replay(m0, spec_parse(whole)),
            done ==> live_view_ts(entries@) == spec_replay_ts(t0, spec_parse(whole)),
            forall|i: int| 0 <= i < entries@.len()
                ==> live_rec_in_file(#[trigger] entries@[i], whole)
                    || exists|j: int| 0 <= j < old(entries)@.len()
                        && entries@[i] == old(entries)@[j],
        decreases len - pos + (if done { 0int } else { 1int }),
    {
        let ghost s = whole.subrange(pos as int, whole.len() as int);
        if pos >= len {
            proof {
                assert(s.len() == 0);
                assert(!spec_complete_at(s));
            }
            done = true;
        } else {
            match decode_at(&f.bytes, pos) {
                DecodeOutcome::Truncated => {
                    proof {
                        assert(spec_parse(s) == Seq::<SpecRecord>::empty());
                    }
                    done = true;
                },
                DecodeOutcome::Corrupt { consumed } => {
                    proof {
                        assert(s.subrange(spec_rec_len(s), s.len() as int)
                            =~= whole.subrange(pos + consumed, whole.len() as int));
                    }
                    pos = pos + consumed;
                },
                DecodeOutcome::Complete { record, consumed, value_pos } => {
                    let ghost r = spec_parsed_record(s);
                    let ghost rest = spec_parse(whole.subrange(pos + consumed, whole.len() as int));
                    proof {
                        assert(s.subrange(spec_rec_len(s), s.len() as int)
                            =~= whole.subrange(pos + consumed, whole.len() as int));
                        assert(spec_parse(s) == seq![r] + rest);
                        assert((seq![r] + rest)[0] == r);
                        assert((seq![r] + rest).drop_first() =~= rest);
                        assert(spec_replay(live_view(entries@), spec_parse(s))
                            == spec_replay(spec_apply_record(live_view(entries@), r), rest));
                        assert(spec_replay_ts(live_view_ts(entries@), spec_parse(s))
                            == spec_replay_ts(
                            spec_apply_record_ts(live_view_ts(entries@), r),
                            rest,
                        ));
                    }
                    let ghost pre = entries@;
                    if utf8_valid(bytes_as_slice(&record.key)) {
                        if record.tombstone {
                            let kv = slice_to_vec(bytes_as_slice(&record.key));
                            live_remove(entries, kv.as_slice());
                            proof {
                                assert(live_view(entries@) == spec_apply_record(live_view(pre), r));
                                assert(live_view_ts(entries@)
                                    == spec_apply_record_ts(live_view_ts(pre), r));
                                assert forall|t: int| 0 <= t < entries@.len()
                                    implies spec_entry_ok(
                                        (#[trigger] entries@[t]).key@,
                                        entries@[t].value@,
                                    ) by {
                                    let j = choose|j: int|
                                        0 <= j < pre.len() && (#[trigger] entries@[t]) == pre[j];
                                }
                                assert forall|t: int| 0 <= t < entries@.len()
                                    implies live_rec_in_file(#[trigger] entries@[t], whole)
                                        || exists|j: int| 0 <= j < old(entries)@.len()
                                            && entries@[t] == old(entries)@[j] by {
                                    let j = choose|j: int|
                                        0 <= j < pre.len() && (#[trigger] entries@[t]) == pre[j];
                                    assert(live_rec_in_file(pre[j], whole)
                                        || exists|j2: int| 0 <= j2 < old(entries)@.len()
                                            && pre[j] == old(entries)@[j2]);
                                }
                            }
                        } else if utf8_valid(bytes_as_slice(&record.value)) {
                            let kv = slice_to_vec(bytes_as_slice(&record.key));
                            let vv = slice_to_vec(bytes_as_slice(&record.value));
                            let rec = LiveRec {
                                key: kv,
                                value: vv,
                                tstamp: record.tstamp,
                                value_pos,
                                value_sz: record.value_sz,
                            };
                            proof {
                                assert(live_rec_in_file(rec, whole));
                                assert(spec_entry_ok(rec.key@, rec.value@));
                            }
                            live_put(entries, rec);
                            proof {
                                assert(live_view(entries@) == spec_apply_record(live_view(pre), r));
                                assert(live_view_ts(entries@)
                                    == spec_apply_record_ts(live_view_ts(pre), r));
                                assert forall|t: int| 0 <= t < entries@.len()
                                    implies spec_entry_ok(
                                        (#[trigger] entries@[t]).key@,
                                        entries@[t].value@,
                                    ) by {
                                    if entries@[t] != rec {
                                        let j = choose|j: int|
                                            0 <= j < pre.len()
                                                && (#[trigger] entries@[t]) == pre[j];
                                    }
                                }
                                assert forall|t: int| 0 <= t < entries@.len()
                                    implies live_rec_in_file(#[trigger] entries@[t], whole)
                                        || exists|j: int| 0 <= j < old(entries)@.len()
                                            && entries@[t] == old(entries)@[j] by {
                                    if entries@[t] != rec {
                                        let j = choose|j: int|
                                            0 <= j < pre.len()
                                                && (#[trigger] entries@[t]) == pre[j];
                                        assert(live_rec_in_file(pre[j], whole)
                                            || exists|j2: int| 0 <= j2 < old(entries)@.len()
                                                && pre[j] == old(entries)@[j2]);
                                    }
                                }
                            }
                        } else {
                            proof {
                                assert(spec_apply_record(live_view(entries@), r)
                                    == live_view(entries@));
                                assert(spec_apply_record_ts(live_view_ts(entries@), r)
                                    == live_view_ts(entries@));
                            }
                        }
                    } else {
                        proof {
                            assert(spec_apply_record(live_view(entries@), r)
                                == live_view(entries@));
                            assert(spec_apply_record_ts(live_view_ts(entries@), r)
                                == live_view_ts(entries@));
                        }
                    }
                    pos = pos + consumed;
                },
            }
        }
    }
}

/// Applies one well-formed hint file's entries into the gathered list,
/// reading and validating each referenced value region of the data file.
fn apply_hint_live(
    entries: &mut Vec<LiveRec>,
    h: &HintFile,
    f: &DataFile,
    Ghost(m0): Ghost<Map<Seq<u8>, Seq<u8>>>,
    Ghost(t0): Ghost<Map<Seq<u8>, u64>>,
)
    requires
        spec_hint_well_formed(h@.bytes),
        live_distinct(old(entries)@),
        live_entries_ok(old(entries)@),
        live_view(old(entries)@) == m0,
        live_view_ts(old(entries)@) == t0,
    ensures
        live_distinct(final(entries)@),
        live_entries_ok(final(entries)@),
        live_view(final(entries)@) == spec_apply_hint(m0, spec_parse_hint(h@.bytes), f@.bytes),
        live_view_ts(final(entries)@) == spec_apply_hint_ts(
            t0,
            spec_parse_hint(h@.bytes),
            f@.bytes,
        ),
{
    let len = h.bytes.len();
    let flen = f.bytes.len();
    let ghost whole = h.bytes@;
    let ghost fb = f.bytes@;
    let mut pos: usize = 0;
    proof {
        assert(whole.subrange(0, whole.len() as int) =~= whole);
    }
    while pos < len
        invariant
            pos <= len,
            len == h.bytes@.len(),
            flen == f.bytes@.len(),
            whole == h.bytes@,
            fb == f.bytes@,
            spec_hint_well_formed(whole.subrange(pos as int, whole.len() as int)),
            live_distinct(entries@),
            live_entries_ok(entries@),
            spec_apply_hint(
                live_view(entries@),
                spec_parse_hint(whole.subrange(pos as int, whole.len() as int)),
                fb,
            ) == spec_apply_hint(m0, spec_parse_hint(whole), fb),
            spec_apply_hint_ts(
                live_view_ts(entries@),
                spec_parse_hint(whole.subrange(pos as int, whole.len() as int)),
                fb,
            ) == spec_apply_hint_ts(t0, spec_parse_hint(whole), fb),
        decreases len - pos,
    {
        let ghost s = whole.subrange(pos as int, whole.len() as int);
        proof {
            assert(s.len() != 0);
            assert(hint_complete_at(s));
        }
        let all = h.bytes.as_slice();
        let ksz32 = u32_from_le_bytes(slice_subrange(all, pos, pos + 4));
        proof {
            assert(whole.subrange(pos as int, pos + 4) =~= s.subrange(0, 4));
            assert(ksz32 == hint_ksz(s));
        }
        let k = ksz32 as usize;
        let ghost e = spec_hint_entry(s);
        proof {
            assert(s.len() >= HINT_FIXED_BYTES + k);
        }
        let vsz32 = u32_from_le_bytes(slice_subrange(all, pos + 4 + k, pos + 8 + k));
        let vpos64 = u64_from_le_bytes(slice_subrange(all, pos + 8 + k, pos + 16 + k));
        let ts = u64_from_le_bytes(slice_subrange(all, pos + 16 + k, pos + 24 + k));
        proof {
            assert(whole.subrange(pos + 4 + k, pos + 8 + k) =~= s.subrange(4 + k, 8 + k));
            assert(whole.subrange(pos + 8 + k, pos + 16 + k) =~= s.subrange(8 + k, 16 + k));
            assert(whole.subrange(pos + 16 + k, pos + 24 + k) =~= s.subrange(16 + k, 24 + k));
            assert(e.value_sz == vsz32 as int);
            assert(e.value_pos == vpos64 as int);
            assert(e.tstamp == ts);
            assert(e.key =~= whole.subrange(pos + 4, pos + 4 + k));
        }
        let ghost rest = spec_parse_hint(
            whole.subrange(pos + HINT_FIXED_BYTES + k, whole.len() as int),
        );
        proof {
            assert(s.subrange(hint_entry_len(s), s.len() as int)
                =~= whole.subrange(pos + HINT_FIXED_BYTES + k, whole.len() as int));
            assert(spec_parse_hint(s) == seq![e] + spec_parse_hint(
                s.subrange(hint_entry_len(s), s.len() as int),
            ));
            assert((seq![e] + rest)[0] == e);
            assert((seq![e] + rest).drop_first() =~= rest);
            assert(spec_apply_hint(live_view(entries@), spec_parse_hint(s), fb)
                == spec_apply_hint(spec_apply_hint_entry(live_view(entries@), e, fb), rest, fb));
            assert(spec_apply_hint_ts(live_view_ts(entries@), spec_parse_hint(s), fb)
                == spec_apply_hint_ts(
                spec_apply_hint_entry_ts(live_view_ts(entries@), e, fb),
                rest,
                fb,
            ));
        }
        let ghost pre = entries@;
        let flen64 = flen as u64;
        let vsz64 = vsz32 as u64;
        let mut applied = false;
        if vsz64 <= (MAX_VALUE_BYTES as u64) && vsz64 <= flen64 && vpos64 <= flen64 - vsz64 {
            let vpos = vpos64 as usize;
            let vsz = vsz32 as usize;
            if utf8_valid(slice_subrange(all, pos + 4, pos + 4 + k)) {
                let val = read_at(f, vpos, vsz);
                proof {
                    assert(val@ == fb.subrange(e.value_pos, e.value_pos + e.value_sz));
                }
                if utf8_valid(val.as_slice()) {
                    let kv = slice_to_vec(slice_subrange(all, pos + 4, pos + 4 + k));
                    let rec = LiveRec {
                        key: kv,
                        value: val,
                        tstamp: ts,
                        value_pos: vpos,
                        value_sz: vsz,
                    };
                    proof {
                        assert(spec_apply_hint_entry(live_view(pre), e, fb)
                            == live_view(pre).insert(rec.key@, rec.value@));
                        assert(spec_apply_hint_entry_ts(live_view_ts(pre), e, fb)
                            == live_view_ts(pre).insert(rec.key@, rec.tstamp));
                        assert(spec_entry_ok(rec.key@, rec.value@));
                    }
                    live_put(entries, rec);
                    proof {
                        assert(live_view(entries@)
                            == spec_apply_hint_entry(live_view(pre), e, fb));
                        assert(live_view_ts(entries@)
                            == spec_apply_hint_entry_ts(live_view_ts(pre), e, fb));
                        assert forall|t: int| 0 <= t < entries@.len()
                            implies spec_entry_ok(
                                (#[trigger] entries@[t]).key@,
                                entries@[t].value@,
                            ) by {
                            if entries@[t] != rec {
                                let j = choose|j: int|
                                    0 <= j < pre.len() && (#[trigger] entries@[t]) == pre[j];
                            }
                        }
                    }
                    applied = true;
                } else {
                    proof {
                        assert(spec_apply_hint_entry(live_view(entries@), e, fb)
                            == live_view(entries@));
                    }
                }
            } else {
                proof {
                    assert(!valid_utf8(e.key));
                    assert(spec_apply_hint_entry(live_view(entries@), e, fb)
                        == live_view(entries@));
                }
            }
        } else {
            proof {
                assert(spec_apply_hint_entry(live_view(entries@), e, fb) == live_view(entries@));
            }
        }
        proof {
            if !applied {
                assert(spec_apply_hint_entry(live_view(entries@), e, fb) == live_view(entries@));
                assert(spec_apply_hint_entry_ts(live_view_ts(entries@), e, fb)
                    == live_view_ts(entries@));
            }
        }
        pos = pos + HINT_FIXED_BYTES + k;
    }
    proof {
        let s = whole.subrange(pos as int, whole.len() as int);
        assert(s.len() == 0);
        assert(!hint_complete_at(s));
        assert(spec_parse_hint(s) == Seq::<SpecHintEntry>::empty());
    }
}

/// The background compaction worker. It never mutates files in place: it
/// only produces new files, which the engine then swaps into its file list.
pub struct Compactor {}

impl Compactor {
    /// Merges the given data files — honouring their hint files exactly as
    /// recovery would — into one data file holding exactly one live record
    /// per surviving key, each carrying its newest record's timestamp, with
    /// tombstoned keys dropped, plus the merged file's own hint file.
    #[verifier::rlimit(8)]
    pub fn merge_files(inputs: &Vec<DataFile>, hint_files: &Vec<HintFile>, output_id: u64) -> (r:
        Result<(DataFile, HintFile), ByteHausError>)
        requires
            spec_ids_increasing(file_models(inputs@)),
        ensures
            ({
                match r {
                    Ok((mf, hf)) => {
                        let m = spec_live_map(file_models(inputs@), hint_models(hint_files@));
                        let out = spec_parse(mf@.bytes);
                        &&& mf@.file_id == output_id
                        &&& hf@.file_id == output_id
                        &&& spec_replay(Map::<Seq<u8>, Seq<u8>>::empty(), out) == m
                        &&& spec_hint_well_formed(hf@.bytes)
                        &&& spec_apply_hint(
                            Map::<Seq<u8>, Seq<u8>>::empty(),
                            spec_parse_hint(hf@.bytes),
                            mf@.bytes,
                        ) == m
                        &&& forall|i: int| 0 <= i < out.len() ==> !(#[trigger] out[i]).tombstone
                        &&& forall|i: int, j: int|
                            #![trigger out[i], out[j]]
                            0 <= i < j < out.len() ==> out[i].key != out[j].key
                        &&& forall|i: int| 0 <= i < out.len()
                            ==> m.contains_key((#[trigger] out[i]).key)
                                && m[out[i].key] == out[i].value
                        &&& forall|kb: Seq<u8>| #[trigger] m.contains_key(kb)
                            ==> exists|i: int| 0 <= i < out.len() && out[i].key == kb
                        &&& forall|i: int| 0 <= i < out.len()
                            ==> spec_live_map_ts(
                                file_models(inputs@),
                                hint_models(hint_files@),
                            ).contains_key((#[trigger] out[i]).key) && out[i].tstamp
                                == spec_live_map_ts(
                                file_models(inputs@),
                                hint_models(hint_files@),
                            )[out[i].key]
                    },
                    Err(_) => false,
                }
            }),
    {
        let ghost fms = file_models(inputs@);
        let ghost hms = hint_models(hint_files@);
        let mut entries: Vec<LiveRec> = Vec::new();
        let mut fi: usize = 0;
        while fi < inputs.len()
            invariant
                fi <= inputs@.len(),
                fms == file_models(inputs@),
                hms == hint_models(hint_files@),
                spec_ids_increasing(fms),
                live_distinct(entries@),
                live_entries_ok(entries@),
                live_view(entries@) == spec_live_upto(fms, hms, fi as int),
                live_view_ts(entries@) == spec_live_upto_ts(fms, hms, fi as int),
            decreases inputs@.len() - fi,
        {
            let f = &inputs[fi];
            let ghost m0 = spec_live_upto(fms, hms, fi as int);
            let ghost t0 = spec_live_upto_ts(fms, hms, fi as int);
            proof {
                assert(fms[fi as int] == f@);
            }
            match crate::engine::ByteHaus::find_hint(hint_files, f.file_id) {
                Some(h) => {
                    if crate::engine::ByteHaus::check_hint_well_formed(&h.bytes) {
                        apply_hint_live(&mut entries, h, f, Ghost(m0), Ghost(t0));
                        proof {
                            assert(spec_live_upto(fms, hms, fi as int + 1)
                                == spec_apply_hint(m0, spec_parse_hint(h@.bytes), f@.bytes));
                            assert(spec_live_upto_ts(fms, hms, fi as int + 1)
                                == spec_apply_hint_ts(t0, spec_parse_hint(h@.bytes), f@.bytes));
                        }
                    } else {
                        scan_file_live(&mut entries, f, Ghost(m0), Ghost(t0));
                        proof {
                            assert(spec_live_upto(fms, hms, fi as int + 1)
                                == spec_replay(m0, spec_parse(f@.bytes)));
                            assert(spec_live_upto_ts(fms, hms, fi as int + 1)
                                == spec_replay_ts(t0, spec_parse(f@.bytes)));
                        }
                    }
                },
                None => {
                    scan_file_live(&mut entries, f, Ghost(m0), Ghost(t0));
                    proof {
                        assert(spec_live_upto(fms, hms, fi as int + 1)
                            == spec_replay(m0, spec_parse(f@.bytes)));
                        assert(spec_live_upto_ts(fms, hms, fi as int + 1)
                            == spec_replay_ts(t0, spec_parse(f@.bytes)));
                    }
                },
            }
            fi = fi + 1;
        }
        let ghost m = spec_live_map(fms, hms);
        let ghost tm = spec_live_map_ts(fms, hms);
        proof {
            assert(live_view(entries@) == m);
            assert(live_view_ts(entries@) == tm);
            lemma_live_view_entries(entries@);
            lemma_live_view_ts_entries(entries@);
        }
        // write one live record per key to the merged file
        let mut out_bytes: Vec<u8> = Vec::new();
        let ghost mut rs: Seq<SpecRecord> = Seq::empty();
        let mut i: usize = 0;
        proof {
            assert(out_bytes@ =~= spec_encode_all(rs));
            assert(live_view(entries@.take(0)) =~= Map::<Seq<u8>, Seq<u8>>::empty()) by {
                assert(entries@.take(0) =~= Seq::<LiveRec>::empty());
            }
        }
        while i < entries.len()
            invariant
                i <= entries@.len(),
                live_distinct(entries@),
                live_entries_ok(entries@),
                live_view(entries@) == m,
                live_view_ts(entries@) == tm,
                rs.len() == i,
                spec_all_wf(rs),
                out_bytes@ == spec_encode_all(rs),
                forall|t: int| 0 <= t < i ==> (#[trigger] rs[t]) == (SpecRecord {
                    tstamp: entries@[t].tstamp,
                    key: entries@[t].key@,
                    value: entries@[t].value@,
                    tombstone: false,
                }),
                spec_replay(Map::<Seq<u8>, Seq<u8>>::empty(), rs)
                    == live_view(entries@.take(i as int)),
            decreases entries@.len() - i,
        {
            let e = &entries[i];
            proof {
                assert(spec_entry_ok(e.key@, e.value@));
            }
            let kb = bytes_copy_from_slice(e.key.as_slice());
            let vb = bytes_copy_from_slice(e.value.as_slice());
            let record = make_record(kb, vb, e.tstamp, false);
            let ghost rm = record.model();
            let enc = encode(&record);
            push_bytes(&mut out_bytes, enc.as_slice());
            proof {
                lemma_encode_all_push(rs, rm);
                lemma_replay_push(Map::<Seq<u8>, Seq<u8>>::empty(), rs, rm);
                assert(entries@.take(i + 1).drop_last() =~= entries@.take(i as int));
                assert(entries@.take(i + 1).last() == entries@[i as int]);
                assert(live_view(entries@.take(i + 1))
                    == live_view(entries@.take(i as int)).insert(e.key@, e.value@));
                rs = rs.push(rm);
                assert(spec_all_wf(rs)) by {
                    assert forall|t: int| 0 <= t < rs.len()
                        implies spec_record_wf(#[trigger] rs[t]) by {
                        if t < rs.len() - 1 {
                            assert(rs[t] == rs.drop_last()[t]);
                        }
                    }
                }
            }
            i = i + 1;
        }
        proof {
            assert(entries@.take(entries@.len() as int) =~= entries@);
            lemma_parse_exact(rs);
        }
        let mf = DataFile { file_id: output_id, bytes: out_bytes };
        let hf = match Self::create_hint_file(&mf) {
            Ok(hf) => hf,
            Err(e) => {
                return Err(e);
            },
        };
        proof {
            let out = spec_parse(mf@.bytes);
            assert(out == rs);
            assert(fms == file_models(inputs@));
            assert(hms == hint_models(hint_files@));
            assert(m == spec_live_map(file_models(inputs@), hint_models(hint_files@)));
            assert(tm == spec_live_map_ts(file_models(inputs@), hint_models(hint_files@)));
            assert(spec_replay(Map::<Seq<u8>, Seq<u8>>::empty(), out) == m);
            assert(spec_hint_well_formed(hf@.bytes));
            assert(spec_apply_hint(
                Map::<Seq<u8>, Seq<u8>>::empty(),
                spec_parse_hint(hf@.bytes),
                mf@.bytes,
            ) == m);
            assert forall|t: int| 0 <= t < out.len()
                implies !(#[trigger] out[t]).tombstone by {}
            assert forall|t: int| 0 <= t < out.len()
                implies tm.contains_key((#[trigger] out[t]).key)
                    && out[t].tstamp == tm[out[t].key] by {
                assert(out[t].key == entries@[t].key@);
                assert(out[t].tstamp == entries@[t].tstamp);
            }
            assert forall|t: int| 0 <= t < out.len()
                implies m.contains_key((#[trigger] out[t]).key)
                    && m[out[t].key] == out[t].value by {
                assert(out[t].key == entries@[t].key@);
                assert(out[t].value == entries@[t].value@);
            }
            assert forall|kb: Seq<u8>| #[trigger] m.contains_key(kb)
                implies exists|t: int| 0 <= t < out.len() && out[t].key == kb by {
                lemma_live_view_exists(entries@, kb);
                let j = choose|j: int|
                    0 <= j < entries@.len() && (#[trigger] entries@[j]).key@ == kb;
                assert(out[j].key == kb);
            }
            assert forall|p: int, q: int|
                #![trigger out[p], out[q]]
                0 <= p < q < out.len() implies out[p].key != out[q].key by {
                assert(entries@[p].key@ != entries@[q].key@);
            }
        }
        Ok((mf, hf))
    }

    /// Builds the hint file for a data file: one (key size, key, value size,
    /// value offset, timestamp) entry per live key, no value payloads, such
    /// that applying the hint reproduces exactly what a full scan would.
    pub fn create_hint_file(data_file: &DataFile) -> (r: Result<HintFile, ByteHausError>)
        ensures
            ({
                match r {
                    Ok(hf) => {
                        &&& hf@.file_id == data_file@.file_id
                        &&& spec_hint_well_formed(hf@.bytes)
                        &&& spec_apply_hint(
                            Map::<Seq<u8>, Seq<u8>>::empty(),
                            spec_parse_hint(hf@.bytes),
                            data_file@.bytes,
                        ) == spec_replay(
                            Map::<Seq<u8>, Seq<u8>>::empty(),
                            spec_parse(data_file@.bytes),
                        )
                    },
                    Err(_) => false,
                }
            }),
    {
        let ghost fb = data_file@.bytes;
        let mut entries: Vec<LiveRec> = Vec::new();
        scan_file_live(&mut entries, data_file, Ghost(Map::empty()), Ghost(Map::empty()));
        proof {
            assert(live_located(entries@, fb)) by {
                assert forall|t: int| 0 <= t < entries@.len()
                    implies live_rec_in_file(#[trigger] entries@[t], fb) by {}
            }
        }
        let mut hb: Vec<u8> = Vec::new();
        let ghost mut hs: Seq<SpecHintEntry> = Seq::empty();
        let mut i: usize = 0;
        proof {
            assert(hb@ =~= spec_hint_encode_all(hs));
            assert(entries@.take(0) =~= Seq::<LiveRec>::empty());
        }
        while i < entries.len()
            invariant
                i <= entries@.len(),
                fb == data_file@.bytes,
                live_distinct(entries@),
                live_entries_ok(entries@),
                live_located(entries@, fb),
                live_view(entries@) == spec_replay(
                    Map::<Seq<u8>, Seq<u8>>::empty(),
                    spec_parse(fb),
                ),
                hs.len() == i,
                spec_hint_all_wf(hs),
                hb@ == spec_hint_encode_all(hs),
                spec_apply_hint(Map::<Seq<u8>, Seq<u8>>::empty(), hs, fb)
                    == live_view(entries@.take(i as int)),
            decreases entries@.len() - i,
        {
            let e = &entries[i];
            proof {
                assert(spec_entry_ok(e.key@, e.value@));
                assert(live_rec_in_file(entries@[i as int], fb));
            }
            let ghost he = SpecHintEntry {
                key: e.key@,
                value_sz: e.value_sz as int,
                value_pos: e.value_pos as int,
                tstamp: e.tstamp,
            };
            let mut kszb = u32_to_le_bytes(e.key.len() as u32);
            let ghost hb0 = hb@;
            hb.append(&mut kszb);
            push_bytes(&mut hb, e.key.as_slice());
            let mut vszb = u32_to_le_bytes(e.value_sz as u32);
            hb.append(&mut vszb);
            let mut vposb = u64_to_le_bytes(e.value_pos as u64);
            hb.append(&mut vposb);
            let mut tsb = u64_to_le_bytes(e.tstamp);
            hb.append(&mut tsb);
            proof {
                assert(hb@ =~= hb0 + spec_hint_entry_enc(he));
                lemma_hint_encode_all_push(hs, he);
                lemma_apply_hint_push(Map::<Seq<u8>, Seq<u8>>::empty(), hs, he, fb);
                assert(spec_apply_hint_entry(live_view(entries@.take(i as int)), he, fb)
                    == live_view(entries@.take(i as int)).insert(e.key@, e.value@)) by {
                    assert(fb.subrange(he.value_pos, he.value_pos + he.value_sz) == e.value@);
                }
                assert(entries@.take(i + 1).drop_last() =~= entries@.take(i as int));
                assert(entries@.take(i + 1).last() == entries@[i as int]);
                hs = hs.push(he);
                assert(spec_hint_all_wf(hs)) by {
                    assert forall|t: int| 0 <= t < hs.len()
                        implies spec_hint_entry_wf(#[trigger] hs[t]) by {
                        if t < hs.len() - 1 {
                            assert(hs[t] == hs.drop_last()[t]);
                        }
                    }
                }
            }
            i = i + 1;
        }
        proof {
            assert(entries@.take(entries@.len() as int) =~= entries@);
            lemma_parse_hint_encode_all(hs, Seq::empty());
            assert(spec_hint_encode_all(hs) + Seq::<u8>::empty() =~= spec_hint_encode_all(hs));
            assert(spec_parse_hint(Seq::<u8>::empty()) == Seq::<SpecHintEntry>::empty());
            assert(hs + Seq::<SpecHintEntry>::empty() =~= hs);
            assert(spec_hint_well_formed(Seq::<u8>::empty()));
        }
        Ok(HintFile { file_id: data_file.file_id, bytes: hb })
    }
}

} // verus!
