//! The keydir: the in-memory index mapping each live key to the location of
//! its newest value. It is derived state, rebuilt on every open, and is the
//! single source of truth for reads.

use vstd::prelude::*;
use vstd::hash_map::StringHashMap;
use vstd::utf8::valid_utf8;
use vstd::utf8::decode_utf8;
use vstd::utf8::encode_utf8;
use crate::model::FileModel;
use crate::model::spec_lookup;

verus! {

/// Where the newest value of one live key lives: owning file, byte offset of
/// the value, value size, and the producing record's timestamp.
#[derive(Clone, Copy, PartialEq, Eq, Structural, Debug)]
pub struct KeyDirRecord {
    /// Identifier of the data file that holds the value.
    pub file_id: u64,
    /// The size of the value in bytes.
    pub value_sz: usize,
    /// The byte offset of the value within its file.
    pub value_pos: usize,
    /// Timestamp of the record that produced this entry.
    pub tstamp: u64,
}

/// The in-memory key-to-location index. At most one entry exists per key,
/// always reflecting the newest record for that key.
pub struct KeyDir {
    entries: StringHashMap<KeyDirRecord>,
}

impl View for KeyDir {
    type V = Map<Seq<char>, KeyDirRecord>;

    closed spec fn view(&self) -> Map<Seq<char>, KeyDirRecord> {
        self.entries@
    }
}

impl KeyDir {
    /// An empty index.
    pub fn new() -> (kd: Self)
        ensures
            kd@ == Map::<Seq<char>, KeyDirRecord>::empty(),
    {
        KeyDir { entries: StringHashMap::new() }
    }

    /// The entry for a key, if the key is live.
    pub fn get(&self, key: &str) -> (r: Option<KeyDirRecord>)
        ensures
            ({
                match r {
                    Some(e) => self@.contains_key(key@) && e == self@[key@],
                    None => !self@.contains_key(key@),
                }
            }),
    {
        match self.entries.get(key) {
            Some(e) => Some(*e),
            None => None,
        }
    }

    /// Unconditionally overwrites any existing entry: last writer wins.
    pub fn put(&mut self, key: String, entry: KeyDirRecord)
        ensures
            final(self)@ == old(self)@.insert(key@, entry),
    {
        self.entries.insert(key, entry);
    }

    /// Removes a key; afterwards the key is treated as absent.
    pub fn remove(&mut self, key: &str)
        ensures
            final(self)@ == old(self)@.remove(key@),
    {
        self.entries.remove(key);
    }

    /// Whether the key is live.
    pub fn contains(&self, key: &str) -> (r: bool)
        ensures
            r == self@.contains_key(key@),
    {
        self.entries.contains_key(key)
    }

    /// The number of live keys.
    pub fn len(&self) -> (n: usize)
        ensures
            n == self@.len(),
    {
        self.entries.len()
    }

    /// Forgets every entry.
    pub fn clear(&mut self)
        ensures
            final(self)@ == Map::<Seq<char>, KeyDirRecord>::empty(),
    {
        self.entries.clear()
    }
}

/// One keydir entry correctly locates the live value bytes `m[kb]` within
/// the file it names.
pub open spec fn spec_keydir_entry_ok(
    e: KeyDirRecord,
    kb: Seq<u8>,
    m: Map<Seq<u8>, Seq<u8>>,
    files: Seq<FileModel>,
) -> bool {
    match spec_lookup(files, e.file_id) {
        Some(fb) => {
            &&& e.value_pos + e.value_sz <= fb.len()
            &&& fb.subrange(e.value_pos as int, e.value_pos + e.value_sz) == m[kb]
            &&& e.value_sz == m[kb].len()
        },
        None => false,
    }
}

/// The keydir is exactly the text-level reading of the byte-level live map
/// `m`, and every entry points at its key's live value bytes.
pub open spec fn spec_keydir_matches(
    kdm: Map<Seq<char>, KeyDirRecord>,
    m: Map<Seq<u8>, Seq<u8>>,
    files: Seq<FileModel>,
) -> bool {
    &&& forall|k: Seq<char>| #[trigger] kdm.contains_key(k) ==> m.contains_key(encode_utf8(k))
    &&& forall|kb: Seq<u8>| #[trigger] m.contains_key(kb) ==> kdm.contains_key(decode_utf8(kb))
    &&& forall|k: Seq<char>| #[trigger] kdm.contains_key(k)
        ==> spec_keydir_entry_ok(kdm[k], encode_utf8(k), m, files)
}

/// Inserting a binding on both sides keeps the keydir matching the map,
/// provided the new entry locates the new value bytes.
pub proof fn lemma_matches_insert(
    kdm: Map<Seq<char>, KeyDirRecord>,
    m: Map<Seq<u8>, Seq<u8>>,
    files: Seq<FileModel>,
    kb: Seq<u8>,
    vb: Seq<u8>,
    e: KeyDirRecord,
)
    requires
        spec_keydir_matches(kdm, m, files),
        crate::model::spec_map_ok(m),
        valid_utf8(kb),
        spec_keydir_entry_ok(e, kb, m.insert(kb, vb), files),
    ensures
        spec_keydir_matches(kdm.insert(decode_utf8(kb), e), m.insert(kb, vb), files),
{
    broadcast use vstd::utf8::encode_utf8_decode_utf8, vstd::utf8::decode_utf8_encode_utf8;

    let kdm2 = kdm.insert(decode_utf8(kb), e);
    let m2 = m.insert(kb, vb);
    assert(encode_utf8(decode_utf8(kb)) == kb);
    assert forall|k2: Seq<char>| #[trigger] kdm2.contains_key(k2)
        implies m2.contains_key(encode_utf8(k2)) by {
        if k2 != decode_utf8(kb) {
            assert(kdm.contains_key(k2));
        }
    }
    assert forall|kb2: Seq<u8>| #[trigger] m2.contains_key(kb2)
        implies kdm2.contains_key(decode_utf8(kb2)) by {
        if kb2 != kb {
            assert(m.contains_key(kb2));
        }
    }
    assert forall|k2: Seq<char>| #[trigger] kdm2.contains_key(k2)
        implies spec_keydir_entry_ok(kdm2[k2], encode_utf8(k2), m2, files) by {
        if k2 == decode_utf8(kb) {
            assert(kdm2[k2] == e);
        } else {
            assert(kdm.contains_key(k2));
            assert(spec_keydir_entry_ok(kdm[k2], encode_utf8(k2), m, files));
            if encode_utf8(k2) == kb {
                assert(decode_utf8(encode_utf8(k2)) == k2);
                assert(false);
            }
            assert(m2[encode_utf8(k2)] == m[encode_utf8(k2)]);
        }
    }
}

/// Removing a key on both sides keeps the keydir matching the map.
pub proof fn lemma_matches_remove(
    kdm: Map<Seq<char>, KeyDirRecord>,
    m: Map<Seq<u8>, Seq<u8>>,
    files: Seq<FileModel>,
    kb: Seq<u8>,
)
    requires
        spec_keydir_matches(kdm, m, files),
        crate::model::spec_map_ok(m),
        valid_utf8(kb),
    ensures
        spec_keydir_matches(kdm.remove(decode_utf8(kb)), m.remove(kb), files),
{
    broadcast use vstd::utf8::encode_utf8_decode_utf8, vstd::utf8::decode_utf8_encode_utf8;

    let kdm2 = kdm.remove(decode_utf8(kb));
    let m2 = m.remove(kb);
    assert(encode_utf8(decode_utf8(kb)) == kb);
    assert forall|k2: Seq<char>| #[trigger] kdm2.contains_key(k2)
        implies m2.contains_key(encode_utf8(k2)) by {
        assert(kdm.contains_key(k2));
        if encode_utf8(k2) == kb {
            assert(decode_utf8(encode_utf8(k2)) == k2);
            assert(false);
        }
    }
    assert forall|kb2: Seq<u8>| #[trigger] m2.contains_key(kb2)
        implies kdm2.contains_key(decode_utf8(kb2)) by {
        assert(m.contains_key(kb2));
        assert(crate::model::spec_entry_ok(kb2, m[kb2]));
        if decode_utf8(kb2) == decode_utf8(kb) {
            assert(encode_utf8(decode_utf8(kb2)) == kb2);
            assert(false);
        }
    }
    assert forall|k2: Seq<char>| #[trigger] kdm2.contains_key(k2)
        implies spec_keydir_entry_ok(kdm2[k2], encode_utf8(k2), m2, files) by {
        assert(kdm.contains_key(k2));
        assert(spec_keydir_entry_ok(kdm[k2], encode_utf8(k2), m, files));
        if encode_utf8(k2) == kb {
            assert(decode_utf8(encode_utf8(k2)) == k2);
            assert(false);
        }
        assert(m2[encode_utf8(k2)] == m[encode_utf8(k2)]);
    }
}

} // verus!
