//! The engine: the public open/read/write/delete/close surface over the
//! record codec, the append-only log and the keydir.
//!
//! The store is a set of in-memory data files: one active file receiving
//! appends, and sealed files that never change again. The engine's view is
//! the text-level mapping from live keys to values that its files denote;
//! every operation's contract is stated against that view.

use vstd::prelude::*;
use vstd::slice::slice_subrange;
use vstd::slice::slice_to_vec;
use vstd::bytes::u32_from_le_bytes;
use vstd::bytes::u64_from_le_bytes;
use bytes::Bytes;
use vstd::utf8::valid_utf8;
use vstd::utf8::decode_utf8;
use vstd::utf8::encode_utf8;
use crate::codec::{
    ByteHausRecord, DecodeOutcome, SpecRecord, MAX_KEY_BYTES, MAX_VALUE_BYTES, HEADER_BYTES,
    spec_record_wf, spec_all_wf, spec_record_bytes, spec_encode_all, spec_parse, spec_complete_at,
    spec_rec_len, spec_crc_matches, spec_parsed_record, encode, decode_at, make_record, push_bytes,
    lemma_parse_exact, lemma_encode_all_push, lemma_record_extends,
};
use crate::model::{
    FileModel, SpecHintEntry, HINT_FIXED_BYTES, spec_ids_increasing, spec_lookup, spec_hint_for,
    spec_live_map, spec_live_upto, spec_file_contrib, spec_replay, spec_apply_record, spec_abs,
    spec_entry_ok, spec_map_ok, hint_ksz, hint_entry_len, hint_complete_at, spec_hint_entry,
    spec_parse_hint, spec_hint_well_formed, spec_apply_hint, spec_apply_hint_entry,
    spec_hint_entry_live,
    lemma_hint_for_absent, lemma_lookup_absent, lemma_lookup_push, lemma_lookup_update_last,
    lemma_lookup_at, lemma_live_upto_prefix, lemma_live_upto_ok, lemma_replay_push,
    lemma_abs_insert, lemma_abs_remove,
};
use crate::keydir::{KeyDir, KeyDirRecord, spec_keydir_entry_ok, spec_keydir_matches, lemma_matches_insert, lemma_matches_remove};
use crate::store::{DataFile, HintFile, read_at, copy_bytes, file_models, hint_models, lemma_file_models_len, lemma_file_models_index, lemma_hint_models_len, lemma_hint_models_index};
use crate::errors::ByteHausError;
use crate::ext::bytes_copy_from_slice;
use crate::ext::bytes_as_slice;
use crate::ext::string_from_utf8;

verus! {

broadcast use vstd::utf8::encode_utf8_valid_utf8, vstd::utf8::encode_utf8_decode_utf8, vstd::utf8::decode_utf8_encode_utf8, lemma_file_models_len, lemma_file_models_index, lemma_hint_models_len, lemma_hint_models_index;

/// A key/value pair fits the record header's size fields.
pub open spec fn spec_write_fits(k: Seq<char>, v: Seq<char>) -> bool {
    &&& encode_utf8(k).len() <= MAX_KEY_BYTES
    &&& encode_utf8(v).len() <= MAX_VALUE_BYTES
}

/// Every hint file names a sealed data file that exists.
pub open spec fn spec_id_present(files: Seq<FileModel>, id: u64) -> bool {
    exists|j: int| 0 <= j < files.len() && #[trigger] files[j].file_id == id
}

pub open spec fn spec_hints_consistent(files: Seq<FileModel>, hints: Seq<FileModel>) -> bool {
    forall|i: int| 0 <= i < hints.len() ==> spec_id_present(files, #[trigger] hints[i].file_id)
}

/// The whole database: one directory of data files plus derived in-memory
/// state.
pub struct ByteHaus {
    /// Name of the directory the store lives in.
    root_directory: String,
    /// Byte size of the active file, checked against the rotation threshold.
    current_file_size_bytes: usize,
    /// The size after which the active file is sealed and replaced.
    max_file_size_bytes: usize,
    /// The active file, the only one receiving appends.
    latest_file: DataFile,
    /// Sealed files, in increasing identifier order; eligible for compaction.
    previous_files: Vec<DataFile>,
    /// Hint files, each paired with one sealed data file.
    hint_files: Vec<HintFile>,
    /// The in-memory index of key to newest value location.
    keydir: KeyDir,
    /// Logical clock stamped onto records.
    next_tstamp: u64,
    /// Whether the store is open for client calls.
    opened: bool,
    /// The records of the active file, witnessing that its bytes are a whole
    /// number of well-formed encoded records.
    active_log: Ghost<Seq<SpecRecord>>,
}

impl View for ByteHaus {
    type V = Map<Seq<char>, Seq<char>>;

    /// The live key-to-value mapping the store holds; empty when closed.
    closed spec fn view(&self) -> Map<Seq<char>, Seq<char>> {
        if self.opened {
            spec_abs(self.byte_map())
        } else {
            Map::empty()
        }
    }
}

impl ByteHaus {
    pub closed spec fn spec_sealed(self) -> Seq<FileModel> {
        file_models(self.previous_files@)
    }

    pub closed spec fn spec_latest(self) -> FileModel {
        self.latest_file@
    }

    /// All data files in increasing identifier order, the active file last.
    pub closed spec fn spec_files(self) -> Seq<FileModel> {
        self.spec_sealed().push(self.spec_latest())
    }

    pub closed spec fn spec_hints(self) -> Seq<FileModel> {
        hint_models(self.hint_files@)
    }

    /// The byte-level live map denoted by the files on disk.
    pub closed spec fn byte_map(self) -> Map<Seq<u8>, Seq<u8>> {
        spec_live_map(self.spec_files(), self.spec_hints())
    }

    pub closed spec fn spec_open(self) -> bool {
        self.opened
    }

    pub closed spec fn spec_sealed_count(self) -> int {
        self.previous_files@.len() as int
    }

    pub closed spec fn spec_max_file_size(self) -> usize {
        self.max_file_size_bytes
    }

    pub closed spec fn spec_keydir(self) -> Map<Seq<char>, KeyDirRecord> {
        self.keydir@
    }

    /// The logical clock the next appended record will carry.
    pub closed spec fn spec_next_tstamp(self) -> u64 {
        self.next_tstamp
    }

    /// The record a successful `write(k, v)` appends.
    pub open spec fn spec_write_record(self, k: Seq<char>, v: Seq<char>) -> SpecRecord {
        SpecRecord {
            tstamp: self.spec_next_tstamp(),
            key: encode_utf8(k),
            value: encode_utf8(v),
            tombstone: false,
        }
    }

    /// The tombstone record a successful `delete(k)` appends.
    pub open spec fn spec_tombstone_record(self, k: Seq<char>) -> SpecRecord {
        SpecRecord {
            tstamp: self.spec_next_tstamp(),
            key: encode_utf8(k),
            value: Seq::empty(),
            tombstone: true,
        }
    }

    /// The active file after appending one record: the same file, its bytes
    /// extended by exactly that record's encoding.
    pub open spec fn spec_appended_latest(self, r: SpecRecord) -> FileModel {
        FileModel {
            file_id: self.spec_latest().file_id,
            bytes: self.spec_latest().bytes + spec_record_bytes(r),
        }
    }

    /// The keydir entry a successful `write(k, v)` installs: the active
    /// file, the value's size, the value's byte offset after the appended
    /// record's header and key, and the record's timestamp.
    pub open spec fn spec_entry_for(self, k: Seq<char>, v: Seq<char>) -> KeyDirRecord {
        KeyDirRecord {
            file_id: self.spec_latest().file_id,
            value_sz: encode_utf8(v).len() as usize,
            value_pos: (self.spec_latest().bytes.len() + HEADER_BYTES + encode_utf8(k).len()) as usize,
            tstamp: self.spec_next_tstamp(),
        }
    }

    /// Everything but the keydir is unchanged.
    pub closed spec fn same_except_keydir(self, other: ByteHaus) -> bool {
        &&& self.root_directory == other.root_directory
        &&& self.current_file_size_bytes == other.current_file_size_bytes
        &&& self.max_file_size_bytes == other.max_file_size_bytes
        &&& self.latest_file == other.latest_file
        &&& self.previous_files == other.previous_files
        &&& self.hint_files == other.hint_files
        &&& self.next_tstamp == other.next_tstamp
        &&& self.opened == other.opened
        &&& self.active_log == other.active_log
    }

    /// Everything but the active file and its size counter is unchanged.
    pub closed spec fn same_except_active(self, other: ByteHaus) -> bool {
        &&& self.root_directory == other.root_directory
        &&& self.max_file_size_bytes == other.max_file_size_bytes
        &&& self.previous_files == other.previous_files
        &&& self.hint_files == other.hint_files
        &&& self.next_tstamp == other.next_tstamp
        &&& self.opened == other.opened
        &&& self.active_log == other.active_log
        &&& self.keydir@ == other.keydir@
    }

    /// The engine's internal consistency: identifiers strictly increase, the
    /// size counter tracks the active file, every hint names a sealed file,
    /// the active file is a whole number of well-formed records, and the
    /// keydir is exactly the index of the files' live map.
    pub closed spec fn inv(self) -> bool {
        if self.opened {
            &&& spec_ids_increasing(self.spec_files())
            &&& self.current_file_size_bytes == self.spec_latest().bytes.len()
            &&& spec_hints_consistent(self.spec_sealed(), self.spec_hints())
            &&& spec_all_wf(self.active_log@)
            &&& self.spec_latest().bytes == spec_encode_all(self.active_log@)
            &&& spec_keydir_matches(self.keydir@, self.byte_map(), self.spec_files())
        } else {
            &&& self.keydir@ == Map::<Seq<char>, KeyDirRecord>::empty()
            &&& spec_ids_increasing(self.spec_sealed())
            &&& (self.spec_latest().bytes.len() == 0 || spec_ids_increasing(self.spec_files()))
        }
    }

    /// The sealed files recovery runs over at open time: a non-empty active
    /// file left by a prior run is sealed first and fully scanned, like any
    /// other sealed file.
    pub open spec fn spec_sealed_at_open(self) -> Seq<FileModel> {
        if self.spec_latest().bytes.len() == 0 {
            self.spec_sealed()
        } else {
            self.spec_sealed().push(self.spec_latest())
        }
    }

    /// The keydir a full scan of one file's bytes produces, from `pos` on,
    /// entry metadata included: each adopted record contributes its key, the
    /// owning file, the value's exact offset and size, and its timestamp.
    pub open spec fn spec_scan_keydir(
        kd: Map<Seq<char>, KeyDirRecord>,
        b: Seq<u8>,
        pos: int,
        fid: u64,
    ) -> Map<Seq<char>, KeyDirRecord>
        decreases b.len() - pos,
        when 0 <= pos <= b.len()
    {
        let s = b.subrange(pos, b.len() as int);
        if !spec_complete_at(s) {
            kd
        } else {
            let r = spec_parsed_record(s);
            let kd2 = if spec_crc_matches(s) && valid_utf8(r.key) {
                if r.tombstone {
                    kd.remove(decode_utf8(r.key))
                } else if valid_utf8(r.value) {
                    kd.insert(
                        decode_utf8(r.key),
                        KeyDirRecord {
                            file_id: fid,
                            value_sz: r.value.len() as usize,
                            value_pos: (pos + HEADER_BYTES + r.key.len()) as usize,
                            tstamp: r.tstamp,
                        },
                    )
                } else {
                    kd
                }
            } else {
                kd
            };
            Self::spec_scan_keydir(kd2, b, pos + spec_rec_len(s), fid)
        }
    }

    /// The keydir one hint file's entries produce, from `pos` on.
    pub open spec fn spec_hint_keydir(
        kd: Map<Seq<char>, KeyDirRecord>,
        hb: Seq<u8>,
        pos: int,
        fb: Seq<u8>,
        fid: u64,
    ) -> Map<Seq<char>, KeyDirRecord>
        decreases hb.len() - pos,
        when 0 <= pos <= hb.len()
    {
        let s = hb.subrange(pos, hb.len() as int);
        if !hint_complete_at(s) {
            kd
        } else {
            let e = spec_hint_entry(s);
            let kd2 = if spec_hint_entry_live(e, fb) {
                kd.insert(
                    decode_utf8(e.key),
                    KeyDirRecord {
                        file_id: fid,
                        value_sz: e.value_sz as usize,
                        value_pos: e.value_pos as usize,
                        tstamp: e.tstamp,
                    },
                )
            } else {
                kd
            };
            Self::spec_hint_keydir(kd2, hb, pos + hint_entry_len(s), fb, fid)
        }
    }

    /// The exact keydir recovery rebuilds from the first `n` sealed files,
    /// honouring hint files as recovery does.
    pub open spec fn spec_recover_keydir(
        files: Seq<FileModel>,
        hints: Seq<FileModel>,
        n: int,
    ) -> Map<Seq<char>, KeyDirRecord>
        decreases n,
    {
        if n <= 0 {
            Map::empty()
        } else {
            let kd = Self::spec_recover_keydir(files, hints, n - 1);
            let f = files[n - 1];
            match spec_hint_for(hints, f.file_id) {
                Some(h) => if spec_hint_well_formed(h) {
                    Self::spec_hint_keydir(kd, h, 0, f.bytes, f.file_id)
                } else {
                    Self::spec_scan_keydir(kd, f.bytes, 0, f.file_id)
                },
                None => Self::spec_scan_keydir(kd, f.bytes, 0, f.file_id),
            }
        }
    }

    /// No hint file names the active file, so the active file's contribution
    /// is always a scan of its records.
    proof fn lemma_no_hint_for_latest(self)
        requires
            spec_ids_increasing(self.spec_files()),
            spec_hints_consistent(self.spec_sealed(), self.spec_hints()),
        ensures
            spec_hint_for(self.spec_hints(), self.spec_latest().file_id) is None,
    {
        let hints = self.spec_hints();
        let latest_id = self.spec_latest().file_id;
        let files = self.spec_files();
        let n = files.len() as int;
        assert forall|i: int| 0 <= i < hints.len()
            implies #[trigger] hints[i].file_id != latest_id by {
            assert(spec_id_present(self.spec_sealed(), hints[i].file_id));
            let j = choose|j: int|
                0 <= j < self.spec_sealed().len()
                    && #[trigger] self.spec_sealed()[j].file_id == hints[i].file_id;
            assert(files[j].file_id == hints[i].file_id);
            assert(files[j].file_id < files[n - 1].file_id);
        }
        lemma_hint_for_absent(hints, latest_id);
    }

    /// The byte-level live map equals a scan-fold over the sealed files
    /// followed by a replay of the active log.
    proof fn lemma_byte_map_unfold(self)
        requires
            spec_ids_increasing(self.spec_files()),
            spec_hints_consistent(self.spec_sealed(), self.spec_hints()),
            spec_all_wf(self.active_log@),
            self.spec_latest().bytes == spec_encode_all(self.active_log@),
        ensures
            self.byte_map() == spec_replay(
                spec_live_upto(self.spec_files(), self.spec_hints(), self.spec_files().len() - 1),
                self.active_log@,
            ),
    {
        let files = self.spec_files();
        let hints = self.spec_hints();
        let n = files.len() as int;
        self.lemma_no_hint_for_latest();
        lemma_parse_exact(self.active_log@);
        assert(self.byte_map() == spec_file_contrib(spec_live_upto(files, hints, n - 1), files[n - 1], hints));
    }

    /// The live map is a function of the files and hints alone, the view is
    /// its text-level reading, and the keydir holds exactly its keys.
    pub proof fn lemma_view_functional(self)
        requires
            self.inv(),
            self.spec_open(),
        ensures
            self.byte_map() == spec_live_map(self.spec_files(), self.spec_hints()),
            self@ == spec_abs(self.byte_map()),
            forall|k: Seq<char>| #[trigger] self.spec_keydir().contains_key(k)
                == self.byte_map().contains_key(encode_utf8(k)),
    {
        assert forall|k: Seq<char>| #[trigger] self.spec_keydir().contains_key(k)
            == self.byte_map().contains_key(encode_utf8(k)) by {
            if self.byte_map().contains_key(encode_utf8(k)) {
                assert(self.keydir@.contains_key(decode_utf8(encode_utf8(k))));
            }
        }
    }

    /// What the engine's invariant gives every caller of an open store:
    /// file identifiers strictly increase (the active file last), every live
    /// binding is textual and within the format's bounds, and each keydir
    /// entry locates exactly its key's live value bytes within the file it
    /// names.
    pub proof fn lemma_keydir_locates_values(self)
        requires
            self.inv(),
            self.spec_open(),
        ensures
            spec_ids_increasing(self.spec_files()),
            spec_map_ok(self.byte_map()),
            forall|k: Seq<char>| #[trigger] self.spec_keydir().contains_key(k)
                ==> spec_keydir_entry_ok(
                    self.spec_keydir()[k],
                    encode_utf8(k),
                    self.byte_map(),
                    self.spec_files(),
                ),
    {
        lemma_live_upto_ok(self.spec_files(), self.spec_hints(), self.spec_files().len() as int);
    }

    /// Constructs a store over a fresh, empty directory. `open_db` must be
    /// called before client calls are accepted.
    pub fn new(root_directory: String, max_file_size_bytes: usize) -> (r: ByteHaus)
        ensures
            r.inv(),
            !r.spec_open(),
            r.spec_sealed() == Seq::<FileModel>::empty(),
            r.spec_hints() == Seq::<FileModel>::empty(),
            r@ == Map::<Seq<char>, Seq<char>>::empty(),
    {
        let r = ByteHaus {
            root_directory,
            current_file_size_bytes: 0,
            max_file_size_bytes,
            latest_file: DataFile { file_id: 0, bytes: Vec::new() },
            previous_files: Vec::new(),
            hint_files: Vec::new(),
            keydir: KeyDir::new(),
            next_tstamp: 1,
            opened: false,
            active_log: Ghost(Seq::empty()),
        };
        proof {
            assert(r.spec_sealed() =~= Seq::<FileModel>::empty());
            assert(r.spec_hints() =~= Seq::<FileModel>::empty());
        }
        r
    }

    /// Constructs a store over an existing directory whose data files were
    /// discovered in increasing identifier order. `open_db` runs recovery.
    pub fn with_files(
        root_directory: String,
        max_file_size_bytes: usize,
        files: Vec<DataFile>,
        hint_files: Vec<HintFile>,
    ) -> (r: ByteHaus)
        requires
            spec_ids_increasing(file_models(files@)),
        ensures
            r.inv(),
            !r.spec_open(),
            r.spec_sealed() == file_models(files@),
            r.spec_hints() == hint_models(hint_files@),
            r@ == Map::<Seq<char>, Seq<char>>::empty(),
    {
        ByteHaus {
            root_directory,
            current_file_size_bytes: 0,
            max_file_size_bytes,
            latest_file: DataFile { file_id: 0, bytes: Vec::new() },
            previous_files: files,
            hint_files,
            keydir: KeyDir::new(),
            next_tstamp: 1,
            opened: false,
            active_log: Ghost(Seq::empty()),
        }
    }

    /// Whether the store is accepting client calls.
    pub fn is_open(&self) -> (b: bool)
        ensures
            b == self.spec_open(),
    {
        self.opened
    }

    /// How many sealed files the store holds.
    pub fn sealed_count(&self) -> (n: usize)
        ensures
            n as int == self.spec_sealed_count(),
    {
        self.previous_files.len()
    }

    /// A copy of every file of the store: data files in increasing
    /// identifier order (the active file last) and the hint files.
    pub fn storage_snapshot(&self) -> (r: (Vec<DataFile>, Vec<HintFile>))
        ensures
            file_models(r.0@) == self.spec_files(),
            hint_models(r.1@) == self.spec_hints(),
    {
        let mut files: Vec<DataFile> = Vec::new();
        let mut i: usize = 0;
        while i < self.previous_files.len()
            invariant
                i <= self.previous_files@.len(),
                file_models(files@)
                    == file_models(self.previous_files@).take(i as int),
            decreases self.previous_files@.len() - i,
        {
            let f = &self.previous_files[i];
            files.push(DataFile { file_id: f.file_id, bytes: copy_bytes(&f.bytes) });
            proof {
                assert(file_models(files@)
                    =~= file_models(self.previous_files@).take(i + 1));
            }
            i = i + 1;
        }
        files.push(DataFile {
            file_id: self.latest_file.file_id,
            bytes: copy_bytes(&self.latest_file.bytes),
        });
        let mut hints: Vec<HintFile> = Vec::new();
        let mut j: usize = 0;
        while j < self.hint_files.len()
            invariant
                j <= self.hint_files@.len(),
                hint_models(hints@)
                    == hint_models(self.hint_files@).take(j as int),
            decreases self.hint_files@.len() - j,
        {
            let h = &self.hint_files[j];
            hints.push(HintFile { file_id: h.file_id, bytes: copy_bytes(&h.bytes) });
            proof {
                assert(hint_models(hints@)
                    =~= hint_models(self.hint_files@).take(j + 1));
            }
            j = j + 1;
        }
        proof {
            assert(file_models(self.previous_files@).take(self.previous_files@.len() as int)
                =~= file_models(self.previous_files@));
            assert(hint_models(self.hint_files@).take(self.hint_files@.len() as int)
                =~= hint_models(self.hint_files@));
            assert(file_models(files@) =~= self.spec_files());
            assert(hint_models(hints@) =~= self.spec_hints());
        }
        (files, hints)
    }

    /// Closes the store: the active file is final, the keydir is dropped,
    /// and further operations fail deterministically. The files themselves
    /// are the only durable state and are kept.
    pub fn close_db(&mut self) -> (r: Result<(), ByteHausError>)
        requires
            old(self).inv(),
        ensures
            final(self).inv(),
            !final(self).spec_open(),
            final(self)@ == Map::<Seq<char>, Seq<char>>::empty(),
            final(self).spec_files() == old(self).spec_files(),
            final(self).spec_hints() == old(self).spec_hints(),
            match r {
                Ok(()) => old(self).spec_open() && spec_ids_increasing(final(self).spec_files()),
                Err(ByteHausError::DiskWriteFailed) => !old(self).spec_open(),
                Err(_) => false,
            },
    {
        if !self.opened {
            return Err(ByteHausError::DiskWriteFailed);
        }
        self.opened = false;
        self.keydir.clear();
        proof {
            assert(spec_ids_increasing(old(self).spec_files()));
            let sealed = self.spec_sealed();
            let files = old(self).spec_files();
            assert forall|i: int, j: int|
                0 <= i < j < sealed.len()
                implies #[trigger] sealed[i].file_id < #[trigger] sealed[j].file_id by {
                assert(files[i].file_id < files[j].file_id);
            }
        }
        Ok(())
    }

    /// Updates the keydir with a new record for a key: last writer wins.
    pub fn update_keydir(&mut self, key: String, new_record: KeyDirRecord) -> (r: Result<
        (),
        ByteHausError,
    >)
        ensures
            r is Ok,
            final(self).spec_keydir() == old(self).spec_keydir().insert(key@, new_record),
            final(self).same_except_keydir(*old(self)),
    {
        self.keydir.put(key, new_record);
        Ok(())
    }

    /// Appends one encoded record to the active file; append-only, at the
    /// current end of the file.
    pub fn write_to_file(&mut self, record: ByteHausRecord) -> (r: Result<(), ByteHausError>)
        requires
            record.wf(),
        ensures
            r is Ok,
            final(self).spec_latest() == (FileModel {
                file_id: old(self).spec_latest().file_id,
                bytes: old(self).spec_latest().bytes + spec_record_bytes(record.model()),
            }),
            final(self).current_size() == final(self).spec_latest().bytes.len(),
            final(self).same_except_active(*old(self)),
    {
        let encoded = encode(&record);
        push_bytes(&mut self.latest_file.bytes, encoded.as_slice());
        self.current_file_size_bytes = self.latest_file.bytes.len();
        Ok(())
    }

    pub closed spec fn current_size(self) -> usize {
        self.current_file_size_bytes
    }

    /// Reads the live value of a key: one keydir lookup, then one positioned
    /// read in the owning file. A missing key is `None`, not an error; a
    /// closed store reads as empty.
    pub fn read(&mut self, key: String) -> (r: Option<String>)
        requires
            old(self).inv(),
        ensures
            *final(self) == *old(self),
            final(self).inv(),
            match r {
                Some(v) => old(self)@.contains_key(key@) && v@ == old(self)@[key@],
                None => !old(self)@.contains_key(key@),
            },
    {
        if !self.opened {
            return None;
        }
        let entry = match self.keydir.get(key.as_str()) {
            None => {
                return None;
            },
            Some(e) => e,
        };
        let ghost fm = self.spec_files();
        let ghost kb = encode_utf8(key@);
        proof {
            assert(self.keydir@.contains_key(key@));
            assert(spec_keydir_entry_ok(entry, kb, self.byte_map(), fm));
            lemma_live_upto_ok(fm, self.spec_hints(), fm.len() as int);
            assert(self.byte_map().contains_key(kb));
            assert(spec_entry_ok(kb, self.byte_map()[kb]));
        }
        let n = self.previous_files.len();
        proof {
            assert(fm.skip(0) =~= fm);
        }
        let mut idx: usize = 0;
        while idx < n
            invariant
                idx <= n,
                n == self.previous_files@.len(),
                old(self).inv(),
                self == old(self),
                self.opened,
                fm == self.spec_files(),
                kb == encode_utf8(key@),
                self.keydir@.contains_key(key@),
                entry == self.keydir@[key@],
                spec_lookup(fm.skip(idx as int), entry.file_id) == spec_lookup(fm, entry.file_id),
            decreases n - idx,
        {
            if self.previous_files[idx].file_id == entry.file_id {
                proof {
                    assert(spec_keydir_entry_ok(entry, kb, self.byte_map(), fm));
                    lemma_live_upto_ok(fm, self.spec_hints(), fm.len() as int);
                    assert(spec_entry_ok(kb, self.byte_map()[kb]));
                    assert(fm.skip(idx as int)[0] == fm[idx as int]);
                    assert(spec_lookup(fm, entry.file_id)
                        == Some(self.previous_files@[idx as int].bytes@));
                }
                let out = read_at(&self.previous_files[idx], entry.value_pos, entry.value_sz);
                proof {
                    assert(out@ == self.byte_map()[kb]);
                }
                let s = string_from_utf8(out);
                match s {
                    Some(v) => {
                        return Some(v);
                    },
                    None => {
                        proof {
                            assert(false);
                        }
                        return None;
                    },
                }
            }
            proof {
                assert(fm.skip(idx as int)[0] == fm[idx as int]);
                assert(fm.skip(idx as int).drop_first() =~= fm.skip(idx as int + 1));
            }
            idx = idx + 1;
        }
        proof {
            assert(fm.skip(n as int) =~= seq![self.spec_latest()]);
            assert(fm.skip(n as int).drop_first() =~= Seq::<FileModel>::empty());
        }
        proof {
            assert(fm.skip(n as int)[0] == self.spec_latest());
        }
        if self.latest_file.file_id == entry.file_id {
            proof {
                assert(spec_keydir_entry_ok(entry, kb, self.byte_map(), fm));
                lemma_live_upto_ok(fm, self.spec_hints(), fm.len() as int);
                assert(spec_entry_ok(kb, self.byte_map()[kb]));
                assert(spec_lookup(fm.skip(n as int), entry.file_id)
                    == Some(self.spec_latest().bytes));
                assert(spec_lookup(fm, entry.file_id) == Some(self.spec_latest().bytes));
            }
            let out = read_at(&self.latest_file, entry.value_pos, entry.value_sz);
            proof {
                assert(out@ == self.byte_map()[kb]);
            }
            let s = string_from_utf8(out);
            match s {
                Some(v) => {
                    return Some(v);
                },
                None => {
                    proof {
                        assert(false);
                    }
                    return None;
                },
            }
        } else {
            proof {
                assert(spec_keydir_entry_ok(entry, kb, self.byte_map(), fm));
                assert(spec_lookup(fm.skip(n as int).drop_first(), entry.file_id) is None);
                assert(spec_lookup(fm.skip(n as int), entry.file_id) is None);
                assert(spec_lookup(fm, entry.file_id) is None);
                assert(false);
            }
            return None;
        }
    }

    /// Seals the active file and creates a fresh active file with the next
    /// identifier. The sealed file's bytes never change again, and both the
    /// live mapping and the keydir are untouched.
    pub fn cycle_data_file(&mut self) -> (r: Result<(), ByteHausError>)
        requires
            old(self).inv(),
            old(self).spec_open(),
        ensures
            final(self).inv(),
            final(self).spec_open(),
            final(self)@ == old(self)@,
            final(self).spec_hints() == old(self).spec_hints(),
            final(self).spec_keydir() == old(self).spec_keydir(),
            match r {
                Ok(()) => {
                    &&& old(self).spec_latest().file_id < u64::MAX
                    &&& final(self).spec_sealed_count() == old(self).spec_sealed_count() + 1
                    &&& final(self).spec_sealed() == old(self).spec_sealed().push(
                        old(self).spec_latest(),
                    )
                    &&& final(self).spec_latest() == (FileModel {
                        file_id: (old(self).spec_latest().file_id + 1) as u64,
                        bytes: Seq::empty(),
                    })
                    &&& final(self).current_size() == 0
                },
                Err(ByteHausError::DataFileCreateFailed) => {
                    &&& old(self).spec_latest().file_id == u64::MAX
                    &&& *final(self) == *old(self)
                },
                Err(_) => false,
            },
    {
        let old_id = self.latest_file.file_id;
        if old_id == u64::MAX {
            return Err(ByteHausError::DataFileCreateFailed);
        }
        let ghost old_files = self.spec_files();
        let ghost old_hints = self.spec_hints();
        let ghost old_map = self.byte_map();
        let mut sealed = DataFile { file_id: old_id + 1, bytes: Vec::new() };
        core::mem::swap(&mut sealed, &mut self.latest_file);
        self.previous_files.push(sealed);
        self.current_file_size_bytes = 0;
        proof {
            self.active_log = Ghost(Seq::empty());
        }
        proof {
            let files = self.spec_files();
            let hints = self.spec_hints();
            let n = old_files.len() as int;
            assert(self.spec_sealed() =~= old(self).spec_sealed().push(old(self).spec_latest()));
            assert(files =~= old_files.push(self.spec_latest()));
            // identifiers still strictly increase
            assert forall|i: int, j: int|
                0 <= i < j < files.len()
                implies #[trigger] files[i].file_id < #[trigger] files[j].file_id by {
                if j < n {
                    assert(files[i] == old_files[i]);
                    assert(files[j] == old_files[j]);
                } else {
                    assert(files[i] == old_files[i]);
                    assert(old_files[i].file_id <= old_files[n - 1].file_id);
                }
            }
            // hints still name sealed files
            assert forall|i: int| 0 <= i < hints.len()
                implies spec_id_present(self.spec_sealed(), #[trigger] hints[i].file_id) by {
                assert(spec_id_present(old(self).spec_sealed(), hints[i].file_id));
                let j = choose|j: int|
                    0 <= j < old(self).spec_sealed().len()
                        && #[trigger] old(self).spec_sealed()[j].file_id == hints[i].file_id;
                assert(self.spec_sealed()[j].file_id == hints[i].file_id);
            }
            // the live map is unchanged
            assert forall|i: int| 0 <= i < hints.len()
                implies #[trigger] hints[i].file_id != self.spec_latest().file_id by {
                let j = choose|j: int|
                    0 <= j < old(self).spec_sealed().len()
                        && #[trigger] old(self).spec_sealed()[j].file_id == hints[i].file_id;
                assert(old_files[j].file_id < old_files[n - 1].file_id);
            }
            lemma_hint_for_absent(hints, self.spec_latest().file_id);
            lemma_live_upto_prefix(files, old_files, hints, n);
            assert(!spec_complete_at(self.spec_latest().bytes));
            assert(spec_live_upto(files, hints, n + 1)
                == spec_replay(spec_live_upto(files, hints, n), spec_parse(self.spec_latest().bytes)));
            assert(self.byte_map() == spec_live_upto(old_files, old_hints, n));
            assert(self.byte_map() == old_map);
            // keydir entries still point at the right bytes
            assert forall|k: Seq<char>| #[trigger] self.keydir@.contains_key(k)
                implies spec_keydir_entry_ok(self.keydir@[k], encode_utf8(k), self.byte_map(), files) by {
                let e = self.keydir@[k];
                assert(spec_keydir_entry_ok(e, encode_utf8(k), old_map, old_files));
                assert forall|i: int| 0 <= i < old_files.len()
                    implies #[trigger] old_files[i].file_id != self.spec_latest().file_id by {
                    assert(old_files[i].file_id <= old_files[n - 1].file_id);
                }
                lemma_lookup_push(old_files, self.spec_latest());
                if e.file_id == self.spec_latest().file_id {
                    lemma_lookup_absent(old_files, e.file_id);
                    assert(false);
                }
                assert(spec_lookup(old_files.push(self.spec_latest()), e.file_id)
                    == spec_lookup(old_files, e.file_id));
                assert(files == old_files.push(self.spec_latest()));
            }
            assert(self.spec_latest().bytes =~= spec_encode_all(Seq::<SpecRecord>::empty()));
        }
        Ok(())
    }

    /// The heart of `write` and `delete`: appends one record for `key` to
    /// the active file and updates the keydir accordingly, keeping the
    /// engine's invariant. A live record inserts the pair; a tombstone
    /// removes the key.
    fn append_and_index(&mut self, key: String, value_bytes: Bytes, tombstone: bool) -> (r:
        Result<(), ByteHausError>)
        requires
            old(self).inv(),
            old(self).spec_open(),
            encode_utf8(key@).len() <= MAX_KEY_BYTES,
            crate::ext::bytes_content(value_bytes).len() <= MAX_VALUE_BYTES,
            tombstone ==> crate::ext::bytes_content(value_bytes).len() == 0,
            !tombstone ==> valid_utf8(crate::ext::bytes_content(value_bytes)),
        ensures
            r is Ok,
            final(self).inv(),
            final(self).spec_open(),
            final(self).byte_map() == (if tombstone {
                old(self).byte_map().remove(encode_utf8(key@))
            } else {
                old(self).byte_map().insert(
                    encode_utf8(key@),
                    crate::ext::bytes_content(value_bytes),
                )
            }),
            final(self).spec_sealed() == old(self).spec_sealed(),
            final(self).spec_hints() == old(self).spec_hints(),
            final(self).spec_latest().file_id == old(self).spec_latest().file_id,
            final(self).current_size() == old(self).spec_latest().bytes.len() + HEADER_BYTES
                + encode_utf8(key@).len() + crate::ext::bytes_content(value_bytes).len(),
            final(self).spec_max_file_size() == old(self).spec_max_file_size(),
            final(self).spec_latest() == old(self).spec_appended_latest(SpecRecord {
                tstamp: old(self).spec_next_tstamp(),
                key: encode_utf8(key@),
                value: crate::ext::bytes_content(value_bytes),
                tombstone,
            }),
            final(self).spec_keydir() == (if tombstone {
                old(self).spec_keydir().remove(key@)
            } else {
                old(self).spec_keydir().insert(
                    key@,
                    KeyDirRecord {
                        file_id: old(self).spec_latest().file_id,
                        value_sz: crate::ext::bytes_content(value_bytes).len() as usize,
                        value_pos: (old(self).spec_latest().bytes.len() + HEADER_BYTES
                            + encode_utf8(key@).len()) as usize,
                        tstamp: old(self).spec_next_tstamp(),
                    },
                )
            }),
            final(self).spec_next_tstamp() == (if old(self).spec_next_tstamp() == u64::MAX {
                u64::MAX
            } else {
                (old(self).spec_next_tstamp() + 1) as u64
            }),
    {
        let kslice = key.as_str().as_bytes();
        let kb = bytes_copy_from_slice(kslice);
        let t = self.next_tstamp;
        if self.next_tstamp < u64::MAX {
            self.next_tstamp = self.next_tstamp + 1;
        }
        let ghost kbs = encode_utf8(key@);
        let ghost vbs = crate::ext::bytes_content(value_bytes);
        let ksz = kslice.len();
        let record = make_record(kb, value_bytes, t, tombstone);
        let value_sz = record.value_sz;
        let ghost m = record.model();
        proof {
            assert(kslice@ == kbs);
            assert(m == SpecRecord {
                tstamp: old(self).spec_next_tstamp(),
                key: kbs,
                value: vbs,
                tombstone,
            });
        }
        let ghost old_files = self.spec_files();
        let ghost old_hints = self.spec_hints();
        let ghost old_map = self.byte_map();
        let ghost old_log = self.active_log@;
        let ghost old_len = self.latest_file.bytes@.len();
        let ghost n = old_files.len() as int;
        let ghost base = spec_live_upto(old_files, old_hints, n - 1);
        proof {
            self.lemma_byte_map_unfold();
            lemma_record_extends(m, Seq::empty());
        }
        let res = self.write_to_file(record);
        let new_len = self.current_file_size_bytes;
        proof {
            assert(spec_record_bytes(m) + Seq::<u8>::empty() =~= spec_record_bytes(m));
            assert(new_len == old_len + HEADER_BYTES + ksz + value_sz);
        }
        let value_pos = new_len - value_sz;
        let entry = KeyDirRecord {
            file_id: self.latest_file.file_id,
            value_sz,
            value_pos,
            tstamp: t,
        };
        let ghost old_kd = self.keydir@;
        if tombstone {
            self.keydir.remove(key.as_str());
        } else {
            self.keydir.put(key, entry);
        }
        proof {
            self.active_log = Ghost(old_log.push(m));
        }
        proof {
            let files = self.spec_files();
            let hints = self.spec_hints();
            let latest_new = self.spec_latest();
            let rb = spec_record_bytes(m);
            assert(hints == old_hints);
            assert(self.spec_sealed() == old(self).spec_sealed());
            assert(files =~= old_files.update(n - 1, latest_new));
            assert(latest_new.bytes == spec_encode_all(old_log) + rb);
            // identifiers unchanged, so still strictly increasing
            assert forall|i: int, j: int|
                0 <= i < j < files.len()
                implies #[trigger] files[i].file_id < #[trigger] files[j].file_id by {
                assert(files[i].file_id == old_files[i].file_id);
                assert(files[j].file_id == old_files[j].file_id);
            }
            // the active file is still a whole number of well-formed records
            lemma_encode_all_push(old_log, m);
            assert(latest_new.bytes == spec_encode_all(self.active_log@));
            assert forall|i: int| 0 <= i < self.active_log@.len()
                implies spec_record_wf(#[trigger] self.active_log@[i]) by {
                if i < old_log.len() {
                    assert(self.active_log@[i] == old_log[i]);
                }
            }
            // the new byte map is the old one with this record applied
            lemma_live_upto_prefix(files, old_files, hints, n - 1);
            self.lemma_no_hint_for_latest();
            assert(self.byte_map() == spec_replay(base, self.active_log@)) by {
                self.lemma_byte_map_unfold();
            }
            lemma_replay_push(base, old_log, m);
            assert(self.byte_map() == spec_apply_record(old_map, m));
            assert(valid_utf8(m.key));
            let new_map = self.byte_map();
            if tombstone {
                assert(new_map == old_map.remove(kbs));
            } else {
                assert(valid_utf8(m.value));
                assert(new_map == old_map.insert(kbs, vbs));
            }
            // where the new record's value bytes live in the file
            assert(rb.subrange(HEADER_BYTES + ksz, HEADER_BYTES + ksz + value_sz) == m.value) by {
                assert(spec_rec_len(rb + Seq::<u8>::empty()) == rb.len());
                assert((rb + Seq::<u8>::empty()).subrange(
                    HEADER_BYTES + ksz,
                    HEADER_BYTES + ksz + value_sz,
                ) =~= rb.subrange(HEADER_BYTES + ksz, HEADER_BYTES + ksz + value_sz));
            }
            assert(latest_new.bytes.subrange(value_pos as int, value_pos + value_sz)
                =~= rb.subrange(HEADER_BYTES + ksz, HEADER_BYTES + ksz + value_sz));
            // lookups: only the active file's bytes changed
            lemma_lookup_update_last(old_files, latest_new);
            lemma_live_upto_ok(old_files, old_hints, n);
            // the keydir matches the new byte map
            assert forall|k2: Seq<char>| #[trigger] self.keydir@.contains_key(k2)
                implies new_map.contains_key(encode_utf8(k2)) by {
                if k2 != key@ {
                    assert(old_kd.contains_key(k2));
                    assert(old_map.contains_key(encode_utf8(k2)));
                    if encode_utf8(k2) == kbs {
                        assert(decode_utf8(encode_utf8(k2)) == k2);
                        assert(false);
                    }
                }
            }
            assert forall|kb2: Seq<u8>| #[trigger] new_map.contains_key(kb2)
                implies self.keydir@.contains_key(decode_utf8(kb2)) by {
                if kb2 == kbs {
                    assert(!tombstone);
                    assert(decode_utf8(kbs) == key@);
                } else {
                    assert(old_map.contains_key(kb2));
                    assert(old_kd.contains_key(decode_utf8(kb2)));
                    if tombstone && decode_utf8(kb2) == key@ {
                        assert(spec_entry_ok(kb2, old_map[kb2]));
                        assert(encode_utf8(decode_utf8(kb2)) == kb2);
                        assert(false);
                    }
                }
            }
            assert forall|k2: Seq<char>| #[trigger] self.keydir@.contains_key(k2)
                implies spec_keydir_entry_ok(self.keydir@[k2], encode_utf8(k2), new_map, files) by {
                if k2 == key@ && !tombstone {
                    assert(self.keydir@[k2] == entry);
                    assert(spec_lookup(files, latest_new.file_id) == Some(latest_new.bytes));
                    assert(new_map[kbs] == vbs);
                } else {
                    assert(old_kd.contains_key(k2));
                    let e = self.keydir@[k2];
                    assert(e == old_kd[k2]);
                    assert(spec_keydir_entry_ok(e, encode_utf8(k2), old_map, old_files));
                    assert(encode_utf8(k2) != kbs) by {
                        if encode_utf8(k2) == kbs {
                            assert(decode_utf8(encode_utf8(k2)) == k2);
                        }
                    }
                    assert(new_map[encode_utf8(k2)] == old_map[encode_utf8(k2)]);
                    if e.file_id == latest_new.file_id {
                        lemma_lookup_at(old_files, n - 1);
                        assert(spec_lookup(old_files, e.file_id)
                            == Some(old(self).spec_latest().bytes));
                        assert(spec_lookup(files, e.file_id) == Some(latest_new.bytes));
                        assert(e.value_pos + e.value_sz <= old_len);
                        assert(latest_new.bytes.subrange(e.value_pos as int, e.value_pos + e.value_sz)
                            =~= old(self).spec_latest().bytes.subrange(
                            e.value_pos as int,
                            e.value_pos + e.value_sz,
                        ));
                    } else {
                        assert(spec_lookup(files, e.file_id) == spec_lookup(old_files, e.file_id));
                    }
                }
            }
            // hints still name sealed files
            assert(spec_hints_consistent(self.spec_sealed(), hints));
        }
        res
    }

    /// Writes a key/value pair: the record is appended to the active file
    /// first, then the keydir is updated, so the index is never ahead of the
    /// log. If the active file then exceeds the configured threshold, it is
    /// rotated. Fails only on a closed store or a pair too large for the
    /// record header's size fields. The contract pins the whole state
    /// change: sealed files keep their bytes, the active file grows by
    /// exactly the one record, the written key's entry names the active
    /// file with the value's offset, size and timestamp, and rotation
    /// happens exactly when the grown file exceeds the threshold.
    pub fn write(&mut self, key: String, value: String) -> (r: Result<(), ByteHausError>)
        requires
            old(self).inv(),
        ensures
            final(self).inv(),
            final(self).spec_open() == old(self).spec_open(),
            final(self).spec_hints() == old(self).spec_hints(),
            match r {
                Ok(()) => {
                    let appended = old(self).spec_appended_latest(
                        old(self).spec_write_record(key@, value@),
                    );
                    let rotated = final(self).spec_sealed_count()
                        == old(self).spec_sealed_count() + 1;
                    &&& old(self).spec_open()
                    &&& spec_write_fits(key@, value@)
                    &&& final(self)@ == old(self)@.insert(key@, value@)
                    &&& final(self).spec_keydir() == old(self).spec_keydir().insert(
                        key@,
                        old(self).spec_entry_for(key@, value@),
                    )
                    &&& (rotated || final(self).spec_sealed_count()
                        == old(self).spec_sealed_count())
                    &&& (rotated <==> (
                        old(self).spec_latest().bytes.len() + HEADER_BYTES + encode_utf8(key@).len()
                            + encode_utf8(value@).len() > old(self).spec_max_file_size()
                            && old(self).spec_latest().file_id < u64::MAX))
                    &&& (if rotated {
                        &&& final(self).spec_sealed() == old(self).spec_sealed().push(appended)
                        &&& final(self).spec_latest() == (FileModel {
                            file_id: (appended.file_id + 1) as u64,
                            bytes: Seq::empty(),
                        })
                        &&& final(self).current_size() == 0
                    } else {
                        &&& final(self).spec_sealed() == old(self).spec_sealed()
                        &&& final(self).spec_latest() == appended
                        &&& final(self).current_size() == appended.bytes.len()
                    })
                },
                Err(ByteHausError::DiskWriteFailed) => {
                    &&& (!old(self).spec_open() || !spec_write_fits(key@, value@))
                    &&& *final(self) == *old(self)
                },
                Err(_) => false,
            },
    {
        if !self.opened {
            return Err(ByteHausError::DiskWriteFailed);
        }
        let kslice = key.as_str().as_bytes();
        if kslice.len() > MAX_KEY_BYTES {
            return Err(ByteHausError::DiskWriteFailed);
        }
        let vslice = value.as_str().as_bytes();
        if vslice.len() > MAX_VALUE_BYTES {
            return Err(ByteHausError::DiskWriteFailed);
        }
        let vb = bytes_copy_from_slice(vslice);
        let ghost old_map = self.byte_map();
        let res = self.append_and_index(key, vb, false);
        proof {
            lemma_abs_insert(old_map, key@, value@);
            assert(self@ =~= old(self)@.insert(key@, value@));
        }
        if self.current_file_size_bytes > self.max_file_size_bytes {
            let _ = self.cycle_data_file();
        }
        res
    }

    /// Deletes a key. Deleting an absent key is an error, not a no-op.
    /// Otherwise a tombstone record is appended — durability first, the same
    /// ordering rule as `write` — and the key leaves the keydir. Sealed
    /// files and every other key's entry are untouched; earlier records of
    /// the key stay in the log until compaction reclaims them.
    pub fn delete(&mut self, key: String) -> (r: Result<(), ByteHausError>)
        requires
            old(self).inv(),
        ensures
            final(self).inv(),
            final(self).spec_open() == old(self).spec_open(),
            final(self).spec_hints() == old(self).spec_hints(),
            match r {
                Ok(()) => {
                    &&& old(self).spec_open()
                    &&& old(self)@.contains_key(key@)
                    &&& final(self)@ == old(self)@.remove(key@)
                    &&& final(self).spec_keydir() == old(self).spec_keydir().remove(key@)
                    &&& final(self).spec_sealed() == old(self).spec_sealed()
                    &&& final(self).spec_latest() == old(self).spec_appended_latest(
                        old(self).spec_tombstone_record(key@),
                    )
                    &&& final(self).current_size() == final(self).spec_latest().bytes.len()
                },
                Err(ByteHausError::DeleteKeyMissing) => {
                    &&& old(self).spec_open()
                    &&& !old(self)@.contains_key(key@)
                    &&& *final(self) == *old(self)
                },
                Err(ByteHausError::DiskWriteFailed) => {
                    &&& !old(self).spec_open()
                    &&& *final(self) == *old(self)
                },
                Err(_) => false,
            },
    {
        if !self.opened {
            return Err(ByteHausError::DiskWriteFailed);
        }
        let present = self.keydir.contains(key.as_str());
        let ghost kbs = encode_utf8(key@);
        proof {
            lemma_live_upto_ok(self.spec_files(), self.spec_hints(), self.spec_files().len() as int);
            if self.keydir@.contains_key(key@) {
                assert(self.byte_map().contains_key(kbs));
            } else {
                if self.byte_map().contains_key(kbs) {
                    assert(self.keydir@.contains_key(decode_utf8(kbs)));
                }
            }
        }
        if !present {
            return Err(ByteHausError::DeleteKeyMissing);
        }
        proof {
            assert(spec_entry_ok(kbs, self.byte_map()[kbs]));
        }
        let empty_value: Vec<u8> = Vec::new();
        let vb = bytes_copy_from_slice(empty_value.as_slice());
        proof {
            assert(crate::ext::bytes_content(vb) =~= Seq::<u8>::empty());
        }
        let ghost old_map = self.byte_map();
        let res = self.append_and_index(key, vb, true);
        proof {
            lemma_abs_remove(old_map, key@);
            assert(self@ =~= old(self)@.remove(key@));
        }
        res
    }

    /// Replays one data file's records into the keydir, stopping cleanly at
    /// a trailing truncated record and skipping checksum-invalid records.
    fn scan_file_into(
        kd: &mut KeyDir,
        f: &DataFile,
        Ghost(files): Ghost<Seq<FileModel>>,
        Ghost(m0): Ghost<Map<Seq<u8>, Seq<u8>>>,
    )
        requires
            spec_lookup(files, f@.file_id) == Some(f@.bytes),
            spec_keydir_matches(old(kd)@, m0, files),
            spec_map_ok(m0),
        ensures
            spec_keydir_matches(final(kd)@, spec_replay(m0, spec_parse(f@.bytes)), files),
            final(kd)@ == Self::spec_scan_keydir(old(kd)@, f@.bytes, 0, f@.file_id),
    {
        let len = f.bytes.len();
        let ghost whole = f.bytes@;
        let ghost fid = f@.file_id;
        let ghost kd0 = kd@;
        let mut pos: usize = 0;
        let mut done = false;
        let ghost mut mcur = m0;
        proof {
            assert(whole.subrange(0, whole.len() as int) =~= whole);
        }
        while !done
            invariant
                pos <= len,
                len == f.bytes@.len(),
                whole == f.bytes@,
                spec_lookup(files, f@.file_id) == Some(f@.bytes),
                spec_keydir_matches(kd@, mcur, files),
                spec_map_ok(mcur),
                spec_replay(mcur, spec_parse(whole.subrange(pos as int, whole.len() as int)))
                    == spec_replay(m0, spec_parse(whole)),
                done ==> mcur == spec_replay(m0, spec_parse(whole)),
                fid == f@.file_id,
                Self::spec_scan_keydir(kd@, whole, pos as int, fid)
                    == Self::spec_scan_keydir(kd0, whole, 0, fid),
                done ==> kd@ == Self::spec_scan_keydir(kd0, whole, 0, fid),
            decreases len - pos + (if done { 0int } else { 1int }),
        {
            let ghost s = whole.subrange(pos as int, whole.len() as int);
            if pos >= len {
                proof {
                    assert(s.len() == 0);
                    assert(!spec_complete_at(s));
                    assert(Self::spec_scan_keydir(kd@, whole, pos as int, fid) == kd@);
                }
                done = true;
            } else {
                match decode_at(&f.bytes, pos) {
                    DecodeOutcome::Truncated => {
                        proof {
                            assert(spec_parse(s) == Seq::<SpecRecord>::empty());
                            assert(Self::spec_scan_keydir(kd@, whole, pos as int, fid) == kd@);
                        }
                        done = true;
                    },
                    DecodeOutcome::Corrupt { consumed } => {
                        proof {
                            assert(s.subrange(spec_rec_len(s), s.len() as int)
                                =~= whole.subrange(pos + consumed, whole.len() as int));
                            assert(Self::spec_scan_keydir(kd@, whole, pos as int, fid)
                                == Self::spec_scan_keydir(kd@, whole, pos + consumed, fid));
                        }
                        pos = pos + consumed;
                    },
                    DecodeOutcome::Complete { record, consumed, value_pos } => {
                        let ghost r = spec_parsed_record(s);
                        let ghost rest = spec_parse(
                            whole.subrange(pos + consumed, whole.len() as int),
                        );
                        proof {
                            assert(s.subrange(spec_rec_len(s), s.len() as int)
                                =~= whole.subrange(pos + consumed, whole.len() as int));
                            assert(spec_parse(s) == seq![r] + rest);
                            assert((seq![r] + rest)[0] == r);
                            assert((seq![r] + rest).drop_first() =~= rest);
                            assert(spec_replay(mcur, spec_parse(s))
                                == spec_replay(spec_apply_record(mcur, r), rest));
                        }
                        let key_vec = slice_to_vec(bytes_as_slice(&record.key));
                        match string_from_utf8(key_vec) {
                            None => {
                                proof {
                                    assert(spec_apply_record(mcur, r) == mcur);
                                    assert(Self::spec_scan_keydir(kd@, whole, pos as int, fid)
                                        == Self::spec_scan_keydir(kd@, whole, pos + consumed, fid));
                                }
                            },
                            Some(kstr) => {
                                if record.tombstone {
                                    let ghost kd_before = kd@;
                                    kd.remove(kstr.as_str());
                                    proof {
                                        lemma_matches_remove(kd_before, mcur, files, r.key);
                                        mcur = mcur.remove(r.key);
                                        assert(kd@ == kd_before.remove(decode_utf8(r.key)));
                                        assert(Self::spec_scan_keydir(kd_before, whole, pos as int, fid)
                                            == Self::spec_scan_keydir(kd@, whole, pos + consumed, fid));
                                    }
                                } else {
                                    let val_vec = slice_to_vec(bytes_as_slice(&record.value));
                                    match string_from_utf8(val_vec) {
                                        None => {
                                            proof {
                                                assert(spec_apply_record(mcur, r) == mcur);
                                                assert(Self::spec_scan_keydir(kd@, whole, pos as int, fid)
                                                    == Self::spec_scan_keydir(kd@, whole, pos + consumed, fid));
                                            }
                                        },
                                        Some(_) => {
                                            let entry = KeyDirRecord {
                                                file_id: f.file_id,
                                                value_sz: record.value_sz,
                                                value_pos,
                                                tstamp: record.tstamp,
                                            };
                                            let ghost kd_before = kd@;
                                            kd.put(kstr, entry);
                                            proof {
                                                assert(spec_keydir_entry_ok(
                                                    entry,
                                                    r.key,
                                                    mcur.insert(r.key, r.value),
                                                    files,
                                                ));
                                                lemma_matches_insert(kd_before, mcur, files, r.key, r.value, entry);
                                                mcur = mcur.insert(r.key, r.value);
                                                assert(entry == KeyDirRecord {
                                                    file_id: fid,
                                                    value_sz: r.value.len() as usize,
                                                    value_pos: (pos + HEADER_BYTES + r.key.len()) as usize,
                                                    tstamp: r.tstamp,
                                                });
                                                assert(kd@ == kd_before.insert(decode_utf8(r.key), entry));
                                                assert(Self::spec_scan_keydir(kd_before, whole, pos as int, fid)
                                                    == Self::spec_scan_keydir(kd@, whole, pos + consumed, fid));
                                            }
                                        },
                                    }
                                }
                            },
                        }
                        pos = pos + consumed;
                    },
                }
            }
        }
    }

    /// Applies one well-formed hint file's entries into the keydir without
    /// decoding any record. One deliberate cost on top of pure tuple
    /// application: each entry's referenced value region is read once and
    /// checked to be valid text before the entry is adopted, so that every
    /// key the rebuilt keydir serves is guaranteed readable. Entries that
    /// fail the check are ignored, exactly as a full scan would ignore the
    /// damaged record.
    fn apply_hint_into(
        kd: &mut KeyDir,
        h: &HintFile,
        f: &DataFile,
        Ghost(files): Ghost<Seq<FileModel>>,
        Ghost(m0): Ghost<Map<Seq<u8>, Seq<u8>>>,
    )
        requires
            spec_hint_well_formed(h@.bytes),
            spec_lookup(files, f@.file_id) == Some(f@.bytes),
            spec_keydir_matches(old(kd)@, m0, files),
            spec_map_ok(m0),
        ensures
            spec_keydir_matches(
                final(kd)@,
                spec_apply_hint(m0, spec_parse_hint(h@.bytes), f@.bytes),
                files,
            ),
            final(kd)@ == Self::spec_hint_keydir(old(kd)@, h@.bytes, 0, f@.bytes, f@.file_id),
    {
        let len = h.bytes.len();
        let flen = f.bytes.len();
        let ghost whole = h.bytes@;
        let ghost fb = f.bytes@;
        let ghost fid = f@.file_id;
        let ghost kd0 = kd@;
        let mut pos: usize = 0;
        let ghost mut mcur = m0;
        proof {
            assert(whole.subrange(0, whole.len() as int) =~= whole);
        }
        while pos < len
            invariant
                pos <= len,
                len == h.bytes@.len(),
                flen == f.bytes@.len(),
                whole == h.bytes@,
                fb == f.bytes@,
                spec_lookup(files, f@.file_id) == Some(f@.bytes),
                spec_hint_well_formed(whole.subrange(pos as int, whole.len() as int)),
                spec_keydir_matches(kd@, mcur, files),
                spec_map_ok(mcur),
                spec_apply_hint(
                    mcur,
                    spec_parse_hint(whole.subrange(pos as int, whole.len() as int)),
                    fb,
                ) == spec_apply_hint(m0, spec_parse_hint(whole), fb),
                fid == f@.file_id,
                Self::spec_hint_keydir(kd@, whole, pos as int, fb, fid)
                    == Self::spec_hint_keydir(kd0, whole, 0, fb, fid),
            decreases len - pos,
        {
            let ghost s = whole.subrange(pos as int, whole.len() as int);
            proof {
                assert(s.len() != 0);
                assert(hint_complete_at(s));
            }
            let all = h.bytes.as_slice();
            let ksz32 = u32_from_le_bytes(slice_subrange(all, pos, pos + 4));
            proof {
                assert(whole.subrange(pos as int, pos + 4) =~= s.subrange(0, 4));
                assert(ksz32 == hint_ksz(s));
            }
            let k = ksz32 as usize;
            let ghost e = spec_hint_entry(s);
            proof {
                assert(s.len() >= HINT_FIXED_BYTES + k);
            }
            let vsz32 = u32_from_le_bytes(slice_subrange(all, pos + 4 + k, pos + 8 + k));
            let vpos64 = u64_from_le_bytes(slice_subrange(all, pos + 8 + k, pos + 16 + k));
            let ts = u64_from_le_bytes(slice_subrange(all, pos + 16 + k, pos + 24 + k));
            proof {
                assert(whole.subrange(pos + 4 + k, pos + 8 + k) =~= s.subrange(4 + k, 8 + k));
                assert(whole.subrange(pos + 8 + k, pos + 16 + k) =~= s.subrange(8 + k, 16 + k));
                assert(whole.subrange(pos + 16 + k, pos + 24 + k) =~= s.subrange(16 + k, 24 + k));
                assert(e.value_sz == vsz32 as int);
                assert(e.value_pos == vpos64 as int);
                assert(e.tstamp == ts);
                assert(e.key =~= whole.subrange(pos + 4, pos + 4 + k));
            }
            let ghost rest = spec_parse_hint(
                whole.subrange(pos + HINT_FIXED_BYTES + k, whole.len() as int),
            );
            proof {
                assert(s.subrange(hint_entry_len(s), s.len() as int)
                    =~= whole.subrange(pos + HINT_FIXED_BYTES + k, whole.len() as int));
                assert(spec_parse_hint(s) == seq![e] + spec_parse_hint(
                    s.subrange(hint_entry_len(s), s.len() as int),
                ));
                assert((seq![e] + rest)[0] == e);
                assert((seq![e] + rest).drop_first() =~= rest);
                assert(spec_apply_hint(mcur, spec_parse_hint(s), fb)
                    == spec_apply_hint(spec_apply_hint_entry(mcur, e, fb), rest, fb));
            }
            let flen64 = flen as u64;
            let vsz64 = vsz32 as u64;
            let mut applied = false;
            if vsz64 <= (MAX_VALUE_BYTES as u64) && vsz64 <= flen64 && vpos64 <= flen64 - vsz64 {
                let vpos = vpos64 as usize;
                let vsz = vsz32 as usize;
                let key_vec = slice_to_vec(slice_subrange(all, pos + 4, pos + 4 + k));
                match string_from_utf8(key_vec) {
                    None => {
                        proof {
                            assert(!valid_utf8(e.key));
                            assert(spec_apply_hint_entry(mcur, e, fb) == mcur);
                        }
                    },
                    Some(kstr) => {
                        let val = read_at(f, vpos, vsz);
                        proof {
                            assert(val@ == fb.subrange(e.value_pos, e.value_pos + e.value_sz));
                        }
                        match string_from_utf8(val) {
                            None => {
                                proof {
                                    assert(spec_apply_hint_entry(mcur, e, fb) == mcur);
                                }
                            },
                            Some(_) => {
                                let entry = KeyDirRecord {
                                    file_id: f.file_id,
                                    value_sz: vsz,
                                    value_pos: vpos,
                                    tstamp: ts,
                                };
                                let ghost kd_before = kd@;
                                kd.put(kstr, entry);
                                proof {
                                    let vb = fb.subrange(e.value_pos, e.value_pos + e.value_sz);
                                    assert(spec_apply_hint_entry(mcur, e, fb)
                                        == mcur.insert(e.key, vb));
                                    assert(spec_keydir_entry_ok(
                                        entry,
                                        e.key,
                                        mcur.insert(e.key, vb),
                                        files,
                                    ));
                                    lemma_matches_insert(kd_before, mcur, files, e.key, vb, entry);
                                    mcur = mcur.insert(e.key, vb);
                                    assert(spec_hint_entry_live(e, fb));
                                    assert(entry == KeyDirRecord {
                                        file_id: fid,
                                        value_sz: e.value_sz as usize,
                                        value_pos: e.value_pos as usize,
                                        tstamp: e.tstamp,
                                    });
                                    assert(kd@ == kd_before.insert(decode_utf8(e.key), entry));
                                    assert(Self::spec_hint_keydir(kd_before, whole, pos as int, fb, fid)
                                        == Self::spec_hint_keydir(
                                        kd@,
                                        whole,
                                        pos + HINT_FIXED_BYTES + k,
                                        fb,
                                        fid,
                                    ));
                                }
                                applied = true;
                            },
                        }
                    },
                }
            } else {
                proof {
                    assert(spec_apply_hint_entry(mcur, e, fb) == mcur);
                }
            }
            proof {
                if !applied {
                    assert(spec_apply_hint_entry(mcur, e, fb) == mcur);
                    assert(!spec_hint_entry_live(e, fb));
                    assert(Self::spec_hint_keydir(kd@, whole, pos as int, fb, fid)
                        == Self::spec_hint_keydir(kd@, whole, pos + HINT_FIXED_BYTES + k, fb, fid));
                }
            }
            pos = pos + HINT_FIXED_BYTES + k;
        }
        proof {
            let s = whole.subrange(pos as int, whole.len() as int);
            assert(s.len() == 0);
            assert(!hint_complete_at(s));
            assert(spec_parse_hint(s) == Seq::<SpecHintEntry>::empty());
            assert(Self::spec_hint_keydir(kd@, whole, pos as int, fb, fid) == kd@);
        }
    }

    /// Checks that a hint file is a whole number of entries.
    pub(crate) fn check_hint_well_formed(b: &Vec<u8>) -> (r: bool)
        ensures
            r == spec_hint_well_formed(b@),
    {
        let len = b.len();
        let mut pos: usize = 0;
        proof {
            assert(b@.subrange(0, b@.len() as int) =~= b@);
        }
        while pos < len
            invariant
                pos <= len,
                len == b@.len(),
                spec_hint_well_formed(b@) == spec_hint_well_formed(
                    b@.subrange(pos as int, b@.len() as int),
                ),
            decreases len - pos,
        {
            let ghost s = b@.subrange(pos as int, b@.len() as int);
            if len - pos < 4 {
                proof {
                    assert(!hint_complete_at(s));
                    assert(s.len() != 0);
                }
                return false;
            }
            let ksz32 = u32_from_le_bytes(slice_subrange(b.as_slice(), pos, pos + 4));
            proof {
                assert(b@.subrange(pos as int, pos + 4) =~= s.subrange(0, 4));
                assert(ksz32 == hint_ksz(s));
            }
            let need: u64 = (HINT_FIXED_BYTES as u64) + (ksz32 as u64);
            if ((len - pos) as u64) < need {
                proof {
                    assert(!hint_complete_at(s));
                    assert(s.len() != 0);
                }
                return false;
            }
            proof {
                assert(hint_complete_at(s));
                assert(s.subrange(hint_entry_len(s), s.len() as int)
                    =~= b@.subrange(pos + HINT_FIXED_BYTES + ksz32 as int, b@.len() as int));
            }
            pos = pos + HINT_FIXED_BYTES + (ksz32 as usize);
        }
        proof {
            assert(b@.subrange(pos as int, b@.len() as int).len() == 0);
        }
        true
    }

    /// The first hint file carrying the given identifier, if any.
    pub(crate) fn find_hint<'a>(hints: &'a Vec<HintFile>, id: u64) -> (r: Option<&'a HintFile>)
        ensures
            match r {
                Some(h) => spec_hint_for(hint_models(hints@), id) == Some(h@.bytes)
                    && h@.file_id == id,
                None => spec_hint_for(hint_models(hints@), id) is None,
            },
    {
        let ghost hm = hint_models(hints@);
        proof {
            assert(hm.skip(0) =~= hm);
        }
        let mut i: usize = 0;
        while i < hints.len()
            invariant
                i <= hints@.len(),
                hm == hint_models(hints@),
                spec_hint_for(hm.skip(i as int), id) == spec_hint_for(hm, id),
            decreases hints@.len() - i,
        {
            proof {
                assert(hm.skip(i as int)[0] == hm[i as int]);
            }
            if hints[i].file_id == id {
                return Some(&hints[i]);
            }
            proof {
                assert(hm.skip(i as int).drop_first() =~= hm.skip(i as int + 1));
            }
            i = i + 1;
        }
        proof {
            assert(hm.skip(hints@.len() as int) =~= Seq::<FileModel>::empty());
        }
        None
    }

    /// Whether some data file carries the given identifier.
    fn data_file_id_present(files: &Vec<DataFile>, id: u64) -> (r: bool)
        ensures
            r == spec_id_present(file_models(files@), id),
    {
        let mut i: usize = 0;
        while i < files.len()
            invariant
                i <= files@.len(),
                forall|t: int| 0 <= t < i ==> #[trigger] file_models(files@)[t].file_id != id,
            decreases files@.len() - i,
        {
            if files[i].file_id == id {
                proof {
                    assert(file_models(files@)[i as int].file_id == id);
                }
                return true;
            }
            i = i + 1;
        }
        proof {
            assert forall|j: int| 0 <= j < file_models(files@).len()
                implies #[trigger] file_models(files@)[j].file_id != id by {}
        }
        false
    }

    /// Rebuilds a keydir from the sealed files, preferring each file's hint
    /// file when it is present and well formed, and falling back to a full
    /// truncation-tolerant scan otherwise. Fails when a hint file names a
    /// data file that does not exist. Hint entries are applied without
    /// decoding records, though each entry's value region is read once to
    /// check it is valid text before it is adopted.
    pub fn reconstruct_from_hint_file(&mut self) -> (r: Result<KeyDir, ByteHausError>)
        requires
            spec_ids_increasing(old(self).spec_sealed()),
        ensures
            *final(self) == *old(self),
            match r {
                Ok(kd) => {
                    &&& spec_hints_consistent(old(self).spec_sealed(), old(self).spec_hints())
                    &&& spec_keydir_matches(
                        kd@,
                        spec_live_map(old(self).spec_sealed(), old(self).spec_hints()),
                        old(self).spec_sealed(),
                    )
                    &&& kd@ == Self::spec_recover_keydir(
                        old(self).spec_sealed(),
                        old(self).spec_hints(),
                        old(self).spec_sealed().len() as int,
                    )
                },
                Err(ByteHausError::ReconstructionFailed) => !spec_hints_consistent(
                    old(self).spec_sealed(),
                    old(self).spec_hints(),
                ),
                Err(_) => false,
            },
    {
        let ghost sealed = self.spec_sealed();
        let ghost hints = self.spec_hints();
        let mut hi: usize = 0;
        while hi < self.hint_files.len()
            invariant
                hi <= self.hint_files@.len(),
                self == old(self),
                sealed == self.spec_sealed(),
                hints == self.spec_hints(),
                forall|t: int| 0 <= t < hi
                    ==> spec_id_present(sealed, #[trigger] hints[t].file_id),
            decreases self.hint_files@.len() - hi,
        {
            if !Self::data_file_id_present(&self.previous_files, self.hint_files[hi].file_id) {
                proof {
                    assert(hints[hi as int].file_id == self.hint_files@[hi as int].file_id);
                }
                return Err(ByteHausError::ReconstructionFailed);
            }
            proof {
                assert(hints[hi as int].file_id == self.hint_files@[hi as int].file_id);
            }
            hi = hi + 1;
        }
        let mut kd = KeyDir::new();
        let mut fi: usize = 0;
        while fi < self.previous_files.len()
            invariant
                fi <= self.previous_files@.len(),
                self == old(self),
                sealed == self.spec_sealed(),
                hints == self.spec_hints(),
                spec_ids_increasing(sealed),
                spec_hints_consistent(sealed, hints),
                spec_keydir_matches(kd@, spec_live_upto(sealed, hints, fi as int), sealed),
                kd@ == Self::spec_recover_keydir(sealed, hints, fi as int),
            decreases self.previous_files@.len() - fi,
        {
            let ghost m0 = spec_live_upto(sealed, hints, fi as int);
            proof {
                lemma_live_upto_ok(sealed, hints, fi as int);
                lemma_lookup_at(sealed, fi as int);
                assert(sealed[fi as int] == self.previous_files@[fi as int]@);
            }
            let f = &self.previous_files[fi];
            match Self::find_hint(&self.hint_files, f.file_id) {
                Some(h) => {
                    if Self::check_hint_well_formed(&h.bytes) {
                        let ghost kd_in = kd@;
                        Self::apply_hint_into(&mut kd, h, f, Ghost(sealed), Ghost(m0));
                        proof {
                            assert(spec_live_upto(sealed, hints, fi as int + 1)
                                == spec_apply_hint(m0, spec_parse_hint(h@.bytes), f@.bytes));
                            assert(Self::spec_recover_keydir(sealed, hints, fi as int + 1)
                                == Self::spec_hint_keydir(kd_in, h@.bytes, 0, f@.bytes, f@.file_id));
                        }
                    } else {
                        let ghost kd_in = kd@;
                        Self::scan_file_into(&mut kd, f, Ghost(sealed), Ghost(m0));
                        proof {
                            assert(spec_live_upto(sealed, hints, fi as int + 1)
                                == spec_replay(m0, spec_parse(f@.bytes)));
                            assert(Self::spec_recover_keydir(sealed, hints, fi as int + 1)
                                == Self::spec_scan_keydir(kd_in, f@.bytes, 0, f@.file_id));
                        }
                    }
                },
                None => {
                    let ghost kd_in = kd@;
                    Self::scan_file_into(&mut kd, f, Ghost(sealed), Ghost(m0));
                    proof {
                        assert(spec_live_upto(sealed, hints, fi as int + 1)
                            == spec_replay(m0, spec_parse(f@.bytes)));
                        assert(Self::spec_recover_keydir(sealed, hints, fi as int + 1)
                            == Self::spec_scan_keydir(kd_in, f@.bytes, 0, f@.file_id));
                    }
                },
            }
            fi = fi + 1;
        }
        Ok(kd)
    }

    /// Opens the database: discovers the existing files — sealing the
    /// active file a prior run left behind, which is then fully scanned like
    /// any sealed file — rebuilds the keydir (recovery), and creates a fresh
    /// active file with the next identifier. The engine accepts no client
    /// call before this succeeds.
    pub fn open_db(&mut self) -> (r: Result<(), ByteHausError>)
        requires
            old(self).inv(),
            !old(self).spec_open(),
        ensures
            final(self).inv(),
            match r {
                Ok(()) => {
                    &&& final(self).spec_open()
                    &&& spec_hints_consistent(
                        old(self).spec_sealed_at_open(),
                        old(self).spec_hints(),
                    )
                    &&& final(self)@ == spec_abs(
                        spec_live_map(old(self).spec_sealed_at_open(), old(self).spec_hints()),
                    )
                    &&& final(self).spec_sealed() == old(self).spec_sealed_at_open()
                    &&& final(self).spec_hints() == old(self).spec_hints()
                    &&& final(self).spec_latest().bytes.len() == 0
                },
                Err(ByteHausError::ReconstructionFailed) => {
                    &&& !spec_hints_consistent(
                        old(self).spec_sealed_at_open(),
                        old(self).spec_hints(),
                    )
                    &&& *final(self) == *old(self)
                },
                Err(ByteHausError::DataFileCreateFailed) => {
                    &&& old(self).spec_sealed_at_open().len() > 0
                    &&& old(self).spec_sealed_at_open().last().file_id == u64::MAX
                    &&& *final(self) == *old(self)
                },
                Err(_) => false,
            },
    {
        let ghost sealed0 = self.spec_sealed();
        let ghost hints = self.spec_hints();
        let ghost sealed = self.spec_sealed_at_open();
        let has_active = self.latest_file.bytes.len() > 0;
        let n0 = self.previous_files.len();
        // the next identifier must exist, before anything is touched
        if has_active {
            if self.latest_file.file_id == u64::MAX {
                return Err(ByteHausError::DataFileCreateFailed);
            }
        } else {
            if n0 > 0 && self.previous_files[n0 - 1].file_id == u64::MAX {
                return Err(ByteHausError::DataFileCreateFailed);
            }
        }
        proof {
            if has_active {
                assert(sealed =~= sealed0.push(self.spec_latest()));
                assert(sealed.last() == self.spec_latest());
            }
        }
        // every hint file must name a data file that exists
        let mut hi: usize = 0;
        while hi < self.hint_files.len()
            invariant
                hi <= self.hint_files@.len(),
                self == old(self),
                old(self).inv(),
                !old(self).spec_open(),
                sealed0 == self.spec_sealed(),
                hints == self.spec_hints(),
                sealed == self.spec_sealed_at_open(),
                has_active == (self.spec_latest().bytes.len() > 0),
                forall|t: int| 0 <= t < hi
                    ==> spec_id_present(sealed, #[trigger] hints[t].file_id),
            decreases self.hint_files@.len() - hi,
        {
            let id = self.hint_files[hi].file_id;
            proof {
                assert(hints[hi as int].file_id == id);
            }
            let in_sealed = Self::data_file_id_present(&self.previous_files, id);
            let present = in_sealed || (has_active && self.latest_file.file_id == id);
            if !present {
                proof {
                    assert forall|j: int| 0 <= j < sealed.len()
                        implies #[trigger] sealed[j].file_id != id by {
                        if j < sealed0.len() {
                            assert(sealed[j] == sealed0[j]);
                        } else {
                            assert(sealed[j] == self.spec_latest());
                        }
                    }
                    assert(!spec_id_present(sealed, id));
                }
                return Err(ByteHausError::ReconstructionFailed);
            }
            proof {
                if in_sealed {
                    let j = choose|j: int|
                        0 <= j < sealed0.len() && #[trigger] sealed0[j].file_id == id;
                    assert(sealed[j].file_id == id);
                } else {
                    assert(sealed[sealed.len() - 1].file_id == id);
                }
            }
            hi = hi + 1;
        }
        proof {
            assert(spec_hints_consistent(sealed, hints));
        }
        // seal the active file left by a prior run: it is scanned like any
        // sealed file, never recovered from a hint
        if has_active {
            let mut sealed_file = DataFile { file_id: 0, bytes: Vec::new() };
            core::mem::swap(&mut sealed_file, &mut self.latest_file);
            self.previous_files.push(sealed_file);
            proof {
                assert(self.spec_sealed() =~= sealed);
            }
        }
        proof {
            assert(self.spec_sealed() == sealed);
            assert(self.spec_hints() == hints);
            assert(spec_ids_increasing(sealed)) by {
                if has_active {
                    assert(spec_ids_increasing(old(self).spec_files()));
                    assert(sealed =~= old(self).spec_files());
                }
            }
        }
        let n = self.previous_files.len();
        let fresh_id: u64 = if n == 0 {
            1
        } else {
            let last = self.previous_files[n - 1].file_id;
            proof {
                assert(sealed[n - 1].file_id == last);
                assert(last < u64::MAX);
            }
            last + 1
        };
        let kd = match self.reconstruct_from_hint_file() {
            Ok(kd) => kd,
            Err(_) => {
                proof {
                    assert(false);
                }
                return Err(ByteHausError::ReconstructionFailed);
            },
        };
        self.keydir = kd;
        self.latest_file = DataFile { file_id: fresh_id, bytes: Vec::new() };
        self.current_file_size_bytes = 0;
        self.opened = true;
        proof {
            self.active_log = Ghost(Seq::empty());
        }
        proof {
            let files = self.spec_files();
            let m = spec_live_map(sealed, hints);
            assert(self.spec_sealed() == sealed);
            assert(self.spec_hints() == hints);
            assert(files =~= sealed.push(self.spec_latest()));
            let nn = sealed.len() as int;
            // fresh identifier exceeds every sealed identifier
            assert forall|i: int| 0 <= i < nn
                implies #[trigger] sealed[i].file_id < fresh_id by {
                assert(sealed[i].file_id <= sealed[nn - 1].file_id);
            }
            assert forall|i: int, j: int|
                0 <= i < j < files.len()
                implies #[trigger] files[i].file_id < #[trigger] files[j].file_id by {
                if j < nn {
                    assert(files[i] == sealed[i]);
                    assert(files[j] == sealed[j]);
                } else {
                    assert(files[i] == sealed[i]);
                }
            }
            // the fresh, empty active file contributes nothing
            assert forall|i: int| 0 <= i < hints.len()
                implies #[trigger] hints[i].file_id != fresh_id by {
                assert(spec_id_present(sealed, hints[i].file_id));
                let j = choose|j: int|
                    0 <= j < sealed.len() && #[trigger] sealed[j].file_id == hints[i].file_id;
            }
            lemma_hint_for_absent(hints, fresh_id);
            lemma_live_upto_prefix(files, sealed, hints, nn);
            assert(self.spec_latest().bytes =~= Seq::<u8>::empty());
            assert(!spec_complete_at(self.spec_latest().bytes));
            assert(spec_parse(self.spec_latest().bytes) == Seq::<SpecRecord>::empty());
            assert(self.byte_map() == spec_file_contrib(
                spec_live_upto(files, hints, nn),
                files[nn],
                hints,
            ));
            assert(self.byte_map() == m);
            // keydir entries still resolve in the larger file list
            assert forall|i: int| 0 <= i < sealed.len()
                implies #[trigger] sealed[i].file_id != fresh_id by {}
            lemma_lookup_push(sealed, self.spec_latest());
            lemma_live_upto_ok(sealed, hints, nn);
            assert forall|k2: Seq<char>| #[trigger] self.keydir@.contains_key(k2)
                implies spec_keydir_entry_ok(self.keydir@[k2], encode_utf8(k2), m, files) by {
                let e = self.keydir@[k2];
                assert(spec_keydir_entry_ok(e, encode_utf8(k2), m, sealed));
                if e.file_id == fresh_id {
                    lemma_lookup_absent(sealed, fresh_id);
                    assert(false);
                }
                assert(spec_lookup(sealed.push(self.spec_latest()), e.file_id)
                    == spec_lookup(sealed, e.file_id));
                assert(files == sealed.push(self.spec_latest()));
            }
            assert(spec_keydir_matches(self.keydir@, self.byte_map(), files));
            assert(self.spec_latest().bytes =~= spec_encode_all(Seq::<SpecRecord>::empty()));
            assert(self@ == spec_abs(m));
        }
        Ok(())
    }

    /// Runs one compaction unit to completion: merges every sealed file into
    /// a single compacted file plus its hint file, swaps them into the file
    /// list, and repoints the keydir — all without changing the live
    /// mapping. (Threads are outside this library; a host program may call
    /// this from a background worker of its own.)
    pub fn launch_compactor(&mut self) -> (r: Result<(), ByteHausError>)
        requires
            old(self).inv(),
            old(self).spec_open(),
        ensures
            final(self).inv(),
            final(self).spec_open(),
            final(self)@ == old(self)@,
            r is Ok,
            old(self).spec_sealed_count() >= 2 ==> final(self).spec_sealed_count() == 1,
            old(self).spec_sealed_count() < 2 ==> *final(self) == *old(self),
    {
        let n = self.previous_files.len();
        if n < 2 {
            return Ok(());
        }
        let ghost old_sealed = self.spec_sealed();
        let ghost old_hints = self.spec_hints();
        let ghost old_files = self.spec_files();
        let ghost old_map = self.byte_map();
        let ghost log = self.active_log@;
        let ghost m = spec_live_map(old_sealed, old_hints);
        proof {
            self.lemma_byte_map_unfold();
            lemma_live_upto_prefix(old_files, old_sealed, old_hints, n as int);
            assert(old_map == spec_replay(m, log));
            assert(spec_ids_increasing(old_sealed)) by {
                assert forall|i: int, j: int|
                    0 <= i < j < old_sealed.len()
                    implies #[trigger] old_sealed[i].file_id
                        < #[trigger] old_sealed[j].file_id by {
                    assert(old_files[i].file_id < old_files[j].file_id);
                }
            }
        }
        let out_id = self.previous_files[n - 1].file_id;
        let merged = crate::compactor::Compactor::merge_files(
            &self.previous_files,
            &self.hint_files,
            out_id,
        );
        let (mf, hf) = match merged {
            Ok(p) => p,
            Err(_) => {
                proof {
                    assert(false);
                }
                return Err(ByteHausError::CompactorLaunchFailed);
            },
        };
        proof {
            assert(spec_replay(Map::<Seq<u8>, Seq<u8>>::empty(), spec_parse(mf@.bytes)) == m);
            assert(spec_apply_hint(
                Map::<Seq<u8>, Seq<u8>>::empty(),
                spec_parse_hint(hf@.bytes),
                mf@.bytes,
            ) == m);
        }
        let mut new_prev: Vec<DataFile> = Vec::new();
        new_prev.push(mf);
        let mut new_hints: Vec<HintFile> = Vec::new();
        new_hints.push(hf);
        self.previous_files = new_prev;
        self.hint_files = new_hints;
        let ghost sealed2 = self.spec_sealed();
        let ghost hints2 = self.spec_hints();
        proof {
            assert(sealed2.len() == 1);
            assert(sealed2[0].file_id == out_id);
            assert(hints2.len() == 1);
            assert(hints2[0].file_id == out_id);
            assert(spec_ids_increasing(sealed2));
        }
        let kd = match self.reconstruct_from_hint_file() {
            Ok(kd) => kd,
            Err(_) => {
                proof {
                    assert(spec_id_present(sealed2, hints2[0].file_id));
                    assert forall|i: int| 0 <= i < hints2.len()
                        implies spec_id_present(sealed2, #[trigger] hints2[i].file_id) by {}
                    assert(false);
                }
                return Err(ByteHausError::CompactorLaunchFailed);
            },
        };
        let ghost m2 = spec_live_map(sealed2, hints2);
        let ghost active = self.spec_latest();
        let ghost files2 = self.spec_files();
        proof {
            // the merged file's contribution, through its hint, is the old
            // sealed files' combined live state
            assert(spec_hint_for(hints2, out_id) == Some(hints2[0].bytes)) by {
                assert(hints2[0].file_id == out_id);
            }
            assert(m2 == spec_file_contrib(
                spec_live_upto(sealed2, hints2, 0),
                sealed2[0],
                hints2,
            ));
            assert(spec_live_upto(sealed2, hints2, 0) == Map::<Seq<u8>, Seq<u8>>::empty());
            assert(m2 == m);
            // identifiers: merged file sits below the active file
            assert(old_sealed[n - 1].file_id < old_files[n as int].file_id);
            assert(active.file_id > out_id);
            assert(files2 =~= sealed2.push(active));
            assert forall|i: int, j: int|
                0 <= i < j < files2.len()
                implies #[trigger] files2[i].file_id < #[trigger] files2[j].file_id by {}
            // lift the rebuilt keydir's entries to the full file list
            assert(spec_keydir_matches(kd@, m2, sealed2));
            assert forall|i: int| 0 <= i < sealed2.len()
                implies #[trigger] sealed2[i].file_id != active.file_id by {}
            lemma_lookup_push(sealed2, active);
            lemma_live_upto_ok(sealed2, hints2, 1);
        }
        let ghost kdm = kd@;
        proof {
            assert forall|k2: Seq<char>| #[trigger] kdm.contains_key(k2)
                implies spec_keydir_entry_ok(kdm[k2], encode_utf8(k2), m2, files2) by {
                let e = kdm[k2];
                assert(spec_keydir_entry_ok(e, encode_utf8(k2), m2, sealed2));
                if e.file_id == active.file_id {
                    lemma_lookup_absent(sealed2, active.file_id);
                    assert(false);
                }
                assert(spec_lookup(sealed2.push(active), e.file_id)
                    == spec_lookup(sealed2, e.file_id));
                assert(files2 == sealed2.push(active));
            }
            assert(spec_keydir_matches(kdm, m2, files2));
        }
        let mut kd = kd;
        proof {
            lemma_lookup_at(files2, 1);
            assert(files2[1] == active);
            assert(spec_lookup(files2, active.file_id) == Some(active.bytes));
        }
        Self::scan_file_into(&mut kd, &self.latest_file, Ghost(files2), Ghost(m2));
        self.keydir = kd;
        proof {
            // the overall live map is unchanged
            assert(self.spec_files() == files2);
            assert(self.spec_hints() == hints2);
            assert forall|i: int| 0 <= i < hints2.len()
                implies #[trigger] hints2[i].file_id != active.file_id by {}
            lemma_hint_for_absent(hints2, active.file_id);
            lemma_live_upto_prefix(files2, sealed2, hints2, 1);
            assert(spec_live_upto(files2, hints2, 1) == m2);
            assert(self.byte_map() == spec_file_contrib(m2, active, hints2));
            assert(self.byte_map() == spec_replay(m2, spec_parse(active.bytes)));
            lemma_parse_exact(log);
            assert(spec_parse(active.bytes) == log);
            assert(self.byte_map() == old_map);
            assert(spec_keydir_matches(self.keydir@, self.byte_map(), files2));
            // hints name sealed files
            assert forall|i: int| 0 <= i < hints2.len()
                implies spec_id_present(sealed2, #[trigger] hints2[i].file_id) by {
                assert(sealed2[0].file_id == hints2[i].file_id);
            }
        }
        Ok(())
    }
}

} // verus!
