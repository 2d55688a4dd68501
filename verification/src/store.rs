//! The on-disk pieces of the store as held in memory: data files and hint
//! files, each an identifier plus a byte image, and the positioned read used
//! by the read path.

use vstd::prelude::*;
use crate::model::FileModel;

verus! {

/// One data file: an append-only byte image identified by a monotonically
/// increasing number.
pub struct DataFile {
    pub file_id: u64,
    pub bytes: Vec<u8>,
}

impl View for DataFile {
    type V = FileModel;

    open spec fn view(&self) -> FileModel {
        FileModel { file_id: self.file_id, bytes: self.bytes@ }
    }
}

/// The compact, value-free index paired with one sealed data file.
pub struct HintFile {
    pub file_id: u64,
    pub bytes: Vec<u8>,
}

impl View for HintFile {
    type V = FileModel;

    open spec fn view(&self) -> FileModel {
        FileModel { file_id: self.file_id, bytes: self.bytes@ }
    }
}

/// The models of a sequence of data files.
pub open spec fn file_models(files: Seq<DataFile>) -> Seq<FileModel> {
    files.map_values(|f: DataFile| f@)
}

/// The models of a sequence of hint files.
pub open spec fn hint_models(hints: Seq<HintFile>) -> Seq<FileModel> {
    hints.map_values(|h: HintFile| h@)
}

pub broadcast proof fn lemma_file_models_len(files: Seq<DataFile>)
    ensures
        (#[trigger] file_models(files)).len() == files.len(),
{
}

pub broadcast proof fn lemma_file_models_index(files: Seq<DataFile>, i: int)
    requires
        0 <= i < files.len(),
    ensures
        #[trigger] file_models(files)[i] == files[i]@,
{
}

pub broadcast proof fn lemma_hint_models_len(hints: Seq<HintFile>)
    ensures
        (#[trigger] hint_models(hints)).len() == hints.len(),
{
}

pub broadcast proof fn lemma_hint_models_index(hints: Seq<HintFile>, i: int)
    requires
        0 <= i < hints.len(),
    ensures
        #[trigger] hint_models(hints)[i] == hints[i]@,
{
}

/// A byte-for-byte copy of a byte image.
pub fn copy_bytes(v: &Vec<u8>) -> (out: Vec<u8>)
    ensures
        out@ == v@,
{
    let mut out: Vec<u8> = Vec::new();
    let mut i: usize = 0;
    while i < v.len()
        invariant
            i <= v@.len(),
            out@ == v@.subrange(0, i as int),
        decreases v@.len() - i,
    {
        out.push(v[i]);
        proof {
            assert(v@.subrange(0, i + 1) =~= v@.subrange(0, i as int).push(v@[i as int]));
        }
        i = i + 1;
    }
    proof {
        assert(v@.subrange(0, v@.len() as int) =~= v@);
    }
    out
}

/// A positioned read of `size` bytes at `pos`; it does not perturb any
/// append position.
pub fn read_at(f: &DataFile, pos: usize, size: usize) -> (out: Vec<u8>)
    requires
        pos + size <= f.bytes@.len(),
    ensures
        out@ == f.bytes@.subrange(pos as int, pos + size),
{
    let mut out: Vec<u8> = Vec::new();
    proof {
        assert(f.bytes@.subrange(pos as int, pos as int) =~= Seq::<u8>::empty());
    }
    let flen = f.bytes.len();
    let mut i: usize = 0;
    while i < size
        invariant
            i <= size,
            pos + size <= flen,
            flen == f.bytes@.len(),
            out@ == f.bytes@.subrange(pos as int, pos + i),
        decreases size - i,
    {
        out.push(f.bytes[pos + i]);
        proof {
            assert(f.bytes@.subrange(pos as int, pos + i + 1)
                =~= f.bytes@.subrange(pos as int, pos + i).push(f.bytes@[pos + i]));
        }
        i = i + 1;
    }
    out
}

} // verus!
