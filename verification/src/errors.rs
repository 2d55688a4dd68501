//! The error kinds the engine reports.

use vstd::prelude::*;

verus! {

/// Everything that can go wrong in the storage engine.
#[derive(Clone, Copy, Debug, PartialEq, Eq, Structural)]
pub enum ByteHausError {
    /// Writing to the disk failed, or the engine is closed.
    DiskWriteFailed,
    /// The keydir could not be reconstructed from the files on disk.
    ReconstructionFailed,
    /// The keydir could not be updated.
    KeyDirUpdateFailed,
    /// A data file could not be opened.
    DataFileOpenFailed,
    /// A data file could not be created.
    DataFileCreateFailed,
    /// A data file could not be written.
    DataFileWriteFailed,
    /// The compactor could not be launched.
    CompactorLaunchFailed,
    /// Two data files could not be merged.
    DataFileMergeFailed,
    /// A hint file could not be created.
    HintFileCreationFailed,
    /// `delete` was called for a key that does not exist.
    DeleteKeyMissing,
    /// A record's checksum did not match its bytes.
    CorruptRecord,
    /// A record was cut short before its declared end.
    TruncatedError,
}

impl ByteHausError {
    /// A human-readable description of the error.
    pub fn message(&self) -> (m: &'static str)
    {
        match self {
            ByteHausError::DiskWriteFailed => "writing to the disk failed",
            ByteHausError::ReconstructionFailed => "could not reconstruct the keydir",
            ByteHausError::KeyDirUpdateFailed => "could not update the keydir",
            ByteHausError::DataFileOpenFailed => "could not open the data file",
            ByteHausError::DataFileCreateFailed => "could not create the data file",
            ByteHausError::DataFileWriteFailed => "could not write to the data file",
            ByteHausError::CompactorLaunchFailed => "could not launch the compactor",
            ByteHausError::DataFileMergeFailed => "could not merge two data files",
            ByteHausError::HintFileCreationFailed => "could not create the hint file",
            ByteHausError::DeleteKeyMissing => "key does not exist",
            ByteHausError::CorruptRecord => "record checksum mismatch",
            ByteHausError::TruncatedError => "record cut short",
        }
    }
}

} // verus!
