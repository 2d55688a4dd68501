//! ByteHaus: a log-structured key-value storage engine in the Bitcask style.
//!
//! All writes are appended to an immutable log of data files; an in-memory
//! index (the keydir) maps each live key to the location of its newest value.
//! The store is modelled as a set of in-memory data files; persisting those
//! byte images to disk is left to the (unverified) host program.

use vstd::prelude::*;

pub mod codec;
pub mod compactor;
pub mod engine;
pub mod errors;
pub mod ext;
pub mod keydir;
pub mod laws;
pub mod model;
pub mod store;

verus! {

} // verus!
