//! In-memory index of the files on an NTFS volume.
//!
//! The crate decodes the volume's own metadata structures (file records,
//! attribute streams, compressed extent lists) into typed values, keeps every
//! file and directory in a queryable in-memory index, and consumes the
//! volume's change journal to keep that index current.  All platform I/O is
//! left to the surrounding application; the functions here work on plain byte
//! buffers and values.

pub mod actions;
pub mod attributes;
pub mod bytes;
pub mod errors;
pub mod file_entity;
pub mod file_entry;
pub mod file_record;
pub mod files;
pub mod volume;
pub mod scanner;
pub mod settings;
pub mod text;
pub mod updater;
pub mod usn;

use vstd::prelude::*;

verus! {

} // verus!
