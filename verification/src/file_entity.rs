//! The identity and the indexed form of one file or directory.

use crate::file_entry::FileEntry;
use vstd::prelude::*;

verus! {

/// Bit of a record's header flags that marks a directory.
pub const DIRECTORY_FLAG: u16 = 0x02;

/// Whether an identity names a directory or an ordinary file.  The kind is
/// part of the identity: directories and files share one record-number
/// space and must never collide in the index.
#[derive(Copy, Clone, Debug, Eq, PartialEq, PartialOrd, Ord, Hash, Structural)]
pub enum FileType {
    DIRECTORY,
    FILE,
}

/// The identity of one file or directory: its record number and its kind.
#[derive(Copy, Clone, Debug, Eq, PartialEq, PartialOrd, Ord, Hash, Structural)]
pub struct FileId {
    pub id: u32,
    pub f_type: FileType,
}

impl FileId {
    /// The identity of the file with record number `id`.
    pub fn file(id: u32) -> (r: FileId)
        ensures
            r == (FileId { id, f_type: FileType::FILE }),
    {
        FileId { id, f_type: FileType::FILE }
    }

    /// The identity of the directory with record number `id`.
    pub fn directory(id: u32) -> (r: FileId)
        ensures
            r == (FileId { id, f_type: FileType::DIRECTORY }),
    {
        FileId { id, f_type: FileType::DIRECTORY }
    }

    /// The record number of this identity.
    pub fn id(self) -> (r: u32)
        ensures
            r == self.id,
    {
        self.id
    }

    /// The kind of this identity.
    pub fn f_type(self) -> (r: FileType)
        ensures
            r == self.f_type,
    {
        self.f_type
    }
}

/// One indexed file or directory: its identity, the identity of the
/// directory holding it, its display name, size and flags.
#[derive(Debug, PartialEq)]
pub struct FileEntity {
    name: String,
    parent_id: FileId,
    size: i64,
    id: FileId,
    flags: u16,
}

/// Mathematical image of a `FileEntity`.
pub struct FileEntityView {
    pub name: Seq<char>,
    pub parent_id: FileId,
    pub size: i64,
    pub id: FileId,
    pub flags: u16,
}

impl View for FileEntity {
    type V = FileEntityView;

    closed spec fn view(&self) -> FileEntityView {
        FileEntityView {
            name: self.name@,
            parent_id: self.parent_id,
            size: self.size,
            id: self.id,
            flags: self.flags,
        }
    }
}

impl Clone for FileEntity {
    /// An exact copy of the entity.
    fn clone(&self) -> (r: Self)
        ensures
            r@ == self@,
    {
        FileEntity {
            name: self.name.clone(),
            parent_id: self.parent_id,
            size: self.size,
            id: self.id,
            flags: self.flags,
        }
    }
}

impl FileEntity {
    /// Builds an entity from plain values.
    pub fn new(id: FileId, parent_id: FileId, name: String, size: i64, flags: u16) -> (r:
        FileEntity)
        ensures
            r@ == (FileEntityView { name: name@, parent_id, size, id, flags }),
    {
        FileEntity { name, parent_id, size, id, flags }
    }

    /// The entity that a decoded file record denotes: a directory identity
    /// where the record's directory flag is set, under the directory named
    /// by the record's naming attribute.  A record without a display name
    /// denotes no entity.
    pub fn from_entry(entry: &FileEntry) -> (r: Option<FileEntity>)
        ensures
            match r {
                Some(e) => entry@.name.len() > 0 && e@ == (FileEntityView {
                    name: entry@.name,
                    parent_id: FileId {
                        id: entry@.parent_id as u32,
                        f_type: FileType::DIRECTORY,
                    },
                    size: entry@.real_size as i64,
                    id: FileId {
                        id: entry@.id,
                        f_type: if entry@.flags & DIRECTORY_FLAG != 0 {
                            FileType::DIRECTORY
                        } else {
                            FileType::FILE
                        },
                    },
                    flags: entry@.flags,
                }),
                None => entry@.name.len() == 0,
            },
    {
        if entry.name.as_str().is_empty() {
            return None;
        }
        let id = if entry.flags & DIRECTORY_FLAG != 0 {
            FileId::directory(entry.id)
        } else {
            FileId::file(entry.id)
        };
        Some(
            FileEntity {
                name: entry.name.clone(),
                parent_id: FileId::directory(#[verifier::truncate] (entry.parent_id as u32)),
                size: #[verifier::truncate] (entry.real_size as i64),
                id,
                flags: entry.flags,
            },
        )
    }

    /// The identity of this entity.
    pub fn id(&self) -> (r: FileId)
        ensures
            r == self@.id,
    {
        self.id
    }

    /// The identity of the directory holding this entity.
    pub fn parent_id(&self) -> (r: FileId)
        ensures
            r == self@.parent_id,
    {
        self.parent_id
    }

    /// The display name of this entity.
    pub fn name(&self) -> (r: &str)
        ensures
            r@ == self@.name,
    {
        self.name.as_str()
    }

    /// The size in bytes of this entity.
    pub fn size(&self) -> (r: i64)
        ensures
            r == self@.size,
    {
        self.size
    }

    /// The record-header flags of this entity.
    pub fn flags(&self) -> (r: u16)
        ensures
            r == self@.flags,
    {
        self.flags
    }
}

} // verus!
