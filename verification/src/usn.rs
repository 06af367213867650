//! Decoding the volume's change journal: fixed-plus-variable-length change
//! records, read sequentially from a raw journal buffer.

use crate::bytes::as_signed_64;
use crate::bytes::le_value;
use crate::bytes::lemma_le_value_bound;
use crate::bytes::lemma_pow256_u64;
use crate::bytes::read_le;
use crate::bytes::read_le_i64;
use crate::errors::ErrorKind;
use crate::file_entity::FileEntity;
use crate::file_entity::FileEntityView;
use crate::file_entity::FileId;
use crate::file_entity::FileType;
use crate::text::collect_utf16_units;
use crate::text::utf16_chars;
use crate::text::utf16_to_string;
use crate::text::utf16_units;
use crate::text::utf16_valid;
use vstd::prelude::*;

verus! {

/// Reason bit: a file or directory was created.
pub const REASON_FILE_CREATE: u32 = 0x100;

/// Reason bit: a file or directory was deleted.
pub const REASON_FILE_DELETE: u32 = 0x200;

/// Reason bit: a rename or move gave the record its new name.
pub const REASON_RENAME_NEW_NAME: u32 = 0x2000;

/// Reason bit: basic information (flags, dates) changed.
pub const REASON_BASIC_INFO_CHANGE: u32 = 0x8000;

/// Reason bit: a hard link was added or removed.
pub const REASON_HARD_LINK_CHANGE: u32 = 0x1_0000;

/// Reason bit: file data was overwritten.
pub const REASON_DATA_OVERWRITE: u32 = 0x01;

/// Reason bit: file data was appended.
pub const REASON_DATA_EXTEND: u32 = 0x02;

/// Reason bit: file data was truncated.
pub const REASON_DATA_TRUNCATION: u32 = 0x04;

/// Flag bit of a record's header flags that marks a directory.
pub const USN_DIRECTORY_FLAG: u32 = 0x02;

/// One decoded change-journal record.
#[derive(Debug, PartialEq)]
pub struct UsnRecord {
    pub length: usize,
    pub fr_number: u64,
    pub mft_id: u32,
    pub parent_id: u64,
    pub usn: i64,
    pub timestamp: i64,
    pub reason: u32,
    pub flags: u32,
    pub name: String,
}

/// Mathematical image of a `UsnRecord`.
pub struct UsnRecordView {
    pub length: usize,
    pub fr_number: u64,
    pub mft_id: u32,
    pub parent_id: u64,
    pub usn: i64,
    pub timestamp: i64,
    pub reason: u32,
    pub flags: u32,
    pub name: Seq<char>,
}

impl View for UsnRecord {
    type V = UsnRecordView;

    open spec fn view(&self) -> UsnRecordView {
        UsnRecordView {
            length: self.length,
            fr_number: self.fr_number,
            mft_id: self.mft_id,
            parent_id: self.parent_id,
            usn: self.usn,
            timestamp: self.timestamp,
            reason: self.reason,
            flags: self.flags,
            name: self.name@,
        }
    }
}

impl Default for UsnRecord {
    /// A record with every field zero and an empty name.
    fn default() -> (r: UsnRecord)
        ensures
            r@ == (UsnRecordView {
                length: 0,
                fr_number: 0,
                mft_id: 0,
                parent_id: 0,
                usn: 0,
                timestamp: 0,
                reason: 0,
                flags: 0,
                name: Seq::<char>::empty(),
            }),
    {
        UsnRecord {
            length: 0,
            fr_number: 0,
            mft_id: 0,
            parent_id: 0,
            usn: 0,
            timestamp: 0,
            reason: 0,
            flags: 0,
            name: String::new(),
        }
    }
}

/// The record at the front of a journal buffer, or `None` where the
/// buffer is too short, the declared record length is impossible, the
/// name does not fit inside the record, or the name is not well-formed
/// UTF-16.
pub open spec fn parse_usn_record(s: Seq<u8>) -> Option<UsnRecordView> {
    if s.len() < 60 {
        None
    } else {
        let length = le_value(s.subrange(0, 4));
        if length < 60 || length > s.len() {
            None
        } else {
            let name_len = le_value(s.subrange(56, 58));
            let name_off = le_value(s.subrange(58, 60));
            if name_off + name_len > length {
                None
            } else {
                let units = utf16_units(
                    s.subrange(name_off as int, name_off as int + name_len as int),
                );
                if !utf16_valid(units) {
                    None
                } else {
                    Some(
                        UsnRecordView {
                            length: length as usize,
                            fr_number: le_value(s.subrange(8, 16)) as u64,
                            mft_id: (le_value(s.subrange(8, 16)) as u64) as u32,
                            parent_id: le_value(s.subrange(16, 24)) as u64,
                            usn: as_signed_64(le_value(s.subrange(24, 32))) as i64,
                            timestamp: as_signed_64(le_value(s.subrange(32, 40))) as i64,
                            reason: le_value(s.subrange(40, 44)) as u32,
                            flags: le_value(s.subrange(52, 56)) as u32,
                            name: utf16_chars(units),
                        },
                    )
                }
            }
        }
    }
}

impl UsnRecord {
    /// Decodes the change record at the front of a journal buffer.
    pub fn new(input: &[u8]) -> (r: Result<UsnRecord, ErrorKind>)
        ensures
            match r {
                Ok(rec) => parse_usn_record(input@) == Some(rec@),
                Err(e) => parse_usn_record(input@) is None && e == ErrorKind::MalformedRecord,
            },
    {
        let n: usize = input.len();
        if n < 60 {
            return Err(ErrorKind::MalformedRecord);
        }
        proof {
            lemma_le_value_bound(input@.subrange(0, 4));
            lemma_le_value_bound(input@.subrange(56, 58));
            lemma_le_value_bound(input@.subrange(58, 60));
            lemma_le_value_bound(input@.subrange(40, 44));
            lemma_le_value_bound(input@.subrange(52, 56));
            lemma_pow256_u64();
        }
        let length = read_le(input, 0, 4) as usize;
        if length < 60 || length > n {
            return Err(ErrorKind::MalformedRecord);
        }
        let name_len = read_le(input, 56, 2) as usize;
        let name_off = read_le(input, 58, 2) as usize;
        if name_off + name_len > length {
            return Err(ErrorKind::MalformedRecord);
        }
        let units = collect_utf16_units(&input[name_off..name_off + name_len]);
        proof {
            assert(input@.subrange(name_off as int, name_off as int + name_len as int)
                =~= input@.subrange(
                le_value(input@.subrange(58, 60)) as int,
                le_value(input@.subrange(58, 60)) as int + le_value(
                    input@.subrange(56, 58),
                ) as int,
            ));
        }
        let name = match utf16_to_string(&units) {
            Some(name) => name,
            None => {
                return Err(ErrorKind::MalformedRecord);
            },
        };
        let fr_number = read_le(input, 8, 8);
        Ok(
            UsnRecord {
                length,
                fr_number,
                mft_id: #[verifier::truncate] (fr_number as u32),
                parent_id: read_le(input, 16, 8),
                usn: read_le_i64(input, 24),
                timestamp: read_le_i64(input, 32),
                reason: read_le(input, 40, 4) as u32,
                flags: read_le(input, 52, 4) as u32,
                name,
            },
        )
    }

    /// Whether this record speaks of a directory.
    pub fn is_dir(&self) -> (r: bool)
        ensures
            r == (self@.flags & USN_DIRECTORY_FLAG != 0),
    {
        self.flags & USN_DIRECTORY_FLAG != 0
    }

    /// Pairs this record with the freshly re-fetched entity of its
    /// identity, mapping the reason flags to an index operation: deletion
    /// reasons remove, creation and hard-link reasons insert, rename and
    /// content reasons update; anything else is ignored.
    pub fn into_change(self, entity: FileEntity) -> (r: UsnChange)
        ensures
            r@ == change_of(self@, entity@),
    {
        if self.reason & REASON_FILE_DELETE != 0 {
            let id = if self.is_dir() {
                FileId::directory(self.mft_id)
            } else {
                FileId::file(self.mft_id)
            };
            UsnChange::Delete(id)
        } else if self.reason & (REASON_FILE_CREATE | REASON_HARD_LINK_CHANGE) != 0 {
            UsnChange::New(entity)
        } else if self.reason & (REASON_RENAME_NEW_NAME | REASON_BASIC_INFO_CHANGE
            | REASON_DATA_OVERWRITE | REASON_DATA_EXTEND | REASON_DATA_TRUNCATION) != 0 {
            UsnChange::Update(entity)
        } else {
            UsnChange::Ignore
        }
    }
}

/// The identity a change record speaks of.
pub open spec fn usn_file_id(rec: UsnRecordView) -> FileId {
    FileId {
        id: rec.mft_id,
        f_type: if rec.flags & USN_DIRECTORY_FLAG != 0 {
            FileType::DIRECTORY
        } else {
            FileType::FILE
        },
    }
}

impl From<UsnRecord> for FileId {
    /// The identity that a change record speaks of.
    fn from(record: UsnRecord) -> (r: Self) {
        if record.is_dir() {
            FileId::directory(record.mft_id)
        } else {
            FileId::file(record.mft_id)
        }
    }
}

impl vstd::std_specs::convert::FromSpecImpl<UsnRecord> for FileId {
    open spec fn obeys_from_spec() -> bool {
        true
    }

    open spec fn from_spec(record: UsnRecord) -> FileId {
        usn_file_id(record@)
    }
}

/// One change to apply to the index, paired with the authoritative entity
/// re-read from the volume where one is needed.
#[derive(Debug)]
pub enum UsnChange {
    New(FileEntity),
    Update(FileEntity),
    Delete(FileId),
    Ignore,
}

/// Mathematical image of a `UsnChange`.
pub enum UsnChangeView {
    New(FileEntityView),
    Update(FileEntityView),
    Delete(FileId),
    Ignore,
}

impl View for UsnChange {
    type V = UsnChangeView;

    open spec fn view(&self) -> UsnChangeView {
        match self {
            UsnChange::New(e) => UsnChangeView::New(e@),
            UsnChange::Update(e) => UsnChangeView::Update(e@),
            UsnChange::Delete(id) => UsnChangeView::Delete(*id),
            UsnChange::Ignore => UsnChangeView::Ignore,
        }
    }
}

/// The index operation that a change record and its re-fetched entity
/// denote.
pub open spec fn change_of(rec: UsnRecordView, e: FileEntityView) -> UsnChangeView {
    if rec.reason & REASON_FILE_DELETE != 0 {
        UsnChangeView::Delete(usn_file_id(rec))
    } else if rec.reason & (REASON_FILE_CREATE | REASON_HARD_LINK_CHANGE) != 0 {
        UsnChangeView::New(e)
    } else if rec.reason & (REASON_RENAME_NEW_NAME | REASON_BASIC_INFO_CHANGE
        | REASON_DATA_OVERWRITE | REASON_DATA_EXTEND | REASON_DATA_TRUNCATION) != 0 {
        UsnChangeView::Update(e)
    } else {
        UsnChangeView::Ignore
    }
}

/// A resumption point into the change journal: advanced only after a
/// whole decoded batch has been applied to the index, never
/// speculatively.
#[derive(Clone, Copy, Debug, PartialEq, Eq, Structural)]
pub struct JournalCursor {
    pub usn_journal_id: u64,
    pub next_usn: i64,
}

impl JournalCursor {
    /// A cursor at the given position of the given journal.
    pub fn new(usn_journal_id: u64, next_usn: i64) -> (r: JournalCursor)
        ensures
            r == (JournalCursor { usn_journal_id, next_usn }),
    {
        JournalCursor { usn_journal_id, next_usn }
    }

    /// Moves the cursor to the position a fully decoded batch reported.
    pub fn advance(&mut self, next_usn: i64)
        ensures
            *final(self) == (JournalCursor { usn_journal_id: old(self).usn_journal_id, next_usn }),
    {
        self.next_usn = next_usn;
    }
}

/// The records of a journal buffer, or `None` where one of them is
/// malformed.
pub open spec fn parse_usn_records(s: Seq<u8>) -> Option<Seq<UsnRecordView>>
    decreases s.len(),
{
    if s.len() == 0 {
        Some(Seq::empty())
    } else {
        match parse_usn_record(s) {
            None => None,
            Some(rec) => if rec.length < 60 {
                None
            } else {
                match parse_usn_records(s.skip(rec.length as int)) {
                    None => None,
                    Some(rest) => Some(seq![rec] + rest),
                }
            },
        }
    }
}

/// What a whole journal read denotes: the position to resume from, then
/// the change records, packed one after the other until the buffer ends.
pub open spec fn parse_usn_batch(s: Seq<u8>) -> Option<(i64, Seq<UsnRecordView>)> {
    if s.len() < 8 {
        None
    } else {
        match parse_usn_records(s.skip(8)) {
            None => None,
            Some(recs) => Some((as_signed_64(le_value(s.subrange(0, 8))) as i64, recs)),
        }
    }
}

/// Decodes one raw journal read: the next position to resume from,
/// followed by every change record in the buffer.
pub fn decode_journal_page(input: &[u8]) -> (r: Result<(i64, Vec<UsnRecord>), ErrorKind>)
    ensures
        match r {
            Ok(batch) => parse_usn_batch(input@) matches Some(b) && b.0 == batch.0 && b.1
                == batch.1@.map_values(|rec: UsnRecord| rec@),
            Err(e) => parse_usn_batch(input@) is None && e == ErrorKind::MalformedRecord,
        },
{
    let n: usize = input.len();
    if n < 8 {
        return Err(ErrorKind::MalformedRecord);
    }
    let next_usn = read_le_i64(input, 0);
    let mut records: Vec<UsnRecord> = Vec::new();
    let mut offset: usize = 8;
    proof {
        match parse_usn_records(input@.skip(8)) {
            Some(rest) => {
                assert(records@.map_values(|rec: UsnRecord| rec@) + rest =~= rest);
            },
            None => {},
        }
    }
    while offset < n
        invariant
            n == input@.len(),
            8 <= offset <= n,
            match parse_usn_records(input@.skip(offset as int)) {
                Some(rest) => parse_usn_records(input@.skip(8)) == Some(
                    records@.map_values(|rec: UsnRecord| rec@) + rest,
                ),
                None => parse_usn_records(input@.skip(8)) is None,
            },
        decreases n - offset,
    {
        let ghost tail = input@.skip(offset as int);
        let rec = match UsnRecord::new(&input[offset..n]) {
            Ok(rec) => rec,
            Err(e) => {
                proof {
                    assert(input@.subrange(offset as int, n as int) =~= tail);
                }
                return Err(e);
            },
        };
        proof {
            assert(input@.subrange(offset as int, n as int) =~= tail);
        }
        let length = rec.length;
        let ghost old_records = records@;
        records.push(rec);
        proof {
            assert(tail.skip(length as int) =~= input@.skip(offset as int + length as int));
            match parse_usn_records(tail.skip(length as int)) {
                Some(rest) => {
                    let rv = records@[records@.len() - 1]@;
                    assert(old_records.map_values(|r2: UsnRecord| r2@) + (seq![rv] + rest)
                        =~= records@.map_values(|r2: UsnRecord| r2@) + rest);
                },
                None => {},
            }
        }
        offset = offset + length;
    }
    proof {
        assert(input@.skip(offset as int).len() == 0);
        assert(parse_usn_records(input@.skip(offset as int)) == Some(Seq::<UsnRecordView>::empty()));
        match parse_usn_records(input@.skip(8)) {
            Some(rest) => {
                assert(records@.map_values(|rec: UsnRecord| rec@) + Seq::<UsnRecordView>::empty()
                    =~= records@.map_values(|rec: UsnRecord| rec@));
            },
            None => {},
        }
    }
    Ok((next_usn, records))
}

} // verus!
