use cloppy_ntfs::errors::ErrorKind;
use cloppy_ntfs::file_entity::FileEntity;
use cloppy_ntfs::file_entity::FileId;
use cloppy_ntfs::files::Files;
use cloppy_ntfs::updater::apply_batch;
use cloppy_ntfs::updater::apply_change;
use cloppy_ntfs::usn::decode_journal_page;
use cloppy_ntfs::usn::JournalCursor;
use cloppy_ntfs::usn::UsnChange;
use cloppy_ntfs::usn::UsnRecord;
use cloppy_ntfs::usn::REASON_FILE_CREATE;
use cloppy_ntfs::usn::REASON_FILE_DELETE;
use cloppy_ntfs::usn::REASON_RENAME_NEW_NAME;

#[test]
fn usn_record_to_file_id_file() {
    let mut record = UsnRecord::default();
    record.mft_id = 99;
    record.flags = 0x30;
    assert_eq!(FileId::file(99), record.into());
}

#[test]
fn usn_record_to_file_id_dir() {
    let mut record = UsnRecord::default();
    record.mft_id = 99;
    record.flags = 0x16;
    assert_eq!(FileId::directory(99), record.into());
}

/// One change record of 60 + 8 name bytes ("test" in UTF-16), as the
/// journal lays it out.
fn raw_record(reason: u32) -> Vec<u8> {
    let mut rec = vec![0u8; 68];
    rec[0] = 68; // record length
    rec[8] = 42; // file reference number
    rec[16] = 5; // parent reference number
    rec[24] = 7; // this record's position
    rec[40..44].copy_from_slice(&reason.to_le_bytes());
    rec[56] = 8; // name length in bytes
    rec[58] = 60; // name offset
    let name: [u8; 8] = [0x74, 0, 0x65, 0, 0x73, 0, 0x74, 0];
    rec[60..68].copy_from_slice(&name);
    rec
}

#[test]
fn decode_one_record_page() {
    let mut page = vec![0u8; 8];
    page[0] = 0xD0; // the next position to resume from: 208
    page.extend(raw_record(REASON_FILE_CREATE));
    let (next_usn, records) = decode_journal_page(&page).unwrap();
    assert_eq!(208, next_usn);
    assert_eq!(1, records.len());
    let rec = &records[0];
    assert_eq!(68, rec.length);
    assert_eq!(42, rec.mft_id);
    assert_eq!(42, rec.fr_number);
    assert_eq!(5, rec.parent_id);
    assert_eq!(7, rec.usn);
    assert_eq!(REASON_FILE_CREATE, rec.reason);
    assert_eq!("test", rec.name);
}

#[test]
fn decode_rejects_short_page() {
    assert_eq!(ErrorKind::MalformedRecord, decode_journal_page(&[0u8; 7]).unwrap_err());
}

#[test]
fn decode_rejects_truncated_record() {
    let mut page = vec![0u8; 8];
    let mut rec = raw_record(REASON_FILE_CREATE);
    rec.truncate(50);
    page.extend(rec);
    assert_eq!(ErrorKind::MalformedRecord, decode_journal_page(&page).unwrap_err());
}

fn entity() -> FileEntity {
    FileEntity::new(FileId::file(42), FileId::directory(5), "test".to_string(), 3, 0)
}

fn decoded(reason: u32) -> UsnRecord {
    let page_prefix = vec![0u8; 8];
    let mut page = page_prefix;
    page.extend(raw_record(reason));
    let (_, mut records) = decode_journal_page(&page).unwrap();
    records.remove(0)
}

#[test]
fn create_reason_becomes_new() {
    let change = decoded(REASON_FILE_CREATE).into_change(entity());
    assert!(matches!(change, UsnChange::New(_)));
}

#[test]
fn rename_reason_becomes_update() {
    let change = decoded(REASON_RENAME_NEW_NAME).into_change(entity());
    assert!(matches!(change, UsnChange::Update(_)));
}

#[test]
fn delete_reason_becomes_delete() {
    let change = decoded(REASON_FILE_DELETE).into_change(entity());
    assert!(matches!(change, UsnChange::Delete(id) if id == FileId::file(42)));
}

#[test]
fn unknown_reason_is_ignored() {
    let change = decoded(0x4000_0000).into_change(entity());
    assert!(matches!(change, UsnChange::Ignore));
}

fn base_index() -> Files {
    let mut files = Files::new(8);
    files.bulk_add(vec![
        FileEntity::new(FileId::directory(5), FileId::directory(5), ".".to_string(), 0, 2),
        FileEntity::new(FileId::file(10), FileId::directory(5), "old.log".to_string(), 1, 0),
    ]);
    files
}

fn batch() -> Vec<UsnChange> {
    vec![
        UsnChange::New(entity()),
        UsnChange::Update(FileEntity::new(
            FileId::file(42),
            FileId::directory(5),
            "test2".to_string(),
            4,
            0,
        )),
        UsnChange::Delete(FileId::file(10)),
        UsnChange::Ignore,
    ]
}

fn dump(files: &Files) -> Vec<FileEntity> {
    let (all, _) = files.search("", 1000, None);
    all
}

#[test]
fn batch_applies_in_journal_order() {
    let mut files = base_index();
    apply_batch(&mut files, batch());
    // the later update of identity 42 supersedes the earlier insert
    assert_eq!(1, files.count("test"));
    assert_eq!(1, files.count("test2"));
    assert_eq!(0, files.count("old.log"));
}

#[test]
fn journal_replay_is_idempotent() {
    let mut once = base_index();
    apply_batch(&mut once, batch());
    let mut twice = base_index();
    apply_batch(&mut twice, batch());
    apply_batch(&mut twice, batch());
    assert_eq!(dump(&once), dump(&twice));
}

#[test]
fn apply_change_delete_removes() {
    let mut files = base_index();
    apply_change(&mut files, UsnChange::Delete(FileId::file(10)));
    assert_eq!(0, files.count("old.log"));
}

#[test]
fn cursor_advances_to_reported_position() {
    let mut cursor = JournalCursor::new(77, 100);
    assert_eq!(77, cursor.usn_journal_id);
    cursor.advance(208);
    assert_eq!(208, cursor.next_usn);
    assert_eq!(77, cursor.usn_journal_id);
}
