use cloppy_ntfs::attributes::Datarun;
use cloppy_ntfs::errors::ErrorKind;
use cloppy_ntfs::file_record::apply_fixup;
use cloppy_ntfs::file_record::parse_fr0;
use cloppy_ntfs::file_record::parse_mft_entry;
use cloppy_ntfs::scanner::absolute_ranges;
use cloppy_ntfs::scanner::parse_chunk;
use cloppy_ntfs::scanner::records_in_range;
use cloppy_ntfs::scanner::range_start_offset;
use cloppy_ntfs::scanner::LcnRange;
use cloppy_ntfs::volume::VolumeData;

fn tiny_volume() -> VolumeData {
    // sixteen-byte sectors and three-sector records keep hand-built
    // buffers small
    VolumeData::new(16, 32, 48, 4)
}

/// A hand-built 48-byte file record: valid magic, a fix-up array of three
/// entries at offset 8, attributes starting at 24 with only the stream
/// terminator, and record number 77.
fn tiny_record() -> Vec<u8> {
    let mut rec = vec![0u8; 48];
    rec[0..4].copy_from_slice(b"FILE");
    rec[4] = 8; // fix-up array offset
    rec[6] = 3; // fix-up count: signature plus one entry per sector
    rec[8] = 0xAB; // fix-up signature
    rec[10] = 0x11; // saved bytes of sector 0
    rec[11] = 0x22;
    rec[12] = 0x33; // saved bytes of sector 1
    rec[13] = 0x44;
    rec[20] = 24; // first attribute offset
    rec[22] = 0x02; // directory flag
    rec[24..28].copy_from_slice(&0xFFFF_FFFFu32.to_le_bytes()); // stream terminator
    rec[44] = 77; // record number
    // the trailing two bytes of each sector carry the torn-write signature
    rec[14] = 0xAB;
    rec[15] = 0xAB;
    rec[30] = 0xAB;
    rec[31] = 0xAB;
    rec
}

#[test]
fn fixup_restores_sector_tails() {
    let volume = tiny_volume();
    let mut rec = tiny_record();
    apply_fixup(&mut rec, &volume).unwrap();
    assert_eq!(0x11, rec[14]);
    assert_eq!(0x22, rec[15]);
    assert_eq!(0x33, rec[30]);
    assert_eq!(0x44, rec[31]);
}

#[test]
fn fixup_is_idempotent() {
    let volume = tiny_volume();
    let mut once = tiny_record();
    apply_fixup(&mut once, &volume).unwrap();
    let mut twice = once.clone();
    apply_fixup(&mut twice, &volume).unwrap();
    assert_eq!(once, twice);
}

#[test]
fn fixup_rejects_an_array_reaching_into_a_sector_tail() {
    let volume = tiny_volume();
    let mut rec = tiny_record();
    rec[4] = 10; // the three entries would reach byte 16, past position 14
    assert_eq!(ErrorKind::MalformedRecord, apply_fixup(&mut rec, &volume).unwrap_err());
}

#[test]
fn parse_record_reads_number_and_flags() {
    let volume = tiny_volume();
    let mut rec = tiny_record();
    let entry = parse_mft_entry(&mut rec, &volume, 0x80).unwrap().unwrap();
    assert_eq!(77, entry.id);
    assert_eq!(0x02, entry.flags);
    assert_eq!("", entry.name);
}

#[test]
fn unused_slot_is_skipped_not_an_error() {
    let volume = tiny_volume();
    let mut rec = vec![0u8; 48];
    assert!(parse_mft_entry(&mut rec, &volume, 0x80).unwrap().is_none());
    assert_eq!(ErrorKind::MalformedRecord, parse_fr0(&mut vec![0u8; 48], &volume).unwrap_err());
}

#[test]
fn chunk_decodes_records_and_skips_unused_slots() {
    let volume = tiny_volume();
    let mut chunk = tiny_record();
    chunk.extend(vec![0u8; 48]); // an unused slot
    let mut second = tiny_record();
    second[44] = 78;
    chunk.extend(second);
    let entries = parse_chunk(&chunk, &volume, 0x80);
    assert_eq!(2, entries.len());
    assert_eq!(77, entries[0].id);
    assert_eq!(78, entries[1].id);
}

#[test]
fn extents_fold_into_absolute_ranges() {
    let runs = vec![
        Datarun { length_lcn: 100, offset_lcn: 786432 },
        Datarun { length_lcn: 50, offset_lcn: -786000 },
        Datarun { length_lcn: 7, offset_lcn: 12 },
    ];
    let ranges = absolute_ranges(&runs).unwrap();
    assert_eq!(
        vec![
            LcnRange { start_lcn: 786432, length_lcn: 100 },
            LcnRange { start_lcn: 432, length_lcn: 50 },
            LcnRange { start_lcn: 444, length_lcn: 7 },
        ],
        ranges
    );
}

#[test]
fn extents_may_not_leave_the_volume() {
    let runs = vec![
        Datarun { length_lcn: 100, offset_lcn: 10 },
        Datarun { length_lcn: 50, offset_lcn: -11 },
    ];
    assert_eq!(ErrorKind::MalformedRecord, absolute_ranges(&runs).unwrap_err());
}

#[test]
fn range_arithmetic() {
    let volume = tiny_volume();
    let range = LcnRange { start_lcn: 10, length_lcn: 9 };
    // nine 32-byte clusters hold six whole 48-byte records
    assert_eq!(6, records_in_range(&range, &volume));
    assert_eq!(320, range_start_offset(&range, &volume));
    assert_eq!(128, volume.initial_offset());
}
