//! The arithmetic of the bulk volume scan: folding the master file
//! table's relative extents into absolute cluster ranges, sizing reads,
//! and decoding whole chunks of raw file records.

use crate::attributes::Datarun;
use crate::errors::ErrorKind;
use crate::file_entry::FileEntry;
use crate::file_entry::FileEntryView;
use crate::file_record::parse_mft_entry;
use crate::file_record::parse_record;
use crate::volume::VolumeData;
use vstd::prelude::*;
use vstd::slice::slice_to_vec;

verus! {

/// How many file records one read of the bulk scan pulls in.
pub const FR_AT_ONCE: u64 = 4 * 16;

/// One run of contiguous clusters at its absolute location.
#[derive(Clone, Copy, Debug, PartialEq, Eq, Structural)]
pub struct LcnRange {
    pub start_lcn: u64,
    pub length_lcn: u64,
}

/// The absolute cluster ranges that a relative extent list denotes,
/// starting the fold at `base`: each extent's offset is relative to the
/// previous extent's absolute start.  A fold that leaves the volume
/// (a negative or overflowing position) denotes nothing.
pub open spec fn fold_ranges(runs: Seq<Datarun>, base: int) -> Option<Seq<LcnRange>>
    decreases runs.len(),
{
    if runs.len() == 0 {
        Some(Seq::empty())
    } else {
        let pos = base + runs[0].offset_lcn;
        if pos < 0 || pos > u64::MAX {
            None
        } else {
            match fold_ranges(runs.skip(1), pos) {
                None => None,
                Some(rest) => Some(
                    seq![LcnRange { start_lcn: pos as u64, length_lcn: runs[0].length_lcn }]
                        + rest,
                ),
            }
        }
    }
}

/// Folds a decoded extent list into absolute cluster ranges.
pub fn absolute_ranges(runs: &Vec<Datarun>) -> (r: Result<Vec<LcnRange>, ErrorKind>)
    ensures
        match r {
            Ok(v) => fold_ranges(runs@, 0) == Some(v@),
            Err(e) => fold_ranges(runs@, 0) is None && e == ErrorKind::MalformedRecord,
        },
{
    let n: usize = runs.len();
    let mut out: Vec<LcnRange> = Vec::new();
    let mut pos: u64 = 0;
    let mut i: usize = 0;
    proof {
        assert(runs@.skip(0) =~= runs@);
        match fold_ranges(runs@, 0) {
            Some(rest) => {
                assert(out@ + rest =~= rest);
            },
            None => {},
        }
    }
    while i < n
        invariant
            n == runs@.len(),
            i <= n,
            match fold_ranges(runs@.skip(i as int), pos as int) {
                Some(rest) => fold_ranges(runs@, 0) == Some(out@ + rest),
                None => fold_ranges(runs@, 0) is None,
            },
        decreases n - i,
    {
        let ghost tail = runs@.skip(i as int);
        let run = runs[i];
        let next: i128 = pos as i128 + run.offset_lcn as i128;
        if next < 0 || next > u64::MAX as i128 {
            return Err(ErrorKind::MalformedRecord);
        }
        pos = next as u64;
        let ghost old_out = out@;
        out.push(LcnRange { start_lcn: pos, length_lcn: run.length_lcn });
        proof {
            assert(tail[0] == run);
            assert(tail.skip(1) =~= runs@.skip(i as int + 1));
            match fold_ranges(runs@.skip(i as int + 1), pos as int) {
                Some(rest) => {
                    assert(old_out + (seq![
                        LcnRange { start_lcn: pos, length_lcn: run.length_lcn },
                    ] + rest) =~= out@ + rest);
                },
                None => {},
            }
        }
        i = i + 1;
    }
    proof {
        assert(runs@.skip(n as int).len() == 0);
        assert(out@ + Seq::<LcnRange>::empty() =~= out@);
    }
    Ok(out)
}

/// How many whole file records a cluster range holds.
pub fn records_in_range(range: &LcnRange, volume: &VolumeData) -> (r: u64)
    requires
        volume.well_formed(),
        range.length_lcn * volume.bytes_per_cluster <= u64::MAX,
    ensures
        r == range.length_lcn * volume.bytes_per_cluster / (volume.bytes_per_file_record as int),
{
    (range.length_lcn * (volume.bytes_per_cluster as u64)) / (volume.bytes_per_file_record as u64)
}

/// The byte offset on the volume where a cluster range starts.
pub fn range_start_offset(range: &LcnRange, volume: &VolumeData) -> (r: u64)
    requires
        range.start_lcn * volume.bytes_per_cluster <= u64::MAX,
    ensures
        r == range.start_lcn * volume.bytes_per_cluster,
{
    range.start_lcn * (volume.bytes_per_cluster as u64)
}

/// The entities that a chunk of raw file records denotes, record by
/// record: unused slots and records that fail to decode are skipped, and
/// a trailing partial record is ignored.
pub open spec fn chunk_entries(s: Seq<u8>, ss: int, rsz: int, last_attr: u32) -> Seq<
    FileEntryView,
>
    decreases s.len(),
{
    if rsz < 1 || s.len() < rsz {
        Seq::empty()
    } else {
        let rest = chunk_entries(s.skip(rsz), ss, rsz, last_attr);
        match parse_record(s.take(rsz), ss, last_attr) {
            Some(Some(ev)) => seq![ev] + rest,
            _ => rest,
        }
    }
}

/// Decodes every file record of one raw chunk.  Records that are unused
/// or fail to decode are skipped silently, so that a scan goes on past
/// them.  `last_attr` bounds the attribute walk of each record.
pub fn parse_chunk(buffer: &[u8], volume: &VolumeData, last_attr: u32) -> (r: Vec<FileEntry>)
    requires
        volume.well_formed(),
    ensures
        r@.map_values(|e: FileEntry| e@) == chunk_entries(
            buffer@,
            volume.bytes_per_sector as int,
            volume.bytes_per_file_record as int,
            last_attr,
        ),
{
    let ghost ss = volume.bytes_per_sector as int;
    let rsz: usize = volume.bytes_per_file_record as usize;
    let n: usize = buffer.len();
    let mut out: Vec<FileEntry> = Vec::new();
    let mut offset: usize = 0;
    proof {
        assert(buffer@.skip(0) =~= buffer@);
        assert(out@.map_values(|e: FileEntry| e@) + chunk_entries(buffer@, ss, rsz as int,
            last_attr) =~= chunk_entries(buffer@, ss, rsz as int, last_attr));
    }
    while rsz <= n - offset
        invariant
            n == buffer@.len(),
            offset <= n,
            rsz == volume.bytes_per_file_record,
            rsz >= 0x30,
            ss == volume.bytes_per_sector as int,
            volume.well_formed(),
            chunk_entries(buffer@, ss, rsz as int, last_attr) == out@.map_values(
                |e: FileEntry| e@,
            ) + chunk_entries(buffer@.skip(offset as int), ss, rsz as int, last_attr),
        decreases n - offset,
    {
        let ghost tail = buffer@.skip(offset as int);
        let mut record: Vec<u8> = slice_to_vec(&buffer[offset..offset + rsz]);
        proof {
            assert(record@ =~= tail.take(rsz as int));
        }
        let ghost old_out = out@;
        match parse_mft_entry(&mut record, volume, last_attr) {
            Ok(Some(entry)) => {
                out.push(entry);
            },
            _ => (),
        }
        proof {
            let f = |e: FileEntry| e@;
            assert(tail.skip(rsz as int) =~= buffer@.skip(offset as int + rsz as int));
            let rest = chunk_entries(buffer@.skip(offset as int + rsz as int), ss, rsz as int,
                last_attr);
            if out@.len() > old_out.len() {
                let ev = out@[out@.len() - 1]@;
                assert(out@.map_values(f) =~= old_out.map_values(f).push(ev));
                assert(old_out.map_values(f) + (seq![ev] + rest) =~= out@.map_values(f) + rest);
            } else {
                assert(out@.map_values(f) =~= old_out.map_values(f));
            }
        }
        offset = offset + rsz;
    }
    proof {
        assert(chunk_entries(buffer@.skip(offset as int), ss, rsz as int, last_attr)
            =~= Seq::<FileEntryView>::empty());
        assert(out@.map_values(|e: FileEntry| e@) + Seq::<FileEntryView>::empty()
            =~= out@.map_values(|e: FileEntry| e@));
    }
    out
}

} // verus!
