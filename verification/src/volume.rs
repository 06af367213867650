//! Geometry of one NTFS volume, read once and immutable afterwards.

use vstd::prelude::*;

verus! {

/// Derived constants of a volume: all offset arithmetic in the decoder and
/// the scanner depends on them.
#[derive(Clone, Copy, Debug, PartialEq, Eq, Structural)]
pub struct VolumeData {
    pub bytes_per_sector: u32,
    pub bytes_per_cluster: u32,
    pub bytes_per_file_record: u32,
    pub mft_start_lcn: u64,
}

impl VolumeData {
    /// Geometry values that the decoder's offset arithmetic can work with.
    pub open spec fn well_formed(self) -> bool {
        &&& self.bytes_per_sector >= 0x10
        &&& self.bytes_per_file_record >= 0x30
        &&& self.bytes_per_cluster >= 1
    }

    /// Packs the geometry values read from the device.
    pub fn new(
        bytes_per_sector: u32,
        bytes_per_cluster: u32,
        bytes_per_file_record: u32,
        mft_start_lcn: u64,
    ) -> (r: VolumeData)
        ensures
            r == (VolumeData { bytes_per_sector, bytes_per_cluster, bytes_per_file_record, mft_start_lcn }),
    {
        VolumeData { bytes_per_sector, bytes_per_cluster, bytes_per_file_record, mft_start_lcn }
    }

    /// The byte offset of the master file table's own first record.
    pub fn initial_offset(&self) -> (r: u64)
        requires
            self.mft_start_lcn * self.bytes_per_cluster <= u64::MAX,
        ensures
            r == self.mft_start_lcn * self.bytes_per_cluster,
    {
        self.mft_start_lcn * (self.bytes_per_cluster as u64)
    }
}

} // verus!
