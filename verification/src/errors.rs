use vstd::prelude::*;

verus! {

/// The failure conditions of the volume-index core.
///
/// Decode failures are local: the offending record is skipped and work goes
/// on.  Volume-access and journal-continuity failures are surfaced to the
/// caller of the operation that raised them.  A broken parent chain is a
/// display-only degradation of one `path_of` query.
#[derive(Clone, Copy, Debug, PartialEq, Eq, Structural)]
pub enum ErrorKind {
    /// A byte buffer did not decode as the expected on-disk structure.
    MalformedRecord,
    /// The volume could not be opened or read.
    VolumeAccessError,
    /// The change journal no longer retains the requested starting point;
    /// only a full rescan can rebuild a consistent index.
    JournalGap,
    /// An ancestor needed for path reconstruction is missing from the index.
    BrokenChain,
}

} // verus!
