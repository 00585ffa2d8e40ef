//! Error taxonomy shared by the record layer, the tile store, the
//! ingestor and the dataset registry.

use vstd::prelude::*;

verus! {

/// Why a byte buffer, a configuration or an input row was refused.
///
/// Query misses (a timestamp outside the log, an unknown user id, tile
/// coordinates out of range) are reported as `None` by the query
/// functions themselves, mirroring how callers turn them into a
/// not-found response.
#[derive(Clone, Copy, Debug, PartialEq, Eq, Structural)]
pub enum StoreError {
    /// A canvas dimension is zero, the tile edge is zero, or a canvas
    /// dimension is not divisible by the tile edge; or the loaded
    /// tiles do not form the expected row-major grid.
    ConfigInvalid,
    /// An on-disk header's magic number differs from the expected
    /// constant for that file kind.
    HeaderVersion,
    /// A paired placement log and keyframe file disagree on the tile
    /// origin or the tile edge.
    HeaderMismatch,
    /// Unequal counts of placement-log and keyframe files were found
    /// under one dataset prefix.
    PairingMismatch,
    /// The byte buffer is shorter than what its header declares.
    ShortRead,
    /// The byte buffer is longer than what its header declares, or a
    /// stored record breaks a tile invariant: a placement out of the
    /// tile bounds, a decreasing timestamp, a zero keyframe interval,
    /// or a keyframe count too small for the placement count.
    Malformed,
    /// An input row was rejected during ingestion: its timestamp runs
    /// backwards with respect to the placements already accepted, or
    /// its user id leaves no room for a user count.
    BadRecord,
}

} // verus!
