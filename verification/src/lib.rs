//! Tile storage and reconstruction engine for a time-ordered stream of
//! colored-pixel placements on a large canvas.
//!
//! The canvas is split into fixed-size square tiles. Each tile owns an
//! ordered placement log and, optionally, a companion file of periodic
//! keyframe snapshots. The library covers the packed binary record
//! formats, the CSV-row ingestor that shards placements into per-tile
//! logs, the keyframe builder, the tile store that validates and holds
//! the decoded artifacts, the query engine (image at a timestamp, diff
//! of two timestamps, per-user image), and the dataset registry.
//!
//! All file, network and terminal handling lives outside this crate;
//! the library works on plain values and byte buffers.

use vstd::prelude::*;

pub mod dataset;
pub mod errors;
pub mod frame;
pub mod ingest;
pub mod keyframes;
pub mod names;
pub mod records;
pub mod tile;

verus! {

} // verus!
