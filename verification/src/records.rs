//! Packed binary record layer: placement records and the two header
//! kinds, with fixed little-endian layout and no padding.
//!
//! The byte layouts are normative for the on-disk formats: a placement
//! log is one `TilePlacementHeader` followed by `count` placement
//! records of 14 bytes each; a keyframe file is one
//! `TileKeyframeHeader` followed by `count` frames of packed `u32`
//! cells.

use vstd::prelude::*;
use vstd::bytes::*;
use vstd::slice::slice_subrange;

verus! {

/// Magic number expected in the `version` field of a placement log.
pub const TILE_PLACEMENT_VERSION_ID: u16 = 0x4200;

/// Magic number expected in the `version` field of a keyframe file.
pub const TILE_KEYFRAME_VERSION_ID: u16 = 0x6900;

/// On-disk size of one placement record, in bytes.
pub const PLACEMENT_BYTES: usize = 14;

/// On-disk size of a placement-log header, in bytes.
pub const PLACEMENT_HEADER_BYTES: usize = 24;

/// On-disk size of a keyframe-file header, in bytes.
pub const KEYFRAME_HEADER_BYTES: usize = 16;

/// Marker for the record types that the on-disk tile formats store.
pub trait Record {}

/// One timestamped paint event of a single pixel by one user, in
/// tile-local coordinates.
#[derive(Clone, Copy, Debug, PartialEq, Eq, Structural)]
pub struct Placement {
    /// Seconds offset from the owning tile's `start` anchor.
    pub ts: u32,
    /// Stable user identifier, 0-based dense.
    pub uid: u32,
    /// Tile-local column, less than the tile edge.
    pub x: u16,
    /// Tile-local row, less than the tile edge.
    pub y: u16,
    /// Palette index.
    pub color: u8,
    /// Whether this placement came from expanding a rectangle.
    pub isblk: bool,
}

/// First record of a placement log.
#[derive(Clone, Copy, Debug, PartialEq, Eq, Structural)]
pub struct TilePlacementHeader {
    /// Must equal `TILE_PLACEMENT_VERSION_ID`.
    pub version: u16,
    /// Tile edge; the tile covers `size * size` pixels.
    pub size: u16,
    /// Tile origin column in canvas coordinates.
    pub start_x: u16,
    /// Tile origin row in canvas coordinates.
    pub start_y: u16,
    /// Absolute epoch-seconds anchor for the placement timestamps.
    pub start: u64,
    /// Number of placement records following the header.
    pub count: u32,
    /// One past the largest user id observed by the ingestor.
    pub uid_count: u32,
}

/// First record of a keyframe file.
#[derive(Clone, Copy, Debug, PartialEq, Eq, Structural)]
pub struct TileKeyframeHeader {
    /// Must equal `TILE_KEYFRAME_VERSION_ID`.
    pub version: u16,
    /// Tile edge; each frame holds `size * size` cells.
    pub size: u16,
    /// Tile origin column in canvas coordinates.
    pub start_x: u16,
    /// Tile origin row in canvas coordinates.
    pub start_y: u16,
    /// Placements applied between consecutive snapshots.
    pub interval: u32,
    /// Number of snapshot frames stored after the header.
    pub count: u32,
}

impl Record for Placement {}

impl Record for TilePlacementHeader {}

impl Record for TileKeyframeHeader {}

/// The single byte that stores a placement's rectangle flag.
pub open spec fn spec_bool_byte(b: bool) -> u8 {
    if b {
        1
    } else {
        0
    }
}

/// The 14-byte on-disk image of a placement record.
pub open spec fn spec_placement_bytes(p: Placement) -> Seq<u8> {
    spec_u32_to_le_bytes(p.ts) + spec_u32_to_le_bytes(p.uid) + spec_u16_to_le_bytes(p.x)
        + spec_u16_to_le_bytes(p.y) + seq![p.color, spec_bool_byte(p.isblk)]
}

/// The placement record denoted by a 14-byte buffer. A nonzero flag
/// byte reads back as a rectangle-expanded placement.
pub open spec fn spec_placement_from_bytes(s: Seq<u8>) -> Placement
    recommends
        s.len() == PLACEMENT_BYTES,
{
    Placement {
        ts: spec_u32_from_le_bytes(s.subrange(0, 4)),
        uid: spec_u32_from_le_bytes(s.subrange(4, 8)),
        x: spec_u16_from_le_bytes(s.subrange(8, 10)),
        y: spec_u16_from_le_bytes(s.subrange(10, 12)),
        color: s[12],
        isblk: s[13] != 0,
    }
}

/// The 24-byte on-disk image of a placement-log header.
pub open spec fn spec_placement_header_bytes(h: TilePlacementHeader) -> Seq<u8> {
    spec_u16_to_le_bytes(h.version) + spec_u16_to_le_bytes(h.size) + spec_u16_to_le_bytes(h.start_x)
        + spec_u16_to_le_bytes(h.start_y) + spec_u64_to_le_bytes(h.start) + spec_u32_to_le_bytes(
        h.count,
    ) + spec_u32_to_le_bytes(h.uid_count)
}

/// The placement-log header denoted by a 24-byte buffer.
pub open spec fn spec_placement_header_from_bytes(s: Seq<u8>) -> TilePlacementHeader
    recommends
        s.len() == PLACEMENT_HEADER_BYTES,
{
    TilePlacementHeader {
        version: spec_u16_from_le_bytes(s.subrange(0, 2)),
        size: spec_u16_from_le_bytes(s.subrange(2, 4)),
        start_x: spec_u16_from_le_bytes(s.subrange(4, 6)),
        start_y: spec_u16_from_le_bytes(s.subrange(6, 8)),
        start: spec_u64_from_le_bytes(s.subrange(8, 16)),
        count: spec_u32_from_le_bytes(s.subrange(16, 20)),
        uid_count: spec_u32_from_le_bytes(s.subrange(20, 24)),
    }
}

/// The 16-byte on-disk image of a keyframe-file header.
pub open spec fn spec_keyframe_header_bytes(h: TileKeyframeHeader) -> Seq<u8> {
    spec_u16_to_le_bytes(h.version) + spec_u16_to_le_bytes(h.size) + spec_u16_to_le_bytes(h.start_x)
        + spec_u16_to_le_bytes(h.start_y) + spec_u32_to_le_bytes(h.interval) + spec_u32_to_le_bytes(
        h.count,
    )
}

/// The keyframe-file header denoted by a 16-byte buffer.
pub open spec fn spec_keyframe_header_from_bytes(s: Seq<u8>) -> TileKeyframeHeader
    recommends
        s.len() == KEYFRAME_HEADER_BYTES,
{
    TileKeyframeHeader {
        version: spec_u16_from_le_bytes(s.subrange(0, 2)),
        size: spec_u16_from_le_bytes(s.subrange(2, 4)),
        start_x: spec_u16_from_le_bytes(s.subrange(4, 6)),
        start_y: spec_u16_from_le_bytes(s.subrange(6, 8)),
        interval: spec_u32_from_le_bytes(s.subrange(8, 12)),
        count: spec_u32_from_le_bytes(s.subrange(12, 16)),
    }
}

impl Placement {
    /// Serialize this placement into its packed 14-byte form.
    pub fn to_bytes(&self) -> (r: Vec<u8>)
        ensures
            r@ == spec_placement_bytes(*self),
            r@.len() == PLACEMENT_BYTES,
    {
        let mut r = u32_to_le_bytes(self.ts);
        let mut uid_b = u32_to_le_bytes(self.uid);
        let mut x_b = u16_to_le_bytes(self.x);
        let mut y_b = u16_to_le_bytes(self.y);
        r.append(&mut uid_b);
        r.append(&mut x_b);
        r.append(&mut y_b);
        r.push(self.color);
        r.push(if self.isblk {
            1
        } else {
            0
        });
        proof {
            assert(r@ =~= spec_placement_bytes(*self));
        }
        r
    }
}

impl TilePlacementHeader {
    /// Serialize this header into its packed 24-byte form.
    pub fn to_bytes(&self) -> (r: Vec<u8>)
        ensures
            r@ == spec_placement_header_bytes(*self),
            r@.len() == PLACEMENT_HEADER_BYTES,
    {
        let mut r = u16_to_le_bytes(self.version);
        let mut size_b = u16_to_le_bytes(self.size);
        let mut sx_b = u16_to_le_bytes(self.start_x);
        let mut sy_b = u16_to_le_bytes(self.start_y);
        let mut start_b = u64_to_le_bytes(self.start);
        let mut count_b = u32_to_le_bytes(self.count);
        let mut uidc_b = u32_to_le_bytes(self.uid_count);
        r.append(&mut size_b);
        r.append(&mut sx_b);
        r.append(&mut sy_b);
        r.append(&mut start_b);
        r.append(&mut count_b);
        r.append(&mut uidc_b);
        proof {
            assert(r@ =~= spec_placement_header_bytes(*self));
        }
        r
    }
}

impl TileKeyframeHeader {
    /// Serialize this header into its packed 16-byte form.
    pub fn to_bytes(&self) -> (r: Vec<u8>)
        ensures
            r@ == spec_keyframe_header_bytes(*self),
            r@.len() == KEYFRAME_HEADER_BYTES,
    {
        let mut r = u16_to_le_bytes(self.version);
        let mut size_b = u16_to_le_bytes(self.size);
        let mut sx_b = u16_to_le_bytes(self.start_x);
        let mut sy_b = u16_to_le_bytes(self.start_y);
        let mut interval_b = u32_to_le_bytes(self.interval);
        let mut count_b = u32_to_le_bytes(self.count);
        r.append(&mut size_b);
        r.append(&mut sx_b);
        r.append(&mut sy_b);
        r.append(&mut interval_b);
        r.append(&mut count_b);
        proof {
            assert(r@ =~= spec_keyframe_header_bytes(*self));
        }
        r
    }
}

/// Decode the placement record stored at `offset` in `buf`.
pub fn read_placement_at(buf: &[u8], offset: usize) -> (p: Placement)
    requires
        offset + PLACEMENT_BYTES <= buf.len(),
    ensures
        p == spec_placement_from_bytes(
            buf@.subrange(offset as int, offset + PLACEMENT_BYTES),
        ),
{
    let ghost whole = buf@.subrange(offset as int, offset + PLACEMENT_BYTES);
    let ts = u32_from_le_bytes(slice_subrange(buf, offset, offset + 4));
    let uid = u32_from_le_bytes(slice_subrange(buf, offset + 4, offset + 8));
    let x = u16_from_le_bytes(slice_subrange(buf, offset + 8, offset + 10));
    let y = u16_from_le_bytes(slice_subrange(buf, offset + 10, offset + 12));
    let color = *vstd::slice::slice_index_get(buf, offset + 12);
    let flag = *vstd::slice::slice_index_get(buf, offset + 13);
    proof {
        assert(whole.subrange(0, 4) =~= buf@.subrange(offset as int, offset + 4));
        assert(whole.subrange(4, 8) =~= buf@.subrange(offset + 4, offset + 8));
        assert(whole.subrange(8, 10) =~= buf@.subrange(offset + 8, offset + 10));
        assert(whole.subrange(10, 12) =~= buf@.subrange(offset + 10, offset + 12));
        assert(whole[12] == buf@[offset + 12]);
        assert(whole[13] == buf@[offset + 13]);
    }
    Placement { ts, uid, x, y, color, isblk: flag != 0 }
}

/// Decode the placement-log header stored at the head of `buf`.
pub fn read_placement_header(buf: &[u8]) -> (h: TilePlacementHeader)
    requires
        buf.len() >= PLACEMENT_HEADER_BYTES,
    ensures
        h == spec_placement_header_from_bytes(buf@.subrange(0, PLACEMENT_HEADER_BYTES as int)),
{
    let ghost whole = buf@.subrange(0, PLACEMENT_HEADER_BYTES as int);
    let version = u16_from_le_bytes(slice_subrange(buf, 0, 2));
    let size = u16_from_le_bytes(slice_subrange(buf, 2, 4));
    let start_x = u16_from_le_bytes(slice_subrange(buf, 4, 6));
    let start_y = u16_from_le_bytes(slice_subrange(buf, 6, 8));
    let start = u64_from_le_bytes(slice_subrange(buf, 8, 16));
    let count = u32_from_le_bytes(slice_subrange(buf, 16, 20));
    let uid_count = u32_from_le_bytes(slice_subrange(buf, 20, 24));
    proof {
        assert(whole.subrange(0, 2) =~= buf@.subrange(0, 2));
        assert(whole.subrange(2, 4) =~= buf@.subrange(2, 4));
        assert(whole.subrange(4, 6) =~= buf@.subrange(4, 6));
        assert(whole.subrange(6, 8) =~= buf@.subrange(6, 8));
        assert(whole.subrange(8, 16) =~= buf@.subrange(8, 16));
        assert(whole.subrange(16, 20) =~= buf@.subrange(16, 20));
        assert(whole.subrange(20, 24) =~= buf@.subrange(20, 24));
    }
    TilePlacementHeader { version, size, start_x, start_y, start, count, uid_count }
}

/// Decode the keyframe-file header stored at the head of `buf`.
pub fn read_keyframe_header(buf: &[u8]) -> (h: TileKeyframeHeader)
    requires
        buf.len() >= KEYFRAME_HEADER_BYTES,
    ensures
        h == spec_keyframe_header_from_bytes(buf@.subrange(0, KEYFRAME_HEADER_BYTES as int)),
{
    let ghost whole = buf@.subrange(0, KEYFRAME_HEADER_BYTES as int);
    let version = u16_from_le_bytes(slice_subrange(buf, 0, 2));
    let size = u16_from_le_bytes(slice_subrange(buf, 2, 4));
    let start_x = u16_from_le_bytes(slice_subrange(buf, 4, 6));
    let start_y = u16_from_le_bytes(slice_subrange(buf, 6, 8));
    let interval = u32_from_le_bytes(slice_subrange(buf, 8, 12));
    let count = u32_from_le_bytes(slice_subrange(buf, 12, 16));
    proof {
        assert(whole.subrange(0, 2) =~= buf@.subrange(0, 2));
        assert(whole.subrange(2, 4) =~= buf@.subrange(2, 4));
        assert(whole.subrange(4, 6) =~= buf@.subrange(4, 6));
        assert(whole.subrange(6, 8) =~= buf@.subrange(6, 8));
        assert(whole.subrange(8, 12) =~= buf@.subrange(8, 12));
        assert(whole.subrange(12, 16) =~= buf@.subrange(12, 16));
    }
    TileKeyframeHeader { version, size, start_x, start_y, interval, count }
}

/// Writing a placement and reading the bytes back yields the same
/// structure.
pub proof fn lemma_placement_roundtrip(p: Placement)
    ensures
        spec_placement_bytes(p).len() == PLACEMENT_BYTES,
        spec_placement_from_bytes(spec_placement_bytes(p)) == p,
{
    lemma_auto_spec_u32_to_from_le_bytes();
    lemma_auto_spec_u16_to_from_le_bytes();
    let s = spec_placement_bytes(p);
    assert(s.subrange(0, 4) =~= spec_u32_to_le_bytes(p.ts));
    assert(s.subrange(4, 8) =~= spec_u32_to_le_bytes(p.uid));
    assert(s.subrange(8, 10) =~= spec_u16_to_le_bytes(p.x));
    assert(s.subrange(10, 12) =~= spec_u16_to_le_bytes(p.y));
    assert(s[12] == p.color);
    assert(s[13] == spec_bool_byte(p.isblk));
}

/// Writing a placement-log header and reading the bytes back yields
/// the same structure.
pub proof fn lemma_placement_header_roundtrip(h: TilePlacementHeader)
    ensures
        spec_placement_header_bytes(h).len() == PLACEMENT_HEADER_BYTES,
        spec_placement_header_from_bytes(spec_placement_header_bytes(h)) == h,
{
    lemma_auto_spec_u64_to_from_le_bytes();
    lemma_auto_spec_u32_to_from_le_bytes();
    lemma_auto_spec_u16_to_from_le_bytes();
    let s = spec_placement_header_bytes(h);
    assert(s.subrange(0, 2) =~= spec_u16_to_le_bytes(h.version));
    assert(s.subrange(2, 4) =~= spec_u16_to_le_bytes(h.size));
    assert(s.subrange(4, 6) =~= spec_u16_to_le_bytes(h.start_x));
    assert(s.subrange(6, 8) =~= spec_u16_to_le_bytes(h.start_y));
    assert(s.subrange(8, 16) =~= spec_u64_to_le_bytes(h.start));
    assert(s.subrange(16, 20) =~= spec_u32_to_le_bytes(h.count));
    assert(s.subrange(20, 24) =~= spec_u32_to_le_bytes(h.uid_count));
}

/// Writing a keyframe-file header and reading the bytes back yields
/// the same structure.
pub proof fn lemma_keyframe_header_roundtrip(h: TileKeyframeHeader)
    ensures
        spec_keyframe_header_bytes(h).len() == KEYFRAME_HEADER_BYTES,
        spec_keyframe_header_from_bytes(spec_keyframe_header_bytes(h)) == h,
{
    lemma_auto_spec_u32_to_from_le_bytes();
    lemma_auto_spec_u16_to_from_le_bytes();
    let s = spec_keyframe_header_bytes(h);
    assert(s.subrange(0, 2) =~= spec_u16_to_le_bytes(h.version));
    assert(s.subrange(2, 4) =~= spec_u16_to_le_bytes(h.size));
    assert(s.subrange(4, 6) =~= spec_u16_to_le_bytes(h.start_x));
    assert(s.subrange(6, 8) =~= spec_u16_to_le_bytes(h.start_y));
    assert(s.subrange(8, 12) =~= spec_u32_to_le_bytes(h.interval));
    assert(s.subrange(12, 16) =~= spec_u32_to_le_bytes(h.count));
}

} // verus!
