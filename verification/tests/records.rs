//! Record layer: packed little-endian layouts and round trips.

use placeview::records::{
    read_keyframe_header, read_placement_at, read_placement_header, Placement, TileKeyframeHeader,
    TilePlacementHeader, KEYFRAME_HEADER_BYTES, PLACEMENT_BYTES, PLACEMENT_HEADER_BYTES,
    TILE_KEYFRAME_VERSION_ID, TILE_PLACEMENT_VERSION_ID,
};

#[test]
fn placement_is_fourteen_bytes_little_endian() {
    let p = Placement {
        ts: 0x01020304,
        uid: 0x05060708,
        x: 0x0a0b,
        y: 0x0c0d,
        color: 9,
        isblk: true,
    };
    let b = p.to_bytes();
    assert_eq!(b.len(), PLACEMENT_BYTES);
    assert_eq!(&b[0..4], &[0x04, 0x03, 0x02, 0x01]);
    assert_eq!(&b[4..8], &[0x08, 0x07, 0x06, 0x05]);
    assert_eq!(&b[8..10], &[0x0b, 0x0a]);
    assert_eq!(&b[10..12], &[0x0d, 0x0c]);
    assert_eq!(b[12], 9);
    assert_eq!(b[13], 1);
}

#[test]
fn placement_round_trip() {
    let p = Placement {
        ts: 12345,
        uid: 678,
        x: 17,
        y: 31,
        color: 200,
        isblk: false,
    };
    let b = p.to_bytes();
    let q = read_placement_at(&b, 0);
    assert_eq!(p, q);
}

#[test]
fn placement_read_at_offset() {
    let a = Placement {
        ts: 1,
        uid: 2,
        x: 3,
        y: 4,
        color: 5,
        isblk: false,
    };
    let b = Placement {
        ts: 6,
        uid: 7,
        x: 8,
        y: 9,
        color: 10,
        isblk: true,
    };
    let mut buf = a.to_bytes();
    buf.extend(b.to_bytes());
    assert_eq!(read_placement_at(&buf, 0), a);
    assert_eq!(read_placement_at(&buf, PLACEMENT_BYTES), b);
}

#[test]
fn placement_header_round_trip() {
    let h = TilePlacementHeader {
        version: TILE_PLACEMENT_VERSION_ID,
        size: 256,
        start_x: 512,
        start_y: 768,
        start: 0x1122334455667788,
        count: 1000,
        uid_count: 77,
    };
    let b = h.to_bytes();
    assert_eq!(b.len(), PLACEMENT_HEADER_BYTES);
    assert_eq!(&b[0..2], &[0x00, 0x42]);
    let g = read_placement_header(&b);
    assert_eq!(h, g);
}

#[test]
fn keyframe_header_round_trip() {
    let h = TileKeyframeHeader {
        version: TILE_KEYFRAME_VERSION_ID,
        size: 128,
        start_x: 0,
        start_y: 384,
        interval: 5000,
        count: 12,
    };
    let b = h.to_bytes();
    assert_eq!(b.len(), KEYFRAME_HEADER_BYTES);
    assert_eq!(&b[0..2], &[0x00, 0x69]);
    let g = read_keyframe_header(&b);
    assert_eq!(h, g);
}
