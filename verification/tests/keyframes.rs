//! Keyframe builder: snapshot counts, snapshot contents, the file
//! image, and the round trip back through the tile store.

use placeview::errors::StoreError;
use placeview::keyframes::{keyframe_file_bytes, KeyframeCommand};
use placeview::records::{Placement, TilePlacementHeader, TILE_PLACEMENT_VERSION_ID,
    TILE_KEYFRAME_VERSION_ID};
use placeview::tile::Tile;

fn tile_log_bytes(size: u16, start: u64, placements: &[Placement]) -> Vec<u8> {
    let header = TilePlacementHeader {
        version: TILE_PLACEMENT_VERSION_ID,
        size,
        start_x: 0,
        start_y: 0,
        start,
        count: placements.len() as u32,
        uid_count: 1,
    };
    let mut bytes = header.to_bytes();
    for p in placements {
        bytes.extend(p.to_bytes());
    }
    bytes
}

fn keyframe_command(interval: u32) -> KeyframeCommand {
    KeyframeCommand {
        interval,
        inputs: Vec::new(),
    }
}

fn many_placements(n: u32) -> Vec<Placement> {
    // walk the 2x2 tile pixel by pixel with changing colors
    (0..n)
        .map(|i| Placement {
            ts: i,
            uid: 0,
            x: (i % 2) as u16,
            y: ((i / 2) % 2) as u16,
            color: (i % 16) as u8,
            isblk: false,
        })
        .collect()
}

fn replay(placements: &[Placement], size: u16) -> Vec<u32> {
    let mut img = vec![1u32; size as usize * size as usize];
    for p in placements {
        img[p.x as usize + p.y as usize * size as usize] =
            (p.uid << 8) | ((p.color as u32) + 1);
    }
    img
}

#[test]
fn interval_100_on_250_placements_yields_three_frames() {
    let placements = many_placements(250);
    let tile = Tile::load(&tile_log_bytes(2, 0, &placements)).unwrap();
    let (header, cells) = keyframe_command(100).build_frames(&tile);
    assert_eq!(header.count, 3);
    assert_eq!(header.interval, 100);
    assert_eq!(header.version, TILE_KEYFRAME_VERSION_ID);
    assert_eq!(cells.len(), 3 * 2 * 2);
    // frame 0 is blank; frame k covers the first k * interval placements
    assert_eq!(&cells[0..4], replay(&placements[0..0], 2).as_slice());
    assert_eq!(&cells[4..8], replay(&placements[0..100], 2).as_slice());
    assert_eq!(&cells[8..12], replay(&placements[0..200], 2).as_slice());
}

#[test]
fn exact_multiple_has_no_tail_frame() {
    let placements = many_placements(200);
    let tile = Tile::load(&tile_log_bytes(2, 0, &placements)).unwrap();
    let (header, cells) = keyframe_command(100).build_frames(&tile);
    assert_eq!(header.count, 2);
    assert_eq!(cells.len(), 2 * 2 * 2);
}

#[test]
fn keyframe_file_is_header_plus_cells() {
    let placements = many_placements(250);
    let tile = Tile::load(&tile_log_bytes(2, 0, &placements)).unwrap();
    let (header, cells) = keyframe_command(100).build_frames(&tile);
    let bytes = keyframe_file_bytes(&header, &cells);
    assert_eq!(bytes.len(), 16 + header.count as usize * 2 * 2 * 4);
    assert_eq!(&bytes[0..2], &[0x00, 0x69]);
}

#[test]
fn built_frames_round_trip_and_serve_queries() {
    let placements = many_placements(250);
    let log = tile_log_bytes(2, 7000, &placements);
    let tile = Tile::load(&log).unwrap();
    let (header, cells) = keyframe_command(100).build_frames(&tile);
    let frames = keyframe_file_bytes(&header, &cells);
    let tile = Tile::load_with_frames(&log, &frames).unwrap();
    assert_eq!(tile.frame_count, 3);
    assert_eq!(tile.frame_interval, 100);
    // a query that lands mid-log replays from the nearest snapshot
    // and must equal a full replay from blank
    let img = tile.get_image_at_timestamp(7000 + 249).unwrap();
    assert_eq!(img, replay(&placements[0..250], 2));
    let early = tile.get_image_at_timestamp(7000 + 137).unwrap();
    assert_eq!(early, replay(&placements[0..138], 2));
}

#[test]
fn frame_lookup_clamps_to_the_last_snapshot() {
    let placements = many_placements(250);
    let log = tile_log_bytes(2, 0, &placements);
    let tile = Tile::load(&log).unwrap();
    let (header, cells) = keyframe_command(100).build_frames(&tile);
    let frames = keyframe_file_bytes(&header, &cells);
    let tile = Tile::load_with_frames(&log, &frames).unwrap();
    let (off2, frame2) = tile.frame(2).unwrap();
    let (off_clamped, frame_clamped) = tile.frame(9).unwrap();
    assert_eq!(off2, 200);
    assert_eq!(off_clamped, 200);
    assert_eq!(frame2, frame_clamped);
    assert_eq!(frame2, replay(&placements[0..200], 2));
}

#[test]
fn frame_lookup_without_keyframes_is_none() {
    let placements = many_placements(10);
    let tile = Tile::load(&tile_log_bytes(2, 0, &placements)).unwrap();
    assert!(tile.frame(0).is_none());
}

#[test]
fn mismatched_origin_is_rejected() {
    let placements = many_placements(10);
    let log = tile_log_bytes(2, 0, &placements);
    let tile = Tile::load(&log).unwrap();
    let (mut header, cells) = keyframe_command(4).build_frames(&tile);
    header.start_x = 2;
    let frames = keyframe_file_bytes(&header, &cells);
    assert!(matches!(
        Tile::load_with_frames(&log, &frames),
        Err(StoreError::HeaderMismatch)
    ));
}

#[test]
fn wrong_frame_version_is_rejected() {
    let placements = many_placements(10);
    let log = tile_log_bytes(2, 0, &placements);
    let tile = Tile::load(&log).unwrap();
    let (header, cells) = keyframe_command(4).build_frames(&tile);
    let mut frames = keyframe_file_bytes(&header, &cells);
    frames[1] = 0x00;
    assert!(matches!(
        Tile::load_with_frames(&log, &frames),
        Err(StoreError::HeaderVersion)
    ));
}

#[test]
fn truncated_frame_file_is_rejected() {
    let placements = many_placements(10);
    let log = tile_log_bytes(2, 0, &placements);
    let tile = Tile::load(&log).unwrap();
    let (header, cells) = keyframe_command(4).build_frames(&tile);
    let mut frames = keyframe_file_bytes(&header, &cells);
    frames.pop();
    assert!(matches!(
        Tile::load_with_frames(&log, &frames),
        Err(StoreError::ShortRead)
    ));
}

#[test]
fn zero_interval_frame_file_is_rejected() {
    let placements = many_placements(10);
    let log = tile_log_bytes(2, 0, &placements);
    let tile = Tile::load(&log).unwrap();
    let (mut header, cells) = keyframe_command(4).build_frames(&tile);
    header.interval = 0;
    let frames = keyframe_file_bytes(&header, &cells);
    assert!(matches!(
        Tile::load_with_frames(&log, &frames),
        Err(StoreError::Malformed)
    ));
}
