//! Query engine: image at a timestamp, diffs, per-user images, and
//! the serve-side cell maskings.

use placeview::errors::StoreError;
use placeview::frame::{to_palette_indices, user_remainder_indices};
use placeview::records::{Placement, TilePlacementHeader, TILE_PLACEMENT_VERSION_ID};
use placeview::tile::Tile;

fn log_bytes(size: u16, start: u64, uid_count: u32, placements: &[Placement]) -> Vec<u8> {
    let header = TilePlacementHeader {
        version: TILE_PLACEMENT_VERSION_ID,
        size,
        start_x: 0,
        start_y: 0,
        start,
        count: placements.len() as u32,
        uid_count,
    };
    let mut bytes = header.to_bytes();
    for p in placements {
        bytes.extend(p.to_bytes());
    }
    bytes
}

fn small_tile() -> Tile {
    // canvas 4x4 with tile edge 2; this is the tile at (0, 0), which
    // received the first of the two placements of the scenario
    let placements = [Placement {
        ts: 0,
        uid: 0,
        x: 0,
        y: 0,
        color: 3,
        isblk: false,
    }];
    let bytes = log_bytes(2, 100, 2, &placements);
    Tile::load(&bytes).unwrap()
}

#[test]
fn image_at_anchor_paints_one_cell() {
    let tile = small_tile();
    let img = tile.get_image_at_timestamp(100).unwrap();
    assert_eq!(img, vec![(0 << 8) | (3 + 1), 1, 1, 1]);
}

#[test]
fn image_beyond_last_placement_not_found() {
    let tile = small_tile();
    assert!(tile.get_image_at_timestamp(100 + 10).is_none());
}

#[test]
fn image_before_start_not_found() {
    let tile = small_tile();
    assert!(tile.get_image_at_timestamp(99).is_none());
}

fn three_step_tile() -> Tile {
    let placements = [
        Placement {
            ts: 0,
            uid: 0,
            x: 0,
            y: 0,
            color: 1,
            isblk: false,
        },
        Placement {
            ts: 5,
            uid: 1,
            x: 1,
            y: 0,
            color: 2,
            isblk: false,
        },
        Placement {
            ts: 10,
            uid: 2,
            x: 1,
            y: 1,
            color: 3,
            isblk: false,
        },
    ];
    let bytes = log_bytes(2, 1000, 3, &placements);
    Tile::load(&bytes).unwrap()
}

#[test]
fn diff_shows_only_cells_modified_between_the_timestamps() {
    let tile = three_step_tile();
    // both timestamps resolve within the log; no keyframes at all, so
    // both replay from the blank frame
    let diff = tile.get_diff_for_timestamps(1000, 1005).unwrap();
    // between ts 0 and ts 5 only pixel (1, 0) was painted, with
    // uid 1 and color 2
    assert_eq!(diff, vec![0, (1 << 8) | (2 + 1), 0, 0]);
}

#[test]
fn diff_is_symmetric_in_its_zero_mask() {
    let tile = three_step_tile();
    let ab = tile.get_diff_for_timestamps(1000, 1005).unwrap();
    let ba = tile.get_diff_for_timestamps(1005, 1000).unwrap();
    for (a, b) in ab.iter().zip(ba.iter()) {
        assert_eq!(*a == 0, *b == 0);
    }
    // where they differ, each side reports the other image's cell
    assert_eq!(ba, vec![0, 1, 0, 0]);
}

#[test]
fn diff_propagates_not_found() {
    let tile = three_step_tile();
    assert!(tile.get_diff_for_timestamps(999, 1005).is_none());
    assert!(tile.get_diff_for_timestamps(1000, 2000).is_none());
}

#[test]
fn user_image_has_one_cell_for_a_single_placement() {
    let tile = three_step_tile();
    let img = tile.get_image_for_user(1).unwrap();
    let expected_cell = (1u32 << 8) | (2 + 1);
    let mut non_zero = 0;
    for (i, cell) in img.iter().enumerate() {
        if *cell != 0 {
            non_zero += 1;
            assert_eq!(i, 1);
            assert_eq!(*cell, expected_cell);
        }
    }
    assert_eq!(non_zero, 1);
}

#[test]
fn user_image_last_placement_wins() {
    let placements = [
        Placement {
            ts: 0,
            uid: 0,
            x: 1,
            y: 1,
            color: 2,
            isblk: false,
        },
        Placement {
            ts: 3,
            uid: 0,
            x: 1,
            y: 1,
            color: 7,
            isblk: false,
        },
    ];
    let bytes = log_bytes(2, 0, 1, &placements);
    let tile = Tile::load(&bytes).unwrap();
    let img = tile.get_image_for_user(0).unwrap();
    assert_eq!(img, vec![0, 0, 0, (0 << 8) | (7 + 1)]);
}

#[test]
fn user_image_unknown_uid_not_found() {
    let tile = three_step_tile();
    assert!(tile.get_image_for_user(3).is_none());
}

#[test]
fn apply_is_idempotent_on_a_buffer() {
    let tile = three_step_tile();
    let mut once = vec![1u32; 4];
    tile.apply(&mut once, tile.placements());
    let mut twice = once.clone();
    tile.apply(&mut twice, tile.placements());
    assert_eq!(once, twice);
}

#[test]
fn load_rejects_wrong_version() {
    let placements: [Placement; 0] = [];
    let mut bytes = log_bytes(2, 0, 0, &placements);
    bytes[1] = 0x43;
    assert!(matches!(Tile::load(&bytes), Err(StoreError::HeaderVersion)));
}

#[test]
fn load_rejects_short_buffer() {
    let bytes = vec![0u8; 10];
    assert!(matches!(Tile::load(&bytes), Err(StoreError::ShortRead)));
}

#[test]
fn load_rejects_truncated_placements() {
    let placements = [Placement {
        ts: 0,
        uid: 0,
        x: 0,
        y: 0,
        color: 0,
        isblk: false,
    }];
    let mut bytes = log_bytes(2, 0, 1, &placements);
    bytes.pop();
    assert!(matches!(Tile::load(&bytes), Err(StoreError::ShortRead)));
}

#[test]
fn load_rejects_out_of_bounds_placement() {
    let placements = [Placement {
        ts: 0,
        uid: 0,
        x: 2,
        y: 0,
        color: 0,
        isblk: false,
    }];
    let bytes = log_bytes(2, 0, 1, &placements);
    assert!(matches!(Tile::load(&bytes), Err(StoreError::Malformed)));
}

#[test]
fn load_rejects_decreasing_timestamps() {
    let placements = [
        Placement {
            ts: 5,
            uid: 0,
            x: 0,
            y: 0,
            color: 0,
            isblk: false,
        },
        Placement {
            ts: 4,
            uid: 0,
            x: 1,
            y: 0,
            color: 0,
            isblk: false,
        },
    ];
    let bytes = log_bytes(2, 0, 1, &placements);
    assert!(matches!(Tile::load(&bytes), Err(StoreError::Malformed)));
}

#[test]
fn palette_indices_take_the_low_byte() {
    let img = vec![(7u32 << 8) | 4, 0, 1, (1u32 << 8) | 255];
    assert_eq!(to_palette_indices(&img), vec![4, 0, 1, 255]);
}

#[test]
fn user_remainder_keeps_only_the_users_cells() {
    let img = vec![(7u32 << 8) | 4, (3u32 << 8) | 9, 1, 0];
    assert_eq!(user_remainder_indices(&img, 7), vec![4, 0, 0, 0]);
    assert_eq!(user_remainder_indices(&img, 3), vec![0, 9, 0, 0]);
    assert_eq!(user_remainder_indices(&img, 0), vec![0, 0, 1, 0]);
}

#[test]
fn oversized_offset_clamps_to_the_last_placement() {
    let tile = {
        let placements = [
            Placement {
                ts: 0,
                uid: 0,
                x: 0,
                y: 0,
                color: 1,
                isblk: false,
            },
            Placement {
                ts: 5,
                uid: 1,
                x: 1,
                y: 0,
                color: 2,
                isblk: false,
            },
        ];
        let bytes = log_bytes(2, 0, 2, &placements);
        Tile::load(&bytes).unwrap()
    };
    // the offset exceeds what a u32 can hold, so the query clamps to
    // the last placement's timestamp and still answers
    let img = tile.get_image_at_timestamp(0x1_0000_0010).unwrap();
    assert_eq!(img, vec![(0 << 8) | 2, (1 << 8) | 3, 1, 1]);
}
