//! Dataset registry: palette synthesis, grid ordering, and tile
//! lookup.

use placeview::dataset::SerializedDataset;
use placeview::errors::StoreError;
use placeview::records::{Placement, TilePlacementHeader, TILE_PLACEMENT_VERSION_ID};
use placeview::tile::Tile;

fn tile_at(start_x: u16, start_y: u16) -> Tile {
    let header = TilePlacementHeader {
        version: TILE_PLACEMENT_VERSION_ID,
        size: 2,
        start_x,
        start_y,
        start: 0,
        count: 1,
        uid_count: 1,
    };
    let p = Placement {
        ts: 0,
        uid: 0,
        x: 0,
        y: 0,
        color: start_x as u8,
        isblk: false,
    };
    let mut bytes = header.to_bytes();
    bytes.extend(p.to_bytes());
    Tile::load(&bytes).unwrap()
}

fn config() -> SerializedDataset {
    SerializedDataset {
        name: String::from("event"),
        prefix: String::from("event"),
        palette: vec![0xff0000, 0x00ff00, 0x0000ff],
        size_x: 4,
        size_y: 4,
        size_tile: 2,
    }
}

fn grid_tiles_shuffled() -> Vec<Tile> {
    vec![tile_at(2, 2), tile_at(0, 0), tile_at(2, 0), tile_at(0, 2)]
}

#[test]
fn palette_gets_a_white_slot_then_rgb_triples() {
    let d = config().load(grid_tiles_shuffled()).unwrap();
    assert_eq!(
        d.palette,
        vec![255, 255, 255, 255, 0, 0, 0, 255, 0, 0, 0, 255]
    );
    assert_eq!(d.trns_palette, vec![0, 255, 255, 255]);
}

#[test]
fn tiles_are_sorted_into_row_major_grid_order() {
    let d = config().load(grid_tiles_shuffled()).unwrap();
    let origins: Vec<(u16, u16)> = d.tiles.iter().map(|t| (t.start_x, t.start_y)).collect();
    assert_eq!(origins, vec![(0, 0), (2, 0), (0, 2), (2, 2)]);
}

#[test]
fn get_tile_addresses_the_grid() {
    let d = config().load(grid_tiles_shuffled()).unwrap();
    let t = d.get_tile(1, 0).unwrap();
    assert_eq!((t.start_x, t.start_y), (2, 0));
    let t = d.get_tile(0, 1).unwrap();
    assert_eq!((t.start_x, t.start_y), (0, 2));
}

#[test]
fn get_tile_out_of_range_is_none() {
    let d = config().load(grid_tiles_shuffled()).unwrap();
    assert!(d.get_tile(2, 0).is_none());
    assert!(d.get_tile(0, 2).is_none());
}

#[test]
fn wrong_tile_count_is_rejected() {
    let tiles = vec![tile_at(0, 0), tile_at(2, 0)];
    assert!(matches!(
        config().load(tiles),
        Err(StoreError::ConfigInvalid)
    ));
}

#[test]
fn off_grid_tile_is_rejected() {
    let tiles = vec![tile_at(2, 2), tile_at(1, 0), tile_at(2, 0), tile_at(0, 2)];
    assert!(matches!(
        config().load(tiles),
        Err(StoreError::ConfigInvalid)
    ));
}

#[test]
fn non_dividing_tile_edge_is_rejected() {
    let mut cfg = config();
    cfg.size_x = 5;
    assert!(matches!(
        cfg.load(grid_tiles_shuffled()),
        Err(StoreError::ConfigInvalid)
    ));
}

#[test]
fn dataset_keeps_its_configuration() {
    let d = config().load(grid_tiles_shuffled()).unwrap();
    assert_eq!(d.name, "event");
    assert_eq!(d.size_x, 4);
    assert_eq!(d.size_y, 4);
    assert_eq!(d.size_tile, 2);
}

#[test]
fn pairing_requires_equal_file_counts() {
    let logs = vec![String::from("a_log_0_0.bin"), String::from("a_log_1_0.bin")];
    let frames = vec![String::from("a_frame_0_0.bin")];
    assert!(matches!(
        placeview::dataset::pair_files(&logs, &frames),
        Err(StoreError::PairingMismatch)
    ));
}

#[test]
fn pairing_zips_in_matched_order() {
    let logs = vec![String::from("a_log_0_0.bin"), String::from("a_log_1_0.bin")];
    let frames = vec![
        String::from("a_frame_0_0.bin"),
        String::from("a_frame_1_0.bin"),
    ];
    let pairs = placeview::dataset::pair_files(&logs, &frames).unwrap();
    assert_eq!(pairs.len(), 2);
    assert_eq!(pairs[0], (logs[0].clone(), frames[0].clone()));
    assert_eq!(pairs[1], (logs[1].clone(), frames[1].clone()));
}
