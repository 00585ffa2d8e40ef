//! Ingestor: sharding rows into per-tile logs, rectangle expansion,
//! the time anchor, and the log file image.

use placeview::errors::StoreError;
use placeview::ingest::{log_file_bytes, CsvRecord, Ingestor, ParseCommand};
use placeview::records::TILE_PLACEMENT_VERSION_ID;
use placeview::tile::Tile;

fn parse_command(size_x: u16, size_y: u16, size_tile: u16) -> ParseCommand {
    ParseCommand {
        input: String::from("input.csv"),
        output_prefix: String::from("out"),
        size_x,
        size_y,
        size_tile,
    }
}

fn pixel_row(ts: u64, user_id: u32, x: u16, y: u16, color: u8) -> CsvRecord {
    CsvRecord {
        ts,
        user_id,
        x_coordinate: x,
        y_coordinate: y,
        x2_coordinate: None,
        y2_coordinate: None,
        color,
    }
}

#[test]
fn rejects_a_canvas_not_divisible_by_the_tile_edge() {
    let rows = Vec::new();
    assert!(matches!(
        parse_command(5, 4, 2).execute(&rows),
        Err(StoreError::ConfigInvalid)
    ));
    assert!(matches!(
        parse_command(4, 5, 2).execute(&rows),
        Err(StoreError::ConfigInvalid)
    ));
    assert!(matches!(
        parse_command(0, 4, 2).execute(&rows),
        Err(StoreError::ConfigInvalid)
    ));
    assert!(matches!(
        parse_command(4, 4, 0).execute(&rows),
        Err(StoreError::ConfigInvalid)
    ));
}

#[test]
fn rectangle_row_shards_across_tiles() {
    // a 4-pixel row expanded over two tiles of edge 2
    let rows = vec![CsvRecord {
        ts: 50,
        user_id: 9,
        x_coordinate: 0,
        y_coordinate: 0,
        x2_coordinate: Some(3),
        y2_coordinate: Some(0),
        color: 2,
    }];
    let logs = parse_command(4, 2, 2).execute(&rows).unwrap();
    assert_eq!(logs.len(), 2);
    for log in &logs {
        assert_eq!(log.placements.len(), 2);
        assert_eq!(log.header.count, 2);
        for p in &log.placements {
            assert!(p.isblk);
            assert_eq!(p.color, 2);
            assert_eq!(p.uid, 9);
            assert_eq!(p.y, 0);
        }
        assert_eq!(log.placements[0].x, 0);
        assert_eq!(log.placements[1].x, 1);
    }
    assert_eq!(logs[0].header.start_x, 0);
    assert_eq!(logs[1].header.start_x, 2);
}

#[test]
fn first_row_anchors_every_tile() {
    let rows = vec![pixel_row(1000, 0, 0, 0, 1), pixel_row(1005, 1, 3, 3, 2)];
    let logs = parse_command(4, 4, 2).execute(&rows).unwrap();
    assert_eq!(logs.len(), 4);
    for log in &logs {
        assert_eq!(log.header.start, 1000);
        assert_eq!(log.header.version, TILE_PLACEMENT_VERSION_ID);
        assert_eq!(log.header.size, 2);
    }
    assert_eq!(logs[0].placements.len(), 1);
    assert_eq!(logs[0].placements[0].ts, 0);
    assert_eq!(logs[3].placements.len(), 1);
    assert_eq!(logs[3].placements[0].ts, 5);
    assert_eq!(logs[3].placements[0].x, 1);
    assert_eq!(logs[3].placements[0].y, 1);
}

#[test]
fn uid_count_is_max_observed_plus_one() {
    let rows = vec![pixel_row(0, 3, 0, 0, 1), pixel_row(1, 7, 1, 1, 1)];
    let logs = parse_command(2, 2, 2).execute(&rows).unwrap();
    assert_eq!(logs[0].header.uid_count, 8);
}

#[test]
fn out_of_canvas_pixels_are_skipped() {
    let mut ing = Ingestor::new(2, 2, 2).unwrap();
    let n = ing.ingest_row(&pixel_row(0, 0, 5, 0, 1)).unwrap();
    assert_eq!(n, 0);
    let logs = ing.finish();
    assert_eq!(logs[0].placements.len(), 0);
}

#[test]
fn out_of_order_rows_are_rejected_and_skipped() {
    let mut ing = Ingestor::new(2, 2, 2).unwrap();
    assert_eq!(ing.ingest_row(&pixel_row(100, 0, 0, 0, 1)).unwrap(), 1);
    assert!(matches!(
        ing.ingest_row(&pixel_row(99, 0, 1, 0, 1)),
        Err(StoreError::BadRecord)
    ));
    let logs = ing.finish();
    assert_eq!(logs[0].placements.len(), 1);
    assert_eq!(logs[0].header.start, 100);
}

#[test]
fn empty_rectangle_is_accepted_with_no_pixels() {
    let mut ing = Ingestor::new(2, 2, 2).unwrap();
    let row = CsvRecord {
        ts: 0,
        user_id: 0,
        x_coordinate: 1,
        y_coordinate: 1,
        x2_coordinate: Some(0),
        y2_coordinate: Some(0),
        color: 1,
    };
    assert_eq!(ing.ingest_row(&row).unwrap(), 0);
}

#[test]
fn rectangle_pixels_are_row_major() {
    let rows = vec![CsvRecord {
        ts: 0,
        user_id: 0,
        x_coordinate: 0,
        y_coordinate: 0,
        x2_coordinate: Some(1),
        y2_coordinate: Some(1),
        color: 1,
    }];
    let logs = parse_command(2, 2, 2).execute(&rows).unwrap();
    let coords: Vec<(u16, u16)> = logs[0].placements.iter().map(|p| (p.x, p.y)).collect();
    assert_eq!(coords, vec![(0, 0), (1, 0), (0, 1), (1, 1)]);
}

#[test]
fn log_file_round_trips_through_the_tile_store() {
    let rows = vec![pixel_row(500, 2, 0, 1, 4), pixel_row(512, 1, 1, 0, 9)];
    let logs = parse_command(2, 2, 2).execute(&rows).unwrap();
    let log = &logs[0];
    let bytes = log_file_bytes(&log.header, &log.placements);
    // the file is exactly the header plus 14 bytes per placement
    assert_eq!(bytes.len(), 24 + 14 * log.placements.len());
    let tile = Tile::load(&bytes).unwrap();
    assert_eq!(tile.start, 500);
    assert_eq!(tile.count, 2);
    assert_eq!(tile.uid_count, 3);
    assert_eq!(tile.size, 2);
    assert_eq!(tile.placements(), &log.placements);
}
