//! File naming: recognizing placement-log names and deriving the
//! companion keyframe names.

use placeview::names::frame_name_for_log;

fn derive(name: &str) -> Option<String> {
    frame_name_for_log(name.as_bytes()).map(|b| String::from_utf8(b).unwrap())
}

#[test]
fn log_name_maps_to_frame_name() {
    assert_eq!(
        derive("canvas_log_3_4.bin"),
        Some(String::from("canvas_frame_3_4.bin"))
    );
}

#[test]
fn hyphens_and_digits_may_appear_in_the_name() {
    assert_eq!(
        derive("my-set-2_log_10_2.bin"),
        Some(String::from("my-set-2_frame_10_2.bin"))
    );
}

#[test]
fn empty_name_is_rejected() {
    assert_eq!(derive("_log_1_2.bin"), None);
}

#[test]
fn missing_log_marker_is_rejected() {
    assert_eq!(derive("canvas_frame_1_2.bin"), None);
    assert_eq!(derive("canvas.bin"), None);
}

#[test]
fn missing_coordinates_are_rejected() {
    assert_eq!(derive("canvas_log_1.bin"), None);
    assert_eq!(derive("canvas_log__2.bin"), None);
    assert_eq!(derive("canvas_log_1_.bin"), None);
}

#[test]
fn wrong_suffix_is_rejected() {
    assert_eq!(derive("canvas_log_1_2.binx"), None);
    assert_eq!(derive("canvas_log_1_2.txt"), None);
    assert_eq!(derive("canvas_log_1_2"), None);
}

#[test]
fn trailing_garbage_in_coordinates_is_rejected() {
    assert_eq!(derive("canvas_log_1a_2.bin"), None);
    assert_eq!(derive("canvas_log_1_2_3.bin"), None);
}
