use pngrip::carve::{rip_png, scan, Position};
use pngrip::matcher::{end_marker_bytes, find, start_marker_bytes};

fn concat(parts: &[&[u8]]) -> Vec<u8> {
    let mut out: Vec<u8> = Vec::new();
    for part in parts {
        out.extend_from_slice(part);
    }
    out
}

#[test]
fn marker_constants() {
    assert_eq!(
        start_marker_bytes(),
        vec![0x89, 0x50, 0x4e, 0x47, 0x0d, 0x0a, 0x1a, 0x0a]
    );
    assert_eq!(
        end_marker_bytes(),
        vec![0x49, 0x45, 0x4e, 0x44, 0xae, 0x42, 0x60, 0x82]
    );
}

#[test]
fn scenario_single_padded_image() {
    // START ++ ten zero bytes ++ END: one range covering the whole buffer
    let data = concat(&[&start_marker_bytes(), &[0u8; 10], &end_marker_bytes()]);
    assert_eq!(data.len(), 26);
    assert_eq!(scan(&data), vec![Position { start: 0, end: 26 }]);
}

#[test]
fn scenario_back_to_back_images() {
    // START ++ END ++ START ++ END: two adjacent ranges, both detected
    let s = start_marker_bytes();
    let e = end_marker_bytes();
    let data = concat(&[&s, &e, &s, &e]);
    assert_eq!(
        scan(&data),
        vec![
            Position { start: 0, end: 16 },
            Position { start: 16, end: 32 },
        ]
    );
}

#[test]
fn scenario_embedded_start_marker_in_payload() {
    // a second START inside the payload is payload, not a new boundary
    let s = start_marker_bytes();
    let e = end_marker_bytes();
    let data = concat(&[&s, &[1u8, 2u8], &s, &[3u8], &e]);
    assert_eq!(data.len(), 27);
    assert_eq!(scan(&data), vec![Position { start: 0, end: 27 }]);
}

#[test]
fn scenario_end_then_unterminated_start() {
    // END with no preceding START, then a START with no END: nothing emitted
    let data = concat(&[&end_marker_bytes(), &start_marker_bytes()]);
    assert_eq!(scan(&data), Vec::<Position>::new());
}

#[test]
fn empty_buffer_scans_empty() {
    assert_eq!(scan(&[]), Vec::<Position>::new());
}

#[test]
fn short_buffer_scans_empty() {
    // shorter than both markers together: nothing is attempted
    let data = [0u8; 15];
    assert_eq!(scan(&data), Vec::<Position>::new());
    assert_eq!(scan(&start_marker_bytes()), Vec::<Position>::new());
}

#[test]
fn unterminated_start_is_discarded() {
    // a START with no END after it yields nothing, not a partial range
    let data = concat(&[&start_marker_bytes(), &[0u8; 20]]);
    assert_eq!(scan(&data), Vec::<Position>::new());
}

#[test]
fn leading_end_marker_is_skipped() {
    // an END before the first START is never paired; the START pairs with
    // the next END after its own eight bytes
    let s = start_marker_bytes();
    let e = end_marker_bytes();
    let data = concat(&[&e, &s, &[0u8; 4], &e]);
    assert_eq!(data.len(), 28);
    assert_eq!(scan(&data), vec![Position { start: 8, end: 28 }]);
}

#[test]
fn scan_is_idempotent() {
    let data = concat(&[
        &start_marker_bytes(),
        &[7u8; 5],
        &end_marker_bytes(),
        &[0u8; 3],
        &start_marker_bytes(),
        &end_marker_bytes(),
    ]);
    let first = scan(&data);
    let second = scan(&data);
    assert_eq!(first, second);
    assert_eq!(
        first,
        vec![
            Position { start: 0, end: 21 },
            Position { start: 24, end: 40 },
        ]
    );
}

#[test]
fn ranges_are_ordered_and_in_bounds() {
    let data = concat(&[
        &[0xffu8; 3],
        &start_marker_bytes(),
        &end_marker_bytes(),
        &[0xffu8; 2],
        &start_marker_bytes(),
        &[9u8; 9],
        &end_marker_bytes(),
    ]);
    let ranges = scan(&data);
    assert_eq!(ranges.len(), 2);
    for r in &ranges {
        assert!(r.start < r.end);
        assert!(r.end <= data.len());
    }
    for pair in ranges.windows(2) {
        assert!(pair[0].end <= pair[1].start);
    }
}

#[test]
fn rip_png_finds_first_image() {
    let data = concat(&[&start_marker_bytes(), &[0u8; 10], &end_marker_bytes()]);
    assert_eq!(rip_png(&data, 0), Some(Position { start: 0, end: 26 }));
}

#[test]
fn rip_png_resumes_after_cursor() {
    let s = start_marker_bytes();
    let e = end_marker_bytes();
    let data = concat(&[&s, &e, &s, &e]);
    assert_eq!(rip_png(&data, 0), Some(Position { start: 0, end: 16 }));
    assert_eq!(rip_png(&data, 1), Some(Position { start: 16, end: 32 }));
    assert_eq!(rip_png(&data, 16), Some(Position { start: 16, end: 32 }));
    assert_eq!(rip_png(&data, 17), None);
}

#[test]
fn rip_png_rejects_short_or_late_input() {
    let data = concat(&[&start_marker_bytes(), &end_marker_bytes()]);
    assert_eq!(rip_png(&[], 0), None);
    assert_eq!(rip_png(&data[..15], 0), None);
    assert_eq!(rip_png(&data, 1), None);
    assert_eq!(rip_png(&data, 1000), None);
}

#[test]
fn find_locates_earliest_occurrence() {
    let s = start_marker_bytes();
    let e = end_marker_bytes();
    let data = concat(&[&e, &s, &[0u8; 4], &s]);
    assert_eq!(find(&data, &s, 0), Some(8));
    assert_eq!(find(&data, &s, 8), Some(8));
    assert_eq!(find(&data, &s, 9), Some(20));
    assert_eq!(find(&data, &e, 0), Some(0));
    assert_eq!(find(&data, &e, 1), None);
}

#[test]
fn find_handles_boundaries() {
    let s = start_marker_bytes();
    let data = concat(&[&[1u8, 2u8], &s]);
    assert_eq!(find(&data, &s, 0), Some(2));
    assert_eq!(find(&data, &s, 2), Some(2));
    assert_eq!(find(&data, &s, 3), None);
    assert_eq!(find(&data, &s, data.len()), None);
    assert_eq!(find(&[], &s, 0), None);
}
