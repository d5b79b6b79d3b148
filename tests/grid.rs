use sphere_patch::grid::{scan_bands, Band};
use sphere_patch::{GRID_SIDE, PATCH_HALF};

#[test]
fn one_band_spans_the_patch() {
    assert_eq!(scan_bands(1), vec![Band { start: -500, end: 500 }]);
}

#[test]
fn zero_bands_are_taken_as_one() {
    assert_eq!(scan_bands(0), vec![Band { start: -500, end: 500 }]);
}

#[test]
fn three_bands_have_near_equal_widths() {
    assert_eq!(
        scan_bands(3),
        vec![
            Band { start: -500, end: -167 },
            Band { start: -167, end: 166 },
            Band { start: 166, end: 500 },
        ]
    );
}

#[test]
fn more_bands_than_columns_give_one_column_each() {
    let bands = scan_bands(5000);
    assert_eq!(bands.len(), 1000);
    for (i, b) in bands.iter().enumerate() {
        assert_eq!(b.start, i as i32 - 500);
        assert_eq!(b.end, i as i32 - 499);
    }
}

#[test]
fn bands_are_contiguous() {
    let bands = scan_bands(7);
    assert_eq!(bands.len(), 7);
    assert_eq!(bands[0].start, -PATCH_HALF);
    assert_eq!(bands[6].end, PATCH_HALF);
    for w in bands.windows(2) {
        assert_eq!(w[0].end, w[1].start);
        let width = w[0].end - w[0].start;
        assert!(width == 142 || width == 143);
    }
}

#[test]
fn single_column_band_cells() {
    let cells = Band { start: -500, end: -499 }.cells();
    assert_eq!(cells.len(), 1000);
    assert_eq!(cells[0], (-500, -500));
    assert_eq!(cells[1], (-500, -499));
    assert_eq!(cells[999], (-500, 499));
}

#[test]
fn empty_band_has_no_cells() {
    assert!(Band { start: 20, end: 20 }.cells().is_empty());
}

#[test]
fn joined_bands_visit_the_full_grid_in_order() {
    let mut joined = Vec::new();
    for b in scan_bands(4) {
        joined.extend(b.cells());
    }
    let mut expected = Vec::new();
    for x in -PATCH_HALF..PATCH_HALF {
        for y in -PATCH_HALF..PATCH_HALF {
            expected.push((x, y));
        }
    }
    assert_eq!(joined.len(), (GRID_SIDE * GRID_SIDE) as usize);
    assert_eq!(joined, expected);
}
