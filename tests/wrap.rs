use sphere_patch::wrap::{Vector2, HALF, PERIOD, UNIT};

#[test]
fn lapped_folds_just_past_the_edge() {
    assert_eq!(Vector2::lapped(510 * UNIT), -490 * UNIT);
    assert_eq!(Vector2::lapped(-510 * UNIT), 490 * UNIT);
}

#[test]
fn lapped_keeps_patch_coordinates() {
    for v in [-HALF, -1, 0, 1, 123_456, HALF] {
        assert_eq!(Vector2::lapped(v), v);
    }
}

#[test]
fn lapped_far_out_and_at_the_extremes() {
    assert_eq!(Vector2::lapped(-1510 * UNIT), 490 * UNIT);
    assert_eq!(Vector2::lapped(3 * HALF), HALF);
    assert_eq!(Vector2::lapped(-3 * HALF), -HALF);
    assert_eq!(Vector2::lapped(7 * PERIOD), 0);
    let lo = Vector2::lapped(i64::MIN);
    let hi = Vector2::lapped(i64::MAX);
    assert!(-HALF <= lo && lo <= HALF && -HALF <= hi && hi <= HALF);
    assert_eq!(lo, -hi - 1);
}

#[test]
fn x_past_the_edge_folds_into_the_patch() {
    let p = Vector2::new(HALF + 10 * UNIT, 0).optimized();
    assert_eq!(p, Vector2 { x: -490 * UNIT, y: 0, spin: false });
}

#[test]
fn y_past_the_pole_reflects_shifts_and_flips_spin_once() {
    let p = Vector2::new(100 * UNIT, HALF + 10 * UNIT).optimized();
    assert_eq!(p, Vector2 { x: -400 * UNIT, y: 490 * UNIT, spin: true });
    let q = Vector2::new(100 * UNIT, -HALF - 10 * UNIT).optimized();
    assert_eq!(q, Vector2 { x: -400 * UNIT, y: -490 * UNIT, spin: true });
}

#[test]
fn crossing_after_the_shift_is_folded_again() {
    let p = Vector2::new(400 * UNIT, 510 * UNIT).optimized();
    assert_eq!(p, Vector2 { x: -100 * UNIT, y: 490 * UNIT, spin: true });
}

#[test]
fn two_crossings_leave_the_spin() {
    let p = Vector2::new(0, 1800 * UNIT).optimized();
    assert_eq!(p, Vector2 { x: 0, y: -200 * UNIT, spin: false });
}

#[test]
fn optimize_twice_is_optimize_once() {
    for (x, y) in [(400 * UNIT, 510 * UNIT), (-987_654_321, 3_333_333_333), (HALF, -HALF), (i64::MAX, i64::MIN)] {
        let mut p = Vector2::new(x, y);
        p.optimize();
        let once = p;
        p.optimize();
        assert_eq!(p, once);
        assert!(-HALF <= once.x && once.x <= HALF && -HALF <= once.y && once.y <= HALF);
    }
}

#[test]
fn abs_takes_negatives_into_one_lap() {
    let a = Vector2 { x: -1, y: 7, spin: true }.abs();
    assert_eq!(a, Vector2 { x: PERIOD - 1, y: 7, spin: false });
    let b = Vector2::new(-PERIOD - 5, -PERIOD).abs();
    assert_eq!(b, Vector2::new(PERIOD - 5, 0));
}

#[test]
fn coarse_match_within_a_tenth() {
    let a = Vector2::new(1000, -2000);
    assert!(a.eq(&Vector2::new(-1099, 2099)));
    assert!(!a.eq(&Vector2::new(1100, 2000)));
    assert!(!a.eq(&Vector2::new(1000, 1900)));
    assert!(Vector2::new(i64::MIN, 0).eq(&Vector2::new(i64::MAX, 0)));
}

#[test]
fn relative_folds_both_axes() {
    let r = Vector2 { x: 510 * UNIT, y: -510 * UNIT, spin: true }.relative();
    assert_eq!(r, Vector2::new(-490 * UNIT, 490 * UNIT));
}

#[test]
fn add_is_mirrored_with_spin() {
    let mut p = Vector2::new(10, 20);
    p.add(3, -4);
    assert_eq!(p, Vector2::new(13, 16));
    let mut q = Vector2 { x: 10, y: 20, spin: true };
    q.add(3, -4);
    assert_eq!(q, Vector2 { x: 7, y: 24, spin: true });
}
