//! Fixed-point geometry primitives and the small enums.

use hive_nav::app_state::AppState;
use hive_nav::direction::Direction;
use hive_nav::geometry::{
    dist_to_segment_exceeds, euclid_dist, isqrt64, lerp_point, unit_toward, Point2,
};

#[test]
fn integer_square_root_floors() {
    assert_eq!(isqrt64(0), 0);
    assert_eq!(isqrt64(1), 1);
    assert_eq!(isqrt64(3), 1);
    assert_eq!(isqrt64(4), 2);
    assert_eq!(isqrt64(24), 4);
    assert_eq!(isqrt64(25), 5);
    assert_eq!(isqrt64(1_000_000), 1_000);
    assert_eq!(isqrt64(u64::MAX), 4_294_967_295);
}

#[test]
fn euclidean_distance_in_milli_units() {
    let a = Point2::new(0, 0);
    let b = Point2::new(3_000, 4_000);
    assert_eq!(euclid_dist(a, b), 5_000);
    assert_eq!(euclid_dist(b, a), 5_000);
    assert_eq!(euclid_dist(a, a), 0);
    // Rounded down: sqrt(2) thousandths.
    assert_eq!(euclid_dist(a, Point2::new(1_000, 1_000)), 1_414);
}

#[test]
fn directions_are_scaled_unit_vectors() {
    let o = Point2::new(0, 0);
    assert_eq!(unit_toward(o, Point2::new(3_000, 4_000)), Point2::new(600, 800));
    assert_eq!(unit_toward(o, Point2::new(-3_000, -4_000)), Point2::new(-600, -800));
    assert_eq!(unit_toward(o, Point2::new(500_000, 0)), Point2::new(1_000, 0));
    assert_eq!(unit_toward(o, o), Point2::new(0, 0));
}

#[test]
fn segment_distance_comparisons_are_exact() {
    let a = Point2::new(0, 0);
    let b = Point2::new(10_000, 0);
    // Perpendicular distance from the middle of the segment.
    let c = Point2::new(5_000, 3_000);
    assert!(dist_to_segment_exceeds(a, b, c, 2_999));
    assert!(!dist_to_segment_exceeds(a, b, c, 3_000));
    // Before the start, distance is to the start point.
    let d = Point2::new(-5_000, 0);
    assert!(dist_to_segment_exceeds(a, b, d, 4_999));
    assert!(!dist_to_segment_exceeds(a, b, d, 5_000));
    // A degenerate segment is a point.
    assert!(dist_to_segment_exceeds(a, a, c, 5_830));
    assert!(!dist_to_segment_exceeds(a, a, c, 5_831));
}

#[test]
fn interpolation_weights_the_start_by_the_fraction() {
    let a = Point2::new(0, 0);
    let b = Point2::new(10_000, -10_000);
    assert_eq!(lerp_point(a, b, 100), a);
    assert_eq!(lerp_point(a, b, 0), b);
    assert_eq!(lerp_point(a, b, 10), Point2::new(9_000, -9_000));
    assert_eq!(lerp_point(a, b, 50), Point2::new(5_000, -5_000));
}

#[test]
fn direction_indices_roundtrip() {
    let all = Direction::all();
    assert_eq!(all.len(), 4);
    for (i, d) in all.iter().enumerate() {
        assert_eq!(d.to_index() as usize, i);
        assert_eq!(Direction::from_index(d.to_index()), *d);
    }
    assert_eq!(Direction::from_index(0), Direction::Right);
    assert_eq!(Direction::from_index(3), Direction::Bottom);
}

#[test]
fn session_starts_in_the_menu() {
    assert_eq!(AppState::default(), AppState::MainMenu);
    assert_ne!(AppState::MainMenu, AppState::InGame);
}
