//! Behavior of the rasterized obstruction field.

use hive_nav::geometry::Point2;
use hive_nav::hive_map::HiveMap;

const WALKABLE: [u8; 4] = [246, 180, 0, 255];
const BLOCKED: [u8; 4] = [40, 40, 40, 255];
const IMAGE_BYTES: usize = 160 * 160 * 4;

fn walkable_image() -> Vec<u8> {
    let mut v = Vec::with_capacity(IMAGE_BYTES);
    for _ in 0..(160 * 160) {
        v.extend_from_slice(&WALKABLE);
    }
    v
}

fn set_pixel(img: &mut Vec<u8>, px: usize, py: usize, rgba: [u8; 4]) {
    let idx = (px + py * 160) * 4;
    img[idx..idx + 4].copy_from_slice(&rgba);
}

fn built_map(img: &Vec<u8>) -> HiveMap {
    let mut m = HiveMap::new();
    assert_eq!(img.len(), IMAGE_BYTES);
    m.build(img);
    m
}

#[test]
fn outside_world_reads_zero() {
    let mut img = walkable_image();
    for py in 0..160 {
        for px in 0..160 {
            set_pixel(&mut img, px, py, BLOCKED);
        }
    }
    let m = built_map(&img);
    // Fully blocked inside ...
    assert_eq!(m.get_obstruction_xy(0, 0), 1000);
    // ... but any point on or past the world edge reads zero.
    assert_eq!(m.get_obstruction_xy(160_000, 0), 0);
    assert_eq!(m.get_obstruction_xy(-160_000, 0), 0);
    assert_eq!(m.get_obstruction_xy(0, 160_000), 0);
    assert_eq!(m.get_obstruction_xy(0, -160_000), 0);
    assert_eq!(m.get_obstruction_xy(500_000, 123), 0);
    assert_eq!(m.get_obstruction(Point2::new(-2_000_000, 999_999_999)), 0);
}

#[test]
fn unready_map_reads_zero() {
    let m = HiveMap::new();
    assert_eq!(m.get_obstruction_xy(0, 0), 0);
}

#[test]
fn blocked_cell_counts_per_mille() {
    let mut img = walkable_image();
    // Cell (0, 0) covers pixels (0..2, 0..2); block all four.
    set_pixel(&mut img, 0, 0, BLOCKED);
    set_pixel(&mut img, 1, 0, BLOCKED);
    set_pixel(&mut img, 0, 1, BLOCKED);
    set_pixel(&mut img, 1, 1, BLOCKED);
    // Cell (1, 0) covers pixels (2..4, 0..2); block one of four.
    set_pixel(&mut img, 2, 0, BLOCKED);
    let m = built_map(&img);
    // Cell (0, 0) is world x in (-160, -156), y in (156, 160) units.
    assert_eq!(m.get_obstruction_xy(-158_000, 158_000), 1000);
    // Cell (1, 0) is a quarter blocked.
    assert_eq!(m.get_obstruction_xy(-154_000, 158_000), 250);
    // A far-away cell stays open.
    assert_eq!(m.get_obstruction_xy(0, 0), 0);
    // The cell in the opposite corner: cx 79, cy 79.
    assert_eq!(m.get_obstruction_xy(158_000, -158_000), 0);
}

#[test]
fn transparent_pixels_are_walkable() {
    let mut img = walkable_image();
    // Fully transparent, arbitrary color: never counted.
    set_pixel(&mut img, 0, 0, [9, 9, 9, 0]);
    // Opaque off-palette color: counted.
    set_pixel(&mut img, 1, 0, [255, 255, 255, 255]);
    // The second comb color is walkable too.
    set_pixel(&mut img, 0, 1, [246, 188, 0, 255]);
    let m = built_map(&img);
    assert_eq!(m.get_obstruction_xy(-158_000, 158_000), 250);
}

#[test]
fn build_runs_once() {
    let img = walkable_image();
    let mut m = built_map(&img);
    let mut all_blocked = Vec::with_capacity(IMAGE_BYTES);
    for _ in 0..(160 * 160) {
        all_blocked.extend_from_slice(&BLOCKED);
    }
    // A second build, even from a fully blocked raster, changes nothing.
    m.build(&all_blocked);
    assert_eq!(m.get_obstruction_xy(0, 0), 0);
    assert_eq!(m.get_obstruction_xy(-158_000, 158_000), 0);
}
