use std::collections::HashSet;

use tilegrid::color::Rgba;
use tilegrid::geometry::{TileSet, line_points, ring_points};
use tilegrid::tilemap::TileMap;

fn plain_map(width: usize, height: usize) -> TileMap {
    TileMap::new(width, height, 1024, 768, Rgba::new(0, 0, 0, 255), Rgba::new(255, 255, 255, 255))
}

#[test]
fn line_has_both_endpoints_and_expected_length() {
    let line = line_points(0, 0, 3, 1);
    assert_eq!(line.len(), 4);
    assert_eq!(line.first(), Some(&(0, 0)));
    assert_eq!(line.last(), Some(&(3, 1)));
    assert_eq!(line, vec![(0, 0), (1, 0), (2, 1), (3, 1)]);
}

#[test]
fn line_single_point() {
    let line = line_points(7, 9, 7, 9);
    assert_eq!(line, vec![(7, 9)]);
}

#[test]
fn line_reversal_is_exactly_the_reverse() {
    let fwd = line_points(0, 0, 3, 1);
    let mut rev = line_points(3, 1, 0, 0);
    rev.reverse();
    assert_eq!(fwd, rev);
}

#[test]
fn line_reversal_holds_at_rounding_ties() {
    // (0,0)-(4,2) hits a rounding tie halfway; the canonical walk still
    // makes both directions cover the same cells in opposite order.
    let fwd = line_points(0, 0, 4, 2);
    assert_eq!(fwd, vec![(0, 0), (1, 1), (2, 1), (3, 2), (4, 2)]);
    let mut rev = line_points(4, 2, 0, 0);
    rev.reverse();
    assert_eq!(fwd, rev);

    let fwd = line_points(0, 0, 2, 1);
    let mut rev = line_points(2, 1, 0, 0);
    rev.reverse();
    assert_eq!(fwd, rev);
}

#[test]
fn line_reversal_on_diagonals_and_axes() {
    let fwd = line_points(2, 2, 6, 6);
    let mut rev = line_points(6, 6, 2, 2);
    rev.reverse();
    assert_eq!(fwd, rev);
    assert_eq!(fwd, vec![(2, 2), (3, 3), (4, 4), (5, 5), (6, 6)]);

    let fwd = line_points(4, 1, 4, 5);
    let mut rev = line_points(4, 5, 4, 1);
    rev.reverse();
    assert_eq!(fwd, rev);
}

#[test]
fn ring_radius_zero_is_eight_coincident_centers() {
    let ring = ring_points(10, 10, 0);
    assert_eq!(ring.len(), 8);
    for p in &ring {
        assert_eq!(*p, (10, 10));
    }
}

#[test]
fn ring_negative_radius_is_empty() {
    assert!(ring_points(10, 10, -1).is_empty());
    assert!(ring_points(0, 0, -5).is_empty());
}

#[test]
fn ring_radius_three_matches_hand_computed_set() {
    let ring = ring_points(10, 10, 3);
    let got: HashSet<(i64, i64)> = ring.into_iter().collect();
    let expected: HashSet<(i64, i64)> = vec![
        (10, 13),
        (10, 7),
        (13, 10),
        (7, 10),
        (11, 13),
        (9, 13),
        (11, 7),
        (9, 7),
        (13, 11),
        (13, 9),
        (7, 11),
        (7, 9),
        (12, 12),
        (8, 12),
        (12, 8),
        (8, 8),
    ]
    .into_iter()
    .collect();
    assert_eq!(got, expected);
}

#[test]
fn ring_is_eightfold_symmetric_for_positive_radius() {
    let cx = 20i64;
    let cy = 30i64;
    for r in 1..12i64 {
        let set: HashSet<(i64, i64)> = ring_points(cx, cy, r).into_iter().collect();
        for &(px, py) in &set {
            assert!(set.contains(&(2 * cx - px, py)));
            assert!(set.contains(&(px, 2 * cy - py)));
            assert!(set.contains(&(cx + py - cy, cy + px - cx)));
        }
    }
}

#[test]
fn tiles_on_radius_clips_to_grid() {
    let map = plain_map(12, 12);
    // Center near the corner: the ring of radius 3 loses its off-grid cells.
    let cells = map.tiles_on_radius(1, 1, 3);
    for &(x, y) in &cells {
        assert!(x < 12 && y < 12);
    }
    let got: HashSet<(usize, usize)> = cells.into_iter().collect();
    assert!(got.contains(&(1, 4)));
    assert!(got.contains(&(4, 1)));
    assert!(!got.contains(&(0, 0)));
}

#[test]
fn tiles_in_radius_small_discs() {
    let map = plain_map(16, 16);
    let disc0: HashSet<(usize, usize)> = map.tiles_in_radius(5, 5, 0).into_iter().collect();
    let just_center: HashSet<(usize, usize)> = vec![(5, 5)].into_iter().collect();
    assert_eq!(disc0, just_center);

    let disc1: HashSet<(usize, usize)> = map.tiles_in_radius(5, 5, 1).into_iter().collect();
    let plus: HashSet<(usize, usize)> =
        vec![(5, 5), (4, 5), (6, 5), (5, 4), (5, 6)].into_iter().collect();
    assert_eq!(disc1, plus);

    assert!(map.tiles_in_radius(5, 5, -1).is_empty());
}

#[test]
fn tiles_in_radius_clips_at_the_corner() {
    let map = plain_map(8, 8);
    let disc: HashSet<(usize, usize)> = map.tiles_in_radius(0, 0, 1).into_iter().collect();
    let expected: HashSet<(usize, usize)> = vec![(0, 0), (1, 0), (0, 1)].into_iter().collect();
    assert_eq!(disc, expected);
}

#[test]
fn ring_band_unions_and_deduplicates() {
    let map = plain_map(32, 32);
    let mut band = TileSet::new();
    map.tiles_on_radius_with_thickness(&mut band, 16, 16, 2, 2);
    // The band of radii 1..=2 around the center.
    let mut expected: HashSet<(usize, usize)> = HashSet::new();
    for r in 1..=2i64 {
        for (x, y) in map.tiles_on_radius(16, 16, r) {
            expected.insert((x, y));
        }
    }
    assert_eq!(band.len(), expected.len());
    for &(x, y) in &expected {
        assert!(band.contains(x, y));
    }
}

#[test]
fn tile_set_deduplicates_and_reports_membership() {
    let mut set = TileSet::new();
    assert_eq!(set.len(), 0);
    set.insert(3, 4);
    set.insert(3, 4);
    set.insert(5, 6);
    assert_eq!(set.len(), 2);
    assert!(set.contains(3, 4));
    assert!(set.contains(5, 6));
    assert!(!set.contains(4, 3));
    set.clear();
    assert_eq!(set.len(), 0);
    assert!(!set.contains(3, 4));
}
