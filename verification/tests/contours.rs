use snapseg::contour::{collect_segments, marching_squares, EdgeKey};
use snapseg::edges::{naive_boundary, neighbour_index, reflect};
use snapseg::types::BoolMask;

#[test]
fn empty_mask_yields_no_polylines() {
    let mask = BoolMask::filled(10, 10, false);
    assert!(marching_squares(&mask).is_empty());
}

#[test]
fn full_mask_yields_no_polylines() {
    let mask = BoolMask::filled(10, 10, true);
    assert!(marching_squares(&mask).is_empty());
}

#[test]
fn small_square_one_closed_polyline() {
    let mut mask = BoolMask::filled(8, 8, false);
    for y in 2..6 {
        for x in 2..6 {
            mask.set(y, x, true);
        }
    }
    let lines = marching_squares(&mask);
    assert_eq!(lines.len(), 1);
    let line = &lines[0];
    // Closed: first == last.
    let first = line[0].to_half_pixel();
    let last = line[line.len() - 1].to_half_pixel();
    assert_eq!(first.0, last.0);
    assert_eq!(first.1, last.1);
    assert!(line.len() >= 16);
}

#[test]
fn single_pixel_gives_a_diamond() {
    let mut mask = BoolMask::filled(3, 3, false);
    mask.set(1, 1, true);
    assert_eq!(collect_segments(&mask).len(), 4);
    let lines = marching_squares(&mask);
    assert_eq!(lines.len(), 1);
    let line = &lines[0];
    assert_eq!(line.len(), 5);
    assert_eq!(line[0], line[4]);
    // Every vertex is a midpoint of an edge around the pixel at (1, 1).
    for k in line {
        let (x2, y2) = k.to_half_pixel();
        assert!((x2 == 2 && (y2 == 1 || y2 == 3)) || (y2 == 2 && (x2 == 1 || x2 == 3)), "{k:?}");
    }
    let _ = EdgeKey { horizontal: true, row: 0, col: 0 };
}

#[test]
fn two_separate_blobs_give_two_polylines() {
    let mut mask = BoolMask::filled(6, 8, false);
    mask.set(1, 1, true);
    mask.set(1, 2, true);
    mask.set(4, 5, true);
    assert_eq!(marching_squares(&mask).len(), 2);
}

#[test]
fn boundary_pixels_in_scan_order() {
    let mut mask = BoolMask::filled(4, 4, false);
    for y in 0..3 {
        for x in 0..3 {
            mask.set(y, x, true);
        }
    }
    // Only (1, 1) is interior; everything else set is on the boundary.
    let b = naive_boundary(&mask);
    assert_eq!(
        b,
        vec![(0, 0), (1, 0), (2, 0), (0, 1), (2, 1), (0, 2), (1, 2), (2, 2)]
    );
    assert!(naive_boundary(&BoolMask::filled(3, 3, false)).is_empty());
}

#[test]
fn reflect_mirrors_at_both_ends() {
    assert_eq!(reflect(-1, 5), 1);
    assert_eq!(reflect(-2, 5), 2);
    assert_eq!(reflect(5, 5), 3);
    assert_eq!(reflect(6, 5), 2);
    assert_eq!(reflect(3, 5), 3);
    assert_eq!(reflect(8, 5), 0);
    assert_eq!(reflect(7, 1), 0);
}

#[test]
fn neighbours_wrap_on_closed_polylines() {
    assert_eq!(neighbour_index(5, 0, -1, true), Some(4));
    assert_eq!(neighbour_index(5, 4, 1, true), Some(0));
    assert_eq!(neighbour_index(5, 0, -1, false), None);
    assert_eq!(neighbour_index(5, 4, 1, false), None);
    assert_eq!(neighbour_index(5, 2, 2, false), Some(4));
}

#[test]
fn blob_touching_the_border_gives_an_open_polyline() {
    let mut mask = BoolMask::filled(5, 5, false);
    for (y, x) in [(0, 1), (0, 2), (1, 1), (1, 2)] {
        mask.set(y, x, true);
    }
    let lines = marching_squares(&mask);
    assert_eq!(lines.len(), 1);
    let line = &lines[0];
    assert_ne!(line[0], line[line.len() - 1]);
    // Both ends lie on the top image border (doubled y == 0).
    assert_eq!(line[0].to_half_pixel().1, 0);
    assert_eq!(line[line.len() - 1].to_half_pixel().1, 0);
}

#[test]
fn interior_blobs_give_closed_polylines_covering_every_segment() {
    let mut mask = BoolMask::filled(7, 9, false);
    for (y, x) in [(1, 1), (1, 2), (2, 2), (3, 2), (4, 5), (5, 5), (5, 6), (2, 6)] {
        mask.set(y, x, true);
    }
    let segments = collect_segments(&mask).len();
    let lines = marching_squares(&mask);
    let mut steps = 0;
    for line in &lines {
        assert_eq!(line[0], line[line.len() - 1]);
        steps += line.len() - 1;
    }
    assert_eq!(steps, segments);
}
