use picedit::matting::{collect_samples, spiral_offsets};

#[test]
fn spiral_of_radius_one_is_ring_by_distance() {
    // Row-major order within each distance.
    assert_eq!(
        spiral_offsets(1),
        vec![(0, -1, 1), (-1, 0, 1), (1, 0, 1), (0, 1, 1), (-1, -1, 2), (1, -1, 2), (-1, 1, 2), (1, 1, 2)]
    );
}

#[test]
fn spiral_of_search_radius_covers_square() {
    let s = spiral_offsets(25);
    assert_eq!(s.len(), 51 * 51 - 1);
    assert!(s.windows(2).all(|p| p[0].2 <= p[1].2));
    assert!(s.iter().all(|t| t.2 as isize == t.0 * t.0 + t.1 * t.1));
}

#[test]
fn spiral_of_radius_zero_is_empty() {
    assert!(spiral_offsets(0).is_empty());
}

#[test]
fn samples_are_nearest_first_and_capped() {
    // A 7x1 strip: foreground on the right, background on the left.
    let trimap = vec![0, 0, 0, 128, 255, 255, 255];
    let spiral = spiral_offsets(3);
    let (fg, bg) = collect_samples(&trimap, 7, 1, 3, 0, &spiral);
    assert_eq!(fg, vec![(4, 1), (5, 4), (6, 9)]);
    assert_eq!(bg, vec![(2, 1), (1, 4), (0, 9)]);
    let (fg, bg) = collect_samples(&trimap, 7, 1, 1, 0, &spiral);
    assert_eq!(fg, vec![(4, 9)]);
    assert_eq!(bg, vec![(0, 1), (2, 1)]);
}

#[test]
fn unknown_pixels_are_not_samples() {
    let trimap = vec![128u8; 9];
    let spiral = spiral_offsets(2);
    let (fg, bg) = collect_samples(&trimap, 3, 3, 1, 1, &spiral);
    assert!(fg.is_empty() && bg.is_empty());
}
