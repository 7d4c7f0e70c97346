use picedit::chunks::{chunk_bounds, reported_total};

#[test]
fn chunks_cover_the_resource() {
    assert_eq!(chunk_bounds(10, 4), vec![(0, 4), (4, 8), (8, 10)]);
    assert_eq!(chunk_bounds(8, 4), vec![(0, 4), (4, 8)]);
    assert_eq!(chunk_bounds(3, 1048576), vec![(0, 3)]);
}

#[test]
fn empty_resource_has_no_chunks() {
    assert!(chunk_bounds(0, 16).is_empty());
}

#[test]
fn chunks_reach_the_largest_size() {
    let b = chunk_bounds(u32::MAX, u32::MAX / 2);
    assert_eq!(b, vec![(0, 2147483647), (2147483647, 4294967294), (4294967294, 4294967295)]);
}

#[test]
fn progress_total_prefers_announced_length() {
    assert_eq!(reported_total(100, 90), 100);
    assert_eq!(reported_total(0, 90), 90);
}
