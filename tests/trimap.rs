use picedit::trimap::{generate_trimap_bfs, trimap_from_seeds, AlphaClass};

fn half_image() -> Vec<u8> {
    let mut a = Vec::new();
    for _y in 0..4 {
        a.extend_from_slice(&[0, 0, 255, 255]);
    }
    a
}

#[test]
fn hard_edge_radius_one_reaches_whole_width() {
    let t = generate_trimap_bfs(&half_image(), 4, 4, 1);
    for y in 0..4 {
        assert_eq!(&t[y * 4..y * 4 + 4], &[128, 128, 128, 128]);
    }
}

#[test]
fn hard_edge_radius_zero_labels_columns() {
    let t = generate_trimap_bfs(&half_image(), 4, 4, 0);
    for y in 0..4 {
        assert_eq!(&t[y * 4..y * 4 + 4], &[0, 128, 128, 255]);
    }
}

#[test]
fn transition_alpha_is_seed() {
    // A mid-grey pixel in a 5x5 background field: it and its four
    // neighbours (alpha step above 0.3) are seeds.
    let mut a = vec![0u8; 25];
    a[12] = 128;
    let t = generate_trimap_bfs(&a, 5, 5, 1);
    for i in 0..25 {
        let (x, y) = ((i % 5) as i32, (i / 5) as i32);
        let d = (x - 2).abs() + (y - 2).abs();
        assert_eq!(t[i], if d <= 2 { 128 } else { 0 });
    }
}

#[test]
fn thresholds_follow_alpha_bytes() {
    // 12 counts as background, 243 as foreground, 13 and 242 as transition.
    let t = generate_trimap_bfs(&[12, 243], 2, 1, 0);
    assert_eq!(t, vec![128, 128]);
    let t = generate_trimap_bfs(&[12, 12, 12], 3, 1, 0);
    assert_eq!(t, vec![0, 0, 0]);
    let t = generate_trimap_bfs(&[243, 243], 2, 1, 3);
    assert_eq!(t, vec![255, 255]);
    let t = generate_trimap_bfs(&[13, 0, 0, 0], 4, 1, 1);
    assert_eq!(t, vec![128, 128, 0, 0]);
}

#[test]
fn distance_is_manhattan_from_seeds() {
    let w = 7usize;
    let h = 5usize;
    let mut seed = vec![false; w * h];
    seed[0] = true;
    seed[w * h - 1] = true;
    let class = vec![AlphaClass::Foreground; w * h];
    let t = trimap_from_seeds(&seed, &class, w, h, 3);
    for i in 0..w * h {
        let (x, y) = ((i % w) as i32, (i / w) as i32);
        let d = (x + y).min((6 - x) + (4 - y));
        assert_eq!(t[i], if d <= 3 { 128 } else { 255 });
    }
}

#[test]
fn labels_are_in_range() {
    let w = 9usize;
    let h = 6usize;
    let mut a = Vec::new();
    for i in 0..w * h {
        a.push(((i * 37) % 256) as u8);
    }
    let t = generate_trimap_bfs(&a, w, h, 2);
    assert!(t.iter().all(|&v| v == 0 || v == 128 || v == 255));
}

#[test]
fn empty_plane_gives_empty_trimap() {
    assert!(generate_trimap_bfs(&[], 0, 3, 5).is_empty());
    let transition = vec![AlphaClass::Transition; 2];
    assert_eq!(trimap_from_seeds(&[false, false], &transition, 2, 1, 4), vec![128, 128]);
}
