use picedit::quantize::{build_palette, dither_to_palette, median_cut_quantize, nearest_color, quantize_colors};

#[test]
fn two_colours_stay_black_and_white() {
    let img = vec![0, 0, 0, 255, 255, 255, 255, 255];
    let out = quantize_colors(&img, 2, 1, 2);
    assert_eq!(out, vec![0, 0, 0, 255, 255, 255, 255, 255]);
}

#[test]
fn too_few_colours_returns_copy() {
    let img = vec![10, 20, 30, 40, 50, 60, 70, 80];
    assert_eq!(quantize_colors(&img, 2, 1, 1), img);
}

#[test]
fn wrong_length_returns_copy() {
    let img = vec![10, 20, 30, 40, 50];
    assert_eq!(quantize_colors(&img, 2, 1, 8), img);
}

#[test]
fn palette_is_sorted_median_cut() {
    // Red values 200, 10, 100, 50: sorted along red and cut at the median.
    let img = vec![200, 0, 0, 255, 10, 0, 0, 255, 100, 0, 0, 255, 50, 0, 0, 255];
    let pal = build_palette(&img, 4, 1, 2);
    assert_eq!(pal, vec![(30, 0, 0), (150, 0, 0)]);
}

#[test]
fn palette_size_is_bounded_by_pixels() {
    let img = vec![1, 2, 3, 255, 4, 5, 6, 255, 7, 8, 9, 255];
    let pal = build_palette(&img, 3, 1, 16);
    assert_eq!(pal.len(), 3);
}

#[test]
fn palette_of_empty_image_is_black() {
    assert_eq!(build_palette(&[], 0, 0, 16), vec![(0, 0, 0)]);
}

#[test]
fn nearest_prefers_first_on_tie() {
    let pal = vec![(10, 0, 0), (0, 0, 0), (20, 0, 0)];
    assert_eq!(nearest_color(&pal, 10, 0, 0), (10, 0, 0));
    assert_eq!(nearest_color(&pal, 5, 0, 0), (10, 0, 0));
    assert_eq!(nearest_color(&pal, 16, 0, 0), (20, 0, 0));
}

#[test]
fn nearest_weights_green_most() {
    // Distance to (10,0,0) is 2*100 + 4*100 = 600, to (0,0,13) it is
    // 4*100 + 3*169 = 907.
    let pal = vec![(0, 0, 13), (10, 0, 0)];
    assert_eq!(nearest_color(&pal, 0, 10, 0), (10, 0, 0));
}

#[test]
fn error_diffuses_to_the_right() {
    let img = vec![100, 100, 100, 7, 100, 100, 100, 9];
    let pal = vec![(0, 0, 0), (255, 255, 255)];
    let out = dither_to_palette(&img, 2, 1, &pal);
    assert_eq!(out, vec![0, 0, 0, 7, 255, 255, 255, 9]);
}

#[test]
fn quantized_image_uses_few_colours_and_keeps_alpha() {
    let w = 16usize;
    let h = 8usize;
    let mut img = Vec::new();
    for y in 0..h {
        for x in 0..w {
            img.extend_from_slice(&[(x * 16) as u8, (y * 32) as u8, ((x + y) * 8) as u8, (x * 3 + y) as u8]);
        }
    }
    let out = median_cut_quantize(&img, w, h, 4);
    assert_eq!(out.len(), img.len());
    let mut colours = std::collections::HashSet::new();
    for k in 0..w * h {
        assert_eq!(out[4 * k + 3], img[4 * k + 3]);
        colours.insert((out[4 * k], out[4 * k + 1], out[4 * k + 2]));
    }
    assert!(colours.len() <= 4);
    let pal = build_palette(&img, w, h, 4);
    for c in colours {
        assert!(pal.contains(&c));
    }
}
