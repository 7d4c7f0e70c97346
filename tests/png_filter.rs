use picedit::png_filter::{select_optimal_filters, select_png_filters};

fn constant_image(w: usize, h: usize, px: [u8; 4]) -> Vec<u8> {
    let mut v = Vec::new();
    for _ in 0..w * h {
        v.extend_from_slice(&px);
    }
    v
}

#[test]
fn constant_image_picks_sub_then_up() {
    // Row 0: None costs 4·(3·128 + 1) = 1540, Sub only the first pixel, 385.
    // Row 1: Up costs 0.
    let img = constant_image(4, 2, [128, 128, 128, 255]);
    assert_eq!(select_png_filters(&img, 4, 2), vec![1, 2]);
}

#[test]
fn wrong_length_gives_zero_filters() {
    let img = vec![1u8; 10];
    assert_eq!(select_png_filters(&img, 4, 3), vec![0, 0, 0]);
}

#[test]
fn empty_height_gives_no_filters() {
    assert_eq!(select_png_filters(&[], 5, 0), Vec::<u8>::new());
}

#[test]
fn horizontal_ramp_prefers_sub() {
    // Each pixel adds 40 (mod 256) in every channel: Sub and Paeth leave 40s,
    // and Sub comes first.
    let w = 8usize;
    let mut img = Vec::new();
    for _y in 0..1 {
        for x in 0..w {
            let v = (x * 40) as u8;
            img.extend_from_slice(&[v, v, v, v]);
        }
    }
    assert_eq!(select_optimal_filters(&img, w, 1), vec![1]);
}

#[test]
fn signed_cost_treats_high_bytes_as_small() {
    // A 255 byte is -1 as a signed residual and costs 1: None costs 16 on a
    // row of four such pixels, Sub only 4. A single pixel costs 4 under every
    // filter, and the lowest index wins.
    let img = constant_image(4, 1, [255, 255, 255, 255]);
    assert_eq!(select_optimal_filters(&img, 4, 1), vec![1]);
    let img2 = constant_image(1, 1, [255, 255, 255, 255]);
    assert_eq!(select_optimal_filters(&img2, 1, 1), vec![0]);
}

#[test]
fn filters_are_valid_for_noise() {
    let w = 13usize;
    let h = 7usize;
    let mut img = Vec::new();
    let mut s: u32 = 12345;
    for _ in 0..w * h * 4 {
        s = s.wrapping_mul(1103515245).wrapping_add(12345);
        img.push((s >> 16) as u8);
    }
    let f = select_png_filters(&img, w as u32, h as u32);
    assert_eq!(f.len(), h);
    assert!(f.iter().all(|&b| b <= 4));
}
