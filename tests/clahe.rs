use picedit::clahe::apply_clahe;

#[test]
fn uniform_tile_histograms_are_kept() {
    // 32x32 grey image, 2x2 tiles of 16x16: each tile holds every level once.
    let w = 32usize;
    let h = 32usize;
    let mut img = Vec::new();
    for y in 0..h {
        for x in 0..w {
            let v = ((y % 16) * 16 + (x % 16)) as u8;
            img.extend_from_slice(&[v, v, v, 200]);
        }
    }
    let mut out = img.clone();
    apply_clahe(&mut out, w, h, 512, 2);
    for (a, b) in img.iter().zip(out.iter()) {
        assert!((*a as i32 - *b as i32).abs() <= 1);
    }
    assert_eq!(out, img);
}

#[test]
fn single_pixel_is_stretched() {
    let mut img = vec![100, 100, 100, 77];
    apply_clahe(&mut img, 1, 1, 512, 2);
    assert_eq!(img, vec![254, 254, 254, 77]);
}

#[test]
fn black_pixel_becomes_grey_of_new_luminance() {
    // One black pixel alone in its tile maps to 255 through the table.
    let mut img = vec![0, 0, 0, 9];
    apply_clahe(&mut img, 1, 1, 512, 4);
    assert_eq!(img, vec![255, 255, 255, 9]);
}

#[test]
fn alpha_and_length_are_kept() {
    let w = 11usize;
    let h = 7usize;
    let mut img = Vec::new();
    for i in 0..w * h {
        img.extend_from_slice(&[(i * 7) as u8, (i * 13) as u8, (i * 29) as u8, (i * 3) as u8]);
    }
    let before = img.clone();
    apply_clahe(&mut img, w, h, 768, 3);
    assert_eq!(img.len(), before.len());
    for k in 0..w * h {
        assert_eq!(img[4 * k + 3], before[4 * k + 3]);
    }
}

#[test]
fn empty_image_is_untouched() {
    let mut img: Vec<u8> = Vec::new();
    apply_clahe(&mut img, 0, 5, 512, 8);
    assert!(img.is_empty());
}
