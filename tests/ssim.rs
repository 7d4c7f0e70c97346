use picedit::ssim::{ssim_window_moments, WindowMoments};

fn ssim_of(m: &WindowMoments) -> f64 {
    let c1 = (0.01f64 * 255.0) * (0.01 * 255.0);
    let c2 = (0.03f64 * 255.0) * (0.03 * 255.0);
    let n = 64.0;
    let mu_a = m.sum_a as f64 * 1e-4 / n;
    let mu_b = m.sum_b as f64 * 1e-4 / n;
    let va = m.sum_aa as f64 * 1e-8 / n - mu_a * mu_a;
    let vb = m.sum_bb as f64 * 1e-8 / n - mu_b * mu_b;
    let cab = m.sum_ab as f64 * 1e-8 / n - mu_a * mu_b;
    ((2.0 * mu_a * mu_b + c1) * (2.0 * cab + c2)) / ((mu_a * mu_a + mu_b * mu_b + c1) * (va + vb + c2))
}

fn noise(w: usize, h: usize, seed: u32) -> Vec<u8> {
    let mut s = seed;
    let mut v = Vec::new();
    for _ in 0..w * h * 4 {
        s = s.wrapping_mul(1664525).wrapping_add(1013904223);
        v.push((s >> 24) as u8);
    }
    v
}

#[test]
fn image_against_itself_has_symmetric_moments() {
    let img = noise(16, 16, 7);
    let rows = ssim_window_moments(&img, &img, 16, 16);
    assert_eq!(rows.len(), 2);
    for row in &rows {
        assert_eq!(row.len(), 2);
        for m in row {
            assert_eq!(m.sum_a, m.sum_b);
            assert_eq!(m.sum_aa, m.sum_ab);
            assert_eq!(m.sum_bb, m.sum_ab);
            assert_eq!(ssim_of(m), 1.0);
        }
    }
}

#[test]
fn black_against_white_is_dissimilar() {
    let black = vec![0u8; 16 * 16 * 4];
    let white = vec![255u8; 16 * 16 * 4];
    let rows = ssim_window_moments(&black, &white, 16, 16);
    for row in &rows {
        for m in row {
            assert_eq!(m.sum_a, 0);
            assert_eq!(m.sum_b, 64 * 2_550_000);
            assert_eq!(m.sum_bb, 64 * 2_550_000u64 * 2_550_000);
            assert_eq!(m.sum_ab, 0);
            assert!(ssim_of(m) <= 0.01);
        }
    }
}

#[test]
fn luminance_weights_are_bt709() {
    let mut a = vec![0u8; 8 * 8 * 4];
    a[0] = 1;
    a[5] = 1;
    a[10] = 1;
    let rows = ssim_window_moments(&a, &a, 8, 8);
    assert_eq!(rows[0][0].sum_a, 2126 + 7152 + 722);
    assert_eq!(rows[0][0].sum_aa, 2126 * 2126 + 7152 * 7152 + 722 * 722);
}

#[test]
fn partial_windows_are_left_out() {
    let img = noise(9, 17, 3);
    let rows = ssim_window_moments(&img, &img, 9, 17);
    assert_eq!(rows.len(), 2);
    assert!(rows.iter().all(|r| r.len() == 1));
    let small = noise(7, 7, 1);
    assert!(ssim_window_moments(&small, &small, 7, 7).is_empty());
}
