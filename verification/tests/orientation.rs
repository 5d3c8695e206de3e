use tracear_core::brief::descriptor_from_pairs;
use tracear_core::image::GrayImage;
use tracear_core::orientation::{intensity_moments, u_max_table};

fn gradient_image(horizontal: bool) -> GrayImage {
    let mut img = GrayImage::new(64, 64);
    for y in 0..64 {
        for x in 0..64 {
            let v = if horizontal { x * 4 } else { y * 4 };
            img.set(x, y, v.min(255) as u8);
        }
    }
    img
}

#[test]
fn patch_rows_are_rounded_circle() {
    let t = u_max_table();
    assert_eq!(t, [15, 15, 15, 15, 14, 14, 14, 13, 13, 12, 11, 10, 9, 7, 5, 0]);
    for (v, &u) in t.iter().enumerate() {
        let exact = ((225 - v * v) as f64).sqrt();
        assert_eq!(u as f64, (exact + 0.5).floor());
    }
}

#[test]
fn horizontal_gradient_moment_points_along_x() {
    let img = gradient_image(true);
    let (m10, m01) = intensity_moments(&img, 32, 32);
    assert!(m10 > 0);
    assert_eq!(m01, 0);
}

#[test]
fn vertical_gradient_moment_points_along_y() {
    let img = gradient_image(false);
    let (m10, m01) = intensity_moments(&img, 32, 32);
    assert_eq!(m10, 0);
    assert!(m01 > 0);
}

#[test]
fn flat_patch_has_zero_moments() {
    let img = GrayImage::from_vec(40, 40, vec![90; 1600]);
    assert_eq!(intensity_moments(&img, 20, 20), (0, 0));
}

#[test]
fn descriptor_bits_follow_comparisons() {
    let mut img = GrayImage::new(8, 1);
    for x in 0..8 {
        img.set(x, 0, (x * 10) as u8);
    }
    // pair i compares x = i % 8 against x = (i + 1) % 8: darker except at 7 -> 0
    let pairs: Vec<(usize, usize, usize, usize)> = (0..256).map(|i| (i % 8, 0, (i + 1) % 8, 0)).collect();
    let d = descriptor_from_pairs(&img, &pairs);
    for i in 0..256 {
        let bit = (d[i / 64] >> (i % 64)) & 1 == 1;
        assert_eq!(bit, i % 8 != 7, "bit {i}");
    }
    assert_eq!(d[0], 0x7F7F_7F7F_7F7F_7F7F);
}
