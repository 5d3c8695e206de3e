use tracear_core::image::{build_pyramid, rgba_to_gray, GrayImage};

#[test]
fn downsample_averages() {
    let img = GrayImage::from_vec(2, 2, vec![10, 20, 30, 40]);
    let d = img.downsample_half();
    assert_eq!((d.w, d.h), (1, 1));
    assert_eq!(d.at(0, 0), 25);
}

#[test]
fn box_blur_preserves_flat_image() {
    let img = GrayImage::from_vec(8, 8, vec![77; 64]);
    let b = img.box_blur(2);
    assert!(b.data.iter().all(|&v| v == 77));
}

#[test]
fn box_blur_matches_naive_reference() {
    let mut img = GrayImage::new(23, 17); // odd sizes exercise the edges
    for (i, p) in img.data.iter_mut().enumerate() {
        *p = ((i * 37 + 11) % 256) as u8;
    }
    for radius in [1usize, 2, 3] {
        let fast = img.box_blur(radius);
        let r = radius as isize;
        let win = (2 * radius + 1) as u32;
        let norm = win * win;
        for y in 0..img.h as isize {
            for x in 0..img.w as isize {
                let mut s: u32 = 0;
                for dy in -r..=r {
                    for dx in -r..=r {
                        let xx = (x + dx).clamp(0, img.w as isize - 1) as usize;
                        let yy = (y + dy).clamp(0, img.h as isize - 1) as usize;
                        s += img.at(xx, yy) as u32;
                    }
                }
                let expect = ((s + norm / 2) / norm) as u8;
                assert_eq!(fast.at(x as usize, y as usize), expect, "r={radius} at ({x},{y})");
            }
        }
    }
}

#[test]
fn pyramid_levels_halve() {
    let img = GrayImage::new(64, 48);
    let p = build_pyramid(&img, 12, 8);
    let dims: Vec<(usize, usize)> = p.levels.iter().map(|l| (l.w, l.h)).collect();
    assert_eq!(dims, vec![(64, 48), (32, 24), (16, 12)]);
}

#[test]
fn pyramid_respects_level_cap() {
    let img = GrayImage::new(64, 48);
    let p = build_pyramid(&img, 1, 2);
    let dims: Vec<(usize, usize)> = p.levels.iter().map(|l| (l.w, l.h)).collect();
    assert_eq!(dims, vec![(64, 48), (32, 24)]);
    let q = build_pyramid(&img, 100, 8);
    assert_eq!(q.levels.len(), 1);
}

#[test]
fn downsample_rounds_and_drops_odd_edge() {
    // 3 x 3: the last row and column are dropped; (1 + 2 + 2 + 2 + 2) / 4 rounds up
    let img = GrayImage::from_vec(3, 3, vec![1, 2, 9, 2, 2, 9, 9, 9, 9]);
    let d = img.downsample_half();
    assert_eq!((d.w, d.h), (1, 1));
    assert_eq!(d.at(0, 0), 2);
    let img = GrayImage::from_vec(2, 2, vec![0, 0, 1, 1]);
    assert_eq!(img.downsample_half().at(0, 0), 1); // (2 + 2) / 4 = 1 with rounding
}

#[test]
fn box_blur_radius_zero_is_identity() {
    let img = GrayImage::from_vec(3, 2, vec![1, 2, 3, 4, 5, 6]);
    assert_eq!(img.box_blur(0).data, img.data);
}

#[test]
fn box_blur_single_pixel_value() {
    // 3 x 1 image, radius 1 at x = 0: window columns clamp to [0, 0, 1] over
    // three identical rows: (0 + 0 + 90) * 3 = 270, / 9 rounded = 30.
    let img = GrayImage::from_vec(3, 1, vec![0, 90, 180]);
    let b = img.box_blur(1);
    assert_eq!(b.at(0, 0), 30);
    assert_eq!(b.at(1, 0), 90);
    assert_eq!(b.at(2, 0), 150);
}

#[test]
fn set_then_at_reads_back() {
    let mut img = GrayImage::new(4, 3);
    img.set(2, 1, 200);
    assert_eq!(img.at(2, 1), 200);
    for y in 0..3 {
        for x in 0..4 {
            if (x, y) != (2, 1) {
                assert_eq!(img.at(x, y), 0);
            }
        }
    }
}

#[test]
fn area_reduce_halves_until_close() {
    let img = GrayImage::from_vec(8, 8, (0..64).map(|i| i as u8).collect());
    let r = img.area_reduce(2, 2);
    assert_eq!((r.w, r.h), (2, 2));
    let twice = img.downsample_half().downsample_half();
    assert_eq!(r.data, twice.data);
    // a target that is not 2x smaller leaves the image unchanged
    let same = img.area_reduce(5, 5);
    assert_eq!((same.w, same.h), (8, 8));
    assert_eq!(same.data, img.data);
}

#[test]
fn rgba_conversion_matches_luma() {
    let rgba = [255u8, 255, 255, 255, 0, 0, 0, 255];
    let g = rgba_to_gray(&rgba, 2, 1).unwrap();
    assert_eq!(g.at(0, 0), 255);
    assert_eq!(g.at(1, 0), 0);
}

#[test]
fn rgba_luma_weights_and_size_check() {
    // pure red, green, blue: 255*77/256, 255*150/256, 255*29/256 (floored)
    let rgba = [255u8, 0, 0, 9, 0, 255, 0, 9, 0, 0, 255, 9];
    let g = rgba_to_gray(&rgba, 3, 1).unwrap();
    assert_eq!(g.data, vec![76, 149, 28]);
    assert!(rgba_to_gray(&rgba, 2, 1).is_none());
    assert!(rgba_to_gray(&rgba, usize::MAX, 2).is_none());
}
