use tracear_core::fast::{detect, has_arc9};
use tracear_core::image::GrayImage;

#[test]
fn arc9_mask_logic() {
    assert!(has_arc9(0b0000_0001_1111_1111)); // 9 consecutive
    assert!(!has_arc9(0b0000_0000_1111_1111)); // only 8
    assert!(has_arc9(0b1111_1000_0000_1111)); // 9 consecutive across the wrap
    assert!(!has_arc9(0b0101_0101_0101_0101));
    assert!(has_arc9(0xFFFF));
}

#[test]
fn detects_square_corners_not_edges() {
    // Bright 20x20 square on dark background.
    let mut img = GrayImage::new(40, 40);
    for p in img.data.iter_mut() {
        *p = 20;
    }
    for y in 10..30 {
        for x in 10..30 {
            img.set(x, y, 220);
        }
    }
    let corners = detect(&img, 40, 3);
    assert!(corners.len() >= 4, "found {} corners", corners.len());
    let expected = [(10.0, 10.0), (29.0, 10.0), (10.0, 29.0), (29.0, 29.0)];
    for c in &corners {
        let (cx, cy) = (c.x as f32, c.y as f32);
        let near = expected
            .iter()
            .any(|&(ex, ey): &(f32, f32)| ((cx - ex).powi(2) + (cy - ey).powi(2)).sqrt() < 2.5);
        assert!(near, "corner at ({cx},{cy}) is not near a square corner");
    }
}

#[test]
fn flat_image_has_no_corners() {
    let img = GrayImage::from_vec(32, 32, vec![128; 1024]);
    assert!(detect(&img, 20, 3).is_empty());
}

#[test]
fn corners_respect_the_border() {
    let mut img = GrayImage::new(40, 40);
    for y in 10..30 {
        for x in 10..30 {
            img.set(x, y, 220);
        }
    }
    // a border of 12 keeps every corner of the square (at 10 / 29) out
    assert!(detect(&img, 40, 12).is_empty());
    // corners come out in row-major order
    let corners = detect(&img, 40, 3);
    for w in corners.windows(2) {
        assert!((w[0].y, w[0].x) < (w[1].y, w[1].x));
    }
}

#[test]
fn flat_image_has_no_corners_at_threshold_one() {
    let img = GrayImage::from_vec(20, 20, vec![7; 400]);
    assert!(detect(&img, 1, 3).is_empty());
}
