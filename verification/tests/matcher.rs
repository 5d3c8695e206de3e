use tracear_core::brief::Descriptor;
use tracear_core::matcher::{hamming, keep_best_per_train, nearest, nearest_within, second_nearest, Match};

#[test]
fn hamming_counts_bits() {
    let a: Descriptor = [0, 0, 0, 0];
    let b: Descriptor = [0b1011, 0, 1 << 63, 0];
    assert_eq!(hamming(&a, &b), 4);
    assert_eq!(hamming(&b, &b), 0);
}

#[test]
fn hamming_is_symmetric_and_bounded() {
    let a: Descriptor = [0xDEAD_BEEF, 1, 2, 3];
    let b: Descriptor = [!0u64, !1, !2, !3];
    assert_eq!(hamming(&a, &b), hamming(&b, &a));
    assert_eq!(hamming(&[0; 4], &[!0u64; 4]), 256);
}

#[test]
fn nearest_picks_identical_descriptor() {
    let d0: Descriptor = [0xAAAA, 0x5555, 0xF0F0, 0x0F0F];
    let d1: Descriptor = [!0xAAAA, !0x5555, !0xF0F0, !0x0F0F];
    assert_eq!(nearest(&d0, &[d1, d0]), (1, 0));
    assert_eq!(nearest(&d0, &[]), (0, u32::MAX));
    // ties go to the first index
    assert_eq!(nearest(&d0, &[d1, d0, d0]), (1, 0));
}

#[test]
fn second_nearest_skips_the_neighbourhood() {
    let d0: Descriptor = [0xDEAD_BEEF, 1, 2, 3];
    let mut twin = d0;
    twin[1] ^= 0b111; // distance 3
    let far: Descriptor = [!0u64, !1, !2, !3];
    let train = [d0, twin, far];
    // the best (index 0) and its spatial twin (index 1) are skipped
    let s = second_nearest(&d0, &train, &[true, true, false]);
    assert_eq!(s, hamming(&d0, &far));
    assert_eq!(second_nearest(&d0, &train, &[true, false, false]), 3);
    assert_eq!(second_nearest(&d0, &train, &[true, true, true]), u32::MAX);
}

#[test]
fn keeps_best_query_per_train_in_distance_order() {
    let ms = [
        Match { query: 0, train: 2, distance: 30 },
        Match { query: 1, train: 0, distance: 10 },
        Match { query: 2, train: 2, distance: 12 },
        Match { query: 3, train: 1, distance: 10 },
        Match { query: 4, train: 0, distance: 10 },
    ];
    let out = keep_best_per_train(&ms, 3);
    let got: Vec<(u32, u32, u32)> = out.iter().map(|m| (m.query, m.train, m.distance)).collect();
    // train 0: queries 1 and 4 tie at 10 -> the earlier query wins
    // train 2: query 2 (12) beats query 0 (30)
    assert_eq!(got, vec![(1, 0, 10), (3, 1, 10), (2, 2, 12)]);
    assert!(keep_best_per_train(&[], 4).is_empty());
}

#[test]
fn nearest_within_applies_the_radius() {
    let d0: Descriptor = [0, 0, 0, 0];
    let d1: Descriptor = [0b111, 0, 0, 0];
    let d2: Descriptor = [0b1, 0, 0, 1];
    // nearest is d2 at distance 2
    assert_eq!(nearest_within(&d0, &[d1, d2], 2), Some((1, 2)));
    assert_eq!(nearest_within(&d0, &[d1, d2], 1), None);
    assert_eq!(nearest_within(&d0, &[], 255), None);
}

#[test]
fn hamming_zero_only_for_equal_and_triangle() {
    let a: Descriptor = [1, 2, 3, 4];
    let b: Descriptor = [1, 2, 3, 5];
    let c: Descriptor = [0, 2, 7, 5];
    assert_eq!(hamming(&a, &b), 1);
    assert!(hamming(&a, &c) <= hamming(&a, &b) + hamming(&b, &c));
    assert_eq!(hamming(&a, &c), 3);
    assert_eq!(hamming(&b, &c), 2);
}
