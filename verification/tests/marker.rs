use tracear_core::image::GrayImage;
use tracear_core::marker::{
    crop_template, load_all, pack_markers, CompiledMarker, LoadError, MarkerError, TrackPatch,
    TrackingLevel, PATCH_AREA,
};
use tracear_core::rng::XorShift64;

// Markers here are built field by field: compiling one from an image runs on
// floating point, outside this library. Positions, scales and scores are
// carried as f32 bit patterns.
fn sample_marker(w: u32, h: u32, seed: u64) -> CompiledMarker {
    let mut rng = XorShift64::new(seed);
    let mut position_bits = Vec::new();
    let mut descriptors = Vec::new();
    for i in 0..6u32 {
        let x = (i as f32 * 17.5) % w as f32;
        let y = (i as f32 * 11.25) % h as f32;
        position_bits.push((x.to_bits(), y.to_bits()));
        descriptors.push([rng.next_u64(), rng.next_u64(), rng.next_u64(), rng.next_u64()]);
    }
    let mut tracking_levels = Vec::new();
    for (li, scale) in [1.0f32, 0.5].iter().enumerate() {
        let mut patches = Vec::new();
        for k in 0..3usize {
            let template: Vec<u8> =
                (0..PATCH_AREA).map(|j| ((j * 7 + k * 13 + li + seed as usize) % 256) as u8).collect();
            patches.push(TrackPatch {
                x_bits: (k as f32 * 10.0 + 11.0).to_bits(),
                y_bits: (k as f32 * 4.0 + 11.0).to_bits(),
                score_bits: (25.0f32 + k as f32).to_bits(),
                template,
            });
        }
        tracking_levels.push(TrackingLevel { scale_bits: scale.to_bits(), patches });
    }
    CompiledMarker { width: w, height: h, position_bits, descriptors, tracking_levels }
}

#[test]
fn serialization_roundtrip() {
    let m = sample_marker(128, 128, 3);
    let bytes = m.to_bytes();
    let back = CompiledMarker::from_bytes(&bytes).unwrap();
    assert_eq!((back.width, back.height), (m.width, m.height));
    assert_eq!(back.position_bits, m.position_bits);
    assert_eq!(back.descriptors, m.descriptors);
    assert_eq!(back.tracking_levels, m.tracking_levels);
}

#[test]
fn rejects_corrupt_data() {
    let mut bytes = sample_marker(128, 128, 3).to_bytes();
    assert!(CompiledMarker::from_bytes(&bytes[..10]).is_err()); // truncated header
    assert!(CompiledMarker::from_bytes(&bytes[..bytes.len() - 1]).is_err()); // truncated body
    bytes[0] = b'X';
    assert!(CompiledMarker::from_bytes(&bytes).is_err()); // bad magic
}

#[test]
fn pack_roundtrip() {
    let a = sample_marker(128, 128, 3);
    let b = sample_marker(128, 96, 8);
    let pack = pack_markers(&[a.to_bytes(), b.to_bytes()]);
    let loaded = load_all(&pack).unwrap();
    assert_eq!(loaded.len(), 2);
    assert_eq!((loaded[0].width, loaded[0].height), (128, 128));
    assert_eq!((loaded[1].width, loaded[1].height), (128, 96));
    assert_eq!(loaded[0].descriptors, a.descriptors);
    assert_eq!(loaded[1].tracking_levels, b.tracking_levels);
}

#[test]
fn load_all_accepts_single_marker_file() {
    let m = sample_marker(128, 128, 3);
    let loaded = load_all(&m.to_bytes()).unwrap();
    assert_eq!(loaded.len(), 1);
    assert_eq!(loaded[0].position_bits, m.position_bits);
}

#[test]
fn pack_rejects_corrupt_data() {
    let m = sample_marker(128, 128, 3);
    let pack = pack_markers(&[m.to_bytes()]);
    assert!(load_all(&pack[..8]).is_err()); // truncated header
    assert!(load_all(&pack[..pack.len() - 1]).is_err()); // truncated body
    let mut bad = pack.clone();
    bad[0] = b'X';
    assert!(load_all(&bad).is_err()); // bad magic
    let mut extra = pack.clone();
    extra.push(0);
    assert!(load_all(&extra).is_err()); // trailing bytes
}

#[test]
fn empty_marker_has_exact_bytes() {
    let m = CompiledMarker {
        width: 0x0102,
        height: 7,
        position_bits: vec![],
        descriptors: vec![],
        tracking_levels: vec![],
    };
    let bytes = m.to_bytes();
    assert_eq!(
        bytes,
        vec![
            b'T', b'R', b'C', b'R', 2, 0, 0, 0, 0x02, 0x01, 0, 0, 7, 0, 0, 0, 0, 0, 0, 0, 0, 0, 0, 0
        ]
    );
    let back = CompiledMarker::from_bytes(&bytes).unwrap();
    assert_eq!((back.width, back.height), (0x0102, 7));
}

#[test]
fn encoded_length_follows_the_layout() {
    let m = sample_marker(64, 64, 1);
    // header 20 + 6 features * 40 + level count 4 + 2 levels * (8 + 3 * 453)
    assert_eq!(m.to_bytes().len(), 20 + 6 * 40 + 4 + 2 * (8 + 3 * 453));
}

#[test]
fn marker_error_variants() {
    let bytes = sample_marker(128, 128, 3).to_bytes();
    assert_eq!(CompiledMarker::from_bytes(&bytes[..3]).unwrap_err(), MarkerError::Truncated);
    assert_eq!(CompiledMarker::from_bytes(&bytes[..6]).unwrap_err(), MarkerError::Truncated);
    assert_eq!(CompiledMarker::from_bytes(&bytes[..30]).unwrap_err(), MarkerError::Truncated);
    let mut bad = bytes.clone();
    bad[1] = b'X';
    assert_eq!(CompiledMarker::from_bytes(&bad).unwrap_err(), MarkerError::BadMagic);
    let mut v3 = bytes.clone();
    v3[4] = 3;
    assert_eq!(CompiledMarker::from_bytes(&v3).unwrap_err(), MarkerError::UnsupportedVersion(3));
    let mut extra = bytes.clone();
    extra.push(9);
    assert_eq!(CompiledMarker::from_bytes(&extra).unwrap_err(), MarkerError::TrailingBytes);
}

#[test]
fn load_error_variants() {
    let m = sample_marker(128, 128, 3).to_bytes();
    let mut bad_single = m.clone();
    bad_single.truncate(40);
    assert_eq!(load_all(&bad_single).unwrap_err(), LoadError::Marker(MarkerError::Truncated));
    assert_eq!(load_all(b"NOPE").unwrap_err(), LoadError::BadMagic);
    assert_eq!(load_all(b"TRPK").unwrap_err(), LoadError::BadMagic);

    let pack = pack_markers(&[m.clone(), m.clone()]);
    let mut v2 = pack.clone();
    v2[4] = 2;
    assert_eq!(load_all(&v2).unwrap_err(), LoadError::UnsupportedPackVersion(2));
    assert_eq!(load_all(&pack[..14]).unwrap_err(), LoadError::TableTruncated);
    assert_eq!(load_all(&pack[..21]).unwrap_err(), LoadError::BodyLengthMismatch);

    // second entry's first byte corrupted: the entry index is reported
    let mut bad_entry = pack.clone();
    bad_entry[12 + 8 + m.len()] = b'Q';
    assert_eq!(load_all(&bad_entry).unwrap_err(), LoadError::Entry(1, MarkerError::BadMagic));
}

#[test]
fn pack_layout_is_plain_concatenation() {
    let a = vec![1u8, 2, 3];
    let b = vec![9u8];
    let pack = pack_markers(&[a, b]);
    assert_eq!(
        pack,
        vec![b'T', b'R', b'P', b'K', 1, 0, 0, 0, 2, 0, 0, 0, 3, 0, 0, 0, 1, 0, 0, 0, 1, 2, 3, 9]
    );
    let empty = pack_markers(&[]);
    assert_eq!(load_all(&empty).unwrap().len(), 0);
}

#[test]
fn crop_template_copies_the_window() {
    let mut img = GrayImage::new(30, 25);
    for y in 0..25 {
        for x in 0..30 {
            img.set(x, y, (x * 8 + y) as u8);
        }
    }
    let t = crop_template(&img, 12, 11);
    assert_eq!(t.len(), PATCH_AREA);
    assert_eq!(t[0], img.at(2, 1));
    assert_eq!(t[20], img.at(22, 1));
    assert_eq!(t[21 * 20 + 20], img.at(22, 21));
    assert_eq!(t[21 * 10 + 10], img.at(12, 11));
}
