//! FAST-9 corner detector with SAD score and 3x3 non-max suppression.
//!
//! The contiguous-arc test uses a 16-bit ring mask: AND-ing the mask with its
//! own 1-bit rotation k times leaves a bit set iff k+1 circularly-consecutive
//! bits were set, so 8 iterations test for an arc of length >= 9.

use vstd::prelude::*;
use crate::image::{GrayImage, ImageView, lemma_index_bound, lemma_div_mod_index};
use crate::keypoint::{scan_sorted, lemma_fast_corners_scan_sorted};

verus! {

/// Column offsets of the radius-3 Bresenham circle, clockwise from 12 o'clock.
pub open spec fn circle_dx(i: int) -> int {
    seq![0int, 1, 2, 3, 3, 3, 2, 1, 0, -1, -2, -3, -3, -3, -2, -1][i]
}

/// Row offsets of the radius-3 Bresenham circle, clockwise from 12 o'clock.
pub open spec fn circle_dy(i: int) -> int {
    seq![-3int, -3, -2, -1, 0, 1, 2, 3, 3, 3, 2, 1, 0, -1, -2, -3][i]
}

/// Offset of ring sample `i` (0..15) relative to the center pixel.
pub fn circle_offset(i: usize) -> (d: (i32, i32))
    requires
        i < 16,
    ensures
        d.0 == circle_dx(i as int),
        d.1 == circle_dy(i as int),
        -3 <= d.0 <= 3,
        -3 <= d.1 <= 3,
{
    match i {
        0 => (0, -3),
        1 => (1, -3),
        2 => (2, -2),
        3 => (3, -1),
        4 => (3, 0),
        5 => (3, 1),
        6 => (2, 2),
        7 => (1, 3),
        8 => (0, 3),
        9 => (-1, 3),
        10 => (-2, 2),
        11 => (-3, 1),
        12 => (-3, 0),
        13 => (-3, -1),
        14 => (-2, -2),
        _ => (-1, -3),
    }
}

/// 1-bit left rotation of a 16-bit ring mask.
pub open spec fn rot1(m: u16) -> u16 {
    (m << 1u16) | (m >> 15u16)
}

/// The window of 9 circularly consecutive ring bits starting at bit `s`.
pub open spec fn arc_window(s: int) -> u16 {
    seq![
        0x01FFu16, 0x03FE, 0x07FC, 0x0FF8, 0x1FF0, 0x3FE0, 0x7FC0, 0xFF80,
        0xFF01, 0xFE03, 0xFC07, 0xF80F, 0xF01F, 0xE03F, 0xC07F, 0x80FF,
    ][s]
}

/// The ring mask has 9 (or more) circularly consecutive set bits.
pub open spec fn has_run9(m: u16) -> bool {
    exists|s: int| 0 <= s < 16 && #[trigger] (m & arc_window(s)) == arc_window(s)
}

/// The mask ANDed with its own rotation `k` times.
pub open spec fn and_rot(m: u16, k: nat) -> u16
    decreases k,
{
    if k == 0 {
        m
    } else {
        let r = and_rot(m, (k - 1) as nat);
        r & rot1(r)
    }
}

/// The 16 windows written out.
pub open spec fn run9_disj(m: u16) -> bool {
    (m & 0x01FF) == 0x01FF || (m & 0x03FE) == 0x03FE || (m & 0x07FC) == 0x07FC || (m & 0x0FF8)
        == 0x0FF8 || (m & 0x1FF0) == 0x1FF0 || (m & 0x3FE0) == 0x3FE0 || (m & 0x7FC0) == 0x7FC0 || (m
        & 0xFF80) == 0xFF80 || (m & 0xFF01) == 0xFF01 || (m & 0xFE03) == 0xFE03 || (m & 0xFC07)
        == 0xFC07 || (m & 0xF80F) == 0xF80F || (m & 0xF01F) == 0xF01F || (m & 0xE03F) == 0xE03F || (m
        & 0xC07F) == 0xC07F || (m & 0x80FF) == 0x80FF
}

proof fn lemma_run9_disj(m: u16)
    ensures
        has_run9(m) == run9_disj(m),
{
    if has_run9(m) {
        let s = choose|s: int| 0 <= s < 16 && #[trigger] (m & arc_window(s)) == arc_window(s);
        assert(0 <= s < 16);
    } else {
        assert((m & arc_window(0)) != arc_window(0));
        assert((m & arc_window(1)) != arc_window(1));
        assert((m & arc_window(2)) != arc_window(2));
        assert((m & arc_window(3)) != arc_window(3));
        assert((m & arc_window(4)) != arc_window(4));
        assert((m & arc_window(5)) != arc_window(5));
        assert((m & arc_window(6)) != arc_window(6));
        assert((m & arc_window(7)) != arc_window(7));
        assert((m & arc_window(8)) != arc_window(8));
        assert((m & arc_window(9)) != arc_window(9));
        assert((m & arc_window(10)) != arc_window(10));
        assert((m & arc_window(11)) != arc_window(11));
        assert((m & arc_window(12)) != arc_window(12));
        assert((m & arc_window(13)) != arc_window(13));
        assert((m & arc_window(14)) != arc_window(14));
        assert((m & arc_window(15)) != arc_window(15));
    }
}

proof fn lemma_and_rot8(m: u16)
    ensures
        (and_rot(m, 8) != 0) == has_run9(m),
{
    reveal_with_fuel(and_rot, 9);
    lemma_run9_disj(m);
    let r1 = m & rot1(m);
    let r2 = r1 & rot1(r1);
    let r3 = r2 & rot1(r2);
    let r4 = r3 & rot1(r3);
    let r5 = r4 & rot1(r4);
    let r6 = r5 & rot1(r5);
    let r7 = r6 & rot1(r6);
    let r8 = r7 & rot1(r7);
    assert(and_rot(m, 8) == r8);
    assert((r8 != 0) == ((m & 0x01FF) == 0x01FF || (m & 0x03FE) == 0x03FE || (m & 0x07FC) == 0x07FC
        || (m & 0x0FF8) == 0x0FF8 || (m & 0x1FF0) == 0x1FF0 || (m & 0x3FE0) == 0x3FE0 || (m & 0x7FC0)
        == 0x7FC0 || (m & 0xFF80) == 0xFF80 || (m & 0xFF01) == 0xFF01 || (m & 0xFE03) == 0xFE03 || (m
        & 0xFC07) == 0xFC07 || (m & 0xF80F) == 0xF80F || (m & 0xF01F) == 0xF01F || (m & 0xE03F)
        == 0xE03F || (m & 0xC07F) == 0xC07F || (m & 0x80FF) == 0x80FF)) by (bit_vector)
        requires
            r1 == m & ((m << 1u16) | (m >> 15u16)),
            r2 == r1 & ((r1 << 1u16) | (r1 >> 15u16)),
            r3 == r2 & ((r2 << 1u16) | (r2 >> 15u16)),
            r4 == r3 & ((r3 << 1u16) | (r3 >> 15u16)),
            r5 == r4 & ((r4 << 1u16) | (r4 >> 15u16)),
            r6 == r5 & ((r5 << 1u16) | (r5 >> 15u16)),
            r7 == r6 & ((r6 << 1u16) | (r6 >> 15u16)),
            r8 == r7 & ((r7 << 1u16) | (r7 >> 15u16)),
    ;
}

/// Bit `i` of a 16-bit mask.
pub open spec fn bit16(m: u16, i: int) -> bool {
    (m >> (i as u16)) & 1 == 1
}

pub open spec fn count_true(a: bool, b: bool, c: bool, d: bool) -> int {
    (if a { 1int } else { 0 }) + (if b { 1int } else { 0 }) + (if c { 1int } else { 0 }) + (if d {
        1int
    } else {
        0
    })
}

/// Any run of 9 ring bits covers at least two of the four compass bits
/// (0, 4, 8, 12).
proof fn lemma_run9_compass(m: u16)
    ensures
        has_run9(m) ==> count_true(bit16(m, 0), bit16(m, 4), bit16(m, 8), bit16(m, 12)) >= 2,
{
    lemma_run9_disj(m);
    assert(bit16(m, 0) == ((m >> 0u16) & 1 == 1));
    assert(bit16(m, 4) == ((m >> 4u16) & 1 == 1));
    assert(bit16(m, 8) == ((m >> 8u16) & 1 == 1));
    assert(bit16(m, 12) == ((m >> 12u16) & 1 == 1));
    assert(((m & 0x01FF) == 0x01FF || (m & 0x03FE) == 0x03FE || (m & 0x07FC) == 0x07FC || (m
        & 0x0FF8) == 0x0FF8 || (m & 0x1FF0) == 0x1FF0 || (m & 0x3FE0) == 0x3FE0 || (m & 0x7FC0)
        == 0x7FC0 || (m & 0xFF80) == 0xFF80 || (m & 0xFF01) == 0xFF01 || (m & 0xFE03) == 0xFE03 || (m
        & 0xFC07) == 0xFC07 || (m & 0xF80F) == 0xF80F || (m & 0xF01F) == 0xF01F || (m & 0xE03F)
        == 0xE03F || (m & 0xC07F) == 0xC07F || (m & 0x80FF) == 0x80FF) ==> (((m >> 0u16) & 1 == 1
        && (m >> 4u16) & 1 == 1) || ((m >> 0u16) & 1 == 1 && (m >> 8u16) & 1 == 1) || ((m >> 0u16)
        & 1 == 1 && (m >> 12u16) & 1 == 1) || ((m >> 4u16) & 1 == 1 && (m >> 8u16) & 1 == 1) || ((m
        >> 4u16) & 1 == 1 && (m >> 12u16) & 1 == 1) || ((m >> 8u16) & 1 == 1 && (m >> 12u16) & 1
        == 1))) by (bit_vector);
}

/// Whether the 16-bit ring mask holds a circular run of at least 9 set bits.
pub fn has_arc9(mask: u16) -> (b: bool)
    ensures
        b == has_run9(mask),
{
    proof {
        lemma_and_rot8(mask);
    }
    let mut r = mask;
    let mut k: usize = 0;
    proof {
        assert forall|j: nat| 0 <= j <= 8 && r == 0 implies #[trigger] and_rot(mask, j) == 0 by {
            lemma_and_rot_zero(mask, 0, j);
        }
    }
    while k < 8
        invariant
            k <= 8,
            r == and_rot(mask, k as nat),
            (and_rot(mask, 8) != 0) == has_run9(mask),
            forall|j: nat| k <= j <= 8 && r == 0 ==> #[trigger] and_rot(mask, j) == 0,
            k > 0 ==> r != 0,
        decreases 8 - k,
    {
        r = r & ((r << 1u16) | (r >> 15u16));
        proof {
            assert forall|j: nat| k + 1 <= j <= 8 && r == 0 implies #[trigger] and_rot(mask, j)
                == 0 by {
                lemma_and_rot_zero(mask, (k + 1) as nat, j);
            }
        }
        if r == 0 {
            return false;
        }
        k = k + 1;
    }
    true
}

proof fn lemma_and_rot_zero(m: u16, k: nat, j: nat)
    requires
        k <= j,
        and_rot(m, k) == 0,
    ensures
        and_rot(m, j) == 0,
    decreases j - k,
{
    if k < j {
        lemma_and_rot_zero(m, k, (j - 1) as nat);
        let r = and_rot(m, (j - 1) as nat);
        assert(r == 0 ==> r & ((r << 1u16) | (r >> 15u16)) == 0) by (bit_vector);
    }
}

/// Ring sample `i` around `(x, y)`.
pub open spec fn ring_val(img: ImageView, x: int, y: int, i: int) -> int {
    img.px(x + circle_dx(i), y + circle_dy(i)) as int
}

/// Ring sample `i` is brighter than the center by at least `t`.
pub open spec fn ring_bright(img: ImageView, x: int, y: int, t: int, i: int) -> bool {
    ring_val(img, x, y, i) >= img.px(x, y) + t
}

/// Ring sample `i` is darker than the center by at least `t` (and not bright).
pub open spec fn ring_dark(img: ImageView, x: int, y: int, t: int, i: int) -> bool {
    !ring_bright(img, x, y, t, i) && ring_val(img, x, y, i) <= img.px(x, y) - t
}

pub open spec fn ring_pred(img: ImageView, x: int, y: int, t: int, dark: bool, i: int) -> bool {
    if dark {
        ring_dark(img, x, y, t, i)
    } else {
        ring_bright(img, x, y, t, i)
    }
}

/// Mask of the first `k` ring samples that are bright (or dark).
pub open spec fn ring_mask(img: ImageView, x: int, y: int, t: int, dark: bool, k: nat) -> u16
    decreases k,
{
    if k == 0 {
        0
    } else {
        let m = ring_mask(img, x, y, t, dark, (k - 1) as nat);
        if ring_pred(img, x, y, t, dark, k - 1) {
            m | (1u16 << (k - 1) as u16)
        } else {
            m
        }
    }
}

/// Sum of absolute differences beyond the threshold over the first `k`
/// bright (or dark) ring samples.
pub open spec fn ring_sad(img: ImageView, x: int, y: int, t: int, dark: bool, k: nat) -> int
    decreases k,
{
    if k == 0 {
        0
    } else {
        let s = ring_sad(img, x, y, t, dark, (k - 1) as nat);
        let v = ring_val(img, x, y, k - 1);
        let p = img.px(x, y) as int;
        if ring_pred(img, x, y, t, dark, k - 1) {
            if dark {
                s + (p - t - v)
            } else {
                s + (v - p - t)
            }
        } else {
            s
        }
    }
}

/// FAST-9 corner score of `(x, y)` plus one (so a corner always scores > 0),
/// or 0 when neither the bright nor the dark ring has a 9-arc.
pub open spec fn corner_score(img: ImageView, x: int, y: int, t: int) -> int {
    let is_b = has_run9(ring_mask(img, x, y, t, false, 16));
    let is_d = has_run9(ring_mask(img, x, y, t, true, 16));
    let sb = ring_sad(img, x, y, t, false, 16);
    let sd = ring_sad(img, x, y, t, true, 16);
    if is_b && is_d {
        (if sb >= sd {
            sb
        } else {
            sd
        }) + 1
    } else if is_b {
        sb + 1
    } else if is_d {
        sd + 1
    } else {
        0
    }
}

proof fn lemma_ring_mask_bits(img: ImageView, x: int, y: int, t: int, dark: bool, k: nat)
    requires
        k <= 16,
    ensures
        forall|i: int|
            0 <= i < 16 ==> #[trigger] bit16(ring_mask(img, x, y, t, dark, k), i) == (i < k
                && ring_pred(img, x, y, t, dark, i)),
    decreases k,
{
    if k > 0 {
        lemma_ring_mask_bits(img, x, y, t, dark, (k - 1) as nat);
        let m = ring_mask(img, x, y, t, dark, (k - 1) as nat);
        let j = (k - 1) as u16;
        assert forall|i: int|
            0 <= i < 16 implies #[trigger] bit16(ring_mask(img, x, y, t, dark, k), i) == (i < k
            && ring_pred(img, x, y, t, dark, i)) by {
            let ii = i as u16;
            assert(bit16(m, i) == ((m >> ii) & 1 == 1));
            assert(((m | (1u16 << j)) >> ii) & 1 == (if ii == j {
                1u16
            } else {
                (m >> ii) & 1
            })) by (bit_vector)
                requires
                    j < 16,
                    ii < 16,
            ;
            assert(((m >> ii) & 1 == 1) || ((m >> ii) & 1 == 0)) by (bit_vector);
        }
    } else {
        assert forall|i: int|
            0 <= i < 16 implies #[trigger] bit16(ring_mask(img, x, y, t, dark, k), i) == (i < k
            && ring_pred(img, x, y, t, dark, i)) by {
            let ii = i as u16;
            assert((0u16 >> ii) & 1 == 0) by (bit_vector);
        }
    }
}

/// `x + d` for a small signed offset.
fn offset(x: usize, d: i32) -> (r: usize)
    requires
        -3 <= d <= 3,
        0 <= x + d <= usize::MAX,
    ensures
        r == x + d,
{
    if d >= 0 {
        x + d as usize
    } else {
        x - (-d) as usize
    }
}

/// FAST-9 score (plus one) of the pixel `(x, y)`, or 0 if it is no corner.
fn pixel_score(img: &GrayImage, x: usize, y: usize, threshold: u8) -> (s: u32)
    requires
        img@.wf(),
        3 <= x,
        x + 3 < img.w,
        3 <= y,
        y + 3 < img.h,
    ensures
        s == corner_score(img@, x as int, y as int, threshold as int),
{
    let ghost im = img@;
    let ghost ti = threshold as int;
    let t = threshold as i32;
    let p = img.at(x, y) as i32;
    // Quick compass rejection: any 9-arc contains >= 2 of the 4 compass points.
    let mut nb: u32 = 0;
    let mut nd: u32 = 0;
    let mut c: usize = 0;
    while c < 4
        invariant
            im == img@,
            im.wf(),
            3 <= x && x + 3 < img.w && 3 <= y && y + 3 < img.h,
            c <= 4,
            t == ti,
            0 <= ti <= 255,
            p == im.px(x as int, y as int),
            nb == (if c > 0 && ring_bright(im, x as int, y as int, ti, 0) { 1int } else { 0 }) + (
            if c > 1 && ring_bright(im, x as int, y as int, ti, 4) { 1int } else { 0 }) + (if c > 2
                && ring_bright(im, x as int, y as int, ti, 8) { 1int } else { 0 }) + (if c > 3
                && ring_bright(im, x as int, y as int, ti, 12) { 1int } else { 0 }),
            nd == (if c > 0 && ring_dark(im, x as int, y as int, ti, 0) { 1int } else { 0 }) + (if c
                > 1 && ring_dark(im, x as int, y as int, ti, 4) { 1int } else { 0 }) + (if c > 2
                && ring_dark(im, x as int, y as int, ti, 8) { 1int } else { 0 }) + (if c > 3
                && ring_dark(im, x as int, y as int, ti, 12) { 1int } else { 0 }),
        decreases 4 - c,
    {
        let ci = 4 * c;
        let (dx, dy) = circle_offset(ci);
        let v = img.at(offset(x, dx), offset(y, dy)) as i32;
        if v >= p + t {
            nb = nb + 1;
        } else if v <= p - t {
            nd = nd + 1;
        }
        c = c + 1;
    }
    if nb < 2 && nd < 2 {
        proof {
            lemma_ring_mask_bits(im, x as int, y as int, ti, false, 16);
            lemma_ring_mask_bits(im, x as int, y as int, ti, true, 16);
            let mb = ring_mask(im, x as int, y as int, ti, false, 16);
            let md = ring_mask(im, x as int, y as int, ti, true, 16);
            lemma_run9_compass(mb);
            lemma_run9_compass(md);
            assert(bit16(mb, 0) == ring_bright(im, x as int, y as int, ti, 0));
            assert(bit16(mb, 4) == ring_bright(im, x as int, y as int, ti, 4));
            assert(bit16(mb, 8) == ring_bright(im, x as int, y as int, ti, 8));
            assert(bit16(mb, 12) == ring_bright(im, x as int, y as int, ti, 12));
            assert(bit16(md, 0) == ring_dark(im, x as int, y as int, ti, 0));
            assert(bit16(md, 4) == ring_dark(im, x as int, y as int, ti, 4));
            assert(bit16(md, 8) == ring_dark(im, x as int, y as int, ti, 8));
            assert(bit16(md, 12) == ring_dark(im, x as int, y as int, ti, 12));
        }
        return 0;
    }
    let mut bright: u16 = 0;
    let mut dark: u16 = 0;
    let mut sb: i32 = 0;
    let mut sd: i32 = 0;
    let mut i: usize = 0;
    while i < 16
        invariant
            im == img@,
            im.wf(),
            3 <= x && x + 3 < img.w && 3 <= y && y + 3 < img.h,
            i <= 16,
            t == ti,
            0 <= ti <= 255,
            p == im.px(x as int, y as int),
            bright == ring_mask(im, x as int, y as int, ti, false, i as nat),
            dark == ring_mask(im, x as int, y as int, ti, true, i as nat),
            sb == ring_sad(im, x as int, y as int, ti, false, i as nat),
            sd == ring_sad(im, x as int, y as int, ti, true, i as nat),
            0 <= sb <= 255 * i,
            0 <= sd <= 255 * i,
        decreases 16 - i,
    {
        let (dx, dy) = circle_offset(i);
        let v = img.at(offset(x, dx), offset(y, dy)) as i32;
        if v >= p + t {
            bright = bright | (1u16 << (i as u16));
            sb = sb + (v - p - t);
        } else if v <= p - t {
            dark = dark | (1u16 << (i as u16));
            sd = sd + (p - t - v);
        }
        i = i + 1;
    }
    let is_b = has_arc9(bright);
    let is_d = has_arc9(dark);
    if !is_b && !is_d {
        return 0;
    }
    let s = if is_b && is_d {
        if sb >= sd {
            sb
        } else {
            sd
        }
    } else if is_b {
        sb
    } else {
        sd
    };
    (s + 1) as u32
}

/// A detected corner: pixel position and FAST score plus one (an integer;
/// corners are ordered and compared by it).
#[derive(Clone, Copy, Debug)]
pub struct FastCorner {
    pub x: u16,
    pub y: u16,
    pub score: u32,
}

/// The effective border: at least 3 so the whole ring stays inside the image.
pub open spec fn border_of(border: usize) -> int {
    if border > 3 {
        border as int
    } else {
        3
    }
}

/// Pixels at least `b` away from every edge.
pub open spec fn in_region(img: ImageView, b: int, x: int, y: int) -> bool {
    b <= x < img.w - b && b <= y < img.h - b
}

/// Corner score map: the FAST score plus one inside the region, else 0.
pub open spec fn score_at(img: ImageView, t: int, b: int, x: int, y: int) -> int {
    if in_region(img, b, x, y) {
        corner_score(img, x, y, t)
    } else {
        0
    }
}

/// Neighbor `(x+dx, y+dy)` does not suppress `(x, y)`: it scores lower, or
/// equal but later in scan order.
pub open spec fn neighbor_ok(img: ImageView, t: int, b: int, x: int, y: int, dx: int, dy: int) -> bool {
    let ns = score_at(img, t, b, x + dx, y + dy);
    let s = score_at(img, t, b, x, y);
    !(ns > s || (ns == s && (dy < 0 || (dy == 0 && dx < 0))))
}

/// `(x, y)` is a strict local maximum of the score map over its 8
/// neighbors (ties broken toward the scan-order-first pixel).
pub open spec fn nms_max(img: ImageView, t: int, b: int, x: int, y: int) -> bool {
    forall|dx: int, dy: int|
        -1 <= dx <= 1 && -1 <= dy <= 1 && !(dx == 0 && dy == 0) ==> #[trigger] neighbor_ok(
            img,
            t,
            b,
            x,
            y,
            dx,
            dy,
        )
}

/// Score of the pixel with row-major index `i`.
pub open spec fn lin_score(img: ImageView, t: int, b: int, i: int) -> int {
    score_at(img, t, b, i % (img.w as int), i / (img.w as int))
}

/// The pixel with row-major index `i` is a reported corner.
pub open spec fn lin_keep(img: ImageView, t: int, b: int, i: int) -> bool {
    lin_score(img, t, b, i) > 0 && nms_max(img, t, b, i % (img.w as int), i / (img.w as int))
}

pub open spec fn corner_at(img: ImageView, t: int, b: int, i: int) -> FastCorner {
    FastCorner {
        x: (i % (img.w as int)) as u16,
        y: (i / (img.w as int)) as u16,
        score: lin_score(img, t, b, i) as u32,
    }
}

/// The corners among the first `k` pixels, in scan order.
pub open spec fn fast_corners_upto(img: ImageView, t: int, b: int, k: nat) -> Seq<FastCorner>
    decreases k,
{
    if k == 0 {
        seq![]
    } else {
        let prev = fast_corners_upto(img, t, b, (k - 1) as nat);
        if lin_keep(img, t, b, k - 1) {
            prev.push(corner_at(img, t, b, k - 1))
        } else {
            prev
        }
    }
}

/// All FAST-9 corners of `img` at threshold `t` with border `border`, in scan order.
pub open spec fn fast_corners(img: ImageView, t: int, border: usize) -> Seq<FastCorner> {
    fast_corners_upto(img, t, border_of(border), img.w * img.h)
}

/// Indices (in increasing order) of the first `k` pixels with a positive score.
pub open spec fn cands_upto(img: ImageView, t: int, b: int, k: nat) -> Seq<usize>
    decreases k,
{
    if k == 0 {
        seq![]
    } else {
        let prev = cands_upto(img, t, b, (k - 1) as nat);
        if lin_score(img, t, b, k - 1) > 0 {
            prev.push((k - 1) as usize)
        } else {
            prev
        }
    }
}

/// The candidates that survive non-max suppression, as corners.
pub open spec fn kept_of(img: ImageView, t: int, b: int, cs: Seq<usize>) -> Seq<FastCorner>
    decreases cs.len(),
{
    if cs.len() == 0 {
        seq![]
    } else {
        let prev = kept_of(img, t, b, cs.drop_last());
        let c = cs.last() as int;
        if nms_max(img, t, b, c % (img.w as int), c / (img.w as int)) {
            prev.push(corner_at(img, t, b, c))
        } else {
            prev
        }
    }
}

proof fn lemma_kept_of_cands(img: ImageView, t: int, b: int, k: nat)
    requires
        k <= usize::MAX + 1,
    ensures
        kept_of(img, t, b, cands_upto(img, t, b, k)) == fast_corners_upto(img, t, b, k),
    decreases k,
{
    if k > 0 {
        lemma_kept_of_cands(img, t, b, (k - 1) as nat);
        let prev = cands_upto(img, t, b, (k - 1) as nat);
        if lin_score(img, t, b, k - 1) > 0 {
            assert(prev.push((k - 1) as usize).drop_last() =~= prev);
        }
    }
}

proof fn lemma_cands_props(img: ImageView, t: int, b: int, k: nat)
    requires
        k <= usize::MAX + 1,
    ensures
        forall|j: int|
            0 <= j < cands_upto(img, t, b, k).len() ==> #[trigger] cands_upto(img, t, b, k)[j] < k
                && lin_score(img, t, b, cands_upto(img, t, b, k)[j] as int) > 0,
    decreases k,
{
    if k > 0 {
        lemma_cands_props(img, t, b, (k - 1) as nat);
        let prev = cands_upto(img, t, b, (k - 1) as nat);
        if lin_score(img, t, b, k - 1) > 0 {
            let s2 = prev.push((k - 1) as usize);
            assert forall|j: int| 0 <= j < s2.len() implies #[trigger] s2[j] < k && lin_score(
                img,
                t,
                b,
                s2[j] as int,
            ) > 0 by {
                if j < prev.len() {
                    assert(s2[j] == prev[j]);
                }
            }
        }
    }
}

/// No positive score in `k1 .. k2`: the candidate list does not change.
proof fn lemma_cands_skip(img: ImageView, t: int, b: int, k1: nat, k2: nat)
    requires
        k1 <= k2,
        forall|i: int| k1 <= i < k2 ==> lin_score(img, t, b, i) == 0,
    ensures
        cands_upto(img, t, b, k2) == cands_upto(img, t, b, k1),
    decreases k2 - k1,
{
    if k1 < k2 {
        lemma_cands_skip(img, t, b, k1, (k2 - 1) as nat);
    }
}

/// Pixels of row `y` outside the columns `b .. w - b`, and all pixels of rows
/// outside `b .. h - b`, score 0.
proof fn lemma_lin_score_coords(img: ImageView, t: int, b: int, xx: int, yy: int)
    requires
        img.w > 0,
        0 <= xx < img.w,
        0 <= yy,
    ensures
        lin_score(img, t, b, yy * img.w + xx) == score_at(img, t, b, xx, yy),
{
    lemma_div_mod_index(img.w as int, xx, yy);
}

/// Detects FAST-9 corners at least `max(border, 3)` px from every edge and
/// keeps the 3x3 local maxima of the score, in scan order.
pub fn detect(img: &GrayImage, threshold: u8, border: usize) -> (out: Vec<FastCorner>)
    requires
        img@.wf(),
    ensures
        out@ == fast_corners(img@, threshold as int, border),
        img.w <= 0x10000 && img.h <= 0x10000 ==> scan_sorted(out@),
{
    let out = detect_corners(img, threshold, border);
    proof {
        if img.w <= 0x10000 && img.h <= 0x10000 {
            lemma_fast_corners_scan_sorted(img@, threshold as int, border);
        }
    }
    out
}

fn detect_corners(img: &GrayImage, threshold: u8, border: usize) -> (out: Vec<FastCorner>)
    requires
        img@.wf(),
    ensures
        out@ == fast_corners(img@, threshold as int, border),
{
    let ghost im = img@;
    let ghost ti = threshold as int;
    let b = if border > 3 {
        border
    } else {
        3
    };
    let ghost bi = b as int;
    let w = img.w;
    let h = img.h;
    let n = img.data.len();
    if w <= b || w - b <= b || h <= b || h - b <= b {
        proof {
            assert forall|i: int| 0 <= i < w * h implies lin_score(im, ti, bi, i) == 0 by {
                if w > 0 {
                    let xx = i % (w as int);
                    let yy = i / (w as int);
                    vstd::arithmetic::div_mod::lemma_fundamental_div_mod(i, w as int);
                }
            }
            lemma_cands_skip(im, ti, bi, 0, (w * h) as nat);
            lemma_kept_of_cands(im, ti, bi, (w * h) as nat);
        }
        return Vec::new();
    }
    let mut scores: Vec<u32> = vec![0u32; n];
    let mut cands: Vec<usize> = Vec::new();
    proof {
        assert forall|i: int| 0 <= i < b * w + b implies lin_score(im, ti, bi, i) == 0 by {
            let xx = i % (w as int);
            let yy = i / (w as int);
            vstd::arithmetic::div_mod::lemma_fundamental_div_mod(i, w as int);
            assert(yy * w + xx == i) by (nonlinear_arith)
                requires
                    i == w * (i / w as int) + i % (w as int),
                    xx == i % (w as int),
                    yy == i / (w as int),
            ;
            assert(yy <= b) by (nonlinear_arith)
                requires
                    yy * w + xx == i,
                    i < b * w + b,
                    0 <= xx < w,
                    w > b,
            ;
            lemma_lin_score_coords(im, ti, bi, xx, yy);
        }
        lemma_cands_skip(im, ti, bi, 0, (b * w + b) as nat);
        lemma_index_bound(w as int, h as int, b as int, b as int);
    }
    let mut y = b;
    while y < h - b
        invariant
            im == img@,
            im.wf(),
            ti == threshold as int,
            bi == b,
            b >= 3,
            w == img.w,
            h == img.h,
            n == w * h,
            w > 2 * b,
            h > 2 * b,
            b <= y <= h - b,
            scores@.len() == n,
            forall|i: int| 0 <= i < n ==> #[trigger] scores@[i] as int == if i < y * w + b {
                lin_score(im, ti, bi, i)
            } else {
                0
            },
            cands@ == cands_upto(im, ti, bi, (y * w + b) as nat),
            y * w + b <= n,
        decreases h - y,
    {
        let mut x = b;
        proof {
            lemma_index_bound(w as int, h as int, b as int, y as int);
        }
        while x < w - b
            invariant
                im == img@,
                im.wf(),
                ti == threshold as int,
                bi == b,
                b >= 3,
                w == img.w,
                h == img.h,
                n == w * h,
                w > 2 * b,
                h > 2 * b,
                b <= y < h - b,
                b <= x <= w - b,
                scores@.len() == n,
                forall|i: int| 0 <= i < n ==> #[trigger] scores@[i] as int == if i < y * w + x {
                    lin_score(im, ti, bi, i)
                } else {
                    0
                },
                cands@ == cands_upto(im, ti, bi, (y * w + x) as nat),
                y * w + x < n,
            decreases w - b - x,
        {
            proof {
                lemma_index_bound(w as int, h as int, x as int, y as int);
                lemma_lin_score_coords(im, ti, bi, x as int, y as int);
            }
            let s = pixel_score(img, x, y, threshold);
            let idx = y * w + x;
            if s > 0 {
                scores.set(idx, s);
                cands.push(idx);
            }
            proof {
                assert(lin_score(im, ti, bi, idx as int) == s as int);
            }
            x = x + 1;
            proof {
                if x < w - b {
                    lemma_index_bound(w as int, h as int, x as int, y as int);
                }
            }
        }
        proof {
            let k1 = y * w + x;
            let k2 = (y + 1) * w + b;
            lemma_index_bound(w as int, h as int, 0, y as int);
            assert forall|i: int| k1 <= i < k2 implies lin_score(im, ti, bi, i) == 0 by {
                if i < (y + 1) * w {
                    lemma_lin_score_coords(im, ti, bi, i - y * w, y as int);
                } else {
                    lemma_lin_score_coords(im, ti, bi, i - (y + 1) * w, y + 1);
                }
            }
            lemma_cands_skip(im, ti, bi, k1 as nat, k2 as nat);
            if y + 1 < h {
                lemma_index_bound(w as int, h as int, b as int, y + 1);
            } else {
                assert(false);
            }
        }
        y = y + 1;
    }
    proof {
        let k1 = y * w + b;
        assert forall|i: int| k1 <= i < n implies lin_score(im, ti, bi, i) == 0 by {
            let xx = i % (w as int);
            let yy = i / (w as int);
            vstd::arithmetic::div_mod::lemma_fundamental_div_mod(i, w as int);
            assert(yy * w + xx == i) by (nonlinear_arith)
                requires
                    i == w * (i / w as int) + i % (w as int),
                    xx == i % (w as int),
                    yy == i / (w as int),
            ;
            assert(yy >= y) by (nonlinear_arith)
                requires
                    yy * w + xx == i,
                    i >= y * w + b,
                    0 <= xx < w,
                    w > b,
            ;
            assert(yy > y || xx >= b);
            lemma_lin_score_coords(im, ti, bi, xx, yy);
        }
        lemma_cands_skip(im, ti, bi, k1 as nat, n as nat);
        lemma_cands_props(im, ti, bi, n as nat);
    }

    // Non-max suppression over the candidates only.
    let mut out: Vec<FastCorner> = Vec::new();
    let mut j: usize = 0;
    while j < cands.len()
        invariant
            im == img@,
            im.wf(),
            ti == threshold as int,
            bi == b,
            b >= 3,
            w == img.w,
            h == img.h,
            n == w * h,
            w > 2 * b,
            h > 2 * b,
            scores@.len() == n,
            forall|i: int| 0 <= i < n ==> #[trigger] scores@[i] as int == lin_score(im, ti, bi, i),
            cands@ == cands_upto(im, ti, bi, n as nat),
            forall|jj: int|
                0 <= jj < cands@.len() ==> #[trigger] cands@[jj] < n && lin_score(
                    im,
                    ti,
                    bi,
                    cands@[jj] as int,
                ) > 0,
            j <= cands@.len(),
            out@ == kept_of(im, ti, bi, cands@.take(j as int)),
        decreases cands@.len() - j,
    {
        let c = cands[j];
        let x = c % w;
        let y = c / w;
        proof {
            vstd::arithmetic::div_mod::lemma_fundamental_div_mod(c as int, w as int);
            assert(y * w + x == c) by (nonlinear_arith)
                requires
                    c == w * (c / w) + c % w,
                    x == c % w,
                    y == c / w,
            ;
            assert(score_at(im, ti, bi, x as int, y as int) > 0);
            assert(in_region(im, bi, x as int, y as int));
        }
        let s = scores[c];
        let mut is_max = true;
        let mut k: usize = 0;
        while k < 9
            invariant_except_break
                is_max,
                forall|kk: int|
                    0 <= kk < k && kk != 4 ==> #[trigger] neighbor_ok(
                        im,
                        ti,
                        bi,
                        x as int,
                        y as int,
                        kk % 3 - 1,
                        kk / 3 - 1,
                    ),
                k == 9 ==> nms_max(im, ti, bi, x as int, y as int),
            invariant
                im == img@,
                im.wf(),
                ti == threshold as int,
                bi == b,
                b >= 3,
                w == img.w,
                h == img.h,
                n == w * h,
                scores@.len() == n,
                forall|i: int| 0 <= i < n ==> #[trigger] scores@[i] as int == lin_score(im, ti, bi, i),
                in_region(im, bi, x as int, y as int),
                s as int == score_at(im, ti, bi, x as int, y as int),
                k <= 9,
            ensures
                is_max == nms_max(im, ti, bi, x as int, y as int),
            decreases 9 - k,
        {
            if k != 4 {
                let nx = x - 1 + k % 3;
                let ny = y - 1 + k / 3;
                proof {
                    lemma_index_bound(w as int, h as int, nx as int, ny as int);
                    lemma_lin_score_coords(im, ti, bi, nx as int, ny as int);
                }
                let ns = scores[ny * w + nx];
                let dyk = k / 3;
                let dxk = k % 3;
                if ns > s || (ns == s && (dyk < 1 || (dyk == 1 && dxk < 1))) {
                    is_max = false;
                    proof {
                        assert(!neighbor_ok(
                            im,
                            ti,
                            bi,
                            x as int,
                            y as int,
                            k % 3 - 1,
                            k / 3 - 1,
                        ));
                    }
                    break;
                }
                proof {
                    assert(neighbor_ok(im, ti, bi, x as int, y as int, k % 3 - 1, k / 3 - 1));
                }
            }
            k = k + 1;
            proof {
                if k == 9 {
                    assert forall|dx: int, dy: int|
                        -1 <= dx <= 1 && -1 <= dy <= 1 && !(dx == 0 && dy == 0) implies #[trigger] neighbor_ok(
                        im,
                        ti,
                        bi,
                        x as int,
                        y as int,
                        dx,
                        dy,
                    ) by {
                        let kk = (dy + 1) * 3 + (dx + 1);
                        assert(kk % 3 - 1 == dx && kk / 3 - 1 == dy);
                        assert(0 <= kk < 9 && kk != 4);
                    }
                }
            }
        }
        proof {
            assert(cands@.take(j + 1).drop_last() =~= cands@.take(j as int));
            assert(cands@.take(j + 1).last() == c);
        }
        if is_max {
            out.push(FastCorner { x: x as u16, y: y as u16, score: s });
        }
        j = j + 1;
    }
    proof {
        assert(cands@.take(j as int) =~= cands@);
        lemma_kept_of_cands(im, ti, bi, n as nat);
    }
    out
}

proof fn lemma_circle_bounds(k: int)
    requires
        0 <= k < 16,
    ensures
        -3 <= circle_dx(k) <= 3,
        -3 <= circle_dy(k) <= 3,
{
    if k == 0 {
    } else if k == 1 {
    } else if k == 2 {
    } else if k == 3 {
    } else if k == 4 {
    } else if k == 5 {
    } else if k == 6 {
    } else if k == 7 {
    } else if k == 8 {
    } else if k == 9 {
    } else if k == 10 {
    } else if k == 11 {
    } else if k == 12 {
    } else if k == 13 {
    } else if k == 14 {
    } else {
    }
}

/// Inside a flat region, no ring sample differs from the center by `t >= 1`,
/// so no pixel scores.
proof fn lemma_flat_score_zero(img: ImageView, v: u8, t: int, b: int, x: int, y: int)
    requires
        img.wf(),
        t >= 1,
        b >= 3,
        forall|i: int| 0 <= i < img.data.len() ==> #[trigger] img.data[i] == v,
    ensures
        score_at(img, t, b, x, y) == 0,
{
    if in_region(img, b, x, y) {
        lemma_index_bound(img.w as int, img.h as int, x, y);
        assert forall|k: int| 0 <= k < 16 implies !#[trigger] ring_pred(img, x, y, t, false, k)
            && !ring_pred(img, x, y, t, true, k) by {
            lemma_circle_bounds(k);
            lemma_index_bound(img.w as int, img.h as int, x + circle_dx(k), y + circle_dy(k));
            assert(ring_val(img, x, y, k) == v);
        }
        let mb = ring_mask(img, x, y, t, false, 16);
        let md = ring_mask(img, x, y, t, true, 16);
        lemma_ring_mask_bits(img, x, y, t, false, 16);
        lemma_ring_mask_bits(img, x, y, t, true, 16);
        assert(!bit16(mb, 0) && !bit16(mb, 4) && !bit16(mb, 8) && !bit16(mb, 12));
        assert(!bit16(md, 0) && !bit16(md, 4) && !bit16(md, 8) && !bit16(md, 12));
        lemma_run9_compass(mb);
        lemma_run9_compass(md);
    }
}

proof fn lemma_no_scores_no_corners(img: ImageView, t: int, b: int, k: nat)
    requires
        forall|i: int| 0 <= i < k ==> #[trigger] lin_score(img, t, b, i) == 0,
    ensures
        fast_corners_upto(img, t, b, k) == Seq::<FastCorner>::empty(),
    decreases k,
{
    if k > 0 {
        lemma_no_scores_no_corners(img, t, b, (k - 1) as nat);
        assert(lin_score(img, t, b, k - 1) == 0);
    }
}

/// A flat image has no corners at any threshold of at least 1.
pub proof fn lemma_flat_image_no_corners(img: ImageView, v: u8, t: int, border: usize)
    requires
        img.wf(),
        t >= 1,
        forall|i: int| 0 <= i < img.data.len() ==> #[trigger] img.data[i] == v,
    ensures
        fast_corners(img, t, border) == Seq::<FastCorner>::empty(),
{
    let b = border_of(border);
    assert forall|i: int| 0 <= i < img.w * img.h implies #[trigger] lin_score(img, t, b, i) == 0 by {
        lemma_flat_score_zero(img, v, t, b, i % (img.w as int), i / (img.w as int));
    }
    lemma_no_scores_no_corners(img, t, b, img.w * img.h);
}

/// The photographic negative of `img`: every sample `v` becomes `255 - v`.
pub open spec fn negative(img: ImageView) -> ImageView {
    ImageView { w: img.w, h: img.h, data: img.data.map_values(|v: u8| (255 - v) as u8) }
}

/// Inverting the image swaps the bright and the dark ring, sample for sample.
proof fn lemma_negative_rings(img: ImageView, x: int, y: int, t: int, k: nat)
    requires
        img.wf(),
        t >= 1,
        3 <= x < img.w - 3,
        3 <= y < img.h - 3,
        k <= 16,
    ensures
        ring_mask(negative(img), x, y, t, false, k) == ring_mask(img, x, y, t, true, k),
        ring_mask(negative(img), x, y, t, true, k) == ring_mask(img, x, y, t, false, k),
        ring_sad(negative(img), x, y, t, false, k) == ring_sad(img, x, y, t, true, k),
        ring_sad(negative(img), x, y, t, true, k) == ring_sad(img, x, y, t, false, k),
    decreases k,
{
    if k > 0 {
        lemma_negative_rings(img, x, y, t, (k - 1) as nat);
        let i = k - 1;
        let ng = negative(img);
        lemma_circle_bounds(i);
        let xi = x + circle_dx(i);
        let yi = y + circle_dy(i);
        lemma_index_bound(img.w as int, img.h as int, xi, yi);
        lemma_index_bound(img.w as int, img.h as int, x, y);
        assert(ng.px(xi, yi) == 255 - img.px(xi, yi));
        assert(ng.px(x, y) == 255 - img.px(x, y));
        assert(ring_val(ng, x, y, i) == 255 - ring_val(img, x, y, i));
        assert(ring_pred(ng, x, y, t, false, i) == ring_pred(img, x, y, t, true, i));
        assert(ring_pred(ng, x, y, t, true, i) == ring_pred(img, x, y, t, false, i));
    }
}

/// FAST is symmetric under intensity inversion (for thresholds of at least
/// 1): a pixel scores on the negative exactly as on the image, a bright
/// 9-arc counting as a dark one and the other way round.
pub proof fn lemma_corner_score_negative(img: ImageView, x: int, y: int, t: int)
    requires
        img.wf(),
        t >= 1,
        3 <= x < img.w - 3,
        3 <= y < img.h - 3,
    ensures
        corner_score(negative(img), x, y, t) == corner_score(img, x, y, t),
{
    lemma_negative_rings(img, x, y, t, 16);
}

/// The negative of an image has the same FAST corners, at the same
/// positions and with the same scores (thresholds of at least 1).
pub proof fn lemma_negative_same_corners(img: ImageView, t: int, border: usize)
    requires
        img.wf(),
        t >= 1,
    ensures
        fast_corners(negative(img), t, border) == fast_corners(img, t, border),
{
    let ng = negative(img);
    let b = border_of(border);
    assert forall|x: int, y: int| #[trigger] score_at(ng, t, b, x, y) == score_at(img, t, b, x, y) by {
        if in_region(img, b, x, y) {
            lemma_corner_score_negative(img, x, y, t);
        }
    }
    assert forall|i: int| #[trigger] lin_keep(ng, t, b, i) == lin_keep(img, t, b, i) by {
        let x = i % (img.w as int);
        let y = i / (img.w as int);
        assert forall|dx: int, dy: int| #[trigger] neighbor_ok(ng, t, b, x, y, dx, dy) == neighbor_ok(
            img,
            t,
            b,
            x,
            y,
            dx,
            dy,
        ) by {
            assert(score_at(ng, t, b, x + dx, y + dy) == score_at(img, t, b, x + dx, y + dy));
            assert(score_at(ng, t, b, x, y) == score_at(img, t, b, x, y));
        }
        if nms_max(img, t, b, x, y) {
            assert forall|dx: int, dy: int|
                -1 <= dx <= 1 && -1 <= dy <= 1 && !(dx == 0 && dy == 0) implies #[trigger] neighbor_ok(
                ng,
                t,
                b,
                x,
                y,
                dx,
                dy,
            ) by {
                assert(neighbor_ok(img, t, b, x, y, dx, dy));
            }
        }
        if nms_max(ng, t, b, x, y) {
            assert forall|dx: int, dy: int|
                -1 <= dx <= 1 && -1 <= dy <= 1 && !(dx == 0 && dy == 0) implies #[trigger] neighbor_ok(
                img,
                t,
                b,
                x,
                y,
                dx,
                dy,
            ) by {
                assert(neighbor_ok(ng, t, b, x, y, dx, dy));
            }
        }
        assert(nms_max(ng, t, b, x, y) == nms_max(img, t, b, x, y));
        assert(ng.w == img.w);
        assert(lin_score(ng, t, b, i) == lin_score(img, t, b, i));
    }
    lemma_negative_corners_upto(img, t, b, img.w * img.h);
}

proof fn lemma_negative_corners_upto(img: ImageView, t: int, b: int, k: nat)
    requires
        forall|i: int| #[trigger] lin_keep(negative(img), t, b, i) == lin_keep(img, t, b, i),
        forall|x: int, y: int| #[trigger] score_at(negative(img), t, b, x, y) == score_at(img, t, b, x, y),
    ensures
        fast_corners_upto(negative(img), t, b, k) == fast_corners_upto(img, t, b, k),
    decreases k,
{
    if k > 0 {
        lemma_negative_corners_upto(img, t, b, (k - 1) as nat);
        let i = k - 1;
        assert(lin_keep(negative(img), t, b, i) == lin_keep(img, t, b, i));
        assert(lin_score(negative(img), t, b, i) == lin_score(img, t, b, i));
        assert(corner_at(negative(img), t, b, i) == corner_at(img, t, b, i));
    }
}

/// The sixteen 9-sample windows of the ring, bit by bit.
proof fn lemma_windows_bv(m: u16)
    by (bit_vector)
    ensures
        (m & 0x01FFu16) == 0x01FFu16 <==> ((m >> 0u16) & 1 == 1 && (m >> 1u16) & 1 == 1 && (m >> 2u16) & 1 == 1 && (m >> 3u16) & 1 == 1 && (m >> 4u16) & 1 == 1 && (m >> 5u16) & 1 == 1 && (m >> 6u16) & 1 == 1 && (m >> 7u16) & 1 == 1 && (m >> 8u16) & 1 == 1),
        (m & 0x03FEu16) == 0x03FEu16 <==> ((m >> 1u16) & 1 == 1 && (m >> 2u16) & 1 == 1 && (m >> 3u16) & 1 == 1 && (m >> 4u16) & 1 == 1 && (m >> 5u16) & 1 == 1 && (m >> 6u16) & 1 == 1 && (m >> 7u16) & 1 == 1 && (m >> 8u16) & 1 == 1 && (m >> 9u16) & 1 == 1),
        (m & 0x07FCu16) == 0x07FCu16 <==> ((m >> 2u16) & 1 == 1 && (m >> 3u16) & 1 == 1 && (m >> 4u16) & 1 == 1 && (m >> 5u16) & 1 == 1 && (m >> 6u16) & 1 == 1 && (m >> 7u16) & 1 == 1 && (m >> 8u16) & 1 == 1 && (m >> 9u16) & 1 == 1 && (m >> 10u16) & 1 == 1),
        (m & 0x0FF8u16) == 0x0FF8u16 <==> ((m >> 3u16) & 1 == 1 && (m >> 4u16) & 1 == 1 && (m >> 5u16) & 1 == 1 && (m >> 6u16) & 1 == 1 && (m >> 7u16) & 1 == 1 && (m >> 8u16) & 1 == 1 && (m >> 9u16) & 1 == 1 && (m >> 10u16) & 1 == 1 && (m >> 11u16) & 1 == 1),
        (m & 0x1FF0u16) == 0x1FF0u16 <==> ((m >> 4u16) & 1 == 1 && (m >> 5u16) & 1 == 1 && (m >> 6u16) & 1 == 1 && (m >> 7u16) & 1 == 1 && (m >> 8u16) & 1 == 1 && (m >> 9u16) & 1 == 1 && (m >> 10u16) & 1 == 1 && (m >> 11u16) & 1 == 1 && (m >> 12u16) & 1 == 1),
        (m & 0x3FE0u16) == 0x3FE0u16 <==> ((m >> 5u16) & 1 == 1 && (m >> 6u16) & 1 == 1 && (m >> 7u16) & 1 == 1 && (m >> 8u16) & 1 == 1 && (m >> 9u16) & 1 == 1 && (m >> 10u16) & 1 == 1 && (m >> 11u16) & 1 == 1 && (m >> 12u16) & 1 == 1 && (m >> 13u16) & 1 == 1),
        (m & 0x7FC0u16) == 0x7FC0u16 <==> ((m >> 6u16) & 1 == 1 && (m >> 7u16) & 1 == 1 && (m >> 8u16) & 1 == 1 && (m >> 9u16) & 1 == 1 && (m >> 10u16) & 1 == 1 && (m >> 11u16) & 1 == 1 && (m >> 12u16) & 1 == 1 && (m >> 13u16) & 1 == 1 && (m >> 14u16) & 1 == 1),
        (m & 0xFF80u16) == 0xFF80u16 <==> ((m >> 7u16) & 1 == 1 && (m >> 8u16) & 1 == 1 && (m >> 9u16) & 1 == 1 && (m >> 10u16) & 1 == 1 && (m >> 11u16) & 1 == 1 && (m >> 12u16) & 1 == 1 && (m >> 13u16) & 1 == 1 && (m >> 14u16) & 1 == 1 && (m >> 15u16) & 1 == 1),
        (m & 0xFF01u16) == 0xFF01u16 <==> ((m >> 8u16) & 1 == 1 && (m >> 9u16) & 1 == 1 && (m >> 10u16) & 1 == 1 && (m >> 11u16) & 1 == 1 && (m >> 12u16) & 1 == 1 && (m >> 13u16) & 1 == 1 && (m >> 14u16) & 1 == 1 && (m >> 15u16) & 1 == 1 && (m >> 0u16) & 1 == 1),
        (m & 0xFE03u16) == 0xFE03u16 <==> ((m >> 9u16) & 1 == 1 && (m >> 10u16) & 1 == 1 && (m >> 11u16) & 1 == 1 && (m >> 12u16) & 1 == 1 && (m >> 13u16) & 1 == 1 && (m >> 14u16) & 1 == 1 && (m >> 15u16) & 1 == 1 && (m >> 0u16) & 1 == 1 && (m >> 1u16) & 1 == 1),
        (m & 0xFC07u16) == 0xFC07u16 <==> ((m >> 10u16) & 1 == 1 && (m >> 11u16) & 1 == 1 && (m >> 12u16) & 1 == 1 && (m >> 13u16) & 1 == 1 && (m >> 14u16) & 1 == 1 && (m >> 15u16) & 1 == 1 && (m >> 0u16) & 1 == 1 && (m >> 1u16) & 1 == 1 && (m >> 2u16) & 1 == 1),
        (m & 0xF80Fu16) == 0xF80Fu16 <==> ((m >> 11u16) & 1 == 1 && (m >> 12u16) & 1 == 1 && (m >> 13u16) & 1 == 1 && (m >> 14u16) & 1 == 1 && (m >> 15u16) & 1 == 1 && (m >> 0u16) & 1 == 1 && (m >> 1u16) & 1 == 1 && (m >> 2u16) & 1 == 1 && (m >> 3u16) & 1 == 1),
        (m & 0xF01Fu16) == 0xF01Fu16 <==> ((m >> 12u16) & 1 == 1 && (m >> 13u16) & 1 == 1 && (m >> 14u16) & 1 == 1 && (m >> 15u16) & 1 == 1 && (m >> 0u16) & 1 == 1 && (m >> 1u16) & 1 == 1 && (m >> 2u16) & 1 == 1 && (m >> 3u16) & 1 == 1 && (m >> 4u16) & 1 == 1),
        (m & 0xE03Fu16) == 0xE03Fu16 <==> ((m >> 13u16) & 1 == 1 && (m >> 14u16) & 1 == 1 && (m >> 15u16) & 1 == 1 && (m >> 0u16) & 1 == 1 && (m >> 1u16) & 1 == 1 && (m >> 2u16) & 1 == 1 && (m >> 3u16) & 1 == 1 && (m >> 4u16) & 1 == 1 && (m >> 5u16) & 1 == 1),
        (m & 0xC07Fu16) == 0xC07Fu16 <==> ((m >> 14u16) & 1 == 1 && (m >> 15u16) & 1 == 1 && (m >> 0u16) & 1 == 1 && (m >> 1u16) & 1 == 1 && (m >> 2u16) & 1 == 1 && (m >> 3u16) & 1 == 1 && (m >> 4u16) & 1 == 1 && (m >> 5u16) & 1 == 1 && (m >> 6u16) & 1 == 1),
        (m & 0x80FFu16) == 0x80FFu16 <==> ((m >> 15u16) & 1 == 1 && (m >> 0u16) & 1 == 1 && (m >> 1u16) & 1 == 1 && (m >> 2u16) & 1 == 1 && (m >> 3u16) & 1 == 1 && (m >> 4u16) & 1 == 1 && (m >> 5u16) & 1 == 1 && (m >> 6u16) & 1 == 1 && (m >> 7u16) & 1 == 1),
{
}

/// Bits `s .. s + 8` of the mask, circularly, are all set.
pub open spec fn nine_bits(m: u16, s: int) -> bool {
    bit16(m, (s + 0) % 16) && bit16(m, (s + 1) % 16) && bit16(m, (s + 2) % 16) && bit16(m, (s + 3) % 16) && bit16(m, (s + 4) % 16) && bit16(m, (s + 5) % 16) && bit16(m, (s + 6) % 16) && bit16(m, (s + 7) % 16) && bit16(m, (s + 8) % 16)
}

proof fn lemma_nine_bits_forall(m: u16, s: int)
    ensures
        nine_bits(m, s) <==> (forall|j: int| 0 <= j < 9 ==> #[trigger] bit16(m, (s + j) % 16)),
{
    if nine_bits(m, s) {
        assert forall|j: int| 0 <= j < 9 implies #[trigger] bit16(m, (s + j) % 16) by {
            if j == 0 {
            } else if j == 1 {
            } else if j == 2 {
            } else if j == 3 {
            } else if j == 4 {
            } else if j == 5 {
            } else if j == 6 {
            } else if j == 7 {
            } else if j == 8 {
            }
        }
    }
    if forall|j: int| 0 <= j < 9 ==> #[trigger] bit16(m, (s + j) % 16) {
        assert(bit16(m, (s + 0) % 16));
        assert(bit16(m, (s + 1) % 16));
        assert(bit16(m, (s + 2) % 16));
        assert(bit16(m, (s + 3) % 16));
        assert(bit16(m, (s + 4) % 16));
        assert(bit16(m, (s + 5) % 16));
        assert(bit16(m, (s + 6) % 16));
        assert(bit16(m, (s + 7) % 16));
        assert(bit16(m, (s + 8) % 16));
    }
}

#[verifier::spinoff_prover]
#[verifier::rlimit(50)]
proof fn lemma_window_nine_bits(m: u16, s: int)
    requires
        0 <= s < 16,
    ensures
        ((m & arc_window(s)) == arc_window(s)) <==> nine_bits(m, s),
{
    lemma_windows_bv(m);
    assert(bit16(m, 0) == ((m >> 0u16) & 1 == 1));
    assert(bit16(m, 1) == ((m >> 1u16) & 1 == 1));
    assert(bit16(m, 2) == ((m >> 2u16) & 1 == 1));
    assert(bit16(m, 3) == ((m >> 3u16) & 1 == 1));
    assert(bit16(m, 4) == ((m >> 4u16) & 1 == 1));
    assert(bit16(m, 5) == ((m >> 5u16) & 1 == 1));
    assert(bit16(m, 6) == ((m >> 6u16) & 1 == 1));
    assert(bit16(m, 7) == ((m >> 7u16) & 1 == 1));
    assert(bit16(m, 8) == ((m >> 8u16) & 1 == 1));
    assert(bit16(m, 9) == ((m >> 9u16) & 1 == 1));
    assert(bit16(m, 10) == ((m >> 10u16) & 1 == 1));
    assert(bit16(m, 11) == ((m >> 11u16) & 1 == 1));
    assert(bit16(m, 12) == ((m >> 12u16) & 1 == 1));
    assert(bit16(m, 13) == ((m >> 13u16) & 1 == 1));
    assert(bit16(m, 14) == ((m >> 14u16) & 1 == 1));
    assert(bit16(m, 15) == ((m >> 15u16) & 1 == 1));
    if s == 0 {
        assert(arc_window(0) == 0x01FFu16);
        assert(nine_bits(m, s) == (bit16(m, 0) && bit16(m, 1) && bit16(m, 2) && bit16(m, 3) && bit16(m, 4) && bit16(m, 5) && bit16(m, 6) && bit16(m, 7) && bit16(m, 8)));
    } else if s == 1 {
        assert(arc_window(1) == 0x03FEu16);
        assert(nine_bits(m, s) == (bit16(m, 1) && bit16(m, 2) && bit16(m, 3) && bit16(m, 4) && bit16(m, 5) && bit16(m, 6) && bit16(m, 7) && bit16(m, 8) && bit16(m, 9)));
    } else if s == 2 {
        assert(arc_window(2) == 0x07FCu16);
        assert(nine_bits(m, s) == (bit16(m, 2) && bit16(m, 3) && bit16(m, 4) && bit16(m, 5) && bit16(m, 6) && bit16(m, 7) && bit16(m, 8) && bit16(m, 9) && bit16(m, 10)));
    } else if s == 3 {
        assert(arc_window(3) == 0x0FF8u16);
        assert(nine_bits(m, s) == (bit16(m, 3) && bit16(m, 4) && bit16(m, 5) && bit16(m, 6) && bit16(m, 7) && bit16(m, 8) && bit16(m, 9) && bit16(m, 10) && bit16(m, 11)));
    } else if s == 4 {
        assert(arc_window(4) == 0x1FF0u16);
        assert(nine_bits(m, s) == (bit16(m, 4) && bit16(m, 5) && bit16(m, 6) && bit16(m, 7) && bit16(m, 8) && bit16(m, 9) && bit16(m, 10) && bit16(m, 11) && bit16(m, 12)));
    } else if s == 5 {
        assert(arc_window(5) == 0x3FE0u16);
        assert(nine_bits(m, s) == (bit16(m, 5) && bit16(m, 6) && bit16(m, 7) && bit16(m, 8) && bit16(m, 9) && bit16(m, 10) && bit16(m, 11) && bit16(m, 12) && bit16(m, 13)));
    } else if s == 6 {
        assert(arc_window(6) == 0x7FC0u16);
        assert(nine_bits(m, s) == (bit16(m, 6) && bit16(m, 7) && bit16(m, 8) && bit16(m, 9) && bit16(m, 10) && bit16(m, 11) && bit16(m, 12) && bit16(m, 13) && bit16(m, 14)));
    } else if s == 7 {
        assert(arc_window(7) == 0xFF80u16);
        assert(nine_bits(m, s) == (bit16(m, 7) && bit16(m, 8) && bit16(m, 9) && bit16(m, 10) && bit16(m, 11) && bit16(m, 12) && bit16(m, 13) && bit16(m, 14) && bit16(m, 15)));
    } else if s == 8 {
        assert(arc_window(8) == 0xFF01u16);
        assert(nine_bits(m, s) == (bit16(m, 8) && bit16(m, 9) && bit16(m, 10) && bit16(m, 11) && bit16(m, 12) && bit16(m, 13) && bit16(m, 14) && bit16(m, 15) && bit16(m, 0)));
    } else if s == 9 {
        assert(arc_window(9) == 0xFE03u16);
        assert(nine_bits(m, s) == (bit16(m, 9) && bit16(m, 10) && bit16(m, 11) && bit16(m, 12) && bit16(m, 13) && bit16(m, 14) && bit16(m, 15) && bit16(m, 0) && bit16(m, 1)));
    } else if s == 10 {
        assert(arc_window(10) == 0xFC07u16);
        assert(nine_bits(m, s) == (bit16(m, 10) && bit16(m, 11) && bit16(m, 12) && bit16(m, 13) && bit16(m, 14) && bit16(m, 15) && bit16(m, 0) && bit16(m, 1) && bit16(m, 2)));
    } else if s == 11 {
        assert(arc_window(11) == 0xF80Fu16);
        assert(nine_bits(m, s) == (bit16(m, 11) && bit16(m, 12) && bit16(m, 13) && bit16(m, 14) && bit16(m, 15) && bit16(m, 0) && bit16(m, 1) && bit16(m, 2) && bit16(m, 3)));
    } else if s == 12 {
        assert(arc_window(12) == 0xF01Fu16);
        assert(nine_bits(m, s) == (bit16(m, 12) && bit16(m, 13) && bit16(m, 14) && bit16(m, 15) && bit16(m, 0) && bit16(m, 1) && bit16(m, 2) && bit16(m, 3) && bit16(m, 4)));
    } else if s == 13 {
        assert(arc_window(13) == 0xE03Fu16);
        assert(nine_bits(m, s) == (bit16(m, 13) && bit16(m, 14) && bit16(m, 15) && bit16(m, 0) && bit16(m, 1) && bit16(m, 2) && bit16(m, 3) && bit16(m, 4) && bit16(m, 5)));
    } else if s == 14 {
        assert(arc_window(14) == 0xC07Fu16);
        assert(nine_bits(m, s) == (bit16(m, 14) && bit16(m, 15) && bit16(m, 0) && bit16(m, 1) && bit16(m, 2) && bit16(m, 3) && bit16(m, 4) && bit16(m, 5) && bit16(m, 6)));
    } else if s == 15 {
        assert(arc_window(15) == 0x80FFu16);
        assert(nine_bits(m, s) == (bit16(m, 15) && bit16(m, 0) && bit16(m, 1) && bit16(m, 2) && bit16(m, 3) && bit16(m, 4) && bit16(m, 5) && bit16(m, 6) && bit16(m, 7)));
    }
}

/// A window of the mask is full exactly when its nine bits, circularly from
/// `s`, are set.
proof fn lemma_window_bits(m: u16, s: int)
    requires
        0 <= s < 16,
    ensures
        ((m & arc_window(s)) == arc_window(s)) <==> (forall|j: int| 0 <= j < 9 ==> #[trigger] bit16(m, (s + j) % 16)),
{
    lemma_window_nine_bits(m, s);
    lemma_nine_bits_forall(m, s);
}

/// Ring samples `s .. s + 8` (circularly) are all at least `t` brighter
/// than the center, or all at least `t` darker.
pub open spec fn nine_arc(img: ImageView, x: int, y: int, t: int, s: int) -> bool {
    ||| forall|j: int| 0 <= j < 9 ==> #[trigger] ring_val(img, x, y, (s + j) % 16) >= img.px(x, y) + t
    ||| forall|j: int| 0 <= j < 9 ==> #[trigger] ring_val(img, x, y, (s + j) % 16) <= img.px(x, y) - t
}

proof fn lemma_ring_sad_nonneg(img: ImageView, x: int, y: int, t: int, dark: bool, k: nat)
    requires
        t >= 1,
    ensures
        ring_sad(img, x, y, t, dark, k) >= 0,
    decreases k,
{
    if k > 0 {
        lemma_ring_sad_nonneg(img, x, y, t, dark, (k - 1) as nat);
    }
}

/// FAST-9 finds a corner exactly where 9 circularly consecutive ring
/// samples are all brighter than the center by at least `t`, or all darker
/// by at least `t` (thresholds of at least 1).
pub proof fn lemma_corner_iff_nine_arc(img: ImageView, x: int, y: int, t: int)
    requires
        t >= 1,
    ensures
        corner_score(img, x, y, t) > 0 <==> exists|s: int| 0 <= s < 16 && #[trigger] nine_arc(img, x, y, t, s),
{
    let mb = ring_mask(img, x, y, t, false, 16);
    let md = ring_mask(img, x, y, t, true, 16);
    lemma_ring_mask_bits(img, x, y, t, false, 16);
    lemma_ring_mask_bits(img, x, y, t, true, 16);
    lemma_ring_sad_nonneg(img, x, y, t, false, 16);
    lemma_ring_sad_nonneg(img, x, y, t, true, 16);
    assert forall|i: int| 0 <= i < 16 implies (#[trigger] bit16(mb, i) <==> ring_val(img, x, y, i) >= img.px(x, y) + t)
        && (bit16(md, i) <==> ring_val(img, x, y, i) <= img.px(x, y) - t) by {}
    if has_run9(mb) || has_run9(md) {
        if has_run9(mb) {
            let s = choose|s: int| 0 <= s < 16 && #[trigger] (mb & arc_window(s)) == arc_window(s);
            lemma_window_bits(mb, s);
            assert forall|j: int| 0 <= j < 9 implies #[trigger] ring_val(img, x, y, (s + j) % 16) >= img.px(x, y) + t by {
                assert(bit16(mb, (s + j) % 16));
            }
            assert(nine_arc(img, x, y, t, s));
        } else {
            let s = choose|s: int| 0 <= s < 16 && #[trigger] (md & arc_window(s)) == arc_window(s);
            lemma_window_bits(md, s);
            assert forall|j: int| 0 <= j < 9 implies #[trigger] ring_val(img, x, y, (s + j) % 16) <= img.px(x, y) - t by {
                assert(bit16(md, (s + j) % 16));
            }
            assert(nine_arc(img, x, y, t, s));
        }
    }
    if exists|s: int| 0 <= s < 16 && #[trigger] nine_arc(img, x, y, t, s) {
        let s = choose|s: int| 0 <= s < 16 && #[trigger] nine_arc(img, x, y, t, s);
        lemma_window_bits(mb, s);
        lemma_window_bits(md, s);
        if forall|j: int| 0 <= j < 9 ==> #[trigger] ring_val(img, x, y, (s + j) % 16) >= img.px(x, y) + t {
            assert forall|j: int| 0 <= j < 9 implies #[trigger] bit16(mb, (s + j) % 16) by {
                assert(ring_val(img, x, y, (s + j) % 16) >= img.px(x, y) + t);
            }
            assert((mb & arc_window(s)) == arc_window(s));
            assert(has_run9(mb));
        } else {
            assert forall|j: int| 0 <= j < 9 implies #[trigger] bit16(md, (s + j) % 16) by {
                assert(ring_val(img, x, y, (s + j) % 16) <= img.px(x, y) - t);
            }
            assert((md & arc_window(s)) == arc_window(s));
            assert(has_run9(md));
        }
    }
}

} // verus!
