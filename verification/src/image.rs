//! Grayscale image container and its integer operations: 2x2 downsampling,
//! area reduction, box blur, pyramid.

use vstd::prelude::*;

verus! {

/// Row-major 8-bit grayscale image.
#[derive(Clone)]
pub struct GrayImage {
    pub w: usize,
    pub h: usize,
    pub data: Vec<u8>,
}

/// Mathematical view of a grayscale image.
pub struct ImageView {
    pub w: nat,
    pub h: nat,
    pub data: Seq<u8>,
}

impl View for GrayImage {
    type V = ImageView;

    open spec fn view(&self) -> ImageView {
        ImageView { w: self.w as nat, h: self.h as nat, data: self.data@ }
    }
}

impl ImageView {
    /// The pixel buffer holds exactly `w * h` samples.
    pub open spec fn wf(self) -> bool {
        self.data.len() == self.w * self.h
    }

    /// Sample at column `x`, row `y`.
    pub open spec fn px(self, x: int, y: int) -> u8 {
        self.data[y * self.w + x]
    }

    /// Sample with both coordinates clamped to the image (edge replication).
    pub open spec fn px_clamped(self, x: int, y: int) -> u8 {
        self.px(clamp_coord(x, self.w as int), clamp_coord(y, self.h as int))
    }

    /// Rounded mean of the 2x2 block whose top-left corner is `(2x, 2y)`.
    pub open spec fn half_px(self, x: int, y: int) -> int {
        (self.px(2 * x, 2 * y) + self.px(2 * x + 1, 2 * y) + self.px(2 * x, 2 * y + 1) + self.px(
            2 * x + 1,
            2 * y + 1,
        ) + 2) / 4
    }

    /// The 2x2-average downsample: half the size (odd last row / column dropped).
    pub open spec fn halved(self) -> ImageView {
        ImageView {
            w: self.w / 2,
            h: self.h / 2,
            data: Seq::new(
                (self.w / 2) * (self.h / 2),
                |i: int| self.half_px(i % (self.w / 2) as int, i / (self.w / 2) as int) as u8,
            ),
        }
    }

    /// Sum of the clamped samples of row `y` over columns `a .. b`.
    pub open spec fn row_sum(self, y: int, a: int, b: int) -> int
        decreases b - a,
    {
        if b <= a {
            0
        } else {
            self.row_sum(y, a, b - 1) + self.px_clamped(b - 1, y)
        }
    }

    /// Sum of the clamped samples of the rectangle columns `x0 .. x1`, rows `a .. b`.
    pub open spec fn rect_sum(self, x0: int, x1: int, a: int, b: int) -> int
        decreases b - a,
    {
        if b <= a {
            0
        } else {
            self.rect_sum(x0, x1, a, b - 1) + self.row_sum(clamp_coord(b - 1, self.h as int), x0, x1)
        }
    }

    /// The naive windowed sum of the `(2r+1) x (2r+1)` window centered on `(x, y)`,
    /// with edge replication.
    pub open spec fn window_sum(self, x: int, y: int, r: int) -> int {
        self.rect_sum(x - r, x + r + 1, y - r, y + r + 1)
    }

    /// Box-blurred sample: the window sum divided by the window area, rounded.
    pub open spec fn blur_px(self, x: int, y: int, r: int) -> u8 {
        let norm = (2 * r + 1) * (2 * r + 1);
        ((self.window_sum(x, y, r) + norm / 2) / norm) as u8
    }
}

/// `v` clamped to `0 .. n - 1`.
pub open spec fn clamp_coord(v: int, n: int) -> int {
    if v < 0 {
        0
    } else if v >= n {
        n - 1
    } else {
        v
    }
}

pub proof fn lemma_index_bound(w: int, h: int, x: int, y: int)
    requires
        0 <= x < w,
        0 <= y < h,
    ensures
        0 <= y * w + x < w * h,
        y * w + x < h * w,
        y * w + x < (y + 1) * w,
        (y + 1) * w == y * w + w,
        (y + 1) * w <= w * h,
{
    assert(0 <= y * w + x < w * h) by (nonlinear_arith)
        requires
            0 <= x < w,
            0 <= y < h,
    ;
    assert((y + 1) * w == y * w + w) by (nonlinear_arith);
    assert(w * h == h * w) by (nonlinear_arith);
    assert((y + 1) * w <= w * h) by (nonlinear_arith)
        requires
            0 <= x < w,
            0 <= y < h,
    ;
}

/// Row `y` of an image of width `w` starts at `y * w`: index arithmetic of the
/// row-major layout.
pub proof fn lemma_div_mod_index(w: int, x: int, y: int)
    requires
        0 <= x < w,
        0 <= y,
    ensures
        (y * w + x) % w == x,
        (y * w + x) / w == y,
{
    vstd::arithmetic::div_mod::lemma_fundamental_div_mod_converse(y * w + x, w, y, x);
}

/// Shifting a row window by one column adds the entering sample and drops the
/// leaving one.
pub proof fn lemma_row_sum_shift(img: ImageView, y: int, a: int, b: int)
    requires
        a <= b,
    ensures
        img.row_sum(y, a + 1, b + 1) == img.row_sum(y, a, b) - img.px_clamped(a, y)
            + img.px_clamped(b, y),
    decreases b - a,
{
    if a < b {
        lemma_row_sum_shift(img, y, a, b - 1);
    }
}

pub proof fn lemma_row_sum_bounds(img: ImageView, y: int, a: int, b: int)
    requires
        a <= b,
    ensures
        0 <= img.row_sum(y, a, b) <= 255 * (b - a),
    decreases b - a,
{
    if a < b {
        lemma_row_sum_bounds(img, y, a, b - 1);
    }
}

/// Shifting a window of rows by one row adds the entering row and drops the
/// leaving one.
pub proof fn lemma_rect_sum_shift(img: ImageView, x0: int, x1: int, a: int, b: int)
    requires
        a <= b,
    ensures
        img.rect_sum(x0, x1, a + 1, b + 1) == img.rect_sum(x0, x1, a, b) - img.row_sum(
            clamp_coord(a, img.h as int),
            x0,
            x1,
        ) + img.row_sum(clamp_coord(b, img.h as int), x0, x1),
    decreases b - a,
{
    if a < b {
        lemma_rect_sum_shift(img, x0, x1, a, b - 1);
    }
}

pub proof fn lemma_rect_sum_bounds(img: ImageView, x0: int, x1: int, a: int, b: int)
    requires
        a <= b,
        x0 <= x1,
    ensures
        0 <= img.rect_sum(x0, x1, a, b) <= 255 * (x1 - x0) * (b - a),
    decreases b - a,
{
    if a < b {
        lemma_rect_sum_bounds(img, x0, x1, a, b - 1);
        lemma_row_sum_bounds(img, clamp_coord(b - 1, img.h as int), x0, x1);
        assert(255 * (x1 - x0) * (b - 1 - a) + 255 * (x1 - x0) == 255 * (x1 - x0) * (b - a))
            by (nonlinear_arith);
        assert(0 <= 255 * (x1 - x0) * (b - 1 - a)) by (nonlinear_arith)
            requires
                x0 <= x1,
                a < b,
        ;
    }
}

/// The rounded window mean never exceeds the sample range.
pub proof fn lemma_blur_in_range(img: ImageView, x: int, y: int, r: int)
    requires
        0 <= r,
    ensures
        0 <= (img.window_sum(x, y, r) + (2 * r + 1) * (2 * r + 1) / 2) / ((2 * r + 1) * (2 * r
            + 1)) <= 255,
{
    let norm = (2 * r + 1) * (2 * r + 1);
    let s = img.window_sum(x, y, r);
    lemma_rect_sum_bounds(img, x - r, x + r + 1, y - r, y + r + 1);
    assert(norm >= 1) by (nonlinear_arith)
        requires
            norm == (2 * r + 1) * (2 * r + 1),
            0 <= r,
    ;
    assert(s <= 255 * norm) by (nonlinear_arith)
        requires
            s <= 255 * (x + r + 1 - (x - r)) * (y + r + 1 - (y - r)),
            norm == (2 * r + 1) * (2 * r + 1),
    ;
    assert((s + norm / 2) / norm <= 255) by (nonlinear_arith)
        requires
            0 <= s <= 255 * norm,
            norm >= 1,
    ;
    assert(0 <= (s + norm / 2) / norm) by (nonlinear_arith)
        requires
            0 <= s,
            norm >= 1,
    ;
}

/// Repeated 2x2 downsampling: `k` halvings of `img`.
pub open spec fn halvings(img: ImageView, k: nat) -> ImageView
    decreases k,
{
    if k == 0 {
        img
    } else {
        halvings(img, (k - 1) as nat).halved()
    }
}

/// Area reduction towards a `nw x nh` target: halve while both sides are at
/// least twice the target (and at least 2).
pub open spec fn area_reduced(img: ImageView, nw: nat, nh: nat) -> ImageView
    decreases img.w,
{
    if img.w >= 2 * nw && img.h >= 2 * nh && img.w >= 2 && img.h >= 2 {
        area_reduced(img.halved(), nw, nh)
    } else {
        img
    }
}

pub proof fn lemma_halvings_wf(img: ImageView, k: nat)
    requires
        img.wf(),
    ensures
        halvings(img, k).wf(),
    decreases k,
{
    if k > 0 {
        lemma_halvings_wf(img, (k - 1) as nat);
    }
}

/// Box-blurring a flat image leaves it unchanged.
pub proof fn lemma_blur_flat(img: ImageView, v: u8, x: int, y: int, r: int)
    requires
        img.wf(),
        0 <= x < img.w,
        0 <= y < img.h,
        0 <= r,
        forall|i: int| 0 <= i < img.data.len() ==> img.data[i] == v,
    ensures
        img.blur_px(x, y, r) == v,
{
    let norm = (2 * r + 1) * (2 * r + 1);
    lemma_flat_rect_sum(img, v, x - r, x + r + 1, y - r, y + r + 1);
    assert(v * (2 * r + 1) * (2 * r + 1) == v * norm) by (nonlinear_arith)
        requires
            norm == (2 * r + 1) * (2 * r + 1),
    ;
    assert(norm >= 1) by (nonlinear_arith)
        requires
            norm == (2 * r + 1) * (2 * r + 1),
            0 <= r,
    ;
    assert((v * norm + norm / 2) / norm == v) by (nonlinear_arith)
        requires
            norm >= 1,
            0 <= v,
    ;
}

proof fn lemma_flat_px(img: ImageView, v: u8, x: int, y: int)
    requires
        img.wf(),
        img.w > 0,
        img.h > 0,
        forall|i: int| 0 <= i < img.data.len() ==> img.data[i] == v,
    ensures
        img.px_clamped(x, y) == v,
{
    let cx = clamp_coord(x, img.w as int);
    let cy = clamp_coord(y, img.h as int);
    lemma_index_bound(img.w as int, img.h as int, cx, cy);
}

proof fn lemma_flat_rect_sum(img: ImageView, v: u8, x0: int, x1: int, a: int, b: int)
    requires
        img.wf(),
        img.w > 0,
        img.h > 0,
        x0 <= x1,
        a <= b,
        forall|i: int| 0 <= i < img.data.len() ==> img.data[i] == v,
    ensures
        img.rect_sum(x0, x1, a, b) == v * (x1 - x0) * (b - a),
    decreases b - a,
{
    if a < b {
        lemma_flat_rect_sum(img, v, x0, x1, a, b - 1);
        lemma_flat_row_sum(img, v, clamp_coord(b - 1, img.h as int), x0, x1);
        assert(v * (x1 - x0) * (b - 1 - a) + v * (x1 - x0) == v * (x1 - x0) * (b - a))
            by (nonlinear_arith);
    } else {
        assert(v * (x1 - x0) * (b - a) == 0) by (nonlinear_arith)
            requires
                a == b,
        ;
    }
}

proof fn lemma_flat_row_sum(img: ImageView, v: u8, y: int, a: int, b: int)
    requires
        img.wf(),
        img.w > 0,
        img.h > 0,
        a <= b,
        forall|i: int| 0 <= i < img.data.len() ==> img.data[i] == v,
    ensures
        img.row_sum(y, a, b) == v * (b - a),
    decreases b - a,
{
    if a < b {
        lemma_flat_row_sum(img, v, y, a, b - 1);
        lemma_flat_px(img, v, b - 1, y);
        assert(v * (b - 1 - a) + v == v * (b - a)) by (nonlinear_arith);
    } else {
        assert(v * (b - a) == 0) by (nonlinear_arith)
            requires
                a == b,
        ;
    }
}

/// Number of pyramid levels allowed by `max_levels` (level 0 always exists).
pub open spec fn level_cap(max_levels: usize) -> int {
    if max_levels > 1 {
        max_levels as int
    } else {
        1
    }
}

/// Multi-resolution pyramid: `levels[i]` has scale factor `2^i` relative to level 0.
pub struct Pyramid {
    pub levels: Vec<GrayImage>,
}

impl GrayImage {
    /// A `w x h` image filled with zeros.
    pub fn new(w: usize, h: usize) -> (img: GrayImage)
        requires
            w * h <= usize::MAX,
        ensures
            img@.w == w,
            img@.h == h,
            img@.wf(),
            forall|i: int| 0 <= i < w * h ==> img@.data[i] == 0,
    {
        let n = w * h;
        let data = vec![0u8; n];
        GrayImage { w, h, data }
    }

    /// Wraps an existing row-major buffer of exactly `w * h` samples.
    pub fn from_vec(w: usize, h: usize, data: Vec<u8>) -> (img: GrayImage)
        requires
            data@.len() == w * h,
        ensures
            img@.w == w,
            img@.h == h,
            img@.data == data@,
            img@.wf(),
    {
        GrayImage { w, h, data }
    }

    /// The sample at column `x`, row `y`.
    pub fn at(&self, x: usize, y: usize) -> (v: u8)
        requires
            self@.wf(),
            x < self.w,
            y < self.h,
        ensures
            v == self@.px(x as int, y as int),
    {
        let n = self.data.len();
        proof {
            lemma_index_bound(self.w as int, self.h as int, x as int, y as int);
        }
        self.data[y * self.w + x]
    }

    /// Overwrites the sample at column `x`, row `y`.
    pub fn set(&mut self, x: usize, y: usize, v: u8)
        requires
            old(self)@.wf(),
            x < old(self).w,
            y < old(self).h,
        ensures
            final(self).w == old(self).w,
            final(self).h == old(self).h,
            final(self)@.data == old(self)@.data.update(y * old(self).w + x, v),
            final(self)@.wf(),
    {
        let n = self.data.len();
        proof {
            lemma_index_bound(self.w as int, self.h as int, x as int, y as int);
        }
        let i = y * self.w + x;
        self.data.set(i, v);
    }

    /// 2x2 average downsample (drops an odd last row / column).
    pub fn downsample_half(&self) -> (out: GrayImage)
        requires
            self@.wf(),
        ensures
            out@ == self@.halved(),
            out@.wf(),
            forall|x: int, y: int|
                0 <= x < out.w && 0 <= y < out.h ==> #[trigger] out@.px(x, y) == self@.half_px(
                    x,
                    y,
                ) as u8,
    {
        let nw = self.w / 2;
        let nh = self.h / 2;
        proof {
            assert(nw * nh <= self.w * self.h) by (nonlinear_arith)
                requires
                    nw == self.w / 2,
                    nh == self.h / 2,
            ;
        }
        let mut data: Vec<u8> = Vec::new();
        let mut y: usize = 0;
        while y < nh
            invariant
                self@.wf(),
                nw == self.w / 2,
                nh == self.h / 2,
                y <= nh,
                data@.len() == y * nw,
                forall|xx: int, yy: int|
                    0 <= xx < nw && 0 <= yy < y ==> #[trigger] data@[yy * nw + xx]
                        == self@.half_px(xx, yy) as u8,
            decreases nh - y,
        {
            let mut x: usize = 0;
            while x < nw
                invariant
                    self@.wf(),
                    nw == self.w / 2,
                    nh == self.h / 2,
                    y < nh,
                    x <= nw,
                    data@.len() == y * nw + x,
                    forall|xx: int, yy: int|
                        0 <= xx < nw && 0 <= yy < y ==> #[trigger] data@[yy * nw + xx]
                            == self@.half_px(xx, yy) as u8,
                    forall|xx: int| 0 <= xx < x ==> #[trigger] data@[y * nw + xx]
                        == self@.half_px(xx, y as int) as u8,
                decreases nw - x,
            {
                let s = self.at(2 * x, 2 * y) as u16 + self.at(2 * x + 1, 2 * y) as u16 + self.at(
                    2 * x,
                    2 * y + 1,
                ) as u16 + self.at(2 * x + 1, 2 * y + 1) as u16;
                let ghost before = data@;
                data.push(((s + 2) / 4) as u8);
                proof {
                    assert forall|xx: int, yy: int|
                        0 <= xx < nw && 0 <= yy < y implies #[trigger] data@[yy * nw + xx]
                        == self@.half_px(xx, yy) as u8 by {
                        lemma_index_bound(nw as int, y as int, xx, yy);
                        assert(data@[yy * nw + xx] == before[yy * nw + xx]);
                    }
                    assert forall|xx: int| 0 <= xx < x + 1 implies #[trigger] data@[y * nw + xx]
                        == self@.half_px(xx, y as int) as u8 by {
                        if xx < x {
                            assert(data@[y * nw + xx] == before[y * nw + xx]);
                        }
                    }
                }
                x = x + 1;
            }
            proof {
                assert((y + 1) * nw == y * nw + nw) by (nonlinear_arith);
                assert forall|xx: int, yy: int|
                    0 <= xx < nw && 0 <= yy < y + 1 implies #[trigger] data@[yy * nw + xx]
                    == self@.half_px(xx, yy) as u8 by {
                    if yy == y {
                        assert(data@[y * nw + xx] == self@.half_px(xx, y as int) as u8);
                    }
                }
            }
            y = y + 1;
        }
        let out = GrayImage { w: nw, h: nh, data };
        proof {
            assert(data@.len() == nw * nh) by (nonlinear_arith)
                requires
                    data@.len() == y * nw,
                    y == nh,
            ;
            assert forall|x: int, y: int|
                0 <= x < out.w && 0 <= y < out.h implies #[trigger] out@.px(x, y)
                == self@.half_px(x, y) as u8 by {
                assert(data@[y * nw + x] == self@.half_px(x, y) as u8);
            }
            assert forall|i: int| 0 <= i < out@.data.len() implies #[trigger] out@.data[i]
                == self@.halved().data[i] by {
                let xx = i % (nw as int);
                let yy = i / (nw as int);
                vstd::arithmetic::div_mod::lemma_fundamental_div_mod(i, nw as int);
                assert(0 <= xx < nw);
                assert(yy * nw + xx == i) by (nonlinear_arith)
                    requires
                        i == nw * (i / nw as int) + i % (nw as int),
                        xx == i % (nw as int),
                        yy == i / (nw as int),
                ;
                assert(0 <= yy < nh) by (nonlinear_arith)
                    requires
                        0 <= i < nw * nh,
                        yy * nw + xx == i,
                        0 <= xx < nw,
                ;
                assert(out@.data[i] == data@[yy * nw + xx]);
            }
            assert(out@.data =~= self@.halved().data);
        }
        out
    }

    /// Separable box blur of radius `radius` with edge replication: every
    /// output sample is the rounded mean of the `(2r+1) x (2r+1)` window around
    /// it, computed with running sums (bit-identical to the naive windowed sum).
    pub fn box_blur(&self, radius: usize) -> (out: GrayImage)
        requires
            self@.wf(),
            radius <= 127,
            radius > 0 ==> self.w > 0 && self.h > 0,
        ensures
            out@.w == self.w,
            out@.h == self.h,
            out@.wf(),
            forall|x: int, y: int|
                0 <= x < self.w && 0 <= y < self.h ==> #[trigger] out@.px(x, y)
                    == self@.blur_px(x, y, radius as int),
    {
        let w = self.w;
        let h = self.h;
        if radius == 0 {
            let out = self.copied();
            proof {
                assert forall|x: int, y: int|
                    0 <= x < self.w && 0 <= y < self.h implies #[trigger] out@.px(x, y)
                    == self@.blur_px(x, y, 0) by {
                    let img = self@;
                    assert(img.window_sum(x, y, 0) == img.rect_sum(x, x + 1, y, y + 1));
                    assert(img.rect_sum(x, x + 1, y, y) == 0);
                    assert(img.row_sum(y, x, x) == 0);
                    assert(clamp_coord(x, w as int) == x);
                    assert(clamp_coord(y, h as int) == y);
                    assert(img.px_clamped(x, y) == img.px(x, y));
                    assert(img.row_sum(y, x, x + 1) == img.row_sum(y, x, x) + img.px_clamped(
                        x,
                        y,
                    ));
                    assert(img.rect_sum(x, x + 1, y, y + 1) == img.rect_sum(x, x + 1, y, y)
                        + img.row_sum(y, x, x + 1));
                    assert(img.window_sum(x, y, 0) == img.px(x, y) as int);
                    assert(out@.px(x, y) == img.px(x, y));
                    assert(((img.window_sum(x, y, 0) + 0) / 1) as u8 == img.px(x, y));
                    assert((2 * 0int + 1) * (2 * 0int + 1) == 1) by (nonlinear_arith);
                }
            }
            return out;
        }
        let r = radius;
        let ghost img = self@;
        let ghost ri = r as int;
        let nlen = self.data.len();

        // Horizontal pass: sliding window sum per row.
        let mut tmp: Vec<u16> = Vec::new();
        let mut y: usize = 0;
        while y < h
            invariant
                img == self@,
                img.wf(),
                w == self.w,
                h == self.h,
                nlen == w * h,
                w > 0,
                r == ri,
                1 <= r <= 127,
                y <= h,
                tmp@.len() == y * w,
                forall|xx: int, yy: int|
                    0 <= xx < w && 0 <= yy < y ==> #[trigger] tmp@[yy * w + xx] as int
                        == img.row_sum(yy, xx - ri, xx + ri + 1),
            decreases h - y,
        {
            let mut s: u32 = 0;
            let mut k: usize = 0;
            while k < 2 * r + 1
                invariant
                    img == self@,
                    img.wf(),
                    w == self.w,
                    h == self.h,
                    w > 0,
                    y < h,
                    r == ri,
                    1 <= r <= 127,
                    k <= 2 * r + 1,
                    s as int == img.row_sum(y as int, -ri, k - ri),
                decreases 2 * r + 1 - k,
            {
                let xi = if k < r {
                    0
                } else if k - r >= w {
                    w - 1
                } else {
                    k - r
                };
                proof {
                    lemma_row_sum_bounds(img, y as int, -ri, k - ri);
                    assert(xi == clamp_coord(k - ri, w as int));
                }
                s = s + self.at(xi, y) as u32;
                k = k + 1;
            }
            proof {
                lemma_row_sum_bounds(img, y as int, -ri, ri + 1);
                assert(255 * (ri + 1 - (-ri)) <= 65025);
                lemma_index_bound(w as int, h as int, 0, y as int);
            }
            let ghost row_start = tmp@;
            tmp.push(s as u16);
            let mut x: usize = 1;
            while x < w
                invariant
                    img == self@,
                    img.wf(),
                    w == self.w,
                    h == self.h,
                    w > 0,
                    y < h,
                    r == ri,
                    1 <= r <= 127,
                    1 <= x <= w,
                    row_start.len() == y * w,
                    tmp@.len() == y * w + x,
                    tmp@.subrange(0, y * w as int) == row_start,
                    forall|xx: int| 0 <= xx < x ==> #[trigger] tmp@[y * w + xx] as int
                        == img.row_sum(y as int, xx - ri, xx + ri + 1),
                    s as int == img.row_sum(y as int, x - 1 - ri, x + ri),
                decreases w - x,
            {
                let add_x = if r >= w - x {
                    w - 1
                } else {
                    x + r
                };
                let sub_x = if x >= 1 + r {
                    x - 1 - r
                } else {
                    0
                };
                proof {
                    assert(add_x == clamp_coord(x + ri, w as int));
                    assert(sub_x == clamp_coord(x - 1 - ri, w as int));
                    lemma_row_sum_shift(img, y as int, x - 1 - ri, x + ri);
                    lemma_row_sum_bounds(img, y as int, x - ri, x + ri + 1);
                    lemma_row_sum_bounds(img, y as int, x - 1 - ri, x + ri);
                }
                s = s + self.at(add_x, y) as u32;
                s = s - self.at(sub_x, y) as u32;
                let ghost before = tmp@;
                tmp.push(s as u16);
                proof {
                    assert(tmp@.subrange(0, y * w as int) =~= before.subrange(0, y * w as int));
                    assert forall|xx: int| 0 <= xx < x + 1 implies #[trigger] tmp@[y * w + xx] as int
                        == img.row_sum(y as int, xx - ri, xx + ri + 1) by {
                        if xx < x {
                            assert(tmp@[y * w + xx] == before[y * w + xx]);
                        }
                    }
                }
                x = x + 1;
            }
            proof {
                lemma_index_bound(w as int, h as int, 0, y as int);
                assert forall|xx: int, yy: int|
                    0 <= xx < w && 0 <= yy < y + 1 implies #[trigger] tmp@[yy * w + xx] as int
                    == img.row_sum(yy, xx - ri, xx + ri + 1) by {
                    if yy < y {
                        lemma_index_bound(w as int, y as int, xx, yy);
                        assert(tmp@.subrange(0, y * w as int)[yy * w + xx] == tmp@[yy * w + xx]);
                        assert(tmp@[yy * w + xx] == row_start[yy * w + xx]);
                    }
                }
            }
            y = y + 1;
        }

        proof {
            assert(tmp@.len() == w * h) by (nonlinear_arith)
                requires
                    tmp@.len() == y * w,
                    y == h,
            ;
        }
        // Vertical pass: one running column-sum array swept down the image.
        let win: u32 = (2 * r + 1) as u32;
        assert(win <= 255);
        assert(win * win <= 65025) by (nonlinear_arith)
            requires
                win <= 255,
        ;
        let norm: u32 = win * win;
        let half: u32 = norm / 2;
        let mut acc: Vec<u32> = vec![0u32; w];
        let mut k: usize = 0;
        while k < 2 * r + 1
            invariant
                img == self@,
                img.wf(),
                w == self.w,
                h == self.h,
                nlen == w * h,
                w > 0,
                h > 0,
                r == ri,
                1 <= r <= 127,
                k <= 2 * r + 1,
                tmp@.len() == w * h,
                forall|xx: int, yy: int|
                    0 <= xx < w && 0 <= yy < h ==> #[trigger] tmp@[yy * w + xx] as int
                        == img.row_sum(yy, xx - ri, xx + ri + 1),
                acc@.len() == w,
                forall|xx: int| 0 <= xx < w ==> #[trigger] acc@[xx] as int == img.rect_sum(
                    xx - ri,
                    xx + ri + 1,
                    -ri,
                    k - ri,
                ),
            decreases 2 * r + 1 - k,
        {
            let yi = if k < r {
                0
            } else if k - r >= h {
                h - 1
            } else {
                k - r
            };
            proof {
                assert(yi == clamp_coord(k - ri, h as int));
            }
            let mut x: usize = 0;
            while x < w
                invariant
                    img == self@,
                    img.wf(),
                    w == self.w,
                    h == self.h,
                    nlen == w * h,
                    w > 0,
                    h > 0,
                    r == ri,
                    1 <= r <= 127,
                    k < 2 * r + 1,
                    yi == clamp_coord(k - ri, h as int),
                    x <= w,
                    tmp@.len() == w * h,
                    forall|xx: int, yy: int|
                        0 <= xx < w && 0 <= yy < h ==> #[trigger] tmp@[yy * w + xx] as int
                            == img.row_sum(yy, xx - ri, xx + ri + 1),
                    acc@.len() == w,
                    forall|xx: int| 0 <= xx < x ==> #[trigger] acc@[xx] as int == img.rect_sum(
                        xx - ri,
                        xx + ri + 1,
                        -ri,
                        k + 1 - ri,
                    ),
                    forall|xx: int| x <= xx < w ==> #[trigger] acc@[xx] as int == img.rect_sum(
                        xx - ri,
                        xx + ri + 1,
                        -ri,
                        k - ri,
                    ),
                decreases w - x,
            {
                proof {
                    lemma_index_bound(w as int, h as int, x as int, yi as int);
                    let xx = x as int;
                    assert(tmp@[yi * w + xx] as int == img.row_sum(yi as int, xx - ri, xx + ri + 1));
                    lemma_rect_sum_bounds(img, xx - ri, xx + ri + 1, -ri, k - ri);
                    assert(255 * (xx + ri + 1 - (xx - ri)) * (k - ri - (-ri)) <= 255 * 255 * 255)
                        by (nonlinear_arith)
                        requires
                            k < 2 * ri + 1,
                            ri <= 127,
                            0 <= k,
                    ;
                    lemma_row_sum_bounds(img, yi as int, xx - ri, xx + ri + 1);
                }
                let v = acc[x] + tmp[yi * w + x] as u32;
                acc.set(x, v);
                x = x + 1;
            }
            k = k + 1;
        }
        let mut out: Vec<u8> = Vec::new();
        let mut y: usize = 0;
        while y < h
            invariant
                img == self@,
                img.wf(),
                w == self.w,
                h == self.h,
                nlen == w * h,
                w > 0,
                h > 0,
                r == ri,
                1 <= r <= 127,
                win == 2 * r + 1,
                norm == win * win,
                half == norm / 2,
                y <= h,
                tmp@.len() == w * h,
                forall|xx: int, yy: int|
                    0 <= xx < w && 0 <= yy < h ==> #[trigger] tmp@[yy * w + xx] as int
                        == img.row_sum(yy, xx - ri, xx + ri + 1),
                acc@.len() == w,
                forall|xx: int| 0 <= xx < w ==> #[trigger] acc@[xx] as int == img.rect_sum(
                    xx - ri,
                    xx + ri + 1,
                    (if y == 0 { 0 } else { y - 1 }) - ri,
                    (if y == 0 { 0 } else { y - 1 }) + ri + 1,
                ),
                out@.len() == y * w,
                forall|xx: int, yy: int|
                    0 <= xx < w && 0 <= yy < y ==> #[trigger] out@[yy * w + xx]
                        == img.blur_px(xx, yy, ri),
            decreases h - y,
        {
            if y > 0 {
                let add_y = if r >= h - y {
                    h - 1
                } else {
                    y + r
                };
                let sub_y = if y >= 1 + r {
                    y - 1 - r
                } else {
                    0
                };
                proof {
                    assert(add_y == clamp_coord(y + ri, h as int));
                    assert(sub_y == clamp_coord(y - 1 - ri, h as int));
                }
                let mut x: usize = 0;
                while x < w
                    invariant
                        img == self@,
                        img.wf(),
                        w == self.w,
                        h == self.h,
                        nlen == w * h,
                        w > 0,
                        h > 0,
                        r == ri,
                        1 <= r <= 127,
                        0 < y < h,
                        add_y == clamp_coord(y + ri, h as int),
                        sub_y == clamp_coord(y - 1 - ri, h as int),
                        x <= w,
                        tmp@.len() == w * h,
                        forall|xx: int, yy: int|
                            0 <= xx < w && 0 <= yy < h ==> #[trigger] tmp@[yy * w + xx] as int
                                == img.row_sum(yy, xx - ri, xx + ri + 1),
                        acc@.len() == w,
                        forall|xx: int| 0 <= xx < x ==> #[trigger] acc@[xx] as int == img.rect_sum(
                            xx - ri,
                            xx + ri + 1,
                            y - ri,
                            y + ri + 1,
                        ),
                        forall|xx: int|
                            x <= xx < w ==> #[trigger] acc@[xx] as int == img.rect_sum(
                                xx - ri,
                                xx + ri + 1,
                                y - 1 - ri,
                                y + ri,
                            ),
                    decreases w - x,
                {
                    proof {
                        let xx = x as int;
                        lemma_index_bound(w as int, h as int, xx, add_y as int);
                        lemma_index_bound(w as int, h as int, xx, sub_y as int);
                        lemma_rect_sum_shift(img, xx - ri, xx + ri + 1, y - 1 - ri, y + ri);
                        lemma_rect_sum_bounds(img, xx - ri, xx + ri + 1, y - ri, y + ri + 1);
                        lemma_rect_sum_bounds(img, xx - ri, xx + ri + 1, y - 1 - ri, y + ri);
                        assert(255 * (xx + ri + 1 - (xx - ri)) * (y + ri - (y - 1 - ri)) <= 255
                            * 255 * 255) by (nonlinear_arith)
                            requires
                                ri <= 127,
                                0 <= ri,
                        ;
                        lemma_row_sum_bounds(img, add_y as int, xx - ri, xx + ri + 1);
                        assert(tmp@[add_y * w + xx] as int == img.row_sum(
                            add_y as int,
                            xx - ri,
                            xx + ri + 1,
                        ));
                        assert(tmp@[sub_y * w + xx] as int == img.row_sum(
                            sub_y as int,
                            xx - ri,
                            xx + ri + 1,
                        ));
                    }
                    let v = acc[x] + tmp[add_y * w + x] as u32 - tmp[sub_y * w + x] as u32;
                    acc.set(x, v);
                    x = x + 1;
                }
            }
            let ghost row_start = out@;
            let mut x: usize = 0;
            while x < w
                invariant
                    img == self@,
                    img.wf(),
                    w == self.w,
                    h == self.h,
                    w > 0,
                    h > 0,
                    r == ri,
                    1 <= r <= 127,
                    win == 2 * r + 1,
                    norm == win * win,
                    half == norm / 2,
                    y < h,
                    x <= w,
                    acc@.len() == w,
                    forall|xx: int| 0 <= xx < w ==> #[trigger] acc@[xx] as int == img.rect_sum(
                        xx - ri,
                        xx + ri + 1,
                        y - ri,
                        y + ri + 1,
                    ),
                    row_start.len() == y * w,
                    out@.len() == y * w + x,
                    out@.subrange(0, y * w as int) == row_start,
                    forall|xx: int| 0 <= xx < x ==> #[trigger] out@[y * w + xx] == img.blur_px(
                        xx,
                        y as int,
                        ri,
                    ),
                decreases w - x,
            {
                proof {
                    lemma_rect_sum_bounds(img, x - ri, x + ri + 1, y - ri, y + ri + 1);
                    assert(255 * (x + ri + 1 - (x - ri)) * (y + ri + 1 - (y - ri)) <= 255 * 255
                        * 255) by (nonlinear_arith)
                        requires
                            ri <= 127,
                            0 <= ri,
                    ;
                    assert(norm as int == (2 * ri + 1) * (2 * ri + 1));
                    assert(norm > 0) by (nonlinear_arith)
                        requires
                            norm as int == (2 * ri + 1) * (2 * ri + 1),
                            ri >= 0,
                    ;
                    lemma_blur_in_range(img, x as int, y as int, ri);
                }
                let v = ((acc[x] + half) / norm) as u8;
                let ghost before = out@;
                out.push(v);
                proof {
                    assert(out@.subrange(0, y * w as int) =~= before.subrange(0, y * w as int));
                    assert forall|xx: int| 0 <= xx < x + 1 implies #[trigger] out@[y * w + xx]
                        == img.blur_px(xx, y as int, ri) by {
                        if xx < x {
                            assert(out@[y * w + xx] == before[y * w + xx]);
                        }
                    }
                }
                x = x + 1;
            }
            proof {
                lemma_index_bound(w as int, h as int, 0, y as int);
                assert forall|xx: int, yy: int|
                    0 <= xx < w && 0 <= yy < y + 1 implies #[trigger] out@[yy * w + xx]
                    == img.blur_px(xx, yy, ri) by {
                    if yy < y {
                        lemma_index_bound(w as int, y as int, xx, yy);
                        assert(out@.subrange(0, y * w as int)[yy * w + xx] == out@[yy * w + xx]);
                        assert(out@[yy * w + xx] == row_start[yy * w + xx]);
                    }
                }
            }
            y = y + 1;
        }
        proof {
            assert(out@.len() == w * h) by (nonlinear_arith)
                requires
                    out@.len() == y * w,
                    y == h,
            ;
        }
        let res = GrayImage { w, h, data: out };
        proof {
            assert forall|x: int, y: int|
                0 <= x < self.w && 0 <= y < self.h implies #[trigger] res@.px(x, y)
                == self@.blur_px(x, y, radius as int) by {
                assert(out@[y * w + x] == img.blur_px(x, y, ri));
            }
        }
        res
    }

    /// The 2x2-average cascade of an area-correct minification towards
    /// `nw x nh`: halves while both sides stay at least twice the target
    /// (and at least 2). The residual factor below 2 is left to a bilinear
    /// resize.
    pub fn area_reduce(&self, nw: usize, nh: usize) -> (out: GrayImage)
        requires
            self@.wf(),
            nw > 0,
            nh > 0,
        ensures
            out@ == area_reduced(self@, nw as nat, nh as nat),
            out@.wf(),
    {
        let mut cur = self.copied();
        while cur.w / 2 >= nw && cur.h / 2 >= nh && cur.w >= 2 && cur.h >= 2
            invariant
                cur@.wf(),
                area_reduced(cur@, nw as nat, nh as nat) == area_reduced(self@, nw as nat, nh as nat),
            decreases cur.w,
        {
            cur = cur.downsample_half();
        }
        cur
    }

    /// A copy of the image.
    pub fn copied(&self) -> (out: GrayImage)
        ensures
            out@ == self@,
    {
        let data = self.data.clone();
        assert(data@ =~= self.data@);
        GrayImage { w: self.w, h: self.h, data }
    }
}

/// Builds a pyramid of successive 2x2-average halvings of `img`: level 0 is
/// `img` itself; a further level is added while fewer than `max_levels` exist
/// and both sides of the last level, halved, stay at least `min_side`.
pub fn build_pyramid(img: &GrayImage, min_side: usize, max_levels: usize) -> (p: Pyramid)
    requires
        img@.wf(),
    ensures
        p.levels@.len() >= 1,
        p.levels@.len() <= level_cap(max_levels),
        forall|i: int| 0 <= i < p.levels@.len() ==> #[trigger] p.levels@[i]@ == halvings(img@, i as nat),
        forall|i: int| 0 <= i < p.levels@.len() ==> #[trigger] p.levels@[i]@.wf(),
        forall|i: int|
            0 <= i < p.levels@.len() - 1 ==> #[trigger] halvings(img@, i as nat).w / 2 >= min_side
                && halvings(img@, i as nat).h / 2 >= min_side,
        p.levels@.len() == level_cap(max_levels) || halvings(
            img@,
            (p.levels@.len() - 1) as nat,
        ).w / 2 < min_side || halvings(img@, (p.levels@.len() - 1) as nat).h / 2 < min_side,
{
    let mut levels: Vec<GrayImage> = Vec::new();
    levels.push(img.copied());
    loop
        invariant
            img@.wf(),
            levels@.len() >= 1,
            levels@.len() <= level_cap(max_levels),
            forall|i: int| 0 <= i < levels@.len() ==> #[trigger] levels@[i]@ == halvings(img@, i as nat),
            forall|i: int| 0 <= i < levels@.len() ==> #[trigger] levels@[i]@.wf(),
            forall|i: int|
                0 <= i < levels@.len() - 1 ==> #[trigger] halvings(img@, i as nat).w / 2 >= min_side
                    && halvings(img@, i as nat).h / 2 >= min_side,
        ensures
            levels@.len() >= 1,
            levels@.len() <= level_cap(max_levels),
            forall|i: int| 0 <= i < levels@.len() ==> #[trigger] levels@[i]@ == halvings(img@, i as nat),
            forall|i: int| 0 <= i < levels@.len() ==> #[trigger] levels@[i]@.wf(),
            forall|i: int|
                0 <= i < levels@.len() - 1 ==> #[trigger] halvings(img@, i as nat).w / 2 >= min_side
                    && halvings(img@, i as nat).h / 2 >= min_side,
            levels@.len() == level_cap(max_levels) || halvings(
                img@,
                (levels@.len() - 1) as nat,
            ).w / 2 < min_side || halvings(img@, (levels@.len() - 1) as nat).h / 2 < min_side,
        decreases max_levels - levels@.len(),
    {
        if levels.len() >= max_levels {
            break;
        }
        let n = levels.len();
        let next = {
            let last = &levels[n - 1];
            assert(last@ == halvings(img@, (n - 1) as nat));
            if last.w / 2 < min_side || last.h / 2 < min_side {
                break;
            }
            last.downsample_half()
        };
        let ghost before = levels@;
        levels.push(next);
        proof {
            assert(levels@[n as int]@ == halvings(img@, n as nat));
            assert forall|i: int| 0 <= i < levels@.len() implies #[trigger] levels@[i]@ == halvings(
                img@,
                i as nat,
            ) by {
                if i < n {
                    assert(levels@[i] == before[i]);
                }
            }
            assert forall|i: int| 0 <= i < levels@.len() implies #[trigger] levels@[i]@.wf() by {
                if i < n {
                    assert(levels@[i] == before[i]);
                }
            }
        }
    }
    Pyramid { levels }
}

/// Rec. 601 luma of an RGB sample, integer approximation.
pub open spec fn luma(r: u8, g: u8, b: u8) -> u8 {
    ((r * 77 + g * 150 + b * 29) / 256) as u8
}

/// Converts a `w x h` RGBA buffer (4 bytes per pixel, alpha ignored) to a
/// grayscale image; `None` when the buffer is not exactly `w * h * 4` bytes.
pub fn rgba_to_gray(rgba: &[u8], w: usize, h: usize) -> (r: Option<GrayImage>)
    ensures
        r is Some <==> rgba@.len() == w * h * 4,
        r matches Some(img) ==> {
            &&& img@.w == w
            &&& img@.h == h
            &&& img@.wf()
            &&& forall|i: int|
                0 <= i < w * h ==> #[trigger] img@.data[i] == luma(
                    rgba@[4 * i],
                    rgba@[4 * i + 1],
                    rgba@[4 * i + 2],
                )
        },
{
    let rl = rgba.len();
    let n = match w.checked_mul(h) {
        Some(n) => n,
        None => {
            assert(w * h * 4 > usize::MAX) by (nonlinear_arith)
                requires
                    w * h > usize::MAX,
            ;
            return None;
        },
    };
    let len4 = match n.checked_mul(4) {
        Some(m) => m,
        None => {
            return None;
        },
    };
    if rgba.len() != len4 {
        return None;
    }
    let mut data: Vec<u8> = Vec::new();
    let mut i: usize = 0;
    while i < n
        invariant
            n == w * h,
            rgba@.len() == 4 * n,
            4 * n <= usize::MAX,
            i <= n,
            data@.len() == i,
            forall|k: int|
                0 <= k < i ==> #[trigger] data@[k] == luma(rgba@[4 * k], rgba@[4 * k + 1], rgba@[4 * k + 2]),
        decreases n - i,
    {
        let r = rgba[4 * i] as u32;
        let g = rgba[4 * i + 1] as u32;
        let b = rgba[4 * i + 2] as u32;
        let sum: u32 = r * 77 + g * 150 + b * 29;
        let v = sum >> 8u32;
        assert(v == sum / 256) by (bit_vector)
            requires
                v == sum >> 8u32,
        ;
        data.push(v as u8);
        i = i + 1;
    }
    Some(GrayImage::from_vec(w, h, data))
}

/// Writing a sample changes exactly that sample: reading it back gives the
/// value written, every other position keeps its value.
pub proof fn lemma_px_after_set(img: ImageView, x: int, y: int, v: u8, x2: int, y2: int)
    requires
        img.wf(),
        0 <= x < img.w,
        0 <= y < img.h,
        0 <= x2 < img.w,
        0 <= y2 < img.h,
    ensures
        (ImageView { data: img.data.update(y * img.w + x, v), ..img }).px(x2, y2) == if x2 == x
            && y2 == y {
            v
        } else {
            img.px(x2, y2)
        },
{
    lemma_index_bound(img.w as int, img.h as int, x, y);
    lemma_index_bound(img.w as int, img.h as int, x2, y2);
    lemma_div_mod_index(img.w as int, x, y);
    lemma_div_mod_index(img.w as int, x2, y2);
}

/// Area reduction halves only while both sides are at least twice the
/// target: an image at least as large as the target stays at least as
/// large on each side; one with a side below twice its target comes back
/// unchanged; the result never grows, and it could not be halved once more
/// under the same rule.
pub proof fn lemma_area_reduced_bounds(img: ImageView, nw: nat, nh: nat)
    requires
        nw > 0,
        nh > 0,
    ensures
        img.w >= nw && img.h >= nh ==> area_reduced(img, nw, nh).w >= nw && area_reduced(img, nw, nh).h >= nh,
        img.w < 2 * nw || img.h < 2 * nh ==> area_reduced(img, nw, nh) == img,
        area_reduced(img, nw, nh).w <= img.w,
        area_reduced(img, nw, nh).h <= img.h,
        ({
            let out = area_reduced(img, nw, nh);
            out.w < 2 * nw || out.h < 2 * nh || out.w < 2 || out.h < 2
        }),
    decreases img.w,
{
    if 2 * nw <= img.w && 2 * nh <= img.h && 2 <= img.w && 2 <= img.h {
        lemma_area_reduced_bounds(img.halved(), nw, nh);
    }
}

} // verus!
