//! Deterministic synthetic texture generation for tests and benches.

use vstd::prelude::*;
use crate::image::{GrayImage, ImageView, lemma_index_bound, lemma_div_mod_index};
use crate::rng::{XorShift64, xorshift_step, seed_state};

verus! {

/// A filled axis-aligned rectangle `x0 .. x0+rw` x `y0 .. y0+rh` of gray value `v`.
pub struct TexRect {
    pub x0: int,
    pub y0: int,
    pub rw: int,
    pub rh: int,
    pub v: u8,
}

/// One rectangle draw from generator state `s` for a `w x h` canvas:
/// width, height (8..39), then -- only if it fits -- position and gray value
/// (30..225). Returns the rectangle (None when it does not fit) and the new state.
pub open spec fn tex_draw(s: u64, w: nat, h: nat) -> (Option<TexRect>, u64) {
    let s1 = xorshift_step(s);
    let rw = 8 + (s1 % 32) as int;
    let s2 = xorshift_step(s1);
    let rh = 8 + (s2 % 32) as int;
    if w <= rw + 1 || h <= rh + 1 {
        (None, s2)
    } else {
        let s3 = xorshift_step(s2);
        let s4 = xorshift_step(s3);
        let s5 = xorshift_step(s4);
        (
            Some(
                TexRect {
                    x0: (s3 as int) % (w - rw),
                    y0: (s4 as int) % (h - rh),
                    rw,
                    rh,
                    v: (30 + (s5 as int) % 196) as u8,
                },
            ),
            s5,
        )
    }
}

/// Canvas contents after `k` draws starting from state `s`, and the final state.
pub open spec fn tex_after(data: Seq<u8>, w: nat, h: nat, s: u64, k: nat) -> (Seq<u8>, u64)
    decreases k,
{
    if k == 0 {
        (data, s)
    } else {
        let (d, s1) = tex_after(data, w, h, s, (k - 1) as nat);
        let (r, s2) = tex_draw(s1, w, h);
        match r {
            Some(rect) => (paint(d, w, rect), s2),
            None => (d, s2),
        }
    }
}

/// `data` (a `w`-wide canvas) with `rect` filled in.
pub open spec fn paint(data: Seq<u8>, w: nat, rect: TexRect) -> Seq<u8> {
    Seq::new(
        data.len(),
        |i: int|
            if in_rect(rect, i % (w as int), i / (w as int)) {
                rect.v
            } else {
                data[i]
            },
    )
}

pub open spec fn in_rect(rect: TexRect, x: int, y: int) -> bool {
    rect.x0 <= x < rect.x0 + rect.rw && rect.y0 <= y < rect.y0 + rect.rh
}

/// Number of rectangles drawn on a `w x h` canvas.
pub open spec fn tex_count(w: nat, h: nat) -> nat {
    if w * h / 1500 > 40 {
        w * h / 1500
    } else {
        40
    }
}

/// The corner-rich test texture: overlapping random rectangles on mid-gray.
pub open spec fn textured(w: nat, h: nat, seed: u64) -> ImageView {
    ImageView {
        w,
        h,
        data: tex_after(Seq::new(w * h, |i: int| 128u8), w, h, seed_state(seed), tex_count(w, h)).0,
    }
}

fn paint_rect(img: &mut GrayImage, x0: usize, y0: usize, rw: usize, rh: usize, v: u8)
    requires
        old(img)@.wf(),
        old(img).w > 0,
        x0 + rw <= old(img).w,
        y0 + rh <= old(img).h,
    ensures
        final(img).w == old(img).w,
        final(img).h == old(img).h,
        final(img)@.wf(),
        final(img)@.data == paint(
            old(img)@.data,
            old(img).w as nat,
            TexRect { x0: x0 as int, y0: y0 as int, rw: rw as int, rh: rh as int, v },
        ),
{
    let ghost orig = img@;
    let ghost rect = TexRect { x0: x0 as int, y0: y0 as int, rw: rw as int, rh: rh as int, v };
    let ghost w = img.w as int;
    let mut y = y0;
    while y < y0 + rh
        invariant
            img@.wf(),
            img.w == w,
            img.h == orig.h,
            w > 0,
            orig.wf(),
            rect == (TexRect { x0: x0 as int, y0: y0 as int, rw: rw as int, rh: rh as int, v }),
            x0 + rw <= w,
            y0 + rh <= orig.h,
            y0 <= y <= y0 + rh,
            forall|xx: int, yy: int|
                0 <= xx < w && 0 <= yy < orig.h ==> #[trigger] img@.data[yy * w + xx] == if (
                in_rect(rect, xx, yy) && yy < y) {
                    v
                } else {
                    orig.data[yy * w + xx]
                },
        decreases y0 + rh - y,
    {
        let mut x = x0;
        while x < x0 + rw
            invariant
                img@.wf(),
                img.w == w,
                img.h == orig.h,
                w > 0,
                orig.wf(),
                rect == (TexRect { x0: x0 as int, y0: y0 as int, rw: rw as int, rh: rh as int, v }),
                x0 + rw <= w,
                y0 + rh <= orig.h,
                y0 <= y < y0 + rh,
                x0 <= x <= x0 + rw,
                forall|xx: int, yy: int|
                    0 <= xx < w && 0 <= yy < orig.h ==> #[trigger] img@.data[yy * w + xx] == if (
                    in_rect(rect, xx, yy) && (yy < y || (yy == y && xx < x))) {
                        v
                    } else {
                        orig.data[yy * w + xx]
                    },
            decreases x0 + rw - x,
        {
            let ghost before = img@.data;
            img.set(x, y, v);
            proof {
                assert forall|xx: int, yy: int|
                    0 <= xx < w && 0 <= yy < orig.h implies #[trigger] img@.data[yy * w + xx] == if (
                    in_rect(rect, xx, yy) && (yy < y || (yy == y && xx < x + 1))) {
                        v
                    } else {
                        orig.data[yy * w + xx]
                    } by {
                    lemma_index_bound(w, orig.h as int, xx, yy);
                    lemma_index_bound(w, orig.h as int, x as int, y as int);
                    if yy * w + xx == y * w + x {
                        lemma_div_mod_index(w, xx, yy);
                        lemma_div_mod_index(w, x as int, y as int);
                    } else {
                        assert(img@.data[yy * w + xx] == before[yy * w + xx]);
                    }
                }
            }
            x = x + 1;
        }
        y = y + 1;
    }
    proof {
        assert forall|i: int| 0 <= i < img@.data.len() implies #[trigger] img@.data[i] == paint(
            orig.data,
            w as nat,
            rect,
        )[i] by {
            let xx = i % w;
            let yy = i / w;
            vstd::arithmetic::div_mod::lemma_fundamental_div_mod(i, w);
            assert(yy * w + xx == i) by (nonlinear_arith)
                requires
                    i == w * (i / w) + i % w,
                    xx == i % w,
                    yy == i / w,
            ;
            assert(0 <= yy < orig.h) by (nonlinear_arith)
                requires
                    0 <= i < w * orig.h,
                    yy * w + xx == i,
                    0 <= xx < w,
            ;
        }
        assert(img@.data =~= paint(orig.data, w as nat, rect));
    }
}

/// Corner-rich texture: `max(w*h/1500, 40)` overlapping random rectangles
/// (seeded by `seed`) on a mid-gray base.
pub fn textured_image(w: usize, h: usize, seed: u64) -> (img: GrayImage)
    requires
        w * h <= usize::MAX,
    ensures
        img@ == textured(w as nat, h as nat, seed),
        img@.wf(),
{
    let mut rng = XorShift64::new(seed);
    let mut img = GrayImage::new(w, h);
    let mut i: usize = 0;
    while i < img.data.len()
        invariant
            img@.wf(),
            img.w == w,
            img.h == h,
            i <= img@.data.len(),
            forall|j: int| 0 <= j < i ==> img@.data[j] == 128u8,
        decreases img@.data.len() - i,
    {
        img.data.set(i, 128u8);
        i = i + 1;
    }
    let ghost base = img@.data;
    assert(base =~= Seq::new(w as nat * h as nat, |i: int| 128u8));
    let area = w * h / 1500;
    let n = if area > 40 {
        area
    } else {
        40
    };
    let mut k: usize = 0;
    while k < n
        invariant
            img@.wf(),
            img.w == w,
            img.h == h,
            n == tex_count(w as nat, h as nat),
            k <= n,
            (img@.data, rng.state()) == tex_after(base, w as nat, h as nat, seed_state(seed), k as nat),
        decreases n - k,
    {
        let rw = 8 + rng.gen_range(32);
        let rh = 8 + rng.gen_range(32);
        if w <= rw + 1 || h <= rh + 1 {
            k = k + 1;
            continue;
        }
        let x0 = rng.gen_range(w - rw);
        let y0 = rng.gen_range(h - rh);
        let v = (30 + rng.gen_range(196)) as u8;
        paint_rect(&mut img, x0, y0, rw, rh, v);
        k = k + 1;
    }
    img
}

} // verus!
