//! Keypoint orientation by intensity centroid (as in ORB): the first
//! moments of a circular patch of radius 15 around the keypoint. The angle
//! of the moment vector steers the BRIEF pattern.

use vstd::prelude::*;
use crate::image::{GrayImage, ImageView};

verus! {

/// Radius of the orientation patch.
pub const PATCH_RADIUS: usize = 15;

/// `t` is the square root of `x` rounded half up: `t - 1/2 <= sqrt(x) < t + 1/2`.
pub open spec fn rounds_sqrt(x: int, t: int) -> bool {
    &&& t >= 0
    &&& (t == 0 || (2 * t - 1) * (2 * t - 1) <= 4 * x)
    &&& 4 * x < (2 * t + 1) * (2 * t + 1)
}

/// Half-widths of the patch rows: row `v` spans `-u .. u` with
/// `u = round(sqrt(15^2 - v^2))`.
pub open spec fn u_max() -> Seq<int> {
    seq![15, 15, 15, 15, 14, 14, 14, 13, 13, 12, 11, 10, 9, 7, 5, 0]
}

/// Half-width of patch row `v` (`-15 <= v <= 15`).
pub open spec fn half_width(v: int) -> int {
    if v < 0 {
        u_max()[-v]
    } else {
        u_max()[v]
    }
}

/// A rounded square root is unique.
pub proof fn lemma_rounds_sqrt_unique(x: int, t1: int, t2: int)
    requires
        rounds_sqrt(x, t1),
        rounds_sqrt(x, t2),
    ensures
        t1 == t2,
{
    if t1 < t2 {
        assert((2 * t1 + 1) * (2 * t1 + 1) <= (2 * t2 - 1) * (2 * t2 - 1)) by (nonlinear_arith)
            requires
                0 <= t1 < t2,
        ;
    } else if t2 < t1 {
        assert((2 * t2 + 1) * (2 * t2 + 1) <= (2 * t1 - 1) * (2 * t1 - 1)) by (nonlinear_arith)
            requires
                0 <= t2 < t1,
        ;
    }
}

/// The table is the rounded square roots it claims to be.
proof fn lemma_u_max_rounds()
    ensures
        forall|v: int| 0 <= v < 16 ==> rounds_sqrt(225 - v * v, #[trigger] u_max()[v]),
{
    assert(rounds_sqrt(225 - 0 * 0, 15)) by (nonlinear_arith);
    assert(rounds_sqrt(225 - 1 * 1, 15)) by (nonlinear_arith);
    assert(rounds_sqrt(225 - 2 * 2, 15)) by (nonlinear_arith);
    assert(rounds_sqrt(225 - 3 * 3, 15)) by (nonlinear_arith);
    assert(rounds_sqrt(225 - 4 * 4, 14)) by (nonlinear_arith);
    assert(rounds_sqrt(225 - 5 * 5, 14)) by (nonlinear_arith);
    assert(rounds_sqrt(225 - 6 * 6, 14)) by (nonlinear_arith);
    assert(rounds_sqrt(225 - 7 * 7, 13)) by (nonlinear_arith);
    assert(rounds_sqrt(225 - 8 * 8, 13)) by (nonlinear_arith);
    assert(rounds_sqrt(225 - 9 * 9, 12)) by (nonlinear_arith);
    assert(rounds_sqrt(225 - 10 * 10, 11)) by (nonlinear_arith);
    assert(rounds_sqrt(225 - 11 * 11, 10)) by (nonlinear_arith);
    assert(rounds_sqrt(225 - 12 * 12, 9)) by (nonlinear_arith);
    assert(rounds_sqrt(225 - 13 * 13, 7)) by (nonlinear_arith);
    assert(rounds_sqrt(225 - 14 * 14, 5)) by (nonlinear_arith);
    assert(rounds_sqrt(225 - 15 * 15, 0)) by (nonlinear_arith);
}

/// Row half-widths of the circular patch: entry `v` is `sqrt(15^2 - v^2)`
/// rounded half up.
pub fn u_max_table() -> (t: [i32; 16])
    ensures
        forall|v: int| 0 <= v < 16 ==> rounds_sqrt(225 - v * v, #[trigger] t@[v] as int),
        forall|v: int| 0 <= v < 16 ==> #[trigger] t@[v] as int == u_max()[v],
{
    let mut t = [0i32; 16];
    let mut v: usize = 0;
    while v < 16
        invariant
            v <= 16,
            forall|k: int| 0 <= k < v ==> rounds_sqrt(225 - k * k, #[trigger] t@[k] as int),
        decreases 16 - v,
    {
        assert(v * v <= 225) by (nonlinear_arith)
            requires
                v < 16,
        ;
        let x: i32 = 225 - (v * v) as i32;
        let mut r: i32 = 0;
        assert((2 * r + 1) * (2 * r + 1) <= 961) by (nonlinear_arith)
            requires
                r == 0,
        ;
        while (2 * r + 1) * (2 * r + 1) <= 4 * x
            invariant
                0 <= x <= 225,
                0 <= r <= 15,
                r == 0 || (2 * r - 1) * (2 * r - 1) <= 4 * x,
                (2 * r + 1) * (2 * r + 1) <= 961,
            decreases 15 - r,
        {
            proof {
                assert((2 * r + 1) * (2 * r + 1) <= 961) by (nonlinear_arith)
                    requires
                        0 <= r <= 15,
                ;
                if r >= 15 {
                    assert((2 * r + 1) * (2 * r + 1) > 4 * x) by (nonlinear_arith)
                        requires
                            r >= 15,
                            x <= 225,
                    ;
                }
            }
            r = r + 1;
            assert((2 * r + 1) * (2 * r + 1) <= 961) by (nonlinear_arith)
                requires
                    0 <= r <= 15,
            ;
        }
        t[v] = r;
        v = v + 1;
    }
    proof {
        lemma_u_max_rounds();
        assert forall|v: int| 0 <= v < 16 implies #[trigger] t@[v] as int == u_max()[v] by {
            lemma_rounds_sqrt_unique(225 - v * v, t@[v] as int, u_max()[v]);
        }
    }
    t
}

/// Sum of `u * pixel(x0 + u, y)` over `u` in `lo .. hi`.
pub open spec fn row_moment(img: ImageView, x0: int, y: int, lo: int, hi: int) -> int
    decreases hi - lo,
{
    if hi <= lo {
        0
    } else {
        row_moment(img, x0, y, lo, hi - 1) + (hi - 1) * img.px(x0 + hi - 1, y)
    }
}

/// Sum of `pixel(x0 + u, y)` over `u` in `lo .. hi`.
pub open spec fn row_mass(img: ImageView, x0: int, y: int, lo: int, hi: int) -> int
    decreases hi - lo,
{
    if hi <= lo {
        0
    } else {
        row_mass(img, x0, y, lo, hi - 1) + img.px(x0 + hi - 1, y)
    }
}

/// The horizontal first moment `sum u * I(x0 + u, y0 + v)` over the patch
/// rows `v` in `lo .. hi`.
pub open spec fn patch_m10(img: ImageView, x0: int, y0: int, lo: int, hi: int) -> int
    decreases hi - lo,
{
    if hi <= lo {
        0
    } else {
        let v = hi - 1;
        patch_m10(img, x0, y0, lo, v) + row_moment(
            img,
            x0,
            y0 + v,
            -half_width(v),
            half_width(v) + 1,
        )
    }
}

/// The vertical first moment `sum v * I(x0 + u, y0 + v)` over the patch
/// rows `v` in `lo .. hi`.
pub open spec fn patch_m01(img: ImageView, x0: int, y0: int, lo: int, hi: int) -> int
    decreases hi - lo,
{
    if hi <= lo {
        0
    } else {
        let v = hi - 1;
        patch_m01(img, x0, y0, lo, v) + v * row_mass(
            img,
            x0,
            y0 + v,
            -half_width(v),
            half_width(v) + 1,
        )
    }
}

/// Intensity moments `(m10, m01)` of the circular patch centered on
/// `(x0, y0)`; the keypoint's orientation is `atan2(m01, m10)`.
pub fn intensity_moments(img: &GrayImage, x0: usize, y0: usize) -> (m: (i64, i64))
    requires
        img@.wf(),
        PATCH_RADIUS <= x0,
        x0 + PATCH_RADIUS < img.w,
        PATCH_RADIUS <= y0,
        y0 + PATCH_RADIUS < img.h,
    ensures
        m.0 == patch_m10(img@, x0 as int, y0 as int, -15, 16),
        m.1 == patch_m01(img@, x0 as int, y0 as int, -15, 16),
{
    let umax = u_max_table();
    let mut m10: i64 = 0;
    let mut m01: i64 = 0;
    let mut vi: usize = 0;
    while vi < 31
        invariant
            img@.wf(),
            PATCH_RADIUS <= x0,
            x0 + PATCH_RADIUS < img.w,
            PATCH_RADIUS <= y0,
            y0 + PATCH_RADIUS < img.h,
            forall|v: int| 0 <= v < 16 ==> #[trigger] umax@[v] as int == u_max()[v],
            vi <= 31,
            m10 == patch_m10(img@, x0 as int, y0 as int, -15, vi - 15),
            m01 == patch_m01(img@, x0 as int, y0 as int, -15, vi - 15),
            -(vi * 118575) <= m10 <= vi * 118575,
            -(vi * 118575) <= m01 <= vi * 118575,
        decreases 31 - vi,
    {
        let v: i64 = vi as i64 - 15;
        let av: usize = if vi >= 15 {
            vi - 15
        } else {
            15 - vi
        };
        let bound = umax[av] as usize;
        assert(bound as int == half_width(v as int));
        assert(bound <= 15);
        let y = y0 - 15 + vi;
        let mut rm: i64 = 0;
        let mut rs: i64 = 0;
        let mut ui: usize = 0;
        while ui < 2 * bound + 1
            invariant
                img@.wf(),
                PATCH_RADIUS <= x0,
                x0 + PATCH_RADIUS < img.w,
                y < img.h,
                bound <= 15,
                ui <= 2 * bound + 1,
                rm == row_moment(img@, x0 as int, y as int, -(bound as int), ui - bound),
                rs == row_mass(img@, x0 as int, y as int, -(bound as int), ui - bound),
                -(ui * 3825) <= rm <= ui * 3825,
                0 <= rs <= ui * 255,
            decreases 2 * bound + 1 - ui,
        {
            let u: i64 = ui as i64 - bound as i64;
            let val = img.at(x0 - bound + ui, y) as i64;
            assert(-3825 <= u * val <= 3825) by (nonlinear_arith)
                requires
                    -15 <= u <= 15,
                    0 <= val <= 255,
            ;
            rm = rm + u * val;
            rs = rs + val;
            ui = ui + 1;
        }
        assert(-118575 <= rm <= 118575);
        assert(0 <= rs <= 7905);
        assert(-118575 <= v * rs <= 118575) by (nonlinear_arith)
            requires
                -15 <= v <= 15,
                0 <= rs <= 7905,
        ;
        m10 = m10 + rm;
        m01 = m01 + v * rs;
        vi = vi + 1;
    }
    (m10, m01)
}

/// Offset `(u, v)` lies in the round patch of radius 15: `v` is within 15
/// rows and `u` is the center column or `(|u| - 1/2)^2 + v^2 <= 15^2`.
pub open spec fn in_patch(u: int, v: int) -> bool {
    let a = if u < 0 {
        -u
    } else {
        u
    };
    &&& -15 <= v <= 15
    &&& (a == 0 || (2 * a - 1) * (2 * a - 1) + 4 * v * v <= 900)
}

/// A column is within a rounded square root exactly when its distance,
/// less a half, is within the root.
proof fn lemma_within_rounded(x: int, t: int, a: int)
    requires
        rounds_sqrt(x, t),
        a >= 0,
    ensures
        a <= t <==> (a == 0 || (2 * a - 1) * (2 * a - 1) <= 4 * x),
{
    if a >= 1 && a <= t {
        assert((2 * a - 1) * (2 * a - 1) <= (2 * t - 1) * (2 * t - 1)) by (nonlinear_arith)
            requires
                1 <= a <= t,
        ;
    }
    if a >= 1 && (2 * a - 1) * (2 * a - 1) <= 4 * x && a > t {
        assert((2 * t + 1) * (2 * t + 1) <= (2 * a - 1) * (2 * a - 1)) by (nonlinear_arith)
            requires
                0 <= t,
                t + 1 <= a,
        ;
    }
}

/// The rows of the patch are the round patch.
proof fn lemma_rows_are_round(u: int, v: int)
    requires
        -15 <= v <= 15,
    ensures
        (-half_width(v) <= u <= half_width(v)) <==> in_patch(u, v),
{
    lemma_u_max_rounds();
    let av = if v < 0 {
        -v
    } else {
        v
    };
    let a = if u < 0 {
        -u
    } else {
        u
    };
    assert(half_width(v) == u_max()[av]);
    assert(rounds_sqrt(225 - av * av, u_max()[av]));
    assert(av * av == v * v) by (nonlinear_arith)
        requires
            av == v || av == -v,
    ;
    lemma_within_rounded(225 - av * av, u_max()[av], a);
    assert(4 * (225 - av * av) == 900 - 4 * v * v) by (nonlinear_arith)
        requires
            av * av == v * v,
    ;
    assert((-half_width(v) <= u <= half_width(v)) <==> a <= half_width(v));
}

proof fn lemma_row_local(img1: ImageView, img2: ImageView, x0: int, y: int, lo: int, hi: int)
    requires
        forall|u: int| lo <= u < hi ==> #[trigger] img1.px(x0 + u, y) == img2.px(x0 + u, y),
    ensures
        row_moment(img1, x0, y, lo, hi) == row_moment(img2, x0, y, lo, hi),
        row_mass(img1, x0, y, lo, hi) == row_mass(img2, x0, y, lo, hi),
    decreases hi - lo,
{
    if hi > lo {
        lemma_row_local(img1, img2, x0, y, lo, hi - 1);
        assert(img1.px(x0 + (hi - 1), y) == img2.px(x0 + (hi - 1), y));
    }
}

proof fn lemma_patch_local(img1: ImageView, img2: ImageView, x0: int, y0: int, lo: int, hi: int)
    requires
        -15 <= lo,
        hi <= 16,
        forall|u: int, v: int| #[trigger] in_patch(u, v) ==> img1.px(x0 + u, y0 + v) == img2.px(x0 + u, y0 + v),
    ensures
        patch_m10(img1, x0, y0, lo, hi) == patch_m10(img2, x0, y0, lo, hi),
        patch_m01(img1, x0, y0, lo, hi) == patch_m01(img2, x0, y0, lo, hi),
    decreases hi - lo,
{
    if hi > lo {
        let v = hi - 1;
        lemma_patch_local(img1, img2, x0, y0, lo, v);
        assert forall|u: int| -half_width(v) <= u < half_width(v) + 1 implies #[trigger] img1.px(x0 + u, y0 + v)
            == img2.px(x0 + u, y0 + v) by {
            lemma_rows_are_round(u, v);
        }
        lemma_row_local(img1, img2, x0, y0 + v, -half_width(v), half_width(v) + 1);
    }
}

/// Only the round patch counts: two images that agree on every pixel at an
/// offset `(u, v)` inside the patch have the same moments, whatever lies
/// outside it (the corners of the enclosing square included).
pub proof fn lemma_moments_see_only_the_patch(img1: ImageView, img2: ImageView, x0: int, y0: int)
    requires
        forall|u: int, v: int| #[trigger] in_patch(u, v) ==> img1.px(x0 + u, y0 + v) == img2.px(x0 + u, y0 + v),
    ensures
        patch_m10(img1, x0, y0, -15, 16) == patch_m10(img2, x0, y0, -15, 16),
        patch_m01(img1, x0, y0, -15, 16) == patch_m01(img2, x0, y0, -15, 16),
{
    lemma_patch_local(img1, img2, x0, y0, -15, 16);
}

proof fn lemma_row_one_pixel(img1: ImageView, img2: ImageView, x0: int, y: int, u: int, lo: int, hi: int)
    requires
        forall|k: int| lo <= k < hi && k != u ==> #[trigger] img1.px(x0 + k, y) == img2.px(x0 + k, y),
    ensures
        row_moment(img2, x0, y, lo, hi) - row_moment(img1, x0, y, lo, hi) == if lo <= u < hi {
            u * (img2.px(x0 + u, y) - img1.px(x0 + u, y))
        } else {
            0
        },
        row_mass(img2, x0, y, lo, hi) - row_mass(img1, x0, y, lo, hi) == if lo <= u < hi {
            img2.px(x0 + u, y) - img1.px(x0 + u, y)
        } else {
            0
        },
    decreases hi - lo,
{
    if hi > lo {
        lemma_row_one_pixel(img1, img2, x0, y, u, lo, hi - 1);
        if hi - 1 != u {
            assert(img1.px(x0 + (hi - 1), y) == img2.px(x0 + (hi - 1), y));
        } else {
            assert((hi - 1) * img2.px(x0 + hi - 1, y) - (hi - 1) * img1.px(x0 + hi - 1, y) == u * (img2.px(
                x0 + u,
                y,
            ) - img1.px(x0 + u, y))) by (nonlinear_arith)
                requires
                    hi - 1 == u,
            ;
        }
    }
}

proof fn lemma_patch_one_pixel(img1: ImageView, img2: ImageView, x0: int, y0: int, u: int, v: int, lo: int, hi: int)
    requires
        -15 <= lo,
        hi <= 16,
        in_patch(u, v),
        forall|k: int, r: int| !(k == u && r == v) ==> #[trigger] img1.px(x0 + k, y0 + r) == img2.px(x0 + k, y0 + r),
    ensures
        patch_m10(img2, x0, y0, lo, hi) - patch_m10(img1, x0, y0, lo, hi) == if lo <= v < hi {
            u * (img2.px(x0 + u, y0 + v) - img1.px(x0 + u, y0 + v))
        } else {
            0
        },
        patch_m01(img2, x0, y0, lo, hi) - patch_m01(img1, x0, y0, lo, hi) == if lo <= v < hi {
            v * (img2.px(x0 + u, y0 + v) - img1.px(x0 + u, y0 + v))
        } else {
            0
        },
    decreases hi - lo,
{
    if hi > lo {
        let r = hi - 1;
        lemma_patch_one_pixel(img1, img2, x0, y0, u, v, lo, r);
        let uu = if r == v {
            u
        } else {
            16
        };
        assert forall|k: int| -half_width(r) <= k < half_width(r) + 1 && k != uu implies #[trigger] img1.px(
            x0 + k,
            y0 + r,
        ) == img2.px(x0 + k, y0 + r) by {
            assert(img1.px(x0 + k, y0 + r) == img2.px(x0 + k, y0 + r));
        }
        lemma_row_one_pixel(img1, img2, x0, y0 + r, uu, -half_width(r), half_width(r) + 1);
        if r == v {
            lemma_rows_are_round(u, v);
            let d = img2.px(x0 + u, y0 + v) - img1.px(x0 + u, y0 + v);
            let m1 = row_mass(img1, x0, y0 + r, -half_width(r), half_width(r) + 1);
            let m2 = row_mass(img2, x0, y0 + r, -half_width(r), half_width(r) + 1);
            assert(r * m2 - r * m1 == v * d) by (nonlinear_arith)
                requires
                    m2 - m1 == d,
                    r == v,
            ;
        } else {
            assert(16 > half_width(r)) by {
                lemma_u_max_rounds();
            }
        }
    }
}

/// Each pixel of the round patch weighs in by its offset: changing only the
/// pixel at offset `(u, v)` inside the patch by `d` changes `m10` by
/// `u * d` and `m01` by `v * d`.
pub proof fn lemma_moments_weigh_each_pixel(img1: ImageView, img2: ImageView, x0: int, y0: int, u: int, v: int)
    requires
        in_patch(u, v),
        forall|k: int, r: int| !(k == u && r == v) ==> #[trigger] img1.px(x0 + k, y0 + r) == img2.px(x0 + k, y0 + r),
    ensures
        patch_m10(img2, x0, y0, -15, 16) - patch_m10(img1, x0, y0, -15, 16) == u * (img2.px(x0 + u, y0 + v)
            - img1.px(x0 + u, y0 + v)),
        patch_m01(img2, x0, y0, -15, 16) - patch_m01(img1, x0, y0, -15, 16) == v * (img2.px(x0 + u, y0 + v)
            - img1.px(x0 + u, y0 + v)),
{
    lemma_patch_one_pixel(img1, img2, x0, y0, u, v, -15, 16);
}

} // verus!
