//! 256-bit binary (BRIEF) descriptors: bit `i` records whether the first
//! sample of comparison pair `i` is darker than the second.

use vstd::prelude::*;
use crate::image::{GrayImage, ImageView};

verus! {

/// Bits per descriptor.
pub const DESC_BITS: usize = 256;

/// Border (px) a keypoint needs from the image edge so that both the
/// orientation patch (radius 15) and the rotated sampling pattern (at most
/// 19 px out) stay inside the image.
pub const FEATURE_BORDER: usize = 20;

/// A 256-bit binary descriptor as four 64-bit words (bit `i` lives in word
/// `i / 64` at position `i % 64`).
pub type Descriptor = [u64; 4];

/// Bit `i` of a descriptor.
pub open spec fn desc_bit(d: Seq<u64>, i: int) -> bool {
    (d[i / 64] >> ((i % 64) as u64)) & 1 == 1
}

/// The comparison of sample pair `(ax, ay, bx, by)`: the first sample is darker.
pub open spec fn pair_darker(img: ImageView, p: (usize, usize, usize, usize)) -> bool {
    img.px(p.0 as int, p.1 as int) < img.px(p.2 as int, p.3 as int)
}

/// Every sample of every pair lies inside the image.
pub open spec fn pairs_inside(img: ImageView, pairs: Seq<(usize, usize, usize, usize)>) -> bool {
    forall|i: int|
        0 <= i < pairs.len() ==> (#[trigger] pairs[i]).0 < img.w && pairs[i].1 < img.h && pairs[i].2
            < img.w && pairs[i].3 < img.h
}

proof fn lemma_set_bit(w: u64, k: u64, j: u64)
    requires
        k < 64,
        j < 64,
    ensures
        ((w | (1u64 << k)) >> j) & 1 == (if j == k {
            1u64
        } else {
            (w >> j) & 1
        }),
{
    assert(((w | (1u64 << k)) >> j) & 1 == (if j == k {
        1u64
    } else {
        (w >> j) & 1
    })) by (bit_vector)
        requires
            k < 64,
            j < 64,
    ;
}

/// Packs the 256 pair comparisons into a descriptor: bit `i` is set exactly
/// when the first sample of pair `i` is darker than the second.
pub fn descriptor_from_pairs(img: &GrayImage, pairs: &[(usize, usize, usize, usize)]) -> (d:
    Descriptor)
    requires
        img@.wf(),
        pairs@.len() == DESC_BITS,
        pairs_inside(img@, pairs@),
    ensures
        forall|i: int| 0 <= i < 256 ==> #[trigger] desc_bit(d@, i) == pair_darker(img@, pairs@[i]),
{
    let mut d: Descriptor = [0u64; 4];
    proof {
        assert forall|k: int| 0 <= k < 256 implies !#[trigger] desc_bit(d@, k) by {
            assert(d@[k / 64] == 0);
            let sh = (k % 64) as u64;
            assert((0u64 >> sh) & 1 == 0) by (bit_vector);
        }
    }
    let mut i: usize = 0;
    while i < 256
        invariant
            img@.wf(),
            pairs@.len() == DESC_BITS,
            pairs_inside(img@, pairs@),
            i <= 256,
            forall|k: int| 0 <= k < i ==> #[trigger] desc_bit(d@, k) == pair_darker(img@, pairs@[k]),
            forall|k: int| i <= k < 256 ==> !#[trigger] desc_bit(d@, k),
        decreases 256 - i,
    {
        let p = pairs[i];
        let ghost before = d@;
        if img.at(p.0, p.1) < img.at(p.2, p.3) {
            let wi = i >> 6;
            let bi = (i & 63) as u64;
            assert(wi == i / 64 && bi == i % 64) by (bit_vector)
                requires
                    wi == i >> 6,
                    bi == (i & 63) as u64,
                    i < 256,
            ;
            d[wi] = d[wi] | (1u64 << bi);
            proof {
                assert forall|k: int| 0 <= k < 256 implies #[trigger] desc_bit(d@, k) == (if k == i {
                    true
                } else {
                    desc_bit(before, k)
                }) by {
                    lemma_set_bit(before[i as int / 64], bi, (k % 64) as u64);
                    if k / 64 != i / 64 {
                        assert(d@[k / 64] == before[k / 64]);
                    } else if k != i {
                        assert(k % 64 != i % 64);
                    }
                }
            }
        }
        i = i + 1;
    }
    d
}

} // verus!
