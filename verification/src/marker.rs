//! The `.tracear` compiled-marker binary format (v2, little-endian) and the
//! multi-marker pack container (v1).
//!
//! Single marker:
//! magic "TRCR" | version u32 | width u32 | height u32 | feature count u32 |
//! per feature: x f32, y f32, descriptor 4 x u64  (40 bytes each) |
//! tracking level count u32 |
//! per level: scale f32, patch count u32,
//!   per patch: x f32, y f32, score f32, template PATCH_SIZE^2 bytes.
//!
//! Pack: magic "TRPK" | version u32 | marker count u32 | per marker: byte
//! length u32 | then the markers' complete single-marker blobs back to back.
//!
//! Floating-point fields are carried as their IEEE-754 bit patterns (`u32`),
//! exactly the four bytes the format stores.

use vstd::prelude::*;
use vstd::bytes::*;
use vstd::slice::{slice_subrange, slice_to_vec};
use crate::brief::Descriptor;
use crate::image::{GrayImage, ImageView};

verus! {

/// Side of a stored tracking template.
pub const PATCH_SIZE: usize = 21;
/// Bytes of a stored tracking template.
pub const PATCH_AREA: usize = 441;
/// Format version written and accepted.
pub const FORMAT_VERSION: u32 = 2;
/// Pack container version written and accepted.
pub const PACK_VERSION: u32 = 1;

/// Bytes of the fixed header.
pub const HEADER_LEN: usize = 20;
/// Bytes of one detection feature record.
pub const FEATURE_LEN: usize = 40;
/// Bytes of one tracking patch record.
pub const PATCH_LEN: usize = 453;

/// "TRCR".
pub open spec fn magic() -> Seq<u8> {
    seq![0x54u8, 0x52u8, 0x43u8, 0x52u8]
}

/// "TRPK".
pub open spec fn pack_magic() -> Seq<u8> {
    seq![0x54u8, 0x52u8, 0x50u8, 0x4Bu8]
}

/// A stored tracking template around a strong marker corner.
#[derive(Clone, Debug, PartialEq)]
pub struct TrackPatch {
    /// Bit pattern of the f32 patch center x in marker level-0 pixels.
    pub x_bits: u32,
    /// Bit pattern of the f32 patch center y.
    pub y_bits: u32,
    /// Bit pattern of the f32 corner score.
    pub score_bits: u32,
    /// PATCH_SIZE x PATCH_SIZE grayscale template (row-major).
    pub template: Vec<u8>,
}

/// Tracking patches of one factor-2 marker level.
#[derive(Clone, Debug, PartialEq)]
pub struct TrackingLevel {
    /// Bit pattern of the f32 level resolution relative to level 0.
    pub scale_bits: u32,
    pub patches: Vec<TrackPatch>,
}

/// Everything the runtime needs about one target.
#[derive(Clone, Debug)]
pub struct CompiledMarker {
    pub width: u32,
    pub height: u32,
    /// Bit patterns of the f32 detection feature positions (marker level-0
    /// pixels), parallel to `descriptors`.
    pub position_bits: Vec<(u32, u32)>,
    pub descriptors: Vec<Descriptor>,
    pub tracking_levels: Vec<TrackingLevel>,
}

pub struct PatchView {
    pub x: u32,
    pub y: u32,
    pub score: u32,
    pub template: Seq<u8>,
}

pub struct LevelView {
    pub scale: u32,
    pub patches: Seq<PatchView>,
}

pub struct MarkerView {
    pub width: u32,
    pub height: u32,
    pub positions: Seq<(u32, u32)>,
    pub descriptors: Seq<Seq<u64>>,
    pub levels: Seq<LevelView>,
}

impl View for TrackPatch {
    type V = PatchView;

    open spec fn view(&self) -> PatchView {
        PatchView { x: self.x_bits, y: self.y_bits, score: self.score_bits, template: self.template@ }
    }
}

impl View for TrackingLevel {
    type V = LevelView;

    open spec fn view(&self) -> LevelView {
        LevelView { scale: self.scale_bits, patches: self.patches@.map_values(|p: TrackPatch| p@) }
    }
}

impl View for CompiledMarker {
    type V = MarkerView;

    open spec fn view(&self) -> MarkerView {
        MarkerView {
            width: self.width,
            height: self.height,
            positions: self.position_bits@,
            descriptors: self.descriptors@.map_values(|d: Descriptor| d@),
            levels: self.tracking_levels@.map_values(|l: TrackingLevel| l@),
        }
    }
}

/// Errors reading a single-marker file.
#[derive(Clone, Copy, Debug, PartialEq, Eq, Structural)]
pub enum MarkerError {
    /// The data ends before the structure it announces.
    Truncated,
    /// The first four bytes are not "TRCR".
    BadMagic,
    /// A format version other than 2.
    UnsupportedVersion(u32),
    /// Bytes follow the complete structure.
    TrailingBytes,
}

// ---------------------------------------------------------------- encoding

pub open spec fn le32(x: u32) -> Seq<u8> {
    spec_u32_to_le_bytes(x)
}

pub open spec fn le64(x: u64) -> Seq<u8> {
    spec_u64_to_le_bytes(x)
}

pub open spec fn enc_feature(p: (u32, u32), d: Seq<u64>) -> Seq<u8> {
    le32(p.0) + le32(p.1) + le64(d[0]) + le64(d[1]) + le64(d[2]) + le64(d[3])
}

/// The first `n` features.
pub open spec fn enc_features(ps: Seq<(u32, u32)>, ds: Seq<Seq<u64>>, n: nat) -> Seq<u8>
    decreases n,
{
    if n == 0 {
        seq![]
    } else {
        enc_features(ps, ds, (n - 1) as nat) + enc_feature(ps[n - 1], ds[n - 1])
    }
}

pub open spec fn enc_patch(p: PatchView) -> Seq<u8> {
    le32(p.x) + le32(p.y) + le32(p.score) + p.template
}

pub open spec fn enc_patches(ps: Seq<PatchView>) -> Seq<u8>
    decreases ps.len(),
{
    if ps.len() == 0 {
        seq![]
    } else {
        enc_patches(ps.drop_last()) + enc_patch(ps.last())
    }
}

pub open spec fn enc_level(l: LevelView) -> Seq<u8> {
    le32(l.scale) + le32(l.patches.len() as u32) + enc_patches(l.patches)
}

pub open spec fn enc_levels(ls: Seq<LevelView>) -> Seq<u8>
    decreases ls.len(),
{
    if ls.len() == 0 {
        seq![]
    } else {
        enc_levels(ls.drop_last()) + enc_level(ls.last())
    }
}

pub open spec fn min_nat(a: nat, b: nat) -> nat {
    if a <= b {
        a
    } else {
        b
    }
}

/// The `.tracear` bytes of a marker. Counts are written as `u32` (truncated),
/// and features are written pairwise up to the shorter of the two lists.
pub open spec fn encode_marker(m: MarkerView) -> Seq<u8> {
    magic() + le32(FORMAT_VERSION) + le32(m.width) + le32(m.height) + le32(
        m.positions.len() as u32,
    ) + enc_features(m.positions, m.descriptors, min_nat(m.positions.len(), m.descriptors.len()))
        + le32(m.levels.len() as u32) + enc_levels(m.levels)
}

/// Every stored template has exactly PATCH_AREA bytes.
pub open spec fn templates_ok(m: MarkerView) -> bool {
    forall|i: int, j: int|
        0 <= i < m.levels.len() && 0 <= j < m.levels[i].patches.len() ==> (
        #[trigger] m.levels[i].patches[j]).template.len() == PATCH_AREA
}

/// A marker that the format represents exactly: parallel feature lists,
/// counts that fit in `u32`, full-size templates.
pub open spec fn marker_wf(m: MarkerView) -> bool {
    &&& m.positions.len() == m.descriptors.len()
    &&& m.positions.len() <= u32::MAX
    &&& m.levels.len() <= u32::MAX
    &&& forall|i: int| 0 <= i < m.descriptors.len() ==> (#[trigger] m.descriptors[i]).len() == 4
    &&& forall|i: int| 0 <= i < m.levels.len() ==> (#[trigger] m.levels[i]).patches.len() <= u32::MAX
    &&& templates_ok(m)
}

fn push_u32(out: &mut Vec<u8>, x: u32)
    ensures
        final(out)@ == old(out)@ + le32(x),
{
    let mut b = u32_to_le_bytes(x);
    out.append(&mut b);
}

fn push_u64(out: &mut Vec<u8>, x: u64)
    ensures
        final(out)@ == old(out)@ + le64(x),
{
    let mut b = u64_to_le_bytes(x);
    out.append(&mut b);
}

impl CompiledMarker {
    /// Serializes the marker to `.tracear` bytes.
    pub fn to_bytes(&self) -> (out: Vec<u8>)
        requires
            templates_ok(self@),
        ensures
            out@ == encode_marker(self@),
    {
        let ghost m = self@;
        let mut out: Vec<u8> = Vec::new();
        out.push(0x54u8);
        out.push(0x52u8);
        out.push(0x43u8);
        out.push(0x52u8);
        assert(out@ =~= magic());
        push_u32(&mut out, FORMAT_VERSION);
        push_u32(&mut out, self.width);
        push_u32(&mut out, self.height);
        push_u32(&mut out, self.position_bits.len() as u32);
        let ghost header = out@;
        let n = if self.position_bits.len() <= self.descriptors.len() {
            self.position_bits.len()
        } else {
            self.descriptors.len()
        };
        let mut i: usize = 0;
        while i < n
            invariant
                m == self@,
                n == min_nat(m.positions.len(), m.descriptors.len()),
                i <= n,
                out@ == header + enc_features(m.positions, m.descriptors, i as nat),
            decreases n - i,
        {
            let (x, y) = self.position_bits[i];
            push_u32(&mut out, x);
            push_u32(&mut out, y);
            let d = self.descriptors[i];
            push_u64(&mut out, d[0]);
            push_u64(&mut out, d[1]);
            push_u64(&mut out, d[2]);
            push_u64(&mut out, d[3]);
            proof {
                assert(m.descriptors[i as int] == d@);
                assert(out@ =~= header + enc_features(m.positions, m.descriptors, (i + 1) as nat));
            }
            i = i + 1;
        }
        push_u32(&mut out, self.tracking_levels.len() as u32);
        let ghost before_levels = out@;
        let mut li: usize = 0;
        while li < self.tracking_levels.len()
            invariant
                m == self@,
                templates_ok(m),
                li <= m.levels.len(),
                out@ == before_levels + enc_levels(m.levels.take(li as int)),
            decreases m.levels.len() - li,
        {
            let level = &self.tracking_levels[li];
            let ghost lv = m.levels[li as int];
            assert(level@ == lv);
            push_u32(&mut out, level.scale_bits);
            push_u32(&mut out, level.patches.len() as u32);
            let ghost level_start = out@;
            let mut pi: usize = 0;
            while pi < level.patches.len()
                invariant
                    m == self@,
                    templates_ok(m),
                    li < m.levels.len(),
                    lv == m.levels[li as int],
                    level@ == lv,
                    pi <= lv.patches.len(),
                    out@ == level_start + enc_patches(lv.patches.take(pi as int)),
                decreases lv.patches.len() - pi,
            {
                let p = &level.patches[pi];
                assert(p@ == lv.patches[pi as int]);
                push_u32(&mut out, p.x_bits);
                push_u32(&mut out, p.y_bits);
                push_u32(&mut out, p.score_bits);
                let mut t = p.template.clone();
                assert(t@ =~= p.template@);
                out.append(&mut t);
                proof {
                    assert(lv.patches.take(pi + 1).drop_last() =~= lv.patches.take(pi as int));
                    assert(out@ =~= level_start + enc_patches(lv.patches.take(pi + 1)));
                }
                pi = pi + 1;
            }
            proof {
                assert(lv.patches.take(pi as int) =~= lv.patches);
                assert(m.levels.take(li + 1).drop_last() =~= m.levels.take(li as int));
                assert(out@ =~= before_levels + enc_levels(m.levels.take(li + 1)));
            }
            li = li + 1;
        }
        proof {
            assert(m.levels.take(li as int) =~= m.levels);
        }
        out
    }
}

// ----------------------------------------------------------------- parsing

pub open spec fn read32(s: Seq<u8>, p: int) -> u32 {
    spec_u32_from_le_bytes(s.subrange(p, p + 4))
}

pub open spec fn read64(s: Seq<u8>, p: int) -> u64 {
    spec_u64_from_le_bytes(s.subrange(p, p + 8))
}

pub open spec fn feature_pos_at(s: Seq<u8>, p: int) -> (u32, u32) {
    (read32(s, p), read32(s, p + 4))
}

pub open spec fn feature_desc_at(s: Seq<u8>, p: int) -> Seq<u64> {
    seq![read64(s, p + 8), read64(s, p + 16), read64(s, p + 24), read64(s, p + 32)]
}

pub open spec fn patch_at(s: Seq<u8>, p: int) -> PatchView {
    PatchView {
        x: read32(s, p),
        y: read32(s, p + 4),
        score: read32(s, p + 8),
        template: s.subrange(p + 12, p + 12 + PATCH_AREA),
    }
}

/// The `n` fixed-size patch records starting at `p`.
pub open spec fn patches_at(s: Seq<u8>, p: int, n: nat) -> Seq<PatchView> {
    Seq::new(n, |i: int| patch_at(s, p + PATCH_LEN * i))
}

/// Reads `n` tracking levels starting at `p`: the levels and the end
/// position, or None when the data ends first.
pub open spec fn parse_levels(s: Seq<u8>, p: int, n: nat) -> Option<(Seq<LevelView>, int)>
    decreases n,
{
    if n == 0 {
        Some((seq![], p))
    } else {
        match parse_levels(s, p, (n - 1) as nat) {
            None => None,
            Some((ls, q)) => {
                if q + 8 > s.len() {
                    None
                } else {
                    let count = read32(s, q + 4) as nat;
                    let end = q + 8 + PATCH_LEN * count;
                    if end > s.len() {
                        None
                    } else {
                        Some(
                            (
                                ls.push(
                                    LevelView {
                                        scale: read32(s, q),
                                        patches: patches_at(s, q + 8, count),
                                    },
                                ),
                                end,
                            ),
                        )
                    }
                }
            },
        }
    }
}

/// How a single-marker file is read.
pub open spec fn parse_marker(s: Seq<u8>) -> Result<MarkerView, MarkerError> {
    if s.len() < 4 {
        Err(MarkerError::Truncated)
    } else if s.subrange(0, 4) != magic() {
        Err(MarkerError::BadMagic)
    } else if s.len() < 8 {
        Err(MarkerError::Truncated)
    } else if read32(s, 4) != FORMAT_VERSION {
        Err(MarkerError::UnsupportedVersion(read32(s, 4)))
    } else if s.len() < HEADER_LEN {
        Err(MarkerError::Truncated)
    } else {
        let count = read32(s, 16) as nat;
        let p = HEADER_LEN + FEATURE_LEN * count;
        if p + 4 > s.len() {
            Err(MarkerError::Truncated)
        } else {
            match parse_levels(s, p + 4, read32(s, p) as nat) {
                None => Err(MarkerError::Truncated),
                Some((ls, q)) => {
                    if q != s.len() {
                        Err(MarkerError::TrailingBytes)
                    } else {
                        Ok(
                            MarkerView {
                                width: read32(s, 8),
                                height: read32(s, 12),
                                positions: Seq::new(
                                    count,
                                    |i: int| feature_pos_at(s, HEADER_LEN + FEATURE_LEN * i),
                                ),
                                descriptors: Seq::new(
                                    count,
                                    |i: int| feature_desc_at(s, HEADER_LEN + FEATURE_LEN * i),
                                ),
                                levels: ls,
                            },
                        )
                    }
                },
            }
        }
    }
}

fn read_u32_at(bytes: &[u8], p: usize) -> (x: u32)
    requires
        p + 4 <= bytes@.len(),
    ensures
        x == read32(bytes@, p as int),
{
    let _n = bytes.len();
    u32_from_le_bytes(slice_subrange(bytes, p, p + 4))
}

fn read_u64_at(bytes: &[u8], p: usize) -> (x: u64)
    requires
        p + 8 <= bytes@.len(),
    ensures
        x == read64(bytes@, p as int),
{
    let _n = bytes.len();
    u64_from_le_bytes(slice_subrange(bytes, p, p + 8))
}

/// Reads `n` patch records at `p` (bounds already checked).
fn read_patches(bytes: &[u8], p: usize, n: usize) -> (out: Vec<TrackPatch>)
    requires
        p + PATCH_LEN * n <= bytes@.len(),
    ensures
        out@.map_values(|q: TrackPatch| q@) == patches_at(bytes@, p as int, n as nat),
{
    let blen = bytes.len();
    let mut out: Vec<TrackPatch> = Vec::new();
    let mut i: usize = 0;
    while i < n
        invariant
            p + PATCH_LEN * n <= bytes@.len(),
            blen == bytes@.len(),
            i <= n,
            out@.map_values(|q: TrackPatch| q@) =~= patches_at(bytes@, p as int, i as nat),
        decreases n - i,
    {
        proof {
            assert(PATCH_LEN * i + PATCH_LEN <= PATCH_LEN * n) by (nonlinear_arith)
                requires
                    i < n,
            ;
            assert(PATCH_LEN * (i + 1) == PATCH_LEN * i + PATCH_LEN) by (nonlinear_arith);
        }
        let at = p + PATCH_LEN * i;
        let x = read_u32_at(bytes, at);
        let y = read_u32_at(bytes, at + 4);
        let score = read_u32_at(bytes, at + 8);
        let template = slice_to_vec(slice_subrange(bytes, at + 12, at + PATCH_LEN));
        let ghost before = out@;
        out.push(TrackPatch { x_bits: x, y_bits: y, score_bits: score, template });
        proof {
            assert(out@.map_values(|q: TrackPatch| q@) =~= before.map_values(|q: TrackPatch| q@).push(
                patch_at(bytes@, at as int),
            ));
        }
        i = i + 1;
    }
    out
}

impl CompiledMarker {
    /// Reads a single-marker `.tracear` file.
    pub fn from_bytes(bytes: &[u8]) -> (res: Result<CompiledMarker, MarkerError>)
        ensures
            match res {
                Ok(m) => parse_marker(bytes@) == Ok::<MarkerView, MarkerError>(m@),
                Err(e) => parse_marker(bytes@) == Err::<MarkerView, MarkerError>(e),
            },
            res is Ok ==> marker_wf(res->Ok_0@) && encode_marker(res->Ok_0@) == bytes@,
            (res is Ok) == (exists|m: MarkerView| marker_wf(m) && encode_marker(m) == bytes@),
    {
        let res = Self::read_marker(bytes);
        proof {
            lemma_marker_ok_iff(bytes@);
            if res is Ok {
                lemma_marker_canonical(bytes@);
            }
        }
        res
    }

    #[verifier::spinoff_prover]
    fn read_marker(bytes: &[u8]) -> (res: Result<CompiledMarker, MarkerError>)
        ensures
            match res {
                Ok(m) => parse_marker(bytes@) == Ok::<MarkerView, MarkerError>(m@),
                Err(e) => parse_marker(bytes@) == Err::<MarkerView, MarkerError>(e),
            },
    {
        let ghost s = bytes@;
        let len = bytes.len();
        if len < 4 {
            return Err(MarkerError::Truncated);
        }
        if bytes[0] != 0x54u8 || bytes[1] != 0x52u8 || bytes[2] != 0x43u8 || bytes[3] != 0x52u8 {
            proof {
                if s.subrange(0, 4) == magic() {
                    assert(s.subrange(0, 4)[0] == s[0]);
                    assert(s.subrange(0, 4)[1] == s[1]);
                    assert(s.subrange(0, 4)[2] == s[2]);
                    assert(s.subrange(0, 4)[3] == s[3]);
                }
            }
            return Err(MarkerError::BadMagic);
        }
        assert(s.subrange(0, 4) =~= magic());
        if len < 8 {
            return Err(MarkerError::Truncated);
        }
        let version = read_u32_at(bytes, 4);
        if version != FORMAT_VERSION {
            return Err(MarkerError::UnsupportedVersion(version));
        }
        if len < HEADER_LEN {
            return Err(MarkerError::Truncated);
        }
        let width = read_u32_at(bytes, 8);
        let height = read_u32_at(bytes, 12);
        let count32 = read_u32_at(bytes, 16);
        let count = count32 as usize;
        if len < HEADER_LEN + 4 || (len - HEADER_LEN - 4) / FEATURE_LEN < count {
            proof {
                if len >= HEADER_LEN + 4 {
                    assert(HEADER_LEN + FEATURE_LEN * count + 4 > len) by (nonlinear_arith)
                        requires
                            (len - HEADER_LEN - 4) / (FEATURE_LEN as int) < count,
                            len >= HEADER_LEN + 4,
                    ;
                }
            }
            return Err(MarkerError::Truncated);
        }
        proof {
            assert(HEADER_LEN + FEATURE_LEN * count + 4 <= len) by (nonlinear_arith)
                requires
                    (len - HEADER_LEN - 4) / (FEATURE_LEN as int) >= count,
                    len >= HEADER_LEN + 4,
            ;
        }
        let mut positions: Vec<(u32, u32)> = Vec::new();
        let mut descriptors: Vec<Descriptor> = Vec::new();
        let mut i: usize = 0;
        while i < count
            invariant
                s == bytes@,
                len == s.len(),
                HEADER_LEN + FEATURE_LEN * count + 4 <= len,
                i <= count,
                positions@ =~= Seq::new(
                    i as nat,
                    |k: int| feature_pos_at(s, HEADER_LEN + FEATURE_LEN * k),
                ),
                descriptors@.map_values(|d: Descriptor| d@) =~= Seq::new(
                    i as nat,
                    |k: int| feature_desc_at(s, HEADER_LEN + FEATURE_LEN * k),
                ),
            decreases count - i,
        {
            proof {
                assert(FEATURE_LEN * i + FEATURE_LEN <= FEATURE_LEN * count) by (nonlinear_arith)
                    requires
                        i < count,
                ;
            }
            let at = HEADER_LEN + FEATURE_LEN * i;
            let x = read_u32_at(bytes, at);
            let y = read_u32_at(bytes, at + 4);
            let d0 = read_u64_at(bytes, at + 8);
            let d1 = read_u64_at(bytes, at + 16);
            let d2 = read_u64_at(bytes, at + 24);
            let d3 = read_u64_at(bytes, at + 32);
            let d: Descriptor = [d0, d1, d2, d3];
            let ghost before = descriptors@;
            positions.push((x, y));
            descriptors.push(d);
            proof {
                assert(d@ =~= feature_desc_at(s, at as int));
                assert(descriptors@.map_values(|d: Descriptor| d@) =~= before.map_values(
                    |d: Descriptor| d@,
                ).push(d@));
            }
            i = i + 1;
        }
        let p = HEADER_LEN + FEATURE_LEN * count;
        let level_count = read_u32_at(bytes, p) as usize;
        let mut levels: Vec<TrackingLevel> = Vec::new();
        let mut q = p + 4;
        let mut li: usize = 0;
        while li < level_count
            invariant
                s == bytes@,
                len == s.len(),
                p + 4 <= len,
                level_count == read32(s, p as int),
                s.subrange(0, 4) == magic(),
                read32(s, 4) == FORMAT_VERSION,
                len >= HEADER_LEN,
                count == read32(s, 16),
                p == HEADER_LEN + FEATURE_LEN * count,
                width == read32(s, 8),
                height == read32(s, 12),
                positions@ =~= Seq::new(
                    count as nat,
                    |k: int| feature_pos_at(s, HEADER_LEN + FEATURE_LEN * k),
                ),
                descriptors@.map_values(|d: Descriptor| d@) =~= Seq::new(
                    count as nat,
                    |k: int| feature_desc_at(s, HEADER_LEN + FEATURE_LEN * k),
                ),
                li <= level_count,
                q <= len,
                parse_levels(s, p + 4, li as nat) == Some::<(Seq<LevelView>, int)>(
                    (levels@.map_values(|l: TrackingLevel| l@), q as int),
                ),
            decreases level_count - li,
        {
            if len - q < 8 {
                proof {
                    lemma_parse_levels_none(s, p + 4, (li + 1) as nat, level_count as nat);
                }
                return Err(MarkerError::Truncated);
            }
            let scale = read_u32_at(bytes, q);
            let pc = read_u32_at(bytes, q + 4) as usize;
            if (len - q - 8) / PATCH_LEN < pc {
                proof {
                    assert(q + 8 + PATCH_LEN * pc > len) by (nonlinear_arith)
                        requires
                            (len - q - 8) / (PATCH_LEN as int) < pc,
                            q + 8 <= len,
                    ;
                    lemma_parse_levels_none(s, p + 4, (li + 1) as nat, level_count as nat);
                }
                return Err(MarkerError::Truncated);
            }
            proof {
                assert(q + 8 + PATCH_LEN * pc <= len) by (nonlinear_arith)
                    requires
                        (len - q - 8) / (PATCH_LEN as int) >= pc,
                        q + 8 <= len,
                ;
            }
            let patches = read_patches(bytes, q + 8, pc);
            let ghost before = levels@;
            levels.push(TrackingLevel { scale_bits: scale, patches });
            q = q + 8 + PATCH_LEN * pc;
            proof {
                assert(levels@.map_values(|l: TrackingLevel| l@) =~= before.map_values(
                    |l: TrackingLevel| l@,
                ).push(LevelView { scale, patches: patches_at(s, (q - PATCH_LEN * pc) as int, pc as nat) }));
            }
            li = li + 1;
        }
        if q != len {
            return Err(MarkerError::TrailingBytes);
        }
        let m = CompiledMarker {
            width,
            height,
            position_bits: positions,
            descriptors,
            tracking_levels: levels,
        };
        Ok(m)
    }
}

/// Once the levels run out of data, reading more levels also fails.
proof fn lemma_parse_levels_none(s: Seq<u8>, p: int, k: nat, n: nat)
    requires
        k <= n,
        parse_levels(s, p, k) is None,
    ensures
        parse_levels(s, p, n) is None,
    decreases n - k,
{
    if k < n {
        lemma_parse_levels_none(s, p, k, (n - 1) as nat);
    }
}

// -------------------------------------------------------------- the laws

proof fn lemma_le_facts()
    ensures
        forall|x: u32| #[trigger] le32(x).len() == 4,
        forall|x: u64| #[trigger] le64(x).len() == 8,
        forall|x: u32| #[trigger] spec_u32_from_le_bytes(le32(x)) == x,
        forall|x: u64| #[trigger] spec_u64_from_le_bytes(le64(x)) == x,
        forall|b: Seq<u8>| b.len() == 4 ==> #[trigger] le32(spec_u32_from_le_bytes(b)) == b,
        forall|b: Seq<u8>| b.len() == 8 ==> #[trigger] le64(spec_u64_from_le_bytes(b)) == b,
{
    lemma_auto_spec_u32_to_from_le_bytes();
    lemma_auto_spec_u64_to_from_le_bytes();
    assert forall|x: u32| #[trigger] spec_u32_from_le_bytes(le32(x)) == x by {
        assert(spec_u32_to_le_bytes(x).len() == 4);
    }
    assert forall|x: u64| #[trigger] spec_u64_from_le_bytes(le64(x)) == x by {
        assert(spec_u64_to_le_bytes(x).len() == 8);
    }
    assert forall|x: u32| #[trigger] le32(x).len() == 4 by {
        assert(spec_u32_to_le_bytes(x).len() == 4);
    }
    assert forall|x: u64| #[trigger] le64(x).len() == 8 by {
        assert(spec_u64_to_le_bytes(x).len() == 8);
    }
}

/// Reading a field back from where its encoding sits.
proof fn lemma_read32_at(s: Seq<u8>, p: int, x: u32)
    requires
        0 <= p,
        p + 4 <= s.len(),
        s.subrange(p, p + 4) == le32(x),
    ensures
        read32(s, p) == x,
{
    lemma_le_facts();
}

proof fn lemma_read64_at(s: Seq<u8>, p: int, x: u64)
    requires
        0 <= p,
        p + 8 <= s.len(),
        s.subrange(p, p + 8) == le64(x),
    ensures
        read64(s, p) == x,
{
    lemma_le_facts();
}

/// A sub-slice of a window is a window of the whole.
proof fn lemma_sub_sub(s: Seq<u8>, p: int, q: int, i: int, j: int)
    requires
        0 <= p <= q <= s.len(),
        0 <= i <= j <= q - p,
    ensures
        s.subrange(p, q).subrange(i, j) == s.subrange(p + i, p + j),
{
    assert(s.subrange(p, q).subrange(i, j) =~= s.subrange(p + i, p + j));
}

/// Slicing into the second part of a concatenation.
proof fn lemma_concat_right(a: Seq<u8>, b: Seq<u8>, i: int, j: int)
    requires
        0 <= i <= j <= b.len(),
    ensures
        (a + b).subrange(a.len() + i, a.len() + j) == b.subrange(i, j),
{
    assert((a + b).subrange(a.len() + i, a.len() + j) =~= b.subrange(i, j));
}

/// Slicing into the first part of a concatenation.
proof fn lemma_concat_left(a: Seq<u8>, b: Seq<u8>, i: int, j: int)
    requires
        0 <= i <= j <= a.len(),
    ensures
        (a + b).subrange(i, j) == a.subrange(i, j),
{
    assert((a + b).subrange(i, j) =~= a.subrange(i, j));
}

proof fn lemma_enc_feature_fields(p: (u32, u32), d: Seq<u64>)
    ensures
        enc_feature(p, d).len() == FEATURE_LEN,
        enc_feature(p, d).subrange(0, 4) == le32(p.0),
        enc_feature(p, d).subrange(4, 8) == le32(p.1),
        enc_feature(p, d).subrange(8, 16) == le64(d[0]),
        enc_feature(p, d).subrange(16, 24) == le64(d[1]),
        enc_feature(p, d).subrange(24, 32) == le64(d[2]),
        enc_feature(p, d).subrange(32, 40) == le64(d[3]),
{
    lemma_le_facts();
    let e = enc_feature(p, d);
    assert(e.subrange(0, 4) =~= le32(p.0));
    assert(e.subrange(4, 8) =~= le32(p.1));
    assert(e.subrange(8, 16) =~= le64(d[0]));
    assert(e.subrange(16, 24) =~= le64(d[1]));
    assert(e.subrange(24, 32) =~= le64(d[2]));
    assert(e.subrange(32, 40) =~= le64(d[3]));
}

proof fn lemma_enc_features_chunks(ps: Seq<(u32, u32)>, ds: Seq<Seq<u64>>, n: nat)
    requires
        n <= ps.len(),
        n <= ds.len(),
    ensures
        enc_features(ps, ds, n).len() == FEATURE_LEN * n,
        forall|k: int|
            0 <= k < n ==> #[trigger] enc_features(ps, ds, n).subrange(
                FEATURE_LEN * k,
                FEATURE_LEN * k + FEATURE_LEN,
            ) == enc_feature(ps[k], ds[k]),
    decreases n,
{
    if n > 0 {
        let m = (n - 1) as nat;
        lemma_enc_features_chunks(ps, ds, m);
        lemma_enc_feature_fields(ps[m as int], ds[m as int]);
        let a = enc_features(ps, ds, m);
        let b = enc_feature(ps[m as int], ds[m as int]);
        assert(FEATURE_LEN * n == FEATURE_LEN * m + FEATURE_LEN);
        assert forall|k: int| 0 <= k < n implies #[trigger] enc_features(ps, ds, n).subrange(
            FEATURE_LEN * k,
            FEATURE_LEN * k + FEATURE_LEN,
        ) == enc_feature(ps[k], ds[k]) by {
            if k < m {
                assert(FEATURE_LEN * k + FEATURE_LEN <= FEATURE_LEN * m) by (nonlinear_arith)
                    requires
                        k < m,
                ;
                assert(0 <= FEATURE_LEN * k) by (nonlinear_arith)
                    requires
                        0 <= k,
                ;
                lemma_concat_left(a, b, FEATURE_LEN * k, FEATURE_LEN * k + FEATURE_LEN);
            } else {
                lemma_concat_right(a, b, 0, FEATURE_LEN as int);
                assert(b.subrange(0, FEATURE_LEN as int) =~= b);
            }
        }
    }
}

proof fn lemma_enc_patch_fields(p: PatchView)
    requires
        p.template.len() == PATCH_AREA,
    ensures
        enc_patch(p).len() == PATCH_LEN,
        enc_patch(p).subrange(0, 4) == le32(p.x),
        enc_patch(p).subrange(4, 8) == le32(p.y),
        enc_patch(p).subrange(8, 12) == le32(p.score),
        enc_patch(p).subrange(12, PATCH_LEN as int) == p.template,
{
    lemma_le_facts();
    let e = enc_patch(p);
    assert(e.subrange(0, 4) =~= le32(p.x));
    assert(e.subrange(4, 8) =~= le32(p.y));
    assert(e.subrange(8, 12) =~= le32(p.score));
    assert(e.subrange(12, PATCH_LEN as int) =~= p.template);
}

proof fn lemma_enc_patches_chunks(ps: Seq<PatchView>)
    requires
        forall|k: int| 0 <= k < ps.len() ==> (#[trigger] ps[k]).template.len() == PATCH_AREA,
    ensures
        enc_patches(ps).len() == PATCH_LEN * ps.len(),
        forall|k: int|
            0 <= k < ps.len() ==> #[trigger] enc_patches(ps).subrange(
                PATCH_LEN * k,
                PATCH_LEN * k + PATCH_LEN,
            ) == enc_patch(ps[k]),
    decreases ps.len(),
{
    if ps.len() > 0 {
        let init = ps.drop_last();
        let m = init.len();
        lemma_enc_patches_chunks(init);
        lemma_enc_patch_fields(ps.last());
        let a = enc_patches(init);
        let b = enc_patch(ps.last());
        assert(PATCH_LEN * ps.len() == PATCH_LEN * m + PATCH_LEN);
        assert forall|k: int| 0 <= k < ps.len() implies #[trigger] enc_patches(ps).subrange(
            PATCH_LEN * k,
            PATCH_LEN * k + PATCH_LEN,
        ) == enc_patch(ps[k]) by {
            if k < m {
                assert(PATCH_LEN * k + PATCH_LEN <= PATCH_LEN * m) by (nonlinear_arith)
                    requires
                        k < m,
                ;
                assert(0 <= PATCH_LEN * k) by (nonlinear_arith)
                    requires
                        0 <= k,
                ;
                lemma_concat_left(a, b, PATCH_LEN * k, PATCH_LEN * k + PATCH_LEN);
                assert(init[k] == ps[k]);
            } else {
                lemma_concat_right(a, b, 0, PATCH_LEN as int);
                assert(b.subrange(0, PATCH_LEN as int) =~= b);
            }
        }
    }
}

/// The patch records found where `patches` are encoded are `patches`.
proof fn lemma_patches_at_enc(s: Seq<u8>, p: int, ps: Seq<PatchView>)
    requires
        0 <= p,
        forall|k: int| 0 <= k < ps.len() ==> (#[trigger] ps[k]).template.len() == PATCH_AREA,
        p + PATCH_LEN * ps.len() <= s.len(),
        s.subrange(p, p + PATCH_LEN * ps.len()) == enc_patches(ps),
    ensures
        patches_at(s, p, ps.len()) == ps,
{
    lemma_enc_patches_chunks(ps);
    let e = enc_patches(ps);
    assert forall|k: int| 0 <= k < ps.len() implies #[trigger] patches_at(s, p, ps.len())[k]
        == ps[k] by {
        let q = p + PATCH_LEN * k;
        assert(PATCH_LEN * k + PATCH_LEN <= PATCH_LEN * ps.len()) by (nonlinear_arith)
            requires
                k < ps.len(),
        ;
        assert(0 <= PATCH_LEN * k) by (nonlinear_arith)
            requires
                0 <= k,
        ;
        lemma_sub_sub(s, p, p + PATCH_LEN * ps.len(), PATCH_LEN * k, PATCH_LEN * k + PATCH_LEN);
        let chunk = s.subrange(q, q + PATCH_LEN);
        assert(chunk == enc_patch(ps[k]));
        lemma_enc_patch_fields(ps[k]);
        lemma_sub_sub(s, q, q + PATCH_LEN, 0, 4);
        lemma_sub_sub(s, q, q + PATCH_LEN, 4, 8);
        lemma_sub_sub(s, q, q + PATCH_LEN, 8, 12);
        lemma_sub_sub(s, q, q + PATCH_LEN, 12, PATCH_LEN as int);
        lemma_read32_at(s, q, ps[k].x);
        lemma_read32_at(s, q + 4, ps[k].y);
        lemma_read32_at(s, q + 8, ps[k].score);
    }
    assert(patches_at(s, p, ps.len()) =~= ps);
}

/// Well-formed tracking levels: patch counts fit in `u32`, full templates.
pub open spec fn levels_wf(ls: Seq<LevelView>) -> bool {
    &&& forall|i: int| 0 <= i < ls.len() ==> (#[trigger] ls[i]).patches.len() <= u32::MAX
    &&& forall|i: int, j: int|
        0 <= i < ls.len() && 0 <= j < ls[i].patches.len() ==> (
        #[trigger] ls[i].patches[j]).template.len() == PATCH_AREA
}

proof fn lemma_enc_level_len(l: LevelView)
    requires
        forall|k: int| 0 <= k < l.patches.len() ==> (#[trigger] l.patches[k]).template.len()
            == PATCH_AREA,
    ensures
        enc_level(l).len() == 8 + PATCH_LEN * l.patches.len(),
{
    lemma_le_facts();
    lemma_enc_patches_chunks(l.patches);
}

/// Reading levels back from where they are encoded gives the levels.
proof fn lemma_parse_levels_enc(s: Seq<u8>, p: int, ls: Seq<LevelView>)
    requires
        0 <= p,
        levels_wf(ls),
        p + enc_levels(ls).len() <= s.len(),
        s.subrange(p, p + enc_levels(ls).len()) == enc_levels(ls),
    ensures
        parse_levels(s, p, ls.len()) == Some::<(Seq<LevelView>, int)>((ls, p + enc_levels(ls).len())),
    decreases ls.len(),
{
    if ls.len() > 0 {
        lemma_le_facts();
        let init = ls.drop_last();
        let last = ls.last();
        let a = enc_levels(init);
        let b = enc_level(last);
        assert(enc_levels(ls) == a + b);
        assert(levels_wf(init)) by {
            assert forall|i: int| 0 <= i < init.len() implies (#[trigger] init[i]).patches.len()
                <= u32::MAX by {
                assert(init[i] == ls[i]);
            }
            assert forall|i: int, j: int|
                0 <= i < init.len() && 0 <= j < init[i].patches.len() implies (
                #[trigger] init[i].patches[j]).template.len() == PATCH_AREA by {
                assert(init[i] == ls[i]);
            }
        }
        lemma_sub_sub(s, p, p + (a + b).len(), 0, a.len() as int);
        lemma_concat_left(a, b, 0, a.len() as int);
        assert(a.subrange(0, a.len() as int) =~= a);
        lemma_parse_levels_enc(s, p, init);
        let q = p + a.len();
        assert(forall|k: int| 0 <= k < last.patches.len() ==> (#[trigger] last.patches[k]).template.len()
            == PATCH_AREA) by {
            assert forall|k: int| 0 <= k < last.patches.len() implies (
            #[trigger] last.patches[k]).template.len() == PATCH_AREA by {
                assert(ls[ls.len() - 1].patches[k] == last.patches[k]);
            }
        }
        lemma_enc_level_len(last);
        lemma_enc_patches_chunks(last.patches);
        let cnt = last.patches.len();
        assert(last == ls[ls.len() - 1]);
        assert(cnt <= u32::MAX);
        // the level record sits at q
        lemma_sub_sub(s, p, p + (a + b).len(), a.len() as int, (a + b).len() as int);
        lemma_concat_right(a, b, 0, b.len() as int);
        assert(b.subrange(0, b.len() as int) =~= b);
        assert(s.subrange(q, q + b.len()) == b);
        lemma_sub_sub(s, q, q + b.len(), 0, 4);
        lemma_sub_sub(s, q, q + b.len(), 4, 8);
        lemma_sub_sub(s, q, q + b.len(), 8, b.len() as int);
        assert(b.subrange(0, 4) =~= le32(last.scale));
        assert(b.subrange(4, 8) =~= le32(cnt as u32));
        assert(b.subrange(8, b.len() as int) =~= enc_patches(last.patches));
        lemma_read32_at(s, q, last.scale);
        lemma_read32_at(s, q + 4, cnt as u32);
        assert(read32(s, q + 4) as nat == cnt);
        lemma_patches_at_enc(s, q + 8, last.patches);
        assert(init.push(last) =~= ls);
    }
}

/// Round trip: reading the bytes of a well-formed marker gives the marker back.
#[verifier::spinoff_prover]
pub proof fn lemma_marker_roundtrip(m: MarkerView)
    requires
        marker_wf(m),
    ensures
        parse_marker(encode_marker(m)) == Ok::<MarkerView, MarkerError>(m),
{
    lemma_le_facts();
    let n = m.positions.len();
    let fs = enc_features(m.positions, m.descriptors, n);
    let lv = enc_levels(m.levels);
    let h = magic() + le32(FORMAT_VERSION) + le32(m.width) + le32(m.height) + le32(n as u32);
    let s = encode_marker(m);
    assert(s == h + fs + le32(m.levels.len() as u32) + lv);
    lemma_enc_features_chunks(m.positions, m.descriptors, n);
    assert(h.len() == HEADER_LEN);
    assert(s.subrange(0, 4) =~= magic());
    assert(s.subrange(4, 8) =~= le32(FORMAT_VERSION));
    assert(s.subrange(8, 12) =~= le32(m.width));
    assert(s.subrange(12, 16) =~= le32(m.height));
    assert(s.subrange(16, 20) =~= le32(n as u32));
    lemma_read32_at(s, 4, FORMAT_VERSION);
    lemma_read32_at(s, 8, m.width);
    lemma_read32_at(s, 12, m.height);
    lemma_read32_at(s, 16, n as u32);
    let p = HEADER_LEN + FEATURE_LEN * n;
    assert(read32(s, 16) as nat == n);
    // features
    assert(s.subrange(HEADER_LEN as int, p) =~= fs);
    assert forall|k: int| 0 <= k < n implies #[trigger] feature_pos_at(s, HEADER_LEN + FEATURE_LEN * k)
        == m.positions[k] && feature_desc_at(s, HEADER_LEN + FEATURE_LEN * k) == m.descriptors[k] by {
        let q = HEADER_LEN + FEATURE_LEN * k;
        assert(FEATURE_LEN * k + FEATURE_LEN <= FEATURE_LEN * n) by (nonlinear_arith)
            requires
                k < n,
        ;
        assert(0 <= FEATURE_LEN * k) by (nonlinear_arith)
            requires
                0 <= k,
        ;
        lemma_sub_sub(s, HEADER_LEN as int, p, FEATURE_LEN * k, FEATURE_LEN * k + FEATURE_LEN);
        lemma_enc_feature_fields(m.positions[k], m.descriptors[k]);
        lemma_sub_sub(s, q, q + FEATURE_LEN, 0, 4);
        lemma_sub_sub(s, q, q + FEATURE_LEN, 4, 8);
        lemma_sub_sub(s, q, q + FEATURE_LEN, 8, 16);
        lemma_sub_sub(s, q, q + FEATURE_LEN, 16, 24);
        lemma_sub_sub(s, q, q + FEATURE_LEN, 24, 32);
        lemma_sub_sub(s, q, q + FEATURE_LEN, 32, 40);
        lemma_read32_at(s, q, m.positions[k].0);
        lemma_read32_at(s, q + 4, m.positions[k].1);
        lemma_read64_at(s, q + 8, m.descriptors[k][0]);
        lemma_read64_at(s, q + 16, m.descriptors[k][1]);
        lemma_read64_at(s, q + 24, m.descriptors[k][2]);
        lemma_read64_at(s, q + 32, m.descriptors[k][3]);
        assert(m.descriptors[k].len() == 4);
        assert(feature_desc_at(s, q) =~= m.descriptors[k]);
    }
    // levels
    assert(s.subrange(p, p + 4) =~= le32(m.levels.len() as u32));
    lemma_read32_at(s, p, m.levels.len() as u32);
    assert(read32(s, p) as nat == m.levels.len());
    assert(s.subrange(p + 4, s.len() as int) =~= lv);
    assert(levels_wf(m.levels)) by {
        assert forall|i: int, j: int|
            0 <= i < m.levels.len() && 0 <= j < m.levels[i].patches.len() implies (
            #[trigger] m.levels[i].patches[j]).template.len() == PATCH_AREA by {
            assert(templates_ok(m));
        }
    }
    lemma_parse_levels_enc(s, p + 4, m.levels);
    let r = parse_marker(s);
    assert(r is Ok);
    let mv = r->Ok_0;
    assert(mv.positions =~= m.positions);
    assert forall|k: int| 0 <= k < n implies #[trigger] mv.descriptors[k] == m.descriptors[k] by {
        assert(feature_pos_at(s, HEADER_LEN + FEATURE_LEN * k) == m.positions[k]);
    }
    assert(mv.descriptors =~= m.descriptors);
    assert(mv == m);
}

proof fn lemma_feature_of_parse(s: Seq<u8>, q: int)
    requires
        0 <= q,
        q + FEATURE_LEN <= s.len(),
    ensures
        enc_feature(feature_pos_at(s, q), feature_desc_at(s, q)) == s.subrange(q, q + FEATURE_LEN),
{
    lemma_le_facts();
    let e = enc_feature(feature_pos_at(s, q), feature_desc_at(s, q));
    assert(le32(read32(s, q)) == s.subrange(q, q + 4));
    assert(le32(read32(s, q + 4)) == s.subrange(q + 4, q + 8));
    assert(le64(read64(s, q + 8)) == s.subrange(q + 8, q + 16));
    assert(le64(read64(s, q + 16)) == s.subrange(q + 16, q + 24));
    assert(le64(read64(s, q + 24)) == s.subrange(q + 24, q + 32));
    assert(le64(read64(s, q + 32)) == s.subrange(q + 32, q + 40));
    assert(e =~= s.subrange(q, q + FEATURE_LEN));
}

proof fn lemma_features_of_parse(s: Seq<u8>, n: nat, k: nat)
    requires
        k <= n,
        HEADER_LEN + FEATURE_LEN * n <= s.len(),
    ensures
        enc_features(
            Seq::new(n, |i: int| feature_pos_at(s, HEADER_LEN + FEATURE_LEN * i)),
            Seq::new(n, |i: int| feature_desc_at(s, HEADER_LEN + FEATURE_LEN * i)),
            k,
        ) == s.subrange(HEADER_LEN as int, HEADER_LEN + FEATURE_LEN * k),
    decreases k,
{
    let ps = Seq::new(n, |i: int| feature_pos_at(s, HEADER_LEN + FEATURE_LEN * i));
    let ds = Seq::new(n, |i: int| feature_desc_at(s, HEADER_LEN + FEATURE_LEN * i));
    if k == 0 {
        assert(s.subrange(HEADER_LEN as int, HEADER_LEN as int) =~= seq![]);
    } else {
        let j = (k - 1) as nat;
        lemma_features_of_parse(s, n, j);
        let q = HEADER_LEN + FEATURE_LEN * j;
        assert(FEATURE_LEN * k == FEATURE_LEN * j + FEATURE_LEN);
        assert(FEATURE_LEN * k <= FEATURE_LEN * n) by (nonlinear_arith)
            requires
                k <= n,
        ;
        lemma_feature_of_parse(s, q);
        assert(ps[j as int] == feature_pos_at(s, q));
        assert(ds[j as int] == feature_desc_at(s, q));
        assert(s.subrange(HEADER_LEN as int, HEADER_LEN + FEATURE_LEN * k) =~= s.subrange(
            HEADER_LEN as int,
            q,
        ) + s.subrange(q, q + FEATURE_LEN));
    }
}

proof fn lemma_patches_of_parse(s: Seq<u8>, p: int, n: nat)
    requires
        0 <= p,
        p + PATCH_LEN * n <= s.len(),
    ensures
        enc_patches(patches_at(s, p, n)) == s.subrange(p, p + PATCH_LEN * n),
        forall|k: int| 0 <= k < n ==> (#[trigger] patches_at(s, p, n)[k]).template.len() == PATCH_AREA,
    decreases n,
{
    lemma_le_facts();
    if n == 0 {
        assert(patches_at(s, p, n) =~= seq![]);
        assert(s.subrange(p, p) =~= seq![]);
    } else {
        let j = (n - 1) as nat;
        assert(PATCH_LEN * n == PATCH_LEN * j + PATCH_LEN);
        lemma_patches_of_parse(s, p, j);
        let ps = patches_at(s, p, n);
        assert(ps.drop_last() =~= patches_at(s, p, j));
        let q = p + PATCH_LEN * j;
        let last = patch_at(s, q);
        assert(ps.last() == last);
        assert(le32(read32(s, q)) == s.subrange(q, q + 4));
        assert(le32(read32(s, q + 4)) == s.subrange(q + 4, q + 8));
        assert(le32(read32(s, q + 8)) == s.subrange(q + 8, q + 12));
        assert(enc_patch(last) =~= s.subrange(q, q + PATCH_LEN));
        assert(s.subrange(p, p + PATCH_LEN * n) =~= s.subrange(p, q) + s.subrange(q, q + PATCH_LEN));
    }
}

proof fn lemma_levels_of_parse(s: Seq<u8>, p: int, n: nat)
    requires
        0 <= p <= s.len(),
        parse_levels(s, p, n) is Some,
    ensures
        ({
            let (ls, q) = parse_levels(s, p, n)->Some_0;
            &&& ls.len() == n
            &&& levels_wf(ls)
            &&& p <= q <= s.len()
            &&& enc_levels(ls) == s.subrange(p, q)
        }),
    decreases n,
{
    lemma_le_facts();
    if n == 0 {
        assert(s.subrange(p, p) =~= seq![]);
    } else {
        let j = (n - 1) as nat;
        lemma_levels_of_parse(s, p, j);
        let (ls0, q0) = parse_levels(s, p, j)->Some_0;
        let count = read32(s, q0 + 4) as nat;
        let end = q0 + 8 + PATCH_LEN * count;
        let lv = LevelView { scale: read32(s, q0), patches: patches_at(s, q0 + 8, count) };
        let ls = ls0.push(lv);
        lemma_patches_of_parse(s, q0 + 8, count);
        assert(ls.drop_last() =~= ls0);
        assert(le32(read32(s, q0)) == s.subrange(q0, q0 + 4));
        assert(le32(read32(s, q0 + 4)) == s.subrange(q0 + 4, q0 + 8));
        assert(lv.patches.len() == count);
        assert(enc_level(lv) =~= s.subrange(q0, end));
        assert(s.subrange(p, end) =~= s.subrange(p, q0) + s.subrange(q0, end));
        assert(levels_wf(ls)) by {
            assert forall|i: int| 0 <= i < ls.len() implies (#[trigger] ls[i]).patches.len()
                <= u32::MAX by {
                if i < j {
                    assert(ls[i] == ls0[i]);
                }
            }
            assert forall|i: int, k: int|
                0 <= i < ls.len() && 0 <= k < ls[i].patches.len() implies (
                #[trigger] ls[i].patches[k]).template.len() == PATCH_AREA by {
                if i < j {
                    assert(ls[i] == ls0[i]);
                }
            }
        }
    }
}

/// Whatever reads successfully is a well-formed marker whose encoding is
/// exactly the input: the format has one byte string per marker.
pub proof fn lemma_marker_canonical(s: Seq<u8>)
    requires
        parse_marker(s) is Ok,
    ensures
        marker_wf(parse_marker(s)->Ok_0),
        encode_marker(parse_marker(s)->Ok_0) == s,
{
    lemma_le_facts();
    let m = parse_marker(s)->Ok_0;
    let n = read32(s, 16) as nat;
    let p = HEADER_LEN + FEATURE_LEN * n;
    let nl = read32(s, p) as nat;
    lemma_levels_of_parse(s, p + 4, nl);
    lemma_features_of_parse(s, n, n);
    assert(m.positions.len() == n);
    assert(m.descriptors.len() == n);
    assert(min_nat(n, n) == n);
    assert(s.subrange(0, 4) == magic());
    assert(le32(read32(s, 4)) == s.subrange(4, 8));
    assert(le32(read32(s, 8)) == s.subrange(8, 12));
    assert(le32(read32(s, 12)) == s.subrange(12, 16));
    assert(le32(read32(s, 16)) == s.subrange(16, 20));
    assert(le32(read32(s, p)) == s.subrange(p, p + 4));
    assert((n as u32) == read32(s, 16));
    assert((nl as u32) == read32(s, p));
    assert(encode_marker(m) =~= s.subrange(0, 4) + s.subrange(4, 8) + s.subrange(8, 12) + s.subrange(
        12,
        16,
    ) + s.subrange(16, 20) + s.subrange(HEADER_LEN as int, p) + s.subrange(p, p + 4) + s.subrange(
        p + 4,
        s.len() as int,
    ));
    assert(encode_marker(m) =~= s);
    assert forall|i: int| 0 <= i < m.descriptors.len() implies (#[trigger] m.descriptors[i]).len()
        == 4 by {
    }
}

/// Reading levels only looks at the bytes it needs: a longer buffer with the
/// same prefix reads the same levels.
proof fn lemma_parse_levels_extend(t: Seq<u8>, s: Seq<u8>, p: int, n: nat)
    requires
        0 <= p <= t.len(),
        t.len() <= s.len(),
        t == s.subrange(0, t.len() as int),
        parse_levels(t, p, n) is Some,
    ensures
        parse_levels(s, p, n) == parse_levels(t, p, n),
    decreases n,
{
    if n > 0 {
        let j = (n - 1) as nat;
        lemma_parse_levels_extend(t, s, p, j);
        let (ls0, q0) = parse_levels(t, p, j)->Some_0;
        lemma_levels_of_parse(t, p, j);
        assert(q0 + 8 <= t.len());
        assert(t.subrange(q0, q0 + 4) =~= s.subrange(q0, q0 + 4));
        assert(t.subrange(q0 + 4, q0 + 8) =~= s.subrange(q0 + 4, q0 + 8));
        let count = read32(t, q0 + 4) as nat;
        assert(read32(s, q0 + 4) as nat == count);
        assert(q0 + 8 + PATCH_LEN * count <= t.len());
        assert forall|i: int| 0 <= i < count implies #[trigger] patches_at(t, q0 + 8, count)[i]
            == patches_at(s, q0 + 8, count)[i] by {
            let a = q0 + 8 + PATCH_LEN * i;
            assert(PATCH_LEN * i + PATCH_LEN <= PATCH_LEN * count) by (nonlinear_arith)
                requires
                    i < count,
            ;
            assert(0 <= PATCH_LEN * i) by (nonlinear_arith)
                requires
                    0 <= i,
            ;
            assert(t.subrange(a, a + 4) =~= s.subrange(a, a + 4));
            assert(t.subrange(a + 4, a + 8) =~= s.subrange(a + 4, a + 8));
            assert(t.subrange(a + 8, a + 12) =~= s.subrange(a + 8, a + 12));
            assert(t.subrange(a + 12, a + 12 + PATCH_AREA) =~= s.subrange(a + 12, a + 12 + PATCH_AREA));
        }
        assert(patches_at(t, q0 + 8, count) =~= patches_at(s, q0 + 8, count));
    }
}

/// Data appended after a complete marker is rejected as trailing bytes.
pub proof fn lemma_marker_trailing_rejected(m: MarkerView, extra: Seq<u8>)
    requires
        marker_wf(m),
        extra.len() > 0,
    ensures
        parse_marker(encode_marker(m) + extra) == Err::<MarkerView, MarkerError>(
            MarkerError::TrailingBytes,
        ),
{
    lemma_le_facts();
    let t = encode_marker(m);
    let s = t + extra;
    lemma_marker_roundtrip(m);
    assert(t =~= s.subrange(0, t.len() as int));
    let n = read32(t, 16) as nat;
    let p = HEADER_LEN + FEATURE_LEN * n;
    assert(t.subrange(0, 4) =~= s.subrange(0, 4));
    assert(t.subrange(4, 8) =~= s.subrange(4, 8));
    assert(t.subrange(16, 20) =~= s.subrange(16, 20));
    assert(p + 4 <= t.len());
    assert(t.subrange(p, p + 4) =~= s.subrange(p, p + 4));
    lemma_parse_levels_extend(t, s, p + 4, read32(t, p) as nat);
}

/// Every proper prefix of a marker's bytes is rejected.
pub proof fn lemma_marker_truncation_rejected(m: MarkerView, k: int)
    requires
        marker_wf(m),
        0 <= k < encode_marker(m).len(),
    ensures
        parse_marker(encode_marker(m).subrange(0, k)) is Err,
{
    let s = encode_marker(m);
    let t = s.subrange(0, k);
    if parse_marker(t) is Ok {
        lemma_marker_canonical(t);
        let m2 = parse_marker(t)->Ok_0;
        assert(encode_marker(m2) == t);
        let extra = s.subrange(k, s.len() as int);
        assert(t + extra =~= s);
        lemma_marker_trailing_rejected(m2, extra);
        lemma_marker_roundtrip(m);
        assert(false);
    }
}

/// The inputs that read successfully are exactly the encodings of
/// well-formed markers.
pub proof fn lemma_marker_ok_iff(s: Seq<u8>)
    ensures
        (parse_marker(s) is Ok) == (exists|m: MarkerView| marker_wf(m) && encode_marker(m) == s),
{
    if parse_marker(s) is Ok {
        lemma_marker_canonical(s);
        let m = parse_marker(s)->Ok_0;
        assert(marker_wf(m) && encode_marker(m) == s);
    }
    if exists|m: MarkerView| marker_wf(m) && encode_marker(m) == s {
        let m = choose|m: MarkerView| marker_wf(m) && encode_marker(m) == s;
        lemma_marker_roundtrip(m);
    }
}

// ------------------------------------------------------------ pack files

/// Errors reading a `.tracear` file that may be a single marker or a pack.
#[derive(Clone, Copy, Debug, PartialEq, Eq, Structural)]
pub enum LoadError {
    /// A single-marker file that does not read.
    Marker(MarkerError),
    /// Neither "TRCR" nor a complete "TRPK" header.
    BadMagic,
    /// A pack version other than 1.
    UnsupportedPackVersion(u32),
    /// The length table runs past the end of the data.
    TableTruncated,
    /// The entries do not exactly fill the rest of the data.
    BodyLengthMismatch,
    /// Entry `i` of the pack does not read.
    Entry(usize, MarkerError),
}

/// The length table of a pack.
pub open spec fn enc_lengths(bs: Seq<Seq<u8>>) -> Seq<u8>
    decreases bs.len(),
{
    if bs.len() == 0 {
        seq![]
    } else {
        enc_lengths(bs.drop_last()) + le32(bs.last().len() as u32)
    }
}

/// The blobs back to back.
pub open spec fn concat(bs: Seq<Seq<u8>>) -> Seq<u8>
    decreases bs.len(),
{
    if bs.len() == 0 {
        seq![]
    } else {
        concat(bs.drop_last()) + bs.last()
    }
}

/// "TRPK" | version | count | lengths | blobs (counts and lengths as `u32`).
pub open spec fn encode_pack(bs: Seq<Seq<u8>>) -> Seq<u8> {
    pack_magic() + le32(PACK_VERSION) + le32(bs.len() as u32) + enc_lengths(bs) + concat(bs)
}

/// Sum of the first `k` lengths.
pub open spec fn sum_upto(lens: Seq<nat>, k: nat) -> nat
    decreases k,
{
    if k == 0 {
        0
    } else {
        sum_upto(lens, (k - 1) as nat) + lens[k - 1]
    }
}

/// Reads the first `k` pack entries whose lengths are `lens`, starting at `start`.
pub open spec fn parse_entries(s: Seq<u8>, start: int, lens: Seq<nat>, k: nat) -> Result<
    Seq<MarkerView>,
    LoadError,
>
    decreases k,
{
    if k == 0 {
        Ok(seq![])
    } else {
        match parse_entries(s, start, lens, (k - 1) as nat) {
            Err(e) => Err(e),
            Ok(ms) => {
                let off = start + sum_upto(lens, (k - 1) as nat);
                match parse_marker(s.subrange(off, off + lens[k - 1])) {
                    Ok(m) => Ok(ms.push(m)),
                    Err(e) => Err(LoadError::Entry((k - 1) as usize, e)),
                }
            },
        }
    }
}

/// The length table entries of a pack with `count` entries.
pub open spec fn pack_lengths(s: Seq<u8>, count: nat) -> Seq<nat> {
    Seq::new(count, |i: int| read32(s, 12 + 4 * i) as nat)
}

/// How a `.tracear` file that may be a single marker or a pack is read.
pub open spec fn parse_all(s: Seq<u8>) -> Result<Seq<MarkerView>, LoadError> {
    if s.len() >= 4 && s.subrange(0, 4) == magic() {
        match parse_marker(s) {
            Ok(m) => Ok(seq![m]),
            Err(e) => Err(LoadError::Marker(e)),
        }
    } else if s.len() < 12 || s.subrange(0, 4) != pack_magic() {
        Err(LoadError::BadMagic)
    } else if read32(s, 4) != PACK_VERSION {
        Err(LoadError::UnsupportedPackVersion(read32(s, 4)))
    } else {
        let count = read32(s, 8) as nat;
        let table_end = 12 + 4 * count;
        if s.len() < table_end {
            Err(LoadError::TableTruncated)
        } else {
            let lens = pack_lengths(s, count);
            if s.len() != table_end + sum_upto(lens, count) {
                Err(LoadError::BodyLengthMismatch)
            } else {
                parse_entries(s, table_end as int, lens, count)
            }
        }
    }
}

/// Bundles single-marker blobs into one pack file (pure concatenation; the
/// blobs are not re-encoded).
pub fn pack_markers(blobs: &[Vec<u8>]) -> (out: Vec<u8>)
    ensures
        out@ == encode_pack(blobs@.map_values(|b: Vec<u8>| b@)),
{
    let ghost bs = blobs@.map_values(|b: Vec<u8>| b@);
    let mut out: Vec<u8> = Vec::new();
    out.push(0x54u8);
    out.push(0x52u8);
    out.push(0x50u8);
    out.push(0x4Bu8);
    assert(out@ =~= pack_magic());
    push_u32(&mut out, PACK_VERSION);
    push_u32(&mut out, blobs.len() as u32);
    let ghost header = out@;
    let mut i: usize = 0;
    while i < blobs.len()
        invariant
            bs == blobs@.map_values(|b: Vec<u8>| b@),
            i <= blobs@.len(),
            out@ == header + enc_lengths(bs.take(i as int)),
        decreases blobs@.len() - i,
    {
        push_u32(&mut out, blobs[i].len() as u32);
        proof {
            assert(bs.take(i + 1).drop_last() =~= bs.take(i as int));
            assert(bs.take(i + 1).last() == blobs@[i as int]@);
        }
        i = i + 1;
    }
    assert(bs.take(i as int) =~= bs);
    let ghost table = out@;
    let mut j: usize = 0;
    while j < blobs.len()
        invariant
            bs == blobs@.map_values(|b: Vec<u8>| b@),
            j <= blobs@.len(),
            out@ == table + concat(bs.take(j as int)),
        decreases blobs@.len() - j,
    {
        let mut b = blobs[j].clone();
        assert(b@ =~= blobs@[j as int]@);
        out.append(&mut b);
        proof {
            assert(bs.take(j + 1).drop_last() =~= bs.take(j as int));
            assert(bs.take(j + 1).last() == blobs@[j as int]@);
            assert(out@ =~= table + concat(bs.take(j + 1)));
        }
        j = j + 1;
    }
    assert(bs.take(j as int) =~= bs);
    out
}

proof fn lemma_sum_upto_mono(lens: Seq<nat>, k: nat, n: nat)
    requires
        k <= n,
    ensures
        sum_upto(lens, k) <= sum_upto(lens, n),
    decreases n,
{
    if k < n {
        lemma_sum_upto_mono(lens, k, (n - 1) as nat);
    }
}

proof fn lemma_parse_entries_err(s: Seq<u8>, start: int, lens: Seq<nat>, k: nat, n: nat)
    requires
        k <= n,
        parse_entries(s, start, lens, k) is Err,
    ensures
        parse_entries(s, start, lens, n) == parse_entries(s, start, lens, k),
    decreases n,
{
    if k < n {
        lemma_parse_entries_err(s, start, lens, k, (n - 1) as nat);
    }
}

/// Reads a `.tracear` file that may hold a single marker or a pack, giving
/// the markers in file order.
#[verifier::spinoff_prover]
pub fn load_all(bytes: &[u8]) -> (res: Result<Vec<CompiledMarker>, LoadError>)
    ensures
        match res {
            Ok(ms) => parse_all(bytes@) == Ok::<Seq<MarkerView>, LoadError>(
                ms@.map_values(|m: CompiledMarker| m@),
            ),
            Err(e) => parse_all(bytes@) == Err::<Seq<MarkerView>, LoadError>(e),
        },
{
    let ghost s = bytes@;
    let len = bytes.len();
    if len >= 4 && bytes[0] == 0x54u8 && bytes[1] == 0x52u8 && bytes[2] == 0x43u8 && bytes[3]
        == 0x52u8 {
        assert(s.subrange(0, 4) =~= magic());
        match CompiledMarker::from_bytes(bytes) {
            Ok(m) => {
                let mut v: Vec<CompiledMarker> = Vec::new();
                v.push(m);
                assert(v@.map_values(|m: CompiledMarker| m@) =~= seq![m@]);
                return Ok(v);
            },
            Err(e) => {
                return Err(LoadError::Marker(e));
            },
        }
    }
    proof {
        if s.len() >= 4 && s.subrange(0, 4) == magic() {
            assert(s.subrange(0, 4)[0] == s[0]);
            assert(s.subrange(0, 4)[1] == s[1]);
            assert(s.subrange(0, 4)[2] == s[2]);
            assert(s.subrange(0, 4)[3] == s[3]);
        }
    }
    if len < 12 || bytes[0] != 0x54u8 || bytes[1] != 0x52u8 || bytes[2] != 0x50u8 || bytes[3]
        != 0x4Bu8 {
        proof {
            if s.len() >= 12 && s.subrange(0, 4) == pack_magic() {
                assert(s.subrange(0, 4)[0] == s[0]);
                assert(s.subrange(0, 4)[1] == s[1]);
                assert(s.subrange(0, 4)[2] == s[2]);
                assert(s.subrange(0, 4)[3] == s[3]);
            }
        }
        return Err(LoadError::BadMagic);
    }
    assert(s.subrange(0, 4) =~= pack_magic());
    let version = read_u32_at(bytes, 4);
    if version != PACK_VERSION {
        return Err(LoadError::UnsupportedPackVersion(version));
    }
    let count32 = read_u32_at(bytes, 8);
    let count = count32 as usize;
    let ghost lens_spec = pack_lengths(s, count as nat);
    assert(count as nat == read32(s, 8) as nat);
    if (len - 12) / 4 < count {
        proof {
            assert(12 + 4 * count > len) by (nonlinear_arith)
                requires
                    (len - 12) / 4int < count,
                    len >= 12,
            ;
        }
        return Err(LoadError::TableTruncated);
    }
    proof {
        assert(12 + 4 * count <= len) by (nonlinear_arith)
            requires
                (len - 12) / 4int >= count,
                len >= 12,
        ;
    }
    let table_end = 12 + 4 * count;
    let avail = len - table_end;
    let mut lens: Vec<usize> = Vec::new();
    let mut total: usize = 0;
    let mut i: usize = 0;
    while i < count
        invariant
            s == bytes@,
            len == s.len(),
            !(s.len() >= 4 && s.subrange(0, 4) == magic()),
            s.len() >= 12 && s.subrange(0, 4) == pack_magic(),
            read32(s, 4) == PACK_VERSION,
            count as nat == read32(s, 8) as nat,
            table_end == 12 + 4 * count,
            table_end <= len,
            avail == len - table_end,
            lens_spec == pack_lengths(s, count as nat),
            i <= count,
            lens@.len() == i,
            forall|k: int| 0 <= k < i ==> lens@[k] as nat == lens_spec[k],
            total == sum_upto(lens_spec, i as nat),
            total <= avail,
        decreases count - i,
    {
        let l = read_u32_at(bytes, 12 + 4 * i) as usize;
        if l > avail - total {
            proof {
                assert(sum_upto(lens_spec, (i + 1) as nat) == total + l);
                lemma_sum_upto_mono(lens_spec, (i + 1) as nat, count as nat);
            }
            return Err(LoadError::BodyLengthMismatch);
        }
        total = total + l;
        lens.push(l);
        i = i + 1;
    }
    if total != avail {
        return Err(LoadError::BodyLengthMismatch);
    }
    let mut out: Vec<CompiledMarker> = Vec::new();
    assert(out@.map_values(|m: CompiledMarker| m@) =~= Seq::<MarkerView>::empty());
    let mut pos: usize = table_end;
    let mut j: usize = 0;
    while j < count
        invariant
            s == bytes@,
            len == s.len(),
            !(s.len() >= 4 && s.subrange(0, 4) == magic()),
            s.len() >= 12 && s.subrange(0, 4) == pack_magic(),
            read32(s, 4) == PACK_VERSION,
            count as nat == read32(s, 8) as nat,
            table_end == 12 + 4 * count,
            len == table_end + sum_upto(lens_spec, count as nat),
            lens_spec == pack_lengths(s, count as nat),
            lens@.len() == count,
            forall|k: int| 0 <= k < count ==> lens@[k] as nat == lens_spec[k],
            j <= count,
            pos == table_end + sum_upto(lens_spec, j as nat),
            parse_entries(s, table_end as int, lens_spec, j as nat) == Ok::<
                Seq<MarkerView>,
                LoadError,
            >(out@.map_values(|m: CompiledMarker| m@)),
        decreases count - j,
    {
        let l = lens[j];
        proof {
            lemma_sum_upto_mono(lens_spec, (j + 1) as nat, count as nat);
        }
        let sub = slice_subrange(bytes, pos, pos + l);
        match CompiledMarker::from_bytes(sub) {
            Ok(m) => {
                let ghost before = out@;
                out.push(m);
                assert(out@.map_values(|m: CompiledMarker| m@) =~= before.map_values(
                    |m: CompiledMarker| m@,
                ).push(m@));
            },
            Err(e) => {
                proof {
                    assert(sub@ == s.subrange(pos as int, pos + lens_spec[j as int]));
                    assert(parse_entries(s, table_end as int, lens_spec, (j + 1) as nat) == Err::<
                        Seq<MarkerView>,
                        LoadError,
                    >(LoadError::Entry(j, e)));
                    lemma_parse_entries_err(
                        s,
                        table_end as int,
                        lens_spec,
                        (j + 1) as nat,
                        count as nat,
                    );
                }
                return Err(LoadError::Entry(j, e));
            },
        }
        pos = pos + l;
        j = j + 1;
    }
    Ok(out)
}

// ------------------------------------------------------------- pack laws

/// The blob lengths of a pack, as naturals.
pub open spec fn blob_lengths(bs: Seq<Seq<u8>>) -> Seq<nat> {
    Seq::new(bs.len(), |i: int| bs[i].len())
}

/// Every count and length of the pack fits its `u32` field.
pub open spec fn pack_fits(bs: Seq<Seq<u8>>) -> bool {
    &&& bs.len() <= u32::MAX
    &&& forall|i: int| 0 <= i < bs.len() ==> #[trigger] bs[i].len() <= u32::MAX
}

proof fn lemma_enc_lengths_chunks(bs: Seq<Seq<u8>>)
    ensures
        enc_lengths(bs).len() == 4 * bs.len(),
        forall|k: int|
            0 <= k < bs.len() ==> #[trigger] enc_lengths(bs).subrange(4 * k, 4 * k + 4) == le32(
                bs[k].len() as u32,
            ),
    decreases bs.len(),
{
    lemma_le_facts();
    if bs.len() > 0 {
        let init = bs.drop_last();
        lemma_enc_lengths_chunks(init);
        let a = enc_lengths(init);
        let b = le32(bs.last().len() as u32);
        assert forall|k: int| 0 <= k < bs.len() implies #[trigger] enc_lengths(bs).subrange(
            4 * k,
            4 * k + 4,
        ) == le32(bs[k].len() as u32) by {
            if k < init.len() {
                assert(init[k] == bs[k]);
                lemma_concat_left(a, b, 4 * k, 4 * k + 4);
            } else {
                lemma_concat_right(a, b, 0, 4);
                assert(b.subrange(0, 4) =~= b);
            }
        }
    }
}

proof fn lemma_concat_chunks(bs: Seq<Seq<u8>>, lens: Seq<nat>)
    requires
        bs.len() <= lens.len(),
        forall|i: int| 0 <= i < bs.len() ==> lens[i] == #[trigger] bs[i].len(),
    ensures
        concat(bs).len() == sum_upto(lens, bs.len()),
        forall|k: int|
            0 <= k < bs.len() ==> #[trigger] concat(bs).subrange(
                sum_upto(lens, k as nat) as int,
                sum_upto(lens, (k + 1) as nat) as int,
            ) == bs[k],
    decreases bs.len(),
{
    if bs.len() > 0 {
        let init = bs.drop_last();
        let n = (bs.len() - 1) as nat;
        assert forall|i: int| 0 <= i < init.len() implies lens[i] == #[trigger] init[i].len() by {
            assert(init[i] == bs[i]);
        }
        lemma_concat_chunks(init, lens);
        let a = concat(init);
        let b = bs.last();
        assert forall|k: int| 0 <= k < bs.len() implies #[trigger] concat(bs).subrange(
            sum_upto(lens, k as nat) as int,
            sum_upto(lens, (k + 1) as nat) as int,
        ) == bs[k] by {
            if k < n {
                assert(init[k] == bs[k]);
                lemma_sum_upto_mono(lens, (k + 1) as nat, n);
                lemma_concat_left(
                    a,
                    b,
                    sum_upto(lens, k as nat) as int,
                    sum_upto(lens, (k + 1) as nat) as int,
                );
            } else {
                lemma_concat_right(a, b, 0, b.len() as int);
                assert(b.subrange(0, b.len() as int) =~= b);
            }
        }
    }
}

/// Where the parts of a pack sit.
proof fn lemma_pack_layout(bs: Seq<Seq<u8>>)
    requires
        pack_fits(bs),
    ensures
        ({
            let s = encode_pack(bs);
            let n = bs.len() as int;
            let lens = blob_lengths(bs);
            &&& s.len() == 12 + 4 * n + sum_upto(lens, bs.len())
            &&& s.subrange(0, 4) == pack_magic()
            &&& read32(s, 4) == PACK_VERSION
            &&& read32(s, 8) as nat == bs.len()
            &&& pack_lengths(s, bs.len()) == lens
            &&& forall|k: int|
                0 <= k < n ==> #[trigger] s.subrange(
                    12 + 4 * n + sum_upto(lens, k as nat),
                    12 + 4 * n + sum_upto(lens, (k + 1) as nat),
                ) == bs[k]
        }),
{
    lemma_le_facts();
    let s = encode_pack(bs);
    let n = bs.len() as int;
    let lens = blob_lengths(bs);
    let h = pack_magic() + le32(PACK_VERSION) + le32(n as u32);
    let t = enc_lengths(bs);
    let c = concat(bs);
    assert(s == h + t + c);
    assert(h.len() == 12);
    lemma_enc_lengths_chunks(bs);
    lemma_concat_chunks(bs, lens);
    assert(s.subrange(0, 4) =~= pack_magic());
    assert(s.subrange(4, 8) =~= le32(PACK_VERSION));
    assert(s.subrange(8, 12) =~= le32(n as u32));
    lemma_read32_at(s, 4, PACK_VERSION);
    lemma_read32_at(s, 8, n as u32);
    assert(s.subrange(12, 12 + 4 * n) =~= t);
    assert forall|k: int| 0 <= k < n implies #[trigger] pack_lengths(s, bs.len())[k] == lens[k] by {
        lemma_sub_sub(s, 12, 12 + 4 * n, 4 * k, 4 * k + 4);
        lemma_read32_at(s, 12 + 4 * k, bs[k].len() as u32);
    }
    assert(pack_lengths(s, bs.len()) =~= lens);
    assert(s.subrange(12 + 4 * n, s.len() as int) =~= c);
    assert forall|k: int| 0 <= k < n implies #[trigger] s.subrange(
        12 + 4 * n + sum_upto(lens, k as nat),
        12 + 4 * n + sum_upto(lens, (k + 1) as nat),
    ) == bs[k] by {
        lemma_sum_upto_mono(lens, k as nat, (k + 1) as nat);
        lemma_sum_upto_mono(lens, (k + 1) as nat, bs.len());
        lemma_sub_sub(
            s,
            12 + 4 * n,
            s.len() as int,
            sum_upto(lens, k as nat) as int,
            sum_upto(lens, (k + 1) as nat) as int,
        );
    }
}

/// Packing markers and loading the pack gives the markers back, in order.
pub proof fn lemma_pack_roundtrip(ms: Seq<MarkerView>)
    requires
        ms.len() <= u32::MAX,
        forall|i: int| 0 <= i < ms.len() ==> #[trigger] marker_wf(ms[i]),
        forall|i: int| 0 <= i < ms.len() ==> #[trigger] encode_marker(ms[i]).len() <= u32::MAX,
    ensures
        parse_all(encode_pack(ms.map_values(|m: MarkerView| encode_marker(m)))) == Ok::<
            Seq<MarkerView>,
            LoadError,
        >(ms),
{
    let bs = ms.map_values(|m: MarkerView| encode_marker(m));
    assert(pack_fits(bs)) by {
        assert forall|i: int| 0 <= i < bs.len() implies #[trigger] bs[i].len() <= u32::MAX by {
            assert(encode_marker(ms[i]).len() <= u32::MAX);
        }
    }
    lemma_pack_layout(bs);
    let s = encode_pack(bs);
    let n = bs.len();
    let lens = blob_lengths(bs);
    let te = 12 + 4 * (n as int);
    assert(s.subrange(0, 4) != magic()) by {
        assert(s.subrange(0, 4)[2] != magic()[2]);
    }
    assert forall|k: nat| k <= n implies #[trigger] parse_entries(s, te, lens, k) == Ok::<
        Seq<MarkerView>,
        LoadError,
    >(ms.take(k as int)) by {
        lemma_pack_entries_ok(s, te, lens, ms, k);
    }
    assert(ms.take(n as int) =~= ms);
    assert(parse_entries(s, te, lens, n) == Ok::<Seq<MarkerView>, LoadError>(ms.take(n as int)));
}

proof fn lemma_pack_entries_ok(s: Seq<u8>, te: int, lens: Seq<nat>, ms: Seq<MarkerView>, k: nat)
    requires
        k <= ms.len(),
        lens.len() == ms.len(),
        forall|i: int| 0 <= i < ms.len() ==> #[trigger] marker_wf(ms[i]),
        forall|i: int|
            0 <= i < ms.len() ==> #[trigger] s.subrange(
                te + sum_upto(lens, i as nat),
                te + sum_upto(lens, (i + 1) as nat),
            ) == encode_marker(ms[i]),
    ensures
        parse_entries(s, te, lens, k) == Ok::<Seq<MarkerView>, LoadError>(ms.take(k as int)),
    decreases k,
{
    if k > 0 {
        let j = (k - 1) as nat;
        lemma_pack_entries_ok(s, te, lens, ms, j);
        assert(s.subrange(te + sum_upto(lens, j), te + sum_upto(lens, j + 1)) == encode_marker(
            ms[j as int],
        ));
        lemma_marker_roundtrip(ms[j as int]);
        assert(ms.take(j as int).push(ms[j as int]) =~= ms.take(k as int));
    } else {
        assert(ms.take(0) =~= Seq::<MarkerView>::empty());
    }
}

/// A single-marker file loads as that one marker.
pub proof fn lemma_load_single(m: MarkerView)
    requires
        marker_wf(m),
    ensures
        parse_all(encode_marker(m)) == Ok::<Seq<MarkerView>, LoadError>(seq![m]),
{
    lemma_marker_roundtrip(m);
    let s = encode_marker(m);
    assert(s.subrange(0, 4) =~= magic());
}

/// Bytes that start like a pack read the same header and length table.
proof fn lemma_pack_prefix_fields(bs: Seq<Seq<u8>>, t: Seq<u8>, k: int)
    requires
        pack_fits(bs),
        12 <= k <= t.len(),
        k <= encode_pack(bs).len(),
        t.subrange(0, k) == encode_pack(bs).subrange(0, k),
    ensures
        t.subrange(0, 4) == pack_magic(),
        t.subrange(0, 4) != magic(),
        read32(t, 4) == PACK_VERSION,
        read32(t, 8) as nat == bs.len(),
        k >= 12 + 4 * bs.len() ==> pack_lengths(t, bs.len()) == blob_lengths(bs),
{
    let s = encode_pack(bs);
    lemma_pack_layout(bs);
    lemma_sub_sub(t, 0, k, 0, 4);
    lemma_sub_sub(s, 0, k, 0, 4);
    lemma_sub_sub(t, 0, k, 4, 8);
    lemma_sub_sub(s, 0, k, 4, 8);
    lemma_sub_sub(t, 0, k, 8, 12);
    lemma_sub_sub(s, 0, k, 8, 12);
    assert(t.subrange(0, 4)[2] != magic()[2]);
    if k >= 12 + 4 * bs.len() {
        assert forall|i: int| 0 <= i < bs.len() implies #[trigger] pack_lengths(t, bs.len())[i]
            == pack_lengths(s, bs.len())[i] by {
            lemma_sub_sub(t, 0, k, 12 + 4 * i, 16 + 4 * i);
            lemma_sub_sub(s, 0, k, 12 + 4 * i, 16 + 4 * i);
        }
        assert(pack_lengths(t, bs.len()) =~= pack_lengths(s, bs.len()));
    }
}

/// A pack with bytes appended is refused as a length mismatch.
pub proof fn lemma_pack_trailing_rejected(bs: Seq<Seq<u8>>, extra: Seq<u8>)
    requires
        pack_fits(bs),
        extra.len() > 0,
    ensures
        parse_all(encode_pack(bs) + extra) == Err::<Seq<MarkerView>, LoadError>(
            LoadError::BodyLengthMismatch,
        ),
{
    let s = encode_pack(bs);
    let t = s + extra;
    lemma_pack_layout(bs);
    assert(t.subrange(0, s.len() as int) =~= s.subrange(0, s.len() as int));
    lemma_pack_prefix_fields(bs, t, s.len() as int);
}

/// Every proper prefix of a pack is refused.
pub proof fn lemma_pack_truncation_rejected(bs: Seq<Seq<u8>>, k: int)
    requires
        pack_fits(bs),
        0 <= k < encode_pack(bs).len(),
    ensures
        parse_all(encode_pack(bs).subrange(0, k)) is Err,
{
    let s = encode_pack(bs);
    let t = s.subrange(0, k);
    lemma_pack_layout(bs);
    if k >= 12 {
        assert(t.subrange(0, k) =~= s.subrange(0, k));
        lemma_pack_prefix_fields(bs, t, k);
    }
}

// ------------------------------------------------------- tracking templates

/// The template around `(cx, cy)`: sample `dy * PATCH_SIZE + dx` is the
/// pixel at `(cx + dx - 10, cy + dy - 10)`.
pub open spec fn template_at(img: ImageView, cx: int, cy: int) -> Seq<u8> {
    Seq::new(
        PATCH_AREA as nat,
        |i: int| img.px(cx + i % (PATCH_SIZE as int) - 10, cy + i / (PATCH_SIZE as int) - 10),
    )
}

/// Copies the `PATCH_SIZE x PATCH_SIZE` template centered on `(cx, cy)`
/// (row-major).
pub fn crop_template(img: &GrayImage, cx: usize, cy: usize) -> (t: Vec<u8>)
    requires
        img@.wf(),
        10 <= cx,
        cx + 10 < img.w,
        10 <= cy,
        cy + 10 < img.h,
    ensures
        t@ == template_at(img@, cx as int, cy as int),
{
    let mut t: Vec<u8> = Vec::new();
    let mut dy: usize = 0;
    while dy < PATCH_SIZE
        invariant
            img@.wf(),
            10 <= cx,
            cx + 10 < img.w,
            10 <= cy,
            cy + 10 < img.h,
            dy <= PATCH_SIZE,
            t@ == template_at(img@, cx as int, cy as int).take(dy * PATCH_SIZE),
        decreases PATCH_SIZE - dy,
    {
        let mut dx: usize = 0;
        while dx < PATCH_SIZE
            invariant
                img@.wf(),
                10 <= cx,
                cx + 10 < img.w,
                10 <= cy,
                cy + 10 < img.h,
                dy < PATCH_SIZE,
                dx <= PATCH_SIZE,
                t@ == template_at(img@, cx as int, cy as int).take(dy * PATCH_SIZE + dx),
            decreases PATCH_SIZE - dx,
        {
            let v = img.at(cx - 10 + dx, cy - 10 + dy);
            let ghost i = dy * PATCH_SIZE + dx;
            proof {
                vstd::arithmetic::div_mod::lemma_fundamental_div_mod_converse(
                    i as int,
                    PATCH_SIZE as int,
                    dy as int,
                    dx as int,
                );
            }
            t.push(v);
            assert(t@ =~= template_at(img@, cx as int, cy as int).take(i + 1));
            dx = dx + 1;
        }
        dy = dy + 1;
    }
    assert(t@ =~= template_at(img@, cx as int, cy as int));
    t
}

} // verus!
