//! Hamming distance between 256-bit binary descriptors, nearest-neighbour
//! search, and the one-match-per-marker-feature rule of the matcher.

use vstd::prelude::*;
use vstd::arithmetic::power2::{pow2, lemma_pow2_unfold, lemma2_to64};
use crate::brief::Descriptor;

verus! {

/// Number of set bits of `x`.
pub open spec fn popcount(x: u64) -> nat
    decreases x,
{
    if x == 0 {
        0
    } else {
        (x % 2) as nat + popcount(x / 2)
    }
}

/// Number of bit positions in which `a` and `b` differ.
pub open spec fn desc_distance(a: Seq<u64>, b: Seq<u64>) -> nat {
    popcount(a[0] ^ b[0]) + popcount(a[1] ^ b[1]) + popcount(a[2] ^ b[2]) + popcount(a[3] ^ b[3])
}

/// A value below `2^n` has at most `n` set bits.
pub proof fn lemma_popcount_bound(x: u64, n: nat)
    requires
        x < pow2(n),
    ensures
        popcount(x) <= n,
    decreases n,
{
    if x != 0 {
        if n == 0 {
            lemma2_to64();
        } else {
            lemma_pow2_unfold(n);
            lemma_popcount_bound(x / 2, (n - 1) as nat);
        }
    }
}

/// Number of set bits of `x`.
pub fn count_ones(x: u64) -> (c: u32)
    ensures
        c == popcount(x),
        c <= 64,
{
    proof {
        lemma2_to64();
        lemma_popcount_bound(x, 64);
    }
    let mut v = x;
    let mut c: u32 = 0;
    while v != 0
        invariant
            c + popcount(v) == popcount(x),
            popcount(x) <= 64,
        decreases v,
    {
        proof {
            assert((v & 1) == v % 2 && (v >> 1u64) == v / 2) by (bit_vector);
        }
        c = c + (v & 1) as u32;
        v = v >> 1u64;
    }
    c
}

/// Hamming distance: the number of differing bits of two descriptors.
pub fn hamming(a: &Descriptor, b: &Descriptor) -> (d: u32)
    ensures
        d == desc_distance(a@, b@),
        d <= 256,
{
    count_ones(a[0] ^ b[0]) + count_ones(a[1] ^ b[1]) + count_ones(a[2] ^ b[2]) + count_ones(
        a[3] ^ b[3],
    )
}

/// A descriptor is at distance 0 from itself.
pub proof fn lemma_distance_self(a: Seq<u64>)
    requires
        a.len() == 4,
    ensures
        desc_distance(a, a) == 0,
{
    assert forall|w: u64| #[trigger] (w ^ w) == 0 by {
        assert(w ^ w == 0) by (bit_vector);
    }
}

/// The Hamming distance is symmetric.
pub proof fn lemma_distance_symmetric(a: Seq<u64>, b: Seq<u64>)
    requires
        a.len() == 4,
        b.len() == 4,
    ensures
        desc_distance(a, b) == desc_distance(b, a),
{
    assert forall|x: u64, y: u64| #[trigger] (x ^ y) == y ^ x by {
        assert(x ^ y == y ^ x) by (bit_vector);
    }
}

/// Bit `j` of `x` is set.
pub open spec fn bit64(x: u64, j: int) -> bool {
    (x >> (j as u64)) & 1 == 1
}

/// Number of positions `j < m` at which `x` and `y` differ.
pub open spec fn differing_bits(x: u64, y: u64, m: int) -> nat
    decreases m,
{
    if m <= 0 {
        0
    } else {
        differing_bits(x, y, m - 1) + if bit64(x, m - 1) != bit64(y, m - 1) {
            1nat
        } else {
            0nat
        }
    }
}

/// Number of set bits of `x` among positions `j < m`.
pub open spec fn set_bits(x: u64, m: int) -> nat
    decreases m,
{
    if m <= 0 {
        0
    } else {
        set_bits(x, m - 1) + if bit64(x, m - 1) {
            1nat
        } else {
            0nat
        }
    }
}

proof fn lemma_set_bits_shift(x: u64, m: int)
    requires
        0 <= m < 64,
    ensures
        set_bits(x, m + 1) == (x % 2) as nat + set_bits(x / 2, m),
    decreases m,
{
    if m == 0 {
        assert((((x >> 0u64) & 1) == 1) == (x % 2 == 1)) by (bit_vector);
        assert(bit64(x, 0) == (((x >> 0u64) & 1) == 1));
        assert(x % 2 == 0 || x % 2 == 1);
        assert(set_bits(x, 1) == set_bits(x, 0) + if bit64(x, 0) {
            1nat
        } else {
            0nat
        });
        assert(set_bits(x / 2, 0) == 0);
    } else {
        lemma_set_bits_shift(x, m - 1);
        let mm = m as u64;
        assert(bit64(x, m) == bit64(x / 2, m - 1)) by {
            assert(((x >> mm) & 1) == (((x / 2) >> ((mm - 1) as u64)) & 1)) by (bit_vector)
                requires
                    1 <= mm < 64,
            ;
        }
    }
}

proof fn lemma_popcount_set_bits(x: u64)
    ensures
        popcount(x) == set_bits(x, 64),
    decreases x,
{
    if x != 0 {
        lemma_popcount_set_bits(x / 2);
        lemma_set_bits_shift(x, 63);
        let h = x / 2;
        assert(!bit64(h, 63)) by {
            assert((h >> 63u64) & 1 == 0) by (bit_vector)
                requires
                    h == x / 2,
            ;
        }
    } else {
        assert forall|j: int| 0 <= j < 64 implies !#[trigger] bit64(0, j) by {
            let jj = j as u64;
            assert((0u64 >> jj) & 1 == 0) by (bit_vector);
        }
        lemma_set_bits_zero(64);
    }
}

proof fn lemma_set_bits_zero(m: int)
    requires
        m <= 64,
        forall|j: int| 0 <= j < 64 ==> !#[trigger] bit64(0, j),
    ensures
        set_bits(0, m) == 0,
    decreases m,
{
    if m > 0 {
        lemma_set_bits_zero(m - 1);
    }
}

proof fn lemma_differing_is_xor(x: u64, y: u64, m: int)
    requires
        m <= 64,
    ensures
        differing_bits(x, y, m) == set_bits(x ^ y, m),
    decreases m,
{
    if m > 0 {
        lemma_differing_is_xor(x, y, m - 1);
        let j = (m - 1) as u64;
        assert(bit64(x ^ y, m - 1) == (bit64(x, m - 1) != bit64(y, m - 1))) by {
            assert((((x ^ y) >> j) & 1 == 1) == (((x >> j) & 1 == 1) != ((y >> j) & 1 == 1)))
                by (bit_vector)
                requires
                    j < 64,
            ;
        }
    }
}

/// The distance counts, word by word, the bit positions at which the two
/// descriptors differ.
pub proof fn lemma_distance_counts_differing_bits(a: Seq<u64>, b: Seq<u64>)
    requires
        a.len() == 4,
        b.len() == 4,
    ensures
        desc_distance(a, b) == differing_bits(a[0], b[0], 64) + differing_bits(a[1], b[1], 64)
            + differing_bits(a[2], b[2], 64) + differing_bits(a[3], b[3], 64),
{
    lemma_popcount_set_bits(a[0] ^ b[0]);
    lemma_popcount_set_bits(a[1] ^ b[1]);
    lemma_popcount_set_bits(a[2] ^ b[2]);
    lemma_popcount_set_bits(a[3] ^ b[3]);
    lemma_differing_is_xor(a[0], b[0], 64);
    lemma_differing_is_xor(a[1], b[1], 64);
    lemma_differing_is_xor(a[2], b[2], 64);
    lemma_differing_is_xor(a[3], b[3], 64);
}

proof fn lemma_popcount_zero(x: u64)
    requires
        popcount(x) == 0,
    ensures
        x == 0,
    decreases x,
{
    if x != 0 {
        if x % 2 == 0 {
            lemma_popcount_zero(x / 2);
        }
    }
}

/// Only equal descriptors are at distance 0.
pub proof fn lemma_distance_zero_iff_equal(a: Seq<u64>, b: Seq<u64>)
    requires
        a.len() == 4,
        b.len() == 4,
    ensures
        (desc_distance(a, b) == 0) <==> (a == b),
{
    if desc_distance(a, b) == 0 {
        assert forall|k: int| 0 <= k < 4 implies a[k] == b[k] by {
            lemma_popcount_zero(a[k] ^ b[k]);
            let (x, y) = (a[k], b[k]);
            assert(x ^ y == 0 ==> x == y) by (bit_vector);
        }
        assert(a =~= b);
    }
    if a == b {
        lemma_distance_self(a);
    }
}

proof fn lemma_popcount_xor_le(p: u64, q: u64)
    ensures
        popcount(p ^ q) <= popcount(p) + popcount(q),
    decreases p + q,
{
    if p != 0 || q != 0 {
        assert((p ^ q) / 2 == (p / 2) ^ (q / 2) && (p ^ q) % 2 <= p % 2 + q % 2) by (bit_vector);
        assert(p / 2 + q / 2 < p + q);
        lemma_popcount_xor_le(p / 2, q / 2);
    } else {
        assert(p ^ q == 0) by (bit_vector)
            requires
                p == 0,
                q == 0,
        ;
    }
}

/// The triangle inequality of the Hamming distance.
pub proof fn lemma_distance_triangle(a: Seq<u64>, b: Seq<u64>, c: Seq<u64>)
    requires
        a.len() == 4,
        b.len() == 4,
        c.len() == 4,
    ensures
        desc_distance(a, c) <= desc_distance(a, b) + desc_distance(b, c),
{
    assert forall|k: int| 0 <= k < 4 implies #[trigger] popcount(a[k] ^ c[k]) <= popcount(a[k] ^ b[k])
        + popcount(b[k] ^ c[k]) by {
        let (x, y, z) = (a[k], b[k], c[k]);
        assert(x ^ z == (x ^ y) ^ (y ^ z)) by (bit_vector);
        lemma_popcount_xor_le(x ^ y, y ^ z);
    }
}

/// A query feature matched to a marker ("train") feature.
#[derive(Clone, Copy, Debug)]
pub struct Match {
    pub query: u32,
    pub train: u32,
    pub distance: u32,
}

/// The nearest train descriptor to `q`: its index (the first one on ties)
/// and distance; `(0, u32::MAX)` when there is none.
pub fn nearest(q: &Descriptor, train: &[Descriptor]) -> (r: (usize, u32))
    ensures
        train@.len() == 0 ==> r == (0usize, u32::MAX),
        train@.len() > 0 ==> {
            &&& r.0 < train@.len()
            &&& r.1 == desc_distance(q@, train@[r.0 as int]@)
            &&& forall|i: int| 0 <= i < train@.len() ==> r.1 <= desc_distance(q@, #[trigger] train@[i]@)
            &&& forall|i: int| 0 <= i < r.0 ==> r.1 < desc_distance(q@, #[trigger] train@[i]@)
        },
{
    let mut best: u32 = u32::MAX;
    let mut best_i: usize = 0;
    let mut i: usize = 0;
    while i < train.len()
        invariant
            i <= train@.len(),
            i == 0 ==> best == u32::MAX && best_i == 0,
            i > 0 ==> best_i < i && best == desc_distance(q@, train@[best_i as int]@),
            forall|k: int| 0 <= k < i ==> best <= desc_distance(q@, #[trigger] train@[k]@),
            forall|k: int| 0 <= k < best_i ==> best < desc_distance(q@, #[trigger] train@[k]@),
        decreases train@.len() - i,
    {
        let d = hamming(q, &train[i]);
        if d < best {
            best = d;
            best_i = i;
        }
        i = i + 1;
    }
    (best_i, best)
}

/// The nearest train descriptor (as `nearest`) when it lies within
/// `max_dist`; `None` when every train descriptor is farther.
pub fn nearest_within(q: &Descriptor, train: &[Descriptor], max_dist: u32) -> (r: Option<(usize, u32)>)
    ensures
        r matches Some((i, d)) ==> {
            &&& d <= max_dist
            &&& train@.len() == 0 ==> i == 0 && d == u32::MAX
            &&& train@.len() > 0 ==> {
                &&& i < train@.len()
                &&& d == desc_distance(q@, train@[i as int]@)
                &&& forall|k: int| 0 <= k < train@.len() ==> d <= desc_distance(q@, #[trigger] train@[k]@)
                &&& forall|k: int| 0 <= k < i ==> d < desc_distance(q@, #[trigger] train@[k]@)
            }
        },
        r is None ==> {
            &&& train@.len() == 0 ==> u32::MAX > max_dist
            &&& forall|k: int| 0 <= k < train@.len() ==> desc_distance(q@, #[trigger] train@[k]@) > max_dist
        },
{
    let (i, d) = nearest(q, train);
    if d > max_dist {
        None
    } else {
        Some((i, d))
    }
}

/// Smallest distance from `q` to the train descriptors not marked in
/// `skip` (those in the best match's own neighbourhood); `u32::MAX` when
/// every one is skipped.
pub fn second_nearest(q: &Descriptor, train: &[Descriptor], skip: &[bool]) -> (d: u32)
    requires
        skip@.len() == train@.len(),
    ensures
        forall|i: int| 0 <= i < train@.len() && !skip@[i] ==> d <= desc_distance(q@, #[trigger] train@[i]@),
        d == u32::MAX || exists|i: int|
            0 <= i < train@.len() && !skip@[i] && d == desc_distance(q@, #[trigger] train@[i]@),
        (forall|i: int| 0 <= i < train@.len() ==> #[trigger] skip@[i]) ==> d == u32::MAX,
{
    let mut second: u32 = u32::MAX;
    let mut i: usize = 0;
    while i < train.len()
        invariant
            i <= train@.len(),
            skip@.len() == train@.len(),
            forall|k: int| 0 <= k < i && !skip@[k] ==> second <= desc_distance(q@, #[trigger] train@[k]@),
            second == u32::MAX || exists|k: int|
                0 <= k < i && !skip@[k] && second == desc_distance(q@, #[trigger] train@[k]@),
            (forall|k: int| 0 <= k < i ==> #[trigger] skip@[k]) ==> second == u32::MAX,
        decreases train@.len() - i,
    {
        if !skip[i] {
            let d = hamming(q, &train[i]);
            if d < second {
                second = d;
            }
        }
        i = i + 1;
    }
    second
}

/// `a` is ahead of `b` in the matcher's output order: smaller distance,
/// then smaller query index.
pub open spec fn match_before(a: Match, b: Match) -> bool {
    a.distance < b.distance || (a.distance == b.distance && a.query < b.query)
}

/// `m` is one of `ms`, and ahead of every other match to the same train
/// feature.
pub open spec fn best_for_train(ms: Seq<Match>, m: Match) -> bool {
    &&& ms.contains(m)
    &&& forall|j: int|
        0 <= j < ms.len() && (#[trigger] ms[j]).train == m.train && ms[j] != m ==> match_before(
            m,
            ms[j],
        )
}

/// Sorts matches with pairwise distinct query indices into output order.
#[verifier::spinoff_prover]
fn sort_matches(v: Vec<Match>) -> (out: Vec<Match>)
    requires
        forall|i: int, j: int| 0 <= i < j < v@.len() ==> v@[i].query != v@[j].query,
    ensures
        out@.len() == v@.len(),
        forall|i: int, j: int| 0 <= i < j < out@.len() ==> match_before(out@[i], out@[j]),
        forall|m: Match| out@.contains(m) <==> v@.contains(m),
{
    let mut out: Vec<Match> = Vec::new();
    let mut i: usize = 0;
    while i < v.len()
        invariant
            i <= v@.len(),
            forall|a: int, b: int| 0 <= a < b < v@.len() ==> v@[a].query != v@[b].query,
            out@.len() == i,
            forall|a: int, b: int| 0 <= a < b < out@.len() ==> match_before(out@[a], out@[b]),
            forall|m: Match| out@.contains(m) <==> v@.take(i as int).contains(m),
        decreases v@.len() - i,
    {
        let e = v[i];
        let mut p: usize = 0;
        while p < out.len() && !(e.distance < out[p].distance || (e.distance == out[p].distance
            && e.query < out[p].query))
            invariant
                p <= out@.len(),
                forall|a: int| 0 <= a < p ==> !match_before(e, #[trigger] out@[a]),
            decreases out@.len() - p,
        {
            p = p + 1;
        }
        let ghost before = out@;
        proof {
            assert forall|a: int| 0 <= a < before.len() implies (a < p ==> match_before(
                #[trigger] before[a],
                e,
            )) && (a >= p ==> match_before(e, before[a])) by {
                assert(before.contains(before[a]));
                assert(v@.take(i as int).contains(before[a]));
                let k = choose|k: int| 0 <= k < i && v@.take(i as int)[k] == before[a];
                assert(v@[k].query != v@[i as int].query);
                if a > p {
                    assert(match_before(before[p as int], before[a]));
                }
            }
        }
        out.insert(p, e);
        proof {
            assert forall|k: int| 0 <= k < out@.len() implies (k < p ==> #[trigger] out@[k]
                == before[k]) && (k == p ==> out@[k] == e) && (k > p ==> out@[k] == before[k
                - 1]) by {}
            assert forall|a: int, b: int| 0 <= a < b < out@.len() implies match_before(
                out@[a],
                out@[b],
            ) by {
                if b < p {
                    assert(out@[a] == before[a] && out@[b] == before[b]);
                } else if b == p {
                    assert(out@[a] == before[a]);
                } else if a < p {
                    assert(out@[a] == before[a] && out@[b] == before[b - 1]);
                } else if a == p {
                    assert(out@[b] == before[b - 1]);
                } else {
                    assert(out@[a] == before[a - 1] && out@[b] == before[b - 1]);
                }
            }
            let ti = v@.take(i as int);
            let ti1 = v@.take(i + 1);
            assert(ti1 =~= ti.push(e));
            assert forall|m: Match| out@.contains(m) <==> ti1.contains(m) by {
                if out@.contains(m) {
                    let k = choose|k: int| 0 <= k < out@.len() && out@[k] == m;
                    if k != p {
                        let k2 = if k < p {
                            k
                        } else {
                            k - 1
                        };
                        assert(before[k2] == m);
                        assert(before.contains(m));
                        assert(ti.contains(m));
                        let q = choose|q: int| 0 <= q < ti.len() && ti[q] == m;
                        assert(ti1[q] == m);
                    } else {
                        assert(ti1[i as int] == m);
                    }
                }
                if ti1.contains(m) {
                    let q = choose|q: int| 0 <= q < ti1.len() && ti1[q] == m;
                    if q < i {
                        assert(ti[q] == m);
                        assert(ti.contains(m));
                        assert(before.contains(m));
                        let k = choose|k: int| 0 <= k < before.len() && before[k] == m;
                        if k < p {
                            assert(out@[k] == m);
                        } else {
                            assert(out@[k + 1] == m);
                        }
                    } else {
                        assert(out@[p as int] == m);
                    }
                }
            }
        }
        i = i + 1;
    }
    proof {
        assert(v@.take(i as int) =~= v@);
    }
    out
}

/// Keeps only the best query per train feature (smallest distance, then
/// smallest query index), in output order. `matches` lists at most one
/// match per query, in increasing query order.
#[verifier::spinoff_prover]
pub fn keep_best_per_train(matches: &[Match], n_train: usize) -> (out: Vec<Match>)
    requires
        forall|k: int| 0 <= k < matches@.len() ==> (#[trigger] matches@[k]).train < n_train,
        forall|i: int, j: int| 0 <= i < j < matches@.len() ==> matches@[i].query < matches@[j].query,
    ensures
        forall|i: int, j: int| 0 <= i < j < out@.len() ==> match_before(out@[i], out@[j]),
        forall|i: int| 0 <= i < out@.len() ==> best_for_train(matches@, #[trigger] out@[i]),
        forall|k: int|
            0 <= k < matches@.len() && best_for_train(matches@, #[trigger] matches@[k])
                ==> out@.contains(matches@[k]),
        forall|i: int, j: int| 0 <= i < j < out@.len() ==> out@[i].train != out@[j].train,
{
    let ghost ms = matches@;
    let mut best: Vec<Option<usize>> = Vec::new();
    let mut t: usize = 0;
    while t < n_train
        invariant
            t <= n_train,
            best@ == Seq::new(t as nat, |x: int| None::<usize>),
        decreases n_train - t,
    {
        best.push(None);
        t = t + 1;
    }
    let mut k: usize = 0;
    while k < matches.len()
        invariant
            ms == matches@,
            forall|x: int| 0 <= x < ms.len() ==> (#[trigger] ms[x]).train < n_train,
            forall|i: int, j: int| 0 <= i < j < ms.len() ==> ms[i].query < ms[j].query,
            k <= ms.len(),
            best@.len() == n_train,
            forall|tt: int|
                0 <= tt < n_train ==> match #[trigger] best@[tt] {
                    None => forall|j: int| 0 <= j < k ==> ms[j].train != tt,
                    Some(b) => {
                        &&& b < k
                        &&& ms[b as int].train == tt
                        &&& forall|j: int|
                            0 <= j < k && j != b && ms[j].train == tt ==> match_before(
                                ms[b as int],
                                ms[j],
                            )
                    },
                },
        decreases ms.len() - k,
    {
        let tr = matches[k].train as usize;
        let cur = best[tr];
        match cur {
            None => {
                best.set(tr, Some(k));
            },
            Some(b) => {
                if matches[k].distance < matches[b].distance {
                    best.set(tr, Some(k));
                }
            },
        }
        k = k + 1;
    }
    let mut cands: Vec<Match> = Vec::new();
    let ghost mut idxs: Seq<int> = seq![];
    let mut t: usize = 0;
    while t < n_train
        invariant
            ms == matches@,
            forall|i: int, j: int| 0 <= i < j < ms.len() ==> ms[i].query < ms[j].query,
            t <= n_train,
            best@.len() == n_train,
            forall|tt: int|
                0 <= tt < n_train ==> match #[trigger] best@[tt] {
                    None => forall|j: int| 0 <= j < ms.len() ==> ms[j].train != tt,
                    Some(b) => {
                        &&& b < ms.len()
                        &&& ms[b as int].train == tt
                        &&& forall|j: int|
                            0 <= j < ms.len() && j != b && ms[j].train == tt ==> match_before(
                                ms[b as int],
                                ms[j],
                            )
                    },
                },
            idxs.len() == cands@.len(),
            forall|a: int|
                0 <= a < idxs.len() ==> 0 <= #[trigger] idxs[a] < ms.len() && cands@[a]
                    == ms[idxs[a]] && ms[idxs[a]].train < t && best@[ms[idxs[a]].train as int]
                    == Some(idxs[a] as usize),
            forall|a: int, b: int| 0 <= a < b < idxs.len() ==> ms[idxs[a]].train < ms[idxs[b]].train,
            forall|tt: int|
                0 <= tt < t && #[trigger] best@[tt] is Some ==> exists|a: int|
                    0 <= a < idxs.len() && idxs[a] == best@[tt]->0,
        decreases n_train - t,
    {
        let ghost old_idxs = idxs;
        match best[t] {
            Some(b) => {
                cands.push(matches[b]);
                proof {
                    idxs = idxs.push(b as int);
                    assert(idxs[idxs.len() - 1] == b as int);
                }
            },
            None => {},
        }
        proof {
            assert forall|tt: int| 0 <= tt < t + 1 && #[trigger] best@[tt] is Some implies exists|a: int|
                0 <= a < idxs.len() && idxs[a] == best@[tt]->0 by {
                if tt < t {
                    let a = choose|a: int| 0 <= a < old_idxs.len() && old_idxs[a] == best@[tt]->0;
                    assert(idxs[a] == old_idxs[a]);
                } else {
                    assert(idxs[idxs.len() - 1] == best@[tt]->0);
                }
            }
        }
        t = t + 1;
    }
    proof {
        assert forall|a: int, b: int| 0 <= a < b < cands@.len() implies cands@[a].query
            != cands@[b].query by {
            let ia = idxs[a];
            let ib = idxs[b];
            if ia < ib {
                assert(ms[ia].query < ms[ib].query);
            } else if ib < ia {
                assert(ms[ib].query < ms[ia].query);
            }
        }
    }
    let out = sort_matches(cands);
    proof {
        assert forall|i: int| 0 <= i < out@.len() implies best_for_train(ms, #[trigger] out@[i]) by {
            assert(out@.contains(out@[i]));
            assert(cands@.contains(out@[i]));
            let a = choose|a: int| 0 <= a < cands@.len() && cands@[a] == out@[i];
            let b = idxs[a];
            assert(ms[b] == out@[i]);
            assert(ms.contains(out@[i]));
            assert forall|j: int|
                0 <= j < ms.len() && (#[trigger] ms[j]).train == out@[i].train && ms[j] != out@[i]
                    implies match_before(out@[i], ms[j]) by {
                let tt = ms[b].train as int;
                assert(best@[tt] == Some(b as usize));
                assert(j != b);
            }
        }
        assert forall|k: int|
            0 <= k < ms.len() && best_for_train(ms, #[trigger] ms[k]) implies out@.contains(
                ms[k],
            ) by {
            let tt = ms[k].train as int;
            assert(best@[tt] is Some);
            let b = best@[tt]->0 as int;
            if b != k {
                assert(match_before(ms[b], ms[k]));
                if b < k {
                    assert(ms[b].query < ms[k].query);
                } else {
                    assert(ms[k].query < ms[b].query);
                }
                assert(ms[b] != ms[k]);
                assert(match_before(ms[k], ms[b]));
                assert(false);
            }
            let a = choose|a: int| 0 <= a < idxs.len() && idxs[a] == best@[tt]->0;
            assert(cands@[a] == ms[k]);
            assert(cands@.contains(ms[k]));
        }
        assert forall|i: int, j: int| 0 <= i < j < out@.len() implies out@[i].train
            != out@[j].train by {
            if out@[i].train == out@[j].train {
                let (a, b) = (out@[i], out@[j]);
                assert(match_before(a, b));
                assert(best_for_train(ms, a) && best_for_train(ms, b));
                let kb = choose|k: int| 0 <= k < ms.len() && ms[k] == b;
                assert(ms[kb] == b);
                assert(match_before(a, ms[kb]) || ms[kb] == a);
                let ka = choose|k: int| 0 <= k < ms.len() && ms[k] == a;
                assert(ms[ka] == a);
                assert(match_before(b, ms[ka]));
                assert(false);
            }
        }
    }
    out
}

} // verus!
