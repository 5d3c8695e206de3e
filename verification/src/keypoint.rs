//! Spatially uniform corner selection.
//!
//! Homography estimation conditions much better with features spread over
//! the whole target than with the same count clustered in one texture-rich
//! area, so selection is grid-bucketed top-K rather than a global score sort:
//! each grid cell keeps its `per_cell` best corners, and if more than
//! `max_total` remain, the best `max_total` of those are kept.

use vstd::prelude::*;
use crate::fast::{FastCorner, corner_at, fast_corners, fast_corners_upto, lin_keep, border_of};
use crate::image::ImageView;

verus! {

/// Number of `cell`-sized columns covering `w` pixels.
pub open spec fn grid_cols(w: int, cell: int) -> int {
    (w + cell - 1) / cell
}

/// Grid cell (row-major index) of corner `c`; positions past the last full
/// cell fall into the last one.
pub open spec fn cell_index(c: FastCorner, w: int, h: int, cell: int) -> int {
    let cols = grid_cols(w, cell);
    let rows = grid_cols(h, cell);
    let cx = if (c.x as int) / cell < cols - 1 {
        (c.x as int) / cell
    } else {
        cols - 1
    };
    let cy = if (c.y as int) / cell < rows - 1 {
        (c.y as int) / cell
    } else {
        rows - 1
    };
    cy * cols + cx
}

/// `a` comes first in scan (row-major) order.
pub open spec fn scan_before(a: FastCorner, b: FastCorner) -> bool {
    a.y < b.y || (a.y == b.y && a.x < b.x)
}


/// Positions strictly increase in scan order (as FAST reports corners).
pub open spec fn scan_sorted(s: Seq<FastCorner>) -> bool {
    forall|i: int, j: int| 0 <= i < j < s.len() ==> scan_before(s[i], s[j])
}

/// The grid fits the machine: sides plus a cell, and the cell count.
pub open spec fn grid_fits(w: int, h: int, cell: int) -> bool {
    &&& w + cell <= usize::MAX
    &&& h + cell <= usize::MAX
    &&& grid_cols(w, cell) * grid_cols(h, cell) <= usize::MAX
}

proof fn lemma_cell_index_range(c: FastCorner, w: int, h: int, cell: int)
    requires
        cell > 0,
        w > 0,
        h > 0,
    ensures
        0 <= cell_index(c, w, h, cell) < grid_cols(w, cell) * grid_cols(h, cell),
        grid_cols(w, cell) >= 1,
        grid_cols(h, cell) >= 1,
{
    let cols = grid_cols(w, cell);
    let rows = grid_cols(h, cell);
    assert(cols >= 1 && rows >= 1) by {
        vstd::arithmetic::div_mod::lemma_div_pos_is_pos(w + cell - 1, cell);
        vstd::arithmetic::div_mod::lemma_div_is_ordered(cell, w + cell - 1, cell);
        vstd::arithmetic::div_mod::lemma_div_is_ordered(cell, h + cell - 1, cell);
        vstd::arithmetic::div_mod::lemma_div_by_self(cell);
    }
    let cx = if (c.x as int) / cell < cols - 1 {
        (c.x as int) / cell
    } else {
        cols - 1
    };
    let cy = if (c.y as int) / cell < rows - 1 {
        (c.y as int) / cell
    } else {
        rows - 1
    };
    assert((c.x as int) / cell >= 0 && (c.y as int) / cell >= 0) by {
        vstd::arithmetic::div_mod::lemma_div_pos_is_pos(c.x as int, cell);
        vstd::arithmetic::div_mod::lemma_div_pos_is_pos(c.y as int, cell);
    }
    assert(0 <= cy * cols + cx < cols * rows) by (nonlinear_arith)
        requires
            0 <= cx < cols,
            0 <= cy < rows,
    ;
}

/// The cell of `c` (exec).
fn cell_of(c: FastCorner, w: usize, h: usize, cell: usize) -> (g: usize)
    requires
        cell > 0,
        w > 0,
        h > 0,
        grid_fits(w as int, h as int, cell as int),
    ensures
        g == cell_index(c, w as int, h as int, cell as int),
        g < grid_cols(w as int, cell as int) * grid_cols(h as int, cell as int),
{
    proof {
        lemma_cell_index_range(c, w as int, h as int, cell as int);
    }
    let cols = (w + cell - 1) / cell;
    let rows = (h + cell - 1) / cell;
    let qx = c.x as usize / cell;
    let qy = c.y as usize / cell;
    let cx = if qx < cols - 1 {
        qx
    } else {
        cols - 1
    };
    let cy = if qy < rows - 1 {
        qy
    } else {
        rows - 1
    };
    proof {
        assert(cy * cols + cx < cols * rows) by (nonlinear_arith)
            requires
                0 <= cx < cols,
                0 <= cy < rows,
        ;
        assert(cols * rows <= usize::MAX);
    }
    cy * cols + cx
}

/// Cell of the corner at input position `i`.
pub open spec fn cell_at(s: Seq<FastCorner>, i: int, w: int, h: int, cell: int) -> int {
    cell_index(s[i], w, h, cell)
}

/// Rank inside a cell: higher score first, then input order.
pub open spec fn score_before(s: Seq<FastCorner>, i: int, j: int) -> bool {
    s[i].score > s[j].score || (s[i].score == s[j].score && i < j)
}

/// Output order of the per-cell selection: by cell, then rank.
pub open spec fn cell_before(s: Seq<FastCorner>, i: int, j: int, w: int, h: int, cell: int) -> bool {
    let ci = cell_at(s, i, w, h, cell);
    let cj = cell_at(s, j, w, h, cell);
    ci < cj || (ci == cj && score_before(s, i, j))
}

/// Order of the global cut: higher score first, then cell, then input order.
pub open spec fn cut_before(s: Seq<FastCorner>, i: int, j: int, w: int, h: int, cell: int) -> bool {
    let ci = cell_at(s, i, w, h, cell);
    let cj = cell_at(s, j, w, h, cell);
    s[i].score > s[j].score || (s[i].score == s[j].score && (ci < cj || (ci == cj && i < j)))
}

pub open spec fn corner_order(
    cut: bool,
    s: Seq<FastCorner>,
    i: int,
    j: int,
    w: int,
    h: int,
    cell: int,
) -> bool {
    if cut {
        cut_before(s, i, j, w, h, cell)
    } else {
        cell_before(s, i, j, w, h, cell)
    }
}

/// The input positions of `s`.
pub open spec fn positions(s: Seq<FastCorner>) -> Set<int> {
    vstd::set_lib::set_int_range(0, s.len() as int)
}

/// Positions of corners in the cell of corner `i` that rank ahead of it.
pub open spec fn cell_rivals(s: Seq<FastCorner>, i: int, w: int, h: int, cell: int) -> Set<int> {
    positions(s).filter(
        |j: int| cell_at(s, j, w, h, cell) == cell_at(s, i, w, h, cell) && score_before(s, j, i),
    )
}

/// The corner at position `i` is among the `per_cell` best of its cell.
pub open spec fn survives_cell(
    s: Seq<FastCorner>,
    i: int,
    w: int,
    h: int,
    cell: int,
    per_cell: int,
) -> bool {
    0 <= i < s.len() && cell_rivals(s, i, w, h, cell).len() < per_cell
}

/// Positions of the per-cell winners.
pub open spec fn cell_winners(s: Seq<FastCorner>, w: int, h: int, cell: int, per_cell: int) -> Set<
    int,
> {
    positions(s).filter(|i: int| survives_cell(s, i, w, h, cell, per_cell))
}

/// Winners that rank ahead of position `i` in the global cut.
pub open spec fn cut_rivals(s: Seq<FastCorner>, k: Set<int>, i: int, w: int, h: int, cell: int) -> Set<
    int,
> {
    k.filter(|j: int| cut_before(s, j, i, w, h, cell))
}

/// The positions of `k` whose corner falls in cell `g`.
pub open spec fn in_cell(s: Seq<FastCorner>, k: Set<int>, g: int, w: int, h: int, cell: int) -> Set<
    int,
> {
    k.filter(|j: int| cell_at(s, j, w, h, cell) == g)
}

/// `out` lists the corners of `s` at positions `ix`, in that order.
pub open spec fn picks(out: Seq<FastCorner>, s: Seq<FastCorner>, ix: Seq<int>) -> bool {
    &&& out.len() == ix.len()
    &&& forall|p: int| 0 <= p < ix.len() ==> 0 <= #[trigger] ix[p] < s.len() && out[p] == s[ix[p]]
}

/// The positions kept by the grid selection, in output order: all per-cell
/// winners cell by cell (by rank inside a cell) when they are at most
/// `max_total`; else the `max_total` of them that come first in the global
/// cut, in cut order.
pub open spec fn selects(
    s: Seq<FastCorner>,
    ix: Seq<int>,
    w: int,
    h: int,
    cell: int,
    per_cell: int,
    max_total: int,
) -> bool {
    let k = cell_winners(s, w, h, cell, per_cell);
    &&& ix.len() <= max_total
    &&& forall|g: int| #[trigger] in_cell(s, ix.to_set(), g, w, h, cell).len() <= per_cell
    &&& k.len() <= max_total ==> {
        &&& ix.to_set() == k
        &&& forall|a: int, b: int| 0 <= a < b < ix.len() ==> cell_before(s, ix[a], ix[b], w, h, cell)
    }
    &&& k.len() > max_total ==> {
        &&& ix.len() == max_total
        &&& ix.to_set() == k.filter(|i: int| cut_rivals(s, k, i, w, h, cell).len() < max_total)
        &&& forall|a: int, b: int| 0 <= a < b < ix.len() ==> cut_before(s, ix[a], ix[b], w, h, cell)
    }
}

/// Positions as integers.
pub open spec fn ints(v: Seq<usize>) -> Seq<int> {
    v.map_values(|x: usize| x as int)
}

/// `corner_order` (exec).
fn position_lt(
    s: &Vec<FastCorner>,
    cut: bool,
    i: usize,
    j: usize,
    w: usize,
    h: usize,
    cell: usize,
) -> (r: bool)
    requires
        i < s@.len(),
        j < s@.len(),
        cell > 0,
        w > 0,
        h > 0,
        grid_fits(w as int, h as int, cell as int),
    ensures
        r == corner_order(cut, s@, i as int, j as int, w as int, h as int, cell as int),
{
    let a = s[i];
    let b = s[j];
    let ca = cell_of(a, w, h, cell);
    let cb = cell_of(b, w, h, cell);
    if cut {
        a.score > b.score || (a.score == b.score && (ca < cb || (ca == cb && i < j)))
    } else {
        ca < cb || (ca == cb && (a.score > b.score || (a.score == b.score && i < j)))
    }
}

/// Distinct positions are always ordered one way or the other.
proof fn lemma_order_total(cut: bool, s: Seq<FastCorner>, i: int, j: int, w: int, h: int, cell: int)
    requires
        i != j,
    ensures
        corner_order(cut, s, i, j, w, h, cell) || corner_order(cut, s, j, i, w, h, cell),
        !(corner_order(cut, s, i, j, w, h, cell) && corner_order(cut, s, j, i, w, h, cell)),
{
}

/// Insertion sort of distinct positions of `s` by `corner_order(cut)`.
#[verifier::spinoff_prover]
fn sort_positions(s: &Vec<FastCorner>, v: Vec<usize>, cut: bool, w: usize, h: usize, cell: usize) -> (out:
    Vec<usize>)
    requires
        cell > 0,
        w > 0,
        h > 0,
        grid_fits(w as int, h as int, cell as int),
        forall|i: int| 0 <= i < v@.len() ==> #[trigger] v@[i] < s@.len(),
        forall|i: int, j: int| 0 <= i < j < v@.len() ==> v@[i] != v@[j],
    ensures
        out@.len() == v@.len(),
        forall|i: int| 0 <= i < out@.len() ==> #[trigger] out@[i] < s@.len(),
        forall|i: int, j: int|
            0 <= i < j < out@.len() ==> corner_order(
                cut,
                s@,
                out@[i] as int,
                out@[j] as int,
                w as int,
                h as int,
                cell as int,
            ),
        forall|x: usize| out@.contains(x) <==> v@.contains(x),
{
    let ghost (wi, hi, ci) = (w as int, h as int, cell as int);
    let mut out: Vec<usize> = Vec::new();
    let mut i: usize = 0;
    while i < v.len()
        invariant
            cell > 0,
            w > 0,
            h > 0,
            grid_fits(wi, hi, ci),
            wi == w,
            hi == h,
            ci == cell,
            i <= v@.len(),
            forall|a: int| 0 <= a < v@.len() ==> #[trigger] v@[a] < s@.len(),
            forall|a: int, b: int| 0 <= a < b < v@.len() ==> v@[a] != v@[b],
            out@.len() == i,
            forall|a: int| 0 <= a < out@.len() ==> #[trigger] out@[a] < s@.len(),
            forall|a: int, b: int|
                0 <= a < b < out@.len() ==> corner_order(
                    cut,
                    s@,
                    out@[a] as int,
                    out@[b] as int,
                    wi,
                    hi,
                    ci,
                ),
            forall|x: usize| out@.contains(x) <==> v@.take(i as int).contains(x),
        decreases v@.len() - i,
    {
        let e = v[i];
        let mut p: usize = 0;
        while p < out.len() && !position_lt(s, cut, e, out[p], w, h, cell)
            invariant
                cell > 0,
                w > 0,
                h > 0,
                grid_fits(wi, hi, ci),
                wi == w,
                hi == h,
                ci == cell,
                e < s@.len(),
                forall|a: int| 0 <= a < out@.len() ==> #[trigger] out@[a] < s@.len(),
                p <= out@.len(),
                forall|a: int|
                    0 <= a < p ==> !corner_order(cut, s@, e as int, #[trigger] out@[a] as int, wi, hi, ci),
            decreases out@.len() - p,
        {
            p = p + 1;
        }
        let ghost before = out@;
        proof {
            assert forall|a: int| 0 <= a < before.len() implies (a < p ==> corner_order(
                cut,
                s@,
                #[trigger] before[a] as int,
                e as int,
                wi,
                hi,
                ci,
            )) && (a >= p ==> corner_order(cut, s@, e as int, before[a] as int, wi, hi, ci)) by {
                assert(before.contains(before[a]));
                assert(v@.take(i as int).contains(before[a]));
                let k = choose|k: int| 0 <= k < i && v@.take(i as int)[k] == before[a];
                assert(v@[k] == before[a]);
                assert(before[a] != e);
                lemma_order_total(cut, s@, before[a] as int, e as int, wi, hi, ci);
                if a > p {
                    assert(corner_order(cut, s@, before[p as int] as int, before[a] as int, wi, hi, ci));
                }
            }
        }
        out.insert(p, e);
        proof {
            assert forall|k: int| 0 <= k < out@.len() implies (k < p ==> #[trigger] out@[k]
                == before[k]) && (k == p ==> out@[k] == e) && (k > p ==> out@[k] == before[k
                - 1]) by {}
            assert forall|a: int| 0 <= a < out@.len() implies #[trigger] out@[a] < s@.len() by {
                if a < p {
                    assert(out@[a] == before[a]);
                } else if a > p {
                    assert(out@[a] == before[a - 1]);
                }
            }
            assert forall|a: int, b: int| 0 <= a < b < out@.len() implies corner_order(
                cut,
                s@,
                out@[a] as int,
                out@[b] as int,
                wi,
                hi,
                ci,
            ) by {
                if b < p {
                    assert(out@[a] == before[a] && out@[b] == before[b]);
                } else if b == p {
                    assert(out@[a] == before[a]);
                } else if a < p {
                    assert(out@[a] == before[a] && out@[b] == before[b - 1]);
                } else if a == p {
                    assert(out@[b] == before[b - 1]);
                } else {
                    assert(out@[a] == before[a - 1] && out@[b] == before[b - 1]);
                }
            }
            let ti = v@.take(i as int);
            let ti1 = v@.take(i + 1);
            assert(ti1 =~= ti.push(e));
            assert forall|m: usize| out@.contains(m) <==> ti1.contains(m) by {
                if out@.contains(m) {
                    let k = choose|k: int| 0 <= k < out@.len() && out@[k] == m;
                    if k != p {
                        let k2 = if k < p {
                            k
                        } else {
                            k - 1
                        };
                        assert(before[k2] == m);
                        assert(before.contains(m));
                        assert(ti.contains(m));
                        let q = choose|q: int| 0 <= q < ti.len() && ti[q] == m;
                        assert(ti1[q] == m);
                    } else {
                        assert(ti1[i as int] == m);
                    }
                }
                if ti1.contains(m) {
                    let q = choose|q: int| 0 <= q < ti1.len() && ti1[q] == m;
                    if q < i {
                        assert(ti[q] == m);
                        assert(ti.contains(m));
                        assert(before.contains(m));
                        let k = choose|k: int| 0 <= k < before.len() && before[k] == m;
                        if k < p {
                            assert(out@[k] == m);
                        } else {
                            assert(out@[k + 1] == m);
                        }
                    } else {
                        assert(out@[p as int] == m);
                    }
                }
            }
        }
        i = i + 1;
    }
    proof {
        assert(v@.take(i as int) =~= v@);
    }
    out
}

/// A strictly ordered sequence of positions has no repeated element.
proof fn lemma_sorted_no_dup(cut: bool, s: Seq<FastCorner>, q: Seq<int>, w: int, h: int, cell: int)
    requires
        forall|i: int, j: int| 0 <= i < j < q.len() ==> corner_order(cut, s, q[i], q[j], w, h, cell),
    ensures
        q.no_duplicates(),
{
    assert forall|i: int, j: int| 0 <= i < q.len() && 0 <= j < q.len() && i != j implies q[i]
        != q[j] by {
        if i < j {
            assert(corner_order(cut, s, q[i], q[j], w, h, cell));
        } else {
            assert(corner_order(cut, s, q[j], q[i], w, h, cell));
        }
    }
}

/// In a strictly ordered sequence of positions, the ones ahead of place `p`
/// are exactly the members of `k` ordered ahead of `q[p]`.
proof fn lemma_ahead_is_prefix(
    cut: bool,
    s: Seq<FastCorner>,
    q: Seq<int>,
    k: Set<int>,
    p: int,
    w: int,
    h: int,
    cell: int,
)
    requires
        0 <= p < q.len(),
        forall|i: int, j: int| 0 <= i < j < q.len() ==> corner_order(cut, s, q[i], q[j], w, h, cell),
        forall|c: int| q.contains(c) <==> k.contains(c),
    ensures
        k.filter(|d: int| corner_order(cut, s, d, q[p], w, h, cell)) == q.take(p).to_set(),
        q.take(p).to_set().len() == p,
{
    let f = |d: int| corner_order(cut, s, d, q[p], w, h, cell);
    assert forall|d: int| #[trigger] k.filter(f).contains(d) <==> q.take(p).to_set().contains(d) by {
        if k.filter(f).contains(d) {
            assert(q.contains(d));
            let j = choose|j: int| 0 <= j < q.len() && q[j] == d;
            if j >= p {
                if j == p {
                    assert(!corner_order(cut, s, d, d, w, h, cell));
                } else {
                    assert(corner_order(cut, s, q[p], q[j], w, h, cell));
                }
            }
            assert(q.take(p)[j] == d);
        }
        if q.take(p).to_set().contains(d) {
            assert(q.take(p).contains(d));
            let j = choose|j: int| 0 <= j < p && q.take(p)[j] == d;
            assert(q[j] == d);
            assert(q.contains(d));
        }
    }
    assert(k.filter(f) =~= q.take(p).to_set());
    lemma_sorted_no_dup(cut, s, q, w, h, cell);
    assert(q.take(p).no_duplicates());
    q.take(p).unique_seq_to_set();
}

/// Grid-bucketed selection: each cell keeps its `per_cell` best corners
/// (higher score first, then input order); the survivors come out cell by
/// cell. If more than `max_total` survive, the best `max_total` of them are
/// kept instead (by score, then cell, then input order).
#[verifier::spinoff_prover]
#[verifier::rlimit(40)]
pub fn select_uniform(
    kps: Vec<FastCorner>,
    w: usize,
    h: usize,
    cell: usize,
    per_cell: usize,
    max_total: usize,
) -> (out: Vec<FastCorner>)
    requires
        cell > 0,
        kps@.len() > 0 ==> w > 0 && h > 0,
        grid_fits(w as int, h as int, cell as int),
    ensures
        exists|ix: Seq<int>|
            picks(out@, kps@, ix) && selects(
                kps@,
                ix,
                w as int,
                h as int,
                cell as int,
                per_cell as int,
                max_total as int,
            ),
{
    let ghost s = kps@;
    let ghost (wi, hi, ci, pc, mt) = (w as int, h as int, cell as int, per_cell as int, max_total as int);
    let ghost k = cell_winners(s, wi, hi, ci, pc);
    let n = kps.len();
    proof {
        vstd::set_lib::lemma_int_range(0, n as int);
        positions(s).lemma_len_filter(|i: int| survives_cell(s, i, wi, hi, ci, pc));
    }
    if n == 0 {
        let ghost ix = Seq::<int>::empty();
        proof {
            assert(k =~= Set::<int>::empty());
            assert(ix.to_set() =~= Set::<int>::empty());
            lemma_selection_capped(ix, s, wi, hi, ci, pc);
            assert(picks(Seq::<FastCorner>::empty(), s, ix));
            assert(selects(s, ix, wi, hi, ci, pc, mt));
        }
        return Vec::new();
    }
    let mut all: Vec<usize> = Vec::new();
    let mut i0: usize = 0;
    while i0 < n
        invariant
            i0 <= n,
            n == s.len(),
            all@ == Seq::new(i0 as nat, |x: int| x as usize),
        decreases n - i0,
    {
        all.push(i0);
        i0 = i0 + 1;
    }
    let sorted = sort_positions(&kps, all, false, w, h, cell);
    let ghost so = ints(sorted@);
    proof {
        assert forall|c: int| #[trigger] so.contains(c) <==> positions(s).contains(c) by {
            if so.contains(c) {
                let p = choose|p: int| 0 <= p < so.len() && so[p] == c;
                assert(sorted@[p] < n);
            }
            if positions(s).contains(c) {
                assert(all@[c] == c as usize);
                assert(all@.contains(c as usize));
                assert(sorted@.contains(c as usize));
                let p = choose|p: int| 0 <= p < sorted@.len() && sorted@[p] == c as usize;
                assert(so[p] == c);
            }
        }
    }
    let cols = (w + cell - 1) / cell;
    let rows = (h + cell - 1) / cell;
    let ncells = cols * rows;
    let mut counts: Vec<usize> = Vec::new();
    let mut g0: usize = 0;
    while g0 < ncells
        invariant
            g0 <= ncells,
            counts@ == Seq::new(g0 as nat, |x: int| 0usize),
        decreases ncells - g0,
    {
        counts.push(0);
        g0 = g0 + 1;
    }
    proof {
        assert forall|g: int| 0 <= g < ncells implies #[trigger] counts@[g] == in_cell(
            s,
            so.take(0).to_set(),
            g,
            wi,
            hi,
            ci,
        ).len() by {
            assert(in_cell(s, so.take(0).to_set(), g, wi, hi, ci) =~= Set::<int>::empty());
        }
        assert(ints(Seq::<usize>::empty()) =~= Seq::<int>::empty());
    }
    let mut kept: Vec<usize> = Vec::new();
    let mut i: usize = 0;
    while i < n
        invariant
            cell > 0,
            w > 0,
            h > 0,
            grid_fits(wi, hi, ci),
            wi == w,
            hi == h,
            ci == cell,
            pc == per_cell,
            n == s.len(),
            s == kps@,
            i <= n,
            sorted@.len() == n,
            so == ints(sorted@),
            forall|a: int| 0 <= a < sorted@.len() ==> #[trigger] sorted@[a] < n,
            forall|a: int, b: int|
                0 <= a < b < so.len() ==> corner_order(false, s, so[a], so[b], wi, hi, ci),
            forall|c: int| #[trigger] so.contains(c) <==> positions(s).contains(c),
            ncells == grid_cols(wi, ci) * grid_cols(hi, ci),
            counts@.len() == ncells,
            forall|g: int|
                0 <= g < ncells ==> #[trigger] counts@[g] == in_cell(
                    s,
                    so.take(i as int).to_set(),
                    g,
                    wi,
                    hi,
                    ci,
                ).len(),
            forall|a: int| 0 <= a < kept@.len() ==> #[trigger] kept@[a] < n,
            forall|a: int, b: int|
                0 <= a < b < kept@.len() ==> cell_before(s, kept@[a] as int, kept@[b] as int, wi, hi, ci),
            forall|c: int|
                #[trigger] ints(kept@).contains(c) <==> so.take(i as int).contains(c) && survives_cell(
                    s,
                    c,
                    wi,
                    hi,
                    ci,
                    pc,
                ),
        decreases n - i,
    {
        let e = sorted[i];
        let g = cell_of(kps[e], w, h, cell);
        let ghost ei = e as int;
        let ghost pre = so.take(i as int);
        let ghost pre1 = so.take(i + 1);
        proof {
            assert(so[i as int] == ei);
            assert(so.contains(ei));
            assert(positions(s).contains(ei));
            // the positions of e's cell already seen are exactly its rivals
            lemma_ahead_is_prefix(false, s, so, positions(s), i as int, wi, hi, ci);
            let ahead = positions(s).filter(|d: int| corner_order(false, s, d, so[i as int], wi, hi, ci));
            assert forall|d: int| #[trigger] cell_rivals(s, ei, wi, hi, ci).contains(d)
                <==> in_cell(s, pre.to_set(), g as int, wi, hi, ci).contains(d) by {
                if cell_rivals(s, ei, wi, hi, ci).contains(d) {
                    assert(ahead.contains(d));
                }
                if in_cell(s, pre.to_set(), g as int, wi, hi, ci).contains(d) {
                    assert(ahead.contains(d));
                }
            }
            assert(cell_rivals(s, ei, wi, hi, ci) =~= in_cell(s, pre.to_set(), g as int, wi, hi, ci));
            // counts stay below n
            vstd::seq_lib::seq_to_set_is_finite(pre);
            pre.to_set().lemma_len_filter(|d: int| cell_at(s, d, wi, hi, ci) == g as int);
            assert(pre1 =~= pre.push(ei));
            pre.lemma_push_to_set_commute(ei);
            assert(pre1.to_set() == pre.to_set().insert(ei));
            assert(!pre.to_set().contains(ei)) by {
                if pre.contains(ei) {
                    let j = choose|j: int| 0 <= j < pre.len() && pre[j] == ei;
                    assert(pre[j] == so[j]);
                    assert(corner_order(false, s, so[j], so[i as int], wi, hi, ci));
                }
            }
        }
        let c = counts[g];
        proof {
            assert(c == in_cell(s, pre.to_set(), g as int, wi, hi, ci).len());
            assert(survives_cell(s, ei, wi, hi, ci, pc) == (c < per_cell));
        }
        let ghost old_kept = kept@;
        if c < per_cell {
            kept.push(e);
        }
        counts.set(g, c + 1);
        proof {
            assert forall|gg: int| 0 <= gg < ncells implies #[trigger] counts@[gg] == in_cell(
                s,
                pre1.to_set(),
                gg,
                wi,
                hi,
                ci,
            ).len() by {
                let old_f = in_cell(s, pre.to_set(), gg, wi, hi, ci);
                vstd::seq_lib::seq_to_set_is_finite(pre);
                pre.to_set().lemma_len_filter(|d: int| cell_at(s, d, wi, hi, ci) == gg);
                if gg == g as int {
                    assert(in_cell(s, pre1.to_set(), gg, wi, hi, ci) =~= old_f.insert(ei));
                } else {
                    assert(in_cell(s, pre1.to_set(), gg, wi, hi, ci) =~= old_f);
                }
            }
            assert forall|m: int| pre1.contains(m) <==> pre.contains(m) || m == ei by {
                if pre1.contains(m) && m != ei {
                    let j = choose|j: int| 0 <= j < pre1.len() && pre1[j] == m;
                    assert(pre[j] == m);
                }
                if pre.contains(m) {
                    let j = choose|j: int| 0 <= j < pre.len() && pre[j] == m;
                    assert(pre1[j] == m);
                }
                assert(pre1[i as int] == ei);
            }
            let ok = ints(old_kept);
            let nk = ints(kept@);
            if c < per_cell {
                assert(kept@ == old_kept.push(e));
                assert(nk =~= ok.push(ei));
                assert forall|m: int| nk.contains(m) <==> ok.contains(m) || m == ei by {
                    if nk.contains(m) && m != ei {
                        let j = choose|j: int| 0 <= j < nk.len() && nk[j] == m;
                        assert(ok[j] == m);
                    }
                    if ok.contains(m) {
                        let j = choose|j: int| 0 <= j < ok.len() && ok[j] == m;
                        assert(nk[j] == m);
                    }
                    assert(nk[nk.len() - 1] == ei);
                }
            } else {
                assert(kept@ == old_kept);
            }
            assert forall|m: int| #[trigger] nk.contains(m) <==> pre1.contains(m) && survives_cell(
                s,
                m,
                wi,
                hi,
                ci,
                pc,
            ) by {
                if c < per_cell {
                    assert(nk.contains(m) <==> ok.contains(m) || m == ei);
                }
                assert(ok.contains(m) <==> pre.contains(m) && survives_cell(s, m, wi, hi, ci, pc));
                assert(pre1.contains(m) <==> pre.contains(m) || m == ei);
            }
            assert(pre1 == so.take((i + 1) as int));
            assert forall|a: int| 0 <= a < kept@.len() implies #[trigger] kept@[a] < n by {
                if c < per_cell && a == kept@.len() - 1 {
                    assert(kept@[a] == e);
                } else {
                    assert(kept@[a] == old_kept[a]);
                }
            }
            assert forall|a: int, b: int| 0 <= a < b < kept@.len() implies cell_before(
                s,
                kept@[a] as int,
                kept@[b] as int,
                wi,
                hi,
                ci,
            ) by {
                if c < per_cell {
                    assert(kept@[a] == old_kept[a]);
                    if b == kept@.len() - 1 {
                        let m = ok[a];
                        assert(ok.contains(m));
                        assert(pre.contains(m));
                        let j = choose|j: int| 0 <= j < pre.len() && pre[j] == m;
                        assert(so[j] == m);
                        assert(kept@[b] == e);
                        assert(corner_order(false, s, so[j], so[i as int], wi, hi, ci));
                    } else {
                        assert(kept@[b] == old_kept[b]);
                    }
                }
            }
        }
        i = i + 1;
    }
    let ghost kk = ints(kept@);
    proof {
        assert(so.take(n as int) =~= so);
        assert forall|m: int| kk.contains(m) <==> k.contains(m) by {
            if kk.contains(m) {
                assert(so.contains(m));
            }
            if k.contains(m) {
                assert(positions(s).contains(m));
                assert(so.contains(m));
            }
        }
        assert(kk.to_set() =~= k);
        assert forall|a: int, b: int| 0 <= a < b < kk.len() implies corner_order(
            false,
            s,
            kk[a],
            kk[b],
            wi,
            hi,
            ci,
        ) by {
            assert(cell_before(s, kept@[a] as int, kept@[b] as int, wi, hi, ci));
        }
        lemma_sorted_no_dup(false, s, kk, wi, hi, ci);
        kk.unique_seq_to_set();
        lemma_selection_capped(kk, s, wi, hi, ci, pc);
    }
    if kept.len() <= max_total {
        let out = gather(&kps, &kept);
        proof {
            assert(picks(out@, s, kk));
            assert(selects(s, kk, wi, hi, ci, pc, mt));
        }
        return out;
    }
    proof {
        assert forall|a: int, b: int| 0 <= a < b < kept@.len() implies kept@[a] != kept@[b] by {
            assert(kk[a] != kk[b]);
        }
    }
    let mut best = sort_positions(&kps, kept, true, w, h, cell);
    let ghost full = ints(best@);
    proof {
        assert forall|c: int| #[trigger] full.contains(c) <==> k.contains(c) by {
            if full.contains(c) {
                let p = choose|p: int| 0 <= p < full.len() && full[p] == c;
                assert(best@.contains(best@[p]));
                let q = choose|q: int| 0 <= q < kept@.len() && kept@[q] == best@[p];
                assert(kk[q] == c);
                assert(kk.contains(c));
            }
            if k.contains(c) {
                assert(kk.contains(c));
                let q = choose|q: int| 0 <= q < kk.len() && kk[q] == c;
                assert(kept@.contains(kept@[q]));
                assert(best@.contains(kept@[q]));
                let p = choose|p: int| 0 <= p < best@.len() && best@[p] == kept@[q];
                assert(full[p] == c);
            }
        }
        assert forall|a: int, b: int| 0 <= a < b < full.len() implies corner_order(
            true,
            s,
            full[a],
            full[b],
            wi,
            hi,
            ci,
        ) by {}
    }
    best.truncate(max_total);
    let ghost ix = ints(best@);
    proof {
        assert(ix =~= full.take(mt));
        assert forall|c: int| #[trigger] ix.contains(c) <==> k.contains(c) && cut_rivals(
            s,
            k,
            c,
            wi,
            hi,
            ci,
        ).len() < mt by {
            if k.contains(c) {
                assert(full.contains(c));
                let p = choose|p: int| 0 <= p < full.len() && full[p] == c;
                lemma_ahead_is_prefix(true, s, full, k, p, wi, hi, ci);
                assert(cut_rivals(s, k, c, wi, hi, ci) =~= k.filter(
                    |d: int| corner_order(true, s, d, full[p], wi, hi, ci),
                ));
                if p < mt {
                    assert(ix[p] == c);
                }
                if ix.contains(c) {
                    let q = choose|q: int| 0 <= q < ix.len() && ix[q] == c;
                    lemma_sorted_no_dup(true, s, full, wi, hi, ci);
                    assert(full[q] == c);
                }
            }
            if ix.contains(c) {
                let q = choose|q: int| 0 <= q < ix.len() && ix[q] == c;
                assert(full[q] == c);
                assert(full.contains(c));
            }
        }
        assert(ix.to_set() =~= k.filter(|i: int| cut_rivals(s, k, i, wi, hi, ci).len() < mt));
        assert forall|a: int, b: int| 0 <= a < b < ix.len() implies cut_before(
            s,
            ix[a],
            ix[b],
            wi,
            hi,
            ci,
        ) by {
            assert(ix[a] == full[a] && ix[b] == full[b]);
            assert(corner_order(true, s, full[a], full[b], wi, hi, ci));
        }
        assert forall|c: int| ix.contains(c) implies k.contains(c) by {}
        lemma_selection_capped(ix, s, wi, hi, ci, pc);
    }
    let out = gather(&kps, &best);
    proof {
        assert(picks(out@, s, ix));
        assert(selects(s, ix, wi, hi, ci, pc, mt));
    }
    out
}

/// The corners of `s` at positions `ix`, in that order.
fn gather(s: &Vec<FastCorner>, ix: &Vec<usize>) -> (out: Vec<FastCorner>)
    requires
        forall|p: int| 0 <= p < ix@.len() ==> #[trigger] ix@[p] < s@.len(),
    ensures
        picks(out@, s@, ints(ix@)),
{
    let mut out: Vec<FastCorner> = Vec::new();
    let mut p: usize = 0;
    while p < ix.len()
        invariant
            p <= ix@.len(),
            forall|q: int| 0 <= q < ix@.len() ==> #[trigger] ix@[q] < s@.len(),
            out@.len() == p,
            forall|q: int| 0 <= q < p ==> #[trigger] out@[q] == s@[ix@[q] as int],
        decreases ix@.len() - p,
    {
        out.push(s[ix[p]]);
        p = p + 1;
    }
    out
}


/// Row-major order of positions with the column below the width.
proof fn lemma_linear_order(w: int, x1: int, y1: int, x2: int, y2: int)
    requires
        0 <= x1 < w,
        0 <= x2 < w,
        0 <= y1,
        0 <= y2,
        y1 * w + x1 < y2 * w + x2,
    ensures
        y1 < y2 || (y1 == y2 && x1 < x2),
{
    if y1 > y2 {
        assert(y1 * w >= (y2 + 1) * w) by (nonlinear_arith)
            requires
                y1 >= y2 + 1,
                w > 0,
        ;
        assert((y2 + 1) * w == y2 * w + w) by (nonlinear_arith);
    }
}

proof fn lemma_fast_corners_upto_sorted(img: ImageView, t: int, b: int, k: nat)
    requires
        img.w > 0,
        img.w <= 0x10000,
        k <= img.w * img.h,
        img.h <= 0x10000,
    ensures
        scan_sorted(fast_corners_upto(img, t, b, k)),
        forall|j: int|
            0 <= j < fast_corners_upto(img, t, b, k).len() ==> {
                let c = #[trigger] fast_corners_upto(img, t, b, k)[j];
                &&& c.x < img.w
                &&& c.y * img.w + c.x < k
            },
    decreases k,
{
    if k > 0 {
        let prev = fast_corners_upto(img, t, b, (k - 1) as nat);
        lemma_fast_corners_upto_sorted(img, t, b, (k - 1) as nat);
        if lin_keep(img, t, b, k - 1) {
            let i = k - 1;
            let w = img.w as int;
            let e = corner_at(img, t, b, i);
            vstd::arithmetic::div_mod::lemma_fundamental_div_mod(i, w);
            vstd::arithmetic::div_mod::lemma_mod_bound(i, w);
            vstd::arithmetic::div_mod::lemma_div_pos_is_pos(i, w);
            let q = i / w;
            let r = i % w;
            let hh = img.h as int;
            assert(q < hh) by (nonlinear_arith)
                requires
                    i == w * q + r,
                    0 <= r,
                    i < w * hh,
                    w > 0,
            ;
            assert(e.x == i % w && e.y == i / w);
            assert(q * w == w * q) by (nonlinear_arith);
            assert(e.y * img.w + e.x == i);
            let cur = prev.push(e);
            assert forall|j: int| 0 <= j < cur.len() implies {
                let c = #[trigger] cur[j];
                &&& c.x < img.w
                &&& c.y * img.w + c.x < k
            } by {
                if j < prev.len() {
                    assert(cur[j] == prev[j]);
                }
            }
            assert forall|j1: int, j2: int| 0 <= j1 < j2 < cur.len() implies scan_before(
                cur[j1],
                cur[j2],
            ) by {
                if j2 < prev.len() {
                    assert(cur[j1] == prev[j1] && cur[j2] == prev[j2]);
                } else {
                    let c = prev[j1];
                    assert(cur[j1] == c);
                    assert(c.y * img.w + c.x < i);
                    lemma_linear_order(w, c.x as int, c.y as int, e.x as int, e.y as int);
                }
            }
        }
    }
}

/// FAST reports corners in scan order (for images up to 65536 pixels a
/// side, whose coordinates fit the corner fields).
pub proof fn lemma_fast_corners_scan_sorted(img: ImageView, t: int, border: usize)
    requires
        img.w <= 0x10000,
        img.h <= 0x10000,
    ensures
        scan_sorted(fast_corners(img, t, border)),
{
    if img.w > 0 {
        lemma_fast_corners_upto_sorted(img, t, border_of(border), img.w * img.h);
    } else {
        assert(img.w * img.h == 0) by (nonlinear_arith)
            requires
                img.w == 0,
        ;
    }
}

/// A finite nonempty set of positions has a last one in rank order.
proof fn lemma_rank_last(s: Seq<FastCorner>, w: Set<int>) -> (m: int)
    requires
        w.finite(),
        w.len() > 0,
    ensures
        w.contains(m),
        forall|d: int| w.contains(d) && d != m ==> score_before(s, d, m),
    decreases w.len(),
{
    let x = w.choose();
    let rest = w.remove(x);
    if rest.len() == 0 {
        assert forall|d: int| w.contains(d) && d != x implies score_before(s, d, x) by {
            assert(rest.contains(d));
        }
        x
    } else {
        let m2 = lemma_rank_last(s, rest);
        if score_before(s, m2, x) {
            assert forall|d: int| w.contains(d) && d != x implies score_before(s, d, x) by {
                if d != m2 {
                    assert(rest.contains(d));
                    assert(score_before(s, d, m2));
                }
            }
            x
        } else {
            assert(score_before(s, x, m2));
            m2
        }
    }
}

/// No cell keeps more than `per_cell` corners.
pub proof fn lemma_cell_winners_capped(
    s: Seq<FastCorner>,
    w: int,
    h: int,
    cell: int,
    per_cell: int,
    g: int,
)
    requires
        0 <= per_cell,
    ensures
        in_cell(s, cell_winners(s, w, h, cell, per_cell), g, w, h, cell).len() <= per_cell,
{
    let k = cell_winners(s, w, h, cell, per_cell);
    let cw = in_cell(s, k, g, w, h, cell);
    vstd::set_lib::lemma_int_range(0, s.len() as int);
    positions(s).lemma_len_filter(|i: int| survives_cell(s, i, w, h, cell, per_cell));
    k.lemma_len_filter(|d: int| cell_at(s, d, w, h, cell) == g);
    if cw.len() > per_cell {
        let m = lemma_rank_last(s, cw);
        let riv = cell_rivals(s, m, w, h, cell);
        assert(cw.remove(m).subset_of(riv)) by {
            assert forall|d: int| cw.remove(m).contains(d) implies riv.contains(d) by {
                assert(positions(s).contains(d));
            }
        }
        positions(s).lemma_len_filter(
            |j: int| cell_at(s, j, w, h, cell) == cell_at(s, m, w, h, cell) && score_before(s, j, m),
        );
        vstd::set_lib::lemma_len_subset(cw.remove(m), riv);
        assert(survives_cell(s, m, w, h, cell, per_cell));
    }
}

/// Any selection from the per-cell winners keeps the per-cell cap.
proof fn lemma_selection_capped(
    ix: Seq<int>,
    s: Seq<FastCorner>,
    w: int,
    h: int,
    cell: int,
    per_cell: int,
)
    requires
        0 <= per_cell,
        forall|c: int| ix.contains(c) ==> cell_winners(s, w, h, cell, per_cell).contains(c),
    ensures
        forall|g: int| #[trigger] in_cell(s, ix.to_set(), g, w, h, cell).len() <= per_cell,
{
    let k = cell_winners(s, w, h, cell, per_cell);
    assert forall|g: int| #[trigger] in_cell(s, ix.to_set(), g, w, h, cell).len() <= per_cell by {
        lemma_cell_winners_capped(s, w, h, cell, per_cell, g);
        vstd::set_lib::lemma_int_range(0, s.len() as int);
        positions(s).lemma_len_filter(|c: int| survives_cell(s, c, w, h, cell, per_cell));
        k.lemma_len_filter(|d: int| cell_at(s, d, w, h, cell) == g);
        assert(in_cell(s, ix.to_set(), g, w, h, cell).subset_of(in_cell(s, k, g, w, h, cell)));
        vstd::set_lib::lemma_len_subset(
            in_cell(s, ix.to_set(), g, w, h, cell),
            in_cell(s, k, g, w, h, cell),
        );
    }
}

/// `v` capped at `hi`.
pub open spec fn capped(v: int, hi: int) -> int {
    if v < hi {
        v
    } else {
        hi
    }
}

proof fn lemma_row_major_unique(cx1: int, cy1: int, cx2: int, cy2: int, cols: int)
    requires
        0 <= cx1 < cols,
        0 <= cx2 < cols,
        0 <= cy1,
        0 <= cy2,
        cy1 * cols + cx1 == cy2 * cols + cx2,
    ensures
        cx1 == cx2,
        cy1 == cy2,
{
    if cy1 < cy2 {
        assert(cy1 * cols + cols <= cy2 * cols) by (nonlinear_arith)
            requires
                cy1 < cy2,
                cols > 0,
        ;
    } else if cy2 < cy1 {
        assert(cy2 * cols + cols <= cy1 * cols) by (nonlinear_arith)
            requires
                cy2 < cy1,
                cols > 0,
        ;
    }
}

/// A corner's grid cell is fixed by its column `min(x / cell, cols - 1)`
/// and its row `min(y / cell, rows - 1)`, and by nothing else: it lies in
/// the grid, and two corners share a cell (and so compete for its
/// `per_cell` slots) exactly when both their columns and their rows agree.
pub proof fn lemma_cell_is_column_and_row(a: FastCorner, b: FastCorner, w: int, h: int, cell: int)
    requires
        cell > 0,
        w > 0,
        h > 0,
    ensures
        0 <= cell_index(a, w, h, cell) < grid_cols(w, cell) * grid_cols(h, cell),
        (cell_index(a, w, h, cell) == cell_index(b, w, h, cell)) <==> (capped(
            a.x as int / cell,
            grid_cols(w, cell) - 1,
        ) == capped(b.x as int / cell, grid_cols(w, cell) - 1) && capped(
            a.y as int / cell,
            grid_cols(h, cell) - 1,
        ) == capped(b.y as int / cell, grid_cols(h, cell) - 1)),
{
    lemma_cell_index_range(a, w, h, cell);
    lemma_cell_index_range(b, w, h, cell);
    let cols = grid_cols(w, cell);
    let rows = grid_cols(h, cell);
    let col_a = capped(a.x as int / cell, cols - 1);
    let row_a = capped(a.y as int / cell, rows - 1);
    let col_b = capped(b.x as int / cell, cols - 1);
    let row_b = capped(b.y as int / cell, rows - 1);
    assert(a.x as int / cell >= 0 && a.y as int / cell >= 0 && b.x as int / cell >= 0 && b.y as int / cell >= 0) by {
        vstd::arithmetic::div_mod::lemma_div_pos_is_pos(a.x as int, cell);
        vstd::arithmetic::div_mod::lemma_div_pos_is_pos(a.y as int, cell);
        vstd::arithmetic::div_mod::lemma_div_pos_is_pos(b.x as int, cell);
        vstd::arithmetic::div_mod::lemma_div_pos_is_pos(b.y as int, cell);
    }
    assert(cell_index(a, w, h, cell) == row_a * cols + col_a);
    assert(cell_index(b, w, h, cell) == row_b * cols + col_b);
    if row_a * cols + col_a == row_b * cols + col_b {
        lemma_row_major_unique(col_a, row_a, col_b, row_b, cols);
    }
}

} // verus!
