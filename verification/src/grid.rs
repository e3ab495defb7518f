//! Grid topology: row/column coordinates of a row-major index and the Moore
//! neighborhood (at most one row and one column away), clamped at the edges
//! of the grid, together with the exact neighbor-count arithmetic.

use crate::counting::{
    count_if, lemma_count_all, lemma_count_split, lemma_count_zero,
};
use vstd::arithmetic::div_mod::{
    lemma_fundamental_div_mod, lemma_fundamental_div_mod_converse,
};
use vstd::prelude::*;

verus! {

pub open spec fn row_of(i: int, width: int) -> int {
    i / width
}

pub open spec fn col_of(i: int, width: int) -> int {
    i % width
}

pub open spec fn in_grid(i: int, width: int, height: int) -> bool {
    0 <= i < width * height
}

/// Two positions are adjacent when they differ and lie at most one row and
/// one column apart (up to 8 neighbors, fewer at edges and corners).
pub open spec fn is_adjacent(i: int, j: int, width: int, height: int) -> bool {
    &&& in_grid(i, width, height)
    &&& in_grid(j, width, height)
    &&& i != j
    &&& -1 <= row_of(i, width) - row_of(j, width) <= 1
    &&& -1 <= col_of(i, width) - col_of(j, width) <= 1
}

/// How many positions of the grid are adjacent to `i`.
pub open spec fn neighbor_total(i: int, width: int, height: int) -> nat {
    count_if(|j: int| is_adjacent(i, j, width, height), 0, width * height)
}

/// First row of the 3-row band around `i`, clamped at the top edge.
pub open spec fn row_lo(i: int, width: int) -> int {
    if row_of(i, width) >= 1 {
        row_of(i, width) - 1
    } else {
        0
    }
}

/// Last row of the band, clamped at the bottom edge.
pub open spec fn row_hi(i: int, width: int, height: int) -> int {
    if row_of(i, width) + 1 <= height - 1 {
        row_of(i, width) + 1
    } else {
        height - 1
    }
}

/// First column of the 3-column band around `i`, clamped at the left edge.
pub open spec fn col_lo(i: int, width: int) -> int {
    if col_of(i, width) >= 1 {
        col_of(i, width) - 1
    } else {
        0
    }
}

/// Last column of the band, clamped at the right edge.
pub open spec fn col_hi(i: int, width: int) -> int {
    if col_of(i, width) + 1 <= width - 1 {
        col_of(i, width) + 1
    } else {
        width - 1
    }
}

/// Number of rows within one step of `i`'s row.
pub open spec fn row_window(i: int, width: int, height: int) -> int {
    row_hi(i, width, height) - row_lo(i, width) + 1
}

/// Number of columns within one step of `i`'s column.
pub open spec fn col_window(i: int, width: int) -> int {
    col_hi(i, width) - col_lo(i, width) + 1
}

/// A position of the grid has coordinates within the grid's bounds and is
/// recovered from them.
pub proof fn lemma_coords(i: int, w: int, h: int)
    requires
        w >= 1,
        h >= 1,
        0 <= i < w * h,
    ensures
        0 <= row_of(i, w) < h,
        0 <= col_of(i, w) < w,
        i == row_of(i, w) * w + col_of(i, w),
{
    lemma_fundamental_div_mod(i, w);
    assert(w * (i / w) == (i / w) * w) by (nonlinear_arith);
    assert(0 <= i % w < w) by (nonlinear_arith)
        requires w >= 1 && i >= 0;
    assert(0 <= i / w) by (nonlinear_arith)
        requires w >= 1 && i >= 0;
    assert(i / w < h) by {
        if i / w >= h {
            assert((i / w) * w >= h * w) by (nonlinear_arith)
                requires i / w >= h && w >= 1;
        }
    }
}

/// Count of the neighbors of `i` within one row `r` of the grid: the column
/// window of `i` when `r` is in `i`'s row band (minus `i` itself on its own
/// row), and nothing otherwise.
proof fn lemma_count_one_row(i: int, w: int, h: int, r: int)
    requires
        w >= 1,
        h >= 1,
        0 <= i < w * h,
        0 <= r < h,
    ensures
        count_if(|j: int| is_adjacent(i, j, w, h), r * w, r * w + w) == (
        if row_lo(i, w) <= r <= row_hi(i, w, h) {
            col_window(i, w) - (if r == row_of(i, w) {
                1int
            } else {
                0int
            })
        } else {
            0
        }),
{
    let p = |j: int| is_adjacent(i, j, w, h);
    let ri = row_of(i, w);
    let ci = col_of(i, w);
    let clo = col_lo(i, w);
    let chi = col_hi(i, w);
    lemma_coords(i, w, h);
    assert(0 <= r * w && r * w + w <= w * h) by (nonlinear_arith)
        requires 0 <= r < h && w >= 1;
    // Every position of this row interval has row r and column j - r*w.
    assert forall|j: int| r * w <= j < r * w + w implies row_of(j, w) == r && col_of(j, w) == j - r
        * w by {
        lemma_fundamental_div_mod_converse(j, w, r, j - r * w);
    }
    if row_lo(i, w) <= r <= row_hi(i, w, h) {
        let lo = r * w + clo;
        let hi = r * w + chi + 1;
        assert(r * w <= lo && hi <= r * w + w);
        if r == ri {
            // i itself sits inside the window and is not its own neighbor.
            assert(i == r * w + ci);
            lemma_count_zero(p, r * w, lo);
            lemma_count_all(p, lo, i);
            lemma_count_zero(p, i, i + 1);
            lemma_count_all(p, i + 1, hi);
            lemma_count_zero(p, hi, r * w + w);
            lemma_count_split(p, lo, i, i + 1);
            lemma_count_split(p, lo, i + 1, hi);
            lemma_count_split(p, r * w, lo, hi);
            lemma_count_split(p, r * w, hi, r * w + w);
        } else {
            lemma_count_zero(p, r * w, lo);
            lemma_count_all(p, lo, hi);
            lemma_count_zero(p, hi, r * w + w);
            lemma_count_split(p, r * w, lo, hi);
            lemma_count_split(p, r * w, hi, r * w + w);
        }
    } else {
        lemma_count_zero(p, r * w, r * w + w);
    }
}

/// Positions below `i`'s row band are not adjacent to `i`.
proof fn lemma_rows_before_band(i: int, w: int, h: int)
    requires
        w >= 1,
        h >= 1,
        0 <= i < w * h,
    ensures
        count_if(|j: int| is_adjacent(i, j, w, h), 0, row_lo(i, w) * w) == 0,
{
    let p = |j: int| is_adjacent(i, j, w, h);
    let rlo = row_lo(i, w);
    lemma_coords(i, w, h);
    assert(0 <= rlo * w <= w * h) by (nonlinear_arith)
        requires 0 <= rlo < h && w >= 1;
    assert forall|j: int| 0 <= j < rlo * w implies !#[trigger] p(j) by {
        lemma_coords(j, w, h);
        if row_of(j, w) >= rlo {
            assert(row_of(j, w) * w >= rlo * w) by (nonlinear_arith)
                requires row_of(j, w) >= rlo && w >= 1;
        }
    }
    lemma_count_zero(p, 0, rlo * w);
}

/// Positions above `i`'s row band are not adjacent to `i`.
proof fn lemma_rows_after_band(i: int, w: int, h: int)
    requires
        w >= 1,
        h >= 1,
        0 <= i < w * h,
    ensures
        count_if(
            |j: int| is_adjacent(i, j, w, h),
            (row_hi(i, w, h) + 1) * w,
            w * h,
        ) == 0,
{
    let p = |j: int| is_adjacent(i, j, w, h);
    let rhi = row_hi(i, w, h);
    lemma_coords(i, w, h);
    assert(0 <= (rhi + 1) * w <= w * h) by (nonlinear_arith)
        requires 0 <= rhi < h && w >= 1;
    assert forall|j: int| (rhi + 1) * w <= j < w * h implies !#[trigger] p(j) by {
        lemma_coords(j, w, h);
        if row_of(j, w) <= rhi {
            assert(row_of(j, w) * w + col_of(j, w) < (rhi + 1) * w) by (nonlinear_arith)
                requires row_of(j, w) <= rhi && 0 <= col_of(j, w) < w && w >= 1;
        }
    }
    lemma_count_zero(p, (rhi + 1) * w, w * h);
}

/// The exact number of neighbors of any position: the product of its row and
/// column windows, minus the position itself.
pub proof fn lemma_neighbor_total(i: int, w: int, h: int)
    requires
        w >= 1,
        h >= 1,
        0 <= i < w * h,
    ensures
        neighbor_total(i, w, h) == row_window(i, w, h) * col_window(i, w) - 1,
        2 <= col_window(i, w) <= 3 || w == 1,
        2 <= row_window(i, w, h) <= 3 || h == 1,
        w == 1 ==> col_window(i, w) == 1,
        h == 1 ==> row_window(i, w, h) == 1,
        neighbor_total(i, w, h) <= 8,
{
    let p = |j: int| is_adjacent(i, j, w, h);
    let ri = row_of(i, w);
    let rlo = row_lo(i, w);
    let rhi = row_hi(i, w, h);
    let cw = col_window(i, w);
    lemma_coords(i, w, h);
    lemma_rows_before_band(i, w, h);
    lemma_rows_after_band(i, w, h);
    assert(0 <= rlo * w && rlo * w <= (rhi + 1) * w && (rhi + 1) * w <= w * h) by (nonlinear_arith)
        requires 0 <= rlo <= rhi + 1 && rhi + 1 <= h && w >= 1;
    lemma_count_split(p, 0, rlo * w, (rhi + 1) * w);
    lemma_count_split(p, 0, (rhi + 1) * w, w * h);
    if rlo == rhi {
        assert((rlo + 1) * w == rlo * w + w) by (nonlinear_arith);
        lemma_count_one_row(i, w, h, rlo);
        assert(row_window(i, w, h) * col_window(i, w) == cw) by (nonlinear_arith)
            requires row_window(i, w, h) == 1 && cw == col_window(i, w);
    } else if rhi == rlo + 1 {
        assert((rlo + 1) * w == rlo * w + w && (rhi + 1) * w == rhi * w + w) by (nonlinear_arith);
        lemma_count_one_row(i, w, h, rlo);
        lemma_count_one_row(i, w, h, rhi);
        lemma_count_split(p, rlo * w, rlo * w + w, (rhi + 1) * w);
        assert(row_window(i, w, h) * col_window(i, w) == 2 * cw) by (nonlinear_arith)
            requires row_window(i, w, h) == 2 && cw == col_window(i, w);
    } else {
        assert(rhi == rlo + 2);
        let rmid = rlo + 1;
        assert((rlo + 1) * w == rlo * w + w && (rmid + 1) * w == rmid * w + w && (rhi + 1) * w
            == rhi * w + w) by (nonlinear_arith);
        lemma_count_one_row(i, w, h, rlo);
        lemma_count_one_row(i, w, h, rmid);
        lemma_count_one_row(i, w, h, rhi);
        lemma_count_split(p, rlo * w, rlo * w + w, rmid * w + w);
        lemma_count_split(p, rlo * w, rmid * w + w, (rhi + 1) * w);
        assert(row_window(i, w, h) * col_window(i, w) == 3 * cw) by (nonlinear_arith)
            requires row_window(i, w, h) == 3 && cw == col_window(i, w);
    }
}

/// Corner, edge and interior positions of a grid at least 3 wide and 3 tall
/// have exactly 3, 5 and 8 neighbors.
pub proof fn lemma_corner_edge_interior(i: int, w: int, h: int)
    requires
        w >= 3,
        h >= 3,
        0 <= i < w * h,
    ensures
        ({
            let on_row_edge = row_of(i, w) == 0 || row_of(i, w) == h - 1;
            let on_col_edge = col_of(i, w) == 0 || col_of(i, w) == w - 1;
            &&& (on_row_edge && on_col_edge) ==> neighbor_total(i, w, h) == 3
            &&& (on_row_edge != on_col_edge) ==> neighbor_total(i, w, h) == 5
            &&& (!on_row_edge && !on_col_edge) ==> neighbor_total(i, w, h) == 8
        }),
{
    lemma_coords(i, w, h);
    lemma_neighbor_total(i, w, h);
    let rw = row_window(i, w, h);
    let cw = col_window(i, w);
    if rw == 2 && cw == 2 {
        assert(rw * cw == 4) by (nonlinear_arith)
            requires rw == 2 && cw == 2;
    } else if rw == 2 && cw == 3 {
        assert(rw * cw == 6) by (nonlinear_arith)
            requires rw == 2 && cw == 3;
    } else if rw == 3 && cw == 2 {
        assert(rw * cw == 6) by (nonlinear_arith)
            requires rw == 3 && cw == 2;
    } else {
        assert(rw == 3 && cw == 3);
        assert(rw * cw == 9) by (nonlinear_arith)
            requires rw == 3 && cw == 3;
    }
}

/// Whether positions `i` and `j` are adjacent.
pub fn is_adjacent_exec(i: usize, j: usize, width: usize, height: usize) -> (r: bool)
    requires
        width >= 1,
        height >= 1,
        i < width * height,
        j < width * height,
    ensures
        r == is_adjacent(i as int, j as int, width as int, height as int),
{
    let ri = i / width;
    let ci = i % width;
    let rj = j / width;
    let cj = j % width;
    let row_near = (if ri >= rj {
        ri - rj
    } else {
        rj - ri
    }) <= 1;
    let col_near = (if ci >= cj {
        ci - cj
    } else {
        cj - ci
    }) <= 1;
    i != j && row_near && col_near
}

/// The neighbors of position `i`, in increasing order.
pub fn adjacent_cells(i: usize, width: usize, height: usize) -> (v: Vec<usize>)
    requires
        width >= 1,
        height >= 1,
        i < width * height,
        width * height <= usize::MAX,
    ensures
        forall|k: int|
            0 <= k < v@.len() ==> is_adjacent(i as int, #[trigger] v@[k] as int, width as int, height as int),
        forall|j: int|
            is_adjacent(i as int, j, width as int, height as int) ==> v@.contains(j as usize),
        forall|k1: int, k2: int| 0 <= k1 < k2 < v@.len() ==> v@[k1] < v@[k2],
        v@.len() == neighbor_total(i as int, width as int, height as int),
{
    let n = width * height;
    let mut v: Vec<usize> = Vec::new();
    let mut j: usize = 0;
    while j < n
        invariant
            j <= n,
            n == width * height,
            width >= 1,
            height >= 1,
            i < n,
            forall|k: int|
                0 <= k < v@.len() ==> is_adjacent(
                    i as int,
                    #[trigger] v@[k] as int,
                    width as int,
                    height as int,
                ),
            forall|jj: int|
                0 <= jj < j && is_adjacent(i as int, jj, width as int, height as int)
                    ==> v@.contains(jj as usize),
            forall|k: int| 0 <= k < v@.len() ==> #[trigger] v@[k] < j,
            forall|k1: int, k2: int| 0 <= k1 < k2 < v@.len() ==> v@[k1] < v@[k2],
            v@.len() == count_if(
                |jj: int| is_adjacent(i as int, jj, width as int, height as int),
                0,
                j as int,
            ),
        decreases n - j,
    {
        let ghost p = |jj: int| is_adjacent(i as int, jj, width as int, height as int);
        let ghost old_v = v@;
        if is_adjacent_exec(i, j, width, height) {
            v.push(j);
            assert forall|jj: int|
                0 <= jj < j + 1 && is_adjacent(i as int, jj, width as int, height as int)
                    implies v@.contains(jj as usize) by {
                if jj < j {
                    let k = choose|k: int| 0 <= k < old_v.len() && old_v[k] == jj as usize;
                    assert(v@[k] == jj as usize);
                } else {
                    assert(v@[v@.len() - 1] == jj as usize);
                }
            }
        }
        assert(count_if(p, 0, j + 1) == count_if(p, 0, j as int) + (if p(j as int) {
            1nat
        } else {
            0nat
        }));
        j += 1;
    }
    v
}

} // verus!
