//! Board-level laws: determinism of construction, the double-counting
//! symmetry of adjacency, and idempotence of the mutations.

use crate::board::{adjacent_mines, cascade_path, cascade_reaches, reveal_step, Board};
use crate::cell::Cell;
use crate::counting::{
    count_if, lemma_count_ext, lemma_count_positive, lemma_count_split, lemma_count_zero,
    lemma_sum_add, lemma_sum_count_exchange, lemma_sum_ext, sum_of,
};
use crate::grid::{is_adjacent, neighbor_total};
use vstd::prelude::*;

verus! {

/// Two well-formed boards with the same dimensions, mine budget and seed
/// carry the same mine layout and the same neighbor count in every cell:
/// construction is a function of the configuration alone.
pub proof fn lemma_build_deterministic(b1: Board, b2: Board)
    requires
        b1.wf(),
        b2.wf(),
        b1.width == b2.width,
        b1.height == b2.height,
        b1.mine_count == b2.mine_count,
        b1.seed@ == b2.seed@,
    ensures
        b1.cells@.len() == b2.cells@.len(),
        forall|i: int|
            0 <= i < b1.cells@.len() ==> (#[trigger] b1.cells@[i]).mine == b2.cells@[i].mine,
        forall|i: int|
            0 <= i < b1.cells@.len() ==> (#[trigger] b1.cells@[i]).neighbors
                == b2.cells@[i].neighbors,
{
    assert(b1.cells@.len() == b2.cells@.len());
    assert forall|i: int| 0 <= i < b1.cells@.len() implies (#[trigger] b1.cells@[i]).mine
        == b2.cells@[i].mine by {}
    assert forall|i: int| 0 <= i < b1.cells@.len() implies (#[trigger] b1.cells@[i]).neighbors
        == b2.cells@[i].neighbors by {
        lemma_count_ext(
            |j: int| is_adjacent(i, j, b1.width as int, b1.height as int) && b1.cells@[j].mine,
            |j: int| is_adjacent(i, j, b2.width as int, b2.height as int) && b2.cells@[j].mine,
            0,
            b1.width as int * b1.height as int,
        );
    }
}

/// Sum of the neighbor-mine counts over all cells of the grid.
pub open spec fn neighbor_mine_sum(cells: Seq<Cell>, w: int, h: int) -> nat {
    sum_of(|i: int| adjacent_mines(cells, i, w, h), 0, w * h)
}

/// Sum, over the mines, of how many neighbors each mine has.
pub open spec fn mine_degree_sum(cells: Seq<Cell>, w: int, h: int) -> nat {
    sum_of(
        |j: int|
            if cells[j].mine {
                neighbor_total(j, w, h)
            } else {
                0nat
            },
        0,
        w * h,
    )
}

/// Sum, over the mines, of how many of each mine's neighbors are mines.
pub open spec fn mine_neighbor_mine_sum(cells: Seq<Cell>, w: int, h: int) -> nat {
    sum_of(
        |i: int|
            if cells[i].mine {
                adjacent_mines(cells, i, w, h)
            } else {
                0nat
            },
        0,
        w * h,
    )
}

/// Number of unordered pairs of adjacent mines, counted as ordered pairs
/// with the second index below the first.
pub open spec fn mine_pair_count(cells: Seq<Cell>, w: int, h: int) -> nat {
    sum_of(
        |i: int|
            count_if(
                |j: int| j < i && is_adjacent(i, j, w, h) && cells[i].mine && cells[j].mine,
                0,
                w * h,
            ),
        0,
        w * h,
    )
}

/// Adjacency is symmetric, so the total of the neighbor-mine counts over
/// all cells equals the total, over the mines, of their neighbor degrees:
/// both count the ordered adjacent pairs whose second member is a mine.
pub proof fn lemma_neighbor_mine_sum_is_degree_sum(cells: Seq<Cell>, w: int, h: int)
    requires
        w >= 1,
        h >= 1,
    ensures
        neighbor_mine_sum(cells, w, h) == mine_degree_sum(cells, w, h),
{
    let n = w * h;
    let g = |i: int, j: int| is_adjacent(i, j, w, h) && cells[j].mine;
    lemma_sum_count_exchange(g, 0, n, 0, n);
    assert forall|i: int| 0 <= i < n implies #[trigger] adjacent_mines(cells, i, w, h)
        == count_if(|j: int| g(i, j), 0, n) by {
        lemma_count_ext(
            |j: int| is_adjacent(i, j, w, h) && cells[j].mine,
            |j: int| g(i, j),
            0,
            n,
        );
    }
    lemma_sum_ext(
        |i: int| adjacent_mines(cells, i, w, h),
        |i: int| count_if(|j: int| g(i, j), 0, n),
        0,
        n,
    );
    let colcount = |j: int| count_if(|i: int| g(i, j), 0, n);
    assert forall|j: int| 0 <= j < n implies #[trigger] colcount(j) == (if cells[j].mine {
        neighbor_total(j, w, h)
    } else {
        0nat
    }) by {
        if cells[j].mine {
            lemma_count_ext(
                |i: int| g(i, j),
                |i: int| is_adjacent(j, i, w, h),
                0,
                n,
            );
        } else {
            lemma_count_zero(|i: int| g(i, j), 0, n);
        }
    }
    lemma_sum_ext(
        colcount,
        |j: int|
            if cells[j].mine {
                neighbor_total(j, w, h)
            } else {
                0nat
            },
        0,
        n,
    );
}

/// Each unordered pair of adjacent mines is seen once from each of its two
/// ends: the total, over the mines, of their adjacent-mine counts is twice
/// the number of adjacent mine pairs.
pub proof fn lemma_mine_pairs_counted_twice(cells: Seq<Cell>, w: int, h: int)
    requires
        w >= 1,
        h >= 1,
    ensures
        mine_neighbor_mine_sum(cells, w, h) == 2 * mine_pair_count(cells, w, h),
{
    let n = w * h;
    let g = |i: int, j: int| is_adjacent(i, j, w, h) && cells[i].mine && cells[j].mine;
    let full = |i: int| count_if(|j: int| g(i, j), 0, n);
    let low = |i: int| count_if(|j: int| j < i && g(i, j), 0, n);
    let high = |i: int| count_if(|j: int| i < j && g(i, j), 0, n);

    // The per-cell count splits at the diagonal, which is empty.
    assert forall|i: int| 0 <= i < n implies #[trigger] full(i) == low(i) + high(i) by {
        let gi = |j: int| g(i, j);
        lemma_count_split(gi, 0, i, n);
        lemma_count_split(gi, i, i + 1, n);
        lemma_count_zero(gi, i, i + 1);
        let lowp = |j: int| j < i && g(i, j);
        lemma_count_split(lowp, 0, i, n);
        lemma_count_zero(lowp, i, n);
        lemma_count_ext(lowp, gi, 0, i);
        let highp = |j: int| i < j && g(i, j);
        lemma_count_split(highp, 0, i + 1, n);
        lemma_count_zero(highp, 0, i + 1);
        lemma_count_ext(highp, gi, i + 1, n);
    }
    lemma_sum_add(low, high, full, 0, n);

    // Counting from the upper side equals counting from the lower side,
    // because adjacency does not depend on the order of the pair.
    let gp = |i: int, j: int| i < j && g(i, j);
    let gpcol = |j: int| count_if(|i: int| gp(i, j), 0, n);
    let gprow = |i: int| count_if(|j: int| gp(i, j), 0, n);
    lemma_sum_count_exchange(gp, 0, n, 0, n);
    assert forall|j: int| 0 <= j < n implies #[trigger] gpcol(j) == low(j) by {
        lemma_count_ext(|i: int| gp(i, j), |t: int| t < j && g(j, t), 0, n);
    }
    lemma_sum_ext(gpcol, low, 0, n);
    assert forall|i: int| 0 <= i < n implies #[trigger] high(i) == gprow(i) by {
        lemma_count_ext(|j: int| i < j && g(i, j), |j: int| gp(i, j), 0, n);
    }
    lemma_sum_ext(high, gprow, 0, n);

    // The sum over mines of their adjacent-mine counts is the full pair sum.
    assert forall|i: int| 0 <= i < n implies #[trigger] full(i) == (if cells[i].mine {
        adjacent_mines(cells, i, w, h)
    } else {
        0nat
    }) by {
        if cells[i].mine {
            lemma_count_ext(
                |j: int| g(i, j),
                |j: int| is_adjacent(i, j, w, h) && cells[j].mine,
                0,
                n,
            );
        } else {
            lemma_count_zero(|j: int| g(i, j), 0, n);
        }
    }
    lemma_sum_ext(
        full,
        |i: int|
            if cells[i].mine {
                adjacent_mines(cells, i, w, h)
            } else {
                0nat
            },
        0,
        n,
    );
    assert forall|i: int| 0 <= i < n implies #[trigger] low(i) == count_if(
        |j: int| j < i && is_adjacent(i, j, w, h) && cells[i].mine && cells[j].mine,
        0,
        n,
    ) by {
        lemma_count_ext(
            |j: int| j < i && g(i, j),
            |j: int| j < i && is_adjacent(i, j, w, h) && cells[i].mine && cells[j].mine,
            0,
            n,
        );
    }
    lemma_sum_ext(
        low,
        |i: int|
            count_if(
                |j: int| j < i && is_adjacent(i, j, w, h) && cells[i].mine && cells[j].mine,
                0,
                n,
            ),
        0,
        n,
    );
}

/// A path through the zero region: every node, both ends included, has no
/// adjacent mines and is not a mine itself, and consecutive nodes are
/// adjacent.
pub open spec fn region_path(
    cells: Seq<Cell>,
    w: int,
    h: int,
    i: int,
    j: int,
    p: Seq<int>,
) -> bool {
    &&& p.len() >= 1
    &&& p[0] == i
    &&& p[p.len() - 1] == j
    &&& forall|m: int| 0 <= m < p.len() - 1 ==> is_adjacent(#[trigger] p[m], p[m + 1], w, h)
    &&& forall|m: int|
        0 <= m < p.len() ==> cells[#[trigger] p[m]].neighbors == 0 && !cells[p[m]].mine
}

/// Whether `j` lies in the maximal connected zero-count, mine-free region
/// that contains `i`.
pub open spec fn in_zero_region(cells: Seq<Cell>, w: int, h: int, i: int, j: int) -> bool {
    exists|p: Seq<int>| region_path(cells, w, h, i, j, p)
}

/// Whether `j` borders that region without belonging to it.
pub open spec fn in_zero_region_border(cells: Seq<Cell>, w: int, h: int, i: int, j: int) -> bool {
    &&& !in_zero_region(cells, w, h, i, j)
    &&& exists|k: int| #[trigger] in_zero_region(cells, w, h, i, k) && is_adjacent(k, j, w, h)
}

/// A cell adjacent to a cell without adjacent mines is not a mine.
proof fn lemma_zero_neighbor_not_mine(cells: Seq<Cell>, w: int, h: int, c: int, x: int)
    requires
        cells.len() == w * h,
        forall|t: int|
            0 <= t < cells.len() ==> (#[trigger] cells[t]).neighbors as nat == adjacent_mines(
                cells,
                t,
                w,
                h,
            ),
        cells[c].neighbors == 0,
        is_adjacent(c, x, w, h),
    ensures
        !cells[x].mine,
{
    if cells[x].mine {
        lemma_count_positive(
            |j: int| is_adjacent(c, j, w, h) && cells[j].mine,
            0,
            w * h,
            x,
        );
        assert(false);
    }
}

/// The region contains its own start.
proof fn lemma_region_base(cells: Seq<Cell>, w: int, h: int, i: int)
    requires
        cells[i].neighbors == 0,
        !cells[i].mine,
    ensures
        in_zero_region(cells, w, h, i, i),
{
    let p = seq![i];
    assert(p[0] == i && p[p.len() - 1] == i);
    assert(region_path(cells, w, h, i, i, p));
}

/// The region grows along adjacency into zero-count, mine-free cells.
proof fn lemma_region_extend(cells: Seq<Cell>, w: int, h: int, i: int, c: int, x: int)
    requires
        in_zero_region(cells, w, h, i, c),
        is_adjacent(c, x, w, h),
        cells[x].neighbors == 0,
        !cells[x].mine,
    ensures
        in_zero_region(cells, w, h, i, x),
{
    let p = choose|p: Seq<int>| region_path(cells, w, h, i, c, p);
    let q = p.push(x);
    assert(q[0] == p[0]);
    assert(q[q.len() - 1] == x);
    assert forall|m: int| 0 <= m < q.len() - 1 implies is_adjacent(
        #[trigger] q[m],
        q[m + 1],
        w,
        h,
    ) by {
        if m < p.len() - 1 {
            assert(q[m] == p[m] && q[m + 1] == p[m + 1]);
        } else {
            assert(q[m] == p[p.len() - 1] && q[m + 1] == x);
        }
    }
    assert forall|m: int| 0 <= m < q.len() implies cells[#[trigger] q[m]].neighbors == 0
        && !cells[q[m]].mine by {
        if m < p.len() {
            assert(q[m] == p[m]);
        } else {
            assert(q[m] == x);
        }
    }
    assert(region_path(cells, w, h, i, x, q));
}

/// Every stop of a region path lies in the region.
proof fn lemma_region_prefix(cells: Seq<Cell>, w: int, h: int, i: int, p: Seq<int>, m: int)
    requires
        region_path(cells, w, h, i, p[p.len() - 1], p),
        0 <= m < p.len(),
    ensures
        in_zero_region(cells, w, h, i, p[m]),
{
    let q = p.subrange(0, m + 1);
    assert(q[0] == p[0] && q[q.len() - 1] == p[m]);
    assert forall|t: int| 0 <= t < q.len() - 1 implies is_adjacent(
        #[trigger] q[t],
        q[t + 1],
        w,
        h,
    ) by {
        assert(q[t] == p[t] && q[t + 1] == p[t + 1]);
    }
    assert forall|t: int| 0 <= t < q.len() implies cells[#[trigger] q[t]].neighbors == 0
        && !cells[q[t]].mine by {
        assert(q[t] == p[t]);
    }
    assert(region_path(cells, w, h, i, p[m], q));
}

/// All stops of a cascade path short of the last lie in the zero region of
/// the start.
proof fn lemma_cascade_nodes_in_region(
    cells: Seq<Cell>,
    w: int,
    h: int,
    i: int,
    p: Seq<int>,
    m: int,
)
    requires
        cells.len() == w * h,
        forall|t: int|
            0 <= t < cells.len() ==> (#[trigger] cells[t]).neighbors as nat == adjacent_mines(
                cells,
                t,
                w,
                h,
            ),
        cascade_path(cells, w, h, i, p[p.len() - 1], p),
        0 <= m < p.len() - 1,
    ensures
        in_zero_region(cells, w, h, i, p[m]),
        cells[p[m]].neighbors == 0,
        !cells[p[m]].mine,
    decreases m,
{
    if m == 0 {
        lemma_region_base(cells, w, h, i);
    } else {
        lemma_cascade_nodes_in_region(cells, w, h, i, p, m - 1);
        assert(is_adjacent(p[m - 1], p[m], w, h));
        lemma_zero_neighbor_not_mine(cells, w, h, p[m - 1], p[m]);
        lemma_region_extend(cells, w, h, i, p[m - 1], p[m]);
    }
}

/// The flood-fill region law: when nothing of the zero region around `i` is
/// revealed yet and neither the region nor its border holds a flag, one
/// reveal at `i` reveals exactly the region plus its border, beyond what was
/// already revealed.
pub proof fn lemma_reveal_fills_region(pre: Board, post: Board, i: int, accepted: bool)
    requires
        pre.wf(),
        0 <= i < pre.cells@.len(),
        pre.cells@[i].neighbors == 0,
        !pre.cells@[i].mine,
        !pre.cells@[i].flag,
        forall|j: int|
            #[trigger] in_zero_region(pre.cells@, pre.width as int, pre.height as int, i, j)
                ==> !pre.cells@[j].revealed && !pre.cells@[j].flag,
        forall|j: int|
            #[trigger] in_zero_region_border(pre.cells@, pre.width as int, pre.height as int, i, j)
                ==> !pre.cells@[j].flag,
        reveal_step(pre, post, i, accepted),
    ensures
        accepted,
        forall|j: int|
            0 <= j < pre.cells@.len() ==> ((#[trigger] post.cells@[j]).revealed <==> (
            pre.cells@[j].revealed || in_zero_region(
                pre.cells@,
                pre.width as int,
                pre.height as int,
                i,
                j,
            ) || in_zero_region_border(pre.cells@, pre.width as int, pre.height as int, i, j))),
{
    let cells = pre.cells@;
    let w = pre.width as int;
    let h = pre.height as int;
    let n = cells.len() as int;
    assert(n == w * h);

    // A cascade path leads into the region or just across its edge.
    assert forall|j: int|
        0 <= j < n && #[trigger] cascade_reaches(cells, w, h, i, j) implies (in_zero_region(
        cells,
        w,
        h,
        i,
        j,
    ) || in_zero_region_border(cells, w, h, i, j)) by {
        let p = choose|p: Seq<int>| cascade_path(cells, w, h, i, j, p);
        let k = p.len() - 1;
        lemma_cascade_nodes_in_region(cells, w, h, i, p, k - 1);
        assert(is_adjacent(p[k - 1], p[k], w, h));
        if cells[j].neighbors == 0 && !cells[j].mine {
            lemma_region_extend(cells, w, h, i, p[k - 1], j);
        } else {
            if in_zero_region(cells, w, h, i, j) {
                let q = choose|q: Seq<int>| region_path(cells, w, h, i, j, q);
                assert(cells[#[trigger] q[q.len() - 1]].neighbors == 0 && !cells[q[q.len()
                    - 1]].mine);
                assert(false);
            }
            assert(in_zero_region(cells, w, h, i, p[k - 1]) && is_adjacent(p[k - 1], j, w, h));
        }
    }

    // Every unrevealed region or border cell other than `i` is reachable.
    assert forall|j: int|
        0 <= j < n && j != i && !cells[j].revealed && (in_zero_region(cells, w, h, i, j)
            || in_zero_region_border(cells, w, h, i, j)) implies #[trigger] cascade_reaches(
        cells,
        w,
        h,
        i,
        j,
    ) by {
        if in_zero_region(cells, w, h, i, j) {
            let q = choose|q: Seq<int>| region_path(cells, w, h, i, j, q);
            assert(q.len() >= 2);
            assert forall|m: int| 1 <= m < q.len() - 1 implies !cells[#[trigger] q[m]].revealed
                && !cells[q[m]].flag && cells[q[m]].neighbors == 0 by {
                lemma_region_prefix(cells, w, h, i, q, m);
            }
            assert(cascade_path(cells, w, h, i, j, q));
        } else {
            let k = choose|k: int|
                #[trigger] in_zero_region(cells, w, h, i, k) && is_adjacent(k, j, w, h);
            let q = choose|q: Seq<int>| region_path(cells, w, h, i, k, q);
            let r = q.push(j);
            assert(r[0] == q[0]);
            assert(r[r.len() - 1] == j);
            assert forall|m: int| 0 <= m < r.len() - 1 implies is_adjacent(
                #[trigger] r[m],
                r[m + 1],
                w,
                h,
            ) by {
                if m < q.len() - 1 {
                    assert(r[m] == q[m] && r[m + 1] == q[m + 1]);
                } else {
                    assert(r[m] == q[q.len() - 1] && r[m + 1] == j);
                }
            }
            assert forall|m: int| 1 <= m < r.len() - 1 implies !cells[#[trigger] r[m]].revealed
                && !cells[r[m]].flag && cells[r[m]].neighbors == 0 by {
                assert(r[m] == q[m]);
                lemma_region_prefix(cells, w, h, i, q, m);
            }
            assert(cascade_path(cells, w, h, i, j, r));
        }
    }

    lemma_region_base(cells, w, h, i);
    assert forall|j: int| 0 <= j < n implies ((#[trigger] post.cells@[j]).revealed <==> (
    cells[j].revealed || in_zero_region(cells, w, h, i, j) || in_zero_region_border(
        cells,
        w,
        h,
        i,
        j,
    ))) by {
        if j != i {
            assert(post.cells@[j].revealed <==> (cells[j].revealed || cascade_reaches(
                cells,
                w,
                h,
                i,
                j,
            )));
        }
    }
}

/// Revealing an already-revealed, unflagged cell with a nonzero neighbor
/// count leaves the board exactly as it was: the one cell it touches is
/// written back with the value it already had.
pub proof fn lemma_reveal_idempotent(pre: Board, post: Board, i: int, accepted: bool)
    requires
        0 <= i < pre.cells@.len(),
        pre.cells@[i].revealed,
        !pre.cells@[i].flag,
        pre.cells@[i].neighbors != 0,
        reveal_step(pre, post, i, accepted),
    ensures
        accepted,
        post.cells@ == pre.cells@,
{
    assert(post.cells@ =~= pre.cells@);
}

/// Toggling the flag of an unrevealed cell twice restores the original
/// cells.
pub proof fn lemma_flag_twice(c0: Seq<Cell>, c1: Seq<Cell>, c2: Seq<Cell>, i: int)
    requires
        0 <= i < c0.len(),
        c1 == c0.update(i, (Cell { flag: !c0[i].flag, ..c0[i] })),
        c2 == c1.update(i, (Cell { flag: !c1[i].flag, ..c1[i] })),
    ensures
        c2 == c0,
{
    assert(c2 =~= c0);
}

} // verus!
