//! The minesweeper board: seeded construction, flag and reveal mutations
//! (with the flood-fill cascade), and the win/lose queries.

use crate::cell::Cell;
use crate::counting::{
    count_if, lemma_count_ext, lemma_count_insert, lemma_count_le,
    lemma_count_split,
};
use crate::grid::{is_adjacent, lemma_neighbor_total};
use crate::seeding::{mine_sample, random_seed_name, sample_indices};
use vstd::prelude::*;
use vstd::string::StringExecFns;

verus! {

/// Why an operation was refused: unusable grid dimensions, a mine budget
/// larger than the grid, a state text that does not match the format, or a
/// coordinate outside the grid.
#[derive(Clone, Copy, PartialEq, Eq, Structural, Debug)]
pub enum BoardError {
    BadDimensions,
    TooManyMines,
    MalformedState,
    OutOfBounds,
}

/// A minesweeper playing field: the cells in row-major order, the grid
/// dimensions, the mine budget, and the seed its layout was derived from.
#[derive(Debug)]
pub struct Board {
    pub cells: Vec<Cell>,
    pub width: usize,
    pub height: usize,
    pub mine_count: usize,
    pub seed: String,
}

/// The fixed salt mixed into every seed before sampling, so that a seed
/// string alone determines the layout.
pub open spec fn board_salt() -> Seq<char> {
    "my_salty_salt"@
}

/// Whether index `j` is one of the sampled mine positions.
pub open spec fn mine_at(mines: Seq<usize>, j: int) -> bool {
    exists|k: int| 0 <= k < mines.len() && #[trigger] mines[k] as int == j
}

/// Number of mines among the cells adjacent to `i`.
pub open spec fn adjacent_mines(cells: Seq<Cell>, i: int, w: int, h: int) -> nat {
    count_if(|j: int| is_adjacent(i, j, w, h) && cells[j].mine, 0, w * h)
}

/// Number of mines on the whole board.
pub open spec fn mine_total(cells: Seq<Cell>) -> nat {
    count_if(|j: int| cells[j].mine, 0, cells.len() as int)
}

/// Acceptable construction parameters: a nonempty grid whose area stays
/// within `u32` range (so the seeded sampling is machine-independent) and a
/// mine budget no larger than the grid.
pub open spec fn valid_config(w: int, h: int, c: int) -> bool {
    &&& 1 <= w
    &&& 1 <= h
    &&& w * h <= u32::MAX as int
    &&& 0 <= c <= w * h
}

impl Board {
    pub open spec fn area(self) -> int {
        self.width as int * self.height as int
    }

    /// A fully built board: consistent dimensions, a nonempty seed, exactly
    /// `mine_count` mines laid out as the seeded sampler draws them, and
    /// every cell's neighbor count equal to the number of mines adjacent to
    /// it.
    pub open spec fn wf(self) -> bool {
        &&& valid_config(self.width as int, self.height as int, self.mine_count as int)
        &&& self.cells@.len() == self.area()
        &&& self.seed@.len() > 0
        &&& mine_total(self.cells@) == self.mine_count
        &&& forall|i: int|
            0 <= i < self.cells@.len() ==> (#[trigger] self.cells@[i]).mine == mine_at(
                mine_sample(self.seed@ + board_salt(), self.area() as nat, self.mine_count as nat),
                i,
            )
        &&& forall|i: int|
            0 <= i < self.cells@.len() ==> (#[trigger] self.cells@[i]).neighbors as nat
                == adjacent_mines(self.cells@, i, self.width as int, self.height as int)
    }

    /// The unbuilt starting point of the builder chain: an empty grid.
    pub fn new() -> (b: Board)
        ensures
            b.width == 0,
            b.height == 0,
            b.mine_count == 0,
            b.cells@.len() == 0,
            b.seed@.len() == 0,
    {
        Board {
            cells: Vec::new(),
            width: 0,
            height: 0,
            mine_count: 0,
            seed: String::new(),
        }
    }

    pub fn with_width(self, width: usize) -> (b: Board)
        ensures
            b.width == width,
            b.height == self.height,
            b.mine_count == self.mine_count,
            b.cells@ == self.cells@,
            b.seed@ == self.seed@,
    {
        Board { width, ..self }
    }

    pub fn with_height(self, height: usize) -> (b: Board)
        ensures
            b.width == self.width,
            b.height == height,
            b.mine_count == self.mine_count,
            b.cells@ == self.cells@,
            b.seed@ == self.seed@,
    {
        Board { height, ..self }
    }

    /// Sets the mine budget.
    pub fn with_difficulty(self, difficulty: usize) -> (b: Board)
        ensures
            b.width == self.width,
            b.height == self.height,
            b.mine_count == difficulty,
            b.cells@ == self.cells@,
            b.seed@ == self.seed@,
    {
        Board { mine_count: difficulty, ..self }
    }

    pub fn with_seed(self, seed: String) -> (b: Board)
        ensures
            b.width == self.width,
            b.height == self.height,
            b.mine_count == self.mine_count,
            b.cells@ == self.cells@,
            b.seed@ == seed@,
    {
        Board { seed, ..self }
    }

    /// Builds the board: validates the configuration, generates a seed when
    /// none was supplied, samples `mine_count` distinct mine positions from
    /// the seeded stream, and precomputes every cell's neighbor-mine count.
    pub fn build(&mut self) -> (r: Result<Board, BoardError>)
        ensures
            match r {
                Ok(b) => {
                    &&& valid_config(
                        old(self).width as int,
                        old(self).height as int,
                        old(self).mine_count as int,
                    )
                    &&& b.wf()
                    &&& b.width == old(self).width
                    &&& b.height == old(self).height
                    &&& b.mine_count == old(self).mine_count
                    &&& (old(self).seed@.len() > 0 ==> b.seed@ == old(self).seed@)
                    &&& forall|i: int|
                        0 <= i < b.cells@.len() ==> !(#[trigger] b.cells@[i]).flag
                            && !b.cells@[i].revealed
                    &&& final(self).seed@ == b.seed@
                },
                Err(e) => {
                    &&& *final(self) == *old(self)
                    &&& !valid_config(
                        old(self).width as int,
                        old(self).height as int,
                        old(self).mine_count as int,
                    )
                    &&& (e == BoardError::TooManyMines <==> (1 <= old(self).width && 1 <= old(
                        self,
                    ).height && old(self).area() <= u32::MAX as int && old(self).mine_count as int
                        > old(self).area()))
                    &&& (e == BoardError::BadDimensions <==> (old(self).width == 0 || old(
                        self,
                    ).height == 0 || old(self).area() > u32::MAX as int))
                },
            },
    {
        let width = self.width;
        let height = self.height;
        let count = self.mine_count;
        if width == 0 || height == 0 {
            return Err(BoardError::BadDimensions);
        }
        let n = match width.checked_mul(height) {
            Some(n) => n,
            None => {
                return Err(BoardError::BadDimensions);
            },
        };
        if n > u32::MAX as usize {
            return Err(BoardError::BadDimensions);
        }
        if count > n {
            return Err(BoardError::TooManyMines);
        }
        if self.seed.as_str().is_empty() {
            self.seed = random_seed_name();
        }
        let salted = self.seed.clone().concat("my_salty_salt");
        let mines = sample_indices(salted.as_str(), n, count);
        let ghost sample = mine_sample(self.seed@ + board_salt(), n as nat, count as nat);
        proof {
            assert(salted@ == self.seed@ + board_salt());
        }

        // Mark the sampled positions.
        let mut is_mine: Vec<bool> = Vec::new();
        let mut j: usize = 0;
        while j < n
            invariant
                j <= n,
                is_mine@.len() == j,
                forall|t: int| 0 <= t < j ==> !(#[trigger] is_mine@[t]),
            decreases n - j,
        {
            is_mine.push(false);
            j += 1;
        }
        proof {
            crate::counting::lemma_count_zero(|t: int| is_mine@[t], 0, n as int);
        }
        let mut k: usize = 0;
        while k < mines.len()
            invariant
                k <= mines@.len(),
                mines@ == sample,
                mines@.len() == count,
                forall|t: int| 0 <= t < mines@.len() ==> (#[trigger] mines@[t]) < n,
                forall|t1: int, t2: int|
                    0 <= t1 < t2 < mines@.len() ==> mines@[t1] != mines@[t2],
                is_mine@.len() == n,
                forall|jj: int|
                    0 <= jj < n ==> ((#[trigger] is_mine@[jj]) <==> exists|t: int|
                        0 <= t < k && #[trigger] mines@[t] as int == jj),
                count_if(|jj: int| is_mine@[jj], 0, n as int) == k,
            decreases mines@.len() - k,
        {
            let idx = mines[k];
            let ghost pre = is_mine@;
            proof {
                if pre[idx as int] {
                    let t = choose|t: int| 0 <= t < k && #[trigger] mines@[t] as int == idx as int;
                    assert(mines@[t] == mines@[k as int]);
                    assert(false);
                }
            }
            is_mine.set(idx, true);
            proof {
                lemma_count_insert(
                    |jj: int| pre[jj],
                    |jj: int| is_mine@[jj],
                    0,
                    n as int,
                    idx as int,
                );
                lemma_count_ext(|jj: int| pre[jj], |jj: int| is_mine@[jj], 0, idx as int);
                assert forall|jj: int| 0 <= jj < n implies ((#[trigger] is_mine@[jj])
                    <==> exists|t: int| 0 <= t < k + 1 && #[trigger] mines@[t] as int == jj) by {
                    if jj == idx as int {
                        assert(mines@[k as int] as int == jj);
                    } else {
                        if exists|t: int| 0 <= t < k + 1 && #[trigger] mines@[t] as int == jj {
                            let t = choose|t: int|
                                0 <= t < k + 1 && #[trigger] mines@[t] as int == jj;
                            assert(t != k);
                            assert(0 <= t < k && mines@[t] as int == jj);
                        }
                    }
                }
            }
            k += 1;
        }

        // Lay out the cells, counting each one's adjacent mines.
        let w_int = width;
        let mut cells: Vec<Cell> = Vec::new();
        let mut i: usize = 0;
        while i < n
            invariant
                i <= n,
                n == width * height,
                width >= 1,
                height >= 1,
                is_mine@.len() == n,
                forall|jj: int|
                    0 <= jj < n ==> ((#[trigger] is_mine@[jj]) <==> mine_at(sample, jj)),
                count_if(|jj: int| is_mine@[jj], 0, n as int) == count,
                cells@.len() == i,
                forall|t: int|
                    0 <= t < i ==> !(#[trigger] cells@[t]).flag && !cells@[t].revealed
                        && cells@[t].mine == is_mine@[t],
                forall|t: int|
                    0 <= t < i ==> (#[trigger] cells@[t]).neighbors as nat == count_if(
                        |jj: int| is_adjacent(t, jj, width as int, height as int) && is_mine@[jj],
                        0,
                        n as int,
                    ),
            decreases n - i,
        {
            let mut cnt: u8 = 0;
            let mut jj: usize = 0;
            while jj < n
                invariant
                    jj <= n,
                    i < n,
                    n == width * height,
                    width >= 1,
                    height >= 1,
                    is_mine@.len() == n,
                    cnt as nat == count_if(
                        |t: int| is_adjacent(i as int, t, width as int, height as int)
                            && is_mine@[t],
                        0,
                        jj as int,
                    ),
                    cnt <= 8,
                decreases n - jj,
            {
                if crate::grid::is_adjacent_exec(i, jj, width, height) && is_mine[jj] {
                    proof {
                        let p = |t: int| is_adjacent(i as int, t, width as int, height as int)
                            && is_mine@[t];
                        let adjp = |t: int| is_adjacent(i as int, t, width as int, height as int);
                        lemma_count_le(p, adjp, 0, jj as int + 1);
                        lemma_count_split(adjp, 0, jj as int + 1, n as int);
                        lemma_neighbor_total(i as int, width as int, height as int);
                    }
                    cnt = cnt + 1;
                }
                jj += 1;
            }
            cells.push(
                Cell { mine: is_mine[i], flag: false, revealed: false, neighbors: cnt },
            );
            i += 1;
        }

        let seed_copy = self.seed.clone();
        let b = Board { cells, width, height, mine_count: count, seed: seed_copy };
        proof {
            assert(b.area() == n as int);
            lemma_count_ext(
                |jj: int| b.cells@[jj].mine,
                |jj: int| is_mine@[jj],
                0,
                n as int,
            );
            assert forall|t: int| 0 <= t < b.cells@.len() implies (#[trigger] b.cells@[t]).neighbors
                as nat == adjacent_mines(b.cells@, t, b.width as int, b.height as int) by {
                lemma_count_ext(
                    |jj: int| is_adjacent(t, jj, width as int, height as int) && is_mine@[jj],
                    |jj: int| is_adjacent(t, jj, width as int, height as int)
                        && b.cells@[jj].mine,
                    0,
                    n as int,
                );
            }
        }
        Ok(b)
    }

    /// Toggles the flag at index `i`; `Ok(false)` when the cell is revealed
    /// (the board is unchanged), `Err` when `i` is outside the grid.
    pub fn flag_by_index(&mut self, i: usize) -> (r: Result<bool, BoardError>)
        ensures
            final(self).width == old(self).width,
            final(self).height == old(self).height,
            final(self).mine_count == old(self).mine_count,
            final(self).seed@ == old(self).seed@,
            old(self).wf() ==> final(self).wf(),
            match r {
                Ok(accepted) => {
                    &&& i < old(self).cells@.len()
                    &&& accepted == !old(self).cells@[i as int].revealed
                    &&& accepted ==> final(self).cells@ == old(self).cells@.update(
                        i as int,
                        (Cell {
                            flag: !old(self).cells@[i as int].flag,
                            ..old(self).cells@[i as int]
                        }),
                    )
                    &&& !accepted ==> final(self).cells@ == old(self).cells@
                },
                Err(e) => {
                    &&& e == BoardError::OutOfBounds
                    &&& i >= old(self).cells@.len()
                    &&& final(self).cells@ == old(self).cells@
                },
            },
    {
        if i >= self.cells.len() {
            return Err(BoardError::OutOfBounds);
        }
        let mut c = self.cells[i];
        let accepted = c.toggle_flag();
        self.cells.set(i, c);
        proof {
            if !accepted {
                assert(self.cells@ =~= old(self).cells@);
            }
            if old(self).wf() {
                lemma_mutation_keeps_wf(*old(self), *self);
            }
        }
        Ok(accepted)
    }

    /// Toggles the flag at column `x`, row `y`.
    pub fn flag(&mut self, x: usize, y: usize) -> (r: Result<bool, BoardError>)
        requires
            old(self).wf(),
        ensures
            final(self).width == old(self).width,
            final(self).height == old(self).height,
            final(self).mine_count == old(self).mine_count,
            final(self).seed@ == old(self).seed@,
            final(self).wf(),
            match r {
                Ok(accepted) => {
                    &&& x < old(self).width
                    &&& y < old(self).height
                    &&& ({
                        let i = y * old(self).width + x;
                        &&& accepted == !old(self).cells@[i as int].revealed
                        &&& accepted ==> final(self).cells@ == old(self).cells@.update(
                            i as int,
                            (Cell {
                                flag: !old(self).cells@[i as int].flag,
                                ..old(self).cells@[i as int]
                            }),
                        )
                        &&& !accepted ==> final(self).cells@ == old(self).cells@
                    })
                },
                Err(e) => {
                    &&& e == BoardError::OutOfBounds
                    &&& (x >= old(self).width || y >= old(self).height)
                    &&& final(self).cells@ == old(self).cells@
                },
            },
    {
        if x >= self.width || y >= self.height {
            return Err(BoardError::OutOfBounds);
        }
        proof {
            assert((y as int) * (self.width as int) + (x as int) < self.area())
                by (nonlinear_arith)
                requires
                    x < self.width,
                    y < self.height,
            ;
        }
        let i = y * self.width + x;
        self.flag_by_index(i)
    }

    /// Reveals the cell at column `x`, row `y` (with cascade).
    pub fn reveal_at(&mut self, x: usize, y: usize) -> (r: Result<bool, BoardError>)
        requires
            old(self).wf(),
        ensures
            final(self).wf(),
            final(self).width == old(self).width,
            final(self).height == old(self).height,
            final(self).mine_count == old(self).mine_count,
            final(self).seed@ == old(self).seed@,
            match r {
                Ok(accepted) => {
                    &&& x < old(self).width
                    &&& y < old(self).height
                    &&& reveal_step(
                        *old(self),
                        *final(self),
                        (y * old(self).width + x) as int,
                        accepted,
                    )
                },
                Err(e) => {
                    &&& e == BoardError::OutOfBounds
                    &&& (x >= old(self).width || y >= old(self).height)
                    &&& final(self).cells@ == old(self).cells@
                },
            },
    {
        if x >= self.width || y >= self.height {
            return Err(BoardError::OutOfBounds);
        }
        proof {
            assert((y as int) * (self.width as int) + (x as int) < self.area())
                by (nonlinear_arith)
                requires
                    x < self.width,
                    y < self.height,
            ;
        }
        let i = y * self.width + x;
        self.reveal_by_index(i)
    }

    /// Reveals the cell at index `i`; `Ok(false)` when the cell is flagged
    /// (the board is unchanged). When the cell has no adjacent mines, the
    /// reveal cascades through the zero-count region.
    pub fn reveal_by_index(&mut self, i: usize) -> (r: Result<bool, BoardError>)
        requires
            old(self).wf(),
        ensures
            final(self).wf(),
            final(self).width == old(self).width,
            final(self).height == old(self).height,
            final(self).mine_count == old(self).mine_count,
            final(self).seed@ == old(self).seed@,
            match r {
                Ok(accepted) => {
                    &&& i < old(self).cells@.len()
                    &&& reveal_step(*old(self), *final(self), i as int, accepted)
                },
                Err(e) => {
                    &&& e == BoardError::OutOfBounds
                    &&& i >= old(self).cells@.len()
                    &&& final(self).cells@ == old(self).cells@
                },
            },
    {
        if i >= self.cells.len() {
            return Err(BoardError::OutOfBounds);
        }
        let mut c = self.cells[i];
        let accepted = c.set_reveal(true);
        self.cells.set(i, c);
        if !accepted {
            proof {
                assert(self.cells@ =~= old(self).cells@);
                lemma_mutation_keeps_wf(*old(self), *self);
            }
            return Ok(false);
        }
        let width = self.width;
        let height = self.height;
        let n = self.cells.len();
        if self.cells[i].neighbors == 0 && !self.cells[i].mine {
            let mut queue: Vec<usize> = Vec::new();
            queue.push(i);
            proof {
                assert(queue@[0] == i);
            }
            while queue.len() > 0
                invariant
                    self.width == old(self).width,
                    self.height == old(self).height,
                    self.mine_count == old(self).mine_count,
                    self.seed@ == old(self).seed@,
                    width == self.width,
                    height == self.height,
                    old(self).wf(),
                    n == old(self).cells@.len(),
                    self.cells@.len() == n,
                    i < n,
                    old(self).cells@[i as int].neighbors == 0,
                    !old(self).cells@[i as int].flag,
                    !old(self).cells@[i as int].mine,
                    forall|j: int|
                        0 <= j < n ==> (#[trigger] self.cells@[j]).flag == old(
                            self,
                        ).cells@[j].flag && self.cells@[j].mine == old(self).cells@[j].mine
                            && self.cells@[j].neighbors == old(self).cells@[j].neighbors,
                    forall|j: int|
                        0 <= j < n && old(self).cells@[j].revealed
                            ==> (#[trigger] self.cells@[j]).revealed,
                    forall|j: int|
                        0 <= j < n && !old(self).cells@[j].revealed
                            && (#[trigger] self.cells@[j]).revealed ==> !old(
                            self,
                        ).cells@[j].flag,
                    self.cells@[i as int].revealed,
                    forall|t: int|
                        0 <= t < queue@.len() ==> (#[trigger] queue@[t]) < n
                            && self.cells@[queue@[t] as int].revealed
                            && self.cells@[queue@[t] as int].neighbors == 0
                            && !self.cells@[queue@[t] as int].flag,
                    forall|t: int|
                        0 <= t < queue@.len() ==> ((#[trigger] queue@[t]) == i
                            || cascade_reaches(
                            old(self).cells@,
                            width as int,
                            height as int,
                            i as int,
                            queue@[t] as int,
                        )),
                    forall|j: int|
                        0 <= j < n && j != i && !old(self).cells@[j].revealed
                            && (#[trigger] self.cells@[j]).revealed ==> cascade_reaches(
                            old(self).cells@,
                            width as int,
                            height as int,
                            i as int,
                            j,
                        ),
                    forall|c: int, x: int|
                        0 <= c < n && (#[trigger] self.cells@[c]).revealed
                            && old(self).cells@[c].neighbors == 0 && !old(self).cells@[c].flag
                            && (!old(self).cells@[c].revealed || c == i as int)
                            && !queue@.contains(c as usize) && #[trigger] is_adjacent(
                            c,
                            x,
                            width as int,
                            height as int,
                        ) && !old(self).cells@[x].flag ==> self.cells@[x].revealed,
                decreases unrevealed_total(self.cells@) + queue@.len(),
            {
                let ghost measure0 = unrevealed_total(self.cells@) + queue@.len();
                let ghost queue_at_top = queue@;
                let c_idx = match queue.pop() {
                    Some(v) => v,
                    None => {
                        proof {
                            assert(false);
                        }
                        0
                    },
                };
                proof {
                    assert(queue_at_top[queue_at_top.len() - 1] == c_idx);
                    assert(queue@ =~= queue_at_top.drop_last());
                    assert forall|c: int, x: int|
                        0 <= c < n && (#[trigger] self.cells@[c]).revealed
                            && old(self).cells@[c].neighbors == 0 && !old(self).cells@[c].flag
                            && (!old(self).cells@[c].revealed || c == i as int)
                            && c != c_idx as int && !queue@.contains(c as usize)
                            && #[trigger] is_adjacent(c, x, width as int, height as int)
                            && !old(self).cells@[x].flag implies self.cells@[x].revealed by {
                        if queue_at_top.contains(c as usize) {
                            let idx = choose|idx: int|
                                0 <= idx < queue_at_top.len() && queue_at_top[idx] == c as usize;
                            assert(idx != queue_at_top.len() - 1);
                            assert(queue@[idx] == c as usize);
                            assert(false);
                        }
                    }
                }
                let adj = crate::grid::adjacent_cells(c_idx, width, height);
                let mut t: usize = 0;
                while t < adj.len()
                    invariant
                        self.width == old(self).width,
                        self.height == old(self).height,
                        self.mine_count == old(self).mine_count,
                        self.seed@ == old(self).seed@,
                        width == self.width,
                        height == self.height,
                        old(self).wf(),
                        n == old(self).cells@.len(),
                        self.cells@.len() == n,
                        i < n,
                        old(self).cells@[i as int].neighbors == 0,
                        !old(self).cells@[i as int].flag,
                        !old(self).cells@[i as int].mine,
                        c_idx < n,
                        self.cells@[c_idx as int].revealed,
                        old(self).cells@[c_idx as int].neighbors == 0,
                        !old(self).cells@[c_idx as int].flag,
                        c_idx as int == i as int || cascade_reaches(
                            old(self).cells@,
                            width as int,
                            height as int,
                            i as int,
                            c_idx as int,
                        ),
                        t <= adj@.len(),
                        forall|tt: int|
                            0 <= tt < adj@.len() ==> is_adjacent(
                                c_idx as int,
                                #[trigger] adj@[tt] as int,
                                width as int,
                                height as int,
                            ),
                        forall|j: int|
                            is_adjacent(c_idx as int, j, width as int, height as int)
                                ==> adj@.contains(j as usize),
                        forall|tt: int|
                            0 <= tt < t ==> (old(self).cells@[(#[trigger] adj@[tt]) as int].flag
                                || self.cells@[adj@[tt] as int].revealed),
                        forall|j: int|
                            0 <= j < n ==> (#[trigger] self.cells@[j]).flag == old(
                                self,
                            ).cells@[j].flag && self.cells@[j].mine == old(self).cells@[j].mine
                                && self.cells@[j].neighbors == old(self).cells@[j].neighbors,
                        forall|j: int|
                            0 <= j < n && old(self).cells@[j].revealed
                                ==> (#[trigger] self.cells@[j]).revealed,
                        forall|j: int|
                            0 <= j < n && !old(self).cells@[j].revealed
                                && (#[trigger] self.cells@[j]).revealed ==> !old(
                                self,
                            ).cells@[j].flag,
                        self.cells@[i as int].revealed,
                        forall|tt: int|
                            0 <= tt < queue@.len() ==> (#[trigger] queue@[tt]) < n
                                && self.cells@[queue@[tt] as int].revealed
                                && self.cells@[queue@[tt] as int].neighbors == 0
                                && !self.cells@[queue@[tt] as int].flag,
                        forall|tt: int|
                            0 <= tt < queue@.len() ==> ((#[trigger] queue@[tt]) == i
                                || cascade_reaches(
                                old(self).cells@,
                                width as int,
                                height as int,
                                i as int,
                                queue@[tt] as int,
                            )),
                        forall|j: int|
                            0 <= j < n && j != i && !old(self).cells@[j].revealed
                                && (#[trigger] self.cells@[j]).revealed ==> cascade_reaches(
                                old(self).cells@,
                                width as int,
                                height as int,
                                i as int,
                                j,
                            ),
                        forall|c: int, x: int|
                            0 <= c < n && (#[trigger] self.cells@[c]).revealed
                                && old(self).cells@[c].neighbors == 0 && !old(self).cells@[c].flag
                                && (!old(self).cells@[c].revealed || c == i as int)
                                && c != c_idx as int && !queue@.contains(c as usize)
                                && #[trigger] is_adjacent(c, x, width as int, height as int)
                                && !old(self).cells@[x].flag ==> self.cells@[x].revealed,
                        unrevealed_total(self.cells@) + queue@.len() <= measure0 - 1,
                    decreases adj@.len() - t,
                {
                    let x = adj[t];
                    let cx = self.cells[x];
                    if !cx.revealed && !cx.flag {
                        let ghost pre = self.cells@;
                        self.cells.set(x, Cell { revealed: true, ..cx });
                        proof {
                            lemma_count_insert(
                                |j: int| !self.cells@[j].revealed,
                                |j: int| !pre[j].revealed,
                                0,
                                n as int,
                                x as int,
                            );
                            lemma_cascade_extend(
                                old(self).cells@,
                                width as int,
                                height as int,
                                i as int,
                                c_idx as int,
                                x as int,
                            );
                        }
                        if cx.neighbors == 0 {
                            let ghost queue_before = queue@;
                            queue.push(x);
                            proof {
                                assert forall|y: usize| queue_before.contains(y)
                                    implies queue@.contains(y) by {
                                    let idx = choose|idx: int|
                                        0 <= idx < queue_before.len() && queue_before[idx] == y;
                                    assert(queue@[idx] == y);
                                }
                                assert(queue@[queue@.len() - 1] == x);
                            }
                        }
                    }
                    t += 1;
                }
                proof {
                    assert forall|c: int, x: int|
                        0 <= c < n && (#[trigger] self.cells@[c]).revealed
                            && old(self).cells@[c].neighbors == 0 && !old(self).cells@[c].flag
                            && (!old(self).cells@[c].revealed || c == i as int)
                            && !queue@.contains(c as usize)
                            && #[trigger] is_adjacent(c, x, width as int, height as int)
                            && !old(self).cells@[x].flag implies self.cells@[x].revealed by {
                        if c == c_idx as int {
                            assert(adj@.contains(x as usize));
                            let tt = choose|tt: int|
                                0 <= tt < adj@.len() && adj@[tt] == x as usize;
                            assert(old(self).cells@[adj@[tt] as int].flag
                                || self.cells@[adj@[tt] as int].revealed);
                        }
                    }
                }
            }
            proof {
                assert(n == width as int * height as int);
                assert forall|j: int|
                    0 <= j < n && j != i && cascade_reaches(
                        old(self).cells@,
                        width as int,
                        height as int,
                        i as int,
                        j,
                    ) implies (#[trigger] self.cells@[j]).revealed by {
                    let p = choose|p: Seq<int>|
                        cascade_path(old(self).cells@, width as int, height as int, i as int, j, p);
                    assert(p[p.len() - 1] == j);
                    lemma_cascade_complete(
                        old(self).cells@,
                        self.cells@,
                        width as int,
                        height as int,
                        i as int,
                        p,
                        p.len() - 1,
                    );
                }
            }
        }
        proof {
            lemma_mutation_keeps_wf(*old(self), *self);
        }
        Ok(true)
    }

    /// Reveals every cell that is not flagged.
    pub fn reveal_all(&mut self) -> (r: bool)
        ensures
            r == true,
            final(self).width == old(self).width,
            final(self).height == old(self).height,
            final(self).mine_count == old(self).mine_count,
            final(self).seed@ == old(self).seed@,
            final(self).cells@.len() == old(self).cells@.len(),
            forall|j: int|
                0 <= j < old(self).cells@.len() ==> #[trigger] final(self).cells@[j] == (
                if old(self).cells@[j].flag {
                    old(self).cells@[j]
                } else {
                    Cell { revealed: true, ..old(self).cells@[j] }
                }),
            old(self).wf() ==> final(self).wf(),
    {
        let mut i: usize = 0;
        let n = self.cells.len();
        while i < n
            invariant
                i <= n,
                n == old(self).cells@.len(),
                self.cells@.len() == n,
                self.width == old(self).width,
                self.height == old(self).height,
                self.mine_count == old(self).mine_count,
                self.seed@ == old(self).seed@,
                forall|j: int|
                    0 <= j < i ==> #[trigger] self.cells@[j] == (if old(self).cells@[j].flag {
                        old(self).cells@[j]
                    } else {
                        Cell { revealed: true, ..old(self).cells@[j] }
                    }),
                forall|j: int| i <= j < n ==> #[trigger] self.cells@[j] == old(self).cells@[j],
            decreases n - i,
        {
            let mut c = self.cells[i];
            let _ = c.set_reveal(true);
            self.cells.set(i, c);
            i += 1;
        }
        proof {
            if old(self).wf() {
                lemma_mutation_keeps_wf(*old(self), *self);
            }
        }
        true
    }

    /// Whether at least one mine has been revealed.
    pub open spec fn spec_lost(self) -> bool {
        exists|j: int|
            0 <= j < self.cells@.len() && (#[trigger] self.cells@[j]).mine
                && self.cells@[j].revealed
    }

    /// Whether every mine is flagged.
    pub open spec fn spec_won(self) -> bool {
        forall|j: int|
            0 <= j < self.cells@.len() ==> (!(#[trigger] self.cells@[j]).mine
                || self.cells@[j].flag)
    }

    /// True exactly when some mine has been revealed.
    pub fn lost(&self) -> (r: bool)
        ensures
            r == self.spec_lost(),
    {
        let mut i: usize = 0;
        let n = self.cells.len();
        let mut found = false;
        while i < n
            invariant
                i <= n,
                n == self.cells@.len(),
                found == exists|j: int|
                    0 <= j < i && (#[trigger] self.cells@[j]).mine && self.cells@[j].revealed,
            decreases n - i,
        {
            let c = self.cells[i];
            if c.mine && c.revealed {
                found = true;
                assert(self.cells@[i as int].mine && self.cells@[i as int].revealed);
            }
            i += 1;
        }
        found
    }

    /// True exactly when every mine is flagged.
    pub fn won(&self) -> (r: bool)
        ensures
            r == self.spec_won(),
    {
        let mut i: usize = 0;
        let n = self.cells.len();
        let mut all = true;
        while i < n
            invariant
                i <= n,
                n == self.cells@.len(),
                all == forall|j: int|
                    0 <= j < i ==> (!(#[trigger] self.cells@[j]).mine || self.cells@[j].flag),
            decreases n - i,
        {
            let c = self.cells[i];
            if c.mine && !c.flag {
                all = false;
                assert(self.cells@[i as int].mine && !self.cells@[i as int].flag);
            }
            i += 1;
        }
        all
    }
}

/// Number of cells that are not yet revealed.
pub open spec fn unrevealed_total(cells: Seq<Cell>) -> nat {
    count_if(|j: int| !cells[j].revealed, 0, cells.len() as int)
}

/// What one reveal call does to the board. When the cell is flagged the call
/// is rejected and nothing changes. Otherwise the cell is revealed; when it
/// has adjacent mines, or is itself a mine, that is the only change, and
/// otherwise the reveal cascades: a cell is revealed afterwards exactly when
/// it was revealed before or a cascade path reaches it.
pub open spec fn reveal_step(pre: Board, post: Board, i: int, accepted: bool) -> bool {
    let n = pre.cells@.len() as int;
    let w = pre.width as int;
    let h = pre.height as int;
    &&& accepted == !pre.cells@[i].flag
    &&& (!accepted ==> post.cells@ == pre.cells@)
    &&& (accepted ==> {
        &&& post.cells@.len() == n
        &&& forall|j: int|
            0 <= j < n ==> (#[trigger] post.cells@[j]).flag == pre.cells@[j].flag
                && post.cells@[j].mine == pre.cells@[j].mine && post.cells@[j].neighbors
                == pre.cells@[j].neighbors
        &&& forall|j: int|
            0 <= j < n && pre.cells@[j].revealed ==> (#[trigger] post.cells@[j]).revealed
        &&& forall|j: int|
            0 <= j < n && !pre.cells@[j].revealed && (#[trigger] post.cells@[j]).revealed
                ==> !pre.cells@[j].flag
        &&& post.cells@[i].revealed
        &&& ((pre.cells@[i].neighbors != 0 || pre.cells@[i].mine) ==> post.cells@
            == pre.cells@.update(i, (Cell { revealed: true, ..pre.cells@[i] })))
        &&& ((pre.cells@[i].neighbors == 0 && !pre.cells@[i].mine) ==> forall|j: int|
            0 <= j < n && j != i ==> ((#[trigger] post.cells@[j]).revealed <==> (
            pre.cells@[j].revealed || cascade_reaches(pre.cells@, w, h, i, j))))
    })
}

/// A cascade path from `i` to `j`: adjacent steps that start at an
/// unflagged non-mine cell with no adjacent mines, pass only through hidden,
/// unflagged, zero-count cells, and end at a hidden, unflagged cell.
pub open spec fn cascade_path(
    cells: Seq<Cell>,
    w: int,
    h: int,
    i: int,
    j: int,
    p: Seq<int>,
) -> bool {
    &&& p.len() >= 2
    &&& p[0] == i
    &&& p[p.len() - 1] == j
    &&& forall|m: int| 0 <= m < p.len() - 1 ==> is_adjacent(#[trigger] p[m], p[m + 1], w, h)
    &&& !cells[i].flag
    &&& !cells[i].mine
    &&& cells[i].neighbors == 0
    &&& forall|m: int|
        1 <= m < p.len() - 1 ==> !cells[#[trigger] p[m]].revealed && !cells[p[m]].flag
            && cells[p[m]].neighbors == 0
    &&& !cells[j].revealed
    &&& !cells[j].flag
}

/// Whether the cascade started at `i` reaches the hidden cell `j`.
pub open spec fn cascade_reaches(cells: Seq<Cell>, w: int, h: int, i: int, j: int) -> bool {
    exists|p: Seq<int>| cascade_path(cells, w, h, i, j, p)
}

/// One cascade step: from a reached zero-count cell (or the start itself)
/// the cascade reaches any adjacent hidden, unflagged cell.
proof fn lemma_cascade_extend(cells: Seq<Cell>, w: int, h: int, i: int, c: int, x: int)
    requires
        c == i || cascade_reaches(cells, w, h, i, c),
        !cells[i].flag,
        !cells[i].mine,
        cells[i].neighbors == 0,
        !cells[c].flag,
        cells[c].neighbors == 0,
        is_adjacent(c, x, w, h),
        !cells[x].revealed,
        !cells[x].flag,
    ensures
        cascade_reaches(cells, w, h, i, x),
{
    if c == i {
        let p = seq![i, x];
        assert(p[0] == i && p[p.len() - 1] == x);
        assert(cascade_path(cells, w, h, i, x, p));
    } else {
        let p = choose|p: Seq<int>| cascade_path(cells, w, h, i, c, p);
        let q = p.push(x);
        assert(q[0] == p[0]);
        assert(q[q.len() - 1] == x);
        assert forall|m: int| 0 <= m < q.len() - 1 implies is_adjacent(
            #[trigger] q[m],
            q[m + 1],
            w,
            h,
        ) by {
            if m < p.len() - 1 {
                assert(q[m] == p[m] && q[m + 1] == p[m + 1]);
            } else {
                assert(q[m] == p[p.len() - 1] && q[m + 1] == x);
            }
        }
        assert forall|m: int| 1 <= m < q.len() - 1 implies !cells[#[trigger] q[m]].revealed
            && !cells[q[m]].flag && cells[q[m]].neighbors == 0 by {
            if m < p.len() - 1 {
                assert(q[m] == p[m]);
            } else {
                assert(q[m] == p[p.len() - 1] && p[p.len() - 1] == c);
            }
        }
        assert(cascade_path(cells, w, h, i, x, q));
    }
}

/// When the revealed set is closed (every revealed zero-count cell that the
/// cascade could pass through already has all its unflagged neighbors
/// revealed), every cell on a cascade path is revealed.
proof fn lemma_cascade_complete(
    pre: Seq<Cell>,
    post: Seq<Cell>,
    w: int,
    h: int,
    i: int,
    p: Seq<int>,
    m: int,
)
    requires
        pre.len() == w * h,
        post.len() == pre.len(),
        forall|j: int| 0 <= j < pre.len() && pre[j].revealed ==> (#[trigger] post[j]).revealed,
        forall|c: int, x: int|
            0 <= c < pre.len() && (#[trigger] post[c]).revealed && pre[c].neighbors == 0
                && !pre[c].flag && (!pre[c].revealed || c == i) && #[trigger] is_adjacent(
                c,
                x,
                w,
                h,
            ) && !pre[x].flag ==> post[x].revealed,
        post[i].revealed,
        cascade_path(pre, w, h, i, p[p.len() - 1], p),
        0 <= m < p.len(),
    ensures
        post[p[m]].revealed,
    decreases m,
{
    if m > 0 {
        lemma_cascade_complete(pre, post, w, h, i, p, m - 1);
        let c = p[m - 1];
        let x = p[m];
        assert(is_adjacent(c, x, w, h));
        if m - 1 == 0 {
            assert(c == i);
        } else {
            assert(!pre[c].revealed && !pre[c].flag && pre[c].neighbors == 0);
        }
        if m < p.len() - 1 {
            assert(!pre[x].flag);
        } else {
            assert(x == p[p.len() - 1]);
        }
    }
}

/// A mutation that leaves the mines, the neighbor counts and the shape of
/// the board alone keeps the board well formed: flag and reveal bits do not
/// occur in the structural invariant.
pub proof fn lemma_mutation_keeps_wf(pre: Board, post: Board)
    requires
        pre.wf(),
        post.width == pre.width,
        post.height == pre.height,
        post.mine_count == pre.mine_count,
        post.seed@ == pre.seed@,
        post.cells@.len() == pre.cells@.len(),
        forall|j: int|
            0 <= j < pre.cells@.len() ==> (#[trigger] post.cells@[j]).mine == pre.cells@[j].mine
                && post.cells@[j].neighbors == pre.cells@[j].neighbors,
    ensures
        post.wf(),
{
    lemma_count_ext(
        |j: int| post.cells@[j].mine,
        |j: int| pre.cells@[j].mine,
        0,
        pre.cells@.len() as int,
    );
    assert forall|i: int| 0 <= i < post.cells@.len() implies (#[trigger] post.cells@[i]).neighbors
        as nat == adjacent_mines(post.cells@, i, post.width as int, post.height as int) by {
        lemma_count_ext(
            |j: int| is_adjacent(i, j, post.width as int, post.height as int)
                && post.cells@[j].mine,
            |j: int| is_adjacent(i, j, pre.width as int, pre.height as int) && pre.cells@[j].mine,
            0,
            post.width as int * post.height as int,
        );
        assert(pre.cells@[i].neighbors as nat == adjacent_mines(
            pre.cells@,
            i,
            pre.width as int,
            pre.height as int,
        ));
    }
}

/// In a well-formed board no cell has more than 8 adjacent mines.
pub proof fn lemma_wf_neighbors_bound(b: Board, i: int)
    requires
        b.wf(),
        0 <= i < b.cells@.len(),
    ensures
        b.cells@[i].neighbors <= 8,
{
    let w = b.width as int;
    let h = b.height as int;
    lemma_count_le(
        |j: int| is_adjacent(i, j, w, h) && b.cells@[j].mine,
        |j: int| is_adjacent(i, j, w, h),
        0,
        w * h,
    );
    lemma_neighbor_total(i, w, h);
}

} // verus!
