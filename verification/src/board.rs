//! The board: the grid of cells, mine placement, the reveal flood fill,
//! flag bookkeeping and the win/lose outcome.

use vstd::prelude::*;

use crate::cell::{Cell, CellStatus, cell_is_flagged, cell_is_hidden, cell_is_mine,
    cell_is_revealed, cell_is_safe};
use crate::counting::{bool_true, count, lemma_count_all_false, lemma_count_bounds,
    lemma_count_complement, lemma_count_implies_le, lemma_count_pointwise, lemma_count_update};
use crate::geometry::{MAX_GRID_SIZE, Position, adjacent, adjacent_mines, cell_index,
    lemma_cell_index_bounds, lemma_cell_index_decompose, lemma_cell_index_injective,
    lemma_cell_index_recompose, lemma_grid_fits, lemma_zero_adjacent_mines, neighbors,
    pos_in_bounds};
use crate::rng::random_below;

verus! {

/// The terminal result of a game, or `InProgress` before either end.
/// `Won` and `Lost` are terminal: once set, reveal and flag calls are
/// ignored until the board is reset.
#[derive(Clone, Copy, Debug, PartialEq, Eq, Structural)]
pub enum Outcome {
    InProgress,
    Won,
    Lost,
}

/// The failures that construction, reset, reveal and flag toggling
/// report. No-op requests (revealing a non-hidden cell, flagging a
/// revealed cell, any call after a terminal outcome) are not errors.
#[derive(Clone, Copy, Debug, PartialEq, Eq, Structural)]
pub enum BoardError {
    /// The grid size is zero.
    InvalidSize,
    /// The mine count does not leave a single free cell.
    TooManyMines,
    /// A position lies outside the grid.
    OutOfBounds,
    /// The same mine position was given twice.
    DuplicateMine,
}

/// One newly revealed cell, with the adjacency count the presentation
/// layer should draw for it.
#[derive(Clone, Copy, Debug, PartialEq, Eq, Structural)]
pub struct RevealedCell {
    pub position: Position,
    pub adjacent_mine_count: u8,
}

/// What one [`Board::reveal_cell`] call changed: the cells that turned `Revealed`,
/// the mine that was hit if one was, and the outcome after the call.
#[derive(Debug)]
pub struct RevealReport {
    pub revealed: Vec<RevealedCell>,
    pub hit_mine: Option<Position>,
    pub outcome: Outcome,
}

/// Every position of `ps` lies on an `n` by `n` grid.
pub open spec fn all_positions_on_grid(ps: Seq<Position>, n: int) -> bool {
    forall|k: int|
        0 <= k < ps.len() ==> pos_in_bounds((#[trigger] ps[k]).row as int, ps[k].col as int, n)
}

/// No position of `ps` occurs twice.
pub open spec fn positions_distinct(ps: Seq<Position>) -> bool {
    forall|k1: int, k2: int| 0 <= k1 < k2 < ps.len() ==> ps[k1] != ps[k2]
}

/// Some position of `ps` has row-major index `i` on an `n` by `n` grid.
pub open spec fn position_marks(ps: Seq<Position>, n: int, i: int) -> bool {
    exists|k: int|
        0 <= k < ps.len() && cell_index(n, (#[trigger] ps[k]).row as int, ps[k].col as int) == i
}

/// The rules-and-state engine: a square grid of cells plus the flag
/// budget, the revealed-cell tally and the game outcome.
pub struct Board {
    grid_size: usize,
    mine_count: usize,
    cells: Vec<Cell>,
    flags_remaining: i64,
    revealed_count: usize,
    outcome: Outcome,
}

impl Board {
    /// The grid edge length.
    pub closed spec fn n(self) -> int {
        self.grid_size as int
    }

    /// The number of mines the board was built with.
    pub closed spec fn m(self) -> int {
        self.mine_count as int
    }

    /// The row-major sequence of cells.
    pub closed spec fn cells_seq(self) -> Seq<Cell> {
        self.cells@
    }

    /// The flag budget left: mine count minus flags placed. It goes
    /// negative when more cells are flagged than there are mines.
    pub closed spec fn flags(self) -> int {
        self.flags_remaining as int
    }

    /// How many cells are revealed.
    pub closed spec fn revealed(self) -> int {
        self.revealed_count as int
    }

    /// The current outcome.
    pub closed spec fn state(self) -> Outcome {
        self.outcome
    }

    pub open spec fn total_cells(self) -> int {
        self.n() * self.n()
    }

    /// The number of non-mine cells; revealing all of them wins.
    pub open spec fn safe_cells(self) -> int {
        self.total_cells() - self.m()
    }

    /// The row-major grid of mine flags.
    pub open spec fn mines_map(self) -> Seq<bool> {
        self.cells_seq().map_values(|c: Cell| c.is_mine)
    }

    /// `pos` lies on the grid.
    pub open spec fn pos_ok(self, pos: Position) -> bool {
        pos_in_bounds(pos.row as int, pos.col as int, self.n())
    }

    /// The row-major cell index of `pos`.
    pub open spec fn pos_index(self, pos: Position) -> int {
        cell_index(self.n(), pos.row as int, pos.col as int)
    }

    /// Per-cell invariant: the stored adjacency count is the true count
    /// of mines around the cell, mines carry count 0, and a mine is
    /// never revealed.
    pub open spec fn cell_ok(self, i: int) -> bool {
        let c = self.cells_seq()[i];
        &&& (!c.is_mine ==> c.adjacent_mine_count as int == adjacent_mines(
            self.mines_map(),
            self.n(),
            i / self.n(),
            i % self.n(),
        ))
        &&& (c.is_mine ==> c.adjacent_mine_count == 0)
        &&& (c.is_mine ==> !(c.status is Revealed))
    }

    /// The board invariant: a supported grid size, exactly `m` mines,
    /// correct adjacency counts everywhere, tallies that match the
    /// cells, and an outcome consistent with the tallies.
    pub open spec fn wf(self) -> bool {
        &&& 1 <= self.n() <= MAX_GRID_SIZE as int
        &&& 0 <= self.m() < self.total_cells()
        &&& self.cells_seq().len() == self.total_cells()
        &&& count(self.cells_seq(), cell_is_mine()) == self.m()
        &&& (forall|i: int| 0 <= i < self.cells_seq().len() ==> #[trigger] self.cell_ok(i))
        &&& self.revealed() == count(self.cells_seq(), cell_is_revealed())
        &&& self.flags() == self.m() - count(self.cells_seq(), cell_is_flagged())
        &&& (self.state() is Won ==> self.revealed() == self.safe_cells())
        &&& (self.state() is InProgress ==> self.revealed() < self.safe_cells())
    }

    pub fn grid_size(&self) -> (n: usize)
        ensures
            n as int == self.n(),
    {
        self.grid_size
    }

    pub fn mine_count(&self) -> (m: usize)
        ensures
            m as int == self.m(),
    {
        self.mine_count
    }

    pub fn flags_remaining(&self) -> (f: i64)
        ensures
            f as int == self.flags(),
    {
        self.flags_remaining
    }

    pub fn revealed_count(&self) -> (r: usize)
        ensures
            r as int == self.revealed(),
    {
        self.revealed_count
    }

    pub fn outcome(&self) -> (o: Outcome)
        ensures
            o == self.state(),
    {
        self.outcome
    }

    /// The status of the cell at `pos`, or `None` outside the grid.
    pub fn cell_status(&self, pos: Position) -> (res: Option<CellStatus>)
        requires
            self.wf(),
        ensures
            res is Some <==> self.pos_ok(pos),
            res matches Some(st) ==> st == self.cells_seq()[self.pos_index(pos)].status,
    {
        if pos.row < self.grid_size && pos.col < self.grid_size {
            proof {
                lemma_grid_fits(self.n());
                lemma_cell_index_bounds(self.n(), pos.row as int, pos.col as int);
            }
            Some(self.cells[pos.row * self.grid_size + pos.col].status)
        } else {
            None
        }
    }

    /// Whether the cell at `pos` holds a mine, or `None` outside the
    /// grid. Meant for the presentation layer once the game is over.
    pub fn is_mine(&self, pos: Position) -> (res: Option<bool>)
        requires
            self.wf(),
        ensures
            res is Some <==> self.pos_ok(pos),
            res matches Some(b) ==> b == self.cells_seq()[self.pos_index(pos)].is_mine,
    {
        if pos.row < self.grid_size && pos.col < self.grid_size {
            proof {
                lemma_grid_fits(self.n());
                lemma_cell_index_bounds(self.n(), pos.row as int, pos.col as int);
            }
            Some(self.cells[pos.row * self.grid_size + pos.col].is_mine)
        } else {
            None
        }
    }

    /// The stored adjacency count of the cell at `pos`, or `None`
    /// outside the grid.
    pub fn adjacent_mine_count(&self, pos: Position) -> (res: Option<u8>)
        requires
            self.wf(),
        ensures
            res is Some <==> self.pos_ok(pos),
            res matches Some(k) ==> k == self.cells_seq()[self.pos_index(pos)].adjacent_mine_count,
    {
        if pos.row < self.grid_size && pos.col < self.grid_size {
            proof {
                lemma_grid_fits(self.n());
                lemma_cell_index_bounds(self.n(), pos.row as int, pos.col as int);
            }
            Some(self.cells[pos.row * self.grid_size + pos.col].adjacent_mine_count)
        } else {
            None
        }
    }
}

/// The number of mines among the up-to-8 neighbors of `(r, c)`, read
/// off the row-major mine grid.
fn count_adjacent_mines(mines: &Vec<bool>, n: usize, r: usize, c: usize) -> (cnt: u8)
    requires
        1 <= n <= MAX_GRID_SIZE,
        mines@.len() == (n as int) * (n as int),
        r < n,
        c < n,
    ensures
        cnt as int == adjacent_mines(mines@, n as int, r as int, c as int),
{
    proof {
        let ni = n as int;
        let ri = r as int;
        let ci = c as int;
        lemma_grid_fits(ni);
        assert((ri - 1) * ni == ri * ni - ni && (ri + 1) * ni == ri * ni + ni)
            by (nonlinear_arith);
        assert(0 <= ri * ni && ri * ni + ni <= ni * ni) by (nonlinear_arith)
            requires
                0 <= ri < ni,
        ;
        if r + 1 < n {
            assert((ri + 1) * ni + ni <= ni * ni) by (nonlinear_arith)
                requires
                    0 <= ri,
                    ri + 1 < ni,
            ;
        }
    }
    let mut cnt: u8 = 0;
    if r >= 1 {
        if c >= 1 && mines[(r - 1) * n + (c - 1)] {
            cnt = cnt + 1;
        }
        if mines[(r - 1) * n + c] {
            cnt = cnt + 1;
        }
        if c + 1 < n && mines[(r - 1) * n + (c + 1)] {
            cnt = cnt + 1;
        }
    }
    if c >= 1 && mines[r * n + (c - 1)] {
        cnt = cnt + 1;
    }
    if c + 1 < n && mines[r * n + (c + 1)] {
        cnt = cnt + 1;
    }
    if r + 1 < n {
        if c >= 1 && mines[(r + 1) * n + (c - 1)] {
            cnt = cnt + 1;
        }
        if mines[(r + 1) * n + c] {
            cnt = cnt + 1;
        }
        if c + 1 < n && mines[(r + 1) * n + (c + 1)] {
            cnt = cnt + 1;
        }
    }
    cnt
}

/// Builds the fully hidden cell grid from a mine layout: every cell
/// takes its mine flag and its true adjacency count.
fn build_cells(mines: &Vec<bool>, n: usize) -> (cells: Vec<Cell>)
    requires
        1 <= n <= MAX_GRID_SIZE,
        mines@.len() == (n as int) * (n as int),
    ensures
        cells@.len() == mines@.len(),
        forall|i: int|
            0 <= i < cells@.len() ==> {
                let cl = #[trigger] cells@[i];
                &&& cl.is_mine == mines@[i]
                &&& cl.status is Hidden
                &&& (!cl.is_mine ==> cl.adjacent_mine_count as int == adjacent_mines(
                    mines@,
                    n as int,
                    i / (n as int),
                    i % (n as int),
                ))
                &&& (cl.is_mine ==> cl.adjacent_mine_count == 0)
            },
{
    proof {
        lemma_grid_fits(n as int);
    }
    let nn = n * n;
    let mut cells: Vec<Cell> = Vec::new();
    let mut i: usize = 0;
    while i < nn
        invariant
            1 <= n <= MAX_GRID_SIZE,
            nn == (n as int) * (n as int),
            nn <= 2147395600,
            mines@.len() == nn,
            i <= nn,
            cells@.len() == i,
            forall|t: int|
                0 <= t < i ==> {
                    let cl = #[trigger] cells@[t];
                    &&& cl.is_mine == mines@[t]
                    &&& cl.status is Hidden
                    &&& (!cl.is_mine ==> cl.adjacent_mine_count as int == adjacent_mines(
                        mines@,
                        n as int,
                        t / (n as int),
                        t % (n as int),
                    ))
                    &&& (cl.is_mine ==> cl.adjacent_mine_count == 0)
                },
        decreases nn - i,
    {
        proof {
            lemma_cell_index_decompose(n as int, i as int);
        }
        let r = i / n;
        let c = i % n;
        let is_m = mines[i];
        let cnt: u8 = if is_m {
            0
        } else {
            count_adjacent_mines(mines, n, r, c)
        };
        cells.push(Cell { is_mine: is_m, adjacent_mine_count: cnt, status: CellStatus::Hidden });
        i = i + 1;
    }
    cells
}

impl Board {
    /// Assembles a fresh board around a mine layout with `mine_count`
    /// mines: all cells hidden, full flag budget, game in progress.
    fn from_mine_grid(grid_size: usize, mine_count: usize, mines: Vec<bool>) -> (b: Board)
        requires
            1 <= grid_size <= MAX_GRID_SIZE,
            mines@.len() == (grid_size as int) * (grid_size as int),
            (mine_count as int) < (grid_size as int) * (grid_size as int),
            count(mines@, bool_true()) == mine_count as int,
        ensures
            b.wf(),
            b.n() == grid_size as int,
            b.m() == mine_count as int,
            b.state() is InProgress,
            b.revealed() == 0,
            b.flags() == mine_count as int,
            forall|i: int| 0 <= i < b.cells_seq().len() ==> (#[trigger] b.cells_seq()[i]).status
                is Hidden,
            forall|i: int|
                0 <= i < b.cells_seq().len() ==> (#[trigger] b.cells_seq()[i]).is_mine
                    == mines@[i],
    {
        proof {
            lemma_grid_fits(grid_size as int);
        }
        let cells = build_cells(&mines, grid_size);
        let b = Board {
            grid_size,
            mine_count,
            cells,
            flags_remaining: mine_count as i64,
            revealed_count: 0,
            outcome: Outcome::InProgress,
        };
        proof {
            assert(b.mines_map() =~= mines@);
            lemma_count_pointwise(b.cells_seq(), mines@, cell_is_mine(), bool_true());
            lemma_count_all_false(b.cells_seq(), cell_is_revealed());
            lemma_count_all_false(b.cells_seq(), cell_is_flagged());
            assert forall|i: int| 0 <= i < b.cells_seq().len() implies #[trigger] b.cell_ok(i) by {
                assert(adjacent_mines(b.mines_map(), b.n(), i / b.n(), i % b.n())
                    == adjacent_mines(mines@, grid_size as int, i / (grid_size as int), i % (
                grid_size as int)));
            }
        }
        b
    }

    /// Draws `mine_count` distinct cell indices uniformly at random — a
    /// partial shuffle of all cell indices whose prefix becomes the
    /// mines — and returns the row-major mine grid.
    fn place_mines(n: usize, mine_count: usize) -> (mines: Vec<bool>)
        requires
            1 <= n <= MAX_GRID_SIZE,
            (mine_count as int) < (n as int) * (n as int),
        ensures
            mines@.len() == (n as int) * (n as int),
            count(mines@, bool_true()) == mine_count as int,
    {
        proof {
            lemma_grid_fits(n as int);
        }
        let nn = n * n;
        let mut perm: Vec<usize> = Vec::new();
        let mut i: usize = 0;
        while i < nn
            invariant
                i <= nn,
                perm@.len() == i,
                forall|t: int| 0 <= t < i ==> #[trigger] perm@[t] == t,
            decreases nn - i,
        {
            perm.push(i);
            i = i + 1;
        }
        let mut k: usize = 0;
        while k < mine_count
            invariant
                k <= mine_count,
                (mine_count as int) < (nn as int),
                perm@.len() == nn,
                forall|t: int| 0 <= t < nn ==> (#[trigger] perm@[t]) < nn,
                forall|t1: int, t2: int|
                    0 <= t1 < t2 < nn ==> perm@[t1] != perm@[t2],
            decreases mine_count - k,
        {
            let j = k + random_below(nn - k);
            let a = perm[k];
            let b = perm[j];
            let ghost before = perm@;
            perm[k] = b;
            perm[j] = a;
            proof {
                assert(perm@ =~= before.update(k as int, b).update(j as int, a));
                assert forall|t1: int, t2: int| 0 <= t1 < t2 < nn implies perm@[t1]
                    != perm@[t2] by {
                    assert(before[t1] != before[t2]);
                }
            }
            k = k + 1;
        }
        let mut mines: Vec<bool> = Vec::new();
        let mut t: usize = 0;
        while t < nn
            invariant
                t <= nn,
                mines@.len() == t,
                forall|s: int| 0 <= s < t ==> !(#[trigger] mines@[s]),
            decreases nn - t,
        {
            mines.push(false);
            t = t + 1;
        }
        proof {
            lemma_count_all_false(mines@, bool_true());
        }
        let mut k2: usize = 0;
        while k2 < mine_count
            invariant
                k2 <= mine_count,
                (mine_count as int) < (nn as int),
                perm@.len() == nn,
                mines@.len() == nn,
                forall|t2: int| 0 <= t2 < nn ==> (#[trigger] perm@[t2]) < nn,
                forall|t1: int, t2: int|
                    0 <= t1 < t2 < nn ==> perm@[t1] != perm@[t2],
                count(mines@, bool_true()) == k2 as int,
                forall|s: int|
                    0 <= s < nn ==> ((#[trigger] mines@[s]) <==> exists|w: int|
                        0 <= w < k2 && perm@[w] == s),
            decreases mine_count - k2,
        {
            let idx = perm[k2];
            proof {
                if mines@[idx as int] {
                    let w = choose|w: int| 0 <= w < k2 && perm@[w] == idx as int;
                    assert(perm@[w] == perm@[k2 as int]);
                    assert(false);
                }
                lemma_count_update(mines@, bool_true(), idx as int, true);
            }
            let ghost before = mines@;
            mines[idx] = true;
            proof {
                assert(mines@ =~= before.update(idx as int, true));
                assert forall|s: int| 0 <= s < nn implies ((#[trigger] mines@[s]) <==> exists|
                    w: int,
                |
                    0 <= w < k2 + 1 && perm@[w] == s) by {
                    if mines@[s] {
                        if s == idx as int {
                            assert(perm@[k2 as int] == s);
                        } else {
                            let w = choose|w: int| 0 <= w < k2 && perm@[w] == s;
                            assert(0 <= w < k2 + 1 && perm@[w] == s);
                        }
                    } else {
                        if exists|w: int| 0 <= w < k2 + 1 && perm@[w] == s {
                            let w = choose|w: int| 0 <= w < k2 + 1 && perm@[w] == s;
                            assert(w == k2 as int || (0 <= w < k2 && perm@[w] == s));
                            assert(false);
                        }
                    }
                }
            }
            k2 = k2 + 1;
        }
        mines
    }

    /// Builds a fresh board. The configuration is validated first:
    /// a zero grid size is rejected, and the mine count must leave at
    /// least one free cell, since placement could not otherwise finish.
    /// On success exactly `mine_count` distinct cells hold mines, every
    /// non-mine cell carries its true adjacency count, every cell is
    /// hidden, the flag budget equals the mine count and the game is in
    /// progress.
    pub fn create_board(grid_size: usize, mine_count: usize) -> (res: Result<Board, BoardError>)
        requires
            grid_size <= MAX_GRID_SIZE,
        ensures
            res == Err::<Board, BoardError>(BoardError::InvalidSize) <==> grid_size == 0,
            res == Err::<Board, BoardError>(BoardError::TooManyMines) <==> (grid_size >= 1
                && mine_count as int >= (grid_size as int) * (grid_size as int)),
            res is Ok <==> (grid_size >= 1 && (mine_count as int) < (grid_size as int) * (
            grid_size as int)),
            res matches Ok(b) ==> {
                &&& b.wf()
                &&& b.n() == grid_size as int
                &&& b.m() == mine_count as int
                &&& b.state() is InProgress
                &&& b.revealed() == 0
                &&& b.flags() == mine_count as int
                &&& forall|i: int|
                    0 <= i < b.cells_seq().len() ==> (#[trigger] b.cells_seq()[i]).status
                        is Hidden
            },
    {
        if grid_size == 0 {
            return Err(BoardError::InvalidSize);
        }
        proof {
            lemma_grid_fits(grid_size as int);
        }
        let nn = grid_size * grid_size;
        if mine_count >= nn {
            return Err(BoardError::TooManyMines);
        }
        let mines = Self::place_mines(grid_size, mine_count);
        Ok(Self::from_mine_grid(grid_size, mine_count, mines))
    }

    /// Deterministic placement override: builds a board whose mines sit
    /// exactly at the given positions, for reproducible setups. The
    /// list must name distinct in-bounds cells and leave a free cell.
    pub fn create_board_with_mines(grid_size: usize, mines: &Vec<Position>) -> (res: Result<
        Board,
        BoardError,
    >)
        requires
            grid_size <= MAX_GRID_SIZE,
        ensures
            res == Err::<Board, BoardError>(BoardError::InvalidSize) <==> grid_size == 0,
            res == Err::<Board, BoardError>(BoardError::OutOfBounds) <==> (grid_size >= 1
                && !all_positions_on_grid(mines@, grid_size as int)),
            res == Err::<Board, BoardError>(BoardError::DuplicateMine) <==> (grid_size >= 1
                && all_positions_on_grid(mines@, grid_size as int) && !positions_distinct(
            mines@)),
            res == Err::<Board, BoardError>(BoardError::TooManyMines) <==> (grid_size >= 1
                && all_positions_on_grid(mines@, grid_size as int) && positions_distinct(mines@)
                && mines@.len() >= (grid_size as int) * (grid_size as int)),
            res is Ok <==> (grid_size >= 1 && all_positions_on_grid(mines@, grid_size as int)
                && positions_distinct(mines@) && mines@.len() < (grid_size as int) * (
            grid_size as int)),
            res matches Ok(b) ==> {
                &&& b.wf()
                &&& b.n() == grid_size as int
                &&& b.m() == mines@.len()
                &&& b.state() is InProgress
                &&& b.revealed() == 0
                &&& b.flags() == mines@.len()
                &&& forall|i: int|
                    0 <= i < b.cells_seq().len() ==> (#[trigger] b.cells_seq()[i]).status
                        is Hidden
                &&& forall|i: int|
                    0 <= i < b.cells_seq().len() ==> ((#[trigger] b.cells_seq()[i]).is_mine
                        <==> position_marks(mines@, grid_size as int, i))
            },
    {
        if grid_size == 0 {
            return Err(BoardError::InvalidSize);
        }
        proof {
            lemma_grid_fits(grid_size as int);
        }
        let n = grid_size;
        let nn = n * n;
        let mut k: usize = 0;
        while k < mines.len()
            invariant
                n == grid_size,
                1 <= n <= MAX_GRID_SIZE,
                k <= mines@.len(),
                forall|t: int|
                    0 <= t < k ==> pos_in_bounds(
                        (#[trigger] mines@[t]).row as int,
                        mines@[t].col as int,
                        n as int,
                    ),
            decreases mines@.len() - k,
        {
            let p = mines[k];
            if p.row >= n || p.col >= n {
                return Err(BoardError::OutOfBounds);
            }
            k = k + 1;
        }
        let mut a: usize = 1;
        while a < mines.len()
            invariant
                n == grid_size,
                1 <= n <= MAX_GRID_SIZE,
                all_positions_on_grid(mines@, n as int),
                a >= 1,
                a <= mines@.len() || mines@.len() == 0,
                forall|x: int, y: int| 0 <= x < y < a && y < mines@.len() ==> mines@[x]
                    != mines@[y],
            decreases mines@.len() - a,
        {
            let mut b2: usize = 0;
            while b2 < a
                invariant
                    n == grid_size,
                    1 <= n <= MAX_GRID_SIZE,
                    all_positions_on_grid(mines@, n as int),
                    b2 <= a,
                    a < mines@.len(),
                    forall|x: int| 0 <= x < b2 ==> mines@[x] != mines@[a as int],
                    forall|x: int, y: int| 0 <= x < y < a ==> mines@[x] != mines@[y],
                decreases a - b2,
            {
                if mines[b2] == mines[a] {
                    return Err(BoardError::DuplicateMine);
                }
                b2 = b2 + 1;
            }
            a = a + 1;
        }
        if mines.len() >= nn {
            return Err(BoardError::TooManyMines);
        }
        let mut grid: Vec<bool> = Vec::new();
        let mut t: usize = 0;
        while t < nn
            invariant
                t <= nn,
                grid@.len() == t,
                forall|s: int| 0 <= s < t ==> !(#[trigger] grid@[s]),
            decreases nn - t,
        {
            grid.push(false);
            t = t + 1;
        }
        proof {
            lemma_count_all_false(grid@, bool_true());
        }
        let mut w: usize = 0;
        while w < mines.len()
            invariant
                n == grid_size,
                1 <= n <= MAX_GRID_SIZE,
                nn == (n as int) * (n as int),
                nn <= 2147395600,
                w <= mines@.len(),
                mines@.len() < nn,
                grid@.len() == nn,
                all_positions_on_grid(mines@, n as int),
                positions_distinct(mines@),
                count(grid@, bool_true()) == w as int,
                forall|s: int|
                    0 <= s < nn ==> ((#[trigger] grid@[s]) <==> exists|v: int|
                        0 <= v < w && cell_index(
                            n as int,
                            (#[trigger] mines@[v]).row as int,
                            mines@[v].col as int,
                        ) == s),
            decreases mines@.len() - w,
        {
            let p = mines[w];
            proof {
                lemma_cell_index_bounds(n as int, p.row as int, p.col as int);
            }
            let idx = p.row * n + p.col;
            proof {
                if grid@[idx as int] {
                    let v = choose|v: int|
                        0 <= v < w && cell_index(
                            n as int,
                            (#[trigger] mines@[v]).row as int,
                            mines@[v].col as int,
                        ) == idx as int;
                    if mines@[v] != p {
                        lemma_cell_index_injective(
                            n as int,
                            mines@[v].row as int,
                            mines@[v].col as int,
                            p.row as int,
                            p.col as int,
                        );
                    }
                    assert(false);
                }
                lemma_count_update(grid@, bool_true(), idx as int, true);
            }
            let ghost before = grid@;
            grid[idx] = true;
            proof {
                assert(grid@ =~= before.update(idx as int, true));
                assert forall|s: int| 0 <= s < nn implies ((#[trigger] grid@[s]) <==> exists|
                    v: int,
                |
                    0 <= v < w + 1 && cell_index(
                        n as int,
                        (#[trigger] mines@[v]).row as int,
                        mines@[v].col as int,
                    ) == s) by {
                    if grid@[s] {
                        if s == idx as int {
                            assert(cell_index(
                                n as int,
                                mines@[w as int].row as int,
                                mines@[w as int].col as int,
                            ) == s);
                        } else {
                            let v = choose|v: int|
                                0 <= v < w && cell_index(
                                    n as int,
                                    (#[trigger] mines@[v]).row as int,
                                    mines@[v].col as int,
                                ) == s;
                            assert(0 <= v < w + 1 && cell_index(
                                n as int,
                                mines@[v].row as int,
                                mines@[v].col as int,
                            ) == s);
                        }
                    } else {
                        if exists|v: int|
                            0 <= v < w + 1 && cell_index(
                                n as int,
                                (#[trigger] mines@[v]).row as int,
                                mines@[v].col as int,
                            ) == s {
                            let v = choose|v: int|
                                0 <= v < w + 1 && cell_index(
                                    n as int,
                                    (#[trigger] mines@[v]).row as int,
                                    mines@[v].col as int,
                                ) == s;
                            assert(v == w as int || (0 <= v < w && cell_index(
                                n as int,
                                mines@[v].row as int,
                                mines@[v].col as int,
                            ) == s));
                            assert(false);
                        }
                    }
                }
            }
            w = w + 1;
        }
        let b = Self::from_mine_grid(n, mines.len(), grid);
        Ok(b)
    }

    /// Resets the board in place with a fresh configuration: validation
    /// and mine placement run exactly as in [`Board::create_board`]. On
    /// a rejected configuration the board is left untouched.
    pub fn reset_board(&mut self, grid_size: usize, mine_count: usize) -> (res: Result<
        (),
        BoardError,
    >)
        requires
            grid_size <= MAX_GRID_SIZE,
        ensures
            res == Err::<(), BoardError>(BoardError::InvalidSize) <==> grid_size == 0,
            res == Err::<(), BoardError>(BoardError::TooManyMines) <==> (grid_size >= 1
                && mine_count as int >= (grid_size as int) * (grid_size as int)),
            res is Ok <==> (grid_size >= 1 && (mine_count as int) < (grid_size as int) * (
            grid_size as int)),
            res is Err ==> *final(self) == *old(self),
            res is Ok ==> {
                &&& final(self).wf()
                &&& final(self).n() == grid_size as int
                &&& final(self).m() == mine_count as int
                &&& final(self).state() is InProgress
                &&& final(self).revealed() == 0
                &&& final(self).flags() == mine_count as int
                &&& forall|i: int|
                    0 <= i < final(self).cells_seq().len()
                        ==> (#[trigger] final(self).cells_seq()[i]).status is Hidden
            },
    {
        match Self::create_board(grid_size, mine_count) {
            Ok(b) => {
                *self = b;
                Ok(())
            },
            Err(e) => Err(e),
        }
    }

    /// Toggles the flag on the cell at `pos`: `Hidden` to `Flagged`
    /// spends one flag, `Flagged` back to `Hidden` refunds it. The
    /// budget is deliberately not clamped and goes negative when more
    /// cells are flagged than there are mines. A revealed cell, or any
    /// call once the game is over, is silently ignored (`Ok(None)`);
    /// an out-of-bounds position is a caller error.
    pub fn toggle_flag(&mut self, pos: Position) -> (res: Result<Option<i64>, BoardError>)
        requires
            old(self).wf(),
        ensures
            final(self).wf(),
            res is Err <==> !old(self).pos_ok(pos),
            res is Err ==> *final(self) == *old(self) && res == Err::<Option<i64>, BoardError>(
                BoardError::OutOfBounds,
            ),
            old(self).pos_ok(pos) && (!(old(self).state() is InProgress) || old(
                self,
            ).cells_seq()[old(self).pos_index(pos)].status is Revealed) ==> *final(self) == *old(
                self,
            ) && res == Ok::<Option<i64>, BoardError>(None),
            old(self).pos_ok(pos) && old(self).state() is InProgress && !(old(self).cells_seq()[old(
                self,
            ).pos_index(pos)].status is Revealed) ==> {
                &&& flag_toggled(*old(self), *final(self), old(self).pos_index(pos))
                &&& res matches Ok(o) && o matches Some(f) && f as int == final(self).flags()
            },
    {
        if pos.row >= self.grid_size || pos.col >= self.grid_size {
            return Err(BoardError::OutOfBounds);
        }
        proof {
            lemma_grid_fits(self.n());
            lemma_cell_index_bounds(self.n(), pos.row as int, pos.col as int);
            lemma_count_bounds(self.cells@, cell_is_flagged());
        }
        if !(self.outcome == Outcome::InProgress) {
            return Ok(None);
        }
        let i = pos.row * self.grid_size + pos.col;
        let c = self.cells[i];
        match c.status {
            CellStatus::Revealed => Ok(None),
            CellStatus::Hidden => {
                let new_c = Cell {
                    is_mine: c.is_mine,
                    adjacent_mine_count: c.adjacent_mine_count,
                    status: CellStatus::Flagged,
                };
                let ghost pre = *self;
                proof {
                    lemma_count_update(self.cells@, cell_is_flagged(), i as int, new_c);
                    lemma_count_update(self.cells@, cell_is_revealed(), i as int, new_c);
                    lemma_count_update(self.cells@, cell_is_mine(), i as int, new_c);
                }
                self.cells[i] = new_c;
                self.flags_remaining = self.flags_remaining - 1;
                proof {
                    lemma_toggle_preserves_wf(pre, *self, i as int);
                }
                Ok(Some(self.flags_remaining))
            },
            CellStatus::Flagged => {
                let new_c = Cell {
                    is_mine: c.is_mine,
                    adjacent_mine_count: c.adjacent_mine_count,
                    status: CellStatus::Hidden,
                };
                let ghost pre = *self;
                proof {
                    lemma_count_update(self.cells@, cell_is_flagged(), i as int, new_c);
                    lemma_count_update(self.cells@, cell_is_revealed(), i as int, new_c);
                    lemma_count_update(self.cells@, cell_is_mine(), i as int, new_c);
                }
                self.cells[i] = new_c;
                self.flags_remaining = self.flags_remaining + 1;
                proof {
                    lemma_toggle_preserves_wf(pre, *self, i as int);
                }
                Ok(Some(self.flags_remaining))
            },
        }
    }

    /// Reveals the cell at `pos`. A hidden non-mine cell turns
    /// `Revealed`; when its adjacency count is zero the reveal cascades
    /// through the connected zero region and its numbered border, by an
    /// iterative flood fill. A numbered cell reveals only itself, and a
    /// flagged cell is never revealed by the cascade. Revealing a mine
    /// loses the game on the spot and reveals nothing. Revealing a
    /// revealed or flagged cell — a flagged cell must be unflagged
    /// first — or any cell once the game is over, is a no-op returning
    /// an empty change set. Revealing the last hidden non-mine cell
    /// wins the game. An out-of-bounds position is a caller error.
    #[verifier::loop_isolation(false)]
    #[verifier::rlimit(100)]
    pub fn reveal_cell(&mut self, pos: Position) -> (res: Result<RevealReport, BoardError>)
        requires
            old(self).wf(),
        ensures
            final(self).wf(),
            final(self).n() == old(self).n(),
            final(self).m() == old(self).m(),
            final(self).flags() == old(self).flags(),
            only_reveals(old(self).cells_seq(), final(self).cells_seq()),
            res is Err <==> !old(self).pos_ok(pos),
            res is Err ==> *final(self) == *old(self) && res == Err::<RevealReport, BoardError>(
                BoardError::OutOfBounds,
            ),
            old(self).pos_ok(pos) && (!(old(self).state() is InProgress) || !(old(
                self,
            ).cells_seq()[old(self).pos_index(pos)].status is Hidden)) ==> *final(self) == *old(
                self,
            ) && (res matches Ok(rep) && rep.revealed@.len() == 0 && rep.hit_mine is None
                && rep.outcome == old(self).state()),
            old(self).pos_ok(pos) && old(self).state() is InProgress && old(self).cells_seq()[old(
                self,
            ).pos_index(pos)].status is Hidden && old(self).cells_seq()[old(self).pos_index(
                pos,
            )].is_mine ==> {
                &&& final(self).cells_seq() == old(self).cells_seq()
                &&& final(self).revealed() == old(self).revealed()
                &&& final(self).state() is Lost
                &&& (res matches Ok(rep) && rep.revealed@.len() == 0 && rep.hit_mine == Some(pos)
                    && rep.outcome is Lost)
            },
            old(self).pos_ok(pos) && old(self).state() is InProgress && old(self).cells_seq()[old(
                self,
            ).pos_index(pos)].status is Hidden && !old(self).cells_seq()[old(self).pos_index(
                pos,
            )].is_mine ==> {
                &&& newly_revealed(
                    old(self).cells_seq(),
                    final(self).cells_seq(),
                    old(self).pos_index(pos),
                )
                &&& final(self).revealed() > old(self).revealed()
                &&& !(final(self).state() is Lost)
                &&& (final(self).state() is Won <==> final(self).revealed() == final(
                    self).safe_cells())
                &&& cascade_complete(old(self).cells_seq(), final(self).cells_seq(), old(self).n())
                &&& cascade_reached(
                    old(self).cells_seq(),
                    final(self).cells_seq(),
                    old(self).n(),
                    old(self).pos_index(pos),
                )
                &&& (forall|t: int|
                    0 <= t < final(self).cells_seq().len() && #[trigger] newly_revealed(
                        old(self).cells_seq(),
                        final(self).cells_seq(),
                        t,
                    ) ==> reachable_from(
                        old(self).cells_seq(),
                        old(self).n(),
                        old(self).pos_index(pos),
                        t,
                    ))
                &&& (old(self).cells_seq()[old(self).pos_index(pos)].adjacent_mine_count != 0
                    ==> forall|t: int|
                    0 <= t < final(self).cells_seq().len() && newly_revealed(
                        old(self).cells_seq(),
                        final(self).cells_seq(),
                        t,
                    ) ==> t == old(self).pos_index(pos))
                &&& (res matches Ok(rep) && rep.hit_mine is None && rep.outcome == final(
                    self).state() && report_matches(
                    old(self).cells_seq(),
                    final(self).cells_seq(),
                    old(self).n(),
                    rep.revealed@,
                ))
            },
    {
        broadcast use vstd::seq_lib::lemma_seq_contains_after_push;

        let n = self.grid_size;
        if pos.row >= n || pos.col >= n {
            return Err(BoardError::OutOfBounds);
        }
        proof {
            lemma_grid_fits(n as int);
            lemma_cell_index_bounds(n as int, pos.row as int, pos.col as int);
            lemma_cell_index_recompose(n as int, pos.row as int, pos.col as int);
        }
        let i = pos.row * n + pos.col;
        if self.outcome != Outcome::InProgress {
            return Ok(
                RevealReport { revealed: Vec::new(), hit_mine: None, outcome: self.outcome },
            );
        }
        if self.cells[i].status != CellStatus::Hidden {
            return Ok(
                RevealReport { revealed: Vec::new(), hit_mine: None, outcome: self.outcome },
            );
        }
        if self.cells[i].is_mine {
            let ghost orig = *self;
            self.outcome = Outcome::Lost;
            proof {
                assert forall|t: int| 0 <= t < self.cells@.len() implies #[trigger] self.cell_ok(
                    t,
                ) by {
                    assert(orig.cell_ok(t));
                }
            }
            return Ok(
                RevealReport {
                    revealed: Vec::new(),
                    hit_mine: Some(pos),
                    outcome: Outcome::Lost,
                },
            );
        }
        let ghost pre = *self;
        let c0 = self.cells[i];
        let new_c0 = Cell {
            is_mine: c0.is_mine,
            adjacent_mine_count: c0.adjacent_mine_count,
            status: CellStatus::Revealed,
        };
        proof {
            lemma_count_bounds(self.cells@, cell_is_revealed());
            lemma_count_update(self.cells@, cell_is_revealed(), i as int, new_c0);
            lemma_count_update(self.cells@, cell_is_hidden(), i as int, new_c0);
        }
        self.cells[i] = new_c0;
        self.revealed_count = self.revealed_count + 1;
        let mut revealed_list: Vec<RevealedCell> = Vec::new();
        revealed_list.push(
            RevealedCell { position: pos, adjacent_mine_count: c0.adjacent_mine_count },
        );
        proof {
            assert forall|t: int|
                0 <= t < self.cells@.len() && #[trigger] newly_revealed(
                    pre.cells@,
                    self.cells@,
                    t,
                ) implies t == i as int by {}
            assert(revealed_list@.len() == 1);
            assert(revealed_list@[0] == RevealedCell {
                position: pos,
                adjacent_mine_count: c0.adjacent_mine_count,
            });
            assert(cell_index(n as int, pos.row as int, pos.col as int) == i as int);
            assert(report_matches(pre.cells@, self.cells@, n as int, revealed_list@));
            assert(is_zero_chain(pre.cells@, n as int, seq![i as int]));
            assert(reachable_from(pre.cells@, n as int, i as int, i as int));
        }
        if c0.adjacent_mine_count == 0 {
            let mut stack: Vec<Position> = neighbors(pos, n);
            proof {
                assert(self.mines_map() =~= pre.mines_map());
                assert(pre.cell_ok(i as int));
                lemma_zero_adjacent_mines(
                    pre.mines_map(),
                    n as int,
                    pos.row as int,
                    pos.col as int,
                );
                assert forall|k: int| 0 <= k < stack@.len() implies stack_elem_ok(
                    *self,
                    #[trigger] stack@[k],
                ) && touches_new_zero(
                    pre.cells@,
                    self.cells@,
                    n as int,
                    stack@[k].row as int,
                    stack@[k].col as int,
                ) by {
                    let q = stack@[k];
                    assert(stack@.contains(q));
                    assert(pos_in_bounds(q.row as int, q.col as int, n as int) && adjacent(
                        pos.row as int,
                        pos.col as int,
                        q.row as int,
                        q.col as int,
                    ));
                    lemma_cell_index_bounds(n as int, q.row as int, q.col as int);
                    assert(!pre.mines_map()[cell_index(n as int, q.row as int, q.col as int)]);
                }
                assert forall|r1: int, c1: int, r2: int, c2: int|
                    pos_in_bounds(r1, c1, n as int) && pos_in_bounds(r2, c2, n as int)
                        && #[trigger] adjacent(r1, c1, r2, c2) && newly_revealed(
                        pre.cells@,
                        self.cells@,
                        cell_index(n as int, r1, c1),
                    ) && self.cells@[cell_index(n as int, r1, c1)].adjacent_mine_count == 0
                        && self.cells@[cell_index(n as int, r2, c2)].status
                        is Hidden implies stack@.contains(
                    Position { row: r2 as usize, col: c2 as usize },
                ) by {
                    lemma_cell_index_bounds(n as int, r1, c1);
                    lemma_cell_index_bounds(n as int, r2, c2);
                    if !(r1 == pos.row as int && c1 == pos.col as int) {
                        lemma_cell_index_injective(n as int, r1, c1, pos.row as int, pos.col as int);
                    }
                    assert(adjacent(pos.row as int, pos.col as int, r2, c2));
                    assert(stack@.contains(Position { row: r2 as usize, col: c2 as usize }));
                }
            }
            while stack.len() > 0
                invariant
                    self.grid_size == pre.grid_size,
                    self.mine_count == pre.mine_count,
                    self.flags_remaining == pre.flags_remaining,
                    self.outcome == pre.outcome,
                    self.cells@.len() == pre.cells@.len(),
                    only_reveals(pre.cells@, self.cells@),
                    newly_revealed(pre.cells@, self.cells@, i as int),
                    self.revealed_count as int == count(self.cells@, cell_is_revealed()),
                    (pre.revealed_count as int) < self.revealed_count as int,
                    forall|k: int|
                        0 <= k < stack@.len() ==> stack_elem_ok(*self, #[trigger] stack@[k]),
                    forall|k: int|
                        0 <= k < stack@.len() ==> touches_new_zero(
                            pre.cells@,
                            self.cells@,
                            n as int,
                            (#[trigger] stack@[k]).row as int,
                            stack@[k].col as int,
                        ),
                    forall|r1: int, c1: int, r2: int, c2: int|
                        pos_in_bounds(r1, c1, n as int) && pos_in_bounds(r2, c2, n as int)
                            && #[trigger] adjacent(r1, c1, r2, c2) && newly_revealed(
                            pre.cells@,
                            self.cells@,
                            cell_index(n as int, r1, c1),
                        ) && self.cells@[cell_index(n as int, r1, c1)].adjacent_mine_count == 0
                            && self.cells@[cell_index(n as int, r2, c2)].status is Hidden
                            ==> stack@.contains(
                            Position { row: r2 as usize, col: c2 as usize },
                        ),
                    cascade_reached(pre.cells@, self.cells@, n as int, i as int),
                    forall|t: int|
                        0 <= t < self.cells@.len() && #[trigger] newly_revealed(
                            pre.cells@,
                            self.cells@,
                            t,
                        ) ==> reachable_from(pre.cells@, n as int, i as int, t),
                    report_matches(pre.cells@, self.cells@, n as int, revealed_list@),
                decreases count(self.cells@, cell_is_hidden()), stack@.len(),
            {
                let ghost stack_pre = stack@;
                let p = stack.pop().unwrap();
                proof {
                    lemma_pop_contains(stack_pre);
                    assert(stack_elem_ok(*self, p));
                    lemma_cell_index_bounds(n as int, p.row as int, p.col as int);
                    lemma_cell_index_recompose(n as int, p.row as int, p.col as int);
                }
                let pi = p.row * n + p.col;
                if self.cells[pi].status == CellStatus::Hidden {
                    let cp = self.cells[pi];
                    let new_cp = Cell {
                        is_mine: cp.is_mine,
                        adjacent_mine_count: cp.adjacent_mine_count,
                        status: CellStatus::Revealed,
                    };
                    proof {
                        lemma_count_bounds(self.cells@, cell_is_revealed());
                        lemma_count_update(self.cells@, cell_is_revealed(), pi as int, new_cp);
                        lemma_count_update(self.cells@, cell_is_hidden(), pi as int, new_cp);
                        lemma_count_bounds(self.cells@, cell_is_hidden());
                    }
                    let ghost cells_before = self.cells@;
                    self.cells[pi] = new_cp;
                    proof {
                        lemma_count_bounds(self.cells@, cell_is_hidden());
                    }
                    self.revealed_count = self.revealed_count + 1;
                    let ghost rep_before = revealed_list@;
                    revealed_list.push(
                        RevealedCell { position: p, adjacent_mine_count: cp.adjacent_mine_count },
                    );
                    proof {
                        // the fresh entry names a cell this call revealed
                        assert(newly_revealed(pre.cells@, self.cells@, pi as int));
                        // the popped cell reached the stack from a revealed zero cell
                        assert(touches_new_zero(
                            pre.cells@,
                            cells_before,
                            n as int,
                            p.row as int,
                            p.col as int,
                        ));
                        assert forall|t: int|
                            0 <= t < self.cells@.len() && #[trigger] newly_revealed(
                                pre.cells@,
                                self.cells@,
                                t,
                            ) implies t == i as int || touches_new_zero(
                            pre.cells@,
                            self.cells@,
                            n as int,
                            t / (n as int),
                            t % (n as int),
                        ) by {
                            if t == pi as int {
                                let (zr, zc) = choose|zr: int, zc: int|
                                    pos_in_bounds(zr, zc, n as int) && #[trigger] adjacent(
                                        zr,
                                        zc,
                                        p.row as int,
                                        p.col as int,
                                    ) && newly_revealed(
                                        pre.cells@,
                                        cells_before,
                                        cell_index(n as int, zr, zc),
                                    ) && cells_before[cell_index(
                                        n as int,
                                        zr,
                                        zc,
                                    )].adjacent_mine_count == 0;
                                lemma_cell_index_bounds(n as int, zr, zc);
                                assert(cell_index(n as int, zr, zc) != pi as int);
                                assert(newly_revealed(
                                    pre.cells@,
                                    self.cells@,
                                    cell_index(n as int, zr, zc),
                                ));
                            } else if t == i as int {
                                // the clicked cell itself satisfies the claim directly
                            } else {
                                assert(newly_revealed(pre.cells@, cells_before, t));
                                assert(touches_new_zero(
                                    pre.cells@,
                                    cells_before,
                                    n as int,
                                    t / (n as int),
                                    t % (n as int),
                                ));
                                let (zr, zc) = choose|zr: int, zc: int|
                                    pos_in_bounds(zr, zc, n as int) && #[trigger] adjacent(
                                        zr,
                                        zc,
                                        t / (n as int),
                                        t % (n as int),
                                    ) && newly_revealed(
                                        pre.cells@,
                                        cells_before,
                                        cell_index(n as int, zr, zc),
                                    ) && cells_before[cell_index(
                                        n as int,
                                        zr,
                                        zc,
                                    )].adjacent_mine_count == 0;
                                lemma_cell_index_bounds(n as int, zr, zc);
                                assert(cell_index(n as int, zr, zc) != pi as int);
                                assert(newly_revealed(
                                    pre.cells@,
                                    self.cells@,
                                    cell_index(n as int, zr, zc),
                                ));
                            }
                        }
                        // every revealed cell keeps a zero chain back to the click
                        assert forall|t: int|
                            0 <= t < self.cells@.len() && #[trigger] newly_revealed(
                                pre.cells@,
                                self.cells@,
                                t,
                            ) implies reachable_from(pre.cells@, n as int, i as int, t) by {
                            if t == pi as int {
                                let (zr, zc) = choose|zr: int, zc: int|
                                    pos_in_bounds(zr, zc, n as int) && #[trigger] adjacent(
                                        zr,
                                        zc,
                                        p.row as int,
                                        p.col as int,
                                    ) && newly_revealed(
                                        pre.cells@,
                                        cells_before,
                                        cell_index(n as int, zr, zc),
                                    ) && cells_before[cell_index(
                                        n as int,
                                        zr,
                                        zc,
                                    )].adjacent_mine_count == 0;
                                lemma_cell_index_bounds(n as int, zr, zc);
                                lemma_cell_index_recompose(n as int, zr, zc);
                                let zi = cell_index(n as int, zr, zc);
                                assert(reachable_from(pre.cells@, n as int, i as int, zi));
                                let path = choose|path: Seq<int>|
                                    #[trigger] is_zero_chain(pre.cells@, n as int, path)
                                        && path.len() >= 1 && path[0] == i as int
                                        && path[path.len() - 1] == zi && (forall|k: int|
                                        1 <= k < path.len()
                                            ==> pre.cells@[#[trigger] path[k]].status is Hidden);
                                assert(pre.cells@[zi].adjacent_mine_count == 0);
                                assert(pre.cells@[pi as int].status is Hidden);
                                lemma_zero_chain_extend(pre.cells@, n as int, path, pi as int);
                                let path2 = path.push(pi as int);
                                assert(path2[path2.len() - 1] == pi as int);
                                assert(path2[0] == i as int);
                                assert forall|k: int|
                                    1 <= k < path2.len() implies pre.cells@[#[trigger] path2[k]].status
                                    is Hidden by {
                                    if k < path.len() {
                                        assert(path2[k] == path[k]);
                                    } else {
                                        assert(path2[k] == pi as int);
                                    }
                                }
                                assert(reachable_from(pre.cells@, n as int, i as int, pi as int));
                            } else {
                                assert(newly_revealed(pre.cells@, cells_before, t));
                            }
                        }
                        // the change list stays exact
                        assert forall|k: int| 0 <= k < revealed_list@.len() implies {
                            let rc = #[trigger] revealed_list@[k];
                            &&& pos_in_bounds(rc.position.row as int, rc.position.col as int, n as int)
                            &&& newly_revealed(
                                pre.cells@,
                                self.cells@,
                                cell_index(n as int, rc.position.row as int, rc.position.col as int),
                            )
                            &&& rc.adjacent_mine_count == self.cells@[cell_index(
                                n as int,
                                rc.position.row as int,
                                rc.position.col as int,
                            )].adjacent_mine_count
                        } by {
                            if k < rep_before.len() {
                                let rc = rep_before[k];
                                lemma_cell_index_bounds(
                                    n as int,
                                    rc.position.row as int,
                                    rc.position.col as int,
                                );
                                assert(cell_index(
                                    n as int,
                                    rc.position.row as int,
                                    rc.position.col as int,
                                ) != pi as int);
                            } else {
                                assert(revealed_list@[k] == RevealedCell {
                                    position: p,
                                    adjacent_mine_count: cp.adjacent_mine_count,
                                });
                                assert(cell_index(n as int, p.row as int, p.col as int)
                                    == pi as int);
                                assert(pre.cells@[pi as int].status is Hidden);
                            }
                        }
                        assert forall|t: int|
                            0 <= t < self.cells@.len() && #[trigger] newly_revealed(
                                pre.cells@,
                                self.cells@,
                                t,
                            ) implies exists|k: int|
                            0 <= k < revealed_list@.len() && cell_index(
                                n as int,
                                (#[trigger] revealed_list@[k]).position.row as int,
                                revealed_list@[k].position.col as int,
                            ) == t by {
                            if t == pi as int {
                                assert(revealed_list@[revealed_list@.len() - 1].position == p);
                            } else {
                                assert(newly_revealed(pre.cells@, cells_before, t));
                                let k = choose|k: int|
                                    0 <= k < rep_before.len() && cell_index(
                                        n as int,
                                        (#[trigger] rep_before[k]).position.row as int,
                                        rep_before[k].position.col as int,
                                    ) == t;
                                assert(revealed_list@[k] == rep_before[k]);
                            }
                        }
                        assert forall|k1: int, k2: int|
                            0 <= k1 < k2 < revealed_list@.len() implies (#[trigger] revealed_list@[k1]).position
                            != (#[trigger] revealed_list@[k2]).position by {
                            if k2 == revealed_list@.len() - 1 {
                                let rc = rep_before[k1];
                                lemma_cell_index_bounds(
                                    n as int,
                                    rc.position.row as int,
                                    rc.position.col as int,
                                );
                                assert(cell_index(
                                    n as int,
                                    rc.position.row as int,
                                    rc.position.col as int,
                                ) != pi as int);
                            }
                        }
                        // the rest of the stack keeps its guarantees
                        assert forall|k: int| 0 <= k < stack@.len() implies stack_elem_ok(
                            *self,
                            #[trigger] stack@[k],
                        ) && touches_new_zero(
                            pre.cells@,
                            self.cells@,
                            n as int,
                            stack@[k].row as int,
                            stack@[k].col as int,
                        ) by {
                            assert(stack@[k] == stack_pre[k]);
                            let q = stack@[k];
                            lemma_cell_index_bounds(n as int, q.row as int, q.col as int);
                            lemma_touches_lift(
                                pre.cells@,
                                cells_before,
                                self.cells@,
                                n as int,
                                pi as int,
                                q.row as int,
                                q.col as int,
                            );
                        }
                    }
                    if cp.adjacent_mine_count == 0 {
                        let nbrs = neighbors(p, n);
                        proof {
                            assert(self.mines_map() =~= pre.mines_map());
                            assert(pre.cell_ok(pi as int));
                            lemma_zero_adjacent_mines(
                                pre.mines_map(),
                                n as int,
                                p.row as int,
                                p.col as int,
                            );
                            assert forall|s: int| 0 <= s < nbrs@.len() implies stack_elem_ok(
                                *self,
                                #[trigger] nbrs@[s],
                            ) && touches_new_zero(
                                pre.cells@,
                                self.cells@,
                                n as int,
                                nbrs@[s].row as int,
                                nbrs@[s].col as int,
                            ) by {
                                let q = nbrs@[s];
                                assert(nbrs@.contains(q));
                                lemma_cell_index_bounds(n as int, q.row as int, q.col as int);
                                assert(!pre.mines_map()[cell_index(
                                    n as int,
                                    q.row as int,
                                    q.col as int,
                                )]);
                                assert(adjacent(p.row as int, p.col as int, q.row as int, q.col as int));
                            }
                            assert forall|r1: int, c1: int, r2: int, c2: int|
                                pos_in_bounds(r1, c1, n as int) && pos_in_bounds(r2, c2, n as int)
                                    && #[trigger] adjacent(r1, c1, r2, c2) && newly_revealed(
                                    pre.cells@,
                                    self.cells@,
                                    cell_index(n as int, r1, c1),
                                ) && self.cells@[cell_index(
                                    n as int,
                                    r1,
                                    c1,
                                )].adjacent_mine_count == 0 && self.cells@[cell_index(
                                    n as int,
                                    r2,
                                    c2,
                                )].status is Hidden && cell_index(n as int, r1, c1)
                                    != pi as int implies stack@.contains(
                                Position { row: r2 as usize, col: c2 as usize },
                            ) by {
                                lemma_cell_index_bounds(n as int, r1, c1);
                                lemma_cell_index_bounds(n as int, r2, c2);
                                let q2 = Position { row: r2 as usize, col: c2 as usize };
                                assert(newly_revealed(
                                    pre.cells@,
                                    cells_before,
                                    cell_index(n as int, r1, c1),
                                ));
                                assert(cells_before[cell_index(
                                    n as int,
                                    r1,
                                    c1,
                                )].adjacent_mine_count == 0);
                                if cell_index(n as int, r2, c2) == pi as int {
                                    assert(false);
                                }
                                assert(cells_before[cell_index(n as int, r2, c2)].status
                                    is Hidden);
                                assert(stack_pre.contains(q2));
                                if q2 == p {
                                    assert(cell_index(n as int, r2, c2) == pi as int);
                                    assert(false);
                                }
                            }
                        }
                        let mut t2: usize = 0;
                        while t2 < nbrs.len()
                            invariant
                                t2 <= nbrs@.len(),
                                forall|k: int|
                                    0 <= k < stack@.len() ==> stack_elem_ok(
                                        *self,
                                        #[trigger] stack@[k],
                                    ),
                                forall|k: int|
                                    0 <= k < stack@.len() ==> touches_new_zero(
                                        pre.cells@,
                                        self.cells@,
                                        n as int,
                                        (#[trigger] stack@[k]).row as int,
                                        stack@[k].col as int,
                                    ),
                                forall|s: int|
                                    0 <= s < t2 ==> stack@.contains(#[trigger] nbrs@[s]),
                                forall|r1: int, c1: int, r2: int, c2: int|
                                    pos_in_bounds(r1, c1, n as int) && pos_in_bounds(
                                        r2,
                                        c2,
                                        n as int,
                                    ) && #[trigger] adjacent(r1, c1, r2, c2) && newly_revealed(
                                        pre.cells@,
                                        self.cells@,
                                        cell_index(n as int, r1, c1),
                                    ) && self.cells@[cell_index(
                                        n as int,
                                        r1,
                                        c1,
                                    )].adjacent_mine_count == 0 && self.cells@[cell_index(
                                        n as int,
                                        r2,
                                        c2,
                                    )].status is Hidden && cell_index(n as int, r1, c1)
                                        != pi as int ==> stack@.contains(
                                        Position { row: r2 as usize, col: c2 as usize },
                                    ),
                            decreases nbrs@.len() - t2,
                        {
                            let q = nbrs[t2];
                            stack.push(q);
                            t2 = t2 + 1;
                        }
                        proof {
                            assert forall|r1: int, c1: int, r2: int, c2: int|
                                pos_in_bounds(r1, c1, n as int) && pos_in_bounds(r2, c2, n as int)
                                    && #[trigger] adjacent(r1, c1, r2, c2) && newly_revealed(
                                    pre.cells@,
                                    self.cells@,
                                    cell_index(n as int, r1, c1),
                                ) && self.cells@[cell_index(
                                    n as int,
                                    r1,
                                    c1,
                                )].adjacent_mine_count == 0 && self.cells@[cell_index(
                                    n as int,
                                    r2,
                                    c2,
                                )].status is Hidden implies stack@.contains(
                                Position { row: r2 as usize, col: c2 as usize },
                            ) by {
                                if cell_index(n as int, r1, c1) == pi as int {
                                    if !(r1 == p.row as int && c1 == p.col as int) {
                                        lemma_cell_index_injective(
                                            n as int,
                                            r1,
                                            c1,
                                            p.row as int,
                                            p.col as int,
                                        );
                                    }
                                    let q2 = Position { row: r2 as usize, col: c2 as usize };
                                    assert(nbrs@.contains(q2));
                                    let s = choose|s: int| 0 <= s < nbrs@.len() && nbrs@[s] == q2;
                                    assert(stack@.contains(nbrs@[s]));
                                }
                            }
                        }
                    } else {
                        proof {
                            assert forall|r1: int, c1: int, r2: int, c2: int|
                                pos_in_bounds(r1, c1, n as int) && pos_in_bounds(r2, c2, n as int)
                                    && #[trigger] adjacent(r1, c1, r2, c2) && newly_revealed(
                                    pre.cells@,
                                    self.cells@,
                                    cell_index(n as int, r1, c1),
                                ) && self.cells@[cell_index(
                                    n as int,
                                    r1,
                                    c1,
                                )].adjacent_mine_count == 0 && self.cells@[cell_index(
                                    n as int,
                                    r2,
                                    c2,
                                )].status is Hidden implies stack@.contains(
                                Position { row: r2 as usize, col: c2 as usize },
                            ) by {
                                lemma_cell_index_bounds(n as int, r1, c1);
                                lemma_cell_index_bounds(n as int, r2, c2);
                                if cell_index(n as int, r1, c1) == pi as int {
                                    assert(self.cells@[pi as int].adjacent_mine_count
                                        == cp.adjacent_mine_count);
                                    assert(false);
                                } else {
                                    let q2 = Position { row: r2 as usize, col: c2 as usize };
                                    assert(newly_revealed(
                                        pre.cells@,
                                        cells_before,
                                        cell_index(n as int, r1, c1),
                                    ));
                                    assert(cells_before[cell_index(
                                        n as int,
                                        r1,
                                        c1,
                                    )].adjacent_mine_count == 0);
                                    if cell_index(n as int, r2, c2) == pi as int {
                                        assert(false);
                                    }
                                    assert(cells_before[cell_index(n as int, r2, c2)].status
                                        is Hidden);
                                    assert(stack_pre.contains(q2));
                                    if q2 == p {
                                        assert(cell_index(n as int, r2, c2) == pi as int);
                                        assert(false);
                                    }
                                }
                            }
                        }
                    }
                } else {
                    proof {
                        lemma_count_bounds(self.cells@, cell_is_hidden());
                        assert forall|k: int| 0 <= k < stack@.len() implies stack_elem_ok(
                            *self,
                            #[trigger] stack@[k],
                        ) && touches_new_zero(
                            pre.cells@,
                            self.cells@,
                            n as int,
                            stack@[k].row as int,
                            stack@[k].col as int,
                        ) by {
                            assert(stack@[k] == stack_pre[k]);
                        }
                        assert forall|r1: int, c1: int, r2: int, c2: int|
                            pos_in_bounds(r1, c1, n as int) && pos_in_bounds(r2, c2, n as int)
                                && #[trigger] adjacent(r1, c1, r2, c2) && newly_revealed(
                                pre.cells@,
                                self.cells@,
                                cell_index(n as int, r1, c1),
                            ) && self.cells@[cell_index(n as int, r1, c1)].adjacent_mine_count == 0
                                && self.cells@[cell_index(n as int, r2, c2)].status
                                is Hidden implies stack@.contains(
                            Position { row: r2 as usize, col: c2 as usize },
                        ) by {
                            lemma_cell_index_bounds(n as int, r1, c1);
                            lemma_cell_index_bounds(n as int, r2, c2);
                            let q2 = Position { row: r2 as usize, col: c2 as usize };
                            assert(stack_pre.contains(q2));
                            if q2 == p {
                                assert(cell_index(n as int, r2, c2) == pi as int);
                                assert(false);
                            }
                        }
                    }
                }
            }
            proof {
                assert forall|r1: int, c1: int, r2: int, c2: int|
                    pos_in_bounds(r1, c1, n as int) && pos_in_bounds(r2, c2, n as int)
                        && #[trigger] adjacent(r1, c1, r2, c2) && newly_revealed(
                        pre.cells@,
                        self.cells@,
                        cell_index(n as int, r1, c1),
                    ) && self.cells@[cell_index(n as int, r1, c1)].adjacent_mine_count == 0
                        && pre.cells@[cell_index(n as int, r2, c2)].status
                        is Hidden implies self.cells@[cell_index(n as int, r2, c2)].status
                    is Revealed by {
                    lemma_cell_index_bounds(n as int, r1, c1);
                    lemma_cell_index_bounds(n as int, r2, c2);
                    if self.cells@[cell_index(n as int, r2, c2)].status is Hidden {
                        assert(stack@.contains(Position { row: r2 as usize, col: c2 as usize }));
                        assert(false);
                    }
                }
                assert(cascade_complete(pre.cells@, self.cells@, n as int));
            }
        } else {
            proof {
                assert forall|r1: int, c1: int, r2: int, c2: int|
                    pos_in_bounds(r1, c1, n as int) && pos_in_bounds(r2, c2, n as int)
                        && #[trigger] adjacent(r1, c1, r2, c2) && newly_revealed(
                        pre.cells@,
                        self.cells@,
                        cell_index(n as int, r1, c1),
                    ) && self.cells@[cell_index(n as int, r1, c1)].adjacent_mine_count == 0
                        && pre.cells@[cell_index(n as int, r2, c2)].status
                        is Hidden implies self.cells@[cell_index(n as int, r2, c2)].status
                    is Revealed by {
                    lemma_cell_index_bounds(n as int, r1, c1);
                    assert(cell_index(n as int, r1, c1) == i as int);
                    assert(false);
                }
                assert(cascade_complete(pre.cells@, self.cells@, n as int));
            }
        }
        proof {
            assert(self.mines_map() =~= pre.mines_map());
            lemma_count_pointwise(self.cells@, pre.cells@, cell_is_mine(), cell_is_mine());
            lemma_count_pointwise(self.cells@, pre.cells@, cell_is_flagged(), cell_is_flagged());
            assert forall|t: int|
                0 <= t < self.cells@.len() && (cell_is_revealed()(#[trigger] self.cells@[t]))
                implies (cell_is_safe()(self.cells@[t])) by {
                if pre.cells@[t].status is Revealed {
                    assert(pre.cell_ok(t));
                }
            }
            lemma_count_implies_le(self.cells@, cell_is_revealed(), cell_is_safe());
            lemma_count_complement(self.cells@, cell_is_mine(), cell_is_safe());
            assert forall|t: int| 0 <= t < self.cells@.len() implies #[trigger] self.cell_ok(
                t,
            ) by {
                assert(pre.cell_ok(t));
            }
        }
        let nn = n * n;
        if self.revealed_count == nn - self.mine_count {
            self.outcome = Outcome::Won;
        }
        proof {
            assert forall|t: int| 0 <= t < self.cells@.len() implies #[trigger] self.cell_ok(
                t,
            ) by {
                assert(pre.cell_ok(t));
                assert(cell_only_revealed(pre.cells@[t], self.cells@[t]));
                assert(self.mines_map() =~= pre.mines_map());
            }
        }
        Ok(RevealReport { revealed: revealed_list, hit_mine: None, outcome: self.outcome })
    }
}

/// One cell's allowed change during a reveal call: mine flag and
/// adjacency count are kept, and the status either stays or goes from
/// `Hidden` to `Revealed` on a non-mine cell.
pub open spec fn cell_only_revealed(a: Cell, b: Cell) -> bool {
    &&& b.is_mine == a.is_mine
    &&& b.adjacent_mine_count == a.adjacent_mine_count
    &&& (b.status == a.status || (a.status is Hidden && b.status is Revealed && !a.is_mine))
}

/// Between `pre` and `post`, every cell changed only as a reveal call
/// may change it. In particular no mine and no flagged cell changes.
pub open spec fn only_reveals(pre: Seq<Cell>, post: Seq<Cell>) -> bool {
    &&& post.len() == pre.len()
    &&& forall|i: int| 0 <= i < pre.len() ==> cell_only_revealed(pre[i], #[trigger] post[i])
}

/// The cell at index `i` went from hidden to revealed between `pre`
/// and `post`.
pub open spec fn newly_revealed(pre: Seq<Cell>, post: Seq<Cell>, i: int) -> bool {
    pre[i].status is Hidden && post[i].status is Revealed
}

/// `(r2, c2)` touches a cell that was revealed between `pre` and `post`
/// and whose adjacency count is zero.
pub open spec fn touches_new_zero(pre: Seq<Cell>, post: Seq<Cell>, n: int, r2: int, c2: int) -> bool {
    exists|r: int, c: int|
        pos_in_bounds(r, c, n) && #[trigger] adjacent(r, c, r2, c2) && newly_revealed(
            pre,
            post,
            cell_index(n, r, c),
        ) && post[cell_index(n, r, c)].adjacent_mine_count == 0
}

/// The flood fill ran to completion: every hidden neighbor of a cell
/// that the call revealed with a zero count was itself revealed.
pub open spec fn cascade_complete(pre: Seq<Cell>, post: Seq<Cell>, n: int) -> bool {
    forall|r1: int, c1: int, r2: int, c2: int|
        pos_in_bounds(r1, c1, n) && pos_in_bounds(r2, c2, n) && #[trigger] adjacent(r1, c1, r2, c2)
            && newly_revealed(pre, post, cell_index(n, r1, c1)) && post[cell_index(
            n,
            r1,
            c1,
        )].adjacent_mine_count == 0 && pre[cell_index(n, r2, c2)].status is Hidden ==> post[cell_index(
            n,
            r2,
            c2,
        )].status is Revealed
}

/// The flood fill stayed inside the connected zero region around the
/// clicked cell and its numbered border: every cell the call revealed
/// is the clicked cell itself or touches a zero-count cell revealed in
/// the same call.
pub open spec fn cascade_reached(pre: Seq<Cell>, post: Seq<Cell>, n: int, start: int) -> bool {
    forall|t: int|
        0 <= t < post.len() && #[trigger] newly_revealed(pre, post, t) ==> t == start
            || touches_new_zero(pre, post, n, t / n, t % n)
}

/// The change list of a reveal call is exact: it holds the cells that
/// went from hidden to revealed, each exactly once, with the adjacency
/// count the board stores for it, and nothing else.
pub open spec fn report_matches(
    pre: Seq<Cell>,
    post: Seq<Cell>,
    n: int,
    rep: Seq<RevealedCell>,
) -> bool {
    &&& forall|k: int|
        0 <= k < rep.len() ==> {
            let rc = #[trigger] rep[k];
            &&& pos_in_bounds(rc.position.row as int, rc.position.col as int, n)
            &&& newly_revealed(pre, post, cell_index(n, rc.position.row as int, rc.position.col as int))
            &&& rc.adjacent_mine_count == post[cell_index(
                n,
                rc.position.row as int,
                rc.position.col as int,
            )].adjacent_mine_count
        }
    &&& forall|t: int|
        0 <= t < post.len() && #[trigger] newly_revealed(pre, post, t) ==> exists|k: int|
            0 <= k < rep.len() && cell_index(
                n,
                (#[trigger] rep[k]).position.row as int,
                rep[k].position.col as int,
            ) == t
    &&& forall|k1: int, k2: int|
        0 <= k1 < k2 < rep.len() ==> (#[trigger] rep[k1]).position != (#[trigger] rep[k2]).position
}

/// A chain of cell indices in which consecutive cells touch and every
/// cell except possibly the last carries a zero adjacency count.
pub open spec fn is_zero_chain(cells: Seq<Cell>, n: int, path: Seq<int>) -> bool
    decreases path.len(),
{
    if path.len() == 0 {
        true
    } else if path.len() == 1 {
        0 <= path[0] < n * n
    } else {
        &&& 0 <= path[0] < n * n
        &&& cells[path[0]].adjacent_mine_count == 0
        &&& adjacent(path[0] / n, path[0] % n, path[1] / n, path[1] % n)
        &&& is_zero_chain(cells, n, path.drop_first())
    }
}

/// The cell at index `t` is connected to `start` by a chain of
/// adjacent cells that runs through zero-count cells and, after the
/// start, only through cells that were hidden in `pre`.
pub open spec fn reachable_from(pre: Seq<Cell>, n: int, start: int, t: int) -> bool {
    exists|path: Seq<int>|
        #[trigger] is_zero_chain(pre, n, path) && path.len() >= 1 && path[0] == start && path[path.len()
            - 1] == t && (forall|k: int| 1 <= k < path.len() ==> pre[#[trigger] path[k]].status
            is Hidden)
}

/// A zero chain grows by one cell adjacent to its zero-count end.
proof fn lemma_zero_chain_extend(cells: Seq<Cell>, n: int, path: Seq<int>, t: int)
    requires
        1 <= n,
        path.len() >= 1,
        is_zero_chain(cells, n, path),
        cells[path[path.len() - 1]].adjacent_mine_count == 0,
        0 <= t < n * n,
        adjacent(path[path.len() - 1] / n, path[path.len() - 1] % n, t / n, t % n),
    ensures
        is_zero_chain(cells, n, path.push(t)),
    decreases path.len(),
{
    if path.len() == 1 {
        assert(path.push(t).drop_first() =~= seq![t]);
        assert(is_zero_chain(cells, n, seq![t]));
    } else {
        assert(path.drop_first()[path.drop_first().len() - 1] == path[path.len() - 1]);
        lemma_zero_chain_extend(cells, n, path.drop_first(), t);
        assert(path.push(t).drop_first() =~= path.drop_first().push(t));
        assert(path.push(t)[0] == path[0] && path.push(t)[1] == path[1]);
    }
}

/// Law: the flood fill reveals the whole connected zero region and its
/// numbered border. Whenever a reveal call satisfies
/// `cascade_complete` and turned the head of a zero chain revealed,
/// every cell along the chain that was hidden before the call — the
/// possibly numbered cell at its end included — is revealed after it.
#[verifier::rlimit(60)]
pub proof fn lemma_cascade_covers_zero_region(
    pre: Seq<Cell>,
    post: Seq<Cell>,
    n: int,
    path: Seq<int>,
)
    requires
        1 <= n,
        pre.len() == n * n,
        post.len() == pre.len(),
        cascade_complete(pre, post, n),
        path.len() >= 1,
        is_zero_chain(post, n, path),
        newly_revealed(pre, post, path[0]),
        forall|k: int| 1 <= k < path.len() ==> pre[#[trigger] path[k]].status is Hidden,
    ensures
        forall|k: int| 0 <= k < path.len() ==> newly_revealed(pre, post, #[trigger] path[k]),
    decreases path.len(),
{
    if path.len() > 1 {
        let a = path[0];
        let b = path[1];
        let tail = path.drop_first();
        assert(is_zero_chain(post, n, tail));
        assert(tail[0] == b);
        assert(0 <= b < n * n);
        lemma_cell_index_decompose(n, a);
        lemma_cell_index_decompose(n, b);
        assert(pre[b].status is Hidden);
        assert(post[cell_index(n, b / n, b % n)].status is Revealed);
        assert(newly_revealed(pre, post, tail[0]));
        assert forall|k: int| 1 <= k < tail.len() implies pre[#[trigger] tail[k]].status
            is Hidden by {
            assert(tail[k] == path[k + 1]);
        }
        lemma_cascade_covers_zero_region(pre, post, n, tail);
        assert forall|k: int| 0 <= k < path.len() implies newly_revealed(
            pre,
            post,
            #[trigger] path[k],
        ) by {
            if k >= 1 {
                assert(tail[k - 1] == path[k]);
                assert(newly_revealed(pre, post, tail[k - 1]));
            }
        }
    }
}

/// What a position on the flood-fill work stack always satisfies: in
/// bounds and free of a mine.
spec fn stack_elem_ok(b: Board, q: Position) -> bool {
    &&& pos_in_bounds(q.row as int, q.col as int, b.n())
    &&& !b.cells_seq()[cell_index(b.n(), q.row as int, q.col as int)].is_mine
}

/// Revealing one more hidden cell keeps every witness of
/// `touches_new_zero`: the witness cell was already revealed, so it is
/// not the cell that changed.
proof fn lemma_touches_lift(
    pre: Seq<Cell>,
    before: Seq<Cell>,
    after: Seq<Cell>,
    n: int,
    pi: int,
    r2: int,
    c2: int,
)
    requires
        1 <= n,
        before.len() == n * n,
        after.len() == before.len(),
        0 <= pi < before.len(),
        before[pi].status is Hidden,
        forall|t: int| 0 <= t < before.len() && t != pi ==> after[t] == before[t],
        touches_new_zero(pre, before, n, r2, c2),
    ensures
        touches_new_zero(pre, after, n, r2, c2),
{
    let (zr, zc) = choose|zr: int, zc: int|
        pos_in_bounds(zr, zc, n) && #[trigger] adjacent(zr, zc, r2, c2) && newly_revealed(
            pre,
            before,
            cell_index(n, zr, zc),
        ) && before[cell_index(n, zr, zc)].adjacent_mine_count == 0;
    lemma_cell_index_bounds(n, zr, zc);
    assert(cell_index(n, zr, zc) != pi);
    assert(newly_revealed(pre, after, cell_index(n, zr, zc)));
    assert(after[cell_index(n, zr, zc)].adjacent_mine_count == 0);
}

/// Popping loses at most the last occurrence: anything a sequence
/// contains is still in its prefix, or was exactly the last element.
proof fn lemma_pop_contains(s: Seq<Position>)
    requires
        s.len() > 0,
    ensures
        forall|x: Position| #[trigger]
            s.contains(x) ==> s.subrange(0, s.len() - 1).contains(x) || x == s[s.len() - 1],
{
    assert forall|x: Position| #[trigger] s.contains(x) implies s.subrange(
        0,
        s.len() - 1,
    ).contains(x) || x == s[s.len() - 1] by {
        let k = choose|k: int| 0 <= k < s.len() && s[k] == x;
        if k < s.len() - 1 {
            assert(s.subrange(0, s.len() - 1)[k] == x);
        }
    }
}

/// Relation between a board and its state after one successful flag
/// toggle at cell index `i`: the status flips between `Hidden` and
/// `Flagged`, the flag budget moves the opposite way by one, and
/// nothing else changes.
pub open spec fn flag_toggled(pre: Board, post: Board, i: int) -> bool {
    &&& 0 <= i < pre.cells_seq().len()
    &&& post.n() == pre.n()
    &&& post.m() == pre.m()
    &&& post.state() == pre.state()
    &&& post.revealed() == pre.revealed()
    &&& (pre.cells_seq()[i].status is Hidden ==> {
        &&& post.cells_seq() == pre.cells_seq().update(
            i,
            Cell {
                is_mine: pre.cells_seq()[i].is_mine,
                adjacent_mine_count: pre.cells_seq()[i].adjacent_mine_count,
                status: CellStatus::Flagged,
            },
        )
        &&& post.flags() == pre.flags() - 1
    })
    &&& (pre.cells_seq()[i].status is Flagged ==> {
        &&& post.cells_seq() == pre.cells_seq().update(
            i,
            Cell {
                is_mine: pre.cells_seq()[i].is_mine,
                adjacent_mine_count: pre.cells_seq()[i].adjacent_mine_count,
                status: CellStatus::Hidden,
            },
        )
        &&& post.flags() == pre.flags() + 1
    })
}

/// A status-only change at one cell keeps the whole board invariant,
/// provided the tallies were moved to match.
proof fn lemma_toggle_preserves_wf(pre: Board, post: Board, i: int)
    requires
        pre.wf(),
        0 <= i < pre.cells_seq().len(),
        post.n() == pre.n(),
        post.m() == pre.m(),
        post.state() == pre.state(),
        post.cells_seq().len() == pre.cells_seq().len(),
        forall|t: int|
            0 <= t < pre.cells_seq().len() && t != i ==> post.cells_seq()[t]
                == pre.cells_seq()[t],
        post.cells_seq()[i].is_mine == pre.cells_seq()[i].is_mine,
        post.cells_seq()[i].adjacent_mine_count == pre.cells_seq()[i].adjacent_mine_count,
        !(post.cells_seq()[i].status is Revealed) || post.cells_seq()[i].status
            == pre.cells_seq()[i].status,
        post.revealed() == count(post.cells_seq(), cell_is_revealed()),
        post.flags() == post.m() - count(post.cells_seq(), cell_is_flagged()),
        post.revealed() == pre.revealed(),
    ensures
        post.wf(),
{
    assert(post.mines_map() =~= pre.mines_map());
    lemma_count_pointwise(post.cells_seq(), pre.cells_seq(), cell_is_mine(), cell_is_mine());
    assert forall|t: int| 0 <= t < post.cells_seq().len() implies #[trigger] post.cell_ok(t) by {
        assert(pre.cell_ok(t));
    }
}

/// Law: toggling a flag is its own inverse. Toggling a hidden cell and
/// then toggling the same cell again restores the flag budget, the
/// cell's hidden status, and the whole cell grid.
pub proof fn lemma_toggle_flag_involutive(b0: Board, b1: Board, b2: Board, i: int)
    requires
        0 <= i < b0.cells_seq().len(),
        b0.cells_seq()[i].status is Hidden,
        flag_toggled(b0, b1, i),
        flag_toggled(b1, b2, i),
    ensures
        b2.flags() == b0.flags(),
        b2.cells_seq()[i].status is Hidden,
        b2.cells_seq() == b0.cells_seq(),
        b2.state() == b0.state(),
        b2.revealed() == b0.revealed(),
{
    assert(b1.cells_seq()[i].status is Flagged);
    assert(b2.cells_seq() =~= b0.cells_seq());
}

} // verus!

