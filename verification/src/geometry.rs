//! Board geometry: positions on an `n` by `n` grid, row-major indexing,
//! the 8-neighborhood of a position, and the adjacency mine count that
//! every non-mine cell carries.

use vstd::prelude::*;

verus! {

/// A grid coordinate: row and column, both 0-indexed, bounded by the
/// grid size. Equality is by value.
#[derive(Clone, Copy, Debug, Hash, PartialEq, Eq, Structural)]
pub struct Position {
    pub row: usize,
    pub col: usize,
}

/// The largest supported grid edge: the cell count of a larger square
/// grid would not fit the index arithmetic of a 32-bit `usize`.
pub const MAX_GRID_SIZE: usize = 46340;

/// The cell count of a supported grid stays below 2^31.
pub proof fn lemma_grid_fits(n: int)
    requires
        1 <= n <= MAX_GRID_SIZE as int,
    ensures
        n * n <= 2147395600,
{
    assert(n * n <= 46340 * 46340) by (nonlinear_arith)
        requires
            1 <= n <= 46340,
    ;
}

/// `(r, c)` lies inside an `n` by `n` grid.
pub open spec fn pos_in_bounds(r: int, c: int, n: int) -> bool {
    0 <= r < n && 0 <= c < n
}

/// The two coordinates name distinct cells that touch horizontally,
/// vertically or diagonally.
pub open spec fn adjacent(r1: int, c1: int, r2: int, c2: int) -> bool {
    &&& r1 - r2 <= 1
    &&& r2 - r1 <= 1
    &&& c1 - c2 <= 1
    &&& c2 - c1 <= 1
    &&& !(r1 == r2 && c1 == c2)
}

/// Row-major index of `(r, c)` in an `n` by `n` grid.
pub open spec fn cell_index(n: int, r: int, c: int) -> int {
    r * n + c
}

pub proof fn lemma_cell_index_bounds(n: int, r: int, c: int)
    requires
        pos_in_bounds(r, c, n),
    ensures
        0 <= cell_index(n, r, c) < n * n,
{
    assert(0 <= r * n + c < n * n) by (nonlinear_arith)
        requires
            0 <= r < n,
            0 <= c < n,
    ;
}

pub proof fn lemma_cell_index_injective(n: int, r1: int, c1: int, r2: int, c2: int)
    requires
        pos_in_bounds(r1, c1, n),
        pos_in_bounds(r2, c2, n),
        !(r1 == r2 && c1 == c2),
    ensures
        cell_index(n, r1, c1) != cell_index(n, r2, c2),
{
    assert(r1 * n + c1 != r2 * n + c2) by (nonlinear_arith)
        requires
            0 <= r1 < n,
            0 <= c1 < n,
            0 <= r2 < n,
            0 <= c2 < n,
            !(r1 == r2 && c1 == c2),
    ;
}

/// A row-major index splits back into the row `i / n` and column `i % n`.
pub proof fn lemma_cell_index_decompose(n: int, i: int)
    requires
        n >= 1,
        0 <= i < n * n,
    ensures
        pos_in_bounds(i / n, i % n, n),
        cell_index(n, i / n, i % n) == i,
{
    assert(0 <= i / n < n && 0 <= i % n < n && (i / n) * n + (i % n) == i) by (nonlinear_arith)
        requires
            n >= 1,
            0 <= i < n * n,
    ;
}

/// Splitting the index of an in-bounds position gives the position back.
pub proof fn lemma_cell_index_recompose(n: int, r: int, c: int)
    requires
        pos_in_bounds(r, c, n),
    ensures
        cell_index(n, r, c) / n == r,
        cell_index(n, r, c) % n == c,
{
    assert((r * n + c) / n == r && (r * n + c) % n == c) by (nonlinear_arith)
        requires
            0 <= r < n,
            0 <= c < n,
    ;
}

/// 1 when `(r, c)` is on the grid and holds a mine, else 0. `mines` is
/// the row-major grid of mine flags.
pub open spec fn mine_ind(mines: Seq<bool>, n: int, r: int, c: int) -> int {
    if pos_in_bounds(r, c, n) && mines[cell_index(n, r, c)] {
        1
    } else {
        0
    }
}

/// The number of mines among the up-to-8 in-bounds neighbors of `(r, c)`:
/// one indicator per neighbor, the position itself excluded.
pub open spec fn adjacent_mines(mines: Seq<bool>, n: int, r: int, c: int) -> int {
    mine_ind(mines, n, r - 1, c - 1) + mine_ind(mines, n, r - 1, c) + mine_ind(
        mines,
        n,
        r - 1,
        c + 1,
    ) + mine_ind(mines, n, r, c - 1) + mine_ind(mines, n, r, c + 1) + mine_ind(
        mines,
        n,
        r + 1,
        c - 1,
    ) + mine_ind(mines, n, r + 1, c) + mine_ind(mines, n, r + 1, c + 1)
}

/// A zero adjacency count says exactly that no neighbor holds a mine.
pub proof fn lemma_zero_adjacent_mines(mines: Seq<bool>, n: int, r: int, c: int)
    requires
        pos_in_bounds(r, c, n),
        adjacent_mines(mines, n, r, c) == 0,
    ensures
        forall|r2: int, c2: int|
            pos_in_bounds(r2, c2, n) && #[trigger] adjacent(r, c, r2, c2) ==> !mines[cell_index(
                n,
                r2,
                c2,
            )],
{
    assert forall|r2: int, c2: int|
        pos_in_bounds(r2, c2, n) && #[trigger] adjacent(r, c, r2, c2) implies !mines[cell_index(
        n,
        r2,
        c2,
    )] by {
        let dr = r2 - r;
        let dc = c2 - c;
        assert(-1 <= dr <= 1 && -1 <= dc <= 1 && !(dr == 0 && dc == 0));
        assert(mine_ind(mines, n, r2, c2) == 0);
    }
}

/// The in-bounds neighbors of `p`: the up-to-8 positions of the grid that
/// are adjacent to `p`, each exactly once, in a fixed row-major order.
pub fn neighbors(p: Position, grid_size: usize) -> (res: Vec<Position>)
    requires
        (p.row as int) < grid_size as int,
        (p.col as int) < grid_size as int,
    ensures
        forall|q: Position|
            #[trigger] res@.contains(q) <==> (pos_in_bounds(
                q.row as int,
                q.col as int,
                grid_size as int,
            ) && adjacent(p.row as int, p.col as int, q.row as int, q.col as int)),
        forall|k1: int, k2: int| 0 <= k1 < k2 < res@.len() ==> res@[k1] != res@[k2],
{
    broadcast use vstd::seq_lib::lemma_seq_contains_after_push;

    let r = p.row;
    let c = p.col;
    let n = grid_size;
    let mut res: Vec<Position> = Vec::new();
    if r >= 1 {
        if c >= 1 {
            res.push(Position { row: r - 1, col: c - 1 });
        }
        res.push(Position { row: r - 1, col: c });
        if c + 1 < n {
            res.push(Position { row: r - 1, col: c + 1 });
        }
    }
    if c >= 1 {
        res.push(Position { row: r, col: c - 1 });
    }
    if c + 1 < n {
        res.push(Position { row: r, col: c + 1 });
    }
    if r + 1 < n {
        if c >= 1 {
            res.push(Position { row: r + 1, col: c - 1 });
        }
        res.push(Position { row: r + 1, col: c });
        if c + 1 < n {
            res.push(Position { row: r + 1, col: c + 1 });
        }
    }
    proof {
        assert forall|q: Position|
            pos_in_bounds(q.row as int, q.col as int, n as int) && adjacent(
                r as int,
                c as int,
                q.row as int,
                q.col as int,
            ) implies res@.contains(q) by {
            let qr = q.row as int;
            let qc = q.col as int;
            assert(qr == r - 1 || qr == r || qr == r + 1);
            assert(qc == c - 1 || qc == c || qc == c + 1);
            assert(res@.contains(q));
        }
    }
    res
}

} // verus!
