//! The per-position cell state: mine flag, adjacency count and
//! visibility status.

use vstd::prelude::*;

verus! {

/// The visibility of one cell. A cell starts `Hidden`, may go back and
/// forth between `Hidden` and `Flagged`, and once `Revealed` never
/// changes again.
#[derive(Clone, Copy, Debug, PartialEq, Eq, Structural)]
pub enum CellStatus {
    Hidden,
    Revealed,
    Flagged,
}

/// The logical state of one grid position. `is_mine` is fixed at board
/// construction; `adjacent_mine_count` is the number of mines in the
/// 8-neighborhood and stays 0 on mine cells, where it is never used.
#[derive(Clone, Copy, Debug, PartialEq, Eq, Structural)]
pub struct Cell {
    pub is_mine: bool,
    pub adjacent_mine_count: u8,
    pub status: CellStatus,
}

/// Predicate on cells used by the board's counting invariants.
pub open spec fn cell_is_mine() -> spec_fn(Cell) -> bool {
    |c: Cell| c.is_mine
}

/// Predicate on cells used by the board's counting invariants.
pub open spec fn cell_is_revealed() -> spec_fn(Cell) -> bool {
    |c: Cell| c.status is Revealed
}

/// Predicate on cells used by the board's counting invariants.
pub open spec fn cell_is_flagged() -> spec_fn(Cell) -> bool {
    |c: Cell| c.status is Flagged
}

/// Predicate on cells used by the board's counting invariants.
pub open spec fn cell_is_hidden() -> spec_fn(Cell) -> bool {
    |c: Cell| c.status is Hidden
}

/// Predicate on cells used by the board's counting invariants.
pub open spec fn cell_is_safe() -> spec_fn(Cell) -> bool {
    |c: Cell| !c.is_mine
}

} // verus!
