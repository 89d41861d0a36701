use minesweeper_core::board::{Board, BoardError, Outcome};
use minesweeper_core::cell::CellStatus;
use minesweeper_core::geometry::Position;

fn pos(row: usize, col: usize) -> Position {
    Position { row, col }
}

fn count_board_mines(b: &Board) -> usize {
    let n = b.grid_size();
    let mut total = 0;
    for r in 0..n {
        for c in 0..n {
            if b.is_mine(pos(r, c)).unwrap() {
                total += 1;
            }
        }
    }
    total
}

fn recount_neighbors(b: &Board, r: usize, c: usize) -> u8 {
    let n = b.grid_size();
    let mut total = 0u8;
    for dr in 0..3usize {
        for dc in 0..3usize {
            if dr == 1 && dc == 1 {
                continue;
            }
            if r + dr < 1 || c + dc < 1 {
                continue;
            }
            let nr = r + dr - 1;
            let nc = c + dc - 1;
            if nr >= n || nc >= n {
                continue;
            }
            if b.is_mine(pos(nr, nc)).unwrap() {
                total += 1;
            }
        }
    }
    total
}

fn status(b: &Board, r: usize, c: usize) -> CellStatus {
    b.cell_status(pos(r, c)).unwrap()
}

/// Mines for a 10x10 scenario board: nine across the bottom row and one
/// in the top-left corner.
fn scenario_mines() -> Vec<Position> {
    let mut mines = Vec::new();
    for c in 0..9 {
        mines.push(pos(9, c));
    }
    mines.push(pos(0, 0));
    mines
}

#[test]
fn placement_has_exact_mine_count_and_adjacency() {
    let b = Board::create_board(6, 8).unwrap();
    assert_eq!(count_board_mines(&b), 8);
    for r in 0..6 {
        for c in 0..6 {
            if !b.is_mine(pos(r, c)).unwrap() {
                assert_eq!(
                    b.adjacent_mine_count(pos(r, c)).unwrap(),
                    recount_neighbors(&b, r, c)
                );
            } else {
                assert_eq!(b.adjacent_mine_count(pos(r, c)).unwrap(), 0);
            }
        }
    }
}

#[test]
fn placement_with_explicit_mines_matches_list() {
    let mines = scenario_mines();
    let b = Board::create_board_with_mines(10, &mines).unwrap();
    assert_eq!(b.mine_count(), 10);
    assert_eq!(count_board_mines(&b), 10);
    for m in &mines {
        assert!(b.is_mine(*m).unwrap());
    }
    for r in 0..10 {
        for c in 0..10 {
            if !b.is_mine(pos(r, c)).unwrap() {
                assert_eq!(
                    b.adjacent_mine_count(pos(r, c)).unwrap(),
                    recount_neighbors(&b, r, c)
                );
            }
        }
    }
}

#[test]
fn zero_cell_cascades_through_region_and_border() {
    // rows 0..=7 are a connected zero region except the three numbered
    // cells around the corner mine; row 8 is the numbered border.
    let mut b = Board::create_board_with_mines(10, &scenario_mines()).unwrap();
    let report = b.reveal_cell(pos(4, 4)).unwrap();
    assert!(report.hit_mine.is_none());
    assert_eq!(report.outcome, Outcome::InProgress);
    assert_eq!(b.outcome(), Outcome::InProgress);
    assert_eq!(report.revealed.len(), 89);
    assert_eq!(b.revealed_count(), 89);
    // everything but the mines and the opposite corner is revealed
    for r in 0..10 {
        for c in 0..10 {
            if b.is_mine(pos(r, c)).unwrap() {
                assert_eq!(status(&b, r, c), CellStatus::Hidden);
            } else if r == 9 && c == 9 {
                assert_eq!(status(&b, r, c), CellStatus::Hidden);
            } else {
                assert_eq!(status(&b, r, c), CellStatus::Revealed);
            }
        }
    }
    // the reported counts match the board
    for rc in &report.revealed {
        assert_eq!(
            rc.adjacent_mine_count,
            b.adjacent_mine_count(rc.position).unwrap()
        );
    }
}

#[test]
fn numbered_cell_reveals_only_itself() {
    let mut b = Board::create_board_with_mines(10, &scenario_mines()).unwrap();
    // (8, 4) borders three bottom-row mines
    let report = b.reveal_cell(pos(8, 4)).unwrap();
    assert_eq!(report.revealed.len(), 1);
    assert_eq!(report.revealed[0].position, pos(8, 4));
    assert_eq!(report.revealed[0].adjacent_mine_count, 3);
    assert_eq!(b.revealed_count(), 1);
    assert_eq!(status(&b, 8, 4), CellStatus::Revealed);
    assert_eq!(status(&b, 8, 3), CellStatus::Hidden);
    assert_eq!(status(&b, 7, 4), CellStatus::Hidden);
}

#[test]
fn flood_fill_never_reveals_a_mine() {
    let mut b = Board::create_board_with_mines(10, &scenario_mines()).unwrap();
    b.reveal_cell(pos(4, 4)).unwrap();
    for r in 0..10 {
        for c in 0..10 {
            if status(&b, r, c) == CellStatus::Revealed {
                assert!(!b.is_mine(pos(r, c)).unwrap());
            }
        }
    }
}

#[test]
fn revealing_a_mine_loses_and_reveals_nothing() {
    let mut b = Board::create_board_with_mines(10, &scenario_mines()).unwrap();
    let report = b.reveal_cell(pos(9, 3)).unwrap();
    assert_eq!(report.outcome, Outcome::Lost);
    assert_eq!(report.hit_mine, Some(pos(9, 3)));
    assert_eq!(report.revealed.len(), 0);
    assert_eq!(b.outcome(), Outcome::Lost);
    assert_eq!(b.revealed_count(), 0);
    for r in 0..10 {
        for c in 0..10 {
            assert_eq!(status(&b, r, c), CellStatus::Hidden);
        }
    }
    // a finished board ignores further requests
    let after = b.reveal_cell(pos(4, 4)).unwrap();
    assert_eq!(after.revealed.len(), 0);
    assert!(after.hit_mine.is_none());
    assert_eq!(b.revealed_count(), 0);
    assert_eq!(b.toggle_flag(pos(4, 4)).unwrap(), None);
}

#[test]
fn revealing_last_safe_cell_wins() {
    let mut b = Board::create_board_with_mines(10, &scenario_mines()).unwrap();
    b.reveal_cell(pos(4, 4)).unwrap();
    assert_eq!(b.outcome(), Outcome::InProgress);
    let report = b.reveal_cell(pos(9, 9)).unwrap();
    assert_eq!(report.revealed.len(), 1);
    assert_eq!(report.outcome, Outcome::Won);
    assert_eq!(b.outcome(), Outcome::Won);
    assert_eq!(b.revealed_count(), 90);
}

#[test]
fn single_cell_board_wins_on_first_reveal() {
    let mut b = Board::create_board(1, 0).unwrap();
    let report = b.reveal_cell(pos(0, 0)).unwrap();
    assert_eq!(report.revealed.len(), 1);
    assert_eq!(report.outcome, Outcome::Won);
    assert_eq!(b.outcome(), Outcome::Won);
    assert_eq!(b.revealed_count(), 1);
}

#[test]
fn dense_placement_terminates_with_one_free_cell() {
    let mut b = Board::create_board(5, 24).unwrap();
    assert_eq!(count_board_mines(&b), 24);
    let mut free = None;
    for r in 0..5 {
        for c in 0..5 {
            if !b.is_mine(pos(r, c)).unwrap() {
                assert!(free.is_none());
                free = Some(pos(r, c));
            }
        }
    }
    let report = b.reveal_cell(free.unwrap()).unwrap();
    assert_eq!(report.outcome, Outcome::Won);
}

#[test]
fn second_reveal_of_same_cell_changes_nothing() {
    let mut b = Board::create_board_with_mines(10, &scenario_mines()).unwrap();
    let first = b.reveal_cell(pos(8, 4)).unwrap();
    assert_eq!(first.revealed.len(), 1);
    let revealed_before = b.revealed_count();
    let second = b.reveal_cell(pos(8, 4)).unwrap();
    assert_eq!(second.revealed.len(), 0);
    assert!(second.hit_mine.is_none());
    assert_eq!(second.outcome, Outcome::InProgress);
    assert_eq!(b.revealed_count(), revealed_before);
}

#[test]
fn cascade_skips_flagged_cells() {
    let mut b = Board::create_board_with_mines(3, &vec![pos(2, 2)]).unwrap();
    b.toggle_flag(pos(0, 1)).unwrap();
    b.reveal_cell(pos(0, 0)).unwrap();
    assert_eq!(status(&b, 0, 1), CellStatus::Flagged);
    // the flag blocks the cascade: (0,2) and (1,2) stay hidden behind it
    assert_eq!(b.revealed_count(), 5);
    assert_eq!(status(&b, 0, 2), CellStatus::Hidden);
    assert_eq!(b.outcome(), Outcome::InProgress);
    // unflagging and revealing the held-back cell completes the win
    b.toggle_flag(pos(0, 1)).unwrap();
    let report = b.reveal_cell(pos(0, 1)).unwrap();
    assert_eq!(report.outcome, Outcome::Won);
    assert_eq!(b.revealed_count(), 8);
}

#[test]
fn random_boards_always_hold_their_mine_count() {
    for _ in 0..5 {
        let b = Board::create_board(8, 12).unwrap();
        assert_eq!(count_board_mines(&b), 12);
    }
}

#[test]
fn out_of_bounds_reveal_is_rejected() {
    let mut b = Board::create_board(3, 2).unwrap();
    assert!(matches!(b.reveal_cell(pos(3, 0)), Err(BoardError::OutOfBounds)));
    assert!(matches!(b.reveal_cell(pos(0, 7)), Err(BoardError::OutOfBounds)));
    assert_eq!(b.revealed_count(), 0);
}
