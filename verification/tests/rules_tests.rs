use minesweeper_core::board::{Board, BoardError, Outcome};
use minesweeper_core::cell::CellStatus;
use minesweeper_core::geometry::{neighbors, Position};

fn pos(row: usize, col: usize) -> Position {
    Position { row, col }
}

#[test]
fn toggle_flag_twice_restores_everything() {
    let mut b = Board::create_board_with_mines(4, &vec![pos(1, 1), pos(3, 0)]).unwrap();
    assert_eq!(b.flags_remaining(), 2);
    let after_set = b.toggle_flag(pos(2, 2)).unwrap();
    assert_eq!(after_set, Some(1));
    assert_eq!(b.cell_status(pos(2, 2)).unwrap(), CellStatus::Flagged);
    let after_clear = b.toggle_flag(pos(2, 2)).unwrap();
    assert_eq!(after_clear, Some(2));
    assert_eq!(b.flags_remaining(), 2);
    assert_eq!(b.cell_status(pos(2, 2)).unwrap(), CellStatus::Hidden);
}

#[test]
fn flag_budget_may_go_negative() {
    // the counter is deliberately unclamped: flagging more cells than
    // there are mines drives it below zero
    let mut b = Board::create_board_with_mines(2, &vec![pos(0, 0)]).unwrap();
    assert_eq!(b.toggle_flag(pos(0, 1)).unwrap(), Some(0));
    assert_eq!(b.toggle_flag(pos(1, 0)).unwrap(), Some(-1));
    assert_eq!(b.toggle_flag(pos(1, 1)).unwrap(), Some(-2));
    assert_eq!(b.flags_remaining(), -2);
}

#[test]
fn revealed_cell_cannot_be_flagged() {
    let mut b = Board::create_board_with_mines(3, &vec![pos(2, 2)]).unwrap();
    b.reveal_cell(pos(2, 1)).unwrap();
    assert_eq!(b.cell_status(pos(2, 1)).unwrap(), CellStatus::Revealed);
    assert_eq!(b.toggle_flag(pos(2, 1)).unwrap(), None);
    assert_eq!(b.cell_status(pos(2, 1)).unwrap(), CellStatus::Revealed);
    assert_eq!(b.flags_remaining(), 1);
}

#[test]
fn flagged_cell_ignores_reveal_until_unflagged() {
    let mut b = Board::create_board_with_mines(3, &vec![pos(2, 2)]).unwrap();
    b.toggle_flag(pos(2, 1)).unwrap();
    let report = b.reveal_cell(pos(2, 1)).unwrap();
    assert_eq!(report.revealed.len(), 0);
    assert!(report.hit_mine.is_none());
    assert_eq!(b.cell_status(pos(2, 1)).unwrap(), CellStatus::Flagged);
    b.toggle_flag(pos(2, 1)).unwrap();
    let report = b.reveal_cell(pos(2, 1)).unwrap();
    assert_eq!(report.revealed.len(), 1);
    assert_eq!(b.cell_status(pos(2, 1)).unwrap(), CellStatus::Revealed);
}

#[test]
fn toggle_flag_out_of_bounds_is_rejected() {
    let mut b = Board::create_board(3, 1).unwrap();
    assert_eq!(b.toggle_flag(pos(0, 3)), Err(BoardError::OutOfBounds));
    assert_eq!(b.flags_remaining(), 1);
}

#[test]
fn zero_grid_size_is_rejected() {
    assert!(matches!(
        Board::create_board(0, 0),
        Err(BoardError::InvalidSize)
    ));
    assert!(matches!(
        Board::create_board_with_mines(0, &Vec::new()),
        Err(BoardError::InvalidSize)
    ));
}

#[test]
fn mine_count_filling_the_grid_is_rejected() {
    assert!(matches!(
        Board::create_board(3, 9),
        Err(BoardError::TooManyMines)
    ));
    assert!(matches!(
        Board::create_board(3, 20),
        Err(BoardError::TooManyMines)
    ));
    let all_cells: Vec<Position> = (0..2)
        .flat_map(|r| (0..2).map(move |c| pos(r, c)))
        .collect();
    assert!(matches!(
        Board::create_board_with_mines(2, &all_cells),
        Err(BoardError::TooManyMines)
    ));
}

#[test]
fn duplicate_or_stray_mine_positions_are_rejected() {
    assert!(matches!(
        Board::create_board_with_mines(3, &vec![pos(1, 1), pos(1, 1)]),
        Err(BoardError::DuplicateMine)
    ));
    assert!(matches!(
        Board::create_board_with_mines(3, &vec![pos(1, 3)]),
        Err(BoardError::OutOfBounds)
    ));
}

#[test]
fn reset_builds_a_fresh_board() {
    let mut b = Board::create_board_with_mines(3, &vec![pos(2, 2)]).unwrap();
    b.reveal_cell(pos(2, 2)).unwrap();
    assert_eq!(b.outcome(), Outcome::Lost);
    b.reset_board(4, 3).unwrap();
    assert_eq!(b.grid_size(), 4);
    assert_eq!(b.mine_count(), 3);
    assert_eq!(b.outcome(), Outcome::InProgress);
    assert_eq!(b.revealed_count(), 0);
    assert_eq!(b.flags_remaining(), 3);
    for r in 0..4 {
        for c in 0..4 {
            assert_eq!(b.cell_status(pos(r, c)).unwrap(), CellStatus::Hidden);
        }
    }
}

#[test]
fn reset_with_bad_configuration_leaves_board_alone() {
    let mut b = Board::create_board_with_mines(3, &vec![pos(2, 2)]).unwrap();
    b.reveal_cell(pos(0, 0)).unwrap();
    let revealed = b.revealed_count();
    assert!(matches!(b.reset_board(2, 4), Err(BoardError::TooManyMines)));
    assert_eq!(b.grid_size(), 3);
    assert_eq!(b.revealed_count(), revealed);
}

#[test]
fn neighbors_of_corner_edge_and_center() {
    let corner = neighbors(pos(0, 0), 3);
    assert_eq!(corner.len(), 3);
    assert!(corner.contains(&pos(0, 1)));
    assert!(corner.contains(&pos(1, 0)));
    assert!(corner.contains(&pos(1, 1)));

    let edge = neighbors(pos(0, 1), 3);
    assert_eq!(edge.len(), 5);
    assert!(!edge.contains(&pos(0, 1)));

    let center = neighbors(pos(1, 1), 3);
    assert_eq!(center.len(), 8);
    assert!(!center.contains(&pos(1, 1)));
    for a in 0..center.len() {
        for b in (a + 1)..center.len() {
            assert_ne!(center[a], center[b]);
        }
    }

    let single = neighbors(pos(0, 0), 1);
    assert_eq!(single.len(), 0);
}

#[test]
fn getters_reject_positions_off_the_grid() {
    let b = Board::create_board(3, 1).unwrap();
    assert!(b.cell_status(pos(3, 3)).is_none());
    assert!(b.is_mine(pos(0, 5)).is_none());
    assert!(b.adjacent_mine_count(pos(9, 0)).is_none());
}
