//! The reveal/flag state machine: flood reveal, flagging, win and loss.

use minesweeper_core::Board;
use minesweeper_core::BoardError;
use minesweeper_core::BoardOptions;
use minesweeper_core::CellState;
use minesweeper_core::Coordinate;
use minesweeper_core::GameOutcome;

fn board_with_mines(width: u16, height: u16, mines: &[(u16, u16)]) -> Board {
    let options = BoardOptions {
        width,
        height,
        bomb_count: mines.len() as u16,
    };
    let list: Vec<Coordinate> = mines.iter().map(|&(x, y)| Coordinate::new(x, y)).collect();
    let mut b = Board::default();
    b.reset_with_mines(&options, &list).expect("placement must be accepted");
    b
}

fn state_of(b: &Board, x: u16, y: u16) -> CellState {
    b.cell_info(Coordinate::new(x, y)).expect("in bounds").1
}

#[test]
fn three_by_three_corner_reveal_wins_in_one_operation() {
    let mut b = board_with_mines(3, 3, &[(2, 2)]);
    let report = b.uncover(Coordinate::new(0, 0), false).expect("in bounds");
    assert_eq!(report.outcome, GameOutcome::Win);
    assert_eq!(report.changed.len(), 8);
    for y in 0..3 {
        for x in 0..3 {
            if (x, y) == (2, 2) {
                assert_eq!(state_of(&b, x, y), CellState::Hidden);
            } else {
                assert_eq!(state_of(&b, x, y), CellState::Revealed);
                assert!(report.changed.contains(&Coordinate::new(x, y)));
            }
        }
    }
}

#[test]
fn revealing_a_mine_loses_and_changes_nothing_else() {
    let mut b = board_with_mines(5, 5, &[(4, 4)]);
    let report = b.uncover(Coordinate::new(4, 4), false).expect("in bounds");
    assert_eq!(report.outcome, GameOutcome::Loss(Coordinate::new(4, 4)));
    assert_eq!(report.changed, vec![Coordinate::new(4, 4)]);
    for y in 0..5 {
        for x in 0..5 {
            if (x, y) == (4, 4) {
                assert_eq!(state_of(&b, x, y), CellState::Revealed);
            } else {
                assert_eq!(state_of(&b, x, y), CellState::Hidden);
            }
        }
    }
}

#[test]
fn flag_blocks_direct_reveal_until_unflagged() {
    let mut b = board_with_mines(3, 3, &[(2, 2)]);
    b.toggle_flag(Coordinate::new(0, 0)).expect("in bounds");
    assert_eq!(state_of(&b, 0, 0), CellState::Flagged);
    let blocked = b.uncover(Coordinate::new(0, 0), false).expect("in bounds");
    assert_eq!(blocked.outcome, GameOutcome::Ongoing);
    assert!(blocked.changed.is_empty());
    assert_eq!(state_of(&b, 0, 0), CellState::Flagged);
    b.toggle_flag(Coordinate::new(0, 0)).expect("in bounds");
    assert_eq!(state_of(&b, 0, 0), CellState::Hidden);
    let report = b.uncover(Coordinate::new(0, 0), false).expect("in bounds");
    assert_eq!(report.outcome, GameOutcome::Win);
    assert_eq!(state_of(&b, 0, 0), CellState::Revealed);
}

#[test]
fn reveal_is_idempotent_on_revealed_cells() {
    let mut b = board_with_mines(3, 3, &[(2, 2)]);
    let first = b.uncover(Coordinate::new(1, 1), false).expect("in bounds");
    assert_eq!(first.changed, vec![Coordinate::new(1, 1)]);
    assert_eq!(first.outcome, GameOutcome::Ongoing);
    let again = b.uncover(Coordinate::new(1, 1), false).expect("in bounds");
    assert!(again.changed.is_empty());
    assert_eq!(again.outcome, GameOutcome::Ongoing);
    for y in 0..3 {
        for x in 0..3 {
            let expected = if (x, y) == (1, 1) { CellState::Revealed } else { CellState::Hidden };
            assert_eq!(state_of(&b, x, y), expected);
        }
    }
}

#[test]
fn chain_reveal_bypasses_flags() {
    let mut b = board_with_mines(3, 3, &[(2, 2)]);
    b.toggle_flag(Coordinate::new(1, 0)).expect("in bounds");
    let report = b.uncover(Coordinate::new(0, 0), false).expect("in bounds");
    assert_eq!(report.outcome, GameOutcome::Win);
    assert_eq!(state_of(&b, 1, 0), CellState::Revealed);
    assert!(report.changed.contains(&Coordinate::new(1, 0)));
}

#[test]
fn flag_toggle_is_an_involution() {
    let mut b = board_with_mines(3, 3, &[(2, 2)]);
    b.toggle_flag(Coordinate::new(1, 2)).expect("in bounds");
    assert_eq!(state_of(&b, 1, 2), CellState::Flagged);
    b.toggle_flag(Coordinate::new(1, 2)).expect("in bounds");
    assert_eq!(state_of(&b, 1, 2), CellState::Hidden);
    b.uncover(Coordinate::new(1, 2), false).expect("in bounds");
    b.toggle_flag(Coordinate::new(1, 2)).expect("in bounds");
    assert_eq!(state_of(&b, 1, 2), CellState::Revealed);
}

#[test]
fn win_fires_exactly_when_last_safe_cell_is_revealed() {
    let mut b = board_with_mines(2, 2, &[(1, 1)]);
    let first = b.uncover(Coordinate::new(0, 0), false).expect("in bounds");
    assert_eq!(first.outcome, GameOutcome::Ongoing);
    let second = b.uncover(Coordinate::new(1, 0), false).expect("in bounds");
    assert_eq!(second.outcome, GameOutcome::Ongoing);
    let third = b.uncover(Coordinate::new(0, 1), false).expect("in bounds");
    assert_eq!(third.outcome, GameOutcome::Win);
}

#[test]
fn flood_stops_at_the_numbered_border() {
    let mut b = board_with_mines(5, 1, &[(2, 0)]);
    let report = b.uncover(Coordinate::new(0, 0), false).expect("in bounds");
    assert_eq!(report.outcome, GameOutcome::Ongoing);
    assert_eq!(report.changed.len(), 2);
    assert_eq!(state_of(&b, 0, 0), CellState::Revealed);
    assert_eq!(state_of(&b, 1, 0), CellState::Revealed);
    assert_eq!(state_of(&b, 2, 0), CellState::Hidden);
    assert_eq!(state_of(&b, 3, 0), CellState::Hidden);
    assert_eq!(state_of(&b, 4, 0), CellState::Hidden);
}

#[test]
fn numbered_cell_does_not_propagate() {
    let mut b = board_with_mines(3, 3, &[(2, 2)]);
    let report = b.uncover(Coordinate::new(1, 1), false).expect("in bounds");
    assert_eq!(report.changed, vec![Coordinate::new(1, 1)]);
    assert_eq!(report.outcome, GameOutcome::Ongoing);
}

#[test]
fn out_of_bounds_intents_are_rejected() {
    let mut b = board_with_mines(3, 3, &[(2, 2)]);
    assert_eq!(b.uncover(Coordinate::new(3, 0), false), Err(BoardError::OutOfBounds));
    assert_eq!(b.uncover(Coordinate::new(0, 3), true), Err(BoardError::OutOfBounds));
    assert_eq!(b.toggle_flag(Coordinate::new(7, 7)), Err(BoardError::OutOfBounds));
    for y in 0..3 {
        for x in 0..3 {
            assert_eq!(state_of(&b, x, y), CellState::Hidden);
        }
    }
}

#[test]
fn flagging_a_revealed_cell_is_a_no_op() {
    let mut b = board_with_mines(3, 3, &[(2, 2)]);
    b.uncover(Coordinate::new(1, 1), false).expect("in bounds");
    b.toggle_flag(Coordinate::new(1, 1)).expect("in bounds");
    assert_eq!(state_of(&b, 1, 1), CellState::Revealed);
}

#[test]
fn zero_mine_board_wins_on_first_reveal() {
    let mut b = board_with_mines(4, 3, &[]);
    let report = b.uncover(Coordinate::new(1, 1), false).expect("in bounds");
    assert_eq!(report.outcome, GameOutcome::Win);
    assert_eq!(report.changed.len(), 12);
    for y in 0..3 {
        for x in 0..4 {
            assert_eq!(state_of(&b, x, y), CellState::Revealed);
        }
    }
}
