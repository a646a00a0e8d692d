//! Generation, configuration and query behaviour of the board.

use minesweeper_core::Board;
use minesweeper_core::BoardError;
use minesweeper_core::BoardOptions;
use minesweeper_core::CellContent;
use minesweeper_core::CellState;
use minesweeper_core::Coordinate;
use minesweeper_core::GameOutcome;
use minesweeper_core::GameState;

fn board_with_mines(width: u16, height: u16, mines: &[(u16, u16)]) -> Board {
    let options = BoardOptions {
        width,
        height,
        bomb_count: mines.len() as u16,
    };
    let list: Vec<Coordinate> = mines.iter().map(|&(x, y)| Coordinate::new(x, y)).collect();
    let mut b = Board::default();
    b.reset_with_mines(&options, &list).expect("placement must be accepted");
    b
}

fn info(b: &Board, x: u16, y: u16) -> (CellContent, CellState) {
    b.cell_info(Coordinate::new(x, y)).expect("in bounds")
}

#[test]
fn default_options_are_beginner_board() {
    let options = BoardOptions::default();
    assert_eq!(options.width, 9);
    assert_eq!(options.height, 9);
    assert_eq!(options.bomb_count, 10);
    assert!(options.is_valid());
}

#[test]
fn invalid_config_is_rejected_and_board_kept() {
    let mut b = board_with_mines(3, 3, &[(2, 2)]);
    let too_many = BoardOptions { width: 2, height: 2, bomb_count: 5 };
    assert_eq!(b.reset(&too_many), Err(BoardError::InvalidConfig));
    let zero_width = BoardOptions { width: 0, height: 4, bomb_count: 0 };
    assert_eq!(b.reset(&zero_width), Err(BoardError::InvalidConfig));
    assert_eq!(b.width(), 3);
    assert_eq!(b.height(), 3);
    assert_eq!(b.bomb_count(), 1);
    assert_eq!(info(&b, 2, 2).0, CellContent::Mine);
}

#[test]
fn random_reset_places_exact_mine_count_all_hidden() {
    let options = BoardOptions::default();
    let mut b = Board::default();
    b.reset(&options).expect("valid config");
    let mut mines = 0;
    for y in 0..9 {
        for x in 0..9 {
            let (content, state) = info(&b, x, y);
            assert_eq!(state, CellState::Hidden);
            if content == CellContent::Mine {
                mines += 1;
            }
        }
    }
    assert_eq!(mines, 10);
}

#[test]
fn random_reset_counts_match_neighbors() {
    let options = BoardOptions { width: 7, height: 5, bomb_count: 9 };
    let mut b = Board::default();
    b.reset(&options).expect("valid config");
    for y in 0i32..5 {
        for x in 0i32..7 {
            let (content, _) = info(&b, x as u16, y as u16);
            if let CellContent::SafeCount(n) = content {
                assert!(n <= 8);
                let mut expected = 0u8;
                for dy in -1i32..=1 {
                    for dx in -1i32..=1 {
                        if dx == 0 && dy == 0 {
                            continue;
                        }
                        let nx = x + dx;
                        let ny = y + dy;
                        if nx >= 0 && nx < 7 && ny >= 0 && ny < 5 {
                            if info(&b, nx as u16, ny as u16).0 == CellContent::Mine {
                                expected += 1;
                            }
                        }
                    }
                }
                assert_eq!(n, expected);
            }
        }
    }
}

#[test]
fn injected_mines_give_exact_counts() {
    let b = board_with_mines(3, 3, &[(2, 2)]);
    assert_eq!(info(&b, 2, 2).0, CellContent::Mine);
    assert_eq!(info(&b, 1, 1).0, CellContent::SafeCount(1));
    assert_eq!(info(&b, 2, 1).0, CellContent::SafeCount(1));
    assert_eq!(info(&b, 1, 2).0, CellContent::SafeCount(1));
    assert_eq!(info(&b, 0, 0).0, CellContent::SafeCount(0));
    assert_eq!(info(&b, 1, 0).0, CellContent::SafeCount(0));
    assert_eq!(info(&b, 2, 0).0, CellContent::SafeCount(0));
    assert_eq!(info(&b, 0, 1).0, CellContent::SafeCount(0));
    assert_eq!(info(&b, 0, 2).0, CellContent::SafeCount(0));
}

#[test]
fn injected_mines_reject_bad_lists() {
    let options = BoardOptions { width: 3, height: 3, bomb_count: 2 };
    let mut b = Board::default();
    let duplicated = vec![Coordinate::new(1, 1), Coordinate::new(1, 1)];
    assert_eq!(b.reset_with_mines(&options, &duplicated), Err(BoardError::InvalidConfig));
    let outside = vec![Coordinate::new(1, 1), Coordinate::new(3, 0)];
    assert_eq!(b.reset_with_mines(&options, &outside), Err(BoardError::OutOfBounds));
    let short = vec![Coordinate::new(1, 1)];
    assert_eq!(b.reset_with_mines(&options, &short), Err(BoardError::InvalidConfig));
}

#[test]
fn neighbor_enumeration_follows_fixed_order() {
    let b = board_with_mines(3, 3, &[(2, 2)]);
    let around_center = b.safe_square_at(Coordinate::new(1, 1));
    let expected = vec![
        Coordinate::new(0, 2),
        Coordinate::new(1, 2),
        Coordinate::new(2, 2),
        Coordinate::new(0, 1),
        Coordinate::new(2, 1),
        Coordinate::new(0, 0),
        Coordinate::new(1, 0),
        Coordinate::new(2, 0),
    ];
    assert_eq!(around_center, expected);
    let around_corner = b.safe_square_at(Coordinate::new(0, 0));
    let expected_corner = vec![
        Coordinate::new(0, 1),
        Coordinate::new(1, 1),
        Coordinate::new(1, 0),
    ];
    assert_eq!(around_corner, expected_corner);
}

#[test]
fn cover_enumeration_skips_revealed_cells() {
    let mut b = board_with_mines(3, 3, &[(2, 2)]);
    b.uncover(Coordinate::new(1, 1), false).expect("in bounds");
    let covered = b.adust_cover_around(Coordinate::new(1, 0));
    let expected = vec![
        Coordinate::new(0, 1),
        Coordinate::new(2, 1),
        Coordinate::new(0, 0),
        Coordinate::new(2, 0),
    ];
    assert_eq!(covered, expected);
}

#[test]
fn cover_enumeration_keeps_flagged_cells() {
    let mut b = board_with_mines(2, 1, &[(0, 0)]);
    b.toggle_flag(Coordinate::new(1, 0)).expect("in bounds");
    let covered = b.adust_cover_around(Coordinate::new(0, 0));
    assert_eq!(covered, vec![Coordinate::new(1, 0)]);
    b.uncover(Coordinate::new(1, 0), true).expect("in bounds");
    let after = b.adust_cover_around(Coordinate::new(0, 0));
    assert!(after.is_empty());
}

#[test]
fn bomb_queries_match_content() {
    let b = board_with_mines(3, 3, &[(2, 2)]);
    assert!(b.is_bomb_at(Coordinate::new(2, 2)));
    assert!(!b.is_bomb_at(Coordinate::new(0, 0)));
    assert_eq!(b.bomb_count_at(Coordinate::new(1, 1)), 1);
    assert_eq!(b.bomb_count_at(Coordinate::new(0, 0)), 0);
    assert_eq!(b.bomb_count_at(Coordinate::new(2, 2)), 0);
}

#[test]
fn console_output_renders_grid() {
    let b = board_with_mines(2, 1, &[(0, 0)]);
    assert_eq!(b.console_output(), "-------\n| * 1 |\n-------");
    let full = board_with_mines(1, 1, &[(0, 0)]);
    assert_eq!(full.console_output(), "-----\n| * |\n-----");
}

#[test]
fn empty_board_rejects_every_intent() {
    let mut b = Board::default();
    assert_eq!(b.uncover(Coordinate::new(0, 0), false), Err(BoardError::OutOfBounds));
    assert_eq!(b.toggle_flag(Coordinate::new(0, 0)), Err(BoardError::OutOfBounds));
    assert_eq!(b.cell_info(Coordinate::new(0, 0)), Err(BoardError::OutOfBounds));
}

#[test]
fn outcome_drives_game_state() {
    assert_eq!(GameOutcome::Ongoing.next_state(GameState::InGame), GameState::InGame);
    assert_eq!(GameOutcome::Loss(Coordinate::new(1, 2)).next_state(GameState::InGame), GameState::Over);
    assert_eq!(GameOutcome::Win.next_state(GameState::InGame), GameState::Over);
    assert_eq!(GameState::default(), GameState::InGame);
}

#[test]
fn coordinate_new_stores_components() {
    let c = Coordinate::new(4, 7);
    assert_eq!(c.x, 4);
    assert_eq!(c.y, 7);
}

#[test]
fn revealed_count_tracks_operations() {
    let mut b = board_with_mines(3, 3, &[(2, 2)]);
    assert_eq!(b.revealed_count(), 0);
    b.uncover(Coordinate::new(1, 1), false).expect("in bounds");
    assert_eq!(b.revealed_count(), 1);
}
