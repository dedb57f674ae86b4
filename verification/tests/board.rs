use std::collections::HashMap;

use connect_four::board::{Board, BLACK, WHITE};

/// Making a move and undoing it restores the exact position.
#[test]
fn round_trip_restores_position() {
    let strings = ["", "4", "44", "445566", "1234567", "44556"];
    for s in strings {
        let mut board = Board::from(s);
        for col in 0..7u8 {
            if !board.valid_moves().contains(&col) {
                continue;
            }
            let before = board.clone();
            board.make_move(col);
            board.undo_move(col);
            assert_eq!(board.moves, before.moves);
            assert_eq!(board.owned, before.owned);
            assert_eq!(board.all, before.all);
        }
    }
}

/// Over many random play-outs, two positions with the same key are the
/// same position.
#[test]
fn keys_are_injective_over_playouts() {
    let mut seen: HashMap<u64, (i8, u64, u64)> = HashMap::new();
    let mut rng: u64 = 0x2545_f491_4f6c_dd1d;
    for _ in 0..200 {
        let mut board = Board::new();
        loop {
            if board.was_won().is_some() {
                break;
            }
            let valid = board.valid_moves();
            if valid.is_empty() {
                break;
            }
            rng = rng.wrapping_mul(6364136223846793005).wrapping_add(1442695040888963407);
            let col = valid[(rng >> 33) as usize % valid.len()];
            board.make_move(col);
            let entry = (board.moves, board.owned, board.all);
            let prior = seen.insert(board.key(), entry);
            if let Some(prior) = prior {
                assert_eq!(prior, entry);
            }
        }
    }
    assert!(seen.len() > 1000);
}

#[test]
fn key_of_known_positions() {
    assert_eq!(Board::new().key(), 0);
    // One disc at the bottom of the centre column: `all` holds lane bit 21,
    // the new mover owns nothing.
    assert_eq!(Board::from("4").key(), 1 << 21);
}

#[test]
fn valid_moves_on_empty_board() {
    assert_eq!(Board::new().valid_moves(), vec![3, 2, 4, 1, 5, 0, 6]);
}

/// A column filled to six discs is no longer offered.
#[test]
fn full_column_excluded_from_valid_moves() {
    let board = Board::from("444444");
    assert_eq!(board.valid_moves(), vec![2, 4, 1, 5, 0, 6]);
    let mut board = Board::new();
    for _ in 0..6 {
        board.make_move(0);
    }
    assert!(!board.valid_moves().contains(&0));
    assert_eq!(board.valid_moves().len(), 6);
}

/// Every safe move is a valid move.
#[test]
fn safe_moves_subset_of_valid_moves() {
    let strings = ["", "4", "44", "445566", "44556", "55667", "1234567", "444444"];
    for s in strings {
        let board = Board::from(s);
        let valid = board.valid_moves();
        for col in board.safe_moves() {
            assert!(valid.contains(&col), "unsafe column {col} in {s:?}");
        }
    }
}

/// After a single centre drop no reply can complete a line of four.
#[test]
fn no_immediate_win_after_one_move() {
    let board = Board::from("4");
    for col in 0..7u8 {
        assert!(!board.will_win(col));
    }
}

#[test]
fn will_win_on_open_ended_row() {
    // White holds the bottom of columns 3, 4 and 5 and is to move: either
    // end of the row completes four.
    let board = Board::from("445566");
    assert!(board.will_win(2));
    assert!(board.will_win(6));
    assert!(!board.will_win(0));
    assert!(!board.will_win(3));
}

/// With two independent immediate threats against the side to move,
/// no move is safe.
#[test]
fn forced_loss_yields_no_safe_moves() {
    // White holds the bottom of columns 3, 4 and 5; black, to move, faces
    // winning cells in both column 2 and column 6.
    let board = Board::from("44556");
    assert_eq!(board.safe_moves(), Vec::<u8>::new());
    assert!(!board.valid_moves().is_empty());
}

#[test]
fn single_threat_forces_the_block() {
    // White holds the bottom of columns 4, 5 and 6; black, to move, can
    // only block in column 3.
    let board = Board::from("55667");
    assert_eq!(board.safe_moves(), vec![3]);
}

#[test]
fn was_won_detects_lines() {
    assert_eq!(Board::new().was_won(), None);
    assert_eq!(Board::from("445566").was_won(), None);
    // White completes the bottom row with the seventh move.
    assert_eq!(Board::from("4455667").was_won(), Some(WHITE));
    // Black completes a vertical line in column 2 while white spreads.
    assert_eq!(Board::from("12324252").was_won(), Some(BLACK));
}

#[test]
fn get_reads_cells_by_colour() {
    let board = Board::from("45");
    assert_eq!(board.get(0, 3), Some(WHITE));
    assert_eq!(board.get(0, 4), Some(BLACK));
    assert_eq!(board.get(1, 3), None);
    assert_eq!(board.get(0, 0), None);
}

#[test]
fn reset_restores_the_empty_board() {
    let mut board = Board::from("4455");
    board.reset();
    assert_eq!(board.moves, 0);
    assert_eq!(board.owned, 0);
    assert_eq!(board.all, 0);
}

/// The empty board is invariant under swapping which side is labelled
/// as the one to move, so any score computed for it cannot depend on the
/// labeling.
#[test]
fn empty_board_is_swap_invariant() {
    let board = Board::new();
    let swapped = Board { moves: board.moves, owned: board.all ^ board.owned, all: board.all };
    assert_eq!(swapped.moves, board.moves);
    assert_eq!(swapped.owned, board.owned);
    assert_eq!(swapped.all, board.all);
}
