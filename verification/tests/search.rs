use connect_four::board::Board;
use connect_four::minimax::AI;
use connect_four::opening::Lookup;

/// A deterministic quiet middle-game position: keep playing the first
/// safe, non-winning column until `plies` moves are on the board.
fn quiet_position(plies: i8) -> Board {
    let mut board = Board::new();
    while board.moves < plies {
        let safe = board.safe_moves();
        let col = safe.iter().copied().find(|&c| !board.will_win(c));
        match col {
            Some(c) => board.make_move(c),
            None => break,
        }
    }
    board
}

/// The full-window negamax score and the null-window driver's
/// converged score agree.
#[test]
fn full_window_matches_null_window() {
    let mut ai = AI::new();
    for plies in [30i8, 33, 36, 39] {
        let mut board = quiet_position(plies);
        let before = board.clone();
        ai.reset();
        let full = ai.negamax(&mut board, -21, 21);
        ai.reset();
        let null = ai.null_window(&mut board);
        assert_eq!(full, null, "diverged at {plies} plies");
        assert_eq!(board.moves, before.moves);
        assert_eq!(board.owned, before.owned);
        assert_eq!(board.all, before.all);
    }
}

#[test]
fn negamax_draw_on_full_board() {
    let mut board = quiet_position(42);
    if board.valid_moves().is_empty() && board.was_won().is_none() {
        assert_eq!(AI::new().negamax(&mut board, -21, 21), 0);
    }
}

#[test]
fn negamax_sees_forced_loss() {
    // Black faces immediate winning cells in two different columns: lost
    // at once, with 37 plies never played.
    let mut board = Board::from("44556");
    let mut ai = AI::new();
    assert_eq!(ai.negamax(&mut board, -21, 21), -((42 - 5) / 2));
    ai.reset();
    assert_eq!(ai.null_window(&mut board), -((42 - 5) / 2));
}

#[test]
fn solve_takes_an_immediate_vertical_win() {
    // White holds three discs in the centre column with no counter-threat.
    let mut board = Board::from("454646");
    assert_eq!(AI::new().solve(&mut board), 3);
}

#[test]
fn solve_blocks_a_single_threat() {
    // White threatens the bottom row at column 3; black's only safe move
    // is the block.  The blocked position is in the book, so no search is
    // needed.
    let mut book = Lookup::new();
    book.insert("556674", 0);
    let mut ai = AI::with_book(book);
    let mut board = Board::from("55667");
    assert_eq!(ai.solve(&mut board), 3);
}

#[test]
fn solve_prefers_the_book_minimum() {
    // Within the book window, `solve` scores each safe reply through the
    // book and picks the column whose resulting position is worst for the
    // opponent.
    let mut book = Lookup::new();
    book.insert("41", 5);
    book.insert("42", -3);
    book.insert("43", 4);
    book.insert("44", 2);
    book.insert("45", 4);
    book.insert("46", 5);
    book.insert("47", 6);
    let mut ai = AI::with_book(book);
    let mut board = Board::from("4");
    assert_eq!(ai.solve(&mut board), 1);
    assert_eq!(board.moves, 1);
}

#[test]
fn solve_restores_the_board() {
    let mut book = Lookup::new();
    for col in 1..=7 {
        book.insert(&format!("4{col}"), col as i8);
    }
    let mut ai = AI::with_book(book);
    let mut board = Board::from("4");
    let before = board.clone();
    ai.solve(&mut board);
    ai.reset();
    ai.solve(&mut board);
    assert_eq!(board.moves, before.moves);
    assert_eq!(board.owned, before.owned);
    assert_eq!(board.all, before.all);
}
