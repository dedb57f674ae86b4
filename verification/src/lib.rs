//! An exact solver for Connect Four on the standard 7 x 6 board.
//!
//! The solver determines, for the side to move, whether a position is a
//! forced win, a forced loss, or a draw, and in how many plies.  It is built
//! from a bitboard position representation with constant-time move, undo and
//! win detection (`board`), a position-keyed transposition table (`table`),
//! an opening book for shallow positions (`opening`), and a negamax search
//! with alpha-beta pruning and a null-window convergence driver (`minimax`).
//! A cell-grid representation used by the interactive front end lives in
//! `grid`.
pub mod board;
pub mod grid;
pub mod minimax;
pub mod opening;
pub mod player;
pub mod table;
