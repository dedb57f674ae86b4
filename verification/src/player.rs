//! Move sources for the grid-based game loop.
//!
//! A `Player` produces a column for the side to move; the human
//! implementation reads it from the terminal and the engine implementation
//! searches for it, both of which live with the front end.  The `CPU`
//! carries the search depth and the per-length window weights of the
//! depth-limited evaluation.
use vstd::prelude::*;

use crate::grid::{Color, Grid};

verus! {

pub struct Human {}

pub struct CPU {
    /// Search depth in plies.
    pub depth: u8,
    /// Evaluation weight for a window holding 0..=4 of the mover's discs.
    pub positive: [i32; 5],
    /// Evaluation weight for a window holding 0..=4 opposing discs.
    pub negative: [i32; 5],
}

/// A source of moves for the side to move.  Implementations decide a
/// column from the grid; `wait` may pause between turns.
pub trait Player {
    fn take_turn(&self, grid: &Grid, color: Color) -> u8;

    fn wait(&self);
}

impl CPU {
    /// A computer player searching `depth` plies with the standard window
    /// weights: longer own lines weigh progressively more, opposing lines
    /// progressively less, and completed lines dominate everything.
    pub fn new(depth: u8) -> (cpu: CPU)
        ensures
            cpu.depth == depth,
            cpu.positive@ == seq![0i32, 1i32, 4i32, 9i32, 10000i32],
            cpu.negative@ == seq![0i32, -1i32, -8i32, -27i32, -1000000i32],
    {
        let positive: [i32; 5] = [0, 1, 4, 9, 10000];
        let negative: [i32; 5] = [0, -1, -8, -27, -1000000];
        proof {
            assert(positive@ =~= seq![0i32, 1i32, 4i32, 9i32, 10000i32]);
            assert(negative@ =~= seq![0i32, -1i32, -8i32, -27i32, -1000000i32]);
        }
        CPU { depth, positive, negative }
    }
}

} // verus!
