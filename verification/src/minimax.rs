//! The search engine: negamax with alpha-beta pruning over safe moves, a
//! transposition-table probe at every node, a null-window convergence
//! driver, and top-level move selection.
//!
//! Scores are in plies-to-outcome: a position won by the side to move in
//! `k` further plies scores `(SIZE + 1 - ply_count) / 2` counted at the
//! winning ply, a lost one the negation, a drawn one `0`; every score lies
//! in `[-21, 21]`.  The game value these rules define is written down as
//! `spec_value`, and the searches are proved against it.  Because the
//! transposition table accepts rare false hits by design (truncated keys),
//! a probe can hand back a bound written for another position; the solver
//! therefore carries the full key of every slot as ghost data and a ghost
//! clean flag that a consumed collision clears.  While the flag stands,
//! `negamax` has fail-soft alpha-beta semantics against `spec_value` and
//! the null-window driver converges to `spec_value` exactly — which also
//! ties the two searches to each other; after a collision (the accepted
//! bounded-probability risk) only termination, the score range and the
//! exact restoration of the board remain, and the test suite checks the
//! rest at runtime.
use vstd::prelude::*;

use crate::board::{
    lemma_key_injective, lemma_make_undo_round_trip, lemma_moves_in_range, lemma_safe_moves_members,
    lemma_spec_make_wf, spec_precedes, Board,
};
use crate::opening::Lookup;
use crate::table::{spec_index, Entry, Table, TABLE_SIZE};

verus! {

/// Number of cells on the board; also the maximum number of plies in a game.
pub const SIZE: i8 = 42;

/// Stored table bounds are shifted by `1 - MIN_SCORE` so that they occupy
/// `[1, 43]` and a never-written slot (score 0) can never pass for a bound.
pub const BIAS: i8 = 22;

pub struct AI {
    table: Table,
    lookup: Lookup,
    /// Clear while every transposition bound consumed so far was written
    /// for the exact position it was read for.  A truncated-key collision
    /// — the bounded-probability false hit the design accepts — clears it,
    /// and with it every claim tying the search's scores to the game
    /// value.
    clean: Ghost<bool>,
}

/// The game value this engine computes, defined by the search rules of
/// the design: with no safe move the position is a draw on a full board
/// and otherwise a loss at the earliest opportunity; within two plies of
/// a full board it is a draw; otherwise it is the best negated value over
/// the safe replies.
pub open spec fn spec_value(b: Board) -> int
    decreases 42 - b.moves, 8int,
    when b.wf()
    via spec_value_decreases
{
    if b.spec_safe_moves().len() == 0 {
        if b.spec_valid_moves().len() == 0 {
            0int
        } else {
            -((SIZE - b.moves) / 2)
        }
    } else if b.moves >= SIZE - 2 {
        0int
    } else {
        spec_best_of(b, b.spec_safe_moves().len() as int)
    }
}

/// The best negated value over the first `k` safe replies.
pub open spec fn spec_best_of(b: Board, k: int) -> int
    decreases 42 - b.moves, k,
    when b.wf() && 0 < k <= b.spec_safe_moves().len() && b.moves < SIZE - 2
    via spec_best_of_decreases
{
    let s = -spec_value(b.spec_make(b.spec_safe_moves()[k - 1] as u64));
    if k == 1 {
        s
    } else {
        let r = spec_best_of(b, k - 1);
        if s > r {
            s
        } else {
            r
        }
    }
}

#[via_fn]
proof fn spec_value_decreases(b: Board) {
    if b.wf() {
        lemma_safe_moves_members(b);
        lemma_moves_in_range(b);
    }
}

#[via_fn]
proof fn spec_best_of_decreases(b: Board, k: int) {
    if b.wf() && 0 < k <= b.spec_safe_moves().len() && b.moves < SIZE - 2 {
        lemma_safe_moves_members(b);
        lemma_moves_in_range(b);
        lemma_spec_make_wf(b, b.spec_safe_moves()[k - 1] as u64);
    }
}

/// A slot is sound when its score, if it is a stored bound at all, is an
/// upper bound (bias-shifted) on the value of the position its full ghost
/// key names.
pub open spec fn slot_sound(e: Entry, gk: u64) -> bool {
    1 <= e.score <= 43 ==> forall|b: Board|
        b.wf() && (#[trigger] b.key_spec()) == gk ==> spec_value(b) <= e.score - BIAS
}

/// Every slot of the table is sound for the full key it was written for.
pub open spec fn table_sound(t: Table) -> bool {
    forall|i: int| 0 <= i < TABLE_SIZE ==> slot_sound(#[trigger] t@[i], t.gkeys()[i])
}

/// Every score lies within the plies-to-outcome range of its position:
/// no worse than the deepest loss and no better than an immediate win;
/// a position that still has safe moves and room to play cannot be won
/// on the ply about to be played.
pub proof fn lemma_value_range(b: Board)
    requires
        b.wf(),
    ensures
        -((SIZE - b.moves) / 2) <= spec_value(b) <= (SIZE + 1 - b.moves) / 2,
        b.spec_safe_moves().len() > 0 && b.moves < SIZE - 2 ==> spec_value(b) <= (SIZE - 1
            - b.moves) / 2,
    decreases 42 - b.moves, 9int,
{
    lemma_moves_in_range(b);
    lemma_safe_moves_members(b);
    if b.spec_safe_moves().len() > 0 && b.moves < SIZE - 2 {
        lemma_best_of_props(b, b.spec_safe_moves().len() as int);
    }
}

/// `spec_best_of` is the maximum negated child value: it dominates every
/// child, is attained by one of them, and stays within the score range.
proof fn lemma_best_of_props(b: Board, k: int)
    requires
        b.wf(),
        0 < k <= b.spec_safe_moves().len(),
        b.moves < SIZE - 2,
    ensures
        exists|j: int|
            0 <= j < k && spec_best_of(b, k) == -spec_value(
                b.spec_make((#[trigger] b.spec_safe_moves()[j]) as u64),
            ),
        forall|j: int|
            0 <= j < k ==> -spec_value(b.spec_make((#[trigger] b.spec_safe_moves()[j]) as u64))
                <= spec_best_of(b, k),
        -((SIZE - b.moves) / 2) <= spec_best_of(b, k) <= (SIZE - 1 - b.moves) / 2,
    decreases 42 - b.moves, k,
{
    lemma_moves_in_range(b);
    lemma_safe_moves_members(b);
    let c = b.spec_safe_moves()[k - 1];
    lemma_spec_make_wf(b, c as u64);
    lemma_value_range(b.spec_make(c as u64));
    if k > 1 {
        lemma_best_of_props(b, k - 1);
        if -spec_value(b.spec_make(c as u64)) > spec_best_of(b, k - 1) {
            assert(spec_best_of(b, k) == -spec_value(
                b.spec_make((b.spec_safe_moves()[k - 1]) as u64),
            ));
        }
    } else {
        assert(spec_best_of(b, k) == -spec_value(b.spec_make((b.spec_safe_moves()[0]) as u64)));
    }
}

/// A table whose slots are all cleared carries no bounds, hence is sound.
proof fn lemma_zero_table_sound(t: Table)
    requires
        forall|i: int| 0 <= i < TABLE_SIZE ==> t@[i] == (Entry { key: 0u32, score: 0i8 }),
    ensures
        table_sound(t),
{
    assert forall|i: int| 0 <= i < TABLE_SIZE implies slot_sound(
        #[trigger] t@[i],
        t.gkeys()[i],
    ) by {
        assert(t@[i].score == 0);
    }
}

/// On a position with safe moves and room to play, the game value is the
/// maximum negated value over the safe replies.
pub proof fn lemma_value_is_best(b: Board)
    requires
        b.wf(),
        b.spec_safe_moves().len() > 0,
        b.moves < SIZE - 2,
    ensures
        forall|j: int|
            0 <= j < b.spec_safe_moves().len() ==> -spec_value(
                b.spec_make((#[trigger] b.spec_safe_moves()[j]) as u64),
            ) <= spec_value(b),
        exists|j: int|
            0 <= j < b.spec_safe_moves().len() && spec_value(b) == -spec_value(
                b.spec_make((#[trigger] b.spec_safe_moves()[j]) as u64),
            ),
{
    lemma_best_of_props(b, b.spec_safe_moves().len() as int);
}

/// Every safe reply from `b` leads to a position whose key `book` covers.
pub open spec fn book_covers(b: Board, book: Map<u64, i8>) -> bool {
    forall|c: u8|
        b.spec_safe_moves().contains(c) ==> #[trigger] book.contains_key(
            b.spec_make(c as u64).key_spec(),
        )
}

impl AI {
    /// The table keeps its fixed shape throughout a search.
    pub closed spec fn wf(self) -> bool {
        self.table.wf()
    }

    /// No truncated-key collision has been consumed since the last reset.
    pub closed spec fn is_clean(self) -> bool {
        self.clean@
    }

    /// While clean, every cached bound is sound for its own position.
    pub closed spec fn sound(self) -> bool {
        self.clean@ ==> table_sound(self.table)
    }

    /// The transposition-table slots.
    pub closed spec fn cache(self) -> Seq<Entry> {
        self.table@
    }

    /// A solver with an empty opening book.
    pub fn new() -> (ai: AI)
        ensures
            ai.wf(),
            ai.sound(),
            ai.is_clean(),
            ai.book() == Map::<u64, i8>::empty(),
            forall|i: int| 0 <= i < TABLE_SIZE ==> ai.cache()[i] == (Entry {
                key: 0u32,
                score: 0i8,
            }),
    {
        let table = Table::new();
        proof {
            lemma_zero_table_sound(table);
        }
        AI { table, lookup: Lookup::new(), clean: Ghost(true) }
    }

    /// A solver that consults `lookup` for positions within the first five
    /// plies before falling back to search.
    pub fn with_book(lookup: Lookup) -> (ai: AI)
        ensures
            ai.wf(),
            ai.sound(),
            ai.is_clean(),
            ai.book() == lookup@,
            forall|i: int| 0 <= i < TABLE_SIZE ==> ai.cache()[i] == (Entry {
                key: 0u32,
                score: 0i8,
            }),
    {
        let table = Table::new();
        proof {
            lemma_zero_table_sound(table);
        }
        AI { table, lookup, clean: Ghost(true) }
    }

    /// The opening book in use.
    pub closed spec fn book(self) -> Map<u64, i8> {
        self.lookup@
    }

    /// Forget all cached bounds — every slot is cleared outright, so a
    /// fresh top-level solve can neither match nor be misled by entries of
    /// an earlier one — and start a clean accounting of collisions.
    pub fn reset(&mut self)
        requires
            old(self).wf(),
        ensures
            final(self).wf(),
            final(self).sound(),
            final(self).is_clean(),
            final(self).book() == old(self).book(),
            forall|i: int| 0 <= i < TABLE_SIZE ==> final(self).cache()[i] == (Entry {
                key: 0u32,
                score: 0i8,
            }),
    {
        self.table.reset();
        proof {
            self.clean@ = true;
            lemma_zero_table_sound(self.table);
        }
    }

    /// Negamax with alpha-beta pruning over the window `(alpha, beta)`.
    ///
    /// Fail-soft: the best child score found is returned (and cached as a
    /// bias-shifted bound), which may fall outside the window.  The board
    /// is handed back exactly as it came in; every recursion step raises
    /// `ply_count`, so the search terminates within `SIZE` levels.
    ///
    /// While the solver is clean — no truncated-key collision consumed —
    /// the result carries fail-soft alpha-beta semantics against the
    /// game value `spec_value`: a result at or below `alpha` is an upper
    /// bound on the value, one at or above `beta` a lower bound, and one
    /// strictly inside the window is the value itself.  A collision
    /// clears the clean flag and with it these claims, the bounded
    /// accepted risk of the truncated table.
    pub fn negamax(&mut self, board: &mut Board, alpha: i8, beta: i8) -> (score: i8)
        requires
            old(self).wf(),
            old(self).sound(),
            old(board).wf(),
            -21 <= alpha < beta <= 21,
        ensures
            final(self).wf(),
            final(self).sound(),
            final(self).is_clean() ==> old(self).is_clean(),
            final(self).book() == old(self).book(),
            *final(board) == *old(board),
            -21 <= score <= 21,
            old(board).spec_safe_moves().len() == 0 && old(board).spec_valid_moves().len() == 0
                ==> score == 0,
            old(board).spec_safe_moves().len() == 0 && old(board).spec_valid_moves().len() > 0
                ==> score == -((SIZE - old(board).moves) / 2),
            old(board).spec_safe_moves().len() > 0 && old(board).moves >= SIZE - 2 ==> score == 0,
            final(self).is_clean() ==> {
                &&& (score <= alpha ==> spec_value(*old(board)) <= score)
                &&& (score >= beta ==> spec_value(*old(board)) >= score)
                &&& (alpha < score < beta ==> score == spec_value(*old(board)))
            },
            final(self).is_clean() && alpha == -21 && beta == 21 ==> score == spec_value(
                *old(board),
            ),
        decreases 42 - board.moves,
    {
        proof {
            lemma_moves_in_range(*board);
        }
        let mut alpha_c = alpha;
        let mut beta_c = beta;
        let moves = board.safe_moves();

        if moves.len() == 0 {
            // No safe move: a full board is a draw; otherwise the opponent
            // has two live threats and the side to move loses at the
            // earliest opportunity.  Either way this is the game value.
            if board.valid_moves().len() == 0 {
                return 0;
            }
            return -((SIZE - board.moves) / 2);
        }
        if board.moves >= SIZE - 2 {
            // Within two plies of a full board with no decisive move left:
            // a guaranteed draw, again the game value itself.
            return 0;
        }

        // Clamp the window to what the remaining plies allow: no score can
        // be worse than the deepest loss nor better than a win on the very
        // next ply.
        let min_s = -((SIZE - board.moves) / 2);
        let max_s = (SIZE - 1 - board.moves) / 2;
        if alpha_c < min_s {
            alpha_c = min_s;
            if alpha_c >= beta_c {
                proof {
                    lemma_value_range(*board);
                }
                return alpha_c;
            }
        }
        if beta_c > max_s {
            beta_c = max_s;
            if alpha_c >= beta_c {
                proof {
                    lemma_value_range(*board);
                }
                return beta_c;
            }
        }

        // Probe the table for an upper bound on this position's score.  A
        // stored bound outside the legal score range is a slot that was
        // never written (or was cleared by a reset) and is ignored.  A
        // bound in range is trusted; if its slot's full ghost key differs
        // from ours it is a truncation collision and the clean flag falls.
        let key = board.key();
        let ghost slot: int = spec_index(key);
        if let Some(stored) = self.table.get(key) {
            let unbiased = (stored as i16) - (BIAS as i16);
            if -21 <= unbiased && unbiased <= 21 {
                let bound = unbiased as i8;
                if beta_c > bound {
                    proof {
                        self.clean@ = self.clean@ && self.table.gkeys()[slot] == key;
                        if self.clean@ {
                            assert(slot_sound(self.table@[slot], self.table.gkeys()[slot]));
                            assert(spec_value(*board) <= bound);
                        }
                    }
                    beta_c = bound;
                    if alpha_c >= beta_c {
                        proof {
                            lemma_value_range(*board);
                        }
                        return beta_c;
                    }
                }
            }
        }

        let ghost ca: int = alpha_c as int;
        let ghost cb: int = beta_c as int;
        proof {
            if self.clean@ && cb != beta {
                lemma_value_range(*board);
                assert(spec_value(*old(board)) <= cb);
            }
        }
        let mut best: i8 = -21;
        let mut i: usize = 0;
        while i < moves.len()
            invariant
                self.wf(),
                self.sound(),
                self.is_clean() ==> old(self).is_clean(),
                self.book() == old(self).book(),
                *board == *old(board),
                board.wf(),
                key == old(board).key_spec(),
                -21 <= alpha_c < beta_c <= 21,
                -21 <= best <= 21,
                forall|k: int|
                    0 <= k < moves@.len() ==> old(board).spec_safe_col(#[trigger] moves@[k]),
                moves@.to_multiset() == old(board).spec_safe_moves().to_multiset(),
                i <= moves@.len(),
                moves@.len() == old(board).spec_safe_moves().len(),
                moves@.len() > 0,
                old(board).moves < SIZE - 2,
                42 - board.moves >= 0,
                -21 <= alpha && alpha < beta && beta <= 21,
                alpha <= ca < cb <= beta,
                alpha_c == if best > ca {
                    best as int
                } else {
                    ca
                },
                beta_c == cb,
                best < cb,
                ca == alpha || ca == -((SIZE - old(board).moves) / 2),
                self.is_clean() ==> (cb == beta || spec_value(*old(board)) <= cb),
                self.is_clean() ==> forall|j: int|
                    0 <= j < i ==> -spec_value(
                        old(board).spec_make((#[trigger] moves@[j]) as u64),
                    ) <= best,
                self.is_clean() && best > ca ==> exists|j: int|
                    0 <= j < i && best == -spec_value(
                        old(board).spec_make((#[trigger] moves@[j]) as u64),
                    ),
            decreases moves@.len() - i,
        {
            let col = moves[i];
            board.make_move(col);
            proof {
                lemma_moves_in_range(*board);
            }
            let score = -self.negamax(board, -beta_c, -alpha_c);
            board.undo_move(col);
            proof {
                lemma_make_undo_round_trip(*old(board), col as u64);
                if self.is_clean() {
                    lemma_value_is_best(*old(board));
                    lemma_contains_of_multiset(
                        moves@,
                        old(board).spec_safe_moves(),
                        moves@[i as int],
                    );
                    let jj = choose|jj: int|
                        0 <= jj < old(board).spec_safe_moves().len() && old(
                            board,
                        ).spec_safe_moves()[jj] == moves@[i as int];
                    assert(-spec_value(old(board).spec_make((moves@[i as int]) as u64))
                        <= spec_value(*old(board)));
                }
            }
            if score >= beta_c {
                proof {
                    if self.is_clean() {
                        lemma_value_range(*old(board));
                        let v = spec_value(*old(board));
                        assert(v >= score);
                        if alpha < score && score < beta {
                            assert(cb != beta);
                            assert(v <= cb);
                            assert(v == score);
                        }
                    }
                }
                return score;
            }
            if score > alpha_c {
                alpha_c = score;
            }
            if score > best {
                best = score;
            }
            i = i + 1;
        }
        proof {
            if self.is_clean() {
                lemma_value_is_best(*old(board));
                lemma_value_range(*old(board));
                let v = spec_value(*old(board));
                assert forall|jj: int|
                    0 <= jj < old(board).spec_safe_moves().len() implies -spec_value(
                    old(board).spec_make((#[trigger] old(board).spec_safe_moves()[jj]) as u64),
                ) <= best by {
                    lemma_contains_of_multiset(
                        old(board).spec_safe_moves(),
                        moves@,
                        old(board).spec_safe_moves()[jj],
                    );
                    let j = choose|j: int|
                        0 <= j < moves@.len() && moves@[j] == old(board).spec_safe_moves()[jj];
                    assert(-spec_value(old(board).spec_make((moves@[j]) as u64)) <= best);
                }
                assert(v <= best);
                if alpha < best && best < beta {
                    if best > ca {
                        let j = choose|j: int|
                            0 <= j < moves@.len() && best == -spec_value(
                                old(board).spec_make((#[trigger] moves@[j]) as u64),
                            );
                        lemma_contains_of_multiset(
                            moves@,
                            old(board).spec_safe_moves(),
                            moves@[j],
                        );
                        let jj = choose|jj: int|
                            0 <= jj < old(board).spec_safe_moves().len() && old(
                                board,
                            ).spec_safe_moves()[jj] == moves@[j];
                        assert(-spec_value(
                            old(board).spec_make((old(board).spec_safe_moves()[jj]) as u64),
                        ) <= v);
                        assert(best <= v);
                    } else {
                        assert(ca == -((SIZE - old(board).moves) / 2));
                        assert(v >= ca);
                    }
                    assert(v == best);
                }
            }
        }
        self.table.insert(key, best + BIAS);
        proof {
            if self.clean@ {
                assert forall|ii: int| 0 <= ii < TABLE_SIZE implies slot_sound(
                    #[trigger] self.table@[ii],
                    self.table.gkeys()[ii],
                ) by {
                    if ii == slot {
                        assert forall|b: Board|
                            b.wf() && (#[trigger] b.key_spec()) == key implies spec_value(b)
                            <= best by {
                            lemma_key_injective(b, *old(board));
                        }
                    }
                }
            }
        }
        best
    }

    /// Converge on the exact score by repeated null-window probes that
    /// bisect the remaining score range, biasing the probe point toward
    /// zero because most subtrees resolve near a draw.  Terminates because
    /// every probe strictly narrows the range; when it is empty, its single
    /// point is returned.
    ///
    /// While the solver stays clean, the converged score is the game
    /// value itself: each probe's fail-soft bounds pin the value on one
    /// side of the probe point, and the window closes on it.
    pub fn null_window(&mut self, board: &mut Board) -> (score: i8)
        requires
            old(self).wf(),
            old(self).sound(),
            old(board).wf(),
        ensures
            final(self).wf(),
            final(self).sound(),
            final(self).is_clean() ==> old(self).is_clean(),
            final(self).book() == old(self).book(),
            *final(board) == *old(board),
            -21 <= score <= 21,
            -(SIZE - old(board).moves) <= 2 * score <= SIZE + 1 - old(board).moves,
            old(board).spec_safe_moves().len() == 0 && old(board).spec_valid_moves().len() == 0
                ==> score == 0,
            old(board).spec_safe_moves().len() == 0 && old(board).spec_valid_moves().len() > 0
                ==> score == -((SIZE - old(board).moves) / 2),
            old(board).spec_safe_moves().len() > 0 && old(board).moves >= SIZE - 2 ==> score == 0,
            final(self).is_clean() ==> score == spec_value(*old(board)),
    {
        proof {
            lemma_moves_in_range(*board);
            lemma_value_range(*board);
        }
        let mut min: i8 = -((SIZE - board.moves) / 2);
        let mut max: i8 = (SIZE + 1 - board.moves) / 2;
        while min < max
            invariant
                self.wf(),
                self.sound(),
                self.is_clean() ==> old(self).is_clean(),
                self.book() == old(self).book(),
                *board == *old(board),
                board.wf(),
                -21 <= min <= 21,
                -21 <= max <= 21,
                min <= max,
                -(SIZE - old(board).moves) <= 2 * min,
                2 * max <= SIZE + 1 - old(board).moves,
                self.is_clean() ==> min <= spec_value(*old(board)) <= max,
                old(board).spec_safe_moves().len() == 0 && old(board).spec_valid_moves().len() > 0
                    ==> min <= -((SIZE - old(board).moves) / 2) <= max,
                (old(board).spec_safe_moves().len() == 0 && old(board).spec_valid_moves().len()
                    == 0) || (old(board).spec_safe_moves().len() > 0 && old(board).moves >= SIZE
                    - 2) ==> min <= 0 <= max,
            decreases max - min,
        {
            let mut mid = min + (max - min) / 2;
            if mid <= 0 && min / 2 < mid {
                mid = min / 2;
            } else if mid >= 0 && max / 2 > mid {
                mid = max / 2;
            }
            let r = self.negamax(board, mid, mid + 1);
            if r <= mid {
                max = mid;
            } else {
                min = mid + 1;
            }
        }
        min
    }

    /// Pick a column for the side to move: an immediately winning safe move
    /// if there is one; otherwise the safe move whose resulting position
    /// scores lowest for the opponent, taken from the book for positions
    /// within the first five plies and from the null-window search beyond
    /// them.  With no safe move left (a lost position) the centre column is
    /// returned.
    pub fn solve(&mut self, board: &mut Board) -> (col: u8)
        requires
            old(self).wf(),
            old(self).sound(),
            old(board).wf(),
        ensures
            final(self).wf(),
            final(self).sound(),
            *final(board) == *old(board),
            col < 7,
            old(board).spec_safe_moves().len() == 0 ==> col == 3,
            old(board).spec_safe_moves().len() > 0 ==> old(board).spec_safe_moves().contains(col),
            (exists|c: u8|
                old(board).spec_safe_moves().contains(c) && old(board).spec_will_win(c as u64))
                ==> old(board).spec_will_win(col as u64),
            (exists|c: u8|
                old(board).spec_safe_moves().contains(c) && old(board).spec_will_win(c as u64))
                ==> (forall|c: u8|
                (#[trigger] old(board).spec_safe_moves().contains(c)) && old(board).spec_will_win(
                    c as u64,
                ) && c != col ==> spec_precedes(*old(board), col, c)),
            (old(board).moves < 6 && book_covers(*old(board), old(self).book()) && old(
                board,
            ).spec_safe_moves().len() > 0 && !(exists|c: u8|
                old(board).spec_safe_moves().contains(c) && old(board).spec_will_win(c as u64)))
                ==> (forall|c: u8|
                old(board).spec_safe_moves().contains(c) ==> old(self).book()[old(
                    board,
                ).spec_make(col as u64).key_spec()] <= #[trigger] old(self).book()[old(
                    board,
                ).spec_make(c as u64).key_spec()]),
            (final(self).is_clean() && old(board).moves >= 6 && old(
                board,
            ).spec_safe_moves().len() > 0 && !(exists|c: u8|
                old(board).spec_safe_moves().contains(c) && old(board).spec_will_win(c as u64)))
                ==> (forall|c: u8|
                old(board).spec_safe_moves().contains(c) ==> spec_value(
                    old(board).spec_make(col as u64),
                ) <= spec_value(#[trigger] old(board).spec_make(c as u64))),
    {
        let safe = board.safe_moves();

        let mut k: usize = 0;
        while k < safe.len()
            invariant
                self.wf(),
                self.sound(),
                *board == *old(board),
                board.wf(),
                forall|j: int| 0 <= j < safe@.len() ==> old(board).spec_safe_col(#[trigger] safe@[j]),
                safe@.to_multiset() == old(board).spec_safe_moves().to_multiset(),
                forall|a: int, b: int|
                    0 <= a < b < safe@.len() ==> spec_precedes(*old(board), safe@[a], safe@[b]),
                k <= safe@.len(),
                forall|j: int| 0 <= j < k ==> !old(board).spec_will_win(#[trigger] safe@[j] as u64),
            decreases safe@.len() - k,
        {
            if board.will_win(safe[k]) {
                proof {
                    lemma_contains_of_multiset(safe@, old(board).spec_safe_moves(), safe@[k as int]);
                    assert forall|c: u8|
                        (#[trigger] old(board).spec_safe_moves().contains(c)) && old(
                            board,
                        ).spec_will_win(c as u64) && c != safe@[k as int] implies spec_precedes(
                        *old(board),
                        safe@[k as int],
                        c,
                    ) by {
                        lemma_contains_of_multiset(old(board).spec_safe_moves(), safe@, c);
                        let j = choose|j: int| 0 <= j < safe@.len() && safe@[j] == c;
                        assert(j != k);
                        assert(j > k);
                    }
                }
                return safe[k];
            }
            k = k + 1;
        }

        let shallow = board.moves < 6;
        let ghost covered = old(board).moves < 6 && book_covers(*old(board), old(self).book());
        let mut best_score: i8 = SIZE;
        let mut best_col: u8 = 3;
        let mut k: usize = 0;
        while k < safe.len()
            invariant
                self.wf(),
                self.sound(),
                self.book() == old(self).book(),
                *board == *old(board),
                board.wf(),
                forall|j: int| 0 <= j < safe@.len() ==> old(board).spec_safe_col(#[trigger] safe@[j]),
                safe@.to_multiset() == old(board).spec_safe_moves().to_multiset(),
                k <= safe@.len(),
                best_col == 3 || safe@.contains(best_col),
                k > 0 ==> safe@.contains(best_col),
                covered == (old(board).moves < 6 && book_covers(*old(board), old(self).book())),
                shallow == (old(board).moves < 6),
                covered && k > 0 ==> best_score == old(self).book()[old(board).spec_make(
                    best_col as u64,
                ).key_spec()],
                covered ==> forall|j: int|
                    0 <= j < k ==> best_score <= old(self).book()[old(board).spec_make(
                        (#[trigger] safe@[j]) as u64,
                    ).key_spec()],
                self.is_clean() ==> old(self).is_clean(),
                self.is_clean() && !shallow && k > 0 ==> best_score == spec_value(
                    old(board).spec_make(best_col as u64),
                ),
                self.is_clean() && !shallow ==> forall|j: int|
                    0 <= j < k ==> best_score <= spec_value(
                        old(board).spec_make((#[trigger] safe@[j]) as u64),
                    ),
            decreases safe@.len() - k,
        {
            let col = safe[k];
            proof {
                if covered {
                    lemma_contains_of_multiset(safe@, old(board).spec_safe_moves(), safe@[k as int]);
                }
            }
            board.make_move(col);
            let score = if shallow {
                match self.lookup.get(board.key()) {
                    Some(s) => s,
                    None => self.null_window(board),
                }
            } else {
                self.null_window(board)
            };
            board.undo_move(col);
            proof {
                lemma_make_undo_round_trip(*old(board), col as u64);
            }
            if k == 0 || score < best_score {
                best_score = score;
                best_col = col;
            }
            k = k + 1;
        }
        proof {
            if safe@.len() > 0 {
                assert(safe@.contains(best_col));
                lemma_contains_of_multiset(safe@, old(board).spec_safe_moves(), best_col);
            }
            lemma_len_of_multiset(safe@, old(board).spec_safe_moves());
            if exists|c: u8|
                old(board).spec_safe_moves().contains(c) && old(board).spec_will_win(c as u64) {
                let c = choose|c: u8|
                    old(board).spec_safe_moves().contains(c) && old(board).spec_will_win(c as u64);
                lemma_contains_of_multiset(old(board).spec_safe_moves(), safe@, c);
                let j = choose|j: int| 0 <= j < safe@.len() && safe@[j] == c;
                assert(!old(board).spec_will_win(safe@[j] as u64));
                assert(false);
            }
            if covered && safe@.len() > 0 {
                assert forall|c: u8| old(board).spec_safe_moves().contains(c) implies old(
                    self,
                ).book()[old(board).spec_make(best_col as u64).key_spec()] <= #[trigger] old(
                    self,
                ).book()[old(board).spec_make(c as u64).key_spec()] by {
                    lemma_contains_of_multiset(old(board).spec_safe_moves(), safe@, c);
                    let j = choose|j: int| 0 <= j < safe@.len() && safe@[j] == c;
                    assert(best_score <= old(self).book()[old(board).spec_make(
                        (safe@[j]) as u64,
                    ).key_spec()]);
                }
            }
            if self.is_clean() && !shallow && safe@.len() > 0 {
                assert forall|c: u8| old(board).spec_safe_moves().contains(c) implies spec_value(
                    old(board).spec_make(best_col as u64),
                ) <= spec_value(#[trigger] old(board).spec_make(c as u64)) by {
                    lemma_contains_of_multiset(old(board).spec_safe_moves(), safe@, c);
                    let j = choose|j: int| 0 <= j < safe@.len() && safe@[j] == c;
                    assert(best_score <= spec_value(old(board).spec_make((safe@[j]) as u64)));
                }
            }
        }
        best_col
    }
}

/// Two sequences with the same multiset contain the same values.
proof fn lemma_contains_of_multiset(a: Seq<u8>, b: Seq<u8>, x: u8)
    requires
        a.to_multiset() == b.to_multiset(),
        a.contains(x),
    ensures
        b.contains(x),
{
    broadcast use vstd::seq_lib::group_to_multiset_ensures;

    assert(a.to_multiset().count(x) > 0);
    assert(b.to_multiset().count(x) > 0);
}

/// Two sequences with the same multiset have the same length.
proof fn lemma_len_of_multiset(a: Seq<u8>, b: Seq<u8>)
    requires
        a.to_multiset() == b.to_multiset(),
    ensures
        a.len() == b.len(),
{
    broadcast use vstd::seq_lib::group_to_multiset_ensures;

    assert(a.to_multiset().len() == a.len());
    assert(b.to_multiset().len() == b.len());
}

} // verus!
