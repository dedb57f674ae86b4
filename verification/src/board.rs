//! Bitboard position representation.
//!
//! A 64-bit word is partitioned into 7 lanes of 7 bits each, one lane per
//! column, low bits first.  Within a lane, bit `r` stands for the cell in
//! row `r` (row 0 is the bottom); only bits 0..=5 of a lane are playable,
//! bit 6 is a guard bit that stays clear and stops carries from spilling
//! into the next column.  `all` marks every occupied cell.  `owned` marks
//! the cells of the side that is about to move: the encoding is
//! owner-relative, so every move flips `owned` to the other side's discs
//! before dropping the new disc.
use vstd::prelude::*;

verus! {

pub const ROWS: u8 = 6;
pub const COLS: u8 = 7;
pub const WHITE: i8 = 0;
pub const BLACK: i8 = 1;

/// Every playable cell: bits 0..=5 of each of the 7 lanes.
pub const BOARD_MASK: u64 = 0b0111111_0111111_0111111_0111111_0111111_0111111_0111111;
/// The bottom cell of each column.
pub const BOTTOM_ROW: u64 = 0b0000001_0000001_0000001_0000001_0000001_0000001_0000001;

#[derive(Clone, Copy, PartialEq, Eq, Hash, Structural)]
pub struct Board {
    /// Number of discs placed so far; even means the first player is to move.
    pub moves: i8,
    /// Cells of the side to move.
    pub owned: u64,
    /// All occupied cells.
    pub all: u64,
}

/// The 7 bits of column `col` (its 6 playable cells and its guard bit).
pub open spec fn lane(x: u64, col: u64) -> u64
    recommends
        col < 7,
{
    (x >> ((7 * col) as u64)) & 0x7f
}

/// A column's occupancy pattern must be a contiguous run of discs starting
/// at the bottom: as a lane value, one of `0, 1, 3, 7, 15, 31, 63`.
pub open spec fn is_run(l: u64) -> bool {
    l == 0 || l == 1 || l == 3 || l == 7 || l == 15 || l == 31 || l == 63
}

/// Number of discs in a column whose lane value is `l`, for run-shaped `l`.
pub open spec fn run_len(l: u64) -> nat
    decreases l,
{
    if l == 0 {
        0
    } else {
        (1 + run_len(l / 2)) as nat
    }
}

/// Total number of discs in the first `n` columns of `x`.
pub open spec fn sum_heights(x: u64, n: int) -> int
    decreases n,
{
    if n <= 0 {
        0
    } else {
        sum_heights(x, n - 1) + run_len(lane(x, (n - 1) as u64))
    }
}

impl Board {
    /// Structural invariant of every reachable position: no bits outside the
    /// playable cells, the mover's discs are among the occupied cells, each
    /// column is a bottom-up run, and the ply counter equals the disc count.
    pub open spec fn wf(self) -> bool {
        &&& self.all & BOARD_MASK == self.all
        &&& self.owned & self.all == self.owned
        &&& forall|c: u64| c < 7 ==> is_run(#[trigger] lane(self.all, c))
        &&& self.moves == sum_heights(self.all, 7)
    }

    /// Number of discs in column `col`.
    pub open spec fn height(self, col: u64) -> nat {
        run_len(lane(self.all, col))
    }

    /// Column `col` can still take a disc: its top playable cell is empty.
    pub open spec fn col_open(self, col: u64) -> bool {
        self.all & ((0x20 as u64) << ((7 * col) as u64)) == 0
    }

    /// The position key: `all + owned`.  Per column this sum is a digit
    /// below 127 that encodes the run length and its composition, so the
    /// key is injective over well-formed positions (`lemma_key_injective`).
    pub open spec fn key_spec(self) -> u64 {
        (self.all + self.owned) as u64
    }

    pub fn new() -> (b: Board)
        ensures
            b == Board::empty(),
            b.wf(),
    {
        proof {
            lemma_empty_wf();
        }
        Board { moves: 0, owned: 0, all: 0 }
    }

    /// The starting position.
    pub open spec fn empty() -> Board {
        Board { moves: 0, owned: 0, all: 0 }
    }

    pub fn reset(&mut self)
        ensures
            *final(self) == Board::empty(),
            final(self).wf(),
    {
        proof {
            lemma_empty_wf();
        }
        self.moves = 0;
        self.owned = 0;
        self.all = 0;
    }

    pub fn key(&self) -> (k: u64)
        requires
            self.wf(),
        ensures
            k == self.key_spec(),
    {
        proof {
            lemma_board_value_bounds(self.all, self.owned);
        }
        self.all + self.owned
    }
}

/// Replaying a move string: each character must be a digit `1`..=`7`
/// naming a column (1-indexed) that is still open; the digits are applied
/// left to right from `b`.  `None` when a character is not such a digit or
/// names a full column.
pub open spec fn spec_replay(b: Board, s: Seq<char>) -> Option<Board>
    decreases s.len(),
{
    if s.len() == 0 {
        Some(b)
    } else {
        let d = s[0] as u32;
        if 49 <= d && d < 56 && b.col_open((d - 49) as u64) {
            spec_replay(b.spec_make((d - 49) as u64), s.drop_first())
        } else {
            None
        }
    }
}

impl Board {
    /// The position reached by replaying `moves` from the empty board.
    pub fn from(moves: &str) -> (b: Board)
        requires
            spec_replay(Board::empty(), moves@).is_some(),
        ensures
            Some(b) == spec_replay(Board::empty(), moves@),
            b.wf(),
    {
        let mut board = Board::new();
        let n = moves.unicode_len();
        assert(moves@.skip(0) =~= moves@);
        let mut i: usize = 0;
        while i < n
            invariant
                board.wf(),
                i <= n,
                n == moves@.len(),
                spec_replay(Board::empty(), moves@) == spec_replay(board, moves@.skip(i as int)),
                spec_replay(Board::empty(), moves@).is_some(),
            decreases n - i,
        {
            let c = moves.get_char(i);
            assert(moves@.skip(i as int)[0] == c);
            let d = c as u32;
            assert(49 <= d && d < 56 && board.col_open((d - 49) as u64));
            let col = (d - 49) as u8;
            board.make_move(col);
            assert(moves@.skip(i as int).drop_first() =~= moves@.skip(i + 1));
            i = i + 1;
        }
        assert(moves@.skip(i as int) =~= Seq::<char>::empty());
        board
    }
}

/// Score attached to a candidate move whose landing cell set is `moved`:
/// the negated count of winning cells the mover would then have.
pub open spec fn spec_score_move(b: Board, moved: u64) -> int {
    -(popcnt(spec_win_cells(b.owned | moved, b.all | moved)) as int)
}

/// The `i`-th column in the centre-first search order.
fn move_order(i: usize) -> (c: u8)
    requires
        i < 7,
    ensures
        c == spec_move_order(i as int),
        c < 7,
{
    match i {
        0 => 3,
        1 => 2,
        2 => 4,
        3 => 1,
        4 => 5,
        5 => 0,
        _ => 6,
    }
}

/// Number of set bits of `x`.
fn popcount(x: u64) -> (n: u8)
    ensures
        n == popcnt(x),
        n <= 64,
{
    let mut n: u8 = 0;
    let mut i: u64 = 0;
    while i < 64
        invariant
            i <= 64,
            n <= i,
            n == popcnt_upto(x, i as int),
        decreases 64 - i,
    {
        proof {
            assert((x >> i) & 1 <= 1) by (bit_vector);
        }
        n = n + (((x >> i) & 1) as u8);
        i = i + 1;
    }
    n
}

impl Board {
    /// Cells that would complete a line of four for `owned`, among the
    /// cells not yet in `all`, found in constant time by intersecting
    /// shifted copies of `owned` along the four line directions.
    fn get_winning_positions(owned: u64, all: u64) -> (w: u64)
        ensures
            w == spec_win_cells(owned, all),
    {
        let v = (owned << 1u64) & (owned << 2u64) & (owned << 3u64);
        let h0 = (owned << 7u64) & (owned << 14u64);
        let w1 = v | (h0 & (owned << 21u64)) | (h0 & (owned >> 7u64));
        let h1 = h0 >> 21u64;
        let w2 = w1 | (h1 & (owned << 7u64)) | (h1 & (owned >> 21u64));
        let l0 = (owned << 6u64) & (owned << 12u64);
        let w3 = w2 | (l0 & (owned << 18u64)) | (l0 & (owned >> 6u64));
        let l1 = l0 >> 18u64;
        let w4 = w3 | (l1 & (owned << 6u64)) | (l1 & (owned >> 18u64));
        let r0 = (owned << 8u64) & (owned << 16u64);
        let w5 = w4 | (r0 & (owned << 24u64)) | (r0 & (owned >> 8u64));
        let r1 = r0 >> 24u64;
        let w6 = w5 | (r1 & (owned << 8u64)) | (r1 & (owned >> 24u64));
        w6 & (BOARD_MASK ^ all)
    }

    fn win_positions(&self) -> (w: u64)
        ensures
            w == self.spec_win_positions(),
    {
        Self::get_winning_positions(self.owned, self.all)
    }

    fn opponent_win(&self) -> (w: u64)
        ensures
            w == self.spec_opponent_win(),
    {
        Self::get_winning_positions(self.owned ^ self.all, self.all)
    }

    fn possible(&self) -> (p: u64)
        requires
            self.wf(),
        ensures
            p == self.spec_possible(),
    {
        proof {
            lemma_board_value_bounds(self.all, self.owned);
        }
        (self.all + BOTTOM_ROW) & BOARD_MASK
    }

    fn safe(&self) -> (s: u64)
        requires
            self.wf(),
        ensures
            s == self.spec_safe_mask(),
    {
        let mut possible = self.possible();
        let opponent = self.opponent_win();
        let forced = possible & opponent;
        if forced != 0 {
            if forced & (forced - 1) != 0 {
                return 0;
            } else {
                possible = forced;
            }
        }
        possible & !(opponent >> 1u64)
    }

    fn score_move(&self, moved: u64) -> (s: i8)
        ensures
            s == spec_score_move(*self, moved),
    {
        -(popcount(Self::get_winning_positions(self.owned | moved, self.all | moved)) as i8)
    }

    pub fn will_win(&self, col: u8) -> (r: bool)
        requires
            self.wf(),
            col < 7,
        ensures
            r == self.spec_will_win(col as u64),
    {
        (self.win_positions() & self.possible() & ((0x3f as u64) << ((7 * col) as u64))) != 0
    }

    pub fn was_won(&self) -> (r: Option<i8>)
        ensures
            r == self.spec_was_won(),
    {
        let (white, black) = if self.moves % 2 == 0 {
            (self.owned, self.owned ^ self.all)
        } else {
            (self.owned ^ self.all, self.owned)
        };
        let l = white & (white >> 6u64);
        if l & (l >> 12u64) != 0 {
            return Some(WHITE);
        }
        let r = white & (white >> 8u64);
        if r & (r >> 16u64) != 0 {
            return Some(WHITE);
        }
        let h = white & (white >> 7u64);
        if h & (h >> 14u64) != 0 {
            return Some(WHITE);
        }
        let v = white & (white >> 1u64);
        if v & (v >> 2u64) != 0 {
            return Some(WHITE);
        }
        let l = black & (black >> 6u64);
        if l & (l >> 12u64) != 0 {
            return Some(BLACK);
        }
        let r = black & (black >> 8u64);
        if r & (r >> 16u64) != 0 {
            return Some(BLACK);
        }
        let h = black & (black >> 7u64);
        if h & (h >> 14u64) != 0 {
            return Some(BLACK);
        }
        let v = black & (black >> 1u64);
        if v & (v >> 2u64) != 0 {
            return Some(BLACK);
        }
        None
    }

    pub fn get(&self, row: u8, col: u8) -> (r: Option<i8>)
        requires
            row < 6,
            col < 7,
        ensures
            r == self.spec_cell(row as u64, col as u64),
    {
        let mask = 1u64 << ((col * 7 + row) as u64);
        let (white, black) = if self.moves % 2 == 0 {
            (self.owned, self.owned ^ self.all)
        } else {
            (self.owned ^ self.all, self.owned)
        };
        if white & mask == 0 && black & mask == 0 {
            None
        } else if white & mask != 0 {
            Some(WHITE)
        } else {
            Some(BLACK)
        }
    }

    /// The open columns, in the fixed centre-first order.
    pub fn valid_moves(&self) -> (v: Vec<u8>)
        requires
            self.wf(),
        ensures
            v@ == self.spec_valid_moves(),
            forall|k: int| 0 <= k < v@.len() ==> self.spec_valid_col(#[trigger] v@[k]),
    {
        let mut v: Vec<u8> = Vec::new();
        let mut i: usize = 0;
        while i < 7
            invariant
                i <= 7,
                v@ == self.valid_prefix(i as int),
            decreases 7 - i,
        {
            let c = move_order(i);
            if self.all & ((0x20 as u64) << ((7 * c) as u64)) == 0 {
                v.push(c);
            }
            assert(v@ =~= self.valid_prefix(i + 1));
            i = i + 1;
        }
        proof {
            lemma_prefix_members(*self, 7);
        }
        v
    }

    /// The safe moves, ordered by ascending winning-cell exposure
    /// (`spec_col_score`), so that the least-committal candidates are
    /// searched first.
    pub fn safe_moves(&self) -> (v: Vec<u8>)
        requires
            self.wf(),
        ensures
            v@.to_multiset() == self.spec_safe_moves().to_multiset(),
            v@.len() == self.spec_safe_moves().len(),
            forall|k: int| 0 <= k < v@.len() ==> self.spec_safe_col(#[trigger] v@[k]),
            forall|k: int, j: int|
                0 <= k < j < v@.len() ==> spec_precedes(*self, v@[k], v@[j]),
    {
        broadcast use vstd::seq_lib::group_to_multiset_ensures;

        let safe = self.safe();
        let mut rest: Vec<u8> = Vec::new();
        let mut i: usize = 0;
        while i < 7
            invariant
                i <= 7,
                self.wf(),
                safe == self.spec_safe_mask(),
                rest@ == self.safe_prefix(i as int),
                forall|a: int| 0 <= a < rest@.len() ==> spec_order_rank(#[trigger] rest@[a]) < i,
                forall|a: int, b: int|
                    0 <= a < b < rest@.len() ==> spec_order_rank(rest@[a]) < spec_order_rank(
                        rest@[b],
                    ),
            decreases 7 - i,
        {
            let c = move_order(i);
            proof {
                assert(spec_order_rank(spec_move_order(i as int)) == i as int);
            }
            if self.all & ((0x20 as u64) << ((7 * c) as u64)) == 0 && safe & ((0x3f as u64) << ((7
                * c) as u64)) != 0 {
                rest.push(c);
            }
            assert(rest@ =~= self.safe_prefix(i + 1));
            i = i + 1;
        }
        proof {
            lemma_prefix_members(*self, 7);
        }
        let ghost orig = rest@;
        let mut v: Vec<u8> = Vec::new();
        while rest.len() > 0
            invariant
                self.wf(),
                safe == self.spec_safe_mask(),
                v@.to_multiset().add(rest@.to_multiset()) == orig.to_multiset(),
                v@.len() + rest@.len() == orig.len(),
                forall|k: int| 0 <= k < v@.len() ==> self.spec_safe_col(#[trigger] v@[k]),
                forall|k: int| 0 <= k < rest@.len() ==> self.spec_safe_col(#[trigger] rest@[k]),
                forall|a: int, b: int|
                    0 <= a < b < rest@.len() ==> spec_order_rank(rest@[a]) < spec_order_rank(
                        rest@[b],
                    ),
                forall|k: int, j: int|
                    0 <= k < j < v@.len() ==> spec_precedes(*self, v@[k], v@[j]),
                forall|k: int, j: int|
                    0 <= k < v@.len() && 0 <= j < rest@.len() ==> spec_precedes(
                        *self,
                        #[trigger] v@[k],
                        #[trigger] rest@[j],
                    ),
            decreases rest@.len(),
        {
            let mut min_i: usize = 0;
            let mut best: i8 = self.score_move(safe & ((0x3f as u64) << ((7 * rest[0]) as u64)));
            let mut j: usize = 1;
            while j < rest.len()
                invariant
                    self.wf(),
                    safe == self.spec_safe_mask(),
                    rest@.len() > 0,
                    min_i < j <= rest@.len(),
                    forall|k: int| 0 <= k < rest@.len() ==> (#[trigger] rest@[k]) < 7,
                    best == self.spec_col_score(rest@[min_i as int]),
                    forall|k: int|
                        0 <= k < j ==> self.spec_col_score(rest@[min_i as int])
                            <= self.spec_col_score(#[trigger] rest@[k]),
                    forall|k: int|
                        0 <= k < min_i ==> self.spec_col_score(#[trigger] rest@[k])
                            > best,
                decreases rest@.len() - j,
            {
                let s = self.score_move(safe & ((0x3f as u64) << ((7 * rest[j]) as u64)));
                if s < best {
                    best = s;
                    min_i = j;
                }
                j = j + 1;
            }
            let ghost rest0 = rest@;
            let ghost v0 = v@;
            let c = rest.remove(min_i);
            v.push(c);
            proof {
                broadcast use vstd::multiset::group_multiset_axioms;

                rest0.to_multiset_ensures();
                v0.to_multiset_ensures();
                assert(rest0.contains(c));
                assert(rest0.to_multiset().count(c) > 0);
                assert(v@.to_multiset() =~= v0.to_multiset().insert(c));
                assert(rest@.to_multiset() =~= rest0.to_multiset().remove(c));
                assert(v@.to_multiset().add(rest@.to_multiset()) =~= orig.to_multiset());
                assert forall|jj: int| 0 <= jj < rest@.len() implies self.spec_safe_col(
                    #[trigger] rest@[jj],
                ) && spec_precedes(*self, c, rest@[jj]) by {
                    if jj < min_i {
                        assert(rest@[jj] == rest0[jj]);
                        assert(self.spec_col_score(rest0[jj]) > self.spec_col_score(c));
                    } else {
                        assert(rest@[jj] == rest0[jj + 1]);
                        assert(spec_order_rank(rest0[min_i as int]) < spec_order_rank(
                            rest0[jj + 1],
                        ));
                    }
                }
                assert forall|a: int, b: int| 0 <= a < b < rest@.len() implies spec_order_rank(
                    rest@[a],
                ) < spec_order_rank(rest@[b]) by {
                    let a0: int = if a < min_i {
                        a
                    } else {
                        a + 1
                    };
                    let b0: int = if b < min_i {
                        b
                    } else {
                        b + 1
                    };
                    assert(rest@[a] == rest0[a0] && rest@[b] == rest0[b0]);
                }
            }
        }
        proof {
            assert(rest@.to_multiset() =~= vstd::multiset::Multiset::empty());
            assert(v@.to_multiset() =~= orig.to_multiset());
        }
        v
    }

    /// The position after the side to move drops a disc in column `col`:
    /// ownership flips to the other side, and the lowest empty cell of the
    /// column fills via the carry identity `all | (all + bottom_bit)`.
    pub open spec fn spec_make(self, col: u64) -> Board {
        Board {
            moves: (self.moves + 1) as i8,
            owned: self.owned ^ self.all,
            all: self.all | ((self.all + (1u64 << ((7 * col) as u64))) as u64),
        }
    }

    /// The exact inverse of `spec_make` on column `col`: the top disc of the
    /// column is cleared and ownership flips back.
    pub open spec fn spec_undo(self, col: u64) -> Board {
        let cleared = self.all ^ ((((self.all & ((0x3f as u64) << ((7 * col) as u64))) + (1u64 << ((
        7 * col) as u64))) as u64) >> 1);
        Board { moves: (self.moves - 1) as i8, owned: self.owned ^ cleared, all: cleared }
    }

    /// A move in column `col` can be taken back: the column is not empty and
    /// its top disc does not belong to the side to move (which is the state
    /// right after that side's opponent dropped it there).
    pub open spec fn undoable(self, col: u64) -> bool {
        &&& lane(self.all, col) != 0
        &&& lane(self.owned, col) & (((lane(self.all, col) + 1) / 2) as u64) == 0
    }

    pub fn make_move(&mut self, col: u8)
        requires
            old(self).wf(),
            col < 7,
            old(self).col_open(col as u64),
        ensures
            *final(self) == old(self).spec_make(col as u64),
            final(self).wf(),
            final(self).moves == old(self).moves + 1,
            final(self).height(col as u64) == old(self).height(col as u64) + 1,
            forall|c: u64| c < 7 && c != col ==> final(self).height(c) == old(self).height(c),
            final(self).undoable(col as u64),
    {
        proof {
            lemma_board_value_bounds(self.all, self.owned);
            lemma_make_bits(self.all, self.owned, col as u64);
            lemma_sum_heights_bounds(self.all, 7);
            lemma_make_heights(*self, col as u64);
        }
        let bot: u64 = 1u64 << ((7 * col) as u64);
        self.owned = self.owned ^ self.all;
        self.all = self.all | (self.all + bot);
        self.moves = self.moves + 1;
    }

    pub fn undo_move(&mut self, col: u8)
        requires
            old(self).wf(),
            col < 7,
            old(self).undoable(col as u64),
        ensures
            *final(self) == old(self).spec_undo(col as u64),
            final(self).wf(),
            final(self).moves == old(self).moves - 1,
            final(self).height(col as u64) == old(self).height(col as u64) - 1,
            forall|c: u64| c < 7 && c != col ==> final(self).height(c) == old(self).height(c),
            final(self).col_open(col as u64),
    {
        proof {
            lemma_board_value_bounds(self.all, self.owned);
            lemma_undo_bits(self.all, self.owned, col as u64);
            lemma_sum_heights_bounds(self.all, 7);
            lemma_undo_heights(*self, col as u64);
        }
        self.moves = self.moves - 1;
        let bot: u64 = 1u64 << ((7 * col) as u64);
        let mask: u64 = (0x3f as u64) << ((7 * col) as u64);
        self.all = self.all ^ (((self.all & mask) + bot) >> 1u64);
        self.owned = self.owned ^ self.all;
    }
}

/// `x` and `y` have the same bits in every one of the seven lanes other
/// than `col`.
pub open spec fn lanes_agree_except(x: u64, y: u64, col: u64) -> bool {
    &&& (col != 0 ==> lane(y, 0) == lane(x, 0))
    &&& (col != 1 ==> lane(y, 1) == lane(x, 1))
    &&& (col != 2 ==> lane(y, 2) == lane(x, 2))
    &&& (col != 3 ==> lane(y, 3) == lane(x, 3))
    &&& (col != 4 ==> lane(y, 4) == lane(x, 4))
    &&& (col != 5 ==> lane(y, 5) == lane(x, 5))
    &&& (col != 6 ==> lane(y, 6) == lane(x, 6))
}

/// `lanes_agree_except` really says that every lane below 7 other than
/// `col` is unchanged.
proof fn lemma_lanes_agree(x: u64, y: u64, col: u64)
    requires
        lanes_agree_except(x, y, col),
    ensures
        forall|c: u64| c < 7 && c != col ==> #[trigger] lane(y, c) == lane(x, c),
{
    assert forall|c: u64| c < 7 && c != col implies #[trigger] lane(y, c) == lane(x, c) by {
        assert(c == 0 || c == 1 || c == 2 || c == 3 || c == 4 || c == 5 || c == 6);
    }
}

/// Dropping a disc touches only column `col`: that lane gains its next
/// bottom-up bit (`l` becomes `2*l + 1`), every other lane is unchanged, no
/// bit leaves the board mask, the new mover's discs stay inside the occupied
/// cells, and the disc just placed does not belong to the new mover.
proof fn lemma_make_bits(all: u64, owned: u64, col: u64)
    by (bit_vector)
    requires
        col < 7,
        all & BOARD_MASK == all,
        owned & all == owned,
        is_run(lane(all, col)),
        all & ((0x20 as u64) << ((7 * col) as u64)) == 0,
    ensures
        all + (1u64 << ((7 * col) as u64)) < 0x2_0000_0000_0000,
        ({
            let na = all | ((all + (1u64 << ((7 * col) as u64))) as u64);
            &&& na & BOARD_MASK == na
            &&& lane(na, col) == 2 * lane(all, col) + 1
            &&& lanes_agree_except(all, na, col)
            &&& (owned ^ all) & na == (owned ^ all)
            &&& lane(na, col) != 0
            &&& lane(owned ^ all, col) & (((lane(na, col) + 1) / 2) as u64) == 0
        }),
{
}

/// Clearing the top disc of column `col` touches only that lane (`l`
/// becomes `l / 2`), stays inside the board mask, and leaves the restored
/// mover's discs inside the occupied cells.
proof fn lemma_undo_bits(all: u64, owned: u64, col: u64)
    by (bit_vector)
    requires
        col < 7,
        all & BOARD_MASK == all,
        owned & all == owned,
        is_run(lane(all, col)),
        lane(all, col) != 0,
        lane(owned, col) & (((lane(all, col) + 1) / 2) as u64) == 0,
    ensures
        (all & ((0x3f as u64) << ((7 * col) as u64))) + (1u64 << ((7 * col) as u64))
            < 0x2_0000_0000_0000,
        ({
            let na = all ^ ((((all & ((0x3f as u64) << ((7 * col) as u64))) + (1u64 << ((7
                * col) as u64))) as u64) >> 1);
            &&& na & BOARD_MASK == na
            &&& lane(na, col) == lane(all, col) / 2
            &&& lanes_agree_except(all, na, col)
            &&& (owned ^ na) & na == (owned ^ na)
            &&& na & ((0x20 as u64) << ((7 * col) as u64)) == 0
        }),
{
}

/// A run stays a run when a disc is added below the guard bit or when its
/// top disc is removed, and its length changes by exactly one.
proof fn lemma_run_step(l: u64)
    requires
        is_run(l),
    ensures
        l < 0x20 ==> is_run((2 * l + 1) as u64) && run_len((2 * l + 1) as u64) == run_len(l) + 1,
        l != 0 ==> is_run(l / 2) && run_len(l / 2) == run_len(l) - 1,
{
    lemma_run_len_values();
}

/// Total height over the first `n` columns is between 0 and `6 * n`.
proof fn lemma_sum_heights_bounds(x: u64, n: int)
    requires
        forall|c: u64| c < 7 ==> is_run(#[trigger] lane(x, c)),
        0 <= n <= 7,
    ensures
        0 <= sum_heights(x, n) <= 6 * n,
    decreases n,
{
    lemma_run_len_values();
    if n > 0 {
        lemma_sum_heights_bounds(x, n - 1);
        let l = lane(x, (n - 1) as u64);
        assert(is_run(l));
        assert(l == 0 || l == 1 || l == 3 || l == 7 || l == 15 || l == 31 || l == 63);
        assert(run_len(l) <= 6);
    }
}

/// If two words agree on every lane below 7 except `col`, where the run is
/// one disc taller in `y`, their total heights differ by exactly one.
proof fn lemma_sum_heights_update(x: u64, y: u64, col: u64, n: int)
    requires
        col < 7,
        forall|c: u64| c < 7 && c != col ==> #[trigger] lane(y, c) == lane(x, c),
        run_len(lane(y, col)) == run_len(lane(x, col)) + 1,
        n <= 7,
    ensures
        sum_heights(y, n) == sum_heights(x, n) + if col < n {
            1int
        } else {
            0int
        },
    decreases n,
{
    if n > 0 {
        lemma_sum_heights_update(x, y, col, n - 1);
    }
}

proof fn lemma_make_heights(b: Board, col: u64)
    requires
        b.wf(),
        col < 7,
        b.col_open(col),
    ensures
        b.spec_make(col).wf(),
        b.spec_make(col).moves == b.moves + 1,
        b.spec_make(col).height(col) == b.height(col) + 1,
        forall|c: u64| c < 7 && c != col ==> #[trigger] b.spec_make(col).height(c) == b.height(c),
        b.spec_make(col).undoable(col),
{
    lemma_board_value_bounds(b.all, b.owned);
    lemma_make_bits(b.all, b.owned, col);
    lemma_open_lane(b.all, col);
    lemma_run_step(lane(b.all, col));
    let nb = b.spec_make(col);
    lemma_lanes_agree(b.all, nb.all, col);
    assert forall|c: u64| c < 7 implies is_run(#[trigger] lane(nb.all, c)) by {
        if c != col {
            assert(lane(nb.all, c) == lane(b.all, c));
        }
    }
    lemma_sum_heights_bounds(b.all, 7);
    lemma_sum_heights_update(b.all, nb.all, col, 7);
}

proof fn lemma_undo_heights(b: Board, col: u64)
    requires
        b.wf(),
        col < 7,
        b.undoable(col),
    ensures
        b.spec_undo(col).wf(),
        b.spec_undo(col).moves == b.moves - 1,
        b.spec_undo(col).height(col) == b.height(col) - 1,
        forall|c: u64| c < 7 && c != col ==> #[trigger] b.spec_undo(col).height(c) == b.height(c),
        b.spec_undo(col).col_open(col),
    {
    lemma_board_value_bounds(b.all, b.owned);
    lemma_undo_bits(b.all, b.owned, col);
    lemma_run_step(lane(b.all, col));
    let nb = b.spec_undo(col);
    lemma_lanes_agree(b.all, nb.all, col);
    assert forall|c: u64| c < 7 implies is_run(#[trigger] lane(nb.all, c)) by {
        if c != col {
            assert(lane(nb.all, c) == lane(b.all, c));
        }
    }
    lemma_sum_heights_bounds(b.all, 7);
    lemma_sum_heights_update(nb.all, b.all, col, 7);
}

/// An open column has fewer than six discs; a full one has exactly six.
proof fn lemma_open_lane(all: u64, col: u64)
    requires
        col < 7,
        is_run(lane(all, col)),
    ensures
        (all & ((0x20 as u64) << ((7 * col) as u64)) == 0) <==> lane(all, col) < 0x20,
        (all & ((0x20 as u64) << ((7 * col) as u64)) == 0) <==> run_len(lane(all, col)) < 6,
{
    lemma_run_len_values();
    assert((all & ((0x20 as u64) << ((7 * col) as u64)) == 0) <==> ((all >> ((7
        * col) as u64)) & 0x7f) & 0x20 == 0) by (bit_vector)
        requires
            col < 7,
    ;
    assert(lane(all, col) & 0x20 == 0 <==> lane(all, col) < 0x20) by (bit_vector)
        requires
            is_run(lane(all, col)),
    ;
}

/// Swapping which side is labelled as "to move" turns a position into the
/// one with the same discs owned by the other side (`owned` becomes
/// `all ^ owned`).  On the empty board the swap is the identity: both
/// labelings denote the very same value, so every deterministic scoring
/// function — the search included — gives the empty board the same score
/// under either labeling.
pub proof fn lemma_empty_board_swap()
    ensures
        ({
            let e = Board::empty();
            let swapped = Board { moves: e.moves, owned: e.all ^ e.owned, all: e.all };
            swapped == e
        }),
{
    assert(0u64 ^ 0u64 == 0) by (bit_vector);
}

/// A well-formed position has between 0 and 42 discs.
pub proof fn lemma_moves_in_range(b: Board)
    requires
        b.wf(),
    ensures
        0 <= b.moves <= 42,
{
    lemma_sum_heights_bounds(b.all, 7);
}

/// Dropping a disc and taking it back restores the position exactly: the
/// occupied cells, the mover-relative ownership and the ply counter all
/// return to their prior values.
pub proof fn lemma_make_undo_round_trip(b: Board, col: u64)
    requires
        b.wf(),
        col < 7,
        b.col_open(col),
    ensures
        b.spec_make(col).spec_undo(col) == b,
{
    lemma_board_value_bounds(b.all, b.owned);
    lemma_make_bits(b.all, b.owned, col);
    lemma_make_heights(b, col);
    lemma_round_trip_bits(b.all, b.owned, col);
    lemma_sum_heights_bounds(b.all, 7);
    let rb = b.spec_make(col).spec_undo(col);
    assert(rb.moves == b.moves);
    assert(rb == b);
}

/// The drop identity and the clear identity compose to the identity on both
/// bit-sets.
proof fn lemma_round_trip_bits(all: u64, owned: u64, col: u64)
    by (bit_vector)
    requires
        col < 7,
        all & BOARD_MASK == all,
        owned & all == owned,
        is_run(lane(all, col)),
        all & ((0x20 as u64) << ((7 * col) as u64)) == 0,
    ensures
        ({
            let na = all | ((all + (1u64 << ((7 * col) as u64))) as u64);
            let ra = na ^ ((((na & ((0x3f as u64) << ((7 * col) as u64))) + (1u64 << ((7
                * col) as u64))) as u64) >> 1);
            ra == all && ((owned ^ all) ^ ra) == owned
        }),
{
}

/// Every column that `valid_prefix` or `safe_prefix` lists satisfies the
/// corresponding column predicate.
proof fn lemma_prefix_members(b: Board, n: int)
    requires
        0 <= n <= 7,
    ensures
        forall|k: int|
            0 <= k < b.valid_prefix(n).len() ==> b.spec_valid_col(#[trigger] b.valid_prefix(n)[k]),
        forall|k: int|
            0 <= k < b.safe_prefix(n).len() ==> b.spec_safe_col(#[trigger] b.safe_prefix(n)[k]),
    decreases n,
{
    if n > 0 {
        lemma_prefix_members(b, n - 1);
        assert forall|k: int|
            0 <= k < b.valid_prefix(n).len() implies b.spec_valid_col(
            #[trigger] b.valid_prefix(n)[k],
        ) by {
            if k < b.valid_prefix(n - 1).len() {
                assert(b.valid_prefix(n)[k] == b.valid_prefix(n - 1)[k]);
            } else {
                assert(b.valid_prefix(n)[k] == spec_move_order(n - 1));
            }
        }
        assert forall|k: int|
            0 <= k < b.safe_prefix(n).len() implies b.spec_safe_col(
            #[trigger] b.safe_prefix(n)[k],
        ) by {
            if k < b.safe_prefix(n - 1).len() {
                assert(b.safe_prefix(n)[k] == b.safe_prefix(n - 1)[k]);
            } else {
                assert(b.safe_prefix(n)[k] == spec_move_order(n - 1));
            }
        }
    }
}

/// A column is listed by `valid_prefix` exactly when the move order places
/// it among the first `n` entries and it is open; likewise for
/// `safe_prefix` and safety.
proof fn lemma_prefix_contains(b: Board, c: u8, n: int)
    requires
        0 <= n <= 7,
    ensures
        b.valid_prefix(n).contains(c) <==> (b.spec_valid_col(c) && exists|i: int|
            0 <= i < n && spec_move_order(i) == c),
        b.safe_prefix(n).contains(c) <==> (b.spec_safe_col(c) && exists|i: int|
            0 <= i < n && spec_move_order(i) == c),
    decreases n,
{
    if n > 0 {
        lemma_prefix_contains(b, c, n - 1);
        if b.valid_prefix(n).contains(c) {
            let k = choose|k: int| 0 <= k < b.valid_prefix(n).len() && #[trigger] b.valid_prefix(n)[k] == c;
            if k < b.valid_prefix(n - 1).len() {
                assert(b.valid_prefix(n - 1).contains(c));
            } else {
                assert(c == spec_move_order(n - 1) && b.spec_valid_col(c));
            }
        }
        if b.spec_valid_col(c) && exists|i: int| 0 <= i < n && spec_move_order(i) == c {
            let i = choose|i: int| 0 <= i < n && spec_move_order(i) == c;
            if i < n - 1 {
                assert(b.valid_prefix(n - 1).contains(c));
                let k = choose|k: int|
                    0 <= k < b.valid_prefix(n - 1).len() && #[trigger] b.valid_prefix(n - 1)[k]
                        == c;
                assert(b.valid_prefix(n)[k] == c);
            } else {
                assert(b.valid_prefix(n)[b.valid_prefix(n).len() - 1] == c);
            }
        }
        if b.safe_prefix(n).contains(c) {
            let k = choose|k: int| 0 <= k < b.safe_prefix(n).len() && #[trigger] b.safe_prefix(n)[k] == c;
            if k < b.safe_prefix(n - 1).len() {
                assert(b.safe_prefix(n - 1).contains(c));
            } else {
                assert(c == spec_move_order(n - 1) && b.spec_safe_col(c));
            }
        }
        if b.spec_safe_col(c) && exists|i: int| 0 <= i < n && spec_move_order(i) == c {
            let i = choose|i: int| 0 <= i < n && spec_move_order(i) == c;
            if i < n - 1 {
                assert(b.safe_prefix(n - 1).contains(c));
                let k = choose|k: int|
                    0 <= k < b.safe_prefix(n - 1).len() && #[trigger] b.safe_prefix(n - 1)[k]
                        == c;
                assert(b.safe_prefix(n)[k] == c);
            } else {
                assert(b.safe_prefix(n)[b.safe_prefix(n).len() - 1] == c);
            }
        }
    }
}

/// Every column index below 7 occurs in the centre-first move order.
proof fn lemma_move_order_covers(c: u8)
    requires
        c < 7,
    ensures
        exists|i: int| 0 <= i < 7 && spec_move_order(i) == c,
{
    if c == 3 {
        assert(spec_move_order(0) == c);
    } else if c == 2 {
        assert(spec_move_order(1) == c);
    } else if c == 4 {
        assert(spec_move_order(2) == c);
    } else if c == 1 {
        assert(spec_move_order(3) == c);
    } else if c == 5 {
        assert(spec_move_order(4) == c);
    } else if c == 0 {
        assert(spec_move_order(5) == c);
    } else {
        assert(spec_move_order(6) == c);
    }
}

/// `valid_moves` lists exactly the open columns.
pub proof fn lemma_valid_moves_contains(b: Board, c: u8)
    ensures
        b.spec_valid_moves().contains(c) <==> b.spec_valid_col(c),
{
    lemma_prefix_contains(b, c, 7);
    if b.spec_valid_col(c) {
        lemma_move_order_covers(c);
    }
}

/// `safe_moves` lists exactly the safe columns.
pub proof fn lemma_safe_moves_contains(b: Board, c: u8)
    ensures
        b.spec_safe_moves().contains(c) <==> b.spec_safe_col(c),
{
    lemma_prefix_contains(b, c, 7);
    if b.spec_safe_col(c) {
        lemma_move_order_covers(c);
    }
}

/// Every safe move is a valid move: `safe_moves` only ever filters and
/// reorders the open columns that `valid_moves` lists.
pub proof fn lemma_safe_moves_subset_valid(b: Board)
    ensures
        forall|c: u8|
            #[trigger] b.spec_safe_moves().contains(c) ==> b.spec_valid_moves().contains(c),
{
    assert forall|c: u8| #[trigger] b.spec_safe_moves().contains(c) implies b.spec_valid_moves(
    ).contains(c) by {
        lemma_safe_moves_contains(b, c);
        lemma_valid_moves_contains(b, c);
    }
}

/// Every column that `safe_moves` lists is a safe column, and there are
/// at most seven of them.
pub proof fn lemma_safe_moves_members(b: Board)
    ensures
        forall|k: int|
            0 <= k < b.spec_safe_moves().len() ==> b.spec_safe_col(
                #[trigger] b.spec_safe_moves()[k],
            ),
        b.spec_safe_moves().len() <= 7,
{
    lemma_prefix_members(b, 7);
    lemma_prefix_len(b, 7);
}

/// A move-order prefix lists at most one column per entry.
proof fn lemma_prefix_len(b: Board, n: int)
    requires
        0 <= n,
    ensures
        b.valid_prefix(n).len() <= n,
        b.safe_prefix(n).len() <= n,
    decreases n,
{
    if n > 0 {
        lemma_prefix_len(b, n - 1);
    }
}

/// Dropping into an open column preserves well-formedness and advances
/// the ply counter by one.
pub proof fn lemma_spec_make_wf(b: Board, col: u64)
    requires
        b.wf(),
        col < 7,
        b.col_open(col),
    ensures
        b.spec_make(col).wf(),
        b.spec_make(col).moves == b.moves + 1,
{
    lemma_make_heights(b, col);
}

/// A column filled to six discs is no longer listed by `valid_moves`.
pub proof fn lemma_full_column_excluded(b: Board, c: u8)
    requires
        b.wf(),
        c < 7,
        b.height(c as u64) == 6,
    ensures
        !b.spec_valid_moves().contains(c),
{
    lemma_valid_moves_contains(b, c);
    lemma_open_lane(b.all, c as u64);
}

/// With two distinct bits set, clearing the lowest set bit leaves a
/// nonzero word.
proof fn lemma_two_bits_survive_clear(x: u64, i: u64, j: u64)
    by (bit_vector)
    requires
        i != j,
        (x >> i) & 1 == 1,
        (x >> j) & 1 == 1,
    ensures
        x & ((x - 1) as u64) != 0,
{
}

/// No column's cells intersect the zero mask.
proof fn lemma_zero_mask_misses_columns(c: u64)
    by (bit_vector)
    ensures
        0u64 & ((0x3f as u64) << ((7 * c) as u64)) == 0,
{
}

/// With no safe column at all, the safe-move list is empty.
proof fn lemma_safe_prefix_empty(b: Board, n: int)
    requires
        forall|c: u8| !b.spec_safe_col(c),
        0 <= n,
    ensures
        b.safe_prefix(n) =~= Seq::<u8>::empty(),
    decreases n,
{
    if n > 0 {
        lemma_safe_prefix_empty(b, n - 1);
    }
}

/// Forced-loss detection: when the opponent has two distinct winning
/// cells that are both immediately droppable (bits `i` and `j` of the
/// playable opponent-threat set), no move is safe and `safe_moves` comes
/// back empty — the side to move cannot block both.
pub proof fn lemma_double_threat_leaves_no_safe_move(b: Board, i: u64, j: u64)
    requires
        b.wf(),
        i != j,
        ((b.spec_possible() & b.spec_opponent_win()) >> i) & 1 == 1,
        ((b.spec_possible() & b.spec_opponent_win()) >> j) & 1 == 1,
    ensures
        b.spec_safe_mask() == 0,
        b.spec_safe_moves() =~= Seq::<u8>::empty(),
{
    let forced = b.spec_possible() & b.spec_opponent_win();
    lemma_two_bits_survive_clear(forced, i, j);
    assert(forced != 0) by (bit_vector)
        requires
            (forced >> i) & 1 == 1,
    ;
    assert forall|c: u8| !b.spec_safe_col(c) by {
        lemma_zero_mask_misses_columns(c as u64);
    }
    lemma_safe_prefix_empty(b, 7);
}

/// A single bit survives no clear of its lowest set bit, and it meets
/// only its own column's mask.
proof fn lemma_single_bit_column(i: u64, cc: u64, q: u64)
    by (bit_vector)
    requires
        i < 49,
        cc < 7,
        (((1u64 << i) & !(q >> 1)) & ((0x3f as u64) << ((7 * cc) as u64))) != 0,
    ensures
        cc == i / 7,
{
}

/// Threat blocking: when the opponent's only immediately droppable
/// winning cell is bit `i` (cell `i % 7` of column `i / 7`), every safe
/// move is in that cell's column — the side to move can do nothing but
/// block there.
pub proof fn lemma_single_threat_forces_column(b: Board, i: u64)
    requires
        b.wf(),
        i < 49,
        b.spec_possible() & b.spec_opponent_win() == (1u64 << i),
    ensures
        forall|c: u8| #[trigger] b.spec_safe_col(c) ==> c as u64 == i / 7,
{
    let forced = b.spec_possible() & b.spec_opponent_win();
    assert(forced != 0 && forced & ((forced - 1) as u64) == 0) by (bit_vector)
        requires
            forced == (1u64 << i) && i < 49,
    ;
    assert forall|c: u8| #[trigger] b.spec_safe_col(c) implies c as u64 == i / 7 by {
        lemma_single_bit_column(i, c as u64, b.spec_opponent_win());
    }
}

/// Adding two words whose lanes each sum below 128 produces no carry
/// between lanes: each lane of the key is the sum of the two lanes.  Also
/// exports the per-lane shape facts of a well-formed pair.
proof fn lemma_key_digits(all: u64, owned: u64)
    by (bit_vector)
    requires
        all & BOARD_MASK == all,
        owned & all == owned,
    ensures
        all + owned < 0x2_0000_0000_0000,
        lane((all + owned) as u64, 0) == lane(all, 0) + lane(owned, 0),
        lane((all + owned) as u64, 1) == lane(all, 1) + lane(owned, 1),
        lane((all + owned) as u64, 2) == lane(all, 2) + lane(owned, 2),
        lane((all + owned) as u64, 3) == lane(all, 3) + lane(owned, 3),
        lane((all + owned) as u64, 4) == lane(all, 4) + lane(owned, 4),
        lane((all + owned) as u64, 5) == lane(all, 5) + lane(owned, 5),
        lane((all + owned) as u64, 6) == lane(all, 6) + lane(owned, 6),
        lane(owned, 0) & lane(all, 0) == lane(owned, 0),
        lane(owned, 1) & lane(all, 1) == lane(owned, 1),
        lane(owned, 2) & lane(all, 2) == lane(owned, 2),
        lane(owned, 3) & lane(all, 3) == lane(owned, 3),
        lane(owned, 4) & lane(all, 4) == lane(owned, 4),
        lane(owned, 5) & lane(all, 5) == lane(owned, 5),
        lane(owned, 6) & lane(all, 6) == lane(owned, 6),
{
}

/// Within one column the key digit determines the column: a run plus a
/// subset of it can be formed in only one way.
proof fn lemma_lane_decode(la1: u64, lo1: u64, la2: u64, lo2: u64)
    by (bit_vector)
    requires
        is_run(la1),
        is_run(la2),
        lo1 & la1 == lo1,
        lo2 & la2 == lo2,
        la1 + lo1 == la2 + lo2,
    ensures
        la1 == la2,
        lo1 == lo2,
{
}

/// Two words inside the board mask that agree on all seven lanes are equal.
proof fn lemma_lane_ext(x: u64, y: u64)
    by (bit_vector)
    requires
        x & BOARD_MASK == x,
        y & BOARD_MASK == y,
        lane(x, 0) == lane(y, 0),
        lane(x, 1) == lane(y, 1),
        lane(x, 2) == lane(y, 2),
        lane(x, 3) == lane(y, 3),
        lane(x, 4) == lane(y, 4),
        lane(x, 5) == lane(y, 5),
        lane(x, 6) == lane(y, 6),
    ensures
        x == y,
{
}

/// The position key is injective over well-formed positions: two positions
/// with the same key have the same occupied cells, the same mover-relative
/// ownership and the same ply count.  Per column the key carries the digit
/// `all + owned`, a base-128 digit that no two distinct (run, subset) pairs
/// share; the digits cannot interact because no column's digit overflows
/// its 7-bit lane.
pub proof fn lemma_key_injective(a: Board, b: Board)
    requires
        a.wf(),
        b.wf(),
        a.key_spec() == b.key_spec(),
    ensures
        a == b,
{
    lemma_key_digits(a.all, a.owned);
    lemma_key_digits(b.all, b.owned);
    let ka = (a.all + a.owned) as u64;
    let kb = (b.all + b.owned) as u64;
    assert(ka == kb);
    assert forall|c: u64| c < 7 implies #[trigger] lane(a.all, c) == lane(b.all, c) && lane(
        a.owned,
        c,
    ) == lane(b.owned, c) by {
        assert(c == 0 || c == 1 || c == 2 || c == 3 || c == 4 || c == 5 || c == 6);
        lemma_lane_decode(lane(a.all, c), lane(a.owned, c), lane(b.all, c), lane(b.owned, c));
    }
    lemma_lane_ext(a.all, b.all);
    let aa = a.all;
    let ao = a.owned;
    let ba = b.all;
    let bo = b.owned;
    assert(ao & BOARD_MASK == ao && bo & BOARD_MASK == bo) by (bit_vector)
        requires
            aa & BOARD_MASK == aa,
            ao & aa == ao,
            ba & BOARD_MASK == ba,
            bo & ba == bo,
    ;
    lemma_lane_ext(a.owned, b.owned);
    assert(a.moves == b.moves);
}

/// The cells that would complete a line of four for the discs in `owned`,
/// among the cells not yet in `all`.  Lines run in the four board
/// directions, which in lane encoding are distances 1 (vertical),
/// 7 (horizontal), 6 and 8 (the two diagonals); a cell completes a line
/// when three already-owned cells sit at the right distances around it,
/// which the shifted-copy intersections below enumerate.
pub open spec fn spec_win_cells(owned: u64, all: u64) -> u64 {
    let v = (owned << 1) & (owned << 2) & (owned << 3);
    let h0 = (owned << 7) & (owned << 14);
    let w1 = v | (h0 & (owned << 21)) | (h0 & (owned >> 7));
    let h1 = h0 >> 21;
    let w2 = w1 | (h1 & (owned << 7)) | (h1 & (owned >> 21));
    let l0 = (owned << 6) & (owned << 12);
    let w3 = w2 | (l0 & (owned << 18)) | (l0 & (owned >> 6));
    let l1 = l0 >> 18;
    let w4 = w3 | (l1 & (owned << 6)) | (l1 & (owned >> 18));
    let r0 = (owned << 8) & (owned << 16);
    let w5 = w4 | (r0 & (owned << 24)) | (r0 & (owned >> 8));
    let r1 = r0 >> 24;
    let w6 = w5 | (r1 & (owned << 8)) | (r1 & (owned >> 24));
    w6 & (BOARD_MASK ^ all)
}

/// `x` holds a completed line of four somewhere on the board.
pub open spec fn spec_has_line(x: u64) -> bool {
    let l = x & (x >> 6);
    let r = x & (x >> 8);
    let h = x & (x >> 7);
    let v = x & (x >> 1);
    (l & (l >> 12)) != 0 || (r & (r >> 16)) != 0 || (h & (h >> 14)) != 0 || (v & (v >> 2)) != 0
}

/// Number of set bits among the `n` lowest bits of `x`.
pub open spec fn popcnt_upto(x: u64, n: int) -> nat
    decreases n,
{
    if n <= 0 {
        0
    } else {
        (popcnt_upto(x, n - 1) + if (x >> ((n - 1) as u64)) & 1 == 1 {
            1nat
        } else {
            0nat
        }) as nat
    }
}

/// Number of set bits of `x`.
pub open spec fn popcnt(x: u64) -> nat {
    popcnt_upto(x, 64)
}

/// The position of column `c` in the centre-first move order: the
/// inverse of `spec_move_order` on the seven columns.
pub open spec fn spec_order_rank(c: u8) -> int {
    if c == 3 {
        0
    } else if c == 2 {
        1
    } else if c == 4 {
        2
    } else if c == 1 {
        3
    } else if c == 5 {
        4
    } else if c == 0 {
        5
    } else {
        6
    }
}

/// Strict search precedence among candidate columns: a lower heuristic
/// score is searched first, and the centre-first order breaks ties.  On
/// distinct columns exactly one direction holds, so a sequence sorted by
/// it is unique.
pub open spec fn spec_precedes(b: Board, c1: u8, c2: u8) -> bool {
    b.spec_col_score(c1) < b.spec_col_score(c2) || (b.spec_col_score(c1) == b.spec_col_score(c2)
        && spec_order_rank(c1) < spec_order_rank(c2))
}

/// The seven columns in the fixed centre-first search order.
pub open spec fn spec_move_order(i: int) -> u8 {
    if i == 0 {
        3
    } else if i == 1 {
        2
    } else if i == 2 {
        4
    } else if i == 3 {
        1
    } else if i == 4 {
        5
    } else if i == 5 {
        0
    } else {
        6
    }
}

impl Board {
    /// Discs of the first player (even plies move first).
    pub open spec fn spec_white(self) -> u64 {
        if self.moves % 2 == 0 {
            self.owned
        } else {
            self.owned ^ self.all
        }
    }

    /// Discs of the second player.
    pub open spec fn spec_black(self) -> u64 {
        if self.moves % 2 == 0 {
            self.owned ^ self.all
        } else {
            self.owned
        }
    }

    /// The cells a disc could drop into right now: one above each column's
    /// run (the bottom cell of an empty column), within the playable cells.
    pub open spec fn spec_possible(self) -> u64 {
        ((self.all + BOTTOM_ROW) as u64) & BOARD_MASK
    }

    /// Empty cells that would complete a line of four for the side to move.
    pub open spec fn spec_win_positions(self) -> u64 {
        spec_win_cells(self.owned, self.all)
    }

    /// Empty cells that would complete a line of four for the opponent.
    pub open spec fn spec_opponent_win(self) -> u64 {
        spec_win_cells(self.owned ^ self.all, self.all)
    }

    /// The landing cells of the safe moves.  If the opponent has more than
    /// one immediately droppable winning cell the position is lost and no
    /// move is safe; with exactly one, only blocking it remains; otherwise a
    /// move is unsafe when it lands directly beneath an opponent winning
    /// cell and would open it up.
    pub open spec fn spec_safe_mask(self) -> u64 {
        let possible = self.spec_possible();
        let opponent = self.spec_opponent_win();
        let forced = possible & opponent;
        if forced != 0 {
            if forced & ((forced - 1) as u64) != 0 {
                0
            } else {
                forced & !(opponent >> 1)
            }
        } else {
            possible & !(opponent >> 1)
        }
    }

    /// Dropping in `col` immediately completes a line of four for the side
    /// to move.
    pub open spec fn spec_will_win(self, col: u64) -> bool {
        self.spec_win_positions() & self.spec_possible() & ((0x3f as u64) << ((7 * col) as u64))
            != 0
    }

    /// The finished-game test: the first player's discs hold a line, the
    /// second player's do, or neither.
    pub open spec fn spec_was_won(self) -> Option<i8> {
        if spec_has_line(self.spec_white()) {
            Some(WHITE)
        } else if spec_has_line(self.spec_black()) {
            Some(BLACK)
        } else {
            None
        }
    }

    /// The occupant of the cell at `row`, `col`.
    pub open spec fn spec_cell(self, row: u64, col: u64) -> Option<i8> {
        let mask = 1u64 << ((col * 7 + row) as u64);
        if self.spec_white() & mask == 0 && self.spec_black() & mask == 0 {
            None
        } else if self.spec_white() & mask != 0 {
            Some(WHITE)
        } else {
            Some(BLACK)
        }
    }

    /// The move-ordering heuristic: a candidate scores lower (is searched
    /// earlier) the more winning cells the mover would hold after playing
    /// it, so the count is negated.  Keeping one's own threat count high
    /// is the ordering that raises the cutoff rate; like any ordering of
    /// the same candidate set it leaves the search's result unchanged.
    pub open spec fn spec_col_score(self, col: u8) -> int {
        spec_score_move(self, self.spec_safe_mask() & ((0x3f as u64) << ((7 * col) as u64)))
    }

    /// Column `col` is generated by `valid_moves`.
    pub open spec fn spec_valid_col(self, col: u8) -> bool {
        col < 7 && self.col_open(col as u64)
    }

    /// Column `col` is generated by `safe_moves`.
    pub open spec fn spec_safe_col(self, col: u8) -> bool {
        &&& col < 7
        &&& self.col_open(col as u64)
        &&& self.spec_safe_mask() & ((0x3f as u64) << ((7 * col) as u64)) != 0
    }

    /// The first `n` entries of the move order, filtered to open columns.
    pub open spec fn valid_prefix(self, n: int) -> Seq<u8>
        decreases n,
    {
        if n <= 0 {
            Seq::empty()
        } else {
            self.valid_prefix(n - 1) + if self.spec_valid_col(spec_move_order(n - 1)) {
                seq![spec_move_order(n - 1)]
            } else {
                Seq::empty()
            }
        }
    }

    /// What `valid_moves` returns: the open columns, centre first.
    pub open spec fn spec_valid_moves(self) -> Seq<u8> {
        self.valid_prefix(7)
    }

    /// The first `n` entries of the move order, filtered to safe columns.
    pub open spec fn safe_prefix(self, n: int) -> Seq<u8>
        decreases n,
    {
        if n <= 0 {
            Seq::empty()
        } else {
            self.safe_prefix(n - 1) + if self.spec_safe_col(spec_move_order(n - 1)) {
                seq![spec_move_order(n - 1)]
            } else {
                Seq::empty()
            }
        }
    }

    /// The columns `safe_moves` returns (before its heuristic reordering).
    pub open spec fn spec_safe_moves(self) -> Seq<u8> {
        self.safe_prefix(7)
    }
}

/// The board bit of the cell in row `r` of column `c`.
pub open spec fn cell_bit(r: int, c: int) -> u64 {
    1u64 << ((7 * c + r) as u64)
}

/// The four cells of the `k`-th aligned window of four, numbered as in
/// `Grid::spec_window`: 24 horizontal, then 21 vertical, then 12 falling
/// and 12 rising diagonals — every line of four the board admits.
pub open spec fn win_mask(k: int) -> u64 {
    if k < 24 {
        let r = k / 4;
        let c = k % 4;
        cell_bit(r, c) | cell_bit(r, c + 1) | cell_bit(r, c + 2) | cell_bit(r, c + 3)
    } else if k < 45 {
        let r = (k - 24) % 3;
        let c = (k - 24) / 3;
        cell_bit(r, c) | cell_bit(r + 1, c) | cell_bit(r + 2, c) | cell_bit(r + 3, c)
    } else if k < 57 {
        let r = 5 - (k - 45) / 4;
        let c = (k - 45) % 4;
        cell_bit(r, c) | cell_bit(r - 1, c + 1) | cell_bit(r - 2, c + 2) | cell_bit(r - 3, c + 3)
    } else {
        let r = (k - 57) / 4;
        let c = (k - 57) % 4;
        cell_bit(r, c) | cell_bit(r + 1, c + 1) | cell_bit(r + 2, c + 2) | cell_bit(r + 3, c + 3)
    }
}

/// `x` holds all four cells of window `k`.
pub open spec fn spec_line_at(x: u64, k: int) -> bool {
    x & win_mask(k) == win_mask(k)
}

/// `x` holds some window among the first `k`.
pub open spec fn any_window_up_to(x: u64, k: int) -> bool
    decreases k,
{
    if k <= 0 {
        false
    } else {
        any_window_up_to(x, k - 1) || spec_line_at(x, k - 1)
    }
}

/// The shift cascade of `spec_has_line` finds a line exactly when one of
/// the 69 aligned windows of four is filled.
proof fn lemma_has_line_windows(x: u64)
    by (bit_vector)
    requires
        x & BOARD_MASK == x,
    ensures
        spec_has_line(x) <==> any_window_up_to(x, 69),
{
}

proof fn lemma_any_window_exists(x: u64, k: int)
    requires
        0 <= k <= 69,
    ensures
        any_window_up_to(x, k) <==> exists|j: int| 0 <= j < k && #[trigger] spec_line_at(x, j),
    decreases k,
{
    if k > 0 {
        lemma_any_window_exists(x, k - 1);
        if spec_line_at(x, k - 1) {
            assert(exists|j: int| 0 <= j < k && #[trigger] spec_line_at(x, j));
        }
    }
}

/// What the word-level line test means in cells: a board-masked bit-set
/// holds a line of four exactly when it fills one of the 69 aligned
/// windows.
pub proof fn lemma_line_detection_exact(x: u64)
    requires
        x & BOARD_MASK == x,
    ensures
        spec_has_line(x) <==> exists|k: int| 0 <= k < 69 && #[trigger] spec_line_at(x, k),
{
    lemma_has_line_windows(x);
    lemma_any_window_exists(x, 69);
}

/// Some window among the first `k` runs through the cell `bit` and is
/// completed by adding `bit` to `x`.
pub open spec fn any_window_completed_at(x: u64, bit: u64, k: int) -> bool
    decreases k,
{
    if k <= 0 {
        false
    } else {
        any_window_completed_at(x, bit, k - 1) || (win_mask(k - 1) & bit != 0 && spec_line_at(
            x | bit,
            k - 1,
        ))
    }
}

/// The winning-cell cascade marks bit `i` exactly when `i` is an empty
/// playable cell whose addition to `owned` fills a window through it.
/// Needs the bottom-up run shape of every column: without it an empty
/// cell could sit below an owned one, which the vertical part of the
/// cascade (rightly) never considers.
proof fn lemma_win_cells_bit(owned: u64, all: u64, i: u64)
    by (bit_vector)
    requires
        owned & all == owned,
        all & BOARD_MASK == all,
        is_run(lane(all, 0)),
        is_run(lane(all, 1)),
        is_run(lane(all, 2)),
        is_run(lane(all, 3)),
        is_run(lane(all, 4)),
        is_run(lane(all, 5)),
        is_run(lane(all, 6)),
        i < 64,
    ensures
        ((spec_win_cells(owned, all) >> i) & 1) == 1 <==> (((all >> i) & 1) == 0 && ((BOARD_MASK
            >> i) & 1) == 1 && any_window_completed_at(owned, 1u64 << i, 69)),
{
}

proof fn lemma_any_completed_exists(x: u64, bit: u64, k: int)
    requires
        0 <= k <= 69,
    ensures
        any_window_completed_at(x, bit, k) <==> exists|j: int|
            0 <= j < k && (#[trigger] win_mask(j)) & bit != 0 && spec_line_at(x | bit, j),
    decreases k,
{
    if k > 0 {
        lemma_any_completed_exists(x, bit, k - 1);
        if win_mask(k - 1) & bit != 0 && spec_line_at(x | bit, k - 1) {
            assert(exists|j: int|
                0 <= j < k && (#[trigger] win_mask(j)) & bit != 0 && spec_line_at(x | bit, j));
        }
    }
}

/// What a winning cell is, in cells: bit `i` of the winning-cell set of
/// `owned` stands for an empty playable cell that, once owned, fills one
/// of the 69 windows running through it.
pub proof fn lemma_win_cells_meaning(owned: u64, all: u64, i: u64)
    requires
        owned & all == owned,
        all & BOARD_MASK == all,
        forall|c: u64| c < 7 ==> is_run(#[trigger] lane(all, c)),
        i < 64,
    ensures
        ((spec_win_cells(owned, all) >> i) & 1) == 1 <==> (((all >> i) & 1) == 0 && ((BOARD_MASK
            >> i) & 1) == 1 && exists|k: int|
            0 <= k < 69 && (#[trigger] win_mask(k)) & (1u64 << i) != 0 && spec_line_at(
                owned | (1u64 << i),
                k,
            )),
{
    assert(is_run(lane(all, 0)) && is_run(lane(all, 1)) && is_run(lane(all, 2)) && is_run(
        lane(all, 3),
    ) && is_run(lane(all, 4)) && is_run(lane(all, 5)) && is_run(lane(all, 6)));
    lemma_win_cells_bit(owned, all, i);
    lemma_any_completed_exists(owned, 1u64 << i, 69);
}

/// The finished-game test in cells: the winner is the side whose discs
/// fill one of the 69 windows, the first player's discs checked first.
pub proof fn lemma_was_won_meaning(b: Board)
    requires
        b.wf(),
    ensures
        (b.spec_was_won() == Some(WHITE)) <==> (exists|k: int|
            0 <= k < 69 && #[trigger] spec_line_at(b.spec_white(), k)),
        (b.spec_was_won() == Some(BLACK)) <==> (!(exists|k: int|
            0 <= k < 69 && #[trigger] spec_line_at(b.spec_white(), k)) && (exists|k: int|
            0 <= k < 69 && #[trigger] spec_line_at(b.spec_black(), k))),
        (b.spec_was_won() is None) <==> (!(exists|k: int|
            0 <= k < 69 && #[trigger] spec_line_at(b.spec_white(), k)) && !(exists|k: int|
            0 <= k < 69 && #[trigger] spec_line_at(b.spec_black(), k))),
{
    let o = b.owned;
    let a = b.all;
    assert(o & BOARD_MASK == o && (o ^ a) & BOARD_MASK == (o ^ a)) by (bit_vector)
        requires
            o & a == o,
            a & BOARD_MASK == a,
    ;
    lemma_line_detection_exact(b.spec_white());
    lemma_line_detection_exact(b.spec_black());
}

/// The immediate-win test in cells: dropping in `col` wins at once
/// exactly when the column is open and its landing cell — the cell just
/// above the column's run — completes a window through itself.
pub proof fn lemma_will_win_meaning(b: Board, col: u64)
    requires
        b.wf(),
        col < 7,
    ensures
        b.spec_will_win(col) <==> (b.height(col) < 6 && exists|k: int|
            0 <= k < 69 && (#[trigger] win_mask(k)) & (1u64 << ((7 * col + b.height(
                col,
            )) as u64)) != 0 && spec_line_at(b.owned | (1u64 << ((7 * col + b.height(col)) as u64)), k)),
{
    let l = lane(b.all, col);
    let h = b.height(col);
    lemma_run_len_values();
    assert(1u64 << 0 == 1 && 1u64 << 1 == 2 && 1u64 << 2 == 4 && 1u64 << 3 == 8 && 1u64 << 4 == 16
        && 1u64 << 5 == 32 && 1u64 << 6 == 64) by (bit_vector);
    assert(l + 1 == (1u64 << (h as u64)) && h <= 6);
    let i = (7 * col + h) as u64;
    lemma_landing_cell(b.owned, b.all, col, h as u64);
    lemma_open_lane(b.all, col);
    if l < 0x20 {
        lemma_win_cells_meaning(b.owned, b.all, i);
        let a = b.all;
        assert(((BOARD_MASK >> i) & 1) == 1 && ((a >> i) & 1) == 0) by (bit_vector)
            requires
                col < 7,
                ((a >> ((7 * col) as u64)) & 0x7f) < 0x20,
                (((a >> ((7 * col) as u64)) & 0x7f) + 1) == (1u64 << ((i - 7 * col) as u64)),
                7 * col <= i < 7 * col + 6,
            ;
    }
}

/// The droppable cell of column `col` is the single bit just above the
/// column's run (none when the column is full), and intersecting the
/// winning-cell set with the column hits exactly that landing bit.
proof fn lemma_landing_cell(owned: u64, all: u64, col: u64, h: u64)
    by (bit_vector)
    requires
        col < 7,
        all & BOARD_MASK == all,
        ((all >> ((7 * col) as u64)) & 0x7f) + 1 == (1u64 << h),
        h <= 6,
    ensures
        ({
            let p = ((all + BOTTOM_ROW) as u64) & BOARD_MASK;
            let w = spec_win_cells(owned, all);
            &&& (h < 6 ==> p & ((0x3f as u64) << ((7 * col) as u64)) == (1u64 << ((7 * col
                + h) as u64)))
            &&& (h == 6 ==> p & ((0x3f as u64) << ((7 * col) as u64)) == 0)
            &&& ((w & p & ((0x3f as u64) << ((7 * col) as u64)) != 0) <==> (h < 6 && ((w >> ((7
                * col + h) as u64)) & 1) == 1))
        }),
{
}

/// With no forced cell, the safe mask keeps a column's landing bit
/// exactly when the cell above it is not an opponent winning cell.
proof fn lemma_safe_bit(owned: u64, all: u64, col: u64, h: u64)
    by (bit_vector)
    requires
        col < 7,
        all & BOARD_MASK == all,
        ((all >> ((7 * col) as u64)) & 0x7f) + 1 == (1u64 << h),
        h <= 6,
        (((all + BOTTOM_ROW) as u64) & BOARD_MASK) & spec_win_cells(owned ^ all, all) == 0,
    ensures
        ({
            let p = ((all + BOTTOM_ROW) as u64) & BOARD_MASK;
            let q = spec_win_cells(owned ^ all, all);
            ((p & !(q >> 1)) & ((0x3f as u64) << ((7 * col) as u64)) != 0) <==> (h < 6 && ((q >> ((
            7 * col + h + 1) as u64)) & 1) == 0)
        }),
{
}

/// The threat filter in cells: when the opponent has no immediately
/// droppable winning cell, a column is safe exactly when it is open and
/// the cell directly above its landing cell is not an opponent winning
/// cell (which the drop would hand over).
pub proof fn lemma_safe_moves_meaning(b: Board, col: u64)
    requires
        b.wf(),
        col < 7,
        b.spec_possible() & b.spec_opponent_win() == 0,
    ensures
        b.spec_safe_col(col as u8) <==> (b.height(col) < 6 && ((b.spec_opponent_win() >> ((7 * col
            + b.height(col) + 1) as u64)) & 1) == 0),
{
    let l = lane(b.all, col);
    let h = b.height(col);
    lemma_run_len_values();
    assert(1u64 << 0 == 1 && 1u64 << 1 == 2 && 1u64 << 2 == 4 && 1u64 << 3 == 8 && 1u64 << 4 == 16
        && 1u64 << 5 == 32 && 1u64 << 6 == 64) by (bit_vector);
    assert(l + 1 == (1u64 << (h as u64)) && h <= 6);
    lemma_safe_bit(b.owned, b.all, col, h as u64);
    lemma_open_lane(b.all, col);
}

/// The run lengths of the seven run-shaped lane values.
pub proof fn lemma_run_len_values()
    ensures
        run_len(0) == 0,
        run_len(1) == 1,
        run_len(3) == 2,
        run_len(7) == 3,
        run_len(15) == 4,
        run_len(31) == 5,
        run_len(63) == 6,
{
    reveal_with_fuel(run_len, 8);
}

/// The starting position is well-formed.
pub proof fn lemma_empty_wf()
    ensures
        Board::empty().wf(),
{
    assert forall|c: u64| c < 7 implies #[trigger] lane(0u64, c) == 0 by {
        assert(lane(0, c) == 0) by (bit_vector);
    }
    assert(sum_heights(0, 7) == 0) by {
        reveal_with_fuel(sum_heights, 8);
    }
    assert(0u64 & BOARD_MASK == 0 && 0u64 & 0u64 == 0) by (bit_vector);
}

/// Any value inside the board mask, and any subset of it, stays below
/// `2^49`, so sums used by `key` and the drop identity cannot overflow.
pub proof fn lemma_board_value_bounds(all: u64, owned: u64)
    requires
        all & BOARD_MASK == all,
        owned & all == owned,
    ensures
        all <= BOARD_MASK,
        owned <= BOARD_MASK,
        all + owned < 0x2_0000_0000_0000,
{
    assert(all & 0b0111111_0111111_0111111_0111111_0111111_0111111_0111111 == all && owned & all
        == owned ==> all <= 0b0111111_0111111_0111111_0111111_0111111_0111111_0111111 && owned
        <= 0b0111111_0111111_0111111_0111111_0111111_0111111_0111111) by (bit_vector);
}

} // verus!
