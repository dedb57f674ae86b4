//! Cell-grid board representation used by the interactive front end.
//!
//! Each of the six rows is a `u16` holding seven 2-bit cells, low bits
//! first: `00` empty, `01` white, `10` black (`11` never occurs).  Wins are
//! detected by counting each side's discs in every window of four aligned
//! cells: 24 horizontal, 21 vertical, 12 in each diagonal direction, 69
//! windows in all.
use vstd::prelude::*;

verus! {

pub const ROWS: u8 = 6;
pub const COLS: u8 = 7;

#[derive(Clone, Copy, PartialEq, Eq, Hash, Debug)]
pub struct Grid([u16; 6]);

#[derive(Clone, Copy, PartialEq, Eq, Hash, Structural, Debug)]
pub enum Color {
    W,
    B,
}

/// The 2-bit cell code of a colour.
pub open spec fn color_val(color: Color) -> u16 {
    match color {
        Color::W => 1,
        Color::B => 2,
    }
}

impl Grid {
    /// The 2-bit code of the cell at `row`, `col`: 0 empty, 1 white,
    /// 2 black.
    pub closed spec fn cell_val(self, row: int, col: int) -> u16 {
        (self.0@[row] >> ((2 * col) as u16)) & 3
    }

    /// No row uses bits beyond its seven cells, and no cell holds the
    /// meaningless code 3.
    pub closed spec fn wf(self) -> bool {
        &&& forall|r: int| 0 <= r < 6 ==> (#[trigger] self.0@[r]) >> 14 == 0
        &&& forall|r: int, c: int| 0 <= r < 6 && 0 <= c < 7 ==> #[trigger] self.cell_val(r, c) != 3
    }

    /// The empty grid.
    pub fn new() -> (g: Grid)
        ensures
            g.wf(),
            forall|r: int, c: int| 0 <= r < 6 && 0 <= c < 7 ==> #[trigger] g.cell_val(r, c) == 0,
    {
        let g = Grid([0u16; 6]);
        proof {
            assert forall|r: int, c: int| 0 <= r < 6 && 0 <= c < 7 implies #[trigger] g.cell_val(
                r,
                c,
            ) == 0 by {
                let s = (2 * c) as u16;
                assert((0u16 >> s) & 3 == 0) by (bit_vector);
            }
            assert forall|r: int| 0 <= r < 6 implies (#[trigger] g.0@[r]) >> 14 == 0 by {
                assert(0u16 >> 14 == 0) by (bit_vector);
            }
        }
        g
    }

    /// The 2-bit code of the cell at `row`, `col`.
    fn cell(&self, row: u8, col: u8) -> (v: u16)
        requires
            row < 6,
            col < 7,
        ensures
            v == self.cell_val(row as int, col as int),
    {
        (self.0[row as usize] >> ((2 * col) as u16)) & 3
    }

    /// The occupant of the cell at `row`, `col`.
    pub fn get(&self, row: u8, col: u8) -> (r: Option<Color>)
        requires
            self.wf(),
            row < 6,
            col < 7,
        ensures
            r == self.spec_get(row as int, col as int),
    {
        let v = self.cell(row, col);
        if v == 1 {
            Some(Color::W)
        } else if v == 2 {
            Some(Color::B)
        } else {
            None
        }
    }

    /// The occupant of a cell: `None` when empty.
    pub open spec fn spec_get(self, row: int, col: int) -> Option<Color> {
        if self.cell_val(row, col) == 1 {
            Some(Color::W)
        } else if self.cell_val(row, col) == 2 {
            Some(Color::B)
        } else {
            None
        }
    }

    /// Put `color` into the empty cell at `row`, `col`; every other cell
    /// keeps its occupant.
    pub fn set(&mut self, row: u8, col: u8, color: Color)
        requires
            old(self).wf(),
            row < 6,
            col < 7,
            old(self).cell_val(row as int, col as int) == 0,
        ensures
            final(self).wf(),
            forall|r: int, c: int|
                0 <= r < 6 && 0 <= c < 7 ==> #[trigger] final(self).cell_val(r, c) == (if r
                    == row as int && c == col as int {
                    color_val(color)
                } else {
                    old(self).cell_val(r, c)
                }),
    {
        let v: u16 = match color {
            Color::W => 1,
            Color::B => 2,
        };
        let updated = self.0[row as usize] | (v << ((2 * col) as u16));
        self.0[row as usize] = updated;
        proof {
            lemma_grid_set_bits(old(self).0@[row as int], col as u16, v);
            assert forall|r: int, c: int| 0 <= r < 6 && 0 <= c < 7 implies #[trigger] self.cell_val(
                r,
                c,
            ) == (if r == row as int && c == col as int {
                color_val(color)
            } else {
                old(self).cell_val(r, c)
            }) by {
                if r == row as int {
                    assert(c == 0 || c == 1 || c == 2 || c == 3 || c == 4 || c == 5 || c == 6);
                }
            }
        }
    }

    /// The lowest empty row of `col` at or above `from`; 6 when the column
    /// is full.
    pub open spec fn lowest_empty(self, col: int, from: int) -> int
        decreases 6 - from,
    {
        if from >= 6 {
            6
        } else if self.cell_val(from, col) == 0 {
            from
        } else {
            self.lowest_empty(col, from + 1)
        }
    }

    /// `g2` is `g1` with `color` dropped into `col`: the disc sits in the
    /// lowest empty cell of the column, everything else is unchanged.
    pub open spec fn spec_dropped(g1: Grid, g2: Grid, col: int, color: Color) -> bool {
        let rr = g1.lowest_empty(col, 0);
        &&& rr < 6
        &&& forall|r: int, c: int|
            0 <= r < 6 && 0 <= c < 7 ==> #[trigger] g2.cell_val(r, c) == (if r == rr && c == col {
                color_val(color)
            } else {
                g1.cell_val(r, c)
            })
    }

    /// Drop `color` into `col`: the disc lands in the lowest empty cell.
    /// A full column is left unchanged.
    pub fn drop(&mut self, col: u8, color: Color)
        requires
            old(self).wf(),
            col < 7,
        ensures
            final(self).wf(),
            old(self).lowest_empty(col as int, 0) < 6 ==> Grid::spec_dropped(
                *old(self),
                *final(self),
                col as int,
                color,
            ),
            old(self).lowest_empty(col as int, 0) == 6 ==> *final(self) == *old(self),
    {
        let mut row: u8 = 0;
        while row < 6
            invariant
                *self == *old(self),
                self.wf(),
                col < 7,
                row <= 6,
                old(self).lowest_empty(col as int, 0) == old(self).lowest_empty(
                    col as int,
                    row as int,
                ),
            decreases 6 - row,
        {
            if self.cell(row, col) == 0 {
                self.set(row, col, color);
                return ;
            }
            row = row + 1;
        }
    }

    /// The grid after dropping `color` into `col`, or `None` when the
    /// column's top cell is already taken.
    pub fn next(&self, col: u8, color: Color) -> (r: Option<Grid>)
        requires
            self.wf(),
            col < 7,
        ensures
            (r is Some) <==> self.cell_val(5, col as int) == 0,
            r is Some ==> r.unwrap().wf() && Grid::spec_dropped(*self, r.unwrap(), col as int, color),
    {
        proof {
            lemma_cell_val_bound(*self, 5, col as int);
            assert(self.cell_val(5, col as int) != 3);
        }
        if self.get(5, col).is_none() {
            let mut grid = *self;
            grid.drop(col, color);
            proof {
                lemma_lowest_empty_le(*self, col as int, 0);
                assert(self.lowest_empty(col as int, 0) < 6);
                assert(Grid::spec_dropped(*self, grid, col as int, color));
            }
            Some(grid)
        } else {
            None
        }
    }

    /// The board is full: every column's top cell is taken.
    pub open spec fn spec_is_full(self) -> bool {
        forall|c: int| 0 <= c < 7 ==> #[trigger] self.cell_val(5, c) != 0
    }

    pub fn is_full(&self) -> (r: bool)
        requires
            self.wf(),
        ensures
            r == self.spec_is_full(),
    {
        let mut c: u8 = 0;
        while c < 7
            invariant
                c <= 7,
                self.wf(),
                forall|cc: int| 0 <= cc < c ==> #[trigger] self.cell_val(5, cc) != 0,
            decreases 7 - c,
        {
            proof {
                lemma_cell_val_bound(*self, 5, c as int);
                assert(self.cell_val(5, c as int) != 3);
            }
            if self.get(5, c).is_none() {
                proof {
                    assert(self.cell_val(5, c as int) == 0);
                    assert(!self.spec_is_full());
                }
                return false;
            }
            c = c + 1;
        }
        true
    }
}

impl Grid {
    /// 1 when the cell holds a white disc.
    pub open spec fn cw(self, r: int, c: int) -> int {
        if self.cell_val(r, c) == 1 {
            1
        } else {
            0
        }
    }

    /// 1 when the cell holds a black disc.
    pub open spec fn cb(self, r: int, c: int) -> int {
        if self.cell_val(r, c) == 2 {
            1
        } else {
            0
        }
    }

    /// White and black counts over four cells; a window that holds both
    /// colours can no longer be completed by either and counts (0, 0).
    pub open spec fn spec_count4(
        self,
        r0: int,
        c0: int,
        r1: int,
        c1: int,
        r2: int,
        c2: int,
        r3: int,
        c3: int,
    ) -> (int, int) {
        let w = self.cw(r0, c0) + self.cw(r1, c1) + self.cw(r2, c2) + self.cw(r3, c3);
        let b = self.cb(r0, c0) + self.cb(r1, c1) + self.cb(r2, c2) + self.cb(r3, c3);
        if w > 0 && b > 0 {
            (0, 0)
        } else {
            (w, b)
        }
    }

    /// The `i`-th of the 69 four-cell windows: 24 horizontal, then 21
    /// vertical, then 12 rising and 12 falling diagonals.
    pub open spec fn spec_window(self, i: int) -> (int, int) {
        if i < 24 {
            let r = i / 4;
            let c = i % 4;
            self.spec_count4(r, c, r, c + 1, r, c + 2, r, c + 3)
        } else if i < 45 {
            let r = (i - 24) % 3;
            let c = (i - 24) / 3;
            self.spec_count4(r, c, r + 1, c, r + 2, c, r + 3, c)
        } else if i < 57 {
            let r = 5 - (i - 45) / 4;
            let c = (i - 45) % 4;
            self.spec_count4(r, c, r - 1, c + 1, r - 2, c + 2, r - 3, c + 3)
        } else {
            let r = (i - 57) / 4;
            let c = (i - 57) % 4;
            self.spec_count4(r, c, r + 1, c + 1, r + 2, c + 2, r + 3, c + 3)
        }
    }

    /// White and black counts over the window whose four cells are given.
    fn count4(&self, r0: u8, c0: u8, r1: u8, c1: u8, r2: u8, c2: u8, r3: u8, c3: u8) -> (r: (
        usize,
        usize,
    ))
        requires
            r0 < 6 && c0 < 7 && r1 < 6 && c1 < 7 && r2 < 6 && c2 < 7 && r3 < 6 && c3 < 7,
        ensures
            r.0 == self.spec_count4(
                r0 as int,
                c0 as int,
                r1 as int,
                c1 as int,
                r2 as int,
                c2 as int,
                r3 as int,
                c3 as int,
            ).0,
            r.1 == self.spec_count4(
                r0 as int,
                c0 as int,
                r1 as int,
                c1 as int,
                r2 as int,
                c2 as int,
                r3 as int,
                c3 as int,
            ).1,
    {
        let v0 = self.cell(r0, c0);
        let v1 = self.cell(r1, c1);
        let v2 = self.cell(r2, c2);
        let v3 = self.cell(r3, c3);
        let w: usize = (if v0 == 1 {
            1usize
        } else {
            0
        }) + (if v1 == 1 {
            1usize
        } else {
            0
        }) + (if v2 == 1 {
            1usize
        } else {
            0
        }) + (if v3 == 1 {
            1usize
        } else {
            0
        });
        let b: usize = (if v0 == 2 {
            1usize
        } else {
            0
        }) + (if v1 == 2 {
            1usize
        } else {
            0
        }) + (if v2 == 2 {
            1usize
        } else {
            0
        }) + (if v3 == 2 {
            1usize
        } else {
            0
        });
        if w > 0 && b > 0 {
            (0, 0)
        } else {
            (w, b)
        }
    }

    /// The white and black counts of all 69 windows, in the fixed window
    /// order.
    pub fn counts(&self) -> (r: Vec<(usize, usize)>)
        ensures
            r@.len() == 69,
            forall|i: int|
                0 <= i < 69 ==> (#[trigger] r@[i]).0 == self.spec_window(i).0 && r@[i].1
                    == self.spec_window(i).1,
    {
        let mut r: Vec<(usize, usize)> = Vec::new();
        let mut i: usize = 0;
        while i < 24
            invariant
                i <= 24,
                r@.len() == i,
                forall|j: int|
                    0 <= j < i ==> (#[trigger] r@[j]).0 == self.spec_window(j).0 && r@[j].1
                        == self.spec_window(j).1,
            decreases 24 - i,
        {
            let row = (i / 4) as u8;
            let col = (i % 4) as u8;
            r.push(self.count4(row, col, row, col + 1, row, col + 2, row, col + 3));
            i = i + 1;
        }
        let mut i: usize = 0;
        while i < 21
            invariant
                i <= 21,
                r@.len() == 24 + i,
                forall|j: int|
                    0 <= j < 24 + i ==> (#[trigger] r@[j]).0 == self.spec_window(j).0 && r@[j].1
                        == self.spec_window(j).1,
            decreases 21 - i,
        {
            let row = (i % 3) as u8;
            let col = (i / 3) as u8;
            r.push(self.count4(row, col, row + 1, col, row + 2, col, row + 3, col));
            i = i + 1;
        }
        let mut i: usize = 0;
        while i < 12
            invariant
                i <= 12,
                r@.len() == 45 + i,
                forall|j: int|
                    0 <= j < 45 + i ==> (#[trigger] r@[j]).0 == self.spec_window(j).0 && r@[j].1
                        == self.spec_window(j).1,
            decreases 12 - i,
        {
            let row = (5 - i / 4) as u8;
            let col = (i % 4) as u8;
            r.push(self.count4(row, col, row - 1, col + 1, row - 2, col + 2, row - 3, col + 3));
            i = i + 1;
        }
        let mut i: usize = 0;
        while i < 12
            invariant
                i <= 12,
                r@.len() == 57 + i,
                forall|j: int|
                    0 <= j < 57 + i ==> (#[trigger] r@[j]).0 == self.spec_window(j).0 && r@[j].1
                        == self.spec_window(j).1,
            decreases 12 - i,
        {
            let row = (i / 4) as u8;
            let col = (i % 4) as u8;
            r.push(self.count4(row, col, row + 1, col + 1, row + 2, col + 2, row + 3, col + 3));
            i = i + 1;
        }
        r
    }

    /// The first window, in window order, that one side fills with four
    /// discs decides the winner.
    pub open spec fn spec_winner_from(self, i: int) -> Option<Color>
        decreases 69 - i,
    {
        if i < 0 || i >= 69 {
            None
        } else if self.spec_window(i) == (4int, 0int) {
            Some(Color::W)
        } else if self.spec_window(i) == (0int, 4int) {
            Some(Color::B)
        } else {
            self.spec_winner_from(i + 1)
        }
    }

    /// The winner, if a line of four of one colour exists: the side owning
    /// the first completed window in window order.
    pub fn is_winner(&self) -> (r: Option<Color>)
        ensures
            r == self.spec_winner_from(0),
    {
        let counts = self.counts();
        let mut i: usize = 0;
        while i < 69
            invariant
                i <= 69,
                counts@.len() == 69,
                forall|j: int|
                    0 <= j < 69 ==> (#[trigger] counts@[j]).0 == self.spec_window(j).0
                        && counts@[j].1 == self.spec_window(j).1,
                self.spec_winner_from(0) == self.spec_winner_from(i as int),
            decreases 69 - i,
        {
            let (w, b) = counts[i];
            if w == 4 && b == 0 {
                return Some(Color::W);
            }
            if w == 0 && b == 4 {
                return Some(Color::B);
            }
            i = i + 1;
        }
        None
    }
}

/// A cell code is two bits.
proof fn lemma_cell_val_bound(g: Grid, r: int, c: int)
    ensures
        g.cell_val(r, c) <= 3,
{
    let x = g.0@[r];
    let sh = (2 * c) as u16;
    assert((x >> sh) & 3 <= 3) by (bit_vector);
}

/// If the top cell of `col` is empty, the column has a lowest empty row.
proof fn lemma_lowest_empty_le(g: Grid, col: int, from: int)
    requires
        0 <= from <= 6,
    ensures
        g.cell_val(5, col) == 0 && from <= 5 ==> g.lowest_empty(col, from) < 6,
    decreases 6 - from,
{
    if from < 6 {
        lemma_lowest_empty_le(g, col, from + 1);
    }
}

/// Setting an empty cell of one row changes exactly that cell's code and
/// keeps the row inside its seven cells.
proof fn lemma_grid_set_bits(x: u16, c: u16, v: u16)
    by (bit_vector)
    requires
        c < 7,
        v == 1 || v == 2,
        (x >> ((2 * c) as u16)) & 3 == 0,
        x >> 14 == 0,
    ensures
        ({
            let y = x | (v << ((2 * c) as u16));
            &&& (y >> ((2 * c) as u16)) & 3 == v
            &&& y >> 14 == 0
            &&& (c != 0 ==> (y >> 0) & 3 == (x >> 0) & 3)
            &&& (c != 1 ==> (y >> 2) & 3 == (x >> 2) & 3)
            &&& (c != 2 ==> (y >> 4) & 3 == (x >> 4) & 3)
            &&& (c != 3 ==> (y >> 6) & 3 == (x >> 6) & 3)
            &&& (c != 4 ==> (y >> 8) & 3 == (x >> 8) & 3)
            &&& (c != 5 ==> (y >> 10) & 3 == (x >> 10) & 3)
            &&& (c != 6 ==> (y >> 12) & 3 == (x >> 12) & 3)
        }),
{
}

} // verus!
