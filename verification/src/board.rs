//! The grid, its mathematical model, and the operations that touch one cell.

use vstd::prelude::*;
use vstd::arithmetic::div_mod::{
    lemma_fundamental_div_mod,
    lemma_fundamental_div_mod_converse,
    lemma_mod_bound,
    lemma_multiply_divide_lt,
    lemma_div_pos_is_pos,
};
use vstd::arithmetic::mul::{lemma_mul_inequality, lemma_mul_is_commutative};
use crate::cell::{Cell, CellView};

verus! {

/// What a board is: its extent and, row by row, what each cell is.
pub struct BoardView {
    pub width: int,
    pub height: int,
    pub cells: Seq<Seq<CellView>>,
}

/// 1 for a condition that holds, 0 for one that does not.
pub open spec fn one_if(condition: bool) -> nat {
    if condition {
        1
    } else {
        0
    }
}

/// The one-element sequence of `point` where `keep` holds, the empty
/// sequence where it does not.
pub open spec fn keep_if(keep: bool, point: (int, int)) -> Seq<(int, int)> {
    if keep {
        seq![point]
    } else {
        Seq::empty()
    }
}

/// Coordinates held in machine integers, as mathematical points.
pub open spec fn as_points(coords: Seq<(i32, i32)>) -> Seq<(int, int)> {
    Seq::new(coords.len(), |i: int| (coords[i].0 as int, coords[i].1 as int))
}

/// Whether two points are neighbours along a row or a column.
pub open spec fn orthogonal(a: (int, int), b: (int, int)) -> bool {
    ||| (a.0 - 1 == b.0 && a.1 == b.1)
    ||| (a.0 + 1 == b.0 && a.1 == b.1)
    ||| (a.0 == b.0 && a.1 - 1 == b.1)
    ||| (a.0 == b.0 && a.1 + 1 == b.1)
}

impl BoardView {
    /// The number of cells.
    pub open spec fn total(self) -> int {
        self.width * self.height
    }

    pub open spec fn in_bounds(self, x: int, y: int) -> bool {
        0 <= x < self.width && 0 <= y < self.height
    }

    /// The cell in column `x` of row `y`.
    pub open spec fn at(self, x: int, y: int) -> CellView {
        self.cells[y][x]
    }

    /// The position of a cell in row-major order.
    pub open spec fn serial_of(self, x: int, y: int) -> int {
        y * self.width + x
    }

    /// The column and the row of the cell at a position in row-major order.
    pub open spec fn coord_of(self, serial: int) -> (int, int) {
        (serial % self.width, serial / self.width)
    }

    /// Whether `(x, y)` is a cell of the board that holds a mine. Outside
    /// the board there are no mines.
    pub open spec fn mine_at(self, x: int, y: int) -> bool {
        self.in_bounds(x, y) && self.at(x, y).mined
    }

    /// The number of mines on the up to eight cells around `(x, y)`.
    pub open spec fn adjacent_mines(self, x: int, y: int) -> nat {
        one_if(self.mine_at(x - 1, y - 1)) + one_if(self.mine_at(x, y - 1)) + one_if(
            self.mine_at(x + 1, y - 1),
        ) + one_if(self.mine_at(x - 1, y)) + one_if(self.mine_at(x + 1, y)) + one_if(
            self.mine_at(x - 1, y + 1),
        ) + one_if(self.mine_at(x, y + 1)) + one_if(self.mine_at(x + 1, y + 1))
    }

    /// The cells around `(x, y)` that lie on the board, row by row from the
    /// top left.
    pub open spec fn all_adjacent(self, x: int, y: int) -> Seq<(int, int)> {
        keep_if(self.in_bounds(x - 1, y - 1), (x - 1, y - 1)) + keep_if(
            self.in_bounds(x, y - 1),
            (x, y - 1),
        ) + keep_if(self.in_bounds(x + 1, y - 1), (x + 1, y - 1)) + keep_if(
            self.in_bounds(x - 1, y),
            (x - 1, y),
        ) + keep_if(self.in_bounds(x + 1, y), (x + 1, y)) + keep_if(
            self.in_bounds(x - 1, y + 1),
            (x - 1, y + 1),
        ) + keep_if(self.in_bounds(x, y + 1), (x, y + 1)) + keep_if(
            self.in_bounds(x + 1, y + 1),
            (x + 1, y + 1),
        )
    }

    /// Whether `(x, y)` is a cell of the board that is still covered.
    pub open spec fn covered_at(self, x: int, y: int) -> bool {
        self.in_bounds(x, y) && self.at(x, y).covered
    }

    /// The covered cells next to `(x, y)` along its row and its column:
    /// left, right, above, below.
    pub open spec fn covered_adjacent(self, x: int, y: int) -> Seq<(int, int)> {
        keep_if(self.covered_at(x - 1, y), (x - 1, y)) + keep_if(
            self.covered_at(x + 1, y),
            (x + 1, y),
        ) + keep_if(self.covered_at(x, y - 1), (x, y - 1)) + keep_if(
            self.covered_at(x, y + 1),
            (x, y + 1),
        )
    }

    /// The grid is a rectangle of `height` rows of `width` cells, and the
    /// number of its cells fits a machine integer.
    pub open spec fn shaped(self) -> bool {
        &&& self.width > 0
        &&& self.height > 0
        &&& self.width * self.height <= i32::MAX
        &&& self.cells.len() == self.height
        &&& forall|y: int| 0 <= y < self.height ==> (#[trigger] self.cells[y]).len() == self.width
    }

    /// A rectangle in which every cell knows how many mines lie around it.
    pub open spec fn wf(self) -> bool {
        &&& self.shaped()
        &&& forall|x: int, y: int|
            self.in_bounds(x, y) ==> (#[trigger] self.at(x, y)).adjacent == self.adjacent_mines(
                x,
                y,
            )
    }

    /// The board with the cell at `(x, y)` replaced.
    pub open spec fn with_cell(self, x: int, y: int, cell: CellView) -> BoardView {
        BoardView { cells: self.cells.update(y, self.cells[y].update(x, cell)), ..self }
    }

    /// The board with the cell at `(x, y)` revealed.
    pub open spec fn with_uncovered(self, x: int, y: int) -> BoardView {
        self.with_cell(x, y, CellView { covered: false, ..self.at(x, y) })
    }

    /// Whether `other` has this board's extent and its mines.
    pub open spec fn same_mines(self, other: BoardView) -> bool {
        &&& other.shaped()
        &&& other.width == self.width
        &&& other.height == self.height
        &&& forall|x: int, y: int|
            self.in_bounds(x, y) ==> (#[trigger] other.at(x, y)).mined == self.at(x, y).mined
    }

    /// Boards with the same mines have the same number of mines around
    /// each point.
    pub proof fn lemma_same_mines_around(self, other: BoardView, x: int, y: int)
        requires
            self.same_mines(other),
        ensures
            other.adjacent_mines(x, y) == self.adjacent_mines(x, y),
    {
        assert(other.mine_at(x - 1, y - 1) == self.mine_at(x - 1, y - 1));
        assert(other.mine_at(x, y - 1) == self.mine_at(x, y - 1));
        assert(other.mine_at(x + 1, y - 1) == self.mine_at(x + 1, y - 1));
        assert(other.mine_at(x - 1, y) == self.mine_at(x - 1, y));
        assert(other.mine_at(x + 1, y) == self.mine_at(x + 1, y));
        assert(other.mine_at(x - 1, y + 1) == self.mine_at(x - 1, y + 1));
        assert(other.mine_at(x, y + 1) == self.mine_at(x, y + 1));
        assert(other.mine_at(x + 1, y + 1) == self.mine_at(x + 1, y + 1));
    }

    /// A board with the mines and the counts of a well-formed board is
    /// well-formed.
    pub proof fn lemma_same_mines_wf(self, other: BoardView)
        requires
            self.wf(),
            self.same_mines(other),
            forall|x: int, y: int|
                self.in_bounds(x, y) ==> (#[trigger] other.at(x, y)).adjacent == self.at(
                    x,
                    y,
                ).adjacent,
        ensures
            other.wf(),
    {
        assert forall|x: int, y: int| other.in_bounds(x, y) implies (#[trigger] other.at(
            x,
            y,
        )).adjacent == other.adjacent_mines(x, y) by {
            assert(self.at(x, y).adjacent == self.adjacent_mines(x, y));
            self.lemma_same_mines_around(other, x, y);
        }
    }

    /// A position in row-major order names one cell of the board.
    pub proof fn lemma_coord_of(self, serial: int)
        requires
            self.width > 0,
            0 <= serial < self.total(),
        ensures
            self.in_bounds(self.coord_of(serial).0, self.coord_of(serial).1),
            self.serial_of(self.coord_of(serial).0, self.coord_of(serial).1) == serial,
    {
        let w = self.width;
        lemma_mod_bound(serial, w);
        lemma_div_pos_is_pos(serial, w);
        lemma_multiply_divide_lt(serial, w, self.height);
        lemma_fundamental_div_mod(serial, w);
        lemma_mul_is_commutative(w, serial / w);
    }

    /// Each cell of the board has one position in row-major order.
    pub proof fn lemma_serial_of(self, x: int, y: int)
        requires
            self.in_bounds(x, y),
        ensures
            0 <= self.serial_of(x, y) < self.total(),
            self.coord_of(self.serial_of(x, y)) == (x, y),
    {
        let w = self.width;
        lemma_fundamental_div_mod_converse(y * w + x, w, y, x);
        lemma_mul_inequality(y + 1, self.height, w);
        lemma_mul_inequality(0, y, w);
        assert((y + 1) * w == y * w + w) by (nonlinear_arith);
        lemma_mul_is_commutative(w, self.height);
    }
}

/// Coordinates that name no cell of the board.
#[derive(Clone, Copy, Debug, PartialEq, Eq)]
pub struct OutOfBounds {
    pub x: i32,
    pub y: i32,
}

/// A Minesweeper board: a rectangle of cells, stored row by row.
pub struct Board {
    cells: Vec<Vec<Cell>>,
    cells_amount: i32,
    width: i32,
    height: i32,
}

/// Row by row, what the cells of a grid are.
pub open spec fn grid_view(grid: Vec<Vec<Cell>>) -> Seq<Seq<CellView>> {
    Seq::new(grid.len() as nat, |y: int| Seq::new(grid[y].len() as nat, |x: int| grid[y][x]@))
}

impl View for Board {
    type V = BoardView;

    closed spec fn view(&self) -> BoardView {
        BoardView {
            width: self.width as int,
            height: self.height as int,
            cells: grid_view(self.cells),
        }
    }
}

impl Board {
    /// The stored number of cells is the product of the two extents.
    pub closed spec fn consistent(&self) -> bool {
        self.cells_amount == self.width * self.height
    }

    /// The representation is a rectangle.
    pub open spec fn shaped(&self) -> bool {
        self.consistent() && self@.shaped()
    }

    /// The board is a rectangle whose neighbour counts are right.
    pub open spec fn wf(&self) -> bool {
        self.consistent() && self@.wf()
    }

    /// What the model says of the rows is true of the stored rows.
    proof fn lemma_rows(&self)
        requires
            self.shaped(),
        ensures
            self.cells.len() == self.height,
            forall|y: int| 0 <= y < self.height ==> (#[trigger] self.cells[y]).len() == self.width,
            forall|x: int, y: int|
                0 <= x < self.width && 0 <= y < self.height ==> (#[trigger] self.cells[y][x])@
                    == self@.at(x, y),
    {
        assert forall|y: int| 0 <= y < self.height implies (#[trigger] self.cells[y]).len()
            == self.width by {
            assert(self@.cells[y].len() == self.width);
        }
    }

    /// A board of covered cells without mines or flags.
    pub(crate) fn blank(width: i32, height: i32) -> (board: Board)
        requires
            width > 0,
            height > 0,
            width * height <= i32::MAX,
        ensures
            board.shaped(),
            board@.width == width,
            board@.height == height,
            forall|x: int, y: int|
                board@.in_bounds(x, y) ==> #[trigger] board@.at(x, y) == (CellView {
                    mined: false,
                    covered: true,
                    flagged: false,
                    adjacent: 0,
                }),
    {
        let mut cells: Vec<Vec<Cell>> = Vec::new();
        let mut y: i32 = 0;
        while y < height
            invariant
                0 <= y <= height,
                width > 0,
                cells.len() == y,
                forall|r: int| 0 <= r < y ==> (#[trigger] cells[r]).len() == width,
                forall|r: int, c: int|
                    0 <= r < y && 0 <= c < width ==> (#[trigger] cells[r][c])@ == (CellView {
                        mined: false,
                        covered: true,
                        flagged: false,
                        adjacent: 0,
                    }),
            decreases height - y,
        {
            let mut row: Vec<Cell> = Vec::new();
            let mut x: i32 = 0;
            while x < width
                invariant
                    0 <= x <= width,
                    row.len() == x,
                    forall|c: int|
                        0 <= c < x ==> (#[trigger] row[c])@ == (CellView {
                            mined: false,
                            covered: true,
                            flagged: false,
                            adjacent: 0,
                        }),
                decreases width - x,
            {
                row.push(Cell::new());
                x += 1;
            }
            cells.push(row);
            y += 1;
        }
        assert(width * height >= 0) by (nonlinear_arith)
            requires
                width > 0,
                height > 0,
        ;
        Board { cells, cells_amount: width * height, width, height }
    }

    /// The grid, row by row.
    pub fn get_state(&self) -> (grid: &Vec<Vec<Cell>>)
        ensures
            grid_view(*grid) == self@.cells,
    {
        &self.cells
    }

    /// The number of columns.
    pub fn width(&self) -> (width: i32)
        ensures
            width == self@.width,
    {
        self.width
    }

    /// The number of rows.
    pub fn height(&self) -> (height: i32)
        ensures
            height == self@.height,
    {
        self.height
    }

    /// The number of cells.
    pub(crate) fn cell_count(&self) -> (n: i32)
        requires
            self.shaped(),
        ensures
            n == self@.total(),
            n > 0,
    {
        assert(self.width * self.height > 0) by (nonlinear_arith)
            requires
                self.width > 0,
                self.height > 0,
        ;
        self.cells_amount
    }

    /// Whether `(x, y)` names a cell of the board.
    pub(crate) fn contains(&self, x: i32, y: i32) -> (inside: bool)
        ensures
            inside == self@.in_bounds(x as int, y as int),
            inside ==> x < i32::MAX && y < i32::MAX,
    {
        0 <= x && x < self.width && 0 <= y && y < self.height
    }

    /// The cell in column `x` of row `y`.
    pub(crate) fn cell(&self, x: i32, y: i32) -> (cell: &Cell)
        requires
            self.shaped(),
            self@.in_bounds(x as int, y as int),
        ensures
            cell@ == self@.at(x as int, y as int),
    {
        proof {
            self.lemma_rows();
        }
        &self.cells[y as usize][x as usize]
    }

    /// Reveals the cell at `(x, y)` and nothing else.
    pub(crate) fn uncover_cell(&mut self, x: i32, y: i32)
        requires
            old(self).shaped(),
            old(self)@.in_bounds(x as int, y as int),
        ensures
            final(self).shaped(),
            final(self)@ == old(self)@.with_uncovered(x as int, y as int),
    {
        let ghost before = self@;
        proof {
            self.lemma_rows();
        }
        self.cells[y as usize][x as usize].uncover();
        proof {
            let after = before.with_uncovered(x as int, y as int);
            assert(self@.cells =~~= after.cells);
        }
    }

    /// Puts a mine on the cell at `(x, y)` and touches nothing else.
    pub(crate) fn mine_cell(&mut self, x: i32, y: i32)
        requires
            old(self).shaped(),
            old(self)@.in_bounds(x as int, y as int),
        ensures
            final(self).shaped(),
            final(self)@ == old(self)@.with_cell(
                x as int,
                y as int,
                CellView { mined: true, ..old(self)@.at(x as int, y as int) },
            ),
    {
        let ghost before = self@;
        proof {
            self.lemma_rows();
        }
        self.cells[y as usize][x as usize].place_mine();
        proof {
            let after = before.with_cell(
                x as int,
                y as int,
                CellView { mined: true, ..before.at(x as int, y as int) },
            );
            assert(self@.cells =~~= after.cells);
        }
    }

    /// Counts one more mine around the cell at `(x, y)` and touches nothing
    /// else.
    pub(crate) fn bump_cell(&mut self, x: i32, y: i32)
        requires
            old(self).shaped(),
            old(self)@.in_bounds(x as int, y as int),
            old(self)@.at(x as int, y as int).adjacent < u8::MAX,
        ensures
            final(self).shaped(),
            final(self)@ == old(self)@.with_cell(
                x as int,
                y as int,
                CellView {
                    adjacent: old(self)@.at(x as int, y as int).adjacent + 1,
                    ..old(self)@.at(x as int, y as int)
                },
            ),
    {
        let ghost before = self@;
        proof {
            self.lemma_rows();
        }
        self.cells[y as usize][x as usize].increment();
        proof {
            let after = before.with_cell(
                x as int,
                y as int,
                CellView {
                    adjacent: before.at(x as int, y as int).adjacent + 1,
                    ..before.at(x as int, y as int)
                },
            );
            assert(self@.cells =~~= after.cells);
        }
    }

    /// Puts a flag on the cell at `(x, y)`, or takes it off, and touches
    /// nothing else.
    pub(crate) fn flag_cell(&mut self, x: i32, y: i32, flagged: bool)
        requires
            old(self).shaped(),
            old(self)@.in_bounds(x as int, y as int),
        ensures
            final(self).shaped(),
            final(self)@ == old(self)@.with_cell(
                x as int,
                y as int,
                CellView { flagged, ..old(self)@.at(x as int, y as int) },
            ),
    {
        let ghost before = self@;
        proof {
            self.lemma_rows();
        }
        if flagged {
            self.cells[y as usize][x as usize].place_flag();
        } else {
            self.cells[y as usize][x as usize].remove_flag();
        }
        proof {
            let after = before.with_cell(
                x as int,
                y as int,
                CellView { flagged, ..before.at(x as int, y as int) },
            );
            assert(self@.cells =~~= after.cells);
        }
    }

    /// The column and the row of the cell at position `serial` in row-major
    /// order.
    pub(crate) fn serial_to_coord(&self, serial: i32) -> (coord: (i32, i32))
        requires
            self.shaped(),
            0 <= serial < self@.total(),
        ensures
            (coord.0 as int, coord.1 as int) == self@.coord_of(serial as int),
            self@.in_bounds(coord.0 as int, coord.1 as int),
            self@.serial_of(coord.0 as int, coord.1 as int) == serial,
    {
        proof {
            self@.lemma_coord_of(serial as int);
        }
        (serial % self.width, serial / self.width)
    }
}

} // verus!
