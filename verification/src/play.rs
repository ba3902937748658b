//! What the player does besides revealing: flags, and the test for a game
//! that is won.

use vstd::prelude::*;
use crate::board::{Board, BoardView, OutOfBounds};
use crate::cell::CellView;

verus! {

impl BoardView {
    /// The board with the flag of the cell at `(x, y)` put on where it was
    /// off, and taken off where it was on.
    pub open spec fn with_flag_toggled(self, x: int, y: int) -> BoardView {
        self.with_cell(x, y, CellView { flagged: !self.at(x, y).flagged, ..self.at(x, y) })
    }

    /// Every cell without a mine is revealed.
    pub open spec fn won(self) -> bool {
        forall|x: int, y: int|
            self.in_bounds(x, y) && !(#[trigger] self.at(x, y)).mined ==> !self.at(x, y).covered
    }

    /// The first `n` cells of row `y` that hold no mine are revealed.
    pub open spec fn won_in_row(self, y: int, n: int) -> bool {
        forall|x: int| 0 <= x < n && !(#[trigger] self.at(x, y)).mined ==> !self.at(x, y).covered
    }
}

impl Board {
    /// Puts a flag on the cell `(x, y)`, or takes off the one it carries.
    /// A flag does not keep the cell from being revealed. Coordinates
    /// outside the board are refused and change nothing.
    pub fn toggle_flag(&mut self, x: i32, y: i32) -> (done: Result<(), OutOfBounds>)
        requires
            old(self).wf(),
        ensures
            final(self).wf(),
            match done {
                Ok(_) => {
                    &&& old(self)@.in_bounds(x as int, y as int)
                    &&& final(self)@ == old(self)@.with_flag_toggled(x as int, y as int)
                },
                Err(e) => {
                    &&& !old(self)@.in_bounds(x as int, y as int)
                    &&& e == (OutOfBounds { x, y })
                    &&& final(self)@ == old(self)@
                },
            },
    {
        if !self.contains(x, y) {
            return Err(OutOfBounds { x, y });
        }
        let ghost before = self@;
        let flagged = !self.cell(x, y).has_flag();
        self.flag_cell(x, y, flagged);
        proof {
            before.lemma_with_cell(
                x as int,
                y as int,
                CellView { flagged, ..before.at(x as int, y as int) },
            );
            assert forall|cx: int, cy: int| before.in_bounds(cx, cy) implies {
                &&& (#[trigger] self@.at(cx, cy)).mined == before.at(cx, cy).mined
                &&& self@.at(cx, cy).adjacent == before.at(cx, cy).adjacent
            } by {
                if (cx, cy) != (x as int, y as int) {
                    assert(self@.at(cx, cy) == before.at(cx, cy));
                }
            }
            before.lemma_same_mines_wf(self@);
        }
        Ok(())
    }

    /// Whether the game is won: every cell without a mine is revealed.
    pub fn is_won(&self) -> (won: bool)
        requires
            self.shaped(),
        ensures
            won == self@.won(),
    {
        let width = self.width();
        let height = self.height();
        let mut y: i32 = 0;
        while y < height
            invariant
                self.shaped(),
                width == self@.width,
                height == self@.height,
                0 <= y <= height,
                forall|r: int| 0 <= r < y ==> #[trigger] self@.won_in_row(r, width as int),
            decreases height - y,
        {
            let mut x: i32 = 0;
            while x < width
                invariant
                    self.shaped(),
                    width == self@.width,
                    height == self@.height,
                    0 <= y < height,
                    0 <= x <= width,
                    self@.won_in_row(y as int, x as int),
                decreases width - x,
            {
                let cell = self.cell(x, y);
                if !cell.has_mine() && cell.is_covered() {
                    return false;
                }
                x += 1;
            }
            y += 1;
        }
        proof {
            assert forall|cx: int, cy: int|
                self@.in_bounds(cx, cy) && !(#[trigger] self@.at(cx, cy)).mined implies !self@.at(
                cx,
                cy,
            ).covered by {
                assert(self@.won_in_row(cy, width as int));
            }
        }
        true
    }
}

} // verus!
