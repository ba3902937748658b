//! One square of the grid: three flags packed into a byte, and the number of
//! mines around it.

use vstd::prelude::*;

verus! {

/// Bit of the state byte that is set while the cell holds a mine.
const MINE_MASK: u8 = 0b0000_0100;

/// Bit of the state byte that is set while the cell is hidden.
const COVER_MASK: u8 = 0b0000_0010;

/// Bit of the state byte that is set while the cell carries a flag.
const FLAG_MASK: u8 = 0b0000_0001;

/// What a cell is, as four independent values.
pub struct CellView {
    pub mined: bool,
    pub covered: bool,
    pub flagged: bool,
    pub adjacent: nat,
}

/// One square of the grid.
#[derive(Clone, Copy, Debug, PartialEq, Eq)]
pub struct Cell {
    state: u8,
    neighbor_mines: u8,
}

impl View for Cell {
    type V = CellView;

    closed spec fn view(&self) -> CellView {
        CellView {
            mined: self.state & MINE_MASK == MINE_MASK,
            covered: self.state & COVER_MASK == COVER_MASK,
            flagged: self.state & FLAG_MASK == FLAG_MASK,
            adjacent: self.neighbor_mines as nat,
        }
    }
}

/// The three flag bits are independent: setting one leaves the other two as
/// they were.
proof fn lemma_set_bit(s: u8)
    by (bit_vector)
    ensures
        (s | 4u8) & 4u8 == 4u8,
        ((s | 4u8) & 2u8 == 2u8) == (s & 2u8 == 2u8),
        ((s | 4u8) & 1u8 == 1u8) == (s & 1u8 == 1u8),
        (s | 2u8) & 2u8 == 2u8,
        ((s | 2u8) & 4u8 == 4u8) == (s & 4u8 == 4u8),
        ((s | 2u8) & 1u8 == 1u8) == (s & 1u8 == 1u8),
        (s | 1u8) & 1u8 == 1u8,
        ((s | 1u8) & 4u8 == 4u8) == (s & 4u8 == 4u8),
        ((s | 1u8) & 2u8 == 2u8) == (s & 2u8 == 2u8),
{
}

/// Clearing one flag bit leaves the other two as they were.
proof fn lemma_clear_bit(s: u8)
    by (bit_vector)
    ensures
        (s & !4u8) & 4u8 != 4u8,
        ((s & !4u8) & 2u8 == 2u8) == (s & 2u8 == 2u8),
        ((s & !4u8) & 1u8 == 1u8) == (s & 1u8 == 1u8),
        (s & !2u8) & 2u8 != 2u8,
        ((s & !2u8) & 4u8 == 4u8) == (s & 4u8 == 4u8),
        ((s & !2u8) & 1u8 == 1u8) == (s & 1u8 == 1u8),
        (s & !1u8) & 1u8 != 1u8,
        ((s & !1u8) & 4u8 == 4u8) == (s & 4u8 == 4u8),
        ((s & !1u8) & 2u8 == 2u8) == (s & 2u8 == 2u8),
{
}

impl Cell {
    /// A covered cell without mine or flag, with no mine around it.
    #[inline]
    pub fn new() -> (cell: Cell)
        ensures
            cell@ == (CellView { mined: false, covered: true, flagged: false, adjacent: 0 }),
    {
        assert(2u8 & 4u8 != 4u8 && 2u8 & 2u8 == 2u8 && 2u8 & 1u8 != 1u8) by (bit_vector);
        Cell { state: COVER_MASK, neighbor_mines: 0 }
    }

    /// Reveals the cell. Revealing a revealed cell changes nothing.
    #[inline]
    pub fn uncover(&mut self)
        ensures
            final(self)@ == (CellView { covered: false, ..old(self)@ }),
    {
        proof {
            lemma_clear_bit(self.state);
        }
        self.state &= !COVER_MASK;
    }

    /// Hides the cell again.
    #[inline]
    pub fn cover(&mut self)
        ensures
            final(self)@ == (CellView { covered: true, ..old(self)@ }),
    {
        proof {
            lemma_set_bit(self.state);
        }
        self.state |= COVER_MASK;
    }

    /// Puts a mine on the cell.
    #[inline]
    pub fn place_mine(&mut self)
        ensures
            final(self)@ == (CellView { mined: true, ..old(self)@ }),
    {
        proof {
            lemma_set_bit(self.state);
        }
        self.state |= MINE_MASK;
    }

    /// Takes the mine off the cell.
    #[inline]
    pub fn remove_mine(&mut self)
        ensures
            final(self)@ == (CellView { mined: false, ..old(self)@ }),
    {
        proof {
            lemma_clear_bit(self.state);
        }
        self.state &= !MINE_MASK;
    }

    /// Puts a flag on the cell.
    #[inline]
    pub fn place_flag(&mut self)
        ensures
            final(self)@ == (CellView { flagged: true, ..old(self)@ }),
    {
        proof {
            lemma_set_bit(self.state);
        }
        self.state |= FLAG_MASK;
    }

    /// Takes the flag off and touches nothing else: the mask is complemented
    /// before it is applied.
    #[inline]
    pub fn remove_flag(&mut self)
        ensures
            final(self)@ == (CellView { flagged: false, ..old(self)@ }),
    {
        proof {
            lemma_clear_bit(self.state);
        }
        self.state &= !FLAG_MASK;
    }

    /// Whether the cell carries a flag.
    #[inline]
    pub fn has_flag(&self) -> (b: bool)
        ensures
            b == self@.flagged,
    {
        (self.state & FLAG_MASK) == FLAG_MASK
    }

    /// Whether the cell holds a mine.
    #[inline]
    pub fn has_mine(&self) -> (b: bool)
        ensures
            b == self@.mined,
    {
        (self.state & MINE_MASK) == MINE_MASK
    }

    /// Whether the cell is still hidden.
    #[inline]
    pub fn is_covered(&self) -> (b: bool)
        ensures
            b == self@.covered,
    {
        (self.state & COVER_MASK) == COVER_MASK
    }

    /// The number of mines on the cells around this one.
    #[inline]
    pub fn get_neighbor_amount(&self) -> (n: i32)
        ensures
            n == self@.adjacent,
    {
        self.neighbor_mines as i32
    }

    /// Counts one more mine around the cell. The counter is a byte, so it
    /// must not be full.
    #[inline]
    pub fn increment(&mut self)
        requires
            old(self)@.adjacent < u8::MAX,
        ensures
            final(self)@ == (CellView { adjacent: old(self)@.adjacent + 1, ..old(self)@ }),
    {
        self.neighbor_mines += 1;
    }
}

} // verus!
