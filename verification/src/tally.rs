//! Counting the cells of a board that have a property, in row-major order.

use vstd::prelude::*;
use crate::board::BoardView;
use crate::cell::CellView;

verus! {

/// How many of the first `n` flags are set.
pub open spec fn count_upto(flags: Seq<bool>, n: int) -> int
    decreases n,
{
    if n <= 0 {
        0
    } else {
        count_upto(flags, n - 1) + if flags[n - 1] {
            1int
        } else {
            0int
        }
    }
}

/// How many of the flags are set.
pub open spec fn count(flags: Seq<bool>) -> int {
    count_upto(flags, flags.len() as int)
}

/// Among `n` flags between none and `n` are set.
pub proof fn lemma_count_bounds(flags: Seq<bool>, n: int)
    requires
        0 <= n,
    ensures
        0 <= count_upto(flags, n) <= n,
    decreases n,
{
    if n > 0 {
        lemma_count_bounds(flags, n - 1);
    }
}

/// Where none of the first `n` flags is set the count is zero.
pub proof fn lemma_count_none(flags: Seq<bool>, n: int)
    requires
        forall|i: int| 0 <= i < n ==> !flags[i],
    ensures
        count_upto(flags, n) == 0,
    decreases n,
{
    if n > 0 {
        lemma_count_none(flags, n - 1);
    }
}

/// A longer prefix holds at least as many set flags, and at most as many
/// more as it is longer.
pub proof fn lemma_count_monotone(flags: Seq<bool>, m: int, n: int)
    requires
        0 <= m <= n,
    ensures
        count_upto(flags, m) <= count_upto(flags, n) <= count_upto(flags, m) + (n - m),
    decreases n - m,
{
    if m < n {
        lemma_count_monotone(flags, m, n - 1);
    }
}

/// Changing one flag changes the count by that flag alone.
pub proof fn lemma_count_update(flags: Seq<bool>, k: int, value: bool, n: int)
    requires
        0 <= k < flags.len(),
        0 <= n <= flags.len(),
    ensures
        count_upto(flags.update(k, value), n) == count_upto(flags, n) + if k < n && value
            && !flags[k] {
            1int
        } else if k < n && !value && flags[k] {
            -1int
        } else {
            0int
        },
    decreases n,
{
    if n > 0 {
        lemma_count_update(flags, k, value, n - 1);
    }
}

impl BoardView {
    /// The cell at a position in row-major order.
    pub open spec fn at_serial(self, serial: int) -> CellView {
        self.at(self.coord_of(serial).0, self.coord_of(serial).1)
    }

    /// For each position in row-major order, whether its cell holds a mine.
    pub open spec fn mine_flags(self) -> Seq<bool> {
        Seq::new(self.total() as nat, |serial: int| self.at_serial(serial).mined)
    }

    /// For each position in row-major order, whether its cell is covered.
    pub open spec fn cover_flags(self) -> Seq<bool> {
        Seq::new(self.total() as nat, |serial: int| self.at_serial(serial).covered)
    }

    /// The number of cells that hold a mine.
    pub open spec fn mine_count(self) -> int {
        count(self.mine_flags())
    }

    /// The number of cells that are covered.
    pub open spec fn covered_count(self) -> int {
        count(self.cover_flags())
    }

    /// The cells that hold a mine.
    pub open spec fn mines(self) -> Set<(int, int)> {
        Set::new(|p: (int, int)| self.mine_at(p.0, p.1))
    }

    /// The cells that hold a mine and come before position `n` in
    /// row-major order.
    pub open spec fn mines_before(self, n: int) -> Set<(int, int)> {
        Set::new(|p: (int, int)| self.mine_at(p.0, p.1) && self.serial_of(p.0, p.1) < n)
    }

    /// Counting the mines position by position counts the cells that hold
    /// one.
    proof fn lemma_mines_before(self, n: int)
        requires
            self.shaped(),
            0 <= n <= self.total(),
        ensures
            self.mines_before(n).finite(),
            self.mines_before(n).len() == count_upto(self.mine_flags(), n),
        decreases n,
    {
        if n == 0 {
            assert forall|p: (int, int)| !self.mines_before(0).contains(p) by {
                if self.in_bounds(p.0, p.1) {
                    self.lemma_serial_of(p.0, p.1);
                }
            }
            assert(self.mines_before(0) =~= Set::empty());
        } else {
            self.lemma_mines_before(n - 1);
            self.lemma_coord_of(n - 1);
            let here = self.coord_of(n - 1);
            let fewer = self.mines_before(n - 1);
            assert forall|p: (int, int)|
                self.mines_before(n).contains(p) <==> fewer.contains(p) || (p == here
                    && self.at(here.0, here.1).mined) by {
                if self.in_bounds(p.0, p.1) {
                    self.lemma_serial_of(p.0, p.1);
                }
            }
            if self.at(here.0, here.1).mined {
                assert(self.mines_before(n) =~= fewer.insert(here));
                assert(!fewer.contains(here));
            } else {
                assert(self.mines_before(n) =~= fewer);
            }
        }
    }

    /// `mine_count` is the number of cells that hold a mine.
    pub proof fn lemma_mine_count(self)
        requires
            self.shaped(),
        ensures
            self.mines().finite(),
            self.mines().len() == self.mine_count(),
    {
        self.lemma_total();
        self.lemma_mines_before(self.total());
        assert forall|p: (int, int)| self.mines().contains(p) implies self.mines_before(
            self.total(),
        ).contains(p) by {
            self.lemma_serial_of(p.0, p.1);
        }
        assert(self.mines() =~= self.mines_before(self.total()));
    }

    /// The number of cells is positive and the flags have that length.
    pub proof fn lemma_total(self)
        requires
            self.shaped(),
        ensures
            0 < self.total() <= i32::MAX,
            self.width <= i32::MAX,
            self.height <= i32::MAX,
            self.mine_flags().len() == self.total(),
            self.cover_flags().len() == self.total(),
            0 <= self.mine_count() <= self.total(),
            0 <= self.covered_count() <= self.total(),
    {
        assert(self.width * self.height >= self.width && self.width * self.height >= self.height)
            by (nonlinear_arith)
            requires
                self.width > 0,
                self.height > 0,
        ;
        lemma_count_bounds(self.mine_flags(), self.total());
        lemma_count_bounds(self.cover_flags(), self.total());
    }

    /// Replacing one cell replaces it at its position in row-major order
    /// and nowhere else.
    pub proof fn lemma_with_cell(self, x: int, y: int, cell: CellView)
        requires
            self.shaped(),
            self.in_bounds(x, y),
        ensures
            self.with_cell(x, y, cell).shaped(),
            self.with_cell(x, y, cell).width == self.width,
            self.with_cell(x, y, cell).height == self.height,
            self.with_cell(x, y, cell).at(x, y) == cell,
            forall|cx: int, cy: int|
                self.in_bounds(cx, cy) && (cx, cy) != (x, y) ==> #[trigger] self.with_cell(
                    x,
                    y,
                    cell,
                ).at(cx, cy) == self.at(cx, cy),
            self.with_cell(x, y, cell).mine_flags() == self.mine_flags().update(
                self.serial_of(x, y),
                cell.mined,
            ),
            self.with_cell(x, y, cell).cover_flags() == self.cover_flags().update(
                self.serial_of(x, y),
                cell.covered,
            ),
    {
        let changed = self.with_cell(x, y, cell);
        assert(self.cells[y].len() == self.width);
        assert forall|r: int| 0 <= r < changed.height implies (#[trigger] changed.cells[r]).len()
            == changed.width by {
            assert(self.cells[r].len() == self.width);
        }
        self.lemma_total();
        self.lemma_serial_of(x, y);
        let k = self.serial_of(x, y);
        assert forall|serial: int| 0 <= serial < self.total() implies changed.at_serial(serial)
            == if serial == k {
            cell
        } else {
            self.at_serial(serial)
        } by {
            self.lemma_coord_of(serial);
        }
        assert(changed.mine_flags() =~= self.mine_flags().update(k, cell.mined));
        assert(changed.cover_flags() =~= self.cover_flags().update(k, cell.covered));
    }
}

} // verus!
