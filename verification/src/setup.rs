//! Laying the mines: by chance, or from a given sequence of draws.

use vstd::prelude::*;
use crate::board::{as_points, one_if, Board, BoardView};
use crate::cell::CellView;
use crate::random::{draw_between, thread_rng_handle};
use crate::tally::{count_upto, lemma_count_monotone, lemma_count_none, lemma_count_update};

verus! {

/// Why no board can be made of the values given.
#[derive(Clone, Copy, Debug, PartialEq, Eq)]
pub enum ConfigError {
    /// The width or the height is not positive, or the number of cells is
    /// beyond `i32::MAX`.
    InvalidDimensions,
    /// The number of mines is negative.
    NegativeMines,
    /// There are more mines than cells.
    TooManyMines,
    /// The draws given name fewer distinct cells than there are mines to
    /// lay.
    DrawsExhausted,
}

/// How often a draw that hits a mine is repeated before the mine is put on
/// a free cell found by counting.
pub const MAX_REDRAWS: u32 = 64;

/// Whether a board of this extent can be held.
pub open spec fn valid_dimensions(width: int, height: int) -> bool {
    width > 0 && height > 0 && width * height <= i32::MAX
}

/// What is wrong with the extent and the number of mines, if anything.
pub open spec fn config_fault(width: int, height: int, mines: int) -> Option<ConfigError> {
    if !valid_dimensions(width, height) {
        Some(ConfigError::InvalidDimensions)
    } else if mines < 0 {
        Some(ConfigError::NegativeMines)
    } else if mines > width * height {
        Some(ConfigError::TooManyMines)
    } else {
        None
    }
}

/// Whether one of the first `n` draws is `serial`.
pub open spec fn drawn_before(draws: Seq<i32>, n: int, serial: int) -> bool {
    exists|j: int| 0 <= j < n && #[trigger] draws[j] == serial
}

/// For each draw, whether it lays a mine where draws that miss the board or
/// repeat an earlier draw are passed over: it names a cell, and no earlier
/// draw named that cell.
pub open spec fn fresh_flags(draws: Seq<i32>, total: int) -> Seq<bool> {
    Seq::new(
        draws.len(),
        |i: int| 0 <= draws[i] < total && !drawn_before(draws, i, draws[i] as int),
    )
}

/// How many of the first `n` draws name a cell that no earlier draw named.
pub open spec fn accepted_upto(draws: Seq<i32>, total: int, n: int) -> int {
    count_upto(fresh_flags(draws, total), n)
}

/// Whether the draws, taken in order until `mines` distinct cells were
/// named, name the cell at position `serial`.
pub open spec fn laid_by(draws: Seq<i32>, total: int, mines: int, serial: int) -> bool {
    exists|i: int|
        0 <= i < draws.len() && #[trigger] draws[i] == serial && accepted_upto(draws, total, i)
            < mines
}

/// What is wrong with the extent, the number of mines and the draws, if
/// anything.
pub open spec fn draws_fault(width: int, height: int, mines: int, draws: Seq<i32>) -> Option<
    ConfigError,
> {
    if config_fault(width, height, mines) is Some {
        config_fault(width, height, mines)
    } else if accepted_upto(draws, width * height, draws.len() as int) < mines {
        Some(ConfigError::DrawsExhausted)
    } else {
        None
    }
}

/// Tests the extent and the number of mines.
pub fn check_config(width: i32, height: i32, mines: i32) -> (fault: Option<ConfigError>)
    ensures
        fault == config_fault(width as int, height as int, mines as int),
{
    if width <= 0 || height <= 0 {
        return Some(ConfigError::InvalidDimensions);
    }
    assert(0 < width * height <= 0x7fff_ffff * 0x7fff_ffff) by (nonlinear_arith)
        requires
            0 < width <= 0x7fff_ffff,
            0 < height <= 0x7fff_ffff,
    ;
    let cells: i64 = (width as i64) * (height as i64);
    if cells > i32::MAX as i64 {
        Some(ConfigError::InvalidDimensions)
    } else if mines < 0 {
        Some(ConfigError::NegativeMines)
    } else if mines as i64 > cells {
        Some(ConfigError::TooManyMines)
    } else {
        None
    }
}

impl BoardView {
    /// Every cell is covered and none carries a flag.
    pub open spec fn untouched(self) -> bool {
        forall|x: int, y: int|
            self.in_bounds(x, y) ==> (#[trigger] self.at(x, y)).covered && !self.at(x, y).flagged
    }

    /// The board is the untouched board of this extent whose mines lie
    /// where the draws, taken in order until `mines` distinct cells were
    /// named, put them.
    pub open spec fn is_layout(self, width: int, height: int, mines: int, draws: Seq<i32>) -> bool {
        &&& self.wf()
        &&& self.width == width
        &&& self.height == height
        &&& self.untouched()
        &&& forall|x: int, y: int|
            self.in_bounds(x, y) ==> (#[trigger] self.at(x, y)).mined == laid_by(
                draws,
                width * height,
                mines,
                self.serial_of(x, y),
            )
    }

    /// A rectangle without mines whose cells count no mine is well-formed
    /// and holds no mine.
    pub proof fn lemma_no_mines(self)
        requires
            self.shaped(),
            forall|x: int, y: int|
                self.in_bounds(x, y) ==> !(#[trigger] self.at(x, y)).mined && self.at(
                    x,
                    y,
                ).adjacent == 0,
        ensures
            self.wf(),
            self.mine_count() == 0,
    {
        self.lemma_total();
        assert forall|serial: int|
            0 <= serial < self.total() implies !self.mine_flags()[serial] by {
            self.lemma_coord_of(serial);
        }
        lemma_count_none(self.mine_flags(), self.total());
    }

    /// What one draw does to the board: a draw that names a free cell lays
    /// a mine there, any other draw changes nothing.
    pub open spec fn after_draw(self, serial: int) -> BoardView {
        if 0 <= serial < self.total() && !self.at_serial(serial).mined {
            self.with_mine(self.coord_of(serial).0, self.coord_of(serial).1)
        } else {
            self
        }
    }

    /// Where the mines lie on the cells that the first `i` draws name, one
    /// more draw keeps it so, and lays a mine just when it names a cell that
    /// no earlier draw named.
    proof fn lemma_draw_step(self, draws: Seq<i32>, i: int)
        requires
            self.wf(),
            self.untouched(),
            0 <= i < draws.len(),
            forall|x: int, y: int|
                self.in_bounds(x, y) ==> (#[trigger] self.at(x, y)).mined == drawn_before(
                    draws,
                    i,
                    self.serial_of(x, y),
                ),
        ensures
            self.after_draw(draws[i] as int).wf(),
            self.after_draw(draws[i] as int).untouched(),
            self.after_draw(draws[i] as int).width == self.width,
            self.after_draw(draws[i] as int).height == self.height,
            fresh_flags(draws, self.total())[i] == (0 <= draws[i] < self.total()
                && !self.at_serial(draws[i] as int).mined),
            self.after_draw(draws[i] as int).mine_count() == self.mine_count() + if fresh_flags(
                draws,
                self.total(),
            )[i] {
                1int
            } else {
                0int
            },
            forall|x: int, y: int|
                self.in_bounds(x, y) ==> (#[trigger] self.after_draw(draws[i] as int).at(
                    x,
                    y,
                )).mined == drawn_before(draws, i + 1, self.serial_of(x, y)),
    {
        let serial = draws[i] as int;
        let after = self.after_draw(serial);
        let hit = self.coord_of(serial);
        if 0 <= serial < self.total() {
            self.lemma_coord_of(serial);
            assert(self.at(hit.0, hit.1).mined == drawn_before(draws, i, serial));
            if !self.at_serial(serial).mined {
                self.lemma_with_mine(hit.0, hit.1);
            }
        }
        assert forall|x: int, y: int| self.in_bounds(x, y) implies (#[trigger] after.at(
            x,
            y,
        )).mined == drawn_before(draws, i + 1, self.serial_of(x, y)) by {
            self.lemma_serial_of(x, y);
            let s = self.serial_of(x, y);
            assert(self.at(x, y).mined == drawn_before(draws, i, s));
            if drawn_before(draws, i, s) {
                let j = choose|j: int| 0 <= j < i && #[trigger] draws[j] == s;
                assert(0 <= j < i + 1 && draws[j] == s);
            }
            if drawn_before(draws, i + 1, s) {
                let j = choose|j: int| 0 <= j < i + 1 && #[trigger] draws[j] == s;
                if j < i {
                    assert(drawn_before(draws, i, s));
                }
            }
            if serial == s {
                assert(draws[i] == s);
            }
        }
    }

    /// Once the draws have laid all the mines, or have all been taken, the
    /// mines lie where `laid_by` says.
    proof fn lemma_draws_done(self, draws: Seq<i32>, mines: int, i: int)
        requires
            self.shaped(),
            0 <= i <= draws.len(),
            accepted_upto(draws, self.total(), i) == mines || i == draws.len(),
            forall|j: int| 0 <= j < i ==> accepted_upto(draws, self.total(), j) < mines,
            forall|x: int, y: int|
                self.in_bounds(x, y) ==> (#[trigger] self.at(x, y)).mined == drawn_before(
                    draws,
                    i,
                    self.serial_of(x, y),
                ),
        ensures
            accepted_upto(draws, self.total(), i) <= accepted_upto(
                draws,
                self.total(),
                draws.len() as int,
            ),
            forall|x: int, y: int|
                self.in_bounds(x, y) ==> (#[trigger] self.at(x, y)).mined == laid_by(
                    draws,
                    self.total(),
                    mines,
                    self.serial_of(x, y),
                ),
    {
        let total = self.total();
        lemma_count_monotone(fresh_flags(draws, total), i, draws.len() as int);
        assert forall|x: int, y: int| self.in_bounds(x, y) implies (#[trigger] self.at(
            x,
            y,
        )).mined == laid_by(draws, total, mines, self.serial_of(x, y)) by {
            let s = self.serial_of(x, y);
            if drawn_before(draws, i, s) {
                let j = choose|j: int| 0 <= j < i && #[trigger] draws[j] == s;
                assert(accepted_upto(draws, total, j) < mines);
            }
            if laid_by(draws, total, mines, s) {
                let j = choose|j: int|
                    0 <= j < draws.len() && #[trigger] draws[j] == s && accepted_upto(
                        draws,
                        total,
                        j,
                    ) < mines;
                if j >= i {
                    lemma_count_monotone(fresh_flags(draws, total), i, j);
                }
                assert(drawn_before(draws, i, s));
            }
        }
    }

    /// The same extent, number of mines and draws give the same board:
    /// two boards laid out from them are one board.
    pub proof fn lemma_layout_unique(
        self,
        other: BoardView,
        width: int,
        height: int,
        mines: int,
        draws: Seq<i32>,
    )
        requires
            self.is_layout(width, height, mines, draws),
            other.is_layout(width, height, mines, draws),
        ensures
            self == other,
    {
        assert forall|x: int, y: int| self.in_bounds(x, y) implies self.at(x, y) == other.at(
            x,
            y,
        ) by {
            assert(self.at(x, y).adjacent == self.adjacent_mines(x, y));
            assert(other.at(x, y).adjacent == other.adjacent_mines(x, y));
            self.lemma_same_mines_around(other, x, y);
        }
        assert forall|y: int| 0 <= y < height implies #[trigger] self.cells[y]
            =~= other.cells[y] by {
            assert forall|x: int| 0 <= x < width implies self.cells[y][x] == other.cells[y][x] by {
                assert(self.at(x, y) == other.at(x, y));
            }
        }
        assert(self.cells =~= other.cells);
    }

    /// The board with each cell's count raised by one where `points` holds
    /// the cell.
    pub open spec fn with_bumps(self, points: Seq<(int, int)>) -> BoardView {
        BoardView {
            cells: Seq::new(
                self.height as nat,
                |y: int|
                    Seq::new(
                        self.width as nat,
                        |x: int|
                            CellView {
                                adjacent: self.at(x, y).adjacent + one_if(points.contains((x, y))),
                                ..self.at(x, y)
                            },
                    ),
            ),
            ..self
        }
    }

    /// The board once a mine lies on `(x, y)` and the cells around it have
    /// counted it.
    pub open spec fn with_mine(self, x: int, y: int) -> BoardView {
        BoardView {
            cells: Seq::new(
                self.height as nat,
                |r: int|
                    Seq::new(
                        self.width as nat,
                        |c: int|
                            CellView {
                                mined: self.at(c, r).mined || (c, r) == (x, y),
                                adjacent: self.at(c, r).adjacent + one_if(
                                    self.around(x, y, (c, r)),
                                ),
                                ..self.at(c, r)
                            },
                    ),
            ),
            ..self
        }
    }

    /// One more bump, on a cell that was not bumped yet.
    proof fn lemma_bump_step(self, points: Seq<(int, int)>, i: int)
        requires
            self.shaped(),
            0 <= i < points.len(),
            points.no_duplicates(),
            self.in_bounds(points[i].0, points[i].1),
        ensures
            self.with_bumps(points.take(i)).at(points[i].0, points[i].1) == self.at(
                points[i].0,
                points[i].1,
            ),
            self.with_bumps(points.take(i)).with_cell(
                points[i].0,
                points[i].1,
                CellView {
                    adjacent: self.at(points[i].0, points[i].1).adjacent + 1,
                    ..self.at(points[i].0, points[i].1)
                },
            ) == self.with_bumps(points.take(i + 1)),
    {
        let p = points[i];
        let before = self.with_bumps(points.take(i));
        let after = self.with_bumps(points.take(i + 1));
        let stepped = before.with_cell(
            p.0,
            p.1,
            CellView { adjacent: self.at(p.0, p.1).adjacent + 1, ..self.at(p.0, p.1) },
        );
        let shorter = points.take(i);
        let longer = points.take(i + 1);
        assert(!shorter.contains(p)) by {
            if shorter.contains(p) {
                let j = choose|j: int| 0 <= j < shorter.len() && shorter[j] == p;
                assert(points[j] == points[i]);
            }
        }
        assert forall|q: (int, int)| longer.contains(q) <==> shorter.contains(q) || q == p by {
            if longer.contains(q) {
                let j = choose|j: int| 0 <= j < longer.len() && longer[j] == q;
                if j < i {
                    assert(shorter[j] == q);
                }
            }
            if shorter.contains(q) {
                let j = choose|j: int| 0 <= j < shorter.len() && shorter[j] == q;
                assert(longer[j] == q);
            }
            if q == p {
                assert(longer[i] == q);
            }
        }
        assert(self.cells[p.1].len() == self.width);
        assert forall|y: int| 0 <= y < self.height implies #[trigger] stepped.cells[y]
            =~= after.cells[y] by {
            assert forall|x: int| 0 <= x < self.width implies stepped.cells[y][x]
                == after.cells[y][x] by {
                assert(longer.contains((x, y)) <==> shorter.contains((x, y)) || (x, y) == p);
            }
        }
        assert(stepped.cells =~= after.cells);
    }

    /// Where the mines lie once one more was laid.
    proof fn lemma_mine_at_after(self, x: int, y: int, a: int, b: int)
        requires
            self.shaped(),
            self.in_bounds(x, y),
        ensures
            self.with_mine(x, y).mine_at(a, b) == (self.mine_at(a, b) || (a, b) == (x, y)),
    {
    }

    /// A mine laid on a free cell is counted by the cells around it and by
    /// no other.
    proof fn lemma_adjacent_after_mine(self, x: int, y: int, c: int, r: int)
        requires
            self.shaped(),
            self.in_bounds(x, y),
            !self.at(x, y).mined,
            self.in_bounds(c, r),
        ensures
            self.with_mine(x, y).adjacent_mines(c, r) == self.adjacent_mines(c, r) + one_if(
                self.around(x, y, (c, r)),
            ),
    {
        self.lemma_mine_at_after(x, y, c - 1, r - 1);
        self.lemma_mine_at_after(x, y, c, r - 1);
        self.lemma_mine_at_after(x, y, c + 1, r - 1);
        self.lemma_mine_at_after(x, y, c - 1, r);
        self.lemma_mine_at_after(x, y, c + 1, r);
        self.lemma_mine_at_after(x, y, c - 1, r + 1);
        self.lemma_mine_at_after(x, y, c, r + 1);
        self.lemma_mine_at_after(x, y, c + 1, r + 1);
    }

    /// A mine laid on a free cell of a well-formed board leaves the board
    /// well-formed, with one mine more.
    pub proof fn lemma_with_mine(self, x: int, y: int)
        requires
            self.wf(),
            self.in_bounds(x, y),
            !self.at(x, y).mined,
        ensures
            self.with_mine(x, y).wf(),
            self.with_mine(x, y).mine_count() == self.mine_count() + 1,
            self.with_mine(x, y).cover_flags() == self.cover_flags(),
    {
        let laid = self.with_mine(x, y);
        assert forall|c: int, r: int| laid.in_bounds(c, r) implies (#[trigger] laid.at(
            c,
            r,
        )).adjacent == laid.adjacent_mines(c, r) by {
            assert(self.at(c, r).adjacent == self.adjacent_mines(c, r));
            self.lemma_adjacent_after_mine(x, y, c, r);
        }
        self.lemma_total();
        self.lemma_serial_of(x, y);
        let k = self.serial_of(x, y);
        assert forall|serial: int| 0 <= serial < self.total() implies laid.at_serial(serial).mined
            == (self.at_serial(serial).mined || serial == k) && laid.at_serial(serial).covered
            == self.at_serial(serial).covered by {
            self.lemma_coord_of(serial);
        }
        assert(laid.mine_flags() =~= self.mine_flags().update(k, true));
        assert(laid.cover_flags() =~= self.cover_flags());
        lemma_count_update(self.mine_flags(), k, true, self.total());
    }
}

impl Board {
    /// Lays a mine on the cell at position `serial` in row-major order,
    /// unless one lies there already, and says whether it did. The cells
    /// around a new mine count it.
    pub(crate) fn place_mine(&mut self, serial: i32) -> (placed: bool)
        requires
            old(self).wf(),
            0 <= serial < old(self)@.total(),
        ensures
            final(self).wf(),
            placed == !old(self)@.at_serial(serial as int).mined,
            placed ==> final(self)@ == old(self)@.with_mine(
                old(self)@.coord_of(serial as int).0,
                old(self)@.coord_of(serial as int).1,
            ),
            !placed ==> final(self)@ == old(self)@,
    {
        let ghost before = self@;
        let (x, y) = self.serial_to_coord(serial);
        if self.cell(x, y).has_mine() {
            return false;
        }
        self.mine_cell(x, y);
        let ghost mid = self@;
        let ghost points = before.all_adjacent(x as int, y as int);
        proof {
            before.lemma_with_cell(
                x as int,
                y as int,
                CellView { mined: true, ..before.at(x as int, y as int) },
            );
            before.lemma_all_adjacent(x as int, y as int);
            assert(mid.all_adjacent(x as int, y as int) == points);
            assert(mid.with_bumps(points.take(0)).cells =~~= mid.cells);
        }
        let list = self.cells_around(x, y);
        let mut i: usize = 0;
        while i < list.len()
            invariant
                0 <= i <= list.len(),
                as_points(list@) == points,
                points.no_duplicates(),
                forall|q: (int, int)| #[trigger]
                    points.contains(q) <==> before.around(x as int, y as int, q),
                self.shaped(),
                mid.shaped(),
                mid.width == before.width,
                mid.height == before.height,
                before.wf(),
                before.in_bounds(x as int, y as int),
                forall|cx: int, cy: int|
                    before.in_bounds(cx, cy) ==> (#[trigger] mid.at(cx, cy)).adjacent
                        == before.at(cx, cy).adjacent,
                self@ == mid.with_bumps(points.take(i as int)),
            decreases list.len() - i,
        {
            let (cx, cy) = list[i];
            proof {
                assert(points[i as int] == (cx as int, cy as int));
                assert(points.contains(points[i as int]));
                mid.lemma_bump_step(points, i as int);
                assert(before.at(cx as int, cy as int).adjacent == before.adjacent_mines(
                    cx as int,
                    cy as int,
                ));
            }
            self.bump_cell(cx, cy);
            i += 1;
        }
        proof {
            assert(points.take(list.len() as int) =~= points);
            let laid = before.with_mine(x as int, y as int);
            assert forall|r: int| 0 <= r < before.height implies #[trigger] self@.cells[r]
                =~= laid.cells[r] by {
                assert forall|c: int| 0 <= c < before.width implies self@.cells[r][c]
                    == laid.cells[r][c] by {
                    assert(points.contains((c, r)) <==> before.around(
                        x as int,
                        y as int,
                        (c, r),
                    ));
                    if (c, r) != (x as int, y as int) {
                        assert(mid.at(c, r) == before.at(c, r));
                    }
                }
            }
            assert(self@.cells =~= laid.cells);
            before.lemma_with_mine(x as int, y as int);
        }
        true
    }

    /// The position in row-major order of the free cell that has `k` free
    /// cells before it.
    pub(crate) fn nth_free(&self, k: i32) -> (serial: i32)
        requires
            self.wf(),
            0 <= k < self@.total() - self@.mine_count(),
        ensures
            0 <= serial < self@.total(),
            !self@.at_serial(serial as int).mined,
            serial - count_upto(self@.mine_flags(), serial as int) == k,
    {
        let total = self.cell_count();
        let mut serial: i32 = 0;
        let mut seen: i32 = 0;
        proof {
            self@.lemma_total();
        }
        loop
            invariant
                self.wf(),
                total == self@.total(),
                0 <= serial < total,
                0 <= seen <= k,
                k < total - self@.mine_count(),
                seen == serial - count_upto(self@.mine_flags(), serial as int),
            decreases total - serial,
        {
            let (x, y) = self.serial_to_coord(serial);
            if !self.cell(x, y).has_mine() {
                if seen == k {
                    return serial;
                }
                seen += 1;
            }
            proof {
                lemma_count_monotone(self@.mine_flags(), serial + 1, total as int);
            }
            serial += 1;
        }
    }

    /// A board of covered cells on which `mines` mines lie on cells chosen
    /// by chance.
    ///
    /// Each mine goes to the cell named by a position drawn among all
    /// cells; a draw that hits a mine is repeated. After `MAX_REDRAWS`
    /// draws that hit a mine, a number is drawn among the free cells and
    /// the mine goes to the free cell of that rank, so every free cell stays
    /// as likely as any other and the work is bounded.
    pub fn new(width: i32, height: i32, mines: i32) -> (made: Result<Board, ConfigError>)
        ensures
            made is Ok <==> config_fault(width as int, height as int, mines as int) is None,
            made matches Err(e) ==> config_fault(width as int, height as int, mines as int)
                == Some(e),
            made matches Ok(board) ==> {
                &&& board.wf()
                &&& board@.width == width
                &&& board@.height == height
                &&& board@.mine_count() == mines
                &&& board@.mines().finite()
                &&& board@.mines().len() == mines
                &&& board@.untouched()
            },
    {
        if let Some(fault) = check_config(width, height, mines) {
            return Err(fault);
        }
        let mut board = Board::blank(width, height);
        proof {
            board@.lemma_total();
            board@.lemma_no_mines();
        }
        let total = board.cell_count();
        let mut rng = thread_rng_handle();
        let mut placed: i32 = 0;
        while placed < mines
            invariant
                board.wf(),
                board@.width == width,
                board@.height == height,
                board@.untouched(),
                total == board@.total(),
                0 <= placed <= mines <= total,
                board@.mine_count() == placed,
            decreases mines - placed,
        {
            let mut done = false;
            let mut tries: u32 = 0;
            while !done && tries < MAX_REDRAWS
                invariant
                    board.wf(),
                    board@.width == width,
                    board@.height == height,
                    board@.untouched(),
                    total == board@.total(),
                    0 < total,
                    tries <= MAX_REDRAWS,
                    board@.mine_count() == placed + if done {
                        1int
                    } else {
                        0int
                    },
                decreases MAX_REDRAWS - tries + if done {
                    0int
                } else {
                    1int
                },
            {
                let serial = draw_between(&mut rng, 0, total);
                proof {
                    board@.lemma_coord_of(serial as int);
                    if !board@.at_serial(serial as int).mined {
                        board@.lemma_with_mine(
                            board@.coord_of(serial as int).0,
                            board@.coord_of(serial as int).1,
                        );
                    }
                }
                done = board.place_mine(serial);
                tries += 1;
            }
            if !done {
                let rank = draw_between(&mut rng, 0, total - placed);
                let serial = board.nth_free(rank);
                proof {
                    board@.lemma_coord_of(serial as int);
                    board@.lemma_with_mine(
                        board@.coord_of(serial as int).0,
                        board@.coord_of(serial as int).1,
                    );
                }
                board.place_mine(serial);
            }
            placed += 1;
        }
        proof {
            board@.lemma_mine_count();
        }
        Ok(board)
    }

    /// A board of covered cells whose mines are laid from given draws, so
    /// that the same draws give the same board.
    ///
    /// The draws are taken in order. Each names a cell by its position in
    /// row-major order and lays a mine there; a draw that names no cell, or
    /// a cell that holds a mine, is passed over. Once `mines` mines lie, the
    /// draws that are left are not looked at; draws that run out before give
    /// no board.
    pub fn from_draws(width: i32, height: i32, mines: i32, draws: &[i32]) -> (made: Result<
        Board,
        ConfigError,
    >)
        ensures
            made is Ok <==> draws_fault(width as int, height as int, mines as int, draws@)
                is None,
            made matches Err(e) ==> draws_fault(width as int, height as int, mines as int, draws@)
                == Some(e),
            made matches Ok(board) ==> {
                &&& board.wf()
                &&& board@.is_layout(width as int, height as int, mines as int, draws@)
                &&& board@.mine_count() == mines
                &&& board@.mines().finite()
                &&& board@.mines().len() == mines
            },
    {
        if let Some(fault) = check_config(width, height, mines) {
            return Err(fault);
        }
        let mut board = Board::blank(width, height);
        proof {
            board@.lemma_total();
            board@.lemma_no_mines();
        }
        let total = board.cell_count();
        let mut placed: i32 = 0;
        let mut i: usize = 0;
        while i < draws.len() && placed < mines
            invariant
                board.wf(),
                board@.width == width,
                board@.height == height,
                board@.untouched(),
                total == board@.total(),
                total == width * height,
                0 <= i <= draws.len(),
                0 <= placed <= mines <= total,
                board@.mine_count() == placed,
                placed == accepted_upto(draws@, total as int, i as int),
                forall|j: int| 0 <= j < i ==> accepted_upto(draws@, total as int, j) < mines,
                forall|x: int, y: int|
                    board@.in_bounds(x, y) ==> (#[trigger] board@.at(x, y)).mined == drawn_before(
                        draws@,
                        i as int,
                        board@.serial_of(x, y),
                    ),
            decreases draws.len() - i,
        {
            let ghost before = board@;
            let serial = draws[i];
            proof {
                before.lemma_draw_step(draws@, i as int);
            }
            if 0 <= serial && serial < total {
                if board.place_mine(serial) {
                    placed += 1;
                }
            }
            assert(board@ == before.after_draw(serial as int));
            i += 1;
        }
        if placed < mines {
            return Err(ConfigError::DrawsExhausted);
        }
        proof {
            board@.lemma_mine_count();
            board@.lemma_draws_done(draws@, mines as int, i as int);
        }
        Ok(board)
    }
}

} // verus!
