//! Revealing a cell: the loss that reveals everything, and the spread over
//! the cells around which no mine lies.

use vstd::prelude::*;
use crate::board::{as_points, orthogonal, Board, BoardView, OutOfBounds};
use crate::cell::CellView;
use crate::tally::lemma_count_update;

verus! {

impl BoardView {
    /// Whether the reveal can run along `path`: the path stays on the
    /// board, and each step leaves a cell around which no mine lies for a
    /// covered cell next to it along its row or its column.
    pub open spec fn is_cascade(self, path: Seq<(int, int)>) -> bool {
        &&& path.len() > 0
        &&& forall|i: int|
            0 <= i < path.len() ==> self.in_bounds((#[trigger] path[i]).0, path[i].1)
        &&& forall|i: int|
            0 <= i < path.len() - 1 ==> {
                &&& self.at((#[trigger] path[i]).0, path[i].1).adjacent == 0
                &&& orthogonal(path[i], path[i + 1])
                &&& self.at(path[i + 1].0, path[i + 1].1).covered
            }
    }

    /// Whether a reveal of `from` spreads to `to`.
    pub open spec fn cascades(self, from: (int, int), to: (int, int)) -> bool {
        exists|path: Seq<(int, int)>|
            #[trigger] self.is_cascade(path) && path.first() == from && path.last() == to
    }

    /// Whether a reveal of `(x, y)` reveals `(cx, cy)`: a mine under
    /// `(x, y)` reveals every cell, and without one the reveal spreads from
    /// `(x, y)`.
    pub open spec fn revealed_by(self, x: int, y: int, cx: int, cy: int) -> bool {
        self.at(x, y).mined || self.cascades((x, y), (cx, cy))
    }

    /// The board after a reveal of `(x, y)`.
    pub open spec fn after_uncover(self, x: int, y: int) -> BoardView {
        BoardView {
            cells: Seq::new(
                self.height as nat,
                |r: int|
                    Seq::new(
                        self.width as nat,
                        |c: int|
                            CellView {
                                covered: self.at(c, r).covered && !self.revealed_by(x, y, c, r),
                                ..self.at(c, r)
                            },
                    ),
            ),
            ..self
        }
    }

    /// Whether `other` is this board with some cells revealed.
    pub open spec fn reveals_to(self, other: BoardView) -> bool {
        &&& other.shaped()
        &&& other.width == self.width
        &&& other.height == self.height
        &&& forall|x: int, y: int|
            self.in_bounds(x, y) ==> {
                &&& (#[trigger] other.at(x, y)).mined == self.at(x, y).mined
                &&& other.at(x, y).flagged == self.at(x, y).flagged
                &&& other.at(x, y).adjacent == self.at(x, y).adjacent
                &&& other.at(x, y).covered ==> self.at(x, y).covered
            }
    }

    /// Revealing cells of a well-formed board leaves it well-formed.
    pub proof fn lemma_reveals_to_wf(self, other: BoardView)
        requires
            self.wf(),
            self.reveals_to(other),
        ensures
            other.wf(),
    {
        self.lemma_same_mines_wf(other);
    }

    /// A reveal changes nothing but which cells are covered, and covers
    /// none.
    pub proof fn lemma_after_uncover_reveals(self, x: int, y: int)
        requires
            self.shaped(),
        ensures
            self.reveals_to(self.after_uncover(x, y)),
    {
    }

    /// A reveal spreads from a cell to that cell.
    pub proof fn lemma_cascade_start(self, x: int, y: int)
        requires
            self.in_bounds(x, y),
        ensures
            self.cascades((x, y), (x, y)),
    {
        let path = seq![(x, y)];
        assert(self.is_cascade(path));
        assert(path.first() == (x, y) && path.last() == (x, y));
    }

    /// A reveal that has spread to a cell around which no mine lies spreads
    /// on to each covered cell next to it.
    pub proof fn lemma_cascade_step(self, from: (int, int), via: (int, int), to: (int, int))
        requires
            self.cascades(from, via),
            self.at(via.0, via.1).adjacent == 0,
            orthogonal(via, to),
            self.covered_at(to.0, to.1),
        ensures
            self.cascades(from, to),
    {
        let path = choose|path: Seq<(int, int)>|
            #[trigger] self.is_cascade(path) && path.first() == from && path.last() == via;
        let longer = path.push(to);
        assert forall|i: int| 0 <= i < longer.len() - 1 implies {
            &&& self.at((#[trigger] longer[i]).0, longer[i].1).adjacent == 0
            &&& orthogonal(longer[i], longer[i + 1])
            &&& self.at(longer[i + 1].0, longer[i + 1].1).covered
        } by {
            if i < path.len() - 1 {
                assert(longer[i] == path[i]);
                assert(longer[i + 1] == path[i + 1]);
            }
        }
        assert forall|i: int| 0 <= i < longer.len() implies self.in_bounds(
            (#[trigger] longer[i]).0,
            longer[i].1,
        ) by {
            if i < path.len() {
                assert(longer[i] == path[i]);
            }
        }
        assert(self.is_cascade(longer));
        assert(longer.first() == from && longer.last() == to);
    }

    /// A second reveal of the same cell changes nothing: the board after
    /// two reveals of `(x, y)` is the board after one.
    pub proof fn lemma_uncover_idempotent(self, x: int, y: int)
        requires
            self.shaped(),
            self.in_bounds(x, y),
        ensures
            self.after_uncover(x, y).after_uncover(x, y) == self.after_uncover(x, y),
    {
        let once = self.after_uncover(x, y);
        let twice = once.after_uncover(x, y);
        self.lemma_cascade_start(x, y);
        assert(!once.at(x, y).covered);
        assert forall|r: int| 0 <= r < self.height implies #[trigger] twice.cells[r]
            =~= once.cells[r] by {
            assert forall|c: int| 0 <= c < self.width implies twice.cells[r][c]
                == once.cells[r][c] by {
                assert(self.in_bounds(c, r));
                if once.at(c, r).covered && once.cascades((x, y), (c, r)) {
                    let path = choose|path: Seq<(int, int)>|
                        #[trigger] once.is_cascade(path) && path.first() == (x, y) && path.last()
                            == (c, r);
                    assert(path.len() >= 2);
                    let next = path[1];
                    assert(path[0] == (x, y));
                    assert(once.in_bounds(next.0, next.1));
                    let first = 0int;
                    assert(once.at(path[first].0, path[first].1).adjacent == 0 && orthogonal(
                        path[first],
                        path[first + 1],
                    ) && once.at(path[first + 1].0, path[first + 1].1).covered);
                    assert(self.at(next.0, next.1).covered);
                    self.lemma_cascade_step((x, y), (x, y), next);
                    assert(false);
                }
            }
        }
        assert(twice.cells =~= once.cells);
    }

    /// A reveal of a cell that holds a mine reveals every cell of the
    /// board.
    pub proof fn lemma_loss_reveals_all(self, x: int, y: int)
        requires
            self.shaped(),
            self.mine_at(x, y),
        ensures
            forall|cx: int, cy: int|
                self.in_bounds(cx, cy) ==> !(#[trigger] self.after_uncover(x, y).at(
                    cx,
                    cy,
                )).covered,
    {
    }

    /// On a well-formed board the reveal of a cell without a mine spreads to
    /// no mine: the cells that hold one stay as they were.
    pub proof fn lemma_safe_uncover_spares_mines(self, x: int, y: int, cx: int, cy: int)
        requires
            self.wf(),
            self.in_bounds(x, y),
            !self.at(x, y).mined,
            self.mine_at(cx, cy),
        ensures
            !self.revealed_by(x, y, cx, cy),
            self.after_uncover(x, y).at(cx, cy) == self.at(cx, cy),
    {
        if self.cascades((x, y), (cx, cy)) {
            let path = choose|path: Seq<(int, int)>|
                #[trigger] self.is_cascade(path) && path.first() == (x, y) && path.last() == (
                    cx,
                    cy,
                );
            assert(path.len() >= 2);
            let last = path.len() - 2;
            let via = path[last];
            assert(self.in_bounds(via.0, via.1));
            assert(self.at(via.0, via.1).adjacent == 0 && orthogonal(via, path[last + 1]));
            assert(self.at(via.0, via.1).adjacent == self.adjacent_mines(via.0, via.1));
            assert(false);
        }
    }

    /// The board with every cell revealed is the board after the reveal of
    /// a cell that holds a mine.
    proof fn lemma_loss(self, now: BoardView, x: int, y: int)
        requires
            self.shaped(),
            self.mine_at(x, y),
            self.reveals_to(now),
            forall|cx: int, cy: int|
                self.in_bounds(cx, cy) ==> !(#[trigger] now.at(cx, cy)).covered,
        ensures
            now == self.after_uncover(x, y),
    {
        let target = self.after_uncover(x, y);
        assert forall|r: int| 0 <= r < self.height implies #[trigger] now.cells[r]
            =~= target.cells[r] by {
            assert forall|c: int| 0 <= c < self.width implies now.cells[r][c]
                == target.cells[r][c] by {
                assert(self.in_bounds(c, r));
                assert(!now.at(c, r).covered);
            }
        }
        assert(now.cells =~= target.cells);
    }

    /// Whether the reveal has gone through `(x, y)`: it is revealed now,
    /// and it is the cell the reveal began at or was covered before.
    pub open spec fn visited(self, now: BoardView, start: (int, int), x: int, y: int) -> bool {
        !now.at(x, y).covered && (self.at(x, y).covered || (x, y) == start)
    }

    /// Where no mine lies around `(x, y)`, no covered cell is next to it.
    pub open spec fn closed_at(self, x: int, y: int) -> bool {
        self.at(x, y).adjacent == 0 ==> {
            &&& !self.covered_at(x - 1, y)
            &&& !self.covered_at(x + 1, y)
            &&& !self.covered_at(x, y - 1)
            &&& !self.covered_at(x, y + 1)
        }
    }

    /// What holds while the reveal of `start` on this board spreads, `now`
    /// being the board it has reached, `pending` the cells it has revealed
    /// and not yet looked around, and `open` the cell it is looking around,
    /// if any.
    pub open spec fn spreading(
        self,
        now: BoardView,
        start: (int, int),
        pending: Seq<(int, int)>,
        open: Option<(int, int)>,
    ) -> bool {
        &&& self.reveals_to(now)
        &&& self.in_bounds(start.0, start.1)
        &&& !now.at(start.0, start.1).covered
        &&& forall|x: int, y: int|
            self.in_bounds(x, y) && !(#[trigger] now.at(x, y)).covered && self.at(x, y).covered
                ==> self.cascades(start, (x, y))
        &&& forall|k: int|
            0 <= k < pending.len() ==> {
                &&& self.in_bounds((#[trigger] pending[k]).0, pending[k].1)
                &&& !now.at(pending[k].0, pending[k].1).covered
                &&& self.cascades(start, pending[k])
            }
        &&& forall|x: int, y: int|
            self.in_bounds(x, y) && self.visited(now, start, x, y) && !pending.contains((x, y))
                && open != Some((x, y)) ==> #[trigger] now.closed_at(x, y)
    }

    /// Once nothing is pending, every cell that the reveal spreads to has
    /// been gone through.
    proof fn lemma_spread_complete(
        self,
        now: BoardView,
        start: (int, int),
        path: Seq<(int, int)>,
        i: int,
    )
        requires
            self.spreading(now, start, Seq::empty(), None),
            self.is_cascade(path),
            path.first() == start,
            0 <= i < path.len(),
        ensures
            self.visited(now, start, path[i].0, path[i].1),
        decreases i,
    {
        if i > 0 {
            self.lemma_spread_complete(now, start, path, i - 1);
            let via = path[i - 1];
            let to = path[i];
            assert(self.in_bounds(via.0, via.1));
            assert(self.in_bounds(to.0, to.1));
            assert(self.at(via.0, via.1).adjacent == 0 && orthogonal(via, to) && self.at(
                to.0,
                to.1,
            ).covered);
            assert(now.at(via.0, via.1).adjacent == 0);
            assert(!Seq::<(int, int)>::empty().contains(via));
            assert(now.closed_at(via.0, via.1));
        }
    }

    /// Once nothing is pending, the board reached is the board after the
    /// reveal.
    proof fn lemma_spread_done(self, now: BoardView, start: (int, int))
        requires
            self.shaped(),
            !self.at(start.0, start.1).mined,
            self.spreading(now, start, Seq::empty(), None),
        ensures
            now == self.after_uncover(start.0, start.1),
    {
        let target = self.after_uncover(start.0, start.1);
        assert forall|r: int| 0 <= r < self.height implies #[trigger] now.cells[r]
            =~= target.cells[r] by {
            assert forall|c: int| 0 <= c < self.width implies now.cells[r][c]
                == target.cells[r][c] by {
                assert(self.in_bounds(c, r));
                assert(now.at(c, r).mined == self.at(c, r).mined);
                if self.cascades(start, (c, r)) {
                    let path = choose|path: Seq<(int, int)>|
                        #[trigger] self.is_cascade(path) && path.first() == start && path.last()
                            == (c, r);
                    self.lemma_spread_complete(now, start, path, path.len() - 1);
                }
            }
        }
        assert(now.cells =~= target.cells);
    }

    /// Revealing the cell the reveal begins at sets the spread going.
    proof fn lemma_spread_begin(self, start: (int, int))
        requires
            self.shaped(),
            self.in_bounds(start.0, start.1),
        ensures
            self.spreading(
                self.with_uncovered(start.0, start.1),
                start,
                seq![start],
                None,
            ),
    {
        let now = self.with_uncovered(start.0, start.1);
        self.lemma_with_cell(
            start.0,
            start.1,
            CellView { covered: false, ..self.at(start.0, start.1) },
        );
        self.lemma_cascade_start(start.0, start.1);
        let pending = seq![start];
        assert(pending[0] == start);
        assert forall|x: int, y: int|
            self.in_bounds(x, y) && self.visited(now, start, x, y) && !pending.contains((x, y))
                && None::<(int, int)> != Some((x, y)) implies #[trigger] now.closed_at(x, y) by {
            if (x, y) != start {
                assert(now.at(x, y) == self.at(x, y));
            }
        }
    }

    /// Taking a cell off the pending ones to look around it.
    proof fn lemma_spread_pop(self, now: BoardView, start: (int, int), pending: Seq<(int, int)>)
        requires
            pending.len() > 0,
            self.spreading(now, start, pending, None),
        ensures
            self.spreading(now, start, pending.drop_last(), Some(pending.last())),
    {
        let rest = pending.drop_last();
        assert forall|k: int| 0 <= k < rest.len() implies {
            &&& self.in_bounds((#[trigger] rest[k]).0, rest[k].1)
            &&& !now.at(rest[k].0, rest[k].1).covered
            &&& self.cascades(start, rest[k])
        } by {
            assert(rest[k] == pending[k]);
        }
        assert forall|x: int, y: int|
            self.in_bounds(x, y) && self.visited(now, start, x, y) && !rest.contains((x, y))
                && Some(pending.last()) != Some((x, y)) implies #[trigger] now.closed_at(x, y) by {
            if pending.contains((x, y)) {
                let k = choose|k: int| 0 <= k < pending.len() && pending[k] == (x, y);
                assert(rest[k] == (x, y));
            }
        }
    }

    /// Revealing a covered cell next to the cell that is looked around, and
    /// putting it with the pending ones.
    proof fn lemma_spread_push(
        self,
        now: BoardView,
        start: (int, int),
        pending: Seq<(int, int)>,
        via: (int, int),
        to: (int, int),
    )
        requires
            self.spreading(now, start, pending, Some(via)),
            self.in_bounds(via.0, via.1),
            self.cascades(start, via),
            now.at(via.0, via.1).adjacent == 0,
            orthogonal(via, to),
            now.covered_at(to.0, to.1),
        ensures
            self.spreading(
                now.with_uncovered(to.0, to.1),
                start,
                pending.push(to),
                Some(via),
            ),
    {
        let next = now.with_uncovered(to.0, to.1);
        let more = pending.push(to);
        now.lemma_with_cell(to.0, to.1, CellView { covered: false, ..now.at(to.0, to.1) });
        assert(self.at(via.0, via.1).adjacent == 0);
        assert(self.at(to.0, to.1).covered);
        self.lemma_cascade_step(start, via, to);
        assert forall|x: int, y: int| self.in_bounds(x, y) implies {
            &&& (#[trigger] next.at(x, y)).mined == self.at(x, y).mined
            &&& next.at(x, y).flagged == self.at(x, y).flagged
            &&& next.at(x, y).adjacent == self.at(x, y).adjacent
            &&& next.at(x, y).covered ==> self.at(x, y).covered
            &&& next.at(x, y).covered ==> now.at(x, y).covered
            &&& !next.at(x, y).covered && now.at(x, y).covered ==> (x, y) == to
        } by {
            if (x, y) != to {
                assert(next.at(x, y) == now.at(x, y));
            }
        }
        assert forall|k: int| 0 <= k < more.len() implies {
            &&& self.in_bounds((#[trigger] more[k]).0, more[k].1)
            &&& !next.at(more[k].0, more[k].1).covered
            &&& self.cascades(start, more[k])
        } by {
            if k < pending.len() {
                assert(more[k] == pending[k]);
            }
        }
        assert forall|x: int, y: int|
            self.in_bounds(x, y) && self.visited(next, start, x, y) && !more.contains((x, y))
                && Some(via) != Some((x, y)) implies #[trigger] next.closed_at(x, y) by {
            assert(more[pending.len() as int] == to);
            assert((x, y) != to);
            assert(next.at(x, y) == now.at(x, y));
            if pending.contains((x, y)) {
                let k = choose|k: int| 0 <= k < pending.len() && pending[k] == (x, y);
                assert(more[k] == (x, y));
            }
            assert(now.closed_at(x, y));
            assert(next.covered_at(x - 1, y) ==> now.covered_at(x - 1, y));
            assert(next.covered_at(x + 1, y) ==> now.covered_at(x + 1, y));
            assert(next.covered_at(x, y - 1) ==> now.covered_at(x, y - 1));
            assert(next.covered_at(x, y + 1) ==> now.covered_at(x, y + 1));
        }
    }

    /// Having looked around a cell.
    proof fn lemma_spread_close(
        self,
        now: BoardView,
        start: (int, int),
        pending: Seq<(int, int)>,
        via: (int, int),
    )
        requires
            self.spreading(now, start, pending, Some(via)),
            now.closed_at(via.0, via.1),
        ensures
            self.spreading(now, start, pending, None),
    {
    }

    /// Revealing a cell takes it off the covered ones, if it was one of
    /// them, and changes nothing else.
    proof fn lemma_uncover_one(self, x: int, y: int)
        requires
            self.shaped(),
            self.in_bounds(x, y),
        ensures
            self.reveals_to(self.with_uncovered(x, y)),
            self.with_uncovered(x, y).covered_count() == self.covered_count() - if self.at(
                x,
                y,
            ).covered {
                1int
            } else {
                0int
            },
            !self.with_uncovered(x, y).at(x, y).covered,
            forall|cx: int, cy: int|
                self.in_bounds(cx, cy) && (cx, cy) != (x, y) ==> #[trigger] self.with_uncovered(
                    x,
                    y,
                ).at(cx, cy) == self.at(cx, cy),
    {
        let cell = CellView { covered: false, ..self.at(x, y) };
        self.lemma_with_cell(x, y, cell);
        self.lemma_total();
        self.lemma_serial_of(x, y);
        self.lemma_coord_of(self.serial_of(x, y));
        lemma_count_update(self.cover_flags(), self.serial_of(x, y), false, self.total());
        let next = self.with_cell(x, y, cell);
        assert forall|cx: int, cy: int| self.in_bounds(cx, cy) implies {
            &&& (#[trigger] next.at(cx, cy)).mined == self.at(cx, cy).mined
            &&& next.at(cx, cy).flagged == self.at(cx, cy).flagged
            &&& next.at(cx, cy).adjacent == self.at(cx, cy).adjacent
            &&& next.at(cx, cy).covered ==> self.at(cx, cy).covered
        } by {
            if (cx, cy) != (x, y) {
                assert(next.at(cx, cy) == self.at(cx, cy));
            }
        }
    }

    /// Revealing cells one after the other reveals them all.
    proof fn lemma_reveals_to_chain(self, middle: BoardView, last: BoardView)
        requires
            self.reveals_to(middle),
            middle.reveals_to(last),
        ensures
            self.reveals_to(last),
    {
        assert forall|x: int, y: int| self.in_bounds(x, y) implies {
            &&& (#[trigger] last.at(x, y)).mined == self.at(x, y).mined
            &&& last.at(x, y).flagged == self.at(x, y).flagged
            &&& last.at(x, y).adjacent == self.at(x, y).adjacent
            &&& last.at(x, y).covered ==> self.at(x, y).covered
        } by {
            assert(middle.at(x, y).mined == self.at(x, y).mined);
        }
    }
}

impl Board {
    /// Reveals every cell.
    fn uncover_all(&mut self)
        requires
            old(self).shaped(),
        ensures
            final(self).shaped(),
            old(self)@.reveals_to(final(self)@),
            forall|x: int, y: int|
                old(self)@.in_bounds(x, y) ==> !(#[trigger] final(self)@.at(x, y)).covered,
    {
        let ghost before = self@;
        let width = self.width();
        let height = self.height();
        let mut y: i32 = 0;
        assert(before.reveals_to(before));
        while y < height
            invariant
                self.shaped(),
                before.reveals_to(self@),
                width == before.width,
                height == before.height,
                0 <= y <= height,
                forall|c: int, r: int|
                    before.in_bounds(c, r) && r < y ==> !(#[trigger] self@.at(c, r)).covered,
            decreases height - y,
        {
            let mut x: i32 = 0;
            while x < width
                invariant
                    self.shaped(),
                    before.reveals_to(self@),
                    width == before.width,
                    height == before.height,
                    0 <= y < height,
                    0 <= x <= width,
                    forall|c: int, r: int|
                        before.in_bounds(c, r) && (r < y || (r == y && c < x)) ==> !(
                        #[trigger] self@.at(c, r)).covered,
                decreases width - x,
            {
                proof {
                    self@.lemma_uncover_one(x as int, y as int);
                    before.lemma_reveals_to_chain(
                        self@,
                        self@.with_uncovered(x as int, y as int),
                    );
                }
                self.uncover_cell(x, y);
                x += 1;
            }
            y += 1;
        }
    }

    /// Reveals the cell `(x, y)`, which holds no mine, and every cell that
    /// the reveal spreads to.
    fn spread(&mut self, x: i32, y: i32)
        requires
            old(self).wf(),
            old(self)@.in_bounds(x as int, y as int),
            !old(self)@.at(x as int, y as int).mined,
        ensures
            final(self).wf(),
            final(self)@ == old(self)@.after_uncover(x as int, y as int),
    {
        let ghost origin = self@;
        let ghost start = (x as int, y as int);
        self.uncover_cell(x, y);
        let mut stack: Vec<(i32, i32)> = Vec::new();
        stack.push((x, y));
        proof {
            origin.lemma_spread_begin(start);
            assert(as_points(stack@) =~= seq![start]);
        }
        loop
            invariant
                self.shaped(),
                origin.wf(),
                !origin.at(start.0, start.1).mined,
                origin.spreading(self@, start, as_points(stack@), None),
            ensures
                stack@.len() == 0,
            decreases self@.covered_count(), stack@.len(),
        {
            let ghost pending = as_points(stack@);
            match stack.pop() {
                None => {
                    break ;
                },
                Some((cx, cy)) => {
                    let ghost via = (cx as int, cy as int);
                    proof {
                        origin.lemma_spread_pop(self@, start, pending);
                        assert(as_points(stack@) =~= pending.drop_last());
                        assert(pending[pending.len() - 1] == via);
                        self@.lemma_total();
                    }
                    if self.cell(cx, cy).get_neighbor_amount() == 0 {
                        let next = self.covered_around(cx, cy);
                        let ghost points = as_points(next@);
                        let ghost mid = self@;
                        let ghost rest = stack@.len();
                        proof {
                            mid.lemma_covered_adjacent(via.0, via.1);
                            assert forall|j: int| 0 <= j < points.len() implies orthogonal(
                                via,
                                #[trigger] points[j],
                            ) by {
                                assert(points.contains(points[j]));
                            }
                        }
                        let mut k: usize = 0;
                        while k < next.len()
                            invariant
                                0 <= k <= next.len(),
                                points == as_points(next@),
                                points.no_duplicates(),
                                self.shaped(),
                                origin.wf(),
                                origin.spreading(self@, start, as_points(stack@), Some(via)),
                                origin.in_bounds(via.0, via.1),
                                origin.cascades(start, via),
                                self@.at(via.0, via.1).adjacent == 0,
                                forall|j: int|
                                    0 <= j < points.len() ==> orthogonal(via, #[trigger] points[j]),
                                forall|j: int|
                                    k <= j < points.len() ==> self@.covered_at(
                                        (#[trigger] points[j]).0,
                                        points[j].1,
                                    ),
                                forall|j: int|
                                    0 <= j < k ==> !self@.covered_at(
                                        (#[trigger] points[j]).0,
                                        points[j].1,
                                    ),
                                forall|q: (int, int)|
                                    orthogonal(via, q) && self@.covered_at(q.0, q.1)
                                        ==> #[trigger] points.contains(q),
                                self@.covered_count() == mid.covered_count() - k,
                                stack@.len() == rest + k,
                            decreases next.len() - k,
                        {
                            let (nx, ny) = next[k];
                            let ghost to = (nx as int, ny as int);
                            let ghost now = self@;
                            let ghost waiting = as_points(stack@);
                            proof {
                                assert(points[k as int] == to);
                                origin.lemma_spread_push(now, start, waiting, via, to);
                                now.lemma_uncover_one(to.0, to.1);
                            }
                            self.uncover_cell(nx, ny);
                            stack.push((nx, ny));
                            proof {
                                assert(as_points(stack@) =~= waiting.push(to));
                                assert forall|j: int|
                                    k + 1 <= j < points.len() implies self@.covered_at(
                                    (#[trigger] points[j]).0,
                                    points[j].1,
                                ) by {
                                    assert(points[j] != points[k as int]);
                                    assert(now.covered_at(points[j].0, points[j].1));
                                }
                                assert forall|j: int| 0 <= j < k + 1 implies !self@.covered_at(
                                    (#[trigger] points[j]).0,
                                    points[j].1,
                                ) by {
                                    if j < k {
                                        assert(!now.covered_at(points[j].0, points[j].1));
                                    }
                                }
                                assert forall|q: (int, int)|
                                    orthogonal(via, q) && self@.covered_at(
                                        q.0,
                                        q.1,
                                    ) implies #[trigger] points.contains(q) by {
                                    assert(now.covered_at(q.0, q.1));
                                }
                            }
                            k += 1;
                        }
                        proof {
                            assert forall|q: (int, int)|
                                orthogonal(via, q) implies !self@.covered_at(q.0, q.1) by {
                                if self@.covered_at(q.0, q.1) {
                                    assert(points.contains(q));
                                    let j = choose|j: int| 0 <= j < points.len() && points[j] == q;
                                    assert(!self@.covered_at(points[j].0, points[j].1));
                                }
                            }
                            assert(orthogonal(via, (via.0 - 1, via.1)));
                            assert(orthogonal(via, (via.0 + 1, via.1)));
                            assert(orthogonal(via, (via.0, via.1 - 1)));
                            assert(orthogonal(via, (via.0, via.1 + 1)));
                            assert(self@.closed_at(via.0, via.1));
                        }
                    }
                    proof {
                        origin.lemma_spread_close(self@, start, as_points(stack@), via);
                        self@.lemma_total();
                    }
                },
            }
        }
        proof {
            assert(as_points(stack@) =~= Seq::empty());
            origin.lemma_spread_done(self@, start);
            origin.lemma_reveals_to_wf(self@);
        }
    }

    /// Reveals the cell `(x, y)`. A mine under it is the loss: every cell
    /// of the board is revealed. Without one, and with no mine around the
    /// cell, the covered cells next to it along its row and its column are
    /// revealed in the same way. Coordinates outside the board are refused
    /// and change nothing.
    pub fn uncover(&mut self, x: i32, y: i32) -> (done: Result<(), OutOfBounds>)
        requires
            old(self).wf(),
        ensures
            final(self).wf(),
            match done {
                Ok(_) => {
                    &&& old(self)@.in_bounds(x as int, y as int)
                    &&& final(self)@ == old(self)@.after_uncover(x as int, y as int)
                },
                Err(e) => {
                    &&& !old(self)@.in_bounds(x as int, y as int)
                    &&& e == (OutOfBounds { x, y })
                    &&& final(self)@ == old(self)@
                },
            },
            old(self)@.mine_at(x as int, y as int) ==> forall|cx: int, cy: int|
                old(self)@.in_bounds(cx, cy) ==> !(#[trigger] final(self)@.at(cx, cy)).covered,
    {
        if !self.contains(x, y) {
            return Err(OutOfBounds { x, y });
        }
        let ghost before = self@;
        if self.cell(x, y).has_mine() {
            self.uncover_all();
            proof {
                before.lemma_loss(self@, x as int, y as int);
                before.lemma_reveals_to_wf(self@);
            }
        } else {
            self.spread(x, y);
        }
        Ok(())
    }
}

} // verus!
