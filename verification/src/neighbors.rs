//! The cells around a cell: all of them, and the covered ones along its row
//! and its column.

use vstd::prelude::*;
use crate::board::{as_points, keep_if, orthogonal, Board, BoardView, OutOfBounds};

verus! {

/// What a sequence holds after a point was appended on a condition.
proof fn lemma_keep_if_append(list: Seq<(int, int)>, keep: bool, point: (int, int))
    ensures
        forall|q: (int, int)|
            #[trigger] (list + keep_if(keep, point)).contains(q) <==> list.contains(q) || (keep
                && q == point),
        list.no_duplicates() && !list.contains(point) ==> (list + keep_if(
            keep,
            point,
        )).no_duplicates(),
{
    let grown = list + keep_if(keep, point);
    assert forall|q: (int, int)| #[trigger] grown.contains(q) <==> list.contains(q) || (keep && q
        == point) by {
        if grown.contains(q) {
            let i = choose|i: int| 0 <= i < grown.len() && grown[i] == q;
            if i < list.len() {
                assert(list[i] == q);
            }
        }
        if list.contains(q) {
            let i = choose|i: int| 0 <= i < list.len() && list[i] == q;
            assert(grown[i] == q);
        }
        if keep && q == point {
            assert(grown[list.len() as int] == q);
        }
    }
    if list.no_duplicates() && !list.contains(point) {
        assert forall|i: int, j: int|
            0 <= i < grown.len() && 0 <= j < grown.len() && i != j implies grown[i]
            != grown[j] by {
            if i < list.len() {
                assert(list.contains(list[i]));
            }
            if j < list.len() {
                assert(list.contains(list[j]));
            }
        }
    }
}

impl BoardView {
    /// Whether `q` is one of the up to eight cells of the board around
    /// `(x, y)`.
    pub open spec fn around(self, x: int, y: int, q: (int, int)) -> bool {
        &&& self.in_bounds(q.0, q.1)
        &&& q != (x, y)
        &&& x - 1 <= q.0 <= x + 1
        &&& y - 1 <= q.1 <= y + 1
    }

    /// `all_adjacent` lists the cells of the board around `(x, y)`, each
    /// once, and nothing else.
    pub proof fn lemma_all_adjacent(self, x: int, y: int)
        ensures
            forall|q: (int, int)| #[trigger]
                self.all_adjacent(x, y).contains(q) <==> self.around(x, y, q),
            self.all_adjacent(x, y).no_duplicates(),
    {
        let s0 = Seq::<(int, int)>::empty();
        let s1 = s0 + keep_if(self.in_bounds(x - 1, y - 1), (x - 1, y - 1));
        let s2 = s1 + keep_if(self.in_bounds(x, y - 1), (x, y - 1));
        let s3 = s2 + keep_if(self.in_bounds(x + 1, y - 1), (x + 1, y - 1));
        let s4 = s3 + keep_if(self.in_bounds(x - 1, y), (x - 1, y));
        let s5 = s4 + keep_if(self.in_bounds(x + 1, y), (x + 1, y));
        let s6 = s5 + keep_if(self.in_bounds(x - 1, y + 1), (x - 1, y + 1));
        let s7 = s6 + keep_if(self.in_bounds(x, y + 1), (x, y + 1));
        let s8 = s7 + keep_if(self.in_bounds(x + 1, y + 1), (x + 1, y + 1));
        lemma_keep_if_append(s0, self.in_bounds(x - 1, y - 1), (x - 1, y - 1));
        lemma_keep_if_append(s1, self.in_bounds(x, y - 1), (x, y - 1));
        lemma_keep_if_append(s2, self.in_bounds(x + 1, y - 1), (x + 1, y - 1));
        lemma_keep_if_append(s3, self.in_bounds(x - 1, y), (x - 1, y));
        lemma_keep_if_append(s4, self.in_bounds(x + 1, y), (x + 1, y));
        lemma_keep_if_append(s5, self.in_bounds(x - 1, y + 1), (x - 1, y + 1));
        lemma_keep_if_append(s6, self.in_bounds(x, y + 1), (x, y + 1));
        lemma_keep_if_append(s7, self.in_bounds(x + 1, y + 1), (x + 1, y + 1));
        assert(s1 =~= keep_if(self.in_bounds(x - 1, y - 1), (x - 1, y - 1)));
        assert(s8 == self.all_adjacent(x, y));
        assert(s1.no_duplicates());
        assert(s2.no_duplicates());
        assert(s3.no_duplicates());
        assert(s4.no_duplicates());
        assert(s5.no_duplicates());
        assert(s6.no_duplicates());
        assert(s7.no_duplicates());
        assert forall|q: (int, int)| #[trigger]
            s8.contains(q) <==> self.around(x, y, q) by {
            assert(s8.contains(q) <==> s7.contains(q) || (
                self.in_bounds(x + 1, y + 1)
                && q == (x + 1, y + 1)
            ));
            assert(s7.contains(q) <==> s6.contains(q) || (
                self.in_bounds(x, y + 1)
                && q == (x, y + 1)
            ));
            assert(s6.contains(q) <==> s5.contains(q) || (
                self.in_bounds(x - 1, y + 1)
                && q == (x - 1, y + 1)
            ));
            assert(s5.contains(q) <==> s4.contains(q) || (
                self.in_bounds(x + 1, y)
                && q == (x + 1, y)
            ));
            assert(s4.contains(q) <==> s3.contains(q) || (
                self.in_bounds(x - 1, y)
                && q == (x - 1, y)
            ));
            assert(s3.contains(q) <==> s2.contains(q) || (
                self.in_bounds(x + 1, y - 1)
                && q == (x + 1, y - 1)
            ));
            assert(s2.contains(q) <==> s1.contains(q) || (
                self.in_bounds(x, y - 1)
                && q == (x, y - 1)
            ));
            assert(s1.contains(q) <==> s0.contains(q) || (
                self.in_bounds(x - 1, y - 1)
                && q == (x - 1, y - 1)
            ));
            assert(!s0.contains(q));
        }
    }

    /// `covered_adjacent` lists the covered cells of the board next to
    /// `(x, y)` along its row and its column, each once, and nothing else.
    pub proof fn lemma_covered_adjacent(self, x: int, y: int)
        ensures
            forall|q: (int, int)| #[trigger]
                self.covered_adjacent(x, y).contains(q) <==> orthogonal((x, y), q)
                    && self.covered_at(q.0, q.1),
            self.covered_adjacent(x, y).no_duplicates(),
    {
        let s0 = Seq::<(int, int)>::empty();
        let s1 = s0 + keep_if(self.covered_at(x - 1, y), (x - 1, y));
        let s2 = s1 + keep_if(self.covered_at(x + 1, y), (x + 1, y));
        let s3 = s2 + keep_if(self.covered_at(x, y - 1), (x, y - 1));
        let s4 = s3 + keep_if(self.covered_at(x, y + 1), (x, y + 1));
        lemma_keep_if_append(s0, self.covered_at(x - 1, y), (x - 1, y));
        lemma_keep_if_append(s1, self.covered_at(x + 1, y), (x + 1, y));
        lemma_keep_if_append(s2, self.covered_at(x, y - 1), (x, y - 1));
        lemma_keep_if_append(s3, self.covered_at(x, y + 1), (x, y + 1));
        assert(s1 =~= keep_if(self.covered_at(x - 1, y), (x - 1, y)));
        assert(s4 == self.covered_adjacent(x, y));
        assert(s1.no_duplicates());
        assert(s2.no_duplicates());
        assert(s3.no_duplicates());
        assert forall|q: (int, int)| #[trigger]
            s4.contains(q) <==> orthogonal((x, y), q) && self.covered_at(q.0, q.1) by {
            assert(s4.contains(q) <==> s3.contains(q) || (
                self.covered_at(x, y + 1)
                && q == (x, y + 1)
            ));
            assert(s3.contains(q) <==> s2.contains(q) || (
                self.covered_at(x, y - 1)
                && q == (x, y - 1)
            ));
            assert(s2.contains(q) <==> s1.contains(q) || (
                self.covered_at(x + 1, y)
                && q == (x + 1, y)
            ));
            assert(s1.contains(q) <==> s0.contains(q) || (
                self.covered_at(x - 1, y)
                && q == (x - 1, y)
            ));
            assert(!s0.contains(q));
        }
    }

    /// On a board of at least two columns and two rows the corner cell
    /// `(0, 0)` has three cells around it: to its right, below it, and
    /// diagonally below.
    pub proof fn lemma_corner_has_three_neighbors(self)
        requires
            self.width >= 2,
            self.height >= 2,
        ensures
            self.all_adjacent(0, 0) == seq![(1int, 0int), (0int, 1int), (1int, 1int)],
            self.all_adjacent(0, 0).len() == 3,
    {
        assert(self.all_adjacent(0, 0) =~= seq![(1int, 0int), (0int, 1int), (1int, 1int)]);
    }
}

impl Board {
    /// Appends `(x, y)` where it names a cell of the board.
    fn push_inside(&self, list: &mut Vec<(i32, i32)>, x: i32, y: i32)
        ensures
            as_points(final(list)@) == as_points(old(list)@) + keep_if(
                self@.in_bounds(x as int, y as int),
                (x as int, y as int),
            ),
    {
        if self.contains(x, y) {
            list.push((x, y));
        }
        assert(as_points(list@) =~= as_points(old(list)@) + keep_if(
            self@.in_bounds(x as int, y as int),
            (x as int, y as int),
        ));
    }

    /// Appends `(x, y)` where it names a covered cell of the board.
    fn push_covered(&self, list: &mut Vec<(i32, i32)>, x: i32, y: i32)
        requires
            self.shaped(),
        ensures
            as_points(final(list)@) == as_points(old(list)@) + keep_if(
                self@.covered_at(x as int, y as int),
                (x as int, y as int),
            ),
    {
        if self.contains(x, y) && self.cell(x, y).is_covered() {
            list.push((x, y));
        }
        assert(as_points(list@) =~= as_points(old(list)@) + keep_if(
            self@.covered_at(x as int, y as int),
            (x as int, y as int),
        ));
    }

    /// The covered cells next to the cell `(x, y)` along its row and its
    /// column, in the order left, right, above, below.
    pub(crate) fn covered_around(&self, x: i32, y: i32) -> (list: Vec<(i32, i32)>)
        requires
            self.shaped(),
            self@.in_bounds(x as int, y as int),
        ensures
            as_points(list@) == self@.covered_adjacent(x as int, y as int),
            forall|i: int|
                0 <= i < list.len() ==> self@.covered_at(
                    (#[trigger] list[i]).0 as int,
                    list[i].1 as int,
                ),
    {
        proof {
            self@.lemma_total();
        }
        let mut list: Vec<(i32, i32)> = Vec::new();
        assert(as_points(list@) =~= Seq::empty());
        self.push_covered(&mut list, x - 1, y);
        self.push_covered(&mut list, x + 1, y);
        self.push_covered(&mut list, x, y - 1);
        self.push_covered(&mut list, x, y + 1);
        proof {
            let points = self@.covered_adjacent(x as int, y as int);
            assert(as_points(list@) =~= points);
            self@.lemma_covered_adjacent(x as int, y as int);
            assert forall|i: int| 0 <= i < list.len() implies self@.covered_at(
                (#[trigger] list[i]).0 as int,
                list[i].1 as int,
            ) by {
                assert(points.contains(points[i]));
            }
        }
        list
    }

    /// The cells of the board around the cell `(x, y)`, row by row from the
    /// top left.
    pub(crate) fn cells_around(&self, x: i32, y: i32) -> (list: Vec<(i32, i32)>)
        requires
            self.shaped(),
            self@.in_bounds(x as int, y as int),
        ensures
            as_points(list@) == self@.all_adjacent(x as int, y as int),
            forall|i: int|
                0 <= i < list.len() ==> self@.in_bounds(
                    (#[trigger] list[i]).0 as int,
                    list[i].1 as int,
                ),
    {
        proof {
            self@.lemma_total();
        }
        let mut list: Vec<(i32, i32)> = Vec::new();
        assert(as_points(list@) =~= Seq::empty());
        self.push_inside(&mut list, x - 1, y - 1);
        self.push_inside(&mut list, x, y - 1);
        self.push_inside(&mut list, x + 1, y - 1);
        self.push_inside(&mut list, x - 1, y);
        self.push_inside(&mut list, x + 1, y);
        self.push_inside(&mut list, x - 1, y + 1);
        self.push_inside(&mut list, x, y + 1);
        self.push_inside(&mut list, x + 1, y + 1);
        proof {
            let points = self@.all_adjacent(x as int, y as int);
            assert(as_points(list@) =~= points);
            self@.lemma_all_adjacent(x as int, y as int);
            assert forall|i: int| 0 <= i < list.len() implies self@.in_bounds(
                (#[trigger] list[i]).0 as int,
                list[i].1 as int,
            ) by {
                assert(points.contains(points[i]));
            }
        }
        list
    }

    /// The covered cells next to `(x, y)` along its row and its column, in
    /// the order left, right, above, below. Coordinates outside the board
    /// are refused.
    pub fn get_neighbors(&self, x: i32, y: i32) -> (found: Result<Vec<(i32, i32)>, OutOfBounds>)
        requires
            self.shaped(),
        ensures
            match found {
                Ok(list) => {
                    &&& self@.in_bounds(x as int, y as int)
                    &&& as_points(list@) == self@.covered_adjacent(x as int, y as int)
                    &&& forall|i: int|
                        0 <= i < list.len() ==> self@.covered_at(
                            (#[trigger] list[i]).0 as int,
                            list[i].1 as int,
                        )
                },
                Err(e) => !self@.in_bounds(x as int, y as int) && e == (OutOfBounds { x, y }),
            },
    {
        if !self.contains(x, y) {
            return Err(OutOfBounds { x, y });
        }
        Ok(self.covered_around(x, y))
    }

    /// The cells of the board around `(x, y)`, row by row from the top
    /// left. Coordinates outside the board are refused.
    pub fn get_all_neighbors(&self, x: i32, y: i32) -> (found: Result<
        Vec<(i32, i32)>,
        OutOfBounds,
    >)
        requires
            self.shaped(),
        ensures
            match found {
                Ok(list) => {
                    &&& self@.in_bounds(x as int, y as int)
                    &&& as_points(list@) == self@.all_adjacent(x as int, y as int)
                    &&& forall|i: int|
                        0 <= i < list.len() ==> self@.in_bounds(
                            (#[trigger] list[i]).0 as int,
                            list[i].1 as int,
                        )
                },
                Err(e) => !self@.in_bounds(x as int, y as int) && e == (OutOfBounds { x, y }),
            },
    {
        if !self.contains(x, y) {
            return Err(OutOfBounds { x, y });
        }
        Ok(self.cells_around(x, y))
    }
}

} // verus!
