//! The board as text, for looking at it while testing.

use vstd::prelude::*;
use vstd::string::StringExecFns;
use crate::board::{Board, BoardView};
use crate::cell::{Cell, CellView};

verus! {

/// The character of a decimal digit.
pub open spec fn digit(d: int) -> char {
    if d == 0 {
        '0'
    } else if d == 1 {
        '1'
    } else if d == 2 {
        '2'
    } else if d == 3 {
        '3'
    } else if d == 4 {
        '4'
    } else if d == 5 {
        '5'
    } else if d == 6 {
        '6'
    } else if d == 7 {
        '7'
    } else if d == 8 {
        '8'
    } else {
        '9'
    }
}

/// A natural number in decimal, without leading zeros.
pub open spec fn decimal(n: int) -> Seq<char>
    decreases n,
{
    if n < 10 {
        seq![digit(n)]
    } else {
        decimal(n / 10).push(digit(n % 10))
    }
}

/// The line above the rows: a blank above the row numbers, then the
/// numbers of the first eight columns.
pub open spec fn header() -> Seq<char> {
    seq![' ', '0', '1', '2', '3', '4', '5', '6', '7', '\n']
}

impl CellView {
    /// How a cell is shown: `#` while it is covered; once revealed, the
    /// number of mines around it where there are any, else `O` for a mine
    /// and a blank for none.
    pub open spec fn glyph(self) -> Seq<char> {
        if self.covered {
            seq!['#']
        } else if self.adjacent > 0 {
            decimal(self.adjacent as int)
        } else if self.mined {
            seq!['O']
        } else {
            seq![' ']
        }
    }
}

impl BoardView {
    /// The first `n` cells of row `y`, as they are shown.
    pub open spec fn row_text(self, y: int, n: int) -> Seq<char>
        decreases n,
    {
        if n <= 0 {
            Seq::empty()
        } else {
            self.row_text(y, n - 1) + self.at(n - 1, y).glyph()
        }
    }

    /// The first `n` rows as lines: the number of the row, its cells, and a
    /// line feed.
    pub open spec fn rows_text(self, n: int) -> Seq<char>
        decreases n,
    {
        if n <= 0 {
            Seq::empty()
        } else {
            self.rows_text(n - 1) + decimal(n - 1) + self.row_text(n - 1, self.width) + seq!['\n']
        }
    }

    /// The board as text: the header, then the rows.
    pub open spec fn text(self) -> Seq<char> {
        header() + self.rows_text(self.height)
    }
}

/// The one-character text of a decimal digit.
fn digit_text(d: u32) -> (text: &'static str)
    requires
        d < 10,
    ensures
        text@ == seq![digit(d as int)],
{
    proof {
        reveal_strlit("0");
        reveal_strlit("1");
        reveal_strlit("2");
        reveal_strlit("3");
        reveal_strlit("4");
        reveal_strlit("5");
        reveal_strlit("6");
        reveal_strlit("7");
        reveal_strlit("8");
        reveal_strlit("9");
    }
    let text = if d == 0 {
        "0"
    } else if d == 1 {
        "1"
    } else if d == 2 {
        "2"
    } else if d == 3 {
        "3"
    } else if d == 4 {
        "4"
    } else if d == 5 {
        "5"
    } else if d == 6 {
        "6"
    } else if d == 7 {
        "7"
    } else if d == 8 {
        "8"
    } else {
        "9"
    };
    assert(text@ =~= seq![digit(d as int)]);
    text
}

/// Appends a number in decimal.
fn push_decimal(text: &mut String, n: u32)
    ensures
        final(text)@ == old(text)@ + decimal(n as int),
    decreases n,
{
    if n >= 10 {
        push_decimal(text, n / 10);
    }
    text.append(digit_text(n % 10));
    assert(text@ =~= old(text)@ + decimal(n as int));
}

/// Appends a cell as it is shown.
fn push_glyph(text: &mut String, cell: &Cell)
    ensures
        final(text)@ == old(text)@ + cell@.glyph(),
{
    proof {
        reveal_strlit("#");
        reveal_strlit("O");
        reveal_strlit(" ");
    }
    if cell.is_covered() {
        text.append("#");
        assert("#"@ =~= seq!['#']);
    } else if cell.get_neighbor_amount() > 0 {
        push_decimal(text, cell.get_neighbor_amount() as u32);
    } else if cell.has_mine() {
        text.append("O");
        assert("O"@ =~= seq!['O']);
    } else {
        text.append(" ");
        assert(" "@ =~= seq![' ']);
    }
}

impl Board {
    /// The board as text: a header line, then one line for each row with
    /// its number and its cells.
    pub fn render(&self) -> (text: String)
        requires
            self.shaped(),
        ensures
            text@ == self@.text(),
    {
        let width = self.width();
        let height = self.height();
        let mut text = String::new();
        text.append(" 01234567\n");
        proof {
            reveal_strlit(" 01234567\n");
            reveal_strlit("\n");
            assert(" 01234567\n"@ =~= header());
            assert("\n"@ =~= seq!['\n']);
            assert(text@ =~= header() + self@.rows_text(0));
        }
        let mut y: i32 = 0;
        while y < height
            invariant
                self.shaped(),
                width == self@.width,
                height == self@.height,
                0 <= y <= height,
                "\n"@ == seq!['\n'],
                text@ == header() + self@.rows_text(y as int),
            decreases height - y,
        {
            push_decimal(&mut text, y as u32);
            let ghost numbered = text@;
            let mut x: i32 = 0;
            assert(text@ =~= numbered + self@.row_text(y as int, 0));
            while x < width
                invariant
                    self.shaped(),
                    width == self@.width,
                    height == self@.height,
                    0 <= y < height,
                    0 <= x <= width,
                    text@ == numbered + self@.row_text(y as int, x as int),
                decreases width - x,
            {
                push_glyph(&mut text, self.cell(x, y));
                assert(text@ =~= numbered + self@.row_text(y as int, x + 1));
                x += 1;
            }
            text.append("\n");
            assert(text@ =~= header() + self@.rows_text(y + 1));
            y += 1;
        }
        text
    }
}

} // verus!
