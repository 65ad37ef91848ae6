//! The textual puzzle format: grid characters read in row-major order.
use vstd::prelude::*;
use vstd::string::StringExecFns;

use crate::grid::{in_grid, Sudoku, EMPTY};

verus! {

/// The cell value that a character stands for: a digit `1`-`9` for itself,
/// `.` and `0` for an empty cell; any other character stands for no cell.
pub open spec fn cell_of(ch: char) -> Option<u32> {
    if ch == '.' || ch == '0' {
        Some(EMPTY)
    } else if '1' <= ch <= '9' {
        Some((ch as u32 - '0' as u32) as u32)
    } else {
        None
    }
}

/// The cell values of the grid characters of `t`, in order.
pub open spec fn cells_of(t: Seq<char>) -> Seq<u32>
    decreases t.len(),
{
    if t.len() == 0 {
        Seq::empty()
    } else {
        match cell_of(t.last()) {
            Some(v) => cells_of(t.drop_last()).push(v),
            None => cells_of(t.drop_last()),
        }
    }
}

/// The value at cell `(r, c)` when the cells are filled in row-major order
/// from `vals` and the rest are left empty.
pub open spec fn filled_from(vals: Seq<u32>, r: int, c: int) -> u32 {
    if 9 * r + c < vals.len() {
        vals[9 * r + c]
    } else {
        EMPTY
    }
}

/// The character that shows a cell: its digit, or `.` for an empty cell.
pub open spec fn cell_mark(v: u32) -> char {
    if v == 1 {
        '1'
    } else if v == 2 {
        '2'
    } else if v == 3 {
        '3'
    } else if v == 4 {
        '4'
    } else if v == 5 {
        '5'
    } else if v == 6 {
        '6'
    } else if v == 7 {
        '7'
    } else if v == 8 {
        '8'
    } else if v == 9 {
        '9'
    } else {
        '.'
    }
}

/// A cell printed right-aligned in a field three characters wide.
pub open spec fn cell_text(v: u32) -> Seq<char> {
    seq![' ', ' ', cell_mark(v)]
}

/// The first `n` cells of a row, with three spaces after each third cell.
pub open spec fn row_text(row: Seq<u32>, n: int) -> Seq<char>
    decreases n,
{
    if n <= 0 {
        Seq::empty()
    } else {
        row_text(row, n - 1) + cell_text(row[n - 1]) + if (n - 1) % 3 == 2 {
            "   "@
        } else {
            Seq::empty()
        }
    }
}

/// The first `n` rows, each ending in a newline, with a blank line after
/// each third row.
pub open spec fn rows_text(b: Seq<Seq<u32>>, n: int) -> Seq<char>
    decreases n,
{
    if n <= 0 {
        Seq::empty()
    } else {
        rows_text(b, n - 1) + row_text(b[n - 1], 9) + if (n - 1) % 3 == 2 {
            "\n"@
        } else {
            Seq::empty()
        } + "\n"@
    }
}

/// The three characters that show a cell.
fn cell_str(v: u32) -> (t: &'static str)
    ensures
        t@ == cell_text(v),
{
    let t = if v == 1 {
        "  1"
    } else if v == 2 {
        "  2"
    } else if v == 3 {
        "  3"
    } else if v == 4 {
        "  4"
    } else if v == 5 {
        "  5"
    } else if v == 6 {
        "  6"
    } else if v == 7 {
        "  7"
    } else if v == 8 {
        "  8"
    } else if v == 9 {
        "  9"
    } else {
        "  ."
    };
    proof {
        reveal_strlit("  1");
        reveal_strlit("  2");
        reveal_strlit("  3");
        reveal_strlit("  4");
        reveal_strlit("  5");
        reveal_strlit("  6");
        reveal_strlit("  7");
        reveal_strlit("  8");
        reveal_strlit("  9");
        reveal_strlit("  .");
    }
    assert(t@ =~= cell_text(v));
    t
}

/// The grid characters of a prefix of `t` are no more than those of `t`.
pub proof fn lemma_cells_of_prefix(t: Seq<char>, k: int)
    requires
        0 <= k <= t.len(),
    ensures
        cells_of(t.take(k)).len() <= cells_of(t).len(),
    decreases t.len(),
{
    if k < t.len() {
        assert(t.drop_last().take(k) =~= t.take(k));
        lemma_cells_of_prefix(t.drop_last(), k);
    } else {
        assert(t.take(k) =~= t);
    }
}

impl Sudoku {
    /// Reads a puzzle: each grid character fills the next cell in row-major
    /// order, other characters are skipped, and cells left over stay empty.
    /// More than 81 grid characters is an error.
    pub fn load_from_string(s: String) -> (res: Result<Sudoku, String>)
        ensures
            match res {
                Ok(g) => cells_of(s@).len() <= 81 && forall|r: int, c: int|
                    in_grid(r, c) ==> #[trigger] g@[r][c] == filled_from(cells_of(s@), r, c),
                Err(e) => cells_of(s@).len() > 81 && e@ == "Too many characters in sudoku"@,
            },
    {
        let mut sudoku = Sudoku::empty_grid();
        let mut x: usize = 0;
        let mut y: usize = 0;
        for ch in it: s.as_str().chars()
            invariant
                it.seq() == s@,
                x < 9,
                y <= 9,
                y == 9 ==> x == 0,
                cells_of(s@.take(it.index() as int)).len() == 9 * y + x,
                forall|r: int, c: int|
                    in_grid(r, c) ==> #[trigger] sudoku@[r][c] == filled_from(
                        cells_of(s@.take(it.index() as int)),
                        r,
                        c,
                    ),
        {
            let ghost i = it.index() as int;
            let ghost before_ch = cells_of(s@.take(i));
            proof {
                assert(s@.take(i + 1).drop_last() =~= s@.take(i));
                assert(s@.take(i + 1).last() == ch);
            }
            let cell: Option<u32> = if ch == '.' || ch == '0' {
                Some(EMPTY)
            } else if '1' <= ch && ch <= '9' {
                Some(ch as u32 - '0' as u32)
            } else {
                None
            };
            if let Some(v) = cell {
                if y == 9 {
                    proof {
                        lemma_cells_of_prefix(s@, i + 1);
                    }
                    return Err(String::from_str("Too many characters in sudoku"));
                }
                let ghost old_grid = sudoku@;
                sudoku.grid[y][x] = v;
                proof {
                    let vals = cells_of(s@.take(i + 1));
                    assert(vals == before_ch.push(v));
                    assert forall|r: int, c: int| in_grid(r, c) implies #[trigger] sudoku@[r][c]
                        == filled_from(vals, r, c) by {
                        if r != y || c != x {
                            assert(sudoku@[r][c] == old_grid[r][c]);
                        }
                    }
                }
                x = x + 1;
                if x == 9 {
                    x = 0;
                    y = y + 1;
                }
            }
        }
        assert(s@.take(s@.len() as int) =~= s@);
        Ok(sudoku)
    }

    /// The grid as text: nine lines of nine right-aligned cells, with extra
    /// space between boxes and a blank line after each band of three rows.
    pub fn to_string(&self) -> (t: String)
        ensures
            t@ == rows_text(self@, 9),
    {
        let mut out = String::new();
        let mut y: usize = 0;
        while y < 9
            invariant
                y <= 9,
                out@ == rows_text(self@, y as int),
            decreases 9 - y,
        {
            let ghost done = out@;
            let mut x: usize = 0;
            while x < 9
                invariant
                    y < 9,
                    x <= 9,
                    out@ == done + row_text(self@[y as int], x as int),
                decreases 9 - x,
            {
                out.append(cell_str(self.grid[y][x]));
                if x % 3 == 2 {
                    out.append("   ");
                }
                assert(out@ =~= done + row_text(self@[y as int], x + 1));
                x = x + 1;
            }
            if y % 3 == 2 {
                out.append("\n");
            }
            out.append("\n");
            assert(out@ =~= rows_text(self@, y + 1));
            y = y + 1;
        }
        out
    }
}

} // verus!
