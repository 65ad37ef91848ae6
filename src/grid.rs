//! The grid: 81 cells addressed by row and column, its mathematical model
//! and the rules of a valid partial grid.
use vstd::prelude::*;

verus! {

/// The model of a grid: nine rows of nine cell values.
pub type Board = Seq<Seq<u32>>;

/// A cell holds a clue when its value is a digit 1 to 9; any other value,
/// `EMPTY` in particular, marks the cell as empty.
pub open spec fn is_digit(v: u32) -> bool {
    1 <= v <= 9
}

/// The value of an empty cell as the library writes it.
pub const EMPTY: u32 = 0;

pub open spec fn in_grid(r: int, c: int) -> bool {
    0 <= r < 9 && 0 <= c < 9
}

/// Two distinct cells that share a row, a column or a 3x3 box.
pub open spec fn peers(r1: int, c1: int, r2: int, c2: int) -> bool {
    &&& !(r1 == r2 && c1 == c2)
    &&& (r1 == r2 || c1 == c2 || (r1 / 3 == r2 / 3 && c1 / 3 == c2 / 3))
}

/// `d` collides with no peer of cell `(r, c)`; the cell itself is not looked at.
pub open spec fn legal(b: Board, r: int, c: int, d: u32) -> bool {
    forall|r2: int, c2: int|
        in_grid(r2, c2) && peers(r, c, r2, c2) ==> #[trigger] b[r2][c2] != d
}

/// No digit occurs twice in a row, a column or a box.
pub open spec fn valid(b: Board) -> bool {
    forall|r: int, c: int|
        in_grid(r, c) && is_digit(#[trigger] b[r][c]) ==> legal(b, r, c, b[r][c])
}

/// No cell is empty.
pub open spec fn full(b: Board) -> bool {
    forall|r: int, c: int| in_grid(r, c) ==> is_digit(#[trigger] b[r][c])
}

/// A valid grid without empty cells.
pub open spec fn solved(b: Board) -> bool {
    valid(b) && full(b)
}

/// `s` keeps every clue of `b`.
pub open spec fn extends(s: Board, b: Board) -> bool {
    forall|r: int, c: int|
        in_grid(r, c) && is_digit(#[trigger] b[r][c]) ==> s[r][c] == b[r][c]
}

/// `b` with cell `(r, c)` set to `d`.
pub open spec fn place_at(b: Board, r: int, c: int, d: u32) -> Board {
    b.update(r, b[r].update(c, d))
}

/// Row-major order: `(r1, c1)` comes strictly before `(r2, c2)`.
pub open spec fn before(r1: int, c1: int, r2: int, c2: int) -> bool {
    r1 < r2 || (r1 == r2 && c1 < c2)
}

/// `(r, c)` is the first empty cell of `b` in row-major order.
pub open spec fn is_first_empty(b: Board, r: int, c: int) -> bool {
    &&& in_grid(r, c)
    &&& !is_digit(b[r][c])
    &&& forall|r2: int, c2: int|
        in_grid(r2, c2) && before(r2, c2, r, c) ==> is_digit(#[trigger] b[r2][c2])
}

/// `b` has nine rows of nine cells.
pub open spec fn is_board(b: Board) -> bool {
    b.len() == 9 && forall|r: int| 0 <= r < 9 ==> #[trigger] b[r].len() == 9
}

/// Placing a digit into a valid grid keeps it valid exactly when the digit
/// is legal at that cell.
pub proof fn lemma_legal_iff_valid_after(b: Board, r: int, c: int, d: u32)
    requires
        is_board(b),
        valid(b),
        in_grid(r, c),
        is_digit(d),
    ensures
        legal(b, r, c, d) <==> valid(place_at(b, r, c, d)),
{
    let b2 = place_at(b, r, c, d);
    assert(b2[r][c] == d);
    if legal(b, r, c, d) {
        assert forall|r1: int, c1: int|
            in_grid(r1, c1) && is_digit(#[trigger] b2[r1][c1]) implies legal(
            b2,
            r1,
            c1,
            b2[r1][c1],
        ) by {
            assert forall|r2: int, c2: int|
                in_grid(r2, c2) && peers(r1, c1, r2, c2) implies #[trigger] b2[r2][c2]
                != b2[r1][c1] by {
                if r1 == r && c1 == c {
                    assert(b2[r2][c2] == b[r2][c2]);
                } else if r2 == r && c2 == c {
                    assert(b2[r1][c1] == b[r1][c1]);
                    assert(peers(r, c, r1, c1));
                } else {
                    assert(b2[r1][c1] == b[r1][c1]);
                    assert(b2[r2][c2] == b[r2][c2]);
                }
            }
        }
    }
    if valid(b2) {
        assert forall|r2: int, c2: int|
            in_grid(r2, c2) && peers(r, c, r2, c2) implies #[trigger] b[r2][c2] != d by {
            assert(b2[r2][c2] == b[r2][c2]);
        }
    }
}

/// `q` holds each digit 1 to 9 exactly once.
pub open spec fn is_digit_permutation(q: Seq<u32>) -> bool {
    &&& q.len() == 9
    &&& q.no_duplicates()
    &&& forall|d: u32| is_digit(d) <==> q.contains(d)
}

/// Row `r` of `b`.
pub open spec fn row_of(b: Board, r: int) -> Seq<u32> {
    Seq::new(9, |c: int| b[r][c])
}

/// Column `c` of `b`.
pub open spec fn column_of(b: Board, c: int) -> Seq<u32> {
    Seq::new(9, |r: int| b[r][c])
}

/// The box in band `i` and stack `j` of `b`, both in `0..3`, read row by row.
pub open spec fn box_of(b: Board, i: int, j: int) -> Seq<u32> {
    Seq::new(9, |k: int| b[3 * i + k / 3][3 * j + k % 3])
}

/// Every row, column and box of `b` holds each digit exactly once.
pub open spec fn units_complete(b: Board) -> bool {
    &&& forall|r: int| 0 <= r < 9 ==> is_digit_permutation(#[trigger] row_of(b, r))
    &&& forall|c: int| 0 <= c < 9 ==> is_digit_permutation(#[trigger] column_of(b, c))
    &&& forall|i: int, j: int|
        0 <= i < 3 && 0 <= j < 3 ==> is_digit_permutation(#[trigger] box_of(b, i, j))
}

/// Nine distinct digits are the nine digits.
pub proof fn lemma_nine_distinct_digits(q: Seq<u32>)
    requires
        q.len() == 9,
        forall|k: int| 0 <= k < 9 ==> is_digit(#[trigger] q[k]),
        q.no_duplicates(),
    ensures
        is_digit_permutation(q),
{
    let digits = set![1u32, 2u32, 3u32, 4u32, 5u32, 6u32, 7u32, 8u32, 9u32];
    assert(digits.len() == 9);
    q.unique_seq_to_set();
    assert(q.to_set().subset_of(digits));
    vstd::set_lib::lemma_subset_equality(q.to_set(), digits);
    assert forall|d: u32| is_digit(d) <==> q.contains(d) by {
        if is_digit(d) {
            assert(digits.contains(d));
            assert(q.to_set().contains(d));
        }
    }
}

/// Every row, column and box of a solved grid holds each digit exactly once.
pub proof fn lemma_solved_units(b: Board)
    requires
        is_board(b),
        solved(b),
    ensures
        units_complete(b),
{
    assert forall|r: int| 0 <= r < 9 implies is_digit_permutation(#[trigger] row_of(b, r)) by {
        let q = row_of(b, r);
        assert forall|k1: int, k2: int| 0 <= k1 < 9 && 0 <= k2 < 9 && k1 != k2 implies q[k1]
            != q[k2] by {
            assert(legal(b, r, k1, b[r][k1]));
            assert(peers(r, k1, r, k2));
        }
        lemma_nine_distinct_digits(q);
    }
    assert forall|c: int| 0 <= c < 9 implies is_digit_permutation(#[trigger] column_of(b, c)) by {
        let q = column_of(b, c);
        assert forall|k1: int, k2: int| 0 <= k1 < 9 && 0 <= k2 < 9 && k1 != k2 implies q[k1]
            != q[k2] by {
            assert(legal(b, k1, c, b[k1][c]));
            assert(peers(k1, c, k2, c));
        }
        lemma_nine_distinct_digits(q);
    }
    assert forall|i: int, j: int| 0 <= i < 3 && 0 <= j < 3 implies is_digit_permutation(
        #[trigger] box_of(b, i, j),
    ) by {
        let q = box_of(b, i, j);
        assert forall|k1: int, k2: int| 0 <= k1 < 9 && 0 <= k2 < 9 && k1 != k2 implies q[k1]
            != q[k2] by {
            let (r1, c1) = (3 * i + k1 / 3, 3 * j + k1 % 3);
            let (r2, c2) = (3 * i + k2 / 3, 3 * j + k2 % 3);
            assert(r1 / 3 == i && r2 / 3 == i && c1 / 3 == j && c2 / 3 == j);
            assert(!(r1 == r2 && c1 == c2));
            assert(legal(b, r1, c1, b[r1][c1]));
            assert(peers(r1, c1, r2, c2));
        }
        lemma_nine_distinct_digits(q);
    }
}

/// A Sudoku grid, stored row by row.
#[derive(Debug, Clone, Copy)]
pub struct Sudoku {
    pub grid: [[u32; 9]; 9],
}

impl View for Sudoku {
    type V = Board;

    open spec fn view(&self) -> Board {
        Seq::new(9, |r: int| self.grid[r]@)
    }
}

/// A grid is determined by its model: two grids with equal models are the
/// same value, cell for cell.
pub proof fn lemma_view_determines(a: Sudoku, b: Sudoku)
    requires
        a@ == b@,
    ensures
        a == b,
{
    broadcast use vstd::array::axiom_array_ext_equal;

    assert forall|r: int| 0 <= r < 9 implies #[trigger] a.grid[r] == b.grid[r] by {
        assert(a@[r] == b@[r]);
        assert(a.grid[r]@ =~= b.grid[r]@);
    }
    assert(a.grid =~= b.grid);
}

impl Sudoku {
    /// A grid whose cells are all empty.
    pub fn empty_grid() -> (g: Sudoku)
        ensures
            g@.len() == 9,
            forall|r: int, c: int| in_grid(r, c) ==> #[trigger] g@[r][c] == EMPTY,
    {
        Sudoku { grid: [[EMPTY; 9]; 9] }
    }

    /// The value of cell `(r, c)`.
    pub fn get(&self, r: usize, c: usize) -> (v: u32)
        requires
            r < 9,
            c < 9,
        ensures
            v == self@[r as int][c as int],
    {
        self.grid[r][c]
    }

    /// A copy of this grid with cell `(r, c)` set to the digit `d`.
    pub fn with(&self, r: usize, c: usize, d: u32) -> (g: Sudoku)
        requires
            r < 9,
            c < 9,
            is_digit(d),
        ensures
            g@ == place_at(self@, r as int, c as int, d),
    {
        let mut g = *self;
        g.grid[r][c] = d;
        assert(g@ =~= place_at(self@, r as int, c as int, d));
        g
    }

    /// The grid with the digit `d` at `(r, c)`, or `None` when `d` collides
    /// with a digit in that cell's row, column or box.
    pub fn place(&self, d: u32, r: usize, c: usize) -> (g: Option<Sudoku>)
        requires
            r < 9,
            c < 9,
            is_digit(d),
        ensures
            match g {
                Some(g) => legal(self@, r as int, c as int, d) && g@ == place_at(
                    self@,
                    r as int,
                    c as int,
                    d,
                ),
                None => !legal(self@, r as int, c as int, d),
            },
    {
        if self.is_legal(r, c, d) {
            Some(self.with(r, c, d))
        } else {
            None
        }
    }

    /// Whether no digit occurs twice in a row, a column or a box.
    pub fn is_valid(&self) -> (ok: bool)
        ensures
            ok == valid(self@),
    {
        let mut r: usize = 0;
        while r < 9
            invariant
                r <= 9,
                forall|r2: int, c2: int|
                    in_grid(r2, c2) && r2 < r && is_digit(#[trigger] self@[r2][c2]) ==> legal(
                        self@,
                        r2,
                        c2,
                        self@[r2][c2],
                    ),
            decreases 9 - r,
        {
            let mut c: usize = 0;
            while c < 9
                invariant
                    r < 9,
                    c <= 9,
                    forall|r2: int, c2: int|
                        in_grid(r2, c2) && (r2 < r || (r2 == r && c2 < c)) && is_digit(
                            #[trigger] self@[r2][c2],
                        ) ==> legal(self@, r2, c2, self@[r2][c2]),
                decreases 9 - c,
            {
                let v = self.grid[r][c];
                if 1 <= v && v <= 9 && !self.is_legal(r, c, v) {
                    assert(self@[r as int][c as int] == v);
                    return false;
                }
                c = c + 1;
            }
            r = r + 1;
        }
        true
    }

    /// The first empty cell in row-major order, or `None` when every cell
    /// holds a digit.
    pub fn first_empty(&self) -> (p: Option<(usize, usize)>)
        ensures
            match p {
                Some((r, c)) => is_first_empty(self@, r as int, c as int),
                None => full(self@),
            },
    {
        let mut r: usize = 0;
        while r < 9
            invariant
                r <= 9,
                forall|r2: int, c2: int|
                    in_grid(r2, c2) && r2 < r ==> is_digit(#[trigger] self@[r2][c2]),
            decreases 9 - r,
        {
            let mut c: usize = 0;
            while c < 9
                invariant
                    r < 9,
                    c <= 9,
                    forall|r2: int, c2: int|
                        in_grid(r2, c2) && (r2 < r || (r2 == r && c2 < c)) ==> is_digit(
                            #[trigger] self@[r2][c2],
                        ),
                decreases 9 - c,
            {
                let v = self.grid[r][c];
                if !(1 <= v && v <= 9) {
                    return Some((r, c));
                }
                c = c + 1;
            }
            r = r + 1;
        }
        None
    }

    /// Whether the digit `d` collides with no digit in the row, the column or
    /// the box of cell `(r, c)`, the cell itself left aside.
    pub fn is_legal(&self, r: usize, c: usize, d: u32) -> (ok: bool)
        requires
            r < 9,
            c < 9,
        ensures
            ok == legal(self@, r as int, c as int, d),
    {
        let mut c2: usize = 0;
        while c2 < 9
            invariant
                r < 9,
                c < 9,
                c2 <= 9,
                forall|k: int| 0 <= k < c2 && k != c ==> #[trigger] self@[r as int][k] != d,
            decreases 9 - c2,
        {
            if c2 != c && self.grid[r][c2] == d {
                assert(peers(r as int, c as int, r as int, c2 as int));
                assert(self@[r as int][c2 as int] == d);
                return false;
            }
            c2 = c2 + 1;
        }
        let mut r2: usize = 0;
        while r2 < 9
            invariant
                r < 9,
                c < 9,
                r2 <= 9,
                forall|k: int| 0 <= k < r2 && k != r ==> #[trigger] self@[k][c as int] != d,
            decreases 9 - r2,
        {
            if r2 != r && self.grid[r2][c] == d {
                assert(peers(r as int, c as int, r2 as int, c as int));
                assert(self@[r2 as int][c as int] == d);
                return false;
            }
            r2 = r2 + 1;
        }
        let br: usize = r / 3 * 3;
        let bc: usize = c / 3 * 3;
        let mut i: usize = 0;
        while i < 3
            invariant
                r < 9,
                c < 9,
                br == r / 3 * 3,
                bc == c / 3 * 3,
                i <= 3,
                forall|a: int, b: int|
                    0 <= a < i && 0 <= b < 3 && !(br + a == r && bc + b == c) ==> #[trigger] self@[br
                        + a][bc + b] != d,
            decreases 3 - i,
        {
            let mut j: usize = 0;
            while j < 3
                invariant
                    r < 9,
                    c < 9,
                    br == r / 3 * 3,
                    bc == c / 3 * 3,
                    i < 3,
                    j <= 3,
                    forall|a: int, b: int|
                        (0 <= a < i && 0 <= b < 3 || a == i && 0 <= b < j) && !(br + a == r && bc
                            + b == c) ==> #[trigger] self@[br + a][bc + b] != d,
                decreases 3 - j,
            {
                if !(br + i == r && bc + j == c) && self.grid[br + i][bc + j] == d {
                    assert(peers(r as int, c as int, (br + i) as int, (bc + j) as int));
                    assert(self@[(br + i) as int][(bc + j) as int] == d);
                    return false;
                }
                j = j + 1;
            }
            i = i + 1;
        }
        assert forall|r3: int, c3: int|
            in_grid(r3, c3) && peers(r as int, c as int, r3, c3) implies #[trigger] self@[r3][c3]
            != d by {
            if r3 != r && c3 != c {
                assert(br <= r3 < br + 3 && bc <= c3 < bc + 3);
                assert(self@[br + (r3 - br)][bc + (c3 - bc)] != d);
            }
        }
        true
    }
}

} // verus!
