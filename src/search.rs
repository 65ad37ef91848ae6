//! Depth-first backtracking search: fill the first empty cell with each
//! legal digit in ascending order and recurse on the result.
use vstd::prelude::*;

use crate::grid::{
    before, extends, full, in_grid, is_board, is_digit, is_first_empty, legal, peers, place_at,
    solved, units_complete, valid, Board, Sudoku, lemma_legal_iff_valid_after, lemma_solved_units,
    lemma_view_determines,
};

verus! {

/// `b` has an empty cell.
pub open spec fn has_first_empty(b: Board) -> bool {
    exists|r: int, c: int| is_first_empty(b, r, c)
}

/// The first empty cell of `b`, when `has_first_empty(b)`.
pub open spec fn first_empty_of(b: Board) -> (int, int) {
    choose|r: int, c: int| is_first_empty(b, r, c)
}

/// The row-major index of the first empty cell, or 81 when there is none;
/// each placement in the search makes it grow.
pub open spec fn progress(b: Board) -> int {
    if has_first_empty(b) {
        9 * first_empty_of(b).0 + first_empty_of(b).1
    } else {
        81
    }
}

/// The first solution found from `b` by filling its first empty cell with
/// each legal digit in ascending order; `b` itself when it is full.
pub open spec fn search(b: Board) -> Option<Board>
    decreases 81 - progress(b), 10int,
{
    if has_first_empty(b) {
        try_digits(b, 1)
    } else {
        Some(b)
    }
}

/// The first solution found from `b` with the digits `d..=9` tried, in order,
/// at its first empty cell.
pub open spec fn try_digits(b: Board, d: int) -> Option<Board>
    decreases 81 - progress(b), 10 - d,
{
    if is_board(b) && has_first_empty(b) && 1 <= d <= 9 {
        let (r, c) = first_empty_of(b);
        proof {
            lemma_progress_grows(b, r, c, d as u32);
        }
        if legal(b, r, c, d as u32) {
            match search(place_at(b, r, c, d as u32)) {
                Some(s) => Some(s),
                None => try_digits(b, d + 1),
            }
        } else {
            try_digits(b, d + 1)
        }
    } else {
        None
    }
}

/// What `solve` returns: nothing for an invalid grid, else the search result.
pub open spec fn solution(b: Board) -> Option<Board> {
    if valid(b) {
        search(b)
    } else {
        None
    }
}

/// `s` is what `solve` answers for a grid whose model is `b`.
pub open spec fn answers(b: Board, s: Option<Sudoku>) -> bool {
    match s {
        Some(g) => solution(b) == Some(g@),
        None => solution(b) is None,
    }
}

/// Solving is deterministic: any two answers that `solve` can give for the
/// same grid are the same value.
pub proof fn lemma_answer_unique(b: Board, s1: Option<Sudoku>, s2: Option<Sudoku>)
    requires
        answers(b, s1),
        answers(b, s2),
    ensures
        s1 == s2,
{
    if let (Some(g1), Some(g2)) = (s1, s2) {
        lemma_view_determines(g1, g2);
    }
}

/// `b` has a completion: a solved grid that keeps its clues.
pub open spec fn solvable(b: Board) -> bool {
    exists|s: Board| is_board(s) && solved(s) && #[trigger] extends(s, b)
}

pub proof fn lemma_first_empty_unique(b: Board, r1: int, c1: int, r2: int, c2: int)
    requires
        is_first_empty(b, r1, c1),
        is_first_empty(b, r2, c2),
    ensures
        r1 == r2 && c1 == c2,
{
    if before(r1, c1, r2, c2) {
        assert(is_digit(b[r1][c1]));
    } else if before(r2, c2, r1, c1) {
        assert(is_digit(b[r2][c2]));
    }
}

pub proof fn lemma_first_empty_is(b: Board, r: int, c: int)
    requires
        is_first_empty(b, r, c),
    ensures
        has_first_empty(b),
        first_empty_of(b) == (r, c),
        progress(b) == 9 * r + c,
{
    let (r1, c1) = first_empty_of(b);
    lemma_first_empty_unique(b, r, c, r1, c1);
}

pub proof fn lemma_progress_grows(b: Board, r: int, c: int, d: u32)
    requires
        is_board(b),
        is_first_empty(b, r, c),
        is_digit(d),
    ensures
        progress(b) == 9 * r + c,
        9 * r + c < progress(place_at(b, r, c, d)) <= 81,
{
    lemma_first_empty_is(b, r, c);
    let b2 = place_at(b, r, c, d);
    if has_first_empty(b2) {
        let (r2, c2) = first_empty_of(b2);
        assert(is_first_empty(b2, r2, c2));
        if before(r2, c2, r, c) {
            assert(b2[r2][c2] == b[r2][c2]);
        }
        assert(!(r2 == r && c2 == c));
    }
}

impl Sudoku {
    /// Solves the puzzle: the first solution in the order of the search, or
    /// `None` when the grid is invalid or has no completion.
    pub fn solve(&self) -> (s: Option<Sudoku>)
        ensures
            answers(self@, s),
            s matches Some(g) ==> solved(g@) && units_complete(g@) && extends(g@, self@),
            s is None <==> !solvable(self@),
    {
        proof {
            lemma_solution_correct(self@);
        }
        if !self.is_valid() {
            return None;
        }
        self.search()
    }

    /// The search from this grid; `solve` calls it on valid grids only.
    fn search(&self) -> (s: Option<Sudoku>)
        ensures
            match s {
                Some(g) => search(self@) == Some(g@),
                None => search(self@) is None,
            },
        decreases 81 - progress(self@), 10int,
    {
        match self.first_empty() {
            None => {
                proof {
                    lemma_full_iff_no_empty(self@);
                }
                Some(*self)
            },
            Some((r, c)) => {
                proof {
                    lemma_first_empty_is(self@, r as int, c as int);
                }
                let mut d: u32 = 1;
                while d <= 9
                    invariant
                        1 <= d <= 10,
                        r < 9,
                        c < 9,
                        is_board(self@),
                        is_first_empty(self@, r as int, c as int),
                        first_empty_of(self@) == (r as int, c as int),
                        search(self@) == try_digits(self@, d as int),
                    decreases 10 - d,
                {
                    proof {
                        lemma_progress_grows(self@, r as int, c as int, d);
                    }
                    if let Some(g) = self.place(d, r, c) {
                        if let Some(sol) = g.search() {
                            return Some(sol);
                        }
                    }
                    d = d + 1;
                }
                None
            },
        }
    }
}

/// Some empty cell implies a first empty cell.
pub proof fn lemma_first_empty_exists(b: Board, r: int, c: int)
    requires
        in_grid(r, c),
        !is_digit(b[r][c]),
    ensures
        has_first_empty(b),
    decreases 9 * r + c,
{
    if forall|r2: int, c2: int|
        in_grid(r2, c2) && before(r2, c2, r, c) ==> is_digit(#[trigger] b[r2][c2]) {
        assert(is_first_empty(b, r, c));
    } else {
        let (r2, c2) = choose|r2: int, c2: int|
            in_grid(r2, c2) && before(r2, c2, r, c) && !is_digit(#[trigger] b[r2][c2]);
        lemma_first_empty_exists(b, r2, c2);
    }
}

/// A grid has a first empty cell exactly when it is not full.
pub proof fn lemma_full_iff_no_empty(b: Board)
    ensures
        full(b) <==> !has_first_empty(b),
{
    if !full(b) {
        let (r, c) = choose|r: int, c: int| in_grid(r, c) && !is_digit(#[trigger] b[r][c]);
        lemma_first_empty_exists(b, r, c);
    }
    if has_first_empty(b) {
        let (r, c) = first_empty_of(b);
        assert(is_first_empty(b, r, c));
    }
}

/// Whatever the search finds from a valid grid is solved and keeps its clues.
pub proof fn lemma_search_sound(b: Board)
    requires
        is_board(b),
        valid(b),
    ensures
        search(b) matches Some(s) ==> is_board(s) && solved(s) && extends(s, b),
    decreases 81 - progress(b), 10int,
{
    if has_first_empty(b) {
        lemma_try_digits_sound(b, 1);
    } else {
        lemma_full_iff_no_empty(b);
    }
}

/// Whatever the search finds with the digits from `d` on is solved and keeps
/// the clues of `b`.
pub proof fn lemma_try_digits_sound(b: Board, d: int)
    requires
        is_board(b),
        valid(b),
    ensures
        try_digits(b, d) matches Some(s) ==> is_board(s) && solved(s) && extends(s, b),
    decreases 81 - progress(b), 10 - d,
{
    if has_first_empty(b) && 1 <= d <= 9 {
        let (r, c) = first_empty_of(b);
        assert(is_first_empty(b, r, c));
        lemma_progress_grows(b, r, c, d as u32);
        let b2 = place_at(b, r, c, d as u32);
        if legal(b, r, c, d as u32) {
            lemma_legal_iff_valid_after(b, r, c, d as u32);
            assert(is_board(b2));
            lemma_search_sound(b2);
            assert(extends(b2, b));
        }
        lemma_try_digits_sound(b, d + 1);
    }
}

/// From a valid grid that has a completion, the search finds a solution.
pub proof fn lemma_search_complete(b: Board, s: Board)
    requires
        is_board(b),
        valid(b),
        is_board(s),
        solved(s),
        extends(s, b),
    ensures
        search(b) is Some,
    decreases 81 - progress(b), 10int,
{
    if has_first_empty(b) {
        let (r, c) = first_empty_of(b);
        assert(is_first_empty(b, r, c));
        assert(is_digit(s[r][c]));
        lemma_try_digits_complete(b, s, 1);
    }
}

/// With the digit of a completion `s` at the first empty cell still to be
/// tried, the search finds a solution.
pub proof fn lemma_try_digits_complete(b: Board, s: Board, d: int)
    requires
        is_board(b),
        valid(b),
        is_board(s),
        solved(s),
        extends(s, b),
        has_first_empty(b),
        1 <= d <= s[first_empty_of(b).0][first_empty_of(b).1],
    ensures
        try_digits(b, d) is Some,
    decreases 81 - progress(b), 10 - d,
{
    let (r, c) = first_empty_of(b);
    assert(is_first_empty(b, r, c));
    let v = s[r][c];
    assert(is_digit(v));
    lemma_progress_grows(b, r, c, d as u32);
    let b2 = place_at(b, r, c, d as u32);
    if legal(b, r, c, d as u32) && search(b2) is Some {
    } else if d < v {
        lemma_try_digits_complete(b, s, d + 1);
    } else {
        assert(legal(s, r, c, v));
        assert forall|r2: int, c2: int|
            in_grid(r2, c2) && peers(r, c, r2, c2) implies #[trigger] b[r2][c2] != v by {
            if is_digit(b[r2][c2]) {
                assert(s[r2][c2] == b[r2][c2]);
            }
        }
        lemma_legal_iff_valid_after(b, r, c, v);
        assert(is_board(b2));
        assert forall|r2: int, c2: int|
            in_grid(r2, c2) && is_digit(#[trigger] b2[r2][c2]) implies s[r2][c2] == b2[r2][c2] by {
            if !(r2 == r && c2 == c) {
                assert(b2[r2][c2] == b[r2][c2]);
            }
        }
        lemma_search_complete(b2, s);
    }
}

/// What `solve` returns is a solved grid that keeps every clue of the input,
/// and it returns nothing exactly when the input has no such completion.
pub proof fn lemma_solution_correct(b: Board)
    requires
        is_board(b),
    ensures
        solution(b) matches Some(s) ==> is_board(s) && solved(s) && units_complete(s) && extends(
            s,
            b,
        ),
        solution(b) is None <==> !solvable(b),
{
    if valid(b) {
        lemma_search_sound(b);
        if solvable(b) {
            let s = choose|s: Board| is_board(s) && solved(s) && #[trigger] extends(s, b);
            lemma_search_complete(b, s);
        }
        if let Some(s) = solution(b) {
            assert(extends(s, b));
            lemma_solved_units(s);
        }
    } else {
        let (r, c) = choose|r: int, c: int|
            in_grid(r, c) && is_digit(#[trigger] b[r][c]) && !legal(b, r, c, b[r][c]);
        let (r2, c2) = choose|r2: int, c2: int|
            in_grid(r2, c2) && peers(r, c, r2, c2) && #[trigger] b[r2][c2] == b[r][c];
        assert forall|s: Board| is_board(s) && solved(s) implies !#[trigger] extends(s, b) by {
            if extends(s, b) {
                assert(s[r][c] == b[r][c]);
                assert(s[r2][c2] == b[r2][c2]);
                assert(legal(s, r, c, s[r][c]));
            }
        }
    }
}

/// Solving a grid that `solve` returned gives that same grid back.
pub proof fn lemma_solution_idempotent(b: Board)
    requires
        is_board(b),
        solution(b) is Some,
    ensures
        solution(solution(b).unwrap()) == solution(b),
{
    lemma_solution_correct(b);
    let s = solution(b).unwrap();
    lemma_full_iff_no_empty(s);
}

} // verus!
