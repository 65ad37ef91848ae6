use std::time::{Duration, Instant};

use sudoku::Sudoku;

const CLASSIC: &str = "53..7....\n6..195...\n.98....6.\n8...6...3\n4..8.3..1\n7...2...6\n.6....28.\n...419..5\n....8..79\n";
const CLASSIC_SOLUTION: &str =
    "534678912672195348198342567859761423426853791713924856961537284287419635345286179";
const HARD: &str =
    "000000012008030000000000040120500000000004700060000000507000300000620000000100000";
const HARD_SOLUTION: &str =
    "346795812258431697971862543129576438835214769764389251517948326493627185682153974";
const FORCED_SOLUTION: &str =
    "734658912652197348198342765879561423426873591513924876961735284285419637347286159";

fn grid_of(digits: &str) -> [[u32; 9]; 9] {
    let vals: Vec<u32> = digits.chars().map(|ch| ch.to_digit(10).unwrap()).collect();
    assert_eq!(vals.len(), 81);
    let mut grid = [[0u32; 9]; 9];
    for k in 0..81 {
        grid[k / 9][k % 9] = vals[k];
    }
    grid
}

fn load(text: &str) -> Sudoku {
    Sudoku::load_from_string(text.to_string()).unwrap()
}

fn is_permutation(vals: &[u32]) -> bool {
    let mut seen = [false; 10];
    for &v in vals {
        if !(1..=9).contains(&v) || seen[v as usize] {
            return false;
        }
        seen[v as usize] = true;
    }
    vals.len() == 9
}

fn is_solved(g: &[[u32; 9]; 9]) -> bool {
    for i in 0..9 {
        let row: Vec<u32> = (0..9).map(|c| g[i][c]).collect();
        let col: Vec<u32> = (0..9).map(|r| g[r][i]).collect();
        let bx: Vec<u32> = (0..9).map(|k| g[i / 3 * 3 + k / 3][i % 3 * 3 + k % 3]).collect();
        if !is_permutation(&row) || !is_permutation(&col) || !is_permutation(&bx) {
            return false;
        }
    }
    true
}

fn keeps_clues(s: &[[u32; 9]; 9], g: &[[u32; 9]; 9]) -> bool {
    (0..81).all(|k| g[k / 9][k % 9] == 0 || s[k / 9][k % 9] == g[k / 9][k % 9])
}

/// A straightforward re-check of a whole grid: no digit twice in a unit.
fn naive_valid(g: &[[u32; 9]; 9]) -> bool {
    for r1 in 0..9 {
        for c1 in 0..9 {
            for r2 in 0..9 {
                for c2 in 0..9 {
                    let same_unit =
                        r1 == r2 || c1 == c2 || (r1 / 3 == r2 / 3 && c1 / 3 == c2 / 3);
                    let v = g[r1][c1];
                    if (r1, c1) != (r2, c2) && same_unit && (1..=9).contains(&v) && v == g[r2][c2]
                    {
                        return false;
                    }
                }
            }
        }
    }
    true
}

#[test]
fn all_empty_grid_is_filled_in_ascending_order() {
    let g = load(&".".repeat(81));
    let s = g.solve().unwrap();
    assert_eq!(s.grid[0], [1, 2, 3, 4, 5, 6, 7, 8, 9]);
    assert!(is_solved(&s.grid));
}

#[test]
fn classic_puzzle_is_solved() {
    let g = load(CLASSIC);
    let s = g.solve().unwrap();
    assert_eq!(s.grid, grid_of(CLASSIC_SOLUTION));
    assert_eq!(s.grid[0], [5, 3, 4, 6, 7, 8, 9, 1, 2]);
    assert_eq!(s.grid[1], [6, 7, 2, 1, 9, 5, 3, 4, 8]);
    assert_eq!(s.grid[2], [1, 9, 8, 3, 4, 2, 5, 6, 7]);
    assert!(is_solved(&s.grid));
    assert!(keeps_clues(&s.grid, &g.grid));
}

#[test]
fn two_fives_in_a_row_have_no_solution() {
    let mut text = String::from("55");
    text.push_str(&".".repeat(79));
    let g = load(&text);
    assert!(g.solve().is_none());
}

#[test]
fn single_empty_cell_gets_its_forced_digit() {
    let mut grid = grid_of(FORCED_SOLUTION);
    assert_eq!(grid[4][4], 7);
    grid[4][4] = 0;
    let g = Sudoku { grid };
    assert_eq!(g.first_empty(), Some((4, 4)));
    let legal: Vec<u32> = (1..=9).filter(|&d| g.is_legal(4, 4, d)).collect();
    assert_eq!(legal, vec![7]);
    let s = g.solve().unwrap();
    assert_eq!(s.grid, grid_of(FORCED_SOLUTION));
}

#[test]
fn seventeen_clue_puzzle_is_solved() {
    let g = load(HARD);
    let start = Instant::now();
    let s = g.solve().unwrap();
    assert!(start.elapsed() < Duration::from_secs(15));
    assert_eq!(s.grid, grid_of(HARD_SOLUTION));
    assert!(keeps_clues(&s.grid, &g.grid));
}

#[test]
fn eighty_two_digits_are_rejected() {
    let text = "1".repeat(82);
    let r = Sudoku::load_from_string(text);
    assert_eq!(r.unwrap_err(), "Too many characters in sudoku");
}

#[test]
fn eighty_one_cells_among_other_text_are_accepted() {
    let mut text = String::from("# a comment line\n");
    for _ in 0..9 {
        text.push_str("1 2|3 . 0 x 4 5 6 .\n");
    }
    let g = load(&text);
    for r in 0..9 {
        assert_eq!(g.grid[r], [1, 2, 3, 0, 0, 4, 5, 6, 0]);
    }
}

#[test]
fn short_input_leaves_trailing_cells_empty() {
    let g = load("12.4");
    assert_eq!(g.grid[0], [1, 2, 0, 4, 0, 0, 0, 0, 0]);
    for r in 1..9 {
        assert_eq!(g.grid[r], [0; 9]);
    }
    assert_eq!(g.first_empty(), Some((0, 2)));
}

#[test]
fn zero_and_dot_are_the_same_empty_cell() {
    let a = load(&"0".repeat(81));
    let b = load(&".".repeat(81));
    assert_eq!(a.grid, b.grid);
    assert_eq!(a.grid, Sudoku::empty_grid().grid);
}

#[test]
fn parsed_cells_follow_the_filtered_text() {
    let text = "5 3 . . 7\n\t6 . . 1 9 5 abc 0 9 8";
    let g = load(text);
    let expected = [5, 3, 0, 0, 7, 6, 0, 0, 1, 9, 5, 0, 9, 8];
    for k in 0..81 {
        let want = if k < expected.len() { expected[k] } else { 0 };
        assert_eq!(g.get(k / 9, k % 9), want);
    }
}

#[test]
fn solving_a_solution_gives_it_back() {
    let s = load(CLASSIC).solve().unwrap();
    let again = s.solve().unwrap();
    assert_eq!(again.grid, s.grid);
}

#[test]
fn solving_twice_gives_the_same_grid() {
    let g = load(CLASSIC);
    let a = g.solve().unwrap();
    let b = g.solve().unwrap();
    assert_eq!(a.grid, b.grid);
    let e = Sudoku::empty_grid();
    assert_eq!(e.solve().unwrap().grid, e.solve().unwrap().grid);
}

#[test]
fn is_legal_agrees_with_a_naive_check() {
    let g = load(CLASSIC);
    for r in 0..9 {
        for c in 0..9 {
            if g.get(r, c) != 0 {
                continue;
            }
            for d in 1..=9 {
                let after = g.with(r, c, d);
                assert_eq!(g.is_legal(r, c, d), naive_valid(&after.grid));
            }
        }
    }
}

#[test]
fn is_legal_sees_row_column_and_box() {
    let g = load(CLASSIC);
    // (0, 2) is empty; 5 is in its row, 8 in its column, 9 in its box.
    assert!(!g.is_legal(0, 2, 5));
    assert!(!g.is_legal(0, 2, 8));
    assert!(!g.is_legal(0, 2, 9));
    assert!(g.is_legal(0, 2, 4));
    assert!(g.place(5, 0, 2).is_none());
    let p = g.place(4, 0, 2).unwrap();
    assert_eq!(p.get(0, 2), 4);
    assert_eq!(g.get(0, 2), 0);
}

#[test]
fn with_changes_one_cell_only() {
    let g = Sudoku::empty_grid();
    let h = g.with(8, 8, 9);
    assert_eq!(h.get(8, 8), 9);
    assert_eq!(h.first_empty(), Some((0, 0)));
    let mut count = 0;
    for r in 0..9 {
        for c in 0..9 {
            if h.get(r, c) != 0 {
                count += 1;
            }
        }
    }
    assert_eq!(count, 1);
}

#[test]
fn first_empty_of_a_full_grid_is_none() {
    let g = Sudoku { grid: grid_of(CLASSIC_SOLUTION) };
    assert_eq!(g.first_empty(), None);
    assert!(g.is_valid());
}

#[test]
fn invalid_full_grid_has_no_solution() {
    let mut grid = grid_of(CLASSIC_SOLUTION);
    grid[0][0] = 3;
    let g = Sudoku { grid };
    assert!(!g.is_valid());
    assert!(g.solve().is_none());
}

#[test]
fn clues_of_invalid_partial_grid_are_detected() {
    let g = load("5........5");
    assert!(!g.is_valid());
    assert!(g.solve().is_none());
}

#[test]
fn grid_text_has_boxes_and_bands() {
    let s = load(CLASSIC).solve().unwrap();
    let text = s.to_string();
    let lines: Vec<&str> = text.split('\n').collect();
    assert_eq!(lines.len(), 13);
    assert_eq!(lines[0], "  5  3  4     6  7  8     9  1  2   ");
    assert_eq!(lines[3], "");
    assert_eq!(lines[12], "");
    assert!(text.ends_with("   \n\n"));
    let g = load("1");
    let t = g.to_string();
    assert!(t.starts_with("  1  .  .     .  .  .     .  .  .   \n"));
    assert_eq!(t.len(), 9 * 37 + 3);
}
