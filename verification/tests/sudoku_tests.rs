use puzzlegen::sudoku::{create_puzzle, solve_puzzle, Sudoku};
use puzzlegen::PuzzleError;

fn collect_unit<F: Fn(usize) -> (usize, usize)>(grid: &Sudoku, cell: F) -> Vec<i8> {
    let mut digits: Vec<i8> = (0..9)
        .map(|i| {
            let (r, c) = cell(i);
            grid.value_at(r, c)
        })
        .collect();
    digits.sort();
    digits
}

fn assert_units_complete(grid: &Sudoku) {
    let expected: Vec<i8> = (1..10).collect();
    for r in 0..9 {
        assert_eq!(collect_unit(grid, |i| (r, i)), expected);
    }
    for c in 0..9 {
        assert_eq!(collect_unit(grid, |i| (i, c)), expected);
    }
    for b in 0..9 {
        assert_eq!(
            collect_unit(grid, |i| (b / 3 * 3 + i / 3, b % 3 * 3 + i % 3)),
            expected
        );
    }
}

fn assert_partial_valid(grid: &Sudoku) {
    for r1 in 0..9 {
        for c1 in 0..9 {
            let v1 = grid.value_at(r1, c1);
            if v1 == 0 {
                continue;
            }
            for r2 in 0..9 {
                for c2 in 0..9 {
                    if (r1, c1) == (r2, c2) {
                        continue;
                    }
                    let same_unit =
                        r1 == r2 || c1 == c2 || (r1 / 3 == r2 / 3 && c1 / 3 == c2 / 3);
                    if same_unit {
                        assert_ne!(v1, grid.value_at(r2, c2));
                    }
                }
            }
        }
    }
}

fn count_zeros(grid: &Sudoku) -> usize {
    let mut zeros = 0;
    for r in 0..9 {
        for c in 0..9 {
            if grid.value_at(r, c) == 0 {
                zeros += 1;
            }
        }
    }
    zeros
}

#[test]
fn test_grid_slice() {
    let vals: Vec<Vec<i8>> = vec![
        (1..10).collect(),
        (10..19).collect(),
        (19..28).collect(),
        (28..37).collect(),
        (37..46).collect(),
        (46..55).collect(),
        (55..64).collect(),
        (64..73).collect(),
        (73..82).collect(),
    ];
    let grid = Sudoku::from_values(vals);
    assert_eq!(
        grid.slice(3, 3),
        vec![vec![31, 32, 33], vec![40, 41, 42], vec![49, 50, 51]]
    );
}

#[test]
fn test_can_place() {
    let mut vals = vec![vec![0i8; 9]; 9];
    vals[2][2] = 7;
    let grid = Sudoku::from_values(vals);
    assert!(grid.can_place(2, 3, &8));
    assert!(!grid.can_place(2, 3, &7));
}

#[test]
fn test_can_place_column_and_box() {
    let mut vals = vec![vec![0i8; 9]; 9];
    vals[0][4] = 5;
    vals[4][4] = 3;
    let grid = Sudoku::from_values(vals);
    // occupied cell
    assert!(!grid.can_place(0, 4, &1));
    // column conflict
    assert!(!grid.can_place(8, 4, &5));
    // box conflict: (1, 3) shares the top-middle box with (0, 4)
    assert!(!grid.can_place(1, 3, &5));
    // no conflict
    assert!(grid.can_place(1, 3, &9));
}

#[test]
fn test_puzzle_gen() {
    create_puzzle().unwrap();
}

#[test]
fn test_puzzle_solve() {
    let puzzle_vals = vec![
        vec![6, 8, 0, 0, 5, 0, 0, 3, 0],
        vec![0, 0, 5, 9, 0, 0, 6, 0, 4],
        vec![9, 4, 0, 6, 3, 0, 5, 2, 0],
        vec![0, 7, 4, 3, 0, 0, 2, 5, 0],
        vec![2, 6, 9, 0, 4, 5, 7, 0, 3],
        vec![0, 5, 3, 0, 0, 0, 0, 4, 0],
        vec![0, 1, 0, 0, 6, 7, 0, 9, 0],
        vec![4, 0, 6, 5, 0, 3, 8, 0, 0],
        vec![0, 0, 0, 0, 1, 0, 0, 6, 0],
    ];
    solve_puzzle(puzzle_vals).unwrap();
}

#[test]
fn test_generated_grid_units() {
    let grid = create_puzzle().unwrap();
    assert_units_complete(&grid);
}

#[test]
fn test_solve_keeps_seeded_cells() {
    let puzzle_vals: Vec<Vec<i8>> = vec![
        vec![6, 8, 0, 0, 5, 0, 0, 3, 0],
        vec![0, 0, 5, 9, 0, 0, 6, 0, 4],
        vec![9, 4, 0, 6, 3, 0, 5, 2, 0],
        vec![0, 7, 4, 3, 0, 0, 2, 5, 0],
        vec![2, 6, 9, 0, 4, 5, 7, 0, 3],
        vec![0, 5, 3, 0, 0, 0, 0, 4, 0],
        vec![0, 1, 0, 0, 6, 7, 0, 9, 0],
        vec![4, 0, 6, 5, 0, 3, 8, 0, 0],
        vec![0, 0, 0, 0, 1, 0, 0, 6, 0],
    ];
    let solved = solve_puzzle(puzzle_vals.clone()).unwrap();
    for r in 0..9 {
        for c in 0..9 {
            if puzzle_vals[r][c] != 0 {
                assert_eq!(solved.value_at(r, c), puzzle_vals[r][c]);
            }
        }
    }
    assert_units_complete(&solved);
}

#[test]
fn test_solve_unsolvable_grid() {
    // Row 0 already holds 1..=8 and its last cell sits in a box that holds
    // a 9, so cell (0, 8) has no legal digit: the search must give up.
    let mut vals = vec![vec![0i8; 9]; 9];
    for c in 0..8 {
        vals[0][c] = (c + 1) as i8;
    }
    vals[1][8] = 9;
    assert!(matches!(
        solve_puzzle(vals),
        Err(PuzzleError::SearchExhausted)
    ));
}

#[test]
fn test_mask_sixty_cells() {
    let mut grid = create_puzzle().unwrap();
    grid.hide_values(60).unwrap();
    assert_eq!(count_zeros(&grid), 60);
    assert_partial_valid(&grid);
}

#[test]
fn test_mask_keeps_remaining_digits() {
    let grid = create_puzzle().unwrap();
    let mut before = vec![vec![0i8; 9]; 9];
    for r in 0..9 {
        for c in 0..9 {
            before[r][c] = grid.value_at(r, c);
        }
    }
    let mut masked = Sudoku::from_values(before.clone());
    masked.hide_values(10).unwrap();
    let mut hidden = 0;
    for r in 0..9 {
        for c in 0..9 {
            let v = masked.value_at(r, c);
            if v == 0 {
                hidden += 1;
            } else {
                assert_eq!(v, before[r][c]);
            }
        }
    }
    assert_eq!(hidden, 10);
}

#[test]
fn test_mask_bound() {
    let mut grid = create_puzzle().unwrap();
    let mut before = vec![vec![0i8; 9]; 9];
    for r in 0..9 {
        for c in 0..9 {
            before[r][c] = grid.value_at(r, c);
        }
    }
    assert_eq!(grid.hide_values(82), Err(PuzzleError::InvalidArgument));
    for r in 0..9 {
        for c in 0..9 {
            assert_eq!(grid.value_at(r, c), before[r][c]);
        }
    }
}

#[test]
fn test_mask_everything() {
    let mut grid = create_puzzle().unwrap();
    grid.hide_values(81).unwrap();
    assert_eq!(count_zeros(&grid), 81);
}

#[test]
fn test_default_is_masked_puzzle() {
    let grid = Sudoku::default();
    assert_eq!(count_zeros(&grid), 60);
    for r in 0..9 {
        for c in 0..9 {
            let v = grid.value_at(r, c);
            assert!((0..=9).contains(&v));
        }
    }
    assert_partial_valid(&grid);
}

#[test]
fn test_get_next_empty() {
    let mut vals = vec![vec![0i8; 9]; 9];
    vals[0][0] = 1;
    vals[0][1] = 2;
    let grid = Sudoku::from_values(vals);
    assert_eq!(grid.get_next_empty(), Some(vec![0, 2]));
    let full = Sudoku::from_values(vec![vec![5i8; 9]; 9]);
    assert_eq!(full.get_next_empty(), None);
}
