use dancing_links::dancing_links::DancingLinks;
use dancing_links::sudoku::SudokuSolver;

fn print_grid(grid: &Vec<Vec<u8>>) {
    for row in grid {
        let line: Vec<String> = row.iter().map(|d| d.to_string()).collect();
        println!("{}", line.join(" "));
    }
}

fn assert_valid_solution(grid: &Vec<Vec<u8>>, puzzle: &Vec<Vec<u8>>) {
    assert_eq!(grid.len(), 9);
    for r in 0..9 {
        assert_eq!(grid[r].len(), 9);
        for c in 0..9 {
            assert!(grid[r][c] >= 1 && grid[r][c] <= 9);
            if puzzle[r][c] != 0 {
                assert_eq!(grid[r][c], puzzle[r][c]);
            }
        }
    }
    // each row, column and box holds each digit once
    for i in 0..9 {
        let mut row_seen = [false; 10];
        let mut col_seen = [false; 10];
        let mut box_seen = [false; 10];
        for j in 0..9 {
            assert!(!row_seen[grid[i][j] as usize]);
            row_seen[grid[i][j] as usize] = true;
            assert!(!col_seen[grid[j][i] as usize]);
            col_seen[grid[j][i] as usize] = true;
            let br = (i / 3) * 3 + j / 3;
            let bc = (i % 3) * 3 + j % 3;
            assert!(!box_seen[grid[br][bc] as usize]);
            box_seen[grid[br][bc] as usize] = true;
        }
    }
}

#[test]
fn test_sudo_solver() {
    let sudoku_grid: Vec<Vec<u8>> = vec![
        vec![5, 3, 0, 0, 7, 0, 0, 0, 0],
        vec![6, 0, 0, 1, 9, 5, 0, 0, 0],
        vec![0, 9, 8, 0, 0, 0, 0, 6, 0],
        vec![8, 0, 0, 0, 6, 0, 0, 0, 3],
        vec![4, 0, 0, 8, 0, 3, 0, 0, 1],
        vec![7, 0, 0, 0, 2, 0, 0, 0, 6],
        vec![0, 6, 0, 0, 0, 0, 2, 8, 0],
        vec![0, 0, 0, 4, 1, 9, 0, 0, 5],
        vec![0, 0, 0, 0, 8, 0, 0, 7, 9],
    ];
    let sudoku_solver = SudokuSolver::from_grid_to_exact_cover(&sudoku_grid);
    let solution = sudoku_solver.solve();
    if let Some(sol) = solution {
        print_grid(&sol);
        assert_valid_solution(&sol, &sudoku_grid);
    }
}

#[test]
fn test_sudo_solver_for_extreme_difficulty() {
    let sudoku_grid: Vec<Vec<u8>> = vec![
        vec![0, 0, 0, 0, 0, 0, 0, 0, 0],
        vec![0, 3, 0, 5, 0, 0, 0, 6, 0],
        vec![0, 0, 2, 0, 8, 0, 0, 4, 0],
        vec![0, 5, 0, 0, 6, 0, 0, 8, 0],
        vec![0, 1, 0, 0, 7, 0, 0, 0, 0],
        vec![3, 0, 0, 0, 2, 0, 6, 7, 0],
        vec![0, 0, 0, 0, 0, 0, 1, 0, 7],
        vec![1, 0, 0, 8, 0, 0, 0, 0, 4],
        vec![0, 4, 0, 9, 0, 0, 0, 3, 0],
    ];
    let sudoku_solver = SudokuSolver::from_grid_to_exact_cover(&sudoku_grid);
    let solution = sudoku_solver.solve();
    if let Some(sol) = solution {
        print_grid(&sol);
        assert_valid_solution(&sol, &sudoku_grid);
    }
}

#[test]
fn test_fully_specified_grid_has_unique_solution() {
    // a completely given, valid grid encodes to a matrix with exactly
    // one exact cover, and solving returns the grid itself
    let full: Vec<Vec<u8>> = vec![
        vec![5, 3, 4, 6, 7, 8, 9, 1, 2],
        vec![6, 7, 2, 1, 9, 5, 3, 4, 8],
        vec![1, 9, 8, 3, 4, 2, 5, 6, 7],
        vec![8, 5, 9, 7, 6, 1, 4, 2, 3],
        vec![4, 2, 6, 8, 5, 3, 7, 9, 1],
        vec![7, 1, 3, 9, 2, 4, 8, 5, 6],
        vec![9, 6, 1, 5, 3, 7, 2, 8, 4],
        vec![2, 8, 7, 4, 1, 9, 6, 3, 5],
        vec![3, 4, 5, 2, 8, 6, 1, 7, 9],
    ];
    let solver = SudokuSolver::from_grid_to_exact_cover(&full);
    let matrix: Vec<Vec<usize>> = solver
        .matrix
        .iter()
        .map(|row| row.iter().map(|&v| v as usize).collect())
        .collect();
    let mut dlx = DancingLinks::from_matrix(&matrix).unwrap();
    let mut solution: Vec<usize> = Vec::new();
    let mut results: Vec<Vec<usize>> = Vec::new();
    dlx.search(&mut solution, &mut results);
    assert_eq!(results.len(), 1);

    let solved = solver.solve().unwrap();
    assert_eq!(solved, full);
}

#[test]
fn test_build_row_positions() {
    // digit 5 at row 2, column 4: cell constraint 9*2+4 = 22, row
    // constraint 81+9*2+4 = 103, column constraint 162+9*4+4 = 202, box
    // constraint 243+9*1+4 = 256
    let row = SudokuSolver::build_row(2, 4, 5);
    assert_eq!(row.len(), 324);
    for (k, &v) in row.iter().enumerate() {
        if k == 22 || k == 103 || k == 202 || k == 256 {
            assert_eq!(v, 1);
        } else {
            assert_eq!(v, 0);
        }
    }
}

#[test]
fn test_from_grid_candidate_counts() {
    // a grid with one given cell contributes 1 candidate for it and 9
    // for each of the other 80 cells
    let mut grid: Vec<Vec<u8>> = vec![vec![0; 9]; 9];
    grid[0][0] = 7;
    let solver = SudokuSolver::from_grid_to_exact_cover(&grid);
    assert_eq!(solver.row_map.len(), 1 + 80 * 9);
    assert_eq!(solver.matrix.len(), solver.row_map.len());
    assert_eq!(solver.row_map[0], (0, 0, 7));
    // the blank cell at (0, 1) contributes digits 1 through 9 in order
    for d in 1..=9u8 {
        assert_eq!(solver.row_map[d as usize], (0, 1, d));
    }
}
