use dancing_links::dancing_links::{DancingLinks, DlxError, Node, check_exact_cover};

// Arena layout for the 3x3 matrix [[1,0,0],[1,1,0],[0,0,1]]:
// 0 root, 1..=3 column headers, 4 = (r0,c0), 5 = (r1,c0), 6 = (r1,c1),
// 7 = (r2,c2).

fn matrix_3x3() -> Vec<Vec<usize>> {
    vec![vec![1, 0, 0], vec![1, 1, 0], vec![0, 0, 1]]
}

#[test]
fn dancing_links_test_new_node() {
    let node = Node::new_node(1, 9);
    assert_eq!(node.row_id, 1);
    assert_eq!(node.size, 0);
    assert_eq!(node.left, 9);
    assert_eq!(node.right, 9);
    assert_eq!(node.up, 9);
    assert_eq!(node.down, 9);
    assert_eq!(node.column, 9);
}

#[test]
fn test_new_col_node() {
    let node = Node::new_column_node(4);
    assert_eq!(node.row_id, 0);
    assert_eq!(node.size, 0);
    assert_eq!(node.left, 4);
    assert_eq!(node.right, 4);
    assert_eq!(node.up, 4);
    assert_eq!(node.down, 4);
    assert_eq!(node.column, 4);
}

#[test]
fn test_from_matrix() {
    //   C0 C1 C2
    // R0 1  0  0
    // R1 1  1  0
    // R2 0  0  1
    let matrix = matrix_3x3();
    let dlx = DancingLinks::from_matrix(&matrix).unwrap();
    let root = 0;
    let col0 = dlx.nodes[root].right;
    let col1 = dlx.nodes[col0].right;
    let col2 = dlx.nodes[col1].right;

    assert_eq!(dlx.nodes[col2].right, root);
    assert_eq!(dlx.nodes[col0].left, root);
    assert_eq!(dlx.nodes[col1].left, col0);
    assert_eq!(dlx.nodes[col2].left, col1);
    assert_eq!(dlx.nodes[root].left, col2);

    // column 0: rows 0 & 1
    let c0_r0 = dlx.nodes[col0].down;
    let c0_r1 = dlx.nodes[c0_r0].down;
    assert_eq!(dlx.nodes[c0_r0].row_id, 0);
    assert_eq!(dlx.nodes[c0_r1].row_id, 1);
    // circular:
    assert_eq!(dlx.nodes[c0_r1].down, col0);
    assert_eq!(dlx.nodes[col0].up, c0_r1);

    // column 1: only row 1
    let c1_r1 = dlx.nodes[col1].down;
    assert_eq!(dlx.nodes[c1_r1].row_id, 1);
    assert_eq!(dlx.nodes[c1_r1].down, col1);

    // column 2: only row 2
    let c2_r2 = dlx.nodes[col2].down;
    assert_eq!(dlx.nodes[c2_r2].row_id, 2);
    assert_eq!(dlx.nodes[c2_r2].down, col2);

    // row 0: single node looping to itself
    assert_eq!(dlx.nodes[c0_r0].right, c0_r0);
    assert_eq!(dlx.nodes[c0_r0].left, c0_r0);

    // row 1: two nodes, C0-R1 <--> C1-R1
    let r1_n0 = c0_r1;
    let r1_n1 = dlx.nodes[r1_n0].right;
    assert_eq!(dlx.nodes[r1_n1].right, r1_n0);
    assert_eq!(dlx.nodes[r1_n1].left, r1_n0);
    assert_eq!(dlx.nodes[r1_n0].left, r1_n1);
    assert_eq!(dlx.nodes[r1_n0].right, r1_n1);
    // the second node really is in column 1
    assert_eq!(dlx.nodes[r1_n1].column, col1);

    // row 2: single node (column 2) looping to itself
    assert_eq!(dlx.nodes[c2_r2].right, c2_r2);
    assert_eq!(dlx.nodes[c2_r2].left, c2_r2);
}

#[test]
fn test_cover_columns() {
    let matrix = matrix_3x3();
    let mut dlx = DancingLinks::from_matrix(&matrix).unwrap();
    let (root, col0, col1, col2) = (0, 1, 2, 3);

    // cover column 0
    let _tok0 = dlx.cover(col0);

    // header ring: root <-> col1 <-> col2 <-> root
    assert_eq!(dlx.nodes[root].right, col1);
    assert_eq!(dlx.nodes[root].left, col2);
    assert_eq!(dlx.nodes[col1].left, root);
    assert_eq!(dlx.nodes[col1].right, col2);
    assert_eq!(dlx.nodes[col2].left, col1);
    assert_eq!(dlx.nodes[col2].right, root);

    // column 1 is now empty
    assert_eq!(dlx.nodes[col1].size, 0);
    assert_eq!(dlx.nodes[col1].down, col1);
    assert_eq!(dlx.nodes[col1].up, col1);

    // column 2 still has its row-2 node
    assert_eq!(dlx.nodes[col2].size, 1);
    let r2 = dlx.nodes[col2].down;
    assert_eq!(dlx.nodes[r2].row_id, 2);
    assert_eq!(dlx.nodes[r2].left, r2);
    assert_eq!(dlx.nodes[r2].right, r2);

    // cover column 2
    let _tok2 = dlx.cover(col2);

    // header ring: root <-> col1 <-> root (col2 removed)
    assert_eq!(dlx.nodes[root].right, col1);
    assert_eq!(dlx.nodes[root].left, col1);
    assert_eq!(dlx.nodes[col1].left, root);
    assert_eq!(dlx.nodes[col1].right, root);
}

#[test]
fn test_uncover_columns() {
    let matrix = matrix_3x3();
    let mut dlx = DancingLinks::from_matrix(&matrix).unwrap();
    let (root, col0, col1, col2) = (0, 1, 2, 3);

    // cover & immediately uncover column 0
    let tok = dlx.cover(col0);
    dlx.uncover(tok);

    // header ring restored: root <-> 0 <-> 1 <-> 2 <-> root
    assert_eq!(dlx.nodes[root].right, col0);
    assert_eq!(dlx.nodes[root].left, col2);
    assert_eq!(dlx.nodes[col0].left, root);
    assert_eq!(dlx.nodes[col0].right, col1);
    assert_eq!(dlx.nodes[col1].left, col0);
    assert_eq!(dlx.nodes[col1].right, col2);
    assert_eq!(dlx.nodes[col2].left, col1);
    assert_eq!(dlx.nodes[col2].right, root);

    // column sizes back to original
    assert_eq!(dlx.nodes[col0].size, 2); // rows 0 & 1
    assert_eq!(dlx.nodes[col1].size, 1); // row 1
    assert_eq!(dlx.nodes[col2].size, 1); // row 2

    // column 0 vertical list again holds rows 0 & 1, in order
    let c0_r0 = dlx.nodes[col0].down;
    assert_eq!(dlx.nodes[c0_r0].row_id, 0);
    let c0_r1 = dlx.nodes[c0_r0].down;
    assert_eq!(dlx.nodes[c0_r1].row_id, 1);
    assert_eq!(dlx.nodes[c0_r1].down, col0);
    assert_eq!(dlx.nodes[col0].up, c0_r1);

    // column 1 once again owns only row 1
    let c1_r1 = dlx.nodes[col1].down;
    assert_eq!(dlx.nodes[c1_r1].row_id, 1);
    assert_eq!(dlx.nodes[c1_r1].down, col1);
    assert_eq!(dlx.nodes[col1].up, c1_r1);

    // column 2 once again owns only row 2
    let c2_r2 = dlx.nodes[col2].down;
    assert_eq!(dlx.nodes[c2_r2].row_id, 2);
    assert_eq!(dlx.nodes[c2_r2].down, col2);
    assert_eq!(dlx.nodes[col2].up, c2_r2);

    // a row link we know changed during cover/uncover: row 0 is back to
    // a single self-looping node
    assert_eq!(dlx.nodes[c0_r0].left, c0_r0);
    assert_eq!(dlx.nodes[c0_r0].right, c0_r0);
}

#[test]
fn test_cover0_cover1_uncover1() {
    let matrix = matrix_3x3();
    let mut dlx = DancingLinks::from_matrix(&matrix).unwrap();
    let (root, col0, col1, col2) = (0, 1, 2, 3);

    // sequence: cover C0 -> cover C1 -> uncover C1
    let _tok0 = dlx.cover(col0);
    let tok1 = dlx.cover(col1);
    dlx.uncover(tok1);

    // header ring should now be root <-> C1 <-> C2 <-> root
    assert_eq!(dlx.nodes[root].right, col1);
    assert_eq!(dlx.nodes[root].left, col2);
    assert_eq!(dlx.nodes[col1].left, root);
    assert_eq!(dlx.nodes[col1].right, col2);
    assert_eq!(dlx.nodes[col2].left, col1);
    assert_eq!(dlx.nodes[col2].right, root);

    // C0 is still covered (detached horizontally)
    assert_ne!(dlx.nodes[root].right, col0);
    // C1 is empty: size 0, vertical list points to itself
    assert_eq!(dlx.nodes[col1].size, 0);
    assert_eq!(dlx.nodes[col1].down, col1);
    assert_eq!(dlx.nodes[col1].up, col1);
    // C2 still holds its single row-2 node
    assert_eq!(dlx.nodes[col2].size, 1);
    let r2 = dlx.nodes[col2].down;
    assert_eq!(dlx.nodes[r2].row_id, 2);
    assert_eq!(dlx.nodes[r2].left, r2);
    assert_eq!(dlx.nodes[r2].right, r2);
}

#[test]
fn test_search_finds_r1_r2() {
    let matrix = matrix_3x3();
    let mut dlx = DancingLinks::from_matrix(&matrix).unwrap();

    let mut solution: Vec<usize> = Vec::new();
    let mut results: Vec<Vec<usize>> = Vec::new();
    dlx.search(&mut solution, &mut results);

    // there is exactly one solution ...
    assert_eq!(results.len(), 1);

    // ... and it must be rows {1, 2} (order independent)
    let mut sol = results[0].clone();
    sol.sort_unstable();
    assert_eq!(sol, vec![1, 2]);
}

#[test]
fn test_matrix_6x7_solution_135() {
    //   C0 C1 C2 C3 C4 C5 C6
    let matrix: Vec<Vec<usize>> = vec![
        vec![1, 0, 0, 1, 0, 0, 1], // 0
        vec![1, 0, 0, 1, 0, 0, 0], // 1  <- want this
        vec![0, 0, 0, 1, 1, 0, 1], // 2
        vec![0, 0, 1, 0, 1, 1, 0], // 3  <- want this
        vec![0, 1, 1, 0, 0, 1, 1], // 4
        vec![0, 1, 0, 0, 0, 0, 1], // 5  <- want this
    ];
    let mut dlx = DancingLinks::from_matrix(&matrix).unwrap();

    let mut partial: Vec<usize> = Vec::new();
    let mut solutions: Vec<Vec<usize>> = Vec::new();
    dlx.search(&mut partial, &mut solutions);

    // there must be at least one solution that is exactly [1, 3, 5]
    let target = vec![1, 3, 5];
    let found = solutions.iter().any(|sol| {
        let mut s = sol.clone();
        s.sort_unstable();
        s == target
    });
    assert!(found, "expected solution [1,3,5] not found");
}

#[test]
fn test_from_matrix_rejects_empty() {
    let matrix: Vec<Vec<usize>> = Vec::new();
    assert_eq!(DancingLinks::from_matrix(&matrix).unwrap_err(), DlxError::InvalidInput);
}

#[test]
fn test_from_matrix_rejects_zero_width() {
    let matrix: Vec<Vec<usize>> = vec![Vec::new(), Vec::new()];
    assert_eq!(DancingLinks::from_matrix(&matrix).unwrap_err(), DlxError::InvalidInput);
}

#[test]
fn test_from_matrix_rejects_ragged_rows() {
    let matrix: Vec<Vec<usize>> = vec![vec![1, 0], vec![1, 0, 1]];
    assert_eq!(DancingLinks::from_matrix(&matrix).unwrap_err(), DlxError::InvalidInput);
}

#[test]
fn test_cover_uncover_restores_whole_arena() {
    // cover/uncover round trip: every neighbour pointer and every column
    // size of every node is restored, for each column in turn
    let matrix: Vec<Vec<usize>> = vec![
        vec![1, 0, 0, 1, 0, 0, 1],
        vec![1, 0, 0, 1, 0, 0, 0],
        vec![0, 0, 0, 1, 1, 0, 1],
        vec![0, 0, 1, 0, 1, 1, 0],
        vec![0, 1, 1, 0, 0, 1, 1],
        vec![0, 1, 0, 0, 0, 0, 1],
    ];
    let mut dlx = DancingLinks::from_matrix(&matrix).unwrap();
    let snapshot = dlx.nodes.clone();
    for c in 1..=7usize {
        let tok = dlx.cover(c);
        dlx.uncover(tok);
        assert_eq!(dlx.nodes, snapshot);
    }
}

#[test]
fn test_cover_uncover_roundtrip_call() {
    // the paired operation leaves the arena untouched
    let matrix = matrix_3x3();
    let mut dlx = DancingLinks::from_matrix(&matrix).unwrap();
    let snapshot = dlx.nodes.clone();
    dlx.cover_uncover_roundtrip(2);
    assert_eq!(dlx.nodes, snapshot);
}

#[test]
fn test_search_restores_structure() {
    // after a fully backtracked search the rings and sizes are exactly
    // the post-construction state
    let matrix = matrix_3x3();
    let mut dlx = DancingLinks::from_matrix(&matrix).unwrap();
    let snapshot = dlx.nodes.clone();
    let mut solution: Vec<usize> = Vec::new();
    let mut results: Vec<Vec<usize>> = Vec::new();
    dlx.search(&mut solution, &mut results);
    assert_eq!(dlx.nodes, snapshot);
    assert!(solution.is_empty());
}

#[test]
fn test_solutions_are_exact_covers() {
    // every returned solution covers each column exactly once
    let matrix: Vec<Vec<usize>> = vec![
        vec![1, 0, 0, 1, 0, 0, 1],
        vec![1, 0, 0, 1, 0, 0, 0],
        vec![0, 0, 0, 1, 1, 0, 1],
        vec![0, 0, 1, 0, 1, 1, 0],
        vec![0, 1, 1, 0, 0, 1, 1],
        vec![0, 1, 0, 0, 0, 0, 1],
    ];
    let mut dlx = DancingLinks::from_matrix(&matrix).unwrap();
    let grid: Vec<Vec<bool>> = matrix
        .iter()
        .map(|row| row.iter().map(|&v| v == 1).collect())
        .collect();
    let mut solution: Vec<usize> = Vec::new();
    let mut results: Vec<Vec<usize>> = Vec::new();
    dlx.search(&mut solution, &mut results);
    assert!(!results.is_empty());
    for sol in &results {
        assert!(check_exact_cover(&grid, sol));
    }
}

#[test]
fn test_zero_column_has_no_solution() {
    // a column of all zeros can never be covered: search must report
    // nothing
    let matrix: Vec<Vec<usize>> = vec![vec![1, 0, 0], vec![0, 0, 1], vec![1, 0, 1]];
    let mut dlx = DancingLinks::from_matrix(&matrix).unwrap();
    let mut solution: Vec<usize> = Vec::new();
    let mut results: Vec<Vec<usize>> = Vec::new();
    dlx.search(&mut solution, &mut results);
    assert!(results.is_empty());
}
