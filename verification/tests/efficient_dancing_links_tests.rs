use dancing_links::dancing_links::{DancingLinks, Node};

#[test]
fn efficient_dancing_links_test_new_node() {
    let node = Node::new_node(1, 0);
    assert_eq!(node.column, 0);
    assert_eq!(node.left, 0);
    assert_eq!(node.right, 0);
    assert_eq!(node.up, 0);
    assert_eq!(node.down, 0);
    assert_eq!(node.row_id, 1);
    assert_eq!(node.size, 0);
}

#[test]
fn test_from_matrix_small_diagonal() {
    // | 1 0 |
    // | 0 1 |
    let matrix: Vec<Vec<usize>> = vec![vec![1, 0], vec![0, 1]];
    let dlx = DancingLinks::from_matrix(&matrix).unwrap();

    let root = 0usize;
    let col0 = 1usize;
    let col1 = 2usize;

    // exactly 2 column headers and 2 row nodes beside the root
    assert_eq!(dlx.nodes.len(), 1 + 2 + 2);

    // root <-> columns circular linkage: root.right -> col0 -> col1 -> root
    assert_eq!(dlx.nodes[root].right, col0);
    assert_eq!(dlx.nodes[col0].right, col1);
    assert_eq!(dlx.nodes[col1].right, root);
    // backwards:
    assert_eq!(dlx.nodes[root].left, col1);
    assert_eq!(dlx.nodes[col1].left, col0);
    assert_eq!(dlx.nodes[col0].left, root);

    // each column saw exactly one 1-entry
    assert_eq!(dlx.nodes[col0].size, 1);
    assert_eq!(dlx.nodes[col1].size, 1);

    // each row node links back into the correct column
    for (i, n) in [(0usize, 3usize), (1, 4)] {
        let expected_col = if i == 0 { col0 } else { col1 };
        // row_id matches
        assert_eq!(dlx.nodes[n].row_id, i);
        // horizontal: single-node circle
        assert_eq!(dlx.nodes[n].left, n);
        assert_eq!(dlx.nodes[n].right, n);
        // vertical: lives in its column's circular list
        assert_eq!(dlx.nodes[dlx.nodes[n].up].down, n);
        assert_eq!(dlx.nodes[dlx.nodes[n].down].up, n);
        // column reference is correct
        assert_eq!(dlx.nodes[n].column, expected_col);
    }
}

#[test]
fn test_from_matrix_3x3_diagonal() {
    // 3x3 identity matrix
    let matrix: Vec<Vec<usize>> = vec![vec![1, 0, 0], vec![0, 1, 0], vec![0, 0, 1]];
    let dlx = DancingLinks::from_matrix(&matrix).unwrap();

    let root = 0usize;
    let col0 = 1usize;
    let col1 = 2usize;
    let col2 = 3usize;

    // three column headers and three row nodes beside the root
    assert_eq!(dlx.nodes.len(), 1 + 3 + 3);

    // root -> col0 -> col1 -> col2 -> root
    assert_eq!(dlx.nodes[root].right, col0);
    assert_eq!(dlx.nodes[col0].right, col1);
    assert_eq!(dlx.nodes[col1].right, col2);
    assert_eq!(dlx.nodes[col2].right, root);
    // backwards:
    assert_eq!(dlx.nodes[root].left, col2);
    assert_eq!(dlx.nodes[col2].left, col1);
    assert_eq!(dlx.nodes[col1].left, col0);
    assert_eq!(dlx.nodes[col0].left, root);

    // each column saw exactly one 1-entry
    assert_eq!(dlx.nodes[col0].size, 1);
    assert_eq!(dlx.nodes[col1].size, 1);
    assert_eq!(dlx.nodes[col2].size, 1);

    // each row node is in its own one-element horizontal circle and
    // linked vertically under the correct column
    for (i, n) in [(0usize, 4usize), (1, 5), (2, 6)] {
        let expected_col = i + 1;
        assert_eq!(dlx.nodes[n].row_id, i);
        assert_eq!(dlx.nodes[n].left, n);
        assert_eq!(dlx.nodes[n].right, n);
        assert_eq!(dlx.nodes[dlx.nodes[n].up].down, n);
        assert_eq!(dlx.nodes[dlx.nodes[n].down].up, n);
        assert_eq!(dlx.nodes[n].column, expected_col);
    }
}

#[test]
fn test_cover_uncover_column0_on_3x3() {
    // Matrix:
    //    C0   C1   C2
    // R0  1    0    0
    // R1  1    1    0
    // R2  0    0    1
    let matrix: Vec<Vec<usize>> = vec![vec![1, 0, 0], vec![1, 1, 0], vec![0, 0, 1]];
    let mut dlx = DancingLinks::from_matrix(&matrix).unwrap();

    let root = 0usize;
    let col0 = 1usize;
    let col1 = 2usize;
    let col2 = 3usize;

    // capture initial state
    let init_rr = dlx.nodes[root].right;
    let init_rl = dlx.nodes[root].left;
    let init_c0_sz = dlx.nodes[col0].size;
    let init_c1_sz = dlx.nodes[col1].size;
    let init_c2_sz = dlx.nodes[col2].size;

    // cover C0
    let tok = dlx.cover(col0);

    // after cover, C0 is spliced out: root.right should now be C1
    assert_eq!(dlx.nodes[root].right, col1);
    assert_eq!(dlx.nodes[col1].left, root);
    // C0 should no longer be adjacent to root
    assert_ne!(dlx.nodes[root].left, col0);
    assert_ne!(dlx.nodes[root].right, col0);

    // uncover C0
    dlx.uncover(tok);

    // root links restored
    assert_eq!(dlx.nodes[root].right, init_rr);
    assert_eq!(dlx.nodes[root].left, init_rl);

    // column sizes restored
    assert_eq!(dlx.nodes[col0].size, init_c0_sz);
    assert_eq!(dlx.nodes[col1].size, init_c1_sz);
    assert_eq!(dlx.nodes[col2].size, init_c2_sz);

    // C0's vertical chain is intact again
    let mut v = dlx.nodes[col0].down;
    while v != col0 {
        // each node in C0 should point back into the column
        assert_eq!(dlx.nodes[dlx.nodes[v].down].up, v);
        assert_eq!(dlx.nodes[dlx.nodes[v].up].down, v);
        v = dlx.nodes[v].down;
    }
}

#[test]
fn test_search_exact_cover() {
    // the example matrix from Knuth's paper; the unique exact cover is
    // rows 1, 3, and 5
    let matrix: Vec<Vec<usize>> = vec![
        vec![1, 0, 0, 1, 0, 0, 1], // 0
        vec![1, 0, 0, 1, 0, 0, 0], // 1  <- in solution
        vec![0, 0, 0, 1, 1, 0, 1], // 2
        vec![0, 0, 1, 0, 1, 1, 0], // 3  <- in solution
        vec![0, 1, 1, 0, 0, 1, 1], // 4
        vec![0, 1, 0, 0, 0, 0, 1], // 5  <- in solution
    ];
    let mut dlx = DancingLinks::from_matrix(&matrix).unwrap();

    let mut solution: Vec<usize> = Vec::new();
    let mut results: Vec<Vec<usize>> = Vec::new();
    dlx.search(&mut solution, &mut results);

    assert_eq!(results.len(), 1, "should find exactly one cover");
    assert_eq!(results[0], vec![1, 3, 5], "solution rows should be [1,3,5]");
}
