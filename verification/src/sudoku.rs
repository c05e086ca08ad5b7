//! Encoding of a 9-by-9 sudoku grid as an exact-cover matrix, and
//! decoding of a solution row set back into a grid.
//!
//! Each candidate "digit d at row r, column c" becomes one matrix row
//! with exactly four 1-entries, one per constraint family: the cell is
//! filled, row r holds d, column c holds d, and the 3-by-3 box of the
//! cell holds d.  A given cell contributes its one candidate; a blank
//! cell contributes all nine.

use vstd::prelude::*;
use crate::dancing_links::{DancingLinks, valid_input, is_exact_cover, lemma_exact_cover_unique};

verus! {

/// The 324-entry constraint row of candidate "digit at (row, col)":
/// 1 exactly at the cell, row-digit, column-digit and box-digit
/// constraint positions.
pub open spec fn spec_build_row(row_no: int, col_no: int, digit: int) -> Seq<u8> {
    Seq::new(
        324,
        |k: int|
            if k == 9 * row_no + col_no || k == 81 + 9 * row_no + (digit - 1) || k == 162 + 9
                * col_no + (digit - 1) || k == 243 + 9 * ((row_no / 3) * 3 + col_no / 3) + (digit
                - 1) {
                1u8
            } else {
                0u8
            },
    )
}

/// The candidates a single grid cell contributes: its given digit, or
/// all nine digits when the cell is blank.
pub open spec fn cell_entries(r: int, c: int, v: int) -> Seq<(u8, u8, u8)> {
    if v != 0 {
        seq![(r as u8, c as u8, v as u8)]
    } else {
        Seq::new(9, |d: int| (r as u8, c as u8, (d + 1) as u8))
    }
}

/// The candidate list of the first `n` cells of the grid, row-major.
pub open spec fn row_map_upto(g: Seq<Vec<u8>>, n: int) -> Seq<(u8, u8, u8)>
    decreases n,
{
    if n <= 0 {
        Seq::empty()
    } else {
        row_map_upto(g, n - 1) + cell_entries(
            (n - 1) / 9,
            (n - 1) % 9,
            g[(n - 1) / 9]@[(n - 1) % 9] as int,
        )
    }
}

/// Every candidate of the first `n` cells names a cell among them, a
/// digit 1 through 9, and — when its cell is given — the given digit.
pub proof fn lemma_row_map_entry(g: Seq<Vec<u8>>, n: int, x: int)
    requires
        valid_grid(g),
        0 <= n <= 81,
        0 <= x < row_map_upto(g, n).len(),
    ensures
        ({
            let e = row_map_upto(g, n)[x];
            &&& e.0 < 9
            &&& e.1 < 9
            &&& 1 <= e.2 <= 9
            &&& g[e.0 as int]@[e.1 as int] != 0 ==> e.2 == g[e.0 as int]@[e.1 as int]
        }),
    decreases n,
{
    let pre = row_map_upto(g, n - 1);
    let r = (n - 1) / 9;
    let c = (n - 1) % 9;
    if x < pre.len() {
        lemma_row_map_entry(g, n - 1, x);
        assert(row_map_upto(g, n)[x] == pre[x]);
    } else {
        assert(0 <= r < 9 && 0 <= c < 9);
        let v = g[r]@[c] as int;
        let e = row_map_upto(g, n)[x];
        assert(e == cell_entries(r, c, v)[x - pre.len()]);
        if v != 0 {
            assert(e == (r as u8, c as u8, v as u8));
        } else {
            assert(e == (r as u8, c as u8, (x - pre.len() + 1) as u8));
        }
    }
}

/// A solved grid respects the givens: when every cell of `sol` carries
/// a digit that some candidate of `g`'s encoding offers for that cell —
/// which is what `solve` promises of a reported grid — then each given
/// cell of `g` keeps its digit in `sol`.
pub proof fn lemma_solution_respects_givens(
    g: Seq<Vec<u8>>,
    rm: Seq<(u8, u8, u8)>,
    sol: Seq<Vec<u8>>,
)
    requires
        valid_grid(g),
        rm == row_map_upto(g, 81),
        forall|r: int, c: int|
            #![trigger sol[r]@[c]]
            0 <= r < 9 && 0 <= c < 9 ==> exists|x: int|
                0 <= x < rm.len() && (#[trigger] rm[x]) == (r as u8, c as u8, sol[r]@[c]),
    ensures
        forall|r: int, c: int|
            #![trigger sol[r]@[c]]
            0 <= r < 9 && 0 <= c < 9 && g[r]@[c] != 0 ==> sol[r]@[c] == g[r]@[c],
{
    assert forall|r: int, c: int|
        #![trigger sol[r]@[c]]
        0 <= r < 9 && 0 <= c < 9 && g[r]@[c] != 0 implies sol[r]@[c] == g[r]@[c] by {
        let x = choose|x: int|
            0 <= x < rm.len() && (#[trigger] rm[x]) == (r as u8, c as u8, sol[r]@[c]);
        lemma_row_map_entry(g, 81, x);
    }
}

/// The flat 0..81 cell position of a candidate: nine cells per row.
spec fn cand_cell(e: (u8, u8, u8)) -> int {
    (e.0 as int) * 9 + e.1 as int
}

/// The 3-by-3 box that the cell at `(r, c)` belongs to.
pub open spec fn box_of(r: int, c: int) -> int {
    (r / 3) * 3 + c / 3
}

/// Digit `d` fills exactly one cell of row `r` of the grid.
pub open spec fn digit_once_in_row(g: Seq<Vec<u8>>, r: int, d: int) -> bool {
    &&& exists|c: int| 0 <= c < 9 && ((#[trigger] g[r]@[c]) as int == d)
    &&& forall|c1: int, c2: int|
        0 <= c1 < 9 && 0 <= c2 < 9 && ((#[trigger] g[r]@[c1]) as int == d) && ((
        #[trigger] g[r]@[c2]) as int == d) ==> c1 == c2
}

/// Digit `d` fills exactly one cell of column `c` of the grid.
pub open spec fn digit_once_in_col(g: Seq<Vec<u8>>, c: int, d: int) -> bool {
    &&& exists|r: int| 0 <= r < 9 && ((#[trigger] g[r]@[c]) as int == d)
    &&& forall|r1: int, r2: int|
        0 <= r1 < 9 && 0 <= r2 < 9 && ((#[trigger] g[r1]@[c]) as int == d) && ((
        #[trigger] g[r2]@[c]) as int == d) ==> r1 == r2
}

/// Digit `d` fills exactly one cell of box `b` of the grid.
pub open spec fn digit_once_in_box(g: Seq<Vec<u8>>, b: int, d: int) -> bool {
    &&& exists|r: int, c: int|
        0 <= r < 9 && 0 <= c < 9 && box_of(r, c) == b && ((#[trigger] g[r]@[c]) as int == d)
    &&& forall|r1: int, c1: int, r2: int, c2: int|
        0 <= r1 < 9 && 0 <= c1 < 9 && 0 <= r2 < 9 && 0 <= c2 < 9 && box_of(r1, c1) == b && box_of(
            r2,
            c2,
        ) == b && ((#[trigger] g[r1]@[c1]) as int == d) && ((#[trigger] g[r2]@[c2]) as int == d)
            ==> r1 == r2 && c1 == c2
}

/// Everything the decoding of an exact cover into a grid establishes:
/// the constraint matrix rows are the candidates' build rows, `sel` is
/// an exact cover of it, no two selected candidates share a cell, every
/// selected candidate's digit stands at its cell of `flat`, every
/// non-blank cell of `flat` was put there by a selected candidate, and
/// `g` is `flat` reshaped row-major.
spec fn decode_ok(
    mm: Seq<Vec<bool>>,
    rm: Seq<(u8, u8, u8)>,
    sel: Seq<usize>,
    flat: Seq<u8>,
    g: Seq<Vec<u8>>,
) -> bool {
    &&& mm.len() == rm.len()
    &&& mm.len() >= 1
    &&& forall|x: int| 0 <= x < mm.len() ==> (#[trigger] mm[x])@.len() == 324
    &&& forall|x: int|
        0 <= x < rm.len() ==> {
            &&& (#[trigger] rm[x]).0 < 9
            &&& rm[x].1 < 9
            &&& 1 <= rm[x].2 <= 9
        }
    &&& is_exact_cover(mm, sel)
    &&& forall|k: int, q: int|
        #![trigger mm[sel[k] as int]@[q]]
        0 <= k < sel.len() && 0 <= q < 324 ==> (mm[sel[k] as int]@[q] <==> spec_build_row(
            rm[sel[k] as int].0 as int,
            rm[sel[k] as int].1 as int,
            rm[sel[k] as int].2 as int,
        )[q] == 1u8)
    &&& forall|k1: int, k2: int|
        #![trigger sel[k1], sel[k2]]
        0 <= k1 < sel.len() && 0 <= k2 < sel.len() && k1 != k2 ==> cand_cell(rm[sel[k1] as int])
            != cand_cell(rm[sel[k2] as int])
    &&& forall|k: int|
        0 <= k < sel.len() ==> flat[cand_cell(rm[(#[trigger] sel[k]) as int])] == rm[sel[k] as int].2
    &&& forall|p: int|
        #![trigger flat[p]]
        0 <= p < 81 && flat[p] != 0 ==> exists|k: int|
            0 <= k < sel.len() && cand_cell(rm[(#[trigger] sel[k]) as int]) == p
                && rm[sel[k] as int].2 == flat[p]
    &&& flat.len() == 81
    &&& g.len() == 9
    &&& forall|r: int| 0 <= r < 9 ==> (#[trigger] g[r])@.len() == 9
    &&& forall|r: int, c: int| 0 <= r < 9 && 0 <= c < 9 ==> (#[trigger] g[r]@[c]) == flat[r * 9 + c]
}

/// A non-blank grid cell names the one selected candidate that filled
/// it: that candidate sits at exactly this cell and carries the cell's
/// digit.
proof fn lemma_cell_candidate(
    mm: Seq<Vec<bool>>,
    rm: Seq<(u8, u8, u8)>,
    sel: Seq<usize>,
    flat: Seq<u8>,
    g: Seq<Vec<u8>>,
    r: int,
    c: int,
)
    requires
        decode_ok(mm, rm, sel, flat, g),
        0 <= r < 9,
        0 <= c < 9,
        g[r]@[c] != 0,
    ensures
        exists|k: int|
            0 <= k < sel.len() && (#[trigger] rm[sel[k] as int]) == (r as u8, c as u8, g[r]@[c]),
{
    let p = r * 9 + c;
    assert(flat[p] == g[r]@[c] && flat[p] != 0);
    let k = choose|k: int|
        0 <= k < sel.len() && cand_cell(rm[(#[trigger] sel[k]) as int]) == p && rm[sel[k] as int].2
            == flat[p];
    let e = rm[sel[k] as int];
    assert(e.0 as int == r && e.1 as int == c) by (nonlinear_arith)
        requires
            (e.0 as int) * 9 + e.1 as int == r * 9 + c,
            e.0 < 9,
            e.1 < 9,
            0 <= r < 9,
            0 <= c < 9,
    ;
    assert(rm[sel[k] as int] == (r as u8, c as u8, g[r]@[c]));
}

/// Each digit fills exactly one cell of each row of the decoded grid:
/// the pair's row-digit constraint column is covered exactly once.
proof fn lemma_grid_rows(
    mm: Seq<Vec<bool>>,
    rm: Seq<(u8, u8, u8)>,
    sel: Seq<usize>,
    flat: Seq<u8>,
    g: Seq<Vec<u8>>,
)
    requires
        decode_ok(mm, rm, sel, flat, g),
    ensures
        forall|r: int, d: int|
            0 <= r < 9 && 1 <= d <= 9 ==> #[trigger] digit_once_in_row(g, r, d),
{
    assert forall|r: int, d: int|
        0 <= r < 9 && 1 <= d <= 9 implies #[trigger] digit_once_in_row(g, r, d) by {
        let q = 81 + 9 * r + (d - 1);
        lemma_exact_cover_unique(mm, sel, q);
        let k = choose|k: int| 0 <= k < sel.len() && mm[(#[trigger] sel[k]) as int]@[q];
        let e = rm[sel[k] as int];
        assert(spec_build_row(e.0 as int, e.1 as int, e.2 as int)[q] == 1u8);
        assert(e.0 as int == r && e.2 as int == d) by (nonlinear_arith)
            requires
                9 * (e.0 as int) + (e.2 as int) == 9 * r + d,
                e.0 < 9,
                1 <= e.2 <= 9,
                0 <= r < 9,
                1 <= d <= 9,
        ;
        assert(flat[cand_cell(e)] == e.2);
        assert(0 <= e.1 < 9 && ((g[r]@[e.1 as int]) as int == d));
        assert forall|c1: int, c2: int|
            0 <= c1 < 9 && 0 <= c2 < 9 && ((#[trigger] g[r]@[c1]) as int == d) && ((
            #[trigger] g[r]@[c2]) as int == d) implies c1 == c2 by {
            lemma_cell_candidate(mm, rm, sel, flat, g, r, c1);
            lemma_cell_candidate(mm, rm, sel, flat, g, r, c2);
            let ka = choose|ka: int|
                0 <= ka < sel.len() && (#[trigger] rm[sel[ka] as int]) == (
                r as u8,
                c1 as u8,
                g[r]@[c1],
                );
            let kb = choose|kb: int|
                0 <= kb < sel.len() && (#[trigger] rm[sel[kb] as int]) == (
                r as u8,
                c2 as u8,
                g[r]@[c2],
                );
            assert(spec_build_row(r, c1, d)[q] == 1u8);
            assert(spec_build_row(r, c2, d)[q] == 1u8);
            assert(mm[sel[ka] as int]@[q]);
            assert(mm[sel[kb] as int]@[q]);
            assert(ka == kb);
        }
    }
}

/// Each digit fills exactly one cell of each column of the decoded
/// grid: the pair's column-digit constraint column is covered exactly
/// once.
proof fn lemma_grid_cols(
    mm: Seq<Vec<bool>>,
    rm: Seq<(u8, u8, u8)>,
    sel: Seq<usize>,
    flat: Seq<u8>,
    g: Seq<Vec<u8>>,
)
    requires
        decode_ok(mm, rm, sel, flat, g),
    ensures
        forall|c: int, d: int|
            0 <= c < 9 && 1 <= d <= 9 ==> #[trigger] digit_once_in_col(g, c, d),
{
    assert forall|c: int, d: int|
        0 <= c < 9 && 1 <= d <= 9 implies #[trigger] digit_once_in_col(g, c, d) by {
        let q = 162 + 9 * c + (d - 1);
        lemma_exact_cover_unique(mm, sel, q);
        let k = choose|k: int| 0 <= k < sel.len() && mm[(#[trigger] sel[k]) as int]@[q];
        let e = rm[sel[k] as int];
        assert(spec_build_row(e.0 as int, e.1 as int, e.2 as int)[q] == 1u8);
        assert(e.1 as int == c && e.2 as int == d) by (nonlinear_arith)
            requires
                9 * (e.1 as int) + (e.2 as int) == 9 * c + d,
                e.1 < 9,
                1 <= e.2 <= 9,
                0 <= c < 9,
                1 <= d <= 9,
        ;
        assert(flat[cand_cell(e)] == e.2);
        assert(0 <= e.0 < 9 && ((g[e.0 as int]@[c]) as int == d));
        assert forall|r1: int, r2: int|
            0 <= r1 < 9 && 0 <= r2 < 9 && ((#[trigger] g[r1]@[c]) as int == d) && ((
            #[trigger] g[r2]@[c]) as int == d) implies r1 == r2 by {
            lemma_cell_candidate(mm, rm, sel, flat, g, r1, c);
            lemma_cell_candidate(mm, rm, sel, flat, g, r2, c);
            let ka = choose|ka: int|
                0 <= ka < sel.len() && (#[trigger] rm[sel[ka] as int]) == (
                r1 as u8,
                c as u8,
                g[r1]@[c],
                );
            let kb = choose|kb: int|
                0 <= kb < sel.len() && (#[trigger] rm[sel[kb] as int]) == (
                r2 as u8,
                c as u8,
                g[r2]@[c],
                );
            assert(spec_build_row(r1, c, d)[q] == 1u8);
            assert(spec_build_row(r2, c, d)[q] == 1u8);
            assert(mm[sel[ka] as int]@[q]);
            assert(mm[sel[kb] as int]@[q]);
            assert(ka == kb);
        }
    }
}

/// Each digit fills exactly one cell of each box of the decoded grid:
/// the pair's box-digit constraint column is covered exactly once.
proof fn lemma_grid_boxes(
    mm: Seq<Vec<bool>>,
    rm: Seq<(u8, u8, u8)>,
    sel: Seq<usize>,
    flat: Seq<u8>,
    g: Seq<Vec<u8>>,
)
    requires
        decode_ok(mm, rm, sel, flat, g),
    ensures
        forall|b: int, d: int|
            0 <= b < 9 && 1 <= d <= 9 ==> #[trigger] digit_once_in_box(g, b, d),
{
    assert forall|b: int, d: int|
        0 <= b < 9 && 1 <= d <= 9 implies #[trigger] digit_once_in_box(g, b, d) by {
        let q = 243 + 9 * b + (d - 1);
        lemma_exact_cover_unique(mm, sel, q);
        let k = choose|k: int| 0 <= k < sel.len() && mm[(#[trigger] sel[k]) as int]@[q];
        let e = rm[sel[k] as int];
        assert(spec_build_row(e.0 as int, e.1 as int, e.2 as int)[q] == 1u8);
        assert(0 <= (e.0 as int) / 3 <= 2 && 0 <= (e.1 as int) / 3 <= 2) by (nonlinear_arith)
            requires
                0 <= e.0 < 9,
                0 <= e.1 < 9,
        ;
        assert(box_of(e.0 as int, e.1 as int) == b && e.2 as int == d) by (nonlinear_arith)
            requires
                9 * box_of(e.0 as int, e.1 as int) + (e.2 as int) == 9 * b + d,
                0 <= box_of(e.0 as int, e.1 as int) <= 8,
                1 <= e.2 <= 9,
                0 <= b < 9,
                1 <= d <= 9,
        ;
        assert(flat[cand_cell(e)] == e.2);
        assert(0 <= e.0 < 9 && 0 <= e.1 < 9 && ((g[e.0 as int]@[e.1 as int]) as int == d));
        assert forall|r1: int, c1: int, r2: int, c2: int|
            0 <= r1 < 9 && 0 <= c1 < 9 && 0 <= r2 < 9 && 0 <= c2 < 9 && box_of(r1, c1) == b
                && box_of(r2, c2) == b && ((#[trigger] g[r1]@[c1]) as int == d) && ((
            #[trigger] g[r2]@[c2]) as int == d) implies r1 == r2 && c1 == c2 by {
            lemma_cell_candidate(mm, rm, sel, flat, g, r1, c1);
            lemma_cell_candidate(mm, rm, sel, flat, g, r2, c2);
            let ka = choose|ka: int|
                0 <= ka < sel.len() && (#[trigger] rm[sel[ka] as int]) == (
                r1 as u8,
                c1 as u8,
                g[r1]@[c1],
                );
            let kb = choose|kb: int|
                0 <= kb < sel.len() && (#[trigger] rm[sel[kb] as int]) == (
                r2 as u8,
                c2 as u8,
                g[r2]@[c2],
                );
            assert(spec_build_row(r1, c1, d)[q] == 1u8);
            assert(spec_build_row(r2, c2, d)[q] == 1u8);
            assert(mm[sel[ka] as int]@[q]);
            assert(mm[sel[kb] as int]@[q]);
            assert(ka == kb);
        }
    }
}

/// A 9-by-9 grid whose cells are digits 0 (blank) through 9.
pub open spec fn valid_grid(g: Seq<Vec<u8>>) -> bool {
    &&& g.len() == 9
    &&& forall|i: int| 0 <= i < 9 ==> (#[trigger] g[i])@.len() == 9
    &&& forall|i: int, j: int| 0 <= i < 9 && 0 <= j < 9 ==> (#[trigger] g[i]@[j]) <= 9
}

/// A sudoku instance encoded for exact cover: one constraint row per
/// candidate, and the candidate (row, column, digit) each matrix row
/// stands for.
pub struct SudokuSolver {
    pub matrix: Vec<Vec<u8>>,
    pub row_map: Vec<(u8, u8, u8)>,
}

impl SudokuSolver {
    /// The matrix and the candidate list run in step: equal length, one
    /// constraint row per candidate — the 324-wide row the candidate's
    /// cell and digit dictate — every candidate naming a cell and a
    /// digit 1 through 9.
    pub open spec fn wf(self) -> bool {
        &&& self.matrix@.len() == self.row_map@.len()
        &&& self.matrix@.len() >= 1
        &&& forall|k: int| 0 <= k < self.matrix@.len() ==> (#[trigger] self.matrix@[k])@.len() == 324
        &&& forall|k: int|
            0 <= k < self.row_map@.len() ==> {
                &&& (#[trigger] self.row_map@[k]).0 < 9
                &&& self.row_map@[k].1 < 9
                &&& 1 <= self.row_map@[k].2 <= 9
            }
        &&& forall|k: int|
            0 <= k < self.matrix@.len() ==> (#[trigger] self.matrix@[k])@ == spec_build_row(
                self.row_map@[k].0 as int,
                self.row_map@[k].1 as int,
                self.row_map@[k].2 as int,
            )
    }

    /// The constraint row of candidate "digit at (row_no, col_no)".
    pub fn build_row(row_no: usize, col_no: usize, digit: usize) -> (r: Vec<u8>)
        requires
            row_no < 9,
            col_no < 9,
            1 <= digit <= 9,
        ensures
            r@ == spec_build_row(row_no as int, col_no as int, digit as int),
    {
        let mut r: Vec<u8> = Vec::new();
        let mut k: usize = 0;
        while k < 324
            invariant
                k <= 324,
                r@.len() == k,
                forall|q: int| 0 <= q < k ==> (#[trigger] r@[q]) == 0u8,
            decreases 324 - k,
        {
            r.push(0);
            k += 1;
        }
        r.set(9 * row_no + col_no, 1);
        r.set(81 + 9 * row_no + (digit - 1), 1);
        r.set(162 + 9 * col_no + (digit - 1), 1);
        let box_no = (row_no / 3) * 3 + col_no / 3;
        r.set(243 + 9 * box_no + (digit - 1), 1);
        assert(r@ =~= spec_build_row(row_no as int, col_no as int, digit as int));
        r
    }

    /// Encode a grid: walk the cells row-major; a given cell contributes
    /// its one candidate, a blank cell all nine, each candidate with its
    /// constraint row.
    pub fn from_grid_to_exact_cover(sudoku_grid: &Vec<Vec<u8>>) -> (s: SudokuSolver)
        requires
            valid_grid(sudoku_grid@),
        ensures
            s.wf(),
            s.row_map@ == row_map_upto(sudoku_grid@, 81),
    {
        let mut matrix: Vec<Vec<u8>> = Vec::new();
        let mut row_map: Vec<(u8, u8, u8)> = Vec::new();
        let mut row_no: usize = 0;
        while row_no < 9
            invariant
                valid_grid(sudoku_grid@),
                row_no <= 9,
                matrix@.len() == row_map@.len(),
                row_map@ == row_map_upto(sudoku_grid@, 9 * row_no as int),
                forall|k: int|
                    0 <= k < row_map@.len() ==> {
                        &&& (#[trigger] row_map@[k]).0 < 9
                        &&& row_map@[k].1 < 9
                        &&& 1 <= row_map@[k].2 <= 9
                    },
                forall|k: int|
                    0 <= k < matrix@.len() ==> (#[trigger] matrix@[k])@ == spec_build_row(
                        row_map@[k].0 as int,
                        row_map@[k].1 as int,
                        row_map@[k].2 as int,
                    ),
            decreases 9 - row_no,
        {
            let mut col_no: usize = 0;
            while col_no < 9
                invariant
                    valid_grid(sudoku_grid@),
                    row_no < 9,
                    col_no <= 9,
                    matrix@.len() == row_map@.len(),
                    row_map@ == row_map_upto(sudoku_grid@, 9 * row_no as int + col_no as int),
                    forall|k: int|
                        0 <= k < row_map@.len() ==> {
                            &&& (#[trigger] row_map@[k]).0 < 9
                            &&& row_map@[k].1 < 9
                            &&& 1 <= row_map@[k].2 <= 9
                        },
                    forall|k: int|
                        0 <= k < matrix@.len() ==> (#[trigger] matrix@[k])@ == spec_build_row(
                            row_map@[k].0 as int,
                            row_map@[k].1 as int,
                            row_map@[k].2 as int,
                        ),
                decreases 9 - col_no,
            {
                let ghost n = 9 * row_no as int + col_no as int;
                proof {
                    assert(n / 9 == row_no as int && n % 9 == col_no as int) by (nonlinear_arith)
                        requires
                            n == 9 * row_no as int + col_no as int,
                            0 <= row_no < 9,
                            0 <= col_no < 9,
                    ;
                }
                let cell = sudoku_grid[row_no][col_no];
                if cell != 0 {
                    let digit = cell as usize;
                    matrix.push(Self::build_row(row_no, col_no, digit));
                    row_map.push((row_no as u8, col_no as u8, cell));
                    proof {
                        assert(row_map@ =~= row_map_upto(sudoku_grid@, n + 1));
                    }
                } else {
                    let mut d: usize = 1;
                    while d < 10
                        invariant
                            valid_grid(sudoku_grid@),
                            row_no < 9,
                            col_no < 9,
                            1 <= d <= 10,
                            n == 9 * row_no as int + col_no as int,
                            sudoku_grid@[row_no as int]@[col_no as int] == 0,
                            matrix@.len() == row_map@.len(),
                            row_map@ == row_map_upto(sudoku_grid@, n) + Seq::new(
                                (d - 1) as nat,
                                |q: int| (row_no as u8, col_no as u8, (q + 1) as u8),
                            ),
                            forall|k: int|
                                0 <= k < row_map@.len() ==> {
                                    &&& (#[trigger] row_map@[k]).0 < 9
                                    &&& row_map@[k].1 < 9
                                    &&& 1 <= row_map@[k].2 <= 9
                                },
                            forall|k: int|
                                0 <= k < matrix@.len() ==> (#[trigger] matrix@[k])@
                                    == spec_build_row(
                                    row_map@[k].0 as int,
                                    row_map@[k].1 as int,
                                    row_map@[k].2 as int,
                                ),
                        decreases 10 - d,
                    {
                        matrix.push(Self::build_row(row_no, col_no, d));
                        row_map.push((row_no as u8, col_no as u8, d as u8));
                        proof {
                            assert(Seq::new(
                                d as nat,
                                |q: int| (row_no as u8, col_no as u8, (q + 1) as u8),
                            ) =~= Seq::new(
                                (d - 1) as nat,
                                |q: int| (row_no as u8, col_no as u8, (q + 1) as u8),
                            ).push((row_no as u8, col_no as u8, d as u8)));
                            assert(row_map@ =~= row_map_upto(sudoku_grid@, n) + Seq::new(
                                d as nat,
                                |q: int| (row_no as u8, col_no as u8, (q + 1) as u8),
                            ));
                        }
                        d += 1;
                    }
                    proof {
                        assert(cell_entries(row_no as int, col_no as int, 0) =~= Seq::new(
                            9,
                            |q: int| (row_no as u8, col_no as u8, (q + 1) as u8),
                        ));
                        assert(row_map@ =~= row_map_upto(sudoku_grid@, n + 1));
                    }
                }
                col_no += 1;
            }
            row_no += 1;
        }
        SudokuSolver { matrix, row_map }
    }

    /// Solve the instance: hand the constraint matrix to the
    /// dancing-links search and decode the first reported cover, if
    /// any, into a grid.  A reported grid is fully filled, every cell
    /// holds a digit that one of the instance's candidates offers for
    /// exactly that cell, and each digit appears exactly once in every
    /// row, every column and every box.
    pub fn solve(&self) -> (res: Option<Vec<Vec<u8>>>)
        requires
            self.wf(),
        ensures
            res matches Some(g) ==> {
                &&& g@.len() == 9
                &&& forall|r: int| 0 <= r < 9 ==> (#[trigger] g@[r])@.len() == 9
                &&& forall|r: int, c: int|
                    0 <= r < 9 && 0 <= c < 9 ==> 1 <= (#[trigger] g@[r]@[c]) <= 9
                &&& forall|r: int, c: int|
                    #![trigger g@[r]@[c]]
                    0 <= r < 9 && 0 <= c < 9 ==> exists|x: int|
                        0 <= x < self.row_map@.len() && (#[trigger] self.row_map@[x]) == (
                        r as u8,
                        c as u8,
                        g@[r]@[c],
                        )
                &&& forall|r: int, d: int|
                    0 <= r < 9 && 1 <= d <= 9 ==> #[trigger] digit_once_in_row(g@, r, d)
                &&& forall|c: int, d: int|
                    0 <= c < 9 && 1 <= d <= 9 ==> #[trigger] digit_once_in_col(g@, c, d)
                &&& forall|b: int, d: int|
                    0 <= b < 9 && 1 <= d <= 9 ==> #[trigger] digit_once_in_box(g@, b, d)
            },
    {
        let mut m: Vec<Vec<usize>> = Vec::new();
        let mut i: usize = 0;
        while i < self.matrix.len()
            invariant
                self.wf(),
                i <= self.matrix@.len(),
                m@.len() == i,
                forall|q: int| 0 <= q < i ==> (#[trigger] m@[q])@.len() == 324,
                forall|q: int, j: int|
                    0 <= q < i && 0 <= j < 324 ==> (#[trigger] m@[q]@[j]) == self.matrix@[q]@[j] as usize,
            decreases self.matrix@.len() - i,
        {
            let mrow = &self.matrix[i];
            let mut row: Vec<usize> = Vec::new();
            let mut j: usize = 0;
            while j < mrow.len()
                invariant
                    i < self.matrix@.len(),
                    mrow@ == self.matrix@[i as int]@,
                    mrow@.len() == 324,
                    j <= 324,
                    row@.len() == j,
                    forall|j2: int| 0 <= j2 < j ==> (#[trigger] row@[j2]) == mrow@[j2] as usize,
                decreases mrow@.len() - j,
            {
                row.push(mrow[j] as usize);
                j += 1;
            }
            m.push(row);
            i += 1;
        }
        assert(valid_input(m@));
        let mut dlx = match DancingLinks::from_matrix(&m) {
            Ok(d) => d,
            Err(_) => {
                return None;
            },
        };
        let mut solution: Vec<usize> = Vec::new();
        let mut results: Vec<Vec<usize>> = Vec::new();
        dlx.search(&mut solution, &mut results);
        if results.len() == 0 {
            return None;
        }
        let sol = &results[0];
        assert(is_exact_cover(dlx.matrix@, sol@));
        let ghost mm = dlx.matrix@;
        let ghost rm = self.row_map@;
        let ghost sel = sol@;
        proof {
            assert(mm.len() == rm.len());
            assert(mm[0]@.len() == 324);
            // a selected row of the boolean matrix is its candidate's
            // constraint row
            assert forall|k: int, q: int|
                #![trigger mm[sel[k] as int]@[q]]
                0 <= k < sel.len() && 0 <= q < 324 implies (mm[sel[k] as int]@[q]
                    <==> spec_build_row(
                    rm[sel[k] as int].0 as int,
                    rm[sel[k] as int].1 as int,
                    rm[sel[k] as int].2 as int,
                )[q] == 1u8) by {
                let x = sel[k] as int;
                assert(0 <= x < mm.len());
                assert(mm[x]@[q] == (m@[x]@[q] == 1));
                assert(m@[x]@[q] == self.matrix@[x]@[q] as usize);
            }
            // no two selected candidates share a cell: both would cover
            // that cell's constraint column
            assert forall|k1: int, k2: int|
                #![trigger sel[k1], sel[k2]]
                0 <= k1 < sel.len() && 0 <= k2 < sel.len() && k1 != k2 implies cand_cell(
                rm[sel[k1] as int],
            ) != cand_cell(rm[sel[k2] as int]) by {
                let e1 = rm[sel[k1] as int];
                let e2 = rm[sel[k2] as int];
                if cand_cell(e1) == cand_cell(e2) {
                    let p = cand_cell(e1);
                    assert(0 <= p < 81);
                    assert(spec_build_row(e1.0 as int, e1.1 as int, e1.2 as int)[p] == 1u8);
                    assert(spec_build_row(e2.0 as int, e2.1 as int, e2.2 as int)[p] == 1u8);
                    assert(mm[sel[k1] as int]@[p] && mm[sel[k2] as int]@[p]);
                    lemma_exact_cover_unique(mm, sel, p);
                    assert(false);
                }
            }
        }
        let mut flat: Vec<u8> = Vec::new();
        let mut z: usize = 0;
        while z < 81
            invariant
                flat@.len() == z,
                z <= 81,
                forall|q: int| 0 <= q < z ==> (#[trigger] flat@[q]) == 0,
            decreases 81 - z,
        {
            flat.push(0);
            z += 1;
        }
        let mut k: usize = 0;
        while k < sol.len()
            invariant
                self.wf(),
                sel == sol@,
                rm == self.row_map@,
                flat@.len() == 81,
                k <= sel.len(),
                forall|q: int| 0 <= q < sel.len() ==> (#[trigger] sel[q]) < rm.len(),
                forall|p: int| 0 <= p < 81 ==> (#[trigger] flat@[p]) <= 9,
                forall|k1: int, k2: int|
                    #![trigger sel[k1], sel[k2]]
                    0 <= k1 < sel.len() && 0 <= k2 < sel.len() && k1 != k2 ==> cand_cell(
                        rm[sel[k1] as int],
                    ) != cand_cell(rm[sel[k2] as int]),
                forall|k2: int|
                    0 <= k2 < k ==> flat@[cand_cell(rm[(#[trigger] sel[k2]) as int])] == rm[sel[k2] as int].2,
                forall|p: int|
                    #![trigger flat@[p]]
                    0 <= p < 81 && flat@[p] != 0 ==> exists|k2: int|
                        0 <= k2 < k && cand_cell(rm[(#[trigger] sel[k2]) as int]) == p
                            && rm[sel[k2] as int].2 == flat@[p],
            decreases sel.len() - k,
        {
            let ridx = sol[k];
            let (r, c, d) = self.row_map[ridx];
            flat.set((r as usize) * 9 + (c as usize), d);
            k += 1;
        }
        proof {
            // every cell constraint column is covered by a selected
            // candidate, whose only position below 81 is its cell, so
            // every cell was written with that candidate's digit
            assert forall|p: int| 0 <= p < 81 implies 1 <= #[trigger] flat@[p] <= 9 by {
                lemma_exact_cover_unique(mm, sel, p);
                let kk = choose|kk: int| 0 <= kk < sel.len() && mm[(#[trigger] sel[kk]) as int]@[p];
                let e = rm[sel[kk] as int];
                assert(spec_build_row(e.0 as int, e.1 as int, e.2 as int)[p] == 1u8);
                assert(p == 9 * (e.0 as int) + e.1 as int);
                assert(flat@[cand_cell(e)] == e.2);
            }
        }
        let mut grid: Vec<Vec<u8>> = Vec::new();
        let mut gi: usize = 0;
        while gi < 9
            invariant
                flat@.len() == 81,
                forall|p: int| 0 <= p < 81 ==> 1 <= (#[trigger] flat@[p]) <= 9,
                gi <= 9,
                grid@.len() == gi,
                forall|q: int| 0 <= q < gi ==> (#[trigger] grid@[q])@.len() == 9,
                forall|q: int, j: int|
                    0 <= q < gi && 0 <= j < 9 ==> (#[trigger] grid@[q]@[j]) == flat@[q * 9 + j],
            decreases 9 - gi,
        {
            let mut rowv: Vec<u8> = Vec::new();
            let mut gj: usize = 0;
            while gj < 9
                invariant
                    flat@.len() == 81,
                    gi < 9,
                    gj <= 9,
                    rowv@.len() == gj,
                    forall|j: int| 0 <= j < gj ==> (#[trigger] rowv@[j]) == flat@[gi as int * 9 + j],
                decreases 9 - gj,
            {
                rowv.push(flat[gi * 9 + gj]);
                gj += 1;
            }
            grid.push(rowv);
            gi += 1;
        }
        proof {
            assert(decode_ok(mm, rm, sel, flat@, grid@));
            lemma_grid_rows(mm, rm, sel, flat@, grid@);
            lemma_grid_cols(mm, rm, sel, flat@, grid@);
            lemma_grid_boxes(mm, rm, sel, flat@, grid@);
            // every cell holds a digit that a candidate of the instance
            // offers for exactly that cell
            assert forall|r: int, c: int|
                #![trigger grid@[r]@[c]]
                0 <= r < 9 && 0 <= c < 9 implies exists|x: int|
                    0 <= x < self.row_map@.len() && (#[trigger] self.row_map@[x]) == (
                    r as u8,
                    c as u8,
                    grid@[r]@[c],
                    ) by {
                lemma_cell_candidate(mm, rm, sel, flat@, grid@, r, c);
                let kx = choose|kx: int|
                    0 <= kx < sel.len() && (#[trigger] rm[sel[kx] as int]) == (
                    r as u8,
                    c as u8,
                    grid@[r]@[c],
                    );
                assert((sel[kx] as int) < self.row_map@.len());
                assert(self.row_map@[sel[kx] as int] == (r as u8, c as u8, grid@[r]@[c]));
            }
        }
        Some(grid)
    }
}

} // verus!
