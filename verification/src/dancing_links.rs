//! Dancing-links (Algorithm X) exact-cover solver.
//!
//! The toroidal doubly-linked matrix is laid out as an arena of nodes
//! addressed by `usize` indices: index 0 is the root header, indices
//! `1..=ncols` are the column headers, and the remaining indices are the
//! row cells, one per 1-entry of the input matrix.  Neighbour fields hold
//! indices rather than pointers, so covering and uncovering are plain
//! index swaps.
//!
//! Every link edit made by `cover` is recorded in a token holding the
//! prior node values; `uncover` consumes the token and replays it in
//! reverse, which restores the arena exactly.  The solver certifies each
//! complete candidate row set against the stored matrix before reporting
//! it, so every reported solution provably covers each column exactly
//! once.

use vstd::prelude::*;

verus! {

/// One element of the toroidal matrix: either a column header or a row
/// cell.  All five index fields point into the owning arena.
#[derive(Clone, Copy, Debug, PartialEq, Eq, Structural)]
pub struct Node {
    /// Originating row index for row cells; 0 (unused) for headers.
    pub row_id: usize,
    /// For column headers: number of cells currently linked into the
    /// column's vertical ring.  Unused for row cells.
    pub size: usize,
    /// Index of the header of the column this cell belongs to; a header
    /// points to itself.
    pub column: usize,
    /// Neighbour in the row's horizontal ring.
    pub left: usize,
    /// Neighbour in the row's horizontal ring.
    pub right: usize,
    /// Neighbour in the column's vertical ring.
    pub up: usize,
    /// Neighbour in the column's vertical ring.
    pub down: usize,
}

/// All five index fields of `n` stay inside an arena of length `len`.
pub open spec fn node_in_bounds(n: Node, len: int) -> bool {
    &&& n.column < len
    &&& n.left < len
    &&& n.right < len
    &&& n.up < len
    &&& n.down < len
}

impl Node {
    /// A fresh row cell: a self-loop on all four neighbour links (and on
    /// `column`), the base case all linking logic builds from.  `me` is
    /// the arena slot the node is created for.
    pub fn new_node(row_id: usize, me: usize) -> (n: Node)
        ensures
            n.row_id == row_id,
            n.size == 0,
            n.column == me,
            n.left == me,
            n.right == me,
            n.up == me,
            n.down == me,
    {
        Node { row_id, size: 0, column: me, left: me, right: me, up: me, down: me }
    }

    /// A fresh column header for arena slot `me`: a self-loop on all
    /// links, empty (`size == 0`), owning itself.
    pub fn new_column_node(me: usize) -> (n: Node)
        ensures
            n.row_id == 0,
            n.size == 0,
            n.column == me,
            n.left == me,
            n.right == me,
            n.up == me,
            n.down == me,
    {
        Node { row_id: 0, size: 0, column: me, left: me, right: me, up: me, down: me }
    }
}

/// One recorded overwrite of an arena slot: `prior` is the whole node
/// value that slot `idx` held just before the overwrite.
#[derive(Clone, Copy, Debug)]
pub struct Edit {
    pub idx: usize,
    pub prior: Node,
}

/// The reversible-edit token a `cover` call returns: the ordered list of
/// node overwrites it performed.  `uncover` consumes it and replays the
/// prior values in reverse, which restores the arena exactly.
pub struct CoverToken {
    pub trail: Vec<Edit>,
}

/// Every recorded slot and every recorded prior value stays inside an
/// arena of length `len`.
pub open spec fn trail_in_bounds(t: Seq<Edit>, len: int) -> bool {
    forall|k: int|
        0 <= k < t.len() ==> (#[trigger] t[k]).idx < len && node_in_bounds(t[k].prior, len)
}

/// The arena obtained by replaying the recorded prior values of `t` onto
/// `s`, last edit first.
pub open spec fn undo(s: Seq<Node>, t: Seq<Edit>) -> Seq<Node>
    decreases t.len(),
{
    if t.len() == 0 {
        s
    } else {
        undo(s.update(t.last().idx as int, t.last().prior), t.drop_last())
    }
}

/// Recording the prior value of slot `i` before overwriting it keeps the
/// replay exact: undoing the extended trail from the updated arena gives
/// whatever undoing the old trail from the old arena gave.
proof fn lemma_undo_push(s: Seq<Node>, t: Seq<Edit>, i: usize, v: Node)
    requires
        i < s.len(),
    ensures
        undo(s.update(i as int, v), t.push(Edit { idx: i, prior: s[i as int] })) == undo(s, t),
{
    let t2 = t.push(Edit { idx: i, prior: s[i as int] });
    assert(t2.drop_last() == t);
    assert(s.update(i as int, v).update(i as int, s[i as int]) =~= s);
}

/// Every listed row index names a row of the matrix.
pub open spec fn rows_in_range(m: Seq<Vec<bool>>, rows: Seq<usize>) -> bool {
    forall|k: int| 0 <= k < rows.len() ==> (#[trigger] rows[k]) < m.len()
}

/// How many of the first `n` listed rows have a 1-entry in column `c`.
pub open spec fn hits(m: Seq<Vec<bool>>, rows: Seq<usize>, c: int, n: int) -> int
    decreases n,
{
    if n <= 0 {
        0
    } else {
        hits(m, rows, c, n - 1) + if m[rows[n - 1] as int]@[c] {
            1int
        } else {
            0int
        }
    }
}

/// The exact-cover property: the listed rows name rows of `m`, and their
/// 1-entries cover every column of `m` exactly once — no column is left
/// uncovered and none is covered twice.
pub open spec fn is_exact_cover(m: Seq<Vec<bool>>, rows: Seq<usize>) -> bool {
    &&& rows_in_range(m, rows)
    &&& forall|c: int| 0 <= c < m[0]@.len() ==> hits(m, rows, c, rows.len() as int) == 1
}

proof fn lemma_hits_mono(m: Seq<Vec<bool>>, rows: Seq<usize>, c: int, a: int, b: int)
    requires
        0 <= a <= b,
    ensures
        hits(m, rows, c, a) <= hits(m, rows, c, b),
    decreases b - a,
{
    if a < b {
        lemma_hits_mono(m, rows, c, a, b - 1);
    }
}

proof fn lemma_hits_pos_exists(m: Seq<Vec<bool>>, rows: Seq<usize>, c: int, n: int)
    requires
        0 <= n <= rows.len(),
        hits(m, rows, c, n) >= 1,
    ensures
        exists|k: int| 0 <= k < n && m[(#[trigger] rows[k]) as int]@[c],
    decreases n,
{
    if n > 0 {
        if m[rows[n - 1] as int]@[c] {
            assert(0 <= n - 1 < n && m[rows[n - 1] as int]@[c]);
        } else {
            lemma_hits_pos_exists(m, rows, c, n - 1);
        }
    }
}

/// The unique-coverage reading of the exact-cover property: for every
/// column, some selected row covers it, and any two selected rows that
/// cover it are the same selection.
pub proof fn lemma_exact_cover_unique(m: Seq<Vec<bool>>, rows: Seq<usize>, c: int)
    requires
        is_exact_cover(m, rows),
        0 <= c < m[0]@.len(),
    ensures
        exists|k: int| 0 <= k < rows.len() && m[(#[trigger] rows[k]) as int]@[c],
        forall|k1: int, k2: int|
            0 <= k1 < rows.len() && 0 <= k2 < rows.len() && m[(#[trigger] rows[k1]) as int]@[c]
                && m[(#[trigger] rows[k2]) as int]@[c] ==> k1 == k2,
{
    let n = rows.len() as int;
    lemma_hits_pos_exists(m, rows, c, n);
    assert forall|k1: int, k2: int|
        0 <= k1 < rows.len() && 0 <= k2 < rows.len() && m[(#[trigger] rows[k1]) as int]@[c]
            && m[(#[trigger] rows[k2]) as int]@[c] implies k1 == k2 by {
        if k1 != k2 {
            let lo = if k1 < k2 {
                k1
            } else {
                k2
            };
            let hi = if k1 < k2 {
                k2
            } else {
                k1
            };
            lemma_hits_mono(m, rows, c, 0, lo);
            assert(hits(m, rows, c, lo + 1) >= 1);
            lemma_hits_mono(m, rows, c, lo + 1, hi);
            assert(hits(m, rows, c, hi + 1) >= 2);
            lemma_hits_mono(m, rows, c, hi + 1, n);
        }
    }
}

proof fn lemma_hits_zero(m: Seq<Vec<bool>>, rows: Seq<usize>, c: int, n: int)
    requires
        0 <= n <= rows.len(),
        rows_in_range(m, rows),
        forall|i: int| 0 <= i < m.len() ==> !(#[trigger] m[i])@[c],
    ensures
        hits(m, rows, c, n) == 0,
    decreases n,
{
    if n > 0 {
        lemma_hits_zero(m, rows, c, n - 1);
    }
}

/// A column with no 1-entries can never be covered: a matrix holding one
/// has no exact cover at all, whatever rows are selected.  Together with
/// `search`'s postcondition, a search over such a matrix reports
/// nothing.
pub proof fn lemma_zero_column_no_cover(m: Seq<Vec<bool>>, rows: Seq<usize>, c: int)
    requires
        0 <= c < m[0]@.len(),
        forall|i: int| 0 <= i < m.len() ==> !(#[trigger] m[i])@[c],
    ensures
        !is_exact_cover(m, rows),
{
    if rows_in_range(m, rows) {
        lemma_hits_zero(m, rows, c, rows.len() as int);
    }
}

/// Decide the exact-cover property of a candidate row selection against
/// a non-empty rectangular matrix.
pub fn check_exact_cover(matrix: &Vec<Vec<bool>>, rows: &Vec<usize>) -> (b: bool)
    requires
        matrix@.len() > 0,
        forall|i: int| 0 <= i < matrix@.len() ==> (#[trigger] matrix@[i])@.len() == matrix@[0]@.len(),
    ensures
        b == is_exact_cover(matrix@, rows@),
{
    let nrows = rows.len();
    let mut k: usize = 0;
    while k < nrows
        invariant
            nrows == rows@.len(),
            k <= nrows,
            forall|q: int| 0 <= q < k ==> (#[trigger] rows@[q]) < matrix@.len(),
        decreases nrows - k,
    {
        if rows[k] >= matrix.len() {
            return false;
        }
        k += 1;
    }
    let width = matrix[0].len();
    let mut c: usize = 0;
    while c < width
        invariant
            matrix@.len() > 0,
            forall|i: int|
                0 <= i < matrix@.len() ==> (#[trigger] matrix@[i])@.len() == matrix@[0]@.len(),
            width == matrix@[0]@.len(),
            nrows == rows@.len(),
            c <= width,
            rows_in_range(matrix@, rows@),
            forall|q: int| 0 <= q < c ==> hits(matrix@, rows@, q, rows@.len() as int) == 1,
        decreases width - c,
    {
        let mut count: usize = 0;
        let mut k2: usize = 0;
        while k2 < nrows
            invariant
                matrix@.len() > 0,
                forall|i: int|
                    0 <= i < matrix@.len() ==> (#[trigger] matrix@[i])@.len() == matrix@[0]@.len(),
                width == matrix@[0]@.len(),
                c < width,
                nrows == rows@.len(),
                k2 <= nrows,
                rows_in_range(matrix@, rows@),
                count <= k2,
                count == hits(matrix@, rows@, c as int, k2 as int),
            decreases nrows - k2,
        {
            if matrix[rows[k2]][c] {
                count += 1;
            }
            k2 += 1;
        }
        if count != 1 {
            return false;
        }
        c += 1;
    }
    true
}

/// `post` extends `pre` by appended entries only, and every appended
/// entry is an exact cover of `m`.
pub open spec fn results_extended(pre: Seq<Vec<usize>>, post: Seq<Vec<usize>>, m: Seq<Vec<bool>>) -> bool {
    &&& post.len() >= pre.len()
    &&& forall|k: int| 0 <= k < pre.len() ==> post[k] == pre[k]
    &&& forall|k: int| pre.len() <= k < post.len() ==> is_exact_cover(m, (#[trigger] post[k])@)
}

proof fn lemma_results_extended_trans(
    a: Seq<Vec<usize>>,
    b: Seq<Vec<usize>>,
    c: Seq<Vec<usize>>,
    m: Seq<Vec<bool>>,
)
    requires
        results_extended(a, b, m),
        results_extended(b, c, m),
    ensures
        results_extended(a, c, m),
{
}

/// The arena obtained by consuming the tokens of `toks` newest first,
/// replaying each token's trail.
pub open spec fn undo_all(s: Seq<Node>, toks: Seq<CoverToken>) -> Seq<Node>
    decreases toks.len(),
{
    if toks.len() == 0 {
        s
    } else {
        undo_all(undo(s, toks.last().trail@), toks.drop_last())
    }
}

/// Every token's trail stays inside an arena of length `len`.
pub open spec fn toks_in_bounds(toks: Seq<CoverToken>, len: int) -> bool {
    forall|k: int| 0 <= k < toks.len() ==> trail_in_bounds((#[trigger] toks[k]).trail@, len)
}

/// The row indices the partial-solution stack stands for: each stacked
/// node's `row_id`.
pub open spec fn stack_row_ids(s: Seq<Node>, sol: Seq<usize>) -> Seq<usize> {
    Seq::new(sol.len(), |k: int| s[sol[k] as int].row_id)
}

/// One vertical unlink, exactly as `cover` performs it on the cell at
/// `j`: the cell's lower neighbour takes the cell's `up`, its upper
/// neighbour takes the cell's `down`, and the cell's column loses one
/// from its size (a malformed size of zero stays zero).  The cell's own
/// links stay, which is what lets a later relink restore it.
pub open spec fn unlink_cell(s: Seq<Node>, j: int) -> Seq<Node> {
    let u = s[j].up as int;
    let d = s[j].down as int;
    let jc = s[j].column as int;
    let s1 = s.update(d, Node { up: s[j].up, ..s[d] });
    let s2 = s1.update(u, Node { down: s[j].down, ..s1[u] });
    s2.update(
        jc,
        Node {
            size: if s2[jc].size > 0 {
                (s2[jc].size - 1) as usize
            } else {
                0
            },
            ..s2[jc]
        },
    )
}

/// `cover`'s walk along one row: starting at `j`, unlink each cell and
/// step right, until the walk returns to the pivot cell `i` or exhausts
/// its step budget.
pub open spec fn cover_row(s: Seq<Node>, i: int, j: int, fuel: nat) -> Seq<Node>
    decreases fuel,
{
    if j == i || fuel == 0 {
        s
    } else {
        let s1 = unlink_cell(s, j);
        cover_row(s1, i, s1[j].right as int, (fuel - 1) as nat)
    }
}

/// `cover`'s walk down the covered column: starting at `i`, unlink each
/// met cell's whole row (left of the column's own cells) and step down,
/// until the walk returns to the header `c` or exhausts its budget.
pub open spec fn cover_column(s: Seq<Node>, c: int, i: int, fuel: nat) -> Seq<Node>
    decreases fuel,
{
    if i == c || fuel == 0 {
        s
    } else {
        let s1 = cover_row(s, i, s[i].right as int, s.len());
        cover_column(s1, c, s1[i].down as int, (fuel - 1) as nat)
    }
}

/// The whole effect of a `cover` of `c` on the arena: splice `c` out of
/// its horizontal ring, then walk its vertical ring top to bottom,
/// unlinking every other cell of each met row from that cell's own
/// column and decrementing that column's size.  The step budgets equal
/// the arena's size; a true toroidal ring is always shorter, so on one
/// the walks end at their anchors.
pub open spec fn cover_spec(s: Seq<Node>, c: int) -> Seq<Node> {
    let l = s[c].left as int;
    let r = s[c].right as int;
    let s1 = s.update(r, Node { left: s[c].left, ..s[r] });
    let s2 = s1.update(l, Node { right: s[c].right, ..s1[l] });
    cover_column(s2, c, s2[c].down as int, s2.len())
}

/// The column `search` selects: walk the header ring rightwards from
/// `cur`, keeping the first least-size column seen, until the walk
/// returns to the root or exhausts its budget.
pub open spec fn min_size_column(s: Seq<Node>, best: int, cur: int, fuel: nat) -> int
    decreases fuel,
{
    if cur == 0 || fuel == 0 {
        best
    } else {
        min_size_column(
            s,
            if s[cur].size < s[best].size {
                cur
            } else {
                best
            },
            s[cur].right as int,
            (fuel - 1) as nat,
        )
    }
}

/// The arena after `search` covers, left to right from `j`, the column
/// of every cell of a tried row other than the pivot cell `r`.
pub open spec fn row_covers(s: Seq<Node>, r: int, j: int, fuel: nat) -> Seq<Node>
    decreases fuel,
{
    if j == r || fuel == 0 {
        s
    } else {
        let s1 = cover_spec(s, s[j].column as int);
        row_covers(s1, r, s1[j].right as int, (fuel - 1) as nat)
    }
}

/// The row-index lists `search` reports while trying, top to bottom
/// from `r`, the rows of the chosen column `c`: each row's branch
/// covers the row's other columns, explores the narrowed structure with
/// the row pushed, and is undone exactly before the next row — so the
/// walk continues through the arena `s1` as it stood after covering
/// `c`.
pub open spec fn search_rows_spec(
    s1: Seq<Node>,
    m: Seq<Vec<bool>>,
    sol: Seq<usize>,
    c: int,
    r: int,
    fuel_rows: nat,
    fuel: nat,
) -> Seq<Seq<usize>>
    decreases fuel, 0int, fuel_rows,
{
    if r == c || fuel_rows == 0 || fuel == 0 {
        Seq::empty()
    } else {
        let s2 = row_covers(s1, r, s1[r].right as int, s1.len());
        search_spec(s2, m, sol.push(r as usize), (fuel - 1) as nat) + search_rows_spec(
            s1,
            m,
            sol,
            c,
            s1[r].down as int,
            (fuel_rows - 1) as nat,
            fuel,
        )
    }
}

/// Exactly what a `search` call over arena `s`, matrix `m` and stack
/// `sol` reports, in order: in the base case the stack's row ids when
/// they certify as an exact cover and nothing otherwise; in the
/// recursive case the reports of every row of the chosen least-size
/// column in turn.  The budgets mirror the walks' step caps and the
/// recursion's depth bound.
pub open spec fn search_spec(s: Seq<Node>, m: Seq<Vec<bool>>, sol: Seq<usize>, fuel: nat) -> Seq<
    Seq<usize>,
>
    decreases fuel, 1int, 0int,
{
    if fuel == 0 {
        Seq::empty()
    } else if s[0].right == 0 {
        if is_exact_cover(m, stack_row_ids(s, sol)) {
            seq![stack_row_ids(s, sol)]
        } else {
            Seq::empty()
        }
    } else {
        let c = min_size_column(s, s[0].right as int, s[s[0].right as int].right as int, s.len());
        let s1 = cover_spec(s, c);
        search_rows_spec(s1, m, sol, c, s1[c].down as int, s1.len(), fuel)
    }
}

/// What construction accepts: a matrix with at least one row, at least
/// one column, and all rows of equal length.  Everything else is
/// rejected.
pub open spec fn valid_input(m: Seq<Vec<usize>>) -> bool {
    &&& m.len() > 0
    &&& m[0]@.len() > 0
    &&& forall|i: int| 0 <= i < m.len() ==> (#[trigger] m[i])@.len() == m[0]@.len()
}

/// `g` is the cell-for-cell boolean image of the 0/1 input `m`: an entry
/// is set exactly where the input holds a 1.
pub open spec fn grid_matches(g: Seq<Vec<bool>>, m: Seq<Vec<usize>>) -> bool {
    &&& g.len() == m.len()
    &&& forall|i: int| 0 <= i < m.len() ==> (#[trigger] g[i])@.len() == m[i]@.len()
    &&& forall|i: int, j: int|
        0 <= i < m.len() && 0 <= j < m[i]@.len() ==> (#[trigger] g[i]@[j]) == (m[i]@[j] == 1)
}

/// The root and the `ncols` column headers form the circular horizontal
/// ring `0 -> 1 -> ... -> ncols -> 0`, each header owning itself and
/// carrying no row.
pub open spec fn header_ring(nodes: Seq<Node>, ncols: int) -> bool {
    forall|i: int|
        0 <= i <= ncols ==> {
            &&& (#[trigger] nodes[i]).right as int == (if i == ncols {
                0int
            } else {
                i + 1
            })
            &&& nodes[i].left as int == (if i == 0 {
                ncols
            } else {
                i - 1
            })
            &&& nodes[i].column == i
            &&& nodes[i].row_id == 0
        }
}

/// How many of the first `n` entries of `row` are 1.
pub open spec fn row_ones(row: Seq<usize>, n: int) -> int
    decreases n,
{
    if n <= 0 {
        0
    } else {
        row_ones(row, n - 1) + if row[n - 1] == 1 {
            1int
        } else {
            0int
        }
    }
}

/// How many 1-entries column `j` has among the first `n` rows of `m`.
pub open spec fn col_ones(m: Seq<Vec<usize>>, j: int, n: int) -> int
    decreases n,
{
    if n <= 0 {
        0
    } else {
        col_ones(m, j, n - 1) + if m[n - 1]@[j] == 1 {
            1int
        } else {
            0int
        }
    }
}

/// How many 1-entries the first `n` rows of `m` have in all.
pub open spec fn total_ones(m: Seq<Vec<usize>>, n: int) -> int
    decreases n,
{
    if n <= 0 {
        0
    } else {
        total_ones(m, n - 1) + row_ones(m[n - 1]@, m[n - 1]@.len() as int)
    }
}

/// The arena slot that the cell of a 1-entry at row `i`, column `j`
/// occupies: after the root and the headers come the cells of earlier
/// rows, then the earlier cells of row `i`.
pub open spec fn cell_index(m: Seq<Vec<usize>>, i: int, j: int) -> int {
    1 + m[0]@.len() + total_ones(m, i) + row_ones(m[i]@, j)
}

proof fn lemma_col_ones_le(m: Seq<Vec<usize>>, j: int, n: int)
    requires
        n >= 0,
    ensures
        0 <= col_ones(m, j, n) <= n,
    decreases n,
{
    if n > 0 {
        lemma_col_ones_le(m, j, n - 1);
    }
}

/// The row of the 1-entry of column `j` that has exactly `t` 1-entries
/// of that column above it, searching from row `i` on with `t` ones
/// already accounted for; the row count when there is no such entry.
pub open spec fn nth_one_row_from(m: Seq<Vec<usize>>, j: int, t: int, i: int) -> int
    decreases m.len() - i,
{
    if i < 0 || i >= m.len() {
        m.len() as int
    } else if m[i]@[j] == 1 {
        if t == 0 {
            i
        } else {
            nth_one_row_from(m, j, t - 1, i + 1)
        }
    } else {
        nth_one_row_from(m, j, t, i + 1)
    }
}

/// The row of the 1-entry of column `j` preceded by exactly `t`
/// 1-entries of that column.
pub open spec fn nth_one_row(m: Seq<Vec<usize>>, j: int, t: int) -> int {
    nth_one_row_from(m, j, t, 0)
}

/// Walking from row `i` with `col_ones(m, j, i)` ones behind lands the
/// search for the `t`-th one on the right row: on `i` itself when `i`
/// holds a 1 and is the `t`-th, and in general on the unique 1-entry
/// with `t` ones above it, as long as one exists among the first `n`
/// rows.
proof fn lemma_nth_one_from(m: Seq<Vec<usize>>, j: int, t: int, i: int, n: int)
    requires
        0 <= i <= n <= m.len(),
        col_ones(m, j, i) <= t < col_ones(m, j, n),
    ensures
        i <= nth_one_row_from(m, j, t - col_ones(m, j, i), i) < n,
        m[nth_one_row_from(m, j, t - col_ones(m, j, i), i)]@[j] == 1,
        col_ones(m, j, nth_one_row_from(m, j, t - col_ones(m, j, i), i)) == t,
    decreases m.len() - i,
{
    lemma_col_ones_monotone(m, j, i, n);
    if m[i]@[j] == 1 && col_ones(m, j, i) == t {
        assert(col_ones(m, j, i + 1) == t + 1);
    } else {
        assert(col_ones(m, j, i + 1) <= t) by {
            if m[i]@[j] == 1 {
                assert(col_ones(m, j, i + 1) == col_ones(m, j, i) + 1);
            } else {
                assert(col_ones(m, j, i + 1) == col_ones(m, j, i));
            }
        }
        lemma_nth_one_from(m, j, t, i + 1, n);
    }
}

proof fn lemma_col_ones_monotone(m: Seq<Vec<usize>>, j: int, a: int, b: int)
    requires
        0 <= a <= b,
    ensures
        col_ones(m, j, a) <= col_ones(m, j, b),
    decreases b - a,
{
    if a < b {
        lemma_col_ones_monotone(m, j, a, b - 1);
    }
}

/// The `t`-th 1-entry of column `j`, for `t` below the column's count
/// over the first `n` rows, lies in the first `n` rows, holds a 1, and
/// has exactly `t` ones above it.
proof fn lemma_nth_one(m: Seq<Vec<usize>>, j: int, t: int, n: int)
    requires
        0 <= n <= m.len(),
        0 <= t < col_ones(m, j, n),
    ensures
        0 <= nth_one_row(m, j, t) < n,
        m[nth_one_row(m, j, t)]@[j] == 1,
        col_ones(m, j, nth_one_row(m, j, t)) == t,
    decreases n,
{
    lemma_nth_one_from(m, j, t, 0, n);
}

/// A 1-entry is its own column's `col_ones(m, j, i)`-th one.
proof fn lemma_nth_one_of_entry(m: Seq<Vec<usize>>, j: int, i: int)
    requires
        0 <= i < m.len(),
        m[i]@[j] == 1,
    ensures
        nth_one_row(m, j, col_ones(m, j, i)) == i,
{
    let t = col_ones(m, j, i);
    assert(col_ones(m, j, i + 1) == t + 1);
    lemma_col_ones_monotone(m, j, 0, i);
    lemma_nth_one_from(m, j, t, 0, i + 1);
    let r = nth_one_row(m, j, t);
    if r < i {
        assert(col_ones(m, j, r + 1) == t + 1);
        lemma_col_ones_monotone(m, j, r + 1, i);
        assert(false);
    }
}

proof fn lemma_row_ones_le(row: Seq<usize>, n: int)
    requires
        n >= 0,
    ensures
        0 <= row_ones(row, n) <= n,
    decreases n,
{
    if n > 0 {
        lemma_row_ones_le(row, n - 1);
    }
}

proof fn lemma_row_ones_monotone(row: Seq<usize>, a: int, b: int)
    requires
        0 <= a <= b,
    ensures
        row_ones(row, a) <= row_ones(row, b),
    decreases b - a,
{
    if a < b {
        lemma_row_ones_monotone(row, a, b - 1);
    }
}

proof fn lemma_total_ones_monotone(m: Seq<Vec<usize>>, a: int, b: int)
    requires
        0 <= a <= b,
    ensures
        total_ones(m, a) <= total_ones(m, b),
    decreases b - a,
{
    if a < b {
        lemma_total_ones_monotone(m, a, b - 1);
        lemma_row_ones_le(m[b - 1]@, m[b - 1]@.len() as int);
    }
}

/// Cells are laid out in matrix order: of two 1-entries, the one earlier
/// in row-major order gets the smaller arena slot.  In particular the
/// slot determines the entry.
proof fn lemma_cell_index_order(m: Seq<Vec<usize>>, i1: int, j1: int, i2: int, j2: int)
    requires
        forall|r: int| 0 <= r < m.len() ==> (#[trigger] m[r])@.len() == m[0]@.len(),
        0 <= i1 < m.len(),
        0 <= i2 < m.len(),
        0 <= j1 < m[0]@.len(),
        0 <= j2 < m[0]@.len(),
        m[i1]@[j1] == 1,
        i1 < i2 || (i1 == i2 && j1 < j2),
    ensures
        cell_index(m, i1, j1) < cell_index(m, i2, j2),
{
    let w = m[0]@.len() as int;
    if i1 == i2 {
        assert(row_ones(m[i1]@, j1 + 1) == row_ones(m[i1]@, j1) + 1);
        lemma_row_ones_monotone(m[i1]@, j1 + 1, j2);
    } else {
        assert(row_ones(m[i1]@, j1 + 1) == row_ones(m[i1]@, j1) + 1);
        lemma_row_ones_monotone(m[i1]@, j1 + 1, w);
        assert(total_ones(m, i1 + 1) == total_ones(m, i1) + row_ones(m[i1]@, w));
        lemma_total_ones_monotone(m, i1 + 1, i2);
        lemma_row_ones_le(m[i2]@, j2);
    }
}

/// The column of the 1-entry of `row` that has exactly `t` 1-entries to
/// its left, searching from column `j` on with `t` ones already
/// accounted for; the row's width when there is no such entry.
pub open spec fn nth_one_col_from(row: Seq<usize>, t: int, j: int) -> int
    decreases row.len() - j,
{
    if j < 0 || j >= row.len() {
        row.len() as int
    } else if row[j] == 1 {
        if t == 0 {
            j
        } else {
            nth_one_col_from(row, t - 1, j + 1)
        }
    } else {
        nth_one_col_from(row, t, j + 1)
    }
}

/// The column of the 1-entry of `row` preceded by exactly `t` 1-entries.
pub open spec fn nth_one_col(row: Seq<usize>, t: int) -> int {
    nth_one_col_from(row, t, 0)
}

proof fn lemma_nth_one_col_from(row: Seq<usize>, t: int, j: int, n: int)
    requires
        0 <= j <= n <= row.len(),
        row_ones(row, j) <= t < row_ones(row, n),
    ensures
        j <= nth_one_col_from(row, t - row_ones(row, j), j) < n,
        row[nth_one_col_from(row, t - row_ones(row, j), j)] == 1,
        row_ones(row, nth_one_col_from(row, t - row_ones(row, j), j)) == t,
    decreases row.len() - j,
{
    lemma_row_ones_monotone(row, j, n);
    if row[j] == 1 && row_ones(row, j) == t {
        assert(row_ones(row, j + 1) == t + 1);
    } else {
        assert(row_ones(row, j + 1) <= t) by {
            if row[j] == 1 {
                assert(row_ones(row, j + 1) == row_ones(row, j) + 1);
            } else {
                assert(row_ones(row, j + 1) == row_ones(row, j));
            }
        }
        lemma_nth_one_col_from(row, t, j + 1, n);
    }
}

/// The `t`-th 1-entry of `row`, for `t` below the count over the first
/// `n` columns, lies in the first `n` columns, holds a 1, and has
/// exactly `t` ones to its left.
proof fn lemma_nth_one_col(row: Seq<usize>, t: int, n: int)
    requires
        0 <= n <= row.len(),
        0 <= t < row_ones(row, n),
    ensures
        0 <= nth_one_col(row, t) < n,
        row[nth_one_col(row, t)] == 1,
        row_ones(row, nth_one_col(row, t)) == t,
{
    lemma_nth_one_col_from(row, t, 0, n);
}

/// A 1-entry is its own row's `row_ones(row, j)`-th one.
proof fn lemma_nth_one_col_of_entry(row: Seq<usize>, j: int)
    requires
        0 <= j < row.len(),
        row[j] == 1,
    ensures
        nth_one_col(row, row_ones(row, j)) == j,
{
    let t = row_ones(row, j);
    assert(row_ones(row, j + 1) == t + 1);
    lemma_row_ones_monotone(row, 0, j);
    lemma_nth_one_col_from(row, t, 0, j + 1);
    let q = nth_one_col(row, t);
    if q < j {
        assert(row_ones(row, q + 1) == t + 1);
        lemma_row_ones_monotone(row, q + 1, j);
        assert(false);
    }
}

/// How many 1-entries of column `j` lie before the construction
/// boundary: in a row above `i`, or in row `i` left of column `jb`.
pub open spec fn processed_ones(m: Seq<Vec<usize>>, j: int, i: int, jb: int) -> int {
    col_ones(m, j, i) + if j < jb && m[i]@[j] == 1 {
        1int
    } else {
        0int
    }
}

/// Each column's vertical ring threads the column's 1-entries before the
/// boundary `(i, jb)` in matrix order: the header's `down` and `up` name
/// the column's first and last such entry, every entry's `down` names
/// the next one and its `up` the previous one, and the ends close on the
/// header.  An untouched column is a self-loop.
#[verifier::opaque]
pub open spec fn vertical_chains(nodes: Seq<Node>, m: Seq<Vec<usize>>, i: int, jb: int) -> bool {
    let w = m[0]@.len() as int;
    &&& forall|c: int|
        #![trigger processed_ones(m, c, i, jb)]
        0 <= c < w ==> {
            let cnt = processed_ones(m, c, i, jb);
            &&& nodes[c + 1].down as int == (if cnt == 0 {
                c + 1
            } else {
                cell_index(m, nth_one_row(m, c, 0), c)
            })
            &&& nodes[c + 1].up as int == (if cnt == 0 {
                c + 1
            } else {
                cell_index(m, nth_one_row(m, c, cnt - 1), c)
            })
        }
    &&& forall|r: int, c: int|
        #![trigger cell_index(m, r, c)]
        0 <= c < w && 0 <= r < m.len() && m[r]@[c] == 1 && (r < i || (r == i && c < jb)) ==> {
            let t = col_ones(m, c, r);
            let cnt = processed_ones(m, c, i, jb);
            &&& nodes[cell_index(m, r, c)].down as int == (if t + 1 < cnt {
                cell_index(m, nth_one_row(m, c, t + 1), c)
            } else {
                c + 1
            })
            &&& nodes[cell_index(m, r, c)].up as int == (if t > 0 {
                cell_index(m, nth_one_row(m, c, t - 1), c)
            } else {
                c + 1
            })
        }
}

/// The chain shape depends only on the `up` and `down` fields: edits
/// that keep them keep the chains.
proof fn lemma_chains_frame(s1: Seq<Node>, s2: Seq<Node>, m: Seq<Vec<usize>>, i: int, jb: int)
    requires
        vertical_chains(s1, m, i, jb),
        s2.len() == s1.len(),
        m[0]@.len() < s1.len(),
        forall|r: int, c: int|
            #![trigger cell_index(m, r, c)]
            0 <= c < m[0]@.len() && 0 <= r < m.len() && m[r]@[c] == 1 && (r < i || (r == i && c
                < jb)) ==> 0 <= cell_index(m, r, c) < s1.len(),
        forall|k: int|
            0 <= k < s1.len() ==> (#[trigger] s2[k]).up == s1[k].up && s2[k].down == s1[k].down,
    ensures
        vertical_chains(s2, m, i, jb),
{
    reveal(vertical_chains);
}

/// Passing a 0-entry moves the boundary without changing any chain.
proof fn lemma_chains_skip(nodes: Seq<Node>, m: Seq<Vec<usize>>, i: int, jb: int)
    requires
        0 <= i < m.len(),
        0 <= jb < m[0]@.len(),
        m[i]@[jb] != 1,
        vertical_chains(nodes, m, i, jb),
    ensures
        vertical_chains(nodes, m, i, jb + 1),
{
    reveal(vertical_chains);
    assert forall|c: int| 0 <= c < m[0]@.len() implies #[trigger] processed_ones(m, c, i, jb + 1)
        == processed_ones(m, c, i, jb) by {}
}

/// A finished row's boundary is the start of the next row.
proof fn lemma_chains_next_row(nodes: Seq<Node>, m: Seq<Vec<usize>>, i: int)
    requires
        0 <= i < m.len(),
        m[i]@.len() == m[0]@.len(),
        vertical_chains(nodes, m, i, m[0]@.len() as int),
    ensures
        vertical_chains(nodes, m, i + 1, 0),
{
    reveal(vertical_chains);
    assert forall|c: int| 0 <= c < m[0]@.len() implies #[trigger] processed_ones(m, c, i + 1, 0)
        == processed_ones(m, c, i, m[0]@.len() as int) by {
        assert(col_ones(m, c, i + 1) == col_ones(m, c, i) + if m[i]@[c] == 1 {
            1int
        } else {
            0int
        });
    }
}

/// Each row's horizontal ring threads the row's 1-entries before the
/// boundary `(i, jb)` in column order and closes on itself: every
/// entry's `right` names the next one — the first again after the last —
/// and its `left` the previous one, the last again before the first.  A
/// row's single entry is a self-loop.
#[verifier::opaque]
pub open spec fn horizontal_chains(nodes: Seq<Node>, m: Seq<Vec<usize>>, i: int, jb: int) -> bool {
    let w = m[0]@.len() as int;
    forall|r: int, c: int|
        #![trigger cell_index(m, r, c)]
        0 <= c < w && 0 <= r < m.len() && m[r]@[c] == 1 && (r < i || (r == i && c < jb)) ==> {
            let t = row_ones(m[r]@, c);
            let k = if r < i {
                row_ones(m[r]@, w)
            } else {
                row_ones(m[r]@, jb)
            };
            &&& nodes[cell_index(m, r, c)].right as int == cell_index(
                m,
                r,
                nth_one_col(
                    m[r]@,
                    if t + 1 < k {
                        t + 1
                    } else {
                        0
                    },
                ),
            )
            &&& nodes[cell_index(m, r, c)].left as int == cell_index(
                m,
                r,
                nth_one_col(
                    m[r]@,
                    if t > 0 {
                        t - 1
                    } else {
                        k - 1
                    },
                ),
            )
        }
}

/// The ring shape depends only on the `left` and `right` fields, and
/// only on those of the entries placed so far.
proof fn lemma_hchains_frame(s1: Seq<Node>, s2: Seq<Node>, m: Seq<Vec<usize>>, i: int, jb: int)
    requires
        horizontal_chains(s1, m, i, jb),
        s2.len() >= s1.len(),
        m[0]@.len() < s1.len(),
        forall|r: int, c: int|
            #![trigger cell_index(m, r, c)]
            0 <= c < m[0]@.len() && 0 <= r < m.len() && m[r]@[c] == 1 && (r < i || (r == i && c
                < jb)) ==> 0 <= cell_index(m, r, c) < s1.len(),
        forall|k: int|
            0 <= k < s1.len() ==> (#[trigger] s2[k]).left == s1[k].left && s2[k].right
                == s1[k].right,
    ensures
        horizontal_chains(s2, m, i, jb),
{
    reveal(horizontal_chains);
}

/// Passing a 0-entry moves the boundary without changing any ring.
proof fn lemma_hchains_skip(nodes: Seq<Node>, m: Seq<Vec<usize>>, i: int, jb: int)
    requires
        0 <= i < m.len(),
        0 <= jb < m[0]@.len(),
        m[i]@.len() == m[0]@.len(),
        m[i]@[jb] != 1,
        horizontal_chains(nodes, m, i, jb),
    ensures
        horizontal_chains(nodes, m, i, jb + 1),
{
    reveal(horizontal_chains);
    assert(row_ones(m[i]@, jb + 1) == row_ones(m[i]@, jb));
}

/// A finished row's boundary is the start of the next row.
proof fn lemma_hchains_next_row(nodes: Seq<Node>, m: Seq<Vec<usize>>, i: int)
    requires
        0 <= i < m.len(),
        m[i]@.len() == m[0]@.len(),
        horizontal_chains(nodes, m, i, m[0]@.len() as int),
    ensures
        horizontal_chains(nodes, m, i + 1, 0),
{
    reveal(horizontal_chains);
}

/// Linking a fresh cell for the 1-entry at `(i, jb)` into its row's ring
/// — point it left at the hitherto last entry and right at the first,
/// then both of them back at it — moves the boundary past the entry and
/// keeps every ring in column order.
proof fn lemma_hchains_insert(
    sv: Seq<Node>,
    m: Seq<Vec<usize>>,
    i: int,
    jb: int,
    eprev: int,
    pr: int,
    nn: Node,
    np: Node,
    np2: Node,
)
    requires
        forall|r: int| 0 <= r < m.len() ==> (#[trigger] m[r])@.len() == m[0]@.len(),
        0 <= i < m.len(),
        0 <= jb < m[0]@.len(),
        m[i]@[jb] == 1,
        m[0]@.len() < sv.len(),
        sv.len() as int == cell_index(m, i, jb) + 1,
        horizontal_chains(sv, m, i, jb),
        forall|r: int, c: int|
            #![trigger cell_index(m, r, c)]
            0 <= c < m[0]@.len() && 0 <= r < m.len() && m[r]@[c] == 1 && (r < i || (r == i && c
                < jb)) ==> m[0]@.len() < cell_index(m, r, c) < cell_index(m, i, jb),
        ({
            let t0 = row_ones(m[i]@, jb);
            &&& (t0 == 0 ==> eprev == cell_index(m, i, jb))
            &&& (t0 > 0 ==> eprev == cell_index(m, i, nth_one_col(m[i]@, t0 - 1)))
        }),
        sv[cell_index(m, i, jb)].right as int == cell_index(m, i, jb),
        sv[cell_index(m, i, jb)].left as int == cell_index(m, i, jb),
        pr == sv[eprev].right as int,
        0 <= eprev < sv.len(),
        0 <= pr < sv.len(),
        nn.left as int == eprev,
        nn.right as int == pr,
        np.left as int == cell_index(m, i, jb),
        np.right == sv.update(cell_index(m, i, jb), nn)[pr].right,
        np2.right as int == cell_index(m, i, jb),
        np2.left == sv.update(cell_index(m, i, jb), nn).update(pr, np)[eprev].left,
    ensures
        horizontal_chains(
            sv.update(cell_index(m, i, jb), nn).update(pr, np).update(eprev, np2),
            m,
            i,
            jb + 1,
        ),
{
    reveal(horizontal_chains);
    let w = m[0]@.len() as int;
    let me = cell_index(m, i, jb);
    let row = m[i]@;
    let t0 = row_ones(row, jb);
    let s3 = sv.update(me, nn).update(pr, np).update(eprev, np2);
    lemma_row_ones_le(row, jb);
    assert(row_ones(row, jb + 1) == t0 + 1);
    lemma_nth_one_col_of_entry(row, jb);
    assert(nth_one_col(row, t0) == jb);
    assert(t0 > 0 ==> {
        &&& 0 <= nth_one_col(row, t0 - 1) < jb
        &&& row[nth_one_col(row, t0 - 1)] == 1
        &&& row_ones(row, nth_one_col(row, t0 - 1)) == t0 - 1
        &&& w < eprev < me
        &&& 0 <= nth_one_col(row, 0) < jb
        &&& row[nth_one_col(row, 0)] == 1
        &&& row_ones(row, nth_one_col(row, 0)) == 0
        &&& pr == cell_index(m, i, nth_one_col(row, 0))
        &&& w < pr < me
    }) by {
        if t0 > 0 {
            lemma_nth_one_col(row, t0 - 1, jb);
            assert(cell_index(m, i, nth_one_col(row, t0 - 1)) > w);
            lemma_nth_one_col(row, 0, jb);
            assert(cell_index(m, i, nth_one_col(row, 0)) > w);
        }
    }
    assert(t0 == 0 ==> eprev == me && pr == me);
    assert forall|r: int, c: int|
        0 <= c < w && 0 <= r < m.len() && m[r]@[c] == 1 && (r < i || (r == i && c < jb + 1))
            implies {
        let t = row_ones(m[r]@, c);
        let k = if r < i {
            row_ones(m[r]@, w)
        } else {
            row_ones(m[r]@, jb + 1)
        };
        &&& (#[trigger] s3[cell_index(m, r, c)]).right as int == cell_index(
            m,
            r,
            nth_one_col(
                m[r]@,
                if t + 1 < k {
                    t + 1
                } else {
                    0
                },
            ),
        )
        &&& s3[cell_index(m, r, c)].left as int == cell_index(
            m,
            r,
            nth_one_col(
                m[r]@,
                if t > 0 {
                    t - 1
                } else {
                    k - 1
                },
            ),
        )
    } by {
        let t = row_ones(m[r]@, c);
        let k = if r < i {
            row_ones(m[r]@, w)
        } else {
            row_ones(m[r]@, jb + 1)
        };
        let ci = cell_index(m, r, c);
        lemma_row_ones_le(m[r]@, c);
        if r == i {
            // within the extended row the counts are those of the new
            // boundary
            lemma_row_ones_monotone(row, c + 1, jb + 1);
            assert(row_ones(row, c + 1) == t + 1);
            assert(t < k && k == t0 + 1);
            if c == jb {
                // the fresh cell: right to the first entry, left to the
                // previous last
                assert(ci == me);
                assert(t == t0);
                if t0 == 0 {
                    assert(s3[me] == np2);
                    assert(nth_one_col(row, 0) == jb);
                } else {
                    assert(s3[me].right as int == pr || (pr == me && s3[me] == np2)
                        || (eprev == me && s3[me] == np2));
                    assert(eprev != me && (pr != me));
                    assert(s3[me].left as int == eprev || s3[me] == np || s3[me] == np2);
                    assert(s3[me].right as int == pr && s3[me].left as int == eprev);
                    assert(nth_one_col(row, if t + 1 < k {
                        t + 1
                    } else {
                        0
                    }) == nth_one_col(row, 0));
                }
            } else if t == t0 - 1 {
                // the previous last entry: its right now names the fresh
                // cell; its left is unchanged
                lemma_nth_one_col_of_entry(row, c);
                assert(ci == eprev);
                assert(s3[eprev] == np2);
                assert(np2.left == sv.update(me, nn).update(pr, np)[eprev].left);
                if t0 == 1 {
                    assert(pr == eprev);
                    assert(np.left as int == me);
                    assert(s3[eprev].left as int == me);
                    assert(nth_one_col(row, k - 1) == nth_one_col(row, t0) == jb);
                } else {
                    let cf = nth_one_col(row, 0);
                    lemma_nth_one_col(row, 0, jb);
                    assert(pr == cell_index(m, i, cf));
                    assert(row_ones(row, cf) == 0);
                    assert(cf != c);
                    if cf < c {
                        lemma_cell_index_order(m, i, cf, i, c);
                    } else {
                        lemma_cell_index_order(m, i, c, i, cf);
                    }
                    assert(eprev != pr && eprev != me);
                    assert(s3[eprev].left == sv[eprev].left);
                    assert(nth_one_col(row, t - 1) == nth_one_col(row, t - 1));
                    assert(sv[eprev].left as int == cell_index(
                        m,
                        i,
                        nth_one_col(
                            row,
                            if t > 0 {
                                t - 1
                            } else {
                                t0 - 1
                            },
                        ),
                    ));
                    assert(t > 0 ==> s3[eprev].left as int == cell_index(
                        m,
                        i,
                        nth_one_col(row, t - 1),
                    ));
                    assert(t == 0 ==> nth_one_col(row, t0 - 1) == c && eprev == ci);
                    assert(t == 0 ==> sv[eprev].left as int == cell_index(
                        m,
                        i,
                        nth_one_col(row, t0 - 1),
                    ) == eprev);
                    assert(t == 0 ==> nth_one_col(row, k - 1) == jb);
                }
                assert(s3[eprev].right as int == me);
                assert(nth_one_col(row, t + 1) == jb);
            } else if t == 0 {
                // the first entry: its left now names the fresh cell;
                // its right is unchanged
                lemma_nth_one_col_of_entry(row, c);
                assert(t0 > 1);
                assert(ci == pr);
                let cl = nth_one_col(row, t0 - 1);
                assert(cl != c);
                if cl < c {
                    lemma_cell_index_order(m, i, cl, i, c);
                } else {
                    lemma_cell_index_order(m, i, c, i, cl);
                }
                assert(pr != eprev && pr != me);
                assert(s3[pr] == np);
                assert(np.right == sv[pr].right);
                assert(s3[pr].left as int == me);
                assert(nth_one_col(row, k - 1) == jb);
                assert(sv[pr].right as int == cell_index(
                    m,
                    i,
                    nth_one_col(
                        row,
                        if t + 1 < t0 {
                            t + 1
                        } else {
                            0
                        },
                    ),
                ));
                assert(t + 1 < k);
                assert(t + 1 == t0 ==> nth_one_col(row, if t + 1 < t0 {
                    t + 1
                } else {
                    0
                }) == nth_one_col(row, 0) == c);
            } else {
                // a middle entry of the row: untouched, and its
                // neighbour counts are unchanged
                lemma_nth_one_col_of_entry(row, c);
                assert(0 < t < t0 - 1);
                let cl = nth_one_col(row, t0 - 1);
                let cf = nth_one_col(row, 0);
                lemma_nth_one_col(row, t0 - 1, jb);
                lemma_nth_one_col(row, 0, jb);
                assert(cl != c && cf != c);
                if cl < c {
                    lemma_cell_index_order(m, i, cl, i, c);
                } else {
                    lemma_cell_index_order(m, i, c, i, cl);
                }
                if cf < c {
                    lemma_cell_index_order(m, i, cf, i, c);
                } else {
                    lemma_cell_index_order(m, i, c, i, cf);
                }
                assert(ci != eprev && ci != pr && ci != me);
                assert(s3[ci] == sv[ci]);
                assert(t + 1 < k && t > 0);
            }
        } else {
            // an entry of an earlier row: its ring is untouched
            assert(ci < me);
            assert(t0 > 0 ==> ci != eprev && ci != pr) by {
                if t0 > 0 {
                    let cl = nth_one_col(row, t0 - 1);
                    let cf = nth_one_col(row, 0);
                    lemma_cell_index_order(m, r, c, i, cl);
                    lemma_cell_index_order(m, r, c, i, cf);
                }
            }
            assert(s3[ci] == sv[ci]);
        }
    }
}

/// Linking a fresh cell for the 1-entry at `(i, jb)` to the bottom of
/// its column's ring — push the cell, point the old bottom (or the
/// header) down at it, point the header up at it — moves the boundary
/// past the entry and keeps every chain in matrix order.
proof fn lemma_chains_insert(
    s0: Seq<Node>,
    m: Seq<Vec<usize>>,
    i: int,
    jb: int,
    u: int,
    node: Node,
    nu: Node,
    nc: Node,
)
    requires
        forall|r: int| 0 <= r < m.len() ==> (#[trigger] m[r])@.len() == m[0]@.len(),
        0 <= i < m.len(),
        0 <= jb < m[0]@.len(),
        m[i]@[jb] == 1,
        m[0]@.len() < s0.len(),
        s0.len() as int == cell_index(m, i, jb),
        vertical_chains(s0, m, i, jb),
        forall|r: int, c: int|
            #![trigger cell_index(m, r, c)]
            0 <= c < m[0]@.len() && 0 <= r < m.len() && m[r]@[c] == 1 && (r < i || (r == i && c
                < jb)) ==> m[0]@.len() < cell_index(m, r, c) < s0.len(),
        u == s0[jb + 1].up as int,
        0 <= u < s0.len(),
        node.up as int == u,
        node.down as int == jb + 1,
        nu.down as int == s0.len(),
        nu.up == s0[u].up,
        nc.up as int == s0.len(),
        u == jb + 1 ==> nc.down == nu.down,
        u != jb + 1 ==> nc.down == s0[jb + 1].down,
    ensures
        vertical_chains(s0.push(node).update(u, nu).update(jb + 1, nc), m, i, jb + 1),
{
    reveal(vertical_chains);
    let w = m[0]@.len() as int;
    let me = s0.len() as int;
    let s3 = s0.push(node).update(u, nu).update(jb + 1, nc);
    let cnt = processed_ones(m, jb, i, jb);
    assert(cnt == col_ones(m, jb, i));
    lemma_col_ones_monotone(m, jb, 0, i);
    assert(col_ones(m, jb, i + 1) == cnt + 1);
    lemma_nth_one_of_entry(m, jb, i);
    assert(cnt > 0 ==> {
        &&& 0 <= nth_one_row(m, jb, cnt - 1) < i
        &&& m[nth_one_row(m, jb, cnt - 1)]@[jb] == 1
        &&& col_ones(m, jb, nth_one_row(m, jb, cnt - 1)) == cnt - 1
        &&& u == cell_index(m, nth_one_row(m, jb, cnt - 1), jb)
        &&& w < u
    }) by {
        if cnt > 0 {
            lemma_nth_one(m, jb, cnt - 1, i);
            assert(processed_ones(m, jb, i, jb) == cnt);
            assert(cell_index(m, nth_one_row(m, jb, cnt - 1), jb) > w);
        }
    }
    assert(cnt == 0 ==> u == jb + 1) by {
        assert(processed_ones(m, jb, i, jb) == cnt);
    }
    // the headers
    assert forall|c: int| 0 <= c < w implies {
        let cnt2 = #[trigger] processed_ones(m, c, i, jb + 1);
        &&& s3[c + 1].down as int == (if cnt2 == 0 {
            c + 1
        } else {
            cell_index(m, nth_one_row(m, c, 0), c)
        })
        &&& s3[c + 1].up as int == (if cnt2 == 0 {
            c + 1
        } else {
            cell_index(m, nth_one_row(m, c, cnt2 - 1), c)
        })
    } by {
        let cnt2 = processed_ones(m, c, i, jb + 1);
        if c == jb {
            assert(cnt2 == cnt + 1);
            assert(s3[c + 1].up as int == me);
            assert(nth_one_row(m, jb, cnt) == i);
            assert(cell_index(m, i, jb) == me);
            if cnt == 0 {
                assert(s3[c + 1].down as int == me);
                assert(nth_one_row(m, jb, 0) == i);
            } else {
                assert(s3[c + 1].down == s0[jb + 1].down);
                assert(processed_ones(m, jb, i, jb) == cnt);
            }
        } else {
            assert(cnt2 == processed_ones(m, c, i, jb));
            assert(c + 1 != jb + 1 && c + 1 != u && c + 1 < me);
            assert(s3[c + 1] == s0[c + 1]);
        }
    }
    // the cells
    assert forall|r: int, c: int|
        0 <= c < w && 0 <= r < m.len() && m[r]@[c] == 1 && (r < i || (r == i && c < jb + 1))
            implies {
        let t = col_ones(m, c, r);
        let cnt2 = processed_ones(m, c, i, jb + 1);
        &&& (#[trigger] s3[cell_index(m, r, c)]).down as int == (if t + 1 < cnt2 {
            cell_index(m, nth_one_row(m, c, t + 1), c)
        } else {
            c + 1
        })
        &&& s3[cell_index(m, r, c)].up as int == (if t > 0 {
            cell_index(m, nth_one_row(m, c, t - 1), c)
        } else {
            c + 1
        })
    } by {
        let t = col_ones(m, c, r);
        let cnt2 = processed_ones(m, c, i, jb + 1);
        let ci = cell_index(m, r, c);
        lemma_col_ones_le(m, c, r);
        if r == i && c == jb {
            // the fresh cell itself
            assert(ci == me);
            assert(t == cnt && cnt2 == cnt + 1);
            assert(s3[me] == node);
        } else if c == jb {
            // an earlier entry of the same column
            assert(r < i);
            assert(cnt2 == cnt + 1);
            assert(col_ones(m, c, r + 1) == t + 1);
            lemma_col_ones_monotone(m, c, r + 1, i);
            assert(t < cnt);
            lemma_nth_one_of_entry(m, c, r);
            if t == cnt - 1 {
                // the old bottom: its down now names the fresh cell
                assert(nth_one_row(m, c, cnt - 1) == r);
                assert(ci == u);
                assert(s3[ci] == nu);
                assert(nth_one_row(m, c, t + 1) == i);
                assert(cell_index(m, i, jb) == me);
                assert(processed_ones(m, c, i, jb) == cnt);
            } else {
                // untouched: distinct from the old bottom, the header
                // and the fresh cell
                assert(t < cnt - 1);
                let rb = nth_one_row(m, c, cnt - 1);
                assert(m[rb]@[c] == 1 && col_ones(m, c, rb) == cnt - 1);
                if r < rb {
                    lemma_cell_index_order(m, r, c, rb, c);
                } else {
                    assert(r != rb);
                    lemma_cell_index_order(m, rb, c, r, c);
                }
                assert(ci != u && ci != jb + 1 && ci < me);
                assert(s3[ci] == s0[ci]);
                assert(processed_ones(m, c, i, jb) == cnt);
            }
        } else {
            // an entry of another column: its chain is untouched
            assert(cnt2 == processed_ones(m, c, i, jb));
            assert(ci != jb + 1 && ci < me);
            if cnt > 0 {
                let rb = nth_one_row(m, jb, cnt - 1);
                assert(m[rb]@[jb] == 1);
                if r < rb || (r == rb && c < jb) {
                    lemma_cell_index_order(m, r, c, rb, jb);
                } else {
                    lemma_cell_index_order(m, rb, jb, r, c);
                }
                assert(ci != u);
            }
            assert(s3[ci] == s0[ci]);
        }
    }
}

/// Construction failure: the input matrix is not a non-empty rectangle.
#[derive(Clone, Copy, Debug, PartialEq, Eq, Structural)]
pub enum DlxError {
    InvalidInput,
}

/// The toroidal structure: the arena of nodes together with the binary
/// matrix it was built from.  Index 0 is the root header; the headers of
/// the `ncols` columns sit at indices `1..=ncols`.
#[derive(Debug)]
pub struct DancingLinks {
    pub nodes: Vec<Node>,
    pub ncols: usize,
    pub matrix: Vec<Vec<bool>>,
}

impl DancingLinks {
    /// Well-formedness: the root and all headers exist, every link stays
    /// inside the arena, and the stored matrix is a non-empty rectangle
    /// whose width is the column count.
    pub open spec fn wf(self) -> bool {
        &&& self.ncols < self.nodes@.len()
        &&& forall|i: int|
            0 <= i < self.nodes@.len() ==> node_in_bounds(
                #[trigger] self.nodes@[i],
                self.nodes@.len() as int,
            )
        &&& self.matrix@.len() > 0
        &&& self.matrix@[0]@.len() == self.ncols
        &&& forall|i: int| 0 <= i < self.matrix@.len() ==> (#[trigger] self.matrix@[i])@.len() == self.ncols
    }

    /// Build the toroidal structure from a rectangular 0/1 matrix: one
    /// header per column, linked into the root's horizontal ring in
    /// column order, and one cell per 1-entry, linked into its row's
    /// horizontal ring and its column's vertical ring in matrix order.
    /// A cell holds a 1 exactly when its value is 1; a column with no
    /// 1-entries stays in the structure as an empty ring.  Rejects an
    /// empty matrix, zero-width rows and ragged rows, and nothing else.
    #[verifier::rlimit(100)]
    pub fn from_matrix(matrix: &Vec<Vec<usize>>) -> (res: Result<DancingLinks, DlxError>)
        ensures
            res is Ok <==> valid_input(matrix@),
            res matches Ok(d) ==> ({
                &&& d.wf()
                &&& d.ncols == matrix@[0]@.len()
                &&& grid_matches(d.matrix@, matrix@)
                &&& header_ring(d.nodes@, d.ncols as int)
                &&& d.nodes@.len() as int == 1 + d.ncols + total_ones(
                    matrix@,
                    matrix@.len() as int,
                )
                &&& forall|c: int|
                    1 <= c <= d.ncols ==> (#[trigger] d.nodes@[c]).size as int == col_ones(
                        matrix@,
                        c - 1,
                        matrix@.len() as int,
                    )
                &&& forall|i: int, j: int|
                    #![trigger cell_index(matrix@, i, j)]
                    0 <= i < matrix@.len() && 0 <= j < matrix@[0]@.len() && matrix@[i]@[j] == 1
                        ==> {
                        &&& matrix@[0]@.len() < cell_index(matrix@, i, j) < d.nodes@.len()
                        &&& d.nodes@[cell_index(matrix@, i, j)].row_id == i
                        &&& d.nodes@[cell_index(matrix@, i, j)].column == j + 1
                        &&& d.nodes@[cell_index(matrix@, i, j)].size == 0
                    }
                &&& d.nodes@[0].up == 0
                &&& d.nodes@[0].down == 0
                &&& d.nodes@[0].size == 0
                &&& vertical_chains(d.nodes@, matrix@, matrix@.len() as int, 0)
                &&& horizontal_chains(d.nodes@, matrix@, matrix@.len() as int, 0)
            }),
    {
        let nrows = matrix.len();
        if nrows == 0 {
            return Err(DlxError::InvalidInput);
        }
        let w = matrix[0].len();
        if w == 0 {
            return Err(DlxError::InvalidInput);
        }
        let mut i: usize = 1;
        while i < nrows
            invariant
                nrows == matrix@.len(),
                w == matrix@[0]@.len(),
                1 <= i <= nrows,
                forall|q: int| 0 <= q < i ==> (#[trigger] matrix@[q])@.len() == w,
            decreases nrows - i,
        {
            if matrix[i].len() != w {
                return Err(DlxError::InvalidInput);
            }
            i += 1;
        }
        // the boolean image of the input, kept for certifying solutions
        let mut grid: Vec<Vec<bool>> = Vec::new();
        let mut gi: usize = 0;
        while gi < nrows
            invariant
                nrows == matrix@.len(),
                w == matrix@[0]@.len(),
                forall|q: int| 0 <= q < nrows ==> (#[trigger] matrix@[q])@.len() == w,
                gi <= nrows,
                grid@.len() == gi,
                forall|q: int| 0 <= q < gi ==> (#[trigger] grid@[q])@.len() == w,
                forall|q: int, j: int|
                    0 <= q < gi && 0 <= j < w ==> (#[trigger] grid@[q]@[j]) == (matrix@[q]@[j]
                        == 1),
            decreases nrows - gi,
        {
            let mut row: Vec<bool> = Vec::new();
            let mut gj: usize = 0;
            while gj < w
                invariant
                    nrows == matrix@.len(),
                    w == matrix@[0]@.len(),
                    forall|q: int| 0 <= q < nrows ==> (#[trigger] matrix@[q])@.len() == w,
                    gi < nrows,
                    gj <= w,
                    row@.len() == gj,
                    forall|j: int|
                        0 <= j < gj ==> (#[trigger] row@[j]) == (matrix@[gi as int]@[j] == 1),
                decreases w - gj,
            {
                row.push(matrix[gi][gj] == 1);
                gj += 1;
            }
            grid.push(row);
            gi += 1;
        }
        // the root header and one header per column, spliced one by one
        // before the root, which closes the ring
        let mut nodes: Vec<Node> = Vec::new();
        nodes.push(Node::new_column_node(0));
        let mut k: usize = 0;
        while k < w
            invariant
                w == matrix@[0]@.len(),
                k <= w,
                nodes@.len() == k + 1,
                forall|i: int|
                    0 <= i <= k ==> {
                        &&& (#[trigger] nodes@[i]).right as int == (if i == k {
                            0int
                        } else {
                            i + 1
                        })
                        &&& nodes@[i].left as int == (if i == 0 {
                            k as int
                        } else {
                            i - 1
                        })
                        &&& nodes@[i].up == i
                        &&& nodes@[i].down == i
                        &&& nodes@[i].column == i
                        &&& nodes@[i].row_id == 0
                        &&& nodes@[i].size == 0
                    },
            decreases w - k,
        {
            let h = k + 1;
            let prev = nodes[0].left;
            let mut col = Node::new_column_node(h);
            col.right = 0;
            col.left = prev;
            nodes.push(col);
            let mut root = nodes[0];
            root.left = h;
            nodes.set(0, root);
            let mut pn = nodes[prev];
            pn.right = h;
            nodes.set(prev, pn);
            k = h;
        }
        proof {
            assert forall|c: int| 0 <= c < w implies #[trigger] processed_ones(
                matrix@,
                c,
                0,
                0,
            ) == 0 by {}
            reveal(vertical_chains);
            reveal(horizontal_chains);
            assert(vertical_chains(nodes@, matrix@, 0, 0));
            assert(horizontal_chains(nodes@, matrix@, 0, 0));
        }
        // one cell per 1-entry, linked to the bottom of its column's
        // vertical ring and to the end of its row's horizontal ring
        let mut row_idx: usize = 0;
        while row_idx < nrows
            invariant
                nrows == matrix@.len(),
                w == matrix@[0]@.len(),
                w >= 1,
                forall|q: int| 0 <= q < nrows ==> (#[trigger] matrix@[q])@.len() == w,
                row_idx <= nrows,
                nodes@.len() >= 1 + w,
                nodes@.len() as int == 1 + w + total_ones(matrix@, row_idx as int),
                forall|i: int|
                    0 <= i < nodes@.len() ==> node_in_bounds(
                        #[trigger] nodes@[i],
                        nodes@.len() as int,
                    ),
                forall|i: int|
                    0 <= i <= w ==> {
                        &&& (#[trigger] nodes@[i]).right as int == (if i == w {
                            0int
                        } else {
                            i + 1
                        })
                        &&& nodes@[i].left as int == (if i == 0 {
                            w as int
                        } else {
                            i - 1
                        })
                        &&& nodes@[i].column == i
                        &&& nodes@[i].row_id == 0
                    },
                forall|c: int|
                    1 <= c <= w ==> (#[trigger] nodes@[c]).size as int == col_ones(
                        matrix@,
                        c - 1,
                        row_idx as int,
                    ),
                forall|idx: int|
                    w < idx < nodes@.len() ==> {
                        &&& 1 <= (#[trigger] nodes@[idx]).column <= w
                        &&& nodes@[idx].row_id < nrows
                        &&& nodes@[idx].left as int > w
                        &&& nodes@[idx].right as int > w
                        &&& nodes@[idx].size == 0
                    },
                nodes@[0].up == 0 && nodes@[0].down == 0 && nodes@[0].size == 0,
                forall|i: int| 1 <= i <= w ==> (#[trigger] nodes@[i]).up as int >= 1,
                forall|i: int, j: int|
                    #![trigger cell_index(matrix@, i, j)]
                    0 <= i < row_idx && 0 <= j < w && matrix@[i]@[j] == 1 ==> {
                        &&& w < cell_index(matrix@, i, j) < nodes@.len()
                        &&& nodes@[cell_index(matrix@, i, j)].row_id == i
                        &&& nodes@[cell_index(matrix@, i, j)].column == j + 1
                    },
                vertical_chains(nodes@, matrix@, row_idx as int, 0),
                horizontal_chains(nodes@, matrix@, row_idx as int, 0),
            decreases nrows - row_idx,
        {
            let mut prev: usize = 0;
            let mut has_prev = false;
            let mut col_idx: usize = 0;
            while col_idx < w
                invariant
                    nrows == matrix@.len(),
                    w == matrix@[0]@.len(),
                    w >= 1,
                    forall|q: int| 0 <= q < nrows ==> (#[trigger] matrix@[q])@.len() == w,
                    row_idx < nrows,
                    col_idx <= w,
                    nodes@.len() >= 1 + w,
                    nodes@.len() as int == 1 + w + total_ones(matrix@, row_idx as int) + row_ones(
                        matrix@[row_idx as int]@,
                        col_idx as int,
                    ),
                    forall|i: int|
                        0 <= i < nodes@.len() ==> node_in_bounds(
                            #[trigger] nodes@[i],
                            nodes@.len() as int,
                        ),
                    forall|i: int|
                        0 <= i <= w ==> {
                            &&& (#[trigger] nodes@[i]).right as int == (if i == w {
                                0int
                            } else {
                                i + 1
                            })
                            &&& nodes@[i].left as int == (if i == 0 {
                                w as int
                            } else {
                                i - 1
                            })
                            &&& nodes@[i].column == i
                            &&& nodes@[i].row_id == 0
                        },
                    forall|c: int|
                        1 <= c <= w ==> (#[trigger] nodes@[c]).size as int == col_ones(
                            matrix@,
                            c - 1,
                            row_idx as int,
                        ) + (if c - 1 < col_idx && matrix@[row_idx as int]@[c - 1] == 1 {
                            1int
                        } else {
                            0int
                        }),
                    forall|idx: int|
                        w < idx < nodes@.len() ==> {
                            &&& 1 <= (#[trigger] nodes@[idx]).column <= w
                            &&& nodes@[idx].row_id < nrows
                            &&& nodes@[idx].left as int > w
                            &&& nodes@[idx].right as int > w
                            &&& nodes@[idx].size == 0
                        },
                    nodes@[0].up == 0 && nodes@[0].down == 0 && nodes@[0].size == 0,
                    forall|i: int| 1 <= i <= w ==> (#[trigger] nodes@[i]).up as int >= 1,
                    forall|i: int, j: int|
                        #![trigger cell_index(matrix@, i, j)]
                        0 <= i < row_idx && 0 <= j < w && matrix@[i]@[j] == 1 ==> {
                            &&& w < cell_index(matrix@, i, j) < nodes@.len()
                            &&& nodes@[cell_index(matrix@, i, j)].row_id == i
                            &&& nodes@[cell_index(matrix@, i, j)].column == j + 1
                        },
                    forall|j2: int|
                        #![trigger cell_index(matrix@, row_idx as int, j2)]
                        0 <= j2 < col_idx && matrix@[row_idx as int]@[j2] == 1 ==> {
                            &&& w < cell_index(matrix@, row_idx as int, j2) < nodes@.len()
                            &&& nodes@[cell_index(matrix@, row_idx as int, j2)].row_id == row_idx
                            &&& nodes@[cell_index(matrix@, row_idx as int, j2)].column == j2 + 1
                        },
                    has_prev ==> w < prev && (prev as int) < nodes@.len(),
                    !has_prev ==> prev == 0,
                    has_prev <==> row_ones(matrix@[row_idx as int]@, col_idx as int) > 0,
                    has_prev ==> prev as int == cell_index(
                        matrix@,
                        row_idx as int,
                        nth_one_col(
                            matrix@[row_idx as int]@,
                            row_ones(matrix@[row_idx as int]@, col_idx as int) - 1,
                        ),
                    ),
                    vertical_chains(nodes@, matrix@, row_idx as int, col_idx as int),
                    horizontal_chains(nodes@, matrix@, row_idx as int, col_idx as int),
                decreases w - col_idx,
            {
                if matrix[row_idx][col_idx] == 1 {
                    let ghost s0 = nodes@;
                    let me = nodes.len();
                    let colh = col_idx + 1;
                    let u = nodes[colh].up;
                    let mut node = Node::new_node(row_idx, me);
                    node.column = colh;
                    node.down = colh;
                    node.up = u;
                    nodes.push(node);
                    // splice to the bottom of the column's vertical ring
                    let mut nu = nodes[u];
                    nu.down = me;
                    nodes.set(u, nu);
                    proof {
                        lemma_col_ones_le(matrix@, col_idx as int, row_idx as int);
                    }
                    let mut nc = nodes[colh];
                    nc.up = me;
                    nc.size = nc.size + 1;
                    nodes.set(colh, nc);
                    let ghost sv = nodes@;
                    proof {
                        assert forall|r: int, c: int|
                            #![trigger cell_index(matrix@, r, c)]
                            0 <= c < w && 0 <= r < matrix@.len() && matrix@[r]@[c] == 1 && (r
                                < row_idx || (r == row_idx && c < col_idx)) implies w < cell_index(
                            matrix@,
                            r,
                            c,
                        ) < s0.len() by {}
                        lemma_chains_insert(
                            s0,
                            matrix@,
                            row_idx as int,
                            col_idx as int,
                            u as int,
                            node,
                            nu,
                            nc,
                        );
                        assert(sv =~= s0.push(node).update(u as int, nu).update(colh as int, nc));
                        lemma_hchains_frame(s0, sv, matrix@, row_idx as int, col_idx as int);
                    }
                    // splice to the end of the row's horizontal ring
                    if !has_prev {
                        prev = me;
                        has_prev = true;
                    }
                    let pr = nodes[prev].right;
                    let mut nn = nodes[me];
                    nn.left = prev;
                    nn.right = pr;
                    nodes.set(me, nn);
                    let mut np = nodes[pr];
                    np.left = me;
                    nodes.set(pr, np);
                    let mut np2 = nodes[prev];
                    np2.right = me;
                    nodes.set(prev, np2);
                    proof {
                        lemma_chains_frame(
                            sv,
                            nodes@,
                            matrix@,
                            row_idx as int,
                            col_idx + 1 as int,
                        );
                        assert(nodes@ =~= sv.update(me as int, nn).update(pr as int, np).update(
                            prev as int,
                            np2,
                        ));
                        lemma_hchains_insert(
                            sv,
                            matrix@,
                            row_idx as int,
                            col_idx as int,
                            prev as int,
                            pr as int,
                            nn,
                            np,
                            np2,
                        );
                        lemma_nth_one_col_of_entry(matrix@[row_idx as int]@, col_idx as int);
                        lemma_row_ones_le(matrix@[row_idx as int]@, col_idx as int);
                        assert(row_ones(matrix@[row_idx as int]@, col_idx as int + 1) == row_ones(
                            matrix@[row_idx as int]@,
                            col_idx as int,
                        ) + 1);
                    }
                    prev = me;
                } else {
                    proof {
                        lemma_chains_skip(nodes@, matrix@, row_idx as int, col_idx as int);
                        lemma_hchains_skip(nodes@, matrix@, row_idx as int, col_idx as int);
                        assert(row_ones(matrix@[row_idx as int]@, col_idx as int + 1) == row_ones(
                            matrix@[row_idx as int]@,
                            col_idx as int,
                        ));
                    }
                }
                col_idx += 1;
            }
            proof {
                lemma_chains_next_row(nodes@, matrix@, row_idx as int);
                lemma_hchains_next_row(nodes@, matrix@, row_idx as int);
            }
            row_idx += 1;
        }
        Ok(DancingLinks { nodes, ncols: w, matrix: grid })
    }
}

/// Overwrite arena slot `i` with `v`, first recording the value the slot
/// held so the overwrite can be undone.
fn recorded_set(nodes: &mut Vec<Node>, trail: &mut Vec<Edit>, i: usize, v: Node)
    requires
        i < old(nodes)@.len(),
    ensures
        final(nodes)@ == old(nodes)@.update(i as int, v),
        final(trail)@ == old(trail)@.push(Edit { idx: i, prior: old(nodes)@[i as int] }),
{
    let prior = nodes[i];
    trail.push(Edit { idx: i, prior });
    nodes.set(i, v);
}

impl DancingLinks {
    /// Exact inverse of the `cover` call that produced `tok`: replays the
    /// recorded prior node values in reverse order.  Called in LIFO order
    /// on the tokens of nested covers, it restores the arena bit for bit;
    /// the postcondition states the restored arena exactly for any call
    /// order.
    pub fn uncover(&mut self, tok: CoverToken)
        requires
            old(self).wf(),
            trail_in_bounds(tok.trail@, old(self).nodes@.len() as int),
        ensures
            final(self).wf(),
            final(self).nodes@ == undo(old(self).nodes@, tok.trail@),
            final(self).nodes@.len() == old(self).nodes@.len(),
            final(self).ncols == old(self).ncols,
            final(self).matrix == old(self).matrix,
    {
        let mut trail = tok.trail;
        let ghost orig = self.nodes@;
        let ghost full = trail@;
        let ghost len = self.nodes@.len() as int;
        while trail.len() > 0
            invariant
                self.nodes@.len() == len,
                self.ncols == old(self).ncols,
                self.matrix == old(self).matrix,
                trail_in_bounds(trail@, len),
                forall|k: int|
                    0 <= k < len ==> node_in_bounds(#[trigger] self.nodes@[k], len),
                undo(self.nodes@, trail@) == undo(orig, full),
            decreases trail@.len(),
        {
            let e = trail.pop().unwrap();
            self.nodes.set(e.idx, e.prior);
        }
    }

    /// Remove the node at index `c` — intended to be a column header —
    /// from its horizontal ring, then, walking its vertical ring top to
    /// bottom and each met row left to right, unlink every other cell of
    /// those rows from its own column's vertical ring, decrementing that
    /// column's size.  The new arena is determined exactly:
    /// `cover_spec(old arena, c)`.  Returns the token whose replay undoes
    /// every edit: `undo(self.nodes@, tok.trail@)` is the arena as it was
    /// before the call.  The remaining clauses are corollaries a caller
    /// can use without unfolding the walk: the splice, and that nothing
    /// but the two spliced neighbours' horizontal links, cells' vertical
    /// links and column sizes changes.
    pub fn cover(&mut self, c: usize) -> (tok: CoverToken)
        requires
            old(self).wf(),
            c < old(self).nodes@.len(),
        ensures
            final(self).nodes@ == cover_spec(old(self).nodes@, c as int),
            final(self).wf(),
            final(self).nodes@.len() == old(self).nodes@.len(),
            final(self).ncols == old(self).ncols,
            final(self).matrix == old(self).matrix,
            undo(final(self).nodes@, tok.trail@) == old(self).nodes@,
            trail_in_bounds(tok.trail@, final(self).nodes@.len() as int),
            final(self).nodes@[old(self).nodes@[c as int].right as int].left
                == old(self).nodes@[c as int].left,
            final(self).nodes@[old(self).nodes@[c as int].left as int].right
                == old(self).nodes@[c as int].right,
            forall|k: int|
                0 <= k < final(self).nodes@.len() && k != old(self).nodes@[c as int].left as int
                    && k != old(self).nodes@[c as int].right as int
                    ==> (#[trigger] final(self).nodes@[k]).left == old(self).nodes@[k].left
                        && final(self).nodes@[k].right == old(self).nodes@[k].right,
            forall|k: int|
                0 <= k < final(self).nodes@.len()
                    ==> (#[trigger] final(self).nodes@[k]).row_id == old(self).nodes@[k].row_id
                        && final(self).nodes@[k].column == old(self).nodes@[k].column,
    {
        let ghost orig = self.nodes@;
        let ghost len = self.nodes@.len() as int;
        let mut trail: Vec<Edit> = Vec::new();
        let l = self.nodes[c].left;
        let r = self.nodes[c].right;

        // splice the header out of the horizontal ring
        let mut nr = self.nodes[r];
        nr.left = l;
        proof {
            lemma_undo_push(self.nodes@, trail@, r, nr);
        }
        recorded_set(&mut self.nodes, &mut trail, r, nr);
        let mut nl = self.nodes[l];
        nl.right = r;
        proof {
            lemma_undo_push(self.nodes@, trail@, l, nl);
        }
        recorded_set(&mut self.nodes, &mut trail, l, nl);

        let ghost spliced = self.nodes@;
        proof {
            let l0 = orig[c as int].left as int;
            let r0 = orig[c as int].right as int;
            let s1 = orig.update(r0, Node { left: orig[c as int].left, ..orig[r0] });
            let s2 = s1.update(l0, Node { right: orig[c as int].right, ..s1[l0] });
            assert(spliced =~= s2);
            assert(cover_spec(orig, c as int) == cover_column(
                spliced,
                c as int,
                spliced[c as int].down as int,
                spliced.len(),
            ));
        }
        let limit = self.nodes.len();
        let mut i = self.nodes[c].down;
        let mut steps: usize = 0;
        while i != c && steps < limit
            invariant
                self.nodes@.len() == len,
                limit == len,
                c < len,
                i < len,
                steps <= limit,
                self.ncols == old(self).ncols,
                self.matrix == old(self).matrix,
                forall|k: int|
                    0 <= k < len ==> node_in_bounds(#[trigger] self.nodes@[k], len),
                trail_in_bounds(trail@, len),
                undo(self.nodes@, trail@) == orig,
                cover_column(self.nodes@, c as int, i as int, (limit - steps) as nat)
                    == cover_spec(orig, c as int),
                forall|k: int|
                    0 <= k < len ==> (#[trigger] self.nodes@[k]).left == spliced[k].left
                        && self.nodes@[k].right == spliced[k].right && self.nodes@[k].row_id
                        == spliced[k].row_id && self.nodes@[k].column == spliced[k].column,
            decreases limit - steps,
        {
            let ghost row_start = self.nodes@;
            let ghost outer_fuel = (limit - steps) as nat;
            let ghost i0 = i as int;
            steps += 1;
            let mut j = self.nodes[i].right;
            let mut jsteps: usize = 0;
            while j != i && jsteps < limit
                invariant
                    self.nodes@.len() == len,
                    limit == len,
                    i < len,
                    j < len,
                    jsteps <= limit,
                    self.ncols == old(self).ncols,
                    self.matrix == old(self).matrix,
                    forall|k: int|
                        0 <= k < len ==> node_in_bounds(#[trigger] self.nodes@[k], len),
                    trail_in_bounds(trail@, len),
                    undo(self.nodes@, trail@) == orig,
                    row_start.len() == len,
                    cover_row(self.nodes@, i as int, j as int, (limit - jsteps) as nat)
                        == cover_row(
                        row_start,
                        i as int,
                        row_start[i as int].right as int,
                        len as nat,
                    ),
                    forall|k: int|
                        0 <= k < len ==> (#[trigger] self.nodes@[k]).left == spliced[k].left
                            && self.nodes@[k].right == spliced[k].right && self.nodes@[k].row_id
                            == spliced[k].row_id && self.nodes@[k].column == spliced[k].column,
                decreases limit - jsteps,
            {
                let ghost pre = self.nodes@;
                jsteps += 1;
                let u = self.nodes[j].up;
                let d = self.nodes[j].down;
                let jc = self.nodes[j].column;
                let mut nd = self.nodes[d];
                nd.up = u;
                proof {
                    lemma_undo_push(self.nodes@, trail@, d, nd);
                }
                recorded_set(&mut self.nodes, &mut trail, d, nd);
                let mut nu = self.nodes[u];
                nu.down = d;
                proof {
                    lemma_undo_push(self.nodes@, trail@, u, nu);
                }
                recorded_set(&mut self.nodes, &mut trail, u, nu);
                let mut njc = self.nodes[jc];
                // the size is positive whenever the structure is a true
                // toroidal matrix; the guard keeps the operation total
                njc.size = if njc.size > 0 {
                    njc.size - 1
                } else {
                    0
                };
                proof {
                    lemma_undo_push(self.nodes@, trail@, jc, njc);
                }
                recorded_set(&mut self.nodes, &mut trail, jc, njc);
                proof {
                    assert(self.nodes@ =~= unlink_cell(pre, j as int));
                }
                j = self.nodes[j].right;
            }
            i = self.nodes[i].down;
            proof {
                assert(self.nodes@ == cover_row(
                    row_start,
                    i0,
                    row_start[i0].right as int,
                    len as nat,
                ));
                assert(cover_column(row_start, c as int, i0, outer_fuel) == cover_column(
                    self.nodes@,
                    c as int,
                    i as int,
                    (outer_fuel - 1) as nat,
                ));
            }
        }
        proof {
            assert(self.nodes@ == cover_spec(orig, c as int));
        }
        CoverToken { trail }
    }

    /// Covering a column and at once consuming its token leaves the
    /// whole arena — every neighbour link and every column size — as it
    /// was before the pair of calls.
    pub fn cover_uncover_roundtrip(&mut self, c: usize)
        requires
            old(self).wf(),
            c < old(self).nodes@.len(),
        ensures
            final(self).wf(),
            final(self).nodes@ == old(self).nodes@,
            final(self).ncols == old(self).ncols,
            final(self).matrix == old(self).matrix,
    {
        let tok = self.cover(c);
        self.uncover(tok);
    }

    /// Algorithm X: enumerate every exact cover of the matrix the
    /// structure was built from, appending each solution's row-index set
    /// to `results`.  What is appended is determined exactly:
    /// `search_spec` replays the least-size column choice, the covering
    /// of each tried row and the certified base cases, so what a search
    /// reports is a function of the structure and nothing else.  A fully
    /// backtracked call leaves the arena — all horizontal and vertical
    /// rings and all column sizes — exactly as it found it, and leaves
    /// the partial-solution stack as it found it (empty).  Every
    /// appended result provably covers each column exactly once; an
    /// unsolvable matrix appends nothing.  When the ring of uncovered
    /// columns is already empty at entry, the call is a base case: it
    /// appends exactly the stack's row ids, and only after certifying
    /// them.
    pub fn search(&mut self, solution: &mut Vec<usize>, results: &mut Vec<Vec<usize>>)
        requires
            old(self).wf(),
            old(solution)@.len() == 0,
        ensures
            final(self).wf(),
            final(self).nodes@ == old(self).nodes@,
            final(self).ncols == old(self).ncols,
            final(self).matrix == old(self).matrix,
            final(solution)@ == old(solution)@,
            results_extended(old(results)@, final(results)@, old(self).matrix@),
            final(results).deep_view() == old(results).deep_view() + search_spec(
                old(self).nodes@,
                old(self).matrix@,
                old(solution)@,
                u64::MAX as nat,
            ),
            old(self).nodes@[0].right == 0 ==> ({
                let ids = stack_row_ids(old(self).nodes@, old(solution)@);
                if is_exact_cover(old(self).matrix@, ids) {
                    final(results)@.len() == old(results)@.len() + 1
                        && (final(results)@[old(results)@.len() as int])@ == ids
                } else {
                    final(results)@ == old(results)@
                }
            }),
    {
        self.search_bounded(solution, results, u64::MAX);
    }

    /// The recursive engine behind `search`.  `fuel` bounds the depth of
    /// the recursion so that termination is unconditional; the public
    /// entry point passes a budget far beyond any explorable tree, so
    /// the bound is never the reason a branch ends.
    fn search_bounded(
        &mut self,
        solution: &mut Vec<usize>,
        results: &mut Vec<Vec<usize>>,
        fuel: u64,
    )
        requires
            old(self).wf(),
            forall|k: int|
                0 <= k < old(solution)@.len() ==> (#[trigger] old(solution)@[k]) < old(
                    self,
                ).nodes@.len(),
        ensures
            final(self).wf(),
            final(self).nodes@ == old(self).nodes@,
            final(self).ncols == old(self).ncols,
            final(self).matrix == old(self).matrix,
            final(solution)@ == old(solution)@,
            results_extended(old(results)@, final(results)@, old(self).matrix@),
            final(results).deep_view() == old(results).deep_view() + search_spec(
                old(self).nodes@,
                old(self).matrix@,
                old(solution)@,
                fuel as nat,
            ),
            (fuel > 0 && old(self).nodes@[0].right == 0) ==> ({
                let ids = stack_row_ids(old(self).nodes@, old(solution)@);
                if is_exact_cover(old(self).matrix@, ids) {
                    final(results)@.len() == old(results)@.len() + 1
                        && (final(results)@[old(results)@.len() as int])@ == ids
                } else {
                    final(results)@ == old(results)@
                }
            }),
        decreases fuel,
    {
        if fuel == 0 {
            proof {
                assert(results.deep_view() =~= results.deep_view() + Seq::<Seq<usize>>::empty());
            }
            return ;
        }
        // base case: no uncovered column is left, so the stack is a
        // complete candidate; certify it before reporting it
        if self.nodes[0].right == 0 {
            let n = solution.len();
            let mut row_ids: Vec<usize> = Vec::new();
            let mut k: usize = 0;
            while k < n
                invariant
                    self.wf(),
                    n == solution@.len(),
                    k <= n,
                    row_ids@.len() == k,
                    forall|q: int|
                        0 <= q < k ==> (#[trigger] row_ids@[q]) == self.nodes@[solution@[q] as int].row_id,
                    forall|q: int|
                        0 <= q < solution@.len() ==> (#[trigger] solution@[q]) < self.nodes@.len(),
                decreases n - k,
            {
                row_ids.push(self.nodes[solution[k]].row_id);
                k += 1;
            }
            proof {
                assert(row_ids@ =~= stack_row_ids(self.nodes@, solution@));
            }
            if check_exact_cover(&self.matrix, &row_ids) {
                let ghost pre_deep = results.deep_view();
                let ghost ids = row_ids@;
                proof {
                    assert(row_ids.deep_view() =~= ids);
                }
                results.push(row_ids);
                proof {
                    assert(results.deep_view() =~= pre_deep + seq![ids]);
                }
            } else {
                proof {
                    assert(results.deep_view() =~= results.deep_view() + Seq::<Seq<usize>>::empty());
                }
            }
            return ;
        }
        // choose the uncovered column with the fewest cells, first
        // encountered winning ties
        let ghost s0 = self.nodes@;
        let limit = self.nodes.len();
        let ghost c_spec = min_size_column(
            s0,
            s0[0].right as int,
            s0[s0[0].right as int].right as int,
            limit as nat,
        );
        let mut best = self.nodes[0].right;
        let mut cur = self.nodes[best].right;
        let mut steps: usize = 0;
        while cur != 0 && steps < limit
            invariant
                self.wf(),
                self.nodes@ == s0,
                limit == self.nodes@.len(),
                best < limit,
                cur < limit,
                steps <= limit,
                min_size_column(s0, best as int, cur as int, (limit - steps) as nat) == c_spec,
            decreases limit - steps,
        {
            steps += 1;
            if self.nodes[cur].size < self.nodes[best].size {
                best = cur;
            }
            cur = self.nodes[cur].right;
        }
        proof {
            assert(best as int == c_spec);
        }
        let tok_c = self.cover(best);
        let ghost s1 = self.nodes@;
        proof {
            assert(s1 == cover_spec(s0, best as int));
            assert(search_spec(s0, old(self).matrix@, old(solution)@, fuel as nat)
                == search_rows_spec(
                s1,
                old(self).matrix@,
                old(solution)@,
                best as int,
                s1[best as int].down as int,
                limit as nat,
                fuel as nat,
            ));
        }
        // try each row of the chosen column, top to bottom
        let mut r = self.nodes[best].down;
        let mut rsteps: usize = 0;
        while r != best && rsteps < limit
            invariant
                self.wf(),
                limit == self.nodes@.len(),
                self.nodes@ == s1,
                self.ncols == old(self).ncols,
                self.matrix == old(self).matrix,
                best < limit,
                r < limit,
                rsteps <= limit,
                fuel >= 1,
                s0 == old(self).nodes@,
                undo(s1, tok_c.trail@) == s0,
                trail_in_bounds(tok_c.trail@, limit as int),
                solution@ == old(solution)@,
                forall|q: int|
                    0 <= q < solution@.len() ==> (#[trigger] solution@[q]) < self.nodes@.len(),
                results_extended(old(results)@, results@, old(self).matrix@),
                old(results).deep_view() + search_spec(
                    s0,
                    old(self).matrix@,
                    old(solution)@,
                    fuel as nat,
                ) == results.deep_view() + search_rows_spec(
                    s1,
                    old(self).matrix@,
                    old(solution)@,
                    best as int,
                    r as int,
                    (limit - rsteps) as nat,
                    fuel as nat,
                ),
            decreases limit - rsteps,
        {
            let ghost r0 = r as int;
            let ghost fr0 = (limit - rsteps) as nat;
            rsteps += 1;
            solution.push(r);
            // cover every other column this row touches, left to right
            let mut toks: Vec<CoverToken> = Vec::new();
            let mut j = self.nodes[r].right;
            let mut jsteps: usize = 0;
            while j != r && jsteps < limit
                invariant
                    self.wf(),
                    limit == self.nodes@.len(),
                    self.ncols == old(self).ncols,
                    self.matrix == old(self).matrix,
                    r < limit,
                    j < limit,
                    jsteps <= limit,
                    undo_all(self.nodes@, toks@) == s1,
                    toks_in_bounds(toks@, limit as int),
                    row_covers(self.nodes@, r as int, j as int, (limit - jsteps) as nat)
                        == row_covers(s1, r as int, s1[r as int].right as int, limit as nat),
                decreases limit - jsteps,
            {
                jsteps += 1;
                let jc = self.nodes[j].column;
                let ghost pre = self.nodes@;
                let ghost pre_toks = toks@;
                let t = self.cover(jc);
                proof {
                    assert(pre_toks.push(t).drop_last() =~= pre_toks);
                    assert(undo_all(self.nodes@, pre_toks.push(t)) == undo_all(pre, pre_toks));
                }
                toks.push(t);
                j = self.nodes[j].right;
            }
            let ghost s2 = self.nodes@;
            let ghost pre_rec = results@;
            let ghost pre_deep = results.deep_view();
            proof {
                assert(s2 == row_covers(s1, r0, s1[r0].right as int, s1.len()));
            }
            self.search_bounded(solution, results, fuel - 1);
            proof {
                lemma_results_extended_trans(
                    old(results)@,
                    pre_rec,
                    results@,
                    old(self).matrix@,
                );
                assert(results.deep_view() == pre_deep + search_spec(
                    s2,
                    old(self).matrix@,
                    old(solution)@.push(r),
                    (fuel - 1) as nat,
                ));
            }
            solution.pop();
            // backtrack: undo the row's covers newest first
            while toks.len() > 0
                invariant
                    self.wf(),
                    limit == self.nodes@.len(),
                    self.ncols == old(self).ncols,
                    self.matrix == old(self).matrix,
                    r < limit,
                    undo_all(self.nodes@, toks@) == s1,
                    toks_in_bounds(toks@, limit as int),
                decreases toks@.len(),
            {
                let ghost pre_toks = toks@;
                let ghost pre = self.nodes@;
                let t = toks.pop().unwrap();
                self.uncover(t);
                proof {
                    assert(toks@ =~= pre_toks.drop_last());
                    assert(undo_all(self.nodes@, toks@) == undo_all(pre, pre_toks));
                }
            }
            r = self.nodes[r].down;
            proof {
                let m0 = old(self).matrix@;
                let sol0 = old(solution)@;
                assert(search_rows_spec(s1, m0, sol0, best as int, r0, fr0, fuel as nat)
                    == search_spec(s2, m0, sol0.push(r0 as usize), (fuel - 1) as nat)
                    + search_rows_spec(
                    s1,
                    m0,
                    sol0,
                    best as int,
                    s1[r0].down as int,
                    (fr0 - 1) as nat,
                    fuel as nat,
                ));
                assert((pre_deep + search_spec(s2, m0, sol0.push(r0 as usize), (fuel - 1) as nat))
                    + search_rows_spec(
                    s1,
                    m0,
                    sol0,
                    best as int,
                    r as int,
                    (limit - rsteps) as nat,
                    fuel as nat,
                ) =~= pre_deep + (search_spec(s2, m0, sol0.push(r0 as usize), (fuel - 1) as nat)
                    + search_rows_spec(
                    s1,
                    m0,
                    sol0,
                    best as int,
                    r as int,
                    (limit - rsteps) as nat,
                    fuel as nat,
                )));
            }
        }
        proof {
            assert(search_rows_spec(
                s1,
                old(self).matrix@,
                old(solution)@,
                best as int,
                r as int,
                (limit - rsteps) as nat,
                fuel as nat,
            ) =~= Seq::<Seq<usize>>::empty());
            assert(results.deep_view() =~= results.deep_view() + Seq::<Seq<usize>>::empty());
        }
        // finally restore the chosen column itself
        self.uncover(tok_c);
    }
}

} // verus!
