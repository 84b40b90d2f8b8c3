use vstd::prelude::*;

use crate::game_cell::{bucket_for_value, bucket_of, Cell2048};
use crate::line::{line_total, lemma_line_total_concat, lemma_line_total_nonneg, lemma_nonzeros_concat, nonneg_line, nonzeros};

verus! {

// ---------------------------------------------------------------------------
// Board-level specification functions, over the board's view: a sequence of
// rows, each row a sequence of cell values as unbounded integers.
// ---------------------------------------------------------------------------

/// The board is an `n` by `n` grid.
pub open spec fn square(b: Seq<Seq<int>>, n: int) -> bool {
    b.len() == n && forall|r: int| 0 <= r < b.len() ==> (#[trigger] b[r]).len() == n
}

/// Every cell value is non-negative (true of every real board).
pub open spec fn nonneg_board(b: Seq<Seq<int>>) -> bool {
    forall|r: int| 0 <= r < b.len() ==> nonneg_line(#[trigger] b[r])
}

/// Column `c` of the board, top to bottom.
pub open spec fn col_of(b: Seq<Seq<int>>, c: int) -> Seq<int> {
    Seq::new(b.len(), |r: int| b[r][c])
}

/// The sum of all cell values of rows `r` and beyond.
pub open spec fn rows_sum_from(b: Seq<Seq<int>>, r: int) -> int
    decreases b.len() - r,
{
    if r < 0 || r >= b.len() {
        0
    } else {
        line_total(b[r]) + rows_sum_from(b, r + 1)
    }
}

/// The sum of all cell values of the board.
pub open spec fn board_total(b: Seq<Seq<int>>) -> int {
    rows_sum_from(b, 0)
}

/// The sum of all cell values of columns `c` and beyond (square boards).
pub open spec fn cols_sum_from(b: Seq<Seq<int>>, c: int) -> int
    decreases b.len() - c,
{
    if c < 0 || c >= b.len() {
        0
    } else {
        line_total(col_of(b, c)) + cols_sum_from(b, c + 1)
    }
}

/// The number of non-empty cells of rows `r` and beyond.
pub open spec fn rows_count_from(b: Seq<Seq<int>>, r: int) -> int
    decreases b.len() - r,
{
    if r < 0 || r >= b.len() {
        0
    } else {
        nonzeros(b[r]).len() + rows_count_from(b, r + 1)
    }
}

/// The number of non-empty cells of the board.
pub open spec fn board_count(b: Seq<Seq<int>>) -> int {
    rows_count_from(b, 0)
}

/// Every cell of the board holds a tile.
pub open spec fn is_full_board(b: Seq<Seq<int>>) -> bool {
    forall|r: int, c: int| 0 <= r < b.len() && 0 <= c < b[r].len() ==> #[trigger] b[r][c] != 0
}

// ---------------------------------------------------------------------------
// Sum lemmas
// ---------------------------------------------------------------------------

pub proof fn lemma_rows_sum_nonneg(b: Seq<Seq<int>>, r: int)
    requires
        nonneg_board(b),
    ensures
        rows_sum_from(b, r) >= 0,
    decreases b.len() - r,
{
    if 0 <= r < b.len() {
        lemma_line_total_nonneg(b[r]);
        lemma_rows_sum_nonneg(b, r + 1);
    }
}

proof fn lemma_row_le_rows_sum(b: Seq<Seq<int>>, k: int, r: int)
    requires
        nonneg_board(b),
        0 <= k <= r < b.len(),
    ensures
        line_total(b[r]) <= rows_sum_from(b, k),
    decreases r - k,
{
    if k == r {
        lemma_rows_sum_nonneg(b, r + 1);
    } else {
        lemma_line_total_nonneg(b[k]);
        lemma_row_le_rows_sum(b, k + 1, r);
    }
}

/// Each row's sum is at most the whole board's sum.
pub proof fn lemma_row_le_board_total(b: Seq<Seq<int>>, r: int)
    requires
        nonneg_board(b),
        0 <= r < b.len(),
    ensures
        line_total(b[r]) <= board_total(b),
{
    lemma_row_le_rows_sum(b, 0, r);
}

proof fn lemma_cols_tail_at_end(b: Seq<Seq<int>>, c: int)
    requires
        0 <= c,
    ensures
        cols_tail_from(b, c, b.len() as int) == 0,
    decreases b.len() - c,
{
    if c < b.len() {
        assert(col_of(b, c).skip(b.len() as int) =~= Seq::<int>::empty());
        lemma_cols_tail_at_end(b, c + 1);
    }
}

/// The sum of all cell values of columns `c` and beyond, rows `r` and beyond.
pub open spec fn cols_tail_from(b: Seq<Seq<int>>, c: int, r: int) -> int
    decreases b.len() - c,
{
    if c < 0 || c >= b.len() {
        0
    } else {
        line_total(col_of(b, c).skip(r)) + cols_tail_from(b, c + 1, r)
    }
}

proof fn lemma_cols_tail_step(b: Seq<Seq<int>>, c: int, r: int)
    requires
        square(b, b.len() as int),
        0 <= c <= b.len(),
        0 <= r < b.len(),
    ensures
        cols_tail_from(b, c, r) == line_total(b[r].skip(c)) + cols_tail_from(b, c, r + 1),
    decreases b.len() - c,
{
    if c >= b.len() {
        assert(b[r].skip(c) =~= Seq::<int>::empty());
    } else {
        lemma_cols_tail_step(b, c + 1, r);
        let col = col_of(b, c);
        assert(col.skip(r)[0] == b[r][c]);
        assert(col.skip(r).skip(1) =~= col.skip(r + 1));
        assert(line_total(col.skip(r)) == b[r][c] + line_total(col.skip(r + 1)));
        assert(b[r].skip(c)[0] == b[r][c]);
        assert(b[r].skip(c).skip(1) =~= b[r].skip(c + 1));
        assert(line_total(b[r].skip(c)) == b[r][c] + line_total(b[r].skip(c + 1)));
    }
}

proof fn lemma_exchange_tail(b: Seq<Seq<int>>, r: int)
    requires
        square(b, b.len() as int),
        0 <= r <= b.len(),
    ensures
        rows_sum_from(b, r) == cols_tail_from(b, 0, r),
    decreases b.len() - r,
{
    if r == b.len() {
        lemma_cols_tail_at_end(b, 0);
    } else {
        lemma_exchange_tail(b, r + 1);
        lemma_cols_tail_step(b, 0, r);
        assert(b[r].skip(0) =~= b[r]);
    }
}

proof fn lemma_cols_tail_zero(b: Seq<Seq<int>>, c: int)
    requires
        0 <= c,
    ensures
        cols_tail_from(b, c, 0) == cols_sum_from(b, c),
    decreases b.len() - c,
{
    if c < b.len() {
        assert(col_of(b, c).skip(0) =~= col_of(b, c));
        lemma_cols_tail_zero(b, c + 1);
    }
}

/// Summing the board row by row and column by column agree.
pub proof fn lemma_board_total_by_cols(b: Seq<Seq<int>>)
    requires
        square(b, b.len() as int),
    ensures
        board_total(b) == cols_sum_from(b, 0),
{
    lemma_exchange_tail(b, 0);
    lemma_cols_tail_zero(b, 0);
}

proof fn lemma_col_le_cols_sum(b: Seq<Seq<int>>, k: int, c: int)
    requires
        square(b, b.len() as int),
        nonneg_board(b),
        0 <= k <= c < b.len(),
    ensures
        line_total(col_of(b, c)) <= cols_sum_from(b, k),
    decreases c - k,
{
    assert forall|cc: int| 0 <= cc < b.len() implies nonneg_line(col_of(b, cc)) by {
        assert forall|r: int| 0 <= r < col_of(b, cc).len() implies col_of(b, cc)[r] >= 0 by {
            assert(col_of(b, cc)[r] == b[r][cc]);
        }
    }
    if k == c {
        lemma_cols_sum_nonneg(b, c + 1);
    } else {
        lemma_line_total_nonneg(col_of(b, k));
        lemma_col_le_cols_sum(b, k + 1, c);
    }
}

proof fn lemma_cols_sum_nonneg(b: Seq<Seq<int>>, c: int)
    requires
        square(b, b.len() as int),
        nonneg_board(b),
    ensures
        cols_sum_from(b, c) >= 0,
    decreases b.len() - c,
{
    if 0 <= c < b.len() {
        assert(nonneg_line(col_of(b, c))) by {
            assert forall|r: int| 0 <= r < col_of(b, c).len() implies col_of(b, c)[r] >= 0 by {
                assert(col_of(b, c)[r] == b[r][c]);
            }
        }
        lemma_line_total_nonneg(col_of(b, c));
        lemma_cols_sum_nonneg(b, c + 1);
    }
}

/// Each column's sum is at most the whole board's sum.
pub proof fn lemma_col_le_board_total(b: Seq<Seq<int>>, c: int)
    requires
        square(b, b.len() as int),
        nonneg_board(b),
        0 <= c < b.len(),
    ensures
        line_total(col_of(b, c)) <= board_total(b),
{
    lemma_board_total_by_cols(b);
    lemma_col_le_cols_sum(b, 0, c);
}

// ---------------------------------------------------------------------------
// Update lemmas
// ---------------------------------------------------------------------------

pub proof fn lemma_line_total_single(x: int)
    ensures
        line_total(seq![x]) == x,
{
    assert(seq![x].skip(1) =~= Seq::<int>::empty());
    assert(line_total(Seq::<int>::empty()) == 0);
}

pub proof fn lemma_line_total_update(s: Seq<int>, c: int, v: int)
    requires
        0 <= c < s.len(),
    ensures
        line_total(s.update(c, v)) == line_total(s) - s[c] + v,
{
    let pre = s.take(c);
    let post = s.skip(c + 1);
    assert(s =~= pre + seq![s[c]] + post);
    assert(s.update(c, v) =~= pre + seq![v] + post);
    lemma_line_total_concat(pre + seq![s[c]], post);
    lemma_line_total_concat(pre, seq![s[c]]);
    lemma_line_total_concat(pre + seq![v], post);
    lemma_line_total_concat(pre, seq![v]);
    lemma_line_total_single(s[c]);
    lemma_line_total_single(v);
}

/// Filling an empty cell of a line with a tile raises its non-empty count by
/// exactly one.
pub proof fn lemma_nonzeros_update_fill(s: Seq<int>, c: int, v: int)
    requires
        0 <= c < s.len(),
        s[c] == 0,
        v != 0,
    ensures
        nonzeros(s.update(c, v)).len() == nonzeros(s).len() + 1,
{
    let pre = s.take(c);
    let post = s.skip(c + 1);
    assert(s =~= pre + seq![s[c]] + post);
    assert(s.update(c, v) =~= pre + seq![v] + post);
    lemma_nonzeros_concat(pre + seq![s[c]], post);
    lemma_nonzeros_concat(pre, seq![s[c]]);
    lemma_nonzeros_concat(pre + seq![v], post);
    lemma_nonzeros_concat(pre, seq![v]);
    assert(seq![s[c]].skip(1) =~= Seq::<int>::empty());
    assert(seq![v].skip(1) =~= Seq::<int>::empty());
    assert(nonzeros(Seq::<int>::empty()) == Seq::<int>::empty());
    assert(nonzeros(seq![s[c]]) == Seq::<int>::empty());
    assert(nonzeros(seq![v]) =~= seq![v]);
}

pub proof fn lemma_rows_sum_update(b: Seq<Seq<int>>, r: int, row2: Seq<int>, from: int)
    requires
        0 <= r < b.len(),
        0 <= from,
    ensures
        rows_sum_from(b.update(r, row2), from) == rows_sum_from(b, from) + (if from <= r {
            line_total(row2) - line_total(b[r])
        } else {
            0
        }),
    decreases b.len() - from,
{
    let b2 = b.update(r, row2);
    assert(b2.len() == b.len());
    if from < b.len() {
        lemma_rows_sum_update(b, r, row2, from + 1);
        if from == r {
            assert(b2[from] == row2);
        } else {
            assert(b2[from] == b[from]);
        }
    }
}

pub proof fn lemma_rows_count_update(b: Seq<Seq<int>>, r: int, row2: Seq<int>, from: int)
    requires
        0 <= r < b.len(),
        0 <= from,
    ensures
        rows_count_from(b.update(r, row2), from) == rows_count_from(b, from) + (if from <= r {
            nonzeros(row2).len() - nonzeros(b[r]).len()
        } else {
            0
        }),
    decreases b.len() - from,
{
    let b2 = b.update(r, row2);
    assert(b2.len() == b.len());
    if from < b.len() {
        lemma_rows_count_update(b, r, row2, from + 1);
        if from == r {
            assert(b2[from] == row2);
        } else {
            assert(b2[from] == b[from]);
        }
    }
}

/// Placing value `v` on an empty cell of the board raises the total by `v`
/// and the non-empty count by one.
pub proof fn lemma_board_fill(b: Seq<Seq<int>>, r: int, c: int, v: int)
    requires
        0 <= r < b.len(),
        0 <= c < b[r].len(),
        b[r][c] == 0,
        v != 0,
    ensures
        board_total(b.update(r, b[r].update(c, v))) == board_total(b) + v,
        board_count(b.update(r, b[r].update(c, v))) == board_count(b) + 1,
{
    lemma_rows_sum_update(b, r, b[r].update(c, v), 0);
    lemma_line_total_update(b[r], c, v);
    lemma_rows_count_update(b, r, b[r].update(c, v), 0);
    lemma_nonzeros_update_fill(b[r], c, v);
}

/// A board of empty cells has total 0 and holds no tiles.
pub proof fn lemma_zero_board(b: Seq<Seq<int>>, from: int)
    requires
        forall|r: int, c: int| 0 <= r < b.len() && 0 <= c < b[r].len() ==> #[trigger] b[r][c] == 0,
    ensures
        rows_sum_from(b, from) == 0,
        rows_count_from(b, from) == 0,
    decreases b.len() - from,
{
    if 0 <= from < b.len() {
        assert forall|c: int| 0 <= c < b[from].len() implies b[from][c] == 0 by {}
        crate::line::lemma_all_zero_nonzeros_empty(b[from]);
        crate::line::lemma_nonzeros_total(b[from]);
        assert(line_total(Seq::<int>::empty()) == 0);
        lemma_zero_board(b, from + 1);
    }
}

/// Boards whose rows have pairwise equal sums have equal totals.
pub proof fn lemma_rows_sum_pointwise(b1: Seq<Seq<int>>, b2: Seq<Seq<int>>, from: int)
    requires
        b1.len() == b2.len(),
        forall|r: int| 0 <= r < b1.len() ==> line_total(#[trigger] b1[r]) == line_total(b2[r]),
    ensures
        rows_sum_from(b1, from) == rows_sum_from(b2, from),
    decreases b1.len() - from,
{
    if 0 <= from < b1.len() {
        lemma_rows_sum_pointwise(b1, b2, from + 1);
    }
}

/// Boards whose columns have pairwise equal sums have equal column sums.
pub proof fn lemma_cols_sum_pointwise(b1: Seq<Seq<int>>, b2: Seq<Seq<int>>, from: int)
    requires
        b1.len() == b2.len(),
        forall|c: int|
            0 <= c < b1.len() ==> line_total(#[trigger] col_of(b1, c)) == line_total(col_of(b2, c)),
    ensures
        cols_sum_from(b1, from) == cols_sum_from(b2, from),
    decreases b1.len() - from,
{
    if 0 <= from < b1.len() {
        lemma_cols_sum_pointwise(b1, b2, from + 1);
    }
}

/// The two boards hold exactly the same cells: the same dimensions and, at
/// every position, the same value, coordinates and display bucket.
pub open spec fn same_cells(a: GridCell2048, b: GridCell2048) -> bool {
    &&& a.size == b.size
    &&& a.cells@.len() == b.cells@.len()
    &&& (forall|r: int|
        0 <= r < a.cells@.len() ==> (#[trigger] a.cells@[r])@.len() == b.cells@[r]@.len())
    &&& (forall|r: int, c: int|
        0 <= r < a.cells@.len() && 0 <= c < a.cells@[r]@.len() ==> #[trigger] a.cells@[r]@[c]
            == b.cells@[r]@[c])
}

// ---------------------------------------------------------------------------
// The empty positions of a board, as `get_empty_cells` enumerates them
// ---------------------------------------------------------------------------

/// The empty positions of one row, from column `c` on, left to right.
pub open spec fn row_empties(row: Seq<int>, r: int, c: int) -> Seq<(usize, usize)>
    decreases row.len() - c,
{
    if c < 0 || c >= row.len() {
        Seq::empty()
    } else if row[c] == 0 {
        seq![(r as usize, c as usize)] + row_empties(row, r, c + 1)
    } else {
        row_empties(row, r, c + 1)
    }
}

/// Every empty position of rows `r` and beyond, in row-major order.
pub open spec fn board_empties_from(b: Seq<Seq<int>>, r: int) -> Seq<(usize, usize)>
    decreases b.len() - r,
{
    if r < 0 || r >= b.len() {
        Seq::empty()
    } else {
        row_empties(b[r], r, 0) + board_empties_from(b, r + 1)
    }
}

/// Every empty position of the board, in row-major order: each position at
/// most once, rows in order and columns in order within each row.
pub open spec fn board_empties(b: Seq<Seq<int>>) -> Seq<(usize, usize)> {
    board_empties_from(b, 0)
}

proof fn lemma_row_empties_len(row: Seq<int>, r: int, c: int)
    requires
        0 <= c <= row.len(),
    ensures
        row_empties(row, r, c).len() + nonzeros(row.skip(c)).len() == row.len() - c,
    decreases row.len() - c,
{
    if c < row.len() {
        lemma_row_empties_len(row, r, c + 1);
        assert(row.skip(c)[0] == row[c]);
        assert(row.skip(c).skip(1) =~= row.skip(c + 1));
    } else {
        assert(row.skip(c) =~= Seq::<int>::empty());
        assert(nonzeros(Seq::<int>::empty()) == Seq::<int>::empty());
    }
}

/// The empty positions and the tiles together cover the board exactly.
pub proof fn lemma_board_empties_len(b: Seq<Seq<int>>, r: int)
    requires
        square(b, b.len() as int),
        0 <= r <= b.len(),
    ensures
        board_empties_from(b, r).len() + rows_count_from(b, r) == (b.len() - r) * b.len(),
    decreases b.len() - r,
{
    if r < b.len() {
        lemma_board_empties_len(b, r + 1);
        lemma_row_empties_len(b[r], r, 0);
        assert(b[r].skip(0) =~= b[r]);
        assert(b[r].len() == b.len());
        assert(row_empties(b[r], r, 0).len() + nonzeros(b[r]).len() == b.len());
        assert(board_empties_from(b, r).len() == row_empties(b[r], r, 0).len()
            + board_empties_from(b, r + 1).len());
        assert(rows_count_from(b, r) == nonzeros(b[r]).len() + rows_count_from(b, r + 1));
        assert((b.len() - r) * b.len() == b.len() + (b.len() - (r + 1)) * b.len())
            by (nonlinear_arith);
    } else {
        assert(b.len() - r == 0);
        assert((b.len() - r) * b.len() == 0) by (nonlinear_arith)
            requires
                b.len() - r == 0,
        ;
    }
}

// ---------------------------------------------------------------------------
// The board itself
// ---------------------------------------------------------------------------

/// The N by N grid of cells. Each position owns exactly one cell, whose
/// `row`/`col` fields always match its place in the grid.
pub struct GridCell2048 {
    pub size: usize,
    pub cells: Vec<Vec<Cell2048>>,
}

impl View for GridCell2048 {
    type V = Seq<Seq<int>>;

    open spec fn view(&self) -> Seq<Seq<int>> {
        Seq::new(
            self.cells@.len(),
            |r: int| Seq::new(self.cells@[r]@.len(), |c: int| self.cells@[r]@[c].value as int),
        )
    }
}

impl GridCell2048 {
    /// Structural invariant: the grid is `size` by `size` and every cell
    /// records its own position.
    pub open spec fn wf(&self) -> bool {
        &&& self.cells@.len() == self.size
        &&& (forall|r: int| 0 <= r < self.size ==> (#[trigger] self.cells@[r])@.len() == self.size)
        &&& (forall|r: int, c: int|
            0 <= r < self.size && 0 <= c < self.size ==> (#[trigger] self.cells@[r]@[c]).row == r
                && self.cells@[r]@[c].col == c)
    }

    /// Every display bucket agrees with its cell's value.
    pub open spec fn buckets_fresh(&self) -> bool {
        forall|r: int, c: int|
            0 <= r < self.cells@.len() && 0 <= c < self.cells@[r]@.len() ==> (
            #[trigger] self.cells@[r]@[c]).bucket == bucket_of(self.cells@[r]@[c].value as int)
    }

    /// The view of a well-formed board is a square grid of non-negative
    /// values.
    pub proof fn lemma_view_props(&self)
        requires
            self.wf(),
        ensures
            square(self@, self.size as int),
            nonneg_board(self@),
            self@.len() == self.size,
    {
        assert forall|r: int| 0 <= r < self@.len() implies (#[trigger] self@[r]).len()
            == self.size as int by {
            assert(self.cells@[r]@.len() == self.size);
        }
        assert forall|r: int| 0 <= r < self@.len() implies nonneg_line(#[trigger] self@[r]) by {
            assert forall|c: int| 0 <= c < self@[r].len() implies self@[r][c] >= 0 by {
                assert(self@[r][c] == self.cells@[r]@[c].value as int);
            }
        }
    }

    /// A fresh board of empty cells.
    pub fn new(size: usize) -> (g: GridCell2048)
        ensures
            g.wf(),
            g.size == size,
            g@.len() == size,
            forall|r: int| 0 <= r < size ==> (#[trigger] g@[r]).len() == size,
            forall|r: int, c: int| 0 <= r < size && 0 <= c < size ==> #[trigger] g@[r][c] == 0,
            g.buckets_fresh(),
    {
        let mut cells: Vec<Vec<Cell2048>> = Vec::new();
        let mut r: usize = 0;
        while r < size
            invariant
                r <= size,
                cells@.len() == r,
                forall|i: int| 0 <= i < r ==> (#[trigger] cells@[i])@.len() == size,
                forall|i: int, j: int|
                    0 <= i < r && 0 <= j < size ==> (#[trigger] cells@[i]@[j]).row == i
                        && cells@[i]@[j].col == j && cells@[i]@[j].value == 0
                        && cells@[i]@[j].bucket == 0,
            decreases size - r,
        {
            let mut row: Vec<Cell2048> = Vec::new();
            let mut c: usize = 0;
            while c < size
                invariant
                    c <= size,
                    row@.len() == c,
                    forall|j: int|
                        0 <= j < c ==> (#[trigger] row@[j]).row == r && row@[j].col == j
                            && row@[j].value == 0 && row@[j].bucket == 0,
                decreases size - c,
            {
                row.push(Cell2048::new(0, r, c, 0));
                c += 1;
            }
            cells.push(row);
            r += 1;
        }
        let g = GridCell2048 { size, cells };
        g
    }

    /// The board's dimensions, rows then columns.
    pub fn shape(&self) -> (s: (usize, usize))
        ensures
            s == (self.size, self.size),
    {
        (self.size, self.size)
    }

    /// The value held at one position.
    pub fn get_value(&self, row: usize, col: usize) -> (v: u64)
        requires
            self.wf(),
            row < self.size,
            col < self.size,
        ensures
            v as int == self@[row as int][col as int],
    {
        self.cells[row][col].value
    }

    /// Overwrite the value at one position, leaving every other cell and the
    /// position's display bucket as they were.
    pub fn set_value(&mut self, row: usize, col: usize, v: u64)
        requires
            old(self).wf(),
            row < old(self).size,
            col < old(self).size,
        ensures
            final(self).wf(),
            final(self).size == old(self).size,
            final(self)@ == old(self)@.update(
                row as int,
                old(self)@[row as int].update(col as int, v as int),
            ),
            forall|i: int, j: int|
                0 <= i < final(self).size && 0 <= j < final(self).size ==> (
                #[trigger] final(self).cells@[i]@[j]).bucket == old(self).cells@[i]@[j].bucket,
    {
        let n = self.size;
        let mut new_row: Vec<Cell2048> = Vec::new();
        let mut j: usize = 0;
        while j < n
            invariant
                j <= n,
                *self == *old(self),
                n == self.size,
                self.wf(),
                row < n,
                col < n,
                new_row@.len() == j,
                forall|t: int|
                    0 <= t < j ==> (#[trigger] new_row@[t]).row == row && new_row@[t].col == t
                        && new_row@[t].bucket == self.cells@[row as int]@[t].bucket
                        && new_row@[t].value as int == (if t == col {
                        v as int
                    } else {
                        self.cells@[row as int]@[t].value as int
                    }),
            decreases n - j,
        {
            let old_cell = self.cells[row][j];
            let value = if j == col {
                v
            } else {
                old_cell.value
            };
            new_row.push(Cell2048::new(value, row, j, old_cell.bucket));
            j += 1;
        }
        self.cells.set(row, new_row);
        proof {
            assert(self@ =~~= old(self)@.update(
                row as int,
                old(self)@[row as int].update(col as int, v as int),
            ));
        }
    }

    /// Place a cell's value and display bucket at the cell's recorded
    /// position, leaving every other cell as it was.
    pub fn insert(&mut self, new_cell: &Cell2048)
        requires
            old(self).wf(),
            new_cell.row < old(self).size,
            new_cell.col < old(self).size,
        ensures
            final(self).wf(),
            final(self).size == old(self).size,
            final(self)@ == old(self)@.update(
                new_cell.row as int,
                old(self)@[new_cell.row as int].update(new_cell.col as int, new_cell.value as int),
            ),
            forall|i: int, j: int|
                0 <= i < final(self).size && 0 <= j < final(self).size && !(i == new_cell.row && j
                    == new_cell.col) ==> (#[trigger] final(self).cells@[i]@[j]).bucket == old(
                    self,
                ).cells@[i]@[j].bucket,
            final(self).cells@[new_cell.row as int]@[new_cell.col as int].bucket
                == new_cell.bucket,
    {
        let row = new_cell.row;
        let col = new_cell.col;
        let n = self.size;
        let mut new_row: Vec<Cell2048> = Vec::new();
        let mut j: usize = 0;
        while j < n
            invariant
                j <= n,
                *self == *old(self),
                n == self.size,
                self.wf(),
                row == new_cell.row,
                col == new_cell.col,
                row < n,
                col < n,
                new_row@.len() == j,
                forall|t: int|
                    0 <= t < j ==> (#[trigger] new_row@[t]).row == row && new_row@[t].col == t
                        && new_row@[t].bucket == (if t == col {
                        new_cell.bucket
                    } else {
                        self.cells@[row as int]@[t].bucket
                    }) && new_row@[t].value as int == (if t == col {
                        new_cell.value as int
                    } else {
                        self.cells@[row as int]@[t].value as int
                    }),
            decreases n - j,
        {
            let old_cell = self.cells[row][j];
            let (value, bucket) = if j == col {
                (new_cell.value, new_cell.bucket)
            } else {
                (old_cell.value, old_cell.bucket)
            };
            new_row.push(Cell2048::new(value, row, j, bucket));
            j += 1;
        }
        self.cells.set(row, new_row);
        proof {
            assert(self@ =~~= old(self)@.update(
                row as int,
                old(self)@[row as int].update(col as int, new_cell.value as int),
            ));
        }
    }

    /// Borrow the cell at one position.
    pub fn get_cell(&self, row: usize, col: usize) -> (cell: &Cell2048)
        requires
            self.wf(),
            row < self.size,
            col < self.size,
        ensures
            cell.value as int == self@[row as int][col as int],
            cell.row == row,
            cell.col == col,
            *cell == self.cells@[row as int]@[col as int],
    {
        &self.cells[row][col]
    }

    /// Borrow the cell at one position (bounds-checked alias of `get_cell`).
    pub fn get(&self, row: usize, col: usize) -> (cell: &Cell2048)
        requires
            self.wf(),
            row < self.size,
            col < self.size,
        ensures
            cell.value as int == self@[row as int][col as int],
            cell.row == row,
            cell.col == col,
    {
        &self.cells[row][col]
    }

    /// Read access to the rows of cells, for rendering.
    pub fn rows(&self) -> (rows: &Vec<Vec<Cell2048>>)
        ensures
            rows@ == self.cells@,
    {
        &self.cells
    }

    /// Every position whose cell is empty, exactly once each, in row-major
    /// order; the result and the tiles together cover the whole board.
    pub fn get_empty_cells(&self) -> (res: Vec<(usize, usize)>)
        requires
            self.wf(),
        ensures
            res@ == board_empties(self@),
            res@.len() + board_count(self@) == self.size * self.size,
            forall|k: int|
                0 <= k < res@.len() ==> (#[trigger] res@[k]).0 < self.size && res@[k].1 < self.size
                    && self@[res@[k].0 as int][res@[k].1 as int] == 0,
            forall|r: int, c: int|
                0 <= r < self.size && 0 <= c < self.size && self@[r][c] == 0 ==> res@.contains(
                    (r as usize, c as usize),
                ),
    {
        let n = self.size;
        proof {
            self.lemma_view_props();
        }
        let mut res: Vec<(usize, usize)> = Vec::new();
        let mut r: usize = 0;
        proof {
            assert(res@ + board_empties_from(self@, 0) =~= board_empties(self@));
        }
        while r < n
            invariant
                r <= n,
                n == self.size,
                self.wf(),
                self@.len() == n,
                board_empties(self@) == res@ + board_empties_from(self@, r as int),
                forall|k: int|
                    0 <= k < res@.len() ==> (#[trigger] res@[k]).0 < n && res@[k].1 < n
                        && self@[res@[k].0 as int][res@[k].1 as int] == 0,
                forall|i: int, j: int|
                    0 <= i < r && 0 <= j < n && self@[i][j] == 0 ==> res@.contains(
                        (i as usize, j as usize),
                    ),
            decreases n - r,
        {
            let mut c: usize = 0;
            proof {
                assert(board_empties_from(self@, r as int) == row_empties(
                    self@[r as int],
                    r as int,
                    0,
                ) + board_empties_from(self@, r as int + 1));
                assert(res@ + (row_empties(self@[r as int], r as int, 0) + board_empties_from(
                    self@,
                    r as int + 1,
                )) =~= (res@ + row_empties(self@[r as int], r as int, 0)) + board_empties_from(
                    self@,
                    r as int + 1,
                ));
            }
            while c < n
                invariant
                    c <= n,
                    r < n,
                    n == self.size,
                    self.wf(),
                    self@.len() == n,
                    board_empties(self@) == (res@ + row_empties(self@[r as int], r as int, c as int))
                        + board_empties_from(self@, r as int + 1),
                    forall|k: int|
                        0 <= k < res@.len() ==> (#[trigger] res@[k]).0 < n && res@[k].1 < n
                            && self@[res@[k].0 as int][res@[k].1 as int] == 0,
                    forall|i: int, j: int|
                        0 <= i < r && 0 <= j < n && self@[i][j] == 0 ==> res@.contains(
                            (i as usize, j as usize),
                        ),
                    forall|j: int|
                        0 <= j < c && self@[r as int][j] == 0 ==> res@.contains(
                            (r as usize, j as usize),
                        ),
                decreases n - c,
            {
                let ghost pre = res@;
                let ghost row_view = self@[r as int];
                if self.cells[r][c].value == 0 {
                    res.push((r, c));
                    proof {
                        assert(res@ == pre.push((r, c)));
                        assert(res@[pre.len() as int] == (r, c));
                        assert forall|p: (usize, usize)| pre.contains(p) implies res@.contains(
                            p,
                        ) by {
                            let k = choose|k: int| 0 <= k < pre.len() && pre[k] == p;
                            assert(res@[k] == p);
                        }
                        assert(row_empties(row_view, r as int, c as int) == seq![(r, c)]
                            + row_empties(row_view, r as int, c as int + 1));
                        assert(pre + (seq![(r, c)] + row_empties(row_view, r as int, c as int + 1))
                            =~= res@ + row_empties(row_view, r as int, c as int + 1));
                    }
                } else {
                    proof {
                        assert(row_empties(row_view, r as int, c as int) == row_empties(
                            row_view,
                            r as int,
                            c as int + 1,
                        ));
                    }
                }
                c += 1;
            }
            proof {
                assert(row_empties(self@[r as int], r as int, n as int)
                    =~= Seq::<(usize, usize)>::empty());
                assert(res@ + Seq::<(usize, usize)>::empty() =~= res@);
            }
            r += 1;
        }
        proof {
            assert(board_empties_from(self@, n as int) =~= Seq::<(usize, usize)>::empty());
            assert(res@ + Seq::<(usize, usize)>::empty() =~= res@);
            lemma_board_empties_len(self@, 0);
        }
        res
    }

    /// A deep, independent copy of the board: later changes to either board
    /// are never visible through the other.
    pub fn snapshot(&self) -> (g: GridCell2048)
        requires
            self.wf(),
        ensures
            g.wf(),
            g.size == self.size,
            g@ == self@,
            forall|i: int, j: int|
                0 <= i < self.size && 0 <= j < self.size ==> #[trigger] g.cells@[i]@[j]
                    == self.cells@[i]@[j],
    {
        let n = self.size;
        let mut cells: Vec<Vec<Cell2048>> = Vec::new();
        let mut r: usize = 0;
        while r < n
            invariant
                r <= n,
                n == self.size,
                self.wf(),
                cells@.len() == r,
                forall|i: int| 0 <= i < r ==> (#[trigger] cells@[i])@.len() == n,
                forall|i: int, j: int|
                    0 <= i < r && 0 <= j < n ==> #[trigger] cells@[i]@[j] == self.cells@[i]@[j],
            decreases n - r,
        {
            let mut row: Vec<Cell2048> = Vec::new();
            let mut c: usize = 0;
            while c < n
                invariant
                    c <= n,
                    r < n,
                    n == self.size,
                    self.wf(),
                    row@.len() == c,
                    forall|j: int| 0 <= j < c ==> #[trigger] row@[j] == self.cells@[r as int]@[j],
                decreases n - c,
            {
                let cell = self.cells[r][c];
                row.push(cell);
                c += 1;
            }
            cells.push(row);
            r += 1;
        }
        let g = GridCell2048 { size: n, cells };
        proof {
            assert(g@ =~~= self@);
        }
        g
    }

    /// Recompute every cell's display bucket from its value, leaving the
    /// values themselves untouched.
    pub fn update_backgrounds(&mut self)
        requires
            old(self).wf(),
        ensures
            final(self).wf(),
            final(self).size == old(self).size,
            final(self)@ == old(self)@,
            final(self).buckets_fresh(),
    {
        let n = self.size;
        let mut r: usize = 0;
        while r < n
            invariant
                r <= n,
                n == self.size,
                self.wf(),
                self.cells@.len() == n,
                forall|i: int, j: int|
                    0 <= i < n && 0 <= j < n ==> (#[trigger] self.cells@[i]@[j]).value == old(
                        self,
                    ).cells@[i]@[j].value,
                forall|i: int, j: int|
                    0 <= i < r && 0 <= j < n ==> (#[trigger] self.cells@[i]@[j]).bucket
                        == bucket_of(self.cells@[i]@[j].value as int),
            decreases n - r,
        {
            let mut new_row: Vec<Cell2048> = Vec::new();
            let mut c: usize = 0;
            while c < n
                invariant
                    c <= n,
                    r < n,
                    n == self.size,
                    self.wf(),
                    new_row@.len() == c,
                    forall|j: int|
                        0 <= j < c ==> (#[trigger] new_row@[j]).row == r && new_row@[j].col == j
                            && new_row@[j].value == self.cells@[r as int]@[j].value
                            && new_row@[j].bucket == bucket_of(
                            self.cells@[r as int]@[j].value as int,
                        ),
                decreases n - c,
            {
                let cell = self.cells[r][c];
                new_row.push(Cell2048::new(cell.value, r, c, bucket_for_value(cell.value)));
                c += 1;
            }
            let ghost before = *self;
            self.cells.set(r, new_row);
            proof {
                assert forall|i: int, j: int| 0 <= i < n && 0 <= j < n implies (
                #[trigger] self.cells@[i]@[j]).value == old(self).cells@[i]@[j].value by {
                    if i != r {
                        assert(self.cells@[i] == before.cells@[i]);
                    }
                }
            }
            r += 1;
        }
        proof {
            assert(self@ =~~= old(self)@);
        }
    }
}

} // verus!
