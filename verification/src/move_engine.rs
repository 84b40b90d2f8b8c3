use vstd::prelude::*;

use crate::grid_cell::{
    board_total, col_of, cols_sum_from, lemma_board_total_by_cols, lemma_col_le_board_total,
    lemma_cols_sum_pointwise, lemma_row_le_board_total, lemma_rows_sum_pointwise, nonneg_board,
    rows_sum_from, square, GridCell2048,
};
use crate::line::{
    lemma_line_total_reverse, lemma_nonneg_reverse, lemma_slide_front_stable,
    lemma_slide_gain_bounds, lemma_slide_len, lemma_slide_nonneg, lemma_slide_total, line_total,
    no_adjacent_merge, nonneg_line, slide_front, slide_gain, slide_line, vals,
};
use crate::Direction;

verus! {

// ---------------------------------------------------------------------------
// A move treats the board as `n` independent lines, each ordered from the
// wall the tiles slide toward. The cell at entry `k` of line `i` lies at
// board coordinates `(line_row, line_col)`; conversely the cell at `(r, c)`
// belongs to line `line_index` at entry `line_pos`.
// ---------------------------------------------------------------------------

pub open spec fn line_row(dir: Direction, i: int, k: int, n: int) -> int {
    match dir {
        Direction::Left => i,
        Direction::Right => i,
        Direction::Up => k,
        Direction::Down => n - 1 - k,
    }
}

pub open spec fn line_col(dir: Direction, i: int, k: int, n: int) -> int {
    match dir {
        Direction::Left => k,
        Direction::Right => n - 1 - k,
        Direction::Up => i,
        Direction::Down => i,
    }
}

pub open spec fn line_index(dir: Direction, r: int, c: int) -> int {
    match dir {
        Direction::Left => r,
        Direction::Right => r,
        Direction::Up => c,
        Direction::Down => c,
    }
}

pub open spec fn line_pos(dir: Direction, r: int, c: int, n: int) -> int {
    match dir {
        Direction::Left => c,
        Direction::Right => n - 1 - c,
        Direction::Up => r,
        Direction::Down => n - 1 - r,
    }
}

/// Line `i` of the board for direction `dir`, ordered from the target wall.
pub open spec fn line_of(b: Seq<Seq<int>>, dir: Direction, i: int) -> Seq<int> {
    let n = b.len() as int;
    Seq::new(b.len(), |k: int| b[line_row(dir, i, k, n)][line_col(dir, i, k, n)])
}

/// The whole board after a slide in direction `dir`: every line is slid
/// toward its wall independently.
pub open spec fn board_slide(b: Seq<Seq<int>>, dir: Direction) -> Seq<Seq<int>> {
    let n = b.len() as int;
    Seq::new(
        b.len(),
        |r: int|
            Seq::new(
                b.len(),
                |c: int|
                    slide_front(line_of(b, dir, line_index(dir, r, c)))[line_pos(dir, r, c, n)],
            ),
    )
}

/// The score gained by sliding lines `i` and beyond.
pub open spec fn lines_gain_from(b: Seq<Seq<int>>, dir: Direction, i: int) -> int
    decreases b.len() - i,
{
    if i < 0 || i >= b.len() {
        0
    } else {
        slide_gain(line_of(b, dir, i)) + lines_gain_from(b, dir, i + 1)
    }
}

/// The score gained by sliding the whole board in direction `dir`: the sum
/// of all merge results of the move.
pub open spec fn board_gain(b: Seq<Seq<int>>, dir: Direction) -> int {
    lines_gain_from(b, dir, 0)
}

// ---------------------------------------------------------------------------
// Lemmas
// ---------------------------------------------------------------------------

/// Each line of a square non-negative board is non-negative, sums to its
/// row's or column's total, and so sums to at most the whole board's total.
pub proof fn lemma_line_of_total(b: Seq<Seq<int>>, dir: Direction, i: int)
    requires
        square(b, b.len() as int),
        nonneg_board(b),
        0 <= i < b.len(),
    ensures
        nonneg_line(line_of(b, dir, i)),
        line_total(line_of(b, dir, i)) == (if dir == Direction::Left || dir == Direction::Right {
            line_total(b[i])
        } else {
            line_total(col_of(b, i))
        }),
        line_total(line_of(b, dir, i)) <= board_total(b),
{
    let n = b.len() as int;
    let ln = line_of(b, dir, i);
    if dir == Direction::Left {
        assert(ln =~= b[i]);
        lemma_row_le_board_total(b, i);
    } else if dir == Direction::Right {
        assert(ln =~= b[i].reverse());
        lemma_line_total_reverse(b[i]);
        lemma_row_le_board_total(b, i);
        lemma_nonneg_reverse(b[i]);
    } else if dir == Direction::Up {
        assert(ln =~= col_of(b, i));
        lemma_col_le_board_total(b, i);
        assert(nonneg_line(col_of(b, i))) by {
            assert forall|r: int| 0 <= r < col_of(b, i).len() implies col_of(b, i)[r] >= 0 by {
                assert(col_of(b, i)[r] == b[r][i]);
            }
        }
    } else {
        assert(ln =~= col_of(b, i).reverse());
        assert(nonneg_line(col_of(b, i))) by {
            assert forall|r: int| 0 <= r < col_of(b, i).len() implies col_of(b, i)[r] >= 0 by {
                assert(col_of(b, i)[r] == b[r][i]);
            }
        }
        lemma_line_total_reverse(col_of(b, i));
        lemma_col_le_board_total(b, i);
        lemma_nonneg_reverse(col_of(b, i));
    }
}

pub proof fn lemma_lines_gain_nonneg(b: Seq<Seq<int>>, dir: Direction, i: int)
    requires
        square(b, b.len() as int),
        nonneg_board(b),
    ensures
        lines_gain_from(b, dir, i) >= 0,
    decreases b.len() - i,
{
    if 0 <= i < b.len() {
        lemma_line_of_total(b, dir, i);
        lemma_slide_gain_bounds(line_of(b, dir, i));
        lemma_lines_gain_nonneg(b, dir, i + 1);
    }
}

proof fn lemma_lines_gain_le(b: Seq<Seq<int>>, dir: Direction, i: int)
    requires
        square(b, b.len() as int),
        nonneg_board(b),
        0 <= i,
    ensures
        lines_gain_from(b, dir, i) <= (if dir == Direction::Left || dir == Direction::Right {
            rows_sum_from(b, i)
        } else {
            cols_sum_from(b, i)
        }),
    decreases b.len() - i,
{
    if i < b.len() {
        lemma_line_of_total(b, dir, i);
        lemma_slide_gain_bounds(line_of(b, dir, i));
        lemma_lines_gain_le(b, dir, i + 1);
    }
}

/// The score of one move never exceeds the sum of the tiles on the board.
pub proof fn lemma_board_gain_bound(b: Seq<Seq<int>>, dir: Direction)
    requires
        square(b, b.len() as int),
        nonneg_board(b),
    ensures
        0 <= board_gain(b, dir) <= board_total(b),
{
    lemma_lines_gain_nonneg(b, dir, 0);
    lemma_lines_gain_le(b, dir, 0);
    if dir == Direction::Up || dir == Direction::Down {
        lemma_board_total_by_cols(b);
    }
}

/// Line `i` of the slid board is the slide of line `i` of the board.
pub proof fn lemma_board_slide_line(b: Seq<Seq<int>>, dir: Direction, i: int)
    requires
        square(b, b.len() as int),
        0 <= i < b.len(),
    ensures
        line_of(board_slide(b, dir), dir, i) == slide_front(line_of(b, dir, i)),
{
    let n = b.len() as int;
    let b2 = board_slide(b, dir);
    lemma_slide_len(line_of(b, dir, i));
    assert forall|k: int| 0 <= k < n implies line_of(b2, dir, i)[k] == slide_front(
        line_of(b, dir, i),
    )[k] by {
        let r = line_row(dir, i, k, n);
        let c = line_col(dir, i, k, n);
        assert(0 <= r < n && 0 <= c < n);
        assert(line_index(dir, r, c) == i);
        assert(line_pos(dir, r, c, n) == k);
        assert(line_of(b2, dir, i)[k] == b2[r][c]);
    }
    assert(line_of(b2, dir, i) =~= slide_front(line_of(b, dir, i)));
}

/// Structural facts about the slid board: it stays square and non-negative,
/// and its total is the board's total (merging preserves the sum of tiles).
pub proof fn lemma_board_slide_props(b: Seq<Seq<int>>, dir: Direction)
    requires
        square(b, b.len() as int),
        nonneg_board(b),
    ensures
        square(board_slide(b, dir), b.len() as int),
        nonneg_board(board_slide(b, dir)),
        board_total(board_slide(b, dir)) == board_total(b),
{
    let n = b.len() as int;
    let b2 = board_slide(b, dir);
    assert(square(b2, n));
    assert forall|r: int| 0 <= r < n implies nonneg_line(#[trigger] b2[r]) by {
        assert forall|c: int| 0 <= c < n implies b2[r][c] >= 0 by {
            let i = line_index(dir, r, c);
            let k = line_pos(dir, r, c, n);
            lemma_line_of_total(b, dir, i);
            lemma_slide_nonneg(line_of(b, dir, i));
            lemma_slide_len(line_of(b, dir, i));
            assert(b2[r][c] == slide_front(line_of(b, dir, i))[k]);
        }
    }
    if dir == Direction::Left || dir == Direction::Right {
        assert forall|r: int| 0 <= r < n implies line_total(#[trigger] b2[r]) == line_total(
            b[r],
        ) by {
            lemma_board_slide_line(b, dir, r);
            lemma_line_of_total(b, dir, r);
            lemma_slide_total(line_of(b, dir, r));
            lemma_line_of_total2(b2, b, dir, r);
        }
        lemma_rows_sum_pointwise(b2, b, 0);
    } else {
        assert forall|c: int| 0 <= c < n implies line_total(#[trigger] col_of(b2, c))
            == line_total(col_of(b, c)) by {
            lemma_board_slide_line(b, dir, c);
            lemma_line_of_total(b, dir, c);
            lemma_slide_total(line_of(b, dir, c));
            lemma_line_of_total2(b2, b, dir, c);
        }
        lemma_cols_sum_pointwise(b2, b, 0);
        lemma_board_total_by_cols(b);
        lemma_board_total_by_cols(b2);
    }
}

/// Helper: the total of line `i` of a square board equals the total of the
/// row (horizontal directions) or column (vertical directions) it covers.
proof fn lemma_line_of_total2(b2: Seq<Seq<int>>, b: Seq<Seq<int>>, dir: Direction, i: int)
    requires
        square(b2, b2.len() as int),
        b2.len() == b.len(),
        0 <= i < b2.len(),
    ensures
        dir == Direction::Left || dir == Direction::Right ==> line_total(line_of(b2, dir, i))
            == line_total(b2[i]),
        dir == Direction::Up || dir == Direction::Down ==> line_total(line_of(b2, dir, i))
            == line_total(col_of(b2, i)),
{
    if dir == Direction::Left {
        assert(line_of(b2, dir, i) =~= b2[i]);
    } else if dir == Direction::Right {
        assert(line_of(b2, dir, i) =~= b2[i].reverse());
        lemma_line_total_reverse(b2[i]);
    } else if dir == Direction::Up {
        assert(line_of(b2, dir, i) =~= col_of(b2, i));
    } else {
        assert(line_of(b2, dir, i) =~= col_of(b2, i).reverse());
        lemma_line_total_reverse(col_of(b2, i));
    }
}

proof fn lemma_lines_gain_zero(b: Seq<Seq<int>>, dir: Direction, i: int)
    requires
        0 <= i,
        forall|j: int| 0 <= j < b.len() ==> slide_gain(#[trigger] line_of(b, dir, j)) == 0,
    ensures
        lines_gain_from(b, dir, i) == 0,
    decreases b.len() - i,
{
    if i < b.len() {
        lemma_lines_gain_zero(b, dir, i + 1);
    }
}

/// Sliding is idempotent: a slide leaves every line compacted against its
/// wall, so a second slide straight after (with no spawn in between) moves
/// nothing and scores nothing — provided the first slide left no equal
/// adjacent pair along the direction, the only case in which a second slide
/// can merge further.
pub proof fn lemma_slide_idempotent(b: Seq<Seq<int>>, dir: Direction)
    requires
        square(b, b.len() as int),
        forall|i: int|
            0 <= i < b.len() ==> no_adjacent_merge(
                #[trigger] line_of(board_slide(b, dir), dir, i),
            ),
    ensures
        board_slide(board_slide(b, dir), dir) == board_slide(b, dir),
        board_gain(board_slide(b, dir), dir) == 0,
{
    let n = b.len() as int;
    let b2 = board_slide(b, dir);
    assert(square(b2, n));
    assert forall|i: int| 0 <= i < n implies slide_front(#[trigger] line_of(b2, dir, i))
        == line_of(b2, dir, i) && slide_gain(line_of(b2, dir, i)) == 0 by {
        lemma_board_slide_line(b, dir, i);
        lemma_slide_front_stable(line_of(b, dir, i));
    }
    assert forall|r: int, c: int| 0 <= r < n && 0 <= c < n implies #[trigger] board_slide(
        b2,
        dir,
    )[r][c] == b2[r][c] by {
        let i = line_index(dir, r, c);
        let k = line_pos(dir, r, c, n);
        assert(board_slide(b2, dir)[r][c] == slide_front(line_of(b2, dir, i))[k]);
        assert(slide_front(line_of(b2, dir, i)) == line_of(b2, dir, i));
        assert(line_of(b2, dir, i)[k] == b2[line_row(dir, i, k, n)][line_col(dir, i, k, n)]);
        assert(line_row(dir, i, k, n) == r && line_col(dir, i, k, n) == c);
    }
    assert(board_slide(b2, dir) =~~= b2);
    lemma_lines_gain_zero(b2, dir, 0);
}

// ---------------------------------------------------------------------------
// Executable move engine
// ---------------------------------------------------------------------------

/// Board coordinates of entry `k` of line `i` for direction `dir`.
fn line_coords(dir: Direction, i: usize, k: usize, n: usize) -> (rc: (usize, usize))
    requires
        i < n,
        k < n,
    ensures
        rc.0 as int == line_row(dir, i as int, k as int, n as int),
        rc.1 as int == line_col(dir, i as int, k as int, n as int),
        rc.0 < n,
        rc.1 < n,
{
    match dir {
        Direction::Left => (i, k),
        Direction::Right => (i, n - 1 - k),
        Direction::Up => (k, i),
        Direction::Down => (n - 1 - k, i),
    }
}

/// Read line `i` of the board, ordered from the target wall.
fn read_line(g: &GridCell2048, dir: Direction, i: usize) -> (line: Vec<u64>)
    requires
        g.wf(),
        i < g.size,
    ensures
        line@.len() == g.size,
        vals(line@) == line_of(g@, dir, i as int),
{
    let n = g.size;
    proof {
        g.lemma_view_props();
    }
    let mut line: Vec<u64> = Vec::new();
    let mut k: usize = 0;
    while k < n
        invariant
            k <= n,
            n == g.size,
            g.wf(),
            g@.len() == n,
            i < n,
            line@.len() == k,
            forall|t: int|
                0 <= t < k ==> #[trigger] line@[t] as int == line_of(g@, dir, i as int)[t],
        decreases n - k,
    {
        let (r, c) = line_coords(dir, i, k, n);
        line.push(g.get_value(r, c));
        k += 1;
    }
    proof {
        assert(vals(line@) =~= line_of(g@, dir, i as int));
    }
    line
}

/// Write `line` back as line `i` of the board, ordered from the target wall.
fn write_line(g: &mut GridCell2048, dir: Direction, i: usize, line: &Vec<u64>)
    requires
        old(g).wf(),
        i < old(g).size,
        line@.len() == old(g).size,
    ensures
        final(g).wf(),
        final(g).size == old(g).size,
        final(g)@.len() == old(g)@.len(),
        forall|r: int, c: int|
            0 <= r < final(g).size && 0 <= c < final(g).size ==> #[trigger] final(g)@[r][c] == (
            if line_index(dir, r, c) == i {
                vals(line@)[line_pos(dir, r, c, final(g).size as int)]
            } else {
                old(g)@[r][c]
            }),
        forall|r: int, c: int|
            0 <= r < final(g).size && 0 <= c < final(g).size ==> (
            #[trigger] final(g).cells@[r]@[c]).bucket == old(g).cells@[r]@[c].bucket,
{
    let n = g.size;
    proof {
        g.lemma_view_props();
    }
    let mut k: usize = 0;
    while k < n
        invariant
            k <= n,
            n == g.size,
            g.wf(),
            g@.len() == n,
            old(g)@.len() == n,
            i < n,
            line@.len() == n,
            forall|r: int, c: int|
                0 <= r < n && 0 <= c < n ==> #[trigger] g@[r][c] == (if line_index(dir, r, c)
                    == i && line_pos(dir, r, c, n as int) < k {
                    vals(line@)[line_pos(dir, r, c, n as int)]
                } else {
                    old(g)@[r][c]
                }),
            forall|r: int, c: int|
                0 <= r < n && 0 <= c < n ==> (#[trigger] g.cells@[r]@[c]).bucket == old(
                    g,
                ).cells@[r]@[c].bucket,
        decreases n - k,
    {
        let (r, c) = line_coords(dir, i, k, n);
        let ghost gb = g@;
        g.set_value(r, c, line[k]);
        proof {
            assert forall|rr: int, cc: int| 0 <= rr < n && 0 <= cc < n implies #[trigger] g@[rr][cc]
                == (if line_index(dir, rr, cc) == i && line_pos(dir, rr, cc, n as int) < k + 1 {
                vals(line@)[line_pos(dir, rr, cc, n as int)]
            } else {
                old(g)@[rr][cc]
            }) by {
                if rr == r as int && cc == c as int {
                    assert(g@[rr][cc] == line@[k as int] as int);
                    assert(line_index(dir, rr, cc) == i);
                    assert(line_pos(dir, rr, cc, n as int) == k);
                } else {
                    assert(g@[rr][cc] == gb[rr][cc]);
                    if line_index(dir, rr, cc) == i && line_pos(dir, rr, cc, n as int) == k {
                        assert(line_row(dir, i as int, k as int, n as int) == rr);
                        assert(line_col(dir, i as int, k as int, n as int) == cc);
                        assert(false);
                    }
                }
            }
        }
        k += 1;
    }
}

/// Slide the whole board one move in direction `dir`. Returns the score
/// gained by the merges of this move and whether any cell changed; a move
/// that changes nothing must not spawn a tile, which is what the flag
/// decides.
pub fn slide(g: &mut GridCell2048, dir: Direction) -> (res: (u64, bool))
    requires
        old(g).wf(),
        board_total(old(g)@) <= u64::MAX,
    ensures
        final(g).wf(),
        final(g).size == old(g).size,
        final(g)@ == board_slide(old(g)@, dir),
        res.0 as int == board_gain(old(g)@, dir),
        res.1 <==> final(g)@ != old(g)@,
        board_total(final(g)@) == board_total(old(g)@),
        forall|r: int, c: int|
            0 <= r < final(g).size && 0 <= c < final(g).size ==> (
            #[trigger] final(g).cells@[r]@[c]).bucket == old(g).cells@[r]@[c].bucket,
{
    let ghost b0 = g@;
    let n = g.size;
    proof {
        g.lemma_view_props();
        lemma_board_gain_bound(b0, dir);
        lemma_board_slide_props(b0, dir);
    }
    let mut gain: u64 = 0;
    let mut moved = false;
    let mut i: usize = 0;
    while i < n
        invariant
            i <= n,
            n == g.size,
            g.wf(),
            g@.len() == n,
            b0 == old(g)@,
            square(b0, n as int),
            nonneg_board(b0),
            board_total(b0) <= u64::MAX,
            forall|j: int|
                0 <= j < i ==> #[trigger] line_of(g@, dir, j) == slide_front(line_of(b0, dir, j)),
            forall|j: int| i <= j < n ==> #[trigger] line_of(g@, dir, j) == line_of(b0, dir, j),
            gain as int == board_gain(b0, dir) - lines_gain_from(b0, dir, i as int),
            moved <==> exists|j: int|
                0 <= j < i && slide_front(#[trigger] line_of(b0, dir, j)) != line_of(b0, dir, j),
            forall|r: int, c: int|
                0 <= r < n && 0 <= c < n ==> (#[trigger] g.cells@[r]@[c]).bucket == old(
                    g,
                ).cells@[r]@[c].bucket,
        decreases n - i,
    {
        proof {
            g.lemma_view_props();
            lemma_line_of_total(b0, dir, i as int);
        }
        let line = read_line(g, dir, i);
        proof {
            assert(vals(line@) == line_of(b0, dir, i as int));
        }
        let (new_line, gn, mv) = slide_line(&line);
        let ghost gprev = g@;
        write_line(g, dir, i, &new_line);
        proof {
            // Gain accounting and absence of overflow.
            lemma_board_gain_bound(b0, dir);
            lemma_lines_gain_nonneg(b0, dir, i as int + 1);
            lemma_slide_gain_bounds(line_of(b0, dir, i as int));
            assert(lines_gain_from(b0, dir, i as int) == slide_gain(line_of(b0, dir, i as int))
                + lines_gain_from(b0, dir, i as int + 1));
            assert(gain as int + gn as int <= board_gain(b0, dir));
        }
        gain = gain + gn;
        moved = moved || mv;
        proof {
            // Every line is as the invariant demands for i + 1.
            assert forall|j: int| 0 <= j < n implies #[trigger] line_of(g@, dir, j) == (if j
                <= i as int {
                slide_front(line_of(b0, dir, j))
            } else {
                line_of(b0, dir, j)
            }) by {
                lemma_slide_len(line_of(b0, dir, j));
                assert forall|k: int| 0 <= k < n implies #[trigger] line_of(g@, dir, j)[k] == (if j
                    == i as int {
                    vals(new_line@)[k]
                } else {
                    line_of(gprev, dir, j)[k]
                }) by {
                    let r = line_row(dir, j, k, n as int);
                    let c = line_col(dir, j, k, n as int);
                    assert(0 <= r < n && 0 <= c < n);
                    assert(line_index(dir, r, c) == j);
                    assert(line_pos(dir, r, c, n as int) == k);
                    assert(line_of(g@, dir, j)[k] == g@[r][c]);
                    assert(line_of(gprev, dir, j)[k] == gprev[r][c]);
                }
                if j == i as int {
                    assert(line_of(g@, dir, j) =~= vals(new_line@));
                } else if j < i as int {
                    assert(line_of(g@, dir, j) =~= line_of(gprev, dir, j));
                } else {
                    assert(line_of(g@, dir, j) =~= line_of(gprev, dir, j));
                }
            }
            // The moved flag tracks whether any line so far changed.
            if mv {
                assert(vals(new_line@) != vals(line@));
                assert(slide_front(line_of(b0, dir, i as int)) != line_of(b0, dir, i as int));
            }
        }
        i += 1;
    }
    proof {
        // The board now equals the slid board, pointwise.
        assert forall|r: int, c: int| 0 <= r < n && 0 <= c < n implies #[trigger] g@[r][c]
            == board_slide(b0, dir)[r][c] by {
            let j = line_index(dir, r, c);
            let k = line_pos(dir, r, c, n as int);
            assert(0 <= j < n && 0 <= k < n);
            assert(line_of(g@, dir, j) == slide_front(line_of(b0, dir, j)));
            assert(line_of(g@, dir, j)[k] == g@[line_row(dir, j, k, n as int)][line_col(
                dir,
                j,
                k,
                n as int,
            )]);
            assert(line_row(dir, j, k, n as int) == r && line_col(dir, j, k, n as int) == c);
        }
        g.lemma_view_props();
        assert(g@ =~~= board_slide(b0, dir));
        // The moved flag is exactly "the board changed".
        if moved {
            let j = choose|j: int|
                0 <= j < n && slide_front(#[trigger] line_of(b0, dir, j)) != line_of(b0, dir, j);
            lemma_slide_len(line_of(b0, dir, j));
            assert(exists|k: int|
                0 <= k < n && slide_front(line_of(b0, dir, j))[k] != line_of(b0, dir, j)[k]) by {
                if forall|k: int|
                    0 <= k < n ==> slide_front(line_of(b0, dir, j))[k] == line_of(b0, dir, j)[k] {
                    assert(slide_front(line_of(b0, dir, j)) =~= line_of(b0, dir, j));
                }
            }
            let k = choose|k: int|
                0 <= k < n && slide_front(line_of(b0, dir, j))[k] != line_of(b0, dir, j)[k];
            let r = line_row(dir, j, k, n as int);
            let c = line_col(dir, j, k, n as int);
            assert(0 <= r < n && 0 <= c < n);
            assert(line_of(g@, dir, j)[k] == g@[r][c]);
            assert(line_of(b0, dir, j)[k] == b0[r][c]);
            assert(g@[r][c] != b0[r][c]);
        } else {
            assert forall|j: int| 0 <= j < n implies #[trigger] line_of(g@, dir, j) == line_of(
                b0,
                dir,
                j,
            ) by {}
            assert forall|r: int, c: int| 0 <= r < n && 0 <= c < n implies #[trigger] g@[r][c]
                == b0[r][c] by {
                let j = line_index(dir, r, c);
                let k = line_pos(dir, r, c, n as int);
                assert(line_of(g@, dir, j)[k] == g@[r][c]);
                assert(line_of(b0, dir, j)[k] == b0[r][c]);
            }
            assert(g@ =~~= b0);
        }
    }
    (gain, moved)
}

} // verus!
