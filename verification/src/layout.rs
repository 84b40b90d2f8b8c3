use vstd::prelude::*;
use vstd::string::StringExecFns;

use crate::console_log_box::{
    append_only, appends_one, lemma_append_only_trans, lemma_log_step, ConsoleLogBox,
};
use crate::game_cell::Cell2048;
use crate::grid_cell::{
    board_count, board_total, is_full_board, lemma_board_fill, lemma_zero_board, same_cells,
    GridCell2048,
};
use crate::move_engine::{board_gain, board_slide, lemma_board_gain_bound, slide};
use crate::score::Score;
use crate::turns_history::{push_snap, TurnsHistory};
use crate::{Direction, GameState};

verus! {

/// The tile value that wins the game.
pub const WIN_VALUE: u64 = 2048;

/// How many board snapshots the undo history keeps.
pub const HISTORY_DEPTH: u8 = 5;

// ---------------------------------------------------------------------------
// Game-rule predicates over the board view
// ---------------------------------------------------------------------------

/// The cell at (r, c) shares its value with no right or bottom neighbour.
pub open spec fn adj_ok(b: Seq<Seq<int>>, r: int, c: int) -> bool {
    &&& (c + 1 < b.len() ==> b[r][c] != b[r][c + 1])
    &&& (r + 1 < b.len() ==> b[r][c] != b[r + 1][c])
}

/// No two horizontally or vertically adjacent cells hold equal values
/// (checking right and bottom neighbours per cell covers every pair, since
/// adjacency is symmetric).
pub open spec fn no_adjacent_equal_board(b: Seq<Seq<int>>) -> bool {
    forall|r: int, c: int| 0 <= r < b.len() && 0 <= c < b.len() ==> #[trigger] adj_ok(b, r, c)
}

/// The game is lost: the board is full and no move could merge anything.
pub open spec fn is_stuck(b: Seq<Seq<int>>) -> bool {
    is_full_board(b) && no_adjacent_equal_board(b)
}

/// Some cell holds the winning value.
pub open spec fn has_win_value(b: Seq<Seq<int>>) -> bool {
    exists|r: int, c: int|
        0 <= r < b.len() && 0 <= c < b[r].len() && #[trigger] b[r][c] == WIN_VALUE as int
}

/// The state the win/loss checks leave the game in after a move that changed
/// board `b`: winning takes precedence over being stuck.
pub open spec fn state_after_move(b: Seq<Seq<int>>) -> GameState {
    if has_win_value(b) {
        GameState::GameWon
    } else if is_stuck(b) {
        GameState::GameOver
    } else {
        GameState::InGame
    }
}

/// Board `b2` is board `b` with value `v` spawned on the empty cell (r, c).
pub open spec fn spawned_at(b: Seq<Seq<int>>, b2: Seq<Seq<int>>, r: int, c: int, v: int) -> bool {
    &&& 0 <= r < b.len()
    &&& 0 <= c < b[r].len()
    &&& b[r][c] == 0
    &&& b2 == b.update(r, b[r].update(c, v))
}

/// What one spawn attempt of value `v` does: on a full board nothing, and
/// otherwise the value lands on some empty cell and `gained` score is earned.
pub open spec fn spawn_outcome(b: Seq<Seq<int>>, b2: Seq<Seq<int>>, v: int, gained: int) -> bool {
    if is_full_board(b) {
        b2 == b && gained == 0
    } else {
        gained == v && exists|r: int, c: int| spawned_at(b, b2, r, c, v)
    }
}

/// The spawn phase after a move that changed the board: a 2 is spawned, then
/// possibly (with fixed probability) a 4, and the score grows by the merges'
/// gain plus every value actually spawned.
pub open spec fn spawn_phase(
    slid: Seq<Seq<int>>,
    postb: Seq<Seq<int>>,
    pre_score: int,
    post_score: int,
    gain: int,
    mid: Seq<Seq<int>>,
    d1: int,
    d2: int,
) -> bool {
    &&& spawn_outcome(slid, mid, 2, d1)
    &&& ((postb == mid && d2 == 0) || spawn_outcome(mid, postb, 4, d2))
    &&& post_score == pre_score + gain + d1 + d2
}

/// The full effect of one directional move. Outside `InGame` it is a no-op.
/// In game, a snapshot of the pre-move board is pushed onto the bounded
/// history and the event log only ever grows; the board is slid; if nothing
/// changed, no tile spawns and the cells, score, state and log stay exactly
/// as they were; if the board changed, the spawn phase runs, every display
/// bucket is refreshed, and the win/loss checks set the next state.
pub open spec fn move_post(pre: Layout2048, post: Layout2048, dir: Direction) -> bool {
    let b = pre.cells@;
    let slid = board_slide(b, dir);
    let gain = board_gain(b, dir);
    &&& post.shape_size == pre.shape_size
    &&& (pre.game_state != GameState::InGame ==> post == pre)
    &&& (pre.game_state == GameState::InGame ==> {
        &&& (exists|snap: GridCell2048|
            #[trigger] snap@ == b && snap.wf() && snap.size == pre.shape_size
                && post.history_stack.stack@ == push_snap(
                pre.history_stack.stack@,
                pre.history_stack.deep as int,
                snap,
            ))
        &&& append_only(pre.console_log, post.console_log)
        &&& (slid == b ==> post.cells@ == b && same_cells(post.cells, pre.cells) && post.score
            == pre.score && post.game_state == pre.game_state && post.console_log
            == pre.console_log)
        &&& (slid != b ==> {
            &&& (exists|mid: Seq<Seq<int>>, d1: int, d2: int|
                #[trigger] spawn_phase(
                    slid,
                    post.cells@,
                    pre.score.value as int,
                    post.score.value as int,
                    gain,
                    mid,
                    d1,
                    d2,
                ))
            &&& post.cells.buckets_fresh()
            &&& post.game_state == state_after_move(post.cells@)
        })
    })
}

// ---------------------------------------------------------------------------
// Trusted boundary
// ---------------------------------------------------------------------------

/// Relies on rand::rng and rand::RngExt::random_range: a uniformly random
/// index in `0..n`, which is strictly below `n` (the range is non-empty).
#[verifier::external_body]
fn random_below(n: usize) -> (r: usize)
    requires
        n > 0,
    ensures
        r < n,
{
    rand::RngExt::random_range(&mut rand::rng(), 0..n)
}

/// Relies on alloc's format macro to render the spawn event message.
#[verifier::external_body]
fn spawn_message(value: u64, row: usize, col: usize) -> String {
    format!("Added cell with value: {value}, row = {row} col = {col}")
}

/// Relies on alloc's format macro to render the undo event message.
#[verifier::external_body]
fn undo_message(turns_left: usize) -> String {
    format!("Moved back. Left {turns_left} turns")
}

/// Relies on alloc's format macro to render the win message.
#[verifier::external_body]
fn won_message(score: u64) -> String {
    format!("Congratulations! You win. Score: {score}")
}

// ---------------------------------------------------------------------------
// The game itself
// ---------------------------------------------------------------------------

/// The whole game: the board, the lifecycle state, the score, the event log
/// and the bounded undo history.
pub struct Layout2048 {
    pub cells: GridCell2048,
    pub game_state: GameState,
    pub console_log: ConsoleLogBox,
    pub shape_size: usize,
    pub score: Score,
    pub history_stack: TurnsHistory,
}

impl Layout2048 {
    /// The game's invariant: the board is well formed and matches the chosen
    /// size, and every stored snapshot is a well-formed board of that size.
    pub open spec fn wf(&self) -> bool {
        &&& self.cells.wf()
        &&& self.cells.size == self.shape_size
        &&& self.history_stack.deep == HISTORY_DEPTH
        &&& self.history_stack.stack@.len() <= HISTORY_DEPTH
        &&& (forall|k: int|
            0 <= k < self.history_stack.stack@.len() ==> (
            #[trigger] self.history_stack.stack@[k]).wf() && self.history_stack.stack@[k].size
                == self.shape_size)
    }

    pub fn new(shape_size: usize) -> (l: Layout2048)
        ensures
            l.wf(),
            l.shape_size == shape_size,
            l.game_state == GameState::GameInitialized,
            l.score.value == 0,
            l.history_stack.stack@.len() == 0,
            l.console_log.messages@.len() == 0,
            l.cells@.len() == shape_size,
            forall|r: int, c: int|
                0 <= r < shape_size && 0 <= c < shape_size ==> #[trigger] l.cells@[r][c] == 0,
            board_total(l.cells@) == 0,
            board_count(l.cells@) == 0,
    {
        let cells = GridCell2048::new(shape_size);
        let l = Layout2048 {
            shape_size,
            cells,
            game_state: GameState::GameInitialized,
            console_log: ConsoleLogBox::new(),
            score: Score::new(),
            history_stack: TurnsHistory::new(HISTORY_DEPTH),
        };
        proof {
            l.cells.lemma_view_props();
            lemma_zero_board(l.cells@, 0);
        }
        l
    }

    /// True exactly when no cell is empty.
    pub fn is_field_fulfilled(&self) -> (r: bool)
        requires
            self.wf(),
        ensures
            r == is_full_board(self.cells@),
    {
        let n = self.shape_size;
        proof {
            self.cells.lemma_view_props();
        }
        let mut row: usize = 0;
        while row < n
            invariant
                row <= n,
                n == self.shape_size,
                self.wf(),
                self.cells@.len() == n,
                forall|i: int| 0 <= i < n ==> (#[trigger] self.cells@[i]).len() == n,
                forall|i: int, j: int|
                    0 <= i < row && 0 <= j < n ==> #[trigger] self.cells@[i][j] != 0,
            decreases n - row,
        {
            let mut col: usize = 0;
            while col < n
                invariant
                    col <= n,
                    row < n,
                    n == self.shape_size,
                    self.wf(),
                    self.cells@.len() == n,
                    forall|i: int| 0 <= i < n ==> (#[trigger] self.cells@[i]).len() == n,
                    forall|i: int, j: int|
                        0 <= i < row && 0 <= j < n ==> #[trigger] self.cells@[i][j] != 0,
                    forall|j: int| 0 <= j < col ==> #[trigger] self.cells@[row as int][j] != 0,
                decreases n - col,
            {
                if self.cells.get_value(row, col) == 0 {
                    proof {
                        assert(self.cells@[row as int][col as int] == 0);
                    }
                    return false;
                }
                col += 1;
            }
            row += 1;
        }
        true
    }

    /// True exactly when the game is lost: every cell is occupied and no two
    /// adjacent (right or below) cells share a value.
    pub fn is_game_over(&self) -> (r: bool)
        requires
            self.wf(),
        ensures
            r == is_stuck(self.cells@),
    {
        if !self.is_field_fulfilled() {
            return false;
        }
        let n = self.shape_size;
        proof {
            self.cells.lemma_view_props();
        }
        let mut row: usize = 0;
        while row < n
            invariant
                row <= n,
                n == self.shape_size,
                self.wf(),
                self.cells@.len() == n,
                forall|i: int, j: int| 0 <= i < row && 0 <= j < n ==> #[trigger] adj_ok(
                    self.cells@,
                    i,
                    j,
                ),
            decreases n - row,
        {
            let mut col: usize = 0;
            while col < n
                invariant
                    col <= n,
                    row < n,
                    n == self.shape_size,
                    self.wf(),
                    self.cells@.len() == n,
                    forall|i: int, j: int| 0 <= i < row && 0 <= j < n ==> #[trigger] adj_ok(
                        self.cells@,
                        i,
                        j,
                    ),
                    forall|j: int| 0 <= j < col ==> #[trigger] adj_ok(
                        self.cells@,
                        row as int,
                        j,
                    ),
                decreases n - col,
            {
                let current = self.cells.get_value(row, col);
                if col + 1 != n {
                    if self.cells.get_value(row, col + 1) == current {
                        proof {
                            assert(!adj_ok(self.cells@, row as int, col as int));
                        }
                        return false;
                    }
                }
                if row + 1 != n {
                    if self.cells.get_value(row + 1, col) == current {
                        proof {
                            assert(!adj_ok(self.cells@, row as int, col as int));
                        }
                        return false;
                    }
                }
                col += 1;
            }
            row += 1;
        }
        true
    }

    /// True exactly when some cell holds the winning value.
    pub fn is_game_won(&self) -> (r: bool)
        requires
            self.wf(),
        ensures
            r == has_win_value(self.cells@),
    {
        let n = self.shape_size;
        proof {
            self.cells.lemma_view_props();
        }
        let mut row: usize = 0;
        while row < n
            invariant
                row <= n,
                n == self.shape_size,
                self.wf(),
                self.cells@.len() == n,
                forall|i: int, j: int|
                    0 <= i < row && 0 <= j < n ==> #[trigger] self.cells@[i][j] != WIN_VALUE as int,
            decreases n - row,
        {
            let mut col: usize = 0;
            while col < n
                invariant
                    col <= n,
                    row < n,
                    n == self.shape_size,
                    self.wf(),
                    self.cells@.len() == n,
                    forall|i: int, j: int|
                        0 <= i < row && 0 <= j < n ==> #[trigger] self.cells@[i][j] != WIN_VALUE
                            as int,
                    forall|j: int|
                        0 <= j < col ==> #[trigger] self.cells@[row as int][j] != WIN_VALUE as int,
                decreases n - col,
            {
                if self.cells.get_value(row, col) == WIN_VALUE {
                    proof {
                        assert(self.cells@[row as int][col as int] == WIN_VALUE as int);
                    }
                    return true;
                }
                col += 1;
            }
            row += 1;
        }
        proof {
            assert(!has_win_value(self.cells@));
        }
        false
    }

    /// Transition to `GameOver` exactly when the board is stuck, logging the
    /// event; otherwise leave the game as it is.
    pub fn check_game_over(&mut self)
        requires
            old(self).wf(),
        ensures
            final(self).wf(),
            final(self).cells == old(self).cells,
            final(self).score == old(self).score,
            final(self).history_stack == old(self).history_stack,
            final(self).shape_size == old(self).shape_size,
            final(self).game_state == (if is_stuck(old(self).cells@) {
                GameState::GameOver
            } else {
                old(self).game_state
            }),
            !is_stuck(old(self).cells@) ==> final(self).console_log == old(self).console_log,
            is_stuck(old(self).cells@) ==> appends_one(
                old(self).console_log,
                final(self).console_log,
            ),
    {
        if self.is_game_over() {
            self.game_state = GameState::GameOver;
            self.console_log.add_message(String::from_str("Game over"));
        }
    }

    /// Transition to `GameWon` exactly when some cell holds the winning
    /// value, logging the event; otherwise leave the game as it is.
    pub fn check_game_won(&mut self)
        requires
            old(self).wf(),
        ensures
            final(self).wf(),
            final(self).cells == old(self).cells,
            final(self).score == old(self).score,
            final(self).history_stack == old(self).history_stack,
            final(self).shape_size == old(self).shape_size,
            final(self).game_state == (if has_win_value(old(self).cells@) {
                GameState::GameWon
            } else {
                old(self).game_state
            }),
            !has_win_value(old(self).cells@) ==> final(self).console_log == old(self).console_log,
            has_win_value(old(self).cells@) ==> appends_one(
                old(self).console_log,
                final(self).console_log,
            ),
    {
        if self.is_game_won() {
            self.game_state = GameState::GameWon;
            let message = won_message(self.score.get());
            self.console_log.add_message(message);
        }
    }

    /// Spawn `value` on a uniformly random empty cell and score it; on a full
    /// board, report failure and change nothing.
    pub fn add_new_cell(&mut self, value: u64) -> (added: bool)
        requires
            old(self).wf(),
            0 < value,
            old(self).score.value + value <= u64::MAX,
        ensures
            final(self).wf(),
            final(self).shape_size == old(self).shape_size,
            final(self).game_state == old(self).game_state,
            final(self).history_stack == old(self).history_stack,
            added == !is_full_board(old(self).cells@),
            spawn_outcome(
                old(self).cells@,
                final(self).cells@,
                value as int,
                final(self).score.value - old(self).score.value,
            ),
            !added ==> final(self).cells == old(self).cells && final(self).score == old(
                self,
            ).score && final(self).console_log == old(self).console_log,
            added ==> final(self).score.value == old(self).score.value + value && board_total(
                final(self).cells@,
            ) == board_total(old(self).cells@) + value && board_count(final(self).cells@)
                == board_count(old(self).cells@) + 1,
            added ==> appends_one(old(self).console_log, final(self).console_log),
    {
        if self.is_field_fulfilled() {
            return false;
        }
        self.score.inc(value);
        let empty_cells = self.cells.get_empty_cells();
        proof {
            self.cells.lemma_view_props();
            let b = self.cells@;
            assert(exists|r: int, c: int|
                0 <= r < b.len() && 0 <= c < b[r].len() && #[trigger] b[r][c] == 0) by {
                if forall|r: int, c: int|
                    0 <= r < b.len() && 0 <= c < b[r].len() ==> #[trigger] b[r][c] != 0 {
                    assert(is_full_board(b));
                }
            }
            let (r0, c0) = choose|r: int, c: int|
                0 <= r < b.len() && 0 <= c < b[r].len() && #[trigger] b[r][c] == 0;
            assert(empty_cells@.contains((r0 as usize, c0 as usize)));
            assert(empty_cells@.len() > 0);
        }
        let idx = random_below(empty_cells.len());
        let (row, col) = empty_cells[idx];
        let new_cell = Cell2048::new(value, row, col, 0);
        let ghost b0 = self.cells@;
        self.cells.insert(&new_cell);
        proof {
            lemma_board_fill(b0, row as int, col as int, value as int);
            assert(spawned_at(b0, self.cells@, row as int, col as int, value as int));
        }
        let message = spawn_message(value, row, col);
        self.console_log.add_message(message);
        true
    }

    /// Snapshot the current board into the bounded undo history.
    fn before_moving_event(&mut self)
        requires
            old(self).wf(),
        ensures
            final(self).wf(),
            final(self).cells == old(self).cells,
            final(self).score == old(self).score,
            final(self).game_state == old(self).game_state,
            final(self).console_log == old(self).console_log,
            final(self).shape_size == old(self).shape_size,
            exists|snap: GridCell2048|
                #[trigger] snap@ == old(self).cells@ && snap.wf() && snap.size == old(
                    self,
                ).shape_size && final(self).history_stack.stack@ == push_snap(
                    old(self).history_stack.stack@,
                    HISTORY_DEPTH as int,
                    snap,
                ),
    {
        let snap = self.cells.snapshot();
        self.history_stack.add(snap);
        proof {
            let hs = self.history_stack.stack@;
            let old_hs = old(self).history_stack.stack@;
            assert forall|k: int| 0 <= k < hs.len() implies (#[trigger] hs[k]).wf() && hs[k].size
                == self.shape_size by {
                if k == hs.len() - 1 {
                    assert(hs[k] == snap);
                } else if old_hs.len() == HISTORY_DEPTH as int {
                    assert(hs[k] == old_hs[k + 1]);
                } else {
                    assert(hs[k] == old_hs[k]);
                }
            }
        }
    }

    /// Refresh every cell's display bucket from its value.
    fn after_moving_event(&mut self)
        requires
            old(self).wf(),
        ensures
            final(self).wf(),
            final(self).cells@ == old(self).cells@,
            final(self).cells.size == old(self).cells.size,
            final(self).cells.buckets_fresh(),
            final(self).score == old(self).score,
            final(self).game_state == old(self).game_state,
            final(self).console_log == old(self).console_log,
            final(self).shape_size == old(self).shape_size,
            final(self).history_stack == old(self).history_stack,
    {
        self.cells.update_backgrounds();
    }

    /// Refresh the display buckets (host-driven per-frame update).
    pub fn update(&mut self)
        requires
            old(self).wf(),
        ensures
            final(self).wf(),
            final(self).cells@ == old(self).cells@,
            final(self).cells.buckets_fresh(),
            final(self).score == old(self).score,
            final(self).game_state == old(self).game_state,
            final(self).console_log == old(self).console_log,
            final(self).shape_size == old(self).shape_size,
            final(self).history_stack == old(self).history_stack,
    {
        self.after_moving_event();
    }

    /// Replace the board with a fresh, empty one of the configured size.
    fn clear_grid(&mut self)
        requires
            old(self).wf(),
        ensures
            final(self).wf(),
            final(self).shape_size == old(self).shape_size,
            final(self).score == old(self).score,
            final(self).game_state == old(self).game_state,
            final(self).console_log == old(self).console_log,
            final(self).history_stack == old(self).history_stack,
            final(self).cells@.len() == old(self).shape_size,
            forall|r: int, c: int|
                0 <= r < final(self).shape_size && 0 <= c < final(self).shape_size
                    ==> #[trigger] final(self).cells@[r][c] == 0,
            board_total(final(self).cells@) == 0,
            board_count(final(self).cells@) == 0,
    {
        self.cells = GridCell2048::new(self.shape_size);
        proof {
            self.cells.lemma_view_props();
            lemma_zero_board(self.cells@, 0);
        }
    }

    /// Start a new game: clear the board, the score and the history, spawn
    /// one 2 (and, with fixed probability, one 4), and enter `InGame`.
    pub fn new_game(&mut self)
        requires
            old(self).wf(),
        ensures
            final(self).wf(),
            final(self).shape_size == old(self).shape_size,
            final(self).game_state == GameState::InGame,
            final(self).history_stack.stack@.len() == 0,
            final(self).cells.buckets_fresh(),
            final(self).score.value as int == board_total(final(self).cells@),
            forall|r: int, c: int|
                0 <= r < final(self).cells@.len() && 0 <= c < final(self).cells@[r].len()
                    ==> #[trigger] final(self).cells@[r][c] == 0 || final(self).cells@[r][c] == 2
                    || final(self).cells@[r][c] == 4,
            old(self).shape_size > 0 ==> ((board_count(final(self).cells@) == 1 && board_total(
                final(self).cells@,
            ) == 2) || (board_count(final(self).cells@) == 2 && board_total(final(self).cells@)
                == 6)),
            board_total(final(self).cells@) <= 6,
            append_only(old(self).console_log, final(self).console_log),
            final(self).console_log.messages@.len() > old(self).console_log.messages@.len(),
    {
        self.console_log.add_message(String::from_str("NEW GAME"));
        self.clear_grid();
        self.score = Score::new();
        self.history_stack = TurnsHistory::new(HISTORY_DEPTH);
        let ghost cleared = self.cells@;
        self.add_new_cell(2);
        let ghost after2 = self.cells@;
        if random_below(10) == 0 {
            self.add_new_cell(4);
        }
        self.game_state = GameState::InGame;
        self.after_moving_event();
        proof {
            assert forall|r: int, c: int|
                0 <= r < self.cells@.len() && 0 <= c < self.cells@[r].len() implies #[trigger] self
                .cells@[r][c] == 0 || self.cells@[r][c] == 2 || self.cells@[r][c] == 4 by {
                if self.cells@ != cleared {
                    if self.cells@ == after2 {
                        let (r2, c2) = choose|rr: int, cc: int|
                            spawned_at(cleared, after2, rr, cc, 2);
                    } else {
                        let (r2, c2) = choose|rr: int, cc: int|
                            spawned_at(cleared, after2, rr, cc, 2);
                        let (r4, c4) = choose|rr: int, cc: int|
                            spawned_at(after2, self.cells@, rr, cc, 4);
                    }
                }
            }
            if self.shape_size > 0 {
                assert(cleared[0][0] == 0);
                assert(!is_full_board(cleared));
            }
        }
    }

    /// Debug helper: spawn a winning tile at a random empty cell while in
    /// game; outside `InGame` do nothing.
    pub fn spawn_2048(&mut self)
        requires
            old(self).wf(),
            old(self).score.value + WIN_VALUE <= u64::MAX,
        ensures
            final(self).wf(),
            final(self).shape_size == old(self).shape_size,
            final(self).game_state == old(self).game_state,
            old(self).game_state != GameState::InGame ==> *final(self) == *old(self),
            old(self).game_state == GameState::InGame ==> spawn_outcome(
                old(self).cells@,
                final(self).cells@,
                WIN_VALUE as int,
                final(self).score.value - old(self).score.value,
            ) && final(self).history_stack == old(self).history_stack,
            old(self).game_state == GameState::InGame && is_full_board(old(self).cells@)
                ==> final(self).cells == old(self).cells
                && final(self).score == old(self).score
                && final(self).console_log == old(self).console_log,
            old(self).game_state == GameState::InGame && !is_full_board(old(self).cells@)
                ==> appends_one(old(self).console_log, final(self).console_log),
    {
        match self.game_state {
            GameState::InGame => {
                self.add_new_cell(WIN_VALUE);
            },
            _ => {},
        }
    }

    /// One directional move, as `move_post` describes: snapshot, slide, and
    /// — only if the board changed — spawn, refresh buckets, and re-evaluate
    /// the win/loss state.
    pub fn apply_move(&mut self, direction: Direction)
        requires
            old(self).wf(),
            old(self).score.value + board_total(old(self).cells@) + 6 <= u64::MAX,
        ensures
            final(self).wf(),
            move_post(*old(self), *final(self), direction),
    {
        match self.game_state {
            GameState::InGame => {},
            _ => {
                return ;
            },
        }
        let ghost b = self.cells@;
        let ghost pre_score = self.score.value as int;
        proof {
            self.cells.lemma_view_props();
            lemma_board_gain_bound(b, direction);
        }
        self.before_moving_event();
        let ghost pre_cells = old(self).cells;
        let (gain, moved) = slide(&mut self.cells, direction);
        let ghost slid = self.cells@;
        let ghost log0 = self.console_log;
        if moved {
            self.score.inc(gain);
            self.add_new_cell(2);
            let ghost mid = self.cells@;
            let ghost log1 = self.console_log;
            let ghost d1 = self.score.value - (pre_score + gain);
            let ghost score_mid = self.score.value as int;
            let second = random_below(10) == 0;
            if second {
                self.add_new_cell(4);
            }
            let ghost log2 = self.console_log;
            let ghost d2 = self.score.value - score_mid;
            self.after_moving_event();
            self.check_game_over();
            let ghost log3 = self.console_log;
            self.check_game_won();
            proof {
                assert(spawn_phase(
                    slid,
                    self.cells@,
                    pre_score,
                    self.score.value as int,
                    board_gain(b, direction),
                    mid,
                    d1,
                    d2,
                ));
                lemma_log_step(log0, log1);
                lemma_log_step(log1, log2);
                lemma_log_step(log2, log3);
                lemma_log_step(log3, self.console_log);
                lemma_append_only_trans(log0, log1, log2);
                lemma_append_only_trans(log0, log2, log3);
                lemma_append_only_trans(log0, log3, self.console_log);
            }
        } else {
            proof {
                // An unchanged board: the cells themselves, the score and the
                // log are exactly as before the move.
                assert(same_cells(self.cells, pre_cells)) by {
                    assert forall|r: int, c: int|
                        0 <= r < self.cells.cells@.len() && 0 <= c
                            < self.cells.cells@[r]@.len() implies #[trigger] self.cells.cells@[r]@[c]
                        == pre_cells.cells@[r]@[c] by {
                        assert(self.cells@[r][c] == pre_cells@[r][c]);
                        assert(self.cells@[r][c] == self.cells.cells@[r]@[c].value as int);
                        assert(pre_cells@[r][c] == pre_cells.cells@[r]@[c].value as int);
                    }
                }
                lemma_log_step(log0, self.console_log);
            }
        }
    }

    /// Move every tile left (toward column 0), merging once per tile.
    pub fn move_left(&mut self)
        requires
            old(self).wf(),
            old(self).score.value + board_total(old(self).cells@) + 6 <= u64::MAX,
        ensures
            final(self).wf(),
            move_post(*old(self), *final(self), Direction::Left),
    {
        self.apply_move(Direction::Left);
    }

    /// Move every tile right (toward the last column), merging once per tile.
    pub fn move_right(&mut self)
        requires
            old(self).wf(),
            old(self).score.value + board_total(old(self).cells@) + 6 <= u64::MAX,
        ensures
            final(self).wf(),
            move_post(*old(self), *final(self), Direction::Right),
    {
        self.apply_move(Direction::Right);
    }

    /// Move every tile up (toward row 0), merging once per tile.
    pub fn move_up(&mut self)
        requires
            old(self).wf(),
            old(self).score.value + board_total(old(self).cells@) + 6 <= u64::MAX,
        ensures
            final(self).wf(),
            move_post(*old(self), *final(self), Direction::Up),
    {
        self.apply_move(Direction::Up);
    }

    /// Move every tile down (toward the last row), merging once per tile.
    pub fn move_down(&mut self)
        requires
            old(self).wf(),
            old(self).score.value + board_total(old(self).cells@) + 6 <= u64::MAX,
        ensures
            final(self).wf(),
            move_post(*old(self), *final(self), Direction::Down),
    {
        self.apply_move(Direction::Down);
    }

    /// Replace the whole board at once (used by undo).
    fn devour(&mut self, grid_cell2048: GridCell2048)
        ensures
            final(self).cells == grid_cell2048,
            final(self).score == old(self).score,
            final(self).game_state == old(self).game_state,
            final(self).console_log == old(self).console_log,
            final(self).shape_size == old(self).shape_size,
            final(self).history_stack == old(self).history_stack,
    {
        self.cells = grid_cell2048;
    }

    /// Undo: while in game, pop the most recent snapshot and restore the
    /// board wholesale; with an empty history, or outside the game, only log
    /// an informational message. Undo restores the board alone — not the
    /// score (a documented limitation). Every branch logs exactly one
    /// message: the undo event, "nothing to undo", or the start-game prompt.
    pub fn turn_back(&mut self)
        requires
            old(self).wf(),
        ensures
            final(self).wf(),
            final(self).shape_size == old(self).shape_size,
            final(self).game_state == old(self).game_state,
            final(self).score == old(self).score,
            appends_one(old(self).console_log, final(self).console_log),
            old(self).game_state != GameState::InGame ==> final(self).cells == old(self).cells
                && final(self).history_stack == old(self).history_stack,
            old(self).game_state == GameState::InGame && old(self).history_stack.stack@.len() == 0
                ==> final(self).cells == old(self).cells
                && final(self).history_stack.stack@ == old(self).history_stack.stack@,
            old(self).game_state == GameState::InGame && old(self).history_stack.stack@.len() > 0
                ==> final(self).cells == old(self).history_stack.stack@.last()
                && final(self).history_stack.stack@ == old(self).history_stack.stack@.drop_last(),
    {
        match self.game_state {
            GameState::InGame => {
                let popped = self.history_stack.pop();
                match popped {
                    Some(previous_grid_cell) => {
                        let turns = self.history_stack.size();
                        self.console_log.add_message(undo_message(turns));
                        self.devour(previous_grid_cell);
                    },
                    None => {
                        self.console_log.add_message(String::from_str("Can not moved back"));
                    },
                }
            },
            _ => {
                self.console_log.add_message(
                    String::from_str("Press whitespace to start the game"),
                );
            },
        }
    }
}

} // verus!


