use game2048::game_cell::Cell2048;
use game2048::grid_cell::GridCell2048;
use game2048::layout::Layout2048;
use game2048::turns_history::TurnsHistory;
use game2048::GameState;

fn board_with(value: u64) -> GridCell2048 {
    let mut g = GridCell2048::new(2);
    g.insert(&Cell2048::new(value, 0, 0, 0));
    g
}

#[test]
fn history_is_last_in_first_out() {
    let mut h = TurnsHistory::new(5);
    assert_eq!(h.size(), 0);
    h.add(board_with(2));
    h.add(board_with(4));
    assert_eq!(h.size(), 2);
    assert_eq!(h.pop().unwrap().get_value(0, 0), 4);
    assert_eq!(h.pop().unwrap().get_value(0, 0), 2);
    assert!(h.pop().is_none());
}

#[test]
fn pushing_beyond_capacity_drops_the_oldest() {
    let mut h = TurnsHistory::new(2);
    h.add(board_with(2));
    h.add(board_with(4));
    h.add(board_with(8));
    assert_eq!(h.size(), 2);
    assert_eq!(h.pop().unwrap().get_value(0, 0), 8);
    assert_eq!(h.pop().unwrap().get_value(0, 0), 4);
    assert!(h.pop().is_none());
}

#[test]
fn capacity_zero_history_stores_nothing() {
    let mut h = TurnsHistory::new(0);
    h.add(board_with(2));
    assert_eq!(h.size(), 0);
    assert!(h.pop().is_none());
    h.add(board_with(4));
    h.add(board_with(8));
    assert_eq!(h.size(), 0);
}

#[test]
fn undo_depth_is_bounded_to_the_most_recent_snapshots() {
    // Six snapshots are pushed (capacity is five): undo can walk back through
    // the five most recent board states and no further.
    let mut l = Layout2048::new(4);
    l.game_state = GameState::InGame;
    // Alternate two tiles between distinct columns so that every move changes
    // the board: each move pushes one snapshot.
    l.cells.insert(&Cell2048::new(2, 1, 1, 0));
    l.cells.insert(&Cell2048::new(4, 2, 2, 0));
    let mut boards_before_move = Vec::new();
    let mut moves = 0;
    let mut flip = false;
    while moves < 6 {
        let mut snapshot = Vec::new();
        for r in 0..4 {
            for c in 0..4 {
                snapshot.push(l.cells.get_value(r, c));
            }
        }
        boards_before_move.push(snapshot);
        if flip {
            l.move_right();
        } else {
            l.move_left();
        }
        moves += 1;
        flip = !flip;
        if l.game_state != GameState::InGame {
            // A random spawn filled the board early: extremely unlikely on a
            // 4x4 board within six moves, but bail out rather than mislead.
            return;
        }
    }
    assert_eq!(l.history_stack.size(), 5);
    // Undo five times: each pop restores the board recorded before the
    // matching move, most recent first.
    for back in 1..=5 {
        l.turn_back();
        let expected = &boards_before_move[6 - back];
        let mut got = Vec::new();
        for r in 0..4 {
            for c in 0..4 {
                got.push(l.cells.get_value(r, c));
            }
        }
        assert_eq!(&got, expected);
    }
    // The sixth undo finds an empty history: the board stays as it is.
    assert_eq!(l.history_stack.size(), 0);
    let mut before = Vec::new();
    for r in 0..4 {
        for c in 0..4 {
            before.push(l.cells.get_value(r, c));
        }
    }
    l.turn_back();
    let mut after = Vec::new();
    for r in 0..4 {
        for c in 0..4 {
            after.push(l.cells.get_value(r, c));
        }
    }
    assert_eq!(before, after);
}

#[test]
fn every_move_pushes_a_snapshot_even_without_change() {
    let mut l = Layout2048::new(4);
    l.game_state = GameState::InGame;
    l.cells.insert(&Cell2048::new(2, 0, 0, 0));
    l.move_left();  // nothing can move: still snapshots
    assert_eq!(l.history_stack.size(), 1);
    assert_eq!(l.score.get(), 0);
}
