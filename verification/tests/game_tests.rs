use game2048::game_cell::Cell2048;
use game2048::layout::Layout2048;
use game2048::{Direction, GameState};

fn put(l: &mut Layout2048, value: u64, row: usize, col: usize) {
    l.cells.insert(&Cell2048::new(value, row, col, 0));
}

fn nonzero_cells(l: &Layout2048) -> Vec<(usize, usize, u64)> {
    let mut out = Vec::new();
    let n = l.shape_size;
    for r in 0..n {
        for c in 0..n {
            let v = l.cells.get_value(r, c);
            if v != 0 {
                out.push((r, c, v));
            }
        }
    }
    out
}

#[test]
fn new_game_spawns_one_two_and_maybe_a_four() {
    let mut l = Layout2048::new(4);
    assert_eq!(l.game_state, GameState::GameInitialized);
    l.new_game();
    assert_eq!(l.game_state, GameState::InGame);
    let tiles = nonzero_cells(&l);
    match tiles.len() {
        1 => {
            assert_eq!(tiles[0].2, 2);
            assert_eq!(l.score.get(), 2);
        },
        2 => {
            let mut values: Vec<u64> = tiles.iter().map(|t| t.2).collect();
            values.sort();
            assert_eq!(values, vec![2, 4]);
            assert_eq!(l.score.get(), 6);
        },
        n => panic!("a new game spawned {n} tiles"),
    }
}

#[test]
fn new_game_on_a_single_cell_board() {
    let mut l = Layout2048::new(1);
    l.new_game();
    assert_eq!(l.game_state, GameState::InGame);
    assert_eq!(l.cells.get_value(0, 0), 2);
    assert_eq!(l.score.get(), 2);
}

#[test]
fn move_left_merges_and_spawns() {
    let mut l = Layout2048::new(4);
    l.game_state = GameState::InGame;
    put(&mut l, 2, 0, 0);
    put(&mut l, 2, 0, 1);
    l.move_left();
    assert_eq!(l.cells.get_value(0, 0), 4);
    let tiles = nonzero_cells(&l);
    // The merged 4 plus the spawned 2 and possibly an extra 4.
    let spawned: Vec<&(usize, usize, u64)> =
        tiles.iter().filter(|t| !(t.0 == 0 && t.1 == 0)).collect();
    assert!(spawned.len() == 1 || spawned.len() == 2);
    let spawned_sum: u64 = spawned.iter().map(|t| t.2).sum();
    if spawned.len() == 1 {
        assert_eq!(spawned[0].2, 2);
    } else {
        let mut values: Vec<u64> = spawned.iter().map(|t| t.2).collect();
        values.sort();
        assert_eq!(values, vec![2, 4]);
    }
    assert_eq!(l.score.get(), 4 + spawned_sum);
    assert_eq!(l.game_state, GameState::InGame);
}

#[test]
fn no_op_move_does_not_spawn() {
    let mut l = Layout2048::new(4);
    l.game_state = GameState::InGame;
    put(&mut l, 2, 0, 0);
    put(&mut l, 4, 0, 1);
    l.move_left();
    assert_eq!(nonzero_cells(&l).len(), 2);
    assert_eq!(l.score.get(), 0);
    assert_eq!(l.cells.get_value(0, 0), 2);
    assert_eq!(l.cells.get_value(0, 1), 4);
}

#[test]
fn moves_are_ignored_before_the_game_starts() {
    let mut l = Layout2048::new(4);
    put(&mut l, 2, 0, 1);
    l.move_left();
    assert_eq!(l.cells.get_value(0, 1), 2);
    assert_eq!(nonzero_cells(&l).len(), 1);
    assert_eq!(l.score.get(), 0);
}

#[test]
fn spawn_on_full_board_fails_without_mutation() {
    let mut l = Layout2048::new(2);
    l.game_state = GameState::InGame;
    put(&mut l, 2, 0, 0);
    put(&mut l, 4, 0, 1);
    put(&mut l, 8, 1, 0);
    put(&mut l, 16, 1, 1);
    let added = l.add_new_cell(32);
    assert!(!added);
    assert_eq!(l.score.get(), 0);
    let tiles = nonzero_cells(&l);
    assert_eq!(tiles, vec![(0, 0, 2), (0, 1, 4), (1, 0, 8), (1, 1, 16)]);
}

#[test]
fn spawn_picks_an_empty_cell_and_scores() {
    let mut l = Layout2048::new(2);
    l.game_state = GameState::InGame;
    put(&mut l, 2, 0, 0);
    put(&mut l, 4, 0, 1);
    put(&mut l, 8, 1, 0);
    let added = l.add_new_cell(32);
    assert!(added);
    assert_eq!(l.cells.get_value(1, 1), 32);
    assert_eq!(l.score.get(), 32);
}

#[test]
fn game_over_needs_full_board_without_adjacent_pairs() {
    let mut l = Layout2048::new(2);
    // Not full: never over.
    put(&mut l, 2, 0, 0);
    assert!(!l.is_game_over());
    // Full with an adjacent equal pair (right neighbour): not over.
    let mut full_pair = Layout2048::new(2);
    put(&mut full_pair, 2, 0, 0);
    put(&mut full_pair, 2, 0, 1);
    put(&mut full_pair, 4, 1, 0);
    put(&mut full_pair, 8, 1, 1);
    assert!(!full_pair.is_game_over());
    // Full with an equal pair below: not over.
    let mut full_below = Layout2048::new(2);
    put(&mut full_below, 2, 0, 0);
    put(&mut full_below, 4, 0, 1);
    put(&mut full_below, 2, 1, 0);
    put(&mut full_below, 8, 1, 1);
    assert!(!full_below.is_game_over());
    // Full with no equal neighbours: over.
    let mut stuck = Layout2048::new(2);
    put(&mut stuck, 2, 0, 0);
    put(&mut stuck, 4, 0, 1);
    put(&mut stuck, 8, 1, 0);
    put(&mut stuck, 2, 1, 1);
    assert!(stuck.is_game_over());
    stuck.game_state = GameState::InGame;
    stuck.check_game_over();
    assert_eq!(stuck.game_state, GameState::GameOver);
}

#[test]
fn reaching_the_winning_tile_wins() {
    let mut l = Layout2048::new(4);
    l.game_state = GameState::InGame;
    put(&mut l, 1024, 0, 0);
    put(&mut l, 1024, 0, 1);
    l.move_left();
    assert_eq!(l.cells.get_value(0, 0), 2048);
    assert_eq!(l.game_state, GameState::GameWon);
}

#[test]
fn check_game_won_fires_on_a_winning_cell() {
    let mut l = Layout2048::new(4);
    l.game_state = GameState::InGame;
    assert!(!l.is_game_won());
    put(&mut l, 2048, 2, 3);
    assert!(l.is_game_won());
    l.check_game_won();
    assert_eq!(l.game_state, GameState::GameWon);
}

#[test]
fn spawn_2048_places_a_winning_tile_in_game() {
    let mut l = Layout2048::new(4);
    l.game_state = GameState::InGame;
    l.spawn_2048();
    assert_eq!(l.score.get(), 2048);
    assert!(l.is_game_won());
    // Outside the game it does nothing.
    let mut idle = Layout2048::new(4);
    idle.spawn_2048();
    assert_eq!(idle.score.get(), 0);
    assert_eq!(nonzero_cells(&idle).len(), 0);
}

#[test]
fn undo_restores_the_board_but_not_the_score() {
    let mut l = Layout2048::new(4);
    l.game_state = GameState::InGame;
    put(&mut l, 2, 0, 0);
    put(&mut l, 2, 0, 1);
    l.move_left();
    let score_after_move = l.score.get();
    assert!(score_after_move >= 4);
    l.turn_back();
    assert_eq!(l.cells.get_value(0, 0), 2);
    assert_eq!(l.cells.get_value(0, 1), 2);
    assert_eq!(nonzero_cells(&l).len(), 2);
    assert_eq!(l.score.get(), score_after_move);
}

#[test]
fn undo_with_empty_history_only_logs() {
    let mut l = Layout2048::new(4);
    l.game_state = GameState::InGame;
    put(&mut l, 2, 1, 1);
    let messages_before = l.console_log.messages().len();
    l.turn_back();
    assert_eq!(l.cells.get_value(1, 1), 2);
    assert_eq!(l.console_log.messages().len(), messages_before + 1);
    assert_eq!(l.console_log.messages().last().unwrap(), "Can not moved back");
    assert_eq!(l.game_state, GameState::InGame);
}

#[test]
fn every_state_machine_event_is_logged() {
    // new game: "NEW GAME" plus one message per spawned tile.
    let mut l = Layout2048::new(2);
    l.new_game();
    let log = l.console_log.messages();
    assert!(log.len() >= 2);
    assert_eq!(log[0], "NEW GAME");
    assert!(log[1].starts_with("Added cell with value: 2"));
    // undo outside the game: the start prompt.
    let mut idle = Layout2048::new(2);
    idle.turn_back();
    assert_eq!(idle.console_log.messages().last().unwrap(), "Press whitespace to start the game");
    // game over: the transition logs "Game over".
    let mut stuck = Layout2048::new(2);
    stuck.game_state = GameState::InGame;
    put(&mut stuck, 2, 0, 0);
    put(&mut stuck, 4, 0, 1);
    put(&mut stuck, 8, 1, 0);
    put(&mut stuck, 2, 1, 1);
    stuck.check_game_over();
    assert_eq!(stuck.console_log.messages().last().unwrap(), "Game over");
    // winning: the congratulation names the score.
    let mut won = Layout2048::new(2);
    won.game_state = GameState::InGame;
    put(&mut won, 2048, 0, 0);
    won.check_game_won();
    assert_eq!(
        won.console_log.messages().last().unwrap(),
        "Congratulations! You win. Score: 0"
    );
    // undo in game: the undo message names the turns left.
    let mut back = Layout2048::new(4);
    back.game_state = GameState::InGame;
    put(&mut back, 2, 0, 0);
    put(&mut back, 2, 0, 1);
    back.move_left();
    back.turn_back();
    assert_eq!(back.console_log.messages().last().unwrap(), "Moved back. Left 0 turns");
}

#[test]
fn undo_is_ignored_outside_the_game() {
    let mut l = Layout2048::new(4);
    put(&mut l, 2, 1, 1);
    l.turn_back();
    assert_eq!(l.cells.get_value(1, 1), 2);
    assert_eq!(l.game_state, GameState::GameInitialized);
}

#[test]
fn display_buckets_follow_values_after_a_move() {
    let mut l = Layout2048::new(4);
    l.game_state = GameState::InGame;
    put(&mut l, 2, 0, 0);
    put(&mut l, 2, 0, 1);
    l.move_left();
    assert_eq!(l.cells.get_cell(0, 0).bucket, 2);  // value 4
    let n = l.shape_size;
    for r in 0..n {
        for c in 0..n {
            let cell = l.cells.get_cell(r, c);
            let expected = match cell.value {
                0 => 0,
                2 => 1,
                4 => 2,
                8 => 3,
                _ => u32::MAX,
            };
            if expected != u32::MAX {
                assert_eq!(cell.bucket, expected);
            }
        }
    }
}
