use game2048::game_cell::Cell2048;
use game2048::grid_cell::GridCell2048;
use game2048::move_engine::slide;
use game2048::Direction;

fn board_from(rows: &[&[u64]]) -> GridCell2048 {
    let mut g = GridCell2048::new(rows.len());
    for (r, row) in rows.iter().enumerate() {
        for (c, &v) in row.iter().enumerate() {
            if v != 0 {
                g.insert(&Cell2048::new(v, r, c, 0));
            }
        }
    }
    g
}

fn values_of(g: &GridCell2048, n: usize) -> Vec<Vec<u64>> {
    let mut out = Vec::new();
    for r in 0..n {
        let mut row = Vec::new();
        for c in 0..n {
            row.push(g.get_value(r, c));
        }
        out.push(row);
    }
    out
}

#[test]
fn pair_merges_left() {
    let mut g = board_from(&[&[2, 2, 0, 0], &[0; 4], &[0; 4], &[0; 4]]);
    let (gain, moved) = slide(&mut g, Direction::Left);
    assert!(moved);
    assert_eq!(gain, 4);
    assert_eq!(values_of(&g, 4)[0], vec![4, 0, 0, 0]);
}

#[test]
fn triple_merges_once_toward_right_wall() {
    let mut g = board_from(&[&[2, 2, 2, 0], &[0; 4], &[0; 4], &[0; 4]]);
    let (gain, moved) = slide(&mut g, Direction::Right);
    assert!(moved);
    assert_eq!(gain, 4);
    assert_eq!(values_of(&g, 4)[0], vec![0, 0, 2, 4]);
}

#[test]
fn four_equal_tiles_merge_pairwise() {
    let mut g = board_from(&[&[2, 2, 2, 2], &[0; 4], &[0; 4], &[0; 4]]);
    let (gain, moved) = slide(&mut g, Direction::Right);
    assert!(moved);
    assert_eq!(gain, 8);
    assert_eq!(values_of(&g, 4)[0], vec![0, 0, 4, 4]);
}

#[test]
fn merged_tile_does_not_remerge() {
    // [2, 2, 4, 0] slid right: the 2s merge into a 4 that must not combine
    // with the existing 4 in the same move.
    let mut g = board_from(&[&[2, 2, 4, 0], &[0; 4], &[0; 4], &[0; 4]]);
    let (gain, moved) = slide(&mut g, Direction::Right);
    assert!(moved);
    assert_eq!(gain, 4);
    assert_eq!(values_of(&g, 4)[0], vec![0, 0, 4, 4]);
}

#[test]
fn single_pair_merges_among_other_tiles() {
    // [4, 2, 2, 0] slid left: only the 2s merge; the 4 must not absorb the
    // freshly merged 4 in the same move.
    let mut g = board_from(&[&[4, 2, 2, 0], &[0; 4], &[0; 4], &[0; 4]]);
    let (gain, moved) = slide(&mut g, Direction::Left);
    assert!(moved);
    assert_eq!(gain, 4);
    assert_eq!(values_of(&g, 4)[0], vec![4, 4, 0, 0]);
}

#[test]
fn empty_positions_come_in_row_major_order() {
    let mut g = GridCell2048::new(3);
    let all = g.get_empty_cells();
    assert_eq!(all.len(), 9);
    let expected: Vec<(usize, usize)> =
        (0..3).flat_map(|r| (0..3).map(move |c| (r, c))).collect();
    assert_eq!(all, expected);
    g.insert(&Cell2048::new(2, 1, 1, 0));
    g.insert(&Cell2048::new(4, 0, 2, 0));
    let empties = g.get_empty_cells();
    assert_eq!(empties.len(), 7);
    assert_eq!(
        empties,
        vec![(0, 0), (0, 1), (1, 0), (1, 2), (2, 0), (2, 1), (2, 2)]
    );
    for (i, p) in empties.iter().enumerate() {
        for q in empties.iter().skip(i + 1) {
            assert_ne!(p, q);
        }
    }
}

#[test]
fn second_slide_of_stable_board_moves_nothing() {
    let mut g = board_from(&[&[2, 4, 0, 0], &[0; 4], &[0; 4], &[0; 4]]);
    let (gain1, moved1) = slide(&mut g, Direction::Right);
    assert!(moved1);
    assert_eq!(gain1, 0);
    assert_eq!(values_of(&g, 4)[0], vec![0, 0, 2, 4]);
    let (gain2, moved2) = slide(&mut g, Direction::Right);
    assert!(!moved2);
    assert_eq!(gain2, 0);
    assert_eq!(values_of(&g, 4)[0], vec![0, 0, 2, 4]);
}

#[test]
fn blocked_tiles_do_not_move() {
    let mut g = board_from(&[&[0; 4], &[0; 4], &[0; 4], &[8, 4, 2, 16]]);
    let (gain, moved) = slide(&mut g, Direction::Right);
    assert!(!moved);
    assert_eq!(gain, 0);
    assert_eq!(values_of(&g, 4)[3], vec![8, 4, 2, 16]);
}

#[test]
fn column_merges_upward() {
    let mut g = board_from(&[&[0, 2, 0, 0], &[0, 0, 0, 0], &[0, 2, 0, 0], &[0, 4, 0, 0]]);
    let (gain, moved) = slide(&mut g, Direction::Up);
    assert!(moved);
    assert_eq!(gain, 4);
    let v = values_of(&g, 4);
    assert_eq!(v[0][1], 4);
    assert_eq!(v[1][1], 4);
    assert_eq!(v[2][1], 0);
    assert_eq!(v[3][1], 0);
}

#[test]
fn column_merges_downward_wall_first() {
    // Three equal tiles in one column slid down: the two nearest the bottom
    // wall merge; the third slides in behind them.
    let mut g = board_from(&[&[2, 0, 0, 0], &[2, 0, 0, 0], &[2, 0, 0, 0], &[0, 0, 0, 0]]);
    let (gain, moved) = slide(&mut g, Direction::Down);
    assert!(moved);
    assert_eq!(gain, 4);
    let v = values_of(&g, 4);
    assert_eq!(v[0][0], 0);
    assert_eq!(v[1][0], 0);
    assert_eq!(v[2][0], 2);
    assert_eq!(v[3][0], 4);
}

#[test]
fn slide_preserves_tile_sum() {
    let mut g = board_from(&[&[2, 2, 4, 4], &[8, 0, 8, 0], &[0, 16, 0, 16], &[2, 0, 0, 2]]);
    let before: u64 = values_of(&g, 4).iter().flatten().sum();
    let (gain, moved) = slide(&mut g, Direction::Left);
    assert!(moved);
    let after: u64 = values_of(&g, 4).iter().flatten().sum();
    assert_eq!(before, after);
    assert_eq!(gain, 4 + 8 + 16 + 32 + 4);
}

#[test]
fn empty_positions_match_board() {
    let mut g = GridCell2048::new(2);
    assert_eq!(g.get_empty_cells().len(), 4);
    g.insert(&Cell2048::new(2, 0, 1, 0));
    let empties = g.get_empty_cells();
    assert_eq!(empties.len(), 3);
    assert!(!empties.contains(&(0, 1)));
    assert_eq!(g.shape(), (2, 2));
}

#[test]
fn snapshot_is_independent_of_later_changes() {
    let mut g = board_from(&[&[2, 0], &[0, 4]]);
    let snap = g.snapshot();
    g.insert(&Cell2048::new(8, 0, 1, 0));
    assert_eq!(snap.get_value(0, 1), 0);
    assert_eq!(g.get_value(0, 1), 8);
    assert_eq!(snap.get_value(0, 0), 2);
    assert_eq!(snap.get_value(1, 1), 4);
}
