use modern_minesweeper::{
    change_flag, change_visibility, check_win, clear_grid, expand_selection, fill_grid,
    index_to_position, new_grid, position_to_index, surrounding_indices, zero_pad, GameConfig,
    GameDifficulty, GameOver, GameState, Position, Tile, MINE_VALUE,
};

fn config(rows: usize, cols: usize, mines: usize) -> GameConfig {
    GameConfig { row_count: rows, col_count: cols, mine_count: mines }
}

fn pos(row: i32, col: i32) -> Position {
    Position { row, col }
}

fn tile(value: i32) -> Tile {
    Tile { value, visible: false, flagged: false }
}

/// Builds a board from rows of values, all hidden and unflagged.
fn board(values: &[&[i32]]) -> Vec<Vec<Tile>> {
    values.iter().map(|row| row.iter().map(|v| tile(*v)).collect()).collect()
}

fn mine_total(tiles: &Vec<Vec<Tile>>) -> usize {
    tiles.iter().flatten().filter(|t| t.value == MINE_VALUE).count()
}

fn neighbor_mines(tiles: &Vec<Vec<Tile>>, r: usize, c: usize) -> i32 {
    let mut n = 0;
    for dr in -1i64..=1 {
        for dc in -1i64..=1 {
            let (nr, nc) = (r as i64 + dr, c as i64 + dc);
            if (dr, dc) != (0, 0)
                && nr >= 0
                && nc >= 0
                && (nr as usize) < tiles.len()
                && (nc as usize) < tiles[0].len()
                && tiles[nr as usize][nc as usize].value == MINE_VALUE
            {
                n += 1;
            }
        }
    }
    n
}

fn assert_numbered(tiles: &Vec<Vec<Tile>>) {
    for r in 0..tiles.len() {
        for c in 0..tiles[r].len() {
            if tiles[r][c].value != MINE_VALUE {
                assert_eq!(tiles[r][c].value, neighbor_mines(tiles, r, c), "tile ({r}, {c})");
            }
        }
    }
}

#[test]
fn presets_match_difficulty() {
    assert_eq!(GameConfig::new(GameDifficulty::Easy), config(8, 8, 10));
    assert_eq!(GameConfig::new(GameDifficulty::Medium), config(16, 16, 40));
    assert_eq!(GameConfig::new(GameDifficulty::Hard), config(16, 30, 99));
}

#[test]
fn default_state_is_initial() {
    assert_eq!(GameState::default(), GameState::Initial);
}

#[test]
fn new_grid_is_blank() {
    let tiles = new_grid(&config(3, 5, 2));
    assert_eq!(tiles.len(), 3);
    for row in &tiles {
        assert_eq!(row.len(), 5);
        for t in row {
            assert_eq!(*t, tile(0));
        }
    }
}

#[test]
fn fresh_board_is_not_won() {
    for difficulty in [GameDifficulty::Easy, GameDifficulty::Medium, GameDifficulty::Hard] {
        let cfg = GameConfig::new(difficulty);
        let tiles = new_grid(&cfg);
        assert!(!check_win(&cfg, &tiles));
    }
}

#[test]
fn clear_grid_resets_every_tile() {
    let mut tiles = board(&[&[-1, 1], &[1, 1]]);
    tiles[0][0].flagged = true;
    tiles[1][1].visible = true;
    clear_grid(&mut tiles);
    assert_eq!(tiles, board(&[&[0, 0], &[0, 0]]));
}

#[test]
fn change_flag_and_visibility_touch_one_tile() {
    let mut tiles = board(&[&[0, 0], &[0, 0]]);
    change_flag(&mut tiles, &pos(0, 1), true);
    change_visibility(&mut tiles, &pos(1, 0), true);
    assert!(tiles[0][1].flagged && !tiles[0][1].visible);
    assert!(tiles[1][0].visible && !tiles[1][0].flagged);
    assert!(!tiles[0][0].flagged && !tiles[0][0].visible);
    change_flag(&mut tiles, &pos(0, 1), false);
    assert!(!tiles[0][1].flagged);
}

#[test]
fn index_conversions_round_trip() {
    let cfg = config(4, 7, 0);
    assert_eq!(position_to_index(&cfg, &pos(2, 3)), 17);
    assert_eq!(index_to_position(&cfg, 17), pos(2, 3));
    assert_eq!(index_to_position(&cfg, 27), pos(3, 6));
}

#[test]
fn neighbor_counts_by_location() {
    let cfg = config(4, 5, 0);
    // corners
    for p in [pos(0, 0), pos(0, 4), pos(3, 0), pos(3, 4)] {
        assert_eq!(surrounding_indices(&cfg, &p).len(), 3);
    }
    // edges
    for p in [pos(0, 2), pos(3, 1), pos(1, 0), pos(2, 4)] {
        assert_eq!(surrounding_indices(&cfg, &p).len(), 5);
    }
    // interior
    for p in [pos(1, 1), pos(2, 3)] {
        assert_eq!(surrounding_indices(&cfg, &p).len(), 8);
    }
}

#[test]
fn neighbors_come_in_row_major_order() {
    let cfg = config(3, 3, 0);
    assert_eq!(surrounding_indices(&cfg, &pos(1, 1)), vec![0, 1, 2, 3, 5, 6, 7, 8]);
    assert_eq!(surrounding_indices(&cfg, &pos(0, 0)), vec![1, 3, 4]);
    assert_eq!(surrounding_indices(&cfg, &pos(2, 1)), vec![3, 4, 5, 6, 8]);
}

#[test]
fn zero_pad_examples() {
    assert_eq!(zero_pad(7, 3), "007");
    assert_eq!(zero_pad(123, 3), "123");
    assert_eq!(zero_pad(1234, 3), "1234");
    assert_eq!(zero_pad(0, 1), "0");
    assert_eq!(zero_pad(0, 0), "0");
    assert_eq!(zero_pad(40, -2), "40");
    assert_eq!(zero_pad(-5, 4), "00-5");
    assert_eq!(zero_pad(i32::MIN, 3), "-2147483648");
    assert_eq!(zero_pad(99, 10), "0000000099");
}

#[test]
fn first_click_is_safe_on_easy_board() {
    let cfg = GameConfig::new(GameDifficulty::Easy);
    for _ in 0..20 {
        let mut tiles = new_grid(&cfg);
        fill_grid(&cfg, pos(0, 0), &mut tiles);
        for (r, c) in [(0, 0), (0, 1), (1, 0), (1, 1)] {
            assert_ne!(tiles[r][c].value, MINE_VALUE);
        }
        assert_eq!(mine_total(&tiles), 10);
        assert_eq!(tiles[0][0].value, 0);
        assert!(tiles[0][0].visible);
        assert!(tiles[0][1].visible && tiles[1][0].visible && tiles[1][1].visible);
        assert_numbered(&tiles);
        for t in tiles.iter().flatten() {
            assert!(!(t.visible && t.value == MINE_VALUE));
        }
    }
}

#[test]
fn fill_grid_keeps_interior_safe_zone_clear() {
    let cfg = GameConfig::new(GameDifficulty::Hard);
    for _ in 0..10 {
        let mut tiles = new_grid(&cfg);
        fill_grid(&cfg, pos(7, 12), &mut tiles);
        for r in 6..=8 {
            for c in 11..=13 {
                assert_ne!(tiles[r][c].value, MINE_VALUE);
            }
        }
        assert_eq!(mine_total(&tiles), 99);
        assert_numbered(&tiles);
    }
}

#[test]
fn fill_grid_with_largest_mine_count() {
    // 4x4 = 16 tiles, an interior first move keeps 9 of them free
    let cfg = config(4, 4, 7);
    let mut tiles = new_grid(&cfg);
    fill_grid(&cfg, pos(1, 1), &mut tiles);
    assert_eq!(mine_total(&tiles), 7);
    for r in 0..=2 {
        for c in 0..=2 {
            assert_ne!(tiles[r][c].value, MINE_VALUE);
        }
    }
    for (r, c) in [(0, 3), (1, 3), (2, 3), (3, 0), (3, 1), (3, 2), (3, 3)] {
        assert_eq!(tiles[r][c].value, MINE_VALUE);
    }
    assert_numbered(&tiles);
}

#[test]
fn two_by_two_without_mines_is_cleared_and_won() {
    let cfg = config(2, 2, 0);
    let mut tiles = new_grid(&cfg);
    fill_grid(&cfg, pos(0, 0), &mut tiles);
    for t in tiles.iter().flatten() {
        assert!(t.visible);
        assert_eq!(t.value, 0);
        assert!(!t.flagged);
    }
    assert!(check_win(&cfg, &tiles));
}

#[test]
fn flood_covers_largest_empty_board() {
    let cfg = config(16, 30, 0);
    let mut tiles = new_grid(&cfg);
    tiles[9][17].visible = true;
    let outcome = expand_selection(&cfg, &pos(9, 17), &mut tiles);
    assert_eq!(outcome, None);
    assert!(tiles.iter().flatten().all(|t| t.visible));
}

#[test]
fn flood_stops_at_numbers_and_flags() {
    // mine at (0,4); column 3 holds the numbers that border it
    let cfg = config(3, 5, 1);
    let mut tiles = board(&[&[0, 0, 0, 1, -1], &[0, 0, 0, 1, 1], &[0, 0, 0, 0, 0]]);
    tiles[2][0].flagged = true;
    let outcome = expand_selection(&cfg, &pos(0, 0), &mut tiles);
    assert_eq!(outcome, None);
    for r in 0..3 {
        for c in 0..5 {
            let expected = !(r == 0 && c == 4) && !(r == 2 && c == 0);
            assert_eq!(tiles[r][c].visible, expected, "tile ({r}, {c})");
        }
    }
    assert!(tiles[2][0].flagged);
}

#[test]
fn flood_does_not_spread_from_visible_zero() {
    let cfg = config(2, 4, 0);
    let mut tiles = board(&[&[0, 0, 0, 0], &[0, 0, 0, 0]]);
    tiles[0][1].visible = true;
    tiles[1][1].visible = true;
    let outcome = expand_selection(&cfg, &pos(0, 0), &mut tiles);
    assert_eq!(outcome, None);
    assert!(tiles[0][0].visible && tiles[1][0].visible);
    assert!(!tiles[0][2].visible && !tiles[1][2].visible && !tiles[0][3].visible);
}

#[test]
fn chord_reveals_unflagged_neighbors() {
    let cfg = config(3, 3, 1);
    let mut tiles = board(&[&[-1, 1, 0], &[1, 1, 0], &[0, 0, 0]]);
    tiles[1][1].visible = true;
    tiles[0][0].flagged = true;
    let outcome = expand_selection(&cfg, &pos(1, 1), &mut tiles);
    assert_eq!(outcome, None);
    for r in 0..3 {
        for c in 0..3 {
            assert_eq!(tiles[r][c].visible, !(r == 0 && c == 0), "tile ({r}, {c})");
        }
    }
    assert!(tiles[0][0].flagged);
}

#[test]
fn chord_with_wrong_flag_count_changes_nothing() {
    let cfg = config(3, 3, 1);
    let mut tiles = board(&[&[-1, 1, 0], &[1, 1, 0], &[0, 0, 0]]);
    tiles[1][1].visible = true;
    let before = tiles.clone();
    assert_eq!(expand_selection(&cfg, &pos(1, 1), &mut tiles), None);
    assert_eq!(tiles, before);
    tiles[0][1].flagged = true;
    tiles[0][2].flagged = true;
    let before = tiles.clone();
    assert_eq!(expand_selection(&cfg, &pos(1, 1), &mut tiles), None);
    assert_eq!(tiles, before);
}

#[test]
fn chord_with_misplaced_flag_hits_mine() {
    let cfg = config(3, 3, 1);
    let mut tiles = board(&[&[-1, 1, 0], &[1, 1, 0], &[0, 0, 0]]);
    tiles[1][1].visible = true;
    tiles[2][2].flagged = true;
    let outcome = expand_selection(&cfg, &pos(1, 1), &mut tiles);
    assert_eq!(outcome, Some(GameOver));
    // the mine comes first in neighbor order, so the chord stops there
    assert!(tiles[0][0].visible);
    assert!(!tiles[0][1].visible && !tiles[1][0].visible);
}

#[test]
fn expanding_a_mine_changes_nothing() {
    let cfg = config(2, 2, 1);
    let mut tiles = board(&[&[-1, 1], &[1, 1]]);
    let before = tiles.clone();
    assert_eq!(expand_selection(&cfg, &pos(0, 0), &mut tiles), None);
    assert_eq!(tiles, before);
}

#[test]
fn win_needs_everything_resolved_and_exact_flags() {
    let cfg = config(2, 2, 1);
    let mut tiles = board(&[&[-1, 1], &[1, 1]]);
    for (r, c) in [(0, 1), (1, 0), (1, 1)] {
        tiles[r][c].visible = true;
    }
    // the mine is neither flagged nor shown
    assert!(!check_win(&cfg, &tiles));
    tiles[0][0].flagged = true;
    assert!(check_win(&cfg, &tiles));
    // one flag too many
    tiles[1][1].flagged = true;
    assert!(!check_win(&cfg, &tiles));
    // four flags where no mine is expected
    let mut flagged = board(&[&[0, 0], &[0, 0]]);
    for t in flagged.iter_mut().flatten() {
        t.flagged = true;
    }
    assert!(!check_win(&config(2, 2, 0), &flagged));
    assert!(check_win(&config(2, 2, 4), &flagged));
}

#[test]
fn restart_after_play_is_not_won() {
    let cfg = GameConfig::new(GameDifficulty::Easy);
    let mut tiles = new_grid(&cfg);
    fill_grid(&cfg, pos(3, 3), &mut tiles);
    clear_grid(&mut tiles);
    assert_eq!(tiles, new_grid(&cfg));
    assert!(!check_win(&cfg, &tiles));
}
