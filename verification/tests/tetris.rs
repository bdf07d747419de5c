use oxvoid::rng::{seed_from_time, xorshift32};
use oxvoid::tetris::{full_row_count, key_of, offset, row_is_full, CellDraw, Game, Key, COLS, PIECES, ROWS};

/// A new game whose falling piece is `piece`, at the spawn position.
fn game_with(piece: usize) -> Game {
    let mut g = Game::new(42);
    g.current = piece;
    g.rotation = 0;
    g.cx = 3;
    g.cy = 0;
    g
}

#[test]
fn new_game_is_fresh() {
    let g = Game::new(12345);
    assert!(g.board.iter().all(|row| row.iter().all(|&c| c == 0)));
    assert_eq!((g.score, g.lines, g.level, g.tick_ms), (0, 0, 1, 500));
    assert_eq!((g.rotation, g.cx, g.cy), (0, 3, 0));
    assert!(!g.game_over);
    let s1 = xorshift32(seed_from_time(12345));
    let s2 = xorshift32(s1);
    assert_eq!(g.current, s1 as usize % 7);
    assert_eq!(g.next, s2 as usize % 7);
    assert_eq!(g.seed, s2);
}

#[test]
fn rand_piece_steps_the_generator() {
    let mut g = Game::new(1);
    let before = g.seed;
    let p = g.rand_piece();
    assert_eq!(g.seed, xorshift32(before));
    assert_eq!(p, g.seed as usize % 7);
}

#[test]
fn pieces_table_matches_offsets() {
    assert_eq!(PIECES[0][0], [(0, 1), (1, 1), (2, 1), (3, 1)]);
    assert_eq!(PIECES[1][3], [(1, 0), (2, 0), (1, 1), (2, 1)]);
    assert_eq!(offset(2, 0, 3), (1, 0));
    assert_eq!(offset(6, 3, 0), (0, 0));
}

#[test]
fn move_left_stops_at_the_wall() {
    // The O piece occupies columns cx + 1 and cx + 2.
    let mut g = game_with(1);
    let mut moves = 0;
    while g.move_piece(-1, 0) {
        moves += 1;
    }
    assert_eq!(moves, 4);
    assert_eq!(g.cx, -1);
}

#[test]
fn move_right_stops_at_the_wall() {
    let mut g = game_with(1);
    let mut moves = 0;
    while g.move_piece(1, 0) {
        moves += 1;
    }
    assert_eq!(moves, 4);
    assert_eq!(g.cx, 7);
}

#[test]
fn move_blocked_by_a_locked_cell() {
    let mut g = game_with(1);
    g.board[0][6] = 3;
    assert!(!g.move_piece(1, 0));
    assert_eq!(g.cx, 3);
}

#[test]
fn rotate_turns_in_place_when_it_fits() {
    let mut g = game_with(2);
    g.rotate();
    assert_eq!((g.rotation, g.cx), (1, 3));
}

#[test]
fn rotate_kicks_off_the_left_wall() {
    // Vertical I piece against the left wall: the flat rotation only fits
    // two columns to the right.
    let mut g = game_with(0);
    g.rotate();
    assert_eq!(g.rotation, 1);
    while g.move_piece(-1, 0) {}
    assert_eq!(g.cx, -2);
    g.rotate();
    assert_eq!((g.rotation, g.cx), (2, 0));
}

#[test]
fn rotate_fails_when_no_kick_fits() {
    let mut g = game_with(0);
    g.cy = 5;
    // Walls on both sides of the flat I piece's vertical rotation.
    for y in 0..ROWS {
        for x in 0..COLS {
            if x != 5 && y >= 5 && y <= 9 {
                g.board[y][x] = 1;
            }
        }
    }
    g.rotation = 1;
    g.cx = 3; // cells in column 5, rows 5..=8
    let before_rot = g.rotation;
    g.rotate();
    assert_eq!((g.rotation, g.cx), (before_rot, 3));
}

#[test]
fn ghost_y_is_the_landing_row() {
    let g = game_with(1);
    assert_eq!(g.ghost_y(), 18);
    let mut h = game_with(1);
    h.board[10][4] = 2;
    assert_eq!(h.ghost_y(), 8);
}

#[test]
fn tick_moves_down_one_row() {
    let mut g = game_with(1);
    g.tick();
    assert_eq!(g.cy, 1);
}

#[test]
fn tick_at_the_bottom_locks() {
    let mut g = game_with(1);
    g.cy = 18;
    let next = g.next;
    g.tick();
    assert_eq!(g.board[18][4], 2);
    assert_eq!(g.board[19][5], 2);
    assert_eq!(g.current, next);
    assert_eq!((g.cx, g.cy, g.rotation), (3, 0, 0));
}

#[test]
fn hard_drop_lands_and_spawns() {
    let mut g = game_with(1);
    let next = g.next;
    let seed = g.seed;
    g.hard_drop();
    assert_eq!(g.board[18][4], 2);
    assert_eq!(g.board[18][5], 2);
    assert_eq!(g.board[19][4], 2);
    assert_eq!(g.board[19][5], 2);
    let filled: usize = g.board.iter().map(|r| r.iter().filter(|&&c| c != 0).count()).sum();
    assert_eq!(filled, 4);
    assert_eq!(g.current, next);
    assert_eq!(g.seed, xorshift32(seed));
    assert_eq!(g.next, g.seed as usize % 7);
    assert_eq!(g.score, 0);
    assert!(!g.game_over);
}

#[test]
fn clearing_two_lines_scores_300() {
    let mut g = game_with(1);
    g.board[19] = [1; COLS];
    g.board[18] = [2; COLS];
    g.board[17][0] = 5;
    g.clear_lines();
    assert_eq!(g.board[19][0], 5);
    assert_eq!(g.board[19][1], 0);
    assert!(g.board[..19].iter().all(|row| row.iter().all(|&c| c == 0)));
    assert_eq!((g.score, g.lines, g.level, g.tick_ms), (300, 2, 1, 500));
}

#[test]
fn clearing_scores_by_count() {
    for (n, points) in [(1usize, 100u32), (2, 300), (3, 500), (4, 800)] {
        let mut g = game_with(1);
        for y in 0..n {
            g.board[ROWS - 1 - y] = [3; COLS];
        }
        g.clear_lines();
        assert_eq!(g.score, points);
        assert_eq!(g.lines, n as u32);
    }
}

#[test]
fn clearing_separated_rows() {
    let mut g = game_with(1);
    g.board[19] = [1; COLS];
    g.board[18][2] = 4;
    g.board[17] = [1; COLS];
    g.clear_lines();
    assert_eq!(g.board[19][2], 4);
    assert_eq!((g.score, g.lines), (300, 2));
}

#[test]
fn no_full_row_changes_nothing() {
    let mut g = game_with(1);
    g.board[19][0] = 1;
    g.clear_lines();
    assert_eq!(g.board[19][0], 1);
    assert_eq!((g.score, g.lines, g.level), (0, 0, 1));
}

#[test]
fn level_and_speed_follow_lines() {
    let mut g = game_with(1);
    g.lines = 9;
    g.board[19] = [1; COLS];
    g.clear_lines();
    // Points are weighted by the level before the clear.
    assert_eq!((g.score, g.lines, g.level, g.tick_ms), (100, 10, 2, 460));
}

#[test]
fn speed_bottoms_out_at_80() {
    let mut g = game_with(1);
    g.lines = 199;
    g.level = 20;
    g.tick_ms = 80;
    g.board[19] = [1; COLS];
    g.clear_lines();
    assert_eq!((g.level, g.tick_ms), (21, 80));
    assert_eq!(g.score, 100 * 20);
}

#[test]
fn row_is_full_checks_every_cell() {
    assert!(row_is_full(&[1; COLS]));
    let mut r = [7u8; COLS];
    r[9] = 0;
    assert!(!row_is_full(&r));
    assert!(!row_is_full(&[0; COLS]));
}

#[test]
fn fits_respects_walls_floor_and_cells() {
    let mut g = game_with(1);
    assert!(g.fits(1, 0, -1, 0));
    assert!(!g.fits(1, 0, -2, 0));
    assert!(!g.fits(1, 0, 8, 0));
    assert!(!g.fits(1, 0, 3, 19));
    // Cells above the top are allowed.
    assert!(g.fits(1, 0, 3, -1));
    g.board[5][4] = 1;
    assert!(!g.fits(1, 0, 3, 4));
}

/// A game whose next spawn cannot fit: the spawn area is filled and the
/// falling O piece is out of its way.
fn game_about_to_end() -> Game {
    let mut g = game_with(1);
    for x in 3..7 {
        g.board[0][x] = 6;
        g.board[1][x] = 6;
    }
    g.cx = -1;
    g.cy = 5;
    g
}

#[test]
fn spawn_into_blocked_cells_ends_the_game() {
    let mut g = game_about_to_end();
    g.hard_drop();
    assert!(g.game_over);
    assert!(!g.gravity_due(1_000_000, 0));
}

#[test]
fn game_over_ignores_keys_but_restart() {
    let mut g = game_about_to_end();
    g.hard_drop();
    let board = g.board;
    let resp = g.handle_key(Key::Left, 0);
    assert!(!resp.prevent_default && !resp.refocus);
    assert_eq!(g.board, board);
    assert!(g.game_over);
    let resp = g.handle_key(Key::Restart, 99);
    assert!(!resp.prevent_default && resp.refocus);
    assert!(!g.game_over);
    assert_eq!(g.score, 0);
    assert_eq!(g.seed, xorshift32(xorshift32(seed_from_time(99))));
}

#[test]
fn keys_move_and_prevent_default() {
    let mut g = game_with(1);
    let r = g.handle_key(Key::Left, 0);
    assert!(r.prevent_default && !r.refocus);
    assert_eq!(g.cx, 2);
    g.handle_key(Key::Right, 0);
    g.handle_key(Key::Right, 0);
    assert_eq!(g.cx, 4);
    g.handle_key(Key::Down, 0);
    assert_eq!(g.cy, 1);
    let r = g.handle_key(Key::Other, 0);
    assert!(!r.prevent_default);
    assert_eq!((g.cx, g.cy), (4, 1));
    let r = g.handle_key(Key::Drop, 0);
    assert!(r.prevent_default);
    assert_eq!(g.board[19][5], 2);
}

#[test]
fn restart_key_while_playing_does_not_refocus() {
    let mut g = game_with(1);
    g.score = 700;
    let r = g.handle_key(Key::Restart, 5);
    assert!(!r.prevent_default && !r.refocus);
    assert_eq!(g.score, 0);
}

#[test]
fn key_names() {
    assert_eq!(key_of("ArrowLeft"), Key::Left);
    assert_eq!(key_of("ArrowRight"), Key::Right);
    assert_eq!(key_of("ArrowDown"), Key::Down);
    assert_eq!(key_of("ArrowUp"), Key::Rotate);
    assert_eq!(key_of(" "), Key::Drop);
    assert_eq!(key_of("r"), Key::Restart);
    assert_eq!(key_of("R"), Key::Restart);
    assert_eq!(key_of("Enter"), Key::Other);
    assert_eq!(key_of(""), Key::Other);
    assert_eq!(key_of("arrowleft"), Key::Other);
}

#[test]
fn gravity_waits_for_the_interval() {
    let g = game_with(1);
    assert!(g.gravity_due(900, 400));
    assert!(!g.gravity_due(899, 400));
    assert!(!g.gravity_due(100, 400));
}

#[test]
fn draw_cells_lists_board_shadow_then_piece() {
    let mut g = game_with(1);
    g.board[19][0] = 3;
    let cells = g.draw_cells();
    assert_eq!(cells.len(), 9);
    assert_eq!(cells[0], CellDraw { x: 0, y: 19, color: 2, shadow: false });
    assert_eq!(cells[1], CellDraw { x: 4, y: 18, color: 1, shadow: true });
    assert!(cells[1..5].iter().all(|c| c.shadow && c.y >= 18));
    assert_eq!(cells[5], CellDraw { x: 4, y: 0, color: 1, shadow: false });
    assert_eq!(cells[8], CellDraw { x: 5, y: 1, color: 1, shadow: false });
}

#[test]
fn draw_cells_skips_cells_above_the_top() {
    let mut g = game_with(1);
    g.cy = -1;
    let cells = g.draw_cells();
    // Shadow: four cells; piece: only its lower row is on the board.
    assert_eq!(cells.len(), 6);
    assert!(cells[4..].iter().all(|c| c.y == 0 && !c.shadow));
}

#[test]
fn a_move_is_undone_by_the_opposite_move() {
    let mut g = game_with(2);
    let before = (g.cx, g.cy, g.rotation, g.board);
    assert!(g.move_piece(1, 0));
    assert!(g.move_piece(-1, 0));
    assert!(g.move_piece(0, 1));
    assert!(g.move_piece(0, -1));
    assert_eq!((g.cx, g.cy, g.rotation, g.board), before);
}

#[test]
fn no_row_is_full_after_clearing() {
    let mut g = game_with(1);
    for y in 12..ROWS {
        g.board[y] = [4; COLS];
    }
    g.board[15][3] = 0;
    g.clear_lines();
    assert!(g.board.iter().all(|row| !row_is_full(row)));
    assert_eq!(g.lines, 7);
    // Four or more rows at once score nothing beyond four.
    assert_eq!(g.score, 0);
}

#[test]
fn keys_work_with_the_score_at_its_limit() {
    let mut g = game_with(1);
    g.score = u32::MAX;
    g.lines = u32::MAX - 1;
    g.handle_key(Key::Left, 0);
    assert_eq!(g.cx, 2);
    g.handle_key(Key::Rotate, 0);
    g.handle_key(Key::Down, 0);
    assert_eq!(g.cy, 1);
    // A drop that clears nothing has room.
    assert!(g.drop_has_room());
    g.handle_key(Key::Drop, 0);
    assert_eq!(g.score, u32::MAX);
}

#[test]
fn restart_after_game_over_at_the_limit() {
    let mut g = game_about_to_end();
    g.hard_drop();
    g.score = u32::MAX;
    let r = g.handle_key(Key::Restart, 3);
    assert!(r.refocus);
    assert_eq!(g.score, 0);
}

#[test]
fn room_is_bounded_by_what_the_clear_earns() {
    // Row 19 lacks columns 4 and 5, which the O piece fills when dropped.
    let mut g = game_with(1);
    for x in 0..COLS {
        if x != 4 && x != 5 {
            g.board[19][x] = 1;
        }
    }
    g.score = u32::MAX - 100;
    assert!(g.drop_has_room());
    g.score = u32::MAX - 99;
    assert!(!g.drop_has_room());
    g.score = u32::MAX - 100;
    g.hard_drop();
    assert_eq!(g.score, u32::MAX);
    assert_eq!(g.lines, 1);
}

#[test]
fn tick_room_only_matters_when_the_piece_locks() {
    let mut g = game_with(1);
    for x in 0..COLS {
        if x != 4 && x != 5 {
            g.board[19][x] = 1;
        }
    }
    g.score = u32::MAX;
    assert!(g.tick_has_room());
    g.cy = 18;
    assert!(!g.tick_has_room());
    g.score = 0;
    assert!(g.tick_has_room());
}

#[test]
fn clear_lines_at_the_limit_without_full_rows() {
    let mut g = game_with(1);
    g.score = u32::MAX;
    g.lines = u32::MAX;
    g.board[19][0] = 1;
    g.clear_lines();
    assert_eq!((g.score, g.lines), (u32::MAX, u32::MAX));
}

#[test]
fn counting_full_rows() {
    let mut g = game_with(1);
    assert_eq!(full_row_count(&g.board), 0);
    g.board[3] = [1; COLS];
    g.board[19] = [2; COLS];
    g.board[10][0] = 1;
    assert_eq!(full_row_count(&g.board), 2);
}
