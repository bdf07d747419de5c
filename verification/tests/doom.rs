use oxvoid::doom::{draw_minimap, map_at, wall_color, Controls, FRAME_LEN, H, MAP, MAP_H, MAP_W, OX, OY, SCALE, W};

fn pixel(p: &[u8], x: usize, y: usize) -> [u8; 4] {
    let i = (y * W + x) * 4;
    [p[i], p[i + 1], p[i + 2], p[i + 3]]
}

#[test]
fn map_border_is_wall() {
    for i in 0..MAP_W {
        assert_eq!(map_at(i, 0), 1);
        assert_eq!(map_at(i, MAP_H - 1), 1);
        assert_eq!(map_at(0, i), 1);
        assert_eq!(map_at(MAP_W - 1, i), 1);
    }
    assert_eq!(map_at(1, 1), 0);
    assert_eq!(map_at(3, 3), 2);
    assert_eq!(map_at(10, 3), 3);
    assert_eq!(map_at(6, 6), 4);
    assert_eq!(map_at(3, 10), 5);
    assert_eq!(map_at(7, 7), 0);
}

#[test]
fn off_the_map_is_wall() {
    assert_eq!(map_at(16, 5), 1);
    assert_eq!(map_at(5, 16), 1);
    assert_eq!(map_at(usize::MAX, usize::MAX), 1);
}

#[test]
fn map_has_the_expected_size() {
    assert_eq!(MAP.len(), MAP_W * MAP_H);
    assert_eq!(FRAME_LEN, W * H * 4);
    assert_eq!(OX, W - MAP_W * SCALE - 8);
}

#[test]
fn wall_colors() {
    assert_eq!(wall_color(1, false), (140, 140, 150));
    assert_eq!(wall_color(2, false), (180, 60, 60));
    assert_eq!(wall_color(3, false), (60, 140, 180));
    assert_eq!(wall_color(4, false), (80, 160, 80));
    assert_eq!(wall_color(5, false), (180, 140, 60));
    assert_eq!(wall_color(9, false), (100, 100, 100));
}

#[test]
fn east_west_faces_are_darker() {
    assert_eq!(wall_color(1, true), (105, 105, 112));
    assert_eq!(wall_color(2, true), (135, 45, 45));
    assert_eq!(wall_color(4, true), (60, 120, 60));
    assert_eq!(wall_color(0, true), (75, 75, 75));
}

#[test]
fn controls_follow_keys() {
    let mut c = Controls::new();
    assert_eq!(c, Controls { forward: false, backward: false, left: false, right: false, strafe_left: false, strafe_right: false });
    c.apply_key("w", true);
    assert!(c.forward);
    c.apply_key("ArrowUp", false);
    assert!(!c.forward);
    c.apply_key("S", true);
    assert!(c.backward);
    c.apply_key("a", true);
    c.apply_key("D", true);
    assert!(c.strafe_left && c.strafe_right);
    c.apply_key("ArrowLeft", true);
    c.apply_key("ArrowRight", true);
    assert!(c.left && c.right);
    let before = c;
    c.apply_key("q", false);
    c.apply_key("Shift", false);
    assert_eq!(c, before);
}

#[test]
fn minimap_draws_tiles_dot_and_line() {
    let mut pixels = vec![0u8; FRAME_LEN];
    // Player at (8, 8) looking east: dot at OX + 32, OY + 32; line 8 long.
    let ppx = OX + 32;
    let ppy = OY + 32;
    draw_minimap(&mut pixels, ppx, ppy, 8, 0);
    // Top-left tile is wall 1.
    assert_eq!(pixel(&pixels, OX, OY), [140, 140, 150, 200]);
    assert_eq!(pixel(&pixels, OX + 3, OY + 3), [140, 140, 150, 200]);
    // Tile (1, 1) is floor.
    assert_eq!(pixel(&pixels, OX + 4, OY + 4), [20, 22, 30, 200]);
    // Tile (3, 3) is wall 2.
    assert_eq!(pixel(&pixels, OX + 12, OY + 12), [180, 60, 60, 200]);
    // The line starts on the dot and covers it along its row.
    assert_eq!(pixel(&pixels, ppx, ppy), [255, 200, 80, 255]);
    assert_eq!(pixel(&pixels, ppx + 7, ppy), [255, 200, 80, 255]);
    assert_eq!(pixel(&pixels, ppx + 8, ppy), [20, 22, 30, 200]);
    // The rest of the dot.
    assert_eq!(pixel(&pixels, ppx, ppy + 1), [255, 80, 80, 255]);
    assert_eq!(pixel(&pixels, ppx + 2, ppy + 2), [255, 80, 80, 255]);
    // Outside the minimap nothing changes.
    assert_eq!(pixel(&pixels, OX - 1, OY), [0, 0, 0, 0]);
    assert_eq!(pixel(&pixels, 0, 0), [0, 0, 0, 0]);
    assert_eq!(pixel(&pixels, OX, OY + 64), [0, 0, 0, 0]);
}

#[test]
fn minimap_line_rounds_toward_zero() {
    let mut pixels = vec![7u8; FRAME_LEN];
    let ppx = OX + 40;
    let ppy = OY + 40;
    draw_minimap(&mut pixels, ppx, ppy, -5, -3);
    // t = 7: (-35 / 8, -21 / 8) = (-4, -2).
    assert_eq!(pixel(&pixels, ppx - 4, ppy - 2), [255, 200, 80, 255]);
    // t = 2: (-10 / 8, -6 / 8) = (-1, 0).
    assert_eq!(pixel(&pixels, ppx - 1, ppy), [255, 200, 80, 255]);
    // (-5, -3) itself is not reached.
    assert_ne!(pixel(&pixels, ppx - 5, ppy - 3), [255, 200, 80, 255]);
}

#[test]
fn minimap_dot_is_clipped_at_the_frame_edge() {
    let mut pixels = vec![1u8; FRAME_LEN];
    draw_minimap(&mut pixels, W - 1, H - 1, 0, 0);
    assert_eq!(pixel(&pixels, W - 1, H - 1), [255, 200, 80, 255]);
    assert_eq!(pixel(&pixels, W - 2, H - 1), [1, 1, 1, 1]);
    assert_eq!(pixels.len(), FRAME_LEN);
}

#[test]
fn release_after_press_is_release_alone() {
    for name in ["w", "ArrowDown", "a", "D", "ArrowLeft", "ArrowRight", "x"] {
        let mut held = Controls::new();
        held.apply_key("s", true);
        let mut pressed_then_released = held;
        pressed_then_released.apply_key(name, true);
        pressed_then_released.apply_key(name, false);
        let mut released = held;
        released.apply_key(name, false);
        assert_eq!(pressed_then_released, released);
    }
}

#[test]
fn minimap_tiles_are_drawn_when_the_dot_is_off_the_frame() {
    let mut pixels = vec![0u8; FRAME_LEN];
    draw_minimap(&mut pixels, W + 5, H + 5, 0, 0);
    assert_eq!(pixel(&pixels, OX, OY), [140, 140, 150, 200]);
    assert_eq!(pixel(&pixels, W - 1, H - 1), [0, 0, 0, 0]);
}
