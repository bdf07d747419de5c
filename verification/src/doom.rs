//! The grid world of the raycaster: the map, wall colours, the movement
//! keys, and the minimap drawn over the frame.
//!
//! Casting rays and shading the frame work in floating point and are the
//! host's.
use crate::text::str_eq;
use vstd::prelude::*;

verus! {

/// Frame width in pixels.
pub const W: usize = 640;

/// Frame height in pixels.
pub const H: usize = 400;

/// Map width in tiles.
pub const MAP_W: usize = 16;

/// Map height in tiles.
pub const MAP_H: usize = 16;

/// Tiles of the map.
pub const MAP_LEN: usize = 256;

/// The map, row by row: 0 is open floor, `1 ..= 5` a wall of that kind.
pub const MAP: [u8; MAP_LEN] = [
    1,1,1,1,1,1,1,1,1,1,1,1,1,1,1,1,
    1,0,0,0,0,0,0,0,0,0,0,0,0,0,0,1,
    1,0,0,0,0,0,0,0,0,0,0,0,0,0,0,1,
    1,0,0,2,2,0,0,0,0,0,3,3,3,0,0,1,
    1,0,0,2,0,0,0,0,0,0,0,0,3,0,0,1,
    1,0,0,0,0,0,0,0,0,0,0,0,0,0,0,1,
    1,0,0,0,0,0,4,4,4,0,0,0,0,0,0,1,
    1,0,0,0,0,0,4,0,4,0,0,0,0,0,0,1,
    1,0,0,0,0,0,4,0,4,0,0,0,0,0,0,1,
    1,0,0,0,0,0,0,0,0,0,0,0,0,0,0,1,
    1,0,0,5,0,0,0,0,0,0,0,5,0,0,0,1,
    1,0,0,5,0,0,0,0,0,0,0,5,0,0,0,1,
    1,0,0,5,5,5,0,0,0,5,5,5,0,0,0,1,
    1,0,0,0,0,0,0,0,0,0,0,0,0,0,0,1,
    1,0,0,0,0,0,0,0,0,0,0,0,0,0,0,1,
    1,1,1,1,1,1,1,1,1,1,1,1,1,1,1,1,
];

/// The tile at `(x, y)`; everything off the map is wall 1.
pub open spec fn tile(x: int, y: int) -> u8 {
    if 0 <= x < MAP_W && 0 <= y < MAP_H {
        MAP[y * MAP_W + x]
    } else {
        1
    }
}

/// The tile at column `x`, row `y`; off the map it is wall 1.
pub fn map_at(x: usize, y: usize) -> (t: u8)
    ensures
        t == tile(x as int, y as int),
{
    if x >= MAP_W || y >= MAP_H {
        return 1;
    }
    MAP[y * MAP_W + x]
}

/// The base colour of wall kind `wall`.
pub open spec fn base_rgb(wall: u8) -> (u8, u8, u8) {
    if wall == 1 {
        (140, 140, 150)
    } else if wall == 2 {
        (180, 60, 60)
    } else if wall == 3 {
        (60, 140, 180)
    } else if wall == 4 {
        (80, 160, 80)
    } else if wall == 5 {
        (180, 140, 60)
    } else {
        (100, 100, 100)
    }
}

/// Three quarters of a colour component, rounded down.
pub open spec fn darker(c: u8) -> u8 {
    (c * 3 / 4) as u8
}

/// The colour of wall kind `wall`; faces hit on the east-west side are
/// darkened to three quarters.
pub open spec fn wall_rgb(wall: u8, side: bool) -> (u8, u8, u8) {
    let (r, g, b) = base_rgb(wall);
    if side {
        (darker(r), darker(g), darker(b))
    } else {
        (r, g, b)
    }
}

/// The colour of wall kind `wall`, darkened on the east-west side.
pub fn wall_color(wall: u8, side: bool) -> (c: (u8, u8, u8))
    ensures
        c == wall_rgb(wall, side),
{
    let (r, g, b): (u8, u8, u8) = match wall {
        1 => (140, 140, 150),
        2 => (180, 60, 60),
        3 => (60, 140, 180),
        4 => (80, 160, 80),
        5 => (180, 140, 60),
        _ => (100, 100, 100),
    };
    if side {
        (((r as u16) * 3 / 4) as u8, ((g as u16) * 3 / 4) as u8, ((b as u16) * 3 / 4) as u8)
    } else {
        (r, g, b)
    }
}

// ── Movement keys ─────────────────────────────────────────────────

/// Which movement keys are held.
#[derive(PartialEq, Eq, Structural, Clone, Copy, Debug)]
pub struct Controls {
    pub forward: bool,
    pub backward: bool,
    pub left: bool,
    pub right: bool,
    pub strafe_left: bool,
    pub strafe_right: bool,
}

/// The controls after the key named `name` goes down (`pressed`) or up:
/// W or arrow up moves forward, S or arrow down backward, A and D strafe,
/// arrow left and right turn; other keys change nothing.
pub open spec fn after_key(c: Controls, name: Seq<char>, pressed: bool) -> Controls {
    if name == "w"@ || name == "W"@ || name == "ArrowUp"@ {
        Controls { forward: pressed, ..c }
    } else if name == "s"@ || name == "S"@ || name == "ArrowDown"@ {
        Controls { backward: pressed, ..c }
    } else if name == "a"@ || name == "A"@ {
        Controls { strafe_left: pressed, ..c }
    } else if name == "d"@ || name == "D"@ {
        Controls { strafe_right: pressed, ..c }
    } else if name == "ArrowLeft"@ {
        Controls { left: pressed, ..c }
    } else if name == "ArrowRight"@ {
        Controls { right: pressed, ..c }
    } else {
        c
    }
}

impl Controls {
    /// No key held.
    pub fn new() -> (c: Controls)
        ensures
            !c.forward && !c.backward && !c.left && !c.right && !c.strafe_left && !c.strafe_right,
    {
        Controls { forward: false, backward: false, left: false, right: false, strafe_left: false, strafe_right: false }
    }

    /// Records that the key named `name` went down (`pressed`) or up.
    pub fn apply_key(&mut self, name: &str, pressed: bool)
        ensures
            *final(self) == after_key(*old(self), name@, pressed),
    {
        if str_eq(name, "w") || str_eq(name, "W") || str_eq(name, "ArrowUp") {
            self.forward = pressed;
        } else if str_eq(name, "s") || str_eq(name, "S") || str_eq(name, "ArrowDown") {
            self.backward = pressed;
        } else if str_eq(name, "a") || str_eq(name, "A") {
            self.strafe_left = pressed;
        } else if str_eq(name, "d") || str_eq(name, "D") {
            self.strafe_right = pressed;
        } else if str_eq(name, "ArrowLeft") {
            self.left = pressed;
        } else if str_eq(name, "ArrowRight") {
            self.right = pressed;
        }
    }
}

/// Releasing a key after pressing it leaves the controls as releasing it
/// alone would: the press leaves no trace.
pub proof fn law_release_undoes_press(c: Controls, name: Seq<char>)
    ensures
        after_key(after_key(c, name, true), name, false) == after_key(c, name, false),
{
}

/// Each movement key sets exactly its control to whether it is down, and
/// leaves every other control as it was: W, w and arrow up move forward;
/// S, s and arrow down move backward; A and a strafe left; D and d strafe
/// right; arrow left and right turn.
pub proof fn law_key_bindings(c: Controls, pressed: bool)
    ensures
        after_key(c, "w"@, pressed) == (Controls { forward: pressed, ..c }),
        after_key(c, "W"@, pressed) == (Controls { forward: pressed, ..c }),
        after_key(c, "ArrowUp"@, pressed) == (Controls { forward: pressed, ..c }),
        after_key(c, "s"@, pressed) == (Controls { backward: pressed, ..c }),
        after_key(c, "S"@, pressed) == (Controls { backward: pressed, ..c }),
        after_key(c, "ArrowDown"@, pressed) == (Controls { backward: pressed, ..c }),
        after_key(c, "a"@, pressed) == (Controls { strafe_left: pressed, ..c }),
        after_key(c, "A"@, pressed) == (Controls { strafe_left: pressed, ..c }),
        after_key(c, "d"@, pressed) == (Controls { strafe_right: pressed, ..c }),
        after_key(c, "D"@, pressed) == (Controls { strafe_right: pressed, ..c }),
        after_key(c, "ArrowLeft"@, pressed) == (Controls { left: pressed, ..c }),
        after_key(c, "ArrowRight"@, pressed) == (Controls { right: pressed, ..c }),
{
    reveal_strlit("w");
    reveal_strlit("W");
    reveal_strlit("ArrowUp");
    reveal_strlit("s");
    reveal_strlit("S");
    reveal_strlit("ArrowDown");
    reveal_strlit("a");
    reveal_strlit("A");
    reveal_strlit("d");
    reveal_strlit("D");
    reveal_strlit("ArrowLeft");
    reveal_strlit("ArrowRight");
    let w = "w"@;
    let cw = "W"@;
    let up = "ArrowUp"@;
    let sl = "s"@;
    let cs = "S"@;
    let down = "ArrowDown"@;
    let al = "a"@;
    let ca = "A"@;
    let dl = "d"@;
    let cd = "D"@;
    let left = "ArrowLeft"@;
    let right = "ArrowRight"@;
    assert(w[0] != sl[0] && w[0] != cs[0] && cw[0] != sl[0] && cw[0] != cs[0]);
    assert(up[5] != down[5] && up[5] != left[5] && up[5] != right[5]);
    assert(down[5] != left[5] && down[5] != right[5] && left[5] != right[5]);
    assert(al[0] != w[0] && al[0] != cw[0] && al[0] != sl[0] && al[0] != cs[0]);
    assert(ca[0] != w[0] && ca[0] != cw[0] && ca[0] != sl[0] && ca[0] != cs[0]);
    assert(dl[0] != w[0] && dl[0] != cw[0] && dl[0] != sl[0] && dl[0] != cs[0] && dl[0] != al[0] && dl[0] != ca[0]);
    assert(cd[0] != w[0] && cd[0] != cw[0] && cd[0] != sl[0] && cd[0] != cs[0] && cd[0] != al[0] && cd[0] != ca[0]);
    assert(ca.len() == 1 && al.len() == 1 && dl.len() == 1 && cd.len() == 1);
    assert(up.len() == 7 && down.len() == 9 && left.len() == 9 && right.len() == 10);
    assert(ca != w);
    assert(ca != cw);
    assert(ca != up);
    assert(ca != sl);
    assert(ca != cs);
    assert(ca != down);
    assert(left != w && left != cw && left != up && left != sl && left != cs && left != down);
    assert(left != al);
    assert(left != ca);
    assert(left != dl);
    assert(left != cd);
    assert(right != w && right != cw && right != up && right != sl && right != cs && right != down);
    assert(right != al && right != ca && right != dl && right != cd && right != left);
}

// ── Minimap ───────────────────────────────────────────────────────

/// Pixels per tile on the minimap.
pub const SCALE: usize = 4;

/// Left edge of the minimap.
pub const OX: usize = 568;

/// Top edge of the minimap.
pub const OY: usize = 8;

/// Bytes of an RGBA frame.
pub const FRAME_LEN: usize = 1024000;

/// Component `k` of an RGBA colour.
pub open spec fn channel(rgba: (u8, u8, u8, u8), k: int) -> u8 {
    if k == 0 {
        rgba.0
    } else if k == 1 {
        rgba.1
    } else if k == 2 {
        rgba.2
    } else {
        rgba.3
    }
}

/// Pixel `(x, y)` lies on the minimap.
pub open spec fn on_minimap(x: int, y: int) -> bool {
    OX <= x < OX + MAP_W * SCALE && OY <= y < OY + MAP_H * SCALE
}

/// The minimap colour at pixel `(x, y)`: the tile's wall colour, or dark
/// floor, three quarters opaque.
pub open spec fn minimap_rgba(x: int, y: int) -> (u8, u8, u8, u8) {
    let t = tile((x - OX) / SCALE as int, (y - OY) / SCALE as int);
    if t > 0 {
        let (r, g, b) = wall_rgb(t, false);
        (r, g, b, 200)
    } else {
        (20, 22, 30, 200)
    }
}

/// `a / 8` rounded toward zero.
pub open spec fn div8(a: int) -> int {
    if a >= 0 {
        a / 8
    } else {
        -((-a) / 8)
    }
}

/// Pixel `(x, y)` is on the 3×3 player dot at `(ppx, ppy)`.
pub open spec fn on_dot(x: int, y: int, ppx: int, ppy: int) -> bool {
    ppx <= x < ppx + 3 && ppy <= y < ppy + 3
}

/// Pixel `(x, y)` is one of the eight points of the direction line from
/// `(ppx, ppy)` toward `(ppx + lx, ppy + ly)`.
pub open spec fn on_line(x: int, y: int, ppx: int, ppy: int, lx: int, ly: int) -> bool {
    exists|t: int| 0 <= t < 8 && x == ppx + #[trigger] div8(lx * t) && y == ppy + div8(ly * t)
}

/// The frame after the minimap is drawn over `old`: the direction line over
/// the player dot over the map tiles.
pub open spec fn with_minimap(old: Seq<u8>, ppx: int, ppy: int, lx: int, ly: int) -> Seq<u8> {
    Seq::new(
        old.len(),
        |i: int|
            {
                let x = (i / 4) % (W as int);
                let y = (i / 4) / (W as int);
                let k = i % 4;
                if on_line(x, y, ppx, ppy, lx, ly) {
                    channel((255, 200, 80, 255), k)
                } else if on_dot(x, y, ppx, ppy) {
                    channel((255, 80, 80, 255), k)
                } else if on_minimap(x, y) {
                    channel(minimap_rgba(x, y), k)
                } else {
                    old[i]
                }
            },
    )
}

/// The frame with pixel `(x, y)` set to `rgba`.
pub open spec fn with_pixel(old: Seq<u8>, x: int, y: int, rgba: (u8, u8, u8, u8)) -> Seq<u8> {
    Seq::new(
        old.len(),
        |i: int|
            if (i / 4) % (W as int) == x && (i / 4) / (W as int) == y {
                channel(rgba, i % 4)
            } else {
                old[i]
            },
    )
}

/// Sets pixel `(x, y)` of the frame to `rgba`.
fn put_pixel(pixels: &mut Vec<u8>, x: usize, y: usize, rgba: (u8, u8, u8, u8))
    requires
        old(pixels)@.len() == FRAME_LEN,
        x < W,
        y < H,
    ensures
        final(pixels)@ == with_pixel(old(pixels)@, x as int, y as int, rgba),
{
    let idx = (y * W + x) * 4;
    pixels.set(idx, rgba.0);
    pixels.set(idx + 1, rgba.1);
    pixels.set(idx + 2, rgba.2);
    pixels.set(idx + 3, rgba.3);
    proof {
        assert(pixels@ =~= with_pixel(old(pixels)@, x as int, y as int, rgba)) by {
            assert forall|i: int| 0 <= i < FRAME_LEN implies #[trigger] pixels@[i] == with_pixel(old(pixels)@, x as int, y as int, rgba)[i] by {
                let p = i / 4;
                if idx <= i < idx + 4 {
                    assert(p == y * W + x);
                    assert(p % (W as int) == x && p / (W as int) == y) by (nonlinear_arith)
                        requires p == y * W + x, x < W, W == 640;
                } else {
                    if p % (W as int) == x && p / (W as int) == y {
                        assert(p == y * W + x) by (nonlinear_arith)
                            requires p % (W as int) == x, p / (W as int) == y, W == 640;
                        assert(false);
                    }
                }
            }
        }
    }
}

/// The frame with the minimap tiles of rows above `cy`, and of row `cy`
/// left of `cx`, drawn over `old`.
pub open spec fn tiles_upto(old: Seq<u8>, cy: int, cx: int) -> Seq<u8> {
    Seq::new(
        old.len(),
        |i: int|
            {
                let x = (i / 4) % (W as int);
                let y = (i / 4) / (W as int);
                if on_minimap(x, y) && (y < cy || (y == cy && x < cx)) {
                    channel(minimap_rgba(x, y), i % 4)
                } else {
                    old[i]
                }
            },
    )
}

/// The frame with the player dot's pixels of rows above `ppy + dy`, and of
/// row `ppy + dy` left of `ppx + dx`, drawn over `old`.
pub open spec fn dot_upto(old: Seq<u8>, ppx: int, ppy: int, dy: int, dx: int) -> Seq<u8> {
    Seq::new(
        old.len(),
        |i: int|
            {
                let x = (i / 4) % (W as int);
                let y = (i / 4) / (W as int);
                if on_dot(x, y, ppx, ppy) && (y < ppy + dy || (y == ppy + dy && x < ppx + dx)) {
                    channel((255, 80, 80, 255), i % 4)
                } else {
                    old[i]
                }
            },
    )
}

/// The first `n` points of the direction line drawn over `old`.
pub open spec fn line_upto(old: Seq<u8>, ppx: int, ppy: int, lx: int, ly: int, n: int) -> Seq<u8> {
    Seq::new(
        old.len(),
        |i: int|
            {
                let x = (i / 4) % (W as int);
                let y = (i / 4) / (W as int);
                if exists|t: int| 0 <= t < n && x == ppx + #[trigger] div8(lx * t) && y == ppy + div8(ly * t) {
                    channel((255, 200, 80, 255), i % 4)
                } else {
                    old[i]
                }
            },
    )
}

/// `a / 8` rounded toward zero.
fn div8_exec(a: i32) -> (r: i32)
    requires
        -100 <= a <= 100,
    ensures
        r == div8(a as int),
{
    if a >= 0 {
        a / 8
    } else {
        -((-a) / 8)
    }
}

/// Draws the minimap over the frame: the map tiles, the player dot at
/// pixel `(ppx, ppy)`, and the direction line toward `(ppx + lx, ppy + ly)`.
/// The host works out the dot and the line from the player's position and
/// heading.  Pixels of the dot and the line that fall off the frame are
/// left out.
pub fn draw_minimap(pixels: &mut Vec<u8>, ppx: usize, ppy: usize, lx: i32, ly: i32)
    requires
        old(pixels)@.len() == FRAME_LEN,
        ppx + 8 <= i32::MAX,
        ppy + 8 <= i32::MAX,
        -8 <= lx <= 8,
        -8 <= ly <= 8,
    ensures
        final(pixels)@ == with_minimap(old(pixels)@, ppx as int, ppy as int, lx as int, ly as int),
{
    let ghost s0 = pixels@;
    // Map tiles.
    let mut y: usize = OY;
    proof {
        assert(pixels@ =~= tiles_upto(s0, OY as int, OX as int));
    }
    while y < OY + MAP_H * SCALE
        invariant
            OY <= y <= OY + MAP_H * SCALE,
            s0.len() == FRAME_LEN,
            pixels@ == tiles_upto(s0, y as int, OX as int),
        decreases OY + MAP_H * SCALE - y,
    {
        let mut x: usize = OX;
        while x < OX + MAP_W * SCALE
            invariant
                OY <= y < OY + MAP_H * SCALE,
                OX <= x <= OX + MAP_W * SCALE,
                s0.len() == FRAME_LEN,
                pixels@ == tiles_upto(s0, y as int, x as int),
            decreases OX + MAP_W * SCALE - x,
        {
            let wall = map_at((x - OX) / SCALE, (y - OY) / SCALE);
            let (r, g, b) = if wall > 0 {
                wall_color(wall, false)
            } else {
                (20, 22, 30)
            };
            let ghost before = pixels@;
            put_pixel(pixels, x, y, (r, g, b, 200));
            proof {
                assert(pixels@ =~= tiles_upto(s0, y as int, x + 1)) by {
                    assert forall|i: int| 0 <= i < FRAME_LEN implies #[trigger] pixels@[i] == tiles_upto(s0, y as int, x + 1)[i] by {
                        let px = (i / 4) % (W as int);
                        let py = (i / 4) / (W as int);
                        if px == x && py == y {
                            assert(minimap_rgba(px, py) == (r, g, b, 200u8));
                        }
                    }
                }
            }
            x = x + 1;
        }
        proof {
            assert(pixels@ =~= tiles_upto(s0, y + 1, OX as int));
        }
        y = y + 1;
    }
    let ghost s1 = pixels@;
    // Player dot.
    let mut dy: usize = 0;
    proof {
        assert(pixels@ =~= dot_upto(s1, ppx as int, ppy as int, 0, 0));
    }
    while dy < 3
        invariant
            dy <= 3,
            ppx + 8 <= i32::MAX,
            ppy + 8 <= i32::MAX,
            s1.len() == FRAME_LEN,
            pixels@ == dot_upto(s1, ppx as int, ppy as int, dy as int, 0),
        decreases 3 - dy,
    {
        let mut dx: usize = 0;
        while dx < 3
            invariant
                dy < 3,
                dx <= 3,
                ppx + 8 <= i32::MAX,
                ppy + 8 <= i32::MAX,
                s1.len() == FRAME_LEN,
                pixels@ == dot_upto(s1, ppx as int, ppy as int, dy as int, dx as int),
            decreases 3 - dx,
        {
            let px = ppx + dx;
            let py = ppy + dy;
            if px < W && py < H {
                put_pixel(pixels, px, py, (255, 80, 80, 255));
            }
            proof {
                assert(pixels@ =~= dot_upto(s1, ppx as int, ppy as int, dy as int, dx + 1));
            }
            dx = dx + 1;
        }
        proof {
            assert(pixels@ =~= dot_upto(s1, ppx as int, ppy as int, dy + 1, 0)) by {
                assert forall|i: int| 0 <= i < FRAME_LEN implies #[trigger] pixels@[i] == dot_upto(s1, ppx as int, ppy as int, dy + 1, 0)[i] by {
                    let px = (i / 4) % (W as int);
                    let py = (i / 4) / (W as int);
                }
            }
        }
        dy = dy + 1;
    }
    let ghost s2 = pixels@;
    // Direction line.
    let mut t: i32 = 0;
    proof {
        assert(pixels@ =~= line_upto(s2, ppx as int, ppy as int, lx as int, ly as int, 0));
    }
    while t < 8
        invariant
            0 <= t <= 8,
            ppx + 8 <= i32::MAX,
            ppy + 8 <= i32::MAX,
            -8 <= lx <= 8,
            -8 <= ly <= 8,
            s2.len() == FRAME_LEN,
            pixels@ == line_upto(s2, ppx as int, ppy as int, lx as int, ly as int, t as int),
        decreases 8 - t,
    {
        proof {
            assert(-64 <= lx * t <= 64) by (nonlinear_arith)
                requires -8 <= lx <= 8, 0 <= t < 8;
            assert(-64 <= ly * t <= 64) by (nonlinear_arith)
                requires -8 <= ly <= 8, 0 <= t < 8;
        }
        let vx = ppx as i32 + div8_exec(lx * t);
        let vy = ppy as i32 + div8_exec(ly * t);
        if vx >= 0 && vy >= 0 && (vx as usize) < W && (vy as usize) < H {
            put_pixel(pixels, vx as usize, vy as usize, (255, 200, 80, 255));
        }
        proof {
            assert(pixels@ =~= line_upto(s2, ppx as int, ppy as int, lx as int, ly as int, t + 1)) by {
                assert forall|i: int| 0 <= i < FRAME_LEN implies #[trigger] pixels@[i] == line_upto(s2, ppx as int, ppy as int, lx as int, ly as int, t + 1)[i] by {
                    let px = (i / 4) % (W as int);
                    let py = (i / 4) / (W as int);
                    if px == vx && py == vy {
                        assert(px == ppx + div8(lx * t) && py == ppy + div8(ly * t));
                    }
                    if exists|u: int| 0 <= u < t + 1 && px == ppx + #[trigger] div8(lx * u) && py == ppy + div8(ly * u) {
                        let u = choose|u: int| 0 <= u < t + 1 && px == ppx + #[trigger] div8(lx * u) && py == ppy + div8(ly * u);
                        if u < t {
                            assert(exists|v: int| 0 <= v < t && px == ppx + #[trigger] div8(lx * v) && py == ppy + div8(ly * v));
                        }
                    }
                }
            }
        }
        t = t + 1;
    }
    proof {
        assert(pixels@ =~= with_minimap(s0, ppx as int, ppy as int, lx as int, ly as int)) by {
            assert forall|i: int| 0 <= i < FRAME_LEN implies #[trigger] pixels@[i] == with_minimap(s0, ppx as int, ppy as int, lx as int, ly as int)[i] by {
                let px = (i / 4) % (W as int);
                let py = (i / 4) / (W as int);
                assert(py < H) by (nonlinear_arith)
                    requires 0 <= i < FRAME_LEN, py == (i / 4) / (W as int), W == 640, FRAME_LEN == 1024000;
            }
        }
    }
}

/// Away from the player dot and the direction line, the minimap pixel
/// `(dx, dy)` of the tile in column `tx` and row `ty` shows that tile of
/// the map, row by row, column by column: a wall in its colour, floor in
/// dark blue-grey, three quarters opaque.
pub proof fn law_minimap_shows_the_map(
    old: Seq<u8>,
    ppx: int,
    ppy: int,
    lx: int,
    ly: int,
    tx: int,
    ty: int,
    dx: int,
    dy: int,
)
    requires
        old.len() == FRAME_LEN,
        0 <= tx < MAP_W,
        0 <= ty < MAP_H,
        0 <= dx < SCALE,
        0 <= dy < SCALE,
        !on_dot(OX + SCALE * tx + dx, OY + SCALE * ty + dy, ppx, ppy),
        !on_line(OX + SCALE * tx + dx, OY + SCALE * ty + dy, ppx, ppy, lx, ly),
    ensures
        ({
            let i = 4 * ((OY + SCALE * ty + dy) * W + OX + SCALE * tx + dx);
            let t = MAP[ty * 16 + tx];
            let new = with_minimap(old, ppx, ppy, lx, ly);
            &&& 0 <= i && i + 3 < FRAME_LEN
            &&& t > 0 ==> new[i] == base_rgb(t).0 && new[i + 1] == base_rgb(t).1 && new[i + 2] == base_rgb(t).2
            &&& t == 0 ==> new[i] == 20 && new[i + 1] == 22 && new[i + 2] == 30
            &&& new[i + 3] == 200
        }),
{
    let x = OX + SCALE * tx + dx;
    let y = OY + SCALE * ty + dy;
    let pix = y * W + x;
    assert(0 <= pix < W * H) by (nonlinear_arith)
        requires pix == y * W + x, 0 <= x < W, 0 <= y < H, W == 640, H == 400;
    assert forall|k: int| 0 <= k < 4 implies (#[trigger] (4 * pix + k) / 4) == pix && (4 * pix + k) % 4 == k by {}
    assert(pix % (W as int) == x && pix / (W as int) == y) by (nonlinear_arith)
        requires pix == y * W + x, 0 <= x < W, W == 640;
    assert((x - OX) / (SCALE as int) == tx && (y - OY) / (SCALE as int) == ty);
    assert(on_minimap(x, y));
}

} // verus!
