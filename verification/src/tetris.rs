//! Falling-blocks game logic: the board, the pieces, moves, rotation with
//! wall kicks, locking, line clearing and scoring.
use crate::rng::{seed_from_time, xorshift, xorshift32};
use crate::text::str_eq;
use vstd::prelude::*;

verus! {

/// Columns of the board.
pub const COLS: usize = 10;

/// Rows of the board.
pub const ROWS: usize = 20;

/// The seven pieces (I, O, T, S, Z, J, L); for each, four rotations; for
/// each rotation, the four `(column, row)` offsets of its cells.
pub const PIECES: [[[(i32, i32); 4]; 4]; 7] = [
    [[(0,1),(1,1),(2,1),(3,1)], [(2,0),(2,1),(2,2),(2,3)], [(0,2),(1,2),(2,2),(3,2)], [(1,0),(1,1),(1,2),(1,3)]],
    [[(1,0),(2,0),(1,1),(2,1)], [(1,0),(2,0),(1,1),(2,1)], [(1,0),(2,0),(1,1),(2,1)], [(1,0),(2,0),(1,1),(2,1)]],
    [[(0,1),(1,1),(2,1),(1,0)], [(1,0),(1,1),(1,2),(2,1)], [(0,1),(1,1),(2,1),(1,2)], [(1,0),(1,1),(1,2),(0,1)]],
    [[(1,0),(2,0),(0,1),(1,1)], [(1,0),(1,1),(2,1),(2,2)], [(1,1),(2,1),(0,2),(1,2)], [(0,0),(0,1),(1,1),(1,2)]],
    [[(0,0),(1,0),(1,1),(2,1)], [(2,0),(1,1),(2,1),(1,2)], [(0,1),(1,1),(1,2),(2,2)], [(1,0),(0,1),(1,1),(0,2)]],
    [[(0,0),(0,1),(1,1),(2,1)], [(1,0),(2,0),(1,1),(1,2)], [(0,1),(1,1),(2,1),(2,2)], [(1,0),(1,1),(0,2),(1,2)]],
    [[(2,0),(0,1),(1,1),(2,1)], [(1,0),(1,1),(1,2),(2,2)], [(0,1),(1,1),(2,1),(0,2)], [(0,0),(1,0),(1,1),(1,2)]],
];

/// The offset of cell `k` of piece `p` in rotation `r`.
pub open spec fn piece_cell(p: int, r: int, k: int) -> (i32, i32) {
    PIECES[p][r][k]
}

/// Every offset lies in `0 ..= 3`.
pub proof fn lemma_offsets_small(p: int, r: int, k: int)
    requires
        0 <= p < 7,
        0 <= r < 4,
        0 <= k < 4,
    ensures
        0 <= piece_cell(p, r, k).0 <= 3,
        0 <= piece_cell(p, r, k).1 <= 3,
{
}

/// The offset of cell `k` of piece `p` in rotation `r`.
pub fn offset(p: usize, r: usize, k: usize) -> (o: (i32, i32))
    requires
        p < 7,
        r < 4,
        k < 4,
    ensures
        o == piece_cell(p as int, r as int, k as int),
{
    PIECES[p][r][k]
}

/// The rows of a board as sequences of cells.
pub open spec fn rows_of(b: [[u8; COLS]; ROWS]) -> Seq<Seq<u8>> {
    b@.map_values(|row: [u8; COLS]| row@)
}

/// Cell `(x, y)` can hold a cell of a piece: it is within the walls and
/// above the floor, and empty if it is on the board (rows above the top are
/// open).
pub open spec fn cell_free(b: Seq<Seq<u8>>, x: int, y: int) -> bool {
    &&& 0 <= x < COLS
    &&& y < ROWS
    &&& (y >= 0 ==> b[y][x] == 0)
}

/// Piece `p` in rotation `r` at `(cx, cy)` fits on board `b`.
pub open spec fn fits_at(b: Seq<Seq<u8>>, p: int, r: int, cx: int, cy: int) -> bool {
    forall|k: int|
        0 <= k < 4 ==> cell_free(b, cx + #[trigger] piece_cell(p, r, k).0, cy + piece_cell(p, r, k).1)
}

/// A row with no empty cell.
pub open spec fn row_full(row: Seq<u8>) -> bool {
    forall|x: int| 0 <= x < COLS ==> #[trigger] row[x] != 0
}

/// A row of empty cells.
pub open spec fn empty_row() -> Seq<u8> {
    Seq::new(COLS as nat, |x: int| 0u8)
}

/// The rows of `rows` that are not full, in order.
pub open spec fn kept_rows(rows: Seq<Seq<u8>>) -> Seq<Seq<u8>>
    decreases rows.len(),
{
    if rows.len() == 0 {
        Seq::empty()
    } else if row_full(rows[0]) {
        kept_rows(rows.drop_first())
    } else {
        seq![rows[0]] + kept_rows(rows.drop_first())
    }
}

/// How many rows of `rows` are full.
pub open spec fn full_rows(rows: Seq<Seq<u8>>) -> int {
    rows.len() - kept_rows(rows).len()
}

/// The board with its full rows removed, the rows above them moved down,
/// and as many empty rows added at the top.
pub open spec fn cleared_rows(rows: Seq<Seq<u8>>) -> Seq<Seq<u8>> {
    Seq::new(full_rows(rows) as nat, |i: int| empty_row()) + kept_rows(rows)
}

/// Points for clearing `n` rows at once, before the level multiplier.
pub open spec fn line_points(n: int) -> int {
    if n == 1 {
        100
    } else if n == 2 {
        300
    } else if n == 3 {
        500
    } else if n == 4 {
        800
    } else {
        0
    }
}

/// Milliseconds between gravity steps at `level`: 500, 40 less for each
/// level above the first, never under 80.
pub open spec fn tick_interval(level: int) -> int {
    if 500 - (level - 1) * 40 >= 80 {
        500 - (level - 1) * 40
    } else {
        80
    }
}

/// The first horizontal kick, in the order 0, -1, 1, -2, 2, under which
/// piece `p` in rotation `r` fits at `(cx + kick, cy)`; `None` when none does.
pub open spec fn first_kick(b: Seq<Seq<u8>>, p: int, r: int, cx: int, cy: int) -> Option<int> {
    if fits_at(b, p, r, cx, cy) {
        Some(0)
    } else if fits_at(b, p, r, cx - 1, cy) {
        Some(-1)
    } else if fits_at(b, p, r, cx + 1, cy) {
        Some(1)
    } else if fits_at(b, p, r, cx - 2, cy) {
        Some(-2)
    } else if fits_at(b, p, r, cx + 2, cy) {
        Some(2)
    } else {
        None
    }
}

/// A piece that fits lies within the walls and above the floor.
pub proof fn lemma_fits_bounds(b: Seq<Seq<u8>>, p: int, r: int, cx: int, cy: int)
    requires
        0 <= p < 7,
        0 <= r < 4,
        fits_at(b, p, r, cx, cy),
    ensures
        cy < ROWS,
        -3 <= cx < COLS,
{
    lemma_offsets_small(p, r, 0);
    assert(cell_free(b, cx + piece_cell(p, r, 0).0, cy + piece_cell(p, r, 0).1));
}

/// The row that the piece comes to rest on when it falls, one row at a time,
/// from row `y`.
pub open spec fn landing_row(b: Seq<Seq<u8>>, p: int, r: int, cx: int, y: int) -> int
    decreases ROWS - y,
{
    if y < ROWS && 0 <= p < 7 && 0 <= r < 4 && fits_at(b, p, r, cx, y + 1) {
        landing_row(b, p, r, cx, y + 1)
    } else {
        y
    }
}

/// The landing row is at or below the start, the piece fits at every row
/// on the way down, and it cannot fall from the landing row.
pub proof fn lemma_landing_row(b: Seq<Seq<u8>>, p: int, r: int, cx: int, y: int)
    requires
        0 <= p < 7,
        0 <= r < 4,
        y < ROWS,
    ensures
        y <= landing_row(b, p, r, cx, y) < ROWS,
        !fits_at(b, p, r, cx, landing_row(b, p, r, cx, y) + 1),
        forall|z: int| y < z <= landing_row(b, p, r, cx, y) ==> fits_at(b, p, r, cx, z),
    decreases ROWS - y,
{
    if fits_at(b, p, r, cx, y + 1) {
        lemma_fits_bounds(b, p, r, cx, y + 1);
        lemma_landing_row(b, p, r, cx, y + 1);
    }
}

/// One of the first `n` cells of piece `p` in rotation `r` at `(cx, cy)`
/// is at `(x, y)`.
pub open spec fn covers_upto(p: int, r: int, cx: int, cy: int, x: int, y: int, n: int) -> bool {
    exists|k: int| 0 <= k < n && cx + #[trigger] piece_cell(p, r, k).0 == x && cy + piece_cell(p, r, k).1 == y
}

/// Piece `p` in rotation `r` at `(cx, cy)` has a cell at `(x, y)`.
pub open spec fn covers(p: int, r: int, cx: int, cy: int, x: int, y: int) -> bool {
    covers_upto(p, r, cx, cy, x, y, 4)
}

/// The board with each of the first `n` cells of piece `p` in rotation `r`
/// at `(cx, cy)` that lies on it set to `color`.
pub open spec fn locked_upto(b: Seq<Seq<u8>>, p: int, r: int, cx: int, cy: int, color: u8, n: int) -> Seq<Seq<u8>> {
    Seq::new(
        b.len(),
        |y: int| Seq::new(b[y].len(), |x: int| if covers_upto(p, r, cx, cy, x, y, n) { color } else { b[y][x] }),
    )
}

/// The board with every cell of piece `p` in rotation `r` at `(cx, cy)`
/// that lies on it set to `color`.
pub open spec fn locked_rows(b: Seq<Seq<u8>>, p: int, r: int, cx: int, cy: int, color: u8) -> Seq<Seq<u8>> {
    locked_upto(b, p, r, cx, cy, color, 4)
}

/// Whether every cell of `row` is filled.
pub fn row_is_full(row: &[u8; COLS]) -> (r: bool)
    ensures
        r == row_full(row@),
{
    let mut x: usize = 0;
    while x < COLS
        invariant
            x <= COLS,
            forall|i: int| 0 <= i < x ==> #[trigger] row@[i] != 0,
        decreases COLS - x,
    {
        if row[x] == 0 {
            return false;
        }
        x = x + 1;
    }
    true
}

/// `g` is a new game seeded from `time`: empty board, nothing scored,
/// level 1, the generator seeded with `time` times 2654435761 (wrapping) and
/// advanced twice, the first piece drawn at the first step and the next at
/// the second, the first piece at the top in its first rotation.
pub open spec fn fresh_game(g: Game, time: u32) -> bool {
    let s0 = time.wrapping_mul(2654435761);
    &&& g.seed == xorshift(xorshift(s0))
    &&& g.current == xorshift(s0) as usize % 7
    &&& g.next == g.seed as usize % 7
    &&& (forall|y: int, x: int| 0 <= y < ROWS && 0 <= x < COLS ==> #[trigger] rows_of(g.board)[y][x] == 0)
    &&& g.rotation == 0
    &&& g.cx == 3
    &&& g.cy == 0
    &&& g.score == 0
    &&& g.lines == 0
    &&& g.level == 1
    &&& g.tick_ms == 500
    &&& !g.game_over
}

/// `new` is `old` after its falling piece, moved to row `row`, was locked:
/// the piece's cells take its colour, full rows are cleared and scored, the
/// line count, level and speed follow, and the next piece is spawned.
pub open spec fn locked_from(old: Game, new: Game, row: int) -> bool {
    let b1 = locked_rows(rows_of(old.board), old.current as int, old.rotation as int, old.cx as int, row, (old.current + 1) as u8);
    let n = full_rows(b1);
    &&& rows_of(new.board) == cleared_rows(b1)
    &&& if n > 0 {
        &&& new.score == old.score + line_points(n) * old.level
        &&& new.lines == old.lines + n
        &&& new.level == 1 + new.lines / 10
        &&& new.tick_ms == tick_interval(new.level as int)
    } else {
        &&& new.score == old.score
        &&& new.lines == old.lines
        &&& new.level == old.level
        &&& new.tick_ms == old.tick_ms
    }
    &&& new.current == old.next
    &&& new.seed == xorshift(old.seed)
    &&& new.next == new.seed as usize % 7
    &&& new.rotation == 0
    &&& new.cx == 3
    &&& new.cy == 0
    &&& new.game_over == (old.game_over || !fits_at(rows_of(new.board), old.next as int, 0, 3, 0))
}

/// Every kept row is a row of the board.
pub proof fn lemma_kept_rows_from(rows: Seq<Seq<u8>>)
    ensures
        forall|i: int| 0 <= i < kept_rows(rows).len() ==> rows.contains(#[trigger] kept_rows(rows)[i]),
        forall|i: int| 0 <= i < kept_rows(rows).len() ==> !row_full(#[trigger] kept_rows(rows)[i]),
        kept_rows(rows).len() <= rows.len(),
    decreases rows.len(),
{
    if rows.len() > 0 {
        lemma_kept_rows_from(rows.drop_first());
        let k = kept_rows(rows);
        let t = kept_rows(rows.drop_first());
        assert forall|i: int| 0 <= i < k.len() implies rows.contains(#[trigger] k[i]) by {
            if !row_full(rows[0]) && i == 0 {
                assert(rows[0] == k[0]);
            } else {
                let ii = if row_full(rows[0]) { i } else { i - 1 };
                assert(k[i] == t[ii]);
                assert(rows.drop_first().contains(t[ii]));
                let j = choose|j: int| 0 <= j < rows.drop_first().len() && rows.drop_first()[j] == t[ii];
                assert(rows[j + 1] == t[ii]);
            }
        }
        assert forall|i: int| 0 <= i < k.len() implies !row_full(#[trigger] k[i]) by {
            if !row_full(rows[0]) && i == 0 {
            } else {
                let ii = if row_full(rows[0]) { i } else { i - 1 };
                assert(k[i] == t[ii]);
            }
        }
    }
}

/// Clearing keeps the board's shape and cell values within `0 ..= 7`.
pub proof fn lemma_cleared_cells(b: Seq<Seq<u8>>)
    requires
        b.len() == ROWS,
        forall|y: int| 0 <= y < ROWS ==> (#[trigger] b[y]).len() == COLS,
        forall|y: int, x: int| 0 <= y < ROWS && 0 <= x < COLS ==> #[trigger] b[y][x] <= 7,
    ensures
        cleared_rows(b).len() == ROWS,
        forall|y: int| 0 <= y < ROWS ==> (#[trigger] cleared_rows(b)[y]).len() == COLS,
        forall|y: int, x: int| 0 <= y < ROWS && 0 <= x < COLS ==> #[trigger] cleared_rows(b)[y][x] <= 7,
{
    lemma_kept_rows_from(b);
    let c = cleared_rows(b);
    let n = full_rows(b);
    assert forall|y: int| 0 <= y < ROWS implies (#[trigger] c[y]).len() == COLS && forall|x: int| 0 <= x < COLS ==> #[trigger] c[y][x] <= 7 by {
        if y >= n {
            assert(c[y] == kept_rows(b)[y - n]);
            let j = choose|j: int| 0 <= j < b.len() && b[j] == kept_rows(b)[y - n];
            assert(b[j].len() == COLS);
        }
    }
}

/// Locking with a colour up to 7 keeps the board's shape and cell values
/// within `0 ..= 7`.
pub proof fn lemma_locked_cells(b: Seq<Seq<u8>>, p: int, r: int, cx: int, cy: int, color: u8)
    requires
        b.len() == ROWS,
        forall|y: int| 0 <= y < ROWS ==> (#[trigger] b[y]).len() == COLS,
        forall|y: int, x: int| 0 <= y < ROWS && 0 <= x < COLS ==> #[trigger] b[y][x] <= 7,
        color <= 7,
    ensures
        locked_rows(b, p, r, cx, cy, color).len() == ROWS,
        forall|y: int| 0 <= y < ROWS ==> (#[trigger] locked_rows(b, p, r, cx, cy, color)[y]).len() == COLS,
        forall|y: int, x: int| 0 <= y < ROWS && 0 <= x < COLS ==> #[trigger] locked_rows(b, p, r, cx, cy, color)[y][x] <= 7,
{
}

/// How many rows of the board are full.
pub fn full_row_count(b: &[[u8; COLS]; ROWS]) -> (n: usize)
    ensures
        n == full_rows(rows_of(*b)),
{
    let ghost o = rows_of(*b);
    let mut i: usize = ROWS;
    let mut full: usize = 0;
    proof {
        assert(o.skip(ROWS as int) =~= Seq::<Seq<u8>>::empty());
    }
    while i > 0
        invariant
            i <= ROWS,
            o == rows_of(*b),
            o.len() == ROWS,
            full + kept_rows(o.skip(i as int)).len() == ROWS - i,
        decreases i,
    {
        i = i - 1;
        proof {
            let su = o.skip(i as int);
            assert(su.drop_first() =~= o.skip(i + 1));
            assert(su[0] == o[i as int]);
            assert(o[i as int] == b@[i as int]@);
        }
        if row_is_full(&b[i]) {
            full = full + 1;
        }
    }
    proof {
        assert(o.skip(0) =~= o);
    }
    full
}

/// The score and line count of `g` have room for clearing the full rows of
/// board `b`: the points they earn at `g`'s level and their number.
pub open spec fn room_for(g: Game, b: Seq<Seq<u8>>) -> bool {
    let n = full_rows(b);
    n > 0 ==> (g.score + line_points(n) * g.level <= u32::MAX && g.lines + n <= u32::MAX)
}

/// The score and line count of `g` have room for what locking its falling
/// piece at row `row` earns.
pub open spec fn lock_room(g: Game, row: int) -> bool {
    room_for(g, locked_rows(rows_of(g.board), g.current as int, g.rotation as int, g.cx as int, row, (g.current + 1) as u8))
}

// ── Game state ────────────────────────────────────────────────────

/// The state of a game.  The time of the last gravity step is the host's.
pub struct Game {
    /// `board[row][column]`: 0 is empty, `1 ..= 7` a locked cell of piece
    /// `value - 1`.
    pub board: [[u8; COLS]; ROWS],
    /// The falling piece, `0 .. 7`.
    pub current: usize,
    /// Its rotation, `0 .. 4`.
    pub rotation: usize,
    /// Its column.
    pub cx: i32,
    /// Its row.
    pub cy: i32,
    /// The piece after it.
    pub next: usize,
    pub score: u32,
    pub lines: u32,
    pub level: u32,
    pub game_over: bool,
    /// Milliseconds between gravity steps.
    pub tick_ms: u32,
    /// State of the piece generator.
    pub seed: u32,
}

impl Game {
    /// The state is consistent: pieces and rotations in range, cells hold
    /// piece colours, the level and speed follow the line count, the piece
    /// lies near the board, and unless the game is over it fits.
    pub open spec fn wf(&self) -> bool {
        &&& self.current < 7
        &&& self.next < 7
        &&& self.rotation < 4
        &&& (forall|y: int, x: int| 0 <= y < ROWS && 0 <= x < COLS ==> #[trigger] rows_of(self.board)[y][x] <= 7)
        &&& self.level == 1 + self.lines / 10
        &&& self.tick_ms == tick_interval(self.level as int)
        &&& -3 <= self.cx < COLS
        &&& self.cy < ROWS
        &&& (!self.game_over ==> self.fits_here())
    }

    /// The falling piece fits where it is.
    pub open spec fn fits_here(&self) -> bool {
        fits_at(rows_of(self.board), self.current as int, self.rotation as int, self.cx as int, self.cy as int)
    }

    /// Whether the score and line count have room for what locking the
    /// falling piece at row `row` earns.
    fn room_to_lock(&self, row: i32) -> (r: bool)
        requires
            self.current < 7,
            self.rotation < 4,
            -3 <= self.cx < COLS,
            row < ROWS,
        ensures
            r == lock_room(*self, row as int),
    {
        let mut g = Game { cy: row, ..*self };
        g.place();
        let n = full_row_count(&g.board);
        if n == 0 {
            return true;
        }
        let points: u64 = match n {
            1 => 100,
            2 => 300,
            3 => 500,
            4 => 800,
            _ => 0,
        };
        proof {
            assert(points * (self.level as u64) <= 800 * 0xffff_ffffu64) by (nonlinear_arith)
                requires points <= 800, self.level <= 0xffff_ffffu32;
        }
        (self.score as u64) + points * (self.level as u64) <= 0xffff_ffffu64
            && (self.lines as u64) + (n as u64) <= 0xffff_ffffu64
    }

    /// Whether a hard drop can score what it clears: the score and line
    /// count have room for the rows that locking the piece on its landing
    /// row fills.
    pub fn drop_has_room(&self) -> (r: bool)
        requires
            self.wf(),
        ensures
            r == lock_room(*self, landing_row(rows_of(self.board), self.current as int, self.rotation as int, self.cx as int, self.cy as int)),
    {
        proof {
            lemma_landing_row(rows_of(self.board), self.current as int, self.rotation as int, self.cx as int, self.cy as int);
        }
        let land = self.ghost_y();
        self.room_to_lock(land)
    }

    /// Whether a gravity step can score what it clears: either the piece
    /// moves down, or the score and line count have room for the rows that
    /// locking it where it is fills.
    pub fn tick_has_room(&self) -> (r: bool)
        requires
            self.wf(),
        ensures
            r == (fits_at(rows_of(self.board), self.current as int, self.rotation as int, self.cx as int, self.cy + 1)
                || lock_room(*self, self.cy as int)),
    {
        self.fits(self.current, self.rotation, self.cx, self.cy + 1) || self.room_to_lock(self.cy)
    }

    /// A new game: empty board, level 1, the generator seeded from `time`
    /// (the host's clock reading), the first two pieces drawn from it.
    pub fn new(time: u32) -> (g: Game)
        ensures
            g.wf(),
            fresh_game(g, time),
    {
        let seed = seed_from_time(time);
        let mut g = Game {
            board: [[0u8; COLS]; ROWS],
            current: 0,
            rotation: 0,
            cx: 3,
            cy: 0,
            next: 0,
            score: 0,
            lines: 0,
            level: 1,
            game_over: false,
            tick_ms: 500,
            seed,
        };
        g.current = g.rand_piece();
        g.next = g.rand_piece();
        proof {
            assert forall|k: int| 0 <= k < 4 implies cell_free(
                rows_of(g.board),
                3 + #[trigger] piece_cell(g.current as int, 0, k).0,
                0 + piece_cell(g.current as int, 0, k).1,
            ) by {
                lemma_offsets_small(g.current as int, 0, k);
            }
        }
        g
    }

    /// Advances the generator and draws a piece from it.
    pub fn rand_piece(&mut self) -> (p: usize)
        ensures
            final(self).seed == xorshift(old(self).seed),
            p == final(self).seed as usize % 7,
            p < 7,
            final(self).board == old(self).board,
            final(self).current == old(self).current,
            final(self).rotation == old(self).rotation,
            final(self).cx == old(self).cx,
            final(self).cy == old(self).cy,
            final(self).next == old(self).next,
            final(self).score == old(self).score,
            final(self).lines == old(self).lines,
            final(self).level == old(self).level,
            final(self).game_over == old(self).game_over,
            final(self).tick_ms == old(self).tick_ms,
    {
        self.seed = xorshift32(self.seed);
        (self.seed as usize) % 7
    }

    /// The cell offsets of the falling piece in its rotation.
    pub fn cells(&self) -> (c: [(i32, i32); 4])
        requires
            self.current < 7,
            self.rotation < 4,
        ensures
            forall|k: int| 0 <= k < 4 ==> c@[k] == piece_cell(self.current as int, self.rotation as int, k),
    {
        PIECES[self.current][self.rotation]
    }

    /// Sets each cell of the falling piece that lies on the board to the
    /// piece's colour.
    fn place(&mut self)
        requires
            old(self).current < 7,
            old(self).rotation < 4,
            -3 <= old(self).cx < COLS,
            old(self).cy < ROWS,
        ensures
            rows_of(final(self).board) == locked_rows(
                rows_of(old(self).board),
                old(self).current as int,
                old(self).rotation as int,
                old(self).cx as int,
                old(self).cy as int,
                (old(self).current + 1) as u8,
            ),
            final(self).current == old(self).current,
            final(self).rotation == old(self).rotation,
            final(self).cx == old(self).cx,
            final(self).cy == old(self).cy,
            final(self).next == old(self).next,
            final(self).score == old(self).score,
            final(self).lines == old(self).lines,
            final(self).level == old(self).level,
            final(self).game_over == old(self).game_over,
            final(self).tick_ms == old(self).tick_ms,
            final(self).seed == old(self).seed,
    {
        let color = (self.current + 1) as u8;
        let ghost b0 = rows_of(self.board);
        let ghost p = self.current as int;
        let ghost r = self.rotation as int;
        let ghost cx = self.cx as int;
        let ghost cy = self.cy as int;
        proof {
            assert(rows_of(self.board) =~~= locked_upto(b0, p, r, cx, cy, color, 0));
        }
        let mut k: usize = 0;
        while k < 4
            invariant
                k <= 4,
                p == self.current,
                r == self.rotation,
                cx == self.cx,
                cy == self.cy,
                self.current < 7,
                self.rotation < 4,
                -3 <= self.cx < COLS,
                self.cy < ROWS,
                color == (self.current + 1) as u8,
                b0.len() == ROWS,
                forall|y: int| 0 <= y < ROWS ==> (#[trigger] b0[y]).len() == COLS,
                rows_of(self.board) == locked_upto(b0, p, r, cx, cy, color, k as int),
                self.next == old(self).next,
                self.score == old(self).score,
                self.lines == old(self).lines,
                self.level == old(self).level,
                self.game_over == old(self).game_over,
                self.tick_ms == old(self).tick_ms,
                self.seed == old(self).seed,
            decreases 4 - k,
        {
            let (dx, dy) = PIECES[self.current][self.rotation][k];
            proof {
                lemma_offsets_small(p, r, k as int);
            }
            let x = self.cx + dx;
            let y = self.cy + dy;
            if x >= 0 && y >= 0 && (y as usize) < ROWS && (x as usize) < COLS {
                let ghost before = self.board;
                self.board[y as usize][x as usize] = color;
                proof {
                    assert forall|yy: int, xx: int| 0 <= yy < ROWS && 0 <= xx < COLS implies
                        #[trigger] rows_of(self.board)[yy][xx] == if yy == y && xx == x { color } else { rows_of(before)[yy][xx] } by {
                        if yy == y {
                            assert(self.board@[yy]@ == before@[yy]@.update(x as int, color));
                        } else {
                            assert(self.board@[yy] == before@[yy]);
                        }
                    }
                    assert forall|yy: int, xx: int| 0 <= yy < ROWS && 0 <= xx < COLS implies
                        #[trigger] rows_of(self.board)[yy][xx] == locked_upto(b0, p, r, cx, cy, color, k + 1)[yy][xx] by {
                        if covers_upto(p, r, cx, cy, xx, yy, k + 1) && !covers_upto(p, r, cx, cy, xx, yy, k as int) {
                            let j = choose|j: int| 0 <= j < k + 1 && cx + #[trigger] piece_cell(p, r, j).0 == xx && cy + piece_cell(p, r, j).1 == yy;
                            assert(j == k);
                        }
                        if xx == x && yy == y {
                            assert(covers_upto(p, r, cx, cy, xx, yy, k + 1)) by {
                                assert(cx + piece_cell(p, r, k as int).0 == xx);
                            }
                        }
                    }
                    assert(rows_of(self.board) =~~= locked_upto(b0, p, r, cx, cy, color, k + 1));
                }
            } else {
                proof {
                    assert forall|yy: int, xx: int| 0 <= yy < ROWS && 0 <= xx < COLS implies
                        #[trigger] rows_of(self.board)[yy][xx] == locked_upto(b0, p, r, cx, cy, color, k + 1)[yy][xx] by {
                        if covers_upto(p, r, cx, cy, xx, yy, k + 1) && !covers_upto(p, r, cx, cy, xx, yy, k as int) {
                            let j = choose|j: int| 0 <= j < k + 1 && cx + #[trigger] piece_cell(p, r, j).0 == xx && cy + piece_cell(p, r, j).1 == yy;
                            assert(j == k);
                        }
                    }
                    assert(rows_of(self.board) =~~= locked_upto(b0, p, r, cx, cy, color, k + 1));
                }
            }
            k = k + 1;
        }
    }

    /// Removes the full rows, moving the rows above them down and adding
    /// empty rows at the top; scores the rows cleared and updates the line
    /// count, the level and the speed.
    pub fn clear_lines(&mut self)
        requires
            room_for(*old(self), rows_of(old(self).board)),
        ensures
            rows_of(final(self).board) == cleared_rows(rows_of(old(self).board)),
            ({
                let n = full_rows(rows_of(old(self).board));
                if n > 0 {
                    &&& final(self).score == old(self).score + line_points(n) * old(self).level
                    &&& final(self).lines == old(self).lines + n
                    &&& final(self).level == 1 + final(self).lines / 10
                    &&& final(self).tick_ms == tick_interval(final(self).level as int)
                } else {
                    &&& final(self).score == old(self).score
                    &&& final(self).lines == old(self).lines
                    &&& final(self).level == old(self).level
                    &&& final(self).tick_ms == old(self).tick_ms
                }
            }),
            final(self).current == old(self).current,
            final(self).rotation == old(self).rotation,
            final(self).cx == old(self).cx,
            final(self).cy == old(self).cy,
            final(self).next == old(self).next,
            final(self).game_over == old(self).game_over,
            final(self).seed == old(self).seed,
    {
        let ghost o = rows_of(self.board);
        let mut cleared: u32 = 0;
        let mut y: usize = ROWS;
        let ghost mut u: int = ROWS as int;
        proof {
            assert(o.skip(ROWS as int) =~= Seq::<Seq<u8>>::empty());
            assert(rows_of(self.board).skip(ROWS as int) =~= Seq::<Seq<u8>>::empty());
        }
        while y > 0
            invariant
                y <= ROWS,
                cleared <= ROWS,
                o.len() == ROWS,
                (y >= cleared ==> u == y - cleared),
                (y < cleared ==> u == 0),
                0 <= u <= ROWS,
                forall|i: int| 0 <= i < cleared ==> #[trigger] rows_of(self.board)[i] == empty_row(),
                forall|i: int| 0 <= i < u ==> #[trigger] rows_of(self.board)[cleared + i] == o[i],
                rows_of(self.board).skip(cleared + u) == kept_rows(o.skip(u)),
                cleared + u + kept_rows(o.skip(u)).len() == ROWS,
                self.current == old(self).current,
                self.rotation == old(self).rotation,
                self.cx == old(self).cx,
                self.cy == old(self).cy,
                self.next == old(self).next,
                self.game_over == old(self).game_over,
                self.seed == old(self).seed,
                self.score == old(self).score,
                self.lines == old(self).lines,
                self.level == old(self).level,
                self.tick_ms == old(self).tick_ms,
            decreases y + ROWS - cleared,
        {
            y = y - 1;
            let ghost b = rows_of(self.board);
            if row_is_full(&self.board[y]) {
                proof {
                    if y < cleared {
                        assert(b[y as int] == empty_row());
                        assert(!row_full(b[y as int])) by {
                            assert(b[y as int][0] == 0);
                        }
                        assert(false);
                    }
                    assert(b[cleared + (u - 1)] == o[u - 1]);
                }
                // Shift everything above row y down by one.
                let mut r: usize = y;
                while r > 0
                    invariant
                        r <= y < ROWS,
                        b.len() == ROWS,
                        forall|i: int| r < i <= y ==> #[trigger] rows_of(self.board)[i] == b[i - 1],
                        forall|i: int| 0 <= i <= r ==> #[trigger] rows_of(self.board)[i] == b[i],
                        forall|i: int| y < i < ROWS ==> #[trigger] rows_of(self.board)[i] == b[i],
                        self.current == old(self).current,
                        self.rotation == old(self).rotation,
                        self.cx == old(self).cx,
                        self.cy == old(self).cy,
                        self.next == old(self).next,
                        self.game_over == old(self).game_over,
                        self.seed == old(self).seed,
                        self.score == old(self).score,
                        self.lines == old(self).lines,
                        self.level == old(self).level,
                        self.tick_ms == old(self).tick_ms,
                    decreases r,
                {
                    let ghost pre = self.board;
                    self.board[r] = self.board[r - 1];
                    proof {
                        assert forall|i: int| 0 <= i < ROWS implies #[trigger] rows_of(self.board)[i]
                            == if i == r { rows_of(pre)[r - 1] } else { rows_of(pre)[i] } by {
                            if i == r {
                                assert(self.board@[i] == pre@[r - 1]);
                            } else {
                                assert(self.board@[i] == pre@[i]);
                            }
                        }
                    }
                    r = r - 1;
                }
                let ghost shifted = self.board;
                self.board[0] = [0u8; COLS];
                proof {
                    let nb = rows_of(self.board);
                    assert forall|i: int| 0 < i < ROWS implies #[trigger] nb[i] == rows_of(shifted)[i] by {
                        assert(self.board@[i] == shifted@[i]);
                    }
                    assert(nb[0] =~= empty_row());
                    let su = o.skip(u - 1);
                    assert(su.drop_first() =~= o.skip(u));
                    assert(su[0] == o[u - 1]);
                    assert(row_full(o[u - 1]));
                    assert(kept_rows(su) == kept_rows(o.skip(u)));
                    assert forall|i: int| 0 <= i < cleared + 1 implies #[trigger] nb[i] == empty_row() by {
                        if i > 0 {
                            assert(nb[i] == b[i - 1]);
                        }
                    }
                    assert forall|i: int| 0 <= i < u - 1 implies #[trigger] nb[cleared + 1 + i] == o[i] by {
                        assert(nb[cleared + 1 + i] == b[cleared + i]);
                    }
                    assert(nb.skip(cleared + u) =~= b.skip(cleared + u)) by {
                        assert forall|i: int| 0 <= i < nb.skip(cleared + u).len() implies #[trigger] nb.skip(cleared + u)[i]
                            == b.skip(cleared + u)[i] by {
                            assert(nb[cleared + u + i] == b[cleared + u + i]);
                        }
                    }
                    u = u - 1;
                }
                cleared = cleared + 1;
                y = y + 1;
            } else {
                proof {
                    if y >= cleared {
                        let su = o.skip(u - 1);
                        assert(su.drop_first() =~= o.skip(u));
                        assert(su[0] == o[u - 1]);
                        assert(b[cleared + (u - 1)] == o[u - 1]);
                        assert(!row_full(o[u - 1]));
                        assert(kept_rows(su) == seq![o[u - 1]] + kept_rows(o.skip(u)));
                        assert(b.skip(cleared + u - 1) =~= seq![o[u - 1]] + b.skip(cleared + u));
                        u = u - 1;
                    }
                }
            }
        }
        proof {
            assert(u == 0);
            assert(o.skip(0) =~= o);
            assert(rows_of(self.board) =~= cleared_rows(o)) by {
                let nb = rows_of(self.board);
                assert forall|i: int| 0 <= i < ROWS implies #[trigger] nb[i] == cleared_rows(o)[i] by {
                    if i >= cleared {
                        assert(nb.skip(cleared as int)[i - cleared] == nb[i]);
                    }
                }
            }
        }
        if cleared > 0 {
            let points: u32 = match cleared {
                1 => 100,
                2 => 300,
                3 => 500,
                4 => 800,
                _ => 0,
            };
            proof {
                assert(cleared == full_rows(o));
                assert(points == line_points(cleared as int));
            }
            self.score = self.score + points * self.level;
            self.lines = self.lines + cleared;
            self.level = 1 + self.lines / 10;
            self.tick_ms = if self.level - 1 <= 10 { 500 - 40 * (self.level - 1) } else { 80 };
        }
    }

    /// Makes the next piece the falling one at the top, draws a new next
    /// piece, and ends the game if the new piece does not fit.
    pub fn spawn(&mut self)
        requires
            old(self).next < 7,
        ensures
            final(self).current == old(self).next,
            final(self).seed == xorshift(old(self).seed),
            final(self).next == final(self).seed as usize % 7,
            final(self).rotation == 0,
            final(self).cx == 3,
            final(self).cy == 0,
            final(self).game_over == (old(self).game_over || !fits_at(rows_of(old(self).board), old(self).next as int, 0, 3, 0)),
            final(self).board == old(self).board,
            final(self).score == old(self).score,
            final(self).lines == old(self).lines,
            final(self).level == old(self).level,
            final(self).tick_ms == old(self).tick_ms,
    {
        self.current = self.next;
        self.next = self.rand_piece();
        self.rotation = 0;
        self.cx = 3;
        self.cy = 0;
        if !self.fits(self.current, self.rotation, self.cx, self.cy) {
            self.game_over = true;
        }
    }

    /// Locks the falling piece into the board, clears full rows, scores
    /// them, and spawns the next piece.
    pub fn lock(&mut self)
        requires
            old(self).wf(),
            lock_room(*old(self), old(self).cy as int),
        ensures
            final(self).wf(),
            locked_from(*old(self), *final(self), old(self).cy as int),
    {
        self.place();
        proof {
            lemma_locked_cells(rows_of(old(self).board), self.current as int, self.rotation as int, self.cx as int, self.cy as int, (self.current + 1) as u8);
        }
        let ghost b1 = rows_of(self.board);
        self.clear_lines();
        proof {
            lemma_cleared_cells(b1);
        }
        self.spawn();
    }

    /// Moves the falling piece by `(dx, dy)` if it fits there; returns
    /// whether it moved.
    pub fn move_piece(&mut self, dx: i32, dy: i32) -> (moved: bool)
        requires
            old(self).wf(),
            i32::MIN <= old(self).cx + dx <= i32::MAX - 3,
            i32::MIN <= old(self).cy + dy <= i32::MAX - 3,
        ensures
            final(self).wf(),
            moved == fits_at(rows_of(old(self).board), old(self).current as int, old(self).rotation as int, old(self).cx + dx, old(self).cy + dy),
            moved ==> *final(self) == (Game { cx: (old(self).cx + dx) as i32, cy: (old(self).cy + dy) as i32, ..*old(self) }),
            !moved ==> *final(self) == *old(self),
    {
        if self.fits(self.current, self.rotation, self.cx + dx, self.cy + dy) {
            proof {
                lemma_fits_bounds(rows_of(self.board), self.current as int, self.rotation as int, self.cx + dx, self.cy + dy);
            }
            self.cx = self.cx + dx;
            self.cy = self.cy + dy;
            true
        } else {
            false
        }
    }

    /// Turns the falling piece a quarter turn, shifted sideways by the
    /// first of the kicks 0, -1, 1, -2, 2 under which it fits; when none
    /// does, nothing changes.
    pub fn rotate(&mut self)
        requires
            old(self).wf(),
        ensures
            final(self).wf(),
            match first_kick(rows_of(old(self).board), old(self).current as int, (old(self).rotation + 1) as int % 4, old(self).cx as int, old(self).cy as int) {
                Some(k) => *final(self) == (Game { rotation: ((old(self).rotation + 1) % 4) as usize, cx: (old(self).cx + k) as i32, ..*old(self) }),
                None => *final(self) == *old(self),
            },
    {
        let next_rot = (self.rotation + 1) % 4;
        let kicks: [i32; 5] = [0, -1, 1, -2, 2];
        let ghost b = rows_of(self.board);
        let ghost p = self.current as int;
        let ghost cx0 = self.cx as int;
        let ghost cy0 = self.cy as int;
        let mut i: usize = 0;
        while i < 5
            invariant
                i <= 5,
                *self == *old(self),
                self.wf(),
                b == rows_of(self.board),
                p == self.current,
                cx0 == self.cx,
                cy0 == self.cy,
                next_rot == (self.rotation + 1) % 4,
                kicks@ == seq![0i32, -1i32, 1i32, -2i32, 2i32],
                forall|j: int| 0 <= j < i ==> !fits_at(b, p, next_rot as int, cx0 + #[trigger] kicks@[j], cy0),
            decreases 5 - i,
        {
            let kick = kicks[i];
            if self.fits(self.current, next_rot, self.cx + kick, self.cy) {
                proof {
                    lemma_fits_bounds(b, p, next_rot as int, cx0 + kick, cy0);
                    assert(first_kick(b, p, next_rot as int, cx0, cy0) == Some(kick as int)) by {
                        if i > 0 { assert(!fits_at(b, p, next_rot as int, cx0 + kicks@[0], cy0)); }
                        if i > 1 { assert(!fits_at(b, p, next_rot as int, cx0 + kicks@[1], cy0)); }
                        if i > 2 { assert(!fits_at(b, p, next_rot as int, cx0 + kicks@[2], cy0)); }
                        if i > 3 { assert(!fits_at(b, p, next_rot as int, cx0 + kicks@[3], cy0)); }
                    }
                }
                self.rotation = next_rot;
                self.cx = self.cx + kick;
                return;
            }
            i = i + 1;
        }
        proof {
            assert(!fits_at(b, p, next_rot as int, cx0 + kicks@[0], cy0));
            assert(!fits_at(b, p, next_rot as int, cx0 + kicks@[1], cy0));
            assert(!fits_at(b, p, next_rot as int, cx0 + kicks@[2], cy0));
            assert(!fits_at(b, p, next_rot as int, cx0 + kicks@[3], cy0));
            assert(!fits_at(b, p, next_rot as int, cx0 + kicks@[4], cy0));
        }
    }

    /// Drops the falling piece as far as it falls, then locks it.
    pub fn hard_drop(&mut self)
        requires
            old(self).wf(),
            lock_room(*old(self), landing_row(rows_of(old(self).board), old(self).current as int, old(self).rotation as int, old(self).cx as int, old(self).cy as int)),
        ensures
            final(self).wf(),
            locked_from(
                *old(self),
                *final(self),
                landing_row(rows_of(old(self).board), old(self).current as int, old(self).rotation as int, old(self).cx as int, old(self).cy as int),
            ),
    {
        let ghost land = landing_row(rows_of(self.board), self.current as int, self.rotation as int, self.cx as int, self.cy as int);
        proof {
            lemma_landing_row(rows_of(self.board), self.current as int, self.rotation as int, self.cx as int, self.cy as int);
        }
        loop
            invariant
                self.wf(),
                lock_room(*old(self), land),
                *self == (Game { cy: self.cy, ..*old(self) }),
                old(self).cy <= self.cy <= land,
                land == landing_row(rows_of(self.board), self.current as int, self.rotation as int, self.cx as int, self.cy as int),
            ensures
                self.wf(),
                lock_room(*old(self), land),
                *self == (Game { cy: self.cy, ..*old(self) }),
                land == landing_row(rows_of(self.board), self.current as int, self.rotation as int, self.cx as int, self.cy as int),
                !fits_at(rows_of(self.board), self.current as int, self.rotation as int, self.cx as int, self.cy + 1),
            decreases ROWS - self.cy,
        {
            if !self.move_piece(0, 1) {
                break;
            }
            proof {
                lemma_landing_row(rows_of(self.board), self.current as int, self.rotation as int, self.cx as int, self.cy - 1);
            }
        }
        assert(self.cy == land);
        self.lock();
    }

    /// One gravity step: the falling piece moves down a row, or, when it
    /// cannot, locks.
    pub fn tick(&mut self)
        requires
            old(self).wf(),
            !fits_at(rows_of(old(self).board), old(self).current as int, old(self).rotation as int, old(self).cx as int, old(self).cy + 1)
                ==> lock_room(*old(self), old(self).cy as int),
        ensures
            final(self).wf(),
            fits_at(rows_of(old(self).board), old(self).current as int, old(self).rotation as int, old(self).cx as int, old(self).cy + 1)
                ==> *final(self) == (Game { cy: (old(self).cy + 1) as i32, ..*old(self) }),
            !fits_at(rows_of(old(self).board), old(self).current as int, old(self).rotation as int, old(self).cx as int, old(self).cy + 1)
                ==> locked_from(*old(self), *final(self), old(self).cy as int),
    {
        if !self.move_piece(0, 1) {
            self.lock();
        }
    }

    /// The row the falling piece would land on if dropped.
    pub fn ghost_y(&self) -> (gy: i32)
        requires
            self.wf(),
        ensures
            gy == landing_row(rows_of(self.board), self.current as int, self.rotation as int, self.cx as int, self.cy as int),
    {
        let ghost b = rows_of(self.board);
        let ghost p = self.current as int;
        let ghost r = self.rotation as int;
        let ghost land = landing_row(b, p, r, self.cx as int, self.cy as int);
        proof {
            lemma_landing_row(b, p, r, self.cx as int, self.cy as int);
        }
        let mut gy = self.cy;
        while self.fits(self.current, self.rotation, self.cx, gy + 1)
            invariant
                self.wf(),
                b == rows_of(self.board),
                p == self.current,
                r == self.rotation,
                self.cy <= gy < ROWS,
                land == landing_row(b, p, r, self.cx as int, gy as int),
            decreases ROWS - gy,
        {
            proof {
                lemma_fits_bounds(b, p, r, self.cx as int, gy + 1);
            }
            gy = gy + 1;
        }
        gy
    }

    /// Starts a new game, seeded from `time`.
    pub fn restart(&mut self, time: u32)
        ensures
            final(self).wf(),
            fresh_game(*final(self), time),
    {
        *self = Game::new(time);
    }

    /// Whether piece `piece` in rotation `rot` fits at `(cx, cy)`.
    pub fn fits(&self, piece: usize, rot: usize, cx: i32, cy: i32) -> (r: bool)
        requires
            piece < 7,
            rot < 4,
            cx <= i32::MAX - 3,
            cy <= i32::MAX - 3,
        ensures
            r == fits_at(rows_of(self.board), piece as int, rot as int, cx as int, cy as int),
    {
        let mut k: usize = 0;
        while k < 4
            invariant
                piece < 7,
                rot < 4,
                cx <= i32::MAX - 3,
                cy <= i32::MAX - 3,
                k <= 4,
                forall|j: int|
                    0 <= j < k ==> cell_free(
                        rows_of(self.board),
                        cx + #[trigger] piece_cell(piece as int, rot as int, j).0,
                        cy + piece_cell(piece as int, rot as int, j).1,
                    ),
            decreases 4 - k,
        {
            let (dx, dy) = PIECES[piece][rot][k];
            proof {
                lemma_offsets_small(piece as int, rot as int, k as int);
            }
            let x = cx + dx;
            let y = cy + dy;
            if x < 0 || x >= COLS as i32 || y >= ROWS as i32 {
                return false;
            }
            if y >= 0 && self.board[y as usize][x as usize] != 0 {
                return false;
            }
            k = k + 1;
        }
        true
    }
}

// ── Input and drawing ─────────────────────────────────────────────

/// What a key does in the game.
#[derive(PartialEq, Eq, Structural, Clone, Copy, Debug)]
pub enum Key {
    /// Arrow left: move left.
    Left,
    /// Arrow right: move right.
    Right,
    /// Arrow down: move down.
    Down,
    /// Arrow up: rotate.
    Rotate,
    /// Space: hard drop.
    Drop,
    /// `r` or `R`: restart.
    Restart,
    /// Any other key.
    Other,
}

/// The action of the key named `name` (a `KeyboardEvent.key` value).
pub open spec fn key_action(name: Seq<char>) -> Key {
    if name == "ArrowLeft"@ {
        Key::Left
    } else if name == "ArrowRight"@ {
        Key::Right
    } else if name == "ArrowDown"@ {
        Key::Down
    } else if name == "ArrowUp"@ {
        Key::Rotate
    } else if name == " "@ {
        Key::Drop
    } else if name == "r"@ || name == "R"@ {
        Key::Restart
    } else {
        Key::Other
    }
}

/// The action of the key named `name`.
pub fn key_of(name: &str) -> (k: Key)
    ensures
        k == key_action(name@),
{
    if str_eq(name, "ArrowLeft") {
        Key::Left
    } else if str_eq(name, "ArrowRight") {
        Key::Right
    } else if str_eq(name, "ArrowDown") {
        Key::Down
    } else if str_eq(name, "ArrowUp") {
        Key::Rotate
    } else if str_eq(name, " ") {
        Key::Drop
    } else if str_eq(name, "r") || str_eq(name, "R") {
        Key::Restart
    } else {
        Key::Other
    }
}

/// What the host does after a key press.
pub struct KeyResponse {
    /// Suppress the browser's default handling of the key.
    pub prevent_default: bool,
    /// Give the canvas the keyboard focus again.
    pub refocus: bool,
}

/// One cell to draw: column, row, colour (piece index), and whether it is
/// the faint landing shadow of the falling piece.
#[derive(PartialEq, Eq, Structural, Clone, Copy, Debug)]
pub struct CellDraw {
    pub x: i32,
    pub y: i32,
    pub color: usize,
    pub shadow: bool,
}

/// The locked cells among the first `n` cells of the board in row-major
/// order, each drawn in its colour.
pub open spec fn locked_cells(b: Seq<Seq<u8>>, n: int) -> Seq<CellDraw>
    decreases n,
{
    if n <= 0 {
        Seq::empty()
    } else {
        let i = n - 1;
        let y = i / (COLS as int);
        let x = i % (COLS as int);
        let before = locked_cells(b, n - 1);
        if b[y][x] != 0 {
            before.push(CellDraw { x: x as i32, y: y as i32, color: (b[y][x] - 1) as usize, shadow: false })
        } else {
            before
        }
    }
}

/// The first `n` cells of piece `p` in rotation `r` at `(cx, cy)` that lie
/// below the top of the board, in colour `p`.
pub open spec fn piece_draws(p: int, r: int, cx: int, cy: int, shadow: bool, n: int) -> Seq<CellDraw>
    decreases n,
{
    if n <= 0 {
        Seq::empty()
    } else {
        let before = piece_draws(p, r, cx, cy, shadow, n - 1);
        let (dx, dy) = piece_cell(p, r, n - 1);
        if cy + dy >= 0 {
            before.push(CellDraw { x: (cx + dx) as i32, y: (cy + dy) as i32, color: p as usize, shadow })
        } else {
            before
        }
    }
}

impl Game {
    /// Handles a key press at time `time` (the host's clock reading, used
    /// to seed a restarted game).  Once the game is over only a restart key
    /// acts, and it refocuses the canvas.
    pub fn handle_key(&mut self, key: Key, time: u32) -> (resp: KeyResponse)
        requires
            old(self).wf(),
            (!old(self).game_over && key == Key::Drop) ==> lock_room(
                *old(self),
                landing_row(rows_of(old(self).board), old(self).current as int, old(self).rotation as int, old(self).cx as int, old(self).cy as int),
            ),
        ensures
            final(self).wf(),
            old(self).game_over ==> (if key == Key::Restart {
                fresh_game(*final(self), time) && !resp.prevent_default && resp.refocus
            } else {
                *final(self) == *old(self) && !resp.prevent_default && !resp.refocus
            }),
            !old(self).game_over ==> !resp.refocus && match key {
                Key::Left => resp.prevent_default && *final(self) == old(self).moved_by(-1, 0),
                Key::Right => resp.prevent_default && *final(self) == old(self).moved_by(1, 0),
                Key::Down => resp.prevent_default && *final(self) == old(self).moved_by(0, 1),
                Key::Rotate => resp.prevent_default && *final(self) == old(self).rotated(),
                Key::Drop => resp.prevent_default && locked_from(
                    *old(self),
                    *final(self),
                    landing_row(rows_of(old(self).board), old(self).current as int, old(self).rotation as int, old(self).cx as int, old(self).cy as int),
                ),
                Key::Restart => !resp.prevent_default && fresh_game(*final(self), time),
                Key::Other => !resp.prevent_default && *final(self) == *old(self),
            },
    {
        if self.game_over {
            if key == Key::Restart {
                self.restart(time);
                return KeyResponse { prevent_default: false, refocus: true };
            }
            return KeyResponse { prevent_default: false, refocus: false };
        }
        match key {
            Key::Left => {
                self.move_piece(-1, 0);
                KeyResponse { prevent_default: true, refocus: false }
            },
            Key::Right => {
                self.move_piece(1, 0);
                KeyResponse { prevent_default: true, refocus: false }
            },
            Key::Down => {
                self.move_piece(0, 1);
                KeyResponse { prevent_default: true, refocus: false }
            },
            Key::Rotate => {
                self.rotate();
                KeyResponse { prevent_default: true, refocus: false }
            },
            Key::Drop => {
                self.hard_drop();
                KeyResponse { prevent_default: true, refocus: false }
            },
            Key::Restart => {
                self.restart(time);
                KeyResponse { prevent_default: false, refocus: false }
            },
            Key::Other => KeyResponse { prevent_default: false, refocus: false },
        }
    }

    /// The game after trying to move the falling piece by `(dx, dy)`.
    pub open spec fn moved_by(self, dx: int, dy: int) -> Game {
        if fits_at(rows_of(self.board), self.current as int, self.rotation as int, self.cx + dx, self.cy + dy) {
            Game { cx: (self.cx + dx) as i32, cy: (self.cy + dy) as i32, ..self }
        } else {
            self
        }
    }

    /// The game after trying to rotate the falling piece.
    pub open spec fn rotated(self) -> Game {
        match first_kick(rows_of(self.board), self.current as int, (self.rotation + 1) as int % 4, self.cx as int, self.cy as int) {
            Some(k) => Game { rotation: ((self.rotation + 1) % 4) as usize, cx: (self.cx + k) as i32, ..self },
            None => self,
        }
    }

    /// Whether a gravity step is due at time `now`, the last one having
    /// been at `last` (milliseconds): the game is on and at least the
    /// interval has passed.
    pub fn gravity_due(&self, now: u64, last: u64) -> (r: bool)
        ensures
            r == (!self.game_over && now >= last + self.tick_ms),
    {
        !self.game_over && now >= last && now - last >= self.tick_ms as u64
    }

    /// The cells to draw, in order: the locked cells row by row, then the
    /// falling piece's landing shadow, then the falling piece; cells of the
    /// piece above the top of the board are left out.
    pub fn draw_cells(&self) -> (cells: Vec<CellDraw>)
        requires
            self.wf(),
        ensures
            cells@ == locked_cells(rows_of(self.board), (ROWS * COLS) as int)
                + piece_draws(self.current as int, self.rotation as int, self.cx as int,
                    landing_row(rows_of(self.board), self.current as int, self.rotation as int, self.cx as int, self.cy as int), true, 4)
                + piece_draws(self.current as int, self.rotation as int, self.cx as int, self.cy as int, false, 4),
    {
        let mut cells: Vec<CellDraw> = Vec::new();
        let mut i: usize = 0;
        while i < ROWS * COLS
            invariant
                i <= ROWS * COLS,
                cells@ == locked_cells(rows_of(self.board), i as int),
            decreases ROWS * COLS - i,
        {
            let y = i / COLS;
            let x = i % COLS;
            let v = self.board[y][x];
            if v != 0 {
                cells.push(CellDraw { x: x as i32, y: y as i32, color: (v - 1) as usize, shadow: false });
            }
            i = i + 1;
        }
        let gy = self.ghost_y();
        proof {
            lemma_landing_row(rows_of(self.board), self.current as int, self.rotation as int, self.cx as int, self.cy as int);
        }
        self.push_piece(&mut cells, gy, true);
        self.push_piece(&mut cells, self.cy, false);
        cells
    }

    /// Appends the cells of the falling piece at row `y` that lie below the
    /// top of the board.
    fn push_piece(&self, cells: &mut Vec<CellDraw>, y: i32, shadow: bool)
        requires
            self.wf(),
            y < ROWS,
        ensures
            final(cells)@ == old(cells)@ + piece_draws(self.current as int, self.rotation as int, self.cx as int, y as int, shadow, 4),
    {
        let ghost start = cells@;
        let mut k: usize = 0;
        while k < 4
            invariant
                k <= 4,
                self.wf(),
                y < ROWS,
                cells@ == start + piece_draws(self.current as int, self.rotation as int, self.cx as int, y as int, shadow, k as int),
            decreases 4 - k,
        {
            let (dx, dy) = PIECES[self.current][self.rotation][k];
            proof {
                lemma_offsets_small(self.current as int, self.rotation as int, k as int);
            }
            if y + dy >= 0 {
                cells.push(CellDraw { x: self.cx + dx, y: y + dy, color: self.current, shadow });
            }
            proof {
                assert(cells@ =~= start + piece_draws(self.current as int, self.rotation as int, self.cx as int, y as int, shadow, k + 1));
            }
            k = k + 1;
        }
    }
}

// ── Laws ──────────────────────────────────────────────────────────

/// After clearing, the board has as many rows as before and none is full.
pub proof fn law_cleared_board_has_no_full_row(b: Seq<Seq<u8>>)
    ensures
        cleared_rows(b).len() == b.len(),
        forall|i: int| 0 <= i < b.len() ==> !row_full(#[trigger] cleared_rows(b)[i]),
{
    lemma_kept_rows_from(b);
    let c = cleared_rows(b);
    let n = full_rows(b);
    assert forall|i: int| 0 <= i < b.len() implies !row_full(#[trigger] c[i]) by {
        if i < n {
            assert(c[i] == empty_row());
            assert(c[i][0] == 0);
        } else {
            assert(c[i] == kept_rows(b)[i - n]);
        }
    }
}

/// A move that succeeded is undone by the opposite move.
pub proof fn law_move_undone_by_opposite(g: Game, dx: int, dy: int)
    requires
        g.fits_here(),
        fits_at(rows_of(g.board), g.current as int, g.rotation as int, g.cx + dx, g.cy + dy),
        i32::MIN <= g.cx + dx <= i32::MAX,
        i32::MIN <= g.cy + dy <= i32::MAX,
    ensures
        g.moved_by(dx, dy).moved_by(-dx, -dy) == g,
{
}

/// A game that is over stays over when its piece locks.
pub proof fn law_game_over_is_final(old: Game, new: Game, row: int)
    requires
        old.game_over,
        locked_from(old, new, row),
    ensures
        new.game_over,
{
}

/// The gravity interval starts at 500 ms, never grows with the level and
/// never drops under 80 ms.
pub proof fn law_tick_interval(l1: int, l2: int)
    requires
        1 <= l1 <= l2,
    ensures
        tick_interval(1) == 500,
        80 <= tick_interval(l2) <= tick_interval(l1) <= 500,
{
}

/// Each level up takes 40 ms off the gravity interval, from 500 ms at
/// level 1, until it reaches its floor of 80 ms.
pub proof fn law_tick_interval_steps(l: int)
    requires
        l >= 1,
    ensures
        tick_interval(1) == 500,
        tick_interval(l) >= 120 ==> tick_interval(l + 1) == tick_interval(l) - 40,
        tick_interval(l) < 120 ==> tick_interval(l + 1) == 80,
{
}

/// A rotation tries the horizontal kicks 0, -1, 1, -2, 2 in that order and
/// takes the first under which the turned piece fits; when none fits, the
/// piece does not turn.
pub proof fn law_rotation_kicks(b: Seq<Seq<u8>>, p: int, r: int, cx: int, cy: int)
    ensures
        ({
            let kicks = seq![0int, -1int, 1int, -2int, 2int];
            match first_kick(b, p, r, cx, cy) {
                Some(k) => exists|i: int| #![trigger kicks[i]]
                    0 <= i < 5 && kicks[i] == k && fits_at(b, p, r, cx + k, cy)
                        && forall|j: int| 0 <= j < i ==> !fits_at(b, p, r, cx + #[trigger] kicks[j], cy),
                None => forall|j: int| 0 <= j < 5 ==> !fits_at(b, p, r, cx + #[trigger] kicks[j], cy),
            }
        }),
{
    let kicks = seq![0int, -1int, 1int, -2int, 2int];
    assert(kicks[0] == 0 && kicks[1] == -1 && kicks[2] == 1 && kicks[3] == -2 && kicks[4] == 2);
    match first_kick(b, p, r, cx, cy) {
        Some(k) => {
            let i: int = if k == 0 { 0 } else if k == -1 { 1 } else if k == 1 { 2 } else if k == -2 { 3 } else { 4 };
            assert(kicks[i] == k);
            assert forall|j: int| 0 <= j < i implies !fits_at(b, p, r, cx + #[trigger] kicks[j], cy) by {
                if j == 0 {} else if j == 1 {} else if j == 2 {} else {}
            }
        },
        None => {
            assert forall|j: int| 0 <= j < 5 implies !fits_at(b, p, r, cx + #[trigger] kicks[j], cy) by {
                if j == 0 {} else if j == 1 {} else if j == 2 {} else if j == 3 {} else {}
            }
        },
    }
}

/// The landing row is where a hard drop puts the piece: it fits at every
/// row down to it and cannot fall further.
pub proof fn law_landing_row(g: Game)
    requires
        g.wf(),
    ensures
        g.cy <= landing_row(rows_of(g.board), g.current as int, g.rotation as int, g.cx as int, g.cy as int) < ROWS,
        !fits_at(rows_of(g.board), g.current as int, g.rotation as int, g.cx as int,
            landing_row(rows_of(g.board), g.current as int, g.rotation as int, g.cx as int, g.cy as int) + 1),
{
    lemma_landing_row(rows_of(g.board), g.current as int, g.rotation as int, g.cx as int, g.cy as int);
}

} // verus!
