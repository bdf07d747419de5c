//! Triangle index lists of the 3D scene's meshes.
//!
//! Vertex positions, normals and colours are floating point and are the
//! host's; which vertices form each triangle is integer work and is here.
use vstd::prelude::*;

verus! {

/// The two triangles of cell `(i, j)` of a grid of vertices laid out row by
/// row, `cols + 1` vertices to a row: `(a, b, a + 1)` and `(a + 1, b, b + 1)`
/// where `a` is the cell's top-left vertex and `b` the one below it.
pub open spec fn grid_cell(cols: int, i: int, j: int) -> Seq<int> {
    let a = i * (cols + 1) + j;
    let b = a + cols + 1;
    seq![a, b, a + 1, a + 1, b, b + 1]
}

/// The triangles of the first `n` cells of row `i`, left to right.
pub open spec fn grid_row(cols: int, i: int, n: int) -> Seq<int>
    decreases n,
{
    if n <= 0 {
        Seq::empty()
    } else {
        grid_row(cols, i, n - 1) + grid_cell(cols, i, n - 1)
    }
}

/// The triangles of the first `rows` rows of cells, top to bottom.
pub open spec fn grid_rows(cols: int, rows: int) -> Seq<int>
    decreases rows,
{
    if rows <= 0 {
        Seq::empty()
    } else {
        grid_rows(cols, rows - 1) + grid_row(cols, rows - 1, cols)
    }
}

/// The two triangles of quad `q`, whose four vertices are `4q .. 4q + 4`
/// in order around the face: `(c, c + 1, c + 2)` and `(c, c + 2, c + 3)`.
pub open spec fn quad(q: int) -> Seq<int> {
    let c = 4 * q;
    seq![c, c + 1, c + 2, c, c + 2, c + 3]
}

/// The triangles of the first `n` quads.
pub open spec fn quads(n: int) -> Seq<int>
    decreases n,
{
    if n <= 0 {
        Seq::empty()
    } else {
        quads(n - 1) + quad(n - 1)
    }
}

/// The indices as integers.
pub open spec fn as_ints(v: Seq<u16>) -> Seq<int> {
    v.map_values(|x: u16| x as int)
}

proof fn lemma_grid_row_len(cols: int, i: int, n: int)
    requires
        n >= 0,
    ensures
        grid_row(cols, i, n).len() == 6 * n,
    decreases n,
{
    if n > 0 {
        lemma_grid_row_len(cols, i, n - 1);
    }
}

/// Each row of cells has six indices per cell.
proof fn lemma_grid_rows_len(cols: int, rows: int)
    requires
        rows >= 0,
        cols >= 0,
    ensures
        grid_rows(cols, rows).len() == 6 * rows * cols,
    decreases rows,
{
    if rows > 0 {
        lemma_grid_rows_len(cols, rows - 1);
        lemma_grid_row_len(cols, rows - 1, cols);
        assert(6 * (rows - 1) * cols + 6 * cols == 6 * rows * cols) by (nonlinear_arith);
    } else {
        assert(6 * rows * cols == 0) by (nonlinear_arith)
            requires rows == 0;
    }
}

/// The largest index of cell `(i, j)` is below the number of vertices.
proof fn lemma_cell_bound(rows: int, cols: int, i: int, j: int)
    requires
        0 <= i < rows,
        0 <= j < cols,
    ensures
        0 <= i * (cols + 1) + j,
        i * (cols + 1) + j + cols + 2 < (rows + 1) * (cols + 1),
{
    assert(0 <= i * (cols + 1)) by (nonlinear_arith)
        requires 0 <= i, 0 <= cols;
    assert(i * (cols + 1) <= (rows - 1) * (cols + 1)) by (nonlinear_arith)
        requires i <= rows - 1, 0 <= cols;
    assert((rows - 1) * (cols + 1) + 2 * cols + 1 == (rows + 1) * (cols + 1) - 1) by (nonlinear_arith);
}

/// The cells of row `i` left of `n` name vertices of a grid of `rows` by
/// `cols` cells.
proof fn lemma_row_in_range(rows: int, cols: int, i: int, n: int)
    requires
        0 <= i < rows,
        0 <= n <= cols,
    ensures
        forall|k: int| 0 <= k < grid_row(cols, i, n).len()
            ==> 0 <= #[trigger] grid_row(cols, i, n)[k] < (rows + 1) * (cols + 1),
    decreases n,
{
    if n > 0 {
        lemma_row_in_range(rows, cols, i, n - 1);
        lemma_cell_bound(rows, cols, i, n - 1);
        let before = grid_row(cols, i, n - 1);
        let cell = grid_cell(cols, i, n - 1);
        assert forall|k: int| 0 <= k < grid_row(cols, i, n).len()
            implies 0 <= #[trigger] grid_row(cols, i, n)[k] < (rows + 1) * (cols + 1) by {
            if k < before.len() {
                assert(grid_row(cols, i, n)[k] == before[k]);
            } else {
                assert(grid_row(cols, i, n)[k] == cell[k - before.len()]);
            }
        }
    }
}

/// The first `r` rows of cells name vertices of a grid of `rows` by `cols`
/// cells.
proof fn lemma_rows_in_range(rows: int, cols: int, r: int)
    requires
        0 <= r <= rows,
        0 <= cols,
    ensures
        forall|k: int| 0 <= k < grid_rows(cols, r).len()
            ==> 0 <= #[trigger] grid_rows(cols, r)[k] < (rows + 1) * (cols + 1),
    decreases r,
{
    if r > 0 {
        lemma_rows_in_range(rows, cols, r - 1);
        lemma_row_in_range(rows, cols, r - 1, cols);
        let before = grid_rows(cols, r - 1);
        let row = grid_row(cols, r - 1, cols);
        assert forall|k: int| 0 <= k < grid_rows(cols, r).len()
            implies 0 <= #[trigger] grid_rows(cols, r)[k] < (rows + 1) * (cols + 1) by {
            if k < before.len() {
                assert(grid_rows(cols, r)[k] == before[k]);
            } else {
                assert(grid_rows(cols, r)[k] == row[k - before.len()]);
            }
        }
    }
}

/// Every index of a grid's triangles names one of its
/// `(rows + 1) * (cols + 1)` vertices.
pub proof fn law_grid_indices_in_range(rows: int, cols: int)
    requires
        rows >= 0,
        cols >= 0,
    ensures
        forall|k: int| 0 <= k < grid_rows(cols, rows).len()
            ==> 0 <= #[trigger] grid_rows(cols, rows)[k] < (rows + 1) * (cols + 1),
{
    lemma_rows_in_range(rows, cols, rows);
}

/// The triangle indices of a grid of `rows` by `cols` cells over
/// `(rows + 1) * (cols + 1)` vertices laid out row by row: each cell's two
/// triangles, cells left to right, rows top to bottom.
pub fn grid_indices(rows: usize, cols: usize) -> (v: Vec<u16>)
    requires
        (rows + 1) * (cols + 1) <= 65536,
    ensures
        as_ints(v@) == grid_rows(cols as int, rows as int),
        v@.len() == 6 * rows * cols,
{
    let mut v: Vec<u16> = Vec::new();
    let mut i: usize = 0;
    while i < rows
        invariant
            i <= rows,
            (rows + 1) * (cols + 1) <= 65536,
            as_ints(v@) == grid_rows(cols as int, i as int),
        decreases rows - i,
    {
        let mut j: usize = 0;
        while j < cols
            invariant
                i < rows,
                j <= cols,
                (rows + 1) * (cols + 1) <= 65536,
                as_ints(v@) == grid_rows(cols as int, i as int) + grid_row(cols as int, i as int, j as int),
            decreases cols - j,
        {
            proof {
                lemma_cell_bound(rows as int, cols as int, i as int, j as int);
            }
            let a = (i * (cols + 1) + j) as u16;
            let b = a + (cols + 1) as u16;
            let ghost before = as_ints(v@);
            v.push(a);
            v.push(b);
            v.push(a + 1);
            v.push(a + 1);
            v.push(b);
            v.push(b + 1);
            proof {
                assert(as_ints(v@) =~= before + grid_cell(cols as int, i as int, j as int));
            }
            j = j + 1;
        }
        proof {
            assert(as_ints(v@) =~= grid_rows(cols as int, i + 1));
        }
        i = i + 1;
    }
    proof {
        lemma_grid_rows_len(cols as int, rows as int);
    }
    v
}

proof fn lemma_quads_len(n: int)
    requires
        n >= 0,
    ensures
        quads(n).len() == 6 * n,
    decreases n,
{
    if n > 0 {
        lemma_quads_len(n - 1);
    }
}

/// The first `m` quads name vertices among the first `4 * n`.
proof fn lemma_quads_in_range(n: int, m: int)
    requires
        0 <= m <= n,
    ensures
        forall|k: int| 0 <= k < quads(m).len() ==> 0 <= #[trigger] quads(m)[k] < 4 * n,
    decreases m,
{
    if m > 0 {
        lemma_quads_in_range(n, m - 1);
        let before = quads(m - 1);
        assert forall|k: int| 0 <= k < quads(m).len() implies 0 <= #[trigger] quads(m)[k] < 4 * n by {
            if k < before.len() {
                assert(quads(m)[k] == before[k]);
            } else {
                assert(quads(m)[k] == quad(m - 1)[k - before.len()]);
            }
        }
    }
}

/// Every index of `n` quads' triangles names one of their `4 * n` vertices.
pub proof fn law_quad_indices_in_range(n: int)
    requires
        n >= 0,
    ensures
        forall|k: int| 0 <= k < quads(n).len() ==> 0 <= #[trigger] quads(n)[k] < 4 * n,
{
    lemma_quads_in_range(n, n);
}

/// The triangle indices of `n` quads whose vertices come four by four:
/// each quad split into two triangles along the diagonal from its first
/// vertex.
pub fn quad_indices(n: usize) -> (v: Vec<u16>)
    requires
        4 * n <= 65536,
    ensures
        as_ints(v@) == quads(n as int),
        v@.len() == 6 * n,
{
    let mut v: Vec<u16> = Vec::new();
    let mut q: usize = 0;
    while q < n
        invariant
            q <= n,
            4 * n <= 65536,
            as_ints(v@) == quads(q as int),
        decreases n - q,
    {
        let c = (4 * q) as u16;
        let ghost before = as_ints(v@);
        v.push(c);
        v.push(c + 1);
        v.push(c + 2);
        v.push(c);
        v.push(c + 2);
        v.push(c + 3);
        proof {
            assert(as_ints(v@) =~= before + quad(q as int));
        }
        q = q + 1;
    }
    proof {
        lemma_quads_len(n as int);
    }
    v
}

} // verus!
