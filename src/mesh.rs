use vstd::prelude::*;

verus! {

/// The number of cells along each side of a chunk's grid.
pub const CHUNK_SIZE: u32 = 4;

/// The number of samples along each side of a chunk's grid.
pub const GRID_SIDE: u32 = CHUNK_SIZE + 2;

/// Where the sample in row `i`, column `j` of a grid with `cols` columns stands
/// among the vertices: rows one after another.
pub open spec fn vertex_index(cols: int, i: int, j: int) -> int {
    i * cols + j
}

/// The position, in the index list, of corner `t` (0 to 5) of the two
/// triangles of cell `(i, j)`, in a grid with `cols` columns.
pub open spec fn slot(cols: int, i: int, j: int, t: int) -> int {
    6 * (i * (cols - 1) + j) + t
}

/// Corner `t` of the two triangles of cell `(i, j)`: the triangles
/// `(i, j), (i, j+1), (i+1, j)` and `(i, j+1), (i+1, j+1), (i+1, j)`, which
/// share one winding.
pub open spec fn cell_corner(cols: int, i: int, j: int, t: int) -> int {
    let v = vertex_index(cols, i, j);
    if t == 0 {
        v
    } else if t == 1 {
        v + 1
    } else if t == 2 {
        v + cols
    } else if t == 3 {
        v + 1
    } else if t == 4 {
        v + cols + 1
    } else {
        v + cols
    }
}

/// The grid coordinates of every sample of a `rows` by `cols` grid, row by
/// row: the order in which a chunk's vertices are laid out.
pub fn sample_grid(rows: u32, cols: u32) -> (r: Vec<(u32, u32)>)
    ensures
        r@.len() == rows * cols,
        forall|i: int, j: int|
            0 <= i < rows && 0 <= j < cols ==> r@[#[trigger] vertex_index(cols as int, i, j)] == (
            i as u32,
            j as u32,
        ),
{
    let mut r: Vec<(u32, u32)> = Vec::new();
    let mut i: u32 = 0;
    while i < rows
        invariant
            i <= rows,
            r@.len() == i * cols,
            forall|a: int, b: int|
                0 <= a < i && 0 <= b < cols ==> r@[#[trigger] vertex_index(cols as int, a, b)] == (
                a as u32,
                b as u32,
            ),
        decreases rows - i,
    {
        let mut j: u32 = 0;
        while j < cols
            invariant
                i < rows,
                j <= cols,
                r@.len() == i * cols + j,
                forall|a: int, b: int|
                    0 <= a < i && 0 <= b < cols ==> r@[#[trigger] vertex_index(cols as int, a, b)]
                        == (a as u32, b as u32),
                forall|b: int|
                    0 <= b < j ==> r@[#[trigger] vertex_index(cols as int, i as int, b)] == (
                    i as u32,
                    b as u32,
                ),
            decreases cols - j,
        {
            let ghost before = r@;
            r.push((i, j));
            assert forall|a: int, b: int| 0 <= a < i && 0 <= b < cols implies r@[#[trigger] vertex_index(
                cols as int,
                a,
                b,
            )] == (a as u32, b as u32) by {
                assert(a * cols + b < i * cols) by (nonlinear_arith)
                    requires
                        a + 1 <= i,
                        b < cols,
                ;
                assert(before[vertex_index(cols as int, a, b)] == (a as u32, b as u32));
            }
            j = j + 1;
        }
        assert((i + 1) * cols == i * cols + cols) by (nonlinear_arith);
        i = i + 1;
    }
    r
}

/// The triangle list of a `rows` by `cols` grid of samples laid out as by
/// `sample_grid`: two triangles per cell, cells row by row. Every index names
/// a sample of the grid.
pub fn generate_indices(rows: u32, cols: u32) -> (r: Vec<u32>)
    requires
        rows * cols <= 0x1_0000_0000,
    ensures
        rows >= 1 && cols >= 1 ==> r@.len() == 6 * (rows - 1) * (cols - 1),
        rows == 0 || cols == 0 ==> r@.len() == 0,
        forall|i: int, j: int, t: int|
            0 <= i < rows - 1 && 0 <= j < cols - 1 && 0 <= t < 6 ==> r@[#[trigger] slot(
                cols as int,
                i,
                j,
                t,
            )] == cell_corner(cols as int, i, j, t),
        forall|k: int| 0 <= k < r@.len() ==> r@[k] < rows * cols,
{
    let mut r: Vec<u32> = Vec::new();
    if rows == 0 || cols == 0 {
        return r;
    }
    let w: u32 = cols - 1;
    let mut i: u32 = 0;
    while i + 1 < rows
        invariant
            rows >= 1,
            cols >= 1,
            w == cols - 1,
            rows * cols <= 0x1_0000_0000,
            i <= rows - 1,
            r@.len() == 6 * (i * w),
            forall|a: int, b: int, t: int|
                0 <= a < i && 0 <= b < w && 0 <= t < 6 ==> r@[#[trigger] slot(cols as int, a, b, t)]
                    == cell_corner(cols as int, a, b, t),
            forall|k: int| 0 <= k < r@.len() ==> r@[k] < rows * cols,
        decreases rows - i,
    {
        assert(i * cols + cols + cols <= rows * cols) by (nonlinear_arith)
            requires
                i + 2 <= rows,
                cols >= 1,
        ;
        let row: u32 = i * cols;
        let mut j: u32 = 0;
        while j < w
            invariant
                rows >= 1,
                cols >= 1,
                w == cols - 1,
                i + 1 < rows,
                row == i * cols,
                row + cols + cols <= rows * cols,
                rows * cols <= 0x1_0000_0000,
                j <= w,
                r@.len() == 6 * (i * w + j),
                forall|a: int, b: int, t: int|
                    0 <= a < i && 0 <= b < w && 0 <= t < 6 ==> r@[#[trigger] slot(
                        cols as int,
                        a,
                        b,
                        t,
                    )] == cell_corner(cols as int, a, b, t),
                forall|b: int, t: int|
                    0 <= b < j && 0 <= t < 6 ==> r@[#[trigger] slot(cols as int, i as int, b, t)]
                        == cell_corner(cols as int, i as int, b, t),
                forall|k: int| 0 <= k < r@.len() ==> r@[k] < rows * cols,
            decreases w - j,
        {
            let index: u32 = row + j;
            let next_index: u32 = index + 1;
            let bottom_index: u32 = index + cols;
            let next_bottom_index: u32 = bottom_index + 1;
            let ghost before = r@;
            r.push(index);
            r.push(next_index);
            r.push(bottom_index);
            r.push(next_index);
            r.push(next_bottom_index);
            r.push(bottom_index);
            assert forall|t: int| 0 <= t < 6 implies r@[#[trigger] slot(cols as int, i as int, j as int, t)]
                == cell_corner(cols as int, i as int, j as int, t) by {
                assert(slot(cols as int, i as int, j as int, t) == before.len() + t);
            }
            assert forall|a: int, b: int, t: int|
                0 <= a < i && 0 <= b < w && 0 <= t < 6 implies r@[#[trigger] slot(
                    cols as int,
                    a,
                    b,
                    t,
                )] == cell_corner(cols as int, a, b, t) by {
                assert(a * w + b + 1 <= i * w) by (nonlinear_arith)
                    requires
                        a + 1 <= i,
                        b + 1 <= w,
                ;
                assert(before[slot(cols as int, a, b, t)] == cell_corner(cols as int, a, b, t));
            }
            j = j + 1;
        }
        assert((i + 1) * w == i * w + w) by (nonlinear_arith);
        i = i + 1;
    }
    assert(rows - 1 == i);
    assert(6 * (i * w) == 6 * (rows - 1) * (cols - 1)) by (nonlinear_arith)
        requires
            i == rows - 1,
            w == cols - 1,
    ;
    r
}

} // verus!
