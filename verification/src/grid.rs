//! A raster as rows of cells and as one run of cells, row after row.

use vstd::prelude::*;

verus! {

/// The cells of a raster, row by row.
pub open spec fn grid_of<T>(raster: Vec<Vec<T>>) -> Seq<Seq<T>> {
    raster@.map_values(|row: Vec<T>| row@)
}

/// The grid has `rows` rows of `cols` cells each.
pub open spec fn has_shape<T>(grid: Seq<Seq<T>>, rows: int, cols: int) -> bool {
    &&& grid.len() == rows
    &&& forall|r: int| 0 <= r < rows ==> (#[trigger] grid[r]).len() == cols
}

/// Two grids have rows of the same lengths.
pub open spec fn same_shape<T>(a: Seq<Seq<T>>, b: Seq<Seq<T>>) -> bool {
    &&& a.len() == b.len()
    &&& forall|r: int| 0 <= r < a.len() ==> (#[trigger] a[r]).len() == b[r].len()
}

/// Writes `value` into cell (`r`, `c`) of the raster.
pub fn set_cell<T: Copy>(raster: &mut Vec<Vec<T>>, r: usize, c: usize, value: T)
    requires
        r < old(raster).len(),
        c < old(raster)[r as int].len(),
    ensures
        same_shape(grid_of(*final(raster)), grid_of(*old(raster))),
        forall|i: int, j: int|
            0 <= i < old(raster).len() && 0 <= j < old(raster)[i].len() ==> #[trigger] grid_of(
                *final(raster),
            )[i][j] == (if i == r && j == c {
                value
            } else {
                grid_of(*old(raster))[i][j]
            }),
{
    raster[r][c] = value;
}

/// The first `n` rows of the grid, one after the other.
pub open spec fn rows_joined<T>(grid: Seq<Seq<T>>, n: int) -> Seq<T>
    decreases n,
{
    if n <= 0 {
        Seq::empty()
    } else {
        rows_joined(grid, n - 1) + grid[n - 1]
    }
}

/// The first `n` rows of a grid of `cols` columns, joined, hold `n * cols`
/// cells.
pub proof fn lemma_rows_joined_len<T>(grid: Seq<Seq<T>>, n: int, cols: int)
    requires
        0 <= n <= grid.len(),
        forall|r: int| 0 <= r < n ==> (#[trigger] grid[r]).len() == cols,
    ensures
        rows_joined(grid, n).len() == n * cols,
    decreases n,
{
    if n > 0 {
        lemma_rows_joined_len(grid, n - 1, cols);
        assert((n - 1) * cols + cols == n * cols) by (nonlinear_arith);
    } else {
        assert(n * cols == 0) by (nonlinear_arith)
            requires
                n == 0,
        ;
    }
}

/// In the joined rows of a grid of `cols` columns, cell (`r`, `c`) of the
/// grid stands at place `r * cols + c`.
pub proof fn lemma_rows_joined_cell<T>(grid: Seq<Seq<T>>, n: int, cols: int, r: int, c: int)
    requires
        0 <= r < n <= grid.len(),
        0 <= c < cols,
        forall|i: int| 0 <= i < n ==> (#[trigger] grid[i]).len() == cols,
    ensures
        0 <= r * cols + c < rows_joined(grid, n).len(),
        rows_joined(grid, n)[r * cols + c] == grid[r][c],
    decreases n,
{
    let prefix = rows_joined(grid, n - 1);
    lemma_rows_joined_len(grid, n - 1, cols);
    lemma_rows_joined_len(grid, n, cols);
    assert(0 <= r * cols) by (nonlinear_arith)
        requires
            0 <= r,
            0 <= cols,
    ;
    if r < n - 1 {
        lemma_rows_joined_cell(grid, n - 1, cols, r, c);
    } else {
        assert(r * cols + c == prefix.len() + c);
        assert(grid[n - 1].len() == cols);
    }
}

/// The cells of the raster in one run, row after row.
pub fn flatten<T: Copy>(raster: &Vec<Vec<T>>) -> (flat: Vec<T>)
    ensures
        flat@ == rows_joined(grid_of(*raster), raster.len() as int),
{
    let ghost grid = grid_of(*raster);
    let mut flat: Vec<T> = Vec::new();
    let mut r: usize = 0;
    while r < raster.len()
        invariant
            r <= raster.len(),
            grid == grid_of(*raster),
            flat@ == rows_joined(grid, r as int),
        decreases raster.len() - r,
    {
        let row = &raster[r];
        let ghost before = flat@;
        let mut c: usize = 0;
        while c < row.len()
            invariant
                c <= row.len(),
                flat@ == before + row@.take(c as int),
            decreases row.len() - c,
        {
            flat.push(row[c]);
            assert(row@.take(c + 1) =~= row@.take(c as int).push(row[c as int]));
            assert(flat@ =~= before + row@.take(c + 1));
            c += 1;
        }
        assert(row@.take(row.len() as int) =~= row@);
        assert(grid[r as int] == row@);
        r += 1;
    }
    flat
}

/// The run of cells as `rows` rows of `cols` cells, where it holds exactly
/// `rows * cols` cells; nothing else.
pub fn unflatten<T: Copy>(flat: &Vec<T>, rows: usize, cols: usize) -> (made: Option<Vec<Vec<T>>>)
    ensures
        made is Some <==> flat.len() == rows * cols,
        match made {
            Some(raster) => {
                &&& has_shape(grid_of(raster), rows as int, cols as int)
                &&& rows_joined(grid_of(raster), rows as int) == flat@
                &&& forall|r: int, c: int|
                    0 <= r < rows && 0 <= c < cols ==> #[trigger] grid_of(raster)[r][c] == flat[r
                        * cols + c]
            },
            None => true,
        },
{
    let total: usize = match rows.checked_mul(cols) {
        Some(total) => total,
        None => {
            return None;
        },
    };
    if flat.len() != total {
        return None;
    }
    let mut raster: Vec<Vec<T>> = Vec::new();
    let mut r: usize = 0;
    let mut next: usize = 0;
    while r < rows
        invariant
            r <= rows,
            flat.len() == rows * cols,
            next == r * cols,
            raster.len() == r,
            forall|i: int| 0 <= i < r ==> (#[trigger] raster[i]).len() == cols,
            forall|i: int, j: int|
                0 <= i < r && 0 <= j < cols ==> (#[trigger] raster[i][j]) == flat[i * cols + j],
        decreases rows - r,
    {
        assert(r * cols + cols == (r + 1) * cols && (r + 1) * cols <= rows * cols)
            by (nonlinear_arith)
            requires
                0 <= r < rows,
                0 <= cols,
        ;
        let mut row: Vec<T> = Vec::new();
        let mut c: usize = 0;
        while c < cols
            invariant
                c <= cols,
                next == r * cols,
                next + cols <= flat.len(),
                row.len() == c,
                forall|j: int| 0 <= j < c ==> (#[trigger] row[j]) == flat[next + j],
            decreases cols - c,
        {
            row.push(flat[next + c]);
            c += 1;
        }
        let ghost filled = raster@;
        raster.push(row);
        proof {
            assert forall|i: int, j: int| 0 <= i < r + 1 && 0 <= j < cols implies (
            #[trigger] raster[i][j]) == flat[i * cols + j] by {
                if i < r {
                    assert(raster[i] == filled[i]);
                    assert(filled[i][j] == flat[i * cols + j]);
                } else {
                    assert(i * cols == next);
                    assert(raster[i][j] == flat[next + j]);
                }
            }
        }
        next = next + cols;
        r += 1;
    }
    proof {
        let grid = grid_of(raster);
        assert(has_shape(grid, rows as int, cols as int));
        lemma_rows_joined_len(grid, rows as int, cols as int);
        assert forall|k: int| 0 <= k < flat.len() implies rows_joined(grid, rows as int)[k]
            == flat[k] by {
            if cols > 0 {
                let i = k / (cols as int);
                let j = k % (cols as int);
                assert(k == i * cols + j && 0 <= i < rows && 0 <= j < cols) by (nonlinear_arith)
                    requires
                        i == k / (cols as int),
                        j == k % (cols as int),
                        0 <= k < rows * cols,
                        cols > 0,
                ;
                lemma_rows_joined_cell(grid, rows as int, cols as int, i, j);
                assert(raster[i][j] == flat[i * cols + j]);
            } else {
                assert(rows * cols == 0) by (nonlinear_arith)
                    requires
                        cols == 0,
                ;
            }
        }
        assert(rows_joined(grid, rows as int) =~= flat@);
    }
    Some(raster)
}

} // verus!
