//! Window mode tiles every captured toplevel into an equal grid cell on the compositor canvas. The
//! grid is as square as it can be: ceil(sqrt(n)) columns, then as many rows as that needs.
use vstd::arithmetic::div_mod::{
    lemma_fundamental_div_mod, lemma_fundamental_div_mod_converse, lemma_mod_bound,
};
use vstd::prelude::*;

verus! {

/// The grid that a number of windows is tiled into.
#[derive(Debug, Clone, Copy, PartialEq, Eq, Structural)]
pub struct Grid {
    pub cols: u32,
    pub rows: u32,
    pub cell_w: u32,
    pub cell_h: u32,
}

/// The most windows whose columns and rows can be counted.
pub open spec fn max_windows() -> int {
    u32::MAX * u32::MAX
}

/// Whether `cols` is the square root of `n`, rounded up, and at least one.
pub open spec fn squarest(n: int, cols: int) -> bool {
    &&& cols >= 1
    &&& n <= cols * cols
    &&& cols > 1 ==> (cols - 1) * (cols - 1) < n
}

/// How many rows `n` windows fill in `cols` columns, and at least one.
pub open spec fn rows_for(n: int, cols: int) -> int {
    if n == 0 {
        1
    } else {
        (n + cols - 1) / cols
    }
}

/// Whether the grid tiles `n` windows on a canvas of the given size.
pub open spec fn tiles(grid: Grid, n: int, out_w: u32, out_h: u32) -> bool {
    &&& squarest(n, grid.cols as int)
    &&& grid.rows == rows_for(n, grid.cols as int)
    &&& grid.cell_w == out_w as int / grid.cols as int
    &&& grid.cell_h == out_h as int / grid.rows as int
}

/// The top-left corner of cell `i`, filling rows left to right.
pub open spec fn origin(grid: Grid, i: int) -> (int, int) {
    ((i % grid.cols as int) * grid.cell_w, (i / grid.cols as int) * grid.cell_h)
}

/// The least number of columns, from one on, whose square is no less than `n`.
fn columns(n: u64) -> (cols: u32)
    ensures
        n <= max_windows() ==> squarest(n as int, cols as int),
        n > max_windows() ==> cols == u32::MAX,
{
    let mut low: u64 = 1;
    let mut high: u64 = u32::MAX as u64;
    assert(low > 1 ==> (low - 1) * (low - 1) < n);
    while low < high
        invariant
            1 <= low <= high <= u32::MAX,
            low > 1 ==> (low - 1) * (low - 1) < n,
            n <= max_windows() ==> n <= high * high,
            n > max_windows() ==> high == u32::MAX,
        decreases high - low,
    {
        let mid: u64 = low + (high - low) / 2;
        assert(mid * mid <= max_windows()) by (nonlinear_arith)
            requires
                0 <= mid <= u32::MAX,
                max_windows() == u32::MAX * u32::MAX,
        ;
        if mid * mid >= n {
            high = mid;
        } else {
            low = mid + 1;
        }
    }
    low as u32
}

/// Whole rows, and one more for what is left.
proof fn lemma_rows(n: int, cols: int, full: int)
    requires
        n >= 0,
        cols >= 1,
        full == n / cols,
    ensures
        full >= 0,
        full == 0 && n % cols == 0 ==> n == 0,
        n % cols == 0 ==> (n + cols - 1) / cols == full,
        n % cols != 0 ==> (n + cols - 1) / cols == full + 1,
        n <= cols * cols ==> full <= cols && (full == cols ==> n % cols == 0),
        n > cols * cols ==> full >= cols,
{
    let rest = n % cols;
    lemma_fundamental_div_mod(n, cols);
    lemma_mod_bound(n, cols);
    assert(n == cols * full + rest);
    if rest == 0 {
        assert(n + cols - 1 == full * cols + (cols - 1)) by (nonlinear_arith)
            requires
                n == cols * full + rest,
                rest == 0,
        ;
        lemma_fundamental_div_mod_converse(n + cols - 1, cols, full, cols - 1);
    } else {
        assert(n + cols - 1 == (full + 1) * cols + (rest - 1)) by (nonlinear_arith)
            requires
                n == cols * full + rest,
        ;
        lemma_fundamental_div_mod_converse(n + cols - 1, cols, full + 1, rest - 1);
    }
    assert(full >= 0) by (nonlinear_arith)
        requires
            n == cols * full + rest,
            n >= 0,
            rest < cols,
            cols >= 1,
    ;
    if n <= cols * cols {
        assert(full <= cols && (full == cols ==> rest == 0)) by (nonlinear_arith)
            requires
                n == cols * full + rest,
                n <= cols * cols,
                0 <= rest < cols,
                cols >= 1,
        ;
    } else {
        assert(full >= cols) by (nonlinear_arith)
            requires
                n == cols * full + rest,
                n > cols * cols,
                0 <= rest < cols,
                cols >= 1,
        ;
    }
}

impl Grid {
    /// The grid for `n` windows on a canvas of the given size. Where they are more than can be
    /// counted, there are as many columns and rows as can be.
    pub fn new(n: usize, out_w: u32, out_h: u32) -> (r: Grid)
        ensures
            n <= max_windows() ==> tiles(r, n as int, out_w, out_h),
            n > max_windows() ==> r == (Grid {
                cols: u32::MAX,
                rows: u32::MAX,
                cell_w: out_w / u32::MAX,
                cell_h: out_h / u32::MAX,
            }),
    {
        let count: u64 = n as u64;
        let cols = columns(count);
        let full: u64 = count / cols as u64;
        let rows: u32 = if full >= u32::MAX as u64 {
            u32::MAX
        } else if count % cols as u64 != 0 {
            full as u32 + 1
        } else if full == 0 {
            1
        } else {
            full as u32
        };
        proof {
            lemma_rows(count as int, cols as int, full as int);
        }
        Grid { cols, rows, cell_w: out_w / cols, cell_h: out_h / rows }
    }

    /// Top-left corner of cell i, filling rows left to right.
    pub fn cell_origin(&self, i: usize) -> (r: (u32, u32))
        requires
            self.cols > 0,
            origin(*self, i as int).0 <= u32::MAX,
            origin(*self, i as int).1 <= u32::MAX,
        ensures
            r.0 == origin(*self, i as int).0,
            r.1 == origin(*self, i as int).1,
    {
        let col: u64 = i as u64 % self.cols as u64;
        let row: u64 = i as u64 / self.cols as u64;
        ((col * self.cell_w as u64) as u32, (row * self.cell_h as u64) as u32)
    }
}

/// Where one window goes on the canvas.
#[derive(Debug, Clone, Copy, PartialEq, Eq, Structural)]
pub struct Placement {
    pub x: u32,
    pub y: u32,
    pub width: u32,
    pub height: u32,
}

/// Whether the placement is cell `i` of the grid.
pub open spec fn in_cell(p: Placement, grid: Grid, i: int) -> bool {
    &&& p.x == origin(grid, i).0
    &&& p.y == origin(grid, i).1
    &&& p.width == grid.cell_w
    &&& p.height == grid.cell_h
}

/// Whether windows are placed on a canvas of the given size as its grid says: window `i` fills
/// cell `i`.
pub open spec fn laid_out(windows: Seq<Placement>, out_w: u32, out_h: u32) -> bool {
    exists|grid: Grid| #[trigger]
        tiles(grid, windows.len() as int, out_w, out_h) && forall|i: int|
            0 <= i < windows.len() ==> #[trigger] in_cell(windows[i], grid, i)
}

/// Where each of `n` windows goes on a canvas of the given size.
pub fn placements(n: usize, out_w: u32, out_h: u32) -> (r: Vec<Placement>)
    requires
        n <= max_windows(),
    ensures
        r.len() == n,
        laid_out(r@, out_w, out_h),
{
    let grid = Grid::new(n, out_w, out_h);
    let mut r: Vec<Placement> = Vec::new();
    let mut i: usize = 0;
    while i < n
        invariant
            i <= n,
            n <= max_windows(),
            tiles(grid, n as int, out_w, out_h),
            r.len() == i,
            forall|j: int| 0 <= j < i ==> #[trigger] in_cell(r@[j], grid, j),
        decreases n - i,
    {
        proof {
            law_cells_lie_on_the_canvas(grid, n as int, out_w, out_h, i as int);
        }
        let (x, y) = grid.cell_origin(i);
        r.push(Placement { x, y, width: grid.cell_w, height: grid.cell_h });
        i += 1;
    }
    assert(tiles(grid, r@.len() as int, out_w, out_h));
    r
}

// ---------------------------------------------------------------------------
// Laws

/// There is one grid for a number of windows and a canvas.
pub proof fn law_grid_is_unique(a: Grid, b: Grid, n: int, out_w: u32, out_h: u32)
    requires
        tiles(a, n, out_w, out_h),
        tiles(b, n, out_w, out_h),
    ensures
        a == b,
{
    let x = a.cols as int;
    let y = b.cols as int;
    if x < y {
        assert(x * x <= (y - 1) * (y - 1)) by (nonlinear_arith)
            requires
                1 <= x <= y - 1,
        ;
    }
    if y < x {
        assert(y * y <= (x - 1) * (x - 1)) by (nonlinear_arith)
            requires
                1 <= y <= x - 1,
        ;
    }
}

/// The grid has a cell for every window, and a window in every row.
pub proof fn law_rows_are_just_enough(n: int, cols: int)
    requires
        n >= 0,
        cols >= 1,
    ensures
        n <= cols * rows_for(n, cols),
        n > 0 ==> cols * (rows_for(n, cols) - 1) < n,
{
    if n > 0 {
        let full = n / cols;
        lemma_rows(n, cols, full);
        lemma_fundamental_div_mod(n, cols);
        lemma_mod_bound(n, cols);
        let rows = rows_for(n, cols);
        assert(n <= cols * rows && cols * (rows - 1) < n) by (nonlinear_arith)
            requires
                n == cols * full + n % cols,
                0 <= n % cols < cols,
                n % cols == 0 ==> rows == full,
                n % cols != 0 ==> rows == full + 1,
                cols >= 1,
        ;
    }
}

/// The grid is as square as it can be: there are as many rows as columns, or one fewer.
pub proof fn law_grid_is_nearly_square(n: int, cols: int)
    requires
        n >= 1,
        squarest(n, cols),
    ensures
        cols - 1 <= rows_for(n, cols) <= cols,
{
    let rows = rows_for(n, cols);
    law_rows_are_just_enough(n, cols);
    assert(rows <= cols) by (nonlinear_arith)
        requires
            cols * (rows - 1) < n,
            n <= cols * cols,
            cols >= 1,
    ;
    if cols > 1 {
        assert(cols - 1 <= rows) by (nonlinear_arith)
            requires
                n <= cols * rows,
                (cols - 1) * (cols - 1) < n,
                cols > 1,
        ;
    }
}

/// Every window's cell lies on the canvas.
pub proof fn law_cells_lie_on_the_canvas(grid: Grid, n: int, out_w: u32, out_h: u32, i: int)
    requires
        tiles(grid, n, out_w, out_h),
        0 <= i < n,
    ensures
        0 <= origin(grid, i).0,
        0 <= origin(grid, i).1,
        origin(grid, i).0 + grid.cell_w <= out_w,
        origin(grid, i).1 + grid.cell_h <= out_h,
{
    let cols = grid.cols as int;
    let rows = grid.rows as int;
    let col = i % cols;
    let row = i / cols;
    let w = out_w as int;
    let h = out_h as int;
    let cw = grid.cell_w as int;
    let ch = grid.cell_h as int;
    lemma_fundamental_div_mod(i, cols);
    lemma_mod_bound(i, cols);
    law_rows_are_just_enough(n, cols);
    assert(0 <= row < rows) by (nonlinear_arith)
        requires
            i == cols * row + col,
            0 <= i < n,
            n <= cols * rows,
            0 <= col < cols,
            cols >= 1,
    ;
    lemma_fundamental_div_mod(w, cols);
    lemma_mod_bound(w, cols);
    lemma_fundamental_div_mod(h, rows);
    lemma_mod_bound(h, rows);
    assert(0 <= col * cw && col * cw + cw <= w) by (nonlinear_arith)
        requires
            0 <= col < cols,
            cw >= 0,
            w == cols * cw + w % cols,
            w % cols >= 0,
    ;
    assert(0 <= row * ch && row * ch + ch <= h) by (nonlinear_arith)
        requires
            0 <= row < rows,
            ch >= 0,
            h == rows * ch + h % rows,
            h % rows >= 0,
    ;
}

/// The cells are in reading order: a later one is further right in the same row, or in a row
/// further down.
pub proof fn law_cells_are_in_reading_order(grid: Grid, i: int, j: int)
    requires
        grid.cols > 0,
        0 <= i < j,
    ensures
        ({
            let (ix, iy) = origin(grid, i);
            let (jx, jy) = origin(grid, j);
            ||| iy == jy && ix + grid.cell_w <= jx
            ||| iy + grid.cell_h <= jy
        }),
{
    let cols = grid.cols as int;
    let cw = grid.cell_w as int;
    let ch = grid.cell_h as int;
    let (ic, ir) = (i % cols, i / cols);
    let (jc, jr) = (j % cols, j / cols);
    lemma_fundamental_div_mod(i, cols);
    lemma_fundamental_div_mod(j, cols);
    lemma_mod_bound(i, cols);
    lemma_mod_bound(j, cols);
    assert(ir <= jr) by (nonlinear_arith)
        requires
            i == cols * ir + ic,
            j == cols * jr + jc,
            i < j,
            0 <= ic < cols,
            0 <= jc < cols,
    ;
    if ir < jr {
        assert(ir * ch + ch <= jr * ch) by (nonlinear_arith)
            requires
                ir + 1 <= jr,
                ch >= 0,
        ;
    } else {
        assert(ic < jc);
        assert(ic * cw + cw <= jc * cw) by (nonlinear_arith)
            requires
                ic + 1 <= jc,
                cw >= 0,
        ;
    }
}

/// No two cells overlap: they are apart across or apart down.
pub proof fn law_cells_do_not_overlap(grid: Grid, i: int, j: int)
    requires
        grid.cols > 0,
        0 <= i,
        0 <= j,
        i != j,
    ensures
        ({
            let (ix, iy) = origin(grid, i);
            let (jx, jy) = origin(grid, j);
            ||| ix + grid.cell_w <= jx
            ||| jx + grid.cell_w <= ix
            ||| iy + grid.cell_h <= jy
            ||| jy + grid.cell_h <= iy
        }),
{
    if i < j {
        law_cells_are_in_reading_order(grid, i, j);
    } else {
        law_cells_are_in_reading_order(grid, j, i);
    }
}

/// No grid of fewer columns has a square that is large enough, and the one for no window or one is
/// a single cell.
pub proof fn law_fewest_columns(n: int, cols: int, fewer: int)
    requires
        squarest(n, cols),
        fewer >= 1,
    ensures
        n <= fewer * fewer ==> cols <= fewer,
        cols >= 1,
        n <= cols * cols,
        0 <= n <= 1 ==> cols == 1 && rows_for(n, cols) == 1,
{
    if fewer < cols {
        assert(fewer * fewer <= (cols - 1) * (cols - 1)) by (nonlinear_arith)
            requires
                1 <= fewer <= cols - 1,
        ;
    }
    if 0 <= n <= 1 && cols > 1 {
        assert((cols - 1) * (cols - 1) >= 1) by (nonlinear_arith)
            requires
                cols > 1,
        ;
    }
}

/// The cells are as wide and as high as the canvas allows: one pixel more would not fit.
pub proof fn law_cells_fill_the_canvas(grid: Grid, n: int, out_w: u32, out_h: u32)
    requires
        tiles(grid, n, out_w, out_h),
        n >= 0,
    ensures
        grid.cell_w * grid.cols <= out_w,
        out_w < (grid.cell_w + 1) * grid.cols,
        grid.cell_h * grid.rows <= out_h,
        out_h < (grid.cell_h + 1) * grid.rows,
{
    let cols = grid.cols as int;
    let rows = grid.rows as int;
    law_rows_are_just_enough(n, cols);
    if n > 0 {
        assert(rows >= 1) by (nonlinear_arith)
            requires
                n > 0,
                n <= cols * rows,
                cols >= 1,
        ;
    }
    lemma_share(out_w as int, cols);
    lemma_share(out_h as int, rows);
}

proof fn lemma_share(size: int, parts: int)
    requires
        size >= 0,
        parts >= 1,
    ensures
        (size / parts) * parts <= size,
        size < (size / parts + 1) * parts,
{
    let share = size / parts;
    lemma_fundamental_div_mod(size, parts);
    lemma_mod_bound(size, parts);
    assert(share * parts <= size && size < (share + 1) * parts) by (nonlinear_arith)
        requires
            size == parts * share + size % parts,
            0 <= size % parts < parts,
    ;
}

/// The first cell is in the corner. The next one is a cell further right, or, behind the last
/// column, at the left of the next row.
pub proof fn law_cells_follow_each_other(grid: Grid, i: int)
    requires
        grid.cols > 0,
        0 <= i,
    ensures
        origin(grid, 0) == (0int, 0int),
        (i + 1) % grid.cols as int != 0 ==> origin(grid, i + 1) == (
            origin(grid, i).0 + grid.cell_w,
            origin(grid, i).1,
        ),
        (i + 1) % grid.cols as int == 0 ==> origin(grid, i + 1) == (
            0int,
            origin(grid, i).1 + grid.cell_h,
        ),
{
    let cols = grid.cols as int;
    let col = i % cols;
    let row = i / cols;
    lemma_fundamental_div_mod(i, cols);
    lemma_mod_bound(i, cols);
    let w = grid.cell_w as int;
    let h = grid.cell_h as int;
    if col + 1 < cols {
        assert(i + 1 == row * cols + (col + 1)) by (nonlinear_arith)
            requires
                i == cols * row + col,
        ;
        lemma_fundamental_div_mod_converse(i + 1, cols, row, col + 1);
        assert((col + 1) * w == col * w + w) by (nonlinear_arith);
    } else {
        assert(i + 1 == (row + 1) * cols + 0) by (nonlinear_arith)
            requires
                i == cols * row + col,
                col + 1 == cols,
        ;
        lemma_fundamental_div_mod_converse(i + 1, cols, row + 1, 0);
        assert((row + 1) * h == row * h + h) by (nonlinear_arith);
    }
    lemma_fundamental_div_mod_converse(0, cols, 0, 0);
}

/// A window that fills a cell has the cell's size and stands at its corner.
pub proof fn law_window_fills_its_cell(p: Placement, grid: Grid, i: int)
    requires
        in_cell(p, grid, i),
    ensures
        (p.x as int, p.y as int) == origin(grid, i),
        p.width == grid.cell_w,
        p.height == grid.cell_h,
{
}

/// Windows that are laid out all have one size, lie on the canvas and do not overlap, and the first
/// of them stands in the corner.
pub proof fn law_windows_share_the_canvas(
    windows: Seq<Placement>,
    out_w: u32,
    out_h: u32,
    i: int,
    j: int,
)
    requires
        laid_out(windows, out_w, out_h),
        0 <= i < j < windows.len(),
    ensures
        ({
            let a = windows[i];
            let b = windows[j];
            &&& a.width == b.width && a.height == b.height
            &&& a.x + a.width <= out_w && a.y + a.height <= out_h
            &&& b.x + b.width <= out_w && b.y + b.height <= out_h
            &&& (a.y == b.y && a.x + a.width <= b.x) || a.y + a.height <= b.y
            &&& windows[0].x == 0 && windows[0].y == 0
        }),
{
    let grid = choose|grid: Grid| #[trigger]
        tiles(grid, windows.len() as int, out_w, out_h) && forall|k: int|
            0 <= k < windows.len() ==> #[trigger] in_cell(windows[k], grid, k);
    let n = windows.len() as int;
    assert(in_cell(windows[i], grid, i));
    assert(in_cell(windows[j], grid, j));
    assert(in_cell(windows[0], grid, 0));
    law_cells_lie_on_the_canvas(grid, n, out_w, out_h, i);
    law_cells_lie_on_the_canvas(grid, n, out_w, out_h, j);
    law_cells_are_in_reading_order(grid, i, j);
    law_cells_follow_each_other(grid, 0);
}

/// Every window is placed.
pub proof fn law_every_window_is_placed(n: usize, out_w: u32, out_h: u32, r: Vec<Placement>)
    requires
        call_ensures(placements, (n, out_w, out_h), r),
    ensures
        r@.len() == n,
        laid_out(r@, out_w, out_h),
{
}

} // verus!
