//! Canvas geometry: rectangles, byte offsets in RGBA buffers and the tile grid.
use vstd::arithmetic::div_mod::{lemma_fundamental_div_mod, lemma_fundamental_div_mod_converse, lemma_mod_pos_bound};
use vstd::prelude::*;

verus! {

/// A rectangle in canvas coordinates (pixels).
#[derive(Clone, Copy, Debug, PartialEq, Eq, Structural)]
pub struct Rect {
    pub x: u32,
    pub y: u32,
    pub width: u32,
    pub height: u32,
}

impl Rect {
    /// Whether pixel `(px, py)` lies inside the rectangle.
    pub open spec fn contains(self, px: int, py: int) -> bool {
        &&& self.x <= px < self.x + self.width
        &&& self.y <= py < self.y + self.height
    }

    /// Whether the rectangle is non-empty and lies inside a `width` x `height` canvas.
    pub open spec fn inside(self, width: int, height: int) -> bool {
        &&& 0 < self.width
        &&& 0 < self.height
        &&& self.x + self.width <= width
        &&& self.y + self.height <= height
    }
}

/// Offset of channel `c` of pixel `(x, y)` in a row-major RGBA buffer whose
/// rows hold `width` pixels.
pub open spec fn byte_index(width: int, x: int, y: int, c: int) -> int {
    (y * width + x) * 4 + c
}

/// Number of tiles of side `tile` needed to cover `extent` pixels.
pub open spec fn grid_cols(extent: int, tile: int) -> int {
    (extent + tile - 1) / tile
}

/// The smaller of `a` and `b`.
pub open spec fn smaller(a: int, b: int) -> int {
    if a <= b { a } else { b }
}

/// Tile number `k` of the grid, counted row by row; the last column and row
/// are clipped at the canvas edges.
pub open spec fn grid_tile(width: int, height: int, tile: int, k: int) -> Rect {
    let cols = grid_cols(width, tile);
    let x = (k % cols) * tile;
    let y = (k / cols) * tile;
    Rect {
        x: x as u32,
        y: y as u32,
        width: smaller(tile, width - x) as u32,
        height: smaller(tile, height - y) as u32,
    }
}

/// All tiles of a `width` x `height` canvas, row by row.
pub open spec fn tile_grid(width: int, height: int, tile: int) -> Seq<Rect> {
    Seq::new(
        (grid_cols(width, tile) * grid_cols(height, tile)) as nat,
        |k: int| grid_tile(width, height, tile, k),
    )
}

/// A grid of `grid_cols(extent, tile)` tiles covers `extent` pixels, and
/// every tile of it starts inside them.
pub proof fn lemma_grid_cols(extent: int, tile: int)
    requires
        0 <= extent,
        0 < tile,
    ensures
        0 <= grid_cols(extent, tile) <= extent,
        grid_cols(extent, tile) * tile >= extent,
        forall|c: int| 0 <= c < grid_cols(extent, tile) ==> #[trigger] (c * tile) < extent,
{
    let cols = grid_cols(extent, tile);
    let s = extent + tile - 1;
    lemma_fundamental_div_mod(s, tile);
    lemma_mod_pos_bound(s, tile);
    assert(cols >= 0) by (nonlinear_arith)
        requires s == tile * cols + s % tile, 0 <= s % tile < tile, s >= 0, tile > 0;
    assert(cols * tile >= extent) by (nonlinear_arith)
        requires s == tile * cols + s % tile, s % tile < tile, s == extent + tile - 1;
    assert(cols <= extent) by (nonlinear_arith)
        requires s == tile * cols + s % tile, 0 <= s % tile, s == extent + tile - 1, tile > 0,
            extent >= 0;
    assert forall|c: int| 0 <= c < cols implies #[trigger] (c * tile) < extent by {
        assert(c * tile < extent) by (nonlinear_arith)
            requires s == tile * cols + s % tile, 0 <= s % tile, s == extent + tile - 1,
                tile > 0, 0 <= c < cols;
    }
}

/// Each tile of the grid is a non-empty rectangle inside the canvas, no
/// larger than `tile` on either side.
pub proof fn lemma_grid_tile_inside(width: int, height: int, tile: int, k: int)
    requires
        0 <= width <= u32::MAX,
        0 <= height <= u32::MAX,
        0 < tile <= u32::MAX,
        0 <= k < tile_grid(width, height, tile).len(),
    ensures
        grid_tile(width, height, tile, k).inside(width, height),
        grid_tile(width, height, tile, k).width <= tile,
        grid_tile(width, height, tile, k).height <= tile,
        grid_tile(width, height, tile, k).x == (k % grid_cols(width, tile)) * tile,
        grid_tile(width, height, tile, k).y == (k / grid_cols(width, tile)) * tile,
{
    let cols = grid_cols(width, tile);
    let rows = grid_cols(height, tile);
    lemma_grid_cols(width, tile);
    lemma_grid_cols(height, tile);
    assert(cols > 0) by (nonlinear_arith)
        requires k < cols * rows, 0 <= k, cols >= 0, rows >= 0;
    lemma_fundamental_div_mod(k, cols);
    lemma_mod_pos_bound(k, cols);
    let c = k % cols;
    let r = k / cols;
    assert(0 <= r < rows) by (nonlinear_arith)
        requires k == cols * r + c, 0 <= c < cols, 0 <= k < cols * rows;
    assert(c * tile < width);
    assert(r * tile < height);
    assert(0 <= c * tile) by (nonlinear_arith) requires 0 <= c, 0 < tile;
    assert(0 <= r * tile) by (nonlinear_arith) requires 0 <= r, 0 < tile;
}

/// Every pixel of the canvas lies in exactly one tile of the grid.
pub proof fn lemma_tile_of_pixel(width: int, height: int, tile: int, px: int, py: int) -> (k: int)
    requires
        0 <= width <= u32::MAX,
        0 <= height <= u32::MAX,
        0 < tile <= u32::MAX,
        0 <= px < width,
        0 <= py < height,
    ensures
        0 <= k < tile_grid(width, height, tile).len(),
        grid_tile(width, height, tile, k).contains(px, py),
        forall|j: int|
            0 <= j < tile_grid(width, height, tile).len()
                && (#[trigger] grid_tile(width, height, tile, j)).contains(px, py) ==> j == k,
{
    let cols = grid_cols(width, tile);
    let rows = grid_cols(height, tile);
    lemma_grid_cols(width, tile);
    lemma_grid_cols(height, tile);
    lemma_fundamental_div_mod(px, tile);
    lemma_mod_pos_bound(px, tile);
    lemma_fundamental_div_mod(py, tile);
    lemma_mod_pos_bound(py, tile);
    let c = px / tile;
    let r = py / tile;
    assert(0 <= c < cols) by (nonlinear_arith)
        requires px == tile * c + px % tile, 0 <= px % tile < tile, px < width,
            cols * tile >= width, 0 <= px, tile > 0;
    assert(0 <= r < rows) by (nonlinear_arith)
        requires py == tile * r + py % tile, 0 <= py % tile < tile, py < height,
            rows * tile >= height, 0 <= py, tile > 0;
    let k = r * cols + c;
    assert(0 <= k < cols * rows) by (nonlinear_arith)
        requires 0 <= c < cols, 0 <= r < rows, k == r * cols + c;
    lemma_fundamental_div_mod_converse(k, cols, r, c);
    lemma_grid_tile_inside(width, height, tile, k);
    assert forall|j: int|
        0 <= j < tile_grid(width, height, tile).len()
            && (#[trigger] grid_tile(width, height, tile, j)).contains(px, py) implies j == k by {
        lemma_grid_tile_inside(width, height, tile, j);
        lemma_fundamental_div_mod(j, cols);
        lemma_mod_pos_bound(j, cols);
        let cj = j % cols;
        let rj = j / cols;
        assert(cj == c) by (nonlinear_arith)
            requires cj * tile <= px < cj * tile + tile, px == tile * c + px % tile,
                0 <= px % tile < tile, tile > 0;
        assert(rj == r) by (nonlinear_arith)
            requires rj * tile <= py < rj * tile + tile, py == tile * r + py % tile,
                0 <= py % tile < tile, tile > 0;
        assert(j == k) by (nonlinear_arith)
            requires j == cols * rj + cj, k == r * cols + c, cj == c, rj == r;
    }
    k
}

/// Cuts a `width` x `height` canvas into tiles of side `tile`, row by row.
pub fn tile_grid_of(width: u32, height: u32, tile: u32) -> (r: Vec<Rect>)
    requires
        0 < tile,
        width as int * height as int <= usize::MAX,
    ensures
        r@ == tile_grid(width as int, height as int, tile as int),
{
    proof {
        lemma_grid_cols(width as int, tile as int);
        lemma_grid_cols(height as int, tile as int);
    }
    let cols: u64 = (width as u64 + tile as u64 - 1) / tile as u64;
    let rows: u64 = (height as u64 + tile as u64 - 1) / tile as u64;
    assert(cols as int * rows as int <= width as int * height as int) by (nonlinear_arith)
        requires 0 <= cols <= width, 0 <= rows <= height;
    let cols: usize = cols as usize;
    let n: usize = cols * (rows as usize);
    let mut tiles: Vec<Rect> = Vec::new();
    let mut k: usize = 0;
    while k < n
        invariant
            k <= n,
            n == tile_grid(width as int, height as int, tile as int).len(),
            cols == grid_cols(width as int, tile as int),
            0 < tile,
            tiles@ =~= tile_grid(width as int, height as int, tile as int).take(k as int),
        decreases n - k,
    {
        proof {
            lemma_grid_tile_inside(width as int, height as int, tile as int, k as int);
        }
        let x: u32 = ((k % cols) as u64 * tile as u64) as u32;
        let y: u32 = ((k / cols) as u64 * tile as u64) as u32;
        let w: u32 = if tile <= width - x { tile } else { width - x };
        let h: u32 = if tile <= height - y { tile } else { height - y };
        tiles.push(Rect { x, y, width: w, height: h });
        k = k + 1;
    }
    tiles
}

} // verus!
