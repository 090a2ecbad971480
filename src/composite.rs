//! What a display shows once encoded regions are painted over it, and the
//! laws that tie the encoding back to the raw frames.
use crate::diff::{
    seeded, diff_regions, emits, encode_prefix, encoding, fits, full_rect, lemma_tile_pixel, region_of,
    row_start, tile_changed, FrameView, RawView, RegionView,
};
use crate::geometry::{byte_index, grid_tile, lemma_grid_tile_inside, lemma_tile_of_pixel, tile_grid, Rect};
use vstd::prelude::*;

verus! {

/// Byte `c` of pixel `(x, y)` as region `g` paints it.
pub open spec fn region_byte(g: RegionView, x: int, y: int, c: int) -> u8 {
    g.pixels[((y - g.rect.y) * g.rect.width + (x - g.rect.x)) * 4 + c]
}

/// Byte `c` of pixel `(x, y)` after `regions` are painted in order over a
/// pixel whose byte was `below`; a later region overwrites an earlier one.
pub open spec fn paint(regions: Seq<RegionView>, x: int, y: int, c: int, below: u8) -> u8
    decreases regions.len(),
{
    if regions.len() == 0 {
        below
    } else if regions.last().rect.contains(x, y) {
        region_byte(regions.last(), x, y, c)
    } else {
        paint(regions.drop_last(), x, y, c, below)
    }
}

/// Byte `c` of pixel `(x, y)` once the regions of the first `n` frames are
/// painted, frame after frame, over a blank (all-zero) canvas.
pub open spec fn shown(frames: Seq<FrameView>, n: int, x: int, y: int, c: int) -> u8
    decreases n,
{
    if n <= 0 {
        0
    } else {
        paint(frames[n - 1].regions, x, y, c, shown(frames, n - 1, x, y, c))
    }
}

/// Whether every raw frame is a full `width` x `height` RGBA buffer.
pub open spec fn full_buffers(raws: Seq<RawView>, width: int, height: int) -> bool {
    forall|i: int| 0 <= i < raws.len() ==> #[trigger] raws[i].pixels.len() == width * height * 4
}

/// Whether no changed tile of any frame was left out because the same region
/// had been sent before.
pub open spec fn nothing_suppressed(raws: Seq<RawView>, width: int, height: int, tile: int) -> bool {
    forall|i: int, k: int|
        1 <= i < raws.len() && 0 <= k < tile_grid(width, height, tile).len() && #[trigger] tile_changed(
            raws[i - 1].pixels,
            raws[i].pixels,
            width,
            tile_grid(width, height, tile)[k],
        ) ==> !encode_prefix(raws, width, height, tile, i).seen.contains(
            region_of(raws[i].pixels, width, tile_grid(width, height, tile)[k]),
        )
}

proof fn lemma_prefix_frames(raws: Seq<RawView>, width: int, height: int, tile: int, n: int)
    requires
        0 <= n,
    ensures
        encode_prefix(raws, width, height, tile, n).frames.len() == n,
        forall|j: int|
            0 <= j < n ==> #[trigger] encode_prefix(raws, width, height, tile, n).frames[j]
                == encode_prefix(raws, width, height, tile, j + 1).frames[j],
    decreases n,
{
    if n > 1 {
        lemma_prefix_frames(raws, width, height, tile, n - 1);
        let prev = encode_prefix(raws, width, height, tile, n - 1).frames;
        let all = encode_prefix(raws, width, height, tile, n).frames;
        assert forall|j: int| 0 <= j < n implies #[trigger] all[j]
            == encode_prefix(raws, width, height, tile, j + 1).frames[j] by {
            if j < n - 1 {
                assert(all[j] == prev[j]);
            }
        }
    }
}

/// A tile of the grid fits in a full canvas buffer.
proof fn lemma_grid_fits(px: Seq<u8>, width: int, height: int, tile: int, k: int)
    requires
        0 <= width <= u32::MAX,
        0 <= height <= u32::MAX,
        0 < tile <= u32::MAX,
        px.len() == width * height * 4,
        0 <= k < tile_grid(width, height, tile).len(),
    ensures
        fits(px, width, tile_grid(width, height, tile)[k]),
{
    lemma_grid_tile_inside(width, height, tile, k);
    let r = grid_tile(width, height, tile, k);
    assert(row_start(width, r, r.height - 1) + r.width * 4 <= width * height * 4) by (nonlinear_arith)
        requires r.x + r.width <= width, r.y + r.height <= height, 0 < r.height, 0 < r.width,
            row_start(width, r, r.height - 1) == ((r.y + r.height - 1) * width + r.x) * 4;
}

/// Painting the regions of one frame over a pixel: the pixel takes the new
/// frame's byte when its tile was emitted, and keeps `below` otherwise.
proof fn lemma_paint_diff(
    prev: Seq<u8>,
    cur: Seq<u8>,
    width: int,
    height: int,
    tile: int,
    seen: Seq<RegionView>,
    m: int,
    x: int,
    y: int,
    c: int,
    k0: int,
    below: u8,
)
    requires
        0 <= width <= u32::MAX,
        0 <= height <= u32::MAX,
        0 < tile <= u32::MAX,
        0 <= m <= tile_grid(width, height, tile).len(),
        0 <= x < width,
        0 <= y < height,
        0 <= c < 4,
        0 <= k0 < tile_grid(width, height, tile).len(),
        grid_tile(width, height, tile, k0).contains(x, y),
        forall|j: int|
            0 <= j < tile_grid(width, height, tile).len()
                && (#[trigger] grid_tile(width, height, tile, j)).contains(x, y) ==> j == k0,
    ensures
        paint(diff_regions(prev, cur, width, tile_grid(width, height, tile).take(m), seen), x, y, c, below)
            == if k0 < m && emits(prev, cur, width, tile_grid(width, height, tile)[k0], seen) {
            cur[byte_index(width, x, y, c)]
        } else {
            below
        },
    decreases m,
{
    let grid = tile_grid(width, height, tile);
    if m > 0 {
        let tiles = grid.take(m);
        assert(tiles.drop_last() =~= grid.take(m - 1));
        lemma_paint_diff(prev, cur, width, height, tile, seen, m - 1, x, y, c, k0, below);
        let r = grid[m - 1];
        assert(tiles.last() == r);
        assert(r == grid_tile(width, height, tile, m - 1));
        let rest = diff_regions(prev, cur, width, grid.take(m - 1), seen);
        if emits(prev, cur, width, r, seen) {
            let g = region_of(cur, width, r);
            assert(rest.push(g).drop_last() =~= rest);
            if r.contains(x, y) {
                assert(m - 1 == k0);
                lemma_tile_pixel(cur, width, r, x, y, c);
            } else {
                assert(m - 1 != k0);
            }
        } else {
            if k0 == m - 1 {
                assert(r == grid[k0]);
            }
        }
    }
}

/// The first encoded frame, painted over a blank canvas, is the first raw
/// frame.
pub proof fn lemma_first_frame_bootstrap(raws: Seq<RawView>, width: u32, height: u32, tile: u32)
    requires
        0 < tile,
        raws.len() > 0,
        raws[0].pixels.len() == width * height * 4,
    ensures
        forall|x: int, y: int, c: int|
            0 <= x < width && 0 <= y < height && 0 <= c < 4 ==> #[trigger] shown(
                encoding(raws, width as int, height as int, tile as int).frames,
                1,
                x,
                y,
                c,
            ) == raws[0].pixels[byte_index(width as int, x, y, c)],
{
    let (w, h, t) = (width as int, height as int, tile as int);
    let frames = encoding(raws, w, h, t).frames;
    lemma_prefix_frames(raws, w, h, t, raws.len() as int);
    assert(frames[0] == encode_prefix(raws, w, h, t, 1).frames[0]);
    let px = raws[0].pixels;
    assert(raws[0].pixels.len() == w * h * 4);
    let full = full_rect(w, h);
    assert forall|x: int, y: int, c: int|
        0 <= x < width && 0 <= y < height && 0 <= c < 4 implies #[trigger] shown(frames, 1, x, y, c)
            == px[byte_index(w, x, y, c)] by {
        assert(row_start(w, full, h - 1) + w * 4 == w * h * 4) by (nonlinear_arith)
            requires row_start(w, full, h - 1) == ((0 + (h - 1)) * w + 0) * 4;
        assert(fits(px, w, full));
        lemma_tile_pixel(px, w, full, x, y, c);
        let g = region_of(px, w, full);
        assert(frames[0].regions == seq![g]);
        assert(seq![g].drop_last().len() == 0);
        assert(((y - 0) * w + (x - 0)) * 4 + c == byte_index(w, x, y, c));
    }
}

proof fn lemma_diff_same_empty(px: Seq<u8>, width: int, tiles: Seq<Rect>, seen: Seq<RegionView>)
    ensures
        diff_regions(px, px, width, tiles, seen).len() == 0,
    decreases tiles.len(),
{
    if tiles.len() > 0 {
        lemma_diff_same_empty(px, width, tiles.drop_last(), seen);
    }
}

/// A raw frame equal to the one before it is encoded with no regions.
pub proof fn lemma_identical_frames_no_regions(
    raws: Seq<RawView>,
    width: u32,
    height: u32,
    tile: u32,
    i: int,
)
    requires
        1 <= i < raws.len(),
        raws[i - 1].pixels == raws[i].pixels,
    ensures
        encoding(raws, width as int, height as int, tile as int).frames[i].regions.len() == 0,
{
    let (w, h, t) = (width as int, height as int, tile as int);
    lemma_prefix_frames(raws, w, h, t, raws.len() as int);
    assert(encoding(raws, w, h, t).frames[i] == encode_prefix(raws, w, h, t, i + 1).frames[i]);
    let s = encode_prefix(raws, w, h, t, i);
    lemma_prefix_frames(raws, w, h, t, i);
    assert(raws[i - 1].pixels == raws[i].pixels);
    lemma_diff_same_empty(raws[i].pixels, w, tile_grid(w, h, t), s.seen);
}

/// Whether a region's buffer holds exactly its rectangle's RGBA pixels.
pub open spec fn sized(g: RegionView) -> bool {
    g.pixels.len() == g.rect.width * g.rect.height * 4
}

proof fn lemma_diff_sized(prev: Seq<u8>, cur: Seq<u8>, width: int, tiles: Seq<Rect>, seen: Seq<RegionView>)
    requires
        0 <= width,
    ensures
        forall|k: int|
            0 <= k < diff_regions(prev, cur, width, tiles, seen).len() ==> sized(
                #[trigger] diff_regions(prev, cur, width, tiles, seen)[k],
            ),
    decreases tiles.len(),
{
    if tiles.len() > 0 {
        lemma_diff_sized(prev, cur, width, tiles.drop_last(), seen);
        let rest = diff_regions(prev, cur, width, tiles.drop_last(), seen);
        let all = diff_regions(prev, cur, width, tiles, seen);
        let r = tiles.last();
        if emits(prev, cur, width, r, seen) {
            lemma_tile_pixel(cur, width, r, r.x as int, r.y as int, 0);
        }
        assert forall|k: int| 0 <= k < all.len() implies sized(#[trigger] all[k]) by {
            if k < rest.len() {
                assert(all[k] == rest[k]);
            }
        }
    }
}

/// Every emitted region's buffer holds `width * height * 4` bytes.
pub proof fn lemma_region_buffers_sized(raws: Seq<RawView>, width: u32, height: u32, tile: u32)
    ensures
        forall|i: int, k: int|
            0 <= i < encoding(raws, width as int, height as int, tile as int).frames.len() && 0 <= k
                < encoding(raws, width as int, height as int, tile as int).frames[i].regions.len()
                ==> sized(
                #[trigger] encoding(raws, width as int, height as int, tile as int).frames[i].regions[k],
            ),
{
    let (w, h, t) = (width as int, height as int, tile as int);
    let frames = encoding(raws, w, h, t).frames;
    lemma_prefix_frames(raws, w, h, t, raws.len() as int);
    assert forall|i: int, k: int| 0 <= i < frames.len() && 0 <= k < frames[i].regions.len() implies sized(
        #[trigger] frames[i].regions[k],
    ) by {
        assert(frames[i] == encode_prefix(raws, w, h, t, i + 1).frames[i]);
        if i == 0 {
            let full = full_rect(w, h);
            if fits(raws[0].pixels, w, full) {
                lemma_tile_pixel(raws[0].pixels, w, full, 0, 0, 0);
            }
        } else {
            let s = encode_prefix(raws, w, h, t, i);
            lemma_prefix_frames(raws, w, h, t, i);
            lemma_diff_sized(raws[i - 1].pixels, raws[i].pixels, w, tile_grid(w, h, t), s.seen);
        }
    }
}

/// Encoding is a function of its input: the same raw frames give the same
/// frames and the same skipped tiles.
pub proof fn lemma_encoding_deterministic(
    a: Seq<RawView>,
    b: Seq<RawView>,
    width: u32,
    height: u32,
    tile: u32,
)
    requires
        a == b,
    ensures
        encoding(a, width as int, height as int, tile as int) == encoding(
            b,
            width as int,
            height as int,
            tile as int,
        ),
{
}

/// Painting the regions of every frame in order over a blank canvas gives
/// back each raw frame, as long as no changed tile was left out as a repeat.
pub proof fn lemma_round_trip(raws: Seq<RawView>, width: u32, height: u32, tile: u32)
    requires
        0 < tile,
        full_buffers(raws, width as int, height as int),
        nothing_suppressed(raws, width as int, height as int, tile as int),
    ensures
        forall|i: int, x: int, y: int, c: int|
            0 <= i < raws.len() && 0 <= x < width && 0 <= y < height && 0 <= c < 4 ==> #[trigger] shown(
                encoding(raws, width as int, height as int, tile as int).frames,
                i + 1,
                x,
                y,
                c,
            ) == raws[i].pixels[byte_index(width as int, x, y, c)],
{
    let (w, h, t) = (width as int, height as int, tile as int);
    let frames = encoding(raws, w, h, t).frames;
    assert forall|i: int, x: int, y: int, c: int|
        0 <= i < raws.len() && 0 <= x < width && 0 <= y < height && 0 <= c < 4 implies #[trigger] shown(
            frames,
            i + 1,
            x,
            y,
            c,
        ) == raws[i].pixels[byte_index(w, x, y, c)] by {
        lemma_round_trip_at(raws, width, height, tile, i, x, y, c);
    }
}

proof fn lemma_round_trip_at(raws: Seq<RawView>, width: u32, height: u32, tile: u32, i: int, x: int, y: int, c: int)
    requires
        0 < tile,
        full_buffers(raws, width as int, height as int),
        nothing_suppressed(raws, width as int, height as int, tile as int),
        0 <= i < raws.len(),
        0 <= x < width,
        0 <= y < height,
        0 <= c < 4,
    ensures
        shown(encoding(raws, width as int, height as int, tile as int).frames, i + 1, x, y, c)
            == raws[i].pixels[byte_index(width as int, x, y, c)],
    decreases i,
{
    let (w, h, t) = (width as int, height as int, tile as int);
    let frames = encoding(raws, w, h, t).frames;
    if i == 0 {
        assert(raws[0].pixels.len() == w * h * 4);
        lemma_first_frame_bootstrap(raws, width, height, tile);
        assert(shown(frames, 1, x, y, c) == raws[0].pixels[byte_index(w, x, y, c)]);
    } else {
        lemma_round_trip_at(raws, width, height, tile, i - 1, x, y, c);
        lemma_prefix_frames(raws, w, h, t, raws.len() as int);
        assert(frames[i] == encode_prefix(raws, w, h, t, i + 1).frames[i]);
        let grid = tile_grid(w, h, t);
        let s = encode_prefix(raws, w, h, t, i);
        lemma_prefix_frames(raws, w, h, t, i);
        assert(frames[i].regions == diff_regions(raws[i - 1].pixels, raws[i].pixels, w, grid, s.seen));
        let prev = raws[i - 1].pixels;
        let cur = raws[i].pixels;
        assert(prev.len() == w * h * 4);
        assert(cur.len() == w * h * 4);
        let k0 = lemma_tile_of_pixel(w, h, t, x, y);
        lemma_paint_diff(prev, cur, w, h, t, s.seen, grid.len() as int, x, y, c, k0, shown(frames, i, x, y, c));
        assert(grid.take(grid.len() as int) =~= grid);
        let r = grid[k0];
        lemma_grid_fits(cur, w, h, t, k0);
        if tile_changed(prev, cur, w, r) {
            assert(!s.seen.contains(region_of(cur, w, r)));
        } else {
            lemma_tile_pixel(prev, w, r, x, y, c);
            lemma_tile_pixel(cur, w, r, x, y, c);
        }
    }
}

proof fn lemma_seeded_contains(px: Seq<u8>, width: int, tiles: Seq<Rect>, k: int)
    requires
        0 <= k < tiles.len(),
        fits(px, width, tiles[k]),
    ensures
        seeded(px, width, tiles).contains(region_of(px, width, tiles[k])),
    decreases tiles.len(),
{
    let rest = tiles.drop_last();
    if k < tiles.len() - 1 {
        assert(rest[k] == tiles[k]);
        lemma_seeded_contains(px, width, rest, k);
        let before = seeded(px, width, rest);
        let j = choose|j: int| 0 <= j < before.len() && before[j] == region_of(px, width, tiles[k]);
        if fits(px, width, tiles.last()) {
            assert(before.push(region_of(px, width, tiles.last()))[j] == before[j]);
        }
    } else {
        let all = seeded(px, width, tiles);
        assert(all[all.len() - 1] == region_of(px, width, tiles[k]));
    }
}

proof fn lemma_seen_keeps_first(raws: Seq<RawView>, width: int, height: int, tile: int, i: int, g: RegionView)
    requires
        1 <= i,
        encode_prefix(raws, width, height, tile, 1).seen.contains(g),
    ensures
        encode_prefix(raws, width, height, tile, i).seen.contains(g),
    decreases i,
{
    if i > 1 {
        lemma_seen_keeps_first(raws, width, height, tile, i - 1, g);
        let before = encode_prefix(raws, width, height, tile, i - 1).seen;
        let after = encode_prefix(raws, width, height, tile, i).seen;
        let j = choose|j: int| 0 <= j < before.len() && before[j] == g;
        assert(after[j] == before[j]);
    }
}

proof fn lemma_diff_none(prev: Seq<u8>, cur: Seq<u8>, width: int, tiles: Seq<Rect>, seen: Seq<RegionView>)
    requires
        forall|k: int| 0 <= k < tiles.len() ==> !emits(prev, cur, width, #[trigger] tiles[k], seen),
    ensures
        diff_regions(prev, cur, width, tiles, seen).len() == 0,
    decreases tiles.len(),
{
    if tiles.len() > 0 {
        let rest = tiles.drop_last();
        assert forall|k: int| 0 <= k < rest.len() implies !emits(prev, cur, width, #[trigger] rest[k], seen) by {
            assert(rest[k] == tiles[k]);
        }
        lemma_diff_none(prev, cur, width, rest, seen);
        assert(!emits(prev, cur, width, tiles[tiles.len() - 1], seen));
    }
}

/// A later frame equal to the first one is encoded with no regions: each of
/// its tiles either did not change or holds what the opening full-canvas
/// region already sent.
pub proof fn lemma_return_to_first_frame(raws: Seq<RawView>, width: u32, height: u32, tile: u32, i: int)
    requires
        0 < tile,
        1 <= i < raws.len(),
        raws[0].pixels.len() == width * height * 4,
        raws[i].pixels == raws[0].pixels,
    ensures
        encoding(raws, width as int, height as int, tile as int).frames[i].regions.len() == 0,
{
    let (w, h, t) = (width as int, height as int, tile as int);
    let grid = tile_grid(w, h, t);
    let px = raws[0].pixels;
    lemma_prefix_frames(raws, w, h, t, raws.len() as int);
    lemma_prefix_frames(raws, w, h, t, i);
    assert(encoding(raws, w, h, t).frames[i] == encode_prefix(raws, w, h, t, i + 1).frames[i]);
    let seen = encode_prefix(raws, w, h, t, i).seen;
    assert forall|k: int| 0 <= k < grid.len() implies !emits(raws[i - 1].pixels, raws[i].pixels, w, #[trigger] grid[k], seen) by {
        lemma_grid_fits(px, w, h, t, k);
        lemma_grid_tile_inside(w, h, t, k);
        let full = full_rect(w, h);
        assert(row_start(w, full, h - 1) + w * 4 == w * h * 4) by (nonlinear_arith)
            requires row_start(w, full, h - 1) == ((0 + (h - 1)) * w + 0) * 4;
        assert(fits(px, w, full));
        lemma_seeded_contains(px, w, grid, k);
        lemma_seen_keeps_first(raws, w, h, t, i, region_of(px, w, grid[k]));
    }
    lemma_diff_none(raws[i - 1].pixels, raws[i].pixels, w, grid, seen);
}

} // verus!
