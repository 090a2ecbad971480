//! Frame-diff encoding: each frame of an animation becomes the set of
//! rectangular regions whose pixels changed since the frame before.
use crate::geometry::{byte_index, tile_grid, tile_grid_of, Rect};
use vstd::prelude::*;

verus! {

/// Start of row `j` of rectangle `r` in an RGBA buffer of `width`-pixel rows.
pub open spec fn row_start(width: int, r: Rect, j: int) -> int {
    byte_index(width, r.x as int, r.y + j, 0)
}

/// The bytes of the first `n` rows of `r` in `px`, one row after the other.
pub open spec fn tile_rows(px: Seq<u8>, width: int, r: Rect, n: int) -> Seq<u8>
    decreases n,
{
    if n <= 0 {
        seq![]
    } else {
        let s = row_start(width, r, n - 1);
        tile_rows(px, width, r, n - 1) + px.subrange(s, s + r.width * 4)
    }
}

/// The pixels of rectangle `r` cut out of `px`, with a pitch of `r.width * 4`.
pub open spec fn tile_bytes(px: Seq<u8>, width: int, r: Rect) -> Seq<u8> {
    tile_rows(px, width, r, r.height as int)
}

/// Whether `r` is a non-empty rectangle whose rows, at `width` pixels per row,
/// all lie inside the buffer `px`.
pub open spec fn fits(px: Seq<u8>, width: int, r: Rect) -> bool {
    &&& 0 < r.width
    &&& 0 < r.height
    &&& r.x + r.width <= width
    &&& row_start(width, r, r.height - 1) + r.width * 4 <= px.len()
}

proof fn lemma_row_start_mono(width: int, r: Rect, i: int, j: int)
    requires
        0 <= width,
        0 <= i <= j,
    ensures
        0 <= row_start(width, r, i) <= row_start(width, r, j),
        row_start(width, r, j) == row_start(width, r, i) + (j - i) * width * 4,
{
    assert(0 <= row_start(width, r, i) <= row_start(width, r, j)) by (nonlinear_arith)
        requires 0 <= width, 0 <= i <= j, r.y >= 0, r.x >= 0;
    assert(row_start(width, r, j) == row_start(width, r, i) + (j - i) * width * 4)
        by (nonlinear_arith);
}

/// Byte `k` of row `j` of the cut-out is byte `k` of that row in the buffer.
pub proof fn lemma_tile_rows(px: Seq<u8>, width: int, r: Rect, n: int)
    requires
        0 <= width,
        0 <= n <= r.height,
        n > 0 ==> row_start(width, r, n - 1) + r.width * 4 <= px.len(),
    ensures
        tile_rows(px, width, r, n).len() == n * r.width * 4,
        forall|j: int, k: int|
            0 <= j < n && 0 <= k < r.width * 4 ==> #[trigger] tile_rows(px, width, r, n)[j * r.width * 4 + k]
                == px[row_start(width, r, j) + k],
    decreases n,
{
    if n > 0 {
        lemma_row_start_mono(width, r, 0, n - 1);
        if n > 1 {
            lemma_row_start_mono(width, r, n - 2, n - 1);
            assert(row_start(width, r, n - 2) + r.width * 4 <= px.len()) by (nonlinear_arith)
                requires row_start(width, r, n - 1) == row_start(width, r, n - 2) + (1) * width * 4,
                    row_start(width, r, n - 1) + r.width * 4 <= px.len(), 0 <= width;
        }
        lemma_tile_rows(px, width, r, n - 1);
        let prev = tile_rows(px, width, r, n - 1);
        let s = row_start(width, r, n - 1);
        assert((n - 1) * r.width * 4 + r.width * 4 == n * r.width * 4) by (nonlinear_arith);
        assert(tile_rows(px, width, r, n).len() == prev.len() + r.width * 4);
        assert forall|j: int, k: int|
            0 <= j < n && 0 <= k < r.width * 4 implies #[trigger] tile_rows(px, width, r, n)[j * r.width * 4 + k]
                == px[row_start(width, r, j) + k] by {
            if j < n - 1 {
                assert(j * r.width * 4 + k < (n - 1) * r.width * 4) by (nonlinear_arith)
                    requires j < n - 1, 0 <= k < r.width * 4;
                assert(0 <= j * r.width * 4 + k) by (nonlinear_arith)
                    requires 0 <= j, 0 <= k, r.width >= 0;
            } else {
                assert(j * r.width * 4 + k - (n - 1) * r.width * 4 == k) by (nonlinear_arith)
                    requires j == n - 1;
            }
        }
    } else {
        assert(n * r.width * 4 == 0) by (nonlinear_arith) requires n == 0;
    }
}

/// Inside a rectangle that fits, the cut-out holds the buffer's pixels.
pub proof fn lemma_tile_pixel(px: Seq<u8>, width: int, r: Rect, x: int, y: int, c: int)
    requires
        0 <= width,
        fits(px, width, r),
        r.contains(x, y),
        0 <= c < 4,
    ensures
        tile_bytes(px, width, r).len() == r.width * r.height * 4,
        0 <= ((y - r.y) * r.width + (x - r.x)) * 4 + c < r.width * r.height * 4,
        0 <= byte_index(width, x, y, c) < px.len(),
        tile_bytes(px, width, r)[((y - r.y) * r.width + (x - r.x)) * 4 + c]
            == px[byte_index(width, x, y, c)],
{
    lemma_tile_rows(px, width, r, r.height as int);
    let j = y - r.y;
    let k = (x - r.x) * 4 + c;
    assert(((y - r.y) * r.width + (x - r.x)) * 4 + c == j * r.width * 4 + k) by (nonlinear_arith)
        requires j == y - r.y, k == (x - r.x) * 4 + c;
    assert(tile_rows(px, width, r, r.height as int).len() == r.width * r.height * 4) by (nonlinear_arith)
        requires tile_rows(px, width, r, r.height as int).len() == r.height * r.width * 4;
    assert(0 <= j * r.width * 4 + k < r.width * r.height * 4) by (nonlinear_arith)
        requires 0 <= j < r.height, 0 <= k < r.width * 4;
    lemma_row_start_mono(width, r, j, r.height - 1);
    assert(row_start(width, r, j) + k == byte_index(width, x, y, c)) by (nonlinear_arith)
        requires j == y - r.y, k == (x - r.x) * 4 + c;
}

/// Cuts rectangle `r` out of an RGBA buffer whose rows hold `width` pixels.
/// Gives `None` when the rectangle is empty, sticks out of the row, or reaches
/// past the end of the buffer.
pub fn chunk_frame(pixels: &Vec<u8>, width: u32, r: Rect) -> (out: Option<Vec<u8>>)
    ensures
        out is Some <==> fits(pixels@, width as int, r),
        out matches Some(b) ==> b@ == tile_bytes(pixels@, width as int, r),
{
    if r.width == 0 || r.height == 0 || r.x as u64 + r.width as u64 > width as u64 {
        return None;
    }
    let rows: u128 = r.y as u128 + r.height as u128 - 1;
    assert(rows * width <= 0x1_0000_0000_0000_0000_0000u128) by (nonlinear_arith)
        requires rows <= 0x2_0000_0000, width <= 0xffff_ffff;
    let end: u128 = (rows * width as u128 + r.x as u128 + r.width as u128) * 4;
    assert(end == row_start(width as int, r, r.height - 1) + r.width * 4);
    if end > pixels.len() as u128 {
        return None;
    }
    let ghost w = width as int;
    let len: usize = pixels.len();
    let row_len: usize = r.width as usize * 4;
    let mut out: Vec<u8> = Vec::new();
    let mut j: u32 = 0;
    while j < r.height
        invariant
            0 <= j <= r.height,
            fits(pixels@, w, r),
            w == width,
            len == pixels@.len(),
            row_len == r.width * 4,
            out@ == tile_rows(pixels@, w, r, j as int),
        decreases r.height - j,
    {
        proof {
            lemma_row_start_mono(w, r, j as int, r.height - 1);
        }
        assert(0 <= r.y + j <= (r.y + j) * w <= (r.y + j) * w + r.x) by (nonlinear_arith)
            requires r.y + j >= 0, w >= 1, r.x >= 0;
        assert(((r.y + j) * w + r.x) * 4 + row_len <= pixels@.len());
        let ry: usize = r.y as usize + j as usize;
        let start: usize = (ry * (width as usize) + r.x as usize) * 4;
        assert(start == row_start(w, r, j as int));
        let mut k: usize = 0;
        while k < row_len
            invariant
                0 <= k <= row_len,
                row_len == r.width * 4,
                start == row_start(w, r, j as int),
                start + row_len <= len,
                len == pixels@.len(),
                out@ == tile_rows(pixels@, w, r, j as int) + pixels@.subrange(
                    start as int,
                    start + k,
                ),
            decreases row_len - k,
        {
            out.push(pixels[start + k]);
            k = k + 1;
            assert(out@ =~= tile_rows(pixels@, w, r, j as int) + pixels@.subrange(
                start as int,
                start + k,
            ));
        }
        j = j + 1;
    }
    Some(out)
}

/// A rectangle of a frame whose pixels must be redrawn, with those pixels
/// (`pitch` bytes per row).
pub struct DirtyRegion {
    pub rect: Rect,
    pub pitch: usize,
    pub pixels: Vec<u8>,
}

/// What a `DirtyRegion` holds.
pub struct RegionView {
    pub rect: Rect,
    pub pitch: usize,
    pub pixels: Seq<u8>,
}

impl View for DirtyRegion {
    type V = RegionView;

    open spec fn view(&self) -> RegionView {
        RegionView { rect: self.rect, pitch: self.pitch, pixels: self.pixels@ }
    }
}

/// One encoded frame: how long it stays on screen (in ticks) and the regions
/// that change when it is shown.
pub struct Frame {
    pub delay: u32,
    pub regions: Vec<DirtyRegion>,
}

/// What a `Frame` holds.
pub struct FrameView {
    pub delay: u32,
    pub regions: Seq<RegionView>,
}

impl View for Frame {
    type V = FrameView;

    open spec fn view(&self) -> FrameView {
        FrameView { delay: self.delay, regions: regions_view(self.regions@) }
    }
}

/// One decoded frame: a full-canvas RGBA buffer and its delay.
pub struct RawFrame {
    pub delay: u32,
    pub pixels: Vec<u8>,
}

/// What a `RawFrame` holds.
pub struct RawView {
    pub delay: u32,
    pub pixels: Seq<u8>,
}

impl View for RawFrame {
    type V = RawView;

    open spec fn view(&self) -> RawView {
        RawView { delay: self.delay, pixels: self.pixels@ }
    }
}

/// A tile of frame `frame` that could not be cut out of its buffer.
#[derive(Clone, Copy, Debug, PartialEq, Eq, Structural)]
pub struct GeometryError {
    pub frame: usize,
    pub rect: Rect,
}

/// The encoded frames of an animation, and the tiles that were skipped.
pub struct Encoded {
    pub frames: Vec<Frame>,
    pub skipped: Vec<GeometryError>,
}

/// The views of a sequence of regions.
pub open spec fn regions_view(v: Seq<DirtyRegion>) -> Seq<RegionView> {
    v.map_values(|g: DirtyRegion| g@)
}

/// The views of a sequence of encoded frames.
pub open spec fn frames_view(v: Seq<Frame>) -> Seq<FrameView> {
    v.map_values(|f: Frame| f@)
}

/// The views of a sequence of raw frames.
pub open spec fn raws_view(v: Seq<RawFrame>) -> Seq<RawView> {
    v.map_values(|f: RawFrame| f@)
}

/// The region that carries rectangle `r` of buffer `px`.
pub open spec fn region_of(px: Seq<u8>, width: int, r: Rect) -> RegionView {
    RegionView { rect: r, pitch: (r.width * 4) as usize, pixels: tile_bytes(px, width, r) }
}

/// Whether tile `r` holds other pixels in `cur` than in `prev`.
pub open spec fn tile_changed(prev: Seq<u8>, cur: Seq<u8>, width: int, r: Rect) -> bool {
    !(fits(prev, width, r) && tile_bytes(prev, width, r) == tile_bytes(cur, width, r))
}

/// Whether tile `r` of `cur` is emitted: it can be cut out, it changed since
/// `prev`, and the same region was not already sent (`seen`).
pub open spec fn emits(prev: Seq<u8>, cur: Seq<u8>, width: int, r: Rect, seen: Seq<RegionView>) -> bool {
    &&& fits(cur, width, r)
    &&& tile_changed(prev, cur, width, r)
    &&& !seen.contains(region_of(cur, width, r))
}

/// The regions emitted for `cur` after `prev`, over `tiles` in order.
pub open spec fn diff_regions(
    prev: Seq<u8>,
    cur: Seq<u8>,
    width: int,
    tiles: Seq<Rect>,
    seen: Seq<RegionView>,
) -> Seq<RegionView>
    decreases tiles.len(),
{
    if tiles.len() == 0 {
        seq![]
    } else {
        let rest = diff_regions(prev, cur, width, tiles.drop_last(), seen);
        if emits(prev, cur, width, tiles.last(), seen) {
            rest.push(region_of(cur, width, tiles.last()))
        } else {
            rest
        }
    }
}

/// The tiles of frame `frame` (buffer `cur`) that cannot be cut out.
pub open spec fn diff_skipped(cur: Seq<u8>, width: int, tiles: Seq<Rect>, frame: int) -> Seq<
    GeometryError,
>
    decreases tiles.len(),
{
    if tiles.len() == 0 {
        seq![]
    } else {
        let rest = diff_skipped(cur, width, tiles.drop_last(), frame);
        if fits(cur, width, tiles.last()) {
            rest
        } else {
            rest.push(GeometryError { frame: frame as usize, rect: tiles.last() })
        }
    }
}

/// The tiles of the first frame, as regions: the full-canvas region that
/// opens an animation sends each of them.
pub open spec fn seeded(px: Seq<u8>, width: int, tiles: Seq<Rect>) -> Seq<RegionView>
    decreases tiles.len(),
{
    if tiles.len() == 0 {
        seq![]
    } else {
        let rest = seeded(px, width, tiles.drop_last());
        if fits(px, width, tiles.last()) {
            rest.push(region_of(px, width, tiles.last()))
        } else {
            rest
        }
    }
}

/// The rectangle of a whole `width` x `height` canvas.
pub open spec fn full_rect(width: int, height: int) -> Rect {
    Rect { x: 0, y: 0, width: width as u32, height: height as u32 }
}

/// Where encoding stands after some frames: the frames so far, every region
/// sent so far, and the tiles skipped so far.
pub struct EncodeState {
    pub frames: Seq<FrameView>,
    pub seen: Seq<RegionView>,
    pub skipped: Seq<GeometryError>,
}

/// The encoding of the first `n` raw frames.
pub open spec fn encode_prefix(raws: Seq<RawView>, width: int, height: int, tile: int, n: int) -> EncodeState
    decreases n,
{
    if n <= 0 {
        EncodeState { frames: seq![], seen: seq![], skipped: seq![] }
    } else if n == 1 {
        let px = raws[0].pixels;
        let full = full_rect(width, height);
        if fits(px, width, full) {
            EncodeState {
                frames: seq![FrameView { delay: raws[0].delay, regions: seq![region_of(px, width, full)] }],
                seen: seeded(px, width, tile_grid(width, height, tile)),
                skipped: seq![],
            }
        } else {
            EncodeState {
                frames: seq![FrameView { delay: raws[0].delay, regions: seq![] }],
                seen: seq![],
                skipped: seq![GeometryError { frame: 0, rect: full }],
            }
        }
    } else {
        let s = encode_prefix(raws, width, height, tile, n - 1);
        let grid = tile_grid(width, height, tile);
        let prev = raws[n - 2].pixels;
        let cur = raws[n - 1].pixels;
        let regions = diff_regions(prev, cur, width, grid, s.seen);
        EncodeState {
            frames: s.frames.push(FrameView { delay: raws[n - 1].delay, regions }),
            seen: s.seen + regions,
            skipped: s.skipped + diff_skipped(cur, width, grid, n - 1),
        }
    }
}

/// The encoding of a whole raw frame sequence.
pub open spec fn encoding(raws: Seq<RawView>, width: int, height: int, tile: int) -> EncodeState {
    encode_prefix(raws, width, height, tile, raws.len() as int)
}

fn same_bytes(a: &Vec<u8>, b: &Vec<u8>) -> (r: bool)
    ensures
        r == (a@ == b@),
{
    if a.len() != b.len() {
        return false;
    }
    let mut i: usize = 0;
    while i < a.len()
        invariant
            a@.len() == b@.len(),
            i <= a@.len(),
            a@.take(i as int) == b@.take(i as int),
        decreases a.len() - i,
    {
        if a[i] != b[i] {
            assert(a@.take(i + 1)[i as int] != b@.take(i + 1)[i as int]);
            return false;
        }
        assert(a@.take(i + 1) =~= a@.take(i as int).push(a@[i as int]));
        assert(b@.take(i + 1) =~= b@.take(i as int).push(b@[i as int]));
        i = i + 1;
    }
    assert(a@ =~= a@.take(i as int));
    assert(b@ =~= b@.take(i as int));
    true
}

fn copy_region(g: &DirtyRegion) -> (r: DirtyRegion)
    ensures
        r@ == g@,
{
    let mut pixels: Vec<u8> = Vec::new();
    let mut i: usize = 0;
    while i < g.pixels.len()
        invariant
            i <= g.pixels@.len(),
            pixels@ == g.pixels@.take(i as int),
        decreases g.pixels.len() - i,
    {
        pixels.push(g.pixels[i]);
        i = i + 1;
        assert(pixels@ =~= g.pixels@.take(i as int));
    }
    assert(pixels@ =~= g.pixels@);
    DirtyRegion { rect: g.rect, pitch: g.pitch, pixels }
}

/// Whether a region with the same rectangle, pitch and pixels as `square`
/// was already sent.
pub fn check_square(history: &Vec<DirtyRegion>, square: &DirtyRegion) -> (r: bool)
    ensures
        r == regions_view(history@).contains(square@),
{
    let mut i: usize = 0;
    while i < history.len()
        invariant
            i <= history@.len(),
            forall|j: int| 0 <= j < i ==> regions_view(history@)[j] != square@,
        decreases history.len() - i,
    {
        let g = &history[i];
        if g.rect == square.rect && g.pitch == square.pitch && same_bytes(&g.pixels, &square.pixels) {
            assert(regions_view(history@)[i as int] == square@);
            return true;
        }
        i = i + 1;
    }
    false
}

proof fn lemma_fits_row(px: Seq<u8>, width: int, r: Rect)
    requires
        0 <= width,
        fits(px, width, r),
    ensures
        r.width * 4 <= px.len(),
{
    lemma_row_start_mono(width, r, 0, r.height - 1);
}

/// The regions of `cur` that changed since `prev`, one per changed tile of
/// `grid` that was not already sent; the tiles that cannot be cut out are
/// added to `skipped`.
fn diff_frame(
    prev: &Vec<u8>,
    cur: &Vec<u8>,
    width: u32,
    grid: &Vec<Rect>,
    history: &Vec<DirtyRegion>,
    index: usize,
    skipped: &mut Vec<GeometryError>,
) -> (regions: Vec<DirtyRegion>)
    ensures
        regions_view(regions@) == diff_regions(prev@, cur@, width as int, grid@, regions_view(history@)),
        final(skipped)@ == old(skipped)@ + diff_skipped(cur@, width as int, grid@, index as int),
{
    let ghost seen = regions_view(history@);
    let ghost skipped0 = skipped@;
    let mut regions: Vec<DirtyRegion> = Vec::new();
    let mut t: usize = 0;
    while t < grid.len()
        invariant
            t <= grid@.len(),
            seen == regions_view(history@),
            regions_view(regions@) == diff_regions(prev@, cur@, width as int, grid@.take(t as int), seen),
            skipped@ == skipped0 + diff_skipped(cur@, width as int, grid@.take(t as int), index as int),
        decreases grid.len() - t,
    {
        let rect = grid[t];
        let ghost tiles = grid@.take(t + 1);
        assert(tiles.drop_last() =~= grid@.take(t as int));
        assert(tiles.last() == rect);
        match chunk_frame(cur, width, rect) {
            None => {
                skipped.push(GeometryError { frame: index, rect });
                assert(skipped@ =~= skipped0 + diff_skipped(cur@, width as int, tiles, index as int));
            },
            Some(bytes) => {
                let unchanged = match chunk_frame(prev, width, rect) {
                    Some(before) => same_bytes(&before, &bytes),
                    None => false,
                };
                if !unchanged {
                    proof {
                        lemma_fits_row(cur@, width as int, rect);
                    }
                    let cur_len: usize = cur.len();
                    assert(rect.width * 4 <= cur_len);
                    let g = DirtyRegion { rect, pitch: rect.width as usize * 4, pixels: bytes };
                    if !check_square(history, &g) {
                        regions.push(g);
                        assert(regions_view(regions@) =~= diff_regions(prev@, cur@, width as int, grid@.take(t as int), seen).push(g@));
                    }
                }
                assert(skipped@ =~= skipped0 + diff_skipped(cur@, width as int, tiles, index as int));
            },
        }
        t = t + 1;
    }
    assert(grid@.take(t as int) =~= grid@);
    regions
}

/// The tiles of the first frame that can be cut out of it, as regions.
fn seed(px: &Vec<u8>, width: u32, grid: &Vec<Rect>) -> (r: Vec<DirtyRegion>)
    ensures
        regions_view(r@) == seeded(px@, width as int, grid@),
{
    let mut out: Vec<DirtyRegion> = Vec::new();
    let mut t: usize = 0;
    while t < grid.len()
        invariant
            t <= grid@.len(),
            regions_view(out@) == seeded(px@, width as int, grid@.take(t as int)),
        decreases grid.len() - t,
    {
        let rect = grid[t];
        let ghost tiles = grid@.take(t + 1);
        assert(tiles.drop_last() =~= grid@.take(t as int));
        if let Some(bytes) = chunk_frame(px, width, rect) {
            proof {
                lemma_fits_row(px@, width as int, rect);
            }
            let px_len: usize = px.len();
            assert(rect.width * 4 <= px_len);
            let g = DirtyRegion { rect, pitch: rect.width as usize * 4, pixels: bytes };
            out.push(g);
            assert(regions_view(out@) =~= seeded(px@, width as int, grid@.take(t as int)).push(g@));
        }
        t = t + 1;
    }
    assert(grid@.take(t as int) =~= grid@);
    out
}

/// Encodes the raw frames of one animation on a `width` x `height` canvas cut
/// into tiles of side `tile`. The first frame becomes one region covering the
/// whole canvas; every later frame becomes the tiles that differ from the raw
/// frame before it, leaving out any region (same rectangle, same pixels) that
/// was already sent. Tiles that cannot be cut out of their buffer are
/// reported in `skipped`.
pub fn encode_frames(width: u32, height: u32, tile: u32, raws: &Vec<RawFrame>) -> (r: Encoded)
    requires
        0 < tile,
        width as int * height as int * 4 <= usize::MAX,
    ensures
        frames_view(r.frames@) == encoding(raws_view(raws@), width as int, height as int, tile as int).frames,
        r.skipped@ == encoding(raws_view(raws@), width as int, height as int, tile as int).skipped,
{
    let ghost rv = raws_view(raws@);
    let ghost (w, h, tl) = (width as int, height as int, tile as int);
    let grid = tile_grid_of(width, height, tile);
    let mut frames: Vec<Frame> = Vec::new();
    let mut history: Vec<DirtyRegion> = Vec::new();
    let mut skipped: Vec<GeometryError> = Vec::new();
    if raws.len() == 0 {
        assert(frames_view(frames@) =~= seq![]);
        return Encoded { frames, skipped };
    }
    let full = Rect { x: 0, y: 0, width, height };
    assert(full == full_rect(w, h));
    match chunk_frame(&raws[0].pixels, width, full) {
        Some(bytes) => {
            proof {
                lemma_fits_row(raws@[0].pixels@, w, full);
            }
            let px_len: usize = raws[0].pixels.len();
            assert(width * 4 <= px_len);
            let mut regions: Vec<DirtyRegion> = Vec::new();
            regions.push(DirtyRegion { rect: full, pitch: width as usize * 4, pixels: bytes });
            assert(regions_view(regions@) =~= seq![region_of(raws@[0].pixels@, w, full)]);
            frames.push(Frame { delay: raws[0].delay, regions });
            history = seed(&raws[0].pixels, width, &grid);
        },
        None => {
            let regions: Vec<DirtyRegion> = Vec::new();
            assert(regions_view(regions@) =~= seq![]);
            frames.push(Frame { delay: raws[0].delay, regions });
            skipped.push(GeometryError { frame: 0, rect: full });
        },
    }
    assert(frames_view(frames@) =~= encode_prefix(rv, w, h, tl, 1).frames);
    assert(skipped@ =~= encode_prefix(rv, w, h, tl, 1).skipped);
    let mut i: usize = 1;
    while i < raws.len()
        invariant
            1 <= i <= raws@.len(),
            rv == raws_view(raws@),
            grid@ == tile_grid(w, h, tl),
            w == width,
            frames_view(frames@) == encode_prefix(rv, w, h, tl, i as int).frames,
            regions_view(history@) == encode_prefix(rv, w, h, tl, i as int).seen,
            skipped@ == encode_prefix(rv, w, h, tl, i as int).skipped,
        decreases raws.len() - i,
    {
        let ghost hist0 = history@;
        let regions = diff_frame(&raws[i - 1].pixels, &raws[i].pixels, width, &grid, &history, i, &mut skipped);
        let mut j: usize = 0;
        while j < regions.len()
            invariant
                j <= regions@.len(),
                regions_view(history@) == regions_view(hist0) + regions_view(regions@).take(j as int),
            decreases regions.len() - j,
        {
            let g = copy_region(&regions[j]);
            let ghost before = history@;
            history.push(g);
            assert(regions_view(history@) =~= regions_view(before).push(g@));
            assert(regions_view(regions@).take(j + 1) =~= regions_view(regions@).take(j as int).push(g@));
            j = j + 1;
            assert(regions_view(history@) =~= regions_view(hist0) + regions_view(regions@).take(j as int));
        }
        assert(regions_view(regions@).take(j as int) =~= regions_view(regions@));
        let ghost fv = frames_view(frames@);
        frames.push(Frame { delay: raws[i].delay, regions });
        assert(frames_view(frames@) =~= fv.push(frames@.last()@));
        i = i + 1;
    }
    Encoded { frames, skipped }
}

} // verus!
