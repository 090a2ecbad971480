//! Decoding a GIF into full-canvas RGBA frames. The GIF stream itself is
//! decoded by the `gif` crate; placing each of its frames over the canvas
//! left by the frames before is done here.
use crate::diff::{encode_frames, encoding, frames_view, raws_view, GeometryError, RawFrame, RawView};
use crate::playback::Animation;
use crate::geometry::byte_index;
use vstd::prelude::*;

verus! {

#[verifier::external_type_specification]
#[verifier::external_body]
pub struct ExGifDecodingError(gif::DecodingError);

/// One frame as a GIF stream holds it: a rectangle of the canvas with its
/// own RGBA pixels, and its delay in hundredths of a second.
pub struct GifFrame {
    pub delay: u16,
    pub left: u16,
    pub top: u16,
    pub width: u16,
    pub height: u16,
    pub pixels: Vec<u8>,
}

/// What a `GifFrame` holds.
pub struct GifFrameView {
    pub delay: u16,
    pub left: u16,
    pub top: u16,
    pub width: u16,
    pub height: u16,
    pub pixels: Seq<u8>,
}

impl View for GifFrame {
    type V = GifFrameView;

    open spec fn view(&self) -> GifFrameView {
        GifFrameView {
            delay: self.delay,
            left: self.left,
            top: self.top,
            width: self.width,
            height: self.height,
            pixels: self.pixels@,
        }
    }
}

/// A decoded GIF stream: the canvas size and the frames in stream order.
pub struct GifImage {
    pub width: u16,
    pub height: u16,
    pub frames: Vec<GifFrame>,
}

/// What a `GifImage` holds.
pub struct GifImageView {
    pub width: u16,
    pub height: u16,
    pub frames: Seq<GifFrameView>,
}

impl View for GifImage {
    type V = GifImageView;

    open spec fn view(&self) -> GifImageView {
        GifImageView {
            width: self.width,
            height: self.height,
            frames: self.frames@.map_values(|f: GifFrame| f@),
        }
    }
}

/// What the `gif` crate decodes from a byte stream, `None` when it reports
/// an error.
pub uninterp spec fn gif_decoded(data: Seq<u8>) -> Option<GifImageView>;

/// Relies on gif's `DecodeOptions::read_info` with RGBA output and on
/// `Decoder::read_next_frame`, called until it reports the end of the stream:
/// the outcome depends on the bytes alone, and each RGBA frame buffer holds
/// `width * height * 4` bytes. The decoder cannot be declared to Verus (its
/// reader parameter is bound by `std::io::Read`), so reading it to the end
/// stays inside this one item.
#[verifier::external_body]
fn decode_gif(data: &[u8]) -> (r: Result<GifImage, gif::DecodingError>)
    ensures
        r is Ok <==> gif_decoded(data@) is Some,
        r matches Ok(img) ==> img@ == gif_decoded(data@)->0,
        r matches Ok(img) ==> forall|k: int|
            0 <= k < img.frames@.len() ==> (#[trigger] img.frames@[k]).pixels@.len()
                == img.frames@[k].width * img.frames@[k].height * 4,
{
    let mut options = gif::DecodeOptions::new();
    options.set_color_output(gif::ColorOutput::RGBA);
    let mut decoder = options.read_info(data)?;
    let mut frames = Vec::new();
    while let Some(f) = decoder.read_next_frame()? {
        frames.push(GifFrame {
            delay: f.delay, left: f.left, top: f.top, width: f.width, height: f.height,
            pixels: f.buffer.to_vec(),
        });
    }
    Ok(GifImage { width: decoder.width(), height: decoder.height(), frames })
}

/// Why an animation could not be decoded.
#[derive(Clone, Copy, Debug, PartialEq, Eq, Structural)]
pub enum DecodeError {
    /// The byte stream is not a GIF the decoder accepts.
    Malformed,
    /// A frame's pixel buffer does not hold its rectangle's RGBA pixels.
    BadFrameBuffer { frame: usize },
    /// The stream holds no frame.
    NoFrames,
    /// Frame `frame` is the first with a zero delay; it could never be
    /// scheduled.
    ZeroDelay { frame: usize },
    /// The canvas does not fit in memory.
    TooLarge,
}

/// A decoded animation: its canvas size and one full-canvas RGBA buffer per
/// frame, in stream order.
pub struct DecodedAnimation {
    pub width: u32,
    pub height: u32,
    pub frames: Vec<RawFrame>,
}

/// The canvas after frame `f` is drawn over `canvas` (`width` pixels per
/// row): a pixel inside the frame's rectangle takes the frame's pixel unless
/// that one is fully transparent; every other pixel keeps its bytes.
pub open spec fn placed(canvas: Seq<u8>, width: int, f: GifFrameView) -> Seq<u8> {
    Seq::new(
        canvas.len(),
        |k: int|
            {
                let x = (k / 4) % width - f.left;
                let y = (k / 4) / width - f.top;
                if width > 0 && 0 <= x < f.width && 0 <= y < f.height && f.pixels[byte_index(
                    f.width as int,
                    x,
                    y,
                    3,
                )] != 0 {
                    f.pixels[byte_index(f.width as int, x, y, k % 4)]
                } else {
                    canvas[k]
                }
            },
    )
}

/// The canvas once the first `n` frames of `img` are drawn over a blank one.
pub open spec fn canvas_after(img: GifImageView, n: int) -> Seq<u8>
    decreases n,
{
    if n <= 0 {
        Seq::new((img.width * img.height * 4) as nat, |k: int| 0u8)
    } else {
        placed(canvas_after(img, n - 1), img.width as int, img.frames[n - 1])
    }
}

/// The full-canvas frames of `img`: frame `k` is the canvas after its first
/// `k + 1` frames, with frame `k`'s delay.
pub open spec fn composed(img: GifImageView) -> Seq<RawView> {
    Seq::new(
        img.frames.len(),
        |k: int| RawView { delay: img.frames[k].delay as u32, pixels: canvas_after(img, k + 1) },
    )
}

/// Index of the first frame whose buffer is not its rectangle's RGBA pixels,
/// or the number of frames when there is none.
pub open spec fn first_bad_buffer(frames: Seq<GifFrameView>) -> int
    decreases frames.len(),
{
    if frames.len() == 0 {
        0
    } else {
        let k = first_bad_buffer(frames.drop_last());
        let f = frames.last();
        if k < frames.len() - 1 {
            k
        } else if f.pixels.len() != f.width * f.height * 4 {
            frames.len() - 1
        } else {
            frames.len() as int
        }
    }
}

proof fn lemma_first_bad_buffer(frames: Seq<GifFrameView>)
    ensures
        0 <= first_bad_buffer(frames) <= frames.len(),
        forall|j: int| 0 <= j < first_bad_buffer(frames) ==> (#[trigger] frames[j]).pixels.len()
            == frames[j].width * frames[j].height * 4,
    decreases frames.len(),
{
    if frames.len() > 0 {
        let rest = frames.drop_last();
        lemma_first_bad_buffer(rest);
        assert forall|j: int| 0 <= j < first_bad_buffer(frames) implies (#[trigger] frames[j]).pixels.len()
            == frames[j].width * frames[j].height * 4 by {
            if j < rest.len() {
                assert(rest[j] == frames[j]);
            }
        }
    }
}

proof fn lemma_first_bad_buffer_prefix(frames: Seq<GifFrameView>, k: int)
    requires
        0 <= k < frames.len(),
        first_bad_buffer(frames.take(k)) == k,
        frames[k].pixels.len() != frames[k].width * frames[k].height * 4,
    ensures
        first_bad_buffer(frames) == k,
    decreases frames.len(),
{
    if k < frames.len() - 1 {
        assert(frames.drop_last().take(k) =~= frames.take(k));
        lemma_first_bad_buffer_prefix(frames.drop_last(), k);
    } else {
        assert(frames.take(k) =~= frames.drop_last());
    }
}

/// Index of the first frame with a zero delay, or the number of frames when
/// there is none.
pub open spec fn first_zero_gif_delay(frames: Seq<GifFrameView>) -> int
    decreases frames.len(),
{
    if frames.len() == 0 {
        0
    } else {
        let k = first_zero_gif_delay(frames.drop_last());
        if k < frames.len() - 1 {
            k
        } else if frames.last().delay == 0 {
            frames.len() - 1
        } else {
            frames.len() as int
        }
    }
}

proof fn lemma_first_zero_gif_delay_prefix(frames: Seq<GifFrameView>, k: int)
    requires
        0 <= k < frames.len(),
        first_zero_gif_delay(frames.take(k)) == k,
        frames[k].delay == 0,
    ensures
        first_zero_gif_delay(frames) == k,
    decreases frames.len(),
{
    if k < frames.len() - 1 {
        assert(frames.drop_last().take(k) =~= frames.take(k));
        lemma_first_zero_gif_delay_prefix(frames.drop_last(), k);
    } else {
        assert(frames.take(k) =~= frames.drop_last());
    }
}

/// What decoding makes of a decoded GIF stream.
pub open spec fn decoded(img: GifImageView) -> Result<(u32, u32, Seq<RawView>), DecodeError> {
    if img.width * img.height * 4 > usize::MAX {
        Err(DecodeError::TooLarge)
    } else if img.frames.len() == 0 {
        Err(DecodeError::NoFrames)
    } else if first_zero_gif_delay(img.frames) < img.frames.len() {
        Err(DecodeError::ZeroDelay { frame: first_zero_gif_delay(img.frames) as usize })
    } else if first_bad_buffer(img.frames) < img.frames.len() {
        Err(DecodeError::BadFrameBuffer { frame: first_bad_buffer(img.frames) as usize })
    } else {
        Ok((img.width as u32, img.height as u32, composed(img)))
    }
}

/// Whether a decoding result is what `decoded` describes.
pub open spec fn decoded_as(r: Result<DecodedAnimation, DecodeError>, img: GifImageView) -> bool {
    match decoded(img) {
        Err(e) => r == Err::<DecodedAnimation, DecodeError>(e),
        Ok((w, h, raws)) => r matches Ok(d) && d.width == w && d.height == h && raws_view(d.frames@)
            == raws,
    }
}

/// Draws frame `f` over `canvas`, a `width`-pixel-wide RGBA canvas.
fn place(canvas: &Vec<u8>, width: u16, f: &GifFrame) -> (r: Vec<u8>)
    requires
        canvas@.len() % 4 == 0,
        f.pixels@.len() == f.width * f.height * 4,
    ensures
        r@ == placed(canvas@, width as int, f@),
{
    let mut out: Vec<u8> = Vec::new();
    let mut k: usize = 0;
    while k < canvas.len()
        invariant
            k <= canvas@.len(),
            canvas@.len() % 4 == 0,
            f.pixels@.len() == f.width * f.height * 4,
            out@ == placed(canvas@, width as int, f@).take(k as int),
        decreases canvas.len() - k,
    {
        let p: usize = k / 4;
        let c: usize = k % 4;
        let mut b: u8 = canvas[k];
        if width > 0 {
            let x: usize = p % (width as usize);
            let y: usize = p / (width as usize);
            if x >= f.left as usize && y >= f.top as usize {
                let fx: usize = x - f.left as usize;
                let fy: usize = y - f.top as usize;
                if fx < f.width as usize && fy < f.height as usize {
                    assert((fy * f.width + fx) * 4 + 3 < f.width * f.height * 4) by (nonlinear_arith)
                        requires fx < f.width, fy < f.height;
                    let plen: usize = f.pixels.len();
                    assert(fy * f.width <= fy * f.width + fx) by (nonlinear_arith) requires fx >= 0, fy >= 0;
                    let base: usize = (fy * (f.width as usize) + fx) * 4;
                    assert(base + 3 == byte_index(f.width as int, fx as int, fy as int, 3));
                    assert(base + c == byte_index(f.width as int, fx as int, fy as int, c as int));
                    if f.pixels[base + 3] != 0 {
                        b = f.pixels[base + c];
                    }
                }
            }
        }
        out.push(b);
        k = k + 1;
        assert(out@ =~= placed(canvas@, width as int, f@).take(k as int));
    }
    assert(out@ =~= placed(canvas@, width as int, f@));
    out
}

/// Turns a decoded GIF stream into full-canvas RGBA frames: each frame is
/// drawn over the canvas left by the frames before it, starting from a
/// blank (all-zero) canvas. Fails when the canvas is too large to hold, when
/// there is no frame, on the first frame with a zero delay, or on the first
/// frame whose buffer does not hold its rectangle's pixels.
pub fn compose_frames(img: &GifImage) -> (r: Result<DecodedAnimation, DecodeError>)
    ensures
        decoded_as(r, img@),
{
    let ghost iv = img@;
    let w: u64 = img.width as u64;
    let h: u64 = img.height as u64;
    assert(w * h <= 0xffff_ffff) by (nonlinear_arith) requires w <= 0xffff, h <= 0xffff;
    if w * h * 4 > usize::MAX as u64 {
        return Err(DecodeError::TooLarge);
    }
    if img.frames.len() == 0 {
        return Err(DecodeError::NoFrames);
    }
    let mut z: usize = 0;
    while z < img.frames.len()
        invariant
            z <= img.frames@.len(),
            iv == img@,
            iv.frames.len() > 0,
            iv.width * iv.height * 4 <= usize::MAX,
            first_zero_gif_delay(iv.frames.take(z as int)) == z,
        decreases img.frames.len() - z,
    {
        assert(iv.frames.take(z + 1).drop_last() =~= iv.frames.take(z as int));
        if img.frames[z].delay == 0 {
            proof {
                lemma_first_zero_gif_delay_prefix(iv.frames, z as int);
            }
            return Err(DecodeError::ZeroDelay { frame: z });
        }
        z = z + 1;
    }
    assert(iv.frames.take(z as int) =~= iv.frames);
    let mut k: usize = 0;
    while k < img.frames.len()
        invariant
            k <= img.frames@.len(),
            iv == img@,
            iv.frames.len() > 0,
            iv.width * iv.height * 4 <= usize::MAX,
            first_zero_gif_delay(iv.frames) == iv.frames.len(),
            first_bad_buffer(iv.frames.take(k as int)) == k,
        decreases img.frames.len() - k,
    {
        assert(iv.frames.take(k + 1).drop_last() =~= iv.frames.take(k as int));
        let f = &img.frames[k];
        let fw: u64 = f.width as u64;
        let fh: u64 = f.height as u64;
        assert(fw * fh <= 0xffff_ffff) by (nonlinear_arith) requires fw <= 0xffff, fh <= 0xffff;
        if f.pixels.len() as u64 != fw * fh * 4 {
            proof {
                lemma_first_bad_buffer_prefix(iv.frames, k as int);
            }
            return Err(DecodeError::BadFrameBuffer { frame: k });
        }
        k = k + 1;
    }
    assert(iv.frames.take(k as int) =~= iv.frames);
    proof {
        lemma_first_bad_buffer(iv.frames);
    }
    let len: usize = (w * h * 4) as usize;
    let mut canvas: Vec<u8> = Vec::new();
    let mut i: usize = 0;
    while i < len
        invariant
            i <= len,
            len == iv.width * iv.height * 4,
            canvas@ == canvas_after(iv, 0).take(i as int),
        decreases len - i,
    {
        canvas.push(0u8);
        i = i + 1;
        assert(canvas@ =~= canvas_after(iv, 0).take(i as int));
    }
    assert(canvas@ =~= canvas_after(iv, 0));
    let mut frames: Vec<RawFrame> = Vec::new();
    let mut j: usize = 0;
    while j < img.frames.len()
        invariant
            j <= img.frames@.len(),
            iv == img@,
            len == iv.width * iv.height * 4,
            forall|m: int| 0 <= m < iv.frames.len() ==> (#[trigger] iv.frames[m]).pixels.len()
                == iv.frames[m].width * iv.frames[m].height * 4,
            canvas@ == canvas_after(iv, j as int),
            canvas@.len() == len,
            raws_view(frames@) == composed(iv).take(j as int),
        decreases img.frames.len() - j,
    {
        assert(iv.frames[j as int] == img.frames@[j as int]@);
        assert(len % 4 == 0) by (nonlinear_arith) requires len == iv.width * iv.height * 4;
        let next = place(&canvas, img.width, &img.frames[j]);
        let mut copy: Vec<u8> = Vec::new();
        let mut q: usize = 0;
        while q < next.len()
            invariant
                q <= next@.len(),
                copy@ == next@.take(q as int),
            decreases next.len() - q,
        {
            copy.push(next[q]);
            q = q + 1;
            assert(copy@ =~= next@.take(q as int));
        }
        assert(copy@ =~= next@);
        let ghost before = frames@;
        frames.push(RawFrame { delay: img.frames[j].delay as u32, pixels: copy });
        canvas = next;
        j = j + 1;
        assert(raws_view(frames@) =~= composed(iv).take(j as int)) by {
            assert(raws_view(frames@) =~= raws_view(before).push(frames@.last()@));
        }
    }
    assert(composed(iv).take(j as int) =~= composed(iv));
    Ok(DecodedAnimation { width: img.width as u32, height: img.height as u32, frames })
}

/// Decodes a GIF byte stream into full-canvas RGBA frames, in stream order.
/// Fails with `Malformed` when the `gif` crate rejects the stream, and
/// otherwise as `compose_frames` does on what it decoded.
pub fn load_raw_frames(data: &[u8]) -> (r: Result<DecodedAnimation, DecodeError>)
    ensures
        gif_decoded(data@) is None ==> r == Err::<DecodedAnimation, DecodeError>(DecodeError::Malformed),
        gif_decoded(data@) matches Some(img) ==> decoded_as(r, img),
{
    match decode_gif(data) {
        Ok(img) => compose_frames(&img),
        Err(_) => Err(DecodeError::Malformed),
    }
}

/// An animation ready to play, and the tiles that encoding had to skip.
pub struct LoadedAnimation {
    pub animation: Animation,
    pub skipped: Vec<GeometryError>,
}

/// Decodes a GIF byte stream and encodes its frames with tiles of side
/// `tile`, as `load_raw_frames` and `encode_frames` do.
pub fn load_animation(data: &[u8], tile: u32) -> (r: Result<LoadedAnimation, DecodeError>)
    requires
        0 < tile,
    ensures
        gif_decoded(data@) is None ==> r == Err::<LoadedAnimation, DecodeError>(DecodeError::Malformed),
        gif_decoded(data@) matches Some(img) ==> match decoded(img) {
            Err(e) => r == Err::<LoadedAnimation, DecodeError>(e),
            Ok((w, h, raws)) => r matches Ok(l) && l.animation.width == w && l.animation.height == h
                && frames_view(l.animation.frames@) == encoding(raws, w as int, h as int, tile as int).frames
                && l.skipped@ == encoding(raws, w as int, h as int, tile as int).skipped,
        },
{
    match load_raw_frames(data) {
        Err(e) => Err(e),
        Ok(d) => {
            let encoded = encode_frames(d.width, d.height, tile, &d.frames);
            Ok(LoadedAnimation {
                animation: Animation { width: d.width, height: d.height, frames: encoded.frames },
                skipped: encoded.skipped,
            })
        },
    }
}

} // verus!
