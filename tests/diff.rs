use gif_wallpaper::diff::{check_square, chunk_frame, encode_frames, DirtyRegion, Encoded, Frame, GeometryError, RawFrame};
use gif_wallpaper::Rect;

const BLACK: [u8; 4] = [0, 0, 0, 255];
const WHITE: [u8; 4] = [255, 255, 255, 255];

fn canvas(width: usize, height: usize, color: [u8; 4]) -> Vec<u8> {
    let mut px = Vec::new();
    for _ in 0..width * height {
        px.extend_from_slice(&color);
    }
    px
}

fn set_pixel(px: &mut Vec<u8>, width: usize, x: usize, y: usize, color: [u8; 4]) {
    let at = (y * width + x) * 4;
    px[at..at + 4].copy_from_slice(&color);
}

fn raw(delay: u32, pixels: Vec<u8>) -> RawFrame {
    RawFrame { delay, pixels }
}

fn rect(x: u32, y: u32, width: u32, height: u32) -> Rect {
    Rect { x, y, width, height }
}

/// Paints every region of `frames[..=upto]` in order over a blank canvas.
fn composite(width: usize, height: usize, frames: &[Frame], upto: usize) -> Vec<u8> {
    let mut out = vec![0u8; width * height * 4];
    for frame in &frames[..=upto] {
        for g in &frame.regions {
            for row in 0..g.rect.height as usize {
                for col in 0..g.rect.width as usize * 4 {
                    let dst = ((g.rect.y as usize + row) * width + g.rect.x as usize) * 4 + col;
                    out[dst] = g.pixels[row * g.pitch + col];
                }
            }
        }
    }
    out
}

fn same_encoding(a: &Encoded, b: &Encoded) -> bool {
    if a.frames.len() != b.frames.len() || a.skipped != b.skipped {
        return false;
    }
    a.frames.iter().zip(b.frames.iter()).all(|(f, g)| {
        f.delay == g.delay
            && f.regions.len() == g.regions.len()
            && f.regions.iter().zip(g.regions.iter()).all(|(r, s)| {
                r.rect == s.rect && r.pitch == s.pitch && r.pixels == s.pixels
            })
    })
}

#[test]
fn scenario_a_single_changed_pixel() {
    let first = canvas(10, 10, BLACK);
    let mut second = first.clone();
    set_pixel(&mut second, 10, 3, 3, WHITE);
    let raws = vec![raw(5, first.clone()), raw(5, second.clone())];
    let enc = encode_frames(10, 10, 5, &raws);
    assert_eq!(enc.frames.len(), 2);
    assert!(enc.skipped.is_empty());
    let regions = &enc.frames[1].regions;
    assert_eq!(regions.len(), 1);
    assert_eq!(regions[0].rect, rect(0, 0, 5, 5));
    assert_eq!(regions[0].pitch, 20);
    assert_eq!(regions[0].pixels.len(), 100);
    let at = (3 * 5 + 3) * 4;
    assert_eq!(&regions[0].pixels[at..at + 4], &WHITE);
    assert_eq!(&regions[0].pixels[0..4], &BLACK);
}

#[test]
fn scenario_b_repeat_of_first_frame_is_suppressed() {
    let first = canvas(10, 10, BLACK);
    let mut second = first.clone();
    set_pixel(&mut second, 10, 1, 1, WHITE);
    set_pixel(&mut second, 10, 8, 8, WHITE);
    let raws = vec![raw(4, first.clone()), raw(4, second), raw(4, first)];
    let enc = encode_frames(10, 10, 5, &raws);
    assert_eq!(enc.frames[1].regions.len(), 2);
    assert_eq!(enc.frames[2].regions.len(), 0);
}

#[test]
fn repeat_of_earlier_diff_is_suppressed() {
    let a = canvas(10, 10, BLACK);
    let mut b = a.clone();
    set_pixel(&mut b, 10, 6, 1, WHITE);
    let raws = vec![raw(1, a.clone()), raw(1, b.clone()), raw(1, a), raw(1, b)];
    let enc = encode_frames(10, 10, 5, &raws);
    assert_eq!(enc.frames[1].regions.len(), 1);
    assert_eq!(enc.frames[1].regions[0].rect, rect(5, 0, 5, 5));
    // back to the first frame's tile, then to the tile already sent in frame 1
    assert_eq!(enc.frames[2].regions.len(), 0);
    assert_eq!(enc.frames[3].regions.len(), 0);
}

#[test]
fn first_frame_is_one_full_region() {
    let mut first = canvas(7, 4, BLACK);
    set_pixel(&mut first, 7, 6, 3, WHITE);
    set_pixel(&mut first, 7, 2, 1, [1, 2, 3, 4]);
    let raws = vec![raw(9, first.clone())];
    let enc = encode_frames(7, 4, 3, &raws);
    assert_eq!(enc.frames.len(), 1);
    assert_eq!(enc.frames[0].delay, 9);
    assert_eq!(enc.frames[0].regions.len(), 1);
    let g = &enc.frames[0].regions[0];
    assert_eq!(g.rect, rect(0, 0, 7, 4));
    assert_eq!(g.pitch, 28);
    assert_eq!(composite(7, 4, &enc.frames, 0), first);
}

#[test]
fn identical_frames_have_no_regions() {
    let mut a = canvas(9, 9, BLACK);
    set_pixel(&mut a, 9, 4, 4, WHITE);
    let mut b = a.clone();
    set_pixel(&mut b, 9, 0, 8, WHITE);
    let raws = vec![raw(2, a.clone()), raw(2, b.clone()), raw(2, b.clone()), raw(2, b)];
    let enc = encode_frames(9, 9, 4, &raws);
    assert_eq!(enc.frames[1].regions.len(), 1);
    assert_eq!(enc.frames[2].regions.len(), 0);
    assert_eq!(enc.frames[3].regions.len(), 0);
}

#[test]
fn region_buffers_match_their_rectangles() {
    let a = canvas(7, 7, BLACK);
    let b = canvas(7, 7, WHITE);
    let raws = vec![raw(1, a), raw(1, b)];
    let enc = encode_frames(7, 7, 5, &raws);
    let regions = &enc.frames[1].regions;
    assert_eq!(regions.len(), 4);
    let rects: Vec<Rect> = regions.iter().map(|g| g.rect).collect();
    assert_eq!(rects, vec![rect(0, 0, 5, 5), rect(5, 0, 2, 5), rect(0, 5, 5, 2), rect(5, 5, 2, 2)]);
    for frame in &enc.frames {
        for g in &frame.regions {
            assert_eq!(g.pixels.len(), g.rect.width as usize * g.rect.height as usize * 4);
            assert_eq!(g.pitch, g.rect.width as usize * 4);
        }
    }
}

#[test]
fn encoding_twice_gives_the_same_frames() {
    let mut frames = Vec::new();
    let mut px = canvas(12, 8, BLACK);
    for i in 0..5 {
        set_pixel(&mut px, 12, (i * 5) % 12, (i * 3) % 8, [i as u8, 7, 9, 255]);
        frames.push(raw(3 + i as u32, px.clone()));
    }
    let a = encode_frames(12, 8, 4, &frames);
    let b = encode_frames(12, 8, 4, &frames);
    assert!(same_encoding(&a, &b));
}

#[test]
fn compositing_every_frame_gives_back_the_raw_frames() {
    let mut frames = Vec::new();
    let mut px = canvas(13, 11, BLACK);
    for i in 0..6usize {
        set_pixel(&mut px, 13, (i * 7) % 13, (i * 5) % 11, [10 * i as u8 + 1, 2, 3, 255]);
        set_pixel(&mut px, 13, 12, i, [0, 10 * i as u8 + 5, 0, 255]);
        frames.push(raw(2, px.clone()));
    }
    let enc = encode_frames(13, 11, 4, &frames);
    for (i, f) in frames.iter().enumerate() {
        assert_eq!(composite(13, 11, &enc.frames, i), f.pixels);
    }
}

#[test]
fn delays_are_carried_over() {
    let a = canvas(4, 4, BLACK);
    let raws = vec![raw(3, a.clone()), raw(8, a)];
    let enc = encode_frames(4, 4, 2, &raws);
    assert_eq!(enc.frames[0].delay, 3);
    assert_eq!(enc.frames[1].delay, 8);
}

#[test]
fn no_raw_frames_no_encoded_frames() {
    let enc = encode_frames(4, 4, 2, &Vec::new());
    assert!(enc.frames.is_empty());
    assert!(enc.skipped.is_empty());
}

#[test]
fn short_buffer_tiles_are_skipped_and_reported() {
    let a = canvas(4, 4, BLACK);
    let mut b = canvas(4, 4, WHITE);
    b.truncate(4 * 4 * 2);
    let raws = vec![raw(1, a), raw(1, b)];
    let enc = encode_frames(4, 4, 2, &raws);
    assert_eq!(enc.frames[1].regions.len(), 2);
    assert_eq!(enc.frames[1].regions[0].rect, rect(0, 0, 2, 2));
    assert_eq!(enc.frames[1].regions[1].rect, rect(2, 0, 2, 2));
    assert_eq!(
        enc.skipped,
        vec![GeometryError { frame: 1, rect: rect(0, 2, 2, 2) }, GeometryError { frame: 1, rect: rect(2, 2, 2, 2) }]
    );
}

#[test]
fn short_first_frame_is_reported() {
    let raws = vec![raw(1, vec![0u8; 10])];
    let enc = encode_frames(4, 4, 2, &raws);
    assert_eq!(enc.frames.len(), 1);
    assert!(enc.frames[0].regions.is_empty());
    assert_eq!(enc.skipped, vec![GeometryError { frame: 0, rect: rect(0, 0, 4, 4) }]);
}

#[test]
fn chunk_frame_cuts_rows() {
    let px: Vec<u8> = (0..48u8).collect();
    // 4 pixels per row, 3 rows
    let got = chunk_frame(&px, 4, rect(1, 1, 2, 2)).unwrap();
    assert_eq!(got, vec![20, 21, 22, 23, 24, 25, 26, 27, 36, 37, 38, 39, 40, 41, 42, 43]);
    assert_eq!(chunk_frame(&px, 4, rect(3, 2, 1, 1)).unwrap(), vec![44, 45, 46, 47]);
}

#[test]
fn chunk_frame_rejects_bad_geometry() {
    let px: Vec<u8> = (0..48u8).collect();
    assert!(chunk_frame(&px, 4, rect(1, 2, 2, 2)).is_none());
    assert!(chunk_frame(&px, 4, rect(3, 0, 2, 1)).is_none());
    assert!(chunk_frame(&px, 4, rect(0, 0, 0, 1)).is_none());
    assert!(chunk_frame(&px, 4, rect(0, 0, 1, 0)).is_none());
}

#[test]
fn check_square_matches_rect_and_pixels() {
    let g = |x: u32, p: Vec<u8>| DirtyRegion { rect: rect(x, 0, 1, 1), pitch: 4, pixels: p };
    let history = vec![g(0, vec![1, 2, 3, 4]), g(1, vec![5, 6, 7, 8])];
    assert!(check_square(&history, &g(1, vec![5, 6, 7, 8])));
    assert!(!check_square(&history, &g(1, vec![1, 2, 3, 4])));
    assert!(!check_square(&history, &g(2, vec![5, 6, 7, 8])));
    assert!(!check_square(&Vec::new(), &g(0, vec![1, 2, 3, 4])));
}
