use gif_wallpaper::decode::{compose_frames, load_animation, load_raw_frames, DecodeError, GifFrame, GifImage};

fn gif_bytes(width: u16, height: u16, frames: &[(Vec<u8>, u16)]) -> Vec<u8> {
    let mut out = Vec::new();
    {
        let mut enc = gif::Encoder::new(&mut out, width, height, &[]).unwrap();
        for (pixels, delay) in frames {
            let mut px = pixels.clone();
            let mut f = gif::Frame::from_rgba(width, height, &mut px);
            f.delay = *delay;
            enc.write_frame(&f).unwrap();
        }
    }
    out
}

fn solid(width: usize, height: usize, color: [u8; 4]) -> Vec<u8> {
    let mut px = Vec::new();
    for _ in 0..width * height {
        px.extend_from_slice(&color);
    }
    px
}

fn gif_frame(left: u16, top: u16, width: u16, height: u16, delay: u16, pixels: Vec<u8>) -> GifFrame {
    GifFrame { delay, left, top, width, height, pixels }
}

#[test]
fn loads_frames_of_a_gif() {
    let red = solid(3, 2, [255, 0, 0, 255]);
    let mut mixed = red.clone();
    mixed[4..8].copy_from_slice(&[0, 0, 255, 255]);
    let bytes = gif_bytes(3, 2, &[(red.clone(), 7), (mixed.clone(), 9)]);
    let d = load_raw_frames(&bytes).unwrap();
    assert_eq!((d.width, d.height), (3, 2));
    assert_eq!(d.frames.len(), 2);
    assert_eq!(d.frames[0].delay, 7);
    assert_eq!(d.frames[1].delay, 9);
    assert_eq!(d.frames[0].pixels, red);
    assert_eq!(d.frames[1].pixels, mixed);
}

#[test]
fn garbage_is_malformed() {
    assert!(matches!(load_raw_frames(b"not a gif at all"), Err(DecodeError::Malformed)));
    assert!(matches!(load_raw_frames(&[]), Err(DecodeError::Malformed)));
}

#[test]
fn load_animation_encodes_the_frames() {
    let a = solid(4, 4, [0, 0, 0, 255]);
    let mut b = a.clone();
    b[0..4].copy_from_slice(&[255, 255, 255, 255]);
    let bytes = gif_bytes(4, 4, &[(a, 3), (b, 4)]);
    let l = load_animation(&bytes, 2).unwrap();
    assert_eq!((l.animation.width, l.animation.height), (4, 4));
    assert_eq!(l.animation.frames.len(), 2);
    assert_eq!(l.animation.frames[0].regions.len(), 1);
    assert_eq!(l.animation.frames[1].regions.len(), 1);
    assert_eq!(l.animation.frames[1].regions[0].pixels[0..4], [255, 255, 255, 255]);
    assert_eq!(l.animation.frames[1].delay, 4);
    assert!(l.skipped.is_empty());
}

#[test]
fn frames_are_placed_over_the_previous_canvas() {
    let first = solid(3, 3, [1, 1, 1, 255]);
    let mut patch = solid(2, 1, [9, 9, 9, 255]);
    patch[4..8].copy_from_slice(&[5, 5, 5, 0]); // transparent
    let img = GifImage {
        width: 3,
        height: 3,
        frames: vec![gif_frame(0, 0, 3, 3, 2, first.clone()), gif_frame(1, 2, 2, 1, 3, patch)],
    };
    let d = compose_frames(&img).unwrap();
    assert_eq!(d.frames[0].pixels, first);
    let mut expected = first.clone();
    expected[(2 * 3 + 1) * 4..(2 * 3 + 2) * 4].copy_from_slice(&[9, 9, 9, 255]);
    assert_eq!(d.frames[1].pixels, expected);
    assert_eq!(d.frames[1].delay, 3);
}

#[test]
fn first_frame_starts_from_a_blank_canvas() {
    let img = GifImage { width: 2, height: 1, frames: vec![gif_frame(1, 0, 1, 1, 1, vec![8, 8, 8, 255])] };
    let d = compose_frames(&img).unwrap();
    assert_eq!(d.frames[0].pixels, vec![0, 0, 0, 0, 8, 8, 8, 255]);
}

#[test]
fn frame_outside_the_canvas_is_clipped() {
    let img = GifImage { width: 1, height: 1, frames: vec![gif_frame(0, 0, 2, 2, 1, solid(2, 2, [4, 4, 4, 255]))] };
    let d = compose_frames(&img).unwrap();
    assert_eq!(d.frames[0].pixels, vec![4, 4, 4, 255]);
}

#[test]
fn compose_errors() {
    let empty = GifImage { width: 2, height: 2, frames: Vec::new() };
    assert!(matches!(compose_frames(&empty), Err(DecodeError::NoFrames)));
    let bad = GifImage {
        width: 2,
        height: 2,
        frames: vec![gif_frame(0, 0, 1, 1, 1, vec![0; 4]), gif_frame(0, 0, 1, 1, 1, vec![0; 3])],
    };
    assert!(matches!(compose_frames(&bad), Err(DecodeError::BadFrameBuffer { frame: 1 })));
}

#[test]
fn zero_delay_frame_is_rejected_when_decoding() {
    let a = solid(2, 2, [0, 0, 0, 255]);
    let b = solid(2, 2, [255, 255, 255, 255]);
    let bytes = gif_bytes(2, 2, &[(a.clone(), 4), (b.clone(), 0), (a, 0)]);
    assert!(matches!(load_raw_frames(&bytes), Err(DecodeError::ZeroDelay { frame: 1 })));
    assert!(matches!(load_animation(&bytes, 2), Err(DecodeError::ZeroDelay { frame: 1 })));
}

#[test]
fn zero_delay_comes_before_buffer_checks() {
    let img = GifImage {
        width: 1,
        height: 1,
        frames: vec![gif_frame(0, 0, 1, 1, 2, vec![0; 3]), gif_frame(0, 0, 1, 1, 0, vec![0; 4])],
    };
    assert!(matches!(compose_frames(&img), Err(DecodeError::ZeroDelay { frame: 1 })));
}
