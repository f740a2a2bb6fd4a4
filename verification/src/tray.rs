//! The tray icon's pixels: the embedded PNG decoded and reordered from RGBA
//! to ARGB32 in network byte order, as the StatusNotifier specification asks.

use vstd::prelude::*;

verus! {

/// What the tray menu asks of the window.
pub enum TrayMsg {
    ToggleVisible,
    Quit,
}

/// `png::ColorType::Rgba` as its number (the enum is `repr(u8)`).
pub const PNG_RGBA: u8 = 6;

/// `png::BitDepth::Eight` as its number (the enum is `repr(u8)`).
pub const PNG_DEPTH_EIGHT: u8 = 8;

/// First frame of a PNG image: its size, colour type and bit depth (the
/// numbers of png's `ColorType` and `BitDepth`), the output buffer and how
/// many of its bytes the frame fills.
pub struct PngFrame {
    pub width: u32,
    pub height: u32,
    pub color: u8,
    pub depth: u8,
    pub pixels: Vec<u8>,
    pub frame_size: usize,
}

pub struct PngFrameView {
    pub width: u32,
    pub height: u32,
    pub color: u8,
    pub depth: u8,
    pub pixels: Seq<u8>,
    pub frame_size: nat,
}

impl View for PngFrame {
    type V = PngFrameView;

    open spec fn view(&self) -> PngFrameView {
        PngFrameView {
            width: self.width,
            height: self.height,
            color: self.color,
            depth: self.depth,
            pixels: self.pixels@,
            frame_size: self.frame_size as nat,
        }
    }
}

pub open spec fn opt_frame(f: Option<PngFrame>) -> Option<PngFrameView> {
    match f {
        Some(x) => Some(x@),
        None => None,
    }
}

/// The first frame the `png` crate decodes from these bytes.
pub uninterp spec fn png_first_frame(bytes: Seq<u8>) -> Option<PngFrameView>;

/// `png::Decoder::new(bytes).read_info()` and `next_frame` into a buffer of
/// `output_buffer_size()` bytes; `None` on a decoding error. The frame fits
/// the buffer (the decoder rejects sub-frames outside the image).
#[verifier::external_body]
fn decode_png(bytes: &[u8]) -> (r: Option<PngFrame>)
    ensures
        opt_frame(r) == png_first_frame(bytes@),
        r matches Some(f) ==> f.frame_size <= f.pixels.len(),
{
    let mut reader = match png::Decoder::new(bytes).read_info() {
        Ok(r) => r,
        Err(_) => return None,
    };
    let mut buf = vec![0u8; reader.output_buffer_size()];
    let info = match reader.next_frame(&mut buf) {
        Ok(i) => i,
        Err(_) => return None,
    };
    let (color, depth) = (info.color_type as u8, info.bit_depth as u8);
    Some(PngFrame { width: info.width, height: info.height, color, depth, pixels: buf, frame_size: info.buffer_size() })
}

/// An icon for the tray: size and ARGB32 pixels.
#[derive(Debug)]
pub struct IconData {
    pub width: i32,
    pub height: i32,
    pub data: Vec<u8>,
}

/// RGBA pixels (complete groups of four bytes) as A, R, G, B.
pub open spec fn rgba_to_argb(p: Seq<u8>) -> Seq<u8> {
    Seq::new(
        (p.len() / 4 * 4) as nat,
        |i: int|
            if i % 4 == 0 {
                p[i - i % 4 + 3]
            } else {
                p[i - 1]
            },
    )
}

pub fn argb_pixels(p: &[u8], n: usize) -> (r: Vec<u8>)
    requires
        n <= p.len(),
    ensures
        r@ == rgba_to_argb(p@.take(n as int)),
{
    let ghost q = p@.take(n as int);
    let groups = n / 4;
    let mut r: Vec<u8> = Vec::new();
    let mut k: usize = 0;
    while k < groups
        invariant
            groups == n / 4,
            n <= p.len(),
            q == p@.take(n as int),
            0 <= k <= groups,
            r@ == rgba_to_argb(q).take(4 * k),
        decreases groups - k,
    {
        let b = 4 * k;
        r.push(p[b + 3]);
        r.push(p[b]);
        r.push(p[b + 1]);
        r.push(p[b + 2]);
        k = k + 1;
        assert(r@ =~= rgba_to_argb(q).take(4 * k));
    }
    assert(rgba_to_argb(q).take(4 * groups) =~= rgba_to_argb(q));
    r
}

pub open spec fn icon_of(bytes: Seq<u8>) -> Option<(i32, i32, Seq<u8>)> {
    match png_first_frame(bytes) {
        None => None,
        Some(f) => if f.color == PNG_RGBA && f.depth == PNG_DEPTH_EIGHT && f.frame_size <= f.pixels.len() {
            Some((f.width as i32, f.height as i32, rgba_to_argb(f.pixels.take(f.frame_size as int))))
        } else {
            None
        },
    }
}

/// The tray icon from PNG bytes; `None` when they do not decode or are not
/// 8-bit RGBA.
pub fn decode_icon(bytes: &[u8]) -> (r: Option<IconData>)
    ensures
        match icon_of(bytes@) {
            Some((w, h, d)) => r matches Some(i) && i.width == w && i.height == h && i.data@ == d,
            None => r is None,
        },
{
    let frame = match decode_png(bytes) {
        Some(f) => f,
        None => return None,
    };
    if frame.color != PNG_RGBA || frame.depth != PNG_DEPTH_EIGHT {
        return None;
    }
    let data = argb_pixels(frame.pixels.as_slice(), frame.frame_size);
    let width = #[verifier::truncate] (frame.width as i32);
    let height = #[verifier::truncate] (frame.height as i32);
    Some(IconData { width, height, data })
}

} // verus!
