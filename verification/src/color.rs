use vstd::prelude::*;

verus! {

/// The pixel layouts an image can be stored in: 8-bit RGB, 8-bit RGBA and
/// 8-bit grayscale ("L").
#[derive(Clone, Copy, Debug, PartialEq, Eq, Structural)]
pub enum ColorMode {
    Rgb,
    Rgba,
    Luma,
}

impl ColorMode {
    /// Number of bytes a pixel takes in this layout.
    pub open spec fn channels(self) -> nat {
        match self {
            ColorMode::Rgb => 3,
            ColorMode::Rgba => 4,
            ColorMode::Luma => 1,
        }
    }

    pub fn channel_count(&self) -> (n: usize)
        ensures
            n as nat == self.channels(),
    {
        match self {
            ColorMode::Rgb => 3,
            ColorMode::Rgba => 4,
            ColorMode::Luma => 1,
        }
    }
}

/// A color ready to be written into any layout: its RGBA components and the
/// gray level that a grayscale image stores for it.
#[derive(Clone, Copy, Debug, PartialEq, Eq, Structural)]
pub struct Paint {
    pub r: u8,
    pub g: u8,
    pub b: u8,
    pub a: u8,
    pub gray: u8,
}

impl Paint {
    pub fn new(rgba: (u8, u8, u8, u8), gray: u8) -> (p: Paint)
        ensures
            p == (Paint { r: rgba.0, g: rgba.1, b: rgba.2, a: rgba.3, gray }),
    {
        Paint { r: rgba.0, g: rgba.1, b: rgba.2, a: rgba.3, gray }
    }
}

/// The bytes a pixel of the given layout holds when painted with `p`.
pub open spec fn encode(mode: ColorMode, p: Paint) -> Seq<u8> {
    match mode {
        ColorMode::Rgb => seq![p.r, p.g, p.b],
        ColorMode::Rgba => seq![p.r, p.g, p.b, p.a],
        ColorMode::Luma => seq![p.gray],
    }
}

/// The RGBA color a pixel of the given layout reads as: RGB pixels are
/// opaque, gray pixels repeat their level in the three color channels.
pub open spec fn decode(mode: ColorMode, px: Seq<u8>) -> (u8, u8, u8, u8) {
    match mode {
        ColorMode::Rgb => (px[0], px[1], px[2], 255u8),
        ColorMode::Rgba => (px[0], px[1], px[2], px[3]),
        ColorMode::Luma => (px[0], px[0], px[0], 255u8),
    }
}

/// Gray level of an RGB(A) pixel under the sRGB luma weights
/// (2126, 7152, 722) / 10000, rounded down; gray pixels keep their level.
pub open spec fn luma_of(mode: ColorMode, px: Seq<u8>) -> u8 {
    match mode {
        ColorMode::Luma => px[0],
        _ => ((2126 * px[0] + 7152 * px[1] + 722 * px[2]) / 10000) as u8,
    }
}

/// Reading back a painted pixel gives the paint's color as the layout keeps it.
pub proof fn lemma_decode_encode(mode: ColorMode, p: Paint)
    ensures
        decode(mode, encode(mode, p)) == (match mode {
            ColorMode::Rgb => (p.r, p.g, p.b, 255u8),
            ColorMode::Rgba => (p.r, p.g, p.b, p.a),
            ColorMode::Luma => (p.gray, p.gray, p.gray, 255u8),
        }),
        encode(mode, p).len() == mode.channels(),
{
}

} // verus!
