use vstd::prelude::*;
use image::{DynamicImage, GenericImageView, GrayImage, ImageBuffer};
use image::imageops::FilterType;
use crate::color::ColorMode;
use crate::raster::{Raster, RasterModel};

verus! {

/// What `imageops::resize` with the nearest-neighbour filter makes of a gray
/// raster for an exact size.
pub uninterp spec fn nearest_resized(src: RasterModel, width: u32, height: u32) -> RasterModel;

/// `r` is `side * num / den` rounded to the nearest integer, and at least 1.
/// The crate computes the quotient in `f64`, whose two roundings move it by
/// less than 2^-19 here, so a quotient that lies within that distance of a
/// half may round either way.
pub open spec fn rounded_scale(side: nat, num: nat, den: nat, r: nat) -> bool {
    ||| 524288 * (if r * den >= side * num {
        r * den - side * num
    } else {
        side * num - r * den
    }) <= 262145 * den
    ||| r == 1 && 524288 * (side * num) <= 262145 * den
}

/// The size `DynamicImage::resize` picks for a `sw` x `sh` source and a
/// `w` x `h` request, keeping the aspect ratio: at least 1 x 1 and within
/// the request. When the width scales by the smaller factor
/// (`w / sw <= h / sh`) the width is taken exactly and the height is
/// `sh * w / sw` rounded; when the height does, the height is taken exactly
/// and the width is `sw * h / sh` rounded; an empty side of the source
/// becomes 1.
pub open spec fn fitted_size(sw: nat, sh: nat, w: nat, h: nat, rw: nat, rh: nat) -> bool {
    &&& 1 <= rw <= w
    &&& 1 <= rh <= h
    &&& (sw > 0 && sh > 0 && w * sh <= h * sw) ==> rw == w && rounded_scale(sh, w, sw, rh)
    &&& (sw > 0 && sh > 0 && h * sw <= w * sh) ==> rh == h && rounded_scale(sw, h, sh, rw)
    &&& (sw == 0 && sh > 0) ==> (rw == 1 && rh == h)
    &&& (sw > 0 && sh == 0) ==> (rw == w && rh == 1)
    &&& (sw == 0 && sh == 0) ==> (rw == 1 && rh == 1)
}

/// Calls `image::DynamicImage::resize(width, height, FilterType::Lanczos3)` on
/// the raster. The result keeps the layout and has the size `fitted_size`
/// describes (`resize_dimensions` rounds each side times the smaller of the
/// two scale factors `f64`-wise, at least 1, which gives back the request
/// exactly on the side that factor came from); a request for the raster's
/// own size returns a copy.
/// Nothing is said of the other pixel values: the filter's kernel uses
/// `f32::sin`, whose precision std leaves to the platform. An empty source
/// is accepted: the sampling loops then read no pixel. The request is kept
/// small enough that neither the result nor the float buffer the filter
/// fills (source width x `height`, four channels) overflows `usize`.
#[verifier::external_body]
pub(crate) fn fit_lanczos3(src: &Raster, width: u32, height: u32) -> (r: Raster)
    requires
        src.wf(),
        width >= 1,
        height >= 1,
        width * height * 4 <= usize::MAX,
        src@.width * height * 4 <= usize::MAX,
    ensures
        r.wf(),
        r@.mode == src@.mode,
        fitted_size(src@.width, src@.height, width as nat, height as nat, r@.width, r@.height),
        (width == src@.width && height == src@.height) ==> r@ == src@,
{
    let (w, h, mode) = (src.width(), src.height(), src.mode());
    let bytes = src.as_bytes().clone();
    let img = match mode {
        ColorMode::Rgb => DynamicImage::ImageRgb8(ImageBuffer::from_raw(w, h, bytes).unwrap()),
        ColorMode::Rgba => DynamicImage::ImageRgba8(ImageBuffer::from_raw(w, h, bytes).unwrap()),
        ColorMode::Luma => DynamicImage::ImageLuma8(ImageBuffer::from_raw(w, h, bytes).unwrap()),
    };
    let out = img.resize(width, height, FilterType::Lanczos3);
    Raster::from_raw(mode, out.width(), out.height(), out.into_bytes()).unwrap()
}

/// Every pixel of `r` is a copy of some pixel of `src`.
pub open spec fn pixels_taken_from(r: RasterModel, src: RasterModel) -> bool {
    forall|x: int, y: int|
        0 <= x < r.width && 0 <= y < r.height ==> exists|sx: int, sy: int|
            0 <= sx < src.width && 0 <= sy < src.height && #[trigger] r.rows[y][x]
                == #[trigger] src.rows[sy][sx]
}

/// Calls `image::imageops::resize(.., width, height, FilterType::Nearest)` on
/// a gray raster. The result is gray and exactly `width` x `height`, each of
/// its pixels is a copy of some source pixel (the nearest filter weighs a
/// single source sample by 1), and a request for the raster's own size
/// returns a copy. Which source pixel each sample takes is left to the name
/// `nearest_resized`. The source must have pixels, and the float buffer the
/// filter fills (source width x `height`, four channels) must fit in `usize`.
#[verifier::external_body]
pub(crate) fn resize_nearest_gray(src: &Raster, width: u32, height: u32) -> (r: Raster)
    requires
        src.wf(),
        src@.mode == ColorMode::Luma,
        src@.width >= 1,
        src@.height >= 1,
        width >= 1,
        height >= 1,
        width * height <= usize::MAX,
        src@.width * height * 4 <= usize::MAX,
    ensures
        r.wf(),
        r@ == nearest_resized(src@, width, height),
        r@.mode == ColorMode::Luma,
        r@.width == width,
        r@.height == height,
        pixels_taken_from(r@, src@),
        (width == src@.width && height == src@.height) ==> r@ == src@,
{
    let gray: GrayImage = ImageBuffer::from_raw(src.width(), src.height(), src.as_bytes().clone()).unwrap();
    let out = image::imageops::resize(&gray, width, height, FilterType::Nearest);
    Raster::from_raw(ColorMode::Luma, width, height, out.into_raw()).unwrap()
}

} // verus!
