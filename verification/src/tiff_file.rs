use vstd::prelude::*;
use crate::canvas::{FenrirImage, image_of};
use crate::color::{ColorMode, Paint, encode};
use crate::error::FenrirError;
use crate::raster::{Raster, RasterModel, crop_model, solid_model, min_nat};
use crate::text::{ascii_lower, lower_equals};

verus! {

/// Whether a file extension names a TIFF file: "tif" or "tiff", letters
/// compared without case. (Lowercasing with full Unicode rules gives "tif" or
/// "tiff" for exactly these spellings, since no other character lowercases to
/// one of the letters t, i, f.)
pub open spec fn is_tiff_extension(ext: Seq<char>) -> bool {
    ascii_lower(ext) == seq!['t', 'i', 'f'] || ascii_lower(ext) == seq!['t', 'i', 'f', 'f']
}

/// Refuses a file whose extension is not a TIFF one; `ext` is empty for a
/// file without extension.
pub fn check_tiff_extension(ext: &str) -> (r: Result<(), FenrirError>)
    ensures
        is_tiff_extension(ext@) ==> r == Ok::<(), FenrirError>(()),
        !is_tiff_extension(ext@) ==> r == Err::<(), FenrirError>(FenrirError::NotTiff),
{
    proof {
        reveal_strlit("tif");
        reveal_strlit("tiff");
        assert("tif"@ =~= seq!['t', 'i', 'f']);
        assert("tiff"@ =~= seq!['t', 'i', 'f', 'f']);
    }
    if lower_equals(ext, "tif") || lower_equals(ext, "tiff") {
        Ok(())
    } else {
        Err(FenrirError::NotTiff)
    }
}

/// Abstract state of an opened TIFF file.
pub struct TiffModel {
    pub path: Seq<char>,
    pub width: nat,
    pub height: nat,
    pub pages: nat,
    pub current_page: nat,
    pub is_big_tiff: bool,
}

/// The extent of a region load: the requested size cut down to what lies
/// inside the image from (`x`, `y`) on.
pub open spec fn region_extent(iw: nat, ih: nat, x: nat, y: nat, w: nat, h: nat) -> (nat, nat) {
    (min_nat(w, (iw - x) as nat), min_nat(h, (ih - y) as nat))
}

/// Why a region request is refused, if it is.
pub open spec fn region_error(iw: nat, ih: nat, x: nat, y: nat, w: nat, h: nat) -> Option<FenrirError> {
    if x >= iw || y >= ih {
        Some(FenrirError::RegionOutside)
    } else if w == 0 || h == 0 {
        Some(FenrirError::EmptyRegion)
    } else {
        None
    }
}

/// An opened TIFF file: its path, the size its header gives, and the page
/// being looked at.
pub struct FenrirTiff {
    path: String,
    width: u32,
    height: u32,
    pages: usize,
    current_page: usize,
    is_big_tiff: bool,
}

impl View for FenrirTiff {
    type V = TiffModel;

    closed spec fn view(&self) -> TiffModel {
        TiffModel {
            path: self.path@,
            width: self.width as nat,
            height: self.height as nat,
            pages: self.pages as nat,
            current_page: self.current_page as nat,
            is_big_tiff: self.is_big_tiff,
        }
    }
}

impl FenrirTiff {
    /// A TIFF file whose header gives `width` x `height`: one page, the first
    /// one current, not a BigTIFF.
    pub fn from_header(path: &str, width: u32, height: u32) -> (t: FenrirTiff)
        ensures
            t@ == (TiffModel {
                path: path@,
                width: width as nat,
                height: height as nat,
                pages: 1,
                current_page: 0,
                is_big_tiff: false,
            }),
    {
        FenrirTiff {
            path: String::from_str(path),
            width,
            height,
            pages: 1,
            current_page: 0,
            is_big_tiff: false,
        }
    }

    pub fn path(&self) -> (p: &str)
        ensures
            p@ == self@.path,
    {
        self.path.as_str()
    }

    pub fn get_size(&self) -> (s: (u32, u32))
        ensures
            s.0 == self@.width,
            s.1 == self@.height,
    {
        (self.width, self.height)
    }

    pub fn get_page_count(&self) -> (n: usize)
        ensures
            n == self@.pages,
    {
        self.pages
    }

    pub fn is_big_tiff(&self) -> (b: bool)
        ensures
            b == self@.is_big_tiff,
    {
        self.is_big_tiff
    }

    /// Makes `page` the current page; refused past the last page.
    pub fn set_page(&mut self, page: usize) -> (r: Result<(), FenrirError>)
        ensures
            page >= old(self)@.pages ==> (r == Err::<(), FenrirError>(FenrirError::BadPage)
                && final(self)@ == old(self)@),
            page < old(self)@.pages ==> (r == Ok::<(), FenrirError>(()) && final(self)@ == (
            TiffModel { current_page: page as nat, ..old(self)@ })),
    {
        if page >= self.pages {
            return Err(FenrirError::BadPage);
        }
        self.current_page = page;
        Ok(())
    }

    pub fn get_current_page(&self) -> (n: usize)
        ensures
            n == self@.current_page,
    {
        self.current_page
    }

    /// The size a region load at (`x`, `y`) asking for `width` x `height`
    /// delivers: refused when the origin lies outside the image or the size is
    /// empty, otherwise the request cut down to the image.
    pub fn region(&self, x: u32, y: u32, width: u32, height: u32) -> (r: Result<(u32, u32), FenrirError>)
        ensures
            region_error(self@.width, self@.height, x as nat, y as nat, width as nat, height as nat)
                matches Some(e) ==> r == Err::<(u32, u32), FenrirError>(e),
            region_error(self@.width, self@.height, x as nat, y as nat, width as nat, height as nat)
                is None ==> (r matches Ok(s) && s.0 as nat == region_extent(
                self@.width,
                self@.height,
                x as nat,
                y as nat,
                width as nat,
                height as nat,
            ).0 && s.1 as nat == region_extent(
                self@.width,
                self@.height,
                x as nat,
                y as nat,
                width as nat,
                height as nat,
            ).1),
    {
        if x >= self.width || y >= self.height {
            return Err(FenrirError::RegionOutside);
        }
        if width == 0 || height == 0 {
            return Err(FenrirError::EmptyRegion);
        }
        let actual_width = if width < self.width - x {
            width
        } else {
            self.width - x
        };
        let actual_height = if height < self.height - y {
            height
        } else {
            self.height - y
        };
        Ok((actual_width, actual_height))
    }

    /// Cuts the region at (`x`, `y`) asking for `width` x `height` out of the
    /// decoded file `decoded`, after the same checks as `region`.
    pub fn load_region(&self, decoded: &Raster, x: u32, y: u32, width: u32, height: u32) -> (r:
        Result<FenrirImage, FenrirError>)
        requires
            decoded.wf(),
        ensures
            region_error(self@.width, self@.height, x as nat, y as nat, width as nat, height as nat)
                matches Some(e) ==> r == Err::<FenrirImage, FenrirError>(e),
            region_error(self@.width, self@.height, x as nat, y as nat, width as nat, height as nat)
                is None ==> (r matches Ok(img) && img.wf() && img@ == image_of(
                crop_model(
                    decoded@,
                    x as nat,
                    y as nat,
                    region_extent(
                        self@.width,
                        self@.height,
                        x as nat,
                        y as nat,
                        width as nat,
                        height as nat,
                    ).0,
                    region_extent(
                        self@.width,
                        self@.height,
                        x as nat,
                        y as nat,
                        width as nat,
                        height as nat,
                    ).1,
                ),
            )),
    {
        let (aw, ah) = self.region(x, y, width, height)?;
        Ok(FenrirImage::from_raster(decoded.crop(x, y, aw, ah)))
    }
}

/// Abstract state of a TIFF writer: the target path and the RGBA canvas.
pub struct WriterModel {
    pub path: Seq<char>,
    pub canvas: RasterModel,
}

/// A TIFF file being painted in memory, RGBA, before it is saved.
pub struct FenrirTiffWriter {
    path: String,
    canvas: Raster,
}

impl View for FenrirTiffWriter {
    type V = WriterModel;

    closed spec fn view(&self) -> WriterModel {
        WriterModel { path: self.path@, canvas: self.canvas@ }
    }
}

impl FenrirTiffWriter {
    pub closed spec fn wf(&self) -> bool {
        &&& self.canvas.wf()
        &&& self.canvas@.mode == ColorMode::Rgba
        &&& self.canvas@.width * self.canvas@.height * 4 <= u32::MAX
    }

    /// A writer for `path` with a `width` x `height` canvas of transparent
    /// black; refused for an empty size.
    pub fn new(path: &str, width: u32, height: u32) -> (r: Result<FenrirTiffWriter, FenrirError>)
        requires
            width * height * 4 <= u32::MAX,
        ensures
            (width == 0 || height == 0) ==> r == Err::<FenrirTiffWriter, FenrirError>(
                FenrirError::EmptyWriter,
            ),
            (width > 0 && height > 0) ==> (r matches Ok(wr) && wr.wf() && wr@ == WriterModel {
                path: path@,
                canvas: solid_model(ColorMode::Rgba, width as nat, height as nat, seq![0u8, 0, 0, 0]),
            }),
    {
        if width == 0 || height == 0 {
            return Err(FenrirError::EmptyWriter);
        }
        let clear = Paint { r: 0, g: 0, b: 0, a: 0, gray: 0 };
        let canvas = Raster::filled(ColorMode::Rgba, width, height, clear);
        proof {
            assert(encode(ColorMode::Rgba, clear) =~= seq![0u8, 0, 0, 0]);
        }
        Ok(FenrirTiffWriter { path: String::from_str(path), canvas })
    }

    /// Sets pixel (`x`, `y`) to the RGBA `color`; refused outside the canvas.
    pub fn set_pixel(&mut self, x: u32, y: u32, color: (u8, u8, u8, u8)) -> (r: Result<(), FenrirError>)
        requires
            old(self).wf(),
        ensures
            final(self).wf(),
            !(x < old(self)@.canvas.width && y < old(self)@.canvas.height) ==> (r == Err::<
                (),
                FenrirError,
            >(FenrirError::WriterPixelOutside) && final(self)@ == old(self)@),
            (x < old(self)@.canvas.width && y < old(self)@.canvas.height) ==> (r == Ok::<
                (),
                FenrirError,
            >(()) && final(self)@ == (WriterModel {
                canvas: old(self)@.canvas.with_pixel(
                    x as int,
                    y as int,
                    seq![color.0, color.1, color.2, color.3],
                ),
                ..old(self)@
            })),
    {
        if x >= self.canvas.width() || y >= self.canvas.height() {
            return Err(FenrirError::WriterPixelOutside);
        }
        let paint = Paint::new(color, 0);
        self.canvas.put(x, y, paint);
        proof {
            assert(encode(ColorMode::Rgba, paint) =~= seq![color.0, color.1, color.2, color.3]);
        }
        Ok(())
    }

    /// Sets every pixel to the RGBA `color`.
    pub fn fill(&mut self, color: (u8, u8, u8, u8)) -> (r: Result<(), FenrirError>)
        requires
            old(self).wf(),
        ensures
            final(self).wf(),
            r is Ok,
            final(self)@ == (WriterModel {
                canvas: solid_model(
                    ColorMode::Rgba,
                    old(self)@.canvas.width,
                    old(self)@.canvas.height,
                    seq![color.0, color.1, color.2, color.3],
                ),
                ..old(self)@
            }),
    {
        let paint = Paint::new(color, 0);
        self.canvas.fill(paint);
        proof {
            assert(encode(ColorMode::Rgba, paint) =~= seq![color.0, color.1, color.2, color.3]);
        }
        Ok(())
    }

    /// The canvas size: (width, height).
    pub fn get_size(&self) -> (s: (u32, u32))
        ensures
            s.0 == self@.canvas.width,
            s.1 == self@.canvas.height,
    {
        (self.canvas.width(), self.canvas.height())
    }

    pub fn path(&self) -> (p: &str)
        ensures
            p@ == self@.path,
    {
        self.path.as_str()
    }

    /// The RGBA canvas, row-major, ready to be encoded.
    pub fn canvas(&self) -> (c: &Raster)
        requires
            self.wf(),
        ensures
            c.wf(),
            c@ == self@.canvas,
    {
        &self.canvas
    }
}

} // verus!
