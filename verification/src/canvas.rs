use vstd::prelude::*;
use crate::color::{ColorMode, Paint, encode};
use crate::error::FenrirError;
use crate::raster::{
    Raster,
    RasterModel,
    crop_model,
    rotate90_model,
    rotate180_model,
    rotate270_model,
    converted_model,
    solid_model,
};
use crate::text::{ascii_upper, ascii_lower, upper_equals, lower_equals};
use crate::line::{line_points, line_walk, walk_state, lemma_walk_step, abs_int, step_x};

verus! {

/// Abstract picture of an image: the size it reports and the raster it holds.
/// The two sizes agree except after `resize`, which keeps the requested size
/// while the raster keeps its aspect ratio.
#[verifier::ext_equal]
pub struct ImageModel {
    pub width: nat,
    pub height: nat,
    pub raster: RasterModel,
}

/// An image whose reported size is that of its raster.
pub open spec fn image_of(r: RasterModel) -> ImageModel {
    ImageModel { width: r.width, height: r.height, raster: r }
}

/// The layout that a mode name selects, letters compared without ASCII case.
pub open spec fn mode_named(name: Seq<char>) -> Option<ColorMode> {
    if ascii_upper(name) == seq!['R', 'G', 'B'] {
        Some(ColorMode::Rgb)
    } else if ascii_upper(name) == seq!['R', 'G', 'B', 'A'] {
        Some(ColorMode::Rgba)
    } else if ascii_upper(name) == seq!['L'] {
        Some(ColorMode::Luma)
    } else {
        None
    }
}

/// Why a rectangle is refused on an image of the given size, if it is.
pub open spec fn rect_error(iw: nat, ih: nat, x: nat, y: nat, w: nat, h: nat) -> Option<FenrirError> {
    if w == 0 || h == 0 {
        Some(FenrirError::EmptyRect)
    } else if x >= iw || y >= ih {
        Some(FenrirError::RectOriginOutside)
    } else if x + w > u32::MAX {
        Some(FenrirError::RectWidthOverflow)
    } else if y + h > u32::MAX {
        Some(FenrirError::RectHeightOverflow)
    } else if x + w > iw || y + h > ih {
        Some(FenrirError::RectTooLarge)
    } else {
        None
    }
}

/// The raster with every listed point painted `px`.
pub open spec fn painted_points(m: RasterModel, pts: Seq<(int, int)>, px: Seq<u8>) -> RasterModel {
    RasterModel {
        rows: Seq::new(
            m.height,
            |y: int|
                Seq::new(
                    m.width,
                    |x: int|
                        if pts.contains((x, y)) {
                            px
                        } else {
                            m.rows[y][x]
                        },
                ),
        ),
        ..m
    }
}

/// Whether (`x`, `y`) is an accepted line endpoint on an image of the given
/// size: inside it, on an image whose sides fit in an `i32`.
pub open spec fn line_end_ok(iw: nat, ih: nat, x: i32, y: i32) -> bool {
    &&& 0 <= x < iw
    &&& 0 <= y < ih
    &&& iw <= i32::MAX
    &&& ih <= i32::MAX
}

/// What drawing the segment from (`x1`, `y1`) to (`x2`, `y2`) does to an image.
pub open spec fn line_result(m: ImageModel, x1: i32, y1: i32, x2: i32, y2: i32, color: Paint) -> Result<
    ImageModel,
    FenrirError,
> {
    if line_end_ok(m.width, m.height, x1, y1) && line_end_ok(m.width, m.height, x2, y2) {
        Ok(
            ImageModel {
                raster: painted_points(
                    m.raster,
                    line_points(x1 as int, y1 as int, x2 as int, y2 as int),
                    encode(m.raster.mode, color),
                ),
                ..m
            },
        )
    } else {
        Err(FenrirError::LineOutside)
    }
}

/// What drawing the outline of the rectangle at (`x`, `y`) of size `w` x `h`
/// does: top edge, bottom edge, then, when taller than one row, left and right edges.
pub open spec fn outline_result(m: ImageModel, x: u32, y: u32, w: u32, h: u32, color: Paint) -> Result<
    ImageModel,
    FenrirError,
> {
    let xa = x as i32;
    let ya = y as i32;
    let xb = (x + w - 1) as i32;
    let yb = (y + h - 1) as i32;
    match line_result(m, xa, ya, xb, ya, color) {
        Err(e) => Err(e),
        Ok(m1) => match line_result(m1, xa, yb, xb, yb, color) {
            Err(e) => Err(e),
            Ok(m2) => if h > 1 {
                match line_result(m2, xa, ya, xa, yb, color) {
                    Err(e) => Err(e),
                    Ok(m3) => line_result(m3, xb, ya, xb, yb, color),
                }
            } else {
                Ok(m2)
            },
        },
    }
}

/// The direction a name selects (`true` for horizontal), letters compared
/// without ASCII case.
pub open spec fn direction_named(name: Seq<char>) -> Option<bool> {
    if ascii_lower(name) == seq!['h', 'o', 'r', 'i', 'z', 'o', 'n', 't', 'a', 'l'] {
        Some(true)
    } else if ascii_lower(name) == seq!['v', 'e', 'r', 't', 'i', 'c', 'a', 'l'] {
        Some(false)
    } else {
        None
    }
}

/// The raster with each pixel of the top-left `w` x `h` area painted with the
/// ramp entry of its column (horizontal) or row (vertical).
pub open spec fn gradient_model(m: RasterModel, w: nat, h: nat, horizontal: bool, ramp: Seq<Paint>) -> RasterModel {
    RasterModel {
        rows: Seq::new(
            m.height,
            |y: int|
                Seq::new(
                    m.width,
                    |x: int|
                        if x < w && y < h {
                            encode(
                                m.mode,
                                ramp[if horizontal {
                                    x
                                } else {
                                    y
                                }],
                            )
                        } else {
                            m.rows[y][x]
                        },
                ),
        ),
        ..m
    }
}

/// Gradient directions are read without ASCII case.
pub fn parse_direction(direction: &str) -> (r: Result<bool, FenrirError>)
    ensures
        direction_named(direction@) matches Some(b) ==> r == Ok::<bool, FenrirError>(b),
        direction_named(direction@) is None ==> r == Err::<bool, FenrirError>(
            FenrirError::BadDirection,
        ),
{
    proof {
        reveal_strlit("horizontal");
        reveal_strlit("vertical");
        assert("horizontal"@ =~= seq!['h', 'o', 'r', 'i', 'z', 'o', 'n', 't', 'a', 'l']);
        assert("vertical"@ =~= seq!['v', 'e', 'r', 't', 'i', 'c', 'a', 'l']);
    }
    if lower_equals(direction, "horizontal") {
        Ok(true)
    } else if lower_equals(direction, "vertical") {
        Ok(false)
    } else {
        Err(FenrirError::BadDirection)
    }
}

/// Mode names are read without ASCII case.
pub fn parse_mode(mode: &str) -> (r: Option<ColorMode>)
    ensures
        r == mode_named(mode@),
{
    proof {
        reveal_strlit("RGB");
        reveal_strlit("RGBA");
        reveal_strlit("L");
        assert("RGB"@ =~= seq!['R', 'G', 'B']);
        assert("RGBA"@ =~= seq!['R', 'G', 'B', 'A']);
        assert("L"@ =~= seq!['L']);
    }
    if upper_equals(mode, "RGB") {
        Some(ColorMode::Rgb)
    } else if upper_equals(mode, "RGBA") {
        Some(ColorMode::Rgba)
    } else if upper_equals(mode, "L") {
        Some(ColorMode::Luma)
    } else {
        None
    }
}

/// An image: a reported width and height and a raster of pixels.
pub struct FenrirImage {
    width: u32,
    height: u32,
    buffer: Raster,
}

impl View for FenrirImage {
    type V = ImageModel;

    closed spec fn view(&self) -> ImageModel {
        ImageModel { width: self.width as nat, height: self.height as nat, raster: self.buffer@ }
    }
}

impl FenrirImage {
    /// The raster is well formed, no larger than the reported size, and not
    /// empty when the reported size is not.
    pub closed spec fn wf(&self) -> bool {
        &&& self.buffer.wf()
        &&& self.buffer@.width <= self.width
        &&& self.buffer@.height <= self.height
        &&& (self.width > 0 && self.height > 0) ==> (self.buffer@.width > 0
            && self.buffer@.height > 0)
    }

    pub proof fn lemma_wf(&self)
        requires
            self.wf(),
        ensures
            self@.raster.wf(),
            self@.width <= u32::MAX,
            self@.height <= u32::MAX,
            self@.raster.width <= u32::MAX,
            self@.raster.height <= u32::MAX,
            self@.raster.width * self@.raster.height * self@.raster.mode.channels() <= usize::MAX,
            (self@.width > 0 && self@.height > 0) ==> (self@.raster.width > 0
                && self@.raster.height > 0),
            self@.raster.width <= self@.width,
            self@.raster.height <= self@.height,
    {
        self.buffer.lemma_wf();
    }

    /// Refuses a point outside the reported size.
    fn validate_point(&self, x: u32, y: u32) -> (r: Result<(), FenrirError>)
        ensures
            (x < self@.width && y < self@.height) ==> r == Ok::<(), FenrirError>(()),
            !(x < self@.width && y < self@.height) ==> r == Err::<(), FenrirError>(
                FenrirError::PointOutside,
            ),
    {
        if x >= self.width || y >= self.height {
            return Err(FenrirError::PointOutside);
        }
        Ok(())
    }

    /// Refuses a rectangle that is empty, starts outside the reported size,
    /// overflows 32 bits, or reaches past the reported size.
    fn validate_rect(&self, x: u32, y: u32, w: u32, h: u32) -> (r: Result<(), FenrirError>)
        ensures
            rect_error(self@.width, self@.height, x as nat, y as nat, w as nat, h as nat) matches Some(
                e,
            ) ==> r == Err::<(), FenrirError>(e),
            rect_error(self@.width, self@.height, x as nat, y as nat, w as nat, h as nat) is None
                ==> r == Ok::<(), FenrirError>(()),
    {
        if w == 0 || h == 0 {
            return Err(FenrirError::EmptyRect);
        }
        if x >= self.width || y >= self.height {
            return Err(FenrirError::RectOriginOutside);
        }
        let max_x = match x.checked_add(w) {
            Some(v) => v,
            None => {
                return Err(FenrirError::RectWidthOverflow);
            },
        };
        let max_y = match y.checked_add(h) {
            Some(v) => v,
            None => {
                return Err(FenrirError::RectHeightOverflow);
            },
        };
        if max_x > self.width || max_y > self.height {
            return Err(FenrirError::RectTooLarge);
        }
        Ok(())
    }

    /// An image that reports the size of the raster it holds.
    pub fn from_raster(raster: Raster) -> (img: FenrirImage)
        requires
            raster.wf(),
        ensures
            img.wf(),
            img@ == image_of(raster@),
    {
        let width = raster.width();
        let height = raster.height();
        FenrirImage { width, height, buffer: raster }
    }

    /// The raster the image holds.
    pub fn raster(&self) -> (r: &Raster)
        requires
            self.wf(),
        ensures
            r.wf(),
            r@ == self@.raster,
    {
        &self.buffer
    }

    /// A new image of the given size and mode ("RGB", "RGBA" or "L", in any
    /// ASCII case) with every pixel painted `color`.
    pub fn new(width: u32, height: u32, mode: &str, color: Paint) -> (r: Result<FenrirImage, FenrirError>)
        requires
            width > 0 && height > 0 && mode_named(mode@) is Some ==> width * height * mode_named(
                mode@,
            ).unwrap().channels() <= usize::MAX,
        ensures
            (width == 0 || height == 0) ==> r == Err::<FenrirImage, FenrirError>(
                FenrirError::EmptyImage,
            ),
            (width > 0 && height > 0 && mode_named(mode@) is None) ==> r == Err::<
                FenrirImage,
                FenrirError,
            >(FenrirError::UnknownMode),
            (width > 0 && height > 0 && mode_named(mode@) is Some) ==> (r matches Ok(img) && img.wf()
                && img@ == image_of(
                solid_model(
                    mode_named(mode@).unwrap(),
                    width as nat,
                    height as nat,
                    encode(mode_named(mode@).unwrap(), color),
                ),
            )),
    {
        if width == 0 || height == 0 {
            return Err(FenrirError::EmptyImage);
        }
        match parse_mode(mode) {
            Some(m) => {
                let raster = Raster::filled(m, width, height, color);
                Ok(FenrirImage { width, height, buffer: raster })
            },
            None => Err(FenrirError::UnknownMode),
        }
    }

    /// The size the image reports: (width, height).
    pub fn get_size(&self) -> (s: (u32, u32))
        ensures
            s.0 == self@.width,
            s.1 == self@.height,
    {
        (self.width, self.height)
    }

    /// RGBA color of pixel (`x`, `y`).
    pub fn get_pixel(&self, x: u32, y: u32) -> (r: Result<(u8, u8, u8, u8), FenrirError>)
        requires
            self.wf(),
            x < self@.width && y < self@.height ==> x < self@.raster.width && y
                < self@.raster.height,
        ensures
            !(x < self@.width && y < self@.height) ==> r == Err::<(u8, u8, u8, u8), FenrirError>(
                FenrirError::PointOutside,
            ),
            (x < self@.width && y < self@.height) ==> r == Ok::<(u8, u8, u8, u8), FenrirError>(
                self@.raster.color_at(x as int, y as int),
            ),
    {
        self.validate_point(x, y)?;
        Ok(self.buffer.color_at(x, y))
    }

    /// Paints pixel (`x`, `y`).
    pub fn draw_pixel(&mut self, x: u32, y: u32, color: Paint) -> (r: Result<(), FenrirError>)
        requires
            old(self).wf(),
            x < old(self)@.width && y < old(self)@.height ==> x < old(self)@.raster.width && y
                < old(self)@.raster.height,
        ensures
            final(self).wf(),
            !(x < old(self)@.width && y < old(self)@.height) ==> r == Err::<(), FenrirError>(
                FenrirError::PointOutside,
            ) && final(self)@ == old(self)@,
            (x < old(self)@.width && y < old(self)@.height) ==> r == Ok::<(), FenrirError>(())
                && final(self)@ == (ImageModel {
                raster: old(self)@.raster.with_pixel(
                    x as int,
                    y as int,
                    encode(old(self)@.raster.mode, color),
                ),
                ..old(self)@
            }),
    {
        self.validate_point(x, y)?;
        self.buffer.put(x, y, color);
        Ok(())
    }

    /// Draws the segment from (`x1`, `y1`) to (`x2`, `y2`) with Bresenham's algorithm.
    pub fn draw_line(&mut self, x1: i32, y1: i32, x2: i32, y2: i32, color: Paint) -> (r: Result<
        (),
        FenrirError,
    >)
        requires
            old(self).wf(),
            line_end_ok(old(self)@.width, old(self)@.height, x1, y1) && line_end_ok(
                old(self)@.width,
                old(self)@.height,
                x2,
                y2,
            ) ==> {
                &&& x1 < old(self)@.raster.width && x2 < old(self)@.raster.width
                &&& y1 < old(self)@.raster.height && y2 < old(self)@.raster.height
            },
        ensures
            final(self).wf(),
            !(line_end_ok(old(self)@.width, old(self)@.height, x1, y1) && line_end_ok(
                old(self)@.width,
                old(self)@.height,
                x2,
                y2,
            )) ==> (r == Err::<(), FenrirError>(FenrirError::LineOutside) && final(self)@ == old(
                self,
            )@),
            (line_end_ok(old(self)@.width, old(self)@.height, x1, y1) && line_end_ok(
                old(self)@.width,
                old(self)@.height,
                x2,
                y2,
            )) ==> (r == Ok::<(), FenrirError>(()) && final(self)@ == (ImageModel {
                raster: painted_points(
                    old(self)@.raster,
                    line_points(x1 as int, y1 as int, x2 as int, y2 as int),
                    encode(old(self)@.raster.mode, color),
                ),
                ..old(self)@
            })),
    {
        let w32 = self.width;
        let h32 = self.height;
        proof {
            assert(w32 > 0x7fff_ffffu32 ==> (w32 as i32) < 0i32) by (bit_vector);
            assert(h32 > 0x7fff_ffffu32 ==> (h32 as i32) < 0i32) by (bit_vector);
        }
        let width = self.width as i32;
        let height = self.height as i32;
        if x1 < 0 || y1 < 0 || x1 >= width || y1 >= height || x2 < 0 || y2 < 0 || x2 >= width || y2
            >= height {
            return Err(FenrirError::LineOutside);
        }
        let ghost start = self@;
        let ghost px = encode(start.raster.mode, color);
        proof {
            self.lemma_wf();
        }
        let dx: i32 = if x2 >= x1 {
            x2 - x1
        } else {
            x1 - x2
        };
        let dy: i32 = if y2 >= y1 {
            -(y2 - y1)
        } else {
            -(y1 - y2)
        };
        let sx: i32 = if x1 < x2 {
            1
        } else {
            -1
        };
        let sy: i32 = if y1 < y2 {
            1
        } else {
            -1
        };
        let mut x0 = x1;
        let mut y0 = y1;
        let mut err: i64 = dx as i64 + dy as i64;
        let ghost mut i: int = 0;
        let ghost mut j: int = 0;
        let ghost mut k: int = 0;
        let ghost mut visited: Seq<(int, int)> = Seq::empty();
        proof {
            assert(dx * (0 + 1) - (-dy) * (0 + 1) == dx + dy) by (nonlinear_arith);
            assert(dx * 0 - (-dy) * 0 == 0) by (nonlinear_arith);
            assert(visited + line_walk(
                x0 as int,
                y0 as int,
                x2 as int,
                y2 as int,
                dx as int,
                dy as int,
                sx as int,
                sy as int,
                err as int,
                (dx - dy - k) as nat,
            ) =~= line_points(x1 as int, y1 as int, x2 as int, y2 as int));
            assert forall|yy: int| 0 <= yy < start.raster.height implies #[trigger] self@.raster.rows[yy]
                =~= painted_points(start.raster, visited, px).rows[yy] by {}
            assert(self@.raster.rows =~= painted_points(start.raster, visited, px).rows);
        }
        while !(x0 == x2 && y0 == y2)
            invariant
                self.wf(),
                self@.width == start.width,
                self@.height == start.height,
                start.raster.wf(),
                self@.raster.mode == start.raster.mode,
                self@.raster.width == start.raster.width,
                self@.raster.height == start.raster.height,
                px == encode(start.raster.mode, color),
                x1 < start.raster.width,
                x2 < start.raster.width,
                y1 < start.raster.height,
                y2 < start.raster.height,
                0 <= x1,
                0 <= x2,
                0 <= y1,
                0 <= y2,
                dx == abs_int(x2 - x1),
                dy == -abs_int(y2 - y1),
                sx == step_x(x1 as int, x2 as int),
                sy == step_x(y1 as int, y2 as int),
                walk_state(
                    x1 as int,
                    y1 as int,
                    x2 as int,
                    y2 as int,
                    i,
                    j,
                    k,
                    x0 as int,
                    y0 as int,
                    err as int,
                ),
                visited + line_walk(
                    x0 as int,
                    y0 as int,
                    x2 as int,
                    y2 as int,
                    dx as int,
                    dy as int,
                    sx as int,
                    sy as int,
                    err as int,
                    (dx - dy - k) as nat,
                ) == line_points(x1 as int, y1 as int, x2 as int, y2 as int),
                self@.raster == painted_points(start.raster, visited, px),
            decreases (dx - i) + (-dy - j),
        {
            proof {
                lemma_walk_step(
                    x1 as int,
                    y1 as int,
                    x2 as int,
                    y2 as int,
                    i,
                    j,
                    k,
                    x0 as int,
                    y0 as int,
                    err as int,
                );
                crate::line::lemma_state_in_box(
                    x1 as int,
                    y1 as int,
                    x2 as int,
                    y2 as int,
                    i,
                    j,
                    k,
                    x0 as int,
                    y0 as int,
                    err as int,
                );
            }
            let ghost before = self@.raster;
            let ghost old_x = x0 as int;
            let ghost old_y = y0 as int;
            let ghost old_err = err as int;
            self.buffer.put(x0 as u32, y0 as u32, color);
            let e2 = 2 * err;
            if e2 >= dy as i64 {
                err += dy as i64;
                x0 += sx;
            }
            if e2 <= dx as i64 {
                err += dx as i64;
                y0 += sy;
            }
            proof {
                let fuel = (dx - dy - k) as nat;
                assert(fuel > 0);
                let rest = line_walk(
                    old_x,
                    old_y,
                    x2 as int,
                    y2 as int,
                    dx as int,
                    dy as int,
                    sx as int,
                    sy as int,
                    old_err,
                    fuel,
                );
                let next = line_walk(
                    x0 as int,
                    y0 as int,
                    x2 as int,
                    y2 as int,
                    dx as int,
                    dy as int,
                    sx as int,
                    sy as int,
                    err as int,
                    (fuel - 1) as nat,
                );
                assert(rest == seq![(old_x, old_y)] + next);
                let v2 = visited.push((old_x, old_y));
                assert(v2 + next =~= visited + rest);
                assert forall|yy: int| 0 <= yy < start.raster.height implies #[trigger] self@.raster.rows[yy]
                    =~= painted_points(start.raster, v2, px).rows[yy] by {
                    assert forall|xx: int| 0 <= xx < start.raster.width implies #[trigger] self@.raster.rows[yy][xx]
                        == painted_points(start.raster, v2, px).rows[yy][xx] by {
                        if xx == old_x && yy == old_y {
                            assert(v2[v2.len() - 1] == (xx, yy));
                            assert(v2.contains((xx, yy)));
                        } else {
                            assert(v2.contains((xx, yy)) == visited.contains((xx, yy))) by {
                                if v2.contains((xx, yy)) {
                                    let n = choose|n: int| 0 <= n < v2.len() && v2[n] == (xx, yy);
                                    if n < visited.len() {
                                        assert(visited[n] == (xx, yy));
                                    }
                                }
                                if visited.contains((xx, yy)) {
                                    let n = choose|n: int| 0 <= n < visited.len() && visited[n] == (xx, yy);
                                    assert(v2[n] == (xx, yy));
                                }
                            }
                        }
                    }
                }
                assert(self@.raster.rows =~= painted_points(start.raster, v2, px).rows);
                visited = v2;
                if 2 * old_err >= dy {
                    i = i + 1;
                }
                if 2 * old_err <= dx {
                    j = j + 1;
                }
                k = k + 1;
            }
        }
        proof {
            crate::line::lemma_state_in_box(
                x1 as int,
                y1 as int,
                x2 as int,
                y2 as int,
                i,
                j,
                k,
                x0 as int,
                y0 as int,
                err as int,
            );
        }
        self.buffer.put(x2 as u32, y2 as u32, color);
        proof {
            let fuel = (dx - dy - k) as nat;
            let rest = line_walk(
                x0 as int,
                y0 as int,
                x2 as int,
                y2 as int,
                dx as int,
                dy as int,
                sx as int,
                sy as int,
                err as int,
                fuel,
            );
            assert(rest == seq![(x2 as int, y2 as int)]);
            let v2 = visited.push((x2 as int, y2 as int));
            assert(v2 =~= visited + rest);
            let all = line_points(x1 as int, y1 as int, x2 as int, y2 as int);
            assert forall|yy: int| 0 <= yy < start.raster.height implies #[trigger] self@.raster.rows[yy]
                =~= painted_points(start.raster, all, px).rows[yy] by {
                assert forall|xx: int| 0 <= xx < start.raster.width implies #[trigger] self@.raster.rows[yy][xx]
                    == painted_points(start.raster, all, px).rows[yy][xx] by {
                    if xx == x2 && yy == y2 {
                        assert(all[all.len() - 1] == (xx, yy));
                    } else {
                        assert(all.contains((xx, yy)) == visited.contains((xx, yy))) by {
                            if all.contains((xx, yy)) {
                                let n = choose|n: int| 0 <= n < all.len() && all[n] == (xx, yy);
                                if n < visited.len() {
                                    assert(visited[n] == (xx, yy));
                                }
                            }
                            if visited.contains((xx, yy)) {
                                let n = choose|n: int| 0 <= n < visited.len() && visited[n] == (xx, yy);
                                assert(all[n] == (xx, yy));
                            }
                        }
                    }
                }
            }
            assert(self@.raster =~= painted_points(start.raster, all, px));
        }
        Ok(())
    }

    /// Draws the rectangle at (`x`, `y`) of size `w` x `h`: filled, or only its outline.
    pub fn draw_rect(&mut self, x: u32, y: u32, w: u32, h: u32, color: Paint, fill: bool) -> (r:
        Result<(), FenrirError>)
        requires
            old(self).wf(),
            rect_error(old(self)@.width, old(self)@.height, x as nat, y as nat, w as nat, h as nat)
                is None ==> {
                &&& x + w <= old(self)@.raster.width
                &&& y + h <= old(self)@.raster.height
            },
        ensures
            final(self).wf(),
            rect_error(old(self)@.width, old(self)@.height, x as nat, y as nat, w as nat, h as nat)
                matches Some(e) ==> (r == Err::<(), FenrirError>(e) && final(self)@ == old(self)@),
            rect_error(old(self)@.width, old(self)@.height, x as nat, y as nat, w as nat, h as nat)
                is None && fill ==> (r == Ok::<(), FenrirError>(()) && final(self)@ == (ImageModel {
                raster: crate::raster::painted_rect(
                    old(self)@.raster,
                    x as int,
                    y as int,
                    w as int,
                    h as int,
                    encode(old(self)@.raster.mode, color),
                ),
                ..old(self)@
            })),
            rect_error(old(self)@.width, old(self)@.height, x as nat, y as nat, w as nat, h as nat)
                is None && !fill ==> (match outline_result(old(self)@, x, y, w, h, color) {
                Ok(m) => r == Ok::<(), FenrirError>(()) && final(self)@ == m,
                Err(e) => r == Err::<(), FenrirError>(e) && final(self)@ == old(self)@,
            }),
    {
        self.validate_rect(x, y, w, h)?;
        if fill {
            self.buffer.paint_rect(x, y, w, h, color);
            return Ok(());
        }
        let ghost m0 = self@;
        let xb = (x + w - 1) as i32;
        let yb = (y + h - 1) as i32;
        let xa = x as i32;
        let ya = y as i32;
        proof {
            assert(xa >= 0 ==> x <= 0x7fff_ffffu32) by (bit_vector)
                requires
                    xa == x as i32,
            ;
            assert(ya >= 0 ==> y <= 0x7fff_ffffu32) by (bit_vector)
                requires
                    ya == y as i32,
            ;
            let xw: u32 = (x + w - 1) as u32;
            let yh: u32 = (y + h - 1) as u32;
            assert(xb >= 0 ==> xw <= 0x7fff_ffffu32) by (bit_vector)
                requires
                    xb == xw as i32,
            ;
            assert(yb >= 0 ==> yh <= 0x7fff_ffffu32) by (bit_vector)
                requires
                    yb == yh as i32,
            ;
        }
        self.draw_line(xa, ya, xb, ya, color)?;
        self.draw_line(xa, yb, xb, yb, color)?;
        if h > 1 {
            self.draw_line(xa, ya, xa, yb, color)?;
            self.draw_line(xb, ya, xb, yb, color)?;
        }
        Ok(())
    }

    /// Paints each pixel within the reported size with the ramp entry of its
    /// column (`horizontal`) or row; the ramp has one entry per column or row.
    pub fn apply_gradient(&mut self, horizontal: bool, ramp: &Vec<Paint>)
        requires
            old(self).wf(),
            ramp@.len() == if horizontal {
                old(self)@.width
            } else {
                old(self)@.height
            },
            old(self)@.width > 0 && old(self)@.height > 0 ==> old(self)@.width <= old(
                self,
            )@.raster.width && old(self)@.height <= old(self)@.raster.height,
        ensures
            final(self).wf(),
            final(self)@ == (ImageModel {
                raster: gradient_model(
                    old(self)@.raster,
                    old(self)@.width,
                    old(self)@.height,
                    horizontal,
                    ramp@,
                ),
                ..old(self)@
            }),
    {
        let ghost start = self@;
        proof {
            self.lemma_wf();
        }
        let width = self.width;
        let height = self.height;
        let mut y: u32 = 0;
        while y < height
            invariant
                self.wf(),
                start.raster.wf(),
                self@.width == start.width,
                self@.height == start.height,
                width == start.width,
                height == start.height,
                self@.raster.mode == start.raster.mode,
                self@.raster.width == start.raster.width,
                self@.raster.height == start.raster.height,
                ramp@.len() == if horizontal {
                    start.width
                } else {
                    start.height
                },
                width > 0 && height > 0 ==> width <= start.raster.width && height
                    <= start.raster.height,
                0 <= y <= height,
                forall|j: int, i: int|
                    0 <= j < start.raster.height && 0 <= i < start.raster.width
                        ==> #[trigger] self@.raster.rows[j][i] == if i < width && j < y {
                        encode(
                            start.raster.mode,
                            ramp@[if horizontal {
                                i
                            } else {
                                j
                            }],
                        )
                    } else {
                        start.raster.rows[j][i]
                    },
            decreases height - y,
        {
            let mut x: u32 = 0;
            while x < width
                invariant
                    self.wf(),
                    start.raster.wf(),
                    self@.width == start.width,
                    self@.height == start.height,
                    width == start.width,
                    height == start.height,
                    self@.raster.mode == start.raster.mode,
                    self@.raster.width == start.raster.width,
                    self@.raster.height == start.raster.height,
                    ramp@.len() == if horizontal {
                        start.width
                    } else {
                        start.height
                    },
                    width > 0 && height > 0 ==> width <= start.raster.width && height
                        <= start.raster.height,
                    0 <= y < height,
                    0 <= x <= width,
                    forall|j: int, i: int|
                        0 <= j < start.raster.height && 0 <= i < start.raster.width
                            ==> #[trigger] self@.raster.rows[j][i] == if (i < width && j < y) || (j
                            == y && i < x) {
                            encode(
                                start.raster.mode,
                                ramp@[if horizontal {
                                    i
                                } else {
                                    j
                                }],
                            )
                        } else {
                            start.raster.rows[j][i]
                        },
                decreases width - x,
            {
                let paint = if horizontal {
                    ramp[x as usize]
                } else {
                    ramp[y as usize]
                };
                let ghost before = self@.raster;
                proof {
                    self.lemma_wf();
                }
                self.buffer.put(x, y, paint);
                proof {
                    assert(paint == ramp@[if horizontal {
                        x as int
                    } else {
                        y as int
                    }]);
                    assert forall|j: int, i: int|
                        0 <= j < start.raster.height && 0 <= i < start.raster.width implies #[trigger] self@.raster.rows[j][i]
                            == if (i < width && j < y) || (j == y && i < x + 1) {
                            encode(
                                start.raster.mode,
                                ramp@[if horizontal {
                                    i
                                } else {
                                    j
                                }],
                            )
                        } else {
                            start.raster.rows[j][i]
                        } by {
                        if j == y && i == x {
                        } else {
                            assert(self@.raster.rows[j][i] == before.rows[j][i]);
                        }
                    }
                }
                x += 1;
            }
            y += 1;
        }
        proof {
            self.lemma_wf();
            let target = gradient_model(start.raster, start.width, start.height, horizontal, ramp@);
            assert forall|j: int| 0 <= j < start.raster.height implies #[trigger] self@.raster.rows[j]
                =~= target.rows[j] by {}
            assert(self@.raster.rows =~= target.rows);
        }
    }

    /// Takes `resized`, the raster a resize to `w` x `h` produced, as the
    /// image's pixels; the image then reports `w` x `h`.
    pub fn adopt_resized(&mut self, w: u32, h: u32, resized: Raster)
        requires
            old(self).wf(),
            resized.wf(),
            resized@.mode == old(self)@.raster.mode,
            crate::resample::fitted_size(
                old(self)@.raster.width,
                old(self)@.raster.height,
                w as nat,
                h as nat,
                resized@.width,
                resized@.height,
            ),
        ensures
            final(self).wf(),
            final(self)@ == (ImageModel { width: w as nat, height: h as nat, raster: resized@ }),
    {
        proof {
            resized.lemma_wf();
        }
        self.width = w;
        self.height = h;
        self.buffer = resized;
    }

    /// Resizes the image with the Lanczos3 filter. The image then reports the
    /// requested size, while its raster keeps its layout and its aspect ratio,
    /// taking the size `fitted_size` describes; a request for the raster's own
    /// size leaves the pixels as they are. The resampled pixel values
    /// themselves come from the `image` crate and are not pinned down here.
    pub fn resize(&mut self, w: u32, h: u32) -> (r: Result<(), FenrirError>)
        requires
            old(self).wf(),
            w > 0 && h > 0 ==> {
                &&& w * h * 4 <= usize::MAX
                &&& old(self)@.raster.width * h * 4 <= usize::MAX
            },
        ensures
            final(self).wf(),
            (w == 0 || h == 0) ==> (r == Err::<(), FenrirError>(FenrirError::EmptyResize)
                && final(self)@ == old(self)@),
            (w > 0 && h > 0) ==> {
                &&& r == Ok::<(), FenrirError>(())
                &&& final(self)@.width == w
                &&& final(self)@.height == h
                &&& final(self)@.raster.mode == old(self)@.raster.mode
                &&& crate::resample::fitted_size(
                    old(self)@.raster.width,
                    old(self)@.raster.height,
                    w as nat,
                    h as nat,
                    final(self)@.raster.width,
                    final(self)@.raster.height,
                )
                &&& (w == old(self)@.raster.width && h == old(self)@.raster.height)
                    ==> final(self)@.raster == old(self)@.raster
            },
    {
        if w == 0 || h == 0 {
            return Err(FenrirError::EmptyResize);
        }
        let resized = crate::resample::fit_lanczos3(&self.buffer, w, h);
        self.adopt_resized(w, h, resized);
        Ok(())
    }

    /// Paints every pixel of the raster.
    pub fn fill(&mut self, color: Paint) -> (r: Result<(), FenrirError>)
        requires
            old(self).wf(),
        ensures
            final(self).wf(),
            r is Ok,
            final(self)@ == (ImageModel {
                raster: solid_model(
                    old(self)@.raster.mode,
                    old(self)@.raster.width,
                    old(self)@.raster.height,
                    encode(old(self)@.raster.mode, color),
                ),
                ..old(self)@
            }),
    {
        self.buffer.fill(color);
        Ok(())
    }

    /// Cuts the image down to the rectangle at (`x`, `y`) of size `w` x `h`
    /// and returns a copy of the result. The rectangle must lie inside the
    /// reported size; the cut itself is clipped to the raster.
    pub fn crop(&mut self, x: u32, y: u32, w: u32, h: u32) -> (r: Result<FenrirImage, FenrirError>)
        requires
            old(self).wf(),
        ensures
            final(self).wf(),
            rect_error(old(self)@.width, old(self)@.height, x as nat, y as nat, w as nat, h as nat)
                matches Some(e) ==> (r == Err::<FenrirImage, FenrirError>(e) && final(self)@ == old(
                self,
            )@),
            rect_error(old(self)@.width, old(self)@.height, x as nat, y as nat, w as nat, h as nat)
                is None ==> (r matches Ok(img) && img.wf() && img@ == image_of(
                crop_model(old(self)@.raster, x as nat, y as nat, w as nat, h as nat),
            ) && final(self)@ == img@),
    {
        self.validate_rect(x, y, w, h)?;
        let cut = self.buffer.crop(x, y, w, h);
        let copy = cut.copy();
        self.width = cut.width();
        self.height = cut.height();
        self.buffer = cut;
        Ok(FenrirImage::from_raster(copy))
    }

    /// Turns the image a quarter turn clockwise; it then reports its raster's size.
    pub fn rotate_90(&mut self) -> (r: Result<(), FenrirError>)
        requires
            old(self).wf(),
        ensures
            final(self).wf(),
            r is Ok,
            final(self)@ == image_of(rotate90_model(old(self)@.raster)),
    {
        let rotated = self.buffer.rotate90();
        self.width = rotated.width();
        self.height = rotated.height();
        self.buffer = rotated;
        Ok(())
    }

    /// Turns the image half a turn; it then reports its raster's size.
    pub fn rotate_180(&mut self) -> (r: Result<(), FenrirError>)
        requires
            old(self).wf(),
        ensures
            final(self).wf(),
            r is Ok,
            final(self)@ == image_of(rotate180_model(old(self)@.raster)),
    {
        let rotated = self.buffer.rotate180();
        self.width = rotated.width();
        self.height = rotated.height();
        self.buffer = rotated;
        Ok(())
    }

    /// Turns the image three quarter turns clockwise; it then reports its raster's size.
    pub fn rotate_270(&mut self) -> (r: Result<(), FenrirError>)
        requires
            old(self).wf(),
        ensures
            final(self).wf(),
            r is Ok,
            final(self)@ == image_of(rotate270_model(old(self)@.raster)),
    {
        let rotated = self.buffer.rotate270();
        self.width = rotated.width();
        self.height = rotated.height();
        self.buffer = rotated;
        Ok(())
    }

    /// A copy of the image that reports the size of its raster.
    pub fn duplicate(&self) -> (img: FenrirImage)
        requires
            self.wf(),
        ensures
            img.wf(),
            img@ == image_of(self@.raster),
    {
        FenrirImage::from_raster(self.buffer.copy())
    }

    /// The raster's pixels as row-major RGBA bytes, with the raster's width and height.
    pub fn snapshot_rgba(&self) -> (s: (Vec<u8>, u32, u32))
        requires
            self.wf(),
        ensures
            s.0@ == converted_model(self@.raster, ColorMode::Rgba).bytes(),
            s.1 == self@.raster.width,
            s.2 == self@.raster.height,
    {
        let rgba = self.buffer.convert(ColorMode::Rgba);
        let w = rgba.width();
        let h = rgba.height();
        (rgba.into_raw(), w, h)
    }
}

} // verus!
