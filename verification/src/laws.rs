use vstd::prelude::*;
use crate::ascii::{ascii_char, ascii_ramp, ascii_row, ascii_text};
use crate::canvas::{ImageModel, gradient_model, painted_points};
use crate::color::{ColorMode, Paint, encode};
use crate::line::{line_points, lemma_line_endpoints};
use crate::raster::{
    RasterModel,
    converted_model,
    crop_model,
    lemma_flatten_uniform,
    rotate90_model,
    rotate180_model,
    rotate270_model,
    solid_model,
};

verus! {

/// The RGBA color a pixel painted `p` reads as in a raster of the given layout.
pub open spec fn shown_color(mode: ColorMode, p: Paint) -> (u8, u8, u8, u8) {
    match mode {
        ColorMode::Rgb => (p.r, p.g, p.b, 255u8),
        ColorMode::Rgba => (p.r, p.g, p.b, p.a),
        ColorMode::Luma => (p.gray, p.gray, p.gray, 255u8),
    }
}

/// Reading a pixel back after painting it gives the painted color (as the
/// layout keeps it), and every other pixel reads as before.
pub proof fn lemma_paint_then_read(m: RasterModel, x: int, y: int, p: Paint)
    requires
        m.wf(),
        0 <= x < m.width,
        0 <= y < m.height,
    ensures
        m.with_pixel(x, y, encode(m.mode, p)).wf(),
        m.with_pixel(x, y, encode(m.mode, p)).color_at(x, y) == shown_color(m.mode, p),
        forall|i: int, j: int|
            0 <= i < m.width && 0 <= j < m.height && (i != x || j != y) ==> #[trigger] m.with_pixel(
                x,
                y,
                encode(m.mode, p),
            ).color_at(i, j) == m.color_at(i, j),
{
    let px = encode(m.mode, p);
    let n = m.with_pixel(x, y, px);
    assert forall|j: int, i: int|
        0 <= j < n.height && 0 <= i < n.width implies #[trigger] n.rows[j][i].len()
        == n.mode.channels() by {
        if j == y && i == x {
        } else {
            assert(n.rows[j][i] == m.rows[j][i]);
        }
    }
}

/// Every pixel of a freshly filled raster reads as the fill color.
pub proof fn lemma_fill_then_read(mode: ColorMode, w: nat, h: nat, p: Paint)
    ensures
        solid_model(mode, w, h, encode(mode, p)).wf(),
        forall|x: int, y: int|
            0 <= x < w && 0 <= y < h ==> #[trigger] solid_model(mode, w, h, encode(mode, p)).color_at(
                x,
                y,
            ) == shown_color(mode, p),
{
}

/// Every rotation of a well-formed raster is well formed.
pub proof fn lemma_rotations_wf(m: RasterModel)
    requires
        m.wf(),
    ensures
        rotate90_model(m).wf(),
        rotate180_model(m).wf(),
        rotate270_model(m).wf(),
{
}

/// Four quarter turns give the raster back.
pub proof fn lemma_four_quarter_turns(m: RasterModel)
    requires
        m.wf(),
    ensures
        rotate90_model(rotate90_model(rotate90_model(rotate90_model(m)))) == m,
{
    let r1 = rotate90_model(m);
    let r2 = rotate90_model(r1);
    let r3 = rotate90_model(r2);
    let r4 = rotate90_model(r3);
    assert forall|y: int| 0 <= y < m.height implies #[trigger] r4.rows[y] =~= m.rows[y] by {
        assert forall|x: int| 0 <= x < m.width implies #[trigger] r4.rows[y][x] == m.rows[y][x] by {
            assert(r4.rows[y][x] == r3.rows[r3.height - 1 - x][y]);
            assert(r3.rows[r3.height - 1 - x][y] == r2.rows[r2.height - 1 - y][r3.height - 1 - x]);
            assert(r2.rows[r2.height - 1 - y][r3.height - 1 - x] == r1.rows[r1.height - 1 - (
            r3.height - 1 - x)][r2.height - 1 - y]);
        }
    }
    assert(r4.rows =~= m.rows);
}

/// Two quarter turns make a half turn.
pub proof fn lemma_two_quarter_turns(m: RasterModel)
    requires
        m.wf(),
    ensures
        rotate90_model(rotate90_model(m)) == rotate180_model(m),
{
    let r2 = rotate90_model(rotate90_model(m));
    let h = rotate180_model(m);
    assert forall|y: int| 0 <= y < m.height implies #[trigger] r2.rows[y] =~= h.rows[y] by {}
    assert(r2.rows =~= h.rows);
}

/// Three quarter turns make a three-quarter turn.
pub proof fn lemma_three_quarter_turns(m: RasterModel)
    requires
        m.wf(),
    ensures
        rotate90_model(rotate90_model(rotate90_model(m))) == rotate270_model(m),
{
    let r3 = rotate90_model(rotate90_model(rotate90_model(m)));
    let t = rotate270_model(m);
    assert forall|y: int| 0 <= y < m.width implies #[trigger] r3.rows[y] =~= t.rows[y] by {}
    assert(r3.rows =~= t.rows);
}

/// A quarter turn followed by a three-quarter turn gives the raster back.
pub proof fn lemma_quarter_then_three_quarters(m: RasterModel)
    requires
        m.wf(),
    ensures
        rotate270_model(rotate90_model(m)) == m,
{
    let r = rotate270_model(rotate90_model(m));
    assert forall|y: int| 0 <= y < m.height implies #[trigger] r.rows[y] =~= m.rows[y] by {}
    assert(r.rows =~= m.rows);
}

/// Two half turns give the raster back.
pub proof fn lemma_two_half_turns(m: RasterModel)
    requires
        m.wf(),
    ensures
        rotate180_model(rotate180_model(m)) == m,
{
    let r = rotate180_model(rotate180_model(m));
    assert forall|y: int| 0 <= y < m.height implies #[trigger] r.rows[y] =~= m.rows[y] by {}
    assert(r.rows =~= m.rows);
}

/// Cutting out the whole raster gives the raster back, and any cut reads the
/// pixels of the original shifted by the cut's origin.
pub proof fn lemma_crop_reads_original(m: RasterModel, x: nat, y: nat, w: nat, h: nat)
    requires
        m.wf(),
    ensures
        crop_model(m, 0, 0, m.width, m.height) == m,
        crop_model(m, x, y, w, h).wf(),
        forall|i: int, j: int|
            0 <= i < crop_model(m, x, y, w, h).width && 0 <= j < crop_model(m, x, y, w, h).height
                ==> #[trigger] crop_model(m, x, y, w, h).color_at(i, j) == m.color_at(x + i, y + j),
{
    let c = crop_model(m, 0, 0, m.width, m.height);
    assert forall|j: int| 0 <= j < m.height implies #[trigger] c.rows[j] =~= m.rows[j] by {}
    assert(c.rows =~= m.rows);
}

/// Drawing a segment paints both of its endpoints.
pub proof fn lemma_line_paints_endpoints(
    m: RasterModel,
    x1: int,
    y1: int,
    x2: int,
    y2: int,
    px: Seq<u8>,
)
    requires
        0 <= x1 < m.width,
        0 <= x2 < m.width,
        0 <= y1 < m.height,
        0 <= y2 < m.height,
    ensures
        painted_points(m, line_points(x1, y1, x2, y2), px).rows[y1][x1] == px,
        painted_points(m, line_points(x1, y1, x2, y2), px).rows[y2][x2] == px,
{
    lemma_line_endpoints(x1, y1, x2, y2);
    let pts = line_points(x1, y1, x2, y2);
    assert(pts.contains((x1, y1)));
    assert(pts[pts.len() - 1] == (x2, y2));
    assert(pts.contains((x2, y2)));
}

/// An ASCII preview has one line per raster row, each as many characters
/// as the raster is wide, all taken from the ramp, and ended by a newline.
pub proof fn lemma_ascii_shape(g: RasterModel)
    requires
        g.wf(),
    ensures
        ascii_text(g).len() == g.height * (g.width + 1),
        forall|y: int| 0 <= y < g.height ==> #[trigger] ascii_text(g)[y * (g.width + 1) + g.width] == '\n',
        forall|y: int, x: int|
            0 <= y < g.height && 0 <= x < g.width ==> ascii_ramp().contains(
                #[trigger] ascii_text(g)[y * (g.width + 1) + x],
            ),
{
    let rows = Seq::new(g.height, |y: int| ascii_row(g, y));
    assert forall|k: int| 0 <= k < rows.len() implies #[trigger] rows[k].len() == g.width + 1 by {}
    lemma_flatten_uniform(rows, g.width + 1);
    assert forall|y: int| 0 <= y < g.height implies #[trigger] ascii_text(g)[y * (g.width + 1)
        + g.width] == '\n' by {
        assert(rows[y][g.width as int] == '\n');
    }
    assert forall|y: int, x: int| 0 <= y < g.height && 0 <= x < g.width implies ascii_ramp().contains(
        #[trigger] ascii_text(g)[y * (g.width + 1) + x],
    ) by {
        let level = g.rows[y][x][0];
        let k = (level * 9 / 255) as int;
        assert(0 <= k < 10);
        assert(rows[y][x] == ascii_char(level));
        assert(ascii_ramp()[k] == ascii_char(level));
    }
}

/// A gradient whose ramp holds one color throughout paints the image just as
/// filling it with that color does.
pub proof fn lemma_flat_gradient_is_fill(m: ImageModel, horizontal: bool, ramp: Seq<Paint>, c: Paint)
    requires
        m.raster.wf(),
        m.width == m.raster.width,
        m.height == m.raster.height,
        ramp.len() == if horizontal {
            m.width
        } else {
            m.height
        },
        forall|i: int| 0 <= i < ramp.len() ==> #[trigger] ramp[i] == c,
    ensures
        (ImageModel {
            raster: gradient_model(m.raster, m.width, m.height, horizontal, ramp),
            ..m
        }) == (ImageModel {
            raster: solid_model(
                m.raster.mode,
                m.raster.width,
                m.raster.height,
                encode(m.raster.mode, c),
            ),
            ..m
        }),
{
    let g = gradient_model(m.raster, m.width, m.height, horizontal, ramp);
    let f = solid_model(m.raster.mode, m.raster.width, m.raster.height, encode(m.raster.mode, c));
    assert forall|y: int| 0 <= y < m.raster.height implies #[trigger] g.rows[y] =~= f.rows[y] by {
        assert forall|x: int| 0 <= x < m.raster.width implies #[trigger] g.rows[y][x] == f.rows[y][x] by {
            if horizontal {
                assert(ramp[x] == c);
            } else {
                assert(ramp[y] == c);
            }
        }
    }
    assert(g.rows =~= f.rows);
    assert(g == f);
}

/// The sRGB gray level of the color (r, g, b): weights 2126, 7152 and 722
/// per ten thousand, rounded down.
pub open spec fn srgb_gray(r: u8, g: u8, b: u8) -> u8 {
    ((2126 * r + 7152 * g + 722 * b) / 10000) as u8
}

/// Turning a raster gray gives each RGB or RGBA pixel the sRGB gray level of
/// its red, green and blue bytes (alpha plays no part) and keeps gray pixels;
/// an RGBA raster turns to the same gray as the RGB raster of its colors.
pub proof fn lemma_gray_conversion(m: RasterModel)
    requires
        m.wf(),
    ensures
        converted_model(m, ColorMode::Luma).wf(),
        converted_model(m, ColorMode::Luma).width == m.width,
        converted_model(m, ColorMode::Luma).height == m.height,
        forall|x: int, y: int|
            0 <= x < m.width && 0 <= y < m.height ==> #[trigger] converted_model(
                m,
                ColorMode::Luma,
            ).rows[y][x] == if m.mode == ColorMode::Luma {
                seq![m.rows[y][x][0]]
            } else {
                seq![srgb_gray(m.rows[y][x][0], m.rows[y][x][1], m.rows[y][x][2])]
            },
        m.mode == ColorMode::Rgba ==> converted_model(m, ColorMode::Luma) == converted_model(
            converted_model(m, ColorMode::Rgb),
            ColorMode::Luma,
        ),
{
    if m.mode == ColorMode::Rgba {
        let a = converted_model(m, ColorMode::Luma);
        let b = converted_model(converted_model(m, ColorMode::Rgb), ColorMode::Luma);
        assert forall|y: int| 0 <= y < m.height implies #[trigger] a.rows[y] =~= b.rows[y] by {}
        assert(a.rows =~= b.rows);
    }
}

/// Writing a raster as RGBA keeps every color, alpha included: RGBA pixels
/// are copied unchanged, RGB pixels become opaque, gray pixels repeat their
/// level and become opaque.
pub proof fn lemma_rgba_conversion_keeps_colors(m: RasterModel)
    requires
        m.wf(),
    ensures
        converted_model(m, ColorMode::Rgba).wf(),
        forall|x: int, y: int|
            0 <= x < m.width && 0 <= y < m.height ==> #[trigger] converted_model(
                m,
                ColorMode::Rgba,
            ).rows[y][x] == match m.mode {
                ColorMode::Rgba => m.rows[y][x],
                ColorMode::Rgb => m.rows[y][x].push(255u8),
                ColorMode::Luma => seq![m.rows[y][x][0], m.rows[y][x][0], m.rows[y][x][0], 255u8],
            },
        m.mode == ColorMode::Rgba ==> converted_model(m, ColorMode::Rgba) == m,
{
    let c = converted_model(m, ColorMode::Rgba);
    assert forall|x: int, y: int| 0 <= x < m.width && 0 <= y < m.height implies #[trigger] c.rows[y][x]
        == match m.mode {
        ColorMode::Rgba => m.rows[y][x],
        ColorMode::Rgb => m.rows[y][x].push(255u8),
        ColorMode::Luma => seq![m.rows[y][x][0], m.rows[y][x][0], m.rows[y][x][0], 255u8],
    } by {
        assert(m.rows[y][x].len() == m.mode.channels());
        match m.mode {
            ColorMode::Rgba => {
                assert(c.rows[y][x] =~= m.rows[y][x]);
            },
            ColorMode::Rgb => {
                assert(c.rows[y][x] =~= m.rows[y][x].push(255u8));
            },
            ColorMode::Luma => {},
        }
    }
    if m.mode == ColorMode::Rgba {
        assert forall|y: int| 0 <= y < m.height implies #[trigger] c.rows[y] =~= m.rows[y] by {
            assert forall|x: int| 0 <= x < m.width implies #[trigger] c.rows[y][x] == m.rows[y][x] by {
                assert(m.rows[y][x].len() == 4);
                assert(c.rows[y][x] =~= m.rows[y][x]);
            }
        }
        assert(c.rows =~= m.rows);
    }
}

/// A resize keeps the aspect ratio: the new raster fits the request, meets
/// it on one side, and its sides stand in the source's proportion to within
/// half a pixel (a side may also be the 1 pixel every raster keeps at least).
pub proof fn lemma_resize_keeps_aspect(sw: nat, sh: nat, w: nat, h: nat, rw: nat, rh: nat)
    requires
        sw > 0,
        sh > 0,
        crate::resample::fitted_size(sw, sh, w, h, rw, rh),
    ensures
        1 <= rw <= w,
        1 <= rh <= h,
        rw == w || rh == h,
        ({
            let d = if rw * sh >= rh * sw {
                rw * sh - rh * sw
            } else {
                rh * sw - rw * sh
            };
            let big = if sw >= sh {
                sw
            } else {
                sh
            };
            524288 * d <= 262145 * big || rw == 1 || rh == 1
        }),
{
    assert(w * sh <= h * sw || h * sw <= w * sh);
}

/// Where each pixel goes when the raster turns: a quarter turn clockwise
/// sends column `x`, row `y` to column `H - 1 - y`, row `x` (the top-left
/// corner to the top-right); a half turn to column `W - 1 - x`, row `H - 1 - y`;
/// three quarters to column `y`, row `W - 1 - x`. The turned raster has the
/// sides swapped for the quarter turns.
pub proof fn lemma_rotations_move_pixels(m: RasterModel)
    requires
        m.wf(),
    ensures
        rotate90_model(m).width == m.height && rotate90_model(m).height == m.width,
        rotate180_model(m).width == m.width && rotate180_model(m).height == m.height,
        rotate270_model(m).width == m.height && rotate270_model(m).height == m.width,
        forall|x: int, y: int|
            0 <= x < m.width && 0 <= y < m.height ==> {
                &&& rotate90_model(m).rows[x][m.height - 1 - y] == #[trigger] m.rows[y][x]
                &&& rotate180_model(m).rows[m.height - 1 - y][m.width - 1 - x] == m.rows[y][x]
                &&& rotate270_model(m).rows[m.width - 1 - x][y] == m.rows[y][x]
            },
{
}

/// The ASCII ramp runs from the darkest character for level 0 (a space) to
/// the brightest for level 255 (`@`), and a brighter level never gets an
/// earlier character of the ramp.
pub proof fn lemma_ascii_ramp_order(a: u8, b: u8)
    ensures
        ascii_char(0) == ' ',
        ascii_char(255) == '@',
        a <= b ==> exists|i: int, j: int|
            0 <= i <= j < 10 && ascii_char(a) == #[trigger] ascii_ramp()[i] && ascii_char(b)
                == #[trigger] ascii_ramp()[j],
{
    if a <= b {
        let i = (a * 9 / 255) as int;
        let j = (b * 9 / 255) as int;
        assert(a * 9 <= b * 9);
        assert(i <= j) by (nonlinear_arith)
            requires
                i == (a * 9) / 255,
                j == (b * 9) / 255,
                a * 9 <= b * 9,
        ;
        assert(0 <= i <= j < 10);
        assert(ascii_char(a) == ascii_ramp()[i]);
        assert(ascii_char(b) == ascii_ramp()[j]);
    }
}

/// A cut-out is the largest part of the requested rectangle inside the
/// raster: it never reaches past the request or the raster's edge, and on
/// each side it is either as long as asked or runs up to the edge.
pub proof fn lemma_crop_is_largest_fit(m: RasterModel, x: nat, y: nat, w: nat, h: nat)
    requires
        x <= m.width,
        y <= m.height,
    ensures
        crop_model(m, x, y, w, h).width <= w,
        crop_model(m, x, y, w, h).height <= h,
        x + crop_model(m, x, y, w, h).width <= m.width,
        y + crop_model(m, x, y, w, h).height <= m.height,
        crop_model(m, x, y, w, h).width == w || x + crop_model(m, x, y, w, h).width == m.width,
        crop_model(m, x, y, w, h).height == h || y + crop_model(m, x, y, w, h).height == m.height,
{
}

/// A region load delivers the largest part of the request inside the
/// image: never past the request or the image's edge, and on each side
/// either as long as asked or up to the edge.
pub proof fn lemma_region_is_largest_fit(iw: nat, ih: nat, x: nat, y: nat, w: nat, h: nat)
    requires
        x < iw,
        y < ih,
    ensures
        crate::tiff_file::region_extent(iw, ih, x, y, w, h).0 <= w,
        crate::tiff_file::region_extent(iw, ih, x, y, w, h).1 <= h,
        x + crate::tiff_file::region_extent(iw, ih, x, y, w, h).0 <= iw,
        y + crate::tiff_file::region_extent(iw, ih, x, y, w, h).1 <= ih,
        crate::tiff_file::region_extent(iw, ih, x, y, w, h).0 == w || x
            + crate::tiff_file::region_extent(iw, ih, x, y, w, h).0 == iw,
        crate::tiff_file::region_extent(iw, ih, x, y, w, h).1 == h || y
            + crate::tiff_file::region_extent(iw, ih, x, y, w, h).1 == ih,
{
}

/// A horizontal gradient paints each column in one color, that of the
/// ramp entry for the column; a vertical one paints each row in the color of
/// its ramp entry.
pub proof fn lemma_gradient_columns_and_rows(m: RasterModel, horizontal: bool, ramp: Seq<Paint>)
    requires
        m.wf(),
        ramp.len() == if horizontal {
            m.width
        } else {
            m.height
        },
    ensures
        forall|x: int, y: int, z: int|
            0 <= x < m.width && 0 <= y < m.height && 0 <= z < m.height && horizontal ==> #[trigger] gradient_model(
                m,
                m.width,
                m.height,
                horizontal,
                ramp,
            ).rows[y][x] == #[trigger] gradient_model(m, m.width, m.height, horizontal, ramp).rows[z][x],
        forall|x: int, y: int, z: int|
            0 <= x < m.width && 0 <= z < m.width && 0 <= y < m.height && !horizontal ==> #[trigger] gradient_model(
                m,
                m.width,
                m.height,
                horizontal,
                ramp,
            ).rows[y][x] == #[trigger] gradient_model(m, m.width, m.height, horizontal, ramp).rows[y][z],
        forall|x: int, y: int|
            0 <= x < m.width && 0 <= y < m.height ==> #[trigger] gradient_model(
                m,
                m.width,
                m.height,
                horizontal,
                ramp,
            ).rows[y][x] == encode(
                m.mode,
                if horizontal {
                    ramp[x]
                } else {
                    ramp[y]
                },
            ),
{
}

} // verus!
