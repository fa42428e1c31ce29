use vstd::prelude::*;
use crate::color::{ColorMode, Paint, encode, decode, luma_of};

verus! {

/// Abstract picture of a raster: its layout, its size and, row by row, the
/// bytes of every pixel (`rows[y][x]`).
#[verifier::ext_equal]
pub struct RasterModel {
    pub mode: ColorMode,
    pub width: nat,
    pub height: nat,
    pub rows: Seq<Seq<Seq<u8>>>,
}

/// The bytes of a run of rows, row after row and pixel after pixel.
pub open spec fn flat_rows(rows: Seq<Seq<Seq<u8>>>) -> Seq<u8> {
    rows.map_values(|row: Seq<Seq<u8>>| row.flatten()).flatten()
}

impl RasterModel {
    /// `height` rows of `width` pixels, each pixel as many bytes as the layout asks.
    pub open spec fn wf(self) -> bool {
        &&& self.rows.len() == self.height
        &&& forall|y: int| 0 <= y < self.height ==> #[trigger] self.rows[y].len() == self.width
        &&& forall|y: int, x: int|
            0 <= y < self.height && 0 <= x < self.width ==> #[trigger] self.rows[y][x].len()
                == self.mode.channels()
    }

    /// RGBA color of the pixel at column `x`, row `y`.
    pub open spec fn color_at(self, x: int, y: int) -> (u8, u8, u8, u8) {
        decode(self.mode, self.rows[y][x])
    }

    /// Row-major bytes of the whole raster.
    pub open spec fn bytes(self) -> Seq<u8> {
        flat_rows(self.rows)
    }

    /// Same raster with the pixel at (`x`, `y`) replaced by `px`.
    pub open spec fn with_pixel(self, x: int, y: int, px: Seq<u8>) -> RasterModel {
        RasterModel { rows: self.rows.update(y, self.rows[y].update(x, px)), ..self }
    }
}

/// Offset of the first byte of pixel (`x`, `y`) in a row-major buffer.
pub open spec fn pixel_offset(width: nat, channels: nat, x: int, y: int) -> int {
    (y * width + x) * channels
}

/// The raster that a row-major byte buffer of the given layout and size holds.
pub open spec fn model_of(mode: ColorMode, width: nat, height: nat, bytes: Seq<u8>) -> RasterModel {
    RasterModel {
        mode,
        width,
        height,
        rows: Seq::new(
            height,
            |y: int|
                Seq::new(
                    width,
                    |x: int|
                        bytes.subrange(
                            pixel_offset(width, mode.channels(), x, y),
                            pixel_offset(width, mode.channels(), x, y) + mode.channels(),
                        ),
                ),
        ),
    }
}

/// A raster where every pixel holds the same bytes.
pub open spec fn solid_model(mode: ColorMode, width: nat, height: nat, px: Seq<u8>) -> RasterModel {
    RasterModel {
        mode,
        width,
        height,
        rows: Seq::new(height, |y: int| Seq::new(width, |x: int| px)),
    }
}

/// The raster with every pixel of the rectangle [x0, x0 + w) x [y0, y0 + h) set to `px`.
pub open spec fn painted_rect(m: RasterModel, x0: int, y0: int, w: int, h: int, px: Seq<u8>) -> RasterModel {
    RasterModel {
        rows: Seq::new(
            m.height,
            |y: int|
                Seq::new(
                    m.width,
                    |x: int|
                        if x0 <= x < x0 + w && y0 <= y < y0 + h {
                            px
                        } else {
                            m.rows[y][x]
                        },
                ),
        ),
        ..m
    }
}

pub open spec fn min_nat(a: nat, b: nat) -> nat {
    if a <= b {
        a
    } else {
        b
    }
}

/// The part of the raster inside the rectangle at (`x`, `y`) of size `w` x `h`,
/// the rectangle first cut down to what lies inside the raster.
pub open spec fn crop_model(m: RasterModel, x: nat, y: nat, w: nat, h: nat) -> RasterModel {
    let cx = min_nat(x, m.width);
    let cy = min_nat(y, m.height);
    let cw = min_nat(w, (m.width - cx) as nat);
    let chh = min_nat(h, (m.height - cy) as nat);
    RasterModel {
        mode: m.mode,
        width: cw,
        height: chh,
        rows: Seq::new(chh, |j: int| Seq::new(cw, |i: int| m.rows[cy + j][cx + i])),
    }
}

/// The raster turned a quarter turn clockwise.
pub open spec fn rotate90_model(m: RasterModel) -> RasterModel {
    RasterModel {
        mode: m.mode,
        width: m.height,
        height: m.width,
        rows: Seq::new(m.width, |y: int| Seq::new(m.height, |x: int| m.rows[m.height - 1 - x][y])),
    }
}

/// The raster turned half a turn.
pub open spec fn rotate180_model(m: RasterModel) -> RasterModel {
    RasterModel {
        mode: m.mode,
        width: m.width,
        height: m.height,
        rows: Seq::new(
            m.height,
            |y: int| Seq::new(m.width, |x: int| m.rows[m.height - 1 - y][m.width - 1 - x]),
        ),
    }
}

/// The raster turned three quarter turns clockwise.
pub open spec fn rotate270_model(m: RasterModel) -> RasterModel {
    RasterModel {
        mode: m.mode,
        width: m.height,
        height: m.width,
        rows: Seq::new(m.width, |y: int| Seq::new(m.height, |x: int| m.rows[x][m.width - 1 - y])),
    }
}

/// A pixel of layout `from` written in layout `to`: alpha becomes opaque when
/// added, gray spreads over the color channels, color turns to gray by `luma_of`.
pub open spec fn convert_pixel(from: ColorMode, to: ColorMode, px: Seq<u8>) -> Seq<u8> {
    let c = decode(from, px);
    match to {
        ColorMode::Rgb => seq![c.0, c.1, c.2],
        ColorMode::Rgba => seq![c.0, c.1, c.2, c.3],
        ColorMode::Luma => seq![luma_of(from, px)],
    }
}

/// The raster written in another layout.
pub open spec fn converted_model(m: RasterModel, to: ColorMode) -> RasterModel {
    RasterModel {
        mode: to,
        width: m.width,
        height: m.height,
        rows: Seq::new(
            m.height,
            |y: int| Seq::new(m.width, |x: int| convert_pixel(m.mode, to, m.rows[y][x])),
        ),
    }
}

pub proof fn lemma_offset_bounds(width: nat, height: nat, ch: nat, x: int, y: int)
    requires
        0 <= x < width,
        0 <= y < height,
    ensures
        0 <= pixel_offset(width, ch, x, y),
        pixel_offset(width, ch, x, y) + ch <= width * height * ch,
{
    assert(0 <= y * width + x) by (nonlinear_arith)
        requires
            0 <= x,
            0 <= y,
    ;
    assert(y * width + x + 1 <= width * height) by (nonlinear_arith)
        requires
            0 <= x < width,
            0 <= y < height,
    ;
    assert(0 <= (y * width + x) * ch) by (nonlinear_arith)
        requires
            0 <= y * width + x,
    ;
    assert((y * width + x) * ch + ch <= width * height * ch) by (nonlinear_arith)
        requires
            y * width + x + 1 <= width * height,
    ;
}

/// Two distinct pixels occupy disjoint byte ranges.
pub proof fn lemma_offset_disjoint(width: nat, ch: nat, x1: int, y1: int, x2: int, y2: int)
    requires
        0 <= x1 < width,
        0 <= x2 < width,
        0 <= y1,
        0 <= y2,
        x1 != x2 || y1 != y2,
    ensures
        pixel_offset(width, ch, x1, y1) + ch <= pixel_offset(width, ch, x2, y2) || pixel_offset(
            width,
            ch,
            x2,
            y2,
        ) + ch <= pixel_offset(width, ch, x1, y1),
{
    let p1 = y1 * width + x1;
    let p2 = y2 * width + x2;
    assert(p1 != p2) by {
        if y1 < y2 {
            assert(y1 * width + width <= y2 * width) by (nonlinear_arith)
                requires
                    y1 < y2,
                    width >= 0,
            ;
        } else if y2 < y1 {
            assert(y2 * width + width <= y1 * width) by (nonlinear_arith)
                requires
                    y2 < y1,
                    width >= 0,
            ;
        }
    }
    if p1 < p2 {
        assert(p1 * ch + ch <= p2 * ch) by (nonlinear_arith)
            requires
                p1 < p2,
        ;
    } else {
        assert(p2 * ch + ch <= p1 * ch) by (nonlinear_arith)
            requires
                p2 < p1,
        ;
    }
}

/// Flattening sequences of equal length `l` puts element `j` of part `i` at `i * l + j`.
pub proof fn lemma_flatten_uniform<A>(ss: Seq<Seq<A>>, l: nat)
    requires
        forall|k: int| 0 <= k < ss.len() ==> #[trigger] ss[k].len() == l,
    ensures
        ss.flatten().len() == ss.len() * l,
        forall|i: int, j: int|
            0 <= i < ss.len() && 0 <= j < l ==> ss.flatten()[i * l + j] == #[trigger] ss[i][j],
    decreases ss.len(),
{
    if ss.len() > 0 {
        let rest = ss.drop_first();
        lemma_flatten_uniform(rest, l);
        assert(ss.flatten() == ss.first() + rest.flatten());
        assert(ss.len() * l == l + rest.len() * l) by (nonlinear_arith)
            requires
                ss.len() == rest.len() + 1,
        ;
        assert forall|i: int, j: int| 0 <= i < ss.len() && 0 <= j < l implies ss.flatten()[i * l
            + j] == #[trigger] ss[i][j] by {
            if i > 0 {
                assert(i * l + j == l + ((i - 1) * l + j)) by (nonlinear_arith);
                assert(0 <= (i - 1) * l + j < rest.len() * l) by (nonlinear_arith)
                    requires
                        1 <= i < ss.len(),
                        0 <= j < l,
                        ss.len() == rest.len() + 1,
                ;
                assert(rest[i - 1] == ss[i]);
                assert(rest.flatten()[(i - 1) * l + j] == rest[i - 1][j]);
            } else {
                assert(i * l + j == j) by (nonlinear_arith)
                    requires
                        i == 0,
                ;
            }
        }
    } else {
        assert(ss.len() * l == 0) by (nonlinear_arith)
            requires
                ss.len() == 0,
        ;
    }
}

pub proof fn lemma_flat_rows_push(rows: Seq<Seq<Seq<u8>>>, row: Seq<Seq<u8>>)
    ensures
        flat_rows(rows.push(row)) == flat_rows(rows) + row.flatten(),
{
    let f = |r: Seq<Seq<u8>>| r.flatten();
    assert(rows.push(row).map_values(f) =~= rows.map_values(f).push(row.flatten()));
    rows.map_values(f).lemma_flatten_push(row.flatten());
}

/// The row-major bytes of a well-formed raster describe that raster again.
pub proof fn lemma_model_of_bytes(m: RasterModel)
    requires
        m.wf(),
    ensures
        m.bytes().len() == m.width * m.height * m.mode.channels(),
        model_of(m.mode, m.width, m.height, m.bytes()) == m,
{
    let ch = m.mode.channels();
    let w = m.width;
    let f = |r: Seq<Seq<u8>>| r.flatten();
    let rf = m.rows.map_values(f);
    assert forall|y: int| 0 <= y < m.height implies #[trigger] rf[y].len() == w * ch by {
        assert(forall|k: int| 0 <= k < m.rows[y].len() ==> #[trigger] m.rows[y][k].len() == ch);
        lemma_flatten_uniform(m.rows[y], ch);
    }
    lemma_flatten_uniform(rf, w * ch);
    assert(m.height * (w * ch) == w * m.height * ch) by (nonlinear_arith);
    let b = m.bytes();
    let mo = model_of(m.mode, m.width, m.height, b);
    assert forall|y: int| 0 <= y < m.height implies #[trigger] mo.rows[y] =~= m.rows[y] by {
        assert forall|x: int| 0 <= x < w implies #[trigger] mo.rows[y][x] =~= m.rows[y][x] by {
            let off = pixel_offset(w, ch, x, y);
            assert((y * w + x) * ch == y * (w * ch) + x * ch) by (nonlinear_arith);
            lemma_offset_bounds(w, m.height, ch, x, y);
            assert forall|c: int| 0 <= c < ch implies #[trigger] mo.rows[y][x][c] == m.rows[y][x][c] by {
                assert(0 <= x * ch + c < w * ch) by (nonlinear_arith)
                    requires
                        0 <= x < w,
                        0 <= c < ch,
                ;
                assert(off + c == y * (w * ch) + (x * ch + c));
                assert(forall|k: int| 0 <= k < m.rows[y].len() ==> #[trigger] m.rows[y][k].len() == ch);
                lemma_flatten_uniform(m.rows[y], ch);
                assert(m.rows[y].flatten()[x * ch + c] == m.rows[y][x][c]);
                assert(rf[y] == m.rows[y].flatten());
                assert(rf.flatten()[y * (w * ch) + (x * ch + c)] == rf[y][x * ch + c]);
            }
        }
    }
    assert(mo.rows =~= m.rows);
}

/// Different byte buffers of the right length describe different rasters.
pub proof fn lemma_model_of_injective(mode: ColorMode, w: nat, h: nat, b1: Seq<u8>, b2: Seq<u8>)
    requires
        b1.len() == w * h * mode.channels(),
        b2.len() == w * h * mode.channels(),
        model_of(mode, w, h, b1) == model_of(mode, w, h, b2),
    ensures
        b1 == b2,
{
    let ch = mode.channels();
    assert forall|k: int| 0 <= k < b1.len() implies b1[k] == b2[k] by {
        let p = k / ch as int;
        let c = k % ch as int;
        vstd::arithmetic::div_mod::lemma_fundamental_div_mod(k, ch as int);
        assert(0 <= c < ch);
        assert(0 <= p);
        assert(p < w * h) by (nonlinear_arith)
            requires
                k == ch * p + c,
                0 <= c,
                k < w * h * ch,
                ch > 0,
        ;
        assert(w > 0) by (nonlinear_arith)
            requires
                p < w * h,
                p >= 0,
        ;
        let y = p / w as int;
        let x = p % w as int;
        vstd::arithmetic::div_mod::lemma_fundamental_div_mod(p, w as int);
        assert(y < h) by (nonlinear_arith)
            requires
                p == w * y + x,
                0 <= x,
                p < w * h,
                w > 0,
        ;
        assert(0 <= y) by (nonlinear_arith)
            requires
                p == w * y + x,
                x < w,
                p >= 0,
                w > 0,
        ;
        assert(pixel_offset(w, ch, x, y) + c == k) by (nonlinear_arith)
            requires
                p == w * y + x,
                k == ch * p + c,
        ;
        lemma_offset_bounds(w, h, ch, x, y);
        let m1 = model_of(mode, w, h, b1);
        let m2 = model_of(mode, w, h, b2);
        assert(m1.rows[y][x][c] == b1[k]);
        assert(m2.rows[y][x][c] == b2[k]);
    }
    assert(b1 =~= b2);
}

/// The row-major bytes of the raster a buffer holds are that buffer.
pub proof fn lemma_bytes_of_model(mode: ColorMode, w: nat, h: nat, b: Seq<u8>)
    requires
        b.len() == w * h * mode.channels(),
    ensures
        model_of(mode, w, h, b).bytes() == b,
{
    let m = model_of(mode, w, h, b);
    assert forall|y: int, x: int| 0 <= y < h && 0 <= x < w implies #[trigger] m.rows[y][x].len()
        == mode.channels() by {
        lemma_offset_bounds(w, h, mode.channels(), x, y);
    }
    lemma_model_of_bytes(m);
    lemma_model_of_injective(mode, w, h, m.bytes(), b);
}

/// Overwriting the bytes of one pixel changes that pixel and no other.
pub proof fn lemma_write_pixel(
    mode: ColorMode,
    w: nat,
    h: nat,
    old_b: Seq<u8>,
    new_b: Seq<u8>,
    x: int,
    y: int,
    px: Seq<u8>,
)
    requires
        old_b.len() == w * h * mode.channels(),
        new_b.len() == old_b.len(),
        px.len() == mode.channels(),
        0 <= x < w,
        0 <= y < h,
        forall|k: int|
            0 <= k < old_b.len() ==> #[trigger] new_b[k] == if pixel_offset(w, mode.channels(), x, y)
                <= k < pixel_offset(w, mode.channels(), x, y) + mode.channels() {
                px[k - pixel_offset(w, mode.channels(), x, y)]
            } else {
                old_b[k]
            },
    ensures
        model_of(mode, w, h, new_b) == model_of(mode, w, h, old_b).with_pixel(x, y, px),
{
    let ch = mode.channels();
    let mn = model_of(mode, w, h, new_b);
    let mo = model_of(mode, w, h, old_b).with_pixel(x, y, px);
    let off = pixel_offset(w, ch, x, y);
    lemma_offset_bounds(w, h, ch, x, y);
    assert forall|yy: int| 0 <= yy < h implies #[trigger] mn.rows[yy] =~= mo.rows[yy] by {
        assert forall|xx: int| 0 <= xx < w implies #[trigger] mn.rows[yy][xx] =~= mo.rows[yy][xx] by {
            let o2 = pixel_offset(w, ch, xx, yy);
            lemma_offset_bounds(w, h, ch, xx, yy);
            if xx == x && yy == y {
                assert forall|c: int| 0 <= c < ch implies #[trigger] mn.rows[yy][xx][c] == px[c] by {
                    assert(new_b[off + c] == px[c]);
                }
            } else {
                lemma_offset_disjoint(w, ch, x, y, xx, yy);
                assert forall|c: int| 0 <= c < ch implies #[trigger] mn.rows[yy][xx][c]
                    == mo.rows[yy][xx][c] by {
                    assert(new_b[o2 + c] == old_b[o2 + c]);
                }
            }
        }
    }
    assert(mn.rows =~= mo.rows);
}

/// A raster of a layout, a size and a row-major byte buffer.
pub struct Raster {
    mode: ColorMode,
    width: u32,
    height: u32,
    data: Vec<u8>,
}

impl View for Raster {
    type V = RasterModel;

    closed spec fn view(&self) -> RasterModel {
        model_of(self.mode, self.width as nat, self.height as nat, self.data@)
    }
}

impl Raster {
    /// The buffer holds exactly `width * height` pixels.
    pub closed spec fn wf(&self) -> bool {
        self.data@.len() == self.width * self.height * self.mode.channels()
    }

    /// What every well-formed raster satisfies.
    pub proof fn lemma_wf(&self)
        requires
            self.wf(),
        ensures
            self@.wf(),
            self@.width <= u32::MAX,
            self@.height <= u32::MAX,
            self@.width * self@.height * self@.mode.channels() <= usize::MAX,
    {
        broadcast use vstd::std_specs::vec::axiom_spec_len;
        let ch = self.mode.channels();
        assert(self.data.len() == self.data@.len());
        assert forall|y: int, x: int|
            0 <= y < self@.height && 0 <= x < self@.width implies #[trigger] self@.rows[y][x].len()
            == ch by {
            lemma_offset_bounds(self.width as nat, self.height as nat, ch, x, y);
        }
    }

    /// Wraps a row-major buffer; `None` unless it holds exactly `width * height` pixels.
    pub fn from_raw(mode: ColorMode, width: u32, height: u32, data: Vec<u8>) -> (r: Option<Raster>)
        ensures
            r is Some <==> data@.len() == width * height * mode.channels(),
            r matches Some(r) ==> r.wf() && r@ == model_of(mode, width as nat, height as nat, data@),
    {
        broadcast use vstd::std_specs::vec::axiom_spec_len;
        assert(data.len() == data@.len());
        let ch = mode.channel_count();
        let n = (width as usize).checked_mul(height as usize);
        match n {
            Some(n) => {
                match n.checked_mul(ch) {
                    Some(len) => {
                        if len == data.len() {
                            Some(Raster { mode, width, height, data })
                        } else {
                            None
                        }
                    },
                    None => {
                        proof {
                            assert(width * height * mode.channels() > usize::MAX);
                        }
                        None
                    },
                }
            },
            None => {
                proof {
                    assert(width * height * mode.channels() >= width * height) by (nonlinear_arith)
                        requires
                            mode.channels() >= 1,
                    ;
                }
                None
            },
        }
    }

    pub fn mode(&self) -> (m: ColorMode)
        ensures
            m == self@.mode,
    {
        self.mode
    }

    pub fn width(&self) -> (w: u32)
        ensures
            w == self@.width,
    {
        self.width
    }

    pub fn height(&self) -> (h: u32)
        ensures
            h == self@.height,
    {
        self.height
    }

    /// The row-major bytes of the raster.
    pub fn as_bytes(&self) -> (b: &Vec<u8>)
        requires
            self.wf(),
        ensures
            b@ == self@.bytes(),
            b@.len() == self@.width * self@.height * self@.mode.channels(),
    {
        proof {
            lemma_bytes_of_model(self.mode, self.width as nat, self.height as nat, self.data@);
        }
        &self.data
    }

    /// Gives up the raster for its row-major bytes.
    pub fn into_raw(self) -> (b: Vec<u8>)
        requires
            self.wf(),
        ensures
            b@ == self@.bytes(),
            b@.len() == self@.width * self@.height * self@.mode.channels(),
    {
        proof {
            lemma_bytes_of_model(self.mode, self.width as nat, self.height as nat, self.data@);
        }
        self.data
    }

    /// An independent copy of the raster.
    pub fn copy(&self) -> (r: Raster)
        requires
            self.wf(),
        ensures
            r.wf(),
            r@ == self@,
    {
        let data = self.data.clone();
        proof {
            assert(data@ =~= self.data@);
        }
        Raster { mode: self.mode, width: self.width, height: self.height, data }
    }

    /// RGBA color of pixel (`x`, `y`).
    pub fn color_at(&self, x: u32, y: u32) -> (c: (u8, u8, u8, u8))
        requires
            self.wf(),
            x < self@.width,
            y < self@.height,
        ensures
            c == self@.color_at(x as int, y as int),
    {
        let ch = self.mode.channel_count();
        proof {
            self.lemma_wf();
            lemma_offset_bounds(self.width as nat, self.height as nat, ch as nat, x as int, y as int);
            assert(y * self.width <= y * self.width + x <= (y * self.width + x) * ch) by (
            nonlinear_arith)
                requires
                    ch >= 1,
                    x >= 0,
                    y >= 0,
                    self.width >= 0,
            ;
        }
        let base = ((y as usize) * (self.width as usize) + (x as usize)) * ch;
        match self.mode {
            ColorMode::Rgb => (self.data[base], self.data[base + 1], self.data[base + 2], 255u8),
            ColorMode::Rgba => (
                self.data[base],
                self.data[base + 1],
                self.data[base + 2],
                self.data[base + 3],
            ),
            ColorMode::Luma => (self.data[base], self.data[base], self.data[base], 255u8),
        }
    }

    /// Paints pixel (`x`, `y`).
    pub fn put(&mut self, x: u32, y: u32, paint: Paint)
        requires
            old(self).wf(),
            x < old(self)@.width,
            y < old(self)@.height,
        ensures
            final(self).wf(),
            final(self)@ == old(self)@.with_pixel(x as int, y as int, encode(old(self)@.mode, paint)),
    {
        let ch = self.mode.channel_count();
        proof {
            self.lemma_wf();
            lemma_offset_bounds(self.width as nat, self.height as nat, ch as nat, x as int, y as int);
            assert(y * self.width <= y * self.width + x <= (y * self.width + x) * ch) by (
            nonlinear_arith)
                requires
                    ch >= 1,
                    x >= 0,
                    y >= 0,
                    self.width >= 0,
            ;
        }
        let base = ((y as usize) * (self.width as usize) + (x as usize)) * ch;
        let ghost old_b = self.data@;
        match self.mode {
            ColorMode::Rgb => {
                self.data.set(base, paint.r);
                self.data.set(base + 1, paint.g);
                self.data.set(base + 2, paint.b);
            },
            ColorMode::Rgba => {
                self.data.set(base, paint.r);
                self.data.set(base + 1, paint.g);
                self.data.set(base + 2, paint.b);
                self.data.set(base + 3, paint.a);
            },
            ColorMode::Luma => {
                self.data.set(base, paint.gray);
            },
        }
        proof {
            let px = encode(self.mode, paint);
            assert forall|k: int| 0 <= k < old_b.len() implies #[trigger] self.data@[k] == if base
                <= k < base + ch {
                px[k - base]
            } else {
                old_b[k]
            } by {}
            lemma_write_pixel(
                self.mode,
                self.width as nat,
                self.height as nat,
                old_b,
                self.data@,
                x as int,
                y as int,
                px,
            );
        }
    }

    /// Paints every pixel of the rectangle [x0, x0 + w) x [y0, y0 + h).
    pub fn paint_rect(&mut self, x0: u32, y0: u32, w: u32, h: u32, paint: Paint)
        requires
            old(self).wf(),
            x0 + w <= old(self)@.width,
            y0 + h <= old(self)@.height,
        ensures
            final(self).wf(),
            final(self)@ == painted_rect(
                old(self)@,
                x0 as int,
                y0 as int,
                w as int,
                h as int,
                encode(old(self)@.mode, paint),
            ),
    {
        let ghost start = self@;
        let ghost px = encode(self@.mode, paint);
        proof {
            self.lemma_wf();
        }
        let y_end = y0 + h;
        let x_end = x0 + w;
        let mut yy = y0;
        while yy < y_end
            invariant
                self.wf(),
                start.wf(),
                self@.mode == start.mode,
                self@.width == start.width,
                self@.height == start.height,
                px == encode(start.mode, paint),
                y_end == y0 + h,
                x_end == x0 + w,
                x_end <= start.width,
                y_end <= start.height,
                y0 <= yy <= y_end,
                forall|j: int, i: int|
                    0 <= j < start.height && 0 <= i < start.width ==> #[trigger] self@.rows[j][i]
                        == if x0 <= i < x_end && y0 <= j < yy {
                        px
                    } else {
                        start.rows[j][i]
                    },
            decreases y_end - yy,
        {
            let mut xx = x0;
            while xx < x_end
                invariant
                    self.wf(),
                    start.wf(),
                    self@.mode == start.mode,
                    self@.width == start.width,
                    self@.height == start.height,
                    px == encode(start.mode, paint),
                    y_end == y0 + h,
                    x_end == x0 + w,
                    x_end <= start.width,
                    y_end <= start.height,
                    y0 <= yy < y_end,
                    x0 <= xx <= x_end,
                    forall|j: int, i: int|
                        0 <= j < start.height && 0 <= i < start.width ==> #[trigger] self@.rows[j][i]
                            == if (x0 <= i < x_end && y0 <= j < yy) || (j == yy && x0 <= i < xx) {
                            px
                        } else {
                            start.rows[j][i]
                        },
                decreases x_end - xx,
            {
                self.put(xx, yy, paint);
                xx += 1;
            }
            yy += 1;
        }
        proof {
            let target = painted_rect(start, x0 as int, y0 as int, w as int, h as int, px);
            assert forall|j: int| 0 <= j < start.height implies #[trigger] self@.rows[j]
                =~= target.rows[j] by {}
            assert(self@.rows =~= target.rows);
        }
    }

    /// Paints every pixel.
    pub fn fill(&mut self, paint: Paint)
        requires
            old(self).wf(),
        ensures
            final(self).wf(),
            final(self)@ == solid_model(
                old(self)@.mode,
                old(self)@.width,
                old(self)@.height,
                encode(old(self)@.mode, paint),
            ),
    {
        let ghost start = self@;
        let w = self.width;
        let h = self.height;
        self.paint_rect(0, 0, w, h, paint);
        proof {
            let target = solid_model(start.mode, start.width, start.height, encode(start.mode, paint));
            assert forall|j: int| 0 <= j < start.height implies #[trigger] self@.rows[j]
                =~= target.rows[j] by {}
            assert(self@.rows =~= target.rows);
        }
    }

    /// A `width` x `height` raster with every pixel painted.
    pub fn filled(mode: ColorMode, width: u32, height: u32, paint: Paint) -> (r: Raster)
        requires
            width * height * mode.channels() <= usize::MAX,
        ensures
            r.wf(),
            r@ == solid_model(mode, width as nat, height as nat, encode(mode, paint)),
    {
        let ch = mode.channel_count();
        proof {
            assert(width * height <= width * height * ch) by (nonlinear_arith)
                requires
                    ch >= 1,
            ;
        }
        let n = (width as usize) * (height as usize) * ch;
        let data: Vec<u8> = vec![0u8; n];
        let mut r = Raster { mode, width, height, data };
        r.fill(paint);
        r
    }

    /// Builds an `out_w` x `out_h` raster whose pixel (x, y) is this raster's
    /// pixel at `f(x, y)`.
    fn remap<F: Fn(u32, u32) -> (u32, u32)>(
        &self,
        out_w: u32,
        out_h: u32,
        f: F,
        Ghost(target): Ghost<RasterModel>,
    ) -> (r: Raster)
        requires
            self.wf(),
            target.wf(),
            target.mode == self@.mode,
            target.width == out_w as nat,
            target.height == out_h as nat,
            forall|x: u32, y: u32| x < out_w && y < out_h ==> #[trigger] f.requires((x, y)),
            forall|x: u32, y: u32, s: (u32, u32)|
                x < out_w && y < out_h && #[trigger] f.ensures((x, y), s) ==> s.0 < self@.width
                    && s.1 < self@.height && target.rows[y as int][x as int]
                    == self@.rows[s.1 as int][s.0 as int],
        ensures
            r.wf(),
            r@ == target,
    {
        let mut out: Vec<u8> = Vec::new();
        let ghost mut done: Seq<Seq<Seq<u8>>> = Seq::empty();
        let mut y: u32 = 0;
        while y < out_h
            invariant
                self.wf(),
                target.wf(),
                target.width == out_w as nat,
                target.height == out_h as nat,
                forall|x: u32, y: u32| x < out_w && y < out_h ==> #[trigger] f.requires((x, y)),
                forall|x: u32, y: u32, s: (u32, u32)|
                    x < out_w && y < out_h && #[trigger] f.ensures((x, y), s) ==> s.0 < self@.width
                        && s.1 < self@.height && target.rows[y as int][x as int]
                        == self@.rows[s.1 as int][s.0 as int],
                0 <= y <= out_h,
                done.len() == y,
                forall|j: int| 0 <= j < y ==> #[trigger] done[j] == target.rows[j],
                out@ == flat_rows(done),
            decreases out_h - y,
        {
            let ghost mut cur: Seq<Seq<u8>> = Seq::empty();
            let mut x: u32 = 0;
            while x < out_w
                invariant
                    self.wf(),
                    target.wf(),
                    target.width == out_w as nat,
                    target.height == out_h as nat,
                    forall|x: u32, y: u32| x < out_w && y < out_h ==> #[trigger] f.requires((x, y)),
                    forall|x: u32, y: u32, s: (u32, u32)|
                        x < out_w && y < out_h && #[trigger] f.ensures((x, y), s) ==> s.0
                            < self@.width && s.1 < self@.height && target.rows[y as int][x as int]
                            == self@.rows[s.1 as int][s.0 as int],
                    0 <= y < out_h,
                    0 <= x <= out_w,
                    cur.len() == x,
                    forall|i: int| 0 <= i < x ==> #[trigger] cur[i] == target.rows[y as int][i],
                    out@ == flat_rows(done) + cur.flatten(),
                decreases out_w - x,
            {
                let s = f(x, y);
                self.push_pixel(&mut out, s.0, s.1);
                proof {
                    cur.lemma_flatten_push(self@.rows[s.1 as int][s.0 as int]);
                    cur = cur.push(self@.rows[s.1 as int][s.0 as int]);
                }
                x += 1;
            }
            proof {
                lemma_flat_rows_push(done, cur);
                assert(cur =~= target.rows[y as int]);
                done = done.push(cur);
            }
            y += 1;
        }
        proof {
            assert(done =~= target.rows);
            lemma_model_of_bytes(target);
        }
        Raster { mode: self.mode, width: out_w, height: out_h, data: out }
    }

    /// The part of the raster inside the rectangle at (`x`, `y`) of size
    /// `w` x `h`, the rectangle first cut down to the raster.
    pub fn crop(&self, x: u32, y: u32, w: u32, h: u32) -> (r: Raster)
        requires
            self.wf(),
        ensures
            r.wf(),
            r@ == crop_model(self@, x as nat, y as nat, w as nat, h as nat),
    {
        proof {
            self.lemma_wf();
        }
        let cx = if x < self.width {
            x
        } else {
            self.width
        };
        let cy = if y < self.height {
            y
        } else {
            self.height
        };
        let cw = if w < self.width - cx {
            w
        } else {
            self.width - cx
        };
        let chh = if h < self.height - cy {
            h
        } else {
            self.height - cy
        };
        let ghost target = crop_model(self@, x as nat, y as nat, w as nat, h as nat);
        let f = |i: u32, j: u32| -> (s: (u32, u32))
            requires
                i < cw,
                j < chh,
                cx + cw <= u32::MAX,
                cy + chh <= u32::MAX,
            ensures
                s == ((cx + i) as u32, (cy + j) as u32),
            { (cx + i, cy + j) };
        proof {
            assert forall|i: u32, j: u32, s: (u32, u32)|
                i < cw && j < chh && #[trigger] f.ensures((i, j), s) implies s.0 < self@.width
                && s.1 < self@.height && target.rows[j as int][i as int] == self@.rows[s.1 as int][s.0 as int] by {}
        }
        self.remap(cw, chh, f, Ghost(target))
    }

    /// The raster turned a quarter turn clockwise.
    pub fn rotate90(&self) -> (r: Raster)
        requires
            self.wf(),
        ensures
            r.wf(),
            r@ == rotate90_model(self@),
    {
        proof {
            self.lemma_wf();
        }
        let w = self.width;
        let h = self.height;
        let ghost target = rotate90_model(self@);
        let f = |i: u32, j: u32| -> (s: (u32, u32))
            requires
                i < h,
                j < w,
            ensures
                s == (j, (h - 1 - i) as u32),
            { (j, h - 1 - i) };
        proof {
            assert forall|i: u32, j: u32, s: (u32, u32)|
                i < h && j < w && #[trigger] f.ensures((i, j), s) implies s.0 < self@.width
                && s.1 < self@.height && target.rows[j as int][i as int] == self@.rows[s.1 as int][s.0 as int] by {}
        }
        self.remap(h, w, f, Ghost(target))
    }

    /// The raster turned half a turn.
    pub fn rotate180(&self) -> (r: Raster)
        requires
            self.wf(),
        ensures
            r.wf(),
            r@ == rotate180_model(self@),
    {
        proof {
            self.lemma_wf();
        }
        let w = self.width;
        let h = self.height;
        let ghost target = rotate180_model(self@);
        let f = |i: u32, j: u32| -> (s: (u32, u32))
            requires
                i < w,
                j < h,
            ensures
                s == ((w - 1 - i) as u32, (h - 1 - j) as u32),
            { (w - 1 - i, h - 1 - j) };
        proof {
            assert forall|i: u32, j: u32, s: (u32, u32)|
                i < w && j < h && #[trigger] f.ensures((i, j), s) implies s.0 < self@.width
                && s.1 < self@.height && target.rows[j as int][i as int] == self@.rows[s.1 as int][s.0 as int] by {}
        }
        self.remap(w, h, f, Ghost(target))
    }

    /// The raster turned three quarter turns clockwise.
    pub fn rotate270(&self) -> (r: Raster)
        requires
            self.wf(),
        ensures
            r.wf(),
            r@ == rotate270_model(self@),
    {
        proof {
            self.lemma_wf();
        }
        let w = self.width;
        let h = self.height;
        let ghost target = rotate270_model(self@);
        let f = |i: u32, j: u32| -> (s: (u32, u32))
            requires
                i < h,
                j < w,
            ensures
                s == ((w - 1 - j) as u32, i),
            { (w - 1 - j, i) };
        proof {
            assert forall|i: u32, j: u32, s: (u32, u32)|
                i < h && j < w && #[trigger] f.ensures((i, j), s) implies s.0 < self@.width
                && s.1 < self@.height && target.rows[j as int][i as int] == self@.rows[s.1 as int][s.0 as int] by {}
        }
        self.remap(h, w, f, Ghost(target))
    }

    /// Appends pixel (`x`, `y`) written in layout `to` to `out`.
    fn push_converted(&self, out: &mut Vec<u8>, x: u32, y: u32, to: ColorMode)
        requires
            self.wf(),
            x < self@.width,
            y < self@.height,
        ensures
            final(out)@ == old(out)@ + convert_pixel(self@.mode, to, self@.rows[y as int][x as int]),
    {
        let c = self.color_at(x, y);
        proof {
            self.lemma_wf();
        }
        match to {
            ColorMode::Rgb => {
                out.push(c.0);
                out.push(c.1);
                out.push(c.2);
            },
            ColorMode::Rgba => {
                out.push(c.0);
                out.push(c.1);
                out.push(c.2);
                out.push(c.3);
            },
            ColorMode::Luma => {
                let l: u8 = match self.mode {
                    ColorMode::Luma => c.0,
                    _ => {
                        let sum: u32 = 2126 * (c.0 as u32) + 7152 * (c.1 as u32) + 722 * (c.2 as u32);
                        (sum / 10000) as u8
                    },
                };
                out.push(l);
            },
        }
        proof {
            let px = self@.rows[y as int][x as int];
            assert(final(out)@ =~= old(out)@ + convert_pixel(self@.mode, to, px));
        }
    }

    /// The raster written in layout `to`.
    pub fn convert(&self, to: ColorMode) -> (r: Raster)
        requires
            self.wf(),
        ensures
            r.wf(),
            r@ == converted_model(self@, to),
    {
        proof {
            self.lemma_wf();
        }
        let ghost target = converted_model(self@, to);
        let mut out: Vec<u8> = Vec::new();
        let ghost mut done: Seq<Seq<Seq<u8>>> = Seq::empty();
        let mut y: u32 = 0;
        while y < self.height
            invariant
                self.wf(),
                self@.wf(),
                target == converted_model(self@, to),
                0 <= y <= self@.height,
                done.len() == y,
                forall|j: int| 0 <= j < y ==> #[trigger] done[j] == target.rows[j],
                out@ == flat_rows(done),
            decreases self@.height - y,
        {
            let ghost mut cur: Seq<Seq<u8>> = Seq::empty();
            let mut x: u32 = 0;
            while x < self.width
                invariant
                    self.wf(),
                    self@.wf(),
                    target == converted_model(self@, to),
                    0 <= y < self@.height,
                    0 <= x <= self@.width,
                    cur.len() == x,
                    forall|i: int| 0 <= i < x ==> #[trigger] cur[i] == target.rows[y as int][i],
                    out@ == flat_rows(done) + cur.flatten(),
                decreases self@.width - x,
            {
                self.push_converted(&mut out, x, y, to);
                proof {
                    let px = convert_pixel(self@.mode, to, self@.rows[y as int][x as int]);
                    cur.lemma_flatten_push(px);
                    cur = cur.push(px);
                }
                x += 1;
            }
            proof {
                lemma_flat_rows_push(done, cur);
                assert(cur =~= target.rows[y as int]);
                done = done.push(cur);
            }
            y += 1;
        }
        proof {
            assert(done =~= target.rows);
            assert(target.wf());
            lemma_model_of_bytes(target);
        }
        Raster { mode: to, width: self.width, height: self.height, data: out }
    }

    /// Appends the bytes of pixel (`x`, `y`) to `out`.
    fn push_pixel(&self, out: &mut Vec<u8>, x: u32, y: u32)
        requires
            self.wf(),
            x < self@.width,
            y < self@.height,
        ensures
            final(out)@ == old(out)@ + self@.rows[y as int][x as int],
    {
        let ch = self.mode.channel_count();
        proof {
            self.lemma_wf();
            lemma_offset_bounds(self.width as nat, self.height as nat, ch as nat, x as int, y as int);
            assert(y * self.width <= y * self.width + x <= (y * self.width + x) * ch) by (
            nonlinear_arith)
                requires
                    ch >= 1,
                    x >= 0,
                    y >= 0,
                    self.width >= 0,
            ;
        }
        let base = ((y as usize) * (self.width as usize) + (x as usize)) * ch;
        let ghost start = out@;
        let mut c: usize = 0;
        while c < ch
            invariant
                self.wf(),
                ch == self.mode.channels(),
                base == pixel_offset(self.width as nat, ch as nat, x as int, y as int),
                base + ch <= self.data@.len(),
                base + ch <= usize::MAX,
                0 <= c <= ch,
                out@ == start + self.data@.subrange(base as int, base + c),
            decreases ch - c,
        {
            out.push(self.data[base + c]);
            proof {
                assert(self.data@.subrange(base as int, base + c + 1) =~= self.data@.subrange(
                    base as int,
                    base + c,
                ).push(self.data@[base + c]));
            }
            c += 1;
        }
    }
}

} // verus!
