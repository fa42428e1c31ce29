use vstd::prelude::*;
use crate::canvas::FenrirImage;
use crate::color::ColorMode;
use crate::error::FenrirError;
use crate::raster::{Raster, RasterModel, converted_model};
use crate::resample::{nearest_resized, resize_nearest_gray};

verus! {

/// The characters of the ASCII preview, from dark to bright.
pub open spec fn ascii_ramp() -> Seq<char> {
    seq![' ', '.', ':', '-', '=', '+', '*', '#', '%', '@']
}

/// The character a gray level is drawn with: level * 9 / 255 picks it from the ramp.
pub open spec fn ascii_char(level: u8) -> char {
    ascii_ramp()[(level * 9 / 255) as int]
}

/// One row of the preview: a character per pixel, then a newline.
pub open spec fn ascii_row(g: RasterModel, y: int) -> Seq<char> {
    Seq::new(g.width, |x: int| ascii_char(g.rows[y][x][0])).push('\n')
}

/// The preview of a gray raster: its rows, each ended by a newline.
pub open spec fn ascii_text(g: RasterModel) -> Seq<char> {
    Seq::new(g.height, |y: int| ascii_row(g, y)).flatten()
}

/// Why an ASCII preview is refused, if it is.
pub open spec fn ascii_error(width: u32, iw: nat, ih: nat) -> Option<FenrirError> {
    if width == 0 {
        Some(FenrirError::AsciiZeroWidth)
    } else if iw == 0 || ih == 0 {
        Some(FenrirError::AsciiEmptyImage)
    } else {
        None
    }
}

fn ramp_char(i: usize) -> (s: &'static str)
    requires
        i < 10,
    ensures
        s@ == seq![ascii_ramp()[i as int]],
{
    proof {
        reveal_strlit(" ");
        reveal_strlit(".");
        reveal_strlit(":");
        reveal_strlit("-");
        reveal_strlit("=");
        reveal_strlit("+");
        reveal_strlit("*");
        reveal_strlit("#");
        reveal_strlit("%");
        reveal_strlit("@");
    }
    let s = match i {
        0 => " ",
        1 => ".",
        2 => ":",
        3 => "-",
        4 => "=",
        5 => "+",
        6 => "*",
        7 => "#",
        8 => "%",
        _ => "@",
    };
    proof {
        assert(s@ =~= seq![ascii_ramp()[i as int]]);
    }
    s
}

/// Draws a gray raster as text: one character per pixel picked by its level,
/// rows ended by newlines.
pub fn ascii_from_gray(gray: &Raster) -> (s: String)
    requires
        gray.wf(),
        gray@.mode == ColorMode::Luma,
    ensures
        s@ == ascii_text(gray@),
{
    proof {
        gray.lemma_wf();
        reveal_strlit("\n");
    }
    let ghost g = gray@;
    let mut out = String::new();
    let w = gray.width();
    let h = gray.height();
    let mut y: u32 = 0;
    while y < h
        invariant
            gray.wf(),
            g == gray@,
            g.wf(),
            g.mode == ColorMode::Luma,
            w == g.width,
            h == g.height,
            0 <= y <= h,
            out@ == Seq::new(y as nat, |j: int| ascii_row(g, j)).flatten(),
        decreases h - y,
    {
        let ghost row_start = out@;
        let mut x: u32 = 0;
        while x < w
            invariant
                gray.wf(),
                g == gray@,
                g.wf(),
                g.mode == ColorMode::Luma,
                w == g.width,
                h == g.height,
                0 <= y < h,
                0 <= x <= w,
                out@ == row_start + Seq::new(x as nat, |i: int| ascii_char(g.rows[y as int][i][0])),
            decreases w - x,
        {
            let c = gray.color_at(x, y);
            let idx = (c.0 as usize) * 9 / 255;
            out.append(ramp_char(idx));
            proof {
                assert(c.0 == g.rows[y as int][x as int][0]);
                assert(Seq::new((x + 1) as nat, |i: int| ascii_char(g.rows[y as int][i][0]))
                    =~= Seq::new(x as nat, |i: int| ascii_char(g.rows[y as int][i][0])).push(
                    ascii_char(c.0),
                ));
            }
            x += 1;
        }
        out.append("\n");
        proof {
            reveal_strlit("\n");
            assert("\n"@.len() == 1);
            assert("\n"@[0] == '\n');
            assert("\n"@ =~= seq!['\n']);
            let rows = Seq::new(y as nat, |j: int| ascii_row(g, j));
            let rows2 = Seq::new((y + 1) as nat, |j: int| ascii_row(g, j));
            assert(rows2 =~= rows.push(ascii_row(g, y as int)));
            rows.lemma_flatten_push(ascii_row(g, y as int));
            assert(Seq::new(w as nat, |i: int| ascii_char(g.rows[y as int][i][0])).push('\n')
                =~= ascii_row(g, y as int));
            assert(out@ =~= rows.flatten() + ascii_row(g, y as int));
            assert(out@ =~= rows2.flatten());
        }
        y += 1;
    }
    out
}

impl FenrirImage {
    /// ASCII preview `width` characters wide and `target_height` rows tall:
    /// the raster turned gray, sampled to that size by nearest neighbour, each
    /// sample drawn with a character of the ramp.
    pub fn to_ascii_sized(&self, width: u32, target_height: u32) -> (r: Result<String, FenrirError>)
        requires
            self.wf(),
            target_height >= 1,
            (width as int + 1) * target_height <= u32::MAX,
            self@.raster.width * target_height * 4 <= usize::MAX,
        ensures
            ascii_error(width, self@.width, self@.height) matches Some(e) ==> r == Err::<
                String,
                FenrirError,
            >(e),
            ascii_error(width, self@.width, self@.height) is None ==> (r matches Ok(s) && s@
                == ascii_text(
                nearest_resized(
                    converted_model(self@.raster, ColorMode::Luma),
                    width,
                    target_height,
                ),
            ) && s@.len() == (width + 1) * target_height && (forall|y: int|
                0 <= y < target_height ==> #[trigger] s@[y * (width + 1) + width] == '\n') && (
            forall|y: int, x: int|
                0 <= y < target_height && 0 <= x < width ==> ascii_ramp().contains(
                    #[trigger] s@[y * (width + 1) + x],
                ))),
    {
        if width == 0 {
            return Err(FenrirError::AsciiZeroWidth);
        }
        let (w, h) = self.get_size();
        if w == 0 || h == 0 {
            return Err(FenrirError::AsciiEmptyImage);
        }
        proof {
            self.lemma_wf();
            assert(width * target_height <= usize::MAX) by (nonlinear_arith)
                requires
                    (width as int + 1) * target_height <= u32::MAX,
            ;
        }
        let gray = self.raster().convert(ColorMode::Luma);
        let sampled = resize_nearest_gray(&gray, width, target_height);
        proof {
            sampled.lemma_wf();
            crate::laws::lemma_ascii_shape(sampled@);
            assert(target_height * (width + 1) == (width + 1) * target_height) by (nonlinear_arith);
        }
        Ok(ascii_from_gray(&sampled))
    }
}

} // verus!
