use fenrir::canvas::{parse_direction, parse_mode, FenrirImage};
use fenrir::color::{ColorMode, Paint};
use fenrir::error::FenrirError;
use fenrir::raster::Raster;

fn paint(r: u8, g: u8, b: u8, a: u8, gray: u8) -> Paint {
    Paint::new((r, g, b, a), gray)
}

fn rgba_image(w: u32, h: u32) -> FenrirImage {
    FenrirImage::new(w, h, "RGBA", paint(0, 0, 0, 0, 0)).unwrap()
}

fn numbered(w: u32, h: u32) -> FenrirImage {
    let mut img = rgba_image(w, h);
    for y in 0..h {
        for x in 0..w {
            img.draw_pixel(x, y, paint(x as u8, y as u8, 7, 255, 0)).unwrap();
        }
    }
    img
}

#[test]
fn new_rgb_reads_opaque_color() {
    let img = FenrirImage::new(3, 2, "RGB", paint(10, 20, 30, 40, 99)).unwrap();
    assert_eq!(img.get_size(), (3, 2));
    assert_eq!(img.get_pixel(2, 1).unwrap(), (10, 20, 30, 255));
    assert_eq!(img.raster().mode(), ColorMode::Rgb);
}

#[test]
fn new_accepts_mode_in_any_case() {
    let img = FenrirImage::new(1, 1, "rgba", paint(1, 2, 3, 4, 5)).unwrap();
    assert_eq!(img.get_pixel(0, 0).unwrap(), (1, 2, 3, 4));
    let gray = FenrirImage::new(2, 2, "l", paint(1, 2, 3, 4, 77)).unwrap();
    assert_eq!(gray.get_pixel(1, 1).unwrap(), (77, 77, 77, 255));
    assert_eq!(gray.raster().mode(), ColorMode::Luma);
}

#[test]
fn new_refuses_empty_and_unknown_modes() {
    assert_eq!(FenrirImage::new(0, 4, "RGB", paint(0, 0, 0, 0, 0)).err(), Some(FenrirError::EmptyImage));
    assert_eq!(FenrirImage::new(4, 0, "RGB", paint(0, 0, 0, 0, 0)).err(), Some(FenrirError::EmptyImage));
    assert_eq!(FenrirImage::new(4, 4, "CMYK", paint(0, 0, 0, 0, 0)).err(), Some(FenrirError::UnknownMode));
    assert_eq!(FenrirImage::new(4, 4, "RGBAA", paint(0, 0, 0, 0, 0)).err(), Some(FenrirError::UnknownMode));
}

#[test]
fn mode_names_parse() {
    assert_eq!(parse_mode("Rgb"), Some(ColorMode::Rgb));
    assert_eq!(parse_mode("RGBA"), Some(ColorMode::Rgba));
    assert_eq!(parse_mode("L"), Some(ColorMode::Luma));
    assert_eq!(parse_mode(" L"), None);
}

#[test]
fn get_pixel_outside_is_refused() {
    let img = rgba_image(2, 2);
    assert_eq!(img.get_pixel(2, 0), Err(FenrirError::PointOutside));
    assert_eq!(img.get_pixel(0, 5), Err(FenrirError::PointOutside));
}

#[test]
fn draw_pixel_reads_back_and_leaves_others() {
    let mut img = FenrirImage::new(3, 3, "RGB", paint(0, 0, 0, 0, 0)).unwrap();
    img.draw_pixel(1, 2, paint(9, 8, 7, 6, 5)).unwrap();
    assert_eq!(img.get_pixel(1, 2).unwrap(), (9, 8, 7, 255));
    assert_eq!(img.get_pixel(2, 1).unwrap(), (0, 0, 0, 255));
    assert_eq!(img.draw_pixel(3, 0, paint(1, 1, 1, 1, 1)), Err(FenrirError::PointOutside));
}

#[test]
fn gray_draw_uses_gray_level() {
    let mut img = FenrirImage::new(2, 1, "L", paint(0, 0, 0, 0, 0)).unwrap();
    img.draw_pixel(0, 0, paint(200, 10, 10, 1, 76)).unwrap();
    assert_eq!(img.get_pixel(0, 0).unwrap(), (76, 76, 76, 255));
}

#[test]
fn fill_paints_every_pixel() {
    let mut img = numbered(3, 2);
    img.fill(paint(5, 6, 7, 8, 0)).unwrap();
    for y in 0..2 {
        for x in 0..3 {
            assert_eq!(img.get_pixel(x, y).unwrap(), (5, 6, 7, 8));
        }
    }
}

#[test]
fn crop_keeps_the_region_and_returns_a_copy() {
    let mut img = numbered(4, 3);
    let copy = img.crop(1, 1, 2, 2).unwrap();
    assert_eq!(img.get_size(), (2, 2));
    assert_eq!(copy.get_size(), (2, 2));
    assert_eq!(img.get_pixel(0, 0).unwrap(), (1, 1, 7, 255));
    assert_eq!(img.get_pixel(1, 1).unwrap(), (2, 2, 7, 255));
    assert_eq!(copy.get_pixel(1, 0).unwrap(), (2, 1, 7, 255));
}

#[test]
fn crop_errors_follow_the_checks_in_order() {
    let mut img = numbered(4, 3);
    assert_eq!(img.crop(0, 0, 0, 1).err(), Some(FenrirError::EmptyRect));
    assert_eq!(img.crop(4, 0, 1, 1).err(), Some(FenrirError::RectOriginOutside));
    assert_eq!(img.crop(1, 0, u32::MAX, 1).err(), Some(FenrirError::RectWidthOverflow));
    assert_eq!(img.crop(0, 1, 1, u32::MAX).err(), Some(FenrirError::RectHeightOverflow));
    assert_eq!(img.crop(2, 0, 3, 1).err(), Some(FenrirError::RectTooLarge));
    assert_eq!(img.get_size(), (4, 3));
}

#[test]
fn rotate_90_turns_clockwise() {
    let mut img = numbered(3, 2);
    img.rotate_90().unwrap();
    assert_eq!(img.get_size(), (2, 3));
    // new (X, Y) holds old (Y, h - 1 - X)
    assert_eq!(img.get_pixel(0, 0).unwrap(), (0, 1, 7, 255));
    assert_eq!(img.get_pixel(1, 0).unwrap(), (0, 0, 7, 255));
    assert_eq!(img.get_pixel(0, 2).unwrap(), (2, 1, 7, 255));
}

#[test]
fn rotate_180_and_270() {
    let mut a = numbered(3, 2);
    a.rotate_180().unwrap();
    assert_eq!(a.get_size(), (3, 2));
    assert_eq!(a.get_pixel(0, 0).unwrap(), (2, 1, 7, 255));
    let mut b = numbered(3, 2);
    b.rotate_270().unwrap();
    assert_eq!(b.get_size(), (2, 3));
    // new (X, Y) holds old (w - 1 - Y, X)
    assert_eq!(b.get_pixel(0, 0).unwrap(), (2, 0, 7, 255));
    assert_eq!(b.get_pixel(1, 2).unwrap(), (0, 1, 7, 255));
}

#[test]
fn four_quarter_turns_restore_the_image() {
    let original = numbered(3, 2);
    let mut img = numbered(3, 2);
    for _ in 0..4 {
        img.rotate_90().unwrap();
    }
    assert_eq!(img.get_size(), original.get_size());
    assert_eq!(img.raster().as_bytes(), original.raster().as_bytes());
}

#[test]
fn split_vertical_sorts_and_skips_cuts() {
    let img = numbered(6, 2);
    let pieces = img.split(vec![0, 4, 2, 9, 0, 2]).unwrap();
    let sizes: Vec<(u32, u32)> = pieces.iter().map(|p| p.get_size()).collect();
    assert_eq!(sizes, vec![(2, 2), (2, 2), (2, 2)]);
    assert_eq!(pieces[1].get_pixel(0, 1).unwrap(), (2, 1, 7, 255));
    assert_eq!(pieces[2].get_pixel(1, 0).unwrap(), (5, 0, 7, 255));
}

#[test]
fn split_horizontal_keeps_the_rest() {
    let img = numbered(2, 5);
    let pieces = img.split(vec![1, 3]).unwrap();
    let sizes: Vec<(u32, u32)> = pieces.iter().map(|p| p.get_size()).collect();
    assert_eq!(sizes, vec![(2, 3), (2, 2)]);
    assert_eq!(pieces[1].get_pixel(0, 0).unwrap(), (0, 3, 7, 255));
}

#[test]
fn split_cut_at_the_edge_gives_one_piece() {
    let img = numbered(4, 2);
    let pieces = img.split(vec![0, 4]).unwrap();
    assert_eq!(pieces.len(), 1);
    assert_eq!(pieces[0].get_size(), (4, 2));
}

#[test]
fn split_errors() {
    let img = numbered(4, 2);
    assert_eq!(img.split(vec![0]).err(), Some(FenrirError::SplitTooShort));
    assert_eq!(img.split(vec![]).err(), Some(FenrirError::SplitTooShort));
    assert_eq!(img.split(vec![2, 1]).err(), Some(FenrirError::SplitBadAxis));
}

fn painted_points(img: &FenrirImage, marker: (u8, u8, u8, u8)) -> Vec<(u32, u32)> {
    let (w, h) = img.get_size();
    let mut pts = Vec::new();
    for y in 0..h {
        for x in 0..w {
            if img.get_pixel(x, y).unwrap() == marker {
                pts.push((x, y));
            }
        }
    }
    pts
}

#[test]
fn draw_line_follows_bresenham() {
    let mut img = rgba_image(5, 3);
    img.draw_line(0, 0, 4, 2, paint(1, 2, 3, 4, 0)).unwrap();
    let mut pts = painted_points(&img, (1, 2, 3, 4));
    pts.sort();
    assert_eq!(pts, vec![(0, 0), (1, 1), (2, 1), (3, 2), (4, 2)]);
}

#[test]
fn draw_line_depends_on_direction() {
    let mut img = rgba_image(5, 3);
    img.draw_line(4, 2, 0, 0, paint(1, 2, 3, 4, 0)).unwrap();
    let mut pts = painted_points(&img, (1, 2, 3, 4));
    pts.sort();
    assert_eq!(pts, vec![(0, 0), (1, 0), (2, 1), (3, 1), (4, 2)]);
}

#[test]
fn draw_line_vertical_diagonal_and_single_point() {
    let mut img = rgba_image(4, 4);
    img.draw_line(1, 0, 1, 3, paint(9, 9, 9, 9, 0)).unwrap();
    let mut pts = painted_points(&img, (9, 9, 9, 9));
    pts.sort();
    assert_eq!(pts, vec![(1, 0), (1, 1), (1, 2), (1, 3)]);
    let mut diag = rgba_image(4, 4);
    diag.draw_line(0, 3, 3, 0, paint(5, 5, 5, 5, 0)).unwrap();
    let mut d = painted_points(&diag, (5, 5, 5, 5));
    d.sort();
    assert_eq!(d, vec![(0, 3), (1, 2), (2, 1), (3, 0)]);
    let mut dot = rgba_image(4, 4);
    dot.draw_line(2, 2, 2, 2, paint(6, 6, 6, 6, 0)).unwrap();
    assert_eq!(painted_points(&dot, (6, 6, 6, 6)), vec![(2, 2)]);
}

#[test]
fn draw_line_refuses_outside_endpoints() {
    let mut img = rgba_image(4, 4);
    assert_eq!(img.draw_line(-1, 0, 2, 2, paint(1, 1, 1, 1, 0)), Err(FenrirError::LineOutside));
    assert_eq!(img.draw_line(0, 0, 4, 2, paint(1, 1, 1, 1, 0)), Err(FenrirError::LineOutside));
    assert!(painted_points(&img, (1, 1, 1, 1)).is_empty());
}

#[test]
fn draw_rect_filled_and_outline() {
    let mut img = rgba_image(5, 5);
    img.draw_rect(1, 1, 3, 2, paint(4, 4, 4, 4, 0), true).unwrap();
    let mut pts = painted_points(&img, (4, 4, 4, 4));
    pts.sort();
    assert_eq!(pts, vec![(1, 1), (1, 2), (2, 1), (2, 2), (3, 1), (3, 2)]);

    let mut outline = rgba_image(5, 5);
    outline.draw_rect(0, 0, 4, 3, paint(8, 8, 8, 8, 0), false).unwrap();
    let pts = painted_points(&outline, (8, 8, 8, 8));
    assert_eq!(pts.len(), 10);
    assert_eq!(outline.get_pixel(1, 1).unwrap(), (0, 0, 0, 0));
    assert_eq!(outline.get_pixel(3, 2).unwrap(), (8, 8, 8, 8));
}

#[test]
fn draw_rect_one_row_outline() {
    let mut img = rgba_image(4, 2);
    img.draw_rect(0, 1, 3, 1, paint(2, 2, 2, 2, 0), false).unwrap();
    let mut pts = painted_points(&img, (2, 2, 2, 2));
    pts.sort();
    assert_eq!(pts, vec![(0, 1), (1, 1), (2, 1)]);
    assert_eq!(img.draw_rect(3, 0, 2, 1, paint(2, 2, 2, 2, 0), false), Err(FenrirError::RectTooLarge));
}

#[test]
fn gradient_direction_names() {
    assert_eq!(parse_direction("Horizontal"), Ok(true));
    assert_eq!(parse_direction("VERTICAL"), Ok(false));
    assert_eq!(parse_direction("diagonal"), Err(FenrirError::BadDirection));
}

#[test]
fn apply_gradient_paints_columns() {
    let mut img = rgba_image(3, 2);
    let ramp = vec![paint(0, 0, 0, 255, 0), paint(100, 0, 0, 255, 0), paint(200, 0, 0, 255, 0)];
    img.apply_gradient(true, &ramp);
    assert_eq!(img.get_pixel(1, 1).unwrap(), (100, 0, 0, 255));
    assert_eq!(img.get_pixel(2, 0).unwrap(), (200, 0, 0, 255));
    let mut rows = FenrirImage::new(2, 2, "L", paint(0, 0, 0, 0, 0)).unwrap();
    rows.apply_gradient(false, &vec![paint(0, 0, 0, 0, 10), paint(0, 0, 0, 0, 20)]);
    assert_eq!(rows.get_pixel(1, 1).unwrap(), (20, 20, 20, 255));
}

#[test]
fn resize_reports_request_and_keeps_aspect() {
    let mut img = FenrirImage::new(4, 2, "RGB", paint(50, 60, 70, 0, 0)).unwrap();
    img.resize(2, 2).unwrap();
    assert_eq!(img.get_size(), (2, 2));
    assert_eq!((img.raster().width(), img.raster().height()), (2, 1));
    assert_eq!(img.get_pixel(1, 0).unwrap(), (50, 60, 70, 255));
    assert_eq!(img.resize(0, 3), Err(FenrirError::EmptyResize));
}

#[test]
fn resize_to_same_size_keeps_pixels() {
    let mut img = numbered(3, 2);
    let before = img.raster().as_bytes().clone();
    img.resize(3, 2).unwrap();
    assert_eq!(img.raster().as_bytes(), &before);
}

#[test]
fn duplicate_reports_raster_size() {
    let mut img = FenrirImage::new(4, 2, "RGB", paint(1, 1, 1, 0, 0)).unwrap();
    img.resize(2, 2).unwrap();
    let dup = img.duplicate();
    assert_eq!(dup.get_size(), (2, 1));
}

#[test]
fn snapshot_adds_opaque_alpha() {
    let img = FenrirImage::new(2, 1, "RGB", paint(1, 2, 3, 0, 0)).unwrap();
    let (bytes, w, h) = img.snapshot_rgba();
    assert_eq!((w, h), (2, 1));
    assert_eq!(bytes, vec![1, 2, 3, 255, 1, 2, 3, 255]);
    let gray = FenrirImage::new(1, 1, "L", paint(0, 0, 0, 0, 9)).unwrap();
    assert_eq!(gray.snapshot_rgba().0, vec![9, 9, 9, 255]);
}

#[test]
fn ascii_preview_picks_ramp_characters() {
    let white = FenrirImage::new(2, 2, "RGB", paint(255, 255, 255, 0, 0)).unwrap();
    assert_eq!(white.to_ascii_sized(2, 2).unwrap(), "@@\n@@\n");
    let black = FenrirImage::new(3, 1, "L", paint(0, 0, 0, 0, 0)).unwrap();
    assert_eq!(black.to_ascii_sized(3, 1).unwrap(), "   \n");
    let mid = FenrirImage::new(1, 1, "L", paint(0, 0, 0, 0, 128)).unwrap();
    assert_eq!(mid.to_ascii_sized(2, 1).unwrap(), "==\n");
}

#[test]
fn ascii_preview_resamples_to_the_requested_grid() {
    let img = FenrirImage::new(4, 4, "L", paint(0, 0, 0, 0, 255)).unwrap();
    let text = img.to_ascii_sized(2, 3).unwrap();
    assert_eq!(text, "@@\n@@\n@@\n");
}

#[test]
fn ascii_preview_errors() {
    let img = FenrirImage::new(2, 2, "L", paint(0, 0, 0, 0, 0)).unwrap();
    assert_eq!(img.to_ascii_sized(0, 1), Err(FenrirError::AsciiZeroWidth));
    // A 4 x 2 image resized to 4 x 1 keeps a 2 x 1 raster; a cut past that
    // raster's right edge leaves an image without columns.
    let mut img = numbered(4, 2);
    img.resize(4, 1).unwrap();
    assert_eq!((img.raster().width(), img.raster().height()), (2, 1));
    let empty = img.crop(3, 0, 1, 1).unwrap();
    assert_eq!(empty.get_size(), (0, 1));
    assert_eq!(empty.to_ascii_sized(2, 1), Err(FenrirError::AsciiEmptyImage));
}

#[test]
fn raster_from_raw_checks_length() {
    assert!(Raster::from_raw(ColorMode::Rgb, 2, 1, vec![1, 2, 3, 4, 5, 6]).is_some());
    assert!(Raster::from_raw(ColorMode::Rgb, 2, 1, vec![1, 2, 3]).is_none());
    assert!(Raster::from_raw(ColorMode::Luma, 0, 7, vec![]).is_some());
}

#[test]
fn convert_to_gray_uses_srgb_weights() {
    let r = Raster::from_raw(ColorMode::Rgb, 3, 1, vec![255, 0, 0, 0, 255, 0, 0, 0, 255]).unwrap();
    let g = r.convert(ColorMode::Luma);
    assert_eq!(g.as_bytes(), &vec![54, 182, 18]);
    let back = g.convert(ColorMode::Rgba);
    assert_eq!(back.as_bytes(), &vec![54, 54, 54, 255, 182, 182, 182, 255, 18, 18, 18, 255]);
}

#[test]
fn image_from_raster_reports_its_size() {
    let r = Raster::from_raw(ColorMode::Rgba, 1, 2, vec![1, 2, 3, 4, 5, 6, 7, 8]).unwrap();
    let img = FenrirImage::from_raster(r);
    assert_eq!(img.get_size(), (1, 2));
    assert_eq!(img.get_pixel(0, 1).unwrap(), (5, 6, 7, 8));
}

#[test]
fn half_turns_and_mixed_turns_restore_the_image() {
    let original = numbered(4, 3);
    let mut a = numbered(4, 3);
    a.rotate_180().unwrap();
    a.rotate_180().unwrap();
    assert_eq!(a.raster().as_bytes(), original.raster().as_bytes());
    let mut b = numbered(4, 3);
    b.rotate_90().unwrap();
    b.rotate_270().unwrap();
    assert_eq!(b.get_size(), (4, 3));
    assert_eq!(b.raster().as_bytes(), original.raster().as_bytes());
    let mut c = numbered(4, 3);
    c.rotate_90().unwrap();
    c.rotate_90().unwrap();
    let mut d = numbered(4, 3);
    d.rotate_180().unwrap();
    assert_eq!(c.raster().as_bytes(), d.raster().as_bytes());
}

#[test]
fn cropping_everything_changes_nothing() {
    let original = numbered(3, 3);
    let mut img = numbered(3, 3);
    let copy = img.crop(0, 0, 3, 3).unwrap();
    assert_eq!(img.raster().as_bytes(), original.raster().as_bytes());
    assert_eq!(copy.raster().as_bytes(), original.raster().as_bytes());
}

#[test]
fn split_pieces_cover_the_width() {
    let img = numbered(7, 2);
    let pieces = img.split(vec![0, 3, 5]).unwrap();
    let total: u32 = pieces.iter().map(|p| p.get_size().0).sum();
    assert_eq!(total, 7);
}

#[test]
fn documented_session_resize_crop_and_line() {
    let mut img = FenrirImage::new(800, 600, "RGBA", paint(255, 0, 0, 255, 76)).unwrap();
    img.resize(400, 300).unwrap();
    assert_eq!(img.get_size(), (400, 300));
    assert_eq!((img.raster().width(), img.raster().height()), (400, 300));
    let cut = img.crop(10, 10, 200, 200).unwrap();
    assert_eq!(cut.get_size(), (200, 200));
    assert_eq!(img.get_size(), (200, 200));
    img.draw_line(0, 0, 100, 100, paint(0, 255, 0, 255, 150)).unwrap();
    assert_eq!(img.get_pixel(0, 0).unwrap(), (0, 255, 0, 255));
    assert_eq!(img.get_pixel(50, 50).unwrap(), (0, 255, 0, 255));
    assert_eq!(img.get_pixel(100, 100).unwrap(), (0, 255, 0, 255));
    assert_eq!(img.get_pixel(101, 101).unwrap(), cut.get_pixel(101, 101).unwrap());
}

#[test]
fn resize_of_an_image_without_pixels() {
    let mut img = rgba_image(100, 10);
    img.resize(100, 100).unwrap();
    assert_eq!((img.raster().width(), img.raster().height()), (100, 10));
    let cut = img.crop(0, 50, 10, 10).unwrap();
    assert_eq!(cut.get_size(), (10, 0));
    img.resize(5, 5).unwrap();
    assert_eq!(img.get_size(), (5, 5));
    assert_eq!((img.raster().width(), img.raster().height()), (5, 1));
}

#[test]
fn resize_takes_the_request_on_the_tighter_side() {
    let mut img = rgba_image(4, 2);
    img.resize(3, 3).unwrap();
    assert_eq!((img.raster().width(), img.raster().height()), (3, 2));
    let mut tall = rgba_image(2, 4);
    tall.resize(8, 2).unwrap();
    assert_eq!((tall.raster().width(), tall.raster().height()), (1, 2));
}

#[test]
fn ascii_preview_shape() {
    let img = numbered(3, 2);
    let s = img.to_ascii_sized(4, 3).unwrap();
    assert_eq!(s.chars().count(), 15);
    let lines: Vec<&str> = s.split_terminator('\n').collect();
    assert_eq!(lines.len(), 3);
    assert!(lines.iter().all(|l| l.chars().count() == 4));
    assert!(s.chars().all(|c| c == '\n' || " .:-=+*#%@".contains(c)));
}

#[test]
fn split_ignores_order_and_repeated_cuts() {
    let img = numbered(6, 2);
    let a = img.split(vec![0, 4, 2, 2, 9]).unwrap();
    let b = img.split(vec![0, 9, 2, 4, 4]).unwrap();
    assert_eq!(a.len(), b.len());
    for (p, q) in a.iter().zip(b.iter()) {
        assert_eq!(p.get_size(), q.get_size());
        assert_eq!(p.raster().as_bytes(), q.raster().as_bytes());
    }
}

#[test]
fn line_has_one_pixel_per_step_of_its_longer_side() {
    let marker = (9, 9, 9, 255);
    let mut img = rgba_image(12, 8);
    img.draw_line(1, 6, 11, 2, paint(9, 9, 9, 255, 0)).unwrap();
    let pts = painted_points(&img, marker);
    assert_eq!(pts.len(), 11);
    let mut xs: Vec<u32> = pts.iter().map(|p| p.0).collect();
    xs.sort();
    xs.dedup();
    assert_eq!(xs.len(), 11);
}

#[test]
fn flat_gradient_matches_fill() {
    let c = paint(12, 34, 56, 78, 30);
    let mut a = numbered(4, 3);
    let mut b = numbered(4, 3);
    a.apply_gradient(true, &vec![c; 4]);
    b.fill(c).unwrap();
    assert_eq!(a.raster().as_bytes(), b.raster().as_bytes());
    let mut v = numbered(4, 3);
    v.apply_gradient(false, &vec![c; 3]);
    assert_eq!(v.raster().as_bytes(), b.raster().as_bytes());
}

#[test]
fn greeting() {
    assert_eq!(fenrir::hello(), "Fenrir is alive!");
}
