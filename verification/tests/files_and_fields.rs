use fenrir::color::{ColorMode, Paint};
use fenrir::error::FenrirError;
use fenrir::raster::Raster;
use fenrir::text::{lower_equals, upper_equals};
use fenrir::tiff_file::{check_tiff_extension, FenrirTiff, FenrirTiffWriter};
use fenrir::viewer::{
    parse_cut_list, parse_i32, parse_u32, parse_u8, split_payload, u8_text, ColorInput, SplitAxis,
};

#[test]
fn tiff_extensions() {
    assert_eq!(check_tiff_extension("tif"), Ok(()));
    assert_eq!(check_tiff_extension("TIFF"), Ok(()));
    assert_eq!(check_tiff_extension("Tif"), Ok(()));
    assert_eq!(check_tiff_extension("png"), Err(FenrirError::NotTiff));
    assert_eq!(check_tiff_extension(""), Err(FenrirError::NotTiff));
    assert_eq!(check_tiff_extension("tiff "), Err(FenrirError::NotTiff));
}

#[test]
fn tiff_header_state_and_pages() {
    let mut t = FenrirTiff::from_header("scan.tif", 100, 50);
    assert_eq!(t.path(), "scan.tif");
    assert_eq!(t.get_size(), (100, 50));
    assert_eq!(t.get_page_count(), 1);
    assert!(!t.is_big_tiff());
    assert_eq!(t.get_current_page(), 0);
    assert_eq!(t.set_page(0), Ok(()));
    assert_eq!(t.set_page(1), Err(FenrirError::BadPage));
    assert_eq!(t.get_current_page(), 0);
}

#[test]
fn tiff_region_is_clipped_to_the_image() {
    let t = FenrirTiff::from_header("scan.tif", 100, 50);
    assert_eq!(t.region(90, 40, 30, 5), Ok((10, 5)));
    assert_eq!(t.region(0, 0, 100, 50), Ok((100, 50)));
    assert_eq!(t.region(100, 0, 1, 1), Err(FenrirError::RegionOutside));
    assert_eq!(t.region(0, 50, 1, 1), Err(FenrirError::RegionOutside));
    assert_eq!(t.region(1, 1, 0, 3), Err(FenrirError::EmptyRegion));
}

#[test]
fn tiff_load_region_cuts_the_decoded_pixels() {
    let t = FenrirTiff::from_header("scan.tif", 3, 2);
    let decoded = Raster::from_raw(ColorMode::Luma, 3, 2, vec![1, 2, 3, 4, 5, 6]).unwrap();
    let img = t.load_region(&decoded, 1, 1, 9, 9).unwrap();
    assert_eq!(img.get_size(), (2, 1));
    assert_eq!(img.get_pixel(0, 0).unwrap(), (5, 5, 5, 255));
    assert_eq!(img.get_pixel(1, 0).unwrap(), (6, 6, 6, 255));
    assert_eq!(t.load_region(&decoded, 3, 0, 1, 1).err(), Some(FenrirError::RegionOutside));
}

#[test]
fn writer_starts_clear_and_paints() {
    let mut w = FenrirTiffWriter::new("out.tif", 2, 2).unwrap();
    assert_eq!(w.get_size(), (2, 2));
    assert_eq!(w.path(), "out.tif");
    assert_eq!(w.canvas().as_bytes(), &vec![0u8; 16]);
    w.set_pixel(1, 0, (1, 2, 3, 4)).unwrap();
    assert_eq!(&w.canvas().as_bytes()[4..8], &[1, 2, 3, 4]);
    assert_eq!(w.set_pixel(2, 0, (1, 1, 1, 1)), Err(FenrirError::WriterPixelOutside));
    w.fill((9, 8, 7, 6)).unwrap();
    assert_eq!(w.canvas().as_bytes(), &[9u8, 8, 7, 6].repeat(4));
}

#[test]
fn writer_refuses_empty_size() {
    assert_eq!(FenrirTiffWriter::new("x.tif", 0, 3).err(), Some(FenrirError::EmptyWriter));
    assert_eq!(FenrirTiffWriter::new("x.tif", 3, 0).err(), Some(FenrirError::EmptyWriter));
}

#[test]
fn numbers_parse_with_surrounding_space() {
    assert_eq!(parse_u32(" 42\t", "X"), Ok(42));
    assert_eq!(parse_u32("+7", "X"), Ok(7));
    assert_eq!(parse_u32("\u{a0}007\u{3000}", "X"), Ok(7));
    assert_eq!(parse_u32("4294967295", "X"), Ok(u32::MAX));
    assert_eq!(parse_i32("-2147483648", "Y1"), Ok(i32::MIN));
    assert_eq!(parse_i32(" -5 ", "Y1"), Ok(-5));
    assert_eq!(parse_i32("+12", "Y1"), Ok(12));
    assert_eq!(parse_u8("255", "R"), Ok(255));
}

#[test]
fn bad_numbers_name_the_field() {
    assert_eq!(parse_u32("-1", "X"), Err("Valor inválido para X".to_string()));
    assert_eq!(parse_u32("4294967296", "largura"), Err("Valor inválido para largura".to_string()));
    assert_eq!(parse_u32("", "X"), Err("Valor inválido para X".to_string()));
    assert_eq!(parse_u32("+", "X"), Err("Valor inválido para X".to_string()));
    assert_eq!(parse_u32("1 2", "X"), Err("Valor inválido para X".to_string()));
    assert_eq!(parse_i32("2147483648", "X1"), Err("Valor inválido para X1".to_string()));
    assert_eq!(parse_i32("-", "X1"), Err("Valor inválido para X1".to_string()));
    assert_eq!(parse_u8("256", "G"), Err("Valor inválido para G".to_string()));
}

#[test]
fn u8_text_is_decimal() {
    assert_eq!(u8_text(0), "0");
    assert_eq!(u8_text(7), "7");
    assert_eq!(u8_text(42), "42");
    assert_eq!(u8_text(100), "100");
    assert_eq!(u8_text(255), "255");
}

#[test]
fn color_input_round_trip() {
    let c = ColorInput::solid(12, 0, 255, 128);
    assert_eq!(c.r, "12");
    assert_eq!(c.to_tuple(), Ok((12, 0, 255, 128)));
    let d = ColorInput::default();
    assert_eq!(d.to_tuple(), Ok((255, 0, 0, 255)));
}

#[test]
fn color_input_reports_first_bad_field() {
    let mut c = ColorInput::solid(1, 2, 3, 4);
    c.g = "x".to_string();
    c.a = "300".to_string();
    assert_eq!(c.to_tuple(), Err("Valor inválido para G".to_string()));
    c.g = " 9 ".to_string();
    assert_eq!(c.to_tuple(), Err("Valor inválido para A".to_string()));
}

#[test]
fn split_axis_codes() {
    assert_eq!(SplitAxis::Vertical.code(), 0);
    assert_eq!(SplitAxis::Horizontal.code(), 1);
    assert_eq!(SplitAxis::default(), SplitAxis::Vertical);
}

#[test]
fn cut_lists_skip_blank_fields() {
    assert_eq!(parse_cut_list("10, 20,,30 "), Ok(vec![10, 20, 30]));
    assert_eq!(parse_cut_list(" 5"), Ok(vec![5]));
    assert_eq!(parse_cut_list("7,"), Ok(vec![7]));
}

#[test]
fn cut_lists_refuse_bad_or_missing_cuts() {
    assert_eq!(parse_cut_list("10, a b ,x"), Err("Valor inválido de corte: a b".to_string()));
    assert_eq!(parse_cut_list(""), Err("Informe pelo menos um corte".to_string()));
    assert_eq!(parse_cut_list(" , ,"), Err("Informe pelo menos um corte".to_string()));
}

#[test]
fn split_payload_puts_the_axis_first() {
    assert_eq!(split_payload(SplitAxis::Horizontal, &vec![3, 1]), vec![1, 3, 1]);
    assert_eq!(split_payload(SplitAxis::Vertical, &vec![]), vec![0]);
}

#[test]
fn error_messages() {
    assert_eq!(FenrirError::BadPage.message(), "Página inválida");
    assert_eq!(FenrirError::EmptyRegion.message(), "Dimensões inválidas");
    assert_eq!(FenrirError::PointOutside.message(), "Point outside image bounds");
    assert_eq!(FenrirError::AsciiEmptyImage.message(), "Imagem inválida");
    assert_eq!(FenrirError::UnknownMode.message(), "Mode must be one of: RGB, RGBA ou L");
}

#[test]
fn case_insensitive_comparisons() {
    assert!(upper_equals("rGb", "RGB"));
    assert!(!upper_equals("rgbx", "RGB"));
    assert!(lower_equals("HoRiZoNtAl", "horizontal"));
    assert!(!lower_equals("é", "e"));
}

#[test]
fn paint_and_channels() {
    let p = Paint::new((1, 2, 3, 4), 5);
    assert_eq!((p.r, p.g, p.b, p.a, p.gray), (1, 2, 3, 4, 5));
    assert_eq!(ColorMode::Rgb.channel_count(), 3);
    assert_eq!(ColorMode::Rgba.channel_count(), 4);
    assert_eq!(ColorMode::Luma.channel_count(), 1);
}
