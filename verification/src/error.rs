use vstd::prelude::*;

verus! {

/// Every way a request to the library can be refused. Each variant stands
/// for one rejected input; `message` gives the text reported for it.
#[derive(Clone, Copy, Debug, PartialEq, Eq, Structural)]
pub enum FenrirError {
    /// A new image was asked for with a zero width or height.
    EmptyImage,
    /// The mode is none of RGB, RGBA, L.
    UnknownMode,
    /// A point lies outside the image.
    PointOutside,
    /// A rectangle has a zero width or height.
    EmptyRect,
    /// A rectangle starts outside the image.
    RectOriginOutside,
    /// `x + w` does not fit in 32 bits.
    RectWidthOverflow,
    /// `y + h` does not fit in 32 bits.
    RectHeightOverflow,
    /// A rectangle reaches past the image's edge.
    RectTooLarge,
    /// A resize to a zero width or height.
    EmptyResize,
    /// A split request without an axis and at least one cut.
    SplitTooShort,
    /// A split axis other than 0 or 1.
    SplitBadAxis,
    /// A line endpoint lies outside the image.
    LineOutside,
    /// A gradient direction other than horizontal or vertical.
    BadDirection,
    /// An ASCII rendering zero characters wide.
    AsciiZeroWidth,
    /// An ASCII rendering of an image with no pixels.
    AsciiEmptyImage,
    /// A file whose extension is neither .tif nor .tiff.
    NotTiff,
    /// A page index past the last page.
    BadPage,
    /// A region whose origin lies outside the TIFF image.
    RegionOutside,
    /// A region with a zero width or height.
    EmptyRegion,
    /// A TIFF writer with a zero width or height.
    EmptyWriter,
    /// A TIFF writer pixel outside its canvas.
    WriterPixelOutside,
}

/// The text reported for each error.
pub open spec fn error_text(e: FenrirError) -> Seq<char> {
    match e {
        FenrirError::EmptyImage => "Image dimensions must be greater than zero"@,
        FenrirError::UnknownMode => "Mode must be one of: RGB, RGBA ou L"@,
        FenrirError::PointOutside => "Point outside image bounds"@,
        FenrirError::EmptyRect => "Rectangle width and height must be greater than zero"@,
        FenrirError::RectOriginOutside => "Rectangle origin outside the image bounds"@,
        FenrirError::RectWidthOverflow => "Rectangle width overflow"@,
        FenrirError::RectHeightOverflow => "Rectangle height overflow"@,
        FenrirError::RectTooLarge => "Rectangle exceeds image dimensions"@,
        FenrirError::EmptyResize => "Resize dimensions must be greater than zero"@,
        FenrirError::SplitTooShort => "Split requires at least the axis and one cut point"@,
        FenrirError::SplitBadAxis => "First value must be 0 (vertical) ou 1 (horizontal)"@,
        FenrirError::LineOutside => "Line endpoints must be inside the image bounds"@,
        FenrirError::BadDirection => "Direction must be 'horizontal' or 'vertical'"@,
        FenrirError::AsciiZeroWidth => "Width must be greater than zero"@,
        FenrirError::AsciiEmptyImage => "Imagem inv\u{e1}lida"@,
        FenrirError::NotTiff => "Arquivo deve ser TIFF (.tif ou .tiff)"@,
        FenrirError::BadPage => "P\u{e1}gina inv\u{e1}lida"@,
        FenrirError::RegionOutside => "Coordenadas fora dos limites"@,
        FenrirError::EmptyRegion => "Dimens\u{f5}es inv\u{e1}lidas"@,
        FenrirError::EmptyWriter => "Dimens\u{f5}es devem ser maiores que zero"@,
        FenrirError::WriterPixelOutside => "Pixel fora dos limites"@,
    }
}

impl FenrirError {
    /// The text that accompanies the error.
    pub fn message(&self) -> (m: String)
        ensures
            m@ == error_text(*self),
    {
        match self {
            FenrirError::EmptyImage => String::from_str("Image dimensions must be greater than zero"),
            FenrirError::UnknownMode => String::from_str("Mode must be one of: RGB, RGBA ou L"),
            FenrirError::PointOutside => String::from_str("Point outside image bounds"),
            FenrirError::EmptyRect => String::from_str(
                "Rectangle width and height must be greater than zero",
            ),
            FenrirError::RectOriginOutside => String::from_str(
                "Rectangle origin outside the image bounds",
            ),
            FenrirError::RectWidthOverflow => String::from_str("Rectangle width overflow"),
            FenrirError::RectHeightOverflow => String::from_str("Rectangle height overflow"),
            FenrirError::RectTooLarge => String::from_str("Rectangle exceeds image dimensions"),
            FenrirError::EmptyResize => String::from_str(
                "Resize dimensions must be greater than zero",
            ),
            FenrirError::SplitTooShort => String::from_str(
                "Split requires at least the axis and one cut point",
            ),
            FenrirError::SplitBadAxis => String::from_str(
                "First value must be 0 (vertical) ou 1 (horizontal)",
            ),
            FenrirError::LineOutside => String::from_str(
                "Line endpoints must be inside the image bounds",
            ),
            FenrirError::BadDirection => String::from_str(
                "Direction must be 'horizontal' or 'vertical'",
            ),
            FenrirError::AsciiZeroWidth => String::from_str("Width must be greater than zero"),
            FenrirError::AsciiEmptyImage => String::from_str("Imagem inv\u{e1}lida"),
            FenrirError::NotTiff => String::from_str("Arquivo deve ser TIFF (.tif ou .tiff)"),
            FenrirError::BadPage => String::from_str("P\u{e1}gina inv\u{e1}lida"),
            FenrirError::RegionOutside => String::from_str("Coordenadas fora dos limites"),
            FenrirError::EmptyRegion => String::from_str("Dimens\u{f5}es inv\u{e1}lidas"),
            FenrirError::EmptyWriter => String::from_str("Dimens\u{f5}es devem ser maiores que zero"),
            FenrirError::WriterPixelOutside => String::from_str("Pixel fora dos limites"),
        }
    }
}

} // verus!
