//! Fenrir: an image engine whose pixel operations come with contracts over a model of the image.
//!
//! The library keeps images as plain byte rasters (`raster`), paints and
//! transforms them (`canvas`), renders ASCII previews (`ascii`), models the
//! TIFF reader/writer state (`tiff_file`), and parses the text fields of the
//! interactive viewer (`viewer`).

pub mod color;
pub mod error;
pub mod raster;
pub mod text;
pub mod canvas;
pub mod line;
pub mod sorting;
pub mod split;
pub mod resample;
pub mod ascii;
pub mod tiff_file;
pub mod viewer;
pub mod laws;

use vstd::prelude::*;

verus! {

/// The greeting the Python module answers `hello()` with.
pub fn hello() -> (s: &'static str)
    ensures
        s@ == "Fenrir is alive!"@,
{
    "Fenrir is alive!"
}

} // verus!
