# Fenrir

An image engine with Python bindings. The pixel logic lives in a library
whose behaviour is specified and proved with Verus; the bindings, file I/O
and the interactive viewer sit around it.

## Layout

- `src/` — the verified library.
  - `raster` — byte rasters (RGB, RGBA, gray) and their model as rows of pixels:
    painting, filling, cropping, rotating, converting between layouts.
  - `canvas` — `FenrirImage`: creation, pixel access, Bresenham lines,
    rectangles, gradients, resize, crop and rotations, with its reported size.
  - `line`, `split`, `sorting` — the line walk, the strip splitter and the
    sorting of cut points.
  - `ascii` — ASCII previews of a gray raster.
  - `resample` — the calls into the `image` crate's resamplers.
  - `tiff_file` — the state of the TIFF reader and of the TIFF writer.
  - `text`, `viewer` — parsing of the viewer's text fields.
  - `laws` — properties that relate several operations (read-back after
    painting, rotations that cancel, crops that read the original).
- `tests/` — tests of the library on concrete images.
- `app/` — the Python module (`pyo3`), image and TIFF decoding and encoding,
  the floating-point color math, the system viewer and the egui viewer.
