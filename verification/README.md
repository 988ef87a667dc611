# screenshot

The core of a desktop screenshot tool, written in Verus: region capture over
per-monitor snapshots, scroll stitching of long captures, mosaic and marker
drawing on RGBA images, and PNG data URL framing.

- `src/raster.rs`: the RGBA image type and its model as rows of pixels.
- `src/stitch.rs`: the scroll stitcher, its seam blend and its limits.
- `src/search.rs`: which scroll shifts are tried, refined and kept.
- `src/annotate.rs`: colour parsing, filled discs and the mosaic filter.
- `src/codec.rs`: base64, PNG and JPEG data URLs, through the `base64` and `image` crates.
- `src/capture.rs`: capture sessions, region cropping and the long-capture state machine.
- `src/shell.rs`: shortcut, tray and overlay-window naming rules.
- `app/`: the desktop shell around the library (windows, monitors, clipboard,
  files, and the floating-point geometry of annotations and shift search).

Limits: decoding an image from a data URL relies on the `image` crate's
decoders for every format it reads by default; that they answer malformed
input with an error rather than a panic is that crate's intent and is not
established here. The PNG round trip (a non-empty image written as a PNG
data URL reads back as the same image) is stated for images whose pixels
take at most 512 MiB, the decoder's default allocation limit.
