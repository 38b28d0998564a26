# tiff-reducer

Re-encodes TIFF files with high-efficiency codecs (Zstd, LZMA, Deflate,
JPEG-XL, WebP, JPEG), optionally quantizing samples to 8 bits, and wipes
image content into synthetic, highly compressible data that keeps each
channel's histogram.

The library in `src/` holds the logic, verified with Verus:

- `tiff`: numeric identifiers of the format and the libtiff handle type.
- `sample`, `sorting`, `pixels`: samples as bytes, their ordering keys, and
  interleaved channels.
- `wipe`, `histogram`, `wipe_page`: wiping by sorting each channel, the
  streaming histogram strategy that produces the same bytes (samples in the
  machine's byte order), and the layout
  and settings of a wiped page.
- `quantize`: min-max quantization of 16-bit rows,
  `(v - min) * 255 / (max - min)` rounded down.
- `rounding`: the 64-bit float roundings of the report's figures, stated on
  integers.
- `plan`, `ifd`, `tiles`, `tags`: choice of codec and predictor, output
  fields of a page, tiled planes, and the limits applied to copied tags.
- `batch`: input files, output targets, safe file names, progress.
- `report`, `test_images`: the Markdown test report and the images it
  leaves out.

`app/` is the command-line tool around it: argument parsing, libtiff calls,
files, progress bars and parallel work.
