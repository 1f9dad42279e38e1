# inksmash

Compresses Inkscape `.svg` documents that embed base64 images: PNG and JPEG
images are recompressed as lossy WebP, images that are already AVIF or WebP are
kept, and a `.min.svg` copy of the document is written.

- `src/` is the verified library: finding and cleaning the embedded image data
  on a line (`inks`), the image kinds and the recompression pipeline (`img`),
  output file names (`names`, `document`), putting the document back in order
  (`document`), size reports (`size`), identifiers (`id`) and string helpers
  (`text`).
- `app/` is the command-line program: argument parsing, file reading and
  writing, parallel processing of the lines, printing.
- `tests/` runs the library on concrete inputs.
