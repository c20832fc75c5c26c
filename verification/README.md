# imatree

Generate a PNG of whatever string you want: the caption is wrapped and scaled
to fill the canvas.

The library in `src/` is verified with Verus:

- `domain`: captions (never blank), canvas sizes and font sizes (never zero),
  colours read through `text_to_png`, backgrounds, text styles and image
  specifications, each with a contract that says exactly when it is accepted.
- `naming`: the PNG file name derived from a caption (lowercased, each run of
  non-alphanumeric characters between words collapsed to one `_`, none at
  either end, `image` when nothing is left), with the proofs that every
  derived stem is safe and that deriving a name again from its stem changes
  nothing wherever each alphanumeric character of the lowered caption is its
  own lowercase and not white space (always so for ASCII captions).
- `layout`: the greedy wrapping of words into lines, line widths, and the
  texts of the lines, with proofs that the wrapping is determined by its
  inputs, loses or splits no word, and never gives more lines for more room.
- `text`: characters, trimming and word splitting over Unicode white space.
- `renderer` and `error`: the calls into `text_to_png` (colours) and `image`
  (the blank canvas), and the error types.

`app/` holds the command line (`clap`, `anyhow`), the error messages
(`thiserror`), and the floating-point part of laying out and drawing the
caption (`text_to_png`, `image`).
