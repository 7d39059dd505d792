# vidoc

A codec for images and videos, with its logic verified by Verus.

- Images without loss: every sample is predicted from its neighbours, and what
  the prediction missed is written with a Rice code (`src/lossless`).
- Images with loss: blocks of eight by eight samples, transformed, quantized
  and compressed (`src/lossy/jpg`).
- Videos: groups of frames that are predicted from one another by the motion
  of their blocks (`src/lossy/frame`), written group by group or frame by frame
  (`src/lossy/frame/gop`).

## Layout

- `src/` is the library. Every function states what it returns, and public
  proof functions named `law_...` state what holds of several functions
  together: what is written is read back, frames come in the order in which
  they are shown, and nothing is lost where nothing is quantized.
- `app/` holds what is floating point (the cosine transform, the colours, the
  quantization of coefficients) and what reads and writes files. It hands the
  transforms to the library as functions.
- `tests/` runs the library on concrete values.

## What is trusted

The bit streams are those of `bitstream_io`, the entropy coder is `lz4_flex`,
and work is shared between threads by `rayon`. The functions that call them,
in `src/bitstream.rs`, `src/encoders/ans.rs` and `src/parallel.rs`, state what
is believed of each call.
