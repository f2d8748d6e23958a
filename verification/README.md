# oxideav-huffyuv

A lossless video codec: HuffYUV (`HFYU`) and FFVHuff (`FFVH`) streams of 8-bit
YUY2, RGB24 and RGB32 frames. The library in `src/` is written in Verus; the
contract of every function is proved, and so is that decoding gives back what was
encoded (`src/lossless.rs`).

- `header`, `strf`, `avi`, `extradata`: stream headers, AVI files and codec-private
  data.
- `bits`, `bitio`, `bitreader`, `bitwriter`: bit streams.
- `rle`, `rle_encode`, `tables`, `canonical`, `classic`, `v1x`, `huffman`: length
  tables and codebooks.
- `code_lengths`, `package_merge`, `length_builder`, `joining_cost`, `cost`: code
  lengths for histograms, and what they cost.
- `predict`, `predictor`, `layout`, `residuals`: prediction, and the order of
  residuals on the wire.
- `decoder`, `encoder`, `emit`, `lossless`: frames.
- `registry`: encoders and decoders of whole streams.

`app/` connects the streams to the `oxideav-core` framework. `tests/` runs the
library on concrete inputs.
