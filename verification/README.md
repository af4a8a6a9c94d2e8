# cnn_core

A small convolutional network that recognises handwritten digits (MNIST),
with a window to draw a digit and watch the feature maps.

- `src/` is the library, verified with Verus:
  - `tensor`: the row-major tensor layout, the IEEE-754 order of
    single-precision values held as bit patterns, arg-max, the xorshift64*
    generator and Fisher–Yates shuffling;
  - `layers`: 2 × 2 max pooling (forward and gradient routing), convolution
    index geometry, ReLU;
  - `weights`: the weights file format (`CNN1` then little-endian weights);
  - `mnist`: gzip decompression (through `flate2`), the IDX container format,
    and the bounding box and placement that centre a drawing.
- `app/` holds the floating-point layers, training, file I/O and the
  `macroquad` window.
- `tests/` exercises the library.
