# bubblepop

Speech bubble extraction for comics and manga, with its integer core verified by Verus.

- `src/` is the verified library: pixel layouts and their validation (`layout`, `input`),
  image decoding through the `image` crate (`input`), connected-component labelling of the
  model mask (`postprocess`), Moore boundary tracing and outline point selection
  (`contour`), the checks on what the inference runtime reports (`model`), decimal
  rendering for error messages (`text`), and the small option and phase types.
- `app/` is ordinary Rust around it: loading the TensorFlow Lite C runtime with
  `libloading`, reading files, the floating-point stages (letterbox, grayscale
  resampling, scores, Ramer-Douglas-Peucker distances, coordinate mapping), the public
  `BubbleDetector`, and the error type with `Display` from `thiserror`.
- `tests/` runs the library on concrete inputs.

The detector reads its model from `models/model.tflite` when it is created.
