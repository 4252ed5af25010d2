# diarization

Tells who spoke when in a recorded meeting, and which speaker said each line of its
transcript.

- `src/` is the library, verified with Verus: cutting the recording into windows,
  bringing together what the segmentation model says of every frame, finding runs of
  speech, making voice prints, grouping them by average linkage on the cosine
  distance, joining segments, aligning a transcript, and deciding what a model
  download and a run over a meeting do next.
- `tests/` runs the library on concrete values.
- `app/` holds what surrounds the library: ONNX sessions, the filter bank, downloads,
  the database, and the commands of the application.

The library is generic in its numbers. It uses their operators only, and its contracts
say what comes out in terms of these operators, in the order in which they are applied.
For integers Verus knows what the operators do; for floating-point numbers, which the
application uses, it takes as given that an operator returns the same for the same
operands. The models, the filter bank, the exponential function, the square root, the
scalar product and the conversions between numbers and counts are functions that the
caller hands in. Contracts hold for every answer of the models and the filter bank that
can be worked on: `fits` asks that an answer holds the numbers that its shape promises,
that frames can be counted, and that arithmetic on it stays within the number type.

The one call into another crate is `ndarray`'s check that numbers fit a shape, in
`src/tensor.rs`.
