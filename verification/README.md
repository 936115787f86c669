# fast-thumbhash

An encoder and decoder for [ThumbHash](https://evanw.github.io/thumbhash/), a compact image
placeholder, with a base 91 text form, verified with Verus.

- `src/` is the library. The codec is generic over the `Arithmetic` trait, whose operations carry
  no promises. Contracts speak of a `Model` of them: for every model that describes an arithmetic,
  the result of a function is the one that the model gives. An arithmetic has such a model where
  its operations are functions of their arguments.
- `src/laws.rs` holds what is true in every arithmetic: what is written can be read, which
  coefficients are stored and in which order, and how long a hash is.
- `src/exact.rs`, `src/fidelity.rs`, `src/accuracy.rs`, `src/solid.rs`, `src/symmetry.rs` and
  `src/transparency.rs` hold what is true in exact arithmetic: the cosine recurrence gives
  cosines, the separable transforms give the two-dimensional ones, everything that a hash records
  fits into its bits, average colours are read back up to `4 / 189`, an image of one colour whose
  sides are long enough for the frequencies of its transform comes back as that colour,
  coefficients follow samples that are scaled, negated or transposed, and the colours of wholly
  transparent pixels leave no trace.
- `src/formulas.rs` gives a ThumbHash in formulas over the real numbers, with two-dimensional sums
  of cosines, and proves that the codec computes just these in exact arithmetic.
- `src/rounded.rs` says what it is to round as floating point with 24 significant bits does, and
  the other files whose names begin with `rounded` hold what is true then: cosines, channel values,
  coefficients and decoded pixels are off by little, the hash of every image without an empty side
  is complete, its header and alpha byte are read back and are at most one step off the formulas,
  its nibbles are read back unless a scale is vanishingly small, its average colour is within
  `22 / 1000` of that of the image and its aspect ratio within one component, an image of one
  colour whose sides are long enough comes back up to 6 in 255, and coefficients follow samples
  that are doubled, negated or transposed.
- `app/` supplies single-precision floating point and the functions that work with it.
- `tests/` runs the codec in single and double precision, alone and against the `thumbhash` crate.
