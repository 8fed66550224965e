# mixlyzer

Analysis of DJ tracks: tempo and beatgrid, key, repeats that one can jump
between, phrases, and the documents that DJ software reads.

- `src/` is the library. Every function states what it returns, and every body
  is verified but for those below.
  - `number`: IEEE 754 numbers as bit patterns, with exact contracts.
  - `domain`: tracks, keys, segments, beatgrids, cues, phrases, configuration.
  - `analyze`: audio, envelopes, onsets, tempo, keys, repeats, the pipeline.
  - `detect`: spectral features, the phrase model and its decoding.
  - `export`: XML documents for rekordbox.
  - `cli`, `shell`: arguments, rendering, and what the window decides.
  - Trusted: thirteen small functions whose body is one call into another crate
    or the standard library, and three contracts for functions of theirs. Each
    says in its doc comment what is claimed of the call. They cover inflating
    zip members, reading JSON, uuids, percent-encoding, upper and lower case,
    letters, lossy UTF-8, and appending to a string.
- `tests/` runs the library on concrete values.
- `app/` is the program: files, audio decoding, Fourier transforms, and the
  sines, logarithms and exponentials that the library takes as arguments.
