# oxideav_mp4

A verified library for the ISO base media file format (MP4): box headers,
Common Encryption records and cipher plans, file delivery item information,
and a muxer for fragmented files. Recipes turn any bytes into a plan for a
file, a sample to be ciphered, or damage to a file, so that all of it can be
run on arbitrary input.

- `src/` is the library. Its functions are verified by Verus against the
  contracts in their headers; the laws that tie functions together are public
  proof functions whose names start with `law_`.
- `app/` is ordinary Rust around it: reading boxes from a reader, the muxer
  over a seekable output, files made from recipes, conversions to the types of
  `oxideav_core`, and registration.
- `tests/` runs the library.

The library keeps no output of its own. The muxer appends to a buffer what
belongs at the current end of the file, and says at the end what is to be
written elsewhere. What is known of a track besides its packets (its header
and its media box) is handed to the muxer as bytes.

Calls out of the library stand behind functions marked
`#[verifier::external_body]`, each with the contract that the rest relies on:
text decoding of the standard library (`src/text.rs`), rescaling of time
stamps (`src/time.rs`) and codec identifiers (`src/codec_id.rs`) of
`oxideav_core`.
