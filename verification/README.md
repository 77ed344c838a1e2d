# streamtune

The core of a small music library, verified with Verus.

- `src/varint.rs`, `src/wire.rs`: protobuf varints and fields.
- `src/records.rs`: the stored records (track metadata, playlists,
  equaliser settings) in protobuf's wire format, length-delimited.
- `src/faults.rs`: why a stored record does not decode, described as
  protobuf decoders describe it; the error messages quote it.
- `src/store.rs`: the key-value store and its snapshot format.
- `src/app_state.rs`: the library's operations on the store.
- `src/effects.rs`, `src/tracks.rs`: rules for DSP effects and for
  importing tracks.
- `src/export.rs`: which files an album or playlist export writes.
- `src/text.rs`: UTF-8 and string helpers.

`app/` holds what cannot be verified: file I/O, audio decoding and Opus
encoding, the floating-point DSP graph, and the export command line.
