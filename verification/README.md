# cocoa-archive

Builds macOS Cocoa keyed archives (`NSKeyedArchiver` property lists) of
`NSColor` and `NSFont` objects, in binary or base64-encoded binary form.

## Layout

- `src/` — the verified library (Verus):
  - `serializer.rs`: archive values and key-value stores with their
    mathematical models, value equality, interning of objects, and the
    construction of the `$objects` / `$top` layout of an archive;
  - `object.rs`: the archivable classes and their class hierarchies;
  - `archiver.rs`: archive formats, archive targets and the archive root,
    with the proved layout of every archive;
  - `b64.rs`, `b64/encoder.rs`, `b64/writer.rs`, `writer.rs`: base64 encoding,
    one-shot and streaming, with the proof that streaming in any split gives
    the one-shot encoding;
  - `cli.rs`: the generic command-line arguments and the output format rule.
- `app/` — the command-line tool: argument parsing (colors and sizes are
  floats), the property list encoding through the `plist` crate, and output.
- `tests/` — tests of the library, including an end-to-end check of the
  property lists produced with `plist`.
