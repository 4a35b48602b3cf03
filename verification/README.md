# pbdems2

Game-neutral parsing infrastructure for Valve Source 2 demo files
(`PBDEMS2`), written in Verus. The library's functions carry contracts
that Verus proves; the calls into `snap` (Snappy decompression),
`rustc-hash` (the class indexes) and the parts of `std` that Verus has no
specification for (lossy UTF-8 conversion, I/O error text) go through a
handful of trusted wrappers in `snappy.rs`, `entity/class_info.rs`,
`text.rs` and `error.rs`, whose contracts restate what those functions
document.

## Layout

- `src/` — the verified library
  - `demo/` — the file header, command framing, the command iterator,
    body decompression and the seek index
  - `packet.rs` — framing of the messages inside a packet payload
  - `io/` — bit and byte readers, and a bit writer for the same encodings
    (with round-trip laws)
  - `entity/` — string tables, class information, field metadata dispatch
    and the decoding of field values that need no floating point
  - `inspect.rs`, `render.rs` — whole-file inspection and its text views
  - `snappy.rs` — the Snappy decompression the format uses, through the
    `snap` crate, under decode limits
  - `alloc_probe.rs` — allocation accounting by caller stage
  - `capture.rs` — counts of field-path operations and a fixed-size
    uniform sample of path lists, as text records
  - `fixtures.rs`, `path_records.rs` — deterministic synthetic inputs and
    recorded field-path lists for measuring the decoders
  - `limits.rs`, `error.rs`, `text.rs`, `chars.rs` — limits, errors and text
    helpers
- `tests/` — tests run against the compiled library
- `app/` — the command-line program: memory-mapped input, JSON output,
  error display, and the process-wide allocator hook
