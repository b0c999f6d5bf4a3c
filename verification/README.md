# dirty_delta

Incremental memory checkpoints of a paused virtual machine, verified with Verus.

- `src/` is the verified library: reading dirty guest blocks, dropping those
  whose hash is unchanged, packing the rest as XOR deltas against the previous
  checkpoint or a golden image, and placing device mappings on huge-page
  boundaries.
- `src/laws.rs` states what the operations promise together. The blob of an
  export decodes to the blocks that were read. A chain of exports restores the
  memory it was taken from, provided that the dirty ranges are block-aligned and
  cover every change, and that no block has changed to a content with the same
  hash.
- `src/aligned.rs` states what more holds of block-aligned dirty ranges: which
  blocks are exported, each once, and how many.
- `src/trusted.rs` holds the contracts of the xxh3 hash and the LZ4 frame
  encoder, which are believed, not proved.
- `app/` opens files, maps memory, logs and serializes around the library.
- `tests/` runs the library against the real hash and compressor.
