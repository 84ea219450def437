# gqodb

Exact integer block codecs for market data, checked framing for native blocks and
segment files, and event-time assessment, verified with Verus.

- `src/` is the verified library. Every public function states what it returns, and on
  which inputs it refuses, over spec functions of its own. The codecs (`block`,
  `adaptive`, `book`) state that a block decodes back to the columns it was encoded from;
  the proofs of those laws are in `block_roundtrip`, `adaptive_roundtrip` and
  `book_roundtrip`. `segment`, `index`, `limits`, `native` and `schema` hold the file
  formats, index checks, query planning and row selection, and the bounds checked before
  decoding, read from each block's own schema metadata; `recovery` the decisions of a scan
  that rebuilds a segment's blocks without its index; `dictionary` the dictionary encoding of
  string columns; `market` exact decimals and the projection of book events into level
  rows; `parquet_file` the reading of Parquet files of the fixed schema with their checks;
  `real_layout` the checks a real block's layout and columns pass before its Arrow arrays
  are rebuilt; and `timing` the clock-evidence rules. The calls into outside crates
  (CRC-32, LZ4, SIMD bit packing, SHA-256, the Parquet reader, the JSON reading of block
  metadata) are in `wrappers`, each with the contract the proofs rely on.
- `tests/` runs the library on concrete values.
- `app/` is the command-line program: file and feed I/O, JSON, Arrow and Parquet
  conversion, threads, the floating-point normalization of real batches and the benchmark
  runner. It calls the library for the codecs, the framing, index and bound checks, query
  row selection, recovery decisions, the feed projection, reading Parquet files of the
  fixed schema, string dictionaries and the layout checks of real batches; building Arrow
  arrays, writing Parquet files and reading real batches of arbitrary Arrow types stay in
  `app/`.
