# pg_deltax

Columnar compression for time-partitioned PostgreSQL tables: the decisions of the
extension as a verified Rust library, and the server glue around it.

- `src/` is the library, verified with Verus but for seven items that stand for
  calls into other crates and the standard library, whose contracts are taken on
  trust: `to_text` in `scan::wire_decode` (`String::from_utf8_lossy`), `read_object`
  in `stats::json` (`serde_json`), and `read_pairs`, `restore_sketch`, `merge_sketch`,
  `estimate_sketch` and the type `Sketch` in `stats::sketch` (`serde_json` and
  `cardinality_estimator`). Their doc comments say what is taken on trust.
  - `segment_file`, `segment_reader`, `segment_catalog`, `segment_laws`, `crc`,
    `bytes`: the segment file format, from blobs to bytes and back.
  - `timeparse`, `calendar`, `decimal`, `trim`: timestamps, dates and times of day
    as text. `timeparse_laws`, `timeparse_forms` and `timeparse_order` say how
    reading and writing relate.
  - `scan`: which scans and aggregates of a query the extension takes over, how
    they are described to the executor, and how JSON extraction chains are served
    from extracted columns. Expressions and plans are plain values.
  - `stats`: histograms, most common values, distinct counts and sizes of
    partitions and tables.
- `tests/` runs the library on concrete values.
- `app/` is the PostgreSQL side: hooks, catalog access, files, the clock and
  floating-point costs. It turns the server's nodes into the library's values and
  the library's answers into paths, plans and catalog rows.
