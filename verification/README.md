# LiteArrow

LiteArrow is an Arrow-oriented columnar file format. One file describes one
table; rows are divided into blocks, and every block stores one independently
encoded chunk per column. The schema and the block index live in a footer
near the end of the file, followed by a fixed-size trailer:

```text
+--------+----------+-----+----------+---------------+---------+
| header | block 0  | ... | block N  | file metadata | trailer |
+--------+----------+-----+----------+---------------+---------+
```

## Layout

- `src/` is the library, verified with Verus:
  - `checksum`: CRC-32C of footers.
  - `compression`: the integer algorithms (raw, frame of reference, delta,
    delta of delta) and the size-based selector between them, bit packing,
    boolean run lengths (`rle`) and BCA blocks (`bca`), and XOR packing of
    floating-point words (`xor`).
  - `codec`: the chunk layouts of integer, float, boolean and string columns,
    their validity bytes, and the codec ids.
  - `format`: the footer (file metadata) and the trailer.
  - `reader` / `writer`: every decision of opening and writing a file.
  - `bench`: the benchmark's generated rows, block spans and timing summary.
- `app/` holds what talks to Arrow, to `Read`/`Write` and to the clock: the
  `FileReader` and `FileWriter`, the codecs as trait objects over Arrow
  arrays, the Arrow IPC fallback codec and the benchmark against Parquet.
- `tests/` exercises the library on concrete values.

Each encoder is stated exactly, and its decoder is proved to give back what
it wrote; the reader is proved to find the metadata and every chunk of a file
as the writer laid it out.
