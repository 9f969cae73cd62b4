# csvtools

Tools for CSV data, verified with Verus.

- `src/csv/grammar.rs` — the byte-level grammar of a record (how it splits
  into fields, how a quoted field is unescaped, where a line ends), as spec
  functions, with the executable scanners proved against them.
- `src/csv/read.rs` — reading records (`read_record`, `ByteReader`) and the
  fields of a record (`Record`, `RecordIter`, `Field`).
- `src/csv/write.rs` — writing a value as a quoted field.
- `src/csv/error.rs` — errors and their messages.
- `src/csv/columns.rs` — finding a column by its header name and writing
  the chosen columns of a record.
- `src/csv/laws.rs` — what holds across reading and writing: quoted values
  read back as written, fields write back to the text they were read from,
  a file read takes one record and its line end.
- `src/lib.rs` — `File`, which reads a CSV file record by record, and its
  `Record`, `RecordIter` and `Field`.
- `src/common/argparse` — a lexer and a parser of command-line arguments;
  `src/argparse` — the argument iterator and flag declarations.
- `src/text.rs` — decimal and hexadecimal text, and the calls into std that
  turn bytes and I/O errors into text and print a line.
- `app/` — the command-line tools `csvedit` and `csvmap`: argument handling,
  reading the input, running commands and writing the output; the choice of
  columns and the writing of records go through `src/csv/columns.rs`.

The library reads from bytes in memory; the tools read their input first
and hand it over.
