# tok

`tok` counts OpenAI (tiktoken) tokens in files, directories and stdin, and
reports them as a table, JSON, CSV or TSV, per file or per extension.

The library under `src/` is written in Verus and verified:

- `text.rs`: string building blocks and decimal digits.
- `numfmt.rs`: digit grouping (`12,345`), plurals and byte sizes (`1.5 KiB`,
  with the rounding of one-decimal float formatting modelled on integers).
- `paths.rs`: display paths, `--ext` normalisation and path extensions with
  the semantics of `Path::extension`.
- `encoding.rs`: resolving `--model` / `--encoding` into a tiktoken vocabulary,
  encoding (which reports tiktoken's errors instead of panicking), decoding,
  and the model table. The calls into `tiktoken-rs` sit behind small trusted
  wrappers whose contracts name what they return.
- `vocabulary.rs`: a tiktoken vocabulary kept together with the encoding it
  was loaded for, and the trusted calls that read it.
- `count.rs`: per-input statistics, binary detection, line counting, the
  report, and grouping by extension (totals are preserved).
- `rows.rs`: `--top` (the largest rows by tokens, or bytes under
  `--sort size`), the stable sort and `--reverse`; the shown rows and the
  hidden tokens add up to the report's total, and the arrangement is unique.
- `output.rs`: CSV/TSV quoting (which reads back), delimited lines, table
  column widths and cell alignment, `--limit` and the model listing.
- `input.rs`: the collection plan (`--text` wins, `-` reads stdin once) and
  the `--ext` filter.
- `show.rs`: token ids as text and back, decoding, and UTF-8-safe token runs
  for `--show`.

`app/` holds the command line program around the library: argument parsing
with clap, reading files and stdin, walking directories with `ignore`,
counting on a rayon pool, colours, JSON, and the float-based context share
and bars.

`tests/` exercises the library on concrete values.
