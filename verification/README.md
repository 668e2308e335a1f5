# flodown

A Markdown to HTML converter with the extensions of FTML documents (front matter,
custom inline elements `@[label](args)`, custom blocks `::label args`, math), written
in Verus: the scanners, the tokenizer and the converter are proved against their
specifications.

- `src/text.rs`, `src/sourcerefs.rs`: characters, white space, UTF-8 lengths, and
  source positions (`()` or byte offsets).
- `src/strings.rs`, `src/parsesource.rs`: `ParseStr`, a scanner over a string slice,
  and the `ParseSource` / `Str` interfaces.
- `src/io.rs`: `ParseReader`, a scanner over a source of bytes that it reads as it goes.
- `src/blocks.rs`: the byte-level tests for list items, footnotes and tables.
- `src/tokenizer.rs`: `MarkdownTokenizer`, specified step by step by `next_spec`.
- `src/progress.rs`: why the tokenizer ends: each token but a table start lowers a
  measure of what is left, and a table start repeats forever.
- `src/html.rs`: the HTML converter and the `Options` hooks, specified by `step_spec`
  and `run_spec`, with the laws it keeps; `conversion_ends` and the `try_*` entry
  points decide whether a conversion ends before running it.
- `src/custom.rs`: the arguments of the FTML symbol, definiendum and definition
  elements.
- `src/outside.rs`: the calls into `url`, `html-escape`, `smallvec` and `serde_yml`,
  each behind a trusted item.
- `app/lib.rs`: the FTML options (symbol tables from the front matter), the
  `to_html` entry points that use them, and a byte source over `std::io::Read`.
