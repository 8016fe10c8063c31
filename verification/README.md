# parser_chunker

A document parser and chunker: it reads text, Markdown, XML, HTML, CSV/TSV,
DOCX, PPTX, XLSX, RTF, EML, MSG, PDF and image files into typed blocks, and
splits those blocks into chunks by structure, by title, by page or by a fixed
token budget, for JSON, JSONL, Parquet, Markdown or Unstructured-style output.

## Layout

- `src/` is the library, written in Verus. Every function there carries a
  contract (`requires` / `ensures`) over mathematical models of the blocks,
  chunks, tables and settings, and Verus proves the bodies against them.
  - `model.rs`: blocks, chunks, tables and their views.
  - `format/`: format detection and the parsers, each a function from bytes
    (or from the values an outside parser hands back) to blocks.
  - `chunking/`: the four chunking strategies, with the laws they keep: by
    structure, by title and by page, the chunks' source ranges partition the
    blocks in order; chunk numbering, overlap prefixes, one page per page
    chunk; fixed-size windows numbered in order within a size bound.
  - `config.rs`, `cli.rs`: settings, their merge and validation, argument files.
  - `output/`: Markdown rendering, Unstructured-style elements, Parquet columns.
  - `vision/`: table-structure decoding (OTSL), CTC decoding and the
    connected regions of a detection mask.
  - `orchestrator.rs`: routing a file to its parser, vision triage, exit codes.
  - `sbom.rs`: reading `Cargo.lock` and writing a CycloneDX document.
  Calls into outside crates (zip, quick-xml, scraper, csv, mail-parser, cfb,
  encoding_rs, bpe-openai) stand behind small trusted wrappers whose contracts
  are stated in their doc comments.
- `app/` is the command-line program around the library: argument parsing,
  file and model I/O, PDF layout and OCR (floating point), serde records and
  the output writers.
- `tests/` runs the library on concrete inputs.
