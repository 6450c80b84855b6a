# text_parser

Heading extraction for plain-text, Markdown/Org and EPUB books, the outline
tree built from the headings, and the highlight, note and account rules of
the reader that shows them — written in Verus. Every function of the
library has a contract; those that call `regex`, `epubparse`, `docx_rust`
or a std function Verus does not specify are small wrappers whose contracts
are trusted, and all the others are proved.

Layout:

- `src/text.rs` — character-level string primitives (splitting into lines,
  searching, UTF-8 byte lengths) specified over `Seq<char>`.
- `src/pattern.rs` — regular-expression matching through the `regex` crate.
- `src/format.rs` — `Heading`, `RawStructruedText`, and `transfer2tree`,
  which groups headings into sections, subsections and entries
  (`src/heading_tree.rs` holds the tree type).
- `src/route_parser/` — the plain-text heading finder and the Markdown/Org
  one; `src/parse_text.rs` — the first plain-text finder.
- `src/parse_epub.rs` — EPUB chapters (read by `epubparse`) to headings;
  `src/parse_docx.rs` — Word files (read by `docx_rust`).
- `src/extract.rs` — `ExtractHeadline`, choosing the parser by file name.
- `src/reader/` — the reader's document with highlights and notes, and its
  account state.
- `app/` — the command-line program, reading files, and the egui
  widgets of the reader.
- `tests/` — runtime tests of the library.
