# pdfrust

A PDF parser whose reading of files is verified with Verus.

- `src/` is the library. Each layer states what it reads as spec functions
  over byte sequences, and each executable function is proved against them:
  - `tokenizer`, `lemmatizer`: the lexical grammar (`lex`, `lem`);
  - `object`: objects, dictionaries, arrays and streams (`parse_object`);
  - `xref`: cross-reference tables and streams, `startxref`, and the offsets
    of indirect objects (`fixed_offset`, `object_offset`);
  - `trailer`, `info`, `body`: the trailer, the information dictionary, and
    the document structure (catalog, page tree, pages, resources, fonts);
  - `cmap`: ToUnicode CMaps;
  - `content`: content stream instructions (`scan`) and the text they show
    (`text_from`);
  - `filters`: FlateDecode, through `flate2`;
  - `lib.rs`: opening a document, resolving references, walking the page tree
    and extracting the text of each page.
- `app/` is the command line program: it reads the file, and computes the
  positions of characters (`--chars`), which need floating-point arithmetic.
- `tests/` runs the library on concrete documents.

Usage: `pdfrust [--text|--chars|--raw-content|--font] <file>.pdf`.
