# print_junk

Verified building blocks of a small print shop: flashcard decks and a
text-to-Typst converter.

- `src/` is the library, checked by Verus. Flashcards: reading cards from
  CSV/TSV text (`records`), mapping table columns to card sides (`table`),
  layout checks (`options`), sheet counts and the page plan of a deck
  (`summary`), and the glyph list, text encoding and `ToUnicode` map a PDF
  font needs (`fonts`). Typesetting (`typeset`): page-break rules, plain text,
  HTML and Markdown to Typst markup, Markdown import with image assets and a
  heading outline, and the proof that each outline entry points at its
  heading, offsets in increasing order, for every input whose heading levels
  are 1 to 6 and whose byte offsets fit in `usize` (`typeset::sections`). `views` holds the decisions behind the
  editor's views.
- `app/` is ordinary Rust around it: millimetre geometry in floating point,
  JSON layouts and decks, reading CSV files, and writing the PDF.
- `tests/` exercises the library.
