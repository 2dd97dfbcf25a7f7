# cosmic_text

A verified core of a text layout and editing library, written in Verus.

`src/` holds the library, every function of it proved against its contract:

- `color`, `attrs`: colors, text attributes and attribute spans over byte ranges.
- `strings`: UTF-8 text as characters and bytes, and the string operations edits use.
- `buffer_line`, `text_editor`: lines of text with endings and spans, and an editor
  over them: inserting and deleting text, selections, editing actions, indentation,
  and change records that undo what they recorded.
- `motion`: cursor motions that the text alone decides: by grapheme cluster, by word,
  to either end of a line or of the document.
- `vi`, `vi_event`: vi-mode helpers: selecting what a pair of delimiters or a word
  encloses, searching the lines for a text, finding a character, moving by word; and
  what the vi mode does with each key and each event of its key parser.
- `bidi_para`, `bidi_reorder`, `rich_text`: splitting text into paragraphs as the
  bidirectional algorithm does, resetting separator and trailing whitespace levels and
  reordering a line's level runs for display, and setting lines from styled spans.
- `shape_words`: cutting a span of text into the words shaped one by one, trailing
  whitespace apart.
- `line_cache`: least-recently-used caches of per-line shaping and layout results.
- `font_matches`, `monospace`: ordering the fonts that match the asked attributes;
  the monospace fonts, indexed by the scripts they cover.
- `edit`, `editor`, `layout`, `cached`: actions, cursors, selections, change records,
  layout settings and cached values.
- `rope_text`, `large_file`: rope-backed line storage with line-ending detection.
- `byte_io`, `font_index`: the on-disk font index cache format, written and read back.
- `codepoint_cache`, `fallback`, `fallback_iter`: per-font codepoint support caching,
  the locale choice of CJK fallback fonts, and the search for a font to draw a word
  with over plain values of the matched fonts.
- `render`: glyph pixel conversion.

`app/` holds what stays outside the proofs: reading and writing the font index cache
file, stamping font directories and files, converting faces to and from `fontdb`, and
the vi mode's key loop around `modit`'s key parser.

`tests/` runs the library on concrete values.
