# rereader

A terminal ebook reader (EPUB and MOBI) that remembers where you left off,
with its core written in Verus and proved against its contracts.

- `src/` — the verified library:
  - `text` — Unicode whitespace, trimming, lines, words, collapsing blank lines;
  - `wrap` — word wrapping by displayed width (unicode-width);
  - `html` — heading and block-aware body text of (X)HTML documents (scraper);
  - `reader` — books as chapters (EPUB spine documents, MOBI split at
    `h1`–`h3`), chapter navigation;
  - `state` — saved reading positions, one per book;
  - `app` — the reading session: keys, scrolling, saving and restoring the
    position.
- `app/` — the program around it: command line, terminal, drawing, reading
  ebook files and the progress file (`~/.config/rereader/progress.json`).
- `tests/` — tests of the library on concrete values.
