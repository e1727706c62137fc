# vfd

`vfd` builds the static site of book reviews at books.alexwlchan.net from a
folder of Markdown reviews with YAML front matter, their cover images, static
files and Tera templates.

- `src/` is the library, verified with Verus: the ordering of reviews on the
  site, tag autocompletion, slugs, star ratings and dates, hex colours and
  favicon tinting, the splitting of review files, which pages to rebuild or
  remove, and the answers given while adding a review.  Calls into outside
  crates (Markdown rendering, transliteration, URL parsing, HTML minification,
  colour parsing, percent-encoding) go through small trusted wrappers whose
  contracts say what is assumed of them.
- `app/` is the command-line program around it: argument handling, file and
  network I/O, templates, images, the interactive prompts and the local
  server.
- `tests/` runs the library on concrete values.
