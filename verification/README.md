# martes

A command-line converter from Markdown to HTML, written as a Verus library
with a thin program around it.

- `src/` is the verified library:
  - `text`: string helpers.
  - `markdown`: the block and inline types and the document.
  - `markdown::parser`: the block parser, with its openers and continuers.
  - `html::renderer`: the HTML of parsed blocks.
  - `config`: the paths and their extensions.
  - `converter`: Markdown text to HTML.

  Each public function states its result over a mathematical model. The
  laws (parsing never fails, no leaf block holds an open block, line
  endings do not change the document, ...) are public proof functions.
- `tests/` runs the library on concrete inputs.
- `app/` is the program: it reads the arguments and the input file, and
  writes the HTML file.
