# OxideSeeker

Finds PDF and Adobe Illustrator files by a screenshot of one of their pages. Pages are
rendered and described by vectors of the whole page and of overlapping tiles, by
perceptual hashes and by the text that is read on them; a search merges all three.

## Layout

- `src/` is the library, verified with Verus: what is indexed and when, the tiles of a
  page, the protocol and the states of the worker processes, the books of the vector
  index, the table of hashes, the merging and ranking of candidates, the full-text
  expressions, the license, the settings and what the request handlers decide. Functions
  state in `ensures` what they return; laws that hold of several functions together are
  public proof functions beside them.
- `app/` is the program around it: files, the database, the model sessions, PDF
  rendering, the graph of the vector index, the web server, and the arithmetic on
  floating-point numbers.
- `tests/` runs the library on concrete values.

Single-precision numbers appear in the library by their bits (`float32::Float32`), which
it compares, copies and stores but never adds up. Images are rows of red, green, blue and
alpha (`embedder::pixels::PixelImage`).

What the library calls in other crates stands in small functions marked
`#[verifier::external_body]`, whose comments say what is taken on trust.
