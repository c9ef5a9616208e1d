# rsy

A fast parallel file synchroniser in the manner of `rsync`, written in Verus: what
it decides and computes is stated in contracts and proved.

- `src/` is the verified library.
  - `checksum` rolling and strong sums, block lengths
  - `delta` block sums, the diff against them, and the patch that undoes it
  - `filter` glob patterns, filter rules, sizes
  - `paths` components, cleaning and confining of paths, link targets
  - `flist` the list of files of a tree
  - `local`, `one_file` the decisions of a local sync
  - `wire`, `protocol`, `transfer` the wire format, and the two sides of a transfer
  - `pipeline` options, counts and events of a run
  - `cli`, `transport` the command line and the command that reaches a host
  - `tui` the state behind the terminal display
  - `stream`, `text` readers, writers and text
- `tests/` runs the library on concrete values.
- `app/` is the program around it: arguments, files, pipes and the terminal.

What the library does not prove it takes from a few small functions around other
crates, each with a comment on what it claims: BLAKE3 digests (`checksum`), hash
tables and sets and parallel block sums (`delta`, `local`), little-endian numbers
(`wire`), and `from_utf8_lossy` and `String::push` of the standard library (`text`).
