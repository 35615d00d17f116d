# duster

A disk usage analyzer: it walks a directory tree and shows what takes up
space, as a tree with sizes, bars and percentages.

- `src/` is the verified library. `walk.rs` models a pre-order walk of a
  directory tree and defines sizes, children and their order over it;
  `tree.rs` builds the entry tree from a walk (`scan_walk`); `display.rs`
  decides which entries are shown and how the tree is drawn; `units.rs` picks
  the unit a size is written in; `size_text.rs` reads a size threshold such as
  `10MB`; `laws.rs` proves what holds of every scan.
- `app/` is the command-line program: it walks the file system, reads the
  arguments, and prints the lines that the library lays out.
- `tests/` runs the library on concrete walks.
