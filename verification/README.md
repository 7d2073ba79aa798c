# crossgrid

A verified library for the shape of a crossword grid: black squares,
180-degree symmetry, cell numbering, word slots, the letters in white cells,
`.puz` file reading, and symmetric layout generation. Every function in
`src/` carries a contract that Verus proves, except one trusted wrapper:
`push_char` in `src/text.rs`, whose contract (std's `String::push` appends
the character) Verus takes on trust.

- `src/grid.rs`: `Cell`, `Grid` and its model `GridView`; building a grid
  from rows or from the text format (`#` black, a letter a filled white
  square, anything else an empty white square; blank lines skipped), with
  laws that parsing reads only the non-blank lines and that writing a grid
  out and parsing it back gives the same grid.
- `src/numbering.rs`: the standard numbering, the word slots, and the laws
  that tie them together (every slot is a maximal run of two or more white
  cells, every such run is a slot, a slot carries its start cell's number,
  and without boxed-in white cells every white cell lies in a slot).
- `src/generator.rs`: SplitMix64-driven symmetric layouts. The density is an
  integer in units of 2^-53 (`UNIT` is 1.0); the laws show that layouts are
  symmetric, deterministic, never leave a boxed-in white cell, and gain
  only black squares as the density rises.
- `src/puz.rs`: reading the header, both boards and the string table of a
  `.puz` file, with laws that the checksum fields are ignored and that the
  player-state flag never changes how a board byte decodes.
- `src/text.rs`: decimal writing of numbers for the error messages.
- `app/`: the command-line report and the floating-point conversions
  (ratios to and from the integer density).
