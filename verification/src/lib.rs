//! The shape of a crossword grid: where the black squares sit, whether the
//! layout has 180-degree symmetry, how the cells are numbered, which word
//! slots it holds, and which letters fill its white cells. It does not solve
//! puzzles or interpret clue text; it only describes the grid, carrying
//! clues through as opaque strings where a file format (like `.puz`)
//! bundles them in.

pub mod generator;
pub mod grid;
pub mod numbering;
pub mod puz;
pub mod text;

pub use generator::{generate, GenerateError, UNIT};
pub use grid::{Cell, Grid, GridError, GridView};
pub use numbering::{number_cells, word_slots, Direction, Slot};
pub use puz::{read_puz, PuzError, PuzFile};
