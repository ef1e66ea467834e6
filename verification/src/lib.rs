//! Generation, solving and validation of Sudoku boards.
use vstd::prelude::*;

pub mod size;
pub mod cell;
pub mod region;
pub mod board;
pub mod validate;
pub mod text;
pub mod progress;
pub mod solve;
pub mod difficulty;
pub mod strategy;
pub mod lines;
pub mod region_notes;
pub mod generate;
pub mod map_gen;
pub mod related;
pub mod display;
pub mod laws;
pub mod solution;
pub mod completion;
pub mod layout;
pub mod menu;
pub mod game_view;

pub use board::Board;
pub use cell::{Cardinal, Cell, Coord, CoordWalker};
pub use difficulty::Difficulty;
pub use lines::LineKind;
pub use map_gen::IrregularMapError;
pub use region::{BoardKind, IrregularMap, RegionKind};
pub use size::BoardSize;
pub use strategy::{HiddenSets, HiddenSingles, NakedSingles, RegionLineReduction, Strategy};
pub use text::ParseError;
pub use validate::ValidationResults;

verus! {

} // verus!
