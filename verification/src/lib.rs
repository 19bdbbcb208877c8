//! Game-state engine for a grid-based mine-clearing puzzle.
//!
//! A [`MineField`] owns a row-major buffer of packed tile bytes. Mines are
//! placed lazily on the first sweep, reveals flood-fill through empty tiles,
//! and every operation carries a contract over the field's mathematical view.

pub mod tile;
pub mod symbols;
pub mod view;
pub mod random;
pub mod field;
pub mod neighbors;
pub mod flag;
pub mod populate;
pub mod sweep;
pub mod iter;
pub mod perimeter;
pub mod balance;
pub mod render;
pub mod command;

pub use crate::command::{
    command_from_words, parse_command, parse_int, strip_trailing_newline, translate_coordinates,
    Command, MSError,
};
pub use crate::field::{FieldError, MineField};
pub use crate::iter::{MineFieldItr, MutMineFieldItr};
pub use crate::symbols::TileSymbols;
pub use crate::tile::{MutTile, Tile, BOMB, EMPTY, FLAGGED, TILE_UP};
pub use crate::view::FieldView;
