//! A library for building and running two-dimensional cellular automata.
//!
//! The simulation state is a rectangular grid of small integer cell values.
//! A [`rule::Rule`] transforms that grid into the next generation; the two
//! built-in rule kinds are neighborhood rules ([`rule::EnvironmentRule`]) and
//! search-and-replace rules ([`rule::PatternRule`]), which may be combined in
//! order with [`rule::MultiRule`].

use vstd::prelude::*;

pub mod cell_grid;
pub mod error;
pub mod rule;

pub use cell_grid::cell_for_color;
pub use cell_grid::grid_from_lines;
pub use cell_grid::set_cell;
pub use cell_grid::CellGrid;
pub use error::CelluminaError;

verus! {

/// Cell value reserved as the default border symbol (written `_`).
pub const BORDER: u8 = 126;

/// Cell value reserved as the pattern wildcard (written `*`).
pub const WILDCARD: u8 = 127;

/// The cell value associated with a character: digits map to `0..=9`,
/// lower-case letters to `10..=35`, upper-case letters to `36..=61`,
/// `_` to the border symbol, `*` to the wildcard, and everything else
/// (including space) to `0`.
pub open spec fn spec_char_to_id(symbol: char) -> u8 {
    if '0' <= symbol && symbol <= '9' {
        (symbol as u32 - 48) as u8
    } else if 'a' <= symbol && symbol <= 'z' {
        (symbol as u32 - 97 + 10) as u8
    } else if 'A' <= symbol && symbol <= 'Z' {
        (symbol as u32 - 65 + 36) as u8
    } else if symbol == '_' {
        126
    } else if symbol == '*' {
        127
    } else {
        0
    }
}

/// The character associated with a cell value: the inverse of
/// [`spec_char_to_id`] on `0..=61`, `_` for the border symbol, `*` for the
/// wildcard, and space for every value outside the printable range.
pub open spec fn spec_id_to_char(id: u8) -> char {
    if id == 0 {
        ' '
    } else if 1 <= id && id <= 9 {
        (id + 48) as char
    } else if 10 <= id && id <= 35 {
        (id + 87) as char
    } else if 36 <= id && id <= 61 {
        (id + 29) as char
    } else if id == 126 {
        '_'
    } else if id == 127 {
        '*'
    } else {
        ' '
    }
}

/// True for the cell values whose character form parses back to the same
/// value: the printable range `0..=61`, the border symbol and the wildcard.
pub open spec fn representable(id: u8) -> bool {
    id <= 61 || id == 126 || id == 127
}

/// Converts a character to its associated cell value.
pub fn char_to_id(symbol: char) -> (id: u8)
    ensures
        id == spec_char_to_id(symbol),
{
    let code = symbol as u32;
    if 48 <= code && code <= 57 {
        (code - 48) as u8
    } else if 97 <= code && code <= 122 {
        (code - 97 + 10) as u8
    } else if 65 <= code && code <= 90 {
        (code - 65 + 36) as u8
    } else if symbol == '_' {
        126
    } else if symbol == '*' {
        127
    } else {
        0
    }
}

/// Converts a cell value to its associated character.
pub fn id_to_char(id: u8) -> (symbol: char)
    ensures
        symbol == spec_id_to_char(id),
{
    if id == 0 {
        ' '
    } else if 1 <= id && id <= 9 {
        (id + 48) as char
    } else if 10 <= id && id <= 35 {
        (id + 87) as char
    } else if 36 <= id && id <= 61 {
        (id + 29) as char
    } else if id == 126 {
        '_'
    } else if id == 127 {
        '*'
    } else {
        ' '
    }
}

/// Converting a representable cell value to its character and back returns
/// the same value; this makes the character form of patterns lossless.
pub proof fn lemma_char_id_round_trip(id: u8)
    requires
        representable(id),
    ensures
        spec_char_to_id(spec_id_to_char(id)) == id,
{
}

} // verus!
