//! The two-valued cell state and its glyph conversions.

use vstd::prelude::*;

verus! {

/// State of one grid position: dead or alive.
#[derive(Clone, Copy, Debug, PartialEq, Eq, Structural)]
pub enum Cell {
    Dead,
    Alive,
}

/// The one-character glyph that renders a cell state.
pub open spec fn glyph_of(alive: bool) -> char {
    if alive {
        '◼'
    } else {
        '◻'
    }
}

/// Whether `ch` is a recognized cell glyph in the parse alphabet.
pub open spec fn is_glyph(ch: char) -> bool {
    ch == '◻' || ch == '◼'
}

/// The cell state a recognized glyph denotes.
pub open spec fn glyph_alive(ch: char) -> bool {
    ch == '◼'
}

impl Cell {
    /// Whether this cell is alive.
    pub open spec fn spec_alive(self) -> bool {
        self == Cell::Alive
    }

    /// The cell state for a boolean, `true` meaning alive.
    pub fn from_bool(alive: bool) -> (c: Cell)
        ensures
            c.spec_alive() == alive,
    {
        if alive {
            Cell::Alive
        } else {
            Cell::Dead
        }
    }

    /// The boolean for a cell state, alive meaning `true`.
    pub fn as_bool(self) -> (b: bool)
        ensures
            b == self.spec_alive(),
    {
        match self {
            Cell::Alive => true,
            Cell::Dead => false,
        }
    }

    /// The display glyph for this cell state.
    pub fn to_glyph(self) -> (ch: char)
        ensures
            ch == glyph_of(self.spec_alive()),
    {
        match self {
            Cell::Dead => '◻',
            Cell::Alive => '◼',
        }
    }

    /// The cell state a glyph denotes, or `None` for an unrecognized
    /// character.
    pub fn from_char(ch: char) -> (c: Option<Cell>)
        ensures
            c is Some <==> is_glyph(ch),
            c matches Some(cell) ==> cell.spec_alive() == glyph_alive(ch),
    {
        match ch {
            '◻' => Some(Cell::Dead),
            '◼' => Some(Cell::Alive),
            _ => None,
        }
    }
}

} // verus!
