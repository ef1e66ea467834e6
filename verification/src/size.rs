//! The supported dimensions of a Sudoku board.
use vstd::prelude::*;

verus! {

/// The size of the Sudoku board.
#[derive(Debug, Clone, Copy, PartialEq, Eq, Structural)]
pub enum BoardSize {
    /// A 4x4 Sudoku board.
    X4,
    /// A 6x6 Sudoku board (3x2 regions).
    X6,
    /// A 9x9 Sudoku board.
    X9,
    /// A 12x12 Sudoku board (4x3 regions).
    X12,
    /// A 16x16 Sudoku board.
    X16,
}

impl BoardSize {
    /// The number of cells in any row, column or region.
    pub open spec fn cells(self) -> nat {
        match self {
            BoardSize::X4 => 4,
            BoardSize::X6 => 6,
            BoardSize::X9 => 9,
            BoardSize::X12 => 12,
            BoardSize::X16 => 16,
        }
    }

    /// The width of a regular region.
    pub open spec fn region_width(self) -> nat {
        match self {
            BoardSize::X4 => 2,
            BoardSize::X6 => 3,
            BoardSize::X9 => 3,
            BoardSize::X12 => 4,
            BoardSize::X16 => 4,
        }
    }

    /// The height of a regular region.
    pub open spec fn region_height(self) -> nat {
        match self {
            BoardSize::X4 => 2,
            BoardSize::X6 => 2,
            BoardSize::X9 => 3,
            BoardSize::X12 => 3,
            BoardSize::X16 => 4,
        }
    }

    /// The size whose row length is `n`; any unsupported length gives the standard 9x9.
    pub open spec fn of_len(n: int) -> BoardSize {
        if n == 4 {
            BoardSize::X4
        } else if n == 6 {
            BoardSize::X6
        } else if n == 12 {
            BoardSize::X12
        } else if n == 16 {
            BoardSize::X16
        } else {
            BoardSize::X9
        }
    }

    /// Get the maximum number of cells in any row or column.
    pub fn max_cells(&self) -> (r: u8)
        ensures
            r == self.cells(),
    {
        match self {
            BoardSize::X4 => 4,
            BoardSize::X6 => 6,
            BoardSize::X9 => 9,
            BoardSize::X12 => 12,
            BoardSize::X16 => 16,
        }
    }

    /// Get the width of each regular region in the board.
    pub fn width(&self) -> (r: u8)
        ensures
            r == self.region_width(),
    {
        match self {
            BoardSize::X4 => 2,
            BoardSize::X6 => 3,
            BoardSize::X9 => 3,
            BoardSize::X12 => 4,
            BoardSize::X16 => 4,
        }
    }

    /// Get the height of each regular region in the board.
    pub fn height(&self) -> (r: u8)
        ensures
            r == self.region_height(),
    {
        match self {
            BoardSize::X4 => 2,
            BoardSize::X6 => 2,
            BoardSize::X9 => 3,
            BoardSize::X12 => 3,
            BoardSize::X16 => 4,
        }
    }

    /// The size whose rows hold `size` cells (4, 6, 12 or 16); any other value
    /// gives the standard 9x9 size.
    pub fn from_u8(size: u8) -> (r: BoardSize)
        ensures
            r == BoardSize::of_len(size as int),
    {
        match size {
            4 => BoardSize::X4,
            6 => BoardSize::X6,
            12 => BoardSize::X12,
            16 => BoardSize::X16,
            _ => BoardSize::X9,
        }
    }

    /// Regular regions tile the board: a row band holds `height` regions of
    /// `width` columns, and `width * height` equals the row length.
    pub proof fn lemma_region_shape(self)
        ensures
            self.region_width() * self.region_height() == self.cells(),
            2 <= self.region_width() <= 4,
            2 <= self.region_height() <= 4,
            4 <= self.cells() <= 16,
    {
    }
}

impl Default for BoardSize {
    /// The standard 9x9 size.
    fn default() -> (r: BoardSize)
        ensures
            r == BoardSize::X9,
    {
        BoardSize::X9
    }
}

impl From<u8> for BoardSize {
    fn from(size: u8) -> (r: BoardSize) {
        BoardSize::from_u8(size)
    }
}

impl vstd::std_specs::convert::FromSpecImpl<u8> for BoardSize {
    open spec fn obeys_from_spec() -> bool {
        true
    }

    open spec fn from_spec(v: u8) -> BoardSize {
        BoardSize::of_len(v as int)
    }
}

} // verus!
