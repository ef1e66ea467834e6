//! What the game screens draw for each cell: the text of a board cell and
//! which of its borders mark the edge of a region, and the borders of the
//! loading grid.
use crate::board::Board;
use crate::cell::{Cell, CellView, Coord};
use crate::region::in_grid;
use crate::text::push_char;
use vstd::prelude::*;

verus! {

/// The decimal digits of `x`, without leading zeros.
pub open spec fn decimal(x: nat) -> Seq<char>
    decreases x,
{
    if x < 10 {
        seq![(('0' as u32) + x) as char]
    } else {
        decimal(x / 10).push((('0' as u32) + x % 10) as char)
    }
}

/// The text of a cell on the game board: its value counted from 1, or
/// nothing for an empty cell.
pub open spec fn cell_text(c: CellView) -> Seq<char> {
    match c {
        CellView::Value(v) => decimal((v + 1) as nat),
        CellView::Notes(_) => Seq::empty(),
    }
}

/// The neighbor of `c` on side `side` (0 above, 1 below, 2 left, 3 right)
/// lies outside the grid or in another region: the border there is drawn
/// solid.
pub open spec fn solid_side(b: Board, c: Coord, side: int) -> bool {
    let n = b.n() as int;
    let (dr, dc) = if side == 0 {
        (-1int, 0int)
    } else if side == 1 {
        (1int, 0int)
    } else if side == 2 {
        (0int, -1int)
    } else {
        (0int, 1int)
    };
    let r = c.row + dr;
    let k = c.col + dc;
    !(0 <= r < n && 0 <= k < n) || b.kind.region_at(b.size, Coord { row: r as usize, col: k as usize })
        != b.kind.region_at(b.size, c)
}

/// How a cell of the game board is drawn.
pub struct CellLook {
    /// The text shown in the cell.
    pub text: String,
    /// The region of the cell, which picks its color.
    pub region: u8,
    /// The top border is solid (else faded).
    pub top: bool,
    /// The bottom border is solid (else faded).
    pub bottom: bool,
    /// The left border is solid (else faded).
    pub left: bool,
    /// The right border is solid (else faded).
    pub right: bool,
}

/// Append the decimal digits of `x` to `out`.
fn push_decimal(out: &mut String, x: u16)
    ensures
        final(out)@ == old(out)@ + decimal(x as nat),
    decreases x,
{
    if x >= 10 {
        push_decimal(out, x / 10);
    }
    let d = (x % 10) as u8;
    push_char(out, (('0' as u8) + d) as char);
    proof {
        assert((('0' as u8) + d) as char == (('0' as u32) + (x % 10) as nat) as char);
        if x >= 10 {
            assert(old(out)@ + decimal(x as nat) =~= old(out)@ + decimal((x / 10) as nat) + seq![
                (('0' as u32) + (x % 10) as nat) as char,
            ]);
        }
    }
}

impl Board {
    /// The region of the in-grid cell `c`.
    fn region_of(&self, c: Coord) -> (r: u8)
        requires
            self.wf(),
            in_grid(self.n(), c),
        ensures
            r as int == self.kind.region_at(self.size, c),
    {
        proof {
            self.kind.lemma_region_bound_any(self.size, c);
        }
        match self.kind.index(&self.size, c) {
            Some(i) => i,
            None => 0,
        }
    }

    /// How the in-grid cell `coord` is drawn on the game board: its value
    /// counted from 1 (nothing when empty), its region, and for each side
    /// whether the border is solid, at the edge of the board or of the
    /// region, or faded.
    pub fn cell_look(&self, coord: Coord) -> (r: CellLook)
        requires
            self.wf(),
            in_grid(self.n(), coord),
        ensures
            r.text@ == cell_text(self.at(coord)),
            r.region as int == self.kind.region_at(self.size, coord),
            r.top == solid_side(*self, coord, 0),
            r.bottom == solid_side(*self, coord, 1),
            r.left == solid_side(*self, coord, 2),
            r.right == solid_side(*self, coord, 3),
    {
        let max_cells = self.size.max_cells() as usize;
        let mut text = String::new();
        match self.get_cell(coord) {
            Some(Cell::Value(v)) => {
                push_decimal(&mut text, *v as u16 + 1);
                assert(text@ =~= decimal((*v + 1) as nat));
            },
            _ => {},
        }
        let region = self.region_of(coord);
        let row = coord.row;
        let col = coord.col;
        let top = row == 0 || self.region_of(Coord { row: row - 1, col }) != region;
        let bottom = row == max_cells - 1 || self.region_of(Coord { row: row + 1, col }) != region;
        let left = col == 0 || self.region_of(Coord { row, col: col - 1 }) != region;
        let right = col == max_cells - 1 || self.region_of(Coord { row, col: col + 1 }) != region;
        CellLook { text, region, top, bottom, left, right }
    }
}

/// The borders of a cell of the loading grid, a 3x3 grid whose cells are
/// numbered row by row: only the lines between cells are drawn.
pub struct LoadingLook {
    /// The row of the cell.
    pub x: u8,
    /// The column of the cell.
    pub y: u8,
    /// A line is drawn above the cell.
    pub top: bool,
    /// A line is drawn below the cell.
    pub bottom: bool,
    /// A line is drawn left of the cell.
    pub left: bool,
    /// A line is drawn right of the cell.
    pub right: bool,
}

/// How the cell `i` (below 9) of the loading grid is drawn.
pub fn loading_look(i: u8) -> (r: LoadingLook)
    requires
        i < 9,
    ensures
        r.x == i / 3,
        r.y == i % 3,
        r.top == (i > 2),
        r.bottom == (i < 6),
        r.left == (r.y > 0),
        r.right == (r.y < 2),
{
    let x = i / 3;
    let y = i % 3;
    LoadingLook { x, y, top: i > 2, bottom: i < 6, left: y > 0, right: y < 2 }
}

} // verus!
