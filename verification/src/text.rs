//! Import and export of boards as strings of digits.
use crate::board::{full_notes, lemma_strip_idem, Board};
use crate::cell::{Cell, CellView, Coord};
use crate::region::{in_grid, BoardKind};
use crate::size::BoardSize;
use vstd::prelude::*;

verus! {

/// An error that can occur when parsing a string representation of a board.
#[derive(Debug, Clone, Copy, PartialEq, Eq, Structural)]
pub enum ParseError {
    /// The string length is not a perfect square.
    InvalidLength(usize),
    /// The board size is not supported.
    InvalidSize(usize),
}

/// The value of a hexadecimal digit (either case).
pub open spec fn hex_value(c: char) -> Option<u32> {
    if '0' <= c && c <= '9' {
        Some((c as u32 - '0' as u32) as u32)
    } else if 'a' <= c && c <= 'f' {
        Some((c as u32 - 'a' as u32 + 10) as u32)
    } else if 'A' <= c && c <= 'F' {
        Some((c as u32 - 'A' as u32 + 10) as u32)
    } else {
        None
    }
}

/// The value of a hexadecimal digit (either case).
pub fn to_hex(c: char) -> (r: Option<u32>)
    ensures
        r == hex_value(c),
{
    if '0' <= c && c <= '9' {
        Some(c as u32 - '0' as u32)
    } else if 'a' <= c && c <= 'f' {
        Some(c as u32 - 'a' as u32 + 10)
    } else if 'A' <= c && c <= 'F' {
        Some(c as u32 - 'A' as u32 + 10)
    } else {
        None
    }
}

/// The uppercase hexadecimal digit of `d` (`d < 16`).
pub open spec fn hex_char(d: nat) -> char {
    if d < 10 {
        (('0' as u32) + d) as char
    } else {
        (('A' as u32) + d - 10) as char
    }
}

/// The uppercase hexadecimal digit of `d`.
pub fn from_hex(d: u8) -> (r: char)
    requires
        d < 16,
    ensures
        r == hex_char(d as nat),
{
    if d < 10 {
        (('0' as u8) + d) as char
    } else {
        (('A' as u8) + d - 10) as char
    }
}

/// The characters of `s` without line endings.
pub open spec fn strip_lines(s: Seq<char>) -> Seq<char> {
    s.filter(|c: char| c != '\n' && c != '\r')
}

/// The cell value that the character `c` stands for on a board of `n` x `n`
/// cells: digits count from 1 on boards up to 9x9 and from 0 beyond.
pub open spec fn digit_of(c: char, n: nat) -> Option<u8> {
    match hex_value(c) {
        Some(h) => {
            let d: int = if n <= 9 {
                h - 1
            } else {
                h as int
            };
            if 0 <= d < n {
                Some(d as u8)
            } else {
                None
            }
        },
        None => None,
    }
}

/// The value placed at `p` by the first `k` characters of `s`, if any: the
/// character at position `row * n + col` when it stands for a digit.
pub open spec fn placed_at(s: Seq<char>, n: nat, p: Coord, k: int) -> Option<u8> {
    let i = p.row * n + p.col;
    if i < k && digit_of(s[i], n) is Some {
        digit_of(s[i], n)
    } else {
        None
    }
}

/// The candidates of an unfilled cell `p` of a freshly parsed board: those that
/// no related placed cell holds.
pub open spec fn parsed_notes(b: Board, s: Seq<char>, p: Coord, k: int) -> Set<u8> {
    full_notes(b.n()).filter(
        |d: u8| !(exists|q: Coord| #[trigger] b.related(p, q) && placed_at(s, b.n(), q, k) == Some(d)),
    )
}

/// The cell `p` of a board parsed from the first `k` characters of `s`.
pub open spec fn parsed_cell(b: Board, s: Seq<char>, p: Coord, k: int) -> CellView {
    match placed_at(s, b.n(), p, k) {
        Some(d) => CellView::Value(d),
        None => CellView::Notes(parsed_notes(b, s, p, k)),
    }
}

/// `r` is the perfect square root of `len`, if any.
pub open spec fn is_root(len: nat, r: nat) -> bool {
    r * r == len
}

/// The largest `r` with `r * r <= len`.
fn isqrt(len: usize) -> (r: usize)
    ensures
        (r as int) * (r as int) <= len,
        len < (r as int + 1) * (r as int + 1),
{
    let mut r: u128 = 0;
    loop
        invariant
            r * r <= len,
            r <= len,
            r <= 0x1_0000_0000,
        decreases len - r,
    {
        let next = r + 1;
        assert(next * next <= 0x1_0000_0001 * 0x1_0000_0001) by (nonlinear_arith)
            requires
                0 < next <= 0x1_0000_0001,
        ;
        if next * next > len as u128 {
            return r as usize;
        }
        assert(next <= next * next) by (nonlinear_arith)
            requires
                next >= 1,
        ;
        assert(next <= 0x1_0000_0000) by (nonlinear_arith)
            requires
                next * next <= len,
                len <= 0xffff_ffff_ffff_ffff,
                next >= 0,
        ;
        r = next;
    }
}

impl Board {
    /// Convert a string representation of a board to a [`Board`].
    ///
    /// The [`BoardSize`] size is inferred from the length of
    /// the string after stripping all line endings; only
    /// [`BoardKind::Regular`] boards are produced.
    ///
    /// Filled cells are represented using 1-4, 1-6 or 1-9 on boards up to
    /// 9x9, and hexadecimal digits 0-9 and A-F (either case) on the larger
    /// boards; any other character leaves its cell empty. Each character
    /// (after stripping) is one cell: the `i`-th one is the cell at
    /// `row * n + col == i`.
    pub fn from_str(s: &str) -> (r: Result<Board, ParseError>)
        ensures
            ({
                let src = strip_lines(s@);
                let len = src.len();
                match r {
                    Err(ParseError::InvalidLength(l)) => l == len && !exists|k: nat| is_root(len, k),
                    Err(ParseError::InvalidSize(root)) => is_root(len, root as nat) && !supported_len(
                        root as nat,
                    ),
                    Ok(b) => exists|k: nat|
                        is_root(len, k) && supported_len(k) && b.size == BoardSize::of_len(k as int)
                            && b.kind == BoardKind::Regular && b.wf() && forall|p: Coord|
                            in_grid(b.n(), p) ==> #[trigger] b.at(p) == parsed_cell(
                                b,
                                src,
                                p,
                                len as int,
                            ),
                }
            }),
    {
        let ghost full = s@;
        let mut src: Vec<char> = Vec::new();
        for c in it: s.chars()
            invariant
                it.seq() == full,
                0 <= it.index() <= full.len(),
                src@ == strip_lines(full.take(it.index())),
        {
            let ghost i = it.index();
            assert(i < full.len());
            assert(c == full[i]);
            if c != '\n' && c != '\r' {
                src.push(c);
            }
            proof {
                assert(full.take(i + 1).drop_last() == full.take(i));
                reveal_with_fuel(Seq::<_>::filter, 1);
            }
        }
        proof {
            assert(full.take(full.len() as int) == full);
        }
        let len = src.len();
        let root = isqrt(len);
        if root * root != len {
            proof {
                assert forall|k: nat| !is_root(len as nat, k) by {
                    if k * k == len {
                        if k <= root {
                            assert(k * k <= root * root) by (nonlinear_arith)
                                requires
                                    k <= root,
                            ;
                        } else {
                            assert((root + 1) * (root + 1) <= k * k) by (nonlinear_arith)
                                requires
                                    root + 1 <= k,
                            ;
                        }
                    }
                }
            }
            return Err(ParseError::InvalidLength(len));
        }
        if !(root == 4 || root == 6 || root == 9 || root == 12 || root == 16) {
            return Err(ParseError::InvalidSize(root));
        }
        let size = BoardSize::from_u8(root as u8);
        let max_cells = size.max_cells() as usize;
        let ghost n = size.cells();
        let mut board = Board::new(&size, BoardKind::Regular);
        proof {
            size.lemma_region_shape();
            assert forall|p: Coord| in_grid(n, p) implies #[trigger] board.at(p) == parsed_cell(board, src@, p, 0) by {
                assert(parsed_notes(board, src@, p, 0) =~= full_notes(n));
            }
        }
        assert(max_cells * max_cells <= 256) by (nonlinear_arith)
            requires
                max_cells <= 16,
        ;
        let total = max_cells * max_cells;
        let mut i: usize = 0;
        while i < len
            invariant
                total == max_cells * max_cells,
                total <= 256,
                max_cells == n,
                n == size.cells(),
                n == root,
                len == src@.len(),
                4 <= n <= 16,
                board.size == size,
                board.kind == BoardKind::Regular,
                board.wf(),
                len == total,
                0 <= i <= len,
                forall|p: Coord| in_grid(n, p) ==> #[trigger] board.at(p) == parsed_cell(board, src@, p, i as int),
            decreases len - i,
        {
            let c = src[i];
            let off = i;
            let row = off / max_cells;
            let col = off % max_cells;
            let ghost before = board;
            proof {
                vstd::arithmetic::div_mod::lemma_fundamental_div_mod(off as int, max_cells as int);
                assert(row < max_cells) by (nonlinear_arith)
                    requires
                        off < max_cells * max_cells,
                        off == max_cells * row + off % max_cells,
                        off % max_cells >= 0,
                        max_cells > 0,
                ;
            }
            assert(col < max_cells);
            let coord = Coord { row, col };
            assert(row * max_cells + col == off) by (nonlinear_arith)
                requires
                    off == max_cells * (off / max_cells) + off % max_cells,
                    row == off / max_cells,
                    col == off % max_cells,
            ;
            let digit = to_hex(c);
            let mut placed = false;
            if let Some(h) = digit {
                let d = if max_cells <= 9 { h.wrapping_sub(1) } else { h };
                if d < max_cells as u32 {
                    assert(digit_of(c, n) == Some(d as u8));
                    board.set_cell(coord, d as u8);
                    placed = true;
                    proof {
                        assert(before.n() == n);
                        assert(coord.row < n);
                        assert(coord.col < n);
                        assert(in_grid(before.n(), coord));
                        assert(c == src@[i as int]);
                        lemma_parse_place(before, board, src@, i as int, coord, d as u8);
                    }
                }
            }
            if !placed {
                proof {
                    assert(digit_of(c, n) is None);
                    assert(c == src@[i as int]);
                    lemma_parse_skip(board, src@, i as int);
                }
            }
            i += 1;
        }
        Ok(board)
    }
}

/// The supported row lengths.
pub open spec fn supported_len(k: nat) -> bool {
    k == 4 || k == 6 || k == 9 || k == 12 || k == 16
}

/// Distinct in-grid cells have distinct row-major positions.
pub proof fn lemma_position_unique(n: nat, p: Coord, q: Coord)
    requires
        in_grid(n, p),
        in_grid(n, q),
        p.row * n + p.col == q.row * n + q.col,
    ensures
        p == q,
{
    if p.row < q.row {
        assert(p.row * n + n <= q.row * n) by (nonlinear_arith)
            requires
                p.row < q.row,
        ;
    }
    if q.row < p.row {
        assert(q.row * n + n <= p.row * n) by (nonlinear_arith)
            requires
                q.row < p.row,
        ;
    }
}

/// Processing a character that holds a digit places it at its own cell only.
pub proof fn lemma_placed_step(s: Seq<char>, n: nat, q: Coord, i: int, coord: Coord)
    requires
        0 <= i < s.len(),
        in_grid(n, q),
        in_grid(n, coord),
        coord.row * n + coord.col == i,
        digit_of(s[i], n) is Some,
    ensures
        placed_at(s, n, q, i + 1) == if q == coord {
            digit_of(s[i], n)
        } else {
            placed_at(s, n, q, i)
        },
{
    if q != coord && q.row * n + q.col == i {
        lemma_position_unique(n, q, coord);
    }
}

/// Placing the digit of the `i`-th character keeps the board equal to the
/// parse of the first `i + 1` characters.
pub proof fn lemma_parse_place(before: Board, after: Board, s: Seq<char>, i: int, coord: Coord, d: u8)
    requires
        before.wf(),
        after.size == before.size,
        after.kind == before.kind,
        0 <= i < s.len(),
        in_grid(before.n(), coord),
        coord.row * before.n() + coord.col == i,
        digit_of(s[i], before.n()) == Some(d),
        forall|c: Coord| in_grid(before.n(), c) ==> #[trigger] after.at(c) == before.after_set(coord, d, c),
        forall|p: Coord| in_grid(before.n(), p) ==> #[trigger] before.at(p) == parsed_cell(before, s, p, i),
    ensures
        forall|p: Coord| in_grid(before.n(), p) ==> #[trigger] after.at(p) == parsed_cell(after, s, p, i + 1),
{
    let n = before.n();
    assert(placed_at(s, n, coord, i) is None);
    assert forall|p: Coord| in_grid(n, p) implies #[trigger] after.at(p) == parsed_cell(after, s, p, i + 1) by {
        assert(before.at(p) == parsed_cell(before, s, p, i));
        lemma_placed_step(s, n, p, i, coord);
        lemma_strip_idem(before.at(p), d);
        if p != coord && placed_at(s, n, p, i) is None {
            let target = if before.related(coord, p) {
                parsed_notes(before, s, p, i).remove(d)
            } else {
                parsed_notes(before, s, p, i)
            };
            assert forall|e: u8| #[trigger] parsed_notes(after, s, p, i + 1).contains(e) == target.contains(e) by {
                if exists|q: Coord| #[trigger] after.related(p, q) && placed_at(s, n, q, i + 1) == Some(e) {
                    let q = choose|q: Coord| #[trigger] after.related(p, q) && placed_at(s, n, q, i + 1) == Some(e);
                    lemma_placed_step(s, n, q, i, coord);
                    if q != coord {
                        assert(before.related(p, q) && placed_at(s, n, q, i) == Some(e));
                    }
                }
                if exists|q: Coord| #[trigger] before.related(p, q) && placed_at(s, n, q, i) == Some(e) {
                    let q = choose|q: Coord| #[trigger] before.related(p, q) && placed_at(s, n, q, i) == Some(e);
                    lemma_placed_step(s, n, q, i, coord);
                    if q == coord {
                        assert(placed_at(s, n, coord, i) is None);
                    }
                    assert(after.related(p, q) && placed_at(s, n, q, i + 1) == Some(e));
                }
                if before.related(coord, p) && e == d {
                    lemma_placed_step(s, n, coord, i, coord);
                    assert(after.related(p, coord) && placed_at(s, n, coord, i + 1) == Some(e));
                }
            }
            assert(parsed_notes(after, s, p, i + 1) =~= target);
        }
    }
}

/// A character without a digit changes nothing.
pub proof fn lemma_parse_skip(b: Board, s: Seq<char>, i: int)
    requires
        0 <= i < s.len(),
        digit_of(s[i], b.n()) is None,
        forall|p: Coord| in_grid(b.n(), p) ==> #[trigger] b.at(p) == parsed_cell(b, s, p, i),
    ensures
        forall|p: Coord| in_grid(b.n(), p) ==> #[trigger] b.at(p) == parsed_cell(b, s, p, i + 1),
{
    let n = b.n();
    assert forall|q: Coord| #[trigger] placed_at(s, n, q, i + 1) == placed_at(s, n, q, i) by {
    }
    assert forall|p: Coord| in_grid(n, p) implies #[trigger] b.at(p) == parsed_cell(b, s, p, i + 1) by {
        assert(parsed_notes(b, s, p, i + 1) =~= parsed_notes(b, s, p, i));
    }
}

/// Appends `c` to `s` with [`String::push`].
#[verifier::external_body]
pub(crate) fn push_char(s: &mut String, c: char)
    ensures
        final(s)@ == old(s)@.push(c),
{
    s.push(c);
}

/// The shift between a cell value and its digit: boards up to 9x9 count from 1.
pub open spec fn digit_shift(n: nat) -> nat {
    if n <= 9 {
        1
    } else {
        0
    }
}

/// The character that stands for a cell in an exported board.
pub open spec fn cell_char(c: CellView, n: nat) -> char {
    match c {
        CellView::Value(v) => hex_char((v + digit_shift(n)) as nat),
        CellView::Notes(_) => '.',
    }
}

/// The characters of the first `j` cells of row `r`.
pub open spec fn row_chars(b: Board, r: nat, j: nat) -> Seq<char>
    decreases j,
{
    if j == 0 {
        Seq::empty()
    } else {
        row_chars(b, r, (j - 1) as nat).push(
            cell_char(b.at(Coord { row: r as usize, col: (j - 1) as usize }), b.n()),
        )
    }
}

/// The characters of the first `k` rows.
pub open spec fn board_chars(b: Board, k: nat) -> Seq<char>
    decreases k,
{
    if k == 0 {
        Seq::empty()
    } else {
        board_chars(b, (k - 1) as nat) + row_chars(b, (k - 1) as nat, b.n())
    }
}

impl Board {
    /// The grid has `n` rows of `n` cells each.
    pub open spec fn grid_fits(&self) -> bool {
        &&& self.grid@.len() == self.n()
        &&& forall|i: int| 0 <= i < self.n() ==> #[trigger] self.grid@[i]@.len() == self.n()
    }

    /// Every filled cell can be written as a single hexadecimal digit.
    pub open spec fn exportable(&self) -> bool {
        forall|c: Coord|
            in_grid(self.n(), c) && #[trigger] self.at(c) is Value ==> self.at(c)->Value_0 + digit_shift(self.n())
                < 16
    }

    /// Convert a [`Board`] to a string representation, row by row.
    ///
    /// Cells with no value are represented by `.`.
    /// Filled cells are represented using 1-4, 1-6 or 1-9 on boards up to
    /// 9x9, and 0-9 and A-F on the larger boards (always in uppercase).
    pub fn export(&self) -> (r: String)
        requires
            self.grid_fits(),
            self.exportable(),
        ensures
            r@ == board_chars(*self, self.n()),
    {
        let max_cells = self.size.max_cells() as usize;
        let ghost n = self.n();
        let shift: u8 = if max_cells <= 9 { 1 } else { 0 };
        let mut s = String::new();
        let mut row: usize = 0;
        while row < max_cells
            invariant
                self.grid_fits(),
                self.exportable(),
                max_cells == n,
                n == self.n(),
                shift == digit_shift(n),
                0 <= row <= n,
                s@ == board_chars(*self, row as nat),
            decreases n - row,
        {
            let mut col: usize = 0;
            while col < max_cells
                invariant
                    self.grid_fits(),
                    self.exportable(),
                    max_cells == n,
                    n == self.n(),
                    shift == digit_shift(n),
                    0 <= row < n,
                    0 <= col <= n,
                    s@ == board_chars(*self, row as nat) + row_chars(*self, row as nat, col as nat),
                decreases n - col,
            {
                proof {
                    assert(self.grid@[row as int]@.len() == n);
                }
                let cell = &self.grid[row][col];
                let ghost here = Coord { row, col };
                assert(cell@ == self.at(here));
                match cell {
                    Cell::Value(v) => {
                        assert(self.at(here) is Value);
                        push_char(&mut s, from_hex(*v + shift));
                    },
                    Cell::Notes(_) => {
                        push_char(&mut s, '.');
                    },
                }
                col += 1;
            }
            row += 1;
        }
        s
    }

    /// Whether [`Board::export`] can write this board: the grid has `n` rows
    /// of `n` cells, and every filled cell has a digit.
    pub fn can_export(&self) -> (r: bool)
        ensures
            r == (self.grid_fits() && self.exportable()),
    {
        let max_cells = self.size.max_cells() as usize;
        let ghost n = self.n();
        let shift: u8 = if max_cells <= 9 { 1 } else { 0 };
        if self.grid.len() != max_cells {
            return false;
        }
        let mut row: usize = 0;
        while row < max_cells
            invariant
                max_cells == n,
                n == self.n(),
                shift == digit_shift(n),
                self.grid@.len() == n,
                0 <= row <= n,
                forall|i: int| 0 <= i < row ==> #[trigger] self.grid@[i]@.len() == n,
                forall|c: Coord|
                    in_grid(n, c) && c.row < row && #[trigger] self.at(c) is Value ==> self.at(c)->Value_0
                        + digit_shift(n) < 16,
            decreases n - row,
        {
            if self.grid[row].len() != max_cells {
                return false;
            }
            let mut col: usize = 0;
            while col < max_cells
                invariant
                    max_cells == n,
                    n == self.n(),
                    shift == digit_shift(n),
                    self.grid@.len() == n,
                    0 <= row < n,
                    0 <= col <= n,
                    forall|i: int| 0 <= i <= row ==> #[trigger] self.grid@[i]@.len() == n,
                    forall|c: Coord|
                        in_grid(n, c) && (c.row < row || (c.row == row && c.col < col)) && #[trigger] self.at(c) is Value
                            ==> self.at(c)->Value_0 + digit_shift(n) < 16,
                decreases n - col,
            {
                let cell = &self.grid[row][col];
                let ghost here = Coord { row, col };
                assert(cell@ == self.at(here));
                match cell {
                    Cell::Value(v) => {
                        if *v >= 16 - shift {
                            assert(in_grid(n, here) && self.at(here) is Value);
                            return false;
                        }
                    },
                    Cell::Notes(_) => {},
                }
                col += 1;
            }
            row += 1;
        }
        true
    }
}

impl<'a> From<&'a Board> for String {
    /// Convert a [`Board`] to a string representation, as [`Board::export`]
    /// does. A board that [`Board::export`] cannot write (see
    /// [`Board::can_export`]) gives the empty string.
    fn from(board: &'a Board) -> (r: String)
        ensures
            board.grid_fits() && board.exportable() ==> r@ == board_chars(*board, board.n()),
            !(board.grid_fits() && board.exportable()) ==> r@ == Seq::<char>::empty(),
    {
        if board.can_export() {
            board.export()
        } else {
            String::new()
        }
    }
}

/// What this conversion gives is stated on its own `from` above, by the view
/// of the string; no spec function of a string stands for it here.
impl<'a> vstd::std_specs::convert::FromSpecImpl<&'a Board> for String {
    open spec fn obeys_from_spec() -> bool {
        false
    }

    open spec fn from_spec(v: &'a Board) -> String {
        choose|s: String| s@ == board_chars(*v, v.n())
    }
}

} // verus!
