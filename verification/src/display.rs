//! A human-readable drawing of a board, and of a coordinate.
use crate::board::Board;
use crate::cell::{Cell, CellView, Coord};
use crate::region::{in_grid, BoardKind};
use crate::size::BoardSize;
use crate::difficulty::lower_char;
use crate::text::{board_chars, cell_char, digit_shift, from_hex, hex_char, push_char, row_chars};
use vstd::prelude::*;

verus! {

/// `s` repeated `k` times.
pub open spec fn repeat(s: Seq<char>, k: nat) -> Seq<char>
    decreases k,
{
    if k == 0 {
        Seq::empty()
    } else {
        repeat(s, (k - 1) as nat) + s
    }
}

/// The lowercase hexadecimal digit of `d` (`d < 16`).
pub open spec fn hex_lower(d: nat) -> char {
    if d < 10 {
        (('0' as u32) + d) as char
    } else {
        (('a' as u32) + d - 10) as char
    }
}

/// The character drawn for a cell: its value as an uppercase digit, or `.`.
pub open spec fn drawn(c: CellView, n: nat) -> char {
    match c {
        CellView::Value(v) => hex_char((v + digit_shift(n)) as nat),
        CellView::Notes(_) => '.',
    }
}

/// The line drawn between two bands of regions on a regular board.
pub open spec fn band_line(n: nat, w: nat) -> Seq<char> {
    repeat(repeat(seq!['═'], 2 * w) + seq!['╬', '═'], (n / w - 1) as nat) + repeat(seq!['═'], (2 * w - 1) as nat)
        + seq!['\n']
}

/// The text of the cell at row `i`, column `j` of a regular board.
pub open spec fn regular_cell(b: Board, i: nat, j: nat) -> Seq<char> {
    let n = b.n();
    let w = b.size.region_width();
    let suffix = if j == n - 1 {
        Seq::<char>::empty()
    } else {
        seq![' ']
    };
    let bar = if j % w == 0 && j != 0 {
        seq!['║'] + suffix
    } else {
        Seq::empty()
    };
    let c = b.at(Coord { row: i as usize, col: j as usize });
    bar + match c {
        CellView::Value(_) => seq![drawn(c, n), ' '],
        CellView::Notes(_) => seq!['.'] + suffix,
    }
}

/// The text of the first `k` cells of row `i` of a regular board.
pub open spec fn regular_cells(b: Board, i: nat, k: nat) -> Seq<char>
    decreases k,
{
    if k == 0 {
        Seq::empty()
    } else {
        regular_cells(b, i, (k - 1) as nat) + regular_cell(b, i, (k - 1) as nat)
    }
}

/// The text of row `i` of a regular board, with the band line above it when
/// it starts a new band.
pub open spec fn regular_row(b: Board, i: nat) -> Seq<char> {
    let h = b.size.region_height();
    (if i % h == 0 && i != 0 {
        band_line(b.n(), b.size.region_width())
    } else {
        Seq::empty()
    }) + regular_cells(b, i, b.n()) + seq!['\n']
}

/// The text of the first `k` rows of a regular board.
pub open spec fn regular_rows(b: Board, k: nat) -> Seq<char>
    decreases k,
{
    if k == 0 {
        Seq::empty()
    } else {
        regular_rows(b, (k - 1) as nat) + regular_row(b, (k - 1) as nat)
    }
}

/// The text of the cell at row `i`, column `j` of an irregular board: its
/// value, then its region as a lowercase digit, then the separator that
/// follows it.
pub open spec fn irregular_cell(b: Board, i: nat, j: nat) -> Seq<char> {
    let n = b.n();
    let c = Coord { row: i as usize, col: j as usize };
    let region = (b.kind.region_at(b.size, c) + digit_shift(n)) as nat;
    seq![drawn(b.at(c), n), '┆', hex_lower(region)] + irregular_sep(n, i, j)
}

/// The text of the first `k` cells of an irregular board, row by row.
pub open spec fn irregular_cells(b: Board, i: nat, k: nat) -> Seq<char>
    decreases k,
{
    if k == 0 {
        Seq::empty()
    } else {
        irregular_cells(b, i, (k - 1) as nat) + irregular_cell(b, i, (k - 1) as nat)
    }
}

/// The text of the first `k` rows of an irregular board.
pub open spec fn irregular_rows(b: Board, k: nat) -> Seq<char>
    decreases k,
{
    if k == 0 {
        Seq::empty()
    } else {
        irregular_rows(b, (k - 1) as nat) + irregular_cells(b, (k - 1) as nat, b.n())
    }
}

/// The drawing of a board.
pub open spec fn drawing(b: Board) -> Seq<char> {
    match b.kind {
        BoardKind::Regular => regular_rows(b, b.n()),
        BoardKind::Irregular { .. } => irregular_rows(b, b.n()),
    }
}

/// Append `s` to `out`, `k` times.
fn push_repeat(out: &mut String, s: &Vec<char>, k: usize)
    ensures
        final(out)@ == old(out)@ + repeat(s@, k as nat),
{
    let mut t: usize = 0;
    while t < k
        invariant
            0 <= t <= k,
            out@ == old(out)@ + repeat(s@, t as nat),
        decreases k - t,
    {
        let mut i: usize = 0;
        let ghost before = out@;
        while i < s.len()
            invariant
                0 <= i <= s@.len(),
                out@ == before + s@.take(i as int),
            decreases s@.len() - i,
        {
            push_char(out, s[i]);
            i += 1;
            assert(s@.take(i as int) == s@.take(i - 1).push(s@[i - 1]));
        }
        assert(s@.take(s@.len() as int) == s@);
        t += 1;
        assert(out@ =~= old(out)@ + repeat(s@, t as nat));
    }
}

/// What follows the cell at row `i`, column `j` of an irregular board.
pub open spec fn irregular_sep(n: nat, i: nat, j: nat) -> Seq<char> {
    if j < n - 1 {
        seq![' ', '│', ' ']
    } else if i < n - 1 {
        seq!['\n'] + repeat(seq!['─', '─', '─', '─', '┼', '─'], (n - 1) as nat) + seq!['─', '─', '─', '\n']
    } else {
        seq!['\n']
    }
}

/// Append what follows the cell at row `i`, column `j` of an irregular board.
fn push_separator(out: &mut String, n: usize, i: usize, j: usize, rule: &Vec<char>)
    requires
        n >= 1,
        rule@ == seq!['─', '─', '─', '─', '┼', '─'],
    ensures
        final(out)@ == old(out)@ + irregular_sep(n as nat, i as nat, j as nat),
{
    if j < n - 1 {
        push_char(out, ' ');
        push_char(out, '│');
        push_char(out, ' ');
        assert(final(out)@ =~= old(out)@ + seq![' ', '│', ' ']);
    } else if i < n - 1 {
        push_char(out, '\n');
        push_repeat(out, rule, n - 1);
        push_char(out, '─');
        push_char(out, '─');
        push_char(out, '─');
        push_char(out, '\n');
        assert(final(out)@ =~= old(out)@ + (seq!['\n'] + repeat(rule@, (n - 1) as nat) + seq!['─', '─', '─', '\n']));
    } else {
        push_char(out, '\n');
    }
}

/// The lowercase hexadecimal digit of `d`.
fn lower_hex(d: u8) -> (r: char)
    requires
        d < 16,
    ensures
        r == hex_lower(d as nat),
{
    if d < 10 {
        (('0' as u8) + d) as char
    } else {
        (('a' as u8) + d - 10) as char
    }
}

impl Board {
    /// Every region index can be drawn as a single hexadecimal digit.
    pub open spec fn drawable(&self) -> bool {
        forall|c: Coord| in_grid(self.n(), c) ==> #[trigger] self.kind.region_at(self.size, c) + digit_shift(self.n()) < 16
    }

    /// Display the board in a human-readable format.
    ///
    /// Cells with no value are represented by `.`.
    /// Filled cells are represented using
    ///   * 1-4 for 4x4 boards
    ///   * 1-6 for 6x6 boards
    ///   * 1-9 for 9x9 boards
    ///   * 0-9 and A-B for 12x12 boards
    ///   * 0-9 and A-F for 16x16 boards
    ///
    /// The cells' value is always in uppercase if it is a hexadecimal digit.
    /// Regular boards draw lines between bands and stacks of regions.
    ///
    /// For irregular Sudoku boards, the region index is shown next to
    /// each cell (in a lowercase hexadecimal digit).
    pub fn display(&self) -> (r: String)
        requires
            self.wf(),
            self.exportable(),
            self.drawable(),
        ensures
            r@ == drawing(*self),
    {
        let max_cells = self.size.max_cells() as usize;
        let ghost n = self.n();
        let shift: u8 = if max_cells <= 9 { 1 } else { 0 };
        let mut out = String::new();
        match &self.kind {
            BoardKind::Regular => {
                let row_width = self.size.width() as usize;
                let col_height = self.size.height() as usize;
                proof {
                    self.size.lemma_region_shape();
                }
                let mut wide: Vec<char> = Vec::new();
                wide.push('═');
                let mut cross: Vec<char> = Vec::new();
                cross.push('╬');
                cross.push('═');
                let mut i: usize = 0;
                while i < max_cells
                    invariant
                        self.wf(),
                        self.exportable(),
                        self.kind == BoardKind::Regular,
                        max_cells == n,
                        n == self.n(),
                        4 <= n <= 16,
                        row_width == self.size.region_width(),
                        col_height == self.size.region_height(),
                        2 <= row_width <= 4,
                        2 <= col_height <= 4,
                        row_width * col_height == n,
                        shift == digit_shift(n),
                        wide@ == seq!['═'],
                        cross@ == seq!['╬', '═'],
                        0 <= i <= n,
                        out@ == regular_rows(*self, i as nat),
                    decreases n - i,
                {
                    let ghost start = out@;
                    if i % col_height == 0 && i != 0 {
                        proof {
                            assert(max_cells / row_width >= 1) by (nonlinear_arith)
                                requires
                                    row_width * col_height == max_cells,
                                    row_width > 0,
                                    col_height >= 1,
                            ;
                        }
                        let mut k: usize = 0;
                        while k < max_cells / row_width - 1
                            invariant
                                row_width == self.size.region_width(),
                                2 <= row_width <= 4,
                                max_cells / row_width >= 1,
                                wide@ == seq!['═'],
                                cross@ == seq!['╬', '═'],
                                0 <= k <= max_cells / row_width - 1,
                                out@ == start + repeat(repeat(seq!['═'], 2 * row_width as nat) + seq!['╬', '═'], k as nat),
                            decreases max_cells / row_width - 1 - k,
                        {
                            let ghost before = out@;
                            push_repeat(&mut out, &wide, row_width * 2);
                            push_repeat(&mut out, &cross, 1);
                            k += 1;
                            proof {
                                assert(repeat(cross@, 0) =~= Seq::<char>::empty());
                                assert(Seq::<char>::empty() + cross@ =~= cross@);
                                assert(repeat(cross@, 1) =~= cross@);
                                assert(out@ =~= start + repeat(repeat(seq!['═'], 2 * row_width as nat) + seq!['╬', '═'], k as nat));
                            }
                        }
                        push_repeat(&mut out, &wide, row_width * 2 - 1);
                        push_char(&mut out, '\n');
                        assert(out@ =~= start + band_line(n, row_width as nat));
                    }
                    let ghost mid = out@;
                    let row = &self.grid[i];
                    assert(row@.len() == n);
                    let mut j: usize = 0;
                    while j < max_cells
                        invariant
                            self.wf(),
                            self.exportable(),
                            max_cells == n,
                            n == self.n(),
                            4 <= n <= 16,
                            row_width == self.size.region_width(),
                            2 <= row_width <= 4,
                            shift == digit_shift(n),
                            0 <= i < n,
                            *row == self.grid@[i as int],
                            row@.len() == n,
                            0 <= j <= n,
                            out@ == mid + regular_cells(*self, i as nat, j as nat),
                        decreases n - j,
                    {
                        self.push_regular_cell(&mut out, i, j);
                        j += 1;
                        assert(out@ =~= mid + regular_cells(*self, i as nat, j as nat));
                    }
                    push_char(&mut out, '\n');
                    i += 1;
                    assert(out@ =~= regular_rows(*self, i as nat));
                }
            },
            BoardKind::Irregular { .. } => {
                let mut rule: Vec<char> = Vec::new();
                rule.push('─');
                rule.push('─');
                rule.push('─');
                rule.push('─');
                rule.push('┼');
                rule.push('─');
                let mut i: usize = 0;
                while i < max_cells
                    invariant
                        self.wf(),
                        self.exportable(),
                        self.drawable(),
                        self.kind is Irregular,
                        max_cells == n,
                        n == self.n(),
                        4 <= n <= 16,
                        shift == digit_shift(n),
                        rule@ == seq!['─', '─', '─', '─', '┼', '─'],
                        0 <= i <= n,
                        out@ == irregular_rows(*self, i as nat),
                    decreases n - i,
                {
                    let ghost mid = out@;
                    let row = &self.grid[i];
                    assert(row@.len() == n);
                    let mut j: usize = 0;
                    while j < max_cells
                        invariant
                            self.wf(),
                            self.exportable(),
                            self.drawable(),
                            max_cells == n,
                            n == self.n(),
                            4 <= n <= 16,
                            shift == digit_shift(n),
                            rule@ == seq!['─', '─', '─', '─', '┼', '─'],
                            0 <= i < n,
                            *row == self.grid@[i as int],
                            row@.len() == n,
                            0 <= j <= n,
                            out@ == mid + irregular_cells(*self, i as nat, j as nat),
                        decreases n - j,
                    {
                        self.push_irregular_cell(&mut out, i, j, &rule);
                        j += 1;
                        assert(out@ =~= mid + irregular_cells(*self, i as nat, j as nat));
                    }
                    i += 1;
                    assert(out@ =~= irregular_rows(*self, i as nat));
                }
            },
        }
        out
    }
}

impl Board {
    /// Append the text of the cell at row `i`, column `j` of a regular board.
    fn push_regular_cell(&self, out: &mut String, i: usize, j: usize)
        requires
            self.wf(),
            self.exportable(),
            i < self.n(),
            j < self.n(),
        ensures
            final(out)@ == old(out)@ + regular_cell(*self, i as nat, j as nat),
    {
        let max_cells = self.size.max_cells() as usize;
        let row_width = self.size.width() as usize;
        let shift: u8 = if max_cells <= 9 { 1 } else { 0 };
        proof {
            self.size.lemma_region_shape();
        }
        let last = j == max_cells - 1;
        let ghost suffix = if last { Seq::<char>::empty() } else { seq![' '] };
        if j % row_width == 0 && j != 0 {
            push_char(out, '║');
            if !last {
                push_char(out, ' ');
            }
        }
        let ghost mid = out@;
        let here = Coord { row: i, col: j };
        assert(self.grid@[i as int]@.len() == self.n());
        assert(self.grid@[i as int]@[j as int]@ == self.at(here));
        match &self.grid[i][j] {
            Cell::Value(v) => {
                assert(self.at(here) is Value);
                push_char(out, from_hex(*v + shift));
                push_char(out, ' ');
            },
            Cell::Notes(_) => {
                push_char(out, '.');
                if !last {
                    push_char(out, ' ');
                }
            },
        }
        assert(out@ =~= old(out)@ + regular_cell(*self, i as nat, j as nat));
    }

    /// Append the text of the cell at row `i`, column `j` of an irregular board.
    fn push_irregular_cell(&self, out: &mut String, i: usize, j: usize, rule: &Vec<char>)
        requires
            self.wf(),
            self.exportable(),
            self.drawable(),
            i < self.n(),
            j < self.n(),
            rule@ == seq!['─', '─', '─', '─', '┼', '─'],
        ensures
            final(out)@ == old(out)@ + irregular_cell(*self, i as nat, j as nat),
    {
        let max_cells = self.size.max_cells() as usize;
        let shift: u8 = if max_cells <= 9 { 1 } else { 0 };
        let here = Coord { row: i, col: j };
        assert(self.grid@[i as int]@.len() == self.n());
        assert(self.grid@[i as int]@[j as int]@ == self.at(here));
        let region = self.kind.index(&self.size, here);
        let region_char = match region {
            Some(m) => {
                assert(self.kind.region_at(self.size, here) + digit_shift(self.n()) < 16);
                lower_hex(m + shift)
            },
            None => '?',
        };
        match &self.grid[i][j] {
            Cell::Value(v) => {
                assert(self.at(here) is Value);
                push_char(out, from_hex(*v + shift));
            },
            Cell::Notes(_) => {
                push_char(out, '.');
            },
        }
        push_char(out, '┆');
        push_char(out, region_char);
        let ghost mid = out@;
        push_separator(out, max_cells, i, j, rule);
        assert(out@ =~= old(out)@ + irregular_cell(*self, i as nat, j as nat));
    }
}

/// The decimal digits of `x`.
pub open spec fn decimal(x: nat) -> Seq<char>
    decreases x,
{
    if x < 10 {
        seq![(('0' as u32) + x) as char]
    } else {
        decimal(x / 10).push((('0' as u32) + x % 10) as char)
    }
}

/// Append the decimal digits of `x` to `out`.
fn push_decimal(out: &mut String, x: usize)
    ensures
        final(out)@ == old(out)@ + decimal(x as nat),
    decreases x,
{
    if x >= 10 {
        push_decimal(out, x / 10);
    }
    let d = (x % 10) as u8;
    push_char(out, (('0' as u8) + d) as char);
    proof {
        if x >= 10 {
            assert(old(out)@ + decimal(x as nat) =~= old(out)@ + decimal((x / 10) as nat) + seq![(('0' as u32) + x % 10) as char]);
        }
    }
}

impl Coord {
    /// The coordinate as `(row, col)` in decimal.
    pub fn display(&self) -> (r: String)
        ensures
            r@ == seq!['('] + decimal(self.row as nat) + seq![',', ' '] + decimal(self.col as nat) + seq![')'],
    {
        let mut out = String::new();
        push_char(&mut out, '(');
        push_decimal(&mut out, self.row);
        push_char(&mut out, ',');
        push_char(&mut out, ' ');
        push_decimal(&mut out, self.col);
        push_char(&mut out, ')');
        assert(out@ =~= seq!['('] + decimal(self.row as nat) + seq![',', ' '] + decimal(self.col as nat) + seq![')']);
        out
    }
}


/// `s` repeated `k` times is `k` copies long, and starts as `s` does.
proof fn lemma_repeat(s: Seq<char>, k: nat)
    ensures
        repeat(s, k).len() == k * s.len(),
        k > 0 && s.len() > 0 ==> repeat(s, k)[0] == s[0],
    decreases k,
{
    if k > 0 {
        lemma_repeat(s, (k - 1) as nat);
        assert(repeat(s, k).len() == (k - 1) * s.len() + s.len());
        assert((k - 1) * s.len() + s.len() == k * s.len()) by (nonlinear_arith);
    } else {
        assert(k * s.len() == 0) by (nonlinear_arith)
            requires
                k == 0,
        ;
    }
}

/// The text of rows `0..k` stands at the start of the text of rows `0..m`.
proof fn lemma_rows_prefix(b: Board, k: nat, m: nat, p: int)
    requires
        k < m,
        0 <= p < regular_row(b, k).len(),
    ensures
        regular_rows(b, k).len() + regular_row(b, k).len() <= regular_rows(b, m).len(),
        regular_rows(b, m)[regular_rows(b, k).len() + p] == regular_row(b, k)[p],
    decreases m,
{
    if m > k + 1 {
        lemma_rows_prefix(b, k, (m - 1) as nat, p);
    }
}

/// The text of the cells `0..j` of a row stands at the start of the text of
/// its cells `0..m`.
proof fn lemma_cells_prefix(b: Board, i: nat, j: nat, m: nat, p: int)
    requires
        j < m,
        0 <= p < regular_cell(b, i, j).len(),
    ensures
        regular_cells(b, i, j).len() + regular_cell(b, i, j).len() <= regular_cells(b, i, m).len(),
        regular_cells(b, i, m)[regular_cells(b, i, j).len() + p] == regular_cell(b, i, j)[p],
    decreases m,
{
    if m > j + 1 {
        lemma_cells_prefix(b, i, j, (m - 1) as nat, p);
    }
}

/// The text of a cell of a regular board starts with a vertical line when
/// one is drawn before it, and otherwise with its digit or a dot.
proof fn lemma_cell_start(b: Board, i: nat, j: nat)
    requires
        b.exportable(),
        i < b.n(),
        j < b.n(),
    ensures
        regular_cell(b, i, j).len() > 0,
        regular_cell(b, i, j)[0] == '║' <==> (j % b.size.region_width() == 0 && j != 0),
        regular_cell(b, i, j)[0] != '═',
{
    let c = b.at(Coord { row: i as usize, col: j as usize });
    assert(in_grid(b.n(), Coord { row: i as usize, col: j as usize }));
    if c is Value {
        let d = (c->Value_0 + digit_shift(b.n())) as nat;
        assert(d < 16);
        assert(drawn(c, b.n()) == hex_char(d));
        assert(hex_char(d) != '║' && hex_char(d) != '═');
    }
}

/// On a regular board, row `i` starts a new band of regions exactly when
/// `i` is a multiple of the region height.
proof fn lemma_band_start(size: BoardSize, i: nat, j: nat)
    requires
        0 < i < size.cells(),
        j < size.cells(),
    ensures
        BoardKind::Regular.region_at(size, Coord { row: i as usize, col: j as usize }) != BoardKind::Regular.region_at(
            size,
            Coord { row: (i - 1) as usize, col: j as usize },
        ) <==> i % size.region_height() == 0,
{
}

/// On a regular board, column `j` starts a new stack of regions exactly
/// when `j` is a multiple of the region width.
proof fn lemma_stack_start(size: BoardSize, i: nat, j: nat)
    requires
        i < size.cells(),
        0 < j < size.cells(),
    ensures
        BoardKind::Regular.region_at(size, Coord { row: i as usize, col: j as usize }) != BoardKind::Regular.region_at(
            size,
            Coord { row: i as usize, col: (j - 1) as usize },
        ) <==> j % size.region_width() == 0,
{
}

/// In the drawing of a regular board, the text of row `i` (which follows the
/// text of the rows above it) opens with a horizontal band line exactly when
/// row `i` lies in other regions than the row above it, in any column `j`:
/// the bands of rows in the drawing are the rows of regions.
pub proof fn law_display_bands(b: Board, i: nat, j: nat)
    requires
        b.wf(),
        b.exportable(),
        b.kind is Regular,
        i < b.n(),
        j < b.n(),
    ensures
        regular_rows(b, i).len() < drawing(b).len(),
        drawing(b)[regular_rows(b, i).len() as int] == '═' <==> (i > 0 && b.kind.region_at(
            b.size,
            Coord { row: i as usize, col: j as usize },
        ) != b.kind.region_at(b.size, Coord { row: (i - 1) as usize, col: j as usize })),
{
    let n = b.n();
    let w = b.size.region_width();
    let height = b.size.region_height();
    b.size.lemma_region_shape();
    assert(regular_row(b, i).len() > 0);
    lemma_rows_prefix(b, i, n, 0);
    assert(drawing(b) == regular_rows(b, n));
    lemma_cells_prefix(b, i, 0, n, 0);
    lemma_cell_start(b, i, 0);
    assert(regular_cells(b, i, 0).len() == 0);
    if i % height == 0 && i != 0 {
        assert(n / w == height) by (nonlinear_arith)
            requires
                w * height == n,
                w > 0,
        ;
        let x = repeat(seq!['═'], 2 * w) + seq!['╬', '═'];
        lemma_repeat(seq!['═'], 2 * w);
        lemma_repeat(x, (n / w - 1) as nat);
        assert(repeat(x, (n / w - 1) as nat)[0] == '═');
        assert(band_line(n, w)[0] == '═');
        assert(regular_row(b, i)[0] == '═');
    } else {
        assert(regular_row(b, i)[0] == regular_cells(b, i, n)[0]);
    }
    if i > 0 {
        lemma_band_start(b.size, i, j);
    }
}

/// In the drawing of row `i` of a regular board, the text of the cell in
/// column `j` (which follows the text of the cells before it) opens with a
/// vertical line exactly when column `j` lies in another region than the
/// column before it: the stacks of columns in the drawing are the columns
/// of regions.
pub proof fn law_display_stacks(b: Board, i: nat, j: nat)
    requires
        b.wf(),
        b.exportable(),
        b.kind is Regular,
        i < b.n(),
        j < b.n(),
    ensures
        regular_cells(b, i, j).len() < regular_cells(b, i, b.n()).len(),
        regular_cells(b, i, b.n())[regular_cells(b, i, j).len() as int] == '║' <==> (j > 0 && b.kind.region_at(
            b.size,
            Coord { row: i as usize, col: j as usize },
        ) != b.kind.region_at(b.size, Coord { row: i as usize, col: (j - 1) as usize })),
{
    lemma_cell_start(b, i, j);
    lemma_cells_prefix(b, i, j, b.n(), 0);
    if j > 0 {
        lemma_stack_start(b.size, i, j);
    }
}

/// A character that marks a cell in a drawing: neither a space nor one of
/// the lines and line ends drawn between cells.
pub open spec fn is_mark(ch: char) -> bool {
    ch != ' ' && ch != '║' && ch != '═' && ch != '╬' && ch != '\n'
}

/// Whether a character marks a cell, as a predicate to filter a text with.
pub open spec fn mark_pred() -> spec_fn(char) -> bool {
    |ch: char| is_mark(ch)
}

/// The characters of `s` that mark cells, in order.
pub open spec fn marks(s: Seq<char>) -> Seq<char> {
    s.filter(mark_pred())
}

/// Filtering a text of which no character passes `pred` leaves nothing.
proof fn lemma_filter_none(s: Seq<char>, pred: spec_fn(char) -> bool)
    requires
        forall|k: int| 0 <= k < s.len() ==> !pred(#[trigger] s[k]),
    ensures
        s.filter(pred) == Seq::<char>::empty(),
    decreases s.len(),
{
    reveal(Seq::filter);
    if s.len() > 0 {
        lemma_filter_none(s.drop_last(), pred);
    }
}

/// Filtering a single character that passes `pred` keeps it.
proof fn lemma_filter_one(ch: char, pred: spec_fn(char) -> bool)
    requires
        pred(ch),
    ensures
        seq![ch].filter(pred) == seq![ch],
{
    reveal(Seq::filter);
    assert(seq![ch].drop_last() =~= Seq::<char>::empty());
}

/// Repeating a text that filtering empties gives a text that filtering
/// empties.
proof fn lemma_filter_repeat(s: Seq<char>, k: nat, pred: spec_fn(char) -> bool)
    requires
        s.filter(pred) == Seq::<char>::empty(),
    ensures
        repeat(s, k).filter(pred) == Seq::<char>::empty(),
    decreases k,
{
    if k > 0 {
        lemma_filter_repeat(s, (k - 1) as nat, pred);
        Seq::filter_distributes_over_add(repeat(s, (k - 1) as nat), s, pred);
        assert(Seq::<char>::empty() + Seq::<char>::empty() =~= Seq::<char>::empty());
    }
}

/// A band line marks no cell.
proof fn lemma_marks_band(n: nat, w: nat)
    ensures
        marks(band_line(n, w)) == Seq::<char>::empty(),
{
    let e = Seq::<char>::empty();
    lemma_filter_none(seq!['═'], mark_pred());
    lemma_filter_none(seq!['╬', '═'], mark_pred());
    lemma_filter_none(seq!['\n'], mark_pred());
    lemma_filter_repeat(seq!['═'], 2 * w, mark_pred());
    let x = repeat(seq!['═'], 2 * w) + seq!['╬', '═'];
    Seq::filter_distributes_over_add(repeat(seq!['═'], 2 * w), seq!['╬', '═'], mark_pred());
    assert(e + e =~= e);
    lemma_filter_repeat(x, (n / w - 1) as nat, mark_pred());
    lemma_filter_repeat(seq!['═'], (2 * w - 1) as nat, mark_pred());
    let y = repeat(x, (n / w - 1) as nat);
    let z = repeat(seq!['═'], (2 * w - 1) as nat);
    Seq::filter_distributes_over_add(y, z, mark_pred());
    Seq::filter_distributes_over_add(y + z, seq!['\n'], mark_pred());
}

/// The text of a cell of a regular board marks the character that export
/// writes for it.
#[verifier::rlimit(40)]
proof fn lemma_marks_cell(b: Board, i: nat, j: nat)
    requires
        b.exportable(),
        i < b.n(),
        j < b.n(),
    ensures
        marks(regular_cell(b, i, j)) == seq![cell_char(b.at(Coord { row: i as usize, col: j as usize }), b.n())],
{
    let n = b.n();
    let c = b.at(Coord { row: i as usize, col: j as usize });
    assert(in_grid(n, Coord { row: i as usize, col: j as usize }));
    let e = Seq::<char>::empty();
    let suffix = if j == n - 1 {
        e
    } else {
        seq![' ']
    };
    let bar = if j % b.size.region_width() == 0 && j != 0 {
        seq!['║'] + suffix
    } else {
        e
    };
    lemma_filter_none(bar, mark_pred());
    lemma_filter_none(suffix, mark_pred());
    lemma_filter_none(seq![' '], mark_pred());
    let body = match c {
        CellView::Value(_) => seq![drawn(c, n), ' '],
        CellView::Notes(_) => seq!['.'] + suffix,
    };
    assert(regular_cell(b, i, j) == bar + body);
    if c is Value {
        let d = (c->Value_0 + digit_shift(n)) as nat;
        assert(d < 16);
        assert(is_mark(hex_char(d)));
        lemma_filter_one(drawn(c, n), mark_pred());
        assert(body == seq![drawn(c, n)] + seq![' ']);
        Seq::filter_distributes_over_add(seq![drawn(c, n)], seq![' '], mark_pred());
    } else {
        lemma_filter_one('.', mark_pred());
        Seq::filter_distributes_over_add(seq!['.'], suffix, mark_pred());
    }
    assert(marks(body) =~= seq![cell_char(c, n)]);
    Seq::filter_distributes_over_add(bar, body, mark_pred());
    assert(e + marks(body) =~= marks(body));
}

/// The text of the first `k` cells of row `i` marks the exported row.
proof fn lemma_marks_cells(b: Board, i: nat, k: nat)
    requires
        b.exportable(),
        i < b.n(),
        k <= b.n(),
    ensures
        marks(regular_cells(b, i, k)) == row_chars(b, i, k),
    decreases k,
{
    if k > 0 {
        lemma_marks_cells(b, i, (k - 1) as nat);
        lemma_marks_cell(b, i, (k - 1) as nat);
        Seq::filter_distributes_over_add(regular_cells(b, i, (k - 1) as nat), regular_cell(b, i, (k - 1) as nat), mark_pred());
        assert(row_chars(b, i, (k - 1) as nat) + seq![
            cell_char(b.at(Coord { row: i as usize, col: (k - 1) as usize }), b.n()),
        ] =~= row_chars(b, i, k));
    }
}

/// The text of the first `k` rows of a regular board marks its first `k`
/// exported rows.
#[verifier::rlimit(40)]
proof fn lemma_marks_rows(b: Board, k: nat)
    requires
        b.exportable(),
        k <= b.n(),
    ensures
        marks(regular_rows(b, k)) == board_chars(b, k),
    decreases k,
{
    if k > 0 {
        let i = (k - 1) as nat;
        lemma_marks_rows(b, i);
        lemma_marks_cells(b, i, b.n());
        lemma_marks_band(b.n(), b.size.region_width());
        lemma_filter_none(seq!['\n'], mark_pred());
        lemma_filter_none(Seq::<char>::empty(), mark_pred());
        let band = if i % b.size.region_height() == 0 && i != 0 {
            band_line(b.n(), b.size.region_width())
        } else {
            Seq::empty()
        };
        let cells = regular_cells(b, i, b.n());
        assert(regular_row(b, i) == band + cells + seq!['\n']);
        Seq::filter_distributes_over_add(band, cells, mark_pred());
        Seq::filter_distributes_over_add(band + cells, seq!['\n'], mark_pred());
        assert(Seq::<char>::empty() + row_chars(b, i, b.n()) + Seq::<char>::empty() =~= row_chars(b, i, b.n()));
        Seq::filter_distributes_over_add(regular_rows(b, i), regular_row(b, i), mark_pred());
    }
}

/// Leaving out its spaces and lines, the drawing of a regular board is the
/// board's export: the same digit, or `.`, for every cell, in the same
/// row-major order.
pub proof fn law_display_shows_export(b: Board)
    requires
        b.wf(),
        b.exportable(),
        b.kind is Regular,
    ensures
        marks(drawing(b)) == board_chars(b, b.n()),
{
    lemma_marks_rows(b, b.n());
}

/// The character at position `p` of `s` repeated is that of `s` at
/// `p` modulo its length.
proof fn lemma_repeat_at(s: Seq<char>, k: nat, p: int)
    requires
        s.len() > 0,
        0 <= p < repeat(s, k).len(),
    ensures
        repeat(s, k)[p] == s[p % (s.len() as int)],
    decreases k,
{
    lemma_repeat(s, (k - 1) as nat);
    let before = repeat(s, (k - 1) as nat);
    if p < before.len() {
        lemma_repeat_at(s, (k - 1) as nat, p);
    } else {
        vstd::arithmetic::div_mod::lemma_fundamental_div_mod_converse(
            p,
            s.len() as int,
            (k - 1) as int,
            p - before.len(),
        );
    }
}

/// The band line of a board of `n = w * h` cells a row: `h - 1` runs of
/// `2 * w` lines, each closed by a cross and one more line, then `2 * w - 1`
/// lines and the line end.
proof fn lemma_band_at(n: nat, w: nat, h: nat, p: int)
    requires
        n == w * h,
        w >= 2,
        h >= 2,
        0 <= p < band_line(n, w).len(),
    ensures
        band_line(n, w).len() == (h - 1) * (2 * w + 2) + 2 * w,
        band_line(n, w)[p] == '\n' <==> p == band_line(n, w).len() - 1,
        band_line(n, w)[p] == '╬' <==> (p < (h - 1) * (2 * w + 2) && p % (2 * w + 2) as int == 2 * w),
{
    assert(n == h * w) by (nonlinear_arith)
        requires
            n == w * h,
    ;
    vstd::arithmetic::div_mod::lemma_fundamental_div_mod_converse(n as int, w as int, h as int, 0);
    assert(n / w == h);
    let l = 2 * w + 2;
    let line = seq!['═'];
    let x = repeat(line, 2 * w) + seq!['╬', '═'];
    assert(line.len() == 1);
    lemma_repeat(line, 2 * w);
    assert((2 * w) * line.len() == 2 * w);
    lemma_repeat(x, (h - 1) as nat);
    lemma_repeat(line, (2 * w - 1) as nat);
    assert(((2 * w - 1) as nat) * line.len() == 2 * w - 1);
    let y = repeat(x, (h - 1) as nat);
    let z = repeat(line, (2 * w - 1) as nat);
    assert(band_line(n, w) == y + z + seq!['\n']);
    assert(x.len() == l);
    if p < y.len() {
        lemma_repeat_at(x, (h - 1) as nat, p);
        let o = p % (l as int);
        if o < 2 * w {
            lemma_repeat_at(line, 2 * w, o);
            assert(x[o] == '═');
        }
    } else if p < y.len() + z.len() {
        lemma_repeat_at(line, (2 * w - 1) as nat, p - y.len());
    }
}

/// Dividing by a region width, from `j - 1` to `j` the quotient grows by one
/// exactly when `j` is a multiple of the width.
proof fn lemma_div_step(j: nat, w: nat)
    requires
        j >= 1,
        2 <= w <= 4,
    ensures
        j / w == ((j - 1) as nat / w) as int + (if j % w == 0 {
            1int
        } else {
            0int
        }),
{
    if w == 2 {
    } else if w == 3 {
    } else {
    }
}

/// The characters of the text of a cell of a regular board: only its first
/// one can be a vertical line, when one is drawn before it; none ends a line.
proof fn lemma_cell_chars(b: Board, i: nat, j: nat, q: int)
    requires
        b.exportable(),
        i < b.n(),
        j < b.n(),
        0 <= q < regular_cell(b, i, j).len(),
    ensures
        regular_cell(b, i, j)[q] == '║' <==> (q == 0 && j % b.size.region_width() == 0 && j != 0),
        regular_cell(b, i, j)[q] != '\n',
{
    let c = b.at(Coord { row: i as usize, col: j as usize });
    assert(in_grid(b.n(), Coord { row: i as usize, col: j as usize }));
    if c is Value {
        let d = (c->Value_0 + digit_shift(b.n())) as nat;
        assert(d < 16);
        assert(hex_char(d) != '║' && hex_char(d) != '\n');
    }
}

/// The length of the text of the cells before column `j` of a row, when `j`
/// is not the last column: two characters a cell, and two more for each
/// vertical line.
proof fn lemma_cells_len(b: Board, i: nat, j: nat)
    requires
        i < b.n(),
        j < b.n(),
    ensures
        regular_cells(b, i, j).len() == (if j == 0 {
            0int
        } else {
            (2 * j + 2 * ((j - 1) as nat / b.size.region_width())) as int
        }),
    decreases j,
{
    b.size.lemma_region_shape();
    if j > 0 {
        lemma_cells_len(b, i, (j - 1) as nat);
        if j >= 2 {
            lemma_div_step((j - 1) as nat, b.size.region_width());
        }
    }
}

/// In the text of the first `k` cells of a row, a vertical line stands
/// exactly at the start of the cells after which a new stack of regions
/// begins.
proof fn lemma_cells_bar(b: Board, i: nat, k: nat, p: int)
    requires
        b.exportable(),
        i < b.n(),
        k <= b.n(),
        0 <= p < regular_cells(b, i, k).len(),
    ensures
        regular_cells(b, i, k)[p] == '║' <==> exists|j: nat|
            j < k && j % b.size.region_width() == 0 && j != 0 && p == #[trigger] regular_cells(b, i, j).len(),
        regular_cells(b, i, k)[p] != '\n',
    decreases k,
{
    let w = b.size.region_width();
    let before = regular_cells(b, i, (k - 1) as nat);
    if p < before.len() {
        lemma_cells_bar(b, i, (k - 1) as nat, p);
        if regular_cells(b, i, k)[p] == '║' {
        } else {
            if exists|j: nat| j < k && j % w == 0 && j != 0 && p == #[trigger] regular_cells(b, i, j).len() {
                let j = choose|j: nat| j < k && j % w == 0 && j != 0 && p == #[trigger] regular_cells(b, i, j).len();
                if j == k - 1 {
                    assert(false);
                }
                assert(j < k - 1);
            }
        }
    } else {
        let q = p - before.len();
        lemma_cell_chars(b, i, (k - 1) as nat, q);
        assert(regular_cells(b, i, k)[p] == regular_cell(b, i, (k - 1) as nat)[q]);
        if regular_cells(b, i, k)[p] == '║' {
            assert(regular_cells(b, i, (k - 1) as nat).len() == p);
        } else {
            if exists|j: nat| j < k && j % w == 0 && j != 0 && p == #[trigger] regular_cells(b, i, j).len() {
                let j = choose|j: nat| j < k && j % w == 0 && j != 0 && p == #[trigger] regular_cells(b, i, j).len();
                if j < k - 1 {
                    assert(regular_cell(b, i, j).len() > 0);
                    lemma_cells_prefix(b, i, j, (k - 1) as nat, 0);
                    assert(false);
                }
                assert(j == k - 1);
            }
        }
    }
}

/// The positions of the crosses of a band line are those of the vertical
/// lines of a row: the line before column `j = m * w` stands where the `m`-th
/// cross does.
proof fn lemma_cross_bar(w: nat, h: nat, p: int)
    requires
        2 <= w,
        2 <= h,
        0 <= p,
    ensures
        (p < (h - 1) * (2 * w + 2) && p % (2 * w + 2) as int == 2 * w) <==> exists|j: nat|
            j < w * h && j % w == 0 && j != 0 && p == #[trigger] (2 * j + 2 * ((j - 1) as nat / w)),
{
    let l = (2 * w + 2) as int;
    if p < (h - 1) * l && p % l == 2 * w {
        vstd::arithmetic::div_mod::lemma_fundamental_div_mod(p, l);
        let m = p / l + 1;
        assert(m >= 1);
        assert(m <= h - 1) by (nonlinear_arith)
            requires
                p < (h - 1) * l,
                p == l * (m - 1) + 2 * w,
                l > 0,
        ;
        let j = (m * w) as nat;
        assert(j < w * h) by (nonlinear_arith)
            requires
                m <= h - 1,
                j == m * w,
                w > 0,
        ;
        assert(j >= 1) by (nonlinear_arith)
            requires
                m >= 1,
                j == m * w,
                w >= 2,
        ;
        assert(j - 1 == (m - 1) * w + (w - 1)) by (nonlinear_arith)
            requires
                j == m * w,
        ;
        vstd::arithmetic::div_mod::lemma_fundamental_div_mod_converse(j as int, w as int, m, 0);
        vstd::arithmetic::div_mod::lemma_fundamental_div_mod_converse((j - 1) as int, w as int, m - 1, w - 1);
        let d = (j - 1) as nat / w;
        assert(d == m - 1);
        assert(p == 2 * j + 2 * d) by (nonlinear_arith)
            requires
                p == l * (m - 1) + 2 * w,
                l == 2 * w + 2,
                j == m * w,
                d == m - 1,
        ;
        assert(p == 2 * j + 2 * ((j - 1) as nat / w));
        assert(j < w * h && j % w == 0 && j != 0);
    }
    if exists|j: nat| j < w * h && j % w == 0 && j != 0 && p == #[trigger] (2 * j + 2 * ((j - 1) as nat / w)) {
        let j = choose|j: nat| j < w * h && j % w == 0 && j != 0 && p == #[trigger] (2 * j + 2 * ((j - 1) as nat / w));
        vstd::arithmetic::div_mod::lemma_fundamental_div_mod(j as int, w as int);
        let m = j as int / w as int;
        assert(j == m * w) by (nonlinear_arith)
            requires
                j == w * m + 0,
        ;
        assert(m >= 1) by (nonlinear_arith)
            requires
                j == m * w,
                j != 0,
                w > 0,
                m >= 0,
        ;
        assert(m < h) by (nonlinear_arith)
            requires
                j == m * w,
                j < w * h,
                w > 0,
        ;
        assert(j - 1 == (m - 1) * w + (w - 1)) by (nonlinear_arith)
            requires
                j == m * w,
        ;
        vstd::arithmetic::div_mod::lemma_fundamental_div_mod_converse((j - 1) as int, w as int, m - 1, w - 1);
        assert(p == (m - 1) * l + 2 * w) by (nonlinear_arith)
            requires
                p == 2 * j + 2 * (m - 1),
                j == m * w,
                l == 2 * w + 2,
        ;
        vstd::arithmetic::div_mod::lemma_fundamental_div_mod_converse(p, l, m - 1, (2 * w) as int);
        assert(p < (h - 1) * l) by (nonlinear_arith)
            requires
                p == (m - 1) * l + 2 * w,
                m < h,
                l == 2 * w + 2,
        ;
        assert(p % l == 2 * w);
    }
}

/// On a regular board, the band line drawn above a row that starts a new
/// band of regions (the text of the row up to its first line end) is as
/// wide as the text of the row's cells, one less when its last cell is
/// filled (a filled cell is followed by a space), and it has a cross
/// exactly above each vertical line of the row.
pub proof fn law_display_band_crosses(b: Board, i: nat)
    requires
        b.wf(),
        b.exportable(),
        b.kind is Regular,
        0 < i < b.n(),
        b.kind.region_at(b.size, Coord { row: i as usize, col: 0 }) != b.kind.region_at(
            b.size,
            Coord { row: (i - 1) as usize, col: 0 },
        ),
    ensures
        exists|q: int|
            0 < q < regular_row(b, i).len() && #[trigger] regular_row(b, i)[q] == '\n' && {
                &&& forall|p: int| 0 <= p < q ==> #[trigger] regular_row(b, i)[p] != '\n'
                &&& regular_row(b, i).len() == 2 * q + 2 + (if b.at(
                    Coord { row: i as usize, col: (b.n() - 1) as usize },
                ) is Value {
                    1int
                } else {
                    0int
                })
                &&& forall|p: int|
                    0 <= p < q ==> (#[trigger] regular_row(b, i)[p] == '╬' <==> regular_row(b, i)[q + 1 + p] == '║')
            },
{
    let n = b.n();
    let w = b.size.region_width();
    let hh = b.size.region_height();
    b.size.lemma_region_shape();
    lemma_band_start(b.size, i, 0);
    let band = band_line(n, w);
    let cells = regular_cells(b, i, n);
    let t = regular_row(b, i);
    assert(t == band + cells + seq!['\n']);
    lemma_band_at(n, w, hh, 0);
    let l = (2 * w + 2) as int;
    let q = band.len() - 1;
    assert(q == 2 * n + 2 * hh - 3) by (nonlinear_arith)
        requires
            q == (hh - 1) * l + 2 * w - 1,
            l == 2 * w + 2,
            n == w * hh,
    ;
    assert(band[q] == '\n') by {
        lemma_band_at(n, w, hh, q);
    }
    // The length of the cells' text.
    lemma_cells_len(b, i, (n - 1) as nat);
    assert(n - 2 == (hh - 1) * w + (w - 2)) by (nonlinear_arith)
        requires
            n == w * hh,
    ;
    vstd::arithmetic::div_mod::lemma_fundamental_div_mod_converse((n - 2) as int, w as int, hh - 1, w - 2);
    assert(n - 1 == (hh - 1) * w + (w - 1)) by (nonlinear_arith)
        requires
            n == w * hh,
    ;
    vstd::arithmetic::div_mod::lemma_fundamental_div_mod_converse((n - 1) as int, w as int, hh - 1, w - 1);
    let last = b.at(Coord { row: i as usize, col: (n - 1) as usize });
    let extra: int = if last is Value {
        1
    } else {
        0
    };
    assert(regular_cell(b, i, (n - 1) as nat).len() == 1 + extra);
    assert(cells.len() == q + extra);
    assert(t[q] == '\n');
    assert forall|p: int| 0 <= p < q implies #[trigger] t[p] != '\n' by {
        lemma_band_at(n, w, hh, p);
    }
    assert forall|p: int| 0 <= p < q implies (#[trigger] t[p] == '╬' <==> t[q + 1 + p] == '║') by {
        lemma_band_at(n, w, hh, p);
        assert(t[p] == band[p]);
        assert(t[q + 1 + p] == cells[p]);
        lemma_cells_bar(b, i, n, p);
        lemma_cross_bar(w, hh, p);
        assert forall|j: nat| j < n implies #[trigger] regular_cells(b, i, j).len() == (if j == 0 {
            0int
        } else {
            (2 * j + 2 * ((j - 1) as nat / w)) as int
        }) by {
            lemma_cells_len(b, i, j);
        }
        if cells[p] == '║' {
            let j = choose|j: nat| j < n && j % w == 0 && j != 0 && p == #[trigger] regular_cells(b, i, j).len();
            assert(p == 2 * j + 2 * ((j - 1) as nat / w));
        }
        if band[p] == '╬' {
            let j = choose|j: nat| j < w * hh && j % w == 0 && j != 0 && p == #[trigger] (2 * j + 2 * ((j - 1) as nat / w));
            assert(p == regular_cells(b, i, j).len());
        }
    }
    assert(t.len() == 2 * q + 2 + extra);
}

/// A character that marks a cell or its region in the drawing of an
/// irregular board: neither a space nor one of the lines and line ends drawn
/// between and beside cells.
pub open spec fn is_irregular_mark(ch: char) -> bool {
    ch != ' ' && ch != '│' && ch != '┆' && ch != '─' && ch != '┼' && ch != '\n'
}

/// Whether a character marks a cell or its region, as a predicate to filter
/// a text with.
pub open spec fn irregular_mark_pred() -> spec_fn(char) -> bool {
    |ch: char| is_irregular_mark(ch)
}

/// The character that stands for the region of the cell `c`: the digit that
/// export writes for a value equal to the region's index, in lower case.
pub open spec fn region_char(b: Board, c: Coord) -> char {
    lower_char(cell_char(CellView::Value(b.kind.region_at(b.size, c) as u8), b.n()))
}

/// For each of the first `j` cells of row `r`: the character that export
/// writes for it, then the character of its region.
pub open spec fn cells_with_regions(b: Board, r: nat, j: nat) -> Seq<char>
    decreases j,
{
    if j == 0 {
        Seq::empty()
    } else {
        let c = Coord { row: r as usize, col: (j - 1) as usize };
        cells_with_regions(b, r, (j - 1) as nat) + seq![cell_char(b.at(c), b.n()), region_char(b, c)]
    }
}

/// [`cells_with_regions`] for every cell of the first `k` rows, row by row.
pub open spec fn rows_with_regions(b: Board, k: nat) -> Seq<char>
    decreases k,
{
    if k == 0 {
        Seq::empty()
    } else {
        rows_with_regions(b, (k - 1) as nat) + cells_with_regions(b, (k - 1) as nat, b.n())
    }
}

/// What follows a cell of an irregular board marks nothing.
proof fn lemma_irregular_sep_marks(n: nat, i: nat, j: nat)
    ensures
        irregular_sep(n, i, j).filter(irregular_mark_pred()) == Seq::<char>::empty(),
{
    let pred = irregular_mark_pred();
    let e = Seq::<char>::empty();
    if j < n - 1 {
        lemma_filter_none(seq![' ', '│', ' '], pred);
    } else if i < n - 1 {
        let rule = seq!['─', '─', '─', '─', '┼', '─'];
        lemma_filter_none(rule, pred);
        lemma_filter_none(seq!['\n'], pred);
        lemma_filter_none(seq!['─', '─', '─', '\n'], pred);
        lemma_filter_repeat(rule, (n - 1) as nat, pred);
        let a = seq!['\n'];
        let r = repeat(rule, (n - 1) as nat);
        let z = seq!['─', '─', '─', '\n'];
        Seq::filter_distributes_over_add(a, r, pred);
        Seq::filter_distributes_over_add(a + r, z, pred);
        assert(e + e + e =~= e);
    } else {
        lemma_filter_none(seq!['\n'], pred);
    }
}

/// The text of a cell of an irregular board marks the character that export
/// writes for it, then the character of its region.
#[verifier::rlimit(40)]
proof fn lemma_irregular_cell_marks(b: Board, i: nat, j: nat)
    requires
        b.exportable(),
        b.drawable(),
        i < b.n(),
        j < b.n(),
    ensures
        irregular_cell(b, i, j).filter(irregular_mark_pred()) == seq![
            cell_char(b.at(Coord { row: i as usize, col: j as usize }), b.n()),
            region_char(b, Coord { row: i as usize, col: j as usize }),
        ],
{
    let pred = irregular_mark_pred();
    let n = b.n();
    let c = Coord { row: i as usize, col: j as usize };
    assert(in_grid(n, c));
    let x = drawn(b.at(c), n);
    if b.at(c) is Value {
        let d = (b.at(c)->Value_0 + digit_shift(n)) as nat;
        assert(d < 16);
        assert(is_irregular_mark(hex_char(d)));
    }
    assert(x == cell_char(b.at(c), n));
    let rd = (b.kind.region_at(b.size, c) + digit_shift(n)) as nat;
    assert(rd < 16);
    assert(b.kind.region_at(b.size, c) >= 0);
    let y = hex_lower(rd);
    assert(y == region_char(b, c));
    assert(is_irregular_mark(y));
    lemma_filter_one(x, pred);
    lemma_filter_one(y, pred);
    lemma_filter_none(seq!['┆'], pred);
    lemma_irregular_sep_marks(n, i, j);
    let sep = irregular_sep(n, i, j);
    assert(irregular_cell(b, i, j) == seq![x] + seq!['┆'] + seq![y] + sep);
    Seq::filter_distributes_over_add(seq![x], seq!['┆'], pred);
    Seq::filter_distributes_over_add(seq![x] + seq!['┆'], seq![y], pred);
    Seq::filter_distributes_over_add(seq![x] + seq!['┆'] + seq![y], sep, pred);
    assert(seq![x] + Seq::<char>::empty() + seq![y] + Seq::<char>::empty() =~= seq![x, y]);
}

/// The text of the first `k` cells of row `i` of an irregular board marks
/// each cell, then its region.
proof fn lemma_irregular_cells_marks(b: Board, i: nat, k: nat)
    requires
        b.exportable(),
        b.drawable(),
        i < b.n(),
        k <= b.n(),
    ensures
        irregular_cells(b, i, k).filter(irregular_mark_pred()) == cells_with_regions(b, i, k),
    decreases k,
{
    if k > 0 {
        lemma_irregular_cells_marks(b, i, (k - 1) as nat);
        lemma_irregular_cell_marks(b, i, (k - 1) as nat);
        Seq::filter_distributes_over_add(
            irregular_cells(b, i, (k - 1) as nat),
            irregular_cell(b, i, (k - 1) as nat),
            irregular_mark_pred(),
        );
    }
}

/// The text of the first `k` rows of an irregular board marks each of their
/// cells, then its region.
proof fn lemma_irregular_rows_marks(b: Board, k: nat)
    requires
        b.exportable(),
        b.drawable(),
        k <= b.n(),
    ensures
        irregular_rows(b, k).filter(irregular_mark_pred()) == rows_with_regions(b, k),
    decreases k,
{
    if k > 0 {
        lemma_irregular_rows_marks(b, (k - 1) as nat);
        lemma_irregular_cells_marks(b, (k - 1) as nat, b.n());
        Seq::filter_distributes_over_add(
            irregular_rows(b, (k - 1) as nat),
            irregular_cells(b, (k - 1) as nat, b.n()),
            irregular_mark_pred(),
        );
    }
}

/// Leaving out its spaces and lines, the drawing of an irregular board shows
/// every cell in row-major order as export writes it, each followed by the
/// index of its region, numbered as values are and written in lower case.
pub proof fn law_display_irregular_regions(b: Board)
    requires
        b.wf(),
        b.exportable(),
        b.drawable(),
        b.kind is Irregular,
    ensures
        drawing(b).filter(irregular_mark_pred()) == rows_with_regions(b, b.n()),
{
    lemma_irregular_rows_marks(b, b.n());
}

} // verus!
