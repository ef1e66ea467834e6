//! Human solving strategies: each one removes candidates or fills cells that
//! the candidates force.
use std::collections::HashSet;
use crate::board::Board;
use crate::cell::{Cell, CellView, Coord};
use crate::difficulty::Difficulty;
use crate::progress::{lemma_after_set, lemma_place, lemma_place_refines, lemma_refines_refl, lemma_refines_trans, lemma_shrink};
use crate::region_notes::{keep_upto, holders_in, lemma_holders_in, lemma_holders_in_all, lemma_keep_all, same_col, same_row, LockedCandidate, RegionNotes};
use crate::board::{put_cell, strip, vec_has_coord};
use crate::lines::sets_view;
use crate::lines::{holds, LineKind};
use crate::region::in_grid;
use crate::solve::before;
use crate::solution::{allows, val, lemma_admits_change, lemma_keeps_refl, lemma_keeps_trans, lemma_line_group, lemma_place_admits, lemma_region_group, lemma_set_fills, lemma_value_on_holder, line_cells};
use vstd::prelude::*;
use vstd::std_specs::iter::IteratorSpec;

verus! {

broadcast use vstd::std_specs::hash::group_hash_axioms;

/// A generic trait to describe a strategy for solving a Sudoku puzzle.
///
/// A strategy is a sound step: it keeps every filled cell, fills empty cells
/// only with one of their candidates, removes candidates only, and keeps a
/// consistent and conflict-free board so. On a consistent board it loses no
/// solution: every board that solved the board before solves it after. The
/// board never weighs more afterwards, and strictly less when it returns
/// `true`; what `true` reports is each strategy's own.
pub trait Strategy {
    /// The lowest difficulty at which the strategy may be used.
    const DIFFICULTY_LEVEL: Difficulty;

    /// Apply the strategy once to `board`.
    fn apply(board: &mut Board) -> (r: bool)
        requires
            old(board).wf(),
            old(board).notes_in_range(),
        ensures
            old(board).sound_step(*final(board)),
            old(board).keeps_solutions(*final(board)),
            final(board).notes_in_range(),
            r ==> final(board).measure() < old(board).measure(),
            final(board).measure() <= old(board).measure(),
    ;
}

/// Write `v` at `x` with [`Board::set_cell()`].
pub(crate) fn place(board: &mut Board, x: Coord, v: u8)
    requires
        old(board).wf(),
        in_grid(old(board).n(), x),
        v < old(board).n(),
    ensures
        final(board).wf(),
        final(board).size == old(board).size,
        final(board).kind == old(board).kind,
        forall|c: Coord| in_grid(old(board).n(), c) ==> #[trigger] final(board).at(c) == old(board).placed(x, v, c),
{
    board.set_cell(x, v);
    proof {
        assert forall|c: Coord| in_grid(old(board).n(), c) implies #[trigger] board.at(c) == old(board).placed(x, v, c) by {
            lemma_after_set(*old(board), x, v, c);
        }
    }
}

/// Placing a candidate of `x` that no related cell holds is a sound step.
pub(crate) proof fn lemma_place_candidate(start: Board, b: Board, b2: Board, x: Coord, v: u8)
    requires
        start.sound_step(b),
        b.notes_in_range(),
        b2.wf(),
        b2.size == b.size,
        b2.kind == b.kind,
        in_grid(b.n(), x),
        v < b.n(),
        b.at(x) is Notes,
        b.at(x)->Notes_0.contains(v),
        start.consistent() ==> b.consistent(),
        forall|c: Coord| in_grid(b.n(), c) ==> #[trigger] b2.at(c) == b.placed(x, v, c),
    ensures
        start.sound_step(b2),
        b2.notes_in_range(),
        b2.measure() < b.measure(),
{
    lemma_place(b, b2, x, v);
    lemma_refines_refl(b);
    lemma_place_refines(b, b, b2, x, v);
    lemma_refines_trans(start, b, b2);
    if start.consistent() && start.no_conflict() {
        assert forall|y: Coord| #[trigger] b.related(x, y) implies b.at(y) != CellView::Value(v) by {
            if b.at(y) == CellView::Value(v) {
                assert(b.at(x) is Notes && b.at(y) is Value);
            }
        }
    }
}

/// Placing at `x` the value that every solution of a consistent `start` has
/// there keeps the solutions of `start`.
pub(crate) proof fn lemma_place_keeps(start: Board, b: Board, b2: Board, x: Coord, v: u8)
    requires
        start.keeps_solutions(b),
        in_grid(b.n(), x),
        b2.size == b.size,
        b2.kind == b.kind,
        forall|c: Coord| in_grid(b.n(), c) ==> #[trigger] b2.at(c) == b.placed(x, v, c),
        forall|sol: Seq<Seq<u8>>| start.consistent() && #[trigger] start.admits(sol) ==> val(sol, x) == v,
    ensures
        start.keeps_solutions(b2),
{
    if start.consistent() {
        assert forall|sol: Seq<Seq<u8>>| #[trigger] start.admits(sol) implies b2.admits(sol) by {
            lemma_place_admits(b, b2, x, v, sol);
        }
    }
}

/// The cell holds exactly one candidate.
pub open spec fn is_single(c: CellView) -> bool {
    c is Notes && c->Notes_0.len() == 1
}

/// The only element of a set of one element.
fn sole_note(notes: &HashSet<u8>) -> (v: u8)
    requires
        notes@.len() == 1,
    ensures
        notes@ == Set::<u8>::empty().insert(v),
{
    let mut found: u8 = 0;
    let ghost keys = notes.iter().remaining().unref();
    for x in it: notes.iter()
        invariant
            keys.to_set() == notes@,
            keys.len() == 1,
            it.seq().unref() == keys,
            0 <= it.index() <= keys.len(),
            it.index() == 1 ==> found == keys[0],
    {
        assert(*x == keys[it.index() as int]);
        found = *x;
    }
    assert(keys =~= seq![found]);
    assert(notes@ =~= Set::<u8>::empty().insert(found));
    found
}

/// Some cell of `b` holds exactly one candidate.
pub open spec fn has_naked_single(b: Board) -> bool {
    exists|c: Coord| in_grid(b.n(), c) && #[trigger] is_single(b.at(c))
}

/// Fill cells that have only one candidate left.
pub struct NakedSingles;

impl NakedSingles {
    /// The first cell (in row-major order) with exactly one candidate, and
    /// that candidate.
    fn get_naked_single(board: &Board) -> (r: Option<(Coord, u8)>)
        requires
            board.wf(),
        ensures
            r is None ==> forall|c: Coord| in_grid(board.n(), c) ==> !is_single(#[trigger] board.at(c)),
            r matches Some((c, v)) ==> {
                &&& in_grid(board.n(), c)
                &&& board.at(c) == CellView::Notes(Set::<u8>::empty().insert(v))
                &&& forall|d: Coord| in_grid(board.n(), d) && before(d, c) ==> !is_single(#[trigger] board.at(d))
            },
    {
        let max_cells = board.size.max_cells() as usize;
        let ghost n = board.n();
        let mut row: usize = 0;
        while row < max_cells
            invariant
                board.wf(),
                max_cells == n,
                n == board.n(),
                0 <= row <= n,
                forall|c: Coord| in_grid(n, c) && c.row < row ==> !is_single(#[trigger] board.at(c)),
            decreases n - row,
        {
            let mut col: usize = 0;
            while col < max_cells
                invariant
                    board.wf(),
                    max_cells == n,
                    n == board.n(),
                    0 <= row < n,
                    0 <= col <= n,
                    forall|c: Coord|
                        in_grid(n, c) && (c.row < row || (c.row == row && c.col < col)) ==> !is_single(
                            #[trigger] board.at(c),
                        ),
                decreases n - col,
            {
                proof {
                    board.lemma_view();
                }
                if let Cell::Notes(notes) = &board.grid[row][col] {
                    if notes.len() == 1 {
                        let v = sole_note(notes);
                        let c = Coord { row, col };
                        assert(board.at(c) == CellView::Notes(notes@));
                        return Some((c, v));
                    }
                }
                col += 1;
            }
            row += 1;
        }
        None
    }
}

impl Strategy for NakedSingles {
    const DIFFICULTY_LEVEL: Difficulty = Difficulty::Easy;

    /// Fill every cell that has a single candidate, until none is left.
    ///
    /// Afterwards no empty cell has exactly one candidate: each cell that had
    /// a single candidate holds it, unless placing another value emptied it
    /// (which only happens on a board without solution). Returns `true`
    /// exactly when some cell of the board had a single candidate, which is
    /// exactly when some empty cell was filled; otherwise the board is
    /// unchanged.
    fn apply(board: &mut Board) -> (r: bool)
        ensures
            forall|c: Coord| in_grid(final(board).n(), c) ==> !is_single(#[trigger] final(board).at(c)),
            forall|c: Coord, v: u8|
                in_grid(old(board).n(), c) && is_single(old(board).at(c)) && #[trigger] old(board).at(c)->Notes_0.contains(v)
                    ==> final(board).at(c) == CellView::Value(v) || final(board).at(c) == CellView::Notes(
                    Set::<u8>::empty(),
                ),
            r == has_naked_single(*old(board)),
            r == old(board).fills_some(*final(board)),
            !r ==> *final(board) == *old(board),
    {
        let ghost start = *board;
        let mut changed = false;
        proof {
            lemma_refines_refl(start);
            lemma_keeps_refl(start);
        }
        loop
            invariant_except_break
                start.wf(),
                start.sound_step(*board),
                start.keeps_solutions(*board),
                board.notes_in_range(),
                start.consistent() ==> board.consistent(),
                changed ==> board.measure() < start.measure(),
                !changed ==> *board == start,
                changed ==> has_naked_single(start),
                changed ==> start.fills_some(*board),
            ensures
                start.sound_step(*board),
                start.keeps_solutions(*board),
                board.notes_in_range(),
                changed ==> board.measure() < start.measure(),
                !changed ==> *board == start,
                forall|c: Coord| in_grid(board.n(), c) ==> !is_single(#[trigger] board.at(c)),
                changed == has_naked_single(start),
                changed == start.fills_some(*board),
            decreases board.measure(),
        {
            match Self::get_naked_single(board) {
                Some((coord, value)) => {
                    let ghost b = *board;
                    assert(b.at(coord)->Notes_0.contains(value));
                    proof {
                        if !changed {
                            assert(b.at(coord)->Notes_0.len() == 1);
                            assert(is_single(start.at(coord)));
                        }
                    }
                    place(board, coord, value);
                    proof {
                        lemma_place_candidate(start, b, *board, coord, value);
                        assert forall|sol: Seq<Seq<u8>>| start.consistent() && #[trigger] start.admits(sol) implies val(sol, coord)
                            == value by {
                            assert(b.admits(sol));
                            assert(allows(b.at(coord), val(sol, coord)));
                        }
                        lemma_place_keeps(start, b, *board, coord, value);
                        if changed {
                            let c = choose|c: Coord| in_grid(start.n(), c) && #[trigger] start.at(c) is Notes && b.at(c) is Value;
                            assert(board.at(c) == b.placed(coord, value, c));
                        } else {
                            assert(board.at(coord) == b.placed(coord, value, coord));
                        }
                    }
                    changed = true;
                },
                None => {
                    break;
                },
            }
        }
        proof {
            crate::progress::lemma_refines_measure(start, *board);
            assert forall|c: Coord, v: u8|
                in_grid(start.n(), c) && is_single(start.at(c)) && #[trigger] start.at(c)->Notes_0.contains(v)
                    implies board.at(c) == CellView::Value(v) || board.at(c) == CellView::Notes(Set::<u8>::empty()) by {
                let one = Set::<u8>::empty().insert(v);
                crate::solve::lemma_notes_finite(start, c);
                assert(start.at(c)->Notes_0.remove(v).len() == 0);
                assert(start.at(c)->Notes_0.remove(v) =~= Set::<u8>::empty());
                assert(start.at(c)->Notes_0 =~= one) by {
                    assert forall|w: u8| start.at(c)->Notes_0.contains(w) implies w == v by {
                        if w != v {
                            assert(start.at(c)->Notes_0.remove(v).contains(w));
                        }
                    }
                }
                if board.at(c) is Notes {
                    let s = board.at(c)->Notes_0;
                    assert(s.subset_of(one));
                    if s.contains(v) {
                        assert(s =~= one);
                        assert(is_single(board.at(c)));
                    }
                    assert(s =~= Set::<u8>::empty());
                }
            }
        }
        changed
    }
}

/// Sound steps compose.
pub proof fn lemma_sound_trans(a: Board, b: Board, c: Board)
    requires
        a.sound_step(b),
        b.sound_step(c),
    ensures
        a.sound_step(c),
{
    lemma_refines_trans(a, b, c);
}

/// A candidate that only `x` holds in a line of a consistent board is, in
/// every solution, the value of `x`.
proof fn lemma_line_single(m: Board, sol: Seq<Seq<u8>>, line: LineKind, v: u8, x: Coord)
    requires
        m.wf(),
        m.notes_in_range(),
        m.consistent(),
        m.admits(sol),
        line.line_index() < m.n(),
        line.coords_of(m, v) == seq![x],
    ensures
        val(sol, x) == v,
{
    let n = m.n();
    line.lemma_holders(m, v, n);
    let cells = line_cells(m, line);
    lemma_line_group(m, line);
    assert(line.coords_of(m, v)[0] == x);
    let j = choose|j: int| 0 <= j < n && #[trigger] line.holders(m, v, n)[0] == line.cell(j);
    assert(cells[j] == x);
    assert(cells.contains(x));
    assert(holds(m.at(x), v));
    assert(m.at(x)->Notes_0.contains(v));
    lemma_value_on_holder(m, sol, cells, v, x);
    let d = choose|d: Coord| cells.contains(d) && val(sol, d) == v && holds(m.at(d), v);
    let i = choose|i: int| 0 <= i < cells.len() && cells[i] == d;
    assert(d == line.cell(i));
    assert(line.holders(m, v, n).contains(line.cell(i)));
}

/// The content of `c` once, for each candidate below `k` (in increasing
/// order) that a single cell of `line` holds in `m`, the candidate is written
/// in that cell and removed from the candidates of the related cells.
pub open spec fn line_singles_cell(m: Board, line: LineKind, k: nat, c: Coord) -> CellView
    decreases k,
{
    if k == 0 {
        m.at(c)
    } else {
        let prev = line_singles_cell(m, line, (k - 1) as nat, c);
        let v = (k - 1) as u8;
        if line.coords_of(m, v).len() == 1 {
            let x = line.coords_of(m, v)[0];
            if c == x {
                CellView::Value(v)
            } else if m.related(x, c) {
                strip(prev, v)
            } else {
                prev
            }
        } else {
            prev
        }
    }
}

/// Some candidate below `k` is held by a single cell of `line` in `m`.
pub open spec fn has_line_single(m: Board, line: LineKind, k: nat) -> bool {
    exists|w: u8| (w as nat) < k && #[trigger] line.coords_of(m, w).len() == 1
}

/// Fill the cells of `line` that are the only ones of the line holding a candidate.
fn set_line_singles(board: &mut Board, line: LineKind) -> (r: bool)
    requires
        old(board).wf(),
        old(board).notes_in_range(),
        line.line_index() < old(board).n(),
    ensures
        old(board).sound_step(*final(board)),
        old(board).keeps_solutions(*final(board)),
        final(board).notes_in_range(),
        r ==> final(board).measure() < old(board).measure(),
        !r ==> *final(board) == *old(board),
        forall|c: Coord| in_grid(old(board).n(), c) ==> #[trigger] final(board).at(c) == line_singles_cell(*old(board), line, 256, c),
        r == has_line_single(*old(board), line, 256),
        r == old(board).fills_some(*final(board)),
{
    let ghost m = *board;
    let ghost n = m.n();
    let buckets = line.candidate_cells(board);
    let mut changed = false;
    proof {
        lemma_refines_refl(m);
        lemma_keeps_refl(m);
    }
    let mut v: usize = 0;
    while v < 256
        invariant
            m.wf(),
            m.notes_in_range(),
            n == m.n(),
            line.line_index() < n,
            0 <= v <= 256,
            buckets@.len() == 256,
            forall|w: int| 0 <= w < 256 ==> (#[trigger] buckets@[w])@ == line.coords_of(m, w as u8),
            m.sound_step(*board),
            m.keeps_solutions(*board),
            board.notes_in_range(),
            changed ==> board.measure() < m.measure(),
            !changed ==> *board == m,
            forall|c: Coord|
                in_grid(n, c) && #[trigger] board.at(c) is Value && m.at(c) is Notes ==> changed
                    && line.coords_of(m, board.at(c)->Value_0) == seq![c],
            board.size == m.size,
            board.kind == m.kind,
            forall|c: Coord| in_grid(n, c) ==> #[trigger] board.at(c) == line_singles_cell(m, line, v as nat, c),
            changed == has_line_single(m, line, v as nat),
            changed ==> m.fills_some(*board),
        decreases 256 - v,
    {
        let ghost b0 = *board;
        proof {
            assert(((v as u8) as nat) == v);
            assert forall|c: Coord| #[trigger] line_singles_cell(m, line, (v + 1) as nat, c) == if line.coords_of(m, v as u8).len() == 1 {
                let x = line.coords_of(m, v as u8)[0];
                if c == x {
                    CellView::Value(v as u8)
                } else if m.related(x, c) {
                    strip(line_singles_cell(m, line, v as nat, c), v as u8)
                } else {
                    line_singles_cell(m, line, v as nat, c)
                }
            } else {
                line_singles_cell(m, line, v as nat, c)
            } by {
            }
            assert(has_line_single(m, line, (v + 1) as nat) == (has_line_single(m, line, v as nat) || line.coords_of(m, v as u8).len() == 1)) by {
                if has_line_single(m, line, (v + 1) as nat) {
                    let w = choose|w: u8| (w as nat) < v + 1 && #[trigger] line.coords_of(m, w).len() == 1;
                    if w as nat != v {
                        assert((w as nat) < v);
                    }
                }
                if line.coords_of(m, v as u8).len() == 1 {
                    assert(((v as u8) as nat) < v + 1);
                }
                if has_line_single(m, line, v as nat) {
                    let w = choose|w: u8| (w as nat) < v && #[trigger] line.coords_of(m, w).len() == 1;
                    assert((w as nat) < v + 1);
                }
            }
        }
        if buckets[v].len() == 1 {
            let coord = buckets[v][0];
            let value = v as u8;
            let ghost b = *board;
            proof {
                line.lemma_holders(m, value, n);
                assert(line.coords_of(m, value) =~= seq![coord]);
                assert(holds(m.at(coord), value));
            }
            place(board, coord, value);
            proof {
                assert forall|sol: Seq<Seq<u8>>| m.consistent() && #[trigger] m.admits(sol) implies val(sol, coord) == value by {
                    lemma_line_single(m, sol, line, value, coord);
                }
                lemma_place_keeps(m, b, *board, coord, value);
                lemma_place(b, *board, coord, value);
                lemma_place_refines(m, b, *board, coord, value);
                if m.consistent() && m.no_conflict() {
                    assert forall|y: Coord| #[trigger] b.related(coord, y) implies b.at(y) != CellView::Value(value) by {
                        if b.at(y) == CellView::Value(value) {
                            if m.at(y) is Value {
                                assert(m.at(y) == CellView::Value(value));
                                assert(m.related(coord, y));
                                assert(m.at(coord) is Notes && m.at(y) is Value);
                            } else {
                                assert(line.coords_of(m, value) == seq![y]);
                            }
                        }
                    }
                }
                if b.at(coord) is Value {
                    assert(b != m);
                }
                assert forall|c: Coord|
                    in_grid(n, c) && #[trigger] board.at(c) is Value && m.at(c) is Notes implies line.coords_of(
                        m,
                        board.at(c)->Value_0,
                    ) == seq![c] by {
                    if c != coord {
                        assert(board.at(c) == b.at(c) || board.at(c) == crate::board::strip(b.at(c), value));
                    }
                }
                assert(line.coords_of(m, value)[0] == coord);
                if changed {
                    let c = choose|c: Coord| in_grid(n, c) && #[trigger] m.at(c) is Notes && b.at(c) is Value;
                    assert(board.at(c) == b.placed(coord, value, c));
                } else {
                    assert(board.at(coord) == b.placed(coord, value, coord));
                    assert(m.at(coord) is Notes);
                }
                assert forall|c: Coord| in_grid(n, c) implies #[trigger] board.at(c) == line_singles_cell(m, line, (v + 1) as nat, c) by {
                    assert(board.at(c) == b.placed(coord, value, c));
                    assert(b.related(coord, c) == m.related(coord, c));
                }
            }
            changed = true;
        }
        v += 1;
    }
    changed
}

/// Fill cells that are the only ones of their row or column holding a candidate.
pub struct HiddenSingles;

/// Some candidate is held by a single cell of row `i` or of column `i`.
pub open spec fn index_has_single(b: Board, i: usize) -> bool {
    has_line_single(b, LineKind::Row(i), 256) || has_line_single(b, LineKind::Column(i), 256)
}

/// Some candidate is held by a single cell of one of the first `k` rows or columns.
pub open spec fn has_hidden_single(b: Board, k: nat) -> bool {
    exists|i: usize| (i as nat) < k && #[trigger] index_has_single(b, i)
}

/// One more index adds the row and the column of that index.
proof fn lemma_hidden_single_step(b: Board, i: usize)
    ensures
        has_hidden_single(b, (i + 1) as nat) == (has_hidden_single(b, i as nat) || index_has_single(b, i)),
{
    if has_hidden_single(b, (i + 1) as nat) {
        let k = choose|k: usize| (k as nat) < i + 1 && #[trigger] index_has_single(b, k);
        if k != i {
            assert(has_hidden_single(b, i as nat));
        }
    }
    if has_hidden_single(b, i as nat) {
        let k = choose|k: usize| (k as nat) < i && #[trigger] index_has_single(b, k);
        assert(has_hidden_single(b, (i + 1) as nat));
    }
    if index_has_single(b, i) {
        assert(has_hidden_single(b, (i + 1) as nat));
    }
}

/// The line handled at step `k` of a sweep: row `k / 2` for even `k`,
/// column `k / 2` for odd `k`.
pub open spec fn sweep_line(k: int) -> LineKind {
    if k % 2 == 0 {
        LineKind::Row((k / 2) as usize)
    } else {
        LineKind::Column((k / 2) as usize)
    }
}

/// `b` is `a` with the hidden singles of `line` written in.
pub open spec fn singles_step(a: Board, line: LineKind, b: Board) -> bool {
    &&& b.size == a.size
    &&& b.kind == a.kind
    &&& forall|c: Coord| in_grid(a.n(), c) ==> #[trigger] b.at(c) == line_singles_cell(a, line, 256, c)
}

/// Each board of `bs` is the one before with the hidden singles of the
/// next line of the sweep written in.
pub open spec fn singles_sweep(bs: Seq<Board>) -> bool {
    forall|k: int| 0 <= k < bs.len() - 1 ==> #[trigger] singles_step(bs[k], sweep_line(k), bs[k + 1])
}

impl Strategy for HiddenSingles {
    const DIFFICULTY_LEVEL: Difficulty = Difficulty::Easy;

    /// For each index `i`, first row `i` then column `i`: every candidate
    /// held by a single cell of the line is written in that cell.
    ///
    /// Returns `true` exactly when some row or column of the board had a
    /// candidate held by a single one of its cells. The board is the sweep
    /// row 0, column 0, row 1, ... with the hidden singles of each line, on
    /// the board the line meets, written in.
    fn apply(board: &mut Board) -> (r: bool)
        ensures
            r == has_hidden_single(*old(board), old(board).n()),
            r == old(board).fills_some(*final(board)),
            !r ==> *final(board) == *old(board),
            exists|bs: Seq<Board>|
                #![trigger singles_sweep(bs)]
                bs.len() == 2 * old(board).n() + 1 && bs[0] == *old(board) && bs[bs.len() - 1] == *final(board)
                    && singles_sweep(bs),
    {
        let ghost start = *board;
        let mut any_changed = false;
        let max_cells = board.size.max_cells() as usize;
        proof {
            lemma_refines_refl(start);
            lemma_keeps_refl(start);
        }
        let ghost mut bs: Seq<Board> = seq![start];
        let mut i: usize = 0;
        while i < max_cells
            invariant
                start.wf(),
                max_cells == start.n(),
                0 <= i <= max_cells,
                start.sound_step(*board),
                start.keeps_solutions(*board),
                board.notes_in_range(),
                any_changed ==> board.measure() < start.measure(),
                !any_changed ==> *board == start,
                any_changed == has_hidden_single(start, i as nat),
                any_changed == start.fills_some(*board),
                bs.len() == 2 * i + 1,
                bs[0] == start,
                bs[bs.len() - 1] == *board,
                singles_sweep(bs),
            decreases max_cells - i,
        {
            let ghost b0 = *board;
            let row_changed = set_line_singles(board, LineKind::Row(i));
            proof {
                lemma_keeps_trans(start, b0, *board);
                lemma_sound_trans(start, b0, *board);
                crate::progress::lemma_fills_trans(start, b0, *board);
            }
            let ghost b1 = *board;
            let col_changed = set_line_singles(board, LineKind::Column(i));
            proof {
                lemma_keeps_trans(start, b1, *board);
                lemma_sound_trans(start, b1, *board);
                crate::progress::lemma_fills_trans(start, b1, *board);
            }
            proof {
                lemma_hidden_single_step(start, i);
                let prev = bs;
                bs = bs.push(b1).push(*board);
                assert(sweep_line(2 * i) == LineKind::Row(i));
                assert(sweep_line(2 * i + 1) == LineKind::Column(i));
                assert(singles_step(b0, LineKind::Row(i), b1));
                assert(singles_step(b1, LineKind::Column(i), *board));
                assert forall|k: int| 0 <= k < bs.len() - 1 implies #[trigger] singles_step(bs[k], sweep_line(k), bs[k + 1]) by {
                    if k < prev.len() - 1 {
                        assert(bs[k] == prev[k] && bs[k + 1] == prev[k + 1]);
                    }
                }
            }
            any_changed = any_changed || row_changed || col_changed;
            i += 1;
        }
        proof {
            crate::progress::lemma_refines_measure(start, *board);
        }
        any_changed
    }
}

/// Remove the candidate `v` from the cell at `x`, which holds it.
fn remove_candidate(board: &mut Board, x: Coord, v: u8)
    requires
        old(board).wf(),
        old(board).notes_in_range(),
        in_grid(old(board).n(), x),
        holds(old(board).at(x), v),
    ensures
        old(board).sound_step(*final(board)),
        final(board).notes_in_range(),
        final(board).measure() < old(board).measure(),
        final(board).size == old(board).size,
        final(board).kind == old(board).kind,
        forall|c: Coord| in_grid(old(board).n(), c) ==> #[trigger] final(board).at(c) == if c == x {
            strip(old(board).at(c), v)
        } else {
            old(board).at(c)
        },
{
    let ghost b = *board;
    assert(v < b.n());
    board.clear_note(x, v);
    proof {
        assert(b.shrinks_to(*board)) by {
            assert forall|c: Coord| in_grid(b.n(), c) implies #[trigger] board.at(c) == b.at(c) || (b.at(c) is Notes
                && board.at(c) is Notes && board.at(c)->Notes_0.subset_of(b.at(c)->Notes_0)) by {
            }
        }
        assert(board.at(x) != b.at(x)) by {
            assert(!board.at(x)->Notes_0.contains(v));
        }
        lemma_shrink(b, *board);
    }
}

/// In `sol`, the candidate of `lc` stands on a cell of the region `region`
/// that lies in the row or column of `lc`.
pub open spec fn pinned(b: Board, sol: Seq<Seq<u8>>, lc: LockedCandidate, region: u8) -> bool {
    match lc {
        LockedCandidate::Row(v, r) => exists|d: Coord|
            in_grid(b.n(), d) && d.row == r && b.kind.region_at(b.size, d) == region && #[trigger] val(sol, d)
                == v,
        LockedCandidate::Column(v, k) => exists|d: Coord|
            in_grid(b.n(), d) && d.col == k && b.kind.region_at(b.size, d) == region && #[trigger] val(sol, d)
                == v,
    }
}

/// When `b` is consistent, every solution of `b` pins `lc` in `region`.
pub open spec fn pins(b: Board, lc: LockedCandidate, region: u8) -> bool {
    b.consistent() ==> forall|sol: Seq<Seq<u8>>| #[trigger] b.admits(sol) ==> pinned(b, sol, lc, region)
}

/// In a consistent board, a candidate that a cell of region `region` holds
/// stands, in every solution, on a cell of the region that holds it.
proof fn lemma_region_holder(m: Board, sol: Seq<Seq<u8>>, region: u8, v: u8, e: Coord)
    requires
        m.wf(),
        m.notes_in_range(),
        m.consistent(),
        m.admits(sol),
        region < m.n(),
        holders_in(m, m.kind.member_seq(m.size, region as int), v, m.n()).contains(e),
    ensures
        exists|d: Coord|
            holders_in(m, m.kind.member_seq(m.size, region as int), v, m.n()).contains(d) && in_grid(m.n(), d)
                && m.kind.region_at(m.size, d) == region && #[trigger] val(sol, d) == v,
{
    let members = m.kind.member_seq(m.size, region as int);
    let hs = holders_in(m, members, v, m.n());
    lemma_region_group(m, region as int);
    lemma_holders_in(m, members, v, m.n());
    lemma_holders_in_all(m, members, v, m.n());
    let i = choose|i: int| 0 <= i < hs.len() && hs[i] == e;
    assert(members.contains(hs[i]) && holds(m.at(hs[i]), v));
    assert(m.at(e)->Notes_0.contains(v));
    lemma_value_on_holder(m, sol, members, v, e);
    let d = choose|d: Coord| members.contains(d) && val(sol, d) == v && holds(m.at(d), v);
    let j = choose|j: int| 0 <= j < members.len() && members[j] == d;
    assert(hs.contains(members[j]));
}

/// The candidate of a locked candidate.
pub open spec fn locked_value(lc: LockedCandidate) -> u8 {
    match lc {
        LockedCandidate::Row(v, _) => v,
        LockedCandidate::Column(v, _) => v,
    }
}

/// `c` lies in the row or column of `lc`, at a position along it below `k`.
pub open spec fn on_line_before(lc: LockedCandidate, c: Coord, k: int) -> bool {
    match lc {
        LockedCandidate::Row(_, r) => c.row == r && (c.col as int) < k,
        LockedCandidate::Column(_, col) => c.col == col && (c.row as int) < k,
    }
}

/// `c` is a cell from which the candidate of `lc` is removed: it lies in the
/// row or column of `lc` (before position `k`), outside the region
/// `region`, and holds the candidate.
pub open spec fn locked_target(b: Board, lc: LockedCandidate, region: u8, c: Coord, k: int) -> bool {
    &&& in_grid(b.n(), c)
    &&& on_line_before(lc, c, k)
    &&& b.kind.region_at(b.size, c) != region as int
    &&& holds(b.at(c), locked_value(lc))
}

/// Remove `lc`'s candidate from the cells of its row or column that lie
/// outside the region `region`.
fn eliminate_locked(board: &mut Board, lc: LockedCandidate, region: u8) -> (r: bool)
    requires
        old(board).wf(),
        old(board).notes_in_range(),
        match lc {
            LockedCandidate::Row(_, i) => i < old(board).n(),
            LockedCandidate::Column(_, i) => i < old(board).n(),
        },
    ensures
        forall|sol: Seq<Seq<u8>>| pinned(*old(board), sol, lc, region) && #[trigger] old(board).admits(sol) ==> final(board).admits(sol),
        old(board).sound_step(*final(board)),
        final(board).notes_in_range(),
        r ==> final(board).measure() < old(board).measure(),
        !r ==> *final(board) == *old(board),
        forall|c: Coord| in_grid(old(board).n(), c) ==> #[trigger] final(board).at(c) == if locked_target(
            *old(board),
            lc,
            region,
            c,
            old(board).n() as int,
        ) {
            strip(old(board).at(c), locked_value(lc))
        } else {
            old(board).at(c)
        },
        r == exists|c: Coord| #[trigger] locked_target(*old(board), lc, region, c, old(board).n() as int),
{
    let ghost start = *board;
    let max_cells = board.size.max_cells() as usize;
    let mut changed = false;
    proof {
        lemma_refines_refl(start);
    }
    let mut i: usize = 0;
    while i < max_cells
        invariant
            start.wf(),
            max_cells == start.n(),
            match lc {
                LockedCandidate::Row(_, k) => k < max_cells,
                LockedCandidate::Column(_, k) => k < max_cells,
            },
            0 <= i <= max_cells,
            start.sound_step(*board),
            forall|sol: Seq<Seq<u8>>| pinned(start, sol, lc, region) && #[trigger] start.admits(sol) ==> board.admits(sol),
            board.notes_in_range(),
            changed ==> board.measure() < start.measure(),
            !changed ==> *board == start,
            board.size == start.size,
            board.kind == start.kind,
            forall|c: Coord| in_grid(start.n(), c) ==> #[trigger] board.at(c) == if locked_target(start, lc, region, c, i as int) {
                strip(start.at(c), locked_value(lc))
            } else {
                start.at(c)
            },
            changed == exists|c: Coord| #[trigger] locked_target(start, lc, region, c, i as int),
        decreases max_cells - i,
    {
        let (candidate, coord) = match lc {
            LockedCandidate::Row(v, row) => (v, Coord { row, col: i }),
            LockedCandidate::Column(v, col) => (v, Coord { row: i, col }),
        };
        let has = match board.get_cell(coord) {
            Some(Cell::Notes(notes)) => notes.contains(&candidate),
            _ => false,
        };
        let other = match board.kind.index(&board.size, coord) {
            Some(reg) => reg != region,
            None => false,
        };
        let ghost b = *board;
        proof {
            start.kind.lemma_region_bound(start.size, coord);
            assert(b.at(coord) == start.at(coord));
            assert(has && other <==> locked_target(start, lc, region, coord, i + 1));
            assert forall|c: Coord| #[trigger] locked_target(start, lc, region, c, i + 1) <==> (locked_target(start, lc, region, c, i as int)
                || (c == coord && has && other)) by {
                if locked_target(start, lc, region, c, i + 1) && !locked_target(start, lc, region, c, i as int) {
                    assert(c == coord);
                }
            }
        }
        if has && other {
            remove_candidate(board, coord, candidate);
            proof {
                lemma_sound_trans(start, b, *board);
                assert forall|sol: Seq<Seq<u8>>| pinned(start, sol, lc, region) && #[trigger] start.admits(sol) implies board.admits(sol) by {
                    assert(b.admits(sol));
                    let d = match lc {
                        LockedCandidate::Row(v, r) => choose|d: Coord|
                            in_grid(start.n(), d) && d.row == r && start.kind.region_at(start.size, d) == region && #[trigger] val(sol, d)
                                == v,
                        LockedCandidate::Column(v, k) => choose|d: Coord|
                            in_grid(start.n(), d) && d.col == k && start.kind.region_at(start.size, d) == region && #[trigger] val(sol, d)
                                == v,
                    };
                    assert(val(sol, d) == candidate);
                    assert(d != coord);
                    assert(start.related(d, coord));
                    assert(val(sol, coord) != val(sol, d));
                    assert(allows(b.at(coord), val(sol, coord)));
                    lemma_admits_change(b, *board, sol);
                }
            }
            changed = true;
        }
        proof {
            assert forall|c: Coord| in_grid(start.n(), c) implies #[trigger] board.at(c) == if locked_target(start, lc, region, c, i + 1) {
                strip(start.at(c), locked_value(lc))
            } else {
                start.at(c)
            } by {
                if c != coord {
                    assert(board.at(c) == b.at(c));
                }
            }
            if has && other {
                assert(locked_target(start, lc, region, coord, i + 1));
            }
            assert(changed == exists|c: Coord| #[trigger] locked_target(start, lc, region, c, i + 1));
        }
        i += 1;
    }
    proof {
        assert(i == start.n());
    }
    changed
}

/// The cells of region `region` of `b` that hold the candidate `w`, in
/// row-major order.
pub open spec fn region_holders(b: Board, region: u8, w: u8) -> Seq<Coord> {
    holders_in(b, b.kind.member_seq(b.size, region as int), w, b.n())
}

/// Some candidate is held by a single cell of region `region`.
pub open spec fn region_has_single(b: Board, region: u8) -> bool {
    exists|w: u8| #[trigger] region_holders(b, region, w).len() == 1
}

/// Removing the candidate of `lc` from its row or column outside region
/// `region` changes some cell.
pub open spec fn lc_effective(b: Board, lc: LockedCandidate, region: u8) -> bool {
    exists|c: Coord| #[trigger] locked_target(b, lc, region, c, b.n() as int)
}

/// The cells of region `region` that hold `w` all lie in one row (or one
/// column) in which a cell outside the region also holds `w`.
pub open spec fn region_points(b: Board, region: u8, w: u8) -> bool {
    let h = region_holders(b, region, w);
    &&& h.len() > 0
    &&& (same_row(h) && lc_effective(b, LockedCandidate::Row(w, h[0].row), region)) || (same_col(h) && lc_effective(
        b,
        LockedCandidate::Column(w, h[0].col),
        region,
    ))
}

/// When at least two cells of region `g` of `a` note `w`, and they all lie
/// in one row (or one column), no cell of that row (or column) outside the
/// region notes `w` in `b`.
pub open spec fn pointing_cleared(a: Board, g: u8, b: Board, w: u8) -> bool {
    let h = region_holders(a, g, w);
    h.len() >= 2 ==> forall|c: Coord|
        in_grid(a.n(), c) && a.kind.region_at(a.size, c) != g as int && ((same_row(h) && c.row == h[0].row) || (
        same_col(h) && c.col == h[0].col)) ==> !holds(#[trigger] b.at(c), w)
}

/// Region `region` has a hidden single or a candidate that points out of it.
pub open spec fn region_reducible(b: Board, region: u8) -> bool {
    region_has_single(b, region) || exists|w: u8| #[trigger] region_points(b, region, w)
}

/// Fill the hidden singles of region `region`, then remove the locked
/// candidates of the region from the rest of their row or column.
///
/// Returns `true` exactly when the region has a hidden single, that is when
/// a cell was filled. The board changes exactly when the region has a
/// hidden single or a candidate confined to one row or column that a cell of
/// that line outside the region also holds.
fn reduce_region(board: &mut Board, region: u8) -> (r: bool)
    requires
        old(board).wf(),
        old(board).notes_in_range(),
        region < old(board).n(),
    ensures
        old(board).sound_step(*final(board)),
        old(board).keeps_solutions(*final(board)),
        final(board).notes_in_range(),
        region_reducible(*old(board), region) ==> final(board).measure() < old(board).measure(),
        !region_reducible(*old(board), region) ==> *final(board) == *old(board),
        r == region_has_single(*old(board), region),
        r == old(board).fills_some(*final(board)),
        forall|w: u8| #[trigger] region_holders(*old(board), region, w).len() == 1 ==> final(board).at(
            region_holders(*old(board), region, w)[0],
        ) is Value,
        forall|w: u8| #[trigger] pointing_cleared(*old(board), region, *final(board), w),
{
    let ghost m = *board;
    let ghost n = m.n();
    let mut region_notes = RegionNotes::new();
    region_notes.scan(board, region);
    let ghost members = m.kind.member_seq(m.size, region as int);
    let ghost rn = region_notes;
    proof {
        lemma_refines_refl(m);
        lemma_keeps_refl(m);
        lemma_region_group(m, region as int);
        assert forall|w: u8| #[trigger] rn.listed(w) == holders_in(m, members, w, members.len()) by {
            assert(Seq::<Coord>::empty() + holders_in(m, members, w, members.len()) =~= holders_in(m, members, w, members.len()));
        }
        assert forall|w: u8, k: int| 0 <= k < rn.listed(w).len() implies in_grid(n, #[trigger] rn.listed(w)[k]) && holds(m.at(rn.listed(w)[k]), w) by {
            lemma_holders_in(m, members, w, members.len());
            let c = rn.listed(w)[k];
            assert(members.contains(c));
            let j = choose|j: int| 0 <= j < members.len() && members[j] == c;
            m.kind.lemma_member_in_grid(m.size, region as int, j);
        }
        assert forall|i: int, k: int| 0 <= i < rn.notes@.len() && 0 <= k < rn.cells_at(i).len() implies in_grid(n, #[trigger] rn.cells_at(i)[k]) by {
            rn.lemma_listed(i);
            assert(rn.listed(rn.values()[i])[k] == rn.cells_at(i)[k]);
        }
    }
    let singles = region_notes.find_singles();
    proof {
        rn.lemma_singles(rn.notes@.len());
        assert forall|w: u8| #[trigger] rn.values().contains(w) <==> rn.listed(w).len() > 0 by {
        }
        assert forall|w: u8| #[trigger] rn.listed(w) == region_holders(m, region, w) by {
        }
        lemma_region_singles(m, region, rn);
    }
    let ghost had_single = singles@.len() > 0;
    proof {
        assert forall|k: int| 0 <= k < singles@.len() implies in_grid(n, #[trigger] singles@[k].0) by {
            assert(rn.listed(singles@[k].1) == seq![singles@[k].0]);
            assert(rn.listed(singles@[k].1)[0] == singles@[k].0);
        }
    }
    let mut changed = false;
    let mut j: usize = 0;
    while j < singles.len()
        invariant
            m.wf(),
            m.notes_in_range(),
            n == m.n(),
            rn == region_notes,
            singles@ == rn.singles_upto(rn.notes@.len()),
            forall|k: int| 0 <= k < singles@.len() ==> rn.listed(#[trigger] singles@[k].1) == seq![singles@[k].0],
            forall|w: u8, k: int| 0 <= k < rn.listed(w).len() ==> in_grid(n, #[trigger] rn.listed(w)[k]) && holds(m.at(rn.listed(w)[k]), w),
            0 <= j <= singles.len(),
            members == m.kind.member_seq(m.size, region as int),
            members.len() == n,
            region < n,
            forall|w: u8| #[trigger] rn.listed(w) == holders_in(m, members, w, members.len()),
            m.sound_step(*board),
            m.keeps_solutions(*board),
            board.notes_in_range(),
            changed ==> board.measure() < m.measure(),
            !changed ==> *board == m,
            changed == (j > 0),
            forall|c: Coord|
                in_grid(n, c) && #[trigger] board.at(c) is Value && m.at(c) is Notes ==> changed
                    && rn.listed(board.at(c)->Value_0) == seq![c],
            changed ==> m.fills_some(*board),
            forall|k: int| 0 <= k < j ==> #[trigger] board.at(singles@[k].0) is Value,
            forall|k: int| 0 <= k < singles@.len() ==> in_grid(n, #[trigger] singles@[k].0),
        decreases singles.len() - j,
    {
        let (coord, value) = singles[j];
        let ghost b = *board;
        proof {
            assert(rn.listed(value) == seq![coord]);
            assert(rn.listed(value)[0] == coord);
            assert(holds(m.at(coord), value));
        }
        place(board, coord, value);
        proof {
            assert forall|sol: Seq<Seq<u8>>| m.consistent() && #[trigger] m.admits(sol) implies val(sol, coord) == value by {
                assert(holders_in(m, members, value, m.n()) == seq![coord]);
                assert(seq![coord][0] == coord);
                lemma_region_holder(m, sol, region, value, coord);
            }
            lemma_place_keeps(m, b, *board, coord, value);
            lemma_place(b, *board, coord, value);
            lemma_place_refines(m, b, *board, coord, value);
            if m.consistent() && m.no_conflict() {
                assert forall|y: Coord| #[trigger] b.related(coord, y) implies b.at(y) != CellView::Value(value) by {
                    if b.at(y) == CellView::Value(value) {
                        if m.at(y) is Value {
                            assert(m.at(y) == CellView::Value(value));
                            assert(m.related(coord, y));
                            assert(m.at(coord) is Notes && m.at(y) is Value);
                        } else {
                            assert(rn.listed(value) == seq![y]);
                        }
                    }
                }
            }
            if b.at(coord) is Value {
                assert(b != m);
            }
            assert(board.at(coord) == b.placed(coord, value, coord));
            assert(m.at(coord) is Notes);
            assert forall|k: int| 0 <= k < j + 1 implies #[trigger] board.at(singles@[k].0) is Value by {
                if k < j {
                    assert(board.at(singles@[k].0) == b.placed(coord, value, singles@[k].0));
                }
            }
            assert forall|c: Coord|
                in_grid(n, c) && #[trigger] board.at(c) is Value && m.at(c) is Notes implies rn.listed(
                    board.at(c)->Value_0,
                ) == seq![c] by {
                if c != coord {
                    assert(board.at(c) == b.at(c) || board.at(c) == strip(b.at(c), value));
                }
            }
        }
        changed = true;
        j += 1;
    }
    let mut removed: Vec<u8> = Vec::new();
    let mut k: usize = 0;
    while k < singles.len()
        invariant
            0 <= k <= singles.len(),
            removed@.len() == k,
            forall|q: int| 0 <= q < k ==> #[trigger] removed@[q] == singles@[q].1,
        decreases singles.len() - k,
    {
        removed.push(singles[k].1);
        k += 1;
    }
    let ghost before_drop = region_notes;
    region_notes.drop_values(&removed);
    proof {
        if !had_single {
            lemma_same_entries(rn, region_notes, removed@);
        }
        assert forall|i: int, k: int| 0 <= i < region_notes.notes@.len() && 0 <= k < region_notes.cells_at(i).len()
            implies in_grid(n, #[trigger] region_notes.cells_at(i)[k]) by {
            assert(region_notes.entries()[i] == (region_notes.notes@[i].value, region_notes.cells_at(i)));
            let jj = choose|jj: int| 0 <= jj < rn.notes@.len() && #[trigger] region_notes.entries()[i] == rn.entries()[jj];
            assert(rn.entries()[jj] == (rn.notes@[jj].value, rn.cells_at(jj)));
        }
    }
    let locked = region_notes.find_locked_candidates();
    proof {
        region_notes.lemma_locked_lines(n, region_notes.notes@.len());
        region_notes.lemma_locked_source(region_notes.notes@.len() as nat);
        assert forall|q: int| 0 <= q < locked@.len() implies pins(m, #[trigger] locked@[q], region) by {
            let lc = locked@[q];
            assert(region_notes.has_source(lc, region_notes.notes@.len() as nat));
            let i = choose|i: int| 0 <= i < region_notes.notes@.len() && region_notes.locked_source(lc, i);
            let cells = region_notes.cells_at(i);
            assert(cells.len() > 0);
            assert(region_notes.entries()[i] == (region_notes.notes@[i].value, cells));
            let jj = choose|jj: int| 0 <= jj < rn.notes@.len() && #[trigger] region_notes.entries()[i] == rn.entries()[jj];
            assert(rn.entries()[jj] == (rn.notes@[jj].value, rn.cells_at(jj)));
            rn.lemma_listed(jj);
            let v = region_notes.notes@[i].value;
            assert(rn.values()[jj] == v);
            assert(rn.listed(v) == cells);
            assert(cells == holders_in(m, members, v, m.n()));
            if m.consistent() {
                assert forall|sol: Seq<Seq<u8>>| #[trigger] m.admits(sol) implies pinned(m, sol, lc, region) by {
                    assert(cells.contains(cells[0]));
                    lemma_region_holder(m, sol, region, v, cells[0]);
                    let d = choose|d: Coord|
                        holders_in(m, members, v, m.n()).contains(d) && in_grid(m.n(), d)
                            && m.kind.region_at(m.size, d) == region && #[trigger] val(sol, d) == v;
                    let k = choose|k: int| 0 <= k < cells.len() && cells[k] == d;
                    match lc {
                        LockedCandidate::Row(_, r) => {
                            assert(cells[k].row == cells[0].row);
                        },
                        LockedCandidate::Column(_, c) => {
                            assert(cells[k].col == cells[0].col);
                        },
                    }
                }
            }
        }
    }
    let mut t: usize = 0;
    while t < locked.len()
        invariant
            m.wf(),
            n == m.n(),
            0 <= t <= locked.len(),
            forall|q: int| 0 <= q < locked@.len() ==> match #[trigger] locked@[q] {
                LockedCandidate::Row(_, r) => r < n,
                LockedCandidate::Column(_, c) => c < n,
            },
            forall|q: int| 0 <= q < locked@.len() ==> pins(m, #[trigger] locked@[q], region),
            m.sound_step(*board),
            m.keeps_solutions(*board),
            board.notes_in_range(),
            changed ==> board.measure() < m.measure(),
            !changed ==> *board == m,
            had_single ==> changed,
            !had_single ==> changed == exists|q: int| 0 <= q < t && lc_effective(m, #[trigger] locked@[q], region),
            had_single ==> m.fills_some(*board),
            !had_single ==> forall|c: Coord| in_grid(n, c) && #[trigger] m.at(c) is Notes ==> board.at(c) is Notes,
            forall|k: int| 0 <= k < singles@.len() ==> #[trigger] board.at(singles@[k].0) is Value,
            forall|k: int| 0 <= k < singles@.len() ==> in_grid(n, #[trigger] singles@[k].0),
            board.size == m.size,
            board.kind == m.kind,
            forall|q: int, c: Coord|
                0 <= q < t && in_grid(n, c) && on_line_before(locked@[q], c, n as int) && m.kind.region_at(m.size, c)
                    != region as int ==> !holds(#[trigger] board.at(c), locked_value(#[trigger] locked@[q])),
        decreases locked.len() - t,
    {
        let ghost b = *board;
        let lc = locked[t];
        assert(match locked@[t as int] {
            LockedCandidate::Row(_, r) => r < n,
            LockedCandidate::Column(_, c) => c < n,
        });
        let eliminated = eliminate_locked(board, lc, region);
        proof {
            lemma_sound_trans(m, b, *board);
            assert(pins(m, lc, region));
            if m.consistent() {
                assert forall|sol: Seq<Seq<u8>>| #[trigger] m.admits(sol) implies board.admits(sol) by {
                    assert(b.admits(sol));
                    assert(pinned(m, sol, lc, region));
                    assert(pinned(b, sol, lc, region));
                }
            }
        }
        proof {
            if !had_single {
                if !changed {
                    assert(eliminated == lc_effective(m, lc, region));
                }
                if changed || eliminated {
                    if !changed {
                        assert(lc_effective(m, locked@[t as int], region));
                    } else {
                        let q = choose|q: int| 0 <= q < t && lc_effective(m, #[trigger] locked@[q], region);
                    }
                    assert(exists|q: int| 0 <= q < t + 1 && lc_effective(m, #[trigger] locked@[q], region));
                } else {
                    assert forall|q: int| 0 <= q < t + 1 implies !lc_effective(m, #[trigger] locked@[q], region) by {
                        if q < t {
                            assert(!(exists|q: int| 0 <= q < t && lc_effective(m, #[trigger] locked@[q], region)));
                        }
                    }
                }
            }
        }
        proof {
            assert forall|q: int, c: Coord|
                0 <= q < t + 1 && in_grid(n, c) && on_line_before(locked@[q], c, n as int) && m.kind.region_at(m.size, c)
                    != region as int implies !holds(#[trigger] board.at(c), locked_value(#[trigger] locked@[q])) by {
                if q < t {
                    assert(!holds(b.at(c), locked_value(locked@[q])));
                } else {
                    assert(locked@[q] == lc);
                }
            }
            assert forall|k: int| 0 <= k < singles@.len() implies #[trigger] board.at(singles@[k].0) is Value by {
                assert(b.at(singles@[k].0) is Value);
            }
            if had_single {
                let c = choose|c: Coord| in_grid(m.n(), c) && #[trigger] m.at(c) is Notes && b.at(c) is Value;
                assert(board.at(c) is Value);
            } else {
                assert forall|c: Coord| in_grid(n, c) && #[trigger] m.at(c) is Notes implies board.at(c) is Notes by {
                    assert(b.at(c) is Notes);
                }
            }
        }
        changed = changed || eliminated;
        t += 1;
    }
    proof {
        if !had_single {
            lemma_locked_pointing(m, region, rn, region_notes, locked@);
        }
        assert(had_single == region_has_single(m, region));
        assert forall|w: u8| #[trigger] pointing_cleared(m, region, *board, w) by {
            let h = region_holders(m, region, w);
            if h.len() >= 2 {
                assert(rn.listed(w) == h);
                assert(rn.values().contains(w));
                let i = rn.values().index_of(w);
                assert(rn.cells_at(i) == h);
                assert(rn.notes@[i].value == rn.values()[i]);
                assert(!removed@.contains(w)) by {
                    if removed@.contains(w) {
                        let q = choose|q: int| 0 <= q < removed@.len() && removed@[q] == w;
                        assert(rn.listed(singles@[q].1) == seq![singles@[q].0]);
                    }
                }
                assert(before_drop.entries() == rn.entries());
                assert(rn.entries()[i] == (w, h));
                crate::region_notes::lemma_keep_contains(rn.entries(), removed@, rn.notes@.len() as nat, i);
                let kept = region_notes.entries();
                assert(kept.contains((w, h)));
                let i2 = choose|i2: int| 0 <= i2 < kept.len() && kept[i2] == (w, h);
                assert(region_notes.notes@[i2].value == w && region_notes.cells_at(i2) == h);
                region_notes.lemma_locked_complete(region_notes.notes@.len() as nat, i2);
                assert forall|c: Coord|
                    in_grid(m.n(), c) && m.kind.region_at(m.size, c) != region as int && ((same_row(h) && c.row == h[0].row)
                        || (same_col(h) && c.col == h[0].col)) implies !holds(#[trigger] board.at(c), w) by {
                    if same_row(h) && c.row == h[0].row {
                        let lc = LockedCandidate::Row(w, h[0].row);
                        let q = choose|q: int| 0 <= q < locked@.len() && locked@[q] == lc;
                        assert(on_line_before(locked@[q], c, n as int));
                        assert(!holds(board.at(c), locked_value(locked@[q])));
                    } else {
                        let lc = LockedCandidate::Column(w, h[0].col);
                        let q = choose|q: int| 0 <= q < locked@.len() && locked@[q] == lc;
                        assert(on_line_before(locked@[q], c, n as int));
                        assert(!holds(board.at(c), locked_value(locked@[q])));
                    }
                }
            }
        }
        rn.lemma_singles_complete(rn.notes@.len() as nat);
        assert forall|w: u8| #[trigger] region_holders(m, region, w).len() == 1 implies board.at(
            region_holders(m, region, w)[0],
        ) is Value by {
            assert(rn.listed(w) == region_holders(m, region, w));
            assert(rn.values().contains(w));
            let i = rn.values().index_of(w);
            assert(rn.cells_at(i).len() == 1);
            assert(rn.notes@[i].value == rn.values()[i]);
            assert(singles@.contains((rn.cells_at(i)[0], w)));
            let k = choose|k: int| 0 <= k < singles@.len() && singles@[k] == (rn.cells_at(i)[0], w);
            assert(board.at(singles@[k].0) is Value);
        }
        if !had_single {
            if m.fills_some(*board) {
                let c = choose|c: Coord| in_grid(m.n(), c) && #[trigger] m.at(c) is Notes && board.at(c) is Value;
            }
        }
    }
    singles.len() > 0
}

/// Dropping no candidate keeps the entries, index by index.
proof fn lemma_same_entries(rn: RegionNotes, notes: RegionNotes, vals: Seq<u8>)
    requires
        vals.len() == 0,
        notes.entries() == keep_upto(rn.entries(), vals, rn.notes@.len() as nat),
    ensures
        notes.notes@.len() == rn.notes@.len(),
        forall|i: int|
            0 <= i < rn.notes@.len() ==> (#[trigger] notes.notes@[i]).value == rn.notes@[i].value && notes.notes@[i].cells@
                == rn.notes@[i].cells@,
{
    lemma_keep_all(rn.entries(), vals, rn.notes@.len() as nat);
    assert(rn.entries().take(rn.notes@.len() as int) =~= rn.entries());
    assert(notes.entries() == rn.entries());
    assert(notes.entries().len() == notes.notes@.len());
    assert(rn.entries().len() == rn.notes@.len());
    assert forall|i: int| 0 <= i < rn.notes@.len() implies (#[trigger] notes.notes@[i]).value == rn.notes@[i].value
        && notes.notes@[i].cells@ == rn.notes@[i].cells@ by {
        assert(notes.entries()[i] == (notes.notes@[i].value, notes.notes@[i].cells@));
        assert(rn.entries()[i] == (rn.notes@[i].value, rn.notes@[i].cells@));
        assert(notes.entries()[i] == rn.entries()[i]);
    }
}

/// Region `region` has a hidden single exactly when one of its entries has
/// a single cell.
proof fn lemma_region_singles(m: Board, region: u8, rn: RegionNotes)
    requires
        rn.wf(),
        forall|w: u8| #[trigger] rn.listed(w) == region_holders(m, region, w),
        forall|w: u8| #[trigger] rn.values().contains(w) <==> rn.listed(w).len() > 0,
    ensures
        (rn.singles_upto(rn.notes@.len() as nat).len() > 0) == region_has_single(m, region),
{
    rn.lemma_singles_exist(rn.notes@.len() as nat);
    if rn.singles_upto(rn.notes@.len() as nat).len() > 0 {
        let i = choose|i: int| 0 <= i < rn.notes@.len() && #[trigger] rn.cells_at(i).len() == 1;
        rn.lemma_listed(i);
        let w = rn.values()[i];
        assert(region_holders(m, region, w).len() == 1);
    }
    if region_has_single(m, region) {
        let w = choose|w: u8| #[trigger] region_holders(m, region, w).len() == 1;
        assert(rn.listed(w).len() == 1);
        assert(rn.values().contains(w));
        let i = rn.values().index_of(w);
        assert(rn.cells_at(i).len() == 1);
    }
}

/// Without hidden singles, some locked candidate of region `region` removes
/// a candidate exactly when a candidate points out of the region.
proof fn lemma_locked_pointing(m: Board, region: u8, rn: RegionNotes, notes: RegionNotes, locked: Seq<LockedCandidate>)
    requires
        m.wf(),
        rn.wf(),
        forall|w: u8| #[trigger] rn.listed(w) == region_holders(m, region, w),
        forall|w: u8| #[trigger] rn.values().contains(w) <==> rn.listed(w).len() > 0,
        notes.notes@.len() == rn.notes@.len(),
        forall|i: int|
            0 <= i < rn.notes@.len() ==> (#[trigger] notes.notes@[i]).value == rn.notes@[i].value && notes.notes@[i].cells@
                == rn.notes@[i].cells@,
        locked == notes.locked_upto(notes.notes@.len() as nat),
    ensures
        (exists|q: int| 0 <= q < locked.len() && lc_effective(m, #[trigger] locked[q], region)) == exists|w: u8|
            #[trigger] region_points(m, region, w),
{
    let len = notes.notes@.len() as nat;
    assert(notes.cells_nonempty()) by {
        assert forall|i: int| 0 <= i < notes.notes@.len() implies #[trigger] notes.cells_at(i).len() > 0 by {
            assert(notes.cells_at(i) == rn.cells_at(i));
        }
    }
    notes.lemma_locked_source(len);
    if exists|q: int| 0 <= q < locked.len() && lc_effective(m, #[trigger] locked[q], region) {
        let q = choose|q: int| 0 <= q < locked.len() && lc_effective(m, #[trigger] locked[q], region);
        let lc = locked[q];
        assert(notes.has_source(lc, len));
        let i = choose|i: int| 0 <= i < len && notes.locked_source(lc, i);
        rn.lemma_listed(i);
        let w = rn.values()[i];
        assert(notes.cells_at(i) == rn.cells_at(i));
        assert(rn.listed(w) == rn.cells_at(i));
        assert(rn.cells_at(i).len() > 0);
        assert(region_points(m, region, w));
    }
    if exists|w: u8| #[trigger] region_points(m, region, w) {
        let w = choose|w: u8| #[trigger] region_points(m, region, w);
        let h = region_holders(m, region, w);
        assert(rn.values().contains(w));
        let i = rn.values().index_of(w);
        rn.lemma_listed(i);
        assert(rn.cells_at(i) == h);
        assert(notes.cells_at(i) == h);
        assert(notes.notes@[i].value == w);
        notes.lemma_locked_complete(len, i);
        if same_row(h) && lc_effective(m, LockedCandidate::Row(w, h[0].row), region) {
            let q = choose|q: int| 0 <= q < locked.len() && locked[q] == LockedCandidate::Row(w, h[0].row);
            assert(lc_effective(m, locked[q], region));
        } else {
            let q = choose|q: int| 0 <= q < locked.len() && locked[q] == LockedCandidate::Column(w, h[0].col);
            assert(lc_effective(m, locked[q], region));
        }
    }
}

/// One of the first `k` regions is reducible.
pub open spec fn has_reducible_region(b: Board, k: nat) -> bool {
    exists|g: u8| (g as nat) < k && #[trigger] region_reducible(b, g)
}

/// One more region adds that region.
proof fn lemma_reducible_step(b: Board, g: u8)
    ensures
        has_reducible_region(b, (g + 1) as nat) == (has_reducible_region(b, g as nat) || region_reducible(b, g)),
{
    if has_reducible_region(b, (g + 1) as nat) {
        let k = choose|k: u8| (k as nat) < g + 1 && #[trigger] region_reducible(b, k);
        if k != g {
            assert(has_reducible_region(b, g as nat));
        }
    }
    if has_reducible_region(b, g as nat) {
        let k = choose|k: u8| (k as nat) < g && #[trigger] region_reducible(b, k);
        assert(has_reducible_region(b, (g + 1) as nat));
    }
    if region_reducible(b, g) {
        assert(has_reducible_region(b, (g + 1) as nat));
    }
}

/// Region by region: fill hidden singles, then remove locked candidates
/// (pointing pairs and triples) from the rest of their row or column.
pub struct RegionLineReduction;

/// What handling region `g` does to `a`, giving `b`: a sound step that
/// keeps the solutions; every candidate that only one cell of the region
/// notes has that cell filled; every candidate that two or more cells of the
/// region note, all in one row (or column), is no longer noted in that row
/// (or column) outside the region; a cell is filled exactly when the region
/// has a hidden single; and the board changes, weighing less, exactly when
/// the region is reducible.
pub open spec fn region_step(a: Board, g: u8, b: Board) -> bool {
    &&& a.sound_step(b)
    &&& a.keeps_solutions(b)
    &&& forall|w: u8| #[trigger] region_holders(a, g, w).len() == 1 ==> b.at(region_holders(a, g, w)[0]) is Value
    &&& forall|w: u8| #[trigger] pointing_cleared(a, g, b, w)
    &&& a.fills_some(b) == region_has_single(a, g)
    &&& region_reducible(a, g) ==> b.measure() < a.measure()
    &&& !region_reducible(a, g) ==> b == a
}

/// Each board of `bs` is the one before with region `k` handled.
pub open spec fn region_sweep(bs: Seq<Board>) -> bool {
    forall|k: int| 0 <= k < bs.len() - 1 ==> #[trigger] region_step(bs[k], k as u8, bs[k + 1])
}

impl Strategy for RegionLineReduction {
    const DIFFICULTY_LEVEL: Difficulty = Difficulty::Medium;

    /// With a focus on individual regions, this function:
    ///
    /// 1. Identifies and sets cells that can only be a single candidate
    ///    (which is hidden among other candidates).
    /// 2. Applies the locked candidates technique (type 1) to eliminate candidates
    ///    from cells outside the region but within the same row or column.
    ///    This is also called pointed pairs/triples/quads because the cells
    ///    whose common candidates are confined to a single row or column in a region
    ///    form a pointing direction to other cells in the same row or column where
    ///    the shared candidate can be eliminated.
    ///
    /// Return `true` if any cells were set.
    /// Some candidates may still have been eliminated when this returns false.
    /// The board changes exactly when some region of the board has a hidden
    /// single or a candidate pointing out of it. The regions are handled in
    /// turn, each on the board left by the ones before; in each, every
    /// candidate noted by a single cell of the region has that cell filled,
    /// and every candidate whose cells in the region lie in one row or
    /// column is removed from that row or column outside the region.
    fn apply(board: &mut Board) -> (r: bool)
        ensures
            r == old(board).fills_some(*final(board)),
            has_reducible_region(*old(board), old(board).n()) ==> final(board).measure() < old(board).measure(),
            !has_reducible_region(*old(board), old(board).n()) ==> *final(board) == *old(board),
            exists|bs: Seq<Board>|
                #![trigger region_sweep(bs)]
                bs.len() == old(board).n() + 1 && bs[0] == *old(board) && bs[bs.len() - 1] == *final(board)
                    && region_sweep(bs),
    {
        let ghost start = *board;
        let ghost mut any_changed = false;
        let mut any_set = false;
        let max_cells = board.size.max_cells();
        proof {
            lemma_refines_refl(start);
            lemma_keeps_refl(start);
        }
        let ghost mut bs: Seq<Board> = seq![start];
        let mut region: u8 = 0;
        while region < max_cells
            invariant
                start.wf(),
                max_cells == start.n(),
                0 <= region <= max_cells,
                start.sound_step(*board),
                start.keeps_solutions(*board),
                board.notes_in_range(),
                any_changed ==> board.measure() < start.measure(),
                !any_changed ==> *board == start,
                any_changed == has_reducible_region(start, region as nat),
                any_set == start.fills_some(*board),
                bs.len() == region + 1,
                bs[0] == start,
                bs[bs.len() - 1] == *board,
                region_sweep(bs),
            decreases max_cells - region,
        {
            let ghost b = *board;
            let set = reduce_region(board, region);
            proof {
                lemma_keeps_trans(start, b, *board);
                lemma_sound_trans(start, b, *board);
                lemma_reducible_step(start, region);
                if !any_changed {
                    assert(region_reducible(start, region) == region_reducible(b, region));
                }
                if region_reducible(b, region) {
                    crate::progress::lemma_refines_measure(start, b);
                }
                if any_set {
                    let c = choose|c: Coord| in_grid(start.n(), c) && #[trigger] start.at(c) is Notes && b.at(c) is Value;
                    assert(board.at(c) is Value);
                }
                if set {
                    let c = choose|c: Coord| in_grid(b.n(), c) && #[trigger] b.at(c) is Notes && board.at(c) is Value;
                    assert(start.at(c) is Notes);
                    assert(start.fills_some(*board));
                }
                if !any_set && !set {
                    if start.fills_some(*board) {
                        let c = choose|c: Coord| in_grid(start.n(), c) && #[trigger] start.at(c) is Notes && board.at(c) is Value;
                        assert(b.at(c) is Value || b.at(c) is Notes);
                        if b.at(c) is Notes {
                            assert(b.fills_some(*board));
                        } else {
                            assert(start.fills_some(b));
                        }
                    }
                }
                any_changed = any_changed || region_reducible(b, region);
                crate::progress::lemma_refines_measure(b, *board);
                assert(region_step(b, region, *board));
                let prev = bs;
                bs = bs.push(*board);
                assert forall|k: int| 0 <= k < bs.len() - 1 implies #[trigger] region_step(bs[k], k as u8, bs[k + 1]) by {
                    if k < prev.len() - 1 {
                        assert(bs[k] == prev[k] && bs[k + 1] == prev[k + 1]);
                    }
                }
            }
            any_set = any_set || set;
            region += 1;
        }
        proof {
            crate::progress::lemma_refines_measure(start, *board);
        }
        any_set
    }
}

/// The set of the elements of `v`.
fn set_of(v: &Vec<u8>) -> (r: HashSet<u8>)
    ensures
        r@ == v@.to_set(),
{
    let mut r: HashSet<u8> = HashSet::new();
    let mut i: usize = 0;
    while i < v.len()
        invariant
            0 <= i <= v.len(),
            r@ == v@.take(i as int).to_set(),
        decreases v.len() - i,
    {
        r.insert(v[i]);
        proof {
            assert(v@.take(i + 1) == v@.take(i as int).push(v@[i as int]));
            v@.take(i as int).lemma_push_to_set_commute(v@[i as int]);
        }
        i += 1;
    }
    assert(v@.take(v@.len() as int) == v@);
    r
}

/// Some element of `v` is in `notes`.
fn any_in(notes: &HashSet<u8>, v: &Vec<u8>) -> (r: bool)
    ensures
        r == exists|w: u8| v@.contains(w) && notes@.contains(w),
{
    let mut i: usize = 0;
    while i < v.len()
        invariant
            0 <= i <= v.len(),
            forall|k: int| 0 <= k < i ==> !notes@.contains(#[trigger] v@[k]),
        decreases v.len() - i,
    {
        if notes.contains(&v[i]) {
            assert(v@.contains(v@[i as int]));
            return true;
        }
        i += 1;
    }
    assert forall|w: u8| v@.contains(w) implies !notes@.contains(w) by {
        let k = choose|k: int| 0 <= k < v@.len() && v@[k] == w;
    }
    false
}

/// Remove every candidate in `v` from the cell at `x`.
fn strip_all(board: &mut Board, x: Coord, v: &Vec<u8>)
    requires
        old(board).wf(),
        in_grid(old(board).n(), x),
        old(board).at(x) is Notes,
        old(board).notes_in_range(),
    ensures
        final(board).wf(),
        final(board).size == old(board).size,
        final(board).kind == old(board).kind,
        final(board).at(x) == CellView::Notes(old(board).at(x)->Notes_0.difference(v@.to_set())),
        forall|c: Coord| in_grid(old(board).n(), c) && c != x ==> #[trigger] final(board).at(c) == old(board).at(c),
{
    let ghost b = *board;
    let ghost s0 = b.at(x)->Notes_0;
    assert(s0.difference(v@.take(0).to_set()) =~= s0);
    let mut i: usize = 0;
    while i < v.len()
        invariant
            b.wf(),
            b.notes_in_range(),
            in_grid(b.n(), x),
            b.at(x) is Notes,
            s0 == b.at(x)->Notes_0,
            0 <= i <= v.len(),
            board.wf(),
            board.size == b.size,
            board.kind == b.kind,
            board.at(x) == CellView::Notes(s0.difference(v@.take(i as int).to_set())),
            forall|c: Coord| in_grid(b.n(), c) && c != x ==> #[trigger] board.at(c) == b.at(c),
        decreases v.len() - i,
    {
        let w = v[i];
        let ghost before = *board;
        if w < board.size.max_cells() {
            board.clear_note(x, w);
        }
        proof {
            assert(v@.take(i + 1) == v@.take(i as int).push(w));
            v@.take(i as int).lemma_push_to_set_commute(w);
            if w >= b.n() {
                assert(!s0.contains(w));
            }
            assert(board.at(x)->Notes_0 =~= s0.difference(v@.take(i + 1).to_set()));
        }
        i += 1;
    }
    assert(v@.take(v@.len() as int) == v@);
}

/// The cell `c` is as in `m`, or has strictly fewer candidates.
pub open spec fn strictly_shrunk(m: Board, b: Board, c: Coord) -> bool {
    b.at(c) == m.at(c) || (m.at(c) is Notes && b.at(c) is Notes && b.at(c)->Notes_0.subset_of(
        m.at(c)->Notes_0,
    ) && b.at(c)->Notes_0 != m.at(c)->Notes_0)
}

/// One of the first `lim` hidden sets has a candidate that `m` noted at `c`.
pub open spec fn touched_by(m: Board, c: Coord, sets: Seq<(Seq<u8>, Seq<Coord>)>, lim: int) -> bool {
    exists|i: int, w: u8| 0 <= i < lim && #[trigger] sets[i].0.contains(w) && holds(m.at(c), w)
}

/// In a line of a consistent board, the cells that alone hold a set of as
/// many candidates as there are cells take, in every solution, exactly those
/// candidates.
proof fn lemma_line_set(m: Board, sol: Seq<Seq<u8>>, line: LineKind, cands: Seq<u8>, cs: Seq<Coord>)
    requires
        m.wf(),
        m.notes_in_range(),
        m.consistent(),
        m.admits(sol),
        line.line_index() < m.n(),
        cands.no_duplicates(),
        cs.no_duplicates(),
        cands.len() == cs.len(),
        cs.len() > 0,
        forall|w: u8| #[trigger] cands.contains(w) ==> line.coords_of(m, w) == cs,
    ensures
        forall|w: u8| #[trigger] cands.contains(w) ==> exists|d: Coord| cs.contains(d) && val(sol, d) == w,
        forall|c: Coord| #[trigger] cs.contains(c) ==> cands.contains(val(sol, c)),
{
    let n = m.n();
    let cells = line_cells(m, line);
    lemma_line_group(m, line);
    assert(cands.contains(cands[0]));
    let w0 = cands[0];
    line.lemma_holders(m, w0, n);
    assert forall|c: Coord| #[trigger] cs.contains(c) implies cells.contains(c) by {
        let i = choose|i: int| 0 <= i < cs.len() && cs[i] == c;
        assert(line.holders(m, w0, n)[i] == c);
        let j = choose|j: int| 0 <= j < n && #[trigger] line.holders(m, w0, n)[i] == line.cell(j);
        assert(cells[j] == c);
    }
    assert forall|w: u8| #[trigger] cands.contains(w) implies w < n by {
        line.lemma_holders(m, w, n);
        assert(line.holders(m, w, n)[0] == cs[0]);
        assert(holds(m.at(cs[0]), w));
        assert(in_grid(n, cs[0]));
        assert(m.at(cs[0])->Notes_0.contains(w));
    }
    assert forall|w: u8, d: Coord|
        #![trigger cands.contains(w), cells.contains(d), m.at(d)]
        cands.contains(w) && cells.contains(d) implies (holds(m.at(d), w) <==> cs.contains(d)) by {
        line.lemma_holders(m, w, n);
        let j = choose|j: int| 0 <= j < cells.len() && cells[j] == d;
        assert(d == line.cell(j));
        if cs.contains(d) {
            let i = choose|i: int| 0 <= i < cs.len() && cs[i] == d;
            assert(line.holders(m, w, n)[i] == d);
        }
    }
    lemma_set_fills(m, sol, cells, cands, cs);
}

/// The cell `c` holds notes, and not exactly `count` of them.
pub open spec fn wider_than(m: Board, c: Coord, count: nat) -> bool {
    m.at(c) is Notes && m.at(c)->Notes_0.len() != count
}

/// The cell `c` is not one of `cs` and notes one of `cands`.
pub open spec fn strips_at(m: Board, cands: Seq<u8>, cs: Seq<Coord>, c: Coord) -> bool {
    !cs.contains(c) && m.at(c) is Notes && exists|w: u8| cands.contains(w) && m.at(c)->Notes_0.contains(w)
}

/// The cells `cs` lie in one region, and another cell of that region notes
/// one of `cands`.
pub open spec fn set_region_strips(m: Board, cands: Seq<u8>, cs: Seq<Coord>) -> bool {
    let ri = m.kind.index_of(m.size, cs[0]);
    let rs = m.kind.member_seq(m.size, ri->0 as int);
    &&& ri is Some
    &&& forall|k: int| 0 <= k < cs.len() ==> m.kind.index_of(m.size, #[trigger] cs[k]) == ri
    &&& exists|t: int| 0 <= t < rs.len() && #[trigger] strips_at(m, cands, cs, rs[t])
}

/// The hidden set of candidates `cands` in the cells `cs` removes something
/// from `m`: one of its cells notes more than the set, or the set lies in
/// one region that notes one of its candidates elsewhere.
pub open spec fn set_effective(m: Board, cands: Seq<u8>, cs: Seq<Coord>) -> bool {
    (exists|k: int| 0 <= k < cs.len() && #[trigger] wider_than(m, cs[k], cands.len()))
        || set_region_strips(m, cands, cs)
}

/// One of the first `k` of `sets` is effective on `m`.
pub open spec fn has_effective_set(m: Board, sets: Seq<(Seq<u8>, Seq<Coord>)>, k: int) -> bool {
    exists|i: int| 0 <= i < k && #[trigger] set_effective(m, sets[i].0, sets[i].1)
}

/// Some hidden set of `line` is effective on `m`.
pub open spec fn line_reducible(m: Board, line: LineKind) -> bool {
    has_effective_set(m, line.sets_upto(m, 256), line.sets_upto(m, 256).len() as int)
}

/// One more set adds that set.
proof fn lemma_effective_step(m: Board, sets: Seq<(Seq<u8>, Seq<Coord>)>, s: int)
    requires
        0 <= s,
    ensures
        has_effective_set(m, sets, s + 1) == (has_effective_set(m, sets, s) || set_effective(
            m,
            sets[s].0,
            sets[s].1,
        )),
{
    if has_effective_set(m, sets, s + 1) {
        let i = choose|i: int| 0 <= i < s + 1 && #[trigger] set_effective(m, sets[i].0, sets[i].1);
        if i != s {
            assert(has_effective_set(m, sets, s));
        }
    }
    if has_effective_set(m, sets, s) {
        let i = choose|i: int| 0 <= i < s && #[trigger] set_effective(m, sets[i].0, sets[i].1);
        assert(has_effective_set(m, sets, s + 1));
    }
    if set_effective(m, sets[s].0, sets[s].1) {
        assert(has_effective_set(m, sets, s + 1));
    }
}

/// The cells `cs` lie in one region, and `c` is a member of it.
pub open spec fn in_set_region(b: Board, cs: Seq<Coord>, c: Coord) -> bool {
    let ri = b.kind.index_of(b.size, cs[0]);
    &&& ri is Some
    &&& forall|k: int| 0 <= k < cs.len() ==> b.kind.index_of(b.size, #[trigger] cs[k]) == ri
    &&& b.kind.member_seq(b.size, ri->0 as int).contains(c)
}

/// The cell `c` of `b` once the hidden set of the candidates `cands` in the
/// cells `cs` is applied: a cell of the set that notes another number of
/// candidates keeps exactly the set's candidates, and when the set lies in
/// one region, the other empty cells of that region lose the set's
/// candidates.
pub open spec fn set_applied(b: Board, cands: Seq<u8>, cs: Seq<Coord>, c: Coord) -> CellView {
    if cs.contains(c) {
        if wider_than(b, c, cands.len()) {
            CellView::Notes(cands.to_set())
        } else {
            b.at(c)
        }
    } else if in_set_region(b, cs, c) && b.at(c) is Notes {
        CellView::Notes(b.at(c)->Notes_0.difference(cands.to_set()))
    } else {
        b.at(c)
    }
}

/// `b` is `a` with the hidden set of `cands` in `cs` applied.
pub open spec fn set_step(a: Board, cands: Seq<u8>, cs: Seq<Coord>, b: Board) -> bool {
    &&& b.size == a.size
    &&& b.kind == a.kind
    &&& forall|c: Coord| in_grid(a.n(), c) ==> #[trigger] b.at(c) == set_applied(a, cands, cs, c)
}

/// The boards `bs` start at `m` and apply, one after the other, the hidden
/// sets of `line` in `m`.
pub open spec fn sets_run(m: Board, line: LineKind, bs: Seq<Board>) -> bool {
    let sets = line.sets_upto(m, 256);
    &&& bs.len() == sets.len() + 1
    &&& bs[0] == m
    &&& forall|k: int| 0 <= k < sets.len() ==> #[trigger] set_step(bs[k], sets[k].0, sets[k].1, bs[k + 1])
}

/// `b` is `a` with the hidden sets of `line` in `a` applied one after the other.
pub open spec fn sets_done(a: Board, line: LineKind, b: Board) -> bool {
    exists|bs: Seq<Board>| #[trigger] sets_run(a, line, bs) && bs[bs.len() - 1] == b
}

/// Keep only the candidates of each hidden set of `line` in its cells, and,
/// when those cells lie in one region, remove the candidates from the other
/// cells of that region.
///
/// Returns `true` exactly when some hidden set of the line is effective on
/// the board as it was.
fn reduce_line_sets(board: &mut Board, line: LineKind) -> (r: bool)
    requires
        old(board).wf(),
        old(board).notes_in_range(),
        line.line_index() < old(board).n(),
    ensures
        r == line_reducible(*old(board), line),
        old(board).shrinks_to(*final(board)),
        old(board).sound_step(*final(board)),
        old(board).keeps_solutions(*final(board)),
        final(board).notes_in_range(),
        r ==> final(board).measure() < old(board).measure(),
        !r ==> *final(board) == *old(board),
        sets_done(*old(board), line, *final(board)),
{
    let ghost m = *board;
    let ghost n = m.n();
    let shared = line.find_cells_with_shared_candidates(board);
    let ghost sets = line.sets_upto(m, 256);
    proof {
        line.lemma_sets_disjoint(m);
        lemma_keeps_refl(m);
    }
    let mut changed = false;
    let ghost mut chain: Seq<Board> = seq![m];
    let mut s: usize = 0;
    while s < shared.len()
        invariant
            m.wf(),
            m.notes_in_range(),
            n == m.n(),
            line.line_index() < n,
            sets == line.sets_upto(m, 256),
            sets_view(shared@) == sets,
            0 <= s <= shared@.len(),
            board.wf(),
            board.size == m.size,
            board.kind == m.kind,
            forall|c: Coord| in_grid(n, c) ==> #[trigger] strictly_shrunk(m, *board, c),
            forall|c: Coord| in_grid(n, c) && board.at(c) != m.at(c) ==> #[trigger] touched_by(m, c, sets, s as int),
            m.keeps_solutions(*board),
            changed ==> !m.same_cells(*board),
            !changed ==> *board == m,
            changed == has_effective_set(m, sets, s as int),
            chain.len() == s + 1,
            chain[0] == m,
            chain[s as int] == *board,
            forall|k: int| 0 <= k < s ==> #[trigger] set_step(chain[k], sets[k].0, sets[k].1, chain[k + 1]),
        decreases shared.len() - s,
    {
        proof {
            line.lemma_sets_disjoint(m);
        }
        let candidates = &shared[s].0;
        let coords = &shared[s].1;
        assert(sets[s as int] == (candidates@, coords@));
        let ghost bs = *board;
        let ghost cs = coords@;
        let ghost cands = candidates@;
        let ghost c0 = changed;
        proof {
            line.lemma_holders(m, cands[0], n);
            assert(cands.contains(cands[0]));
            assert(line.coords_of(m, cands[0]) == cs);
        }
        proof {
            assert forall|c: Coord| in_grid(n, c) && board.at(c) != m.at(c) implies #[trigger] touched_by(m, c, sets, s + 1) by {
                assert(touched_by(m, c, sets, s as int));
                let (i1, w1) = choose|i1: int, w1: u8| 0 <= i1 < s && #[trigger] sets[i1].0.contains(w1) && holds(m.at(c), w1);
                assert(sets[i1].0.contains(w1));
            }
        }
        let mut region_index: Option<u8> = None;
        let mut same_region: Option<bool> = None;
        let mut j: usize = 0;
        while j < coords.len()
            invariant
                m.wf(),
                m.notes_in_range(),
                n == m.n(),
                line.line_index() < n,
                sets == line.sets_upto(m, 256),
                0 <= s < sets.len(),
                sets[s as int] == (cands, cs),
                cands == candidates@,
                cs == coords@,
                cs == line.coords_of(m, cands[0]),
                cs.no_duplicates(),
                forall|k: int| 0 <= k < cs.len() ==> in_grid(n, #[trigger] cs[k]),
                cands.len() == cs.len(),
                cs.len() > 1,
                cands.no_duplicates(),
                forall|w: u8| #[trigger] cands.contains(w) ==> line.coords_of(m, w) == cs,
                forall|i: int, w: u8| #![trigger sets[i].0.contains(w)] 0 <= i < s && sets[i].0.contains(w) ==> !cands.contains(w),
                0 <= j <= cs.len(),
                board.wf(),
                board.size == m.size,
                board.kind == m.kind,
                forall|k: int| j <= k < cs.len() ==> board.at(#[trigger] cs[k]) == bs.at(cs[k]),
                forall|c: Coord| in_grid(n, c) && bs.at(c) != m.at(c) ==> #[trigger] touched_by(m, c, sets, s as int),
                forall|c: Coord| in_grid(n, c) ==> #[trigger] strictly_shrunk(m, *board, c),
                forall|c: Coord| in_grid(n, c) && board.at(c) != m.at(c) ==> #[trigger] touched_by(m, c, sets, s + 1),
                m.keeps_solutions(*board),
                changed ==> !m.same_cells(*board),
                !changed ==> *board == m,
                j == 0 ==> region_index is None && same_region is None,
                j > 0 ==> region_index == m.kind.index_of(m.size, cs[0]) && (same_region == Some(true) <==> forall|k: int|
                    0 <= k < j ==> m.kind.index_of(m.size, #[trigger] cs[k]) == m.kind.index_of(m.size, cs[0])) && same_region is Some,
                !c0 ==> bs == m,
                changed == (c0 || exists|k: int| 0 <= k < j && #[trigger] wider_than(m, cs[k], cands.len())),
                bs.size == m.size,
                bs.kind == m.kind,
                forall|c: Coord| in_grid(n, c) ==> #[trigger] board.at(c) == if cs.take(j as int).contains(c) {
                    set_applied(bs, cands, cs, c)
                } else {
                    bs.at(c)
                },
            decreases cs.len() - j,
        {
            let ghost ch_in = changed;
            let ghost bj = *board;
            let coord = coords[j];
            match same_region {
                Some(is_same) => {
                    if is_same {
                        let cell_region = board.kind.index(&board.size, coord);
                        if region_index != cell_region {
                            same_region = Some(false);
                        }
                    }
                },
                None => {
                    region_index = board.kind.index(&board.size, coord);
                    same_region = Some(true);
                },
            }
            let need = match board.get_cell(coord) {
                Some(Cell::Notes(notes)) => notes.len() != candidates.len(),
                _ => false,
            };
            proof {
                assert(in_grid(n, cs[j as int]));
                assert(board.at(cs[j as int]) == bs.at(cs[j as int]));
                assert(need == wider_than(bs, cs[j as int], cands.len()));
            }
            if need {
                let ghost b = *board;
                let notes = set_of(candidates);
                proof {
                    board.lemma_view();
                    cands.unique_seq_to_set();
                    assert(b.at(coord) == bs.at(coord));
                    assert(holds(m.at(coord), cands[0])) by {
                        line.lemma_holders(m, cands[0], n);
                        assert(cs.contains(coord));
                    }
                    assert(cands.to_set().subset_of(m.at(coord)->Notes_0)) by {
                        assert forall|w: u8| cands.to_set().contains(w) implies m.at(coord)->Notes_0.contains(w) by {
                            assert(cands.contains(w));
                            line.lemma_holders(m, w, n);
                            assert(line.coords_of(m, w).contains(coord));
                            let k = choose|k: int| 0 <= k < line.coords_of(m, w).len() && line.coords_of(m, w)[k] == coord;
                        }
                    }
                    assert(cands.to_set() != m.at(coord)->Notes_0) by {
                        if cands.to_set() == m.at(coord)->Notes_0 {
                            if bs.at(coord) != m.at(coord) {
                                assert(touched_by(m, coord, sets, s as int));
                                let (i1, w1) = choose|i1: int, w1: u8| 0 <= i1 < s && #[trigger] sets[i1].0.contains(w1) && holds(m.at(coord), w1);
                                assert(cands.to_set().contains(w1));
                                assert(cands.contains(w1));
                            } else {
                                assert(b.at(coord) == m.at(coord));
                            }
                        }
                    }
                }
                put_cell(&mut board.grid, coord.row, coord.col, Cell::Notes(notes));
                proof {
                    assert(board.wf());
                    assert forall|c: Coord| in_grid(n, c) implies #[trigger] board.at(c) == if c == coord {
                        CellView::Notes(cands.to_set())
                    } else {
                        b.at(c)
                    } by {
                    }
                    assert(cands.contains(cands[0]));
                    assert(sets[s as int].0.contains(cands[0]));
                    assert(touched_by(m, coord, sets, s + 1));
                    assert forall|c: Coord| in_grid(n, c) implies #[trigger] strictly_shrunk(m, *board, c) by {
                        if c != coord {
                            assert(strictly_shrunk(m, b, c));
                        }
                    }
                    assert forall|c: Coord| in_grid(n, c) && board.at(c) != m.at(c) implies #[trigger] touched_by(m, c, sets, s + 1) by {
                        if c != coord {
                            assert(b.at(c) != m.at(c));
                        }
                    }
                    assert forall|k: int| j + 1 <= k < cs.len() implies board.at(#[trigger] cs[k]) == bs.at(cs[k]) by {
                        assert(cs[k] != cs[j as int]);
                    }
                    assert(board.at(coord) != m.at(coord));
                    assert(cs.contains(cs[j as int]));
                    if m.consistent() {
                        assert forall|sol: Seq<Seq<u8>>| #[trigger] m.admits(sol) implies board.admits(sol) by {
                            lemma_line_set(m, sol, line, cands, cs);
                            assert(b.admits(sol));
                            assert(cands.to_set().contains(val(sol, coord)));
                            lemma_admits_change(b, *board, sol);
                        }
                    }
                }
                changed = true;
            }
            proof {
                if changed {
                    assert(c0 || exists|k: int| 0 <= k < j + 1 && #[trigger] wider_than(m, cs[k], cands.len())) by {
                        if !c0 {
                            if ch_in {
                                let k = choose|k: int| 0 <= k < j && #[trigger] wider_than(m, cs[k], cands.len());
                                assert(0 <= k < j + 1);
                            } else {
                                assert(wider_than(m, cs[j as int], cands.len()));
                            }
                        }
                    }
                } else {
                    assert forall|k: int| 0 <= k < j + 1 implies !#[trigger] wider_than(m, cs[k], cands.len()) by {
                        if k < j {
                            assert(!(exists|k2: int| 0 <= k2 < j && #[trigger] wider_than(m, cs[k2], cands.len())));
                        }
                    }
                }
                assert(cs.take(j + 1) == cs.take(j as int).push(coord));
                assert(!cs.take(j as int).contains(coord)) by {
                    let tj = cs.take(j as int);
                    if tj.contains(coord) {
                        let k = choose|k: int| 0 <= k < tj.len() && tj[k] == coord;
                        assert(cs[k] == cs[j as int]);
                    }
                }
                assert(cs.contains(coord));
                assert forall|c: Coord| in_grid(n, c) implies #[trigger] board.at(c) == if cs.take(j + 1).contains(c) {
                    set_applied(bs, cands, cs, c)
                } else {
                    bs.at(c)
                } by {
                    if c != coord {
                        assert(board.at(c) == bj.at(c));
                        let tj1 = cs.take(j + 1);
                        let tj = cs.take(j as int);
                        assert(tj1.contains(c) == tj.contains(c)) by {
                            if tj1.contains(c) {
                                let k = choose|k: int| 0 <= k < tj1.len() && tj1[k] == c;
                                assert(tj[k] == c);
                            }
                            if tj.contains(c) {
                                let k = choose|k: int| 0 <= k < tj.len() && tj[k] == c;
                                assert(tj1[k] == c);
                            }
                        }
                    } else {
                        assert(cs.take(j + 1)[j as int] == c);
                    }
                }
            }
            j += 1;
        }
        let ghost c1 = changed;
        proof {
            assert(cs.take(cs.len() as int) == cs);
            assert forall|c: Coord, v: u8|
                #![trigger board.at(c)->Notes_0.contains(v)]
                in_grid(n, c) && board.at(c) is Notes && board.at(c)->Notes_0.contains(v) implies v < n by {
                assert(strictly_shrunk(m, *board, c));
            }
        }
        if let Some(ri) = region_index {
            if same_region == Some(true) {
                let region = board.kind.members(&board.size, ri);
                let ghost rs = region@;
                proof {
                    assert forall|k: int| 0 <= k < cs.len() implies m.kind.region_at(m.size, #[trigger] cs[k]) == ri by {
                        assert(m.kind.index_of(m.size, cs[k]) == m.kind.index_of(m.size, cs[0]));
                        m.kind.lemma_region_bound(m.size, cs[k]);
                    }
                }
                proof {
                    assert forall|c: Coord| #[trigger] in_set_region(bs, cs, c) == rs.contains(c) by {
                        assert(bs.kind.index_of(bs.size, cs[0]) == Some(ri));
                        assert forall|k: int| 0 <= k < cs.len() implies bs.kind.index_of(bs.size, #[trigger] cs[k]) == Some(ri) by {
                            assert(m.kind.index_of(m.size, cs[k]) == m.kind.index_of(m.size, cs[0])) by {
                                assert(0 <= k < j);
                            }
                        }
                    }
                    assert(rs.take(0) =~= Seq::<Coord>::empty());
                }
                let mut t: usize = 0;
                while t < region.len()
                    invariant
                        m.wf(),
                        m.notes_in_range(),
                        n == m.n(),
                        sets == line.sets_upto(m, 256),
                        0 <= s < sets.len(),
                        sets[s as int] == (cands, cs),
                        cands == candidates@,
                        cs == coords@,
                        rs == region@,
                        rs == m.kind.member_seq(m.size, ri as int),
                        0 <= t <= rs.len(),
                        board.wf(),
                        board.size == m.size,
                        board.kind == m.kind,
                        board.notes_in_range(),
                        forall|c: Coord| in_grid(n, c) ==> #[trigger] strictly_shrunk(m, *board, c),
                        forall|c: Coord| in_grid(n, c) && board.at(c) != m.at(c) ==> #[trigger] touched_by(m, c, sets, s + 1),
                        m.keeps_solutions(*board),
                        line.line_index() < n,
                        cands.no_duplicates(),
                        cs.no_duplicates(),
                        cands.len() == cs.len(),
                        cs.len() > 1,
                        forall|w: u8| #[trigger] cands.contains(w) ==> line.coords_of(m, w) == cs,
                        forall|k: int| 0 <= k < cs.len() ==> m.kind.region_at(m.size, #[trigger] cs[k]) == ri,
                        forall|k: int| 0 <= k < cs.len() ==> in_grid(n, #[trigger] cs[k]),
                        changed ==> !m.same_cells(*board),
                        !changed ==> *board == m,
                        changed == (c1 || exists|t2: int| 0 <= t2 < t && #[trigger] strips_at(m, cands, cs, rs[t2])),
                        bs.size == m.size,
                        bs.kind == m.kind,
                        forall|c: Coord| #[trigger] in_set_region(bs, cs, c) == rs.contains(c),
                        forall|c: Coord| in_grid(n, c) ==> #[trigger] board.at(c) == if cs.contains(c) || rs.take(t as int).contains(c) {
                            set_applied(bs, cands, cs, c)
                        } else {
                            bs.at(c)
                        },
                    decreases rs.len() - t,
                {
                    let ghost ch_in = changed;
                    let ghost bt = *board;
                    let coord = region[t];
                    proof {
                        m.kind.lemma_member_in_grid(m.size, ri as int, t as int);
                    }
                    if !vec_has_coord(coords, coord) {
                        let any = match board.get_cell(coord) {
                            Some(Cell::Notes(notes)) => any_in(notes, candidates),
                            _ => false,
                        };
                        if any {
                            let ghost b = *board;
                            strip_all(board, coord, candidates);
                            proof {
                                let w = choose|w: u8| cands.contains(w) && b.at(coord)->Notes_0.contains(w);
                                assert(cands.to_set().contains(w));
                                assert(!board.at(coord)->Notes_0.contains(w));
                                assert(strictly_shrunk(m, b, coord));
                                assert(m.at(coord)->Notes_0.contains(w));
                                assert(sets[s as int].0.contains(w));
                                assert(touched_by(m, coord, sets, s + 1));
                                assert(board.at(coord) != m.at(coord));
                                assert(strictly_shrunk(m, *board, coord));
                                assert forall|c: Coord| in_grid(n, c) implies #[trigger] strictly_shrunk(m, *board, c) by {
                                    if c != coord {
                                        assert(strictly_shrunk(m, b, c));
                                    }
                                }
                                assert forall|c: Coord| in_grid(n, c) && board.at(c) != m.at(c) implies #[trigger] touched_by(m, c, sets, s + 1) by {
                                    if c != coord {
                                        assert(b.at(c) != m.at(c));
                                    }
                                }
                                assert forall|c: Coord, v: u8|
                                    #![trigger board.at(c)->Notes_0.contains(v)]
                                    in_grid(n, c) && board.at(c) is Notes && board.at(c)->Notes_0.contains(v) implies v < n by {
                                    if c != coord {
                                        assert(board.at(c) == b.at(c));
                                    }
                                }
                                if m.consistent() {
                                    assert forall|sol: Seq<Seq<u8>>| #[trigger] m.admits(sol) implies board.admits(sol) by {
                                        lemma_line_set(m, sol, line, cands, cs);
                                        assert(b.admits(sol));
                                        assert(allows(b.at(coord), val(sol, coord)));
                                        if cands.contains(val(sol, coord)) {
                                            let x = val(sol, coord);
                                            let d = choose|d: Coord| cs.contains(d) && val(sol, d) == x;
                                            let k = choose|k: int| 0 <= k < cs.len() && cs[k] == d;
                                            assert(m.kind.region_at(m.size, cs[k]) == ri);
                                            assert(in_grid(n, cs[k]));
                                            assert(coord == rs[t as int]);
                                            assert(m.kind.region_at(m.size, coord) == ri);
                                            assert(d != coord);
                                            assert(m.related(d, coord));
                                        }
                                        assert(!cands.to_set().contains(val(sol, coord)));
                                        lemma_admits_change(b, *board, sol);
                                    }
                                }
                            }
                            changed = true;
                        }
                    }
                    proof {
                        if !ch_in {
                            assert(strips_at(m, cands, cs, rs[t as int]) == changed);
                        }
                        if changed {
                            if !c1 {
                                if ch_in {
                                    let t2 = choose|t2: int| 0 <= t2 < t && #[trigger] strips_at(m, cands, cs, rs[t2]);
                                    assert(0 <= t2 < t + 1);
                                } else {
                                    assert(strips_at(m, cands, cs, rs[t as int]));
                                }
                            }
                        } else {
                            assert forall|t2: int| 0 <= t2 < t + 1 implies !#[trigger] strips_at(m, cands, cs, rs[t2]) by {
                                if t2 < t {
                                    assert(!(exists|t3: int| 0 <= t3 < t && #[trigger] strips_at(m, cands, cs, rs[t3])));
                                }
                            }
                        }
                    }
                    proof {
                        let tt = rs.take(t as int);
                        let tt1 = rs.take(t + 1);
                        assert(tt1 == tt.push(coord));
                        assert forall|c: Coord| #[trigger] tt1.contains(c) == (tt.contains(c) || c == coord) by {
                            if tt1.contains(c) && c != coord {
                                let k = choose|k: int| 0 <= k < tt1.len() && tt1[k] == c;
                                assert(tt[k] == c);
                            }
                            if tt.contains(c) {
                                let k = choose|k: int| 0 <= k < tt.len() && tt[k] == c;
                                assert(tt1[k] == c);
                            }
                            if c == coord {
                                assert(tt1[t as int] == c);
                            }
                        }
                        assert(rs.contains(coord));
                        assert(in_set_region(bs, cs, coord));
                        assert forall|c: Coord| in_grid(n, c) implies #[trigger] board.at(c) == if cs.contains(c) || tt1.contains(c) {
                            set_applied(bs, cands, cs, c)
                        } else {
                            bs.at(c)
                        } by {
                            if c != coord {
                                assert(board.at(c) == bt.at(c));
                            } else if !cs.contains(c) {
                                let target = set_applied(bs, cands, cs, c);
                                if bs.at(c) is Notes {
                                    let d = bs.at(c)->Notes_0.difference(cands.to_set());
                                    assert(target == CellView::Notes(d));
                                    assert(bt.at(c) == bs.at(c) || bt.at(c) == CellView::Notes(d));
                                    assert(d.difference(cands.to_set()) =~= d);
                                    if board.at(c) == bt.at(c) && bt.at(c) == bs.at(c) {
                                        assert forall|w: u8| bs.at(c)->Notes_0.contains(w) implies !cands.to_set().contains(w) by {
                                            if cands.to_set().contains(w) {
                                                assert(cands.contains(w));
                                            }
                                        }
                                        assert(d =~= bs.at(c)->Notes_0);
                                    }
                                } else {
                                    assert(target == bs.at(c));
                                    assert(bt.at(c) == bs.at(c));
                                }
                            }
                        }
                    }
                    t += 1;
                }
                proof {
                    assert(rs.take(rs.len() as int) == rs);
                    assert forall|c: Coord| in_grid(n, c) implies #[trigger] board.at(c) == set_applied(bs, cands, cs, c) by {
                        if !cs.contains(c) && !rs.contains(c) {
                            assert(!in_set_region(bs, cs, c));
                        }
                    }
                    assert(set_step(bs, cands, cs, *board));
                    assert(m.kind.index_of(m.size, cs[0]) == Some(ri));
                    if set_region_strips(m, cands, cs) {
                        let t2 = choose|t2: int| 0 <= t2 < rs.len() && #[trigger] strips_at(m, cands, cs, rs[t2]);
                        assert(changed);
                    }
                    if changed && !c1 {
                        let t2 = choose|t2: int| 0 <= t2 < rs.len() && #[trigger] strips_at(m, cands, cs, rs[t2]);
                        assert(set_region_strips(m, cands, cs));
                    }
                }
            }
        }
        proof {
            assert(in_grid(n, cs[0]));
            if !(region_index is Some && same_region == Some(true)) {
                assert(!set_region_strips(m, cands, cs));
            }
            assert(changed == (c0 || set_effective(m, cands, cs)));
            lemma_effective_step(m, sets, s as int);
            if !(region_index is Some && same_region == Some(true)) {
                assert forall|c: Coord| in_grid(n, c) implies #[trigger] board.at(c) == set_applied(bs, cands, cs, c) by {
                    if !cs.contains(c) {
                        if in_set_region(bs, cs, c) {
                            assert forall|k: int| 0 <= k < cs.len() implies m.kind.index_of(m.size, #[trigger] cs[k])
                                == m.kind.index_of(m.size, cs[0]) by {
                                assert(bs.kind.index_of(bs.size, cs[k]) == bs.kind.index_of(bs.size, cs[0]));
                            }
                        }
                    }
                }
            }
            assert(set_step(bs, cands, cs, *board));
            let prev = chain;
            chain = chain.push(*board);
            assert forall|k: int| 0 <= k < s + 1 implies #[trigger] set_step(chain[k], sets[k].0, sets[k].1, chain[k + 1]) by {
                if k < s {
                    assert(chain[k] == prev[k] && chain[k + 1] == prev[k + 1]);
                }
            }
        }
        proof {
            assert forall|c: Coord, v: u8|
                #![trigger board.at(c)->Notes_0.contains(v)]
                in_grid(n, c) && board.at(c) is Notes && board.at(c)->Notes_0.contains(v) implies v < n by {
                assert(strictly_shrunk(m, *board, c));
            }
        }
        s += 1;
    }
    proof {
        assert(m.shrinks_to(*board)) by {
            assert forall|c: Coord| in_grid(n, c) implies #[trigger] board.at(c) == m.at(c) || (m.at(c) is Notes
                && board.at(c) is Notes && board.at(c)->Notes_0.subset_of(m.at(c)->Notes_0)) by {
                assert(strictly_shrunk(m, *board, c));
            }
        }
        lemma_shrink(m, *board);
        assert(sets_run(m, line, chain));
    }
    changed
}

/// Row `i` or column `i` of `b` is reducible.
pub open spec fn line_pair_reducible(b: Board, i: usize) -> bool {
    line_reducible(b, LineKind::Row(i)) || line_reducible(b, LineKind::Column(i))
}

/// One of the first `k` rows or columns of `b` is reducible.
pub open spec fn has_reducible_line(b: Board, k: nat) -> bool {
    exists|i: usize| (i as nat) < k && #[trigger] line_pair_reducible(b, i)
}

/// One more index adds its row and its column.
proof fn lemma_line_step(b: Board, i: usize)
    ensures
        has_reducible_line(b, (i + 1) as nat) == (has_reducible_line(b, i as nat) || line_pair_reducible(b, i)),
{
    if has_reducible_line(b, (i + 1) as nat) {
        let k = choose|k: usize| (k as nat) < i + 1 && #[trigger] line_pair_reducible(b, k);
        if k != i {
            assert(has_reducible_line(b, i as nat));
        }
    }
    if has_reducible_line(b, i as nat) {
        let k = choose|k: usize| (k as nat) < i && #[trigger] line_pair_reducible(b, k);
        assert(has_reducible_line(b, (i + 1) as nat));
    }
    if line_pair_reducible(b, i) {
        assert(has_reducible_line(b, (i + 1) as nat));
    }
}

/// Hidden pairs, triples and quads of rows and columns.
pub struct HiddenSets;

/// Each board of `bs` is the one before with the hidden sets of the next
/// line of the sweep applied.
pub open spec fn sets_sweep(bs: Seq<Board>) -> bool {
    forall|k: int| 0 <= k < bs.len() - 1 ==> #[trigger] sets_done(bs[k], sweep_line(k), bs[k + 1])
}

impl Strategy for HiddenSets {
    const DIFFICULTY_LEVEL: Difficulty = Difficulty::Medium;

    /// Eliminate candidates using locked candidates technique (type 2).
    ///
    /// This technique is like an inversion of the locked candidates type 1 technique.
    /// Also known as "hidden pairs/triples/quads".
    /// We look for common candidates shared among cells in the same row or column,
    /// and eliminates any candidate(s) that are not shared among the cells that
    /// have shared candidates.
    ///
    /// Returns `true` exactly when some row or column of the board has a
    /// hidden set that removes a candidate. The board is the sweep row 0,
    /// column 0, row 1, ... with the hidden sets of each line, found on the
    /// board the line meets, applied one after the other; no cell is filled.
    fn apply(board: &mut Board) -> (r: bool)
        ensures
            r == has_reducible_line(*old(board), old(board).n()),
            !r ==> *final(board) == *old(board),
            old(board).shrinks_to(*final(board)),
            exists|bs: Seq<Board>|
                #![trigger sets_sweep(bs)]
                bs.len() == 2 * old(board).n() + 1 && bs[0] == *old(board) && bs[bs.len() - 1] == *final(board)
                    && sets_sweep(bs),
    {
        let ghost start = *board;
        let mut any_changed = false;
        let max_cells = board.size.max_cells() as usize;
        proof {
            lemma_refines_refl(start);
            lemma_keeps_refl(start);
            crate::progress::lemma_shrinks_refl(start);
        }
        let ghost mut bs: Seq<Board> = seq![start];
        let mut i: usize = 0;
        while i < max_cells
            invariant
                start.wf(),
                max_cells == start.n(),
                0 <= i <= max_cells,
                start.sound_step(*board),
                start.keeps_solutions(*board),
                board.notes_in_range(),
                any_changed ==> board.measure() < start.measure(),
                !any_changed ==> *board == start,
                any_changed == has_reducible_line(start, i as nat),
                start.shrinks_to(*board),
                bs.len() == 2 * i + 1,
                bs[0] == start,
                bs[bs.len() - 1] == *board,
                sets_sweep(bs),
            decreases max_cells - i,
        {
            let ghost b0 = *board;
            let row_changed = reduce_line_sets(board, LineKind::Row(i));
            proof {
                lemma_keeps_trans(start, b0, *board);
                lemma_sound_trans(start, b0, *board);
                crate::progress::lemma_shrinks_trans(start, b0, *board);
            }
            let ghost b1 = *board;
            let col_changed = reduce_line_sets(board, LineKind::Column(i));
            proof {
                lemma_keeps_trans(start, b1, *board);
                lemma_sound_trans(start, b1, *board);
                crate::progress::lemma_shrinks_trans(start, b1, *board);
                lemma_line_step(start, i);
                let prev = bs;
                bs = bs.push(b1).push(*board);
                assert(sweep_line(2 * i) == LineKind::Row(i));
                assert(sweep_line(2 * i + 1) == LineKind::Column(i));
                assert forall|k: int| 0 <= k < bs.len() - 1 implies #[trigger] sets_done(bs[k], sweep_line(k), bs[k + 1]) by {
                    if k < prev.len() - 1 {
                        assert(bs[k] == prev[k] && bs[k + 1] == prev[k + 1]);
                    }
                }
            }
            any_changed = any_changed || row_changed || col_changed;
            i += 1;
        }
        proof {
            crate::progress::lemma_refines_measure(start, *board);
        }
        any_changed
    }
}

} // verus!
