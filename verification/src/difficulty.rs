//! The difficulty levels of a puzzle.
use crate::board::Board;
use crate::cell::{CellView, Coord};
use crate::generate::{lemma_same_multiset, shuffle};
use crate::progress::{lemma_clear_in_range, lemma_refines_refl};
use crate::region::in_grid;
use crate::solution::{lemma_admits_same_shape, lemma_clear_admits, lemma_keeps_refl, lemma_keeps_trans, lemma_own_solution, values_of};
use crate::strategy::{has_hidden_single, has_naked_single, has_reducible_line, lemma_sound_trans, HiddenSets, HiddenSingles, NakedSingles, RegionLineReduction, Strategy};
use vstd::prelude::*;

verus! {

/// The difficulty levels for a sudoku puzzle.
///
/// These levels are used to determine which solving strategies
/// must be applied to solve a puzzle.
#[derive(Debug, Clone, Copy, PartialEq, Eq, Structural, PartialOrd, Ord, Hash)]
pub enum Difficulty {
    /// Only naked and hidden singles are needed.
    Easy,
    /// Region/line reductions and hidden sets are needed too.
    Medium,
    /// Reserved for harder strategies.
    Hard,
    /// Reserved for the hardest strategies.
    Expert,
}

/// The position of a level in the order `Easy < Medium < Hard < Expert`.
pub open spec fn rank_of(d: Difficulty) -> nat {
    match d {
        Difficulty::Easy => 0,
        Difficulty::Medium => 1,
        Difficulty::Hard => 2,
        Difficulty::Expert => 3,
    }
}

/// The name of a level.
pub open spec fn name_of(d: Difficulty) -> Seq<char> {
    match d {
        Difficulty::Easy => seq!['E', 'a', 's', 'y'],
        Difficulty::Medium => seq!['M', 'e', 'd', 'i', 'u', 'm'],
        Difficulty::Hard => seq!['H', 'a', 'r', 'd'],
        Difficulty::Expert => seq!['E', 'x', 'p', 'e', 'r', 't'],
    }
}

/// `c` with an ASCII capital letter turned to lower case.
pub open spec fn lower_char(c: char) -> char {
    if 'A' <= c <= 'Z' {
        ((c as u32) + 32) as char
    } else {
        c
    }
}

/// `s` in lower case.
pub open spec fn lower(s: Seq<char>) -> Seq<char> {
    s.map_values(|c: char| lower_char(c))
}

/// The level that a name stands for, regardless of case; anything else
/// stands for [`Difficulty::Easy`].
pub open spec fn parse_name(s: Seq<char>) -> Difficulty {
    if lower(s) == seq!['m', 'e', 'd', 'i', 'u', 'm'] {
        Difficulty::Medium
    } else if lower(s) == seq!['h', 'a', 'r', 'd'] {
        Difficulty::Hard
    } else if lower(s) == seq!['e', 'x', 'p', 'e', 'r', 't'] {
        Difficulty::Expert
    } else {
        Difficulty::Easy
    }
}

impl Default for Difficulty {
    fn default() -> (r: Difficulty)
        ensures
            r == Difficulty::Easy,
    {
        Difficulty::Easy
    }
}

/// `a` equals the characters of `w`.
fn chars_equal(a: &Vec<char>, w: &Vec<char>) -> (r: bool)
    ensures
        r == (a@ == w@),
{
    if a.len() != w.len() {
        return false;
    }
    let mut i: usize = 0;
    while i < a.len()
        invariant
            a@.len() == w@.len(),
            0 <= i <= a.len(),
            forall|k: int| 0 <= k < i ==> a@[k] == w@[k],
        decreases a.len() - i,
    {
        if a[i] != w[i] {
            return false;
        }
        i += 1;
    }
    assert(a@ =~= w@);
    true
}

impl Difficulty {
    /// The position of the level, from `0` for [`Difficulty::Easy`] to `3`
    /// for [`Difficulty::Expert`].
    pub fn rank(&self) -> (r: u8)
        ensures
            r == rank_of(*self),
    {
        match self {
            Difficulty::Easy => 0,
            Difficulty::Medium => 1,
            Difficulty::Hard => 2,
            Difficulty::Expert => 3,
        }
    }

    /// The name of the level.
    pub fn as_str(&self) -> (r: &'static str)
        ensures
            r@ == name_of(*self),
    {
        match self {
            Difficulty::Easy => {
                proof {
                    reveal_strlit("Easy");
                }
                "Easy"
            },
            Difficulty::Medium => {
                proof {
                    reveal_strlit("Medium");
                }
                "Medium"
            },
            Difficulty::Hard => {
                proof {
                    reveal_strlit("Hard");
                }
                "Hard"
            },
            Difficulty::Expert => {
                proof {
                    reveal_strlit("Expert");
                }
                "Expert"
            },
        }
    }

    /// The level named by `s`, regardless of case; any other text gives
    /// [`Difficulty::Easy`].
    pub fn from_name(s: &str) -> (r: Difficulty)
        ensures
            r == parse_name(s@),
    {
        let ghost full = s@;
        let mut low: Vec<char> = Vec::new();
        for c in it: s.chars()
            invariant
                it.seq() == full,
                0 <= it.index() <= full.len(),
                low@ == lower(full.take(it.index())),
        {
            let ghost i = it.index();
            assert(c == full[i]);
            let d = if 'A' <= c && c <= 'Z' {
                char_from_code((c as u32) + 32)
            } else {
                c
            };
            low.push(d);
            assert(full.take(i + 1) == full.take(i).push(c));
            assert(low@ =~= lower(full.take(i + 1)));
        }
        assert(full.take(full.len() as int) == full);
        let medium = vec!['m', 'e', 'd', 'i', 'u', 'm'];
        let hard = vec!['h', 'a', 'r', 'd'];
        let expert = vec!['e', 'x', 'p', 'e', 'r', 't'];
        assert(medium@ == seq!['m', 'e', 'd', 'i', 'u', 'm']);
        assert(hard@ == seq!['h', 'a', 'r', 'd']);
        assert(expert@ == seq!['e', 'x', 'p', 'e', 'r', 't']);
        if chars_equal(&low, &medium) {
            Difficulty::Medium
        } else if chars_equal(&low, &hard) {
            Difficulty::Hard
        } else if chars_equal(&low, &expert) {
            Difficulty::Expert
        } else {
            Difficulty::Easy
        }
    }
}

/// The character of an ASCII lower-case letter's code.
fn char_from_code(code: u32) -> (c: char)
    requires
        97 <= code <= 122,
    ensures
        c == code as char,
{
    let b: u8 = code as u8;
    b as char
}

impl std::str::FromStr for Difficulty {
    type Err = ();

    /// The level named by `s`, as [`Difficulty::from_name`] reads it; never
    /// an error.
    fn from_str(s: &str) -> (r: Result<Difficulty, ()>)
        ensures
            r == Ok::<Difficulty, ()>(parse_name(s@)),
    {
        Ok(Difficulty::from_name(s))
    }
}

/// The number of clues a puzzle keeps at least: 21% of the cells, rounded down.
pub open spec fn clue_floor(n: nat) -> nat {
    n * n * 21 / 100
}

/// The index of an in-grid cell in row-major order is below `n * n`, and
/// distinct cells have distinct indexes.
pub proof fn lemma_cell_index(n: nat, c: Coord, d: Coord)
    requires
        n <= 16,
        in_grid(n, c),
        in_grid(n, d),
    ensures
        0 <= c.row * n + c.col < n * n,
        ((c.row * n + c.col) as usize) as int == c.row * n + c.col,
        (c.row * n + c.col == d.row * n + d.col) <==> c == d,
{
    assert(c.row * n + c.col < n * n) by (nonlinear_arith)
        requires
            c.row < n,
            c.col < n,
    ;
    assert(n * n <= 256) by (nonlinear_arith)
        requires
            n <= 16,
    ;
    if c != d {
        assert(c.row * n + c.col != d.row * n + d.col) by (nonlinear_arith)
            requires
                c != d,
                c.row < n,
                c.col < n,
                d.row < n,
                d.col < n,
        ;
    }
}

/// A copy of a list of indexes.
fn copy_indexes(v: &Vec<usize>) -> (r: Vec<usize>)
    ensures
        r@ == v@,
{
    let mut r: Vec<usize> = Vec::new();
    let mut i: usize = 0;
    while i < v.len()
        invariant
            0 <= i <= v.len(),
            r@ == v@.take(i as int),
        decreases v.len() - i,
    {
        r.push(v[i]);
        i += 1;
        assert(r@ == v@.take(i as int));
    }
    assert(v@.take(v@.len() as int) == v@);
    r
}

/// Remove `x` from a list that holds it once.
fn remove_index(v: &mut Vec<usize>, x: usize)
    requires
        old(v)@.no_duplicates(),
        old(v)@.contains(x),
    ensures
        final(v)@.no_duplicates(),
        final(v)@.len() == old(v)@.len() - 1,
        forall|y: usize| #[trigger] final(v)@.contains(y) <==> (old(v)@.contains(y) && y != x),
{
    let mut kept: Vec<usize> = Vec::new();
    let mut i: usize = 0;
    let ghost old_v = v@;
    let ghost pos = old_v.index_of(x);
    while i < v.len()
        invariant
            v@ == old_v,
            old_v.no_duplicates(),
            0 <= pos < old_v.len(),
            old_v[pos] == x,
            0 <= i <= v.len(),
            kept@.no_duplicates(),
            kept@.len() == if i <= pos { i as int } else { i - 1 },
            forall|y: usize| #[trigger] kept@.contains(y) <==> (old_v.take(i as int).contains(y) && y != x),
        decreases v.len() - i,
    {
        let y = v[i];
        let ghost kept_before = kept@;
        assert(old_v.take(i + 1) == old_v.take(i as int).push(y));
        if y != x {
            assert(!kept@.contains(y)) by {
                if old_v.take(i as int).contains(y) {
                    let j = choose|j: int| 0 <= j < i && #[trigger] old_v.take(i as int)[j] == y;
                    assert(old_v[j] == old_v[i as int]);
                }
            }
            kept.push(y);
            assert(i != pos);
        } else {
            assert(i == pos);
        }
        assert forall|z: usize| #[trigger] kept@.contains(z) <==> (old_v.take(i + 1).contains(z) && z != x) by {
            if old_v.take(i + 1).contains(z) && z != x {
                let j = choose|j: int| 0 <= j < i + 1 && #[trigger] old_v.take(i + 1)[j] == z;
                if j < i {
                    assert(old_v.take(i as int)[j] == z);
                    assert(old_v.take(i as int).contains(z));
                    assert(kept_before.contains(z));
                    let q = choose|q: int| 0 <= q < kept_before.len() && #[trigger] kept_before[q] == z;
                    assert(kept@[q] == z);
                } else {
                    assert(z == y);
                    assert(kept@[kept@.len() - 1] == z);
                }
            }
            if kept@.contains(z) {
                let j = choose|j: int| 0 <= j < kept@.len() && #[trigger] kept@[j] == z;
                if y != x && j == kept@.len() - 1 {
                    assert(old_v.take(i + 1)[i as int] == y);
                } else {
                    assert(kept_before.contains(z)) by {
                        assert(kept_before[j] == z);
                    }
                    let q = choose|q: int| 0 <= q < i && #[trigger] old_v.take(i as int)[q] == z;
                    assert(old_v.take(i + 1)[q] == z);
                }
            }
        }
        i += 1;
    }
    assert(old_v.take(old_v.len() as int) == old_v);
    *v = kept;
}

/// Level `d` allows a strategy that finds a naked or a hidden single on `b`.
pub open spec fn level_singles(d: Difficulty, b: Board) -> bool {
    ||| rank_of(NakedSingles::DIFFICULTY_LEVEL) <= rank_of(d) && has_naked_single(b)
    ||| rank_of(HiddenSingles::DIFFICULTY_LEVEL) <= rank_of(d) && has_hidden_single(b, b.n())
}

/// What one application of the strategies of level `d` guarantees, from
/// `a` to `b`, reporting `r`: a sound step that keeps the solutions; it
/// weighs strictly less when `r`, and otherwise only loses candidates; a
/// single that the level allows, or a filled cell, makes `r` hold.
pub open spec fn assess_step(d: Difficulty, a: Board, b: Board, r: bool) -> bool {
    &&& a.sound_step(b)
    &&& a.keeps_solutions(b)
    &&& b.notes_in_range()
    &&& r ==> b.measure() < a.measure()
    &&& !r ==> a.shrinks_to(b)
    &&& level_singles(d, a) ==> r
    &&& a.fills_some(b) ==> r
}

/// Applying the strategies of level `d` to `a`, again and again until they
/// report no progress, can end at `b`.
pub open spec fn settles(d: Difficulty, a: Board, b: Board) -> bool {
    exists|run: Seq<Board>|
        #![trigger run.len(), run[0]]
        run.len() >= 2 && run[0] == a && run[run.len() - 1] == b && (forall|k: int|
            0 <= k < run.len() - 2 ==> #[trigger] assess_step(d, run[k], run[k + 1], true)) && assess_step(
            d,
            run[run.len() - 2],
            run[run.len() - 1],
            false,
        )
}

/// The cell at row-major position `i` of a board of `n` x `n` cells.
pub open spec fn index_cell(i: usize, n: nat) -> Coord {
    Coord { row: (i as int / n as int) as usize, col: (i as int % n as int) as usize }
}

/// `t` is `p` with the cell `c` cleared, as [`Board::clear_cell`] leaves it.
pub open spec fn cleared(p: Board, c: Coord, t: Board) -> bool {
    &&& t.wf()
    &&& t.same_shape(&p)
    &&& t.notes_in_range()
    &&& forall|x: Coord| in_grid(p.n(), x) ==> #[trigger] t.at(x) == p.after_clear(c, x)
}

/// Clearing the cell `c` of `p` and applying the strategies of level `d`
/// until they settle leaves `c` empty.
pub open spec fn stays_cleared(d: Difficulty, p: Board, c: Coord) -> bool {
    exists|t0: Board, t: Board| #[trigger] cleared(p, c, t0) && #[trigger] settles(d, t0, t) && !(t.at(c) is Value)
}

/// Clearing the cell `c` of `p` and applying the strategies of level `d`
/// until they settle fills `c` again.
pub open spec fn refills(d: Difficulty, p: Board, c: Coord) -> bool {
    exists|t0: Board, t: Board| #[trigger] cleared(p, c, t0) && #[trigger] settles(d, t0, t) && t.at(c) is Value
}

/// The boards `ps` lead from the cells of `s` to those of `r`, each one the
/// one before with the cell `cs[k]` cleared, a cell of the grid that the
/// strategies of level `d` fill again on the board before it.
pub open spec fn clearing_run(d: Difficulty, s: Board, r: Board, ps: Seq<Board>, cs: Seq<Coord>) -> bool {
    &&& ps.len() == cs.len() + 1
    &&& forall|c: Coord| in_grid(s.n(), c) ==> #[trigger] ps[0].at(c) == s.at(c)
    &&& forall|c: Coord| in_grid(s.n(), c) ==> #[trigger] ps[ps.len() - 1].at(c) == r.at(c)
    &&& forall|k: int|
        #![trigger cs[k]]
        0 <= k < cs.len() ==> in_grid(s.n(), cs[k]) && cleared(ps[k], cs[k], ps[k + 1]) && refills(d, ps[k], cs[k])
}

impl Difficulty {
    /// Apply once, in turn, each strategy that this level allows; returns
    /// whether any of them reported progress.
    ///
    /// A naked or a hidden single on the board as it was (with a level that
    /// allows its strategy), or any cell filled, makes it return `true`.
    /// Otherwise only the hidden sets can, when the level allows them: that is
    /// when the board they met had a hidden set that removes a candidate.
    /// When it returns `false`, candidates may have been removed but no cell
    /// was filled. On a level below those of region/line reduction and hidden
    /// sets it returns `true` exactly when the board had a single it allows,
    /// and otherwise leaves the board unchanged.
    fn assess(&self, board: &mut Board) -> (r: bool)
        requires
            old(board).wf(),
            old(board).notes_in_range(),
        ensures
            assess_step(*self, *old(board), *final(board), r),
            r && !old(board).fills_some(*final(board)) ==> rank_of(HiddenSets::DIFFICULTY_LEVEL) <= rank_of(*self)
                && exists|mid: Board|
                old(board).shrinks_to(mid) && mid.shrinks_to(*final(board)) && #[trigger] has_reducible_line(
                    mid,
                    mid.n(),
                ),
            rank_of(*self) < rank_of(RegionLineReduction::DIFFICULTY_LEVEL) && rank_of(*self) < rank_of(
                HiddenSets::DIFFICULTY_LEVEL,
            ) ==> r == level_singles(*self, *old(board)) && (!r ==> *final(board) == *old(board)),
    {
        let ghost start = *board;
        let mut changed = false;
        proof {
            lemma_refines_refl(start);
            lemma_keeps_refl(start);
            crate::progress::lemma_shrinks_refl(start);
        }
        let ghost b0 = *board;
        if NakedSingles::DIFFICULTY_LEVEL.rank() <= self.rank() && NakedSingles::apply(board) {
            changed = true;
        }
        proof {
            lemma_sound_trans(start, b0, *board);
            lemma_keeps_trans(start, b0, *board);
        }
        let ghost b1 = *board;
        if HiddenSingles::DIFFICULTY_LEVEL.rank() <= self.rank() && HiddenSingles::apply(board) {
            changed = true;
        }
        proof {
            lemma_sound_trans(start, b1, *board);
            lemma_keeps_trans(start, b1, *board);
            crate::progress::lemma_fills_trans(start, b1, *board);
            assert(changed == level_singles(*self, start));
        }
        let ghost b2 = *board;
        if RegionLineReduction::DIFFICULTY_LEVEL.rank() <= self.rank() && RegionLineReduction::apply(board) {
            changed = true;
        }
        proof {
            lemma_sound_trans(start, b2, *board);
            lemma_keeps_trans(start, b2, *board);
            crate::progress::lemma_fills_trans(start, b2, *board);
            crate::progress::lemma_refines_measure(b2, *board);
            if !changed {
                crate::progress::lemma_no_fill_shrinks(b2, *board);
            }
        }
        let ghost b3 = *board;
        if HiddenSets::DIFFICULTY_LEVEL.rank() <= self.rank() && HiddenSets::apply(board) {
            changed = true;
            proof {
                if !start.fills_some(b3) {
                    crate::progress::lemma_no_fill_shrinks(start, b3);
                    assert(has_reducible_line(b3, b3.n()));
                }
            }
        }
        proof {
            lemma_sound_trans(start, b3, *board);
            lemma_keeps_trans(start, b3, *board);
            crate::progress::lemma_refines_measure(b3, *board);
            assert(b3.shrinks_to(*board));
            crate::progress::lemma_fills_trans(start, b3, *board);
            if !start.fills_some(b3) {
                crate::progress::lemma_no_fill_shrinks(start, b3);
                crate::progress::lemma_shrinks_trans(start, b3, *board);
            }
        }
        changed
    }

    /// Generate a puzzle from a solved board.
    ///
    /// The puzzle returned will be a clone of the given solution board,
    /// with cells cleared according to the difficulty level: in rounds, the
    /// cells are visited in a random order, and a cell is cleared when the
    /// strategies of this level fill it again on a copy of the puzzle, as long
    /// as more than 21% of the cells remain.
    ///
    /// Every filled cell of the puzzle holds the solution's value; the filled
    /// cells of the solution that stay filled are those of a list of distinct
    /// cell indexes with at least `21 * n * n / 100` entries. A solved,
    /// conflict-free board solves the puzzle made from it.
    ///
    /// The puzzle is reached from the solution by clearing one cell after
    /// another, each a cell that the strategies of this level fill again on
    /// the board it was cleared from; while more clues than that floor are
    /// left, no filled cell of the puzzle can be cleared that way any more.
    pub fn make_puzzle(&self, solution: &Board) -> (r: Board)
        requires
            solution.wf(),
            solution.notes_in_range(),
            solution.values_in_range(),
        ensures
            r.wf(),
            r.size == solution.size,
            r.same_shape(solution),
            solution.solved() && solution.no_conflict() ==> r.admits(values_of(*solution)),
            exists|kept: Seq<usize>|
                #![trigger kept.no_duplicates()]
                {
                    &&& kept.no_duplicates()
                    &&& kept.len() >= clue_floor(solution.n())
                    &&& forall|k: int| 0 <= k < kept.len() ==> #[trigger] kept[k] < solution.n() * solution.n()
                    &&& forall|c: Coord|
                        in_grid(solution.n(), c) ==> (#[trigger] r.at(c) is Value <==> (kept.contains(
                            (c.row * solution.n() + c.col) as usize,
                        ) && solution.at(c) is Value))
                    &&& forall|c: Coord| in_grid(solution.n(), c) && #[trigger] r.at(c) is Value ==> r.at(c) == solution.at(c)
                    &&& kept.len() > clue_floor(solution.n()) ==> forall|c: Coord|
                        in_grid(solution.n(), c) && #[trigger] r.at(c) is Value ==> stays_cleared(*self, r, c)
                },
            exists|ps: Seq<Board>, cs: Seq<Coord>| #[trigger] clearing_run(*self, *solution, r, ps, cs),
    {
        let (puzzle, _, _) = self.make_puzzle_report(solution);
        puzzle
    }

    /// Generate a puzzle from a solved board, as [`Difficulty::make_puzzle`]
    /// does, with the number of rounds it took and the number of clues kept.
    ///
    /// The puzzle returned will be a clone of the given solution board,
    /// with cells cleared according to the difficulty level: in rounds, the
    /// cells are visited in a random order, and a cell is cleared when the
    /// strategies of this level fill it again on a copy of the puzzle, as long
    /// as more than 21% of the cells remain.
    ///
    /// Every filled cell of the puzzle holds the solution's value; the filled
    /// cells of the solution that stay filled are those of a list of distinct
    /// cell indexes with at least `21 * n * n / 100` entries. A solved,
    /// conflict-free board solves the puzzle made from it.
    ///
    /// The puzzle is reached from the solution by clearing one cell after
    /// another, each a cell that the strategies of this level fill again on
    /// the board it was cleared from; while more clues than that floor are
    /// left, no filled cell of the puzzle can be cleared that way any more.
    ///
    /// Also returns the number of rounds and the number of clues kept; every
    /// round but the last clears at least one cell.
    pub fn make_puzzle_report(&self, solution: &Board) -> (r: (Board, usize, usize))
        requires
            solution.wf(),
            solution.notes_in_range(),
            solution.values_in_range(),
        ensures
            r.0.wf(),
            r.0.size == solution.size,
            r.0.same_shape(solution),
            solution.solved() && solution.no_conflict() ==> r.0.admits(values_of(*solution)),
            exists|kept: Seq<usize>|
                #![trigger kept.no_duplicates()]
                {
                    &&& kept.no_duplicates()
                    &&& kept.len() >= clue_floor(solution.n())
                    &&& forall|k: int| 0 <= k < kept.len() ==> #[trigger] kept[k] < solution.n() * solution.n()
                    &&& forall|c: Coord|
                        in_grid(solution.n(), c) ==> (#[trigger] r.0.at(c) is Value <==> (kept.contains(
                            (c.row * solution.n() + c.col) as usize,
                        ) && solution.at(c) is Value))
                    &&& forall|c: Coord| in_grid(solution.n(), c) && #[trigger] r.0.at(c) is Value ==> r.0.at(c) == solution.at(c)
                    &&& r.2 == kept.len()
                    &&& 1 <= r.1 && r.1 + kept.len() <= solution.n() * solution.n() + 1
                    &&& kept.len() > clue_floor(solution.n()) ==> forall|c: Coord|
                        in_grid(solution.n(), c) && #[trigger] r.0.at(c) is Value ==> stays_cleared(*self, r.0, c)
                },
            exists|ps: Seq<Board>, cs: Seq<Coord>| #[trigger] clearing_run(*self, *solution, r.0, ps, cs),
    {
        let mut puzzle = solution.duplicate();
        let max_cells = solution.size.max_cells() as usize;
        let ghost n = solution.n();
        proof {
            assert forall|c: Coord| in_grid(n, c) implies #[trigger] puzzle.at(c) == solution.at(c) by {
            }
            if solution.solved() && solution.no_conflict() {
                lemma_own_solution(*solution);
                lemma_admits_same_shape(*solution, puzzle, values_of(*solution));
            }
        }
        let ghost mut ps: Seq<Board> = seq![puzzle];
        let ghost mut cs: Seq<Coord> = Seq::empty();
        assert(max_cells <= 16);
        assert(max_cells * max_cells <= 256) by (nonlinear_arith)
            requires
                max_cells <= 16,
        ;
        let total = max_cells * max_cells;
        let min_clues = total * 21 / 100;
        assert(min_clues == clue_floor(n));
        let mut all_cells: Vec<usize> = Vec::new();
        let mut i: usize = 0;
        while i < total
            invariant
                total == n * n,
                0 <= i <= total,
                all_cells@ == Seq::new(i as nat, |k: int| k as usize),
            decreases total - i,
        {
            all_cells.push(i);
            i += 1;
            assert(all_cells@ =~= Seq::new(i as nat, |k: int| k as usize));
        }
        proof {
            assert forall|c: Coord| in_grid(n, c) implies all_cells@.contains(#[trigger] ((c.row * n + c.col) as usize)) by {
                assert(c.row * n + c.col < n * n) by (nonlinear_arith)
                    requires
                        c.row < n,
                        c.col < n,
                ;
                assert(all_cells@[(c.row * n + c.col) as int] == (c.row * n + c.col) as usize);
            }
        }
        let mut changed = true;
        let mut count: usize = 0;
        while changed
            invariant
                solution.wf(),
                solution.notes_in_range(),
                solution.values_in_range(),
                n == solution.n(),
                max_cells == n,
                total == n * n,
                min_clues == clue_floor(n),
                puzzle.wf(),
                puzzle.size == solution.size,
                puzzle.same_shape(solution),
                puzzle.notes_in_range(),
                puzzle.values_in_range(),
                all_cells@.no_duplicates(),
                all_cells@.len() >= min_clues,
                forall|k: int| 0 <= k < all_cells@.len() ==> #[trigger] all_cells@[k] < total,
                forall|c: Coord|
                    in_grid(n, c) ==> (#[trigger] puzzle.at(c) is Value <==> (all_cells@.contains(
                        (c.row * n + c.col) as usize,
                    ) && solution.at(c) is Value)),
                forall|c: Coord| in_grid(n, c) && #[trigger] puzzle.at(c) is Value ==> puzzle.at(c) == solution.at(c),
                solution.solved() && solution.no_conflict() ==> puzzle.admits(values_of(*solution)),
                changed ==> count + all_cells@.len() <= total,
                !changed ==> 1 <= count && count + all_cells@.len() <= total + 1,
                !changed ==> (all_cells@.len() > min_clues ==> forall|c: Coord|
                    in_grid(n, c) && #[trigger] puzzle.at(c) is Value ==> stays_cleared(*self, puzzle, c)),
                ps.len() == cs.len() + 1,
                ps[ps.len() - 1] == puzzle,
                clearing_run(*self, *solution, puzzle, ps, cs),
            decreases all_cells@.len() + if changed { 1int } else { 0int },
        {
            changed = false;
            count += 1;
            let ghost len_before = all_cells@.len();
            let ghost before_shuffle = all_cells@;
            shuffle(&mut all_cells);
            proof {
                lemma_same_multiset(all_cells@, before_shuffle);
                assert forall|k: int| 0 <= k < all_cells@.len() implies #[trigger] all_cells@[k] < total by {
                    assert(all_cells@.contains(all_cells@[k]));
                    assert(before_shuffle.contains(all_cells@[k]));
                }
                assert forall|c: Coord| in_grid(n, c) implies (#[trigger] puzzle.at(c) is Value <==> (all_cells@.contains(
                    (c.row * n + c.col) as usize,
                ) && solution.at(c) is Value)) by {
                    assert(all_cells@.contains((c.row * n + c.col) as usize) == before_shuffle.contains((c.row * n + c.col) as usize));
                }
            }
            let snapshot = copy_indexes(&all_cells);
            let ghost p_pass = puzzle;
            let mut t: usize = 0;
            while t < snapshot.len()
                invariant
                    solution.wf(),
                    solution.notes_in_range(),
                    solution.values_in_range(),
                    n == solution.n(),
                    max_cells == n,
                    total == n * n,
                    min_clues == clue_floor(n),
                    forall|k: int| 0 <= k < snapshot@.len() ==> #[trigger] snapshot@[k] < total,
                    0 <= t <= snapshot@.len(),
                    snapshot@.no_duplicates(),
                    forall|k: int| t <= k < snapshot@.len() ==> all_cells@.contains(#[trigger] snapshot@[k]),
                    puzzle.wf(),
                    puzzle.size == solution.size,
                    puzzle.same_shape(solution),
                    puzzle.notes_in_range(),
                    puzzle.values_in_range(),
                    all_cells@.no_duplicates(),
                    all_cells@.len() >= min_clues,
                    all_cells@.len() <= len_before,
                    changed ==> all_cells@.len() < len_before,
                    forall|k: int| 0 <= k < all_cells@.len() ==> #[trigger] all_cells@[k] < total,
                    forall|c: Coord|
                        in_grid(n, c) ==> (#[trigger] puzzle.at(c) is Value <==> (all_cells@.contains(
                            (c.row * n + c.col) as usize,
                        ) && solution.at(c) is Value)),
                    forall|c: Coord| in_grid(n, c) && #[trigger] puzzle.at(c) is Value ==> puzzle.at(c) == solution.at(c),
                    solution.solved() && solution.no_conflict() ==> puzzle.admits(values_of(*solution)),
                    !changed ==> puzzle == p_pass && all_cells@ == snapshot@,
                    !changed ==> forall|k: int|
                        0 <= k < t ==> all_cells@.len() <= min_clues || !(puzzle.at(#[trigger] index_cell(snapshot@[k], n))
                            is Value) || stays_cleared(*self, puzzle, index_cell(snapshot@[k], n)),
                    ps.len() == cs.len() + 1,
                    ps[ps.len() - 1] == puzzle,
                    clearing_run(*self, *solution, puzzle, ps, cs),
                decreases snapshot@.len() - t,
            {
                let cell_index = snapshot[t];
                let coord = Coord { row: cell_index / max_cells, col: cell_index % max_cells };
                proof {
                    assert(coord.row < n) by (nonlinear_arith)
                        requires
                            cell_index < n * n,
                            coord.row == cell_index as int / n as int,
                            n > 0,
                    ;
                }
                let mut temp_board = puzzle.duplicate();
                let ghost t1 = temp_board;
                proof {
                    assert forall|c: Coord| in_grid(n, c) implies #[trigger] t1.at(c) == puzzle.at(c) by {
                    }
                }
                temp_board.clear_cell(coord);
                let ghost t0 = temp_board;
                proof {
                    lemma_clear_in_range(t1, temp_board, coord);
                    assert forall|x: Coord| in_grid(n, x) implies #[trigger] t0.at(x) == puzzle.after_clear(coord, x) by {
                        assert(t1.after_clear(coord, x) == puzzle.after_clear(coord, x)) by {
                            assert forall|y: Coord| #[trigger] t1.related(coord, y) == puzzle.related(coord, y) by {
                            }
                            assert forall|w: u8| #[trigger] t1.seen_value(coord, w) == puzzle.seen_value(coord, w) by {
                                if t1.seen_value(coord, w) {
                                    let y = choose|y: Coord| #[trigger] t1.related(coord, y) && t1.at(y) == CellView::Value(w);
                                    assert(puzzle.related(coord, y) && puzzle.at(y) == CellView::Value(w));
                                }
                                if puzzle.seen_value(coord, w) {
                                    let y = choose|y: Coord| #[trigger] puzzle.related(coord, y) && puzzle.at(y) == CellView::Value(w);
                                    assert(t1.related(coord, y) && t1.at(y) == CellView::Value(w));
                                }
                            }
                            assert(Set::new(|w: u8| w < t1.n() && !t1.seen_value(coord, w)) =~= Set::new(
                                |w: u8| w < puzzle.n() && !puzzle.seen_value(coord, w),
                            ));
                        }
                    }
                    assert(cleared(puzzle, coord, t0));
                }
                let ghost mut run: Seq<Board> = seq![t0];
                loop
                    invariant_except_break
                        forall|k: int| 0 <= k < run.len() - 1 ==> #[trigger] assess_step(*self, run[k], run[k + 1], true),
                    invariant
                        temp_board.wf(),
                        temp_board.notes_in_range(),
                        run.len() >= 1,
                        run[0] == t0,
                        run[run.len() - 1] == temp_board,
                        temp_board.size == solution.size,
                    ensures
                        settles(*self, t0, temp_board),
                    decreases temp_board.measure(),
                {
                    let progress = self.assess(&mut temp_board);
                    proof {
                        let prev = run;
                        run = run.push(temp_board);
                        if !progress {
                            assert forall|k: int| 0 <= k < run.len() - 2 implies #[trigger] assess_step(
                                *self,
                                run[k],
                                run[k + 1],
                                true,
                            ) by {
                                assert(run[k] == prev[k] && run[k + 1] == prev[k + 1]);
                            }
                            assert(settles(*self, t0, temp_board));
                        } else {
                            assert forall|k: int| 0 <= k < run.len() - 1 implies #[trigger] assess_step(
                                *self,
                                run[k],
                                run[k + 1],
                                true,
                            ) by {
                                if k < prev.len() - 1 {
                                    assert(run[k] == prev[k] && run[k + 1] == prev[k + 1]);
                                }
                            }
                        }
                    }
                    if !progress {
                        break;
                    }
                }
                let refilled = match temp_board.get_cell(coord) {
                    Some(cell) => cell.is_value(),
                    None => false,
                };
                proof {
                    assert(coord == index_cell(snapshot@[t as int], n));
                    if !refilled {
                        assert(in_grid(n, coord));
                        assert(!(temp_board.at(coord) is Value));
                        assert(stays_cleared(*self, puzzle, coord));
                    }
                }
                if refilled && all_cells.len() > min_clues {
                    assert(all_cells@.contains(snapshot@[t as int]));
                    assert(temp_board.at(coord) is Value);
                    assert(refills(*self, puzzle, coord));
                    let ghost cells_before = all_cells@;
                    remove_index(&mut all_cells, cell_index);
                    changed = true;
                    let ghost p0 = puzzle;
                    puzzle.clear_cell(coord);
                    proof {
                        if solution.solved() && solution.no_conflict() {
                            lemma_clear_admits(p0, puzzle, coord, values_of(*solution));
                        }
                        lemma_clear_in_range(p0, puzzle, coord);
                        assert(cleared(p0, coord, puzzle));
                        let ghost ps0 = ps;
                        let ghost cs0 = cs;
                        ps = ps.push(puzzle);
                        cs = cs.push(coord);
                        assert forall|k: int| 0 <= k < cs.len() implies in_grid(n, #[trigger] cs[k]) && cleared(
                            ps[k],
                            cs[k],
                            ps[k + 1],
                        ) && refills(*self, ps[k], cs[k]) by {
                            if k < cs0.len() {
                                assert(cs[k] == cs0[k] && ps[k] == ps0[k] && ps[k + 1] == ps0[k + 1]);
                            }
                        }
                        assert(clearing_run(*self, *solution, puzzle, ps, cs));
                        assert(coord.row * n + coord.col == cell_index) by (nonlinear_arith)
                            requires
                                coord.row == cell_index as int / n as int,
                                coord.col == cell_index as int % n as int,
                                n > 0,
                        ;
                        assert forall|k: int| t + 1 <= k < snapshot@.len() implies all_cells@.contains(#[trigger] snapshot@[k]) by {
                            assert(snapshot@[k] != snapshot@[t as int]);
                        }
                        assert forall|k: int| 0 <= k < all_cells@.len() implies #[trigger] all_cells@[k] < total by {
                            assert(all_cells@.contains(all_cells@[k]));
                            assert(cells_before.contains(all_cells@[k]));
                        }
                        assert forall|c: Coord| in_grid(n, c) implies (#[trigger] puzzle.at(c) is Value <==> (all_cells@.contains(
                            (c.row * n + c.col) as usize,
                        ) && solution.at(c) is Value)) && (puzzle.at(c) is Value ==> puzzle.at(c) == solution.at(c)) by {
                            assert(p0.at(c) is Value <==> (cells_before.contains((c.row * n + c.col) as usize) && solution.at(c) is Value));
                            assert(puzzle.at(c) == p0.after_clear(coord, c));
                            lemma_cell_index(n, c, coord);
                            if c == coord {
                                assert(puzzle.at(c) is Notes);
                                assert(!all_cells@.contains(cell_index));
                            } else {
                                assert(c.row * n + c.col != coord.row * n + coord.col) by (nonlinear_arith)
                                    requires
                                        c != coord,
                                        c.row < n,
                                        c.col < n,
                                        coord.row < n,
                                        coord.col < n,
                                ;
                                assert(puzzle.at(c) is Value <==> p0.at(c) is Value);
                            }
                        }
                    }
                }
                t += 1;
            }
            proof {
                if !changed && all_cells@.len() > min_clues {
                    assert forall|c: Coord| in_grid(n, c) && #[trigger] puzzle.at(c) is Value implies stays_cleared(
                        *self,
                        puzzle,
                        c,
                    ) by {
                        lemma_cell_index(n, c, c);
                        let i = (c.row * n + c.col) as usize;
                        assert(all_cells@.contains(i));
                        let k = choose|k: int| 0 <= k < snapshot@.len() && snapshot@[k] == i;
                        vstd::arithmetic::div_mod::lemma_fundamental_div_mod_converse(
                            i as int,
                            n as int,
                            c.row as int,
                            c.col as int,
                        );
                        assert(index_cell(snapshot@[k], n) == c);
                    }
                }
            }
        }
        let clues = all_cells.len();
        (puzzle, count, clues)
    }
}

} // verus!
