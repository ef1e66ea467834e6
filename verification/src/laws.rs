//! Properties that hold across the operations of the library.
use crate::board::{full_notes, Board};
use crate::cell::{CellView, Coord};
use crate::region::{grid_part, in_grid, row_part, BoardKind};
use crate::size::BoardSize;
use crate::text::{board_chars, cell_char, digit_of, digit_shift, hex_char, parsed_cell, parsed_notes, placed_at, row_chars};
use crate::validate::ValidationResults;
use crate::difficulty::{lower, name_of, parse_name, Difficulty};
use vstd::prelude::*;

verus! {

broadcast use vstd::std_specs::hash::group_hash_axioms;

/// What [`ValidationResults::is_ok()`] returns.
pub open spec fn results_ok(r: ValidationResults) -> bool {
    r.duplicates@.dom().len() == 0 && r.incomplete@.len() == 0 && r.invalid_values@.len() == 0
}

/// A validation reports no problem exactly when the board has no conflicting
/// or out-of-range value and, when a solved board is expected, every cell is
/// filled.
pub proof fn law_validate_ok(b: Board, r: ValidationResults, solved: bool)
    requires
        b.wf(),
        b.reports(r, solved),
    ensures
        results_ok(r) <==> (b.no_conflict() && (solved ==> b.solved())),
{
    let n = b.n();
    if results_ok(r) {
        assert forall|c: Coord| in_grid(n, c) && #[trigger] b.at(c) is Value implies b.at(c)->Value_0 < n by {
            if b.bad_value(c) {
                assert(r.invalid_values@.contains(c));
            }
        }
        assert forall|a: Coord, d: Coord|
            #![trigger b.at(a), b.at(d)]
            b.related(a, d) && b.at(a) is Value && b.at(d) is Value implies b.at(a) != b.at(d) by {
            if b.at(a) == b.at(d) {
                let v = b.at(a)->Value_0;
                assert(b.all_pairs().contains((a, d)));
                assert(b.dup_by(b.all_pairs(), v, a));
                assert(r.duplicates@.contains_key(v));
                assert(r.duplicates@.dom().contains(v));
            }
        }
        if solved {
            assert forall|x: Coord| in_grid(n, x) implies #[trigger] b.at(x) is Value by {
                if b.at(x) is Notes {
                    assert(r.incomplete@.contains(x));
                }
            }
        }
    }
    if b.no_conflict() && (solved ==> b.solved()) {
        assert(r.duplicates@.dom() =~= Set::<u8>::empty()) by {
            assert forall|v: u8| !r.duplicates@.dom().contains(v) by {
                if r.duplicates@.contains_key(v) {
                    let x = choose|x: Coord| #[trigger] b.dup_by(b.all_pairs(), v, x);
                    let (c, t) = choose|c: Coord, t: Coord|
                        #![trigger b.all_pairs().contains((c, t)), b.at(c), b.at(t)]
                        b.all_pairs().contains((c, t)) && b.at(c) == CellView::Value(v) && b.at(t) == CellView::Value(v)
                            && (x == c || x == t);
                    assert(b.related(c, t));
                }
            }
        }
        if r.incomplete@.len() > 0 {
            let t = r.incomplete@[0];
            assert(r.incomplete@.contains(t));
        }
        if r.invalid_values@.len() > 0 {
            let c = r.invalid_values@[0];
            assert(r.invalid_values@.contains(c));
        }
    }
}

impl Board {
    /// The board has no filled cell and every cell holds every candidate.
    pub open spec fn fresh(&self) -> bool {
        forall|c: Coord| in_grid(self.n(), c) ==> #[trigger] self.at(c) == CellView::Notes(full_notes(self.n()))
    }
}

/// A fresh board is blank, consistent, free of conflicts, and has its
/// candidates in range.
pub proof fn law_fresh_board(b: Board)
    requires
        b.fresh(),
    ensures
        b.blank(),
        b.consistent(),
        b.no_conflict(),
        b.notes_in_range(),
        b.values_in_range(),
{
}

/// Filling a cell keeps the notes consistent: no empty cell keeps a
/// candidate that a related cell holds.
pub proof fn law_set_cell_consistent(b: Board, b2: Board, coord: Coord, value: u8)
    requires
        b.wf(),
        b2.size == b.size,
        b2.kind == b.kind,
        b.consistent(),
        forall|c: Coord| in_grid(b.n(), c) ==> #[trigger] b2.at(c) == b.after_set(coord, value, c),
    ensures
        b2.consistent(),
        b.notes_in_range() ==> b2.notes_in_range(),
{
    let n = b.n();
    if in_grid(n, coord) && value < n {
        assert forall|c: Coord| in_grid(n, c) implies #[trigger] b2.at(c) == b.placed(coord, value, c) by {
            crate::progress::lemma_after_set(b, coord, value, c);
        }
        crate::progress::lemma_place(b, b2, coord, value);
    } else {
        assert forall|c: Coord| in_grid(n, c) implies #[trigger] b2.at(c) == b.at(c) || (b.at(c) is Notes
            && b2.at(c) is Notes && b2.at(c)->Notes_0.subset_of(b.at(c)->Notes_0)) by {
            crate::progress::lemma_after_set(b, coord, value, c);
        }
        crate::progress::lemma_shrink(b, b2);
    }
}

/// Clearing a filled cell of a conflict-free board leaves its value among
/// its candidates, and gives it back to the related empty cells.
pub proof fn law_clear_cell_keeps_value(b: Board, b2: Board, coord: Coord)
    requires
        b.wf(),
        b.no_conflict(),
        in_grid(b.n(), coord),
        b.at(coord) is Value,
        forall|c: Coord| in_grid(b.n(), c) ==> #[trigger] b2.at(c) == b.after_clear(coord, c),
    ensures
        b2.at(coord) is Notes,
        b2.at(coord)->Notes_0.contains(b.at(coord)->Value_0),
        forall|c: Coord| #[trigger] b.related(coord, c) && b.at(c) is Notes ==> b2.at(c)->Notes_0.contains(b.at(coord)->Value_0),
{
    let v = b.at(coord)->Value_0;
    assert(!b.seen_value(coord, v)) by {
        if b.seen_value(coord, v) {
            let c = choose|c: Coord| #[trigger] b.related(coord, c) && b.at(c) == CellView::Value(v);
        }
    }
}

/// A board imported from a string keeps consistent notes and its candidates
/// and values in range.
pub proof fn law_import_consistent(b: Board, s: Seq<char>, len: int)
    requires
        b.wf(),
        forall|p: Coord| in_grid(b.n(), p) ==> #[trigger] b.at(p) == parsed_cell(b, s, p, len),
    ensures
        b.consistent(),
        b.notes_in_range(),
        b.values_in_range(),
{
    let n = b.n();
    assert forall|a: Coord, d: Coord|
        #![trigger b.at(a), b.at(d)]
        b.related(a, d) && b.at(a) is Notes && b.at(d) is Value implies !b.at(a)->Notes_0.contains(b.at(d)->Value_0) by {
        assert(placed_at(s, n, d, len) == Some(b.at(d)->Value_0));
        assert(b.at(a)->Notes_0 == parsed_notes(b, s, a, len));
    }
    assert forall|c: Coord, v: u8|
        #![trigger b.at(c)->Notes_0.contains(v)]
        in_grid(n, c) && b.at(c) is Notes && b.at(c)->Notes_0.contains(v) implies v < n by {
        assert(b.at(c)->Notes_0 == parsed_notes(b, s, c, len));
    }
    assert forall|c: Coord| in_grid(n, c) && #[trigger] b.at(c) is Value implies b.at(c)->Value_0 < n by {
        assert(placed_at(s, n, c, len) is Some);
    }
}

/// The character that an exported board shows for the character `c` of an
/// imported string: the digit of its value in upper case, or `.`.
pub open spec fn normalized(c: char, n: nat) -> char {
    match digit_of(c, n) {
        Some(d) => hex_char((d + digit_shift(n)) as nat),
        None => '.',
    }
}

/// The characters of a row, one per cell.
proof fn lemma_row_chars(b: Board, r: nat, j: nat)
    ensures
        row_chars(b, r, j).len() == j,
        forall|c: int| 0 <= c < j ==> #[trigger] row_chars(b, r, j)[c] == cell_char(
            b.at(Coord { row: r as usize, col: c as usize }),
            b.n(),
        ),
    decreases j,
{
    if j > 0 {
        lemma_row_chars(b, r, (j - 1) as nat);
    }
}

/// The characters of the first `k` rows, one per cell in row-major order.
proof fn lemma_board_chars(b: Board, k: nat)
    requires
        b.n() <= 16,
    ensures
        board_chars(b, k).len() == k * b.n(),
        forall|r: int, c: int|
            0 <= r < k && 0 <= c < b.n() ==> #[trigger] board_chars(b, k)[r * b.n() + c] == cell_char(
                b.at(Coord { row: r as usize, col: c as usize }),
                b.n(),
            ),
    decreases k,
{
    let n = b.n();
    if k > 0 {
        lemma_board_chars(b, (k - 1) as nat);
        lemma_row_chars(b, (k - 1) as nat, n);
        assert((k - 1) * n + n == k * n) by (nonlinear_arith);
        assert forall|r: int, c: int|
            0 <= r < k && 0 <= c < n implies #[trigger] board_chars(b, k)[r * n + c] == cell_char(
                b.at(Coord { row: r as usize, col: c as usize }),
                n,
            ) by {
            let prev = board_chars(b, (k - 1) as nat);
            if r < k - 1 {
                assert(r * n + c < (k - 1) * n) by (nonlinear_arith)
                    requires
                        r < k - 1,
                        c < n,
                        0 <= r,
                ;
                assert(board_chars(b, k)[r * n + c] == prev[r * n + c]);
            } else {
                assert(r * n == (k - 1) * n);
                assert(board_chars(b, k)[r * n + c] == row_chars(b, (k - 1) as nat, n)[c]);
            }
        }
    }
}

/// Exporting an imported board gives back the imported characters: the
/// digits of the board's size in upper case, and `.` for any other
/// character.
pub proof fn law_export_import(b: Board, src: Seq<char>)
    requires
        b.wf(),
        src.len() == b.n() * b.n(),
        forall|p: Coord| in_grid(b.n(), p) ==> #[trigger] b.at(p) == parsed_cell(b, src, p, src.len() as int),
    ensures
        board_chars(b, b.n()) == src.map_values(|c: char| normalized(c, b.n())),
{
    let n = b.n();
    assert(n <= 16);
    lemma_board_chars(b, n);
    let out = board_chars(b, n);
    let expected = src.map_values(|c: char| normalized(c, n));
    assert forall|i: int| 0 <= i < out.len() implies out[i] == expected[i] by {
        let r = i / n as int;
        let c = i % n as int;
        assert(i == r * n + c && 0 <= r < n && 0 <= c < n) by (nonlinear_arith)
            requires
                0 <= i < n * n,
                r == i / n as int,
                c == i % n as int,
                n > 0,
        ;
        let p = Coord { row: r as usize, col: c as usize };
        assert(out[r * n + c] == cell_char(b.at(p), n));
        assert(placed_at(src, n, p, src.len() as int) == digit_of(src[i], n));
    }
    assert(out =~= expected);
}

/// The name of a level names that level again.
pub proof fn law_name_round_trip(d: Difficulty)
    ensures
        parse_name(name_of(d)) == d,
{
    match d {
        Difficulty::Easy => {
            assert(lower(name_of(d)) =~= seq!['e', 'a', 's', 'y']);
        },
        Difficulty::Medium => {
            assert(lower(name_of(d)) =~= seq!['m', 'e', 'd', 'i', 'u', 'm']);
        },
        Difficulty::Hard => {
            assert(lower(name_of(d)) =~= seq!['h', 'a', 'r', 'd']);
        },
        Difficulty::Expert => {
            assert(lower(name_of(d)) =~= seq!['e', 'x', 'p', 'e', 'r', 't']);
        },
    }
}

/// `b2` is `b` with the cell `c` cleared, as [`Board::clear_cell()`] leaves it.
pub open spec fn clear_of(b: Board, c: Coord, b2: Board) -> bool {
    &&& b2.size == b.size
    &&& b2.kind == b.kind
    &&& forall|x: Coord| in_grid(b.n(), x) ==> #[trigger] b2.at(x) == b.after_clear(c, x)
}

/// Clearing, one after the other, cells of a solved board free of conflicts
/// leaves every cleared cell empty with its former value among its
/// candidates, and every other cell as it was.
pub proof fn law_clear_keeps_values(b: Board, steps: Seq<Board>, cs: Seq<Coord>)
    requires
        b.solved(),
        b.no_conflict(),
        steps.len() == cs.len() + 1,
        steps[0] == b,
        forall|k: int| 0 <= k < cs.len() ==> #[trigger] clear_of(steps[k], cs[k], steps[k + 1]),
    ensures
        forall|c: Coord|
            in_grid(b.n(), c) ==> if cs.contains(c) {
                &&& #[trigger] steps[cs.len() as int].at(c) is Notes
                &&& steps[cs.len() as int].at(c)->Notes_0.contains(b.at(c)->Value_0)
            } else {
                steps[cs.len() as int].at(c) == b.at(c)
            },
{
    lemma_clear_steps(b, steps, cs);
    let last = steps[cs.len() as int];
    assert forall|c: Coord| in_grid(b.n(), c) && cs.contains(c) implies #[trigger] last.at(c)->Notes_0.contains(
        b.at(c)->Value_0,
    ) by {
        assert(crate::solution::allows(last.at(c), crate::solution::val(crate::solution::values_of(b), c)));
    }
}

/// Along the clearings, the board keeps the solution that `b` spells out,
/// the cleared cells are empty and the others unchanged.
proof fn lemma_clear_steps(b: Board, steps: Seq<Board>, cs: Seq<Coord>)
    requires
        b.solved(),
        b.no_conflict(),
        steps.len() == cs.len() + 1,
        steps[0] == b,
        forall|k: int| 0 <= k < cs.len() ==> #[trigger] clear_of(steps[k], cs[k], steps[k + 1]),
    ensures
        steps[cs.len() as int].admits(crate::solution::values_of(b)),
        steps[cs.len() as int].size == b.size,
        steps[cs.len() as int].kind == b.kind,
        forall|c: Coord|
            in_grid(b.n(), c) ==> if cs.contains(c) {
                #[trigger] steps[cs.len() as int].at(c) is Notes
            } else {
                steps[cs.len() as int].at(c) == b.at(c)
            },
    decreases cs.len(),
{
    let sol = crate::solution::values_of(b);
    if cs.len() == 0 {
        crate::solution::lemma_own_solution(b);
    } else {
        let k = cs.len() - 1;
        lemma_clear_steps(b, steps.drop_last(), cs.drop_last());
        let prev = steps[k];
        let next = steps[k + 1];
        assert(steps.drop_last()[k] == prev);
        assert(clear_of(prev, cs[k], next));
        crate::solution::lemma_clear_admits(prev, next, cs[k], sol);
        assert forall|c: Coord| in_grid(b.n(), c) implies if cs.contains(c) {
            #[trigger] next.at(c) is Notes
        } else {
            next.at(c) == b.at(c)
        } by {
            assert(next.at(c) == prev.after_clear(cs[k], c));
            if cs.drop_last().contains(c) {
                let i = choose|i: int| 0 <= i < cs.drop_last().len() && cs.drop_last()[i] == c;
                assert(cs[i] == c);
            } else if c != cs[k] {
                if cs.contains(c) {
                    let i = choose|i: int| 0 <= i < cs.len() && cs[i] == c;
                    assert(cs.drop_last()[i] == c);
                }
            } else {
                assert(cs[k] == c);
            }
            if cs.contains(c) && !cs.drop_last().contains(c) {
                let i = choose|i: int| 0 <= i < cs.len() && cs[i] == c;
                if i < k {
                    assert(cs.drop_last()[i] == c);
                }
            }
        }
    }
}

/// Clearing a filled cell of a consistent board and setting its value
/// again gives the board back.
pub proof fn law_clear_then_set(b: Board, b2: Board, b3: Board, c: Coord, v: u8)
    requires
        b.consistent(),
        in_grid(b.n(), c),
        b.at(c) == CellView::Value(v),
        v < b.n(),
        clear_of(b, c, b2),
        b3.size == b2.size,
        b3.kind == b2.kind,
        forall|x: Coord| in_grid(b2.n(), x) ==> #[trigger] b3.at(x) == b2.after_set(c, v, x),
    ensures
        forall|x: Coord| in_grid(b.n(), x) ==> #[trigger] b3.at(x) == b.at(x),
{
    assert forall|x: Coord| in_grid(b.n(), x) implies #[trigger] b3.at(x) == b.at(x) by {
        crate::progress::lemma_after_set(b2, c, v, x);
        assert(b2.at(x) == b.after_clear(c, x));
        if x != c && b.related(c, x) {
            assert(b2.related(c, x));
            if b.at(x) is Notes {
                assert(b.related(x, c));
                assert(!b.at(x)->Notes_0.contains(v));
                assert(b.at(x)->Notes_0.insert(v).remove(v) =~= b.at(x)->Notes_0);
            }
        } else if x != c {
            assert(!b2.related(c, x));
        }
    }
}

/// The digit that an exported cell shows reads back as its value.
proof fn lemma_digit_round_trip(v: u8, n: nat)
    requires
        v < n,
        v + digit_shift(n) < 16,
    ensures
        digit_of(hex_char((v + digit_shift(n)) as nat), n) == Some(v),
{
    let d = (v + digit_shift(n)) as nat;
    if d < 10 {
        assert((('0' as u32) + d) as char as u32 == ('0' as u32) + d);
    } else {
        assert((('A' as u32) + d - 10) as char as u32 == ('A' as u32) + d - 10);
    }
}

/// The candidates that parsing gives the empty cell `p` of a board with
/// the values of `b`: every candidate that no related filled cell holds.
pub open spec fn fresh_notes_of(b: Board, p: Coord) -> Set<u8> {
    full_notes(b.n()).filter(|d: u8| !(exists|q: Coord| #[trigger] b.related(p, q) && b.at(q) == CellView::Value(d)))
}

/// Importing the export of a board whose empty cells note exactly the
/// candidates that its filled cells leave gives the board back.
pub proof fn law_import_export(b: Board, b2: Board)
    requires
        b.wf(),
        b.exportable(),
        b.values_in_range(),
        forall|p: Coord| in_grid(b.n(), p) && #[trigger] b.at(p) is Notes ==> b.at(p)->Notes_0 == fresh_notes_of(b, p),
        b2.size == b.size,
        b2.kind == b.kind,
        forall|p: Coord| in_grid(b2.n(), p) ==> #[trigger] b2.at(p) == parsed_cell(
            b2,
            board_chars(b, b.n()),
            p,
            (b.n() * b.n()) as int,
        ),
    ensures
        forall|p: Coord| in_grid(b.n(), p) ==> #[trigger] b2.at(p) == b.at(p),
{
    let n = b.n();
    let src = board_chars(b, n);
    assert(n <= 16);
    lemma_board_chars(b, n);
    assert forall|q: Coord| in_grid(n, q) implies #[trigger] placed_at(src, n, q, (n * n) as int) == match b.at(q) {
        CellView::Value(v) => Some(v),
        CellView::Notes(_) => None,
    } by {
        assert(q.row * n + q.col < n * n) by (nonlinear_arith)
            requires
                q.row < n,
                q.col < n,
        ;
        assert(src[q.row * n + q.col] == cell_char(b.at(Coord { row: q.row as usize, col: q.col as usize }), n));
        assert(Coord { row: q.row as usize, col: q.col as usize } == q);
        if let CellView::Value(v) = b.at(q) {
            lemma_digit_round_trip(v, n);
        }
    }
    assert forall|p: Coord| in_grid(n, p) implies #[trigger] b2.at(p) == b.at(p) by {
        assert(placed_at(src, n, p, (n * n) as int) == match b.at(p) {
            CellView::Value(v) => Some(v),
            CellView::Notes(_) => None,
        });
        if b.at(p) is Notes {
            assert(parsed_notes(b2, src, p, (n * n) as int) =~= fresh_notes_of(b, p)) by {
                assert forall|d: u8| #[trigger] parsed_notes(b2, src, p, (n * n) as int).contains(d)
                    == fresh_notes_of(b, p).contains(d) by {
                    if exists|q: Coord| #[trigger] b2.related(p, q) && placed_at(src, n, q, (n * n) as int) == Some(d) {
                        let q = choose|q: Coord| #[trigger] b2.related(p, q) && placed_at(src, n, q, (n * n) as int) == Some(d);
                        assert(b.related(p, q) && b.at(q) == CellView::Value(d));
                    }
                    if exists|q: Coord| #[trigger] b.related(p, q) && b.at(q) == CellView::Value(d) {
                        let q = choose|q: Coord| #[trigger] b.related(p, q) && b.at(q) == CellView::Value(d);
                        assert(b2.related(p, q) && placed_at(src, n, q, (n * n) as int) == Some(d));
                    }
                }
            }
        }
    }
}

/// The rows of a valid map pass the checks of [`crate::IrregularMap::new`],
/// which then gives the same map back.
pub proof fn law_new_accepts_valid(m: Seq<Seq<u8>>)
    requires
        crate::region::valid_map(m),
    ensures
        crate::map_gen::map_error(m, BoardSize::of_len((m.len() as u8) as int).cells()) is None,
{
    assert(BoardSize::of_len((m.len() as u8) as int).cells() == m.len());
    crate::map_gen::lemma_valid_no_error(m, m.len());
}

/// Every cell but `x`.
pub open spec fn other_than(x: Coord) -> spec_fn(Coord) -> bool {
    |d: Coord| d != x
}

/// Leaving `x` out of a row part leaves it out of the cells listed.
proof fn lemma_row_without(
    f: spec_fn(Coord) -> bool,
    g: spec_fn(Coord) -> bool,
    x: Coord,
    row: nat,
    j: nat,
)
    requires
        row < 256,
        j <= 256,
        forall|c: Coord| #[trigger] g(c) == (f(c) && c != x),
    ensures
        row_part(g, row, j) == row_part(f, row, j).filter(other_than(x)),
        row_part(g, row, j).len() + (if x.row == row && x.col < j && f(x) { 1int } else { 0int }) == row_part(
            f,
            row,
            j,
        ).len(),
    decreases j,
{
    if j > 0 {
        lemma_row_without(f, g, x, row, (j - 1) as nat);
        let c = Coord { row: row as usize, col: (j - 1) as usize };
        row_part(f, row, (j - 1) as nat).lemma_filter_push(c, other_than(x));
        assert(c.row == row && c.col == j - 1);
        if c == x {
            assert(x.row == row && x.col == j - 1);
        }
    }
}

/// Leaving `x` out of a grid part leaves it out of the cells listed.
proof fn lemma_grid_without(
    f: spec_fn(Coord) -> bool,
    g: spec_fn(Coord) -> bool,
    x: Coord,
    n: nat,
    a: nat,
)
    requires
        n <= 256,
        a <= 256,
        forall|c: Coord| #[trigger] g(c) == (f(c) && c != x),
    ensures
        grid_part(g, n, a) == grid_part(f, n, a).filter(other_than(x)),
        grid_part(g, n, a).len() + (if x.row < a && x.col < n && f(x) { 1int } else { 0int }) == grid_part(
            f,
            n,
            a,
        ).len(),
    decreases a,
{
    if a > 0 {
        lemma_grid_without(f, g, x, n, (a - 1) as nat);
        lemma_row_without(f, g, x, (a - 1) as nat, n);
        Seq::filter_distributes_over_add(grid_part(f, n, (a - 1) as nat), row_part(f, (a - 1) as nat, n), other_than(x));
    }
}

/// The siblings of a cell are the members of its region without the cell,
/// in the same order.
pub proof fn law_siblings_are_members(kind: BoardKind, size: BoardSize, coord: Coord)
    requires
        kind.fits(size),
        kind matches BoardKind::Irregular { map } ==> crate::region::valid_map(map@),
        in_grid(size.cells(), coord),
    ensures
        kind.sibling_seq(size, coord) == kind.member_seq(size, kind.region_at(size, coord)).filter(other_than(coord)),
{
    let n = size.cells();
    let r = kind.region_at(size, coord);
    kind.lemma_balanced(size);
    kind.lemma_region_bound(size, coord);
    let f = kind.in_region(size, r);
    let g = kind.sibling_of(size, coord);
    lemma_grid_without(f, g, coord, n, n);
    assert(grid_part(f, n, n).len() == n);
}

/// A board read from a string is exported with one character per cell, and
/// reading that export gives the board back.
pub proof fn law_parse_export(b: Board, src: Seq<char>, b2: Board)
    requires
        b.wf(),
        src.len() == b.n() * b.n(),
        forall|p: Coord| in_grid(b.n(), p) ==> #[trigger] b.at(p) == parsed_cell(b, src, p, src.len() as int),
        b2.size == b.size,
        b2.kind == b.kind,
        forall|p: Coord| in_grid(b2.n(), p) ==> #[trigger] b2.at(p) == parsed_cell(
            b2,
            board_chars(b, b.n()),
            p,
            (b.n() * b.n()) as int,
        ),
    ensures
        b.exportable(),
        board_chars(b, b.n()).len() == b.n() * b.n(),
        forall|p: Coord| in_grid(b.n(), p) ==> #[trigger] b2.at(p) == b.at(p),
{
    let n = b.n();
    let len = src.len() as int;
    law_import_consistent(b, src, len);
    assert(n <= 16);
    lemma_board_chars(b, n);
    assert forall|p: Coord| in_grid(n, p) && #[trigger] b.at(p) is Notes implies b.at(p)->Notes_0 == fresh_notes_of(b, p) by {
        assert(b.at(p)->Notes_0 == parsed_notes(b, src, p, len));
        assert(parsed_notes(b, src, p, len) =~= fresh_notes_of(b, p)) by {
            assert forall|d: u8| #[trigger] parsed_notes(b, src, p, len).contains(d) == fresh_notes_of(b, p).contains(d) by {
                if exists|q: Coord| #[trigger] b.related(p, q) && placed_at(src, n, q, len) == Some(d) {
                    let q = choose|q: Coord| #[trigger] b.related(p, q) && placed_at(src, n, q, len) == Some(d);
                    assert(b.at(q) == parsed_cell(b, src, q, len));
                    assert(b.related(p, q) && b.at(q) == CellView::Value(d));
                }
                if exists|q: Coord| #[trigger] b.related(p, q) && b.at(q) == CellView::Value(d) {
                    let q = choose|q: Coord| #[trigger] b.related(p, q) && b.at(q) == CellView::Value(d);
                    assert(b.at(q) == parsed_cell(b, src, q, len));
                    assert(b.related(p, q) && placed_at(src, n, q, len) == Some(d));
                }
            }
        }
    }
    assert(b.exportable());
    law_import_export(b, b2);
}

} // verus!
