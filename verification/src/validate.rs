//! Validation of a board: duplicated values, unfilled cells and values out of range.
use std::collections::HashMap;
use crate::board::{vec_has_coord, Board};
use crate::cell::{Cell, CellView, Coord, ValidatedCell};
use crate::region::{in_grid, BoardKind};
use vstd::prelude::*;

verus! {

broadcast use vstd::std_specs::hash::group_hash_axioms;

/// Errors that can occur during board validation.
#[derive(Debug, Clone, PartialEq, Eq)]
pub struct ValidationResults {
    /// A mapping of duplicated values to the corresponding coordinates.
    ///
    /// This map accounts for duplicate values in a row, column, or region.
    pub duplicates: HashMap<u8, Vec<Coord>>,
    /// Cell(s) that are not filled when using
    /// [`board.validate(true)`](fn@Board::validate).
    ///
    /// This is not populated if using
    /// [`board.validate(false)`](fn@Board::validate).
    pub incomplete: Vec<Coord>,
    /// Cell(s) that contains a value that is not less than
    /// the number of regions, column, or rows.
    pub invalid_values: Vec<Coord>,
}

impl Default for ValidationResults {
    /// No problem recorded.
    fn default() -> (r: ValidationResults)
        ensures
            r.duplicates@ == Map::<u8, Vec<Coord>>::empty(),
            r.incomplete@ == Seq::<Coord>::empty(),
            r.invalid_values@ == Seq::<Coord>::empty(),
    {
        ValidationResults {
            duplicates: HashMap::new(),
            incomplete: Vec::new(),
            invalid_values: Vec::new(),
        }
    }
}

/// The pairs of `v` with the cells of its row and column, index by index
/// up to `k` (the row's cell first), leaving `v` itself out.
pub open spec fn line_checks(v: Coord, k: nat) -> Seq<(Coord, Coord)>
    decreases k,
{
    if k == 0 {
        Seq::empty()
    } else {
        let i = (k - 1) as usize;
        let p = line_checks(v, (k - 1) as nat);
        let p2 = if i != v.col {
            p.push((v, Coord { row: v.row, col: i }))
        } else {
            p
        };
        if i != v.row {
            p2.push((v, Coord { row: i, col: v.col }))
        } else {
            p2
        }
    }
}

/// `s` without its repeated elements, each kept where it first occurs.
pub open spec fn dedup(s: Seq<Coord>) -> Seq<Coord>
    decreases s.len(),
{
    if s.len() == 0 {
        Seq::empty()
    } else {
        let d = dedup(s.drop_last());
        if d.contains(s.last()) {
            d
        } else {
            d.push(s.last())
        }
    }
}

/// `s` followed by the elements of `xs` that it does not hold yet, in turn.
pub open spec fn add_new(s: Seq<Coord>, xs: Seq<Coord>) -> Seq<Coord>
    decreases xs.len(),
{
    if xs.len() == 0 {
        s
    } else {
        let t = add_new(s, xs.drop_last());
        if t.contains(xs.last()) {
            t
        } else {
            t.push(xs.last())
        }
    }
}

impl Board {
    /// Without `solved`, no pair finds a cell unfilled.
    pub proof fn lemma_unfilled_unasked(&self, log: Seq<(Coord, Coord)>)
        ensures
            self.unfilled_in(false, log) == Seq::<Coord>::empty(),
        decreases log.len(),
    {
        if log.len() > 0 {
            self.lemma_unfilled_unasked(log.drop_last());
        }
    }
}

impl ValidationResults {
    /// Record that `coords` hold the duplicated `value`, each coordinate once.
    pub fn push_duplicate(&mut self, value: u8, coords: Vec<Coord>)
        ensures
            final(self).incomplete == old(self).incomplete,
            final(self).invalid_values == old(self).invalid_values,
            final(self).duplicates@.dom() == old(self).duplicates@.dom().insert(value),
            forall|v: u8|
                v != value && #[trigger] old(self).duplicates@.contains_key(v) ==> final(self).duplicates@[v]
                    == old(self).duplicates@[v],
            forall|c: Coord| #[trigger]
                final(self).duplicates@[value]@.contains(c) <==> (coords@.contains(c) || (old(
                    self,
                ).duplicates@.contains_key(value) && old(self).duplicates@[value]@.contains(c))),
            (coords@.no_duplicates() && (old(self).duplicates@.contains_key(value)
                ==> old(self).duplicates@[value]@.no_duplicates())) ==> final(self).duplicates@[value]@.no_duplicates(),
            old(self).duplicates@.contains_key(value) ==> final(self).duplicates@[value]@ == add_new(
                old(self).duplicates@[value]@,
                coords@,
            ),
            !old(self).duplicates@.contains_key(value) ==> final(self).duplicates@[value]@ == coords@,
    {
        match self.duplicates.remove(&value) {
            None => {
                self.duplicates.insert(value, coords);
            },
            Some(dupe_list) => {
                let mut dupe_list = dupe_list;
                let ghost orig = dupe_list@;
                let mut i: usize = 0;
                while i < coords.len()
                    invariant
                        0 <= i <= coords.len(),
                        forall|c: Coord| #[trigger]
                            dupe_list@.contains(c) <==> (orig.contains(c) || coords@.take(
                                i as int,
                            ).contains(c)),
                        orig.no_duplicates() ==> dupe_list@.no_duplicates(),
                        dupe_list@ == add_new(orig, coords@.take(i as int)),
                    decreases coords.len() - i,
                {
                    let coord = coords[i];
                    let ghost before = dupe_list@;
                    if !vec_has_coord(&dupe_list, coord) {
                        dupe_list.push(coord);
                        proof {
                            assert(dupe_list@.last() == coord);
                            if orig.no_duplicates() {
                                assert forall|a: int, b: int| 0 <= a < b < dupe_list@.len() implies dupe_list@[a]
                                    != dupe_list@[b] by {
                                    if b == dupe_list@.len() - 1 {
                                        assert(before.contains(before[a]));
                                    } else {
                                        assert(before[a] != before[b]);
                                    }
                                }
                            }
                        }
                    }
                    proof {
                        assert(coords@.take(i + 1) == coords@.take(i as int).push(coord));
                        assert(coords@.take(i + 1).drop_last() == coords@.take(i as int));
                        assert forall|c: Coord| #[trigger] dupe_list@.contains(c) <==> (orig.contains(c)
                            || coords@.take(i + 1).contains(c)) by {
                            if dupe_list@.contains(c) && c != coord {
                                let k = choose|k: int| 0 <= k < dupe_list@.len() && dupe_list@[k] == c;
                                if k < before.len() {
                                    assert(before[k] == c);
                                }
                            }
                            if coords@.take(i + 1).contains(c) && c != coord {
                                let t = coords@.take(i + 1);
                                let k = choose|k: int| 0 <= k < t.len() && #[trigger] t[k] == c;
                                assert(coords@.take(i as int)[k] == c);
                            }
                            if coords@.take(i as int).contains(c) {
                                let t = coords@.take(i as int);
                                let k = choose|k: int| 0 <= k < t.len() && #[trigger] t[k] == c;
                                assert(coords@.take(i + 1)[k] == c);
                            }
                            if c == coord {
                                assert(coords@.take(i + 1)[i as int] == c);
                            }
                            if before.contains(c) {
                                let k = choose|k: int| 0 <= k < before.len() && before[k] == c;
                                assert(dupe_list@[k] == c);
                            }
                        }
                    }
                    i += 1;
                }
                proof {
                    assert(coords@.take(coords@.len() as int) == coords@);
                }
                self.duplicates.insert(value, dupe_list);
            },
        }
    }

    /// Record an incomplete cell (once).
    pub fn push_incomplete(&mut self, coord: Coord)
        ensures
            final(self).duplicates == old(self).duplicates,
            final(self).invalid_values == old(self).invalid_values,
            final(self).incomplete@ == if old(self).incomplete@.contains(coord) {
                old(self).incomplete@
            } else {
                old(self).incomplete@.push(coord)
            },
    {
        if !vec_has_coord(&self.incomplete, coord) {
            self.incomplete.push(coord);
        }
    }

    /// Record a cell holding a value out of range (once).
    pub fn push_invalid_value(&mut self, coord: Coord)
        ensures
            final(self).duplicates == old(self).duplicates,
            final(self).incomplete == old(self).incomplete,
            final(self).invalid_values@ == if old(self).invalid_values@.contains(coord) {
                old(self).invalid_values@
            } else {
                old(self).invalid_values@.push(coord)
            },
    {
        if !vec_has_coord(&self.invalid_values, coord) {
            self.invalid_values.push(coord);
        }
    }

    /// True if the board is valid.
    ///
    /// False if there are any [`Self::duplicates`], [`Self::incomplete`]
    /// cells, or [`Self::invalid_values`].
    pub fn is_ok(&self) -> (r: bool)
        ensures
            r == (self.duplicates@.dom().len() == 0 && self.incomplete@.len() == 0
                && self.invalid_values@.len() == 0),
    {
        self.duplicates.len() == 0 && self.incomplete.len() == 0 && self.invalid_values.len() == 0
    }
}

impl Board {
    /// The cell holds a value below the row length.
    pub open spec fn valid_value(&self, c: Coord) -> bool {
        in_grid(self.n(), c) && self.at(c) is Value && self.at(c)->Value_0 < self.n()
    }

    /// The cell holds a value that is not below the row length.
    pub open spec fn bad_value(&self, c: Coord) -> bool {
        in_grid(self.n(), c) && self.at(c) is Value && self.at(c)->Value_0 >= self.n()
    }

    /// `t` is an unfilled cell examined against some filled cell (only when
    /// `solved` is requested).
    pub open spec fn inc_by(&self, solved: bool, ex: Set<(Coord, Coord)>, t: Coord) -> bool {
        solved && self.at(t) is Notes && exists|c: Coord| #[trigger] ex.contains((c, t))
    }

    /// `x` belongs to an examined pair of cells that both hold `v`.
    pub open spec fn dup_by(&self, ex: Set<(Coord, Coord)>, v: u8, x: Coord) -> bool {
        exists|c: Coord, t: Coord|
            #![trigger ex.contains((c, t)), self.at(c), self.at(t)]
            ex.contains((c, t)) && self.at(c) == CellView::Value(v) && self.at(t) == CellView::Value(v)
                && (x == c || x == t)
    }

    /// `r` records exactly the problems found in the visited cells `vis` and
    /// the examined pairs `ex`, each coordinate once.
    pub open spec fn records(
        &self,
        r: ValidationResults,
        solved: bool,
        ex: Set<(Coord, Coord)>,
        vis: Set<Coord>,
    ) -> bool {
        &&& r.invalid_values@.no_duplicates()
        &&& forall|c: Coord| #[trigger]
            r.invalid_values@.contains(c) <==> (vis.contains(c) && self.bad_value(c))
        &&& r.incomplete@.no_duplicates()
        &&& forall|t: Coord| #[trigger] r.incomplete@.contains(t) <==> self.inc_by(solved, ex, t)
        &&& forall|v: u8| #[trigger]
            r.duplicates@.contains_key(v) <==> exists|x: Coord| #[trigger] self.dup_by(ex, v, x)
        &&& forall|v: u8| #[trigger]
            r.duplicates@.contains_key(v) ==> r.duplicates@[v]@.no_duplicates()
        &&& forall|v: u8, x: Coord|
            r.duplicates@.contains_key(v) ==> (#[trigger] r.duplicates@[v]@.contains(x)
                <==> self.dup_by(ex, v, x))
    }

    /// Compare the filled cell `visiting` with one related cell.
    fn check_pair(
        &self,
        results: &mut ValidationResults,
        visiting: Coord,
        value: u8,
        test: Coord,
        solved: bool,
        Ghost(ex): Ghost<Set<(Coord, Coord)>>,
        Ghost(vis): Ghost<Set<Coord>>,
        Ghost(log): Ghost<Seq<(Coord, Coord)>>,
        Ghost(bad): Ghost<Seq<Coord>>,
    )
        requires
            self.wf(),
            self.related(visiting, test),
            self.at(visiting) == CellView::Value(value),
            self.records(*old(results), solved, ex, vis),
            self.in_order(*old(results), solved, log, bad),
        ensures
            self.records(*final(results), solved, ex.insert((visiting, test)), vis),
            self.in_order(*final(results), solved, log.push((visiting, test)), bad),
    {
        let ghost ex2 = ex.insert((visiting, test));
        let ghost r0 = *results;
        let ghost log2 = log.push((visiting, test));
        proof {
            assert(log2.drop_last() =~= log);
            assert(log2.last() == (visiting, test));
        }
        proof {
            assert(self.grid@[test.row as int]@.len() == self.n());
        }
        let cell = &self.grid[test.row][test.col];
        assert(cell@ == self.at(test));
        match cell.is_valid(value, solved) {
            ValidatedCell::Dupe => {
                let dupes = vec![visiting, test];
                results.push_duplicate(value, dupes);
                proof {
                    assert(dupes@.no_duplicates());
                    assert forall|t: Coord| #[trigger] self.inc_by(solved, ex2, t) == self.inc_by(solved, ex, t) by {
                        if self.inc_by(solved, ex2, t) {
                            let c = choose|c: Coord| #[trigger] ex2.contains((c, t));
                            if (c, t) != (visiting, test) {
                                assert(ex.contains((c, t)));
                            }
                        }
                        if self.inc_by(solved, ex, t) {
                            let c = choose|c: Coord| #[trigger] ex.contains((c, t));
                            assert(ex2.contains((c, t)));
                        }
                    }
                    assert forall|v: u8, x: Coord| #[trigger] self.dup_by(ex2, v, x) == (self.dup_by(ex, v, x) || (v == value && (x == visiting || x == test))) by {
                        if self.dup_by(ex2, v, x) {
                            let (c, t) = choose|c: Coord, t: Coord|
                                #![trigger ex2.contains((c, t)), self.at(c), self.at(t)]
                                ex2.contains((c, t)) && self.at(c) == CellView::Value(v) && self.at(t)
                                    == CellView::Value(v) && (x == c || x == t);
                            if (c, t) != (visiting, test) {
                                assert(ex.contains((c, t)));
                            }
                        }
                        if self.dup_by(ex, v, x) {
                            let (c, t) = choose|c: Coord, t: Coord|
                                #![trigger ex.contains((c, t)), self.at(c), self.at(t)]
                                ex.contains((c, t)) && self.at(c) == CellView::Value(v) && self.at(t)
                                    == CellView::Value(v) && (x == c || x == t);
                            assert(ex2.contains((c, t)));
                        }
                        if v == value && (x == visiting || x == test) {
                            assert(ex2.contains((visiting, test)));
                        }
                    }
                    assert forall|v: u8| #[trigger] results.duplicates@.contains_key(v) <==> exists|x: Coord| #[trigger] self.dup_by(ex2, v, x) by {
                        if v == value {
                            assert(self.dup_by(ex2, v, visiting));
                        } else {
                            if exists|x: Coord| #[trigger] self.dup_by(ex2, v, x) {
                                let x = choose|x: Coord| #[trigger] self.dup_by(ex2, v, x);
                                assert(self.dup_by(ex, v, x));
                            }
                            if r0.duplicates@.contains_key(v) {
                                let x = choose|x: Coord| #[trigger] self.dup_by(ex, v, x);
                                assert(self.dup_by(ex2, v, x));
                            }
                        }
                    }
                    assert forall|v: u8, x: Coord| results.duplicates@.contains_key(v) implies (#[trigger] results.duplicates@[v]@.contains(x)
                        <==> self.dup_by(ex2, v, x)) by {
                        if v == value {
                            if r0.duplicates@.contains_key(v) {
                                assert(r0.duplicates@[v]@.contains(x) <==> self.dup_by(ex, v, x));
                            } else {
                                if self.dup_by(ex, v, x) {
                                    assert(exists|y: Coord| #[trigger] self.dup_by(ex, v, y));
                                }
                            }
                            assert(dupes@.contains(x) <==> (x == visiting || x == test)) by {
                                if x == test {
                                    assert(dupes@[1] == x);
                                }
                                if x == visiting {
                                    assert(dupes@[0] == x);
                                }
                            }
                        } else {
                            assert(r0.duplicates@.contains_key(v));
                            assert(r0.duplicates@[v]@.contains(x) <==> self.dup_by(ex, v, x));
                        }
                    }
                    let d = self.dupes_in(log, value);
                    assert(self.dupes_in(log2, value) == d.push(visiting).push(test));
                    assert(self.unfilled_in(solved, log2) == self.unfilled_in(solved, log));
                    assert(seq![visiting, test].drop_last() =~= seq![visiting]);
                    assert(seq![visiting].drop_last() =~= Seq::<Coord>::empty());
                    assert(d.push(visiting).push(test).drop_last() =~= d.push(visiting));
                    assert(d.push(visiting).drop_last() =~= d);
                    assert(dupes@ == seq![visiting, test]);
                    assert(seq![visiting].last() == visiting);
                    assert(seq![visiting, test].last() == test);
                    assert(Seq::<Coord>::empty().len() == 0);
                    assert(visiting != test);
                    if r0.duplicates@.contains_key(value) {
                        let dd = dedup(d);
                        assert(add_new(dd, Seq::<Coord>::empty()) == dd);
                        assert(add_new(dd, seq![visiting]) == if add_new(dd, seq![visiting].drop_last()).contains(
                            visiting,
                        ) {
                            add_new(dd, seq![visiting].drop_last())
                        } else {
                            add_new(dd, seq![visiting].drop_last()).push(visiting)
                        });
                        assert(dedup(d.push(visiting)) == if dedup(d.push(visiting).drop_last()).contains(visiting) {
                            dedup(d.push(visiting).drop_last())
                        } else {
                            dedup(d.push(visiting).drop_last()).push(visiting)
                        });
                        assert(add_new(dd, seq![visiting]) == dedup(d.push(visiting)));
                        assert(results.duplicates@[value]@ == dedup(self.dupes_in(log2, value)));
                    } else {
                        assert(d.len() == 0);
                        assert(d.push(visiting) =~= seq![visiting]);
                        assert(dedup(Seq::<Coord>::empty()) =~= Seq::<Coord>::empty());
                        assert(dedup(seq![visiting]) =~= seq![visiting]);
                        assert(d.push(visiting).push(test) =~= seq![visiting, test]);
                        assert(dedup(seq![visiting, test]) =~= seq![visiting, test]);
                    }
                    assert forall|v: u8| v != value implies #[trigger] self.dupes_in(log2, v) == self.dupes_in(log, v) by {
                    }
                }
            },
            ValidatedCell::Incomplete => {
                results.push_incomplete(test);
                proof {
                    assert forall|v: u8, x: Coord| #[trigger] self.dup_by(ex2, v, x) == self.dup_by(ex, v, x) by {
                        if self.dup_by(ex2, v, x) {
                            let (c, t) = choose|c: Coord, t: Coord|
                                #![trigger ex2.contains((c, t)), self.at(c), self.at(t)]
                                ex2.contains((c, t)) && self.at(c) == CellView::Value(v) && self.at(t)
                                    == CellView::Value(v) && (x == c || x == t);
                            if (c, t) != (visiting, test) {
                                assert(ex.contains((c, t)));
                            }
                        }
                        if self.dup_by(ex, v, x) {
                            let (c, t) = choose|c: Coord, t: Coord|
                                #![trigger ex.contains((c, t)), self.at(c), self.at(t)]
                                ex.contains((c, t)) && self.at(c) == CellView::Value(v) && self.at(t)
                                    == CellView::Value(v) && (x == c || x == t);
                            assert(ex2.contains((c, t)));
                        }
                    }
                    assert forall|v: u8| #[trigger] results.duplicates@.contains_key(v) <==> exists|x: Coord| #[trigger] self.dup_by(ex2, v, x) by {
                        if exists|x: Coord| #[trigger] self.dup_by(ex2, v, x) {
                            let x = choose|x: Coord| #[trigger] self.dup_by(ex2, v, x);
                            assert(self.dup_by(ex, v, x));
                        }
                        if r0.duplicates@.contains_key(v) {
                            let x = choose|x: Coord| #[trigger] self.dup_by(ex, v, x);
                            assert(self.dup_by(ex2, v, x));
                        }
                    }
                    assert forall|t: Coord| #[trigger] self.inc_by(solved, ex2, t) == (self.inc_by(solved, ex, t) || t == test) by {
                        if self.inc_by(solved, ex2, t) {
                            let c = choose|c: Coord| #[trigger] ex2.contains((c, t));
                            if (c, t) != (visiting, test) {
                                assert(ex.contains((c, t)));
                            }
                        }
                        if self.inc_by(solved, ex, t) {
                            let c = choose|c: Coord| #[trigger] ex.contains((c, t));
                            assert(ex2.contains((c, t)));
                        }
                        if t == test {
                            assert(ex2.contains((visiting, test)));
                        }
                    }
                    assert forall|t: Coord| #[trigger] results.incomplete@.contains(t) <==> self.inc_by(solved, ex2, t) by {
                        assert(r0.incomplete@.contains(t) <==> self.inc_by(solved, ex, t));
                        assert(self.inc_by(solved, ex2, t) == (self.inc_by(solved, ex, t) || t == test));
                        if t == test {
                            if !r0.incomplete@.contains(t) {
                                assert(results.incomplete@[results.incomplete@.len() - 1] == t);
                            }
                            assert(results.incomplete@.contains(t));
                        } else {
                            if results.incomplete@.contains(t) {
                                let k = choose|k: int| 0 <= k < results.incomplete@.len() && results.incomplete@[k] == t;
                                assert(r0.incomplete@[k] == t);
                            }
                            if r0.incomplete@.contains(t) {
                                let k = choose|k: int| 0 <= k < r0.incomplete@.len() && r0.incomplete@[k] == t;
                                assert(results.incomplete@[k] == t);
                            }
                        }
                    }
                    if !r0.incomplete@.contains(test) {
                        assert forall|a: int, b: int| 0 <= a < b < results.incomplete@.len() implies results.incomplete@[a] != results.incomplete@[b] by {
                            if b == results.incomplete@.len() - 1 {
                                assert(r0.incomplete@.contains(r0.incomplete@[a]));
                            }
                        }
                    }
                    let u = self.unfilled_in(solved, log);
                    assert(self.unfilled_in(solved, log2) == u.push(test));
                    assert(u.push(test).drop_last() =~= u);
                    assert forall|v: u8| #[trigger] self.dupes_in(log2, v) == self.dupes_in(log, v) by {
                    }
                }
            },
            ValidatedCell::Clear => {
                proof {
                    assert forall|v: u8, x: Coord| #[trigger] self.dup_by(ex2, v, x) == self.dup_by(ex, v, x) by {
                        if self.dup_by(ex2, v, x) {
                            let (c, t) = choose|c: Coord, t: Coord|
                                #![trigger ex2.contains((c, t)), self.at(c), self.at(t)]
                                ex2.contains((c, t)) && self.at(c) == CellView::Value(v) && self.at(t)
                                    == CellView::Value(v) && (x == c || x == t);
                            if (c, t) != (visiting, test) {
                                assert(ex.contains((c, t)));
                            }
                        }
                        if self.dup_by(ex, v, x) {
                            let (c, t) = choose|c: Coord, t: Coord|
                                #![trigger ex.contains((c, t)), self.at(c), self.at(t)]
                                ex.contains((c, t)) && self.at(c) == CellView::Value(v) && self.at(t)
                                    == CellView::Value(v) && (x == c || x == t);
                            assert(ex2.contains((c, t)));
                        }
                    }
                    assert forall|t: Coord| #[trigger] self.inc_by(solved, ex2, t) == self.inc_by(solved, ex, t) by {
                        if self.inc_by(solved, ex2, t) {
                            let c = choose|c: Coord| #[trigger] ex2.contains((c, t));
                            if (c, t) != (visiting, test) {
                                assert(ex.contains((c, t)));
                            }
                        }
                        if self.inc_by(solved, ex, t) {
                            let c = choose|c: Coord| #[trigger] ex.contains((c, t));
                            assert(ex2.contains((c, t)));
                        }
                    }
                    assert forall|v: u8| #[trigger] results.duplicates@.contains_key(v) <==> exists|x: Coord| #[trigger] self.dup_by(ex2, v, x) by {
                        if exists|x: Coord| #[trigger] self.dup_by(ex2, v, x) {
                            let x = choose|x: Coord| #[trigger] self.dup_by(ex2, v, x);
                            assert(self.dup_by(ex, v, x));
                        }
                        if r0.duplicates@.contains_key(v) {
                            let x = choose|x: Coord| #[trigger] self.dup_by(ex, v, x);
                            assert(self.dup_by(ex2, v, x));
                        }
                    }
                    assert(self.unfilled_in(solved, log2) == self.unfilled_in(solved, log));
                    assert forall|v: u8| #[trigger] self.dupes_in(log2, v) == self.dupes_in(log, v) by {
                    }
                }
            },
        }
    }
}

impl Board {
    /// Every examined pair: a cell holding a value below the row length, and a
    /// cell related to it.
    pub open spec fn all_pairs(&self) -> Set<(Coord, Coord)> {
        Set::new(|p: (Coord, Coord)| self.valid_value(p.0) && self.related(p.0, p.1))
    }

    /// Every cell of the board.
    pub open spec fn all_cells(&self) -> Set<Coord> {
        Set::new(|c: Coord| in_grid(self.n(), c))
    }

    /// `r` lists, each coordinate once, the values out of range and the
    /// cells of every related pair holding the same value.
    pub open spec fn found(&self, r: ValidationResults) -> bool {
        &&& r.invalid_values@.no_duplicates()
        &&& forall|c: Coord| #[trigger] r.invalid_values@.contains(c) <==> self.bad_value(c)
        &&& forall|v: u8| #[trigger]
            r.duplicates@.contains_key(v) <==> exists|x: Coord| #[trigger] self.dup_by(self.all_pairs(), v, x)
        &&& forall|v: u8| #[trigger]
            r.duplicates@.contains_key(v) ==> r.duplicates@[v]@.no_duplicates()
        &&& forall|v: u8, x: Coord|
            r.duplicates@.contains_key(v) ==> (#[trigger] r.duplicates@[v]@.contains(x)
                <==> self.dup_by(self.all_pairs(), v, x))
    }

    /// `r` reports the problems of the whole board, each coordinate once:
    /// what [`Board::found`] lists and, when `solved` is asked for, every
    /// unfilled cell.
    pub open spec fn reports(&self, r: ValidationResults, solved: bool) -> bool {
        &&& self.found(r)
        &&& r.incomplete@.no_duplicates()
        &&& forall|t: Coord| #[trigger]
            r.incomplete@.contains(t) <==> (solved && in_grid(self.n(), t) && self.at(t) is Notes)
    }

    /// The pairs compared when the filled cell `v` is visited: the cells of
    /// its row and column, index by index (the row's cell first), then the
    /// other cells of its region in row-major order.
    pub open spec fn visit_checks(&self, v: Coord) -> Seq<(Coord, Coord)> {
        if self.valid_value(v) {
            line_checks(v, self.n()) + self.kind.sibling_seq(self.size, v).map_values(|t: Coord| (v, t))
        } else {
            Seq::empty()
        }
    }

    /// The pairs compared when visiting the first `k` cells of row `r`.
    pub open spec fn row_checks(&self, r: nat, k: nat) -> Seq<(Coord, Coord)>
        decreases k,
    {
        if k == 0 {
            Seq::empty()
        } else {
            self.row_checks(r, (k - 1) as nat) + self.visit_checks(Coord { row: r as usize, col: (k - 1) as usize })
        }
    }

    /// The pairs compared when visiting the first `k` rows.
    pub open spec fn grid_checks(&self, k: nat) -> Seq<(Coord, Coord)>
        decreases k,
    {
        if k == 0 {
            Seq::empty()
        } else {
            self.grid_checks((k - 1) as nat) + self.row_checks((k - 1) as nat, self.n())
        }
    }

    /// The cells that the pairs of `log` find unfilled (only when `solved`
    /// is asked for), in turn.
    pub open spec fn unfilled_in(&self, solved: bool, log: Seq<(Coord, Coord)>) -> Seq<Coord>
        decreases log.len(),
    {
        if log.len() == 0 {
            Seq::empty()
        } else {
            let p = self.unfilled_in(solved, log.drop_last());
            if solved && self.at(log.last().1) is Notes {
                p.push(log.last().1)
            } else {
                p
            }
        }
    }

    /// The cells of the pairs of `log` that both hold `v`, pair by pair.
    pub open spec fn dupes_in(&self, log: Seq<(Coord, Coord)>, v: u8) -> Seq<Coord>
        decreases log.len(),
    {
        if log.len() == 0 {
            Seq::empty()
        } else {
            let p = self.dupes_in(log.drop_last(), v);
            if self.at(log.last().0) == CellView::Value(v) && self.at(log.last().1) == CellView::Value(v) {
                p.push(log.last().0).push(log.last().1)
            } else {
                p
            }
        }
    }

    /// The cells among the first `k` of row `r` that `keep` selects.
    pub open spec fn row_cells(&self, keep: spec_fn(Coord) -> bool, r: nat, k: nat) -> Seq<Coord>
        decreases k,
    {
        if k == 0 {
            Seq::empty()
        } else {
            let p = self.row_cells(keep, r, (k - 1) as nat);
            let c = Coord { row: r as usize, col: (k - 1) as usize };
            if keep(c) {
                p.push(c)
            } else {
                p
            }
        }
    }

    /// The cells among the first `k` rows that `keep` selects, in row-major order.
    pub open spec fn grid_cells(&self, keep: spec_fn(Coord) -> bool, k: nat) -> Seq<Coord>
        decreases k,
    {
        if k == 0 {
            Seq::empty()
        } else {
            self.grid_cells(keep, (k - 1) as nat) + self.row_cells(keep, (k - 1) as nat, self.n())
        }
    }

    /// The unfilled cells.
    pub open spec fn is_unfilled(&self) -> spec_fn(Coord) -> bool {
        |c: Coord| self.at(c) is Notes
    }

    /// The cells holding a value out of range.
    pub open spec fn is_bad(&self) -> spec_fn(Coord) -> bool {
        |c: Coord| self.bad_value(c)
    }

    /// `r` lists its problems in the order in which the pairs `log` were
    /// compared, each cell where it first turns up, and the cells holding a
    /// value out of range as `bad` lists them.
    pub open spec fn in_order(&self, r: ValidationResults, solved: bool, log: Seq<(Coord, Coord)>, bad: Seq<Coord>) -> bool {
        &&& r.incomplete@ == dedup(self.unfilled_in(solved, log))
        &&& forall|v: u8| #[trigger] r.duplicates@.contains_key(v) <==> self.dupes_in(log, v).len() > 0
        &&& forall|v: u8| r.duplicates@.contains_key(v) ==> #[trigger] r.duplicates@[v]@ == dedup(self.dupes_in(log, v))
        &&& r.invalid_values@ == bad
    }

    /// The pairs whose first cell is `c`.
    pub open spec fn pairs_of(&self, c: Coord) -> Set<(Coord, Coord)> {
        Set::new(|p: (Coord, Coord)| p.0 == c && self.valid_value(c) && self.related(c, p.1))
    }

    /// Examine one cell against its row, column and region.
    fn visit_cell(
        &self,
        results: &mut ValidationResults,
        visiting: Coord,
        solved: bool,
        Ghost(ex): Ghost<Set<(Coord, Coord)>>,
        Ghost(vis): Ghost<Set<Coord>>,
        Ghost(log): Ghost<Seq<(Coord, Coord)>>,
        Ghost(bad): Ghost<Seq<Coord>>,
    )
        requires
            self.wf(),
            in_grid(self.n(), visiting),
            self.records(*old(results), solved, ex, vis),
            self.in_order(*old(results), solved, log, bad),
            !bad.contains(visiting),
        ensures
            self.records(*final(results), solved, ex + self.pairs_of(visiting), vis.insert(visiting)),
            self.in_order(
                *final(results),
                solved,
                log + self.visit_checks(visiting),
                if self.bad_value(visiting) {
                    bad.push(visiting)
                } else {
                    bad
                },
            ),
    {
        let max_cells = self.size.max_cells() as usize;
        let ghost n = self.n();
        let row = visiting.row;
        let col = visiting.col;
        proof {
            assert(self.grid@[row as int]@.len() == n);
        }
        let cell = &self.grid[row][col];
        assert(cell@ == self.at(visiting));
        if let Cell::Value(value) = cell {
            let value = *value;
            if value >= max_cells as u8 {
                let ghost r0 = *results;
                results.push_invalid_value(visiting);
                proof {
                    assert(self.pairs_of(visiting) =~= Set::empty());
                    assert(ex + self.pairs_of(visiting) =~= ex);
                    assert forall|c: Coord| #[trigger] results.invalid_values@.contains(c) <==> (vis.insert(visiting).contains(c) && self.bad_value(c)) by {
                        if c == visiting {
                            if !r0.invalid_values@.contains(c) {
                                assert(results.invalid_values@[results.invalid_values@.len() - 1] == c);
                            }
                        } else {
                            if results.invalid_values@.contains(c) {
                                let k = choose|k: int| 0 <= k < results.invalid_values@.len() && results.invalid_values@[k] == c;
                                assert(r0.invalid_values@[k] == c);
                            }
                            if r0.invalid_values@.contains(c) {
                                let k = choose|k: int| 0 <= k < r0.invalid_values@.len() && r0.invalid_values@[k] == c;
                                assert(results.invalid_values@[k] == c);
                            }
                        }
                    }
                    if !r0.invalid_values@.contains(visiting) {
                        assert forall|a: int, b: int| 0 <= a < b < results.invalid_values@.len() implies results.invalid_values@[a] != results.invalid_values@[b] by {
                            if b == results.invalid_values@.len() - 1 {
                                assert(r0.invalid_values@.contains(r0.invalid_values@[a]));
                            }
                        }
                    }
                    assert(log + self.visit_checks(visiting) =~= log);
                }
                return;
            }
            let ghost mut ex_now = ex;
            let ghost mut log_now = log;
            proof {
                assert(log =~= log + line_checks(visiting, 0));
            }
            let mut i: usize = 0;
            while i < max_cells
                invariant
                    self.wf(),
                    max_cells == n,
                    n == self.n(),
                    in_grid(n, visiting),
                    row == visiting.row,
                    col == visiting.col,
                    self.at(visiting) == CellView::Value(value),
                    value < n,
                    0 <= i <= n,
                    self.records(*results, solved, ex_now, vis),
                    ex_now =~= ex + Set::new(|p: (Coord, Coord)| p.0 == visiting && self.related(visiting, p.1) && (
                        (p.1.row == row && p.1.col < i) || (p.1.col == col && p.1.row < i))),
                    self.in_order(*results, solved, log_now, bad),
                    log_now == log + line_checks(visiting, i as nat),
                decreases n - i,
            {
                let ghost before_i = log_now;
                if i != col {
                    let test_cell = Coord { row, col: i };
                    self.check_pair(results, visiting, value, test_cell, solved, Ghost(ex_now), Ghost(vis), Ghost(log_now), Ghost(bad));
                    proof {
                        ex_now = ex_now.insert((visiting, test_cell));
                        log_now = log_now.push((visiting, test_cell));
                    }
                }
                if i != row {
                    let test_cell = Coord { row: i, col };
                    self.check_pair(results, visiting, value, test_cell, solved, Ghost(ex_now), Ghost(vis), Ghost(log_now), Ghost(bad));
                    proof {
                        ex_now = ex_now.insert((visiting, test_cell));
                        log_now = log_now.push((visiting, test_cell));
                    }
                }
                proof {
                    let p = line_checks(visiting, i as nat);
                    assert(line_checks(visiting, (i + 1) as nat) == {
                        let p2 = if i != visiting.col {
                            p.push((visiting, Coord { row: visiting.row, col: i }))
                        } else {
                            p
                        };
                        if i != visiting.row {
                            p2.push((visiting, Coord { row: i, col: visiting.col }))
                        } else {
                            p2
                        }
                    });
                    if i != col {
                        assert((log + p).push((visiting, Coord { row, col: i })) =~= log + p.push(
                            (visiting, Coord { row, col: i }),
                        ));
                        if i != row {
                            assert((log + p.push((visiting, Coord { row, col: i }))).push(
                                (visiting, Coord { row: i, col }),
                            ) =~= log + p.push((visiting, Coord { row, col: i })).push((visiting, Coord { row: i, col })));
                        }
                    } else if i != row {
                        assert((log + p).push((visiting, Coord { row: i, col })) =~= log + p.push(
                            (visiting, Coord { row: i, col }),
                        ));
                    }
                }
                i += 1;
            }
            let siblings = self.kind.siblings(&self.size, visiting);
            proof {
                assert(log_now == log + line_checks(visiting, n) + siblings@.take(0).map_values(|t: Coord| (visiting, t))) by {
                    assert(siblings@.take(0).map_values(|t: Coord| (visiting, t)) =~= Seq::<(Coord, Coord)>::empty());
                    assert(log_now + Seq::<(Coord, Coord)>::empty() =~= log_now);
                }
                if let BoardKind::Irregular { map } = &self.kind {
                    use_type_invariant(map);
                }
                self.kind.lemma_balanced(self.size);
                self.kind.lemma_sibling_seq(self.size, visiting);
            }
            let mut k: usize = 0;
            while k < siblings.len()
                invariant
                    self.wf(),
                    max_cells == n,
                    n == self.n(),
                    in_grid(n, visiting),
                    row == visiting.row,
                    col == visiting.col,
                    self.at(visiting) == CellView::Value(value),
                    value < n,
                    0 <= k <= siblings.len(),
                    siblings@ == self.kind.sibling_seq(self.size, visiting),
                    forall|c: Coord| #[trigger]
                        siblings@.contains(c) <==> (in_grid(n, c) && self.kind.region_at(self.size, c)
                            == self.kind.region_at(self.size, visiting) && c != visiting),
                    self.records(*results, solved, ex_now, vis),
                    ex_now =~= ex + Set::new(|p: (Coord, Coord)| p.0 == visiting && self.related(visiting, p.1) && (
                        p.1.row == row || p.1.col == col || siblings@.take(k as int).contains(p.1))),
                    self.in_order(*results, solved, log_now, bad),
                    log_now == log + line_checks(visiting, n) + siblings@.take(k as int).map_values(
                        |t: Coord| (visiting, t),
                    ),
                decreases siblings.len() - k,
            {
                let coord = siblings[k];
                assert(siblings@.contains(coord));
                self.check_pair(results, visiting, value, coord, solved, Ghost(ex_now), Ghost(vis), Ghost(log_now), Ghost(bad));
                proof {
                    ex_now = ex_now.insert((visiting, coord));
                    let base = log + line_checks(visiting, n);
                    assert(siblings@.take(k + 1).map_values(|t: Coord| (visiting, t)) =~= siblings@.take(
                        k as int,
                    ).map_values(|t: Coord| (visiting, t)).push((visiting, coord)));
                    assert((base + siblings@.take(k as int).map_values(|t: Coord| (visiting, t))).push(
                        (visiting, coord),
                    ) =~= base + siblings@.take(k as int).map_values(|t: Coord| (visiting, t)).push((visiting, coord)));
                    log_now = log_now.push((visiting, coord));
                    assert(siblings@.take(k + 1) == siblings@.take(k as int).push(coord));
                    assert forall|t: Coord| #[trigger] siblings@.take(k + 1).contains(t) <==> (siblings@.take(k as int).contains(t) || t == coord) by {
                        if siblings@.take(k + 1).contains(t) && t != coord {
                            let s1 = siblings@.take(k + 1);
                            let j = choose|j: int| 0 <= j < s1.len() && #[trigger] s1[j] == t;
                            assert(siblings@.take(k as int)[j] == t);
                        }
                        if siblings@.take(k as int).contains(t) {
                            let s1 = siblings@.take(k as int);
                            let j = choose|j: int| 0 <= j < s1.len() && #[trigger] s1[j] == t;
                            assert(siblings@.take(k + 1)[j] == t);
                        }
                        if t == coord {
                            assert(siblings@.take(k + 1)[k as int] == t);
                        }
                    }
                }
                k += 1;
            }
            proof {
                assert(siblings@.take(siblings@.len() as int) == siblings@);
                assert(ex_now =~= ex + self.pairs_of(visiting));
                assert(self.valid_value(visiting));
                assert(log_now =~= log + self.visit_checks(visiting));
                assert forall|c: Coord| #[trigger] results.invalid_values@.contains(c) <==> (vis.insert(visiting).contains(c) && self.bad_value(c)) by {
                }
            }
        } else {
            proof {
                assert(log + self.visit_checks(visiting) =~= log);
                assert(self.pairs_of(visiting) =~= Set::empty());
                assert(ex + self.pairs_of(visiting) =~= ex);
                assert forall|c: Coord| #[trigger] results.invalid_values@.contains(c) <==> (vis.insert(visiting).contains(c) && self.bad_value(c)) by {
                }
            }
        }
    }

    /// Validate the board to ensure it is still solvable.
    ///
    /// This checks that no rows, columns, or regions contain duplicate values.
    /// If `solved` is true, then it also checks that all cells are filled.
    ///
    /// This function checks the whole board, even if it is partially filled.
    /// All problems are aggregated and returned in a [`ValidationResults`] struct,
    /// each coordinate at most once per list. When `solved` is asked for,
    /// every unfilled cell is listed as incomplete: first those met while
    /// comparing the filled cells with their row, column and region, then the
    /// others in row-major order.
    ///
    /// Cells are listed in the order in which they are met: the filled cells
    /// are visited in row-major order, and each is compared with the cells of
    /// its row and column, index by index (the row's cell first), then with
    /// the other cells of its region; a duplicated value lists both cells of
    /// each pair found, each cell where it first turns up. The values out of
    /// range are listed in row-major order.
    #[verifier::rlimit(60)]
    pub fn validate(&self, solved: bool) -> (r: ValidationResults)
        requires
            self.wf(),
        ensures
            self.reports(r, solved),
            r.incomplete@ == if solved {
                dedup(self.unfilled_in(true, self.grid_checks(self.n())) + self.grid_cells(self.is_unfilled(), self.n()))
            } else {
                Seq::<Coord>::empty()
            },
            forall|v: u8| #[trigger]
                r.duplicates@.contains_key(v) ==> r.duplicates@[v]@ == dedup(self.dupes_in(self.grid_checks(self.n()), v)),
            r.invalid_values@ == self.grid_cells(self.is_bad(), self.n()),
    {
        let max_cells = self.size.max_cells() as usize;
        let ghost n = self.n();
        let mut results = ValidationResults::default();
        let ghost mut ex: Set<(Coord, Coord)> = Set::empty();
        let ghost mut vis: Set<Coord> = Set::empty();
        let ghost mut log: Seq<(Coord, Coord)> = Seq::empty();
        let ghost mut bad: Seq<Coord> = Seq::empty();
        proof {
            assert forall|v: u8| #[trigger] results.duplicates@.contains_key(v) <==> exists|x: Coord| #[trigger] self.dup_by(ex, v, x) by {
            }
        }
        let mut row: usize = 0;
        while row < max_cells
            invariant
                self.wf(),
                max_cells == n,
                n == self.n(),
                0 <= row <= n,
                self.records(results, solved, ex, vis),
                vis =~= Set::new(|c: Coord| in_grid(n, c) && c.row < row),
                ex =~= Set::new(|p: (Coord, Coord)| p.0.row < row && self.valid_value(p.0) && self.related(p.0, p.1)),
                self.in_order(results, solved, log, bad),
                log == self.grid_checks(row as nat),
                bad == self.grid_cells(self.is_bad(), row as nat),
            decreases n - row,
        {
            let mut col: usize = 0;
            proof {
                assert(log =~= self.grid_checks(row as nat) + self.row_checks(row as nat, 0));
                assert(bad =~= self.grid_cells(self.is_bad(), row as nat) + self.row_cells(self.is_bad(), row as nat, 0));
            }
            while col < max_cells
                invariant
                    self.wf(),
                    max_cells == n,
                    n == self.n(),
                    0 <= row < n,
                    0 <= col <= n,
                    self.records(results, solved, ex, vis),
                    vis =~= Set::new(|c: Coord| in_grid(n, c) && (c.row < row || (c.row == row && c.col < col))),
                    ex =~= Set::new(|p: (Coord, Coord)| (p.0.row < row || (p.0.row == row && p.0.col < col)) && self.valid_value(p.0) && self.related(p.0, p.1)),
                    self.in_order(results, solved, log, bad),
                    log == self.grid_checks(row as nat) + self.row_checks(row as nat, col as nat),
                    bad == self.grid_cells(self.is_bad(), row as nat) + self.row_cells(self.is_bad(), row as nat, col as nat),
                decreases n - col,
            {
                let visiting = Coord { row, col };
                proof {
                    if bad.contains(visiting) {
                        assert(results.invalid_values@.contains(visiting));
                    }
                }
                self.visit_cell(&mut results, visiting, solved, Ghost(ex), Ghost(vis), Ghost(log), Ghost(bad));
                proof {
                    ex = ex + self.pairs_of(visiting);
                    vis = vis.insert(visiting);
                    let g = self.grid_checks(row as nat);
                    let rc = self.row_checks(row as nat, col as nat);
                    assert(self.row_checks(row as nat, (col + 1) as nat) == rc + self.visit_checks(visiting));
                    assert(g + rc + self.visit_checks(visiting) =~= g + (rc + self.visit_checks(visiting)));
                    log = log + self.visit_checks(visiting);
                    let gb = self.grid_cells(self.is_bad(), row as nat);
                    let rb = self.row_cells(self.is_bad(), row as nat, col as nat);
                    assert(self.is_bad()(visiting) == self.bad_value(visiting));
                    if self.bad_value(visiting) {
                        assert((gb + rb).push(visiting) =~= gb + rb.push(visiting));
                        bad = bad.push(visiting);
                    }
                }
                col += 1;
            }
            proof {
                assert(self.grid_checks((row + 1) as nat) == self.grid_checks(row as nat) + self.row_checks(row as nat, n));
                assert(self.grid_cells(self.is_bad(), (row + 1) as nat) == self.grid_cells(self.is_bad(), row as nat)
                    + self.row_cells(self.is_bad(), row as nat, n));
            }
            row += 1;
        }
        proof {
            assert(ex =~= self.all_pairs());
            assert(vis =~= self.all_cells());
        }
        proof {
            assert(self.found(results));
            assert(log == self.grid_checks(n));
            if !solved {
                self.lemma_unfilled_unasked(log);
            }
        }
        let ghost r1 = results;
        let ghost w = self.unfilled_in(true, log);
        if solved {
            proof {
                assert(w + self.grid_cells(self.is_unfilled(), 0) =~= w);
            }
            let mut row: usize = 0;
            while row < max_cells
                invariant
                    self.wf(),
                    max_cells == n,
                    n == self.n(),
                    solved,
                    0 <= row <= n,
                    self.found(results),
                    results.incomplete@.no_duplicates(),
                    forall|t: Coord| #[trigger]
                        results.incomplete@.contains(t) <==> (in_grid(n, t) && self.at(t) is Notes && (self.inc_by(
                            solved,
                            self.all_pairs(),
                            t,
                        ) || t.row < row)),
                    results.duplicates == r1.duplicates,
                    results.invalid_values == r1.invalid_values,
                    results.incomplete@ == dedup(w + self.grid_cells(self.is_unfilled(), row as nat)),
                decreases n - row,
            {
                let mut col: usize = 0;
                proof {
                    assert(w + self.grid_cells(self.is_unfilled(), row as nat) =~= w + self.grid_cells(
                        self.is_unfilled(),
                        row as nat,
                    ) + self.row_cells(self.is_unfilled(), row as nat, 0));
                }
                while col < max_cells
                    invariant
                        self.wf(),
                        max_cells == n,
                        n == self.n(),
                        solved,
                        0 <= row < n,
                        0 <= col <= n,
                        self.found(results),
                        results.incomplete@.no_duplicates(),
                        forall|t: Coord| #[trigger]
                            results.incomplete@.contains(t) <==> (in_grid(n, t) && self.at(t) is Notes && (
                            self.inc_by(solved, self.all_pairs(), t) || t.row < row || (t.row == row && t.col
                                < col))),
                        results.duplicates == r1.duplicates,
                        results.invalid_values == r1.invalid_values,
                        results.incomplete@ == dedup(w + self.grid_cells(self.is_unfilled(), row as nat) + self.row_cells(
                            self.is_unfilled(),
                            row as nat,
                            col as nat,
                        )),
                    decreases n - col,
                {
                    let ghost x = w + self.grid_cells(self.is_unfilled(), row as nat) + self.row_cells(
                        self.is_unfilled(),
                        row as nat,
                        col as nat,
                    );
                    proof {
                        self.lemma_view();
                    }
                    let coord = Coord { row, col };
                    if let Cell::Notes(_) = &self.grid[row][col] {
                        let ghost before = results.incomplete@;
                        results.push_incomplete(coord);
                        proof {
                            assert(self.at(coord) is Notes);
                            if !before.contains(coord) {
                                assert forall|a: int, b: int| 0 <= a < b < results.incomplete@.len() implies results.incomplete@[a]
                                    != results.incomplete@[b] by {
                                    if b == results.incomplete@.len() - 1 {
                                        assert(before.contains(before[a]));
                                    }
                                }
                            }
                            assert(results.incomplete@.contains(coord)) by {
                                if !before.contains(coord) {
                                    assert(results.incomplete@[before.len() as int] == coord);
                                }
                            }
                            assert forall|t: Coord| #[trigger] results.incomplete@.contains(t) <==> (before.contains(t) || t == coord) by {
                                if results.incomplete@.contains(t) && !before.contains(t) {
                                    let k = choose|k: int| 0 <= k < results.incomplete@.len() && results.incomplete@[k] == t;
                                    if k < before.len() {
                                        assert(before[k] == t);
                                    }
                                }
                                if before.contains(t) {
                                    let k = choose|k: int| 0 <= k < before.len() && before[k] == t;
                                    if !before.contains(coord) {
                                        assert(results.incomplete@[k] == t);
                                    }
                                }
                            }
                        }
                    } else {
                        proof {
                            assert(!(self.at(coord) is Notes));
                        }
                    }
                    proof {
                        let y = w + self.grid_cells(self.is_unfilled(), row as nat) + self.row_cells(
                            self.is_unfilled(),
                            row as nat,
                            (col + 1) as nat,
                        );
                        assert(self.is_unfilled()(coord) == self.at(coord) is Notes);
                        if self.at(coord) is Notes {
                            assert(y =~= x.push(coord));
                            assert(x.push(coord).drop_last() =~= x);
                        } else {
                            assert(y =~= x);
                        }
                    }
                    col += 1;
                }
                proof {
                    assert(w + self.grid_cells(self.is_unfilled(), (row + 1) as nat) =~= w + self.grid_cells(
                        self.is_unfilled(),
                        row as nat,
                    ) + self.row_cells(self.is_unfilled(), row as nat, n));
                }
                row += 1;
            }
        }
        proof {
            assert forall|t: Coord| #[trigger] results.incomplete@.contains(t) <==> (solved && in_grid(n, t) && self.at(t) is Notes) by {
                if !solved && results.incomplete@.contains(t) {
                    assert(self.inc_by(solved, self.all_pairs(), t));
                }
            }
        }
        results
    }
}

} // verus!
