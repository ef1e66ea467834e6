//! The regions that share a row or a column with a cell.
use std::collections::BTreeMap;
use crate::board::Board;
use crate::cell::{Cardinal, Coord, CoordWalker};
use crate::region::in_grid;
use vstd::prelude::*;

verus! {

broadcast use vstd::std_specs::btree::group_btree_axioms;

/// The cells of the row and of the column of `coord`.
pub open spec fn walked(n: nat, coord: Coord, c: Coord) -> bool {
    ||| (c.row == coord.row && 0 <= c.col < n)
    ||| (c.col == coord.col && 0 <= c.row < n)
}

impl Board {
    /// The regions that [`Board::related_regions()`] reports for `coord`.
    pub open spec fn related_region_ids(&self, coord: Coord) -> Set<u8> {
        Set::new(|k: u8| exists|c: Coord| #[trigger] walked(self.n(), coord, c) && self.kind.index_of(self.size, c) == Some(k))
    }

    /// Record, for every cell that `walker` visits, its region and the members
    /// of that region.
    fn walk_regions(&self, walker: &mut CoordWalker, regions: &mut BTreeMap<u8, Vec<Coord>>, Ghost(coord): Ghost<Coord>)
        requires
            self.wf(),
            in_grid(self.n(), coord),
            old(walker).max_index == self.n() - 1,
            (old(walker).direction == Cardinal::East && old(walker).origin.row == coord.row && old(walker).origin.col == 0)
                || (old(walker).direction == Cardinal::South && old(walker).origin.col == coord.col && old(walker).origin.row == 0),
            forall|k: u8| #[trigger] old(regions)@.contains_key(k) ==> old(regions)@[k]@ == self.kind.member_seq(self.size, k as int),
        ensures
            forall|k: u8| #[trigger] final(regions)@.contains_key(k) ==> final(regions)@[k]@ == self.kind.member_seq(self.size, k as int),
            forall|k: u8| #[trigger] final(regions)@.contains_key(k) <==> (old(regions)@.contains_key(k) || exists|c: Coord|
                #[trigger] self.kind.index_of(self.size, c) == Some(k) && (if old(walker).direction == Cardinal::East {
                    c.row == coord.row && 0 <= c.col < self.n()
                } else {
                    c.col == coord.col && 0 <= c.row < self.n()
                })),
    {
        let ghost n = self.n();
        let ghost east = walker.direction == Cardinal::East;
        let ghost start = *old(regions);
        let first = walker.origin;
        match self.kind.index(&self.size, first) {
            Some(r) => {
                if !regions.contains_key(&r) {
                    let members = self.kind.members(&self.size, r);
                    regions.insert(r, members);
                }
            },
            None => {},
        }
        proof {
            assert(in_grid(n, first));
            assert forall|k: u8| #[trigger] regions@.contains_key(k) <==> (start@.contains_key(k) || exists|c: Coord|
                #[trigger] self.kind.index_of(self.size, c) == Some(k) && (if east {
                    c.row == coord.row && 0 <= c.col <= walker.origin.col
                } else {
                    c.col == coord.col && 0 <= c.row <= walker.origin.row
                })) by {
                if self.kind.index_of(self.size, first) == Some(k) {
                    assert(if east {
                        first.row == coord.row && 0 <= first.col <= walker.origin.col
                    } else {
                        first.col == coord.col && 0 <= first.row <= walker.origin.row
                    });
                }
                if exists|c: Coord| #[trigger] self.kind.index_of(self.size, c) == Some(k) && (if east {
                    c.row == coord.row && 0 <= c.col <= walker.origin.col
                } else {
                    c.col == coord.col && 0 <= c.row <= walker.origin.row
                }) {
                    let c = choose|c: Coord| #[trigger] self.kind.index_of(self.size, c) == Some(k) && (if east {
                        c.row == coord.row && 0 <= c.col <= walker.origin.col
                    } else {
                        c.col == coord.col && 0 <= c.row <= walker.origin.row
                    });
                    assert(c == first);
                }
            }
        }
        loop
            invariant
                self.wf(),
                n == self.n(),
                in_grid(n, coord),
                walker.max_index == n - 1,
                walker.direction == old(walker).direction,
                east == (old(walker).direction == Cardinal::East),
                east ==> walker.direction == Cardinal::East && walker.origin.row == coord.row && walker.origin.col < n,
                !east ==> walker.direction == Cardinal::South && walker.origin.col == coord.col && walker.origin.row < n,
                start == *old(regions),
                forall|k: u8| #[trigger] start@.contains_key(k) ==> start@[k]@ == self.kind.member_seq(self.size, k as int),
                forall|k: u8| #[trigger] regions@.contains_key(k) ==> regions@[k]@ == self.kind.member_seq(self.size, k as int),
                forall|k: u8| #[trigger] regions@.contains_key(k) <==> (start@.contains_key(k) || exists|c: Coord|
                    #[trigger] self.kind.index_of(self.size, c) == Some(k) && (if east {
                        c.row == coord.row && 0 <= c.col <= walker.origin.col
                    } else {
                        c.col == coord.col && 0 <= c.row <= walker.origin.row
                    })),
            ensures
                forall|k: u8| #[trigger] regions@.contains_key(k) ==> regions@[k]@ == self.kind.member_seq(self.size, k as int),
                forall|k: u8| #[trigger] regions@.contains_key(k) <==> (start@.contains_key(k) || exists|d: Coord|
                    #[trigger] self.kind.index_of(self.size, d) == Some(k) && (if east {
                        d.row == coord.row && 0 <= d.col < n
                    } else {
                        d.col == coord.col && 0 <= d.row < n
                    })),
            decreases if east { n - walker.origin.col } else { n - walker.origin.row },
        {
            let ghost o = walker.origin;
            match walker.next() {
                Some(c) => {
                    let reg = self.kind.index(&self.size, c);
                    match reg {
                        Some(r) => {
                            if !regions.contains_key(&r) {
                                let members = self.kind.members(&self.size, r);
                                regions.insert(r, members);
                            }
                        },
                        None => {},
                    }
                    proof {
                        assert(in_grid(n, c));
                        assert forall|k: u8| #[trigger] regions@.contains_key(k) <==> (start@.contains_key(k) || exists|d: Coord|
                            #[trigger] self.kind.index_of(self.size, d) == Some(k) && (if east {
                                d.row == coord.row && 0 <= d.col <= walker.origin.col
                            } else {
                                d.col == coord.col && 0 <= d.row <= walker.origin.row
                            })) by {
                            if self.kind.index_of(self.size, c) == Some(k) {
                                assert(if east {
                                    c.row == coord.row && 0 <= c.col <= walker.origin.col
                                } else {
                                    c.col == coord.col && 0 <= c.row <= walker.origin.row
                                });
                            }
                        }
                    }
                },
                None => {
                    proof {
                        assert forall|k: u8| #[trigger] regions@.contains_key(k) <==> (start@.contains_key(k) || exists|d: Coord|
                            #[trigger] self.kind.index_of(self.size, d) == Some(k) && (if east {
                                d.row == coord.row && 0 <= d.col < n
                            } else {
                                d.col == coord.col && 0 <= d.row < n
                            })) by {
                            if exists|d: Coord| #[trigger] self.kind.index_of(self.size, d) == Some(k) && (if east {
                                d.row == coord.row && 0 <= d.col < n
                            } else {
                                d.col == coord.col && 0 <= d.row < n
                            }) {
                                let d = choose|d: Coord| #[trigger] self.kind.index_of(self.size, d) == Some(k) && (if east {
                                    d.row == coord.row && 0 <= d.col < n
                                } else {
                                    d.col == coord.col && 0 <= d.row < n
                                });
                                assert(if east {
                                    d.row == coord.row && 0 <= d.col <= o.col
                                } else {
                                    d.col == coord.col && 0 <= d.row <= o.row
                                });
                            }
                        }
                    }
                    break;
                },
            }
        }
    }

    /// Find all regions related to the given coordinate.
    ///
    /// Includes the region that contains the given coordinate, as well as any
    /// regions that share the same row or column.
    ///
    /// Returns a map of region index to the list of coordinates that belong to that region.
    /// If the given coordinate is out of bounds, then an empty map is returned.
    pub fn related_regions(&self, coord: Coord) -> (r: BTreeMap<u8, Vec<Coord>>)
        requires
            self.wf(),
        ensures
            !in_grid(self.n(), coord) ==> r@ == Map::<u8, Vec<Coord>>::empty(),
            in_grid(self.n(), coord) ==> forall|k: u8| #[trigger] r@.contains_key(k) <==> self.related_region_ids(coord).contains(k),
            forall|k: u8| #[trigger] r@.contains_key(k) ==> r@[k]@ == self.kind.member_seq(self.size, k as int),
            in_grid(self.n(), coord) ==> r@.contains_key(self.kind.region_at(self.size, coord) as u8),
    {
        let mut regions: BTreeMap<u8, Vec<Coord>> = BTreeMap::new();
        let max_cells = self.size.max_cells() as usize - 1;
        if coord.row > max_cells || coord.col > max_cells {
            return regions;
        }
        let mut row_walker = CoordWalker::new(Coord { row: coord.row, col: 0 }, Cardinal::East, max_cells);
        self.walk_regions(&mut row_walker, &mut regions, Ghost(coord));
        let mut col_walker = CoordWalker::new(Coord { row: 0, col: coord.col }, Cardinal::South, max_cells);
        self.walk_regions(&mut col_walker, &mut regions, Ghost(coord));
        proof {
            assert forall|k: u8| #[trigger] regions@.contains_key(k) <==> self.related_region_ids(coord).contains(k) by {
                if self.related_region_ids(coord).contains(k) {
                    let c = choose|c: Coord| #[trigger] walked(self.n(), coord, c) && self.kind.index_of(self.size, c) == Some(k);
                }
                if regions@.contains_key(k) {
                    if exists|c: Coord| #[trigger] self.kind.index_of(self.size, c) == Some(k) && c.row == coord.row && 0 <= c.col < self.n() {
                        let c = choose|c: Coord| #[trigger] self.kind.index_of(self.size, c) == Some(k) && c.row == coord.row && 0 <= c.col < self.n();
                        assert(walked(self.n(), coord, c));
                    } else {
                        let c = choose|c: Coord| #[trigger] self.kind.index_of(self.size, c) == Some(k) && c.col == coord.col && 0 <= c.row < self.n();
                        assert(walked(self.n(), coord, c));
                    }
                }
            }
            self.lemma_own_region_walked(coord);
        }
        regions
    }

    /// The region of an in-grid cell is among those of its row.
    proof fn lemma_own_region_walked(&self, coord: Coord)
        requires
            self.wf(),
            in_grid(self.n(), coord),
        ensures
            self.related_region_ids(coord).contains(self.kind.region_at(self.size, coord) as u8),
    {
        let k = self.kind.region_at(self.size, coord) as u8;
        self.kind.lemma_region_bound(self.size, coord);
        assert(walked(self.n(), coord, coord));
        assert(self.kind.index_of(self.size, coord) == Some(k));
    }
}

} // verus!
