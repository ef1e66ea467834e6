use sudoku_gen::{Board, BoardKind, BoardSize, Coord, IrregularMap, IrregularMapError, RegionKind};

#[test]
fn grid_index_valid() {
    let size = BoardSize::X9;
    let kind = BoardKind::Regular;
    let index = kind.index(&size, Coord { row: 5, col: 7 });
    assert_eq!(index, Some(5));

    let size = BoardSize::X4;
    let kind = BoardKind::Irregular {
        map: IrregularMap::new(vec![
            vec![0, 0, 1, 1],
            vec![0, 0, 1, 1],
            vec![2, 2, 3, 3],
            vec![2, 2, 3, 3],
        ])
        .unwrap(),
    };
    let index = kind.index(&size, Coord { row: 2, col: 3 });
    assert_eq!(index, Some(3));
}

#[test]
fn grid_index_invalid() {
    let size = BoardSize::X9;
    let kind = BoardKind::Regular;
    let index = kind.index(&size, Coord { row: 9, col: 8 });
    assert_eq!(index, None);
    let index = kind.index(&size, Coord { row: 8, col: 9 });
    assert_eq!(index, None);

    let size = BoardSize::X4;
    let kind = BoardKind::Irregular {
        map: IrregularMap::generate(&size).unwrap(),
    };
    let max_cells = size.max_cells() as usize;
    let index = kind.index(
        &size,
        Coord {
            row: max_cells,
            col: 0,
        },
    );
    assert_eq!(index, None);
    let index = kind.index(
        &size,
        Coord {
            row: 0,
            col: max_cells,
        },
    );
    assert_eq!(index, None);
}

#[test]
fn grid_siblings() {
    let size = BoardSize::X9;
    let kind = BoardKind::Regular;
    let siblings = kind.siblings(&size, Coord { row: 5, col: 7 });
    assert_eq!(siblings.len(), 8);
    assert!(siblings.contains(&Coord { row: 5, col: 6 }));
    assert!(siblings.contains(&Coord { row: 4, col: 7 }));
    assert!(siblings.contains(&Coord { row: 3, col: 6 }));
}

#[test]
fn members_of_regular_region() {
    let kind = BoardKind::Regular;
    let members = kind.members(&BoardSize::X6, 3);
    assert_eq!(
        members,
        vec![
            Coord { row: 2, col: 3 },
            Coord { row: 2, col: 4 },
            Coord { row: 2, col: 5 },
            Coord { row: 3, col: 3 },
            Coord { row: 3, col: 4 },
            Coord { row: 3, col: 5 },
        ]
    );
    assert!(kind.members(&BoardSize::X6, 6).is_empty());
}

#[test]
fn test_related_regions() {
    let board = Board::new(&BoardSize::X4, RegionKind::Regular);
    let max_cells = board.size.max_cells() as usize;

    // test row out of bounds
    let invalid_coord = Coord {
        row: max_cells,
        ..Default::default()
    };
    let regions = board.related_regions(invalid_coord);
    assert!(regions.is_empty());

    // test column out of bounds
    let invalid_coord = Coord {
        col: max_cells,
        ..Default::default()
    };
    let regions = board.related_regions(invalid_coord);
    assert!(regions.is_empty());

    // test valid coordinate
    let origin = Coord::default(); // (0,0)
    let regions = board.related_regions(origin);
    assert_eq!(regions.len(), 3);
    // expected regions (related to origin) for a 4x4 regular board are regions 0-2
    let expected = vec![
        board.kind.members(&board.size, 0),
        board.kind.members(&board.size, 1),
        board.kind.members(&board.size, 2),
    ];
    for (region, members) in regions {
        assert_eq!(expected[region as usize], members);
    }
}

#[test]
fn irregular_map_errors() {
    assert_eq!(
        IrregularMap::new(vec![vec![0, 0, 1], vec![0, 0, 1], vec![2, 2, 3]]),
        Err(IrregularMapError::InvalidMapDimensions)
    );
    assert_eq!(
        IrregularMap::new(vec![
            vec![0, 0, 1, 1],
            vec![0, 0, 1, 1],
            vec![2, 2, 3, 3],
            vec![2, 2, 3, 4],
        ]),
        Err(IrregularMapError::InvalidRegionIndex)
    );
    assert_eq!(
        IrregularMap::new(vec![
            vec![0, 0, 1, 1],
            vec![0, 0, 1, 1],
            vec![2, 2, 3, 3],
            vec![2, 2, 2, 2],
        ]),
        Err(IrregularMapError::UnbalancedRegion)
    );
    assert_eq!(
        IrregularMap::new(vec![
            vec![0, 0, 0, 1],
            vec![0, 3, 1, 1],
            vec![3, 2, 1, 2],
            vec![3, 2, 2, 3],
        ]),
        Err(IrregularMapError::NonContiguousRegion)
    );
    assert!(IrregularMap::new(vec![
        vec![0, 0, 0, 1],
        vec![0, 3, 3, 1],
        vec![2, 3, 3, 1],
        vec![2, 2, 2, 1],
    ])
    .is_ok());
}

#[test]
fn irregular_map_generate_sizes() {
    for size in [BoardSize::X4, BoardSize::X6, BoardSize::X9, BoardSize::X12, BoardSize::X16] {
        let map = IrregularMap::generate(&size).unwrap();
        let kind = BoardKind::Irregular { map };
        let n = size.max_cells();
        for region in 0..n {
            assert_eq!(kind.members(&size, region).len(), n as usize);
        }
    }
}

#[test]
fn related_regions_hold_the_cell_region() {
    let map = IrregularMap::new(vec![
        vec![0, 3, 3, 3],
        vec![0, 0, 1, 3],
        vec![2, 0, 1, 1],
        vec![2, 2, 2, 1],
    ])
    .unwrap();
    let board = Board::new(&BoardSize::X4, RegionKind::Irregular { map });
    // the first cell is not walked, but the cell below it is in its region
    let regions = board.related_regions(Coord { row: 0, col: 0 });
    assert!(regions.contains_key(&0));
    for row in 0..4 {
        for col in 0..4 {
            let coord = Coord { row, col };
            let own = board.kind.index(&board.size, coord).unwrap();
            assert!(board.related_regions(coord).contains_key(&own));
        }
    }
}

#[test]
fn related_regions_cover_the_whole_row_and_column() {
    let board = Board::new(
        &BoardSize::X4,
        RegionKind::Irregular { map: IrregularMap::new(vec![vec![0, 1, 2, 3]; 4]).unwrap() },
    );
    let regions = board.related_regions(Coord { row: 2, col: 3 });
    assert_eq!(regions.keys().copied().collect::<Vec<u8>>(), vec![0, 1, 2, 3]);
    for (k, members) in regions {
        assert_eq!(members, board.kind.members(&board.size, k));
    }
}

#[test]
fn map_with_too_few_rows_is_rejected() {
    assert_eq!(
        IrregularMap::new(vec![vec![0, 1, 2, 3, 4, 5, 6, 7, 8]; 8]),
        Err(IrregularMapError::InvalidMapDimensions)
    );
}

#[test]
fn siblings_are_the_members_without_the_cell() {
    let size = BoardSize::X6;
    let kind = RegionKind::Regular;
    let coord = Coord { row: 3, col: 4 };
    let index = kind.index(&size, coord).unwrap();
    let expected: Vec<Coord> = kind.members(&size, index).into_iter().filter(|c| *c != coord).collect();
    assert_eq!(kind.siblings(&size, coord), expected);
}
