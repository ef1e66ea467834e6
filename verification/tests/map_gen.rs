use sudoku_gen::map_gen::RegionMap;
use sudoku_gen::{BoardSize, Coord, IrregularMap, IrregularMapError};

fn generate(size: BoardSize) {
    let max_cells = size.max_cells();
    let iterations = (max_cells as u32).pow(3 as u32).min(1000);
    let mut map = RegionMap::new(&size);
    map.generate(iterations).unwrap();
    map.is_valid().unwrap();
    println!("Valid {max_cells}x{max_cells} map generated using {iterations} iterations");
}

#[test]
fn generate_4x4() {
    generate(BoardSize::X4);
}

#[test]
fn generate_6x6() {
    generate(BoardSize::X6);
}

#[test]
fn generate_9x9() {
    generate(BoardSize::X9);
}

#[test]
fn generate_12x12() {
    generate(BoardSize::X12);
}

#[test]
fn generate_16x16() {
    generate(BoardSize::X16);
}

#[test]
fn map_bad_rows() {
    let mut map = RegionMap::new(&BoardSize::X4);
    // manually create an invalid map with wrong number of rows
    map.regions = vec![vec![0, 0, 1], vec![0, 0, 1], vec![2, 2, 3]];
    assert_eq!(map.is_valid(), Err(IrregularMapError::InvalidMapDimensions));
}

#[test]
fn map_bad_cols() {
    let mut map = RegionMap::new(&BoardSize::X4);
    // manually create an invalid map with wrong number of columns
    map.regions = vec![
        vec![0, 0, 1, 1],
        vec![0, 0, 1, 1],
        vec![2, 2, 3, 3],
        vec![2, 2, 3],
    ];
    assert_eq!(map.is_valid(), Err(IrregularMapError::InvalidMapDimensions));
}

#[test]
fn map_bad_region_index() {
    let mut map = RegionMap::new(&BoardSize::X4);
    // manually create an invalid map with out-of-bounds region index
    map.regions = vec![
        vec![0, 0, 1, 1],
        vec![0, 0, 1, 1],
        vec![2, 2, 3, 3],
        vec![2, 2, 3, 4],
    ];
    assert_eq!(map.is_valid(), Err(IrregularMapError::InvalidRegionIndex));
}

#[test]
fn map_bad_region_count() {
    let mut map = RegionMap::new(&BoardSize::X4);
    // manually create an invalid map with wrong number of cells per region
    map.regions = vec![
        vec![0, 0, 1, 1],
        vec![0, 0, 1, 1],
        vec![2, 2, 3, 3],
        vec![2, 2, 2, 2],
    ];
    assert_eq!(map.is_valid(), Err(IrregularMapError::UnbalancedRegion));
}

#[test]
fn map_non_contiguous_regions() {
    let mut map = RegionMap::new(&BoardSize::X4);
    // manually create a non-contiguous region
    let non_continuous_map = vec![
        vec![0, 0, 0, 1],
        vec![0, 3, 1, 1],
        vec![3, 2, 1, 2],
        vec![3, 2, 2, 3],
    ];
    map.regions = non_continuous_map.clone();
    assert_eq!(map.is_valid(), Err(IrregularMapError::NonContiguousRegion));
    assert!(map.check_contiguity(0));
    assert!(map.check_contiguity(1));
    assert!(!map.check_contiguity(2));
    assert!(!map.check_contiguity(3));

    // try to swap a cell from region 0 with a cell from region 1
    let cell1 = Coord { row: 3, col: 2 }; // region 0
    let cell2 = Coord { row: 3, col: 3 }; // region 1
    assert!(!map.try_swap_cells(&(2, 3), cell1, cell2));
    // swapping with invalid region indexes
    assert!(!map.try_swap_cells(&(2, 2), cell1, cell2));
    // swapping with out-of-bounds coordinates
    assert!(!map.try_swap_cells(&(2, 3), cell1, Coord { row: 4, col: 3 }));
    assert!(!map.try_swap_cells(&(2, 3), cell1, Coord { row: 3, col: 4 }));
    // regions should be unchanged
    assert_eq!(map.regions, non_continuous_map);
}

#[test]
fn regular_map_is_valid() {
    for size in [BoardSize::X4, BoardSize::X6, BoardSize::X9, BoardSize::X12, BoardSize::X16] {
        let map = RegionMap::new(&size);
        assert_eq!(map.is_valid(), Ok(()));
    }
    let map = RegionMap::new(&BoardSize::X6);
    assert_eq!(map.regions[0], vec![0, 0, 0, 1, 1, 1]);
    assert_eq!(map.regions[2], vec![2, 2, 2, 3, 3, 3]);
}

#[test]
fn swap_that_keeps_regions_contiguous() {
    let mut map = RegionMap::new(&BoardSize::X4);
    // region 0 is the top-left 2x2 block and region 1 the top-right one
    assert!(!map.try_swap_cells(&(0, 1), Coord { row: 0, col: 1 }, Coord { row: 0, col: 2 }));
    assert_eq!(map.regions[0], vec![0, 0, 1, 1]);
    assert!(map.try_swap_cells(&(0, 1), Coord { row: 0, col: 1 }, Coord { row: 1, col: 2 }));
    assert_eq!(map.regions[0], vec![0, 1, 1, 1]);
    assert_eq!(map.regions[1], vec![0, 0, 0, 1]);
    assert_eq!(map.is_valid(), Ok(()));
}

#[test]
fn irregular_map_generate_always_succeeds() {
    for size in [BoardSize::X4, BoardSize::X6, BoardSize::X9, BoardSize::X12, BoardSize::X16] {
        assert!(IrregularMap::generate(&size).is_ok());
    }
}

#[test]
fn region_map_text() {
    let map = RegionMap::new(&BoardSize::X4);
    assert_eq!(map.display(), "0 0 1 1\n0 0 1 1\n2 2 3 3\n2 2 3 3\n");
    let mut wide = RegionMap::new(&BoardSize::X4);
    wide.regions = vec![vec![10, 255]];
    assert_eq!(wide.display(), "A FF\n");
}

#[test]
fn new_accepts_the_rows_of_a_generated_map() {
    let mut map = RegionMap::new(&BoardSize::X6);
    map.generate(36).unwrap();
    let first = IrregularMap::new(map.regions.clone()).unwrap();
    let again = IrregularMap::new(map.regions.clone()).unwrap();
    assert_eq!(first, again);
}

#[test]
fn generated_maps_round_trip_through_new() {
    for size in [BoardSize::X4, BoardSize::X6, BoardSize::X9, BoardSize::X12, BoardSize::X16] {
        let map = IrregularMap::generate(&size).unwrap();
        let rows = map.rows();
        let n = size.max_cells() as usize;
        assert_eq!(rows.len(), n);
        assert!(rows.iter().all(|row| row.len() == n));
        assert_eq!(IrregularMap::new(rows), Ok(map));
    }
}
