use nonogram::grid::Grid;

#[test]
fn empty_grid_serializes_without_panic() {
    let _ = Grid::<u8>::new(0, 0).serialize_base64();
    let _ = Grid::<u8>::new(7, 7).serialize_base64();
    let _ = Grid::<u8>::new(7, 0).serialize_base64();
    let _ = Grid::<u8>::new(0, 7).serialize_base64();
    let _ = Grid::<u8>::new(1000, 1000).serialize_base64();
}

#[test]
fn nullsize_grid_serializes_correctly() {
    let serialized = Grid::<u8>::new(0, 0).serialize_base64();
    assert_eq!(serialized, "AAAAAA==");
}

#[test]
fn empty_grid_serializes_correctly() {
    let serialized = Grid::<u8>::new(7, 3).serialize_base64();
    assert_eq!(serialized, "BwADAA==AAAAAAAA");
}

#[test]
fn single_cell_grid_serializes_correctly() {
    let serialized = Grid::<u8>::from_flat(1, &[0]).serialize_base64();
    assert_eq!(serialized, "AQABAA==AA");
    let serialized = Grid::<u8>::from_flat(1, &[1]).serialize_base64();
    assert_eq!(serialized, "AQABAA==AQ");
    let serialized = Grid::<u8>::from_flat(1, &[2]).serialize_base64();
    assert_eq!(serialized, "AQABAA==Ag");
    let serialized = Grid::<u8>::from_flat(1, &[3]).serialize_base64();
    assert_eq!(serialized, "AQABAA==Aw");
}

#[test]
fn four_cell_horizontal_grid_serializes_correctly() {
    let serialized = Grid::<u8>::from_flat(4, &[0; 4]).serialize_base64();
    assert_eq!(serialized, "BAABAA==AA");
    let serialized = Grid::<u8>::from_flat(4, &[3; 4]).serialize_base64();
    assert_eq!(serialized, "BAABAA==_w");
    let serialized = Grid::<u8>::from_flat(4, &[0, 0, 0, 1]).serialize_base64();
    assert_eq!(serialized, "BAABAA==QA");
    let serialized = Grid::<u8>::from_flat(4, &[0, 1, 2, 3]).serialize_base64();
    assert_eq!(serialized, "BAABAA==5A");
}

#[test]
fn four_cell_vertical_grid_serializes_correctly() {
    let serialized = Grid::<u8>::from_flat(1, &[0; 4]).serialize_base64();
    assert_eq!(serialized, "AQAEAA==AA");
    let serialized = Grid::<u8>::from_flat(1, &[3; 4]).serialize_base64();
    assert_eq!(serialized, "AQAEAA==_w");
    let serialized = Grid::<u8>::from_flat(1, &[0, 0, 0, 1]).serialize_base64();
    assert_eq!(serialized, "AQAEAA==QA");
    let serialized = Grid::<u8>::from_flat(1, &[0, 1, 2, 3]).serialize_base64();
    assert_eq!(serialized, "AQAEAA==5A");
}

#[test]
fn four_cell_square_grid_serializes_correctly() {
    let serialized = Grid::<u8>::from_flat(2, &[0; 4]).serialize_base64();
    assert_eq!(serialized, "AgACAA==AA");
    let serialized = Grid::<u8>::from_flat(2, &[3; 4]).serialize_base64();
    assert_eq!(serialized, "AgACAA==_w");
    let serialized = Grid::<u8>::from_flat(2, &[0, 0, 0, 1]).serialize_base64();
    assert_eq!(serialized, "AgACAA==QA");
    let serialized = Grid::<u8>::from_flat(2, &[0, 1, 2, 3]).serialize_base64();
    assert_eq!(serialized, "AgACAA==5A");
}

#[test]
fn nullsize_grid_deserializes_correctly() {
    let grid = Grid::<u8>::from_base64("AAAAAA==").unwrap();
    assert_eq!(grid.width(), 0);
    assert_eq!(grid.height(), 0);
}

#[test]
fn empty_grid_deserializes_correctly() {
    let serialized = "BwADAA==AAAAAAAA";
    let grid = Grid::<u8>::from_base64(serialized).unwrap();
    assert_eq!(grid.width(), 7);
    assert_eq!(grid.height(), 3);
    for row in 0..3 {
        for col in 0..7 {
            assert_eq!(grid.get(row, col), 0);
        }
    }
}

#[test]
fn four_cell_horizontal_grid_deserializes_correctly() {
    let grid = Grid::<u8>::from_base64("BAABAA==AA").unwrap();
    for col in 0..4 {
        assert!(grid.get(0, col) == 0);
    }
    let grid = Grid::<u8>::from_base64("BAABAA==_w").unwrap();
    for col in 0..4 {
        assert_eq!(grid.get(0, col), 3);
    }
    let grid = Grid::<u8>::from_base64("BAABAA==QA").unwrap();
    for (col, &val) in [0, 0, 0, 1].iter().enumerate() {
        assert_eq!(grid.get(0, col), val);
    }
    let grid = Grid::<u8>::from_base64("BAABAA==5A").unwrap();
    for (col, &val) in [0, 1, 2, 3].iter().enumerate() {
        assert_eq!(grid.get(0, col), val);
    }
}

#[test]
fn example_grid_should_reproduce_after_serialization_and_deserialization() {
    let width = 1000;
    let height = width;
    let mut cells: Vec<u8> = Vec::new();
    for i in 0..width * height {
        if i % 77 == 0 {
            cells.push(2);
        } else if i % 3 == 0 || i % 7 == 0 || i % 11 == 0 {
            cells.push(1);
        } else {
            cells.push(0);
        }
    }
    let grid = Grid::<u8>::from_flat(width, &cells);
    assert_eq!(grid, Grid::<u8>::from_base64(&grid.serialize_base64()).unwrap());
}
