use nonogram::codec::DeserializationError;
use nonogram::grid::Grid;

#[test]
fn header_of_a_code_declares_the_dimensions() {
    let code = Grid::<u8>::new(7, 3).serialize_base64();
    assert_eq!(&code[0..8], "BwADAA==");
    let decoded = Grid::<u8>::from_base64(&code).unwrap();
    assert_eq!(decoded.width(), 7);
    assert_eq!(decoded.height(), 3);
}

#[test]
fn input_shorter_than_header_is_a_length_mismatch() {
    assert_eq!(
        Grid::<u8>::from_base64("").unwrap_err(),
        DeserializationError::LengthMismatch
    );
    assert_eq!(
        Grid::<u8>::from_base64("AQABAA=").unwrap_err(),
        DeserializationError::LengthMismatch
    );
}

#[test]
fn unknown_characters_are_an_invalid_encoding() {
    assert_eq!(
        Grid::<u8>::from_base64("!!!!!!!!").unwrap_err(),
        DeserializationError::InvalidEncoding
    );
    assert_eq!(
        Grid::<u8>::from_base64("AQABAA==**").unwrap_err(),
        DeserializationError::InvalidEncoding
    );
}

#[test]
fn header_that_is_not_four_bytes_is_an_invalid_encoding() {
    // eight unpadded characters decode to six bytes, not four
    assert_eq!(
        Grid::<u8>::from_base64("AAAAAAAA").unwrap_err(),
        DeserializationError::InvalidEncoding
    );
}

#[test]
fn body_longer_than_the_dimensions_allow_is_a_length_mismatch() {
    // a 1x1 grid allows at most (1*2/8 + 1)*4/3 + 4 = 5 body characters
    assert_eq!(
        Grid::<u8>::from_base64("AQABAA==AAAAAAAAAAAA").unwrap_err(),
        DeserializationError::LengthMismatch
    );
}

#[test]
fn short_body_leaves_remaining_cells_empty() {
    // a 3x3 grid whose body encodes only one byte: cells 4.. stay 0
    let grid = Grid::<u8>::from_base64("AwADAA==VQ").unwrap();
    assert_eq!(grid.width(), 3);
    assert_eq!(grid.height(), 3);
    // 0x55 unpacks to four cells of value 1
    assert_eq!(grid.get(0, 0), 1);
    assert_eq!(grid.get(0, 1), 1);
    assert_eq!(grid.get(0, 2), 1);
    assert_eq!(grid.get(1, 0), 1);
    assert_eq!(grid.get(1, 1), 0);
    assert_eq!(grid.get(2, 2), 0);
}

#[test]
fn all_two_bit_values_round_trip() {
    let mut cells: Vec<u8> = Vec::new();
    for i in 0..13 * 9 {
        cells.push((i % 4) as u8);
    }
    let grid = Grid::<u8>::from_flat(13, &cells);
    let code = grid.serialize_base64();
    let back = Grid::<u8>::from_base64(&code).unwrap();
    assert_eq!(back, grid);
    for r in 0..9 {
        for c in 0..13 {
            assert_eq!(back.get(r, c), ((r * 13 + c) % 4) as u8);
        }
    }
}

#[test]
fn from_flat_pads_a_partial_last_row() {
    let grid = Grid::<u8>::from_flat(4, &[1, 2, 3, 0, 1]);
    assert_eq!(grid.width(), 4);
    assert_eq!(grid.height(), 2);
    assert_eq!(grid.get(1, 0), 1);
    assert_eq!(grid.get(1, 1), 0);
    assert_eq!(grid.get(1, 3), 0);
}
