use nonogram::board::Board;
use nonogram::cell::FieldCell;

#[test]
fn new_board_has_default_pattern() {
    let board = Board::new();
    assert_eq!(board.width(), 10);
    assert_eq!(board.hint_len(), 5);
    // i % 3 == 0 || i % 7 == 0 || i % 11 == 0 over the first row
    assert_eq!(board.solution(0, 0), FieldCell::Filled);
    assert_eq!(board.solution(0, 1), FieldCell::Empty);
    assert_eq!(board.solution(0, 2), FieldCell::Empty);
    assert_eq!(board.solution(0, 3), FieldCell::Filled);
    assert_eq!(board.solution(0, 7), FieldCell::Filled);
    // the field starts empty
    for r in 0..10 {
        for c in 0..10 {
            assert_eq!(board.field(r, c), FieldCell::Empty);
        }
    }
}

#[test]
fn row_hints_are_right_aligned_run_lengths() {
    let mut board = Board::new();
    board.resize(5);
    // make row 0 the pattern [Filled, Empty, Filled, Filled, Empty]
    board.set(0, 0, true);
    board.set(0, 1, false);
    board.set(0, 2, true);
    board.set(0, 3, true);
    board.set(0, 4, false);
    // runs [1, 2] right-aligned into (5 + 1) / 2 = 3 slots: [0, 1, 2]
    assert_eq!(board.hint_len(), 3);
    assert_eq!(board.row_hint(0, 0).number, 0);
    assert_eq!(board.row_hint(0, 1).number, 1);
    assert_eq!(board.row_hint(0, 2).number, 2);
}

#[test]
fn col_hints_follow_solution_changes() {
    let mut board = Board::new();
    board.resize(5);
    // clear column 2, then fill its rows 1 and 2 and row 4
    for r in 0..5 {
        board.set(r, 2, false);
    }
    board.set(1, 2, true);
    board.set(2, 2, true);
    board.set(4, 2, true);
    // runs [2, 1] right-aligned into 3 slots: [0, 2, 1]
    assert_eq!(board.col_hint(2, 0).number, 0);
    assert_eq!(board.col_hint(2, 1).number, 2);
    assert_eq!(board.col_hint(2, 2).number, 1);
}

#[test]
fn fill_is_idempotent() {
    let mut board = Board::new();
    assert_eq!(board.field(3, 4), FieldCell::Empty);
    assert!(board.fill(3, 4));
    assert_eq!(board.field(3, 4), FieldCell::Filled);
    assert!(!board.fill(3, 4));
    assert_eq!(board.field(3, 4), FieldCell::Filled);
}

#[test]
fn fill_does_not_overwrite_marks() {
    let mut board = Board::new();
    assert!(board.mark(2, 2));
    assert!(!board.fill(2, 2));
    assert_eq!(board.field(2, 2), FieldCell::Marked);
}

#[test]
fn mark_and_unmark_report_changes() {
    let mut board = Board::new();
    assert!(board.mark(1, 1));
    assert_eq!(board.field(1, 1), FieldCell::Marked);
    assert!(!board.mark(1, 1));
    assert!(board.unmark(1, 1));
    assert_eq!(board.field(1, 1), FieldCell::Empty);
    assert!(!board.unmark(1, 1));
    // unmark leaves a filled cell alone
    assert!(board.fill(1, 1));
    assert!(!board.unmark(1, 1));
    assert_eq!(board.field(1, 1), FieldCell::Filled);
}

#[test]
fn set_reports_solution_changes() {
    let mut board = Board::new();
    // cell (0, 1) starts empty in the default pattern
    assert_eq!(board.solution(0, 1), FieldCell::Empty);
    assert!(board.set(0, 1, true));
    assert_eq!(board.solution(0, 1), FieldCell::Filled);
    assert!(!board.set(0, 1, true));
    assert!(board.set(0, 1, false));
    assert_eq!(board.solution(0, 1), FieldCell::Empty);
}

#[test]
fn resize_preserves_the_overlap() {
    let mut board = Board::new();
    board.set(0, 1, true);
    board.fill(0, 0);
    board.resize(12);
    assert_eq!(board.width(), 12);
    assert_eq!(board.hint_len(), 6);
    assert_eq!(board.solution(0, 1), FieldCell::Filled);
    assert_eq!(board.field(0, 0), FieldCell::Filled);
    assert_eq!(board.solution(11, 11), FieldCell::Empty);
    board.resize(3);
    assert_eq!(board.width(), 3);
    assert_eq!(board.solution(0, 1), FieldCell::Filled);
}

#[test]
fn board_round_trips_through_its_code() {
    let mut board = Board::new();
    board.set(0, 1, true);
    board.set(9, 9, false);
    let code = board.solution_ref().serialize_base64();
    let restored = Board::from_serialized_solution(&code);
    assert_eq!(restored.width(), 10);
    for r in 0..10 {
        for c in 0..10 {
            assert_eq!(restored.solution(r, c), board.solution(r, c));
            assert_eq!(restored.field(r, c), FieldCell::Empty);
        }
    }
}

#[test]
fn unknown_code_falls_back_to_default_board() {
    let board = Board::from_serialized_solution("???");
    assert_eq!(board.width(), 10);
    for r in 0..10 {
        for c in 0..10 {
            assert_eq!(board.solution(r, c), FieldCell::Empty);
            assert_eq!(board.field(r, c), FieldCell::Empty);
        }
    }
}

#[test]
fn non_square_code_falls_back_to_default_board() {
    // a 7x3 grid decodes fine but cannot form a square board
    let board = Board::from_serialized_solution("BwADAA==AAAAAAAA");
    assert_eq!(board.width(), 10);
    for r in 0..10 {
        for c in 0..10 {
            assert_eq!(board.solution(r, c), FieldCell::Empty);
        }
    }
}

#[test]
fn square_code_with_short_body_becomes_the_board() {
    // a 3x3 code whose body encodes a single byte: its four cells are
    // filled, the remaining cells stay empty
    let board = Board::from_serialized_solution("AwADAA==VQ");
    assert_eq!(board.width(), 3);
    assert_eq!(board.solution(0, 0), FieldCell::Filled);
    assert_eq!(board.solution(0, 1), FieldCell::Filled);
    assert_eq!(board.solution(0, 2), FieldCell::Filled);
    assert_eq!(board.solution(1, 0), FieldCell::Filled);
    assert_eq!(board.solution(1, 1), FieldCell::Empty);
    assert_eq!(board.solution(2, 2), FieldCell::Empty);
    // row 0 is one full run; its clue sits in the last of two slots
    assert_eq!(board.hint_len(), 2);
    assert_eq!(board.row_hint(0, 0).number, 0);
    assert_eq!(board.row_hint(0, 1).number, 3);
}

#[test]
fn over_long_body_falls_back_to_default_board() {
    // the 1x1 header allows at most 5 body characters
    let board = Board::from_serialized_solution("AQABAA==AAAAAAAAAAAA");
    assert_eq!(board.width(), 10);
    for r in 0..10 {
        for c in 0..10 {
            assert_eq!(board.solution(r, c), FieldCell::Empty);
        }
    }
}

#[test]
fn starter_code_decodes_to_ten_wide_board() {
    let board =
        Board::from_serialized_solution("CgAKAA==ABAAQAAAAQAEAFRVQRQQVAFBFBBUVQEAAA");
    assert_eq!(board.width(), 10);
    // re-encoding the decoded solution reproduces the code
    assert_eq!(
        board.solution_ref().serialize_base64(),
        "CgAKAA==ABAAQAAAAQAEAFRVQRQQVAFBFBBUVQEAAA"
    );
}
