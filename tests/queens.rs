use rust8queens::queens::QueensState;

#[test]
fn test_contains_only_one_queen() {
    assert_eq!(None, QueensState::contains_only_one_queen(0u8));
    assert_eq!(None, QueensState::contains_only_one_queen(3u8));
    assert_eq!(Some(0), QueensState::contains_only_one_queen(1u8));
    assert_eq!(Some(7), QueensState::contains_only_one_queen(128u8));
}

#[test]
fn test_unique_rows() {
    let s = QueensState { d: [3u8, 1u8, 2u8, 5u8, 9u8, 10u8, 3u8, 3u8] };
    let u = QueensState::rows_with_one_queen(&s);
    assert_eq!(vec![0, 1], u);
}

#[test]
fn test_is_valid_empty() {
    let s = QueensState { d: [0u8, 0u8, 0u8, 0u8, 0u8, 0u8, 0u8, 0u8] };
    assert_eq!(true, s.is_valid());
}

#[test]
fn test_is_valid_row() {
    let s = QueensState { d: [0u8, 129u8, 0u8, 0u8, 0u8, 0u8, 0u8, 0u8] };
    assert_eq!(false, s.is_valid());
}

#[test]
fn test_is_valid_column() {
    let s = QueensState { d: [1u8, 1u8, 0u8, 0u8, 0u8, 0u8, 0u8, 0u8] };
    assert_eq!(false, s.is_valid());
}

#[test]
fn test_is_valid_main_diag() {
    let s = QueensState { d: [4u8, 0u8, 16u8, 0u8, 0u8, 0u8, 0u8, 0u8] };
    assert_eq!(false, s.is_valid());
}

#[test]
fn test_is_valid_other_diag() {
    let s = QueensState { d: [0u8, 0u8, 0u8, 0u8, 0u8, 16u8, 0u8, 4u8] };
    assert_eq!(false, s.is_valid());
}

#[test]
fn test_is_valid_solution() {
    let s = QueensState { d: [1u8, 16u8, 128u8, 32u8, 4u8, 64u8, 2u8, 8u8] };
    assert_eq!(true, s.is_valid());
}

#[test]
fn queens_test_split() {
    let s = QueensState { d: [0u8, 0u8, 0u8, 0u8, 0u8, 17u8, 0u8, 4u8] };
    let h = s.split();
    assert_eq!(2, h.len());
    assert_eq!([0u8, 0u8, 0u8, 0u8, 0u8, 16u8, 0u8, 4u8], h[1].d);

    assert_eq!([0u8, 0u8, 0u8, 0u8, 0u8, 1u8, 0u8, 4u8], h[0].d);
}

#[test]
fn queens_split_clears_column_below() {
    let s = QueensState { d: [1u8, 3u8, 255u8, 0u8, 0u8, 0u8, 0u8, 0u8] };
    let h = s.split();
    assert_eq!(2, h.len());
    assert_eq!([1u8, 1u8, 254u8, 0u8, 0u8, 0u8, 0u8, 0u8], h[0].d);
    assert_eq!([1u8, 2u8, 253u8, 0u8, 0u8, 0u8, 0u8, 0u8], h[1].d);
}

#[test]
fn queens_split_decided_board_has_no_children() {
    let s = QueensState { d: [1u8, 16u8, 128u8, 32u8, 4u8, 64u8, 2u8, 8u8] };
    assert_eq!(0, s.split().len());
}

#[test]
fn queens_init_and_two_in_a_row() {
    let s = QueensState::init();
    assert_eq!([255u8; 8], s.d);
    assert_eq!(true, s.has_two_queens_in_any_row());
    assert_eq!(false, s.is_valid());
    let t = QueensState { d: [0u8, 4u8, 0u8, 0u8, 0u8, 0u8, 0u8, 0u8] };
    assert_eq!(false, t.has_two_queens_in_any_row());
    assert_eq!(vec![2], t.rows_with_one_queen());
}
