use connect_four::board::{add, column_full, just_won, new_board, read_value, Board};

fn board_of(moves: &[(u16, usize)]) -> Board {
    let mut b = new_board();
    for &(player, col) in moves {
        add(&mut b, player, col);
    }
    b
}

#[test]
fn empty_board_columns_open_and_first_append_row_one() {
    let b = new_board();
    for col in 1..=7usize {
        assert!(!column_full(&b, col));
    }
    for col in 1..=7usize {
        let mut c = b.copy();
        let row = add(&mut c, 1, col);
        assert_eq!(row, 1);
        assert_eq!(read_value(&c, col, 1), 1);
    }
}

#[test]
fn copy_is_independent() {
    let b = board_of(&[(1, 4), (2, 4)]);
    let mut c = b.copy();
    assert_eq!(c.columns, b.columns);
    add(&mut c, 1, 4);
    assert_eq!(read_value(&b, 4, 3), 0);
    assert_eq!(read_value(&c, 4, 3), 1);
}

#[test]
fn read_value_matches_base_four_encoding() {
    let b = board_of(&[(1, 1), (2, 1), (2, 3)]);
    assert_eq!(read_value(&b, 1, 1), 1);
    assert_eq!(read_value(&b, 1, 2), 2);
    assert_eq!(read_value(&b, 1, 3), 0);
    assert_eq!(read_value(&b, 2, 1), 0);
    assert_eq!(read_value(&b, 3, 1), 2);
    // row 1 contributes 4^0, row 2 contributes 4^1
    assert_eq!(b.columns[0], 1 + 2 * 4);
    assert_eq!(b.columns[2], 2);
}

#[test]
fn six_appends_fill_a_column_and_a_seventh_is_rejected() {
    let mut b = new_board();
    for i in 0..6usize {
        let player = if i % 2 == 0 { 1 } else { 2 };
        let row = add(&mut b, player, 3);
        assert_eq!(row as usize, i + 1);
        assert_eq!(column_full(&b, 3), i == 5);
    }
    let before = b.columns[2];
    let row = add(&mut b, 1, 3);
    assert_eq!(row, 7);
    assert_eq!(b.columns[2], before);
}

#[test]
fn horizontal_run_of_four_wins() {
    let mut b = board_of(&[(1, 1), (1, 2), (1, 4)]);
    assert!(!just_won(&b, 1, 4));
    add(&mut b, 1, 3);
    assert!(just_won(&b, 1, 3));
    assert!(just_won(&b, 1, 1));
    assert!(just_won(&b, 1, 4));
    assert!(!just_won(&b, 2, 3));
}

#[test]
fn vertical_run_of_four_wins() {
    let mut b = board_of(&[(1, 5), (1, 5), (1, 5)]);
    assert!(!just_won(&b, 1, 5));
    add(&mut b, 1, 5);
    assert!(just_won(&b, 1, 5));
    assert!(!just_won(&b, 2, 5));
}

#[test]
fn rising_diagonal_run_of_four_wins() {
    let mut b = board_of(&[
        (2, 2),
        (2, 3),
        (2, 3),
        (2, 4),
        (2, 4),
        (2, 4),
        (1, 1),
        (1, 2),
        (1, 3),
    ]);
    // three tokens on the diagonal are not yet a win
    assert!(!just_won(&b, 1, 3));
    add(&mut b, 1, 4);
    assert!(just_won(&b, 1, 4));
    assert!(!just_won(&b, 2, 4));
}

#[test]
fn falling_diagonal_run_of_four_wins() {
    let mut b = board_of(&[
        (2, 1),
        (2, 1),
        (2, 1),
        (2, 2),
        (2, 2),
        (2, 3),
        (1, 4),
        (1, 3),
        (1, 2),
    ]);
    assert!(!just_won(&b, 1, 2));
    add(&mut b, 1, 1);
    assert!(just_won(&b, 1, 1));
    assert!(just_won(&b, 1, 4));
    assert!(!just_won(&b, 2, 1));
}

#[test]
fn win_check_looks_at_the_top_token_of_the_column() {
    let mut b = board_of(&[(1, 1), (1, 2), (1, 3), (1, 4)]);
    assert!(just_won(&b, 1, 4));
    // a token dropped on top of the run hides it from the check there
    add(&mut b, 2, 4);
    assert!(!just_won(&b, 1, 4));
    assert!(just_won(&b, 1, 3));
}
