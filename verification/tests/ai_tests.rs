use connect_four::ai::{can_i_win_in, can_opp_win_in, estimate_score, play};
use connect_four::board::{add, column_full, new_board, Board};

fn board_of(moves: &[(u16, usize)]) -> Board {
    let mut b = new_board();
    for &(player, col) in moves {
        add(&mut b, player, col);
    }
    b
}

fn fill_column(b: &mut Board, col: usize) {
    for i in 0..6usize {
        let player = if i == 2 || i == 3 { 2 } else { 1 };
        add(b, player, col);
    }
}

#[test]
fn search_at_depth_zero_checks_the_played_column() {
    let b = board_of(&[(1, 1), (1, 2), (1, 3), (1, 4)]);
    assert!(can_i_win_in(0, 1, &b, 4));
    assert!(!can_i_win_in(0, 2, &b, 4));
    assert!(!can_i_win_in(0, 1, &b, 6));
    assert!(!can_opp_win_in(0, 1, &b));
}

#[test]
fn open_three_is_a_one_ply_opponent_threat() {
    // player 2 holds columns 3..5 of row 1 with both ends open
    let b = board_of(&[(2, 3), (2, 4), (2, 5), (1, 1), (1, 7)]);
    assert!(can_opp_win_in(1, 1, &b));
    assert!(!can_opp_win_in(1, 2, &b));
}

#[test]
fn estimate_score_is_zero_exactly_on_full_columns() {
    let mut b = board_of(&[(1, 5)]);
    fill_column(&mut b, 2);
    assert_eq!(estimate_score(2, 1, &b, 3), 0);
    assert_eq!(estimate_score(2, 2, &b, 3), 0);
    assert!(estimate_score(1, 1, &b, 3) > 0);
}

#[test]
fn completing_a_run_of_four_scores_the_top_sentinel() {
    // player 1 holds columns 1..3 of row 1; column 4 completes the run
    let b = board_of(&[(1, 1), (1, 2), (1, 3), (2, 6), (2, 7), (2, 7)]);
    assert_eq!(estimate_score(4, 1, &b, 5), usize::MAX);
    let side = estimate_score(5, 1, &b, 2);
    assert_ne!(side, usize::MAX);
    assert_ne!(side, 0);
}

#[test]
fn unavoidable_loss_on_the_next_move_scores_one() {
    // player 2 holds columns 3..5 of row 1 with both row ends open: after
    // any reply by player 1, player 2 completes the run at 2 or at 6
    let b = board_of(&[(2, 3), (2, 4), (2, 5), (1, 1), (1, 7)]);
    assert_eq!(estimate_score(1, 1, &b, 3), 1);
    assert_eq!(estimate_score(7, 1, &b, 3), 1);
}

#[test]
fn center_column_outscores_the_edges_on_an_empty_board() {
    let b = new_board();
    let center = estimate_score(4, 1, &b, 5);
    let left = estimate_score(1, 1, &b, 5);
    let right = estimate_score(7, 1, &b, 5);
    assert!(center > left);
    assert!(center > right);
    // seven length-4 windows run through the centre cell, three through a corner
    assert_eq!(center, 5 + 1 + 7);
    assert_eq!(left, 5 + 1 + 3);
    assert_eq!(right, 5 + 1 + 3);
}

#[test]
fn play_takes_the_winning_column() {
    let b = board_of(&[(1, 1), (1, 2), (1, 3), (2, 6), (2, 7), (2, 7)]);
    let mut rng = rand::thread_rng();
    for _ in 0..5 {
        assert_eq!(play(&b, 1, &mut rng, 3), 4);
    }
}

#[test]
fn play_never_picks_a_full_column_while_one_is_open() {
    let mut b = new_board();
    for col in 1..=6usize {
        fill_column(&mut b, col);
    }
    let mut rng = rand::thread_rng();
    for _ in 0..10 {
        assert_eq!(play(&b, 1, &mut rng, 2), 7);
        assert_eq!(play(&b, 2, &mut rng, 2), 7);
    }
}

#[test]
fn play_on_a_full_board_still_names_a_column() {
    let mut b = new_board();
    for col in 1..=7usize {
        fill_column(&mut b, col);
    }
    let mut rng = rand::thread_rng();
    for _ in 0..10 {
        let col = play(&b, 1, &mut rng, 2);
        assert!((1..=7).contains(&col));
        assert!(column_full(&b, col));
    }
}
