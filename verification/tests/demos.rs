//! Tests for the algorithm exercises: Fibonacci, longest common
//! subsequence, coin change, quicksort, tic-tac-toe.

use csv_codec::coins::min_coins;
use csv_codec::coins::min_coins_m;
use csv_codec::fib::fib;
use csv_codec::fib::fibm;
use csv_codec::lcs::lcs;
use csv_codec::sort::run;
use csv_codec::tictactoe::TicTacToe;
use csv_codec::tictactoe::OPPONENT;

#[test]
fn test_fib_5() {
    assert_eq!(fib(5), 5);
}

#[test]
fn test_fibm_5() {
    assert_eq!(fibm(5), 5);
}

#[test]
fn test_fib_10() {
    assert_eq!(fib(10), 55);
}

#[test]
fn test_fibm_10() {
    assert_eq!(fibm(10), 55);
}

#[test]
fn test_lcs_0() {
    assert_eq!(lcs(&[1, 4], &[2, 5]), []);
}

#[test]
fn test_lcs_1() {
    assert_eq!(
        lcs(&[1, 4, 5, 6, 9, 10, 11], &[6, 4, 5, 9, 11]),
        [4, 5, 9, 11]
    );
}

#[test]
fn test_lcs_2() {
    assert_eq!(
        lcs(&[1, 4, 5, 6, 9, 10, 11], &[6, 4, 5, 9, 11, 12]),
        [4, 5, 9, 11]
    );
}

#[test]
fn test_lcs_3() {
    assert_eq!(
        lcs(&[3, 1, 4, 5, 9, 12, 1], &[2, 3, 5, 1, 4, 9, 2, 12]),
        [3, 1, 4, 9, 12]
    );
}

#[test]
fn test_lcs_4() {
    assert_eq!(lcs(&[1, 2, 3, 1, 2, 3], &[1, 2, 3, 4]), [1, 2, 3]);
}

#[test]
fn test_min_coins_base() {
    assert_eq!(min_coins(2, &[5]), None);
    assert_eq!(min_coins(5, &[2]), None);
    assert_eq!(min_coins(5, &[1, 2]), Some(3));
    assert_eq!(min_coins(13, &[1, 4, 5]), Some(3));
    assert_eq!(min_coins(12, &[1, 4, 5]), Some(3));
    assert_eq!(min_coins(11, &[1, 4, 5]), Some(3));
    assert_eq!(min_coins(10, &[1, 4, 5]), Some(2));
}

#[test]
fn test_min_coins_13() {
    assert_eq!(min_coins(13, &[2, 4, 5]), Some(3));
}

#[test]
fn test_min_coins_13_m() {
    let mut memo = Default::default();
    assert_eq!(min_coins_m(13, &[2, 4, 5], &mut memo), Some(3));
}

#[test]
fn test_min_coins_euro_m() {
    let mut memo = Default::default();
    assert_eq!(
        min_coins_m(734, &[200, 100, 50, 20, 10, 5, 2, 1], &mut memo),
        Some(8)
    );
}

#[test]
fn lib_test_quicksort_1() {
    let mut numbers = vec![4, 65, 2, -31, 0, 99, 2, 83, 782, 1];
    run(&mut numbers);
    assert_eq!(numbers, [-31, 0, 1, 2, 2, 4, 65, 83, 99, 782]);
}

#[test]
fn test_quicksort_2() {
    let mut numbers = vec![1, 2, 2];
    run(&mut numbers);
    assert_eq!(numbers, [1, 2, 2]);
}

#[test]
fn get_empty_space() {
    let game = TicTacToe::new([
        ['O', 'O', '_'],
        ['X', 'O', 'X'],
        ['X', 'X', 'O'],
    ]);

    assert_eq!(game.get_empty_space(), Some((0, 2)));

    let game = TicTacToe::new([
        ['O', 'O', 'O'],
        ['X', 'O', 'X'],
        ['X', 'X', 'O'],
    ]);

    assert_eq!(game.get_empty_space(), None);
}

#[test]
fn get_winning_side() {
    let game = TicTacToe::new([
        ['O', 'O', '_'],
        ['X', 'O', 'X'],
        ['X', 'X', 'O'],
    ]);

    assert_eq!(game.get_winning_side(), Some(OPPONENT));

    let game = TicTacToe::new([
        ['O', 'X', 'O'],
        ['X', 'O', 'O'],
        ['O', 'X', 'X'],
    ]);

    assert_eq!(game.get_winning_side(), Some(OPPONENT));
}

#[test]
fn solve_prefers_winning_line() {
    // X to move can win at once by completing the top row.
    let mut game = TicTacToe::new([
        ['X', 'X', '_'],
        ['O', 'O', '_'],
        ['_', '_', '_'],
    ]);
    let mv = game.best_move().expect("board has room");
    assert_eq!(mv, (0, 2));
    game.play_move(mv.0, mv.1);
    assert_eq!(game.get_winning_side(), Some('X'));
}
