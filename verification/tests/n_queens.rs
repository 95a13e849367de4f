use algorithms::general::n_queens::{board_to_string, is_valid, solve_n_queens};

#[test]
fn test_0_queens() {
    assert_eq!(solve_n_queens(0), vec![Vec::<String>::new()]);
}

#[test]
fn test_1_queen() {
    assert_eq!(solve_n_queens(1), vec![vec!["Q"]]);
}

#[test]
fn test_2_queens() {
    assert_eq!(solve_n_queens(2), Vec::<Vec<String>>::new());
}

#[test]
fn test_3_queens() {
    assert_eq!(solve_n_queens(3), Vec::<Vec<String>>::new());
}

#[test]
fn test_4_queens() {
    assert_eq!(
        solve_n_queens(4),
        vec![
            vec![".Q..", "...Q", "Q...", "..Q."],
            vec!["..Q.", "Q...", "...Q", ".Q.."],
        ]
    );
}

#[test]
fn test_5_queens() {
    assert_eq!(
        solve_n_queens(5),
        vec![
            vec!["Q....", "..Q..", "....Q", ".Q...", "...Q."],
            vec!["Q....", "...Q.", ".Q...", "....Q", "..Q.."],
            vec![".Q...", "...Q.", "Q....", "..Q..", "....Q"],
            vec![".Q...", "....Q", "..Q..", "Q....", "...Q."],
            vec!["..Q..", "Q....", "...Q.", ".Q...", "....Q"],
            vec!["..Q..", "....Q", ".Q...", "...Q.", "Q...."],
            vec!["...Q.", "Q....", "..Q..", "....Q", ".Q..."],
            vec!["...Q.", ".Q...", "....Q", "..Q..", "Q...."],
            vec!["....Q", ".Q...", "...Q.", "Q....", "..Q.."],
            vec!["....Q", "..Q..", "Q....", "...Q.", ".Q..."],
        ]
    );
}

#[test]
fn test_6_queens() {
    assert_eq!(
        solve_n_queens(6),
        vec![
            vec![".Q....", "...Q..", ".....Q", "Q.....", "..Q...", "....Q."],
            vec!["..Q...", ".....Q", ".Q....", "....Q.", "Q.....", "...Q.."],
            vec!["...Q..", "Q.....", "....Q.", ".Q....", ".....Q", "..Q..."],
            vec!["....Q.", "..Q...", "Q.....", ".....Q", "...Q..", ".Q...."],
        ]
    );
}

#[test]
fn a_queen_attacks_along_its_column_and_its_diagonals() {
    let mut board = vec![vec![false; 4]; 4];
    board[0][1] = true;
    assert!(!is_valid(&board, 1, 0));
    assert!(!is_valid(&board, 1, 1));
    assert!(!is_valid(&board, 1, 2));
    assert!(is_valid(&board, 1, 3));
    assert!(is_valid(&board, 2, 0));
    assert!(!is_valid(&board, 2, 1));
    assert!(!is_valid(&board, 2, 3));
    assert!(is_valid(&board, 0, 0));
    assert_eq!(board_to_string(&board), vec![".Q..", "....", "....", "...."]);
    assert_eq!(solve_n_queens(8).len(), 92);
}
