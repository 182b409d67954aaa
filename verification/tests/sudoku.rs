use collapse::collapse::{FromCollapse, Search};
use collapse::sudoku::{Solver, Sudoku};

fn render(sudoku: &Sudoku) -> String {
    let mut out = String::new();
    for i in 0..9 {
        for j in 0..9 {
            out.push_str(&format!("{}", sudoku.get(i, j)));
            if j != 8 {
                out.push(' ');
            }
        }
        if i != 8 {
            out.push('\n');
        }
    }
    out
}

#[test]
fn sudoku_solve() {
    let mut solver = Solver::new();
    let initial = solver.get_state([
        [0, 0, 0, 0, 0, 4, 0, 5, 2],
        [6, 0, 0, 0, 0, 0, 0, 0, 0],
        [9, 0, 5, 0, 2, 0, 0, 3, 0],
        [0, 0, 0, 8, 0, 0, 7, 0, 0],
        [2, 0, 3, 0, 4, 0, 0, 9, 0],
        [0, 1, 0, 0, 0, 0, 0, 0, 0],
        [5, 0, 1, 0, 0, 7, 9, 0, 0],
        [0, 6, 0, 0, 5, 0, 0, 0, 0],
        [0, 4, 0, 0, 0, 0, 0, 1, 0],
    ]);
    let solution = solver.solve(Some(initial)).unwrap();
    assert_eq!(
        format!("\n{}", render(&Sudoku::from_collapse(solution))),
        r"
1 3 8 9 7 4 6 5 2
6 2 4 1 3 5 8 7 9
9 7 5 6 2 8 4 3 1
4 9 6 8 1 3 7 2 5
2 5 3 7 4 6 1 9 8
8 1 7 5 9 2 3 6 4
5 8 1 2 6 7 9 4 3
3 6 9 4 5 1 2 8 7
7 4 2 3 8 9 5 1 6"
    );
}

#[test]
fn the_board_is_written_with_a_blank_after_each_digit() {
    let board = Sudoku::from_collapse(vec![((0, 0), 7), ((8, 8), 3), ((0, 8), 255), ((0, 0), 10)]);
    assert_eq!(board.get(0, 0), 10);
    assert_eq!(board.get(0, 8), 255);
    assert_eq!(board.get(8, 8), 3);
    assert_eq!(board.get(4, 4), 0);
    let text = board.to_string();
    let lines: Vec<&str> = text.split('\n').collect();
    assert_eq!(lines.len(), 10);
    assert_eq!(lines[0], "10 0 0 0 0 0 0 0 255 ");
    assert_eq!(lines[1], "0 0 0 0 0 0 0 0 0 ");
    assert_eq!(lines[8], "0 0 0 0 0 0 0 0 3 ");
    assert_eq!(lines[9], "");
}

#[test]
fn the_solved_board_is_written_row_by_row() {
    let mut solver = Solver::new();
    let solution = solver.solve(None).unwrap();
    let text = Sudoku::from_collapse(solution).to_string();
    assert!(text.starts_with("1 2 3 4 5 6 7 8 9 \n4 5 6 7 8 9 1 2 3 \n"));
    assert_eq!(text.len(), 9 * 19);
}

#[test]
fn givens_are_pinned_and_propagated() {
    let solver = Solver::new();
    let mut clues = [[0u8; 9]; 9];
    clues[0][0] = 5;
    clues[8][8] = 5;
    clues[0][4] = 9;
    let state = solver.get_state(clues);
    let drain = |coord: (usize, usize)| {
        let mut domain = state.get(&coord).unwrap().clone();
        let mut out = Vec::new();
        while let Some(item) = domain.next() {
            out.push(item);
        }
        out
    };
    assert_eq!(drain((0, 0)), vec![5]);
    assert_eq!(drain((0, 4)), vec![9]);
    assert_eq!(drain((8, 8)), vec![5]);
    assert_eq!(drain((0, 1)), vec![1, 2, 3, 4, 6, 7, 8]);
    assert_eq!(drain((0, 8)), vec![1, 2, 3, 4, 6, 7, 8]);
    assert_eq!(drain((1, 1)), vec![1, 2, 3, 4, 6, 7, 8, 9]);
    assert_eq!(drain((1, 4)), vec![1, 2, 3, 4, 5, 6, 7, 8]);
    assert_eq!(drain((4, 5)), vec![1, 2, 3, 4, 5, 6, 7, 8, 9]);
}
