use collapse::collapse::{Collapse, Identical, NoSolution, Restriction, Search, SearchState};
use collapse::iter::filter::AccumulateFilter;
use collapse::sudoku::{NotEqual, Solver};

type State = SearchState<(usize, usize), u8, Restriction<u8, NotEqual>>;

fn drain(state: &State, coord: (usize, usize)) -> Vec<u8> {
    let mut domain = state.get(&coord).unwrap().clone();
    let mut out = Vec::new();
    while let Some(item) = domain.next() {
        out.push(item);
    }
    out
}

fn clues() -> [[u8; 9]; 9] {
    [
        [0, 0, 0, 0, 0, 4, 0, 5, 2],
        [6, 0, 0, 0, 0, 0, 0, 0, 0],
        [9, 0, 5, 0, 2, 0, 0, 3, 0],
        [0, 0, 0, 8, 0, 0, 7, 0, 0],
        [2, 0, 3, 0, 4, 0, 0, 9, 0],
        [0, 1, 0, 0, 0, 0, 0, 0, 0],
        [5, 0, 1, 0, 0, 7, 9, 0, 0],
        [0, 6, 0, 0, 5, 0, 0, 0, 0],
        [0, 4, 0, 0, 0, 0, 0, 1, 0],
    ]
}

#[test]
fn solution_covers_every_coordinate_once_in_order() {
    let mut solver = Solver::new();
    let initial = solver.get_state(clues());
    let solution = solver.solve(Some(initial)).unwrap();
    let coords: Vec<(usize, usize)> = solution.iter().map(|pair| pair.0).collect();
    assert_eq!(coords, solver.get_coords());
    assert_eq!(coords.len(), 81);
    assert_eq!(coords[0], (0, 0));
    assert_eq!(coords[1], (0, 1));
    assert_eq!(coords[80], (8, 8));
    assert_eq!(solution[0], ((0, 0), 1));
    assert_eq!(solution[80], ((8, 8), 6));
}

#[test]
fn solution_keeps_the_givens() {
    let mut solver = Solver::new();
    let initial = solver.get_state(clues());
    let solution = solver.solve(Some(initial)).unwrap();
    let givens = clues();
    for (cell, digit) in solution {
        assert!((1..=9).contains(&digit));
        let given = givens[cell.0][cell.1];
        assert!(given == 0 || given == digit);
    }
}

#[test]
fn without_a_state_the_search_starts_from_full_domains() {
    let mut solver = Solver::new();
    let solution = solver.solve(None).unwrap();
    let first_row: Vec<u8> = solution.iter().take(9).map(|pair| pair.1).collect();
    assert_eq!(first_row, vec![1, 2, 3, 4, 5, 6, 7, 8, 9]);
    let second_row: Vec<u8> = solution.iter().skip(9).take(9).map(|pair| pair.1).collect();
    assert_eq!(second_row, vec![4, 5, 6, 7, 8, 9, 1, 2, 3]);
}

#[test]
fn no_coordinates_have_the_empty_solution() {
    let solver = Solver::new();
    let state = solver.get_initial();
    assert_eq!(solver.try_state(vec![], state).unwrap(), vec![]);
}

#[test]
fn try_state_searches_the_given_coordinates_only() {
    let solver = Solver::new();
    let state = solver.get_initial();
    let solution = solver.try_state(vec![(3, 3), (3, 4), (0, 0)], state).unwrap();
    assert_eq!(solution, vec![((3, 3), 1), ((3, 4), 2), ((0, 0), 1)]);
}

#[test]
fn search_backtracks_past_a_dead_end() {
    // The last cell of the row is pinned to 8, so the cell before it
    // cannot end on 8 as the first descent would have it.
    let solver = Solver::new();
    let mut state = solver.get_initial();
    solver.apply_single((0, 8), 8, &mut state);
    let row: Vec<(usize, usize)> = (0..9).map(|column| (0, column)).collect();
    let solution = solver.try_state(row, state).unwrap();
    let digits: Vec<u8> = solution.iter().map(|pair| pair.1).collect();
    assert_eq!(digits, vec![1, 2, 3, 4, 5, 6, 7, 9, 8]);
}

#[test]
fn a_row_without_room_has_no_solution() {
    let solver = Solver::new();
    let mut state = solver.get_initial();
    for digit in 1..=8 {
        solver.apply_single((1, (digit - 1) as usize), digit, &mut state);
    }
    solver.apply_single((0, 8), 9, &mut state);
    assert_eq!(drain(&state, (1, 8)), Vec::<u8>::new());
    assert!(matches!(solver.try_state(vec![(1, 8)], state), Err(NoSolution)));
}

#[test]
fn conflicting_pins_fail_at_once() {
    let mut solver = Solver::new();
    let mut state = solver.get_initial();
    solver.apply_single((0, 0), 1, &mut state);
    solver.apply_single((0, 0), 2, &mut state);
    assert_eq!(drain(&state, (0, 0)), Vec::<u8>::new());
    assert!(matches!(solver.solve(Some(state)), Err(NoSolution)));
}

#[test]
fn two_searches_from_equal_states_agree() {
    let mut solver = Solver::new();
    let first = solver.get_state(clues());
    let second = first.clone();
    let third = solver.get_state(clues());
    let one = solver.solve(Some(first)).unwrap();
    assert_eq!(one, solver.solve(Some(second)).unwrap());
    assert_eq!(one, solver.solve(Some(third)).unwrap());
}

#[test]
fn seeding_twice_is_seeding_once() {
    let solver = Solver::new();
    let mut once = solver.get_initial();
    solver.apply_single((4, 4), 5, &mut once);
    let mut twice = once.clone();
    solver.apply_single((4, 4), 5, &mut twice);
    for coord in solver.get_coords() {
        assert_eq!(drain(&once, coord), drain(&twice, coord));
    }
    assert_eq!(drain(&once, (4, 4)), vec![5]);
}

#[test]
fn seeding_restricts_row_column_and_block_only() {
    let solver = Solver::new();
    let mut state = solver.get_initial();
    solver.apply_single((4, 4), 5, &mut state);
    let without: Vec<u8> = vec![1, 2, 3, 4, 6, 7, 8, 9];
    let full: Vec<u8> = (1..=9).collect();
    for coord in solver.get_coords() {
        let touched = coord.0 == 4 || coord.1 == 4 || (coord.0 / 3 == 1 && coord.1 / 3 == 1);
        if coord == (4, 4) {
            assert_eq!(drain(&state, coord), vec![5]);
        } else if touched {
            assert_eq!(drain(&state, coord), without);
        } else {
            assert_eq!(drain(&state, coord), full);
        }
    }
}

#[test]
fn propagation_skips_the_assigned_coordinate() {
    let solver = Solver::new();
    let mut state = solver.get_initial();
    solver.apply_update((0, 0), 3, &mut state);
    assert_eq!(drain(&state, (0, 0)), vec![1, 2, 3, 4, 5, 6, 7, 8, 9]);
    assert_eq!(drain(&state, (0, 1)), vec![1, 2, 4, 5, 6, 7, 8, 9]);
    assert_eq!(drain(&state, (1, 1)), vec![1, 2, 4, 5, 6, 7, 8, 9]);
    assert_eq!(drain(&state, (8, 0)), vec![1, 2, 4, 5, 6, 7, 8, 9]);
    assert_eq!(drain(&state, (3, 3)), vec![1, 2, 3, 4, 5, 6, 7, 8, 9]);
}

#[test]
fn update_names_row_column_and_block() {
    let solver = Solver::new();
    let pairs = solver.update((4, 7), 2);
    assert_eq!(pairs.len(), 3);
    assert_eq!(pairs[0].0, (0..9).map(|j| (4, j)).collect::<Vec<_>>());
    assert_eq!(pairs[1].0, (0..9).map(|i| (i, 7)).collect::<Vec<_>>());
    assert_eq!(
        pairs[2].0,
        vec![(3, 6), (3, 7), (3, 8), (4, 6), (4, 7), (4, 8), (5, 6), (5, 7), (5, 8)]
    );
    for pair in pairs {
        assert_eq!(pair.1 .0, 2);
    }
}

#[test]
fn later_insertion_replaces_the_domain() {
    let mut state: State = SearchState::new();
    assert!(state.get(&(7, 7)).is_none());
    state.insert((7, 7), AccumulateFilter::new(vec![1, 2, 3]));
    state.insert((7, 7), AccumulateFilter::new(vec![4, 5]));
    assert_eq!(drain(&state, (7, 7)), vec![4, 5]);
    state.restrict(&(7, 7), Restriction::Only(5));
    assert_eq!(drain(&state, (7, 7)), vec![5]);
    state.restrict(&(7, 7), Restriction::Rule(NotEqual(5)));
    assert_eq!(drain(&state, (7, 7)), Vec::<u8>::new());
}

#[test]
fn branches_do_not_share_domains() {
    let mut parent: State = SearchState::new();
    parent.insert((0, 0), AccumulateFilter::new(vec![1, 2, 3]));
    let mut branch = parent.clone();
    branch.restrict(&(0, 0), Restriction::Rule(NotEqual(2)));
    assert_eq!(drain(&parent, (0, 0)), vec![1, 2, 3]);
    assert_eq!(drain(&branch, (0, 0)), vec![1, 3]);
}

#[test]
fn identical_values_are_told_apart() {
    assert!(3u8.same(&3));
    assert!(!3u8.same(&4));
    assert!(5usize.same(&5));
    assert!(!5usize.same(&6));
    assert!((1usize, 2usize).same(&(1, 2)));
    assert!(!(1usize, 2usize).same(&(2, 1)));
    assert_eq!((5usize, 6usize).duplicate(), (5, 6));
    assert_eq!(9usize.duplicate(), 9);
    assert_eq!(7u8.duplicate(), 7);
}
