use collapse::collapse::{Collapse, FromCollapse, Identical, Search};
use collapse::iter::filter::Predicate;
use collapse::puzzle::{pieces, Link, Piece, Puzzle, Rule, Side, Solver};

fn number_of(piece: &Piece) -> usize {
    (0..16).find(|number| !Rule::Other(*number).test(piece)).unwrap()
}

fn letters(side: Side) -> String {
    format!("{}{}", side.0.to_string(), side.1.to_string())
}

#[test]
fn puzzle_solve() {
    let mut solver = Solver::new();
    let solution = solver.solve(None).unwrap();
    assert_eq!(
        format!("{}", Puzzle::from_collapse(solution).to_string()),
        r" PW   TP   WT   RT 
R       W W  P P  T
   R R  W W  W W  P
 WP   TR   PT   RW 

 WP   TR   PT   RW 
W  T T  W W  R R  W
R  P P  T T  W W  P
 R    WR   TR   WT 

 R    WR   TR   WT 
P  W W  R R  W W   
W  P P  T T  T T  T
 PR   PT    W   T  

 PR   PT    W   T  
R  T T  W W  W W  R
T  W W  R R  R R  W
 PW   PR   WP   TP "
    );
}

#[test]
fn meeting_sides_fit_in_the_solution() {
    let mut solver = Solver::new();
    let solution = solver.solve(None).unwrap();
    assert_eq!(solution.len(), 16);
    let at = |x: usize, y: usize| solution.iter().find(|pair| pair.0 == (x, y)).unwrap().1;
    for x in 0..4 {
        for y in 0..4 {
            if x + 1 < 4 {
                assert!(at(x, y).side_at(1) == at(x + 1, y).side_at(3));
            }
            if y + 1 < 4 {
                assert!(at(x, y).side_at(2) == at(x, y + 1).side_at(0));
            }
        }
    }
}

#[test]
fn every_piece_is_laid_once() {
    let mut solver = Solver::new();
    let solution = solver.solve(None).unwrap();
    let mut numbers: Vec<usize> = solution.iter().map(|pair| number_of(&pair.1)).collect();
    numbers.sort();
    assert_eq!(numbers, (0..16).collect::<Vec<usize>>());
    let coords: Vec<(usize, usize)> = solution.iter().map(|pair| pair.0).collect();
    assert_eq!(coords, solver.get_coords());
}

#[test]
fn the_space_is_four_by_four() {
    let solver = Solver::new();
    let coords = solver.get_coords();
    assert_eq!(coords.len(), 16);
    assert_eq!(coords[0], (0, 0));
    assert_eq!(coords[1], (0, 1));
    assert_eq!(coords[4], (1, 0));
    assert_eq!(coords[15], (3, 3));
}

#[test]
fn full_domains_hold_every_piece_in_every_rotation() {
    let solver = Solver::new();
    let state = solver.get_initial();
    let mut domain = state.get(&(2, 1)).unwrap().clone();
    let mut all = Vec::new();
    while let Some(piece) = domain.next() {
        all.push(piece);
    }
    assert_eq!(all.len(), 64);
    for (k, piece) in all.iter().enumerate() {
        assert_eq!(number_of(piece), k / 4);
        assert!(piece.side_at(0).0 == pieces()[k / 4][k % 4].0);
        assert!(piece.side_at(0).1 == pieces()[k / 4][k % 4].1);
    }
    assert!(all[5].same(&all[5].duplicate()));
    assert!(!all[5].same(&all[6]));
    assert!(!all[5].same(&all[9]));
}

#[test]
fn update_names_the_grid_and_the_four_neighbours() {
    let solver = Solver::new();
    let state = solver.get_initial();
    let piece = state.get(&(0, 0)).unwrap().clone().next().unwrap();
    let pairs = solver.update((0, 3), piece);
    assert_eq!(pairs.len(), 5);
    assert_eq!(pairs[0].0, solver.get_coords());
    assert_eq!(pairs[1].0, vec![(0, 2)]);
    assert_eq!(pairs[2].0, vec![(1, 3)]);
    assert_eq!(pairs[3].0, vec![]);
    assert_eq!(pairs[4].0, vec![]);
    assert!(matches!(pairs[0].1, Rule::Other(0)));
    assert!(matches!(pairs[3].1, Rule::Fit(_, 2)));
}

#[test]
fn fit_admits_the_pieces_whose_facing_side_fits() {
    let solver = Solver::new();
    let state = solver.get_initial();
    let mut domain = state.get(&(0, 0)).unwrap().clone();
    let first = domain.next().unwrap();
    let mut others = vec![first];
    while let Some(piece) = domain.next() {
        others.push(piece);
    }
    for direction in 0..4 {
        let rule = Solver::fit(first, direction);
        for other in &others {
            let facing = other.side_at(direction + 2);
            assert_eq!(rule.test(other), first.side_at(direction) == facing);
        }
    }
    // The top of the first piece is Track, River: a side fits it when
    // it reads River, Track.
    let rule = Solver::fit(first, 0);
    let admitted = others.iter().filter(|piece| rule.test(piece)).count();
    let expected = others
        .iter()
        .filter(|piece| letters(piece.side_at(2)) == "WT")
        .count();
    assert_eq!(admitted, expected);
    assert!(admitted > 0);
}

#[test]
fn sides_fit_when_their_links_meet_crosswise() {
    assert!(Side(Link::Road, Link::Track) == Side(Link::Track, Link::Road));
    assert!(Side(Link::River, Link::River) == Side(Link::River, Link::River));
    assert!(Side(Link::Road, Link::Track) != Side(Link::Road, Link::Track));
    assert!(Side(Link::Blank, Link::Path) != Side(Link::Path, Link::Road));
}

#[test]
fn links_have_their_letters() {
    assert_eq!(Link::Blank.to_string(), " ");
    assert_eq!(Link::Road.to_string(), "R");
    assert_eq!(Link::Track.to_string(), "T");
    assert_eq!(Link::Path.to_string(), "P");
    assert_eq!(Link::River.to_string(), "W");
}

#[test]
fn the_table_holds_sixteen_pieces_of_four_sides() {
    let table = pieces();
    assert_eq!(letters(table[0][0]), "TW");
    assert_eq!(letters(table[0][3]), "RT");
    assert_eq!(letters(table[3][2]), " T");
    assert_eq!(letters(table[8][1]), "R ");
    assert_eq!(letters(table[15][3]), "WT");
}

#[test]
fn a_piece_is_drawn_in_four_lines() {
    let solver = Solver::new();
    let state = solver.get_initial();
    let mut domain = state.get(&(0, 0)).unwrap().clone();
    let upright = domain.next().unwrap();
    assert_eq!(upright.get_line(0), " TW ");
    assert_eq!(upright.get_line(1), "T  P");
    assert_eq!(upright.get_line(2), "R  T");
    assert_eq!(upright.get_line(3), " WR ");
    assert_eq!(upright.get_line(9), " WR ");
    let turned = domain.next().unwrap();
    assert_eq!(turned.get_line(0), " PT ");
    assert_eq!(turned.get_line(1), "W  R");
    assert_eq!(turned.get_line(2), "T  W");
    assert_eq!(turned.get_line(3), " TR ");
}

#[test]
fn an_empty_solution_shows_the_first_piece_everywhere() {
    let board = Puzzle::from_collapse(vec![]).to_string();
    let lines: Vec<&str> = board.split('\n').collect();
    assert_eq!(lines.len(), 19);
    assert_eq!(lines[0], " TW   TW   TW   TW ");
    assert_eq!(lines[1], "T  P T  P T  P T  P");
    assert_eq!(lines[4], "");
    assert_eq!(lines[18], " WR   WR   WR   WR ");
}

#[test]
fn a_later_assignment_replaces_an_earlier_one() {
    let solver = Solver::new();
    let state = solver.get_initial();
    let mut domain = state.get(&(0, 0)).unwrap().clone();
    let upright = domain.next().unwrap();
    let turned = domain.next().unwrap();
    let board = Puzzle::from_collapse(vec![((1, 0), turned), ((1, 0), upright), ((3, 0), turned)])
        .to_string();
    let lines: Vec<&str> = board.split('\n').collect();
    assert_eq!(lines[0], " TW   TW   TW   PT ");
}
