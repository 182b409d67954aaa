use collapse::grid::Grid;

#[test]
fn row_holds_nine_cells_of_one_first_component() {
    let grid = Grid::new(9, 9);
    let row = grid.row(4);
    assert_eq!(row.len(), 9);
    assert_eq!(row[0], (4, 0));
    assert_eq!(row[8], (4, 8));
}

#[test]
fn column_holds_nine_cells_of_one_second_component() {
    let grid = Grid::new(9, 9);
    let column = grid.column(7);
    assert_eq!(column.len(), 9);
    assert_eq!(column[0], (0, 7));
    assert_eq!(column[8], (8, 7));
}

#[test]
fn block_holds_the_cells_around_a_cell() {
    let grid = Grid::new(9, 9);
    assert_eq!(
        grid.block((4, 8), (3, 3)),
        vec![(3, 6), (3, 7), (3, 8), (4, 6), (4, 7), (4, 8), (5, 6), (5, 7), (5, 8)]
    );
    assert_eq!(grid.block((0, 0), (1, 2)), vec![(0, 0), (0, 1)]);
}

#[test]
fn block_scales_both_corners_by_the_first_size() {
    let grid = Grid::new(9, 9);
    assert_eq!(grid.block((5, 5), (2, 3)), vec![(4, 2), (4, 3), (4, 4), (5, 2), (5, 3), (5, 4)]);
}

#[test]
fn get_gives_the_neighbour_on_the_grid() {
    let grid = Grid::new(4, 4);
    assert_eq!(grid.get((1, 1), (0, -1)), vec![(1, 0)]);
    assert_eq!(grid.get((1, 1), (1, 0)), vec![(2, 1)]);
    assert_eq!(grid.get((1, 1), (0, 1)), vec![(1, 2)]);
    assert_eq!(grid.get((1, 1), (-1, 0)), vec![(0, 1)]);
    assert_eq!(grid.get((2, 3), (0, 0)), vec![(2, 3)]);
}

#[test]
fn get_gives_nothing_off_the_grid() {
    let grid = Grid::new(4, 4);
    assert_eq!(grid.get((0, 0), (0, -1)), vec![]);
    assert_eq!(grid.get((0, 0), (-1, 0)), vec![]);
    assert_eq!(grid.get((3, 3), (1, 0)), vec![]);
    assert_eq!(grid.get((3, 3), (0, 1)), vec![]);
    assert_eq!(Grid::new(0, 0).get((0, 0), (0, 0)), vec![]);
}

#[test]
fn into_iter_walks_the_second_component_fastest() {
    assert_eq!(
        Grid::new(2, 3).into_iter(),
        vec![(0, 0), (0, 1), (0, 2), (1, 0), (1, 1), (1, 2)]
    );
    assert_eq!(Grid::new(0, 3).into_iter(), vec![]);
    assert_eq!(Grid::new(3, 0).into_iter(), vec![]);
    assert_eq!(Grid::new(9, 9).into_iter().len(), 81);
}

#[test]
fn a_cloned_grid_has_the_same_cells() {
    let grid = Grid::new(2, 2);
    assert_eq!(grid.clone().into_iter(), grid.into_iter());
}
