use peg_solitaire::grid::{Cell, Grid};

fn peg_count(grid: &Grid) -> usize {
    grid.cells.iter().filter(|c| c.has_peg).count()
}

fn cell(x: i32, y: i32, has_peg: bool) -> Cell {
    Cell { x, y, has_peg }
}

#[test]
fn valid_horizontal_jump() {
    let grid = Grid::new(7);

    let start = grid.get_cell(1, 3).unwrap();
    let dest = grid.get_cell(3, 3).unwrap();

    assert!(grid.check_move(start, dest));
}

#[test]
fn valid_vertical_jump() {
    let grid = Grid::new(7);

    let start = grid.get_cell(3, 1).unwrap();
    let dest = grid.get_cell(3, 3).unwrap();

    assert!(grid.check_move(start, dest));
}

#[test]
fn new_board_of_seven_is_the_classic_cross() {
    let grid = Grid::new(7);
    assert_eq!(grid.cells.len(), 33);
    assert_eq!(peg_count(&grid), 32);
    assert!(!grid.get_cell(3, 3).unwrap().has_peg);
    assert!(grid.get_cell(0, 0).is_none());
    assert!(grid.get_cell(6, 6).is_none());
    assert!(grid.get_cell(0, 3).unwrap().has_peg);
    let first = grid.cells[0];
    assert_eq!((first.x, first.y, first.has_peg), (2, 0, true));
    let last = grid.cells[32];
    assert_eq!((last.x, last.y, last.has_peg), (4, 6, true));
}

#[test]
fn new_board_holes_are_distinct() {
    let grid = Grid::new(9);
    for (i, a) in grid.cells.iter().enumerate() {
        for b in grid.cells.iter().skip(i + 1) {
            assert!(a.x != b.x || a.y != b.y);
        }
    }
    assert_eq!(peg_count(&grid) + 1, grid.cells.len());
}

#[test]
fn new_board_of_no_size_is_empty() {
    assert!(Grid::new(0).cells.is_empty());
    assert!(Grid::new(-4).cells.is_empty());
}

#[test]
fn new_board_of_one_is_the_empty_centre() {
    let grid = Grid::new(1);
    assert_eq!(grid.cells.len(), 1);
    assert_eq!((grid.cells[0].x, grid.cells[0].y, grid.cells[0].has_peg), (0, 0, false));
}

#[test]
fn new_board_of_two() {
    // mid is 1, so the bands cover every column and row of the square.
    let grid = Grid::new(2);
    assert_eq!(grid.cells.len(), 4);
    assert_eq!(peg_count(&grid), 3);
    assert!(!grid.get_cell(1, 1).unwrap().has_peg);
}

#[test]
fn get_cell_finds_the_first_match() {
    let grid = Grid { cells: vec![cell(1, 1, false), cell(1, 1, true)] };
    assert!(!grid.get_cell(1, 1).unwrap().has_peg);
    assert!(grid.get_cell(2, 1).is_none());
}

#[test]
fn get_cell_mut_changes_the_first_match() {
    let mut grid = Grid { cells: vec![cell(1, 1, false), cell(1, 1, false)] };
    grid.get_cell_mut(1, 1).unwrap().has_peg = true;
    assert!(grid.cells[0].has_peg);
    assert!(!grid.cells[1].has_peg);
    assert!(grid.get_cell_mut(5, 5).is_none());
}

#[test]
fn check_move_refusals() {
    let grid = Grid::new(7);
    let at = |x, y| *grid.get_cell(x, y).unwrap();
    // the start holds no peg
    assert!(!grid.check_move(&at(3, 3), &at(3, 5)));
    // the destination holds a peg
    assert!(!grid.check_move(&at(3, 0), &at(3, 2)));
    // three holes apart
    assert!(!grid.check_move(&at(3, 0), &at(3, 3)));
    // diagonal
    let diagonal = Grid { cells: vec![cell(1, 1, true), cell(2, 2, true), cell(3, 3, false)] };
    assert!(!diagonal.check_move(&diagonal.cells[0], &diagonal.cells[2]));
}

#[test]
fn check_move_needs_a_peg_between() {
    let grid = Grid {
        cells: vec![cell(0, 0, true), cell(1, 0, false), cell(2, 0, false)],
    };
    assert!(!grid.check_move(&grid.cells[0], &grid.cells[2]));
    let grid = Grid { cells: vec![cell(0, 0, true), cell(2, 0, false)] };
    assert!(!grid.check_move(&grid.cells[0], &grid.cells[1]));
    let grid = Grid {
        cells: vec![cell(0, 0, true), cell(1, 0, true), cell(2, 0, false)],
    };
    assert!(grid.check_move(&grid.cells[0], &grid.cells[2]));
    assert!(!grid.check_move(&grid.cells[2], &grid.cells[0]));
}

#[test]
fn check_move_with_far_coordinates_is_refused() {
    let grid = Grid { cells: vec![] };
    assert!(!grid.check_move(&cell(i32::MIN, 0, true), &cell(i32::MAX, 0, false)));
}

#[test]
fn first_moves_of_the_classic_board() {
    let grid = Grid::new(7);
    assert!(grid.has_any_valid_move());
    assert_eq!(
        grid.get_all_valid_moves(),
        vec![((3, 1), (3, 3)), ((1, 3), (3, 3)), ((5, 3), (3, 3)), ((3, 5), (3, 3))]
    );
}

#[test]
fn listed_moves_are_accepted_by_check_move() {
    let mut grid = Grid::new(7);
    grid.make_move((3, 1), (3, 3));
    for (start, dest) in grid.get_all_valid_moves() {
        let s = grid.get_cell(start.0, start.1).unwrap();
        let d = grid.get_cell(dest.0, dest.1).unwrap();
        assert!(grid.check_move(s, d));
    }
    assert_eq!(grid.get_all_valid_moves().len(), 3);
}

#[test]
fn no_move_left_on_a_lone_peg() {
    let grid = Grid::new(1);
    assert!(!grid.has_any_valid_move());
    assert!(grid.get_all_valid_moves().is_empty());
    let grid = Grid { cells: vec![cell(0, 0, true), cell(1, 0, false), cell(2, 0, false)] };
    assert!(!grid.has_any_valid_move());
}

#[test]
fn a_move_takes_one_peg() {
    let mut grid = Grid::new(7);
    grid.make_move((1, 3), (3, 3));
    assert_eq!(peg_count(&grid), 31);
    assert!(!grid.get_cell(1, 3).unwrap().has_peg);
    assert!(!grid.get_cell(2, 3).unwrap().has_peg);
    assert!(grid.get_cell(3, 3).unwrap().has_peg);
    assert_eq!(grid.cells.len(), 33);
}

#[test]
fn make_move_passes_over_missing_holes() {
    let mut grid = Grid { cells: vec![cell(0, 0, true)] };
    grid.make_move((0, 0), (0, 5));
    assert!(!grid.cells[0].has_peg);
    let mut grid = Grid { cells: vec![cell(-3, 0, true), cell(-2, 0, true), cell(0, 0, false)] };
    // (-3 + 0) / 2 rounds toward zero: the hole jumped over is (-1, 0), which is missing.
    grid.make_move((-3, 0), (0, 0));
    assert!(!grid.cells[0].has_peg);
    assert!(grid.cells[1].has_peg);
    assert!(grid.cells[2].has_peg);
}

#[test]
fn randomize_keeps_pegs_and_holes() {
    let mut grid = Grid::new(7);
    grid.make_move((1, 3), (3, 3));
    let mut before: Vec<(i32, i32)> = grid.cells.iter().map(|c| (c.x, c.y)).collect();
    before.sort();
    grid.randomize_pegs();
    assert_eq!(peg_count(&grid), 31);
    for (i, c) in grid.cells.iter().enumerate() {
        assert_eq!(c.has_peg, i < 31);
    }
    let mut after: Vec<(i32, i32)> = grid.cells.iter().map(|c| (c.x, c.y)).collect();
    after.sort();
    assert_eq!(before, after);
}

#[test]
fn randomize_changes_the_order() {
    let original: Vec<(i32, i32)> = Grid::new(7).cells.iter().map(|c| (c.x, c.y)).collect();
    let mut changed = false;
    for _ in 0..5 {
        let mut grid = Grid::new(7);
        grid.randomize_pegs();
        let order: Vec<(i32, i32)> = grid.cells.iter().map(|c| (c.x, c.y)).collect();
        if order != original {
            changed = true;
        }
    }
    assert!(changed);
}
