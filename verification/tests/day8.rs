use advent_puzzles::day8::get_scenic_score;
use advent_puzzles::day8::grid::Grid;
use advent_puzzles::day8::grid::GridCoord;
use advent_puzzles::day8::max_scenic_score;
use advent_puzzles::day8::parse_grid;
use advent_puzzles::day8::GridError;

const FOREST: &str = "30373\n25512\n65332\n33549\n35390\n";

#[test]
fn test_parse_grid() {
    let input = FOREST;
    let grid = parse_grid(input).unwrap();
    assert!(grid.get_cell_borrowed((0, 0).into()).unwrap() == &3);
}

#[test]
fn lib_test_main() {
    let input = FOREST;
    let grid = parse_grid(input).unwrap();
    let max_scenic_score = max_scenic_score(&grid);
    println!("{:?}", max_scenic_score);
    assert_eq!(max_scenic_score, Some(8));
}

#[test]
fn test_scenic_score() {
    let grid_str = "30373
25512
65332
33549
35390";
    let grid = parse_grid(grid_str).unwrap();
    let scenic_score = get_scenic_score(&grid, GridCoord { x: 2, y: 1 });
    assert!(scenic_score == Some(4));
}

#[test]
fn every_cell_of_the_forest_is_read() {
    let grid = parse_grid(FOREST).unwrap();
    assert_eq!(grid.width(), 5);
    assert_eq!(grid.height(), 5);
    assert_eq!(grid.width, 5);
    assert_eq!(grid.height, 5);
    let rows: Vec<&str> = FOREST.lines().collect();
    for y in 0..5 {
        for x in 0..5 {
            let digit = rows[y].as_bytes()[x] - b'0';
            assert_eq!(grid.get_cell_borrowed(GridCoord { x, y }), Some(&(digit as usize)));
        }
    }
    assert_eq!(grid.get_cell_borrowed(GridCoord { x: 5, y: 0 }), None);
    assert_eq!(grid.get_cell_borrowed(GridCoord { x: 0, y: 5 }), None);
}

#[test]
fn a_short_line_leaves_trees_of_height_zero() {
    let grid = parse_grid("123\n4\n\n56").unwrap();
    assert_eq!(grid.width(), 3);
    assert_eq!(grid.height(), 4);
    let cells: Vec<usize> = (0..4)
        .flat_map(|y| (0..3).map(move |x| GridCoord { x, y }))
        .map(|c| *grid.get_cell_borrowed(c).unwrap())
        .collect();
    assert_eq!(cells, vec![1, 2, 3, 4, 0, 0, 0, 0, 0, 5, 6, 0]);
}

#[test]
fn texts_that_are_no_forest() {
    assert_eq!(parse_grid("").err(), Some(GridError::Empty));
    assert_eq!(parse_grid("12\n1x\n").err(), Some(GridError::NotADigit));
    assert_eq!(parse_grid("12\n123\n").err(), Some(GridError::LineTooLong));
    assert_eq!(parse_grid("12\n12x\n").err(), Some(GridError::NotADigit));
    assert_eq!(parse_grid("12\n123x\n").err(), Some(GridError::LineTooLong));
    assert_eq!(parse_grid("12\n1234\n1x\n").err(), Some(GridError::LineTooLong));
    assert_eq!(parse_grid("\n1\n").err(), Some(GridError::LineTooLong));
    assert_eq!(parse_grid("é\n").err(), Some(GridError::NotADigit));
    assert_eq!(GridError::Empty.message(), "the text has no line");
    let empty_rows = parse_grid("\n\n").unwrap();
    assert_eq!((empty_rows.width(), empty_rows.height()), (0, 2));
    assert_eq!(max_scenic_score(&empty_rows), None);
}

#[test]
fn scenic_scores_of_the_forest() {
    let grid = parse_grid(FOREST).unwrap();
    assert_eq!(get_scenic_score(&grid, GridCoord { x: 2, y: 3 }), Some(8));
    assert_eq!(get_scenic_score(&grid, GridCoord { x: 0, y: 0 }), Some(0));
    assert_eq!(get_scenic_score(&grid, GridCoord { x: 4, y: 2 }), Some(0));
    assert_eq!(get_scenic_score(&grid, GridCoord { x: 1, y: 1 }), Some(1));
    assert_eq!(get_scenic_score(&grid, GridCoord { x: 3, y: 3 }), Some(3));
    assert_eq!(get_scenic_score(&grid, GridCoord { x: 5, y: 1 }), None);
    assert_eq!(get_scenic_score(&grid, GridCoord { x: 1, y: 9 }), None);
}

#[test]
fn a_new_grid_holds_default_cells() {
    let mut grid: Grid<usize> = Grid::new(3, 2);
    assert!(grid.in_bounds(GridCoord { x: 2, y: 1 }));
    assert!(!grid.in_bounds(GridCoord { x: 3, y: 1 }));
    assert!(!grid.in_bounds(GridCoord { x: 2, y: 2 }));
    assert_eq!(grid.get_cell_borrowed(GridCoord { x: 2, y: 1 }), Some(&0));
    *grid.get_cell_mut(GridCoord { x: 2, y: 1 }).unwrap() = 7;
    assert_eq!(grid.get_cell_borrowed(GridCoord { x: 2, y: 1 }), Some(&7));
    assert_eq!(grid.get_cell_borrowed(GridCoord { x: 1, y: 1 }), Some(&0));
    assert_eq!(grid.get_cell_borrowed(GridCoord { x: 2, y: 0 }), Some(&0));
    assert!(grid.get_cell_mut(GridCoord { x: 0, y: 2 }).is_none());
    let words: Grid<String> = Grid::new(1, 1);
    assert_eq!(words.get_cell_borrowed(GridCoord { x: 0, y: 0 }), Some(&String::new()));
    let coord: GridCoord = (4, 5).into();
    assert!(coord == GridCoord { x: 4, y: 5 });
}

#[test]
fn a_grid_as_text() {
    let mut grid = parse_grid("303\n255\n").unwrap();
    assert_eq!(grid.render(), "\n3 0 3\n2 5 5");
    *grid.get_cell_mut(GridCoord { x: 1, y: 0 }).unwrap() = 120;
    *grid.get_cell_mut(GridCoord { x: 2, y: 1 }).unwrap() = usize::MAX;
    assert_eq!(grid.render(), format!("\n3 120 3\n2 5 {}", usize::MAX));
    let empty: Grid<usize> = Grid::new(0, 3);
    assert_eq!(empty.render(), "\n\n\n");
    let none: Grid<usize> = Grid::new(3, 0);
    assert_eq!(none.render(), "");
    let one: Grid<usize> = Grid::new(1, 1);
    assert_eq!(one.render(), "\n0");
}
