//! A forest as a grid of tree heights, and how far one sees from a tree.

pub mod grid;

use crate::day8::grid::lemma_cell_index;
use crate::day8::grid::Grid;
use crate::day8::grid::GridCoord;
use crate::text::ascii_digit;
use crate::text::chars_of;
use crate::text::digit_value;
use crate::text::is_digit;
use crate::text::lemma_non_digit;
use crate::text::non_digit_from;
use crate::text::lines;
use crate::text::rows;
use crate::text::split_lines;
use vstd::prelude::*;

verus! {

/// Why a text is no forest.
#[derive(Debug, PartialEq, Eq, Clone, Copy, Structural)]
pub enum GridError {
    /// The text has no line.
    Empty,
    /// The grid would have more cells than can be counted.
    TooLarge,
    /// A character is not a decimal digit.
    NotADigit,
    /// A line is longer than the first line.
    LineTooLong,
}

impl GridError {
    /// The sentence for the user, as characters.
    pub open spec fn sentence(self) -> Seq<char> {
        match self {
            GridError::Empty => "the text has no line"@,
            GridError::TooLarge => "the grid is too large"@,
            GridError::NotADigit => "a character is not a digit"@,
            GridError::LineTooLong => "a line is longer than the first line"@,
        }
    }

    /// A sentence for the user.
    pub fn message(&self) -> (text: &'static str)
        ensures
            text@ == self.sentence(),
    {
        match self {
            GridError::Empty => "the text has no line",
            GridError::TooLarge => "the grid is too large",
            GridError::NotADigit => "a character is not a digit",
            GridError::LineTooLong => "a line is longer than the first line",
        }
    }
}

/// What is wrong with a line of a grid of `width` columns, reading from the
/// left: a character that is no digit, or a digit beyond the last column.
pub open spec fn line_problem(line: Seq<char>, width: int) -> Option<GridError> {
    let stop = non_digit_from(line, 0);
    if stop < line.len() && stop <= width {
        Some(GridError::NotADigit)
    } else if width < line.len() {
        Some(GridError::LineTooLong)
    } else {
        None
    }
}

/// What is wrong with the first line that has a problem.
pub open spec fn first_problem(ls: Seq<Seq<char>>, width: int) -> Option<GridError>
    decreases ls.len(),
{
    if ls.len() == 0 {
        None
    } else {
        match first_problem(ls.drop_last(), width) {
            Some(e) => Some(e),
            None => line_problem(ls.last(), width),
        }
    }
}

/// Why the lines are no grid, if they are none. The first line gives the
/// number of columns.
pub open spec fn grid_error(ls: Seq<Seq<char>>) -> Option<GridError> {
    if ls.len() == 0 {
        Some(GridError::Empty)
    } else if ls[0].len() * ls.len() > usize::MAX {
        Some(GridError::TooLarge)
    } else {
        first_problem(ls, ls[0].len() as int)
    }
}

/// The height of the tree in column `x` of row `y`: the digit there, and 0
/// where the line is shorter.
pub open spec fn tree_height(ls: Seq<Seq<char>>, x: int, y: int) -> int {
    if x < ls[y].len() {
        digit_value(ls[y][x])
    } else {
        0
    }
}

/// Whether `grid` is the forest that the lines show.
pub open spec fn grid_shows(grid: Grid<usize>, ls: Seq<Seq<char>>) -> bool {
    &&& grid.wf()
    &&& ls.len() > 0
    &&& grid.spec_width() == ls[0].len()
    &&& grid.spec_height() == ls.len()
    &&& forall|c: GridCoord| #[trigger]
        grid.contains(c) ==> grid.at(c) == tree_height(ls, c.x as int, c.y as int)
}

/// A problem among the first `k` lines is the problem of all the lines.
proof fn lemma_problem_stays(ls: Seq<Seq<char>>, width: int, k: int)
    requires
        0 <= k <= ls.len(),
        first_problem(ls.take(k), width) is Some,
    ensures
        first_problem(ls, width) == first_problem(ls.take(k), width),
    decreases ls.len(),
{
    if k == ls.len() {
        assert(ls.take(k) == ls);
    } else {
        assert(ls.drop_last().take(k) == ls.take(k));
        lemma_problem_stays(ls.drop_last(), width, k);
    }
}

/// Without a problem, every line holds digits only and fits the width.
proof fn lemma_no_problem(ls: Seq<Seq<char>>, width: int, y: int)
    requires
        first_problem(ls, width) is None,
        0 <= y < ls.len(),
        0 <= width,
    ensures
        ls[y].len() <= width,
        forall|x: int| 0 <= x < ls[y].len() ==> is_digit(#[trigger] ls[y][x]),
    decreases ls.len(),
{
    if y == ls.len() - 1 {
        lemma_non_digit(ls[y], 0);
    } else {
        lemma_no_problem(ls.drop_last(), width, y);
    }
}

fn problem_of_line(line: &Vec<char>, width: usize) -> (r: Option<GridError>)
    ensures
        r == line_problem(line@, width as int),
{
    let mut stop: usize = 0;
    while stop < line.len() && ascii_digit(line[stop])
        invariant
            stop <= line@.len(),
            non_digit_from(line@, 0) == non_digit_from(line@, stop as int),
        decreases line@.len() - stop,
    {
        stop += 1;
    }
    if stop < line.len() && stop <= width {
        Some(GridError::NotADigit)
    } else if width < line.len() {
        Some(GridError::LineTooLong)
    } else {
        None
    }
}

/// Two cells of a grid that stand at the same place are the same cell.
proof fn lemma_index_injective(width: int, x: int, y: int, u: int, v: int)
    requires
        0 <= x < width,
        0 <= u < width,
        0 <= y,
        0 <= v,
        y * width + x == v * width + u,
    ensures
        x == u,
        y == v,
{
    assert((y - v) * width == u - x) by (nonlinear_arith)
        requires
            y * width + x == v * width + u,
    ;
    if y > v {
        assert((y - v) * width >= width) by (nonlinear_arith)
            requires
                y - v >= 1,
                width > 0,
        ;
    }
    if y < v {
        assert((y - v) * width <= -width) by (nonlinear_arith)
            requires
                y - v <= -1,
                width > 0,
        ;
    }
}

/// What the cell at `c` holds while the grid is being filled and the rows
/// before `y` and the columns before `x` of row `y` are done.
pub open spec fn filled(ls: Seq<Seq<char>>, c: GridCoord, x: int, y: int) -> int {
    if c.y < y || (c.y == y && c.x < x) {
        tree_height(ls, c.x as int, c.y as int)
    } else {
        0
    }
}

/// Reads a forest: one line for each row, one digit for each tree. The
/// first line gives the number of columns; a shorter line leaves trees of
/// height 0 at its end.
pub fn parse_grid(input: &str) -> (r: Result<Grid<usize>, GridError>)
    ensures
        match r {
            Ok(grid) => grid_error(lines(input@)) is None && grid_shows(grid, lines(input@)),
            Err(e) => grid_error(lines(input@)) == Some(e),
        },
{
    let chars = chars_of(input);
    let ls = split_lines(chars.as_slice());
    let ghost all = rows(ls@);
    if ls.len() == 0 {
        return Err(GridError::Empty);
    }
    let height = ls.len();
    let width = ls[0].len();
    assert(all[0] == ls@[0]@);
    let cells = match width.checked_mul(height) {
        Some(n) => n,
        None => {
            return Err(GridError::TooLarge);
        },
    };
    let mut y: usize = 0;
    assert(all.take(0) == Seq::<Seq<char>>::empty());
    while y < height
        invariant
            y <= height == ls@.len(),
            all == rows(ls@),
            all == lines(input@),
            height > 0,
            width == all[0].len(),
            width * height <= usize::MAX,
            first_problem(all.take(y as int), width as int) is None,
        decreases height - y,
    {
        proof {
            assert(all.take(y + 1).drop_last() == all.take(y as int));
            assert(all.take(y + 1).last() == ls@[y as int]@);
        }
        match problem_of_line(&ls[y], width) {
            Some(e) => {
                proof {
                    lemma_problem_stays(all, width as int, y + 1);
                }
                return Err(e);
            },
            None => {},
        }
        y += 1;
    }
    assert(all.take(height as int) == all);
    let mut grid: Grid<usize> = Grid::new(width, height);
    proof {
        assert forall|c: GridCoord| #[trigger] grid.contains(c) implies grid.at(c) == 0 by {
            lemma_cell_index(width as int, height as int, c.x as int, c.y as int);
            assert(crate::day8::grid::is_default_cell(grid.cells()[grid.index_of(c)]));
        }
    }
    let mut y: usize = 0;
    while y < height
        invariant
            y <= height == ls@.len(),
            all == rows(ls@),
            first_problem(all, width as int) is None,
            grid.wf(),
            grid.spec_width() == width,
            grid.spec_height() == height,
            forall|c: GridCoord| #[trigger] grid.contains(c) ==> grid.at(c) == filled(all, c, 0, y as int),
        decreases height - y,
    {
        let line = &ls[y];
        proof {
            lemma_no_problem(all, width as int, y as int);
            assert(all[y as int] == line@);
        }
        let mut x: usize = 0;
        while x < line.len()
            invariant
                x <= line@.len() <= width,
                y < height == ls@.len(),
                all == rows(ls@),
                line@ == all[y as int],
                forall|x: int| 0 <= x < line@.len() ==> is_digit(#[trigger] line@[x]),
                grid.wf(),
                grid.spec_width() == width,
                grid.spec_height() == height,
                forall|c: GridCoord| #[trigger]
                    grid.contains(c) ==> grid.at(c) == filled(all, c, x as int, y as int),
            decreases line@.len() - x,
        {
            let c = line[x];
            assert(is_digit(line@[x as int]));
            let value: usize = (c as u32 - '0' as u32) as usize;
            let here = GridCoord { x, y };
            let ghost before = grid;
            match grid.get_cell_mut(here) {
                Some(cell) => {
                    *cell = value;
                },
                None => {},
            }
            proof {
                lemma_cell_index(width as int, height as int, x as int, y as int);
                assert forall|c: GridCoord| #[trigger] grid.contains(c) implies grid.at(c) == filled(
                    all,
                    c,
                    x + 1,
                    y as int,
                ) by {
                    assert(before.contains(c));
                    lemma_cell_index(width as int, height as int, c.x as int, c.y as int);
                    if c.x == x && c.y == y {
                    } else {
                        if before.index_of(c) == before.index_of(here) {
                            lemma_index_injective(
                                width as int,
                                c.x as int,
                                c.y as int,
                                x as int,
                                y as int,
                            );
                        }
                        assert(grid.at(c) == before.at(c));
                    }
                }
            }
            x += 1;
        }
        proof {
            assert forall|c: GridCoord| #[trigger] grid.contains(c) implies grid.at(c) == filled(
                all,
                c,
                0,
                y + 1,
            ) by {
                assert(grid.at(c) == filled(all, c, line@.len() as int, y as int));
            }
        }
        y += 1;
    }
    Ok(grid)
}

/// One of the four ways to look along a row or a column.
#[derive(Debug, PartialEq, Eq, Clone, Copy, Structural)]
pub enum Direction {
    Up,
    Left,
    Right,
    Down,
}

/// The heights of the trees that stand in a line from the tree at `from` to
/// the edge of the forest, the nearest first.
pub open spec fn ray(grid: Grid<usize>, from: GridCoord, side: Direction) -> Seq<usize> {
    match side {
        Direction::Up => Seq::new(
            from.y as nat,
            |i: int| grid.at(GridCoord { x: from.x, y: (from.y - 1 - i) as usize }),
        ),
        Direction::Left => Seq::new(
            from.x as nat,
            |i: int| grid.at(GridCoord { x: (from.x - 1 - i) as usize, y: from.y }),
        ),
        Direction::Right => Seq::new(
            (grid.spec_width() - 1 - from.x) as nat,
            |i: int| grid.at(GridCoord { x: (from.x + 1 + i) as usize, y: from.y }),
        ),
        Direction::Down => Seq::new(
            (grid.spec_height() - 1 - from.y) as nat,
            |i: int| grid.at(GridCoord { x: from.x, y: (from.y + 1 + i) as usize }),
        ),
    }
}

/// How many of `trees` one sees over trees lower than `h`: all up to and
/// including the first that is as high as `h` or higher.
pub open spec fn visible(h: usize, trees: Seq<usize>) -> nat
    decreases trees.len(),
{
    if trees.len() == 0 {
        0
    } else if trees[0] >= h {
        1
    } else {
        1 + visible(h, trees.drop_first())
    }
}

/// How many trees one sees from the tree at `from` when looking to `side`.
pub open spec fn viewing_distance(grid: Grid<usize>, from: GridCoord, side: Direction) -> nat {
    visible(grid.at(from), ray(grid, from, side))
}

/// The scenic score of a tree: the product of its four viewing distances.
pub open spec fn scenic_score(grid: Grid<usize>, from: GridCoord) -> nat {
    viewing_distance(grid, from, Direction::Up) * viewing_distance(grid, from, Direction::Left)
        * viewing_distance(grid, from, Direction::Right) * viewing_distance(
        grid,
        from,
        Direction::Down,
    )
}

/// Counts the trees seen from `from` when looking to `side`.
fn look(grid: &Grid<usize>, from: GridCoord, side: Direction) -> (seen: usize)
    requires
        grid.wf(),
        grid.contains(from),
    ensures
        seen == viewing_distance(*grid, from, side),
{
    let h = *grid.get_cell_borrowed(from).unwrap();
    let width = grid.width();
    let height = grid.height();
    let ghost trees = ray(*grid, from, side);
    let mut at = from;
    let mut seen: usize = 0;
    assert(trees.skip(0) == trees);
    loop
        invariant
            grid.wf(),
            grid.contains(from),
            grid.contains(at),
            width == grid.spec_width(),
            height == grid.spec_height(),
            h == grid.at(from),
            trees == ray(*grid, from, side),
            seen <= trees.len(),
            side == Direction::Up ==> at.x == from.x && at.y == from.y - seen,
            side == Direction::Left ==> at.x == from.x - seen && at.y == from.y,
            side == Direction::Right ==> at.x == from.x + seen && at.y == from.y,
            side == Direction::Down ==> at.x == from.x && at.y == from.y + seen,
            visible(h, trees) == seen + visible(h, trees.skip(seen as int)),
        decreases trees.len() - seen,
    {
        let at_edge = match side {
            Direction::Up => at.y == 0,
            Direction::Left => at.x == 0,
            Direction::Right => at.x + 1 >= width,
            Direction::Down => at.y + 1 >= height,
        };
        if at_edge {
            assert(trees.skip(seen as int).len() == 0);
            return seen;
        }
        let next = match side {
            Direction::Up => GridCoord { x: at.x, y: at.y - 1 },
            Direction::Left => GridCoord { x: at.x - 1, y: at.y },
            Direction::Right => GridCoord { x: at.x + 1, y: at.y },
            Direction::Down => GridCoord { x: at.x, y: at.y + 1 },
        };
        let tree = *grid.get_cell_borrowed(next).unwrap();
        proof {
            let rest = trees.skip(seen as int);
            assert(rest[0] == trees[seen as int]);
            assert(trees[seen as int] == tree);
            assert(rest.drop_first() == trees.skip(seen + 1));
        }
        seen += 1;
        if tree >= h {
            return seen;
        }
        at = next;
    }
}

/// A product of four positive numbers is at least each of its partial
/// products.
proof fn lemma_partial_products(a: int, b: int, c: int, d: int)
    requires
        a >= 1,
        b >= 1,
        c >= 1,
        d >= 1,
    ensures
        a <= a * b <= a * b * c <= a * b * c * d,
        d <= a * b * c * d,
        c <= a * b * c,
        b <= a * b,
{
    assert(a <= a * b && b <= a * b) by (nonlinear_arith)
        requires
            a >= 1,
            b >= 1,
    ;
    let ab = a * b;
    assert(ab <= ab * c && c <= ab * c) by (nonlinear_arith)
        requires
            ab >= 1,
            c >= 1,
    ;
    let abc = ab * c;
    assert(abc <= abc * d && d <= abc * d) by (nonlinear_arith)
        requires
            abc >= 1,
            d >= 1,
    ;
}

/// The scenic score of the tree at `coord`, `None` where the forest has no
/// such tree. The score must not exceed `i32::MAX`.
pub fn get_scenic_score(grid: &Grid<usize>, coord: GridCoord) -> (r: Option<i32>)
    requires
        grid.wf(),
        grid.contains(coord) ==> scenic_score(*grid, coord) <= i32::MAX,
    ensures
        grid.contains(coord) ==> r == Some(scenic_score(*grid, coord) as i32),
        !grid.contains(coord) ==> r is None,
{
    if !grid.in_bounds(coord) {
        return None;
    }
    let up = look(grid, coord, Direction::Up);
    let left = look(grid, coord, Direction::Left);
    let right = look(grid, coord, Direction::Right);
    let down = look(grid, coord, Direction::Down);
    if up == 0 || left == 0 || right == 0 || down == 0 {
        assert(scenic_score(*grid, coord) == 0) by (nonlinear_arith)
            requires
                scenic_score(*grid, coord) == up * left * right * down,
                up == 0 || left == 0 || right == 0 || down == 0,
        ;
        return Some(0);
    }
    proof {
        lemma_partial_products(up as int, left as int, right as int, down as int);
    }
    let score = up * left * right * down;
    Some(score as i32)
}

/// Whether `best` is the highest scenic score of the forest.
pub open spec fn is_highest_score(grid: Grid<usize>, best: int) -> bool {
    &&& exists|c: GridCoord| #[trigger] grid.contains(c) && scenic_score(grid, c) == best
    &&& forall|c: GridCoord| #[trigger] grid.contains(c) ==> scenic_score(grid, c) <= best
}

/// The highest scenic score of the forest, `None` for a forest without a
/// tree. No score may exceed `i32::MAX`.
pub fn max_scenic_score(grid: &Grid<usize>) -> (r: Option<i32>)
    requires
        grid.wf(),
        forall|c: GridCoord| #[trigger] grid.contains(c) ==> scenic_score(*grid, c) <= i32::MAX,
    ensures
        match r {
            Some(best) => is_highest_score(*grid, best as int),
            None => grid.spec_width() == 0 || grid.spec_height() == 0,
        },
{
    let width = grid.width();
    let height = grid.height();
    let mut best: Option<i32> = None;
    let ghost mut where_best = GridCoord { x: 0, y: 0 };
    let mut y: usize = 0;
    while y < height
        invariant
            y <= height,
            grid.wf(),
            width == grid.spec_width(),
            height == grid.spec_height(),
            forall|c: GridCoord| #[trigger] grid.contains(c) ==> scenic_score(*grid, c) <= i32::MAX,
            best is None ==> y == 0 || width == 0,
            best matches Some(b) ==> grid.contains(where_best) && scenic_score(*grid, where_best)
                == b,
            forall|c: GridCoord| #[trigger]
                grid.contains(c) && c.y < y ==> best is Some && scenic_score(*grid, c) <= best->0,
        decreases height - y,
    {
        let mut x: usize = 0;
        while x < width
            invariant
                x <= width,
                y < height,
                grid.wf(),
                width == grid.spec_width(),
                height == grid.spec_height(),
                forall|c: GridCoord| #[trigger]
                    grid.contains(c) ==> scenic_score(*grid, c) <= i32::MAX,
                best is None ==> x == 0 && (y == 0 || width == 0),
                best matches Some(b) ==> grid.contains(where_best) && scenic_score(
                    *grid,
                    where_best,
                ) == b,
                forall|c: GridCoord| #[trigger]
                    grid.contains(c) && (c.y < y || (c.y == y && c.x < x)) ==> best is Some
                        && scenic_score(*grid, c) <= best->0,
            decreases width - x,
        {
            let here = GridCoord { x, y };
            assert(grid.contains(here));
            let score = get_scenic_score(grid, here).unwrap();
            let better = match best {
                Some(b) => score > b,
                None => true,
            };
            if better {
                best = Some(score);
                proof {
                    where_best = here;
                }
            }
            x += 1;
        }
        y += 1;
    }
    best
}

} // verus!
