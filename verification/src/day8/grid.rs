//! A rectangular grid of cells, stored row by row.

use vstd::prelude::*;
use vstd::std_specs::convert::FromSpecImpl;
use vstd::string::StringExecFns;

verus! {

/// The column `x` and the row `y` of a cell.
#[derive(Clone, Copy, PartialEq, Eq, Debug, Structural)]
pub struct GridCoord {
    pub x: usize,
    pub y: usize,
}

impl From<(usize, usize)> for GridCoord {
    fn from(pair: (usize, usize)) -> (coord: GridCoord) {
        GridCoord { x: pair.0, y: pair.1 }
    }
}

impl FromSpecImpl<(usize, usize)> for GridCoord {
    open spec fn obeys_from_spec() -> bool {
        true
    }

    open spec fn from_spec(pair: (usize, usize)) -> GridCoord {
        GridCoord { x: pair.0, y: pair.1 }
    }
}

/// A grid of `width` columns and `height` rows.
pub struct Grid<T> {
    pub width: usize,
    pub height: usize,
    data: Vec<T>,
}

/// Whether `cell` is a clone of a default value of its type.
pub open spec fn is_default_cell<T: Default + Clone>(cell: T) -> bool {
    exists|d: T| call_ensures(T::default, (), d) && cloned(d, cell)
}

/// A cell of a row lies before the end of the grid's cells.
pub proof fn lemma_cell_index(width: int, height: int, x: int, y: int)
    requires
        0 <= x < width,
        0 <= y < height,
    ensures
        0 <= y * width + x < width * height,
        0 <= y * width,
{
    assert(y * width + width == (y + 1) * width) by (nonlinear_arith);
    assert((y + 1) * width <= height * width) by (nonlinear_arith)
        requires
            y + 1 <= height,
            width >= 0,
    ;
    assert(height * width == width * height) by (nonlinear_arith);
    assert(0 <= y * width) by (nonlinear_arith)
        requires
            0 <= y,
            0 <= width,
    ;
}

impl<T> Grid<T> {
    /// The cells, row after row.
    pub closed spec fn cells(&self) -> Seq<T> {
        self.data@
    }

    /// The number of columns.
    pub closed spec fn spec_width(&self) -> usize {
        self.width
    }

    /// The number of rows.
    pub closed spec fn spec_height(&self) -> usize {
        self.height
    }

    /// A grid holds one cell for each column of each row.
    pub open spec fn wf(&self) -> bool {
        self.cells().len() == self.spec_width() * self.spec_height()
    }

    /// Whether the grid has a cell at `coord`.
    pub open spec fn contains(&self, coord: GridCoord) -> bool {
        coord.x < self.spec_width() && coord.y < self.spec_height()
    }

    /// Where the cell at `coord` stands among the cells.
    pub open spec fn index_of(&self, coord: GridCoord) -> int {
        coord.y * self.spec_width() + coord.x
    }

    /// The cell at `coord`.
    pub open spec fn at(&self, coord: GridCoord) -> T {
        self.cells()[self.index_of(coord)]
    }
}

impl<T> Grid<T> where T: Default + Clone {
    /// A grid whose cells are all clones of the default value.
    pub fn new(width: usize, height: usize) -> (grid: Grid<T>)
        requires
            width * height <= usize::MAX,
        ensures
            grid.wf(),
            grid.spec_width() == width,
            grid.spec_height() == height,
            forall|i: int| 0 <= i < grid.cells().len() ==> is_default_cell(#[trigger] grid.cells()[i]),
    {
        let d = T::default();
        let data = vec![d; width * height];
        Grid { width, height, data }
    }

    /// Whether the grid has a cell at `coord`.
    pub fn in_bounds(&self, coord: GridCoord) -> (b: bool)
        ensures
            b == self.contains(coord),
    {
        coord.x < self.width && coord.y < self.height
    }

    /// The cell at `coord`, to be written to; `None` outside the grid.
    pub fn get_cell_mut(&mut self, coord: GridCoord) -> (cell: Option<&mut T>)
        requires
            old(self).wf(),
        ensures
            final(self).spec_width() == old(self).spec_width(),
            final(self).spec_height() == old(self).spec_height(),
            final(self).wf(),
            !old(self).contains(coord) ==> cell is None && final(self).cells() == old(self).cells(),
            old(self).contains(coord) ==> cell is Some && *cell.unwrap() == old(self).at(coord)
                && final(self).cells() == old(self).cells().update(
                old(self).index_of(coord),
                *final(cell.unwrap()),
            ),
    {
        if !self.in_bounds(coord) {
            return None;
        }
        proof {
            lemma_cell_index(self.width as int, self.height as int, coord.x as int, coord.y as int);
            vstd::std_specs::vec::axiom_spec_len(&self.data);
        }
        Some(&mut self.data[coord.y * self.width + coord.x])
    }

    /// The cell at `coord`; `None` outside the grid.
    pub fn get_cell_borrowed(&self, cord: GridCoord) -> (cell: Option<&T>)
        requires
            self.wf(),
        ensures
            !self.contains(cord) ==> cell is None,
            self.contains(cord) ==> cell is Some && *cell.unwrap() == self.at(cord),
    {
        if !self.in_bounds(cord) {
            return None;
        }
        proof {
            lemma_cell_index(self.width as int, self.height as int, cord.x as int, cord.y as int);
            vstd::std_specs::vec::axiom_spec_len(&self.data);
        }
        Some(&self.data[cord.y * self.width + cord.x])
    }

    /// The number of columns.
    pub fn width(&self) -> (w: usize)
        ensures
            w == self.spec_width(),
    {
        self.width
    }

    /// The number of rows.
    pub fn height(&self) -> (h: usize)
        ensures
            h == self.spec_height(),
    {
        self.height
    }
}

/// The character that writes the digit `d`.
pub open spec fn digit_char(d: int) -> char {
    if d == 0 {
        '0'
    } else if d == 1 {
        '1'
    } else if d == 2 {
        '2'
    } else if d == 3 {
        '3'
    } else if d == 4 {
        '4'
    } else if d == 5 {
        '5'
    } else if d == 6 {
        '6'
    } else if d == 7 {
        '7'
    } else if d == 8 {
        '8'
    } else {
        '9'
    }
}

/// The number `n` written in decimal digits, without leading zeros.
pub open spec fn decimal_text(n: nat) -> Seq<char>
    decreases n,
{
    if n < 10 {
        seq![digit_char(n as int)]
    } else {
        decimal_text(n / 10).push(digit_char((n % 10) as int))
    }
}

/// The cells `from..to` written in decimal, a space between each two.
pub open spec fn row_text(cells: Seq<usize>, from: int, to: int) -> Seq<char>
    decreases to - from,
{
    if from >= to {
        Seq::empty()
    } else if from + 1 == to {
        decimal_text(cells[from] as nat)
    } else {
        row_text(cells, from, to - 1) + seq![' '] + decimal_text(cells[to - 1] as nat)
    }
}

/// The first `rows` rows of `width` cells each, a line feed before each
/// row.
pub open spec fn rows_text(cells: Seq<usize>, width: int, rows: int) -> Seq<char>
    decreases rows,
{
    if rows <= 0 {
        Seq::empty()
    } else {
        rows_text(cells, width, rows - 1) + seq!['\n'] + row_text(
            cells,
            (rows - 1) * width,
            rows * width,
        )
    }
}

fn digit_text(d: usize) -> (text: &'static str)
    requires
        d < 10,
    ensures
        text@ == seq![digit_char(d as int)],
{
    proof {
        reveal_strlit("0");
        reveal_strlit("1");
        reveal_strlit("2");
        reveal_strlit("3");
        reveal_strlit("4");
        reveal_strlit("5");
        reveal_strlit("6");
        reveal_strlit("7");
        reveal_strlit("8");
        reveal_strlit("9");
    }
    let text = if d == 0 {
        "0"
    } else if d == 1 {
        "1"
    } else if d == 2 {
        "2"
    } else if d == 3 {
        "3"
    } else if d == 4 {
        "4"
    } else if d == 5 {
        "5"
    } else if d == 6 {
        "6"
    } else if d == 7 {
        "7"
    } else if d == 8 {
        "8"
    } else {
        "9"
    };
    assert(text@ =~= seq![digit_char(d as int)]);
    text
}

/// The characters that `digits` write, the last digit first.
pub open spec fn written_backwards(digits: Seq<usize>) -> Seq<char> {
    Seq::new(digits.len(), |i: int| digit_char(digits[digits.len() - 1 - i] as int))
}

/// Appends the decimal digits of `n` to `out`.
fn append_decimal(out: &mut String, n: usize)
    ensures
        final(out)@ == old(out)@ + decimal_text(n as nat),
{
    let mut digits: Vec<usize> = Vec::new();
    let mut rest: usize = n;
    assert(written_backwards(digits@) =~= Seq::<char>::empty());
    while rest >= 10
        invariant
            decimal_text(n as nat) == decimal_text(rest as nat) + written_backwards(digits@),
            forall|i: int| 0 <= i < digits@.len() ==> #[trigger] digits@[i] < 10,
        decreases rest,
    {
        let ghost before = digits@;
        digits.push(rest % 10);
        proof {
            assert(written_backwards(digits@) =~= seq![digit_char((rest % 10) as int)]
                + written_backwards(before));
            assert(decimal_text(rest as nat) == decimal_text((rest / 10) as nat).push(
                digit_char((rest % 10) as int),
            ));
            assert(decimal_text((rest / 10) as nat).push(digit_char((rest % 10) as int))
                + written_backwards(before) =~= decimal_text((rest / 10) as nat) + (seq![
                digit_char((rest % 10) as int),
            ] + written_backwards(before)));
        }
        rest = rest / 10;
    }
    let ghost start = out@;
    out.append(digit_text(rest));
    let ghost all = written_backwards(digits@);
    let mut k: usize = digits.len();
    assert(all.take(0) == Seq::<char>::empty());
    while k > 0
        invariant
            k <= digits@.len(),
            all == written_backwards(digits@),
            forall|i: int| 0 <= i < digits@.len() ==> #[trigger] digits@[i] < 10,
            out@ == start + decimal_text(rest as nat) + all.take(digits@.len() - k),
        decreases k,
    {
        k -= 1;
        let ghost sofar = out@;
        out.append(digit_text(digits[k]));
        proof {
            let taken = digits@.len() - k;
            assert(all.take(taken) =~= all.take(taken - 1).push(digit_char(digits@[k as int] as int)));
            assert(out@ =~= start + decimal_text(rest as nat) + all.take(taken));
        }
    }
    proof {
        assert(all.take(digits@.len() as int) == all);
        assert(out@ =~= start + decimal_text(n as nat));
    }
}

impl Grid<usize> {
    /// The grid as text: a line feed before each row, and in a row the
    /// cells in decimal with a space between each two.
    pub open spec fn text(&self) -> Seq<char> {
        rows_text(self.cells(), self.spec_width() as int, self.spec_height() as int)
    }

    /// Writes the grid as text, row after row.
    pub fn render(&self) -> (out: String)
        requires
            self.wf(),
        ensures
            out@ == self.text(),
    {
        proof {
            reveal_strlit(" ");
            reveal_strlit("\n");
        }
        let mut out = String::new();
        let ghost cells = self.cells();
        let mut row: usize = 0;
        while row < self.height
            invariant
                row <= self.height,
                self.wf(),
                cells == self.cells(),
                " "@ == seq![' '],
                "\n"@ == seq!['\n'],
                out@ == rows_text(cells, self.width as int, row as int),
            decreases self.height - row,
        {
            proof {
                let w = self.width as int;
                let h = self.height as int;
                let r = row as int;
                vstd::std_specs::vec::axiom_spec_len(&self.data);
                assert((r + 1) * w == r * w + w) by (nonlinear_arith);
                assert((r + 1) * w <= h * w) by (nonlinear_arith)
                    requires
                        r + 1 <= h,
                        0 <= w,
                ;
                assert(0 <= r * w) by (nonlinear_arith)
                    requires
                        0 <= r,
                        0 <= w,
                ;
                assert(h * w == w * h) by (nonlinear_arith);
            }
            let ghost before = out@;
            out.append("\n");
            let start_index = row * self.width;
            let end_index = start_index + self.width;
            let mut at: usize = start_index;
            while at < end_index
                invariant
                    start_index <= at <= end_index <= self.data@.len(),
                    cells == self.data@,
                    " "@ == seq![' '],
                    out@ == before + seq!['\n'] + row_text(cells, start_index as int, at as int),
                decreases end_index - at,
            {
                if at > start_index {
                    out.append(" ");
                }
                append_decimal(&mut out, self.data[at]);
                proof {
                    if at > start_index {
                        assert(out@ =~= before + seq!['\n'] + (row_text(
                            cells,
                            start_index as int,
                            at as int,
                        ) + seq![' '] + decimal_text(cells[at as int] as nat)));
                    } else {
                        assert(row_text(cells, start_index as int, at as int) =~= Seq::<
                            char,
                        >::empty());
                        assert(out@ =~= before + seq!['\n'] + decimal_text(cells[at as int] as nat));
                    }
                }
                at += 1;
            }
            row += 1;
        }
        out
    }
}

} // verus!
