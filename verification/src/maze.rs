//! The grid data model: cells, points and a rectangular grid of values.

pub use crate::point::Point;
use vstd::prelude::*;
use vstd::std_specs::cmp::PartialEqSpecImpl;
use vstd::string::{StrSliceExecFns, StringExecFns};

verus! {

/// One grid cell: traversable or blocking.
#[derive(Copy, Clone, Eq, PartialEq, Hash, Debug, Structural)]
pub enum Cell {
    Space,
    Wall,
}

/// A rectangular grid stored row by row.
#[derive(Debug)]
pub struct Grid<T> {
    data: Vec<T>,
    rows: usize,
    cols: usize,
}

/// A grid of cells.
pub type Maze = Grid<Cell>;

/// The largest number of cells a grid may hold. With at most this many cells
/// the length of a route of three segments always fits in a `usize`.
pub const MAX_CELLS: usize = usize::MAX / 4;

/// A cell inside a `rows` by `cols` rectangle has a row-major position below
/// `rows * cols`.
pub proof fn lemma_index_in_range(rows: int, cols: int, r: int, c: int)
    requires
        0 <= r < rows,
        0 <= c < cols,
    ensures
        0 <= r * cols + c < rows * cols,
{
    assert(r * cols + c < rows * cols) by (nonlinear_arith)
        requires
            0 <= r < rows,
            0 <= c < cols,
    {
        assert((r + 1) * cols <= rows * cols);
    }
    assert(0 <= r * cols) by (nonlinear_arith)
        requires
            0 <= r,
            0 <= cols,
    ;
}

/// A row-major position splits into its row and column.
pub proof fn lemma_index_split(cols: int, i: int)
    requires
        0 < cols,
        0 <= i,
    ensures
        0 <= i / cols,
        0 <= i % cols < cols,
        (i / cols) * cols + i % cols == i,
{
    assert(0 <= i / cols && 0 <= i % cols < cols && (i / cols) * cols + i % cols == i)
        by (nonlinear_arith)
        requires
            0 < cols,
            0 <= i,
    ;
}

/// The row and column of a row-major position are those it was built from.
pub proof fn lemma_index_unique(cols: int, r: int, c: int)
    requires
        0 <= r,
        0 <= c < cols,
    ensures
        (r * cols + c) / cols == r,
        (r * cols + c) % cols == c,
{
    assert((r * cols + c) / cols == r && (r * cols + c) % cols == c) by (nonlinear_arith)
        requires
            0 <= r,
            0 <= c < cols,
    ;
}

/// A grid as a mathematical value: its dimensions and its cells in row-major
/// order.
pub struct GridView<T> {
    pub rows: nat,
    pub cols: nat,
    pub cells: Seq<T>,
}

/// A maze as a mathematical value.
pub type MazeView = GridView<Cell>;

impl<T> GridView<T> {
    /// There are exactly `rows * cols` cells, and no more than `MAX_CELLS`.
    pub open spec fn wf(self) -> bool {
        &&& self.cells.len() == self.rows * self.cols
        &&& self.rows * self.cols <= MAX_CELLS
    }

    /// Whether `point` addresses a cell.
    pub open spec fn in_bounds(self, point: Point) -> bool {
        point.0 < self.rows && point.1 < self.cols
    }

    /// The row-major position of `point`.
    pub open spec fn index(self, point: Point) -> int {
        point.0 * self.cols + point.1
    }

    /// The value stored at `point`; meaningful for points in bounds.
    pub open spec fn at(self, point: Point) -> T {
        self.cells[self.index(point)]
    }

    /// The same grid with `value` stored at `point`.
    pub open spec fn with(self, point: Point, value: T) -> Self {
        GridView { cells: self.cells.update(self.index(point), value), ..self }
    }
}

impl<T> View for Grid<T> {
    type V = GridView<T>;

    /// The dimensions and the cells of the grid.
    closed spec fn view(&self) -> GridView<T> {
        GridView { rows: self.rows as nat, cols: self.cols as nat, cells: self.data@ }
    }
}

impl<T> Grid<T> {
    /// The buffer holds exactly `rows * cols` cells, and no more than
    /// `MAX_CELLS`.
    #[verifier::type_invariant]
    spec fn inv(&self) -> bool {
        self@.wf()
    }

    /// The number of rows.
    pub fn rows(&self) -> (rows: usize)
        ensures
            rows == self@.rows,
            self@.wf(),
    {
        proof {
            use_type_invariant(self);
        }
        self.rows
    }

    /// The number of columns.
    pub fn cols(&self) -> (cols: usize)
        ensures
            cols == self@.cols,
            self@.wf(),
    {
        proof {
            use_type_invariant(self);
        }
        self.cols
    }

    /// The cells in row-major order.
    pub fn cells(&self) -> (cells: &Vec<T>)
        ensures
            cells@ == self@.cells,
            self@.wf(),
    {
        proof {
            use_type_invariant(self);
        }
        &self.data
    }

    /// Whether `point` addresses a cell of this grid.
    pub fn in_bounds(&self, point: Point) -> (b: bool)
        ensures
            b == self@.in_bounds(point),
            self@.wf(),
    {
        proof {
            use_type_invariant(self);
        }
        point.0 < self.rows && point.1 < self.cols
    }

    /// The row-major position of `point`, or `None` when it lies outside.
    pub fn get_index(&self, point: Point) -> (index: Option<usize>)
        ensures
            match index {
                Some(i) => self@.in_bounds(point) && i == self@.index(point) && i
                    < self@.cells.len(),
                None => !self@.in_bounds(point),
            },
            self@.wf(),
    {
        proof {
            use_type_invariant(self);
        }
        if point.0 < self.rows && point.1 < self.cols {
            proof {
                lemma_index_in_range(
                    self.rows as int,
                    self.cols as int,
                    point.0 as int,
                    point.1 as int,
                );
            }
            Some(point.0 * self.cols + point.1)
        } else {
            None
        }
    }
}

/// The number of cells of a `rows` by `cols` grid, or `None` where that is
/// more than `MAX_CELLS`.
pub fn cell_count(rows: usize, cols: usize) -> (count: Option<usize>)
    ensures
        match count {
            Some(count) => count == rows * cols && count <= MAX_CELLS,
            None => rows * cols > MAX_CELLS,
        },
{
    if cols == 0 {
        assert(rows * cols == 0) by (nonlinear_arith)
            requires
                cols == 0,
        ;
        return Some(0);
    }
    let most_rows: usize = MAX_CELLS / cols;
    proof {
        lemma_index_split(cols as int, MAX_CELLS as int);
    }
    if rows <= most_rows {
        assert(0 <= rows * cols <= MAX_CELLS) by (nonlinear_arith)
            requires
                0 <= rows <= most_rows,
                most_rows * cols <= MAX_CELLS,
                cols > 0,
        ;
        Some(rows * cols)
    } else {
        assert(rows * cols > MAX_CELLS) by (nonlinear_arith)
            requires
                rows >= most_rows + 1,
                most_rows * cols + cols > MAX_CELLS,
                cols > 0,
        ;
        None
    }
}

impl<T: Copy> Grid<T> {
    /// A `rows` by `cols` grid with `default_value` in every cell.
    pub fn new(rows: usize, cols: usize, default_value: T) -> (grid: Self)
        requires
            rows * cols <= MAX_CELLS,
        ensures
            grid@.wf(),
            grid@.rows == rows,
            grid@.cols == cols,
            forall|i: int| 0 <= i < rows * cols ==> grid@.cells[i] == default_value,
    {
        assert(0 <= rows * cols) by (nonlinear_arith);
        let count: usize = rows * cols;
        let mut data: Vec<T> = Vec::new();
        let mut filled: usize = 0;
        while filled < count
            invariant
                filled <= count,
                data@.len() == filled,
                forall|i: int| 0 <= i < filled ==> data@[i] == default_value,
            decreases count - filled,
        {
            data.push(default_value);
            filled = filled + 1;
        }
        Grid { data, rows, cols }
    }

    /// A `rows` by `cols` grid with `default_value` in every cell, or `None`
    /// where such a grid would have more than `MAX_CELLS` cells.
    pub fn try_new(rows: usize, cols: usize, default_value: T) -> (grid: Option<Self>)
        ensures
            match grid {
                Some(grid) => {
                    &&& rows * cols <= MAX_CELLS
                    &&& grid@.wf()
                    &&& grid@.rows == rows
                    &&& grid@.cols == cols
                    &&& forall|i: int| 0 <= i < rows * cols ==> grid@.cells[i] == default_value
                },
                None => rows * cols > MAX_CELLS,
            },
    {
        match cell_count(rows, cols) {
            Some(_) => Some(Grid::new(rows, cols, default_value)),
            None => None,
        }
    }

    /// Every cell with its row and column, in row-major order.
    pub fn iter(&self) -> (items: Vec<(usize, usize, T)>)
        ensures
            self@.wf(),
            items@.len() == self@.cells.len(),
            forall|i: int|
                0 <= i < items@.len() ==> {
                    let item = #[trigger] items@[i];
                    &&& self@.in_bounds(Point(item.0, item.1))
                    &&& self@.index(Point(item.0, item.1)) == i
                    &&& item.2 == self@.cells[i]
                },
    {
        proof {
            use_type_invariant(self);
        }
        let mut items: Vec<(usize, usize, T)> = Vec::new();
        let mut i: usize = 0;
        while i < self.data.len()
            invariant
                self@.wf(),
                i <= self@.cells.len(),
                items@.len() == i,
                forall|k: int|
                    0 <= k < i ==> {
                        let item = #[trigger] items@[k];
                        &&& self@.in_bounds(Point(item.0, item.1))
                        &&& self@.index(Point(item.0, item.1)) == k
                        &&& item.2 == self@.cells[k]
                    },
            decreases self@.cells.len() - i,
        {
            proof {
                if self.cols == 0 {
                    assert(self.rows * self.cols == 0) by (nonlinear_arith)
                        requires
                            self.cols == 0,
                    ;
                }
                lemma_index_split(self.cols as int, i as int);
                let r = i as int / (self.cols as int);
                if r >= self.rows {
                    assert(r * self.cols >= self.rows * self.cols) by (nonlinear_arith)
                        requires
                            r >= self.rows,
                            self.cols > 0,
                    ;
                }
            }
            let row: usize = i / self.cols;
            let col: usize = i % self.cols;
            items.push((row, col, self.data[i]));
            i = i + 1;
        }
        items
    }

    /// The value at `point`.
    pub fn get(&self, point: Point) -> (value: T)
        requires
            self@.in_bounds(point),
        ensures
            value == self@.at(point),
    {
        proof {
            use_type_invariant(self);
            lemma_index_in_range(
                self.rows as int,
                self.cols as int,
                point.0 as int,
                point.1 as int,
            );
        }
        self.data[point.0 * self.cols + point.1]
    }

    /// Stores `value` at `point` and leaves every other cell as it was.
    pub fn set(&mut self, point: Point, value: T)
        requires
            old(self)@.in_bounds(point),
        ensures
            final(self)@ == old(self)@.with(point, value),
            final(self)@.wf(),
    {
        proof {
            use_type_invariant(&*self);
            lemma_index_in_range(
                self.rows as int,
                self.cols as int,
                point.0 as int,
                point.1 as int,
            );
        }
        let index: usize = point.0 * self.cols + point.1;
        self.data[index] = value;
    }
}

impl<T: Copy> Clone for Grid<T> {
    /// An independent copy with the same dimensions and cells.
    fn clone(&self) -> (copy: Self)
        ensures
            copy@ == self@,
    {
        proof {
            use_type_invariant(self);
        }
        let mut data: Vec<T> = Vec::new();
        let mut i: usize = 0;
        while i < self.data.len()
            invariant
                i <= self.data@.len(),
                data@ == self.data@.subrange(0, i as int),
            decreases self.data@.len() - i,
        {
            data.push(self.data[i]);
            assert(data@ =~= self.data@.subrange(0, i + 1));
            i = i + 1;
        }
        assert(data@ =~= self.data@);
        Grid { data, rows: self.rows, cols: self.cols }
    }
}

impl Cell {
    /// The character that stands for a cell in a serialization.
    pub open spec fn symbol(self) -> char {
        match self {
            Cell::Space => '.',
            Cell::Wall => '#',
        }
    }
}

impl AsRef<str> for Cell {
    /// The symbol of the cell as a string of one character.
    fn as_ref(&self) -> (text: &str)
        ensures
            text@ == seq![self.symbol()],
    {
        match self {
            Cell::Space => {
                proof {
                    reveal_strlit(".");
                }
                assert(("."@) =~= seq!['.']);
                "."
            },
            Cell::Wall => {
                proof {
                    reveal_strlit("#");
                }
                assert(("#"@) =~= seq!['#']);
                "#"
            },
        }
    }
}

/// The serialization of a layout: the symbols of its cells in row-major
/// order, with nothing between them.
pub open spec fn serialization(cells: Seq<Cell>) -> Seq<char> {
    Seq::new(cells.len(), |i: int| cells[i].symbol())
}

/// Whether `text` is made of cell symbols alone.
pub open spec fn is_serialization(text: Seq<char>) -> bool {
    forall|i: int| 0 <= i < text.len() ==> text[i] == '.' || text[i] == '#'
}

/// The layout that a serialization stands for.
pub open spec fn layout(text: Seq<char>) -> Seq<Cell> {
    Seq::new(
        text.len(),
        |i: int|
            if text[i] == '#' {
                Cell::Wall
            } else {
                Cell::Space
            },
    )
}

/// Reading a serialization back gives the layout it was made from.
pub proof fn lemma_serialization_round_trip(cells: Seq<Cell>)
    ensures
        serialization(cells).len() == cells.len(),
        is_serialization(serialization(cells)),
        layout(serialization(cells)) == cells,
{
    assert(layout(serialization(cells)) =~= cells);
}

/// Serializing the layout of a text made of cell symbols gives the text.
pub proof fn lemma_layout_round_trip(text: Seq<char>)
    requires
        is_serialization(text),
    ensures
        serialization(layout(text)) == text,
{
    assert(serialization(layout(text)) =~= text);
}

/// Two layouts with the same serialization are the same layout.
pub proof fn lemma_serialization_injective(a: Seq<Cell>, b: Seq<Cell>)
    requires
        serialization(a) == serialization(b),
    ensures
        a == b,
{
    lemma_serialization_round_trip(a);
    lemma_serialization_round_trip(b);
}

impl Grid<Cell> {
    /// The maze of the given dimensions that `text` is the serialization
    /// of, or `None` where `text` is no serialization of such a maze or the
    /// maze would have more than `MAX_CELLS` cells.
    pub fn from_text(rows: usize, cols: usize, text: &str) -> (maze: Option<Maze>)
        ensures
            match maze {
                Some(maze) => {
                    &&& text@.len() == rows * cols <= MAX_CELLS
                    &&& is_serialization(text@)
                    &&& maze@.rows == rows
                    &&& maze@.cols == cols
                    &&& maze@.cells == layout(text@)
                },
                None => text@.len() != rows * cols || rows * cols > MAX_CELLS
                    || !is_serialization(text@),
            },
    {
        let count = match cell_count(rows, cols) {
            Some(count) => count,
            None => {
                return None;
            },
        };
        if text.unicode_len() != count {
            return None;
        }
        let mut data: Vec<Cell> = Vec::new();
        let mut i: usize = 0;
        while i < count
            invariant
                i <= count,
                count == text@.len(),
                data@.len() == i,
                is_serialization(text@.subrange(0, i as int)),
                data@ == layout(text@.subrange(0, i as int)),
            decreases count - i,
        {
            let symbol = text.get_char(i);
            let cell = if symbol == '.' {
                Cell::Space
            } else if symbol == '#' {
                Cell::Wall
            } else {
                assert(!(text@[i as int] == '.' || text@[i as int] == '#'));
                return None;
            };
            data.push(cell);
            proof {
                let longer = text@.subrange(0, i + 1);
                assert forall|k: int| 0 <= k < longer.len() implies longer[k] == '.' || longer[k]
                    == '#' by {
                    if k < i {
                        assert(text@.subrange(0, i as int)[k] == longer[k]);
                    }
                }
                assert(data@ =~= layout(longer));
            }
            i = i + 1;
        }
        assert(text@.subrange(0, i as int) =~= text@);
        Some(Grid { data, rows, cols })
    }

    /// The serialization of the maze.
    pub fn to_string(&self) -> (text: String)
        ensures
            text@ == serialization(self@.cells),
    {
        let mut text = String::new();
        let mut i: usize = 0;
        while i < self.data.len()
            invariant
                i <= self.data@.len(),
                text@ == serialization(self.data@.subrange(0, i as int)),
            decreases self.data@.len() - i,
        {
            let symbol = self.data[i].as_ref();
            text.append(symbol);
            assert(text@ =~= serialization(self.data@.subrange(0, i + 1)));
            i = i + 1;
        }
        assert(self.data@.subrange(0, i as int) =~= self.data@);
        text
    }
}

impl<T> vstd::std_specs::core::IndexSpecImpl<Point> for Grid<T> {
    /// Indexing asks for a point in bounds.
    open spec fn index_req(&self, index: &Point) -> bool {
        self@.in_bounds(*index)
    }
}

impl<T> core::ops::Index<Point> for Grid<T> {
    type Output = T;

    /// The value at `point`.
    fn index(&self, point: Point) -> (value: &T)
        ensures
            *value == self@.at(point),
    {
        proof {
            use_type_invariant(self);
            lemma_index_in_range(
                self.rows as int,
                self.cols as int,
                point.0 as int,
                point.1 as int,
            );
        }
        &self.data[point.0 * self.cols + point.1]
    }
}

impl PartialEq for Grid<Cell> {
    /// Two mazes are equal when they have the same dimensions and the same
    /// cells.
    fn eq(&self, other: &Self) -> (equal: bool) {
        if self.rows != other.rows || self.cols != other.cols {
            return false;
        }
        if self.data.len() != other.data.len() {
            return false;
        }
        let mut i: usize = 0;
        while i < self.data.len()
            invariant
                self.data@.len() == other.data@.len(),
                i <= self.data@.len(),
                forall|k: int| 0 <= k < i ==> self.data@[k] == other.data@[k],
            decreases self.data@.len() - i,
        {
            if self.data[i] != other.data[i] {
                return false;
            }
            i = i + 1;
        }
        assert(self.data@ =~= other.data@);
        true
    }
}

impl PartialEqSpecImpl for Grid<Cell> {
    /// `==` on mazes is what `eq_spec` says.
    open spec fn obeys_eq_spec() -> bool {
        true
    }

    /// Two mazes are equal when they have the same dimensions and the same
    /// cells.
    open spec fn eq_spec(&self, other: &Self) -> bool {
        self@ == other@
    }
}

impl Eq for Grid<Cell> {

}

} // verus!
