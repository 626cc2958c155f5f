//! The grid itself: its shape, and the mapping between cell indices and
//! coordinates.

use vstd::prelude::*;

verus! {

/// Why a sequence of rows could not be turned into a [`Grid`].
#[derive(Debug, Clone, Copy, PartialEq, Eq, Structural)]
pub enum GridParseError {
    /// No rows were supplied.
    GridEmpty,
    /// Some row is not as long as the first one.
    InconsistentLineLengths,
}

/// A rectangular field of characters, stored row by row.
#[derive(Debug, Clone)]
pub struct Grid {
    pub letters: Vec<char>,
    pub width: usize,
    pub height: usize,
}

/// Every row is as long as the first one.
pub open spec fn rectangular(rows: Seq<Seq<char>>) -> bool {
    forall|y: int| 0 <= y < rows.len() ==> (#[trigger] rows[y]).len() == rows[0].len()
}

/// The position of column `x`, row `y` in a row-major layout of the given width.
pub open spec fn row_major(width: int, x: int, y: int) -> int {
    x + width * y
}

/// A cell inside a `width` by `height` rectangle has its position below
/// `width * height`.
pub proof fn lemma_row_major_bounds(width: int, height: int, x: int, y: int)
    requires
        0 <= x < width,
        0 <= y < height,
    ensures
        0 <= row_major(width, x, y) < width * height,
        width * y <= row_major(width, x, y) < width * (y + 1),
{
    assert(0 <= width * y) by (nonlinear_arith)
        requires
            0 <= width,
            0 <= y,
    ;
    assert(width * (y + 1) <= width * height) by (nonlinear_arith)
        requires
            0 <= width,
            y + 1 <= height,
    ;
    assert(width * (y + 1) == width * y + width) by (nonlinear_arith);
}

impl Grid {
    /// The grid is non-empty and `letters` holds exactly `width * height` cells.
    pub open spec fn wf(&self) -> bool {
        &&& self.width > 0
        &&& self.height > 0
        &&& self.letters.len() == self.width * self.height
    }

    /// The coordinate `(x, y)` of the cell with the given row-major index.
    pub open spec fn coordinate_of(&self, index: int) -> (int, int) {
        (index % (self.width as int), index / (self.width as int))
    }

    /// The row-major index of the cell at column `x` and row `y`.
    pub open spec fn index_of(&self, x: int, y: int) -> int {
        row_major(self.width as int, x, y)
    }

    /// Column `x` and row `y` name a cell of the grid.
    pub open spec fn in_bounds(&self, x: int, y: int) -> bool {
        0 <= x < self.width && 0 <= y < self.height
    }

    /// Builds a grid from its rows, top row first.
    ///
    /// At least one row must hold a character: rows that are all empty have
    /// no width to divide the cells by.
    pub fn from_vec(lines: Vec<Vec<char>>) -> (result: Result<Grid, GridParseError>)
        requires
            lines@.len() > 0 && rectangular(lines.deep_view()) ==> lines@[0]@.len() > 0,
        ensures
            match result {
                Ok(grid) => {
                    &&& lines@.len() > 0
                    &&& rectangular(lines.deep_view())
                    &&& grid.wf()
                    &&& grid.width == lines@[0]@.len()
                    &&& grid.height == lines@.len()
                    &&& grid.letters@ == lines.deep_view().flatten()
                    &&& forall|x: int, y: int|
                        grid.in_bounds(x, y) ==> grid.letters@[#[trigger] grid.index_of(x, y)]
                            == lines@[y]@[x]
                },
                Err(GridParseError::GridEmpty) => lines@.len() == 0,
                Err(GridParseError::InconsistentLineLengths) => {
                    &&& lines@.len() > 0
                    &&& !rectangular(lines.deep_view())
                },
            },
    {
        if lines.len() == 0 {
            return Err(GridParseError::GridEmpty);
        }
        let ghost rows = lines.deep_view();
        let width: usize = lines[0].len();
        let mut letters: Vec<char> = Vec::new();
        let mut y: usize = 0;
        while y < lines.len()
            invariant
                rows == lines.deep_view(),
                0 < lines@.len(),
                y <= lines@.len(),
                width == lines@[0]@.len(),
                forall|j: int| 0 <= j < y ==> (#[trigger] lines@[j])@.len() == width,
                letters@.len() == width * y,
                letters@ == rows.take(y as int).flatten(),
                forall|i: int, j: int|
                    0 <= i < width && 0 <= j < y ==> letters@[#[trigger] row_major(
                        width as int,
                        i,
                        j,
                    )] == lines@[j]@[i],
            decreases lines@.len() - y,
        {
            let line = &lines[y];
            if line.len() != width {
                proof {
                    assert(rows[y as int].len() != rows[0].len());
                }
                return Err(GridParseError::InconsistentLineLengths);
            }
            let ghost before = letters@;
            let mut x: usize = 0;
            while x < width
                invariant
                    x <= width,
                    line@.len() == width,
                    letters@ == before + line@.take(x as int),
                decreases width - x,
            {
                letters.push(line[x]);
                proof {
                    assert(line@.take(x + 1) =~= line@.take(x as int).push(line@[x as int]));
                }
                x += 1;
            }
            proof {
                assert(line@.take(width as int) =~= line@);
                assert(rows[y as int] =~= line@);
                assert(rows.take(y + 1) =~= rows.take(y as int).push(line@));
                rows.take(y as int).lemma_flatten_push(line@);
                assert(width * (y + 1) == width * y + width) by (nonlinear_arith);
                assert forall|i: int, j: int| 0 <= i < width && 0 <= j < y + 1 implies letters@[
                #[trigger] row_major(width as int, i, j)] == lines@[j]@[i] by {
                    lemma_row_major_bounds(width as int, y + 1, i, j);
                    if j < y {
                        lemma_row_major_bounds(width as int, y as int, i, j);
                    } else {
                        assert(row_major(width as int, i, j) == before.len() + i);
                    }
                }
            }
            y += 1;
        }
        proof {
            assert(rows.take(y as int) =~= rows);
            assert forall|j: int| 0 <= j < rows.len() implies (#[trigger] rows[j]).len()
                == rows[0].len() by {
                assert(rows[j] =~= lines@[j]@);
                assert(rows[0] =~= lines@[0]@);
            }
            vstd::arithmetic::div_mod::lemma_div_by_multiple(y as int, width as int);
            assert(width * y == y * width) by (nonlinear_arith);
        }
        let height: usize = letters.len() / width;
        let grid = Grid { height, letters, width };
        proof {
            assert forall|i: int, j: int| grid.in_bounds(i, j) implies grid.letters@[
            #[trigger] grid.index_of(i, j)] == lines@[j]@[i] by {
                assert(grid.index_of(i, j) == row_major(width as int, i, j));
            }
        }
        Ok(grid)
    }

    /// Converts a cell index to its `[x, y]` coordinate.
    pub fn get_coord(&self, index: usize) -> (coordinate: [usize; 2])
        requires
            self.width > 0,
        ensures
            (coordinate[0] as int, coordinate[1] as int) == self.coordinate_of(index as int),
            self.wf() && index < self.letters.len() ==> {
                &&& self.in_bounds(coordinate[0] as int, coordinate[1] as int)
                &&& self.index_of(coordinate[0] as int, coordinate[1] as int) == index
            },
    {
        proof {
            if self.wf() && index < self.letters.len() {
                self.lemma_index_round_trip(index as int);
            }
        }
        [index % self.width, index / self.width]
    }

    /// Converts an `[x, y]` coordinate to its cell index.
    pub fn get_index(&self, coordinate: [usize; 2]) -> (index: usize)
        requires
            self.index_of(coordinate[0] as int, coordinate[1] as int) <= usize::MAX,
        ensures
            index == self.index_of(coordinate[0] as int, coordinate[1] as int),
    {
        coordinate[0] + self.width * coordinate[1]
    }

    /// The coordinate of a cell lies inside the grid, and converting it back
    /// gives the cell's index again.
    pub proof fn lemma_index_round_trip(&self, index: int)
        requires
            self.wf(),
            0 <= index < self.letters.len(),
        ensures
            self.in_bounds(self.coordinate_of(index).0, self.coordinate_of(index).1),
            self.index_of(self.coordinate_of(index).0, self.coordinate_of(index).1) == index,
    {
        let w = self.width as int;
        let h = self.height as int;
        vstd::arithmetic::div_mod::lemma_fundamental_div_mod(index, w);
        vstd::arithmetic::div_mod::lemma_mod_bound(index, w);
        assert(0 <= index / w < h) by (nonlinear_arith)
            requires
                0 <= index < w * h,
                0 < w,
                index == w * (index / w) + index % w,
                0 <= index % w < w,
        ;
    }

    /// The index of a coordinate inside the grid names a cell, and
    /// converting it back gives the coordinate again.
    pub proof fn lemma_coordinate_round_trip(&self, x: int, y: int)
        requires
            self.wf(),
            self.in_bounds(x, y),
        ensures
            0 <= self.index_of(x, y) < self.letters.len(),
            self.coordinate_of(self.index_of(x, y)) == (x, y),
    {
        let w = self.width as int;
        lemma_row_major_bounds(w, self.height as int, x, y);
        vstd::arithmetic::div_mod::lemma_fundamental_div_mod_converse(x + w * y, w, y, x);
    }

    /// Tells whether a signed `[x, y]` pair names a cell of the grid.
    pub fn in_bounds_coord(&self, coordinate: [isize; 2]) -> (inside: bool)
        ensures
            inside == self.in_bounds(coordinate[0] as int, coordinate[1] as int),
    {
        let a: isize = coordinate[0];
        let b: isize = coordinate[1];
        a >= 0 && b >= 0 && (a as usize) < self.width && (b as usize) < self.height
    }
}

} // verus!
