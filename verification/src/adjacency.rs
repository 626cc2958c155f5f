//! Which cells touch which: the up to eight neighbours of a cell.

use crate::grid::lemma_row_major_bounds;
use crate::grid::Grid;
use vstd::prelude::*;

verus! {

/// A sequence of machine integers read as mathematical integers.
pub open spec fn as_ints(cells: Seq<usize>) -> Seq<int> {
    cells.map_values(|cell: usize| cell as int)
}

/// How many of `at - 1`, `at` and `at + 1` lie in the range from 0 up to,
/// and not including, `limit`.
pub open spec fn reach(at: int, limit: int) -> int {
    (if 0 <= at - 1 < limit {
        1int
    } else {
        0int
    }) + (if 0 <= at < limit {
        1int
    } else {
        0int
    }) + (if 0 <= at + 1 < limit {
        1int
    } else {
        0int
    })
}

proof fn lemma_contains_concat(front: Seq<int>, back: Seq<int>, value: int)
    ensures
        (front + back).contains(value) <==> front.contains(value) || back.contains(value),
{
    let whole = front + back;
    if whole.contains(value) {
        let i = choose|i: int| 0 <= i < whole.len() && whole[i] == value;
        if i < front.len() {
            assert(front[i] == value);
        } else {
            assert(back[i - front.len()] == value);
        }
    }
    if front.contains(value) {
        let i = choose|i: int| 0 <= i < front.len() && front[i] == value;
        assert(whole[i] == value);
    }
    if back.contains(value) {
        let i = choose|i: int| 0 <= i < back.len() && back[i] == value;
        assert(whole[front.len() + i] == value);
    }
}

impl Grid {
    /// The index of the cell at column `x`, row `y` as a one-element
    /// sequence, or the empty sequence where no such cell exists.
    pub open spec fn cell_if_inside(&self, x: int, y: int) -> Seq<int> {
        if self.in_bounds(x, y) {
            seq![self.index_of(x, y)]
        } else {
            Seq::empty()
        }
    }

    /// The cells adjacent to `index`, clockwise from the east: east,
    /// south-east, south, south-west, west, north-west, north, north-east.
    /// Rows grow to the south.
    pub open spec fn spec_neighbours(&self, index: int) -> Seq<int> {
        let (x, y) = self.coordinate_of(index);
        self.cell_if_inside(x + 1, y) + self.cell_if_inside(x + 1, y + 1) + self.cell_if_inside(
            x,
            y + 1,
        ) + self.cell_if_inside(x - 1, y + 1) + self.cell_if_inside(x - 1, y)
            + self.cell_if_inside(x - 1, y - 1) + self.cell_if_inside(x, y - 1)
            + self.cell_if_inside(x + 1, y - 1)
    }

    /// Cell `b` touches cell `a`: it is another cell of the grid, and neither
    /// its column nor its row is more than one away from that of `a`.
    pub open spec fn touches(&self, a: int, b: int) -> bool {
        let (ax, ay) = self.coordinate_of(a);
        let (bx, by) = self.coordinate_of(b);
        &&& 0 <= b < self.letters.len()
        &&& a != b
        &&& -1 <= bx - ax <= 1
        &&& -1 <= by - ay <= 1
    }

    proof fn lemma_cell_if_inside_contains(&self, x: int, y: int, b: int)
        requires
            self.wf(),
        ensures
            self.cell_if_inside(x, y).contains(b) <==> self.in_bounds(x, y) && 0 <= b
                < self.letters.len() && self.coordinate_of(b) == (x, y),
    {
        let cells = self.cell_if_inside(x, y);
        if self.in_bounds(x, y) {
            self.lemma_coordinate_round_trip(x, y);
            assert(cells[0] == self.index_of(x, y));
            if 0 <= b < self.letters.len() && self.coordinate_of(b) == (x, y) {
                self.lemma_index_round_trip(b);
                assert(cells[0] == b);
            }
        }
    }

    /// The neighbours of a cell are exactly the cells that touch it.
    pub proof fn lemma_neighbours_are_touching(&self, a: int, b: int)
        requires
            self.wf(),
            0 <= a < self.letters.len(),
        ensures
            self.spec_neighbours(a).contains(b) <==> self.touches(a, b),
    {
        let (x, y) = self.coordinate_of(a);
        self.lemma_index_round_trip(a);
        self.lemma_cell_if_inside_contains(x + 1, y, b);
        self.lemma_cell_if_inside_contains(x + 1, y + 1, b);
        self.lemma_cell_if_inside_contains(x, y + 1, b);
        self.lemma_cell_if_inside_contains(x - 1, y + 1, b);
        self.lemma_cell_if_inside_contains(x - 1, y, b);
        self.lemma_cell_if_inside_contains(x - 1, y - 1, b);
        self.lemma_cell_if_inside_contains(x, y - 1, b);
        self.lemma_cell_if_inside_contains(x + 1, y - 1, b);
        let s1 = self.cell_if_inside(x + 1, y);
        let s2 = s1 + self.cell_if_inside(x + 1, y + 1);
        let s3 = s2 + self.cell_if_inside(x, y + 1);
        let s4 = s3 + self.cell_if_inside(x - 1, y + 1);
        let s5 = s4 + self.cell_if_inside(x - 1, y);
        let s6 = s5 + self.cell_if_inside(x - 1, y - 1);
        let s7 = s6 + self.cell_if_inside(x, y - 1);
        let s8 = s7 + self.cell_if_inside(x + 1, y - 1);
        lemma_contains_concat(s1, self.cell_if_inside(x + 1, y + 1), b);
        lemma_contains_concat(s2, self.cell_if_inside(x, y + 1), b);
        lemma_contains_concat(s3, self.cell_if_inside(x - 1, y + 1), b);
        lemma_contains_concat(s4, self.cell_if_inside(x - 1, y), b);
        lemma_contains_concat(s5, self.cell_if_inside(x - 1, y - 1), b);
        lemma_contains_concat(s6, self.cell_if_inside(x, y - 1), b);
        lemma_contains_concat(s7, self.cell_if_inside(x + 1, y - 1), b);
        assert(self.spec_neighbours(a) == s8);
        if 0 <= b < self.letters.len() && b != a {
            self.lemma_index_round_trip(b);
        }
    }

    /// The cell lies in the first or last column, or in the first or last row.
    pub open spec fn on_border(&self, index: int) -> bool {
        let (x, y) = self.coordinate_of(index);
        x == 0 || x == self.width - 1 || y == 0 || y == self.height - 1
    }

    /// The cell lies both in the first or last column and in the first or
    /// last row.
    pub open spec fn is_corner(&self, index: int) -> bool {
        let (x, y) = self.coordinate_of(index);
        (x == 0 || x == self.width - 1) && (y == 0 || y == self.height - 1)
    }

    /// Every neighbour of a cell is itself a cell of the grid.
    pub proof fn lemma_neighbours_in_range(&self, index: int)
        requires
            self.wf(),
            0 <= index < self.letters.len(),
        ensures
            forall|k: int|
                0 <= k < self.spec_neighbours(index).len() ==> 0 <= #[trigger] self.spec_neighbours(
                    index,
                )[k] < self.letters.len(),
    {
        let (x, y) = self.coordinate_of(index);
        self.lemma_cell_if_inside_in_range(x + 1, y);
        self.lemma_cell_if_inside_in_range(x + 1, y + 1);
        self.lemma_cell_if_inside_in_range(x, y + 1);
        self.lemma_cell_if_inside_in_range(x - 1, y + 1);
        self.lemma_cell_if_inside_in_range(x - 1, y);
        self.lemma_cell_if_inside_in_range(x - 1, y - 1);
        self.lemma_cell_if_inside_in_range(x, y - 1);
        self.lemma_cell_if_inside_in_range(x + 1, y - 1);
    }

    proof fn lemma_cell_if_inside_in_range(&self, x: int, y: int)
        requires
            self.wf(),
        ensures
            forall|k: int|
                0 <= k < self.cell_if_inside(x, y).len() ==> 0 <= #[trigger] self.cell_if_inside(
                    x,
                    y,
                )[k] < self.letters.len(),
    {
        if self.in_bounds(x, y) {
            self.lemma_coordinate_round_trip(x, y);
        }
    }

    /// In a grid of at least two columns and two rows, a corner cell has
    /// three neighbours, any other cell on the border has five, and a cell
    /// away from the border has eight.
    pub proof fn lemma_neighbour_count(&self, index: int)
        requires
            self.wf(),
            self.width >= 2,
            self.height >= 2,
            0 <= index < self.letters.len(),
        ensures
            self.is_corner(index) ==> self.spec_neighbours(index).len() == 3,
            self.on_border(index) && !self.is_corner(index) ==> self.spec_neighbours(index).len()
                == 5,
            !self.on_border(index) ==> self.spec_neighbours(index).len() == 8,
    {
        self.lemma_index_round_trip(index);
    }

    /// In any grid, a cell has one neighbour less than there are cells in
    /// the block of up to three columns by three rows around it.
    pub proof fn lemma_neighbour_count_by_reach(&self, index: int)
        requires
            self.wf(),
            0 <= index < self.letters.len(),
        ensures
            self.spec_neighbours(index).len() == reach(
                self.coordinate_of(index).0,
                self.width as int,
            ) * reach(self.coordinate_of(index).1, self.height as int) - 1,
    {
        self.lemma_index_round_trip(index);
        let columns = reach(self.coordinate_of(index).0, self.width as int);
        let rows = reach(self.coordinate_of(index).1, self.height as int);
        assert(columns * rows == if columns == 1 {
            rows
        } else if columns == 2 {
            2 * rows
        } else {
            3 * rows
        }) by (nonlinear_arith)
            requires
                1 <= columns <= 3,
        ;
    }

    /// Lists the cells adjacent to `index`, clockwise from the east.
    pub fn neighbours(&self, index: usize) -> (adjacent: Vec<usize>)
        requires
            self.wf(),
            index < self.letters.len(),
        ensures
            as_ints(adjacent@) == self.spec_neighbours(index as int),
            forall|k: int| 0 <= k < adjacent@.len() ==> adjacent@[k] < self.letters.len(),
    {
        let x: usize = index % self.width;
        let y: usize = index / self.width;
        let ghost w = self.width as int;
        let ghost h = self.height as int;
        proof {
            self.lemma_index_round_trip(index as int);
            self.lemma_neighbours_in_range(index as int);
            assert(self.coordinate_of(index as int) == (x as int, y as int));
            assert(index == x + w * y);
            assert(w * (y + 1) == w * y + w) by (nonlinear_arith);
            assert(w * (y - 1) == w * y - w) by (nonlinear_arith);
            if x + 1 < w {
                lemma_row_major_bounds(w, h, x + 1, y as int);
            }
            if y + 1 < h {
                lemma_row_major_bounds(w, h, x as int, y + 1);
                if x + 1 < w {
                    lemma_row_major_bounds(w, h, x + 1, y + 1);
                }
            }
        }
        let east: bool = x + 1 < self.width;
        let west: bool = x > 0;
        let south: bool = y + 1 < self.height;
        let north: bool = y > 0;
        let mut adjacent: Vec<usize> = Vec::new();
        if east {
            adjacent.push(index + 1);
        }
        let ghost s1 = self.cell_if_inside(x + 1, y as int);
        assert(as_ints(adjacent@) =~= s1);
        if east && south {
            adjacent.push(index + 1 + self.width);
        }
        let ghost s2 = s1 + self.cell_if_inside(x + 1, y + 1);
        assert(as_ints(adjacent@) =~= s2);
        if south {
            adjacent.push(index + self.width);
        }
        let ghost s3 = s2 + self.cell_if_inside(x as int, y + 1);
        assert(as_ints(adjacent@) =~= s3);
        if west && south {
            adjacent.push(index + self.width - 1);
        }
        let ghost s4 = s3 + self.cell_if_inside(x - 1, y + 1);
        assert(as_ints(adjacent@) =~= s4);
        if west {
            adjacent.push(index - 1);
        }
        let ghost s5 = s4 + self.cell_if_inside(x - 1, y as int);
        assert(as_ints(adjacent@) =~= s5);
        if west && north {
            adjacent.push(index - self.width - 1);
        }
        let ghost s6 = s5 + self.cell_if_inside(x - 1, y - 1);
        assert(as_ints(adjacent@) =~= s6);
        if north {
            adjacent.push(index - self.width);
        }
        let ghost s7 = s6 + self.cell_if_inside(x as int, y - 1);
        assert(as_ints(adjacent@) =~= s7);
        if east && north {
            adjacent.push(index - self.width + 1);
        }
        let ghost s8 = s7 + self.cell_if_inside(x + 1, y - 1);
        assert(as_ints(adjacent@) =~= s8);
        adjacent
    }
}

} // verus!
