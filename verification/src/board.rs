use vstd::prelude::*;

use crate::digit::Digit;
use crate::digit::MaybeDigit;

verus! {

/// The flat, row-major cell index of the cell at row `x`, column `y`.
pub open spec fn idx_of(x: int, y: int) -> int {
    x * 9 + y
}

/// Two distinct cells in range never share a flat index.
pub proof fn lemma_idx_injective(x: int, y: int, u: int, v: int)
    requires
        0 <= x < 9,
        0 <= y < 9,
        0 <= u < 9,
        0 <= v < 9,
        idx_of(x, y) == idx_of(u, v),
    ensures
        x == u && y == v,
{
}

/// A Sudoku board: a 9 by 9 grid of cell values.
///
/// Rows are numbered top to bottom, columns left to right. Cells are stored
/// row-major, so the view of a board is the flat sequence of its 81 cells and
/// the cell at row `x`, column `y` sits at index `x * 9 + y`.
#[derive(Clone, Debug)]
pub struct Board<T> {
    cells: Vec<T>,
}

impl<T> View for Board<T> {
    type V = Seq<T>;

    closed spec fn view(&self) -> Seq<T> {
        self.cells@
    }
}

/// A read-only window onto nine cells of a board (a row, a column, or a box),
/// copied out of the grid in a fixed, stable order.
pub struct Group<T> {
    cells: Vec<T>,
}

impl<T> View for Group<T> {
    type V = Seq<T>;

    closed spec fn view(&self) -> Seq<T> {
        self.cells@
    }
}

impl<T: Copy> Group<T> {
    /// Wraps nine cells as a group.
    pub fn new(cells: Vec<T>) -> (r: Self)
        requires
            cells@.len() == 9,
        ensures
            r@ == cells@,
    {
        Group { cells }
    }

    /// The cell at position `i` within the group.
    pub fn get(&self, i: usize) -> (r: T)
        requires
            self@.len() == 9,
            i < 9,
        ensures
            r == self@[i as int],
    {
        self.cells[i]
    }
}

impl<T: Copy> Board<T> {
    /// A board is well formed when it holds exactly 81 cells.
    pub open spec fn wf(&self) -> bool {
        self@.len() == 81
    }

    /// Constructs a board from a 9 by 9 array of initial cell values.
    pub fn new(v: [[T; 9]; 9]) -> (r: Self)
        ensures
            r.wf(),
            forall|x: int, y: int|
                0 <= x < 9 && 0 <= y < 9 ==> r@[idx_of(x, y)] == v@[x]@[y],
    {
        let mut cells: Vec<T> = Vec::new();
        for x in 0..9
            invariant
                cells@.len() == x as int * 9,
                forall|u: int, w: int|
                    0 <= u < x && 0 <= w < 9 ==> cells@[idx_of(u, w)] == v@[u]@[w],
        {
            for y in 0..9
                invariant
                    x < 9,
                    cells@.len() == x as int * 9 + y as int,
                    forall|u: int, w: int|
                        0 <= u < x && 0 <= w < 9 ==> cells@[idx_of(u, w)] == v@[u]@[w],
                    forall|w: int| 0 <= w < y ==> cells@[idx_of(x as int, w)] == v@[x as int]@[w],
            {
                cells.push(v[x][y]);
            }
        }
        Board { cells }
    }

    /// The number of cells the board holds.
    pub fn len(&self) -> (r: usize)
        ensures
            r == self@.len(),
    {
        self.cells.len()
    }

    /// The cell at position `i` of the flat, row-major cell sequence.
    pub fn at(&self, i: usize) -> (r: T)
        requires
            i < self@.len(),
        ensures
            r == self@[i as int],
    {
        self.cells[i]
    }

    /// Wraps an existing flat, row-major cell vector as a board.
    pub fn from_cells(cells: Vec<T>) -> (r: Self)
        requires
            cells@.len() == 81,
        ensures
            r.wf(),
            r@ == cells@,
    {
        Board { cells }
    }

    /// A cell-for-cell copy of the board.
    pub fn duplicate(&self) -> (r: Self)
        requires
            self.wf(),
        ensures
            r@ == self@,
    {
        Board { cells: self.cells() }
    }

    /// The cell at the given absolute index in 0..81, row-major.
    pub fn cell(&self, idx: usize) -> (r: T)
        requires
            self.wf(),
            idx < 81,
        ensures
            r == self@[idx as int],
    {
        self.cells[idx]
    }

    /// A mutable borrow of the cell at the given absolute index in 0..81,
    /// row-major.
    pub fn cell_mut(&mut self, idx: usize) -> (r: &mut T)
        requires
            old(self).wf(),
            idx < 81,
        ensures
            *r == old(self)@[idx as int],
            final(self)@ == old(self)@.update(idx as int, *final(r)),
    {
        &mut self.cells[idx]
    }

    /// The cell at row `x`, column `y`.
    pub fn get(&self, x: usize, y: usize) -> (r: T)
        requires
            self.wf(),
            x < 9,
            y < 9,
        ensures
            r == self@[idx_of(x as int, y as int)],
    {
        self.cells[x * 9 + y]
    }

    /// Replaces the cell at row `x`, column `y`.
    pub fn set(&mut self, x: usize, y: usize, value: T)
        requires
            old(self).wf(),
            x < 9,
            y < 9,
        ensures
            final(self).wf(),
            final(self)@ == old(self)@.update(idx_of(x as int, y as int), value),
    {
        self.cells[x * 9 + y] = value;
    }

    /// All 81 cells of the board in row-major order.
    pub fn cells(&self) -> (r: Vec<T>)
        requires
            self.wf(),
        ensures
            r@ == self@,
    {
        let mut out: Vec<T> = Vec::new();
        for i in 0..81
            invariant
                self.wf(),
                out@.len() == i,
                forall|j: int| 0 <= j < i ==> out@[j] == self@[j],
        {
            out.push(self.cells[i]);
        }
        proof {
            assert(out@ =~= self@);
        }
        out
    }

    /// The nine cells of row `x`, in column order.
    pub fn row(&self, x: usize) -> (r: Group<T>)
        requires
            self.wf(),
            x < 9,
        ensures
            r@.len() == 9,
            forall|y: int| 0 <= y < 9 ==> r@[y] == self@[idx_of(x as int, y)],
    {
        let mut out: Vec<T> = Vec::new();
        for y in 0..9
            invariant
                self.wf(),
                x < 9,
                out@.len() == y,
                forall|w: int| 0 <= w < y ==> out@[w] == self@[idx_of(x as int, w)],
        {
            out.push(self.cells[x * 9 + y]);
        }
        Group::new(out)
    }

    /// The nine cells of column `y`, in row order.
    pub fn column(&self, y: usize) -> (r: Group<T>)
        requires
            self.wf(),
            y < 9,
        ensures
            r@.len() == 9,
            forall|x: int| 0 <= x < 9 ==> r@[x] == self@[idx_of(x, y as int)],
    {
        let mut out: Vec<T> = Vec::new();
        for x in 0..9
            invariant
                self.wf(),
                y < 9,
                out@.len() == x,
                forall|u: int| 0 <= u < x ==> out@[u] == self@[idx_of(u, y as int)],
        {
            out.push(self.cells[x * 9 + y]);
        }
        Group::new(out)
    }

    /// The nine cells of the 3 by 3 box containing row `x`, column `y`,
    /// row-major within the box.
    pub fn box_of(&self, pos: (usize, usize)) -> (r: Group<T>)
        requires
            self.wf(),
            pos.0 < 9,
            pos.1 < 9,
        ensures
            r@.len() == 9,
            forall|k: int|
                0 <= k < 9 ==> r@[k] == self@[idx_of(
                    pos.0 as int - pos.0 as int % 3 + k / 3,
                    pos.1 as int - pos.1 as int % 3 + k % 3,
                )],
    {
        let bx = pos.0 - pos.0 % 3;
        let by = pos.1 - pos.1 % 3;
        let mut out: Vec<T> = Vec::new();
        for k in 0..9
            invariant
                self.wf(),
                bx == pos.0 as int - pos.0 as int % 3,
                by == pos.1 as int - pos.1 as int % 3,
                bx <= 6,
                by <= 6,
                out@.len() == k,
                forall|j: int|
                    0 <= j < k ==> out@[j] == self@[idx_of(bx as int + j / 3, by as int + j % 3)],
        {
            out.push(self.cells[(bx + k / 3) * 9 + (by + k % 3)]);
        }
        Group::new(out)
    }

    /// The nine rows of the board, top to bottom.
    pub fn rows(&self) -> (r: Vec<Group<T>>)
        requires
            self.wf(),
        ensures
            r@.len() == 9,
            forall|x: int, y: int|
                0 <= x < 9 && 0 <= y < 9 ==> #[trigger] r@[x]@[y] == self@[idx_of(x, y)],
            forall|x: int| 0 <= x < 9 ==> #[trigger] r@[x]@.len() == 9,
    {
        let mut out: Vec<Group<T>> = Vec::new();
        for x in 0..9
            invariant
                self.wf(),
                out@.len() == x,
                forall|u: int, y: int|
                    0 <= u < x && 0 <= y < 9 ==> #[trigger] out@[u]@[y] == self@[idx_of(u, y)],
                forall|u: int| 0 <= u < x ==> #[trigger] out@[u]@.len() == 9,
        {
            out.push(self.row(x));
        }
        out
    }

    /// The nine columns of the board, left to right.
    pub fn columns(&self) -> (r: Vec<Group<T>>)
        requires
            self.wf(),
        ensures
            r@.len() == 9,
            forall|y: int, x: int|
                0 <= y < 9 && 0 <= x < 9 ==> #[trigger] r@[y]@[x] == self@[idx_of(x, y)],
            forall|y: int| 0 <= y < 9 ==> #[trigger] r@[y]@.len() == 9,
    {
        let mut out: Vec<Group<T>> = Vec::new();
        for y in 0..9
            invariant
                self.wf(),
                out@.len() == y,
                forall|w: int, x: int|
                    0 <= w < y && 0 <= x < 9 ==> #[trigger] out@[w]@[x] == self@[idx_of(x, w)],
                forall|w: int| 0 <= w < y ==> #[trigger] out@[w]@.len() == 9,
        {
            out.push(self.column(y));
        }
        out
    }

    /// Transforms every cell with `f`, producing a board of the results.
    pub fn map<U, F: Fn(T) -> U>(self, f: F) -> (r: Board<U>)
        requires
            self.wf(),
            forall|i: int| 0 <= i < 81 ==> call_requires(f, (self@[i],)),
        ensures
            r@.len() == 81,
            forall|i: int| 0 <= i < 81 ==> call_ensures(f, (self@[i],), #[trigger] r@[i]),
    {
        let mut out: Vec<U> = Vec::new();
        for i in 0..81
            invariant
                self.wf(),
                forall|j: int| 0 <= j < 81 ==> call_requires(f, (self@[j],)),
                out@.len() == i,
                forall|j: int| 0 <= j < i ==> call_ensures(f, (self@[j],), #[trigger] out@[j]),
        {
            out.push(f(self.cells[i]));
        }
        Board { cells: out }
    }
}

impl Default for Board<MaybeDigit> {
    /// A board whose 81 cells are all unresolved.
    fn default() -> (r: Self)
        ensures
            r.wf(),
            forall|i: int| 0 <= i < 81 ==> r@[i] is Hole,
    {
        let mut cells: Vec<MaybeDigit> = Vec::new();
        for i in 0..81
            invariant
                cells@.len() == i,
                forall|j: int| 0 <= j < i ==> cells@[j] is Hole,
        {
            cells.push(MaybeDigit::Hole);
        }
        Board { cells }
    }
}


impl PartialEq for Board<MaybeDigit> {
    /// Two boards are equal when all their cells are.
    fn eq(&self, other: &Self) -> (r: bool) {
        if self.len() != other.len() {
            return false;
        }
        let n = self.len();
        let mut i: usize = 0;
        while i < n
            invariant
                n == self@.len(),
                n == other@.len(),
                i <= n,
                forall|j: int| 0 <= j < i ==> self@[j] == other@[j],
            decreases n - i,
        {
            if self.at(i) != other.at(i) {
                return false;
            }
            i += 1;
        }
        proof {
            assert(self@ =~= other@);
        }
        true
    }
}

impl Eq for Board<MaybeDigit> {

}

impl vstd::std_specs::cmp::PartialEqSpecImpl for Board<MaybeDigit> {
    open spec fn obeys_eq_spec() -> bool {
        true
    }

    open spec fn eq_spec(&self, other: &Self) -> bool {
        self@ == other@
    }
}

impl PartialEq for Board<Digit> {
    /// Two boards are equal when all their cells are.
    fn eq(&self, other: &Self) -> (r: bool) {
        if self.len() != other.len() {
            return false;
        }
        let n = self.len();
        let mut i: usize = 0;
        while i < n
            invariant
                n == self@.len(),
                n == other@.len(),
                i <= n,
                forall|j: int| 0 <= j < i ==> self@[j] == other@[j],
            decreases n - i,
        {
            if self.at(i) != other.at(i) {
                return false;
            }
            i += 1;
        }
        proof {
            assert(self@ =~= other@);
        }
        true
    }
}

impl Eq for Board<Digit> {

}

impl vstd::std_specs::cmp::PartialEqSpecImpl for Board<Digit> {
    open spec fn obeys_eq_spec() -> bool {
        true
    }

    open spec fn eq_spec(&self, other: &Self) -> bool {
        self@ == other@
    }
}

} // verus!
