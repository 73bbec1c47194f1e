//! The 9x9 grid of digits: storage, cell access, and the row / column / box
//! uniqueness checks.  Digit 0 stands for an empty cell.

use vstd::prelude::*;

use crate::cell_index;
use crate::coords_of;
use crate::matrix::grid_cells;
use crate::matrix::grid_clone;
use crate::matrix::grid_filled;
use crate::matrix::grid_get;
use crate::matrix::grid_set;
use crate::matrix::DigitMatrix;

verus! {

/// The digit at row `i`, column `j` of a row-major grid sequence.
pub open spec fn at(s: Seq<u8>, i: int, j: int) -> u8 {
    s[i * 9 + j]
}

/// Every cell holds a digit between 0 and 9.
pub open spec fn in_range(s: Seq<u8>) -> bool {
    forall|k: int| 0 <= k < 81 ==> s[k] <= 9
}

/// Every cell is filled (no cell holds 0).
pub open spec fn full(s: Seq<u8>) -> bool {
    forall|k: int| 0 <= k < 81 ==> s[k] != 0
}

/// No nonzero digit appears twice in row `i`.
pub open spec fn row_consistent(s: Seq<u8>, i: int) -> bool {
    forall|j1: int, j2: int|
        #![trigger at(s, i, j1), at(s, i, j2)]
        0 <= j1 < 9 && 0 <= j2 < 9 && j1 != j2 && at(s, i, j1) != 0 ==> at(s, i, j1) != at(
            s,
            i,
            j2,
        )
}

/// No nonzero digit appears twice in column `j`.
pub open spec fn col_consistent(s: Seq<u8>, j: int) -> bool {
    forall|i1: int, i2: int|
        #![trigger at(s, i1, j), at(s, i2, j)]
        0 <= i1 < 9 && 0 <= i2 < 9 && i1 != i2 && at(s, i1, j) != 0 ==> at(s, i1, j) != at(
            s,
            i2,
            j,
        )
}

/// No nonzero digit appears twice in the 3x3 box with box coordinates
/// `(bi, bj)`, both below 3.
pub open spec fn box_consistent(s: Seq<u8>, bi: int, bj: int) -> bool {
    forall|a1: int, b1: int, a2: int, b2: int|
        #![trigger at(s, bi * 3 + a1, bj * 3 + b1), at(s, bi * 3 + a2, bj * 3 + b2)]
        0 <= a1 < 3 && 0 <= b1 < 3 && 0 <= a2 < 3 && 0 <= b2 < 3 && !(a1 == a2 && b1 == b2) && at(
            s,
            bi * 3 + a1,
            bj * 3 + b1,
        ) != 0 ==> at(s, bi * 3 + a1, bj * 3 + b1) != at(s, bi * 3 + a2, bj * 3 + b2)
}

/// No row, column, or box repeats a nonzero digit.
pub open spec fn consistent(s: Seq<u8>) -> bool {
    &&& forall|i: int| 0 <= i < 9 ==> row_consistent(s, i)
    &&& forall|j: int| 0 <= j < 9 ==> col_consistent(s, j)
    &&& forall|bi: int, bj: int| 0 <= bi < 3 && 0 <= bj < 3 ==> box_consistent(s, bi, bj)
}

/// `s` is a solved grid that extends the givens of `g`: fully filled with
/// digits 1 to 9, consistent, and equal to `g` on every nonzero cell of `g`.
pub open spec fn is_solution_of(s: Seq<u8>, g: Seq<u8>) -> bool {
    &&& s.len() == 81
    &&& forall|k: int| 0 <= k < 81 ==> 1 <= #[trigger] s[k] <= 9
    &&& consistent(s)
    &&& forall|k: int| 0 <= k < 81 && g[k] != 0 ==> s[k] == #[trigger] g[k]
}

/// Value `v` occurs nowhere in row `i`.
pub open spec fn row_free(s: Seq<u8>, i: int, v: u8) -> bool {
    forall|j: int| 0 <= j < 9 ==> at(s, i, j) != v
}

/// Value `v` occurs nowhere in column `j`.
pub open spec fn col_free(s: Seq<u8>, j: int, v: u8) -> bool {
    forall|i: int| 0 <= i < 9 ==> at(s, i, j) != v
}

/// Value `v` occurs nowhere in the 3x3 box with box coordinates `(bi, bj)`.
pub open spec fn box_free(s: Seq<u8>, bi: int, bj: int, v: u8) -> bool {
    forall|a: int, b: int|
        #![trigger at(s, bi * 3 + a, bj * 3 + b)]
        0 <= a < 3 && 0 <= b < 3 ==> at(s, bi * 3 + a, bj * 3 + b) != v
}


/// One pass of the grid text format, byte by byte, starting at position `n`
/// with the cursor at row `row`, column `col`, over the cells gathered so
/// far: a decimal digit fills the current cell (when the cursor is on the
/// grid) and moves one column right, a newline moves to the start of the next
/// row, and any other byte only moves one column right.
pub open spec fn parse_step(t: Seq<u8>, n: int, row: int, col: int, acc: Seq<u8>) -> Seq<u8>
    decreases t.len() - n,
{
    if n < 0 || n >= t.len() {
        acc
    } else {
        let b = t[n];
        if b == 10 {
            parse_step(t, n + 1, row + 1, 0, acc)
        } else if 48 <= b <= 57 {
            if 0 <= row < 9 && 0 <= col < 9 {
                parse_step(t, n + 1, row, col + 1, acc.update(row * 9 + col, (b - 48) as u8))
            } else {
                parse_step(t, n + 1, row, col + 1, acc)
            }
        } else {
            parse_step(t, n + 1, row, col + 1, acc)
        }
    }
}

/// The grid described by the text `t`, read from an all-empty grid.
pub open spec fn parse_grid(t: Seq<u8>) -> Seq<u8> {
    parse_step(t, 0, 0, 0, Seq::new(81, |k: int| 0u8))
}

/// A 9x9 grid of digits, 0 denoting an empty cell.
pub struct Board {
    values: DigitMatrix,
}

impl View for Board {
    type V = Seq<u8>;

    closed spec fn view(&self) -> Seq<u8> {
        grid_cells(self.values)
    }
}

impl Board {
    /// The grid holds exactly its 81 cells.
    pub open spec fn wf(&self) -> bool {
        self@.len() == 81
    }

    /// An empty board: every cell holds 0.
    pub fn init() -> (r: Self)
        ensures
            r.wf(),
            forall|k: int| 0 <= k < 81 ==> r@[k] == 0,
    {
        Board { values: grid_filled(0) }
    }

    /// A board whose cells are taken row-major from `values`; missing cells
    /// are left empty.
    pub fn new(values: Vec<u8>) -> (r: Self)
        ensures
            r.wf(),
            forall|k: int|
                0 <= k < 81 ==> r@[k] == (if k < values@.len() {
                    values@[k]
                } else {
                    0u8
                }),
    {
        let mut grid = grid_filled(0);
        let mut k: usize = 0;
        while k < 81
            invariant
                k <= 81,
                grid_cells(grid).len() == 81,
                forall|t: int|
                    0 <= t < k ==> grid_cells(grid)[t] == (if t < values@.len() {
                        values@[t]
                    } else {
                        0u8
                    }),
                forall|t: int| k <= t < 81 ==> grid_cells(grid)[t] == 0,
            decreases 81 - k,
        {
            if k < values.len() {
                let (i, j) = coords_of(k);
                grid_set(&mut grid, i, j, values[k]);
            }
            k = k + 1;
        }
        Board { values: grid }
    }


    /// Reads a board from grid text: rows on lines, a digit per cell, any
    /// other character leaving its cell empty; cells outside the first nine
    /// rows and columns are ignored.
    pub fn from_text(text: &[u8]) -> (r: Self)
        ensures
            r.wf(),
            r@ == parse_grid(text@),
            in_range(r@),
    {
        let mut board = Board::init();
        proof {
            assert(board@ =~= Seq::new(81, |k: int| 0u8));
        }
        let mut row: usize = 0;
        let mut col: usize = 0;
        let mut n: usize = 0;
        while n < text.len()
            invariant
                n <= text.len(),
                row <= n,
                col <= n,
                board.wf(),
                in_range(board@),
                parse_step(text@, n as int, row as int, col as int, board@) == parse_grid(text@),
            decreases text.len() - n,
        {
            let b = text[n];
            if b == 10 {
                row = row + 1;
                col = 0;
            } else if 48 <= b && b <= 57 {
                if row < 9 && col < 9 {
                    board.set(row, col, b - 48);
                }
                col = col + 1;
            } else {
                col = col + 1;
            }
            n = n + 1;
        }
        board
    }

    /// Reads the digit at row `i`, column `j`.
    pub fn get(&self, i: usize, j: usize) -> (r: u8)
        requires
            i < 9,
            j < 9,
        ensures
            r == at(self@, i as int, j as int),
    {
        grid_get(&self.values, i, j)
    }

    /// Writes digit `v` at row `i`, column `j`.
    pub fn set(&mut self, i: usize, j: usize, v: u8)
        requires
            i < 9,
            j < 9,
        ensures
            final(self)@ == old(self)@.update(cell_index(i as int, j as int), v),
    {
        grid_set(&mut self.values, i, j, v)
    }

    /// An owned copy of this board.
    pub fn duplicate(&self) -> (r: Self)
        ensures
            r@ == self@,
    {
        Board { values: grid_clone(&self.values) }
    }

    /// The 81 cells of the board, row-major.
    pub fn cells(&self) -> (r: Vec<u8>)
        requires
            self.wf(),
        ensures
            r@ == self@,
    {
        let mut out: Vec<u8> = Vec::new();
        let mut k: usize = 0;
        while k < 81
            invariant
                k <= 81,
                self.wf(),
                out@ == self@.take(k as int),
            decreases 81 - k,
        {
            let (i, j) = coords_of(k);
            out.push(self.get(i, j));
            proof {
                assert(out@ =~= self@.take(k + 1));
            }
            k = k + 1;
        }
        proof {
            assert(self@.take(81) =~= self@);
        }
        out
    }

    /// Whether every cell holds a digit between 0 and 9.
    pub fn values_in_range(&self) -> (r: bool)
        requires
            self.wf(),
        ensures
            r == in_range(self@),
    {
        let mut k: usize = 0;
        while k < 81
            invariant
                k <= 81,
                self.wf(),
                forall|t: int| 0 <= t < k ==> self@[t] <= 9,
            decreases 81 - k,
        {
            let (i, j) = coords_of(k);
            if self.get(i, j) > 9 {
                return false;
            }
            k = k + 1;
        }
        true
    }

    /// Whether every cell is filled.
    pub fn is_complete(&self) -> (r: bool)
        requires
            self.wf(),
        ensures
            r == full(self@),
    {
        let mut k: usize = 0;
        while k < 81
            invariant
                k <= 81,
                self.wf(),
                forall|t: int| 0 <= t < k ==> self@[t] != 0,
            decreases 81 - k,
        {
            let (i, j) = coords_of(k);
            if self.get(i, j) == 0 {
                return false;
            }
            k = k + 1;
        }
        true
    }

    /// Whether value `v` occurs nowhere in row `i`.
    pub fn row_is_free_of(&self, i: usize, v: u8) -> (r: bool)
        requires
            i < 9,
        ensures
            r == row_free(self@, i as int, v),
    {
        let mut j: usize = 0;
        while j < 9
            invariant
                j <= 9,
                i < 9,
                forall|t: int| 0 <= t < j ==> at(self@, i as int, t) != v,
            decreases 9 - j,
        {
            if self.get(i, j) == v {
                return false;
            }
            j = j + 1;
        }
        true
    }

    /// Whether value `v` occurs nowhere in column `j`.
    pub fn column_is_free_of(&self, j: usize, v: u8) -> (r: bool)
        requires
            j < 9,
        ensures
            r == col_free(self@, j as int, v),
    {
        let mut i: usize = 0;
        while i < 9
            invariant
                i <= 9,
                j < 9,
                forall|t: int| 0 <= t < i ==> at(self@, t, j as int) != v,
            decreases 9 - i,
        {
            if self.get(i, j) == v {
                return false;
            }
            i = i + 1;
        }
        true
    }

    /// Whether value `v` occurs nowhere in the 3x3 box with box coordinates
    /// `(bi, bj)`.
    pub fn box_is_free_of(&self, bi: usize, bj: usize, v: u8) -> (r: bool)
        requires
            bi < 3,
            bj < 3,
        ensures
            r == box_free(self@, bi as int, bj as int, v),
    {
        let mut a: usize = 0;
        while a < 3
            invariant
                a <= 3,
                bi < 3,
                bj < 3,
                forall|a0: int, b0: int|
                    #![trigger at(self@, bi * 3 + a0, bj * 3 + b0)]
                    0 <= a0 < a && 0 <= b0 < 3 ==> at(self@, bi as int * 3 + a0, bj as int * 3 + b0)
                        != v,
            decreases 3 - a,
        {
            let mut b: usize = 0;
            while b < 3
                invariant
                    a < 3,
                    b <= 3,
                    bi < 3,
                    bj < 3,
                    forall|a0: int, b0: int|
                        #![trigger at(self@, bi * 3 + a0, bj * 3 + b0)]
                        0 <= a0 < a && 0 <= b0 < 3 ==> at(
                            self@,
                            bi as int * 3 + a0,
                            bj as int * 3 + b0,
                        ) != v,
                    forall|b0: int|
                        0 <= b0 < b ==> #[trigger] at(
                            self@,
                            bi as int * 3 + a as int,
                            bj as int * 3 + b0,
                        ) != v,
                decreases 3 - b,
            {
                if self.get(bi * 3 + a, bj * 3 + b) == v {
                    return false;
                }
                b = b + 1;
            }
            a = a + 1;
        }
        true
    }

    /// Whether row `i` repeats no nonzero digit.
    pub fn check_row(&self, i: usize) -> (r: bool)
        requires
            self.wf(),
            in_range(self@),
            i < 9,
        ensures
            r == row_consistent(self@, i as int),
    {
        let mut seen: [bool; 9] = [false; 9];
        let mut j: usize = 0;
        while j < 9
            invariant
                j <= 9,
                i < 9,
                self.wf(),
                in_range(self@),
                forall|v: int|
                    #![trigger seen@[v - 1]]
                    1 <= v <= 9 ==> (seen@[v - 1] <==> exists|j0: int|
                        0 <= j0 < j && #[trigger] at(self@, i as int, j0) == v),
                forall|j1: int, j2: int|
                    #![trigger at(self@, i as int, j1), at(self@, i as int, j2)]
                    0 <= j1 < j && 0 <= j2 < j && j1 != j2 && at(self@, i as int, j1) != 0 ==> at(
                        self@,
                        i as int,
                        j1,
                    ) != at(self@, i as int, j2),
            decreases 9 - j,
        {
            let v = self.get(i, j);
            if v != 0 {
                if seen[(v - 1) as usize] {
                    proof {
                        let j0 = choose|j0: int| 0 <= j0 < j && at(self@, i as int, j0) == v;
                        assert(!row_consistent(self@, i as int)) by {
                            assert(at(self@, i as int, j0) == at(self@, i as int, j as int));
                        }
                    }
                    return false;
                }
                seen[(v - 1) as usize] = true;
            }
            j = j + 1;
        }
        true
    }

    /// Whether column `j` repeats no nonzero digit.
    pub fn check_column(&self, j: usize) -> (r: bool)
        requires
            self.wf(),
            in_range(self@),
            j < 9,
        ensures
            r == col_consistent(self@, j as int),
    {
        let mut seen: [bool; 9] = [false; 9];
        let mut i: usize = 0;
        while i < 9
            invariant
                i <= 9,
                j < 9,
                self.wf(),
                in_range(self@),
                forall|v: int|
                    #![trigger seen@[v - 1]]
                    1 <= v <= 9 ==> (seen@[v - 1] <==> exists|i0: int|
                        0 <= i0 < i && #[trigger] at(self@, i0, j as int) == v),
                forall|i1: int, i2: int|
                    #![trigger at(self@, i1, j as int), at(self@, i2, j as int)]
                    0 <= i1 < i && 0 <= i2 < i && i1 != i2 && at(self@, i1, j as int) != 0 ==> at(
                        self@,
                        i1,
                        j as int,
                    ) != at(self@, i2, j as int),
            decreases 9 - i,
        {
            let v = self.get(i, j);
            if v != 0 {
                if seen[(v - 1) as usize] {
                    proof {
                        let i0 = choose|i0: int| 0 <= i0 < i && at(self@, i0, j as int) == v;
                        assert(!col_consistent(self@, j as int)) by {
                            assert(at(self@, i0, j as int) == at(self@, i as int, j as int));
                        }
                    }
                    return false;
                }
                seen[(v - 1) as usize] = true;
            }
            i = i + 1;
        }
        true
    }

    /// Whether the 3x3 box with box coordinates `(bi, bj)` repeats no nonzero
    /// digit.
    pub fn check_square(&self, bi: usize, bj: usize) -> (r: bool)
        requires
            self.wf(),
            in_range(self@),
            bi < 3,
            bj < 3,
        ensures
            r == box_consistent(self@, bi as int, bj as int),
    {
        let mut seen: [bool; 9] = [false; 9];
        let mut a: usize = 0;
        while a < 3
            invariant
                a <= 3,
                bi < 3,
                bj < 3,
                self.wf(),
                in_range(self@),
                forall|v: int|
                    #![trigger seen@[v - 1]]
                    1 <= v <= 9 ==> (seen@[v - 1] <==> exists|a0: int, b0: int|
                        0 <= a0 < a && 0 <= b0 < 3 && #[trigger] at(self@, bi * 3 + a0, bj * 3 + b0)
                            == v),
                forall|a1: int, b1: int, a2: int, b2: int|
                    #![trigger at(self@, bi * 3 + a1, bj * 3 + b1), at(self@, bi * 3 + a2, bj * 3 + b2)]
                    0 <= a1 < a && 0 <= b1 < 3 && 0 <= a2 < a && 0 <= b2 < 3 && !(a1 == a2 && b1
                        == b2) && at(self@, bi * 3 + a1, bj * 3 + b1) != 0 ==> at(
                        self@,
                        bi * 3 + a1,
                        bj * 3 + b1,
                    ) != at(self@, bi * 3 + a2, bj * 3 + b2),
            decreases 3 - a,
        {
            let mut b: usize = 0;
            while b < 3
                invariant
                    a < 3,
                    b <= 3,
                    bi < 3,
                    bj < 3,
                    self.wf(),
                    in_range(self@),
                    forall|v: int|
                        #![trigger seen@[v - 1]]
                        1 <= v <= 9 ==> (seen@[v - 1] <==> exists|a0: int, b0: int|
                            0 <= a0 < 3 && 0 <= b0 < 3 && (a0 < a || (a0 == a && b0 < b))
                                && #[trigger] at(self@, bi * 3 + a0, bj * 3 + b0) == v),
                    forall|a1: int, b1: int, a2: int, b2: int|
                        #![trigger at(self@, bi * 3 + a1, bj * 3 + b1), at(self@, bi * 3 + a2, bj * 3 + b2)]
                        0 <= a1 < 3 && 0 <= b1 < 3 && 0 <= a2 < 3 && 0 <= b2 < 3 && (a1 < a || (a1
                            == a && b1 < b)) && (a2 < a || (a2 == a && b2 < b)) && !(a1 == a2 && b1
                            == b2) && at(self@, bi * 3 + a1, bj * 3 + b1) != 0 ==> at(
                            self@,
                            bi * 3 + a1,
                            bj * 3 + b1,
                        ) != at(self@, bi * 3 + a2, bj * 3 + b2),
                decreases 3 - b,
            {
                let v = self.get(bi * 3 + a, bj * 3 + b);
                if v != 0 {
                    if seen[(v - 1) as usize] {
                        proof {
                            let (a0, b0) = choose|a0: int, b0: int|
                                0 <= a0 < 3 && 0 <= b0 < 3 && (a0 < a || (a0 == a && b0 < b))
                                    && #[trigger] at(self@, bi * 3 + a0, bj * 3 + b0) == v;
                            assert(!box_consistent(self@, bi as int, bj as int)) by {
                                assert(at(self@, bi * 3 + a0, bj * 3 + b0) == at(
                                    self@,
                                    bi * 3 + a as int,
                                    bj * 3 + b as int,
                                ));
                            }
                        }
                        return false;
                    }
                    seen[(v - 1) as usize] = true;
                }
                b = b + 1;
            }
            a = a + 1;
        }
        true
    }

    /// Whether no row, column, or box of the board repeats a nonzero digit.
    pub fn check_complete(&self) -> (r: bool)
        requires
            self.wf(),
            in_range(self@),
        ensures
            r == consistent(self@),
    {
        let mut i: usize = 0;
        while i < 9
            invariant
                i <= 9,
                self.wf(),
                in_range(self@),
                forall|t: int| 0 <= t < i ==> row_consistent(self@, t),
                forall|t: int| 0 <= t < i ==> col_consistent(self@, t),
                forall|t: int| 0 <= t < i ==> #[trigger] box_consistent(self@, t / 3, t % 3),
            decreases 9 - i,
        {
            if !self.check_row(i) {
                return false;
            }
            if !self.check_column(i) {
                return false;
            }
            if !self.check_square(i / 3, i % 3) {
                return false;
            }
            i = i + 1;
        }
        proof {
            assert forall|bi: int, bj: int| 0 <= bi < 3 && 0 <= bj < 3 implies box_consistent(
                self@,
                bi,
                bj,
            ) by {
                let t = bi * 3 + bj;
                assert(0 <= t < 9);
                assert(t / 3 == bi && t % 3 == bj) by (nonlinear_arith)
                    requires
                        0 <= bi < 3,
                        0 <= bj < 3,
                        t == bi * 3 + bj,
                ;
                assert(box_consistent(self@, t / 3, t % 3));
            }
        }
        true
    }
}

} // verus!
