//! The solving engine: per-cell candidate narrowing (constraint propagation),
//! minimum-remaining-values guided backtracking search, and the driver loop.

use vstd::prelude::*;

use crate::board::at;
use crate::board::box_consistent;
use crate::board::box_free;
use crate::board::col_consistent;
use crate::board::col_free;
use crate::board::consistent;
use crate::board::full;
use crate::board::in_range;
use crate::board::is_solution_of;
use crate::board::row_consistent;
use crate::board::row_free;
use crate::board::Board;
use crate::cell_index;
use crate::coords_of;
use crate::guess::count_true;
use crate::guess::count_true_to;
use crate::guess::guess_allows;
use crate::guess::lemma_count_true_to_bound;
use crate::guess::lemma_count_true_to_two;
use crate::guess::lemma_count_true_to_update;
use crate::guess::lemma_count_true_to_zero;
use crate::guess::lemma_lowest_true_from;
use crate::guess::lowest_true;
use crate::guess::match_count;
use crate::guess::match_flags;
use crate::guess::Guess;
use crate::matrix::state_cells;
use crate::matrix::state_clone;
use crate::matrix::state_filled;
use crate::matrix::state_get;
use crate::matrix::state_set;
use crate::matrix::StateMatrix;

verus! {

/// The final verdict when no solution can be reached from the current state.
#[derive(Clone, Copy, Debug)]
pub struct UnsolvableError;

/// A given value outside 1 to 9, or a malformed grid, rejected before any
/// solving begins.
#[derive(Clone, Copy, Debug)]
pub struct InvalidInputError;

/// A speculative assignment that led to a contradiction: the candidate at
/// flag position `wrong_guess_ix` of the cell at `pos` must be excluded.
#[derive(Clone, Copy, Debug)]
pub struct GuessWrongError {
    pub pos: (usize, usize),
    pub wrong_guess_ix: usize,
}

/// Placing `v` at row `i`, column `j` would clash with no value currently on
/// the grid `s`: its row, column, and box are all free of `v`.
pub open spec fn can_contain_spec(s: Seq<u8>, i: int, j: int, v: u8) -> bool {
    row_free(s, i, v) && col_free(s, j, v) && box_free(s, i / 3, j / 3, v)
}

/// The candidate flags of `arr` after one narrowing pass of the cell at
/// row `i`, column `j` against the grid `s`: flag `t` survives iff it was set
/// and value `t + 1` still fits the cell.
pub open spec fn narrowed_flags(arr: Seq<bool>, s: Seq<u8>, i: int, j: int) -> Seq<bool> {
    Seq::new(9, |t: int| arr[t] && can_contain_spec(s, i, j, (t + 1) as u8))
}

/// The value a cell settles on when its candidate flags `nf` have a sole
/// survivor: one more than the lowest set flag.
pub open spec fn resolved_value(nf: Seq<bool>) -> u8 {
    (lowest_true(nf) + 1) as u8
}

/// How one cell's solving state constrains the solved grid: the assignment
/// `s` agrees with every settled cell and with the open candidate sets.
pub open spec fn compat(s: Seq<u8>, gs: Seq<Guess>) -> bool {
    forall|k: int| 0 <= k < 81 ==> #[trigger] guess_allows(gs[k], s[k])
}

/// No open cell has run out of candidates.
pub open spec fn no_empty_match(gs: Seq<Guess>) -> bool {
    forall|k: int|
        (0 <= k < 81 && (#[trigger] gs[k]) matches Guess::Match(_)) ==> match_count(gs[k]) > 0
}

/// The total number of candidate flags still set across all cells; the
/// solver's termination measure.
pub open spec fn total_count(gs: Seq<Guess>) -> nat
    decreases gs.len(),
{
    if gs.len() == 0 {
        0
    } else {
        total_count(gs.drop_last()) + match_count(gs.last())
    }
}

/// The relation between the input digit, the current digit, and the solving
/// state of one cell that the solver maintains at all times.
pub open spec fn cell_ok(inp: u8, cur: u8, g: Guess) -> bool {
    match g {
        Guess::Prior(v) => 1 <= v <= 9 && inp == v && cur == v,
        Guess::Hit(v) => 1 <= v <= 9 && inp == 0 && cur == v,
        Guess::Match(_) => inp == 0 && cur == 0,
    }
}

proof fn lemma_total_count_update(gs: Seq<Guess>, k: int, g: Guess)
    requires
        0 <= k < gs.len(),
    ensures
        total_count(gs.update(k, g)) + match_count(gs[k]) == total_count(gs) + match_count(g),
    decreases gs.len(),
{
    let u = gs.update(k, g);
    if k == gs.len() - 1 {
        assert(u.drop_last() =~= gs.drop_last());
    } else {
        assert(u.drop_last() =~= gs.drop_last().update(k, g));
        lemma_total_count_update(gs.drop_last(), k, g);
    }
}

proof fn lemma_total_count_bound(gs: Seq<Guess>)
    ensures
        total_count(gs) <= 9 * gs.len(),
    decreases gs.len(),
{
    if gs.len() > 0 {
        lemma_total_count_bound(gs.drop_last());
        lemma_count_true_to_bound(match_flags(gs.last()), match_flags(gs.last()).len() as int);
    }
}

/// Pointwise weaker flags have a count no larger.
proof fn lemma_count_true_to_le(s1: Seq<bool>, s2: Seq<bool>, n: int)
    requires
        forall|t: int| 0 <= t < n ==> (s1[t] ==> s2[t]),
    ensures
        count_true_to(s1, n) <= count_true_to(s2, n),
    decreases n,
{
    if n > 0 {
        lemma_count_true_to_le(s1, s2, n - 1);
    }
}

/// The solver: the immutable input board, the board being filled in, and the
/// matrix of per-cell solving states.
pub struct BoardSolver {
    board_to_solve: Board,
    solving_board: Board,
    guess_board: StateMatrix,
}

impl BoardSolver {
    /// The immutable input grid.
    pub closed spec fn input(&self) -> Seq<u8> {
        self.board_to_solve@
    }

    /// The grid being filled in as cells are settled.
    pub closed spec fn cells(&self) -> Seq<u8> {
        self.solving_board@
    }

    /// The per-cell solving states.
    pub closed spec fn guesses(&self) -> Seq<Guess> {
        state_cells(self.guess_board)
    }

    /// The solver's invariant: 81 cells everywhere, and every cell's state
    /// agrees with the input grid and the solving grid.
    pub open spec fn wf(&self) -> bool {
        &&& self.input().len() == 81
        &&& self.cells().len() == 81
        &&& self.guesses().len() == 81
        &&& forall|k: int|
            0 <= k < 81 ==> cell_ok(self.input()[k], self.cells()[k], #[trigger] self.guesses()[k])
    }

    /// The original, immutable input board.
    pub fn board_to_solve(&self) -> (r: &Board)
        ensures
            r@ == self.input(),
    {
        &self.board_to_solve
    }

    /// The board being filled in as cells are settled.
    pub fn solving_board(&self) -> (r: &Board)
        ensures
            r@ == self.cells(),
    {
        &self.solving_board
    }

    /// Builds the solving state for `board`: every nonzero cell becomes a
    /// `Prior`, every empty cell an all-candidates `Match`.  A board whose
    /// cells are not all between 0 and 9 is rejected before any solving.
    pub fn from_board(board: Board) -> (r: Result<BoardSolver, InvalidInputError>)
        requires
            board.wf(),
        ensures
            r is Ok <==> in_range(board@),
            r matches Ok(sv) ==> {
                &&& sv.wf()
                &&& sv.input() == board@
                &&& sv.cells() == board@
                &&& forall|k: int| 0 <= k < 81 ==> initial_state_ok(board@[k], #[trigger] sv.guesses()[k])
            },
    {
        if !board.values_in_range() {
            return Err(InvalidInputError);
        }
        let init_g = Guess::Match([true; 9]);
        let mut states = state_filled(init_g);
        let solving = board.duplicate();
        let mut k: usize = 0;
        while k < 81
            invariant
                k <= 81,
                board.wf(),
                in_range(board@),
                state_cells(states).len() == 81,
                forall|t: int|
                    0 <= t < k ==> initial_state_ok(board@[t], #[trigger] state_cells(states)[t]),
                init_g matches Guess::Match(_),
                forall|t: int| 0 <= t < 9 ==> match_flags(init_g)[t],
                forall|t: int| k <= t < 81 ==> #[trigger] state_cells(states)[t] == init_g,
            decreases 81 - k,
        {
            let (i, j) = coords_of(k);
            let v = board.get(i, j);
            if v != 0 {
                state_set(&mut states, i, j, Guess::Prior(v));
            }
            k = k + 1;
        }
        let sv = BoardSolver { board_to_solve: board, solving_board: solving, guess_board: states };
        proof {
            assert forall|t: int| 0 <= t < 81 implies cell_ok(
                sv.input()[t],
                sv.cells()[t],
                #[trigger] sv.guesses()[t],
            ) by {
                assert(initial_state_ok(board@[t], sv.guesses()[t]));
            }
        }
        Ok(sv)
    }

    /// Whether the grid being solved currently allows value `cell_value` at
    /// `cell_position`: its row, column, and 3x3 box are all free of it.
    pub fn can_contain(&self, cell_position: (usize, usize), cell_value: u8) -> (r: bool)
        requires
            cell_position.0 < 9,
            cell_position.1 < 9,
        ensures
            r == can_contain_spec(
                self.cells(),
                cell_position.0 as int,
                cell_position.1 as int,
                cell_value,
            ),
    {
        let check_row = self.solving_board.row_is_free_of(cell_position.0, cell_value);
        let check_col = self.solving_board.column_is_free_of(cell_position.1, cell_value);
        let check_square = self.solving_board.box_is_free_of(
            cell_position.0 / 3,
            cell_position.1 / 3,
            cell_value,
        );
        check_row && check_col && check_square
    }

    /// Writes the value of every `Hit` cell into the grid being solved.
    pub fn apply_hits(&mut self)
        requires
            old(self).cells().len() == 81,
            old(self).guesses().len() == 81,
        ensures
            final(self).input() == old(self).input(),
            final(self).guesses() == old(self).guesses(),
            final(self).cells().len() == 81,
            forall|k: int|
                0 <= k < 81 ==> #[trigger] final(self).cells()[k] == (match old(self).guesses()[k] {
                    Guess::Hit(n) => n,
                    _ => old(self).cells()[k],
                }),
    {
        let mut k: usize = 0;
        while k < 81
            invariant
                k <= 81,
                self.input() == old(self).input(),
                self.guesses() == old(self).guesses(),
                self.guesses().len() == 81,
                self.cells().len() == 81,
                forall|t: int|
                    0 <= t < k ==> #[trigger] self.cells()[t] == (match old(self).guesses()[t] {
                        Guess::Hit(n) => n,
                        _ => old(self).cells()[t],
                    }),
                forall|t: int| k <= t < 81 ==> #[trigger] self.cells()[t] == old(self).cells()[t],
            decreases 81 - k,
        {
            let (i, j) = coords_of(k);
            let g = state_get(&self.guess_board, i, j);
            match g {
                Guess::Hit(n) => {
                    self.solving_board.set(i, j, n);
                },
                _ => {},
            }
            k = k + 1;
        }
    }
}

/// What one narrowing step does to the state of the cell at row `i`, column
/// `j`: `g0` and `cells0` are the cell state and grid before, `g1`, `cells1`
/// and `r` the cell state, grid, and report after.
pub open spec fn narrow_step_ok(
    g0: Guess,
    cells0: Seq<u8>,
    i: int,
    j: int,
    g1: Guess,
    cells1: Seq<u8>,
    r: Result<i32, UnsolvableError>,
) -> bool {
    match g0 {
        Guess::Match(arr) => {
            let nf = narrowed_flags(arr@, cells0, i, j);
            &&& (r is Err <==> count_true(nf) == 0)
            &&& match r {
                Ok(c) => c as int == count_true(arr@) - count_true(nf),
                _ => true,
            }
            &&& if count_true(nf) == 1 {
                g1 == Guess::Hit(resolved_value(nf)) && cells1 == cells0.update(
                    cell_index(i, j),
                    resolved_value(nf),
                )
            } else {
                (g1 matches Guess::Match(_)) && match_flags(g1) == nf && cells1 == cells0
            }
        },
        _ => g1 == g0 && cells1 == cells0 && (r matches Ok(c) && c == 0),
    }
}

/// A candidate removed by narrowing appears in no compatible solution: if
/// value `v` cannot currently be placed at the open cell `(i, j)`, a settled
/// cell in its row, column, or box already holds `v`, so any consistent
/// assignment that is compatible with the state keeps `v` away from `(i, j)`.
proof fn lemma_exclusion_sound(sv: BoardSolver, i: int, j: int, v: u8, s: Seq<u8>)
    requires
        sv.wf(),
        0 <= i < 9,
        0 <= j < 9,
        sv.guesses()[cell_index(i, j)] matches Guess::Match(_),
        1 <= v <= 9,
        !can_contain_spec(sv.cells(), i, j, v),
        is_solution_of(s, sv.input()),
        compat(s, sv.guesses()),
    ensures
        s[cell_index(i, j)] != v,
{
    let k = cell_index(i, j);
    let cells = sv.cells();
    assert(cell_ok(sv.input()[k], cells[k], sv.guesses()[k]));
    assert(cells[k] == 0);
    if s[k] == v {
        if !row_free(cells, i, v) {
            let j2 = choose|j2: int| 0 <= j2 < 9 && at(cells, i, j2) == v;
            let k2 = cell_index(i, j2);
            assert(cell_ok(sv.input()[k2], cells[k2], sv.guesses()[k2]));
            assert(guess_allows(sv.guesses()[k2], s[k2]));
            assert(s[k2] == v);
            assert(j2 != j);
            assert(at(s, i, j) == v && at(s, i, j2) == v);
            assert(!row_consistent(s, i));
            assert(false);
        } else if !col_free(cells, j, v) {
            let i2 = choose|i2: int| 0 <= i2 < 9 && at(cells, i2, j) == v;
            let k2 = cell_index(i2, j);
            assert(cell_ok(sv.input()[k2], cells[k2], sv.guesses()[k2]));
            assert(guess_allows(sv.guesses()[k2], s[k2]));
            assert(s[k2] == v);
            assert(i2 != i);
            assert(at(s, i, j) == v && at(s, i2, j) == v);
            assert(!col_consistent(s, j));
            assert(false);
        } else {
            assert(!box_free(cells, i / 3, j / 3, v));
            let (a, b) = choose|a: int, b: int|
                0 <= a < 3 && 0 <= b < 3 && #[trigger] at(cells, (i / 3) * 3 + a, (j / 3) * 3 + b)
                    == v;
            let i2 = (i / 3) * 3 + a;
            let j2 = (j / 3) * 3 + b;
            let k2 = cell_index(i2, j2);
            assert(0 <= i2 < 9 && 0 <= j2 < 9);
            assert(cell_ok(sv.input()[k2], cells[k2], sv.guesses()[k2]));
            assert(guess_allows(sv.guesses()[k2], s[k2]));
            assert(s[k2] == v);
            let a0 = i % 3;
            let b0 = j % 3;
            assert(i == (i / 3) * 3 + a0 && j == (j / 3) * 3 + b0);
            assert(!(a0 == a && b0 == b));
            assert(at(s, (i / 3) * 3 + a0, (j / 3) * 3 + b0) == v);
            assert(at(s, (i / 3) * 3 + a, (j / 3) * 3 + b) == v);
            assert(!box_consistent(s, i / 3, j / 3));
            assert(false);
        }
    }
}

impl BoardSolver {
    /// Narrows the candidate set of the open cell at `(row, col)` against the
    /// current grid, settles the cell when a single candidate survives
    /// (writing the value into the grid at once, so later cells of the same
    /// sweep see it), and returns how many candidates were removed; an
    /// emptied candidate set reports `UnsolvableError`.
    pub fn exclude_matches(&mut self, row: usize, col: usize) -> (r: Result<i32, UnsolvableError>)
        requires
            old(self).wf(),
            row < 9,
            col < 9,
        ensures
            final(self).wf(),
            final(self).input() == old(self).input(),
            forall|k2: int|
                0 <= k2 < 81 && k2 != cell_index(row as int, col as int)
                    ==> #[trigger] final(self).guesses()[k2] == old(self).guesses()[k2]
                    && final(self).cells()[k2] == old(self).cells()[k2],
            narrow_step_ok(
                old(self).guesses()[cell_index(row as int, col as int)],
                old(self).cells(),
                row as int,
                col as int,
                final(self).guesses()[cell_index(row as int, col as int)],
                final(self).cells(),
                r,
            ),
            total_count(final(self).guesses()) <= total_count(old(self).guesses()),
            (r matches Ok(c) && c > 0) ==> total_count(final(self).guesses()) < total_count(
                old(self).guesses(),
            ),
            r matches Ok(c) ==> 0 <= c <= 9 && total_count(final(self).guesses()) + c <= total_count(
                old(self).guesses(),
            ),
            r is Ok ==> ((final(self).guesses()[cell_index(row as int, col as int)]
                matches Guess::Match(_)) ==> match_count(
                final(self).guesses()[cell_index(row as int, col as int)],
            ) > 0),
            forall|s: Seq<u8>|
                is_solution_of(s, old(self).input()) && #[trigger] compat(s, old(self).guesses())
                    ==> compat(s, final(self).guesses()),
            r is Err ==> (forall|s: Seq<u8>|
                !(is_solution_of(s, old(self).input()) && #[trigger] compat(
                    s,
                    old(self).guesses(),
                ))),
    {
        let g0 = state_get(&self.guess_board, row, col);
        match g0 {
            Guess::Match(arr0) => {
                let ghost nf = narrowed_flags(arr0@, self.cells(), row as int, col as int);
                let mut guess = g0;
                let mut counter: i32 = 0;
                let mut t: usize = 0;
                while t < 9
                    invariant
                        t <= 9,
                        row < 9,
                        col < 9,
                        self.wf(),
                        *self == *old(self),
                        g0 == Guess::Match(arr0),
                        g0 == self.guesses()[cell_index(row as int, col as int)],
                        nf == narrowed_flags(arr0@, self.cells(), row as int, col as int),
                        guess matches Guess::Match(_),
                        match_flags(guess).len() == 9,
                        forall|u: int| 0 <= u < t ==> match_flags(guess)[u] == nf[u],
                        forall|u: int| t <= u < 9 ==> match_flags(guess)[u] == arr0@[u],
                        counter as int == count_true_to(arr0@, t as int) - count_true_to(
                            match_flags(guess),
                            t as int,
                        ),
                        0 <= counter <= t,
                    decreases 9 - t,
                {
                    let ghost flags_before = match_flags(guess);
                    if arr0[t] {
                        let can = self.can_contain((row, col), (t + 1) as u8);
                        if !can {
                            guess.exclude(t);
                            counter = counter + 1;
                        }
                    }
                    proof {
                        lemma_count_true_to_update(flags_before, t as int, t as int, false);
                        assert(count_true_to(match_flags(guess), t + 1) == count_true_to(
                            match_flags(guess),
                            t as int,
                        ) + (if match_flags(guess)[t as int] {
                            1int
                        } else {
                            0int
                        }));
                    }
                    t = t + 1;
                }
                proof {
                    assert(match_flags(guess) =~= nf);
                    assert(counter as int == count_true(arr0@) - count_true(nf));
                }
                let resolved = guess.can_be_resolved();
                if resolved {
                    let ix = guess.first_match_ix();
                    let v: u8 = (ix + 1) as u8;
                    let settled = guess.resolve();
                    state_set(&mut self.guess_board, row, col, settled);
                    self.solving_board.set(row, col, v);
                } else {
                    state_set(&mut self.guess_board, row, col, guess);
                }
                let dead = guess.is_unsolvable();
                proof {
                    let ki = cell_index(row as int, col as int);
                    let gs0 = old(self).guesses();
                    let gs1 = self.guesses();
                    let c0 = old(self).cells();
                    // the new state of the cell
                    let newg = gs1[ki];
                    // well-formedness of the mutated solver
                    assert forall|k2: int| 0 <= k2 < 81 implies cell_ok(
                        self.input()[k2],
                        self.cells()[k2],
                        #[trigger] gs1[k2],
                    ) by {
                        assert(cell_ok(old(self).input()[k2], c0[k2], gs0[k2]));
                    }
                    // total candidate counts
                    lemma_total_count_update(gs0, ki, newg);
                    assert(forall|u: int| 0 <= u < 9 ==> (nf[u] ==> arr0@[u]));
                    lemma_count_true_to_le(nf, arr0@, 9);
                    lemma_count_true_to_bound(arr0@, 9);
                    // solution preservation
                    assert forall|s: Seq<u8>|
                        is_solution_of(s, old(self).input()) && #[trigger] compat(
                            s,
                            gs0,
                        ) implies compat(s, gs1) by {
                        assert forall|k2: int| 0 <= k2 < 81 implies #[trigger] guess_allows(
                            gs1[k2],
                            s[k2],
                        ) by {
                            assert(guess_allows(gs0[k2], s[k2]));
                            if k2 == ki {
                                let sv = s[ki];
                                assert(1 <= sv <= 9);
                                assert(arr0@[sv - 1]);
                                if !can_contain_spec(c0, row as int, col as int, sv) {
                                    lemma_exclusion_sound(
                                        *old(self),
                                        row as int,
                                        col as int,
                                        sv,
                                        s,
                                    );
                                    assert(false);
                                }
                                assert(nf[sv - 1]);
                                if count_true(nf) == 1 {
                                    lemma_lowest_true_from(nf, 0);
                                    lemma_count_true_to_zero(nf, 9);
                                    let lo = lowest_true(nf);
                                    assert(lo < 9);
                                    if sv - 1 != lo {
                                        if lo < sv - 1 {
                                            lemma_count_true_to_two(nf, 9, lo, sv - 1);
                                        } else {
                                            lemma_count_true_to_two(nf, 9, sv - 1, lo);
                                        }
                                        assert(false);
                                    }
                                    assert(newg == Guess::Hit(resolved_value(nf)));
                                }
                            }
                        }
                    }
                    // an emptied cell leaves no compatible solution at all
                    if count_true(nf) == 0 {
                        lemma_count_true_to_zero(nf, 9);
                        assert forall|s: Seq<u8>|
                            !(is_solution_of(s, old(self).input()) && #[trigger] compat(
                                s,
                                gs0,
                            )) by {
                            if is_solution_of(s, old(self).input()) && compat(s, gs0) {
                                assert(guess_allows(gs1[ki], s[ki]));
                                assert(match_flags(gs1[ki])[s[ki] - 1]);
                                assert(false);
                            }
                        }
                    }
                }
                if dead {
                    return Err(UnsolvableError);
                }
                Ok(counter)
            },
            _ => { Ok(0) },
        }
    }
}

/// The initial solving state of one cell.
pub open spec fn initial_state_ok(v: u8, g: Guess) -> bool {
    if v == 0 {
        g matches Guess::Match(_) && forall|t: int| 0 <= t < 9 ==> match_flags(g)[t]
    } else {
        g == Guess::Prior(v)
    }
}

/// A well-formed solver holds only digits 0 to 9 on both of its grids.
proof fn lemma_wf_in_range(sv: BoardSolver)
    requires
        sv.wf(),
    ensures
        in_range(sv.cells()),
        in_range(sv.input()),
{
    assert forall|k: int| 0 <= k < 81 implies sv.cells()[k] <= 9 && sv.input()[k] <= 9 by {
        assert(cell_ok(sv.input()[k], sv.cells()[k], sv.guesses()[k]));
    }
}

impl BoardSolver {
    /// One speculative search step, guided by the minimum-remaining-values
    /// heuristic: among the open cells, scanned in row-major order, it picks
    /// the one with the fewest candidates (the first strictly smaller count
    /// wins), commits a disposable clone of the whole solver to that cell's
    /// lowest remaining candidate, and hands the clone to the full solving
    /// procedure.  Failure names the cell and the candidate, which the caller
    /// then excludes for good; the clone is discarded either way.
    #[verifier::loop_isolation(false)]
    pub fn simulate_path(&self) -> (r: Result<Board, GuessWrongError>)
        requires
            self.wf(),
            !full(self.cells()),
            no_empty_match(self.guesses()),
        ensures
            r matches Ok(b) ==> b.wf() && is_solution_of(b@, self.input()),
            r matches Err(e) ==> {
                &&& e.pos.0 < 9
                &&& e.pos.1 < 9
                &&& e.wrong_guess_ix < 9
                &&& self.guesses()[cell_index(e.pos.0 as int, e.pos.1 as int)] matches Guess::Match(
                    _,
                )
                &&& match_flags(self.guesses()[cell_index(e.pos.0 as int, e.pos.1 as int)])[e.wrong_guess_ix as int]
                &&& e.wrong_guess_ix == lowest_true(
                    match_flags(self.guesses()[cell_index(e.pos.0 as int, e.pos.1 as int)]),
                )
                &&& forall|t: int|
                    (0 <= t < cell_index(e.pos.0 as int, e.pos.1 as int) && (
                    #[trigger] self.guesses()[t]) matches Guess::Match(_)) ==> match_count(
                        self.guesses()[t],
                    ) > match_count(self.guesses()[cell_index(e.pos.0 as int, e.pos.1 as int)])
                &&& forall|t: int|
                    (0 <= t < 81 && (#[trigger] self.guesses()[t]) matches Guess::Match(_))
                        ==> match_count(self.guesses()[t]) >= match_count(
                        self.guesses()[cell_index(e.pos.0 as int, e.pos.1 as int)],
                    )
                &&& forall|s: Seq<u8>|
                    is_solution_of(s, self.input()) && #[trigger] compat(s, self.guesses())
                        ==> s[cell_index(e.pos.0 as int, e.pos.1 as int)] != (e.wrong_guess_ix
                        + 1) as u8
            },
        decreases total_count(self.guesses()), 1int,
    {
        let mut best_k: usize = 81;
        let mut best_count: usize = 10;
        let mut k2: usize = 0;
        while k2 < 81
            invariant
                k2 <= 81,
                best_k <= 81,
                self.wf(),
                best_k == 81 ==> best_count == 10 && (forall|t: int|
                    0 <= t < k2 ==> !((#[trigger] self.guesses()[t]) matches Guess::Match(_))),
                best_k < 81 ==> (best_k as int) < k2,
                best_k < 81 ==> self.guesses()[best_k as int] matches Guess::Match(_),
                best_k < 81 ==> match_count(self.guesses()[best_k as int]) == best_count,
                best_k < 81 ==> (forall|t: int|
                    (0 <= t < k2 && (#[trigger] self.guesses()[t]) matches Guess::Match(_))
                        ==> match_count(self.guesses()[t]) >= best_count),
                best_k < 81 ==> (forall|t: int|
                    (0 <= t < best_k && (#[trigger] self.guesses()[t]) matches Guess::Match(_))
                        ==> match_count(self.guesses()[t]) > best_count),
            decreases 81 - k2,
        {
            let (i, j) = coords_of(k2);
            let g = state_get(&self.guess_board, i, j);
            proof {
                assert(g == self.guesses()[k2 as int]);
            }
            match g {
                Guess::Match(_) => {
                    let c = g.count_matches();
                    if c < best_count {
                        proof {
                            assert forall|t: int|
                                (0 <= t < k2 && (#[trigger] self.guesses()[t]) matches Guess::Match(
                                    _,
                                )) implies match_count(self.guesses()[t]) > c by {
                                if best_k == 81 {
                                    assert(!(self.guesses()[t] matches Guess::Match(_)));
                                } else {
                                    assert(match_count(self.guesses()[t]) >= best_count);
                                }
                            }
                        }
                        best_count = c;
                        best_k = k2;
                    }
                },
                _ => {},
            }
            k2 = k2 + 1;
        }
        proof {
            let kz = choose|kz: int| 0 <= kz < 81 && self.cells()[kz] == 0;
            assert(cell_ok(self.input()[kz], self.cells()[kz], self.guesses()[kz]));
            assert(self.guesses()[kz] matches Guess::Match(_));
            assert(best_k < 81);
        }
        let (bi, bj) = coords_of(best_k);
        let chosen = state_get(&self.guess_board, bi, bj);
        let ix = chosen.first_match_ix();
        let v: u8 = (ix + 1) as u8;
        let mut new_solver = BoardSolver {
            board_to_solve: self.board_to_solve.duplicate(),
            solving_board: self.solving_board.duplicate(),
            guess_board: state_clone(&self.guess_board),
        };
        state_set(&mut new_solver.guess_board, bi, bj, Guess::Hit(v));
        new_solver.solving_board.set(bi, bj, v);
        proof {
            assert(new_solver.guesses() == self.guesses().update(best_k as int, Guess::Hit(v)));
            assert forall|k: int| 0 <= k < 81 implies cell_ok(
                new_solver.input()[k],
                new_solver.cells()[k],
                #[trigger] new_solver.guesses()[k],
            ) by {
                assert(cell_ok(self.input()[k], self.cells()[k], self.guesses()[k]));
            }
            lemma_total_count_update(self.guesses(), best_k as int, Guess::Hit(v));
        }
        new_solver.apply_hits();
        proof {
            assert(new_solver.cells() =~= self.cells().update(best_k as int, v));
            assert forall|k: int| 0 <= k < 81 implies cell_ok(
                new_solver.input()[k],
                new_solver.cells()[k],
                #[trigger] new_solver.guesses()[k],
            ) by {
                assert(cell_ok(self.input()[k], self.cells()[k], self.guesses()[k]));
            }
        }
        let ghost trial_gs = new_solver.guesses();
        match new_solver.solve() {
            Ok(solved_board) => Ok(solved_board),
            Err(_) => {
                proof {
                    assert forall|s: Seq<u8>|
                        is_solution_of(s, self.input()) && #[trigger] compat(
                            s,
                            self.guesses(),
                        ) implies s[best_k as int] != v by {
                        if s[best_k as int] == v {
                            assert(compat(s, trial_gs)) by {
                                assert forall|k: int| 0 <= k < 81 implies #[trigger] guess_allows(
                                    trial_gs[k],
                                    s[k],
                                ) by {
                                    assert(guess_allows(self.guesses()[k], s[k]));
                                }
                            }
                            assert(false);
                        }
                    }
                }
                Err(GuessWrongError { pos: (bi, bj), wrong_guess_ix: ix })
            },
        }
    }

    /// The driver loop: while the grid is incomplete, run propagation sweeps
    /// as long as they remove candidates, and one bounded search step when
    /// they stall; a completed grid must still pass the final consistency
    /// check before it is returned.
    #[verifier::loop_isolation(false)]
    fn solve_loop(self, can_be_reduced: bool) -> (r: Result<Board, UnsolvableError>)
        requires
            self.wf(),
            !can_be_reduced ==> no_empty_match(self.guesses()),
        ensures
            r matches Ok(b) ==> b.wf() && is_solution_of(b@, self.input()),
            r is Err ==> (forall|s: Seq<u8>|
                !(is_solution_of(s, self.input()) && #[trigger] compat(s, self.guesses()))),
            full(self.cells()) && consistent(self.cells()) ==> (r matches Ok(b) && b@
                == self.cells()),
        decreases total_count(self.guesses()), (if can_be_reduced {
            3int
        } else {
            2int
        }),
    {
        let ghost orig = self;
        let mut me = self;
        proof {
            lemma_wf_in_range(orig);
        }
        if me.solving_board.is_complete() {
            if me.solving_board.check_complete() {
                proof {
                    assert forall|k: int| 0 <= k < 81 && orig.input()[k] != 0 implies orig.cells()[k]
                        == orig.input()[k] by {
                        assert(cell_ok(orig.input()[k], orig.cells()[k], orig.guesses()[k]));
                    }
                    assert forall|k: int| 0 <= k < 81 implies 1 <= #[trigger] orig.cells()[k]
                        <= 9 by {
                        assert(cell_ok(orig.input()[k], orig.cells()[k], orig.guesses()[k]));
                    }
                }
                return Ok(me.solving_board);
            } else {
                proof {
                    assert forall|s: Seq<u8>|
                        !(is_solution_of(s, orig.input()) && #[trigger] compat(
                            s,
                            orig.guesses(),
                        )) by {
                        if is_solution_of(s, orig.input()) && compat(s, orig.guesses()) {
                            assert forall|k: int| 0 <= k < 81 implies s[k] == orig.cells()[k] by {
                                assert(cell_ok(orig.input()[k], orig.cells()[k], orig.guesses()[k]));
                                assert(guess_allows(orig.guesses()[k], s[k]));
                            }
                            assert(s =~= orig.cells());
                            assert(consistent(orig.cells()));
                            assert(false);
                        }
                    }
                }
                return Err(UnsolvableError);
            }
        }
        if can_be_reduced {
            let ghost total_entry = total_count(orig.guesses());
            proof {
                lemma_total_count_bound(orig.guesses());
            }
            let mut counter: i32 = 0;
            let mut i: usize = 0;
            while i < 9
                invariant
                    i <= 9,
                    me.wf(),
                    me.input() == orig.input(),
                    !full(orig.cells()),
                    total_entry == total_count(orig.guesses()),
                    total_entry <= 729,
                    forall|s: Seq<u8>|
                        is_solution_of(s, orig.input()) && #[trigger] compat(s, orig.guesses())
                            ==> compat(s, me.guesses()),
                    total_count(me.guesses()) + counter <= total_entry,
                    0 <= counter <= total_entry,
                    forall|k: int|
                        (0 <= k < i * 9 && (#[trigger] me.guesses()[k]) matches Guess::Match(_))
                            ==> match_count(me.guesses()[k]) > 0,
                decreases 9 - i,
            {
                let mut j: usize = 0;
                while j < 9
                    invariant
                        i < 9,
                        j <= 9,
                        me.wf(),
                        me.input() == orig.input(),
                        !full(orig.cells()),
                        total_entry == total_count(orig.guesses()),
                        total_entry <= 729,
                        forall|s: Seq<u8>|
                            is_solution_of(s, orig.input()) && #[trigger] compat(s, orig.guesses())
                                ==> compat(s, me.guesses()),
                        total_count(me.guesses()) + counter <= total_entry,
                        0 <= counter <= total_entry,
                        forall|k: int|
                            (0 <= k < i * 9 + j && (#[trigger] me.guesses()[k]) matches Guess::Match(
                                _,
                            )) ==> match_count(me.guesses()[k]) > 0,
                    decreases 9 - j,
                {
                    let ghost before = me;
                    let step = me.exclude_matches(i, j);
                    match step {
                        Ok(c) => {
                            proof {
                                assert forall|k: int|
                                    (0 <= k < i * 9 + j + 1 && (#[trigger] me.guesses()[k])
                                        matches Guess::Match(_)) implies match_count(
                                    me.guesses()[k],
                                ) > 0 by {
                                    if k != cell_index(i as int, j as int) {
                                        assert(me.guesses()[k] == before.guesses()[k]);
                                    }
                                }
                            }
                            counter = counter + c;
                        },
                        Err(_) => {
                            proof {
                                assert forall|s2: Seq<u8>|
                                    !(is_solution_of(s2, orig.input()) && #[trigger] compat(
                                        s2,
                                        orig.guesses(),
                                    )) by {
                                    if is_solution_of(s2, orig.input()) && compat(
                                        s2,
                                        orig.guesses(),
                                    ) {
                                        assert(compat(s2, before.guesses()));
                                        assert(false);
                                    }
                                }
                                assert(!full(orig.cells()));
                            }
                            return Err(UnsolvableError);
                        },
                    }
                    j = j + 1;
                }
                i = i + 1;
            }
            me.apply_hits();
            proof {
                assert forall|k: int| 0 <= k < 81 implies cell_ok(
                    me.input()[k],
                    me.cells()[k],
                    #[trigger] me.guesses()[k],
                ) by {}
            }
            if counter == 0 {
                me.solve_loop(false)
            } else {
                me.solve_loop(true)
            }
        } else {
            let ghost gs0 = orig.guesses();
            match me.simulate_path() {
                Ok(board) => {
                    // the mandatory final consistency check; a genuine
                    // solution always passes it
                    if board.check_complete() {
                        Ok(board)
                    } else {
                        proof {
                            assert(false);
                        }
                        Err(UnsolvableError)
                    }
                },
                Err(e) => {
                    let mut g = state_get(&me.guess_board, e.pos.0, e.pos.1);
                    let ghost flags0 = match_flags(g);
                    g.exclude(e.wrong_guess_ix);
                    state_set(&mut me.guess_board, e.pos.0, e.pos.1, g);
                    proof {
                        let ki = cell_index(e.pos.0 as int, e.pos.1 as int);
                        assert(me.guesses() == gs0.update(ki, g));
                        assert forall|k: int| 0 <= k < 81 implies cell_ok(
                            me.input()[k],
                            me.cells()[k],
                            #[trigger] me.guesses()[k],
                        ) by {
                            assert(cell_ok(orig.input()[k], orig.cells()[k], orig.guesses()[k]));
                        }
                        lemma_count_true_to_update(
                            flags0,
                            9,
                            e.wrong_guess_ix as int,
                            false,
                        );
                        lemma_total_count_update(gs0, ki, g);
                        assert(total_count(me.guesses()) < total_count(gs0));
                        assert forall|s: Seq<u8>|
                            is_solution_of(s, orig.input()) && #[trigger] compat(
                                s,
                                gs0,
                            ) implies compat(s, me.guesses()) by {
                            assert forall|k: int| 0 <= k < 81 implies #[trigger] guess_allows(
                                me.guesses()[k],
                                s[k],
                            ) by {
                                assert(guess_allows(gs0[k], s[k]));
                                if k == ki {
                                    assert(s[k] != (e.wrong_guess_ix + 1) as u8);
                                }
                            }
                        }
                    }
                    me.solve_loop(true)
                },
            }
        }
    }

    /// The full solving procedure on this state: propagation to a fixed
    /// point, then search, until the grid is solved or proven contradictory.
    /// `Ok` carries a completed, consistent grid that extends the input's
    /// givens; `Err` means no solution is compatible with the current state.
    /// An already solved grid is returned as it stands.
    pub fn solve(self) -> (r: Result<Board, UnsolvableError>)
        requires
            self.wf(),
        ensures
            r matches Ok(b) ==> b.wf() && is_solution_of(b@, self.input()),
            r is Err ==> (forall|s: Seq<u8>|
                !(is_solution_of(s, self.input()) && #[trigger] compat(s, self.guesses()))),
            full(self.cells()) && consistent(self.cells()) ==> (r matches Ok(b) && b@
                == self.cells()),
        decreases total_count(self.guesses()), 4int,
    {
        self.solve_loop(true)
    }
}

impl Board {
    /// Solves this board.  `Ok` carries a grid that is fully filled with the
    /// digits 1 to 9, repeats no digit in any row, column, or box, and keeps
    /// every given of this board; `Err` means no such grid exists.  A board
    /// that is already solved comes back unchanged.
    pub fn solve(&self) -> (r: Result<Board, UnsolvableError>)
        requires
            self.wf(),
            in_range(self@),
        ensures
            r matches Ok(b) ==> b.wf() && is_solution_of(b@, self@),
            r is Err ==> (forall|s: Seq<u8>| !is_solution_of(s, self@)),
            r is Ok <==> (exists|s: Seq<u8>| is_solution_of(s, self@)),
            full(self@) && consistent(self@) ==> (r matches Ok(b) && b@ == self@),
    {
        match BoardSolver::from_board(self.duplicate()) {
            Ok(solver) => {
                let ghost gs0 = solver.guesses();
                let r = solver.solve();
                proof {
                    if r is Err {
                        assert forall|s: Seq<u8>| !is_solution_of(s, self@) by {
                            if is_solution_of(s, self@) {
                                assert(compat(s, gs0)) by {
                                    assert forall|k: int|
                                        0 <= k < 81 implies #[trigger] guess_allows(
                                        gs0[k],
                                        s[k],
                                    ) by {
                                        assert(initial_state_ok(self@[k], gs0[k]));
                                        if self@[k] == 0 {
                                            assert(1 <= s[k] <= 9);
                                            assert(match_flags(gs0[k])[s[k] - 1]);
                                        }
                                    }
                                }
                                assert(false);
                            }
                        }
                    }
                }
                r
            },
            Err(_) => {
                proof {
                    assert(false);
                }
                Err(UnsolvableError)
            },
        }
    }
}

} // verus!
