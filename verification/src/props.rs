//! Grid-wide consequences of the solver's contracts: a solved grid carries
//! every digit exactly once per unit, and a grid whose givens already clash
//! admits no solution at all.

use vstd::prelude::*;

use crate::board::at;
use crate::board::consistent;
use crate::board::is_solution_of;
use crate::board::row_consistent;
use crate::guess::count_true;
use crate::guess::count_true_to;
use crate::guess::lemma_lowest_true_from;
use crate::guess::match_flags;
use crate::guess::Guess;
use crate::solver::can_contain_spec;
use crate::solver::narrow_step_ok;
use crate::solver::narrowed_flags;
use crate::solver::resolved_value;
use crate::solver::UnsolvableError;

verus! {

/// An injective map from `n` positions into a set of `n` values reaches every
/// value of the set.
proof fn lemma_injective_cover(f: spec_fn(int) -> u8, vals: Set<u8>, n: int)
    requires
        n >= 0,
        vals.finite(),
        vals.len() == n,
        forall|x: int| 0 <= x < n ==> vals.contains(#[trigger] f(x)),
        forall|x: int, y: int|
            #![trigger f(x), f(y)]
            0 <= x < n && 0 <= y < n && x != y ==> f(x) != f(y),
    ensures
        forall|v: u8| vals.contains(v) ==> exists|x: int| 0 <= x < n && #[trigger] f(x) == v,
    decreases n,
{
    if n > 0 {
        let last = f(n - 1);
        let rest = vals.remove(last);
        assert(rest.len() == n - 1);
        lemma_injective_cover(f, rest, n - 1);
        assert forall|v: u8| vals.contains(v) implies exists|x: int|
            0 <= x < n && #[trigger] f(x) == v by {
            if v == last {
                assert(0 <= n - 1 < n && f(n - 1) == v);
            } else {
                assert(rest.contains(v));
                let x = choose|x: int| 0 <= x < n - 1 && #[trigger] f(x) == v;
                assert(0 <= x < n && f(x) == v);
            }
        }
    }
}

/// The set of the nine puzzle digits.
spec fn digit_set() -> Set<u8> {
    Set::<u8>::empty().insert(1).insert(2).insert(3).insert(4).insert(5).insert(6).insert(
        7,
    ).insert(8).insert(9)
}

proof fn lemma_digit_set()
    ensures
        digit_set().finite(),
        digit_set().len() == 9,
        forall|v: u8| digit_set().contains(v) <==> 1 <= v <= 9,
{
}

/// Some cell of row `i` holds value `v`.
pub open spec fn row_has(s: Seq<u8>, i: int, v: u8) -> bool {
    exists|j: int| 0 <= j < 9 && #[trigger] at(s, i, j) == v
}

/// Some cell of column `j` holds value `v`.
pub open spec fn col_has(s: Seq<u8>, j: int, v: u8) -> bool {
    exists|i: int| 0 <= i < 9 && #[trigger] at(s, i, j) == v
}

/// Some cell of the 3x3 box with box coordinates `(bi, bj)` holds value `v`.
pub open spec fn box_has(s: Seq<u8>, bi: int, bj: int, v: u8) -> bool {
    exists|a: int, b: int|
        0 <= a < 3 && 0 <= b < 3 && #[trigger] at(s, bi * 3 + a, bj * 3 + b) == v
}

/// Every fully filled, consistent grid carries each of the digits 1 to 9 in
/// every row, every column, and every 3x3 box — together with consistency
/// (no digit twice per unit), each digit appears exactly once per unit.
pub proof fn lemma_solution_covers_values(s: Seq<u8>)
    requires
        s.len() == 81,
        forall|k: int| 0 <= k < 81 ==> 1 <= #[trigger] s[k] <= 9,
        consistent(s),
    ensures
        forall|i: int, v: u8| 0 <= i < 9 && 1 <= v <= 9 ==> #[trigger] row_has(s, i, v),
        forall|j: int, v: u8| 0 <= j < 9 && 1 <= v <= 9 ==> #[trigger] col_has(s, j, v),
        forall|bi: int, bj: int, v: u8|
            0 <= bi < 3 && 0 <= bj < 3 && 1 <= v <= 9 ==> #[trigger] box_has(s, bi, bj, v),
{
    lemma_digit_set();
    assert forall|i: int, v: u8| 0 <= i < 9 && 1 <= v <= 9 implies #[trigger] row_has(
        s,
        i,
        v,
    ) by {
        let f = |j: int| at(s, i, j);
        assert(forall|x: int| 0 <= x < 9 ==> digit_set().contains(#[trigger] f(x)));
        assert(row_consistent(s, i));
        assert(forall|x: int, y: int|
            #![trigger f(x), f(y)]
            0 <= x < 9 && 0 <= y < 9 && x != y ==> f(x) != f(y));
        lemma_injective_cover(f, digit_set(), 9);
        assert(digit_set().contains(v));
        let j = choose|j: int| 0 <= j < 9 && #[trigger] f(j) == v;
        assert(at(s, i, j) == v);
    }
    assert forall|j: int, v: u8| 0 <= j < 9 && 1 <= v <= 9 implies #[trigger] col_has(
        s,
        j,
        v,
    ) by {
        let f = |i: int| at(s, i, j);
        assert(forall|x: int| 0 <= x < 9 ==> digit_set().contains(#[trigger] f(x)));
        assert(crate::board::col_consistent(s, j));
        assert(forall|x: int, y: int|
            #![trigger f(x), f(y)]
            0 <= x < 9 && 0 <= y < 9 && x != y ==> f(x) != f(y));
        lemma_injective_cover(f, digit_set(), 9);
        assert(digit_set().contains(v));
        let i = choose|i: int| 0 <= i < 9 && #[trigger] f(i) == v;
        assert(at(s, i, j) == v);
    }
    assert forall|bi: int, bj: int, v: u8|
        0 <= bi < 3 && 0 <= bj < 3 && 1 <= v <= 9 implies #[trigger] box_has(s, bi, bj, v) by {
        let f = |p: int| at(s, bi * 3 + p / 3, bj * 3 + p % 3);
        assert forall|x: int| 0 <= x < 9 implies digit_set().contains(#[trigger] f(x)) by {
            assert(0 <= x / 3 < 3 && 0 <= x % 3 < 3);
            assert(0 <= (bi * 3 + x / 3) * 9 + (bj * 3 + x % 3) < 81);
        }
        assert(crate::board::box_consistent(s, bi, bj));
        assert forall|x: int, y: int|
            #![trigger f(x), f(y)]
            0 <= x < 9 && 0 <= y < 9 && x != y implies f(x) != f(y) by {
            assert(x == (x / 3) * 3 + x % 3 && y == (y / 3) * 3 + y % 3);
            assert(!(x / 3 == y / 3 && x % 3 == y % 3));
            assert(at(s, bi * 3 + x / 3, bj * 3 + x % 3) != 0);
        }
        lemma_injective_cover(f, digit_set(), 9);
        assert(digit_set().contains(v));
        let p = choose|p: int| 0 <= p < 9 && #[trigger] f(p) == v;
        assert(0 <= p / 3 < 3 && 0 <= p % 3 < 3);
        assert(at(s, bi * 3 + p / 3, bj * 3 + p % 3) == v);
    }
}

/// Flags with a single set position have count one.
proof fn lemma_count_single(s: Seq<bool>, n: int, p: int)
    requires
        0 <= p < n,
        forall|t: int| 0 <= t < n ==> (s[t] <==> t == p),
    ensures
        count_true_to(s, n) == 1,
    decreases n,
{
    if p == n - 1 {
        crate::guess::lemma_count_true_to_zero(s, n - 1);
    } else {
        lemma_count_single(s, n - 1, p);
    }
}

/// Propagation alone settles a lone gap: when row `i` of grid `g` holds
/// eight distinct digits, its remaining cell `j0` is empty, and every other
/// cell of the grid is empty, then narrowing the full candidate set of cell
/// `(i, j0)` against `g` leaves exactly one candidate, the one digit `k`
/// missing from the row — so one pass of `exclude_matches` writes `k` there.
pub proof fn lemma_lone_gap_resolves(g: Seq<u8>, i: int, j0: int, k: u8, arr: Seq<bool>)
    requires
        g.len() == 81,
        0 <= i < 9,
        0 <= j0 < 9,
        1 <= k <= 9,
        at(g, i, j0) == 0,
        forall|j: int| 0 <= j < 9 && j != j0 ==> 1 <= #[trigger] at(g, i, j) <= 9,
        forall|j: int| 0 <= j < 9 && j != j0 ==> #[trigger] at(g, i, j) != k,
        row_consistent(g, i),
        forall|i2: int, j: int|
            #![trigger at(g, i2, j)]
            0 <= i2 < 9 && 0 <= j < 9 && i2 != i ==> at(g, i2, j) == 0,
        arr.len() == 9,
        forall|t: int| 0 <= t < 9 ==> arr[t],
    ensures
        count_true(narrowed_flags(arr, g, i, j0)) == 1,
        resolved_value(narrowed_flags(arr, g, i, j0)) == k,
{
    lemma_digit_set();
    let nf = narrowed_flags(arr, g, i, j0);
    // the missing digit still fits the gap
    assert(crate::board::row_free(g, i, k));
    assert(crate::board::col_free(g, j0, k)) by {
        assert forall|i2: int| 0 <= i2 < 9 implies at(g, i2, j0) != k by {
            if i2 != i {
                assert(at(g, i2, j0) == 0);
            }
        }
    }
    assert(crate::board::box_free(g, i / 3, j0 / 3, k)) by {
        assert forall|a: int, b: int| 0 <= a < 3 && 0 <= b < 3 implies #[trigger] at(
            g,
            (i / 3) * 3 + a,
            (j0 / 3) * 3 + b,
        ) != k by {
            let i2 = (i / 3) * 3 + a;
            let j = (j0 / 3) * 3 + b;
            if i2 == i {
                if j != j0 {
                    assert(at(g, i, j) != k);
                } else {
                    assert(at(g, i, j0) == 0);
                }
            } else {
                assert(at(g, i2, j) == 0);
            }
        }
    }
    assert(can_contain_spec(g, i, j0, k));
    assert(nf[k - 1]);
    // every other digit already sits somewhere in the row
    let vals = digit_set().remove(k);
    let f = |x: int| at(g, i, if x < j0 {
        x
    } else {
        x + 1
    });
    assert(vals.len() == 8);
    assert(forall|x: int| 0 <= x < 8 ==> vals.contains(#[trigger] f(x)));
    assert(forall|x: int, y: int|
        #![trigger f(x), f(y)]
        0 <= x < 8 && 0 <= y < 8 && x != y ==> f(x) != f(y));
    lemma_injective_cover(f, vals, 8);
    assert forall|t: int| 0 <= t < 9 && t != k - 1 implies !nf[t] by {
        let v = (t + 1) as u8;
        assert(vals.contains(v));
        let x = choose|x: int| 0 <= x < 8 && #[trigger] f(x) == v;
        let j = if x < j0 {
            x
        } else {
            x + 1
        };
        assert(at(g, i, j) == v && 0 <= j < 9);
        assert(!crate::board::row_free(g, i, v));
        assert(!can_contain_spec(g, i, j0, v));
    }
    assert(forall|t: int| 0 <= t < 9 ==> (nf[t] <==> t == k - 1));
    lemma_count_single(nf, 9, k - 1);
    lemma_lowest_true_from(nf, 0);
    assert(crate::guess::lowest_true(nf) == k - 1) by {
        if crate::guess::lowest_true(nf) != k - 1 {
            assert(nf[crate::guess::lowest_true(nf)]);
        }
    }
}

/// The lone-gap law at the narrowing step itself: under the grid of
/// `lemma_lone_gap_resolves`, any narrowing step that `exclude_matches`
/// reports for the gap cell (its contract `narrow_step_ok`) settles the cell
/// on `Hit(k)`, writes `k` into the grid, and raises no contradiction.
pub proof fn lemma_lone_gap_settles_cell(
    g: Seq<u8>,
    i: int,
    j0: int,
    k: u8,
    g0: Guess,
    g1: Guess,
    cells1: Seq<u8>,
    r: Result<i32, UnsolvableError>,
)
    requires
        g.len() == 81,
        0 <= i < 9,
        0 <= j0 < 9,
        1 <= k <= 9,
        at(g, i, j0) == 0,
        forall|j: int| 0 <= j < 9 && j != j0 ==> 1 <= #[trigger] at(g, i, j) <= 9,
        forall|j: int| 0 <= j < 9 && j != j0 ==> #[trigger] at(g, i, j) != k,
        row_consistent(g, i),
        forall|i2: int, j: int|
            #![trigger at(g, i2, j)]
            0 <= i2 < 9 && 0 <= j < 9 && i2 != i ==> at(g, i2, j) == 0,
        g0 matches Guess::Match(_),
        forall|t: int| 0 <= t < 9 ==> match_flags(g0)[t],
        narrow_step_ok(g0, g, i, j0, g1, cells1, r),
    ensures
        g1 == Guess::Hit(k),
        cells1 == g.update(crate::cell_index(i, j0), k),
        r is Ok,
{
    lemma_lone_gap_resolves(g, i, j0, k, match_flags(g0));
}

/// A grid whose givens repeat a nonzero value inside one row admits no
/// solution; by the contract of `Board::solve`, such a grid can therefore
/// never be reported solved.
pub proof fn lemma_row_duplicate_unsolvable(g: Seq<u8>, i: int, j1: int, j2: int)
    requires
        g.len() == 81,
        0 <= i < 9,
        0 <= j1 < 9,
        0 <= j2 < 9,
        j1 != j2,
        at(g, i, j1) != 0,
        at(g, i, j1) == at(g, i, j2),
    ensures
        forall|s: Seq<u8>| !is_solution_of(s, g),
{
    assert forall|s: Seq<u8>| !is_solution_of(s, g) by {
        if is_solution_of(s, g) {
            assert(0 <= i * 9 + j1 < 81 && 0 <= i * 9 + j2 < 81);
            assert(at(s, i, j1) == at(g, i, j1));
            assert(at(s, i, j2) == at(g, i, j2));
            assert(!row_consistent(s, i));
            assert(false);
        }
    }
}

} // verus!

