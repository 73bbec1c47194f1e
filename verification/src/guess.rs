//! The per-cell solving state: a value given by the puzzle, a value the solver
//! has determined, or the set of candidate values that are still open.

use vstd::prelude::*;

verus! {

/// Solving knowledge about one cell.
///
/// `Match` holds one flag per digit: entry `t` is true iff the value `t + 1`
/// has not been excluded yet.
#[derive(Clone, Copy, Debug)]
pub enum Guess {
    /// A value supplied by the input puzzle; never changed while solving.
    Prior(u8),
    /// A value proven by propagation or committed by the search.
    Hit(u8),
    /// The set of candidate values still open for this cell.
    Match([bool; 9]),
}

/// The candidate flags of a `Match`, or the empty sequence for a settled cell.
pub open spec fn match_flags(g: Guess) -> Seq<bool> {
    match g {
        Guess::Match(arr) => arr@,
        _ => Seq::empty(),
    }
}

/// How many of the first `n` flags are set.
pub open spec fn count_true_to(s: Seq<bool>, n: int) -> nat
    decreases n,
{
    if n <= 0 {
        0
    } else {
        count_true_to(s, n - 1) + (if s[n - 1] {
            1nat
        } else {
            0nat
        })
    }
}

/// How many flags are set.
pub open spec fn count_true(s: Seq<bool>) -> nat {
    count_true_to(s, s.len() as int)
}

/// The number of candidate values still open for this cell (0 for settled cells).
pub open spec fn match_count(g: Guess) -> nat {
    count_true(match_flags(g))
}

/// The position of the lowest set flag at or after `i`, or `s.len()` if none.
pub open spec fn lowest_true_from(s: Seq<bool>, i: int) -> int
    decreases s.len() - i,
{
    if i < 0 || i >= s.len() {
        s.len() as int
    } else if s[i] {
        i
    } else {
        lowest_true_from(s, i + 1)
    }
}

/// The position of the lowest set flag, or `s.len()` if none.
pub open spec fn lowest_true(s: Seq<bool>) -> int {
    lowest_true_from(s, 0)
}

/// Whether the cell state `g` allows the cell to hold value `v`.
pub open spec fn guess_allows(g: Guess, v: u8) -> bool {
    match g {
        Guess::Prior(n) => n == v,
        Guess::Hit(n) => n == v,
        Guess::Match(arr) => 1 <= v <= 9 && arr@[v as int - 1],
    }
}

pub proof fn lemma_count_true_to_bound(s: Seq<bool>, n: int)
    ensures
        count_true_to(s, n) <= (if n <= 0 {
            0int
        } else {
            n
        }),
    decreases n,
{
    if n > 0 {
        lemma_count_true_to_bound(s, n - 1);
    }
}

pub proof fn lemma_count_true_to_zero(s: Seq<bool>, n: int)
    ensures
        (count_true_to(s, n) == 0) <==> (forall|t: int| 0 <= t < n ==> !s[t]),
    decreases n,
{
    if n > 0 {
        lemma_count_true_to_zero(s, n - 1);
    }
}

pub proof fn lemma_count_true_to_update(s: Seq<bool>, n: int, i: int, b: bool)
    requires
        0 <= i < s.len(),
        n <= s.len(),
    ensures
        i >= n ==> count_true_to(s.update(i, b), n) == count_true_to(s, n),
        i < n ==> count_true_to(s.update(i, b), n) + (if s[i] {
            1int
        } else {
            0int
        }) == count_true_to(s, n) + (if b {
            1int
        } else {
            0int
        }),
    decreases n,
{
    if n > 0 {
        lemma_count_true_to_update(s, n - 1, i, b);
        assert(s.update(i, b)[n - 1] == (if i == n - 1 {
            b
        } else {
            s[n - 1]
        }));
    }
}

pub proof fn lemma_count_true_to_two(s: Seq<bool>, n: int, i: int, j: int)
    requires
        0 <= i < j < n,
        s[i],
        s[j],
    ensures
        count_true_to(s, n) >= 2,
    decreases n,
{
    if j < n - 1 {
        lemma_count_true_to_two(s, n - 1, i, j);
    } else {
        // j == n - 1, so the last flag is set and at least one earlier one is.
        lemma_count_true_to_zero(s, n - 1);
        assert(count_true_to(s, n - 1) > 0);
    }
}

pub proof fn lemma_lowest_true_from(s: Seq<bool>, i: int)
    requires
        0 <= i <= s.len(),
    ensures
        i <= lowest_true_from(s, i) <= s.len(),
        lowest_true_from(s, i) < s.len() ==> s[lowest_true_from(s, i)],
        forall|t: int| i <= t < lowest_true_from(s, i) ==> !s[t],
    decreases s.len() - i,
{
    if i < s.len() && !s[i] {
        lemma_lowest_true_from(s, i + 1);
    }
}

impl Guess {
    /// Whether this state still allows the cell to hold `number`.
    pub fn check(&self, number: &u8) -> (r: bool)
        requires
            1 <= *number <= 9,
        ensures
            r == guess_allows(*self, *number),
    {
        match self {
            Guess::Hit(n) | Guess::Prior(n) => n == number,
            Guess::Match(arr) => arr[(*number - 1) as usize],
        }
    }

    /// The number of candidates still open.
    pub fn count_matches(&self) -> (n: usize)
        requires
            self matches Guess::Match(_),
        ensures
            n == match_count(*self),
            n <= 9,
    {
        match self {
            Guess::Match(arr) => {
                let mut n: usize = 0;
                let mut k: usize = 0;
                while k < 9
                    invariant
                        k <= 9,
                        n <= k,
                        n == count_true_to(arr@, k as int),
                    decreases 9 - k,
                {
                    if arr[k] {
                        n = n + 1;
                    }
                    k = k + 1;
                }
                n
            },
            _ => {
                proof {
                    assert(false);
                }
                0
            },
        }
    }

    /// Whether exactly one candidate remains, so the cell can be settled.
    pub fn can_be_resolved(&self) -> (r: bool)
        ensures
            r == (self matches Guess::Match(_) && match_count(*self) == 1),
    {
        match self {
            Guess::Hit(_) | Guess::Prior(_) => false,
            Guess::Match(_) => self.count_matches() == 1,
        }
    }

    /// The position of the lowest remaining candidate flag.
    pub fn first_match_ix(&self) -> (r: usize)
        requires
            self matches Guess::Match(_),
            match_count(*self) > 0,
        ensures
            r == lowest_true(match_flags(*self)),
            r < 9,
            match_flags(*self)[r as int],
    {
        proof {
            lemma_count_true_to_zero(match_flags(*self), 9);
            lemma_lowest_true_from(match_flags(*self), 0);
        }
        match self {
            Guess::Match(arr) => {
                let mut k: usize = 0;
                while k < 9
                    invariant
                        k <= 9,
                        forall|t: int| 0 <= t < k ==> !arr@[t],
                        self matches Guess::Match(a) && a@ == arr@,
                        match_count(*self) > 0,
                    decreases 9 - k,
                {
                    if arr[k] {
                        proof {
                            assert(lowest_true_from(arr@, 0) == k) by {
                                lemma_lowest_true_from(arr@, 0);
                            }
                        }
                        return k;
                    }
                    k = k + 1;
                }
                proof {
                    lemma_count_true_to_zero(arr@, 9);
                    assert(false);
                }
                0
            },
            _ => {
                proof {
                    assert(false);
                }
                0
            },
        }
    }

    /// Settles a `Match` with a sole survivor into a `Hit` on the lowest
    /// (here: only) remaining candidate value.
    pub fn resolve(self) -> (r: Self)
        requires
            self matches Guess::Match(_),
            match_count(self) > 0,
        ensures
            r == Guess::Hit((lowest_true(match_flags(self)) + 1) as u8),
    {
        let ix = self.first_match_ix();
        Guess::Hit((ix + 1) as u8)
    }

    /// Withdraws the candidate at flag position `ix`.
    pub fn exclude(&mut self, ix: usize)
        requires
            old(self) matches Guess::Match(_),
            ix < 9,
        ensures
            *final(self) matches Guess::Match(_),
            match_flags(*final(self)) == match_flags(*old(self)).update(ix as int, false),
    {
        match self {
            Guess::Match(arr) => {
                arr[ix] = false;
            },
            _ => {
                proof {
                    assert(false);
                }
            },
        }
    }

    /// Whether this cell has run out of candidates.
    pub fn is_unsolvable(&self) -> (r: bool)
        ensures
            r == (self matches Guess::Match(_) && match_count(*self) == 0),
    {
        match self {
            Guess::Hit(_) | Guess::Prior(_) => false,
            Guess::Match(_) => self.count_matches() == 0,
        }
    }
}

} // verus!
