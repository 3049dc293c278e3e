//! The pairwise head-to-head matrix and the Condorcet resolution procedure.

use vstd::prelude::*;

use crate::IrvError;
use crate::ballot::{Ballot, lemma_spec_pos, spec_pos};
use rayon::iter::{IntoParallelRefIterator, ParallelIterator};

verus! {

/// Whether a ballot prefers candidate `a` over candidate `b`: `a` is ranked
/// and `b` is not, or `a` is ranked strictly ahead of `b`.  A ballot ranking
/// neither prefers neither.
pub open spec fn spec_prefers(s: Seq<usize>, a: usize, b: usize) -> bool {
    spec_pos(s, a) < spec_pos(s, b)
}

/// The 0/1 contribution of one ballot to the pairwise cell `(a, b)`.
pub open spec fn spec_pref01(s: Seq<usize>, a: usize, b: usize) -> int {
    if spec_prefers(s, a, b) {
        1
    } else {
        0
    }
}

/// How many of `ballots` prefer candidate `a` over candidate `b`.
pub open spec fn spec_count_prefers(ballots: Seq<Ballot>, a: usize, b: usize) -> int
    decreases ballots.len(),
{
    if ballots.len() == 0 {
        0
    } else {
        spec_count_prefers(ballots.drop_last(), a, b) + spec_pref01(ballots.last()@, a, b)
    }
}

/// One ballot contributes to exactly one of the two cells of a candidate
/// pair when it ranks at least one of the two, and to neither otherwise.
pub proof fn lemma_pref01_pair(s: Seq<usize>, a: usize, b: usize)
    requires
        a != b,
    ensures
        spec_pref01(s, a, b) + spec_pref01(s, b, a) == if s.contains(a) || s.contains(b) {
            1int
        } else {
            0int
        },
{
    lemma_spec_pos(s, a);
    lemma_spec_pos(s, b);
    if s.contains(a) && s.contains(b) {
        assert(s[spec_pos(s, a)] == a);
        assert(s[spec_pos(s, b)] == b);
        assert(spec_pos(s, a) != spec_pos(s, b));
    }
}

/// Law: for a candidate pair the two pairwise cells together never exceed
/// the number of ballots, with equality exactly when every ballot ranks at
/// least one of the two candidates.
pub proof fn lemma_pairwise_counts_bound(ballots: Seq<Ballot>, a: usize, b: usize)
    requires
        a != b,
    ensures
        0 <= spec_count_prefers(ballots, a, b) + spec_count_prefers(ballots, b, a)
            <= ballots.len(),
        (spec_count_prefers(ballots, a, b) + spec_count_prefers(ballots, b, a)
            == ballots.len()) <==> (forall|i: int|
            0 <= i < ballots.len() ==> ballots[i]@.contains(a) || ballots[i]@.contains(b)),
    decreases ballots.len(),
{
    if ballots.len() > 0 {
        let pre = ballots.drop_last();
        lemma_pairwise_counts_bound(pre, a, b);
        lemma_pref01_pair(ballots.last()@, a, b);
        assert forall|i: int| 0 <= i < pre.len() implies pre[i] == ballots[i] by {}
        let sum_pre = spec_count_prefers(pre, a, b) + spec_count_prefers(pre, b, a);
        let sum_all = spec_count_prefers(ballots, a, b) + spec_count_prefers(ballots, b, a);
        if sum_all == ballots.len() {
            assert(sum_pre == pre.len());
            assert(ballots.last()@.contains(a) || ballots.last()@.contains(b));
            assert forall|i: int|
                0 <= i < ballots.len() implies ballots[i]@.contains(a)
                || ballots[i]@.contains(b) by {
                if i < pre.len() {
                    assert(pre[i] == ballots[i]);
                } else {
                    assert(ballots[i] == ballots.last());
                }
            }
        }
        if forall|i: int|
            0 <= i < ballots.len() ==> ballots[i]@.contains(a) || ballots[i]@.contains(b) {
            assert forall|i: int|
                0 <= i < pre.len() implies pre[i]@.contains(a) || pre[i]@.contains(b) by {
                assert(ballots[i]@.contains(a) || ballots[i]@.contains(b));
            }
            assert(ballots[ballots.len() - 1]@.contains(a) || ballots[ballots.len()
                - 1]@.contains(b));
        }
    }
}

/// The 0/1 contribution of one ballot to the pairwise cell `(a, b)`,
/// computed from the ballot's ranking positions.
fn pref_indicator(ballot: &Ballot, a: usize, b: usize) -> (r: u32)
    ensures
        r as int == spec_pref01(ballot@, a, b),
{
    let pos_a = ballot.position_of(a);
    let pos_b = ballot.position_of(b);
    if pos_a < pos_b {
        1
    } else {
        0
    }
}

/// Relies on rayon's `par_iter`, `map` and `sum`: summing the mapped items
/// of a parallel iterator over a slice yields the sum, over all elements,
/// of the mapped values (integer addition is associative and commutative,
/// so the unspecified reduction order does not matter).
#[verifier::external_body]
fn par_count_prefers(ballots: &Vec<Ballot>, a: usize, b: usize) -> (r: u32)
    requires
        ballots@.len() <= u32::MAX,
    ensures
        r as int == spec_count_prefers(ballots@, a, b),
{
    ballots.par_iter().map(|ballot| pref_indicator(ballot, a, b)).sum()
}

/// The complete pairwise preference matrix: for every ordered candidate
/// pair `(a, b)`, how many ballots prefer `a` over `b`.  Built once from
/// the full ballot set, then read-only.
pub struct Matrix {
    n: usize,
    cells: Vec<u32>,
}

impl Matrix {
    /// The number of candidates the matrix was built over.
    pub closed spec fn spec_n(&self) -> usize {
        self.n
    }

    /// The matrix invariant: one cell for every ordered candidate pair.
    pub closed spec fn wf(&self) -> bool {
        &&& self.cells@.len() == self.n * self.n
        &&& self.n * self.n <= usize::MAX
    }

    /// The count stored for the ordered pair `(a, b)`.
    pub closed spec fn spec_cell(&self, a: int, b: int) -> u32 {
        self.cells@[a * self.n + b]
    }

    /// The number of candidates the matrix was built over.
    pub fn n_cands(&self) -> (r: usize)
        ensures
            r == self.spec_n(),
    {
        self.n
    }

    /// The count of ballots preferring `a` over `b`, for a pair the matrix
    /// is known to cover.
    pub fn cell(&self, a: usize, b: usize) -> (r: u32)
        requires
            self.wf(),
            a < self.spec_n(),
            b < self.spec_n(),
        ensures
            r == self.spec_cell(a as int, b as int),
    {
        proof {
            lemma_pair_index(a as int, b as int, self.n as int);
        }
        self.cells[a * self.n + b]
    }

    /// Looks a pair up, failing on a pair the matrix has no entry for:
    /// such a lookup means the candidate list and the matrix disagree, a
    /// fatal data-integrity error.
    pub fn get(&self, a: usize, b: usize) -> (r: Result<u32, IrvError>)
        requires
            self.wf(),
        ensures
            match r {
                Ok(v) => a < self.spec_n() && b < self.spec_n() && v == self.spec_cell(
                    a as int,
                    b as int,
                ),
                Err(e) => (a >= self.spec_n() || b >= self.spec_n())
                    && e == IrvError::MissingMatrixEntry,
            },
    {
        if a < self.n && b < self.n {
            Ok(self.cell(a, b))
        } else {
            Err(IrvError::MissingMatrixEntry)
        }
    }
}

/// Row-major pair indexing stays in bounds.
proof fn lemma_pair_index(a: int, b: int, n: int)
    by (nonlinear_arith)
    requires
        0 <= a < n,
        0 <= b < n,
    ensures
        0 <= a * n + b < n * n,
        a * n + b < a * n + n <= n * n,
{
}

/// Builds the complete pairwise matrix over candidates `0..n_cands` from
/// the full ballot set.  Each cell `(a, b)` counts the ballots that rank
/// `a` ahead of `b` or rank `a` while leaving `b` unranked; ballots ranking
/// neither candidate count for neither cell.  The per-pair scan over
/// ballots runs on a parallel worker pool.
pub fn compute_pairwise_matrix(n_cands: usize, ballots: &Vec<Ballot>) -> (m: Matrix)
    requires
        n_cands * n_cands <= usize::MAX,
        ballots@.len() <= u32::MAX,
    ensures
        m.wf(),
        m.spec_n() == n_cands,
        forall|a: usize, b: usize|
            a < n_cands && b < n_cands ==> m.spec_cell(a as int, b as int) as int
                == #[trigger] spec_count_prefers(ballots@, a, b),
{
    let mut cells: Vec<u32> = Vec::new();
    let mut a: usize = 0;
    while a < n_cands
        invariant
            a <= n_cands,
            n_cands * n_cands <= usize::MAX,
            ballots@.len() <= u32::MAX,
            cells@.len() == a * n_cands,
            forall|x: usize, y: usize|
                x < a && y < n_cands ==> cells@[x as int * n_cands + y] as int
                    == #[trigger] spec_count_prefers(ballots@, x, y),
        decreases n_cands - a,
    {
        let mut b: usize = 0;
        while b < n_cands
            invariant
                a < n_cands,
                b <= n_cands,
                n_cands * n_cands <= usize::MAX,
                ballots@.len() <= u32::MAX,
                cells@.len() == a * n_cands + b,
                forall|x: usize, y: usize|
                    x < a && y < n_cands ==> cells@[x as int * n_cands + y] as int
                        == #[trigger] spec_count_prefers(ballots@, x, y),
                forall|y: usize|
                    y < b ==> cells@[a as int * n_cands + y] as int
                        == #[trigger] spec_count_prefers(ballots@, a, y),
        decreases n_cands - b,
        {
            let v = par_count_prefers(ballots, a, b);
            proof {
                lemma_pair_index(a as int, b as int, n_cands as int);
            }
            cells.push(v);
            proof {
                assert forall|x: usize, y: usize|
                    x < a && y < n_cands implies cells@[x as int * n_cands + y] as int
                    == spec_count_prefers(ballots@, x, y) by {
                    lemma_pair_index(x as int, y as int, n_cands as int);
                    assert(x as int * n_cands + y < a as int * n_cands + b) by (nonlinear_arith)
                        requires
                            0 <= x < a,
                            0 <= y < n_cands,
                            0 <= b,
                    ;
                }
            }
            b = b + 1;
        }
        proof {
            assert((a + 1) * n_cands == a * n_cands + n_cands) by (nonlinear_arith);
        }
        a = a + 1;
    }
    proof {
        assert forall|x: usize, y: usize|
            x < n_cands && y < n_cands implies (Matrix { n: n_cands, cells }).spec_cell(
            x as int,
            y as int,
        ) as int == spec_count_prefers(ballots@, x, y) by {}
    }
    Matrix { n: n_cands, cells }
}

/// Whether candidate `x` is a Condorcet winner: never strictly beaten
/// head-to-head by any other candidate (ties are acceptable).
pub open spec fn spec_is_cw(m: Matrix, x: usize, n_cands: usize) -> bool {
    forall|y: usize|
        y < n_cands && y != x ==> #[trigger] m.spec_cell(x as int, y as int) >= m.spec_cell(
            y as int,
            x as int,
        )
}

/// The number of candidates among `0..k` that candidate `x` pairwise
/// beats-or-ties (a tie counts as a win).
pub open spec fn spec_wins_upto(m: Matrix, x: usize, k: int) -> int
    decreases k,
{
    if k <= 0 {
        0
    } else {
        spec_wins_upto(m, x, k - 1) + if x != k - 1 && m.spec_cell(x as int, k - 1)
            >= m.spec_cell(k - 1, x as int) {
            1int
        } else {
            0int
        }
    }
}

/// The Condorcet resolution: the winner, if one exists, and every
/// candidate's pairwise win count.
pub struct CondorcetResult {
    /// The first candidate, in candidate order, that no other candidate
    /// strictly beats head-to-head; `None` when the matrix holds a cycle.
    pub winner: Option<usize>,
    /// For each candidate, how many other candidates it beats-or-ties.
    pub win_counts: Vec<usize>,
}

/// Resolves the matrix over candidates `0..n_cands`: credits each candidate
/// one win per other candidate it beats-or-ties head-to-head, and reports a
/// Condorcet winner if some candidate is never strictly beaten, or a cycle
/// otherwise.  Fails when the matrix lacks an entry for a required pair,
/// which means the candidate list and the matrix are inconsistent.
pub fn look_for_condorcet_winner(n_cands: usize, matrix: &Matrix) -> (r: Result<
    CondorcetResult,
    IrvError,
>)
    requires
        matrix.wf(),
    ensures
        match r {
            Ok(res) => {
                &&& n_cands <= matrix.spec_n()
                &&& res.win_counts@.len() == n_cands
                &&& forall|x: usize|
                    x < n_cands ==> res.win_counts@[x as int] == spec_wins_upto(
                        *matrix,
                        x,
                        n_cands as int,
                    )
                &&& match res.winner {
                    Some(w) => w < n_cands && spec_is_cw(*matrix, w, n_cands) && forall|v: usize|
                        v < w ==> !spec_is_cw(*matrix, v, n_cands),
                    None => forall|v: usize| v < n_cands ==> !spec_is_cw(*matrix, v, n_cands),
                }
            },
            Err(e) => n_cands > matrix.spec_n() && e == IrvError::MissingMatrixEntry,
        },
{
    if n_cands > matrix.n_cands() {
        return Err(IrvError::MissingMatrixEntry);
    }
    let mut win_counts: Vec<usize> = Vec::new();
    let mut winner: Option<usize> = None;
    let mut x: usize = 0;
    while x < n_cands
        invariant
            x <= n_cands,
            n_cands <= matrix.spec_n(),
            matrix.wf(),
            win_counts@.len() == x,
            forall|v: usize|
                v < x ==> win_counts@[v as int] == spec_wins_upto(*matrix, v, n_cands as int),
            match winner {
                Some(w) => w < x && spec_is_cw(*matrix, w, n_cands) && forall|v: usize|
                    v < w ==> !spec_is_cw(*matrix, v, n_cands),
                None => forall|v: usize| v < x ==> !spec_is_cw(*matrix, v, n_cands),
            },
        decreases n_cands - x,
    {
        let mut wins: usize = 0;
        let mut possible = true;
        let mut y: usize = 0;
        while y < n_cands
            invariant
                x < n_cands,
                y <= n_cands,
                n_cands <= matrix.spec_n(),
                matrix.wf(),
                wins <= y,
                wins == spec_wins_upto(*matrix, x, y as int),
                possible <==> (forall|v: usize|
                    v < y && v != x ==> #[trigger] matrix.spec_cell(x as int, v as int)
                        >= matrix.spec_cell(v as int, x as int)),
            decreases n_cands - y,
        {
            if y != x {
                let n_prefer_this = matrix.cell(x, y);
                let n_prefer_other = matrix.cell(y, x);
                if n_prefer_other > n_prefer_this {
                    possible = false;
                } else {
                    wins = wins + 1;
                }
            }
            y = y + 1;
        }
        win_counts.push(wins);
        if possible && winner.is_none() {
            winner = Some(x);
        }
        x = x + 1;
    }
    Ok(CondorcetResult { winner, win_counts })
}

/// One head-to-head matchup row: the two candidates and the ballots
/// preferring each.
#[derive(Clone, Copy, Debug, PartialEq, Eq, Structural)]
pub struct Matchup {
    pub cand_a: usize,
    pub cand_b: usize,
    pub votes_a: u32,
    pub votes_b: u32,
}

/// The matchup row for the ordered pair `(a, y)`.
pub open spec fn spec_matchup_row(m: Matrix, a: usize, y: usize) -> Matchup {
    Matchup {
        cand_a: a,
        cand_b: y,
        votes_a: m.spec_cell(a as int, y as int),
        votes_b: m.spec_cell(y as int, a as int),
    }
}

/// The matchup rows of candidate `a` against every candidate below `k`,
/// skipping `a` itself.
pub open spec fn spec_matchups_row(m: Matrix, a: usize, k: int) -> Seq<Matchup>
    decreases k,
{
    if k <= 0 {
        Seq::empty()
    } else if a == k - 1 {
        spec_matchups_row(m, a, k - 1)
    } else {
        spec_matchups_row(m, a, k - 1).push(spec_matchup_row(m, a, ((k - 1) as usize)))
    }
}

/// The matchup rows for the first `k` candidates of `order`, concatenated.
pub open spec fn spec_matchups(m: Matrix, order: Seq<usize>, k: int) -> Seq<Matchup>
    decreases k,
{
    if k <= 0 {
        Seq::empty()
    } else {
        spec_matchups(m, order, k - 1) + spec_matchups_row(m, order[k - 1], m.spec_n() as int)
    }
}

/// Builds the full list of head-to-head matchup rows: for each candidate in
/// `order` (the win-count ranking), one row against every other candidate in
/// candidate order.  Fails when `order` names a candidate the matrix has no
/// entries for.
pub fn compute_pairwise_matchups(order: &Vec<usize>, matrix: &Matrix) -> (r: Result<
    Vec<Matchup>,
    IrvError,
>)
    requires
        matrix.wf(),
    ensures
        match r {
            Ok(rows) => (forall|k: int| 0 <= k < order@.len() ==> order@[k] < matrix.spec_n())
                && rows@ == spec_matchups(*matrix, order@, order@.len() as int),
            Err(e) => (exists|k: int|
                0 <= k < order@.len() && order@[k] >= matrix.spec_n()) && e
                == IrvError::MissingMatrixEntry,
        },
{
    let n = matrix.n_cands();
    let mut k: usize = 0;
    while k < order.len()
        invariant
            k <= order@.len(),
            n == matrix.spec_n(),
            forall|j: int| 0 <= j < k ==> order@[j] < n,
        decreases order@.len() - k,
    {
        if order[k] >= n {
            return Err(IrvError::MissingMatrixEntry);
        }
        k = k + 1;
    }
    let mut rows: Vec<Matchup> = Vec::new();
    let mut k: usize = 0;
    while k < order.len()
        invariant
            k <= order@.len(),
            n == matrix.spec_n(),
            matrix.wf(),
            forall|j: int| 0 <= j < order@.len() ==> order@[j] < n,
            rows@ == spec_matchups(*matrix, order@, k as int),
        decreases order@.len() - k,
    {
        let a = order[k];
        let mut y: usize = 0;
        while y < n
            invariant
                k < order@.len(),
                a == order@[k as int],
                a < n,
                y <= n,
                n == matrix.spec_n(),
                matrix.wf(),
                rows@ == spec_matchups(*matrix, order@, k as int) + spec_matchups_row(
                    *matrix,
                    a,
                    y as int,
                ),
            decreases n - y,
        {
            if y != a {
                let votes_a = matrix.cell(a, y);
                let votes_b = matrix.cell(y, a);
                rows.push(Matchup { cand_a: a, cand_b: y, votes_a, votes_b });
            }
            y = y + 1;
        }
        k = k + 1;
    }
    proof {
        assert(rows@ =~= spec_matchups(*matrix, order@, order@.len() as int));
    }
    Ok(rows)
}

} // verus!
