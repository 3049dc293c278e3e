//! The later-choices analysis: for each candidate taken as first choice,
//! how the remaining preferences of that candidate's voters distribute over
//! the other candidates and over ballot exhaustion, the transfer-flow graph
//! between consecutive preference depths, and the scalar transfer scores.

use vstd::prelude::*;

use crate::ballot::{Ballot, lemma_spec_pos, spec_first, spec_later, spec_pos, vec_position_of};

verus! {

/// The later-choice positions run 0..=3: a ballot has at most five slots,
/// and the first is the first choice itself.
pub const LATER_POSITIONS: usize = 4;

/// The element-wise views of a list of later-choice vectors.
pub open spec fn views_of(vs: Seq<Vec<usize>>) -> Seq<Seq<usize>> {
    Seq::new(vs.len(), |i: int| vs[i]@)
}

/// The later-choice sequences of the ballots whose first expressed
/// preference is `x`, in ballot order.
pub open spec fn spec_laters(ballots: Seq<Ballot>, x: usize) -> Seq<Seq<usize>>
    decreases ballots.len(),
{
    if ballots.len() == 0 {
        Seq::empty()
    } else {
        let pre = spec_laters(ballots.drop_last(), x);
        if spec_first(ballots.last()@) == Some(x) {
            pre.push(spec_later(ballots.last()@))
        } else {
            pre
        }
    }
}

/// There are no more later-choice sequences than ballots.
pub proof fn lemma_laters_len(ballots: Seq<Ballot>, x: usize)
    ensures
        0 <= spec_laters(ballots, x).len() <= ballots.len(),
    decreases ballots.len(),
{
    if ballots.len() > 0 {
        lemma_laters_len(ballots.drop_last(), x);
    }
}

/// There is one later-choice sequence per ballot whose first preference is
/// `x`, so the analyzer's voter count for `x` is exactly `x`'s
/// first-preference tally.
pub proof fn lemma_n_voters_matches_first_prefs(ballots: Seq<Ballot>, x: usize)
    ensures
        spec_laters(ballots, x).len() == crate::ranking::spec_first_pref_count(ballots, x),
    decreases ballots.len(),
{
    if ballots.len() > 0 {
        lemma_n_voters_matches_first_prefs(ballots.drop_last(), x);
    }
}

/// What each later-choice sequence inherits from a well-formed ballot set:
/// at most four entries, no duplicates, no occurrence of the first choice
/// itself, and every entry a valid candidate.
pub open spec fn spec_laters_wf(laters: Seq<Seq<usize>>, x: usize, n_cands: usize) -> bool {
    forall|i: int|
        0 <= i < laters.len() ==> {
            let lt = #[trigger] laters[i];
            &&& lt.len() <= LATER_POSITIONS
            &&& (forall|p: int, q: int| 0 <= p < q < lt.len() ==> lt[p] != lt[q])
            &&& (forall|p: int| 0 <= p < lt.len() ==> lt[p] < n_cands && lt[p] != x)
        }
}

/// The later-choice sequences of well-formed, valid ballots are themselves
/// well formed.
pub proof fn lemma_laters_wf(ballots: Seq<Ballot>, x: usize, n_cands: usize)
    requires
        forall|i: int|
            0 <= i < ballots.len() ==> (#[trigger] ballots[i]).wf() && ballots[i].valid_for(
                n_cands,
            ),
    ensures
        spec_laters_wf(spec_laters(ballots, x), x, n_cands),
    decreases ballots.len(),
{
    if ballots.len() > 0 {
        let pre = ballots.drop_last();
        assert forall|i: int|
            0 <= i < pre.len() implies (#[trigger] pre[i]).wf() && pre[i].valid_for(
            n_cands,
        ) by {
            assert(pre[i] == ballots[i]);
        }
        lemma_laters_wf(pre, x, n_cands);
        let last = ballots[ballots.len() - 1];
        assert(last.wf() && last.valid_for(n_cands));
        if spec_first(last@) == Some(x) {
            let lt = spec_later(last@);
            assert forall|p: int| 0 <= p < lt.len() implies lt[p] < n_cands && lt[p] != x by {
                assert(lt[p] == last@[p + 1]);
                assert(last@[0] == x);
            }
            assert forall|p: int, q: int| 0 <= p < q < lt.len() implies lt[p] != lt[q] by {
                assert(lt[p] == last@[p + 1] && lt[q] == last@[q + 1]);
            }
            let lts = spec_laters(ballots, x);
            assert forall|i: int| 0 <= i < lts.len() implies {
                let l2 = #[trigger] lts[i];
                &&& l2.len() <= LATER_POSITIONS
                &&& (forall|p: int, q: int| 0 <= p < q < l2.len() ==> l2[p] != l2[q])
                &&& (forall|p: int| 0 <= p < l2.len() ==> l2[p] < n_cands && l2[p] != x)
            } by {
                if i < lts.len() - 1 {
                    assert(lts[i] == spec_laters(pre, x)[i]);
                } else {
                    assert(lts[i] == lt);
                }
            }
        }
    }
}

/// How often candidate `y` stands at later-choice position `pos` among the
/// given later-choice sequences.
pub open spec fn spec_rank_freq(laters: Seq<Seq<usize>>, y: usize, pos: int) -> int
    decreases laters.len(),
{
    if laters.len() == 0 {
        0
    } else {
        spec_rank_freq(laters.drop_last(), y, pos) + if spec_pos(laters.last(), y) == pos && pos
            < laters.last().len() {
            1int
        } else {
            0int
        }
    }
}

/// A rank frequency never exceeds the number of later-choice sequences.
pub proof fn lemma_rank_freq_bounds(laters: Seq<Seq<usize>>, y: usize, pos: int)
    ensures
        0 <= spec_rank_freq(laters, y, pos) <= laters.len(),
    decreases laters.len(),
{
    if laters.len() > 0 {
        lemma_rank_freq_bounds(laters.drop_last(), y, pos);
    }
}

/// How many of the later-choice sequences are exhausted at position `pos`:
/// they hold `pos` or fewer further preferences.
pub open spec fn spec_exhausted_freq(laters: Seq<Seq<usize>>, pos: int) -> int
    decreases laters.len(),
{
    if laters.len() == 0 {
        0
    } else {
        spec_exhausted_freq(laters.drop_last(), pos) + if laters.last().len() <= pos {
            1int
        } else {
            0int
        }
    }
}

/// An exhaustion frequency never exceeds the number of sequences.
pub proof fn lemma_exhausted_freq_bounds(laters: Seq<Seq<usize>>, pos: int)
    ensures
        0 <= spec_exhausted_freq(laters, pos) <= laters.len(),
    decreases laters.len(),
{
    if laters.len() > 0 {
        lemma_exhausted_freq_bounds(laters.drop_last(), pos);
    }
}

/// The candidate at the "from" end of transfer step `d` of one voter's
/// later choices: the first choice itself at step 0, otherwise the later
/// choice just before the step.
pub open spec fn spec_flow_from(x: usize, lt: Seq<usize>, d: int) -> usize {
    if d == 0 {
        x
    } else {
        lt[d - 1]
    }
}

/// The "to" end of transfer step `d`: the later choice at the step, or the
/// exhaustion index `n_cands` when the choices have run out.
pub open spec fn spec_flow_to(lt: Seq<usize>, d: int, n_cands: usize) -> usize {
    if d == lt.len() {
        n_cands
    } else {
        lt[d]
    }
}

/// Whether one voter's later choices make the transfer step `d` from
/// `from` to `to`.  Steps stop at the last possible preference slot, so at
/// most four are made, and a step into exhaustion is made exactly once.
pub open spec fn spec_has_flow(
    x: usize,
    lt: Seq<usize>,
    n_cands: usize,
    d: int,
    from: usize,
    to: usize,
) -> bool {
    &&& 0 <= d < LATER_POSITIONS
    &&& d <= lt.len()
    &&& from == spec_flow_from(x, lt, d)
    &&& to == spec_flow_to(lt, d, n_cands)
}

/// How many of the later-choice sequences make the transfer step `d` from
/// `from` to `to`.
pub open spec fn spec_flow_count(
    x: usize,
    laters: Seq<Seq<usize>>,
    n_cands: usize,
    d: int,
    from: usize,
    to: usize,
) -> int
    decreases laters.len(),
{
    if laters.len() == 0 {
        0
    } else {
        spec_flow_count(x, laters.drop_last(), n_cands, d, from, to) + if spec_has_flow(
            x,
            laters.last(),
            n_cands,
            d,
            from,
            to,
        ) {
            1int
        } else {
            0int
        }
    }
}

/// The later-choice sequences of the ballots whose first preference is
/// `x`, as executable vectors.
pub fn later_choices_for(ballots: &Vec<Ballot>, x: usize) -> (r: Vec<Vec<usize>>)
    ensures
        views_of(r@) == spec_laters(ballots@, x),
{
    let mut r: Vec<Vec<usize>> = Vec::new();
    let mut i: usize = 0;
    while i < ballots.len()
        invariant
            i <= ballots@.len(),
            views_of(r@) == spec_laters(ballots@.subrange(0, i as int), x),
        decreases ballots@.len() - i,
    {
        proof {
            assert(ballots@.subrange(0, i + 1).drop_last() =~= ballots@.subrange(0, i as int));
            assert(ballots@.subrange(0, i + 1).last() == ballots@[i as int]);
        }
        let first = ballots[i].first_pref();
        match first {
            Some(c) => {
                if c == x {
                    let lt = ballots[i].later_choices();
                    r.push(lt);
                    proof {
                        assert(views_of(r@) =~= spec_laters(ballots@.subrange(0, i + 1), x));
                    }
                } else {
                    proof {
                        assert(views_of(r@) =~= spec_laters(ballots@.subrange(0, i + 1), x));
                    }
                }
            },
            None => {
                proof {
                    assert(views_of(r@) =~= spec_laters(ballots@.subrange(0, i + 1), x));
                }
            },
        }
        i = i + 1;
    }
    proof {
        assert(ballots@.subrange(0, ballots@.len() as int) =~= ballots@);
    }
    r
}

/// Counts the later-choice sequences that put candidate `y` at position
/// `pos`.
fn count_rank_matches(laters: &Vec<Vec<usize>>, y: usize, pos: usize) -> (r: usize)
    ensures
        r == spec_rank_freq(views_of(laters@), y, pos as int),
{
    let ghost all = views_of(laters@);
    let mut r: usize = 0;
    let mut i: usize = 0;
    while i < laters.len()
        invariant
            i <= laters@.len(),
            all == views_of(laters@),
            0 <= r <= i,
            r == spec_rank_freq(all.subrange(0, i as int), y, pos as int),
        decreases laters@.len() - i,
    {
        proof {
            assert(all.subrange(0, i + 1).drop_last() =~= all.subrange(0, i as int));
            assert(all.subrange(0, i + 1).last() == laters@[i as int]@);
        }
        let p = vec_position_of(&laters[i], y);
        if p == pos && pos < laters[i].len() {
            r = r + 1;
        }
        i = i + 1;
    }
    proof {
        assert(all.subrange(0, laters@.len() as int) =~= all);
    }
    r
}

/// Counts the later-choice sequences exhausted at position `pos`.
fn count_exhausted_matches(laters: &Vec<Vec<usize>>, pos: usize) -> (r: usize)
    ensures
        r == spec_exhausted_freq(views_of(laters@), pos as int),
{
    let ghost all = views_of(laters@);
    let mut r: usize = 0;
    let mut i: usize = 0;
    while i < laters.len()
        invariant
            i <= laters@.len(),
            all == views_of(laters@),
            0 <= r <= i,
            r == spec_exhausted_freq(all.subrange(0, i as int), pos as int),
        decreases laters@.len() - i,
    {
        proof {
            assert(all.subrange(0, i + 1).drop_last() =~= all.subrange(0, i as int));
            assert(all.subrange(0, i + 1).last() == laters@[i as int]@);
        }
        if laters[i].len() <= pos {
            r = r + 1;
        }
        i = i + 1;
    }
    proof {
        assert(all.subrange(0, laters@.len() as int) =~= all);
    }
    r
}

/// Counts the later-choice sequences that make the transfer step `d` from
/// `from` to `to`.
fn count_flow_matches(
    x: usize,
    laters: &Vec<Vec<usize>>,
    n_cands: usize,
    d: usize,
    from: usize,
    to: usize,
) -> (r: usize)
    requires
        d < LATER_POSITIONS,
    ensures
        r == spec_flow_count(x, views_of(laters@), n_cands, d as int, from, to),
{
    let ghost all = views_of(laters@);
    let mut r: usize = 0;
    let mut i: usize = 0;
    while i < laters.len()
        invariant
            i <= laters@.len(),
            d < LATER_POSITIONS,
            all == views_of(laters@),
            0 <= r <= i,
            r == spec_flow_count(x, all.subrange(0, i as int), n_cands, d as int, from, to),
        decreases laters@.len() - i,
    {
        proof {
            assert(all.subrange(0, i + 1).drop_last() =~= all.subrange(0, i as int));
            assert(all.subrange(0, i + 1).last() == laters@[i as int]@);
        }
        let lt = &laters[i];
        if d <= lt.len() {
            let from_here = if d == 0 {
                x
            } else {
                lt[d - 1]
            };
            let to_here = if d == lt.len() {
                n_cands
            } else {
                lt[d]
            };
            if from_here == from && to_here == to {
                r = r + 1;
            }
        }
        i = i + 1;
    }
    proof {
        assert(all.subrange(0, laters@.len() as int) =~= all);
    }
    r
}

/// The transfer-flow graph for one first-choice candidate: a count for
/// every transfer step `d` in `0..4` (from preference depth `d + 1` to
/// depth `d + 2`), "from" candidate, and "to" candidate, where the index
/// `n_cands` stands for exhaustion at the "to" end.
pub struct FlowTable {
    n_cands: usize,
    counts: Vec<usize>,
}

/// Flat row-major flow indexing stays in bounds.
proof fn lemma_flow_index(d: int, f: int, t: int, n: int)
    by (nonlinear_arith)
    requires
        0 <= d < 4,
        0 <= f < n,
        0 <= t <= n,
    ensures
        0 <= (d * n + f) * (n + 1) + t < 4 * n * (n + 1),
        (d * n + f) * (n + 1) + t < (d * n + f) * (n + 1) + (n + 1) <= 4 * n * (n + 1),
{
}

/// Every intermediate of the flat flow indexing stays below the bound that
/// the table's size implies.
proof fn lemma_flow_index_exec(d: int, f: int, t: int, n: int, m: int)
    by (nonlinear_arith)
    requires
        0 <= d < 4,
        0 <= f < n,
        0 <= t <= n,
        4 * n * (n + 1) <= m,
    ensures
        0 <= d * n <= m,
        0 <= d * n + f <= m,
        0 <= (d * n + f) * (n + 1) <= m,
        0 <= (d * n + f) * (n + 1) + t < 4 * n * (n + 1),
{
}

impl FlowTable {
    /// The number of candidates the table was built over.
    pub closed spec fn spec_n(&self) -> usize {
        self.n_cands
    }

    /// The table invariant: one cell per step, "from", and "to".
    pub closed spec fn wf(&self) -> bool {
        &&& self.counts@.len() == 4 * self.n_cands * (self.n_cands + 1)
        &&& 4 * self.n_cands * (self.n_cands + 1) <= usize::MAX
    }

    /// The count stored for step `d`, from `f`, to `t`.
    pub closed spec fn spec_count(&self, d: int, f: int, t: int) -> usize {
        self.counts@[(d * self.n_cands + f) * (self.n_cands + 1) + t]
    }

    /// The number of candidates the table was built over.
    pub fn n_cands(&self) -> (r: usize)
        ensures
            r == self.spec_n(),
    {
        self.n_cands
    }

    /// The count of voters making transfer step `d` from candidate `from`
    /// to candidate `to` (`to == n_cands` meaning exhaustion).
    pub fn count(&self, d: usize, from: usize, to: usize) -> (r: usize)
        requires
            self.wf(),
            d < LATER_POSITIONS,
            from < self.spec_n(),
            to <= self.spec_n(),
        ensures
            r == self.spec_count(d as int, from as int, to as int),
    {
        proof {
            lemma_flow_index(d as int, from as int, to as int, self.n_cands as int);
            lemma_flow_index_exec(
                d as int,
                from as int,
                to as int,
                self.n_cands as int,
                usize::MAX as int,
            );
        }
        self.counts[(d * self.n_cands + from) * (self.n_cands + 1) + to]
    }

    /// Builds the flow table for first-choice candidate `x` from that
    /// candidate's later-choice sequences.
    pub fn build(x: usize, laters: &Vec<Vec<usize>>, n_cands: usize) -> (ft: FlowTable)
        requires
            4 * n_cands * (n_cands + 1) <= usize::MAX,
        ensures
            ft.wf(),
            ft.spec_n() == n_cands,
            forall|d: usize, f: usize, t: usize|
                d < LATER_POSITIONS && f < n_cands && t <= n_cands ==> ft.spec_count(
                    d as int,
                    f as int,
                    t as int,
                ) == spec_flow_count(x, views_of(laters@), n_cands, d as int, f, t),
    {
        let mut counts: Vec<usize> = Vec::new();
        let mut d: usize = 0;
        while d < LATER_POSITIONS
            invariant
                d <= LATER_POSITIONS,
                4 * n_cands * (n_cands + 1) <= usize::MAX,
                counts@.len() == d * n_cands * (n_cands + 1),
                forall|d2: usize, f2: usize, t2: usize|
                    d2 < d && f2 < n_cands && t2 <= n_cands ==> counts@[(d2 as int * n_cands
                        + f2) * (n_cands + 1) + t2] == #[trigger] spec_flow_count(
                        x,
                        views_of(laters@),
                        n_cands,
                        d2 as int,
                        f2,
                        t2,
                    ),
            decreases LATER_POSITIONS - d,
        {
            let mut f: usize = 0;
            while f < n_cands
                invariant
                    d < LATER_POSITIONS,
                    f <= n_cands,
                    4 * n_cands * (n_cands + 1) <= usize::MAX,
                    counts@.len() == (d * n_cands + f) * (n_cands + 1),
                    forall|d2: usize, f2: usize, t2: usize|
                        d2 < d && f2 < n_cands && t2 <= n_cands ==> counts@[(d2 as int * n_cands
                            + f2) * (n_cands + 1) + t2] == #[trigger] spec_flow_count(
                            x,
                            views_of(laters@),
                            n_cands,
                            d2 as int,
                            f2,
                            t2,
                        ),
                    forall|f2: usize, t2: usize|
                        f2 < f && t2 <= n_cands ==> counts@[(d as int * n_cands + f2) * (n_cands
                            + 1) + t2] == #[trigger] spec_flow_count(
                            x,
                            views_of(laters@),
                            n_cands,
                            d as int,
                            f2,
                            t2,
                        ),
                decreases n_cands - f,
            {
                let mut t: usize = 0;
                while t <= n_cands
                    invariant
                        d < LATER_POSITIONS,
                        f < n_cands,
                        t <= n_cands + 1,
                        4 * n_cands * (n_cands + 1) <= usize::MAX,
                        counts@.len() == (d * n_cands + f) * (n_cands + 1) + t,
                        forall|d2: usize, f2: usize, t2: usize|
                            d2 < d && f2 < n_cands && t2 <= n_cands ==> counts@[(d2 as int
                                * n_cands + f2) * (n_cands + 1) + t2]
                                == #[trigger] spec_flow_count(
                                x,
                                views_of(laters@),
                                n_cands,
                                d2 as int,
                                f2,
                                t2,
                            ),
                        forall|f2: usize, t2: usize|
                            f2 < f && t2 <= n_cands ==> counts@[(d as int * n_cands + f2) * (
                            n_cands + 1) + t2] == #[trigger] spec_flow_count(
                                x,
                                views_of(laters@),
                                n_cands,
                                d as int,
                                f2,
                                t2,
                            ),
                        forall|t2: usize|
                            t2 < t ==> counts@[(d as int * n_cands + f) * (n_cands + 1) + t2]
                                == #[trigger] spec_flow_count(
                                x,
                                views_of(laters@),
                                n_cands,
                                d as int,
                                f,
                                t2,
                            ),
                    decreases n_cands + 1 - t,
                {
                    proof {
                        lemma_flow_index(d as int, f as int, t as int, n_cands as int);
                    }
                    let v = count_flow_matches(x, laters, n_cands, d, f, t);
                    counts.push(v);
                    proof {
                        assert forall|d2: usize, f2: usize, t2: usize|
                            d2 < d && f2 < n_cands && t2 <= n_cands implies counts@[(d2 as int
                            * n_cands + f2) * (n_cands + 1) + t2] == spec_flow_count(
                            x,
                            views_of(laters@),
                            n_cands,
                            d2 as int,
                            f2,
                            t2,
                        ) by {
                            lemma_flow_index(d2 as int, f2 as int, t2 as int, n_cands as int);
                            assert((d2 as int * n_cands + f2) * (n_cands + 1) + t2 < (d as int
                                * n_cands + f) * (n_cands + 1) + t) by (nonlinear_arith)
                                requires
                                    0 <= d2 < d,
                                    0 <= f2 < n_cands,
                                    0 <= t2 <= n_cands,
                                    0 <= f,
                                    0 <= t,
                            ;
                        }
                        assert forall|f2: usize, t2: usize|
                            f2 < f && t2 <= n_cands implies counts@[(d as int * n_cands + f2) * (
                        n_cands + 1) + t2] == spec_flow_count(
                            x,
                            views_of(laters@),
                            n_cands,
                            d as int,
                            f2,
                            t2,
                        ) by {
                            lemma_flow_index(d as int, f2 as int, t2 as int, n_cands as int);
                            assert((d as int * n_cands + f2) * (n_cands + 1) + t2 < (d as int
                                * n_cands + f) * (n_cands + 1) + t) by (nonlinear_arith)
                                requires
                                    0 <= f2 < f,
                                    0 <= t2 <= n_cands,
                                    0 <= d,
                                    0 <= t,
                                    0 <= n_cands,
                            ;
                        }
                    }
                    t = t + 1;
                }
                proof {
                    assert((d as int * n_cands + f) * (n_cands + 1) + (n_cands + 1) == (d as int
                        * n_cands + f + 1) * (n_cands + 1)) by (nonlinear_arith);
                }
                f = f + 1;
            }
            proof {
                assert((d as int * n_cands + n_cands) * (n_cands + 1) == (d + 1) * n_cands * (
                n_cands + 1)) by (nonlinear_arith);
            }
            d = d + 1;
        }
        FlowTable { n_cands, counts }
    }
}

/// The five scalar transfer-desirability scores of one rank-frequency
/// histogram.  The fractional schemes are kept exact by a fixed scaling:
/// the harmonic weights 1, 1/2, 1/3, 1/4 are stored times 12, the
/// geometric weights 1, 1/2, 1/4, 1/8 times 8, and the inverse-square
/// weights 1, 1/4, 1/9, 1/16 times 144.
#[derive(Clone, Copy, Debug, PartialEq, Eq, Structural)]
pub struct Scores {
    /// Only the immediate next preference counts; deeper positions score 0.
    pub first_transfer: u64,
    /// Linearly decaying weights 4, 3, 2, 1.
    pub borda: u64,
    /// Harmonic weights 1, 1/2, 1/3, 1/4, scaled by 12.
    pub harmonic_x12: u64,
    /// Geometric weights 1, 1/2, 1/4, 1/8, scaled by 8.
    pub geometric_x8: u64,
    /// Inverse-square weights 1, 1/4, 1/9, 1/16, scaled by 144.
    pub inverse_square_x144: u64,
}

/// The denominator of the scaled harmonic score.
pub const HARMONIC_DENOMINATOR: u64 = 12;

/// The denominator of the scaled geometric score.
pub const GEOMETRIC_DENOMINATOR: u64 = 8;

/// The denominator of the scaled inverse-square score.
pub const INVERSE_SQUARE_DENOMINATOR: u64 = 144;

/// Whether `s` holds exactly the five weighted sums of the four-bucket
/// histogram `f`.
pub open spec fn spec_scores_match(f: Seq<usize>, s: Scores) -> bool {
    &&& f.len() == LATER_POSITIONS
    &&& s.first_transfer == f[0]
    &&& s.borda == 4 * f[0] + 3 * f[1] + 2 * f[2] + 1 * f[3]
    &&& s.harmonic_x12 == 12 * f[0] + 6 * f[1] + 4 * f[2] + 3 * f[3]
    &&& s.geometric_x8 == 8 * f[0] + 4 * f[1] + 2 * f[2] + 1 * f[3]
    &&& s.inverse_square_x144 == 144 * f[0] + 36 * f[1] + 16 * f[2] + 9 * f[3]
}

/// The score a scheme assigns, by scheme index: 0 first-transfer, 1 Borda,
/// 2 harmonic, 3 geometric, 4 inverse-square.
pub open spec fn spec_scheme(s: Scores, scheme: int) -> u64 {
    if scheme == 0 {
        s.first_transfer
    } else if scheme == 1 {
        s.borda
    } else if scheme == 2 {
        s.harmonic_x12
    } else if scheme == 3 {
        s.geometric_x8
    } else {
        s.inverse_square_x144
    }
}

impl Scores {
    /// The score of scheme `scheme` (0 first-transfer, 1 Borda, 2 harmonic,
    /// 3 geometric, 4 inverse-square).
    pub fn scheme(&self, scheme: usize) -> (r: u64)
        requires
            scheme < 5,
        ensures
            r == spec_scheme(*self, scheme as int),
    {
        if scheme == 0 {
            self.first_transfer
        } else if scheme == 1 {
            self.borda
        } else if scheme == 2 {
            self.harmonic_x12
        } else if scheme == 3 {
            self.geometric_x8
        } else {
            self.inverse_square_x144
        }
    }
}

/// Reduces a four-bucket rank-frequency histogram to the five scalar
/// transfer scores, each an exact weighted sum.
pub fn calc_scores(rank_freqs: &Vec<usize>) -> (s: Scores)
    requires
        rank_freqs@.len() == LATER_POSITIONS,
        forall|i: int| 0 <= i < rank_freqs@.len() ==> #[trigger] rank_freqs@[i] <= u32::MAX,
    ensures
        spec_scores_match(rank_freqs@, s),
{
    let f0 = rank_freqs[0] as u64;
    let f1 = rank_freqs[1] as u64;
    let f2 = rank_freqs[2] as u64;
    let f3 = rank_freqs[3] as u64;
    Scores {
        first_transfer: f0,
        borda: 4 * f0 + 3 * f1 + 2 * f2 + 1 * f3,
        harmonic_x12: 12 * f0 + 6 * f1 + 4 * f2 + 3 * f3,
        geometric_x8: 8 * f0 + 4 * f1 + 2 * f2 + 1 * f3,
        inverse_square_x144: 144 * f0 + 36 * f1 + 16 * f2 + 9 * f3,
    }
}

/// Law: scoring is a pure function of the histogram — any two score
/// records computed from the same frequency vector are identical.
pub proof fn lemma_scoring_idempotent(f: Seq<usize>, s1: Scores, s2: Scores)
    requires
        spec_scores_match(f, s1),
        spec_scores_match(f, s2),
    ensures
        s1 == s2,
{
}

/// The 0/1 contribution of one later-choice sequence to the rank
/// frequency of candidate `y` at position `pos`.
pub open spec fn spec_rank_ind(lt: Seq<usize>, y: usize, pos: int) -> int {
    if spec_pos(lt, y) == pos && pos < lt.len() {
        1
    } else {
        0
    }
}

/// The rank frequencies at position `pos` of every candidate below `k`
/// other than the first choice `x`, summed.
pub open spec fn spec_freq_sum_upto(
    laters: Seq<Seq<usize>>,
    x: usize,
    k: int,
    pos: int,
) -> int
    decreases k,
{
    if k <= 0 {
        0
    } else {
        spec_freq_sum_upto(laters, x, k - 1, pos) + if x == k - 1 {
            0int
        } else {
            spec_rank_freq(laters, (k - 1) as usize, pos)
        }
    }
}

/// The contributions of one later-choice sequence to the frequencies of
/// every candidate below `k` other than `x`, summed.
pub open spec fn spec_ind_sum_upto(lt: Seq<usize>, x: usize, k: int, pos: int) -> int
    decreases k,
{
    if k <= 0 {
        0
    } else {
        spec_ind_sum_upto(lt, x, k - 1, pos) + if x == k - 1 {
            0int
        } else {
            spec_rank_ind(lt, (k - 1) as usize, pos)
        }
    }
}

/// Over an empty set of sequences every frequency sum is zero.
proof fn lemma_freq_sum_empty(x: usize, k: int, pos: int)
    ensures
        spec_freq_sum_upto(Seq::empty(), x, k, pos) == 0,
    decreases k,
{
    if k > 0 {
        lemma_freq_sum_empty(x, k - 1, pos);
    }
}

/// Dropping the last sequence splits a frequency sum into the sum over the
/// rest and the last sequence's own contributions.
proof fn lemma_freq_sum_unfold(laters: Seq<Seq<usize>>, x: usize, k: int, pos: int)
    requires
        laters.len() > 0,
    ensures
        spec_freq_sum_upto(laters, x, k, pos) == spec_freq_sum_upto(
            laters.drop_last(),
            x,
            k,
            pos,
        ) + spec_ind_sum_upto(laters.last(), x, k, pos),
    decreases k,
{
    if k > 0 {
        lemma_freq_sum_unfold(laters, x, k - 1, pos);
    }
}

/// One duplicate-free sequence that avoids `x` contributes to exactly one
/// candidate frequency at position `pos` when it reaches that deep, and to
/// none when it does not.
proof fn lemma_ind_sum_single(lt: Seq<usize>, x: usize, k: int, pos: int)
    requires
        forall|p: int, q: int| 0 <= p < q < lt.len() ==> lt[p] != lt[q],
        forall|p: int| 0 <= p < lt.len() ==> lt[p] != x,
        0 <= pos,
        k <= usize::MAX,
    ensures
        spec_ind_sum_upto(lt, x, k, pos) == if pos < lt.len() && lt[pos] < k {
            1int
        } else {
            0int
        },
    decreases k,
{
    if k > 0 {
        lemma_ind_sum_single(lt, x, k - 1, pos);
        let y: usize = (k - 1) as usize;
        lemma_spec_pos(lt, y);
        if x != y {
            if pos < lt.len() && lt[pos] == y {
                assert(lt.contains(y)) by {
                    assert(lt[pos] == y);
                }
                assert(spec_pos(lt, y) == pos) by {
                    assert(lt[spec_pos(lt, y)] == y);
                    if spec_pos(lt, y) < pos {
                        assert(lt[spec_pos(lt, y)] != lt[pos]);
                    }
                }
                assert(spec_rank_ind(lt, y, pos) == 1);
            } else {
                assert(spec_rank_ind(lt, y, pos) == 0) by {
                    if spec_pos(lt, y) == pos && pos < lt.len() {
                        assert(lt[pos] == y);
                    }
                }
            }
        } else {
            assert(!(pos < lt.len() && lt[pos] == y)) by {
                if pos < lt.len() {
                    assert(lt[pos] != x);
                }
            }
        }
    }
}

/// Law: at every later-choice position, the rank frequencies across all
/// other candidates together with the exhaustion frequency account for
/// each voter exactly once — their sum is the number of voters.
pub proof fn lemma_rank_freq_partition(
    laters: Seq<Seq<usize>>,
    x: usize,
    n_cands: usize,
    pos: int,
)
    requires
        spec_laters_wf(laters, x, n_cands),
        0 <= pos < LATER_POSITIONS,
    ensures
        spec_freq_sum_upto(laters, x, n_cands as int, pos) + spec_exhausted_freq(laters, pos)
            == laters.len(),
    decreases laters.len(),
{
    if laters.len() == 0 {
        lemma_freq_sum_empty(x, n_cands as int, pos);
        assert(laters =~= Seq::<Seq<usize>>::empty());
    } else {
        let pre = laters.drop_last();
        let lt = laters.last();
        assert(laters[laters.len() - 1] == lt);
        assert forall|i: int| 0 <= i < pre.len() implies pre[i] == laters[i] by {}
        assert(spec_laters_wf(pre, x, n_cands));
        lemma_rank_freq_partition(pre, x, n_cands, pos);
        lemma_freq_sum_unfold(laters, x, n_cands as int, pos);
        lemma_ind_sum_single(lt, x, n_cands as int, pos);
        assert forall|k: int|
            0 <= k <= n_cands implies spec_freq_sum_upto(laters, x, k, pos)
            == spec_freq_sum_upto(pre, x, k, pos) + spec_ind_sum_upto(lt, x, k, pos) by {
            lemma_freq_sum_unfold(laters, x, k, pos);
        }
        if pos < lt.len() {
            assert(lt[pos] < n_cands);
        }
    }
}

/// Law, at the ballot level: for any first-choice candidate, the sum of
/// the rank frequencies of all other candidates and of exhaustion at one
/// later-choice position is the number of that candidate's voters.  The
/// five-slot ballot invariant rules out later-choice sequences longer than
/// four positions, so the four buckets cover every voter.
pub proof fn lemma_rank_freq_partition_of_ballots(
    ballots: Seq<Ballot>,
    x: usize,
    n_cands: usize,
    pos: int,
)
    requires
        forall|i: int|
            0 <= i < ballots.len() ==> (#[trigger] ballots[i]).wf() && ballots[i].valid_for(
                n_cands,
            ),
        0 <= pos < LATER_POSITIONS,
    ensures
        spec_freq_sum_upto(spec_laters(ballots, x), x, n_cands as int, pos)
            + spec_exhausted_freq(spec_laters(ballots, x), pos) == spec_laters(
            ballots,
            x,
        ).len(),
{
    lemma_laters_wf(ballots, x, n_cands);
    lemma_rank_freq_partition(spec_laters(ballots, x), x, n_cands, pos);
}

/// The later-choices analysis of one first-choice candidate.
pub struct CandLaterChoices {
    /// How many ballots express this candidate as their first preference.
    pub n_voters: usize,
    /// One four-bucket rank-frequency histogram per candidate in ranked
    /// order (the first-choice candidate's own row is all zero, as it never
    /// appears among its voters' later choices), with the exhaustion
    /// histogram as the final row.
    pub rank_freqs: Vec<Vec<usize>>,
    /// The five transfer scores of each of those histograms, row by row.
    pub scores_row: Vec<Scores>,
    /// The transfer-flow graph of this candidate's voters.
    pub flows: FlowTable,
}

/// What the analysis of first-choice candidate `x` must hold, given the
/// ballot set and the ranked candidate order.
pub open spec fn spec_analysis_ok(
    e: CandLaterChoices,
    ballots: Seq<Ballot>,
    order: Seq<usize>,
    n_cands: usize,
    x: usize,
) -> bool {
    let lts = spec_laters(ballots, x);
    &&& e.n_voters == lts.len()
    &&& e.rank_freqs@.len() == order.len() + 1
    &&& (forall|j: int|
        0 <= j <= order.len() ==> (#[trigger] e.rank_freqs@[j])@.len() == LATER_POSITIONS)
    &&& (forall|j: int, pos: int|
        0 <= j < order.len() && 0 <= pos < LATER_POSITIONS ==> #[trigger] e.rank_freqs@[j]@[pos]
            == spec_rank_freq(lts, order[j], pos))
    &&& (forall|pos: int|
        0 <= pos < LATER_POSITIONS ==> #[trigger] e.rank_freqs@[order.len() as int]@[pos]
            == spec_exhausted_freq(lts, pos))
    &&& e.scores_row@.len() == order.len() + 1
    &&& (forall|j: int|
        0 <= j <= order.len() ==> spec_scores_match(
            (#[trigger] e.rank_freqs@[j])@,
            e.scores_row@[j],
        ))
    &&& e.flows.wf()
    &&& e.flows.spec_n() == n_cands
    &&& (forall|d: usize, f: usize, t: usize|
        d < LATER_POSITIONS && f < n_cands && t <= n_cands ==> e.flows.spec_count(
            d as int,
            f as int,
            t as int,
        ) == spec_flow_count(x, lts, n_cands, d as int, f, t))
}

/// Runs the later-choices analysis for every candidate of the ranked
/// order: selects each candidate's voters, tabulates how their later
/// preferences distribute over the other candidates and over exhaustion,
/// scores every histogram, and builds the transfer-flow graph.
pub fn compute_later_choices(ballots: &Vec<Ballot>, order: &Vec<usize>, n_cands: usize) -> (r:
    Vec<CandLaterChoices>)
    requires
        forall|i: int|
            0 <= i < ballots@.len() ==> (#[trigger] ballots@[i]).wf() && ballots@[i].valid_for(
                n_cands,
            ),
        ballots@.len() <= u32::MAX,
        forall|k: int| 0 <= k < order@.len() ==> order@[k] < n_cands,
        4 * n_cands * (n_cands + 1) <= usize::MAX,
    ensures
        r@.len() == order@.len(),
        forall|k: int|
            0 <= k < order@.len() ==> spec_analysis_ok(
                #[trigger] r@[k],
                ballots@,
                order@,
                n_cands,
                order@[k],
            ),
{
    let mut r: Vec<CandLaterChoices> = Vec::new();
    let mut k: usize = 0;
    while k < order.len()
        invariant
            k <= order@.len(),
            forall|i: int|
                0 <= i < ballots@.len() ==> (#[trigger] ballots@[i]).wf()
                    && ballots@[i].valid_for(n_cands),
            ballots@.len() <= u32::MAX,
            forall|k2: int| 0 <= k2 < order@.len() ==> order@[k2] < n_cands,
            4 * n_cands * (n_cands + 1) <= usize::MAX,
            r@.len() == k,
            forall|k2: int|
                0 <= k2 < k ==> spec_analysis_ok(
                    #[trigger] r@[k2],
                    ballots@,
                    order@,
                    n_cands,
                    order@[k2],
                ),
        decreases order@.len() - k,
    {
        let x = order[k];
        let laters = later_choices_for(ballots, x);
        let ghost lts = spec_laters(ballots@, x);
        let n_voters = laters.len();
        proof {
            lemma_laters_len(ballots@, x);
            assert(laters@.len() == views_of(laters@).len());
        }
        let mut rank_freqs: Vec<Vec<usize>> = Vec::new();
        let mut j: usize = 0;
        while j < order.len()
            invariant
                j <= order@.len(),
                lts == views_of(laters@),
                rank_freqs@.len() == j,
                forall|j2: int|
                    0 <= j2 < j ==> (#[trigger] rank_freqs@[j2])@.len() == LATER_POSITIONS,
                forall|j2: int, pos: int|
                    0 <= j2 < j && 0 <= pos < LATER_POSITIONS
                        ==> #[trigger] rank_freqs@[j2]@[pos] == spec_rank_freq(
                        lts,
                        order@[j2],
                        pos,
                    ),
            decreases order@.len() - j,
        {
            let y = order[j];
            let mut row: Vec<usize> = Vec::new();
            let mut pos: usize = 0;
            while pos < LATER_POSITIONS
                invariant
                    pos <= LATER_POSITIONS,
                    lts == views_of(laters@),
                    y == order@[j as int],
                    row@.len() == pos,
                    forall|p: int|
                        0 <= p < pos ==> #[trigger] row@[p] == spec_rank_freq(lts, y, p),
                decreases LATER_POSITIONS - pos,
            {
                let v = count_rank_matches(&laters, y, pos);
                row.push(v);
                pos = pos + 1;
            }
            rank_freqs.push(row);
            j = j + 1;
        }
        let mut exh: Vec<usize> = Vec::new();
        let mut pos: usize = 0;
        while pos < LATER_POSITIONS
            invariant
                pos <= LATER_POSITIONS,
                lts == views_of(laters@),
                exh@.len() == pos,
                forall|p: int|
                    0 <= p < pos ==> #[trigger] exh@[p] == spec_exhausted_freq(lts, p),
            decreases LATER_POSITIONS - pos,
        {
            let v = count_exhausted_matches(&laters, pos);
            exh.push(v);
            pos = pos + 1;
        }
        rank_freqs.push(exh);
        let ghost n_rows = order@.len() + 1;
        let mut scores_row: Vec<Scores> = Vec::new();
        let mut j: usize = 0;
        while j < rank_freqs.len()
            invariant
                j <= rank_freqs@.len(),
                rank_freqs@.len() == n_rows,
                n_rows == order@.len() + 1,
                lts == views_of(laters@),
                lts.len() <= ballots@.len(),
                ballots@.len() <= u32::MAX,
                forall|j2: int|
                    0 <= j2 < n_rows ==> (#[trigger] rank_freqs@[j2])@.len() == LATER_POSITIONS,
                forall|j2: int, pos2: int|
                    0 <= j2 < n_rows - 1 && 0 <= pos2 < LATER_POSITIONS
                        ==> #[trigger] rank_freqs@[j2]@[pos2] == spec_rank_freq(
                        lts,
                        order@[j2],
                        pos2,
                    ),
                forall|pos2: int|
                    0 <= pos2 < LATER_POSITIONS ==> #[trigger] rank_freqs@[n_rows - 1]@[pos2]
                        == spec_exhausted_freq(lts, pos2),
                scores_row@.len() == j,
                forall|j2: int|
                    0 <= j2 < j ==> spec_scores_match(
                        (#[trigger] rank_freqs@[j2])@,
                        scores_row@[j2],
                    ),
            decreases rank_freqs@.len() - j,
        {
            proof {
                assert forall|i: int|
                    0 <= i < rank_freqs@[j as int]@.len() implies #[trigger] rank_freqs@[
                j as int]@[i] <= u32::MAX by {
                    if j < n_rows - 1 {
                        lemma_rank_freq_bounds(lts, order@[j as int], i);
                    } else {
                        lemma_exhausted_freq_bounds(lts, i);
                    }
                }
            }
            let s = calc_scores(&rank_freqs[j]);
            scores_row.push(s);
            j = j + 1;
        }
        let flows = FlowTable::build(x, &laters, n_cands);
        r.push(CandLaterChoices { n_voters, rank_freqs, scores_row, flows });
        k = k + 1;
    }
    r
}

/// Assembles the five aggregated score matrices, one per scoring scheme.
/// Matrix `s` has one row per analyzed candidate holding that scheme's
/// score toward every candidate (and exhaustion, last), and a final all-
/// zero row for exhaustion itself, which is a terminal sink and never a
/// first choice.
pub fn score_matrices(per_cand: &Vec<CandLaterChoices>) -> (ms: Vec<Vec<Vec<u64>>>)
    requires
        per_cand@.len() < usize::MAX,
        forall|k: int|
            0 <= k < per_cand@.len() ==> (#[trigger] per_cand@[k]).scores_row@.len()
                == per_cand@.len() + 1,
    ensures
        ms@.len() == 5,
        forall|s: int| 0 <= s < 5 ==> (#[trigger] ms@[s])@.len() == per_cand@.len() + 1,
        forall|s: int, k: int|
            0 <= s < 5 && 0 <= k <= per_cand@.len() ==> (#[trigger] ms@[s]@[k])@.len()
                == per_cand@.len() + 1,
        forall|s: int, k: int, j: int|
            0 <= s < 5 && 0 <= k < per_cand@.len() && 0 <= j <= per_cand@.len()
                ==> #[trigger] ms@[s]@[k]@[j] == spec_scheme(per_cand@[k].scores_row@[j], s),
        forall|s: int, j: int|
            0 <= s < 5 && 0 <= j <= per_cand@.len() ==> #[trigger] ms@[s]@[per_cand@.len() as int]@[j]
                == 0,
{
    let n = per_cand.len();
    let mut ms: Vec<Vec<Vec<u64>>> = Vec::new();
    let mut s: usize = 0;
    while s < 5
        invariant
            s <= 5,
            n == per_cand@.len(),
            n < usize::MAX,
            forall|k: int|
                0 <= k < per_cand@.len() ==> (#[trigger] per_cand@[k]).scores_row@.len() == n
                    + 1,
            ms@.len() == s,
            forall|s2: int| 0 <= s2 < s ==> (#[trigger] ms@[s2])@.len() == n + 1,
            forall|s2: int, k: int|
                0 <= s2 < s && 0 <= k <= n ==> (#[trigger] ms@[s2]@[k])@.len() == n + 1,
            forall|s2: int, k: int, j: int|
                0 <= s2 < s && 0 <= k < n && 0 <= j <= n ==> #[trigger] ms@[s2]@[k]@[j]
                    == spec_scheme(per_cand@[k].scores_row@[j], s2),
            forall|s2: int, j: int|
                0 <= s2 < s && 0 <= j <= n ==> #[trigger] ms@[s2]@[n as int]@[j] == 0,
        decreases 5 - s,
    {
        let mut matrix: Vec<Vec<u64>> = Vec::new();
        let mut k: usize = 0;
        while k < n
            invariant
                k <= n,
                s < 5,
                n == per_cand@.len(),
                n < usize::MAX,
                forall|k2: int|
                    0 <= k2 < per_cand@.len() ==> (#[trigger] per_cand@[k2]).scores_row@.len()
                        == n + 1,
                matrix@.len() == k,
                forall|k2: int| 0 <= k2 < k ==> (#[trigger] matrix@[k2])@.len() == n + 1,
                forall|k2: int, j: int|
                    0 <= k2 < k && 0 <= j <= n ==> #[trigger] matrix@[k2]@[j] == spec_scheme(
                        per_cand@[k2].scores_row@[j],
                        s as int,
                    ),
            decreases n - k,
        {
            let mut row: Vec<u64> = Vec::new();
            let mut j: usize = 0;
            while j < n + 1
                invariant
                    j <= n + 1,
                    s < 5,
                    k < n,
                    n == per_cand@.len(),
                    n < usize::MAX,
                    forall|k2: int|
                        0 <= k2 < per_cand@.len() ==> (#[trigger] per_cand@[
                        k2]).scores_row@.len() == n + 1,
                    row@.len() == j,
                    forall|j2: int|
                        0 <= j2 < j ==> #[trigger] row@[j2] == spec_scheme(
                            per_cand@[k as int].scores_row@[j2],
                            s as int,
                        ),
                decreases n + 1 - j,
            {
                let v = per_cand[k].scores_row[j].scheme(s);
                row.push(v);
                j = j + 1;
            }
            matrix.push(row);
            k = k + 1;
        }
        let mut zero_row: Vec<u64> = Vec::new();
        let mut j: usize = 0;
        while j < n + 1
            invariant
                j <= n + 1,
                n < usize::MAX,
                zero_row@.len() == j,
                forall|j2: int| 0 <= j2 < j ==> #[trigger] zero_row@[j2] == 0,
            decreases n + 1 - j,
        {
            zero_row.push(0);
            j = j + 1;
        }
        matrix.push(zero_row);
        ms.push(matrix);
        s = s + 1;
    }
    ms
}

} // verus!
