//! Candidate orderings: tallying first preferences and the stable
//! descending sort that fixes the canonical candidate order.

use vstd::prelude::*;

use crate::ballot::{Ballot, spec_first};

verus! {

/// How many of `ballots` express candidate `c` as their first preference.
pub open spec fn spec_first_pref_count(ballots: Seq<Ballot>, c: usize) -> int
    decreases ballots.len(),
{
    if ballots.len() == 0 {
        0
    } else {
        spec_first_pref_count(ballots.drop_last(), c) + if spec_first(ballots.last()@) == Some(
            c,
        ) {
            1int
        } else {
            0int
        }
    }
}

/// Tallies, for every candidate, the ballots whose first expressed
/// preference is that candidate.  A ballot expressing no preference at all
/// counts for nobody.
pub fn find_first_prefs(ballots: &Vec<Ballot>, n_cands: usize) -> (counts: Vec<usize>)
    requires
        forall|i: int| 0 <= i < ballots@.len() ==> (#[trigger] ballots@[i]).valid_for(n_cands),
    ensures
        counts@.len() == n_cands,
        forall|c: usize|
            c < n_cands ==> counts@[c as int] == spec_first_pref_count(ballots@, c),
{
    let mut counts: Vec<usize> = Vec::new();
    let mut c: usize = 0;
    while c < n_cands
        invariant
            c <= n_cands,
            counts@.len() == c,
            forall|k: int| 0 <= k < c ==> counts@[k] == 0,
        decreases n_cands - c,
    {
        counts.push(0);
        c = c + 1;
    }
    let mut i: usize = 0;
    while i < ballots.len()
        invariant
            i <= ballots@.len(),
            counts@.len() == n_cands,
            forall|i2: int|
                0 <= i2 < ballots@.len() ==> (#[trigger] ballots@[i2]).valid_for(n_cands),
            forall|k: int| 0 <= k < n_cands ==> 0 <= #[trigger] counts@[k] <= i,
            forall|c2: usize|
                c2 < n_cands ==> counts@[c2 as int] == spec_first_pref_count(
                    ballots@.subrange(0, i as int),
                    c2,
                ),
        decreases ballots@.len() - i,
    {
        proof {
            assert(ballots@.subrange(0, i + 1).drop_last() =~= ballots@.subrange(0, i as int));
            assert(ballots@.subrange(0, i + 1).last() == ballots@[i as int]);
        }
        match ballots[i].first_pref() {
            Some(first) => {
                assert(first < n_cands) by {
                    assert(ballots@[i as int].valid_for(n_cands));
                }
                let bumped = counts[first] + 1;
                counts.set(first, bumped);
            },
            None => {},
        }
        i = i + 1;
    }
    proof {
        assert(ballots@.subrange(0, ballots@.len() as int) =~= ballots@);
    }
    counts
}

/// Sorts the candidate indices `0..keys.len()` by their key, descending,
/// breaking ties by original candidate order (the smaller index first).
/// The resulting order is a permutation of the candidates and is uniquely
/// determined, which makes the sort stable.
pub fn sort_candidates(keys: &Vec<usize>) -> (order: Vec<usize>)
    ensures
        order@.len() == keys@.len(),
        forall|i: int| 0 <= i < order@.len() ==> order@[i] < keys@.len(),
        forall|i: int, j: int|
            0 <= i < j < order@.len() ==> (keys@[order@[i] as int] > keys@[order@[j] as int] || (
            keys@[order@[i] as int] == keys@[order@[j] as int] && order@[i] < order@[j])),
        forall|c: usize| c < keys@.len() ==> order@.contains(c),
{
    let mut order: Vec<usize> = Vec::new();
    let mut m: usize = 0;
    while m < keys.len()
        invariant
            m <= keys@.len(),
            order@.len() == m,
            forall|i: int| 0 <= i < order@.len() ==> order@[i] < m,
            forall|i: int, j: int|
                0 <= i < j < order@.len() ==> (keys@[order@[i] as int] > keys@[order@[j] as int]
                    || (keys@[order@[i] as int] == keys@[order@[j] as int] && order@[i]
                    < order@[j])),
            forall|c: usize| c < m ==> order@.contains(c),
        decreases keys@.len() - m,
    {
        let key_m = keys[m];
        let mut p: usize = 0;
        while p < order.len() && keys[order[p]] >= key_m
            invariant
                p <= order@.len(),
                order@.len() == m,
                m < keys@.len(),
                key_m == keys@[m as int],
                forall|i: int| 0 <= i < order@.len() ==> order@[i] < m,
                forall|q: int| 0 <= q < p ==> keys@[order@[q] as int] >= key_m,
            decreases order@.len() - p,
        {
            p = p + 1;
        }
        let ghost old_order = order@;
        order.insert(p, m);
        proof {
            assert forall|i: int, j: int|
                0 <= i < j < order@.len() implies (keys@[order@[i] as int]
                > keys@[order@[j] as int] || (keys@[order@[i] as int] == keys@[order@[j] as int]
                && order@[i] < order@[j])) by {
                if j < p {
                    assert(order@[i] == old_order[i] && order@[j] == old_order[j]);
                } else if i > p {
                    assert(order@[i] == old_order[i - 1] && order@[j] == old_order[j - 1]);
                } else if i < p && j > p {
                    assert(order@[i] == old_order[i] && order@[j] == old_order[j - 1]);
                } else if j == p {
                    assert(order@[i] == old_order[i] && order@[j] == keys@.len() * 0 + m);
                    assert(keys@[old_order[i] as int] >= key_m);
                } else {
                    assert(i == p && j > p);
                    assert(order@[i] == m && order@[j] == old_order[j - 1]);
                    if p < old_order.len() {
                        assert(keys@[old_order[p as int] as int] < key_m);
                        if j - 1 > p {
                            assert(keys@[old_order[p as int] as int] >= keys@[old_order[j
                                - 1] as int] || keys@[old_order[p as int] as int]
                                == keys@[old_order[j - 1] as int]);
                        }
                    }
                }
            }
            assert forall|c: usize| c < m + 1 implies order@.contains(c) by {
                if c == m {
                    assert(order@[p as int] == m);
                } else {
                    assert(old_order.contains(c));
                    let idx: int = choose|idx: int|
                        0 <= idx < old_order.len() && old_order[idx] == c;
                    if idx < p {
                        assert(order@[idx] == c);
                    } else {
                        assert(order@[idx + 1] == c);
                    }
                }
            }
        }
        m = m + 1;
    }
    order
}

} // verus!
