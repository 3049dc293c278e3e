//! The distribution of ranking positions: for each candidate, how many
//! ballots rank it first, second, ... fifth, or not at all.

use vstd::prelude::*;

use crate::ballot::{Ballot, lemma_spec_pos, spec_pos};

verus! {

/// A candidate lands in one of six buckets per ballot: positions 0..=4, or
/// bucket 5 when the ballot does not rank it.
pub const RANK_BUCKETS: usize = 6;

/// The bucket ballot `s` puts candidate `c` in.
pub open spec fn spec_rank_bucket(s: Seq<usize>, c: usize) -> int {
    if s.contains(c) {
        spec_pos(s, c)
    } else {
        5
    }
}

/// How many of `ballots` put candidate `c` in bucket `bucket`.
pub open spec fn spec_rank_dist_count(ballots: Seq<Ballot>, c: usize, bucket: int) -> int
    decreases ballots.len(),
{
    if ballots.len() == 0 {
        0
    } else {
        spec_rank_dist_count(ballots.drop_last(), c, bucket) + if spec_rank_bucket(
            ballots.last()@,
            c,
        ) == bucket {
            1int
        } else {
            0int
        }
    }
}

/// Counts the ballots that put candidate `c` in bucket `bucket`.
fn count_bucket_matches(ballots: &Vec<Ballot>, c: usize, bucket: usize) -> (r: usize)
    ensures
        r == spec_rank_dist_count(ballots@, c, bucket as int),
{
    let mut r: usize = 0;
    let mut i: usize = 0;
    while i < ballots.len()
        invariant
            i <= ballots@.len(),
            0 <= r <= i,
            r == spec_rank_dist_count(ballots@.subrange(0, i as int), c, bucket as int),
        decreases ballots@.len() - i,
    {
        proof {
            assert(ballots@.subrange(0, i + 1).drop_last() =~= ballots@.subrange(0, i as int));
            assert(ballots@.subrange(0, i + 1).last() == ballots@[i as int]);
        }
        let pos = ballots[i].position_of(c);
        let here = if pos < ballots[i].count() {
            pos
        } else {
            5
        };
        proof {
            lemma_spec_pos(ballots@[i as int]@, c);
        }
        if here == bucket {
            r = r + 1;
        }
        i = i + 1;
    }
    proof {
        assert(ballots@.subrange(0, ballots@.len() as int) =~= ballots@);
    }
    r
}

/// Tabulates, for every candidate in ranked order, the six-bucket
/// distribution of the positions the ballots rank it at, the final bucket
/// counting the ballots that do not rank it.
pub fn compute_rank_distributions(ballots: &Vec<Ballot>, order: &Vec<usize>) -> (r: Vec<
    Vec<usize>,
>)
    ensures
        r@.len() == order@.len(),
        forall|k: int| 0 <= k < order@.len() ==> (#[trigger] r@[k])@.len() == RANK_BUCKETS,
        forall|k: int, bucket: int|
            0 <= k < order@.len() && 0 <= bucket < RANK_BUCKETS ==> #[trigger] r@[k]@[bucket]
                == spec_rank_dist_count(ballots@, order@[k], bucket),
{
    let mut r: Vec<Vec<usize>> = Vec::new();
    let mut k: usize = 0;
    while k < order.len()
        invariant
            k <= order@.len(),
            r@.len() == k,
            forall|k2: int| 0 <= k2 < k ==> (#[trigger] r@[k2])@.len() == RANK_BUCKETS,
            forall|k2: int, bucket: int|
                0 <= k2 < k && 0 <= bucket < RANK_BUCKETS ==> #[trigger] r@[k2]@[bucket]
                    == spec_rank_dist_count(ballots@, order@[k2], bucket),
        decreases order@.len() - k,
    {
        let c = order[k];
        let mut row: Vec<usize> = Vec::new();
        let mut bucket: usize = 0;
        while bucket < RANK_BUCKETS
            invariant
                bucket <= RANK_BUCKETS,
                c == order@[k as int],
                row@.len() == bucket,
                forall|b: int|
                    0 <= b < bucket ==> #[trigger] row@[b] == spec_rank_dist_count(
                        ballots@,
                        c,
                        b,
                    ),
            decreases RANK_BUCKETS - bucket,
        {
            let v = count_bucket_matches(ballots, c, bucket);
            row.push(v);
            bucket = bucket + 1;
        }
        r.push(row);
        k = k + 1;
    }
    r
}

} // verus!
