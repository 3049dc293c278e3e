use nyc_irv::IrvError;
use nyc_irv::ballot::Ballot;
use nyc_irv::condorcet::compute_pairwise_matchups;
use nyc_irv::condorcet::compute_pairwise_matrix;
use nyc_irv::condorcet::look_for_condorcet_winner;
use nyc_irv::ranking::find_first_prefs;
use nyc_irv::ranking::sort_candidates;

fn ballot(raw: [u8; 5], n_cands: usize) -> Ballot {
    Ballot::from_raw(&raw.to_vec(), n_cands)
}

#[test]
fn ballot_from_raw_identity() {
    // No duplicates, no gaps: construction is the identity up to encoding.
    let b = ballot([2, 3, 1, 0, 0], 3);
    assert_eq!(b.count(), 3);
    assert_eq!(b.choice(0), 1);
    assert_eq!(b.choice(1), 2);
    assert_eq!(b.choice(2), 0);
}

#[test]
fn ballot_from_raw_deduplicates() {
    // A candidate ranked twice keeps only its first (best) position.
    let b = ballot([1, 1, 2, 0, 3], 3);
    assert_eq!(b.count(), 3);
    assert_eq!(b.choice(0), 0);
    assert_eq!(b.choice(1), 1);
    assert_eq!(b.choice(2), 2);
}

#[test]
fn ballot_from_raw_left_packs_blanks() {
    // Blanks between expressed preferences are squeezed out.
    let b = ballot([0, 2, 0, 1, 0], 2);
    assert_eq!(b.count(), 2);
    assert_eq!(b.choice(0), 1);
    assert_eq!(b.choice(1), 0);
}

#[test]
fn ballot_from_raw_drops_unknown_tokens() {
    // A slot value beyond the candidate count is treated as blank.
    let b = ballot([9, 1, 0, 0, 0], 3);
    assert_eq!(b.count(), 1);
    assert_eq!(b.choice(0), 0);
}

#[test]
fn ballot_compact_round_trip() {
    let b = ballot([2, 3, 0, 0, 0], 3);
    let compact = b.compact();
    assert_eq!(compact, vec![2u8, 3, 0, 0, 0]);
    let b2 = Ballot::from_raw(&compact, 3);
    assert_eq!(b2.count(), 2);
    assert_eq!(b2.choice(0), 1);
    assert_eq!(b2.choice(1), 2);
}

#[test]
fn ballot_positions_and_first_pref() {
    let b = ballot([2, 1, 0, 0, 0], 3);
    assert_eq!(b.first_pref(), Some(1));
    assert_eq!(b.position_of(1), 0);
    assert_eq!(b.position_of(0), 1);
    // An unranked candidate sits past the last expressed preference.
    assert_eq!(b.position_of(2), 2);
    assert_eq!(ballot([0; 5], 3).first_pref(), None);
}

fn three_candidate_ballots() -> Vec<Ballot> {
    // Candidates A=0, B=1, C=2; ballots [A,B], [B,A], [A].
    vec![ballot([1, 2, 0, 0, 0], 3), ballot([2, 1, 0, 0, 0], 3), ballot([1, 0, 0, 0, 0], 3)]
}

#[test]
fn pairwise_matrix_example() {
    let ballots = three_candidate_ballots();
    let m = compute_pairwise_matrix(3, &ballots);
    assert_eq!(m.n_cands(), 3);
    assert_eq!(m.get(0, 1).unwrap(), 2);
    assert_eq!(m.get(1, 0).unwrap(), 1);
    // C is unranked everywhere: every ballot ranking A counts toward (A,C).
    assert_eq!(m.get(0, 2).unwrap(), 3);
    assert_eq!(m.get(2, 0).unwrap(), 0);
    assert_eq!(m.get(1, 2).unwrap(), 2);
    assert_eq!(m.get(2, 1).unwrap(), 0);
    // The diagonal is never counted.
    assert_eq!(m.get(0, 0).unwrap(), 0);
}

#[test]
fn pairwise_counts_bounded_by_ballots() {
    // The two cells of a pair sum to the ballots ranking at least one of
    // the two: all three rank A, so both pairs involving A are tight.
    let mut ballots = three_candidate_ballots();
    let m = compute_pairwise_matrix(3, &ballots);
    assert_eq!(m.get(0, 1).unwrap() + m.get(1, 0).unwrap(), 3);
    assert_eq!(m.get(0, 2).unwrap() + m.get(2, 0).unwrap(), 3);
    // An empty ballot ranks neither, so the sum stays strictly below the
    // ballot total.
    ballots.push(ballot([0; 5], 3));
    let m2 = compute_pairwise_matrix(3, &ballots);
    assert_eq!(m2.get(0, 1).unwrap() + m2.get(1, 0).unwrap(), 3);
    assert_eq!(ballots.len(), 4);
}

#[test]
fn condorcet_winner_example() {
    let ballots = three_candidate_ballots();
    let m = compute_pairwise_matrix(3, &ballots);
    let res = look_for_condorcet_winner(3, &m).unwrap();
    assert_eq!(res.winner, Some(0));
    assert_eq!(res.win_counts, vec![2, 1, 0]);
}

#[test]
fn condorcet_cycle_reports_no_winner() {
    // A > B, B > C, C > A: the classic cycle.
    let ballots = vec![
        ballot([1, 2, 3, 0, 0], 3),
        ballot([2, 3, 1, 0, 0], 3),
        ballot([3, 1, 2, 0, 0], 3),
    ];
    let m = compute_pairwise_matrix(3, &ballots);
    assert_eq!(m.get(0, 1).unwrap(), 2);
    assert_eq!(m.get(1, 2).unwrap(), 2);
    assert_eq!(m.get(2, 0).unwrap(), 2);
    let res = look_for_condorcet_winner(3, &m).unwrap();
    assert_eq!(res.winner, None);
    assert_eq!(res.win_counts, vec![1, 1, 1]);
}

#[test]
fn condorcet_ties_count_as_wins() {
    // One ballot each way: a universal tie, so everyone beats-or-ties
    // everyone and the first candidate is reported.
    let ballots = vec![ballot([1, 2, 0, 0, 0], 2), ballot([2, 1, 0, 0, 0], 2)];
    let m = compute_pairwise_matrix(2, &ballots);
    let res = look_for_condorcet_winner(2, &m).unwrap();
    assert_eq!(res.winner, Some(0));
    assert_eq!(res.win_counts, vec![1, 1]);
}

#[test]
fn missing_matrix_entry_is_fatal() {
    let ballots = three_candidate_ballots();
    let m = compute_pairwise_matrix(3, &ballots);
    assert_eq!(m.get(0, 3), Err(IrvError::MissingMatrixEntry));
    assert_eq!(m.get(7, 1), Err(IrvError::MissingMatrixEntry));
    // A candidate list larger than the matrix cannot be resolved.
    assert!(matches!(look_for_condorcet_winner(4, &m), Err(IrvError::MissingMatrixEntry)));
    // One no larger can.
    assert!(look_for_condorcet_winner(2, &m).is_ok());
}

#[test]
fn matchups_cover_every_ordered_pair() {
    let ballots = three_candidate_ballots();
    let m = compute_pairwise_matrix(3, &ballots);
    let order = vec![0usize, 1, 2];
    let rows = compute_pairwise_matchups(&order, &m).unwrap();
    assert_eq!(rows.len(), 6);
    assert_eq!(rows[0].cand_a, 0);
    assert_eq!(rows[0].cand_b, 1);
    assert_eq!(rows[0].votes_a, 2);
    assert_eq!(rows[0].votes_b, 1);
    assert_eq!(rows[1].cand_a, 0);
    assert_eq!(rows[1].cand_b, 2);
    assert_eq!(rows[1].votes_a, 3);
    assert_eq!(rows[1].votes_b, 0);
    assert_eq!(rows[2].cand_a, 1);
    assert_eq!(rows[2].cand_b, 0);
    assert_eq!(rows[2].votes_a, 1);
    assert_eq!(rows[2].votes_b, 2);
    assert_eq!(rows[5].cand_a, 2);
    assert_eq!(rows[5].cand_b, 1);
    assert_eq!(rows[5].votes_a, 0);
    assert_eq!(rows[5].votes_b, 2);
}

#[test]
fn matchups_reject_unknown_candidates() {
    let ballots = three_candidate_ballots();
    let m = compute_pairwise_matrix(3, &ballots);
    let order = vec![0usize, 5];
    assert!(matches!(compute_pairwise_matchups(&order, &m), Err(IrvError::MissingMatrixEntry)));
}

#[test]
fn first_prefs_tally() {
    let ballots = three_candidate_ballots();
    let counts = find_first_prefs(&ballots, 3);
    assert_eq!(counts, vec![2, 1, 0]);
}

#[test]
fn first_prefs_skip_empty_ballots() {
    let ballots = vec![ballot([0; 5], 2), ballot([2, 0, 0, 0, 0], 2)];
    let counts = find_first_prefs(&ballots, 2);
    assert_eq!(counts, vec![0, 1]);
}

#[test]
fn sort_candidates_descending_stable() {
    let keys = vec![1usize, 3, 1, 3];
    let order = sort_candidates(&keys);
    // Descending by key; equal keys keep the original candidate order.
    assert_eq!(order, vec![1, 3, 0, 2]);
    let empty: Vec<usize> = Vec::new();
    assert_eq!(sort_candidates(&empty), Vec::<usize>::new());
}
