use nyc_irv::ballot::Ballot;
use nyc_irv::hierarchy::Node;
use nyc_irv::hierarchy::NodeInternal;
use nyc_irv::hierarchy::compute_hierarchy;
use nyc_irv::hierarchy::hmap_to_vec;
use nyc_irv::later_choices::calc_scores;
use nyc_irv::later_choices::compute_later_choices;
use nyc_irv::later_choices::later_choices_for;
use nyc_irv::later_choices::score_matrices;
use nyc_irv::rank_distributions::compute_rank_distributions;

fn ballot(raw: [u8; 5], n_cands: usize) -> Ballot {
    Ballot::from_raw(&raw.to_vec(), n_cands)
}

fn first_choice_x_ballots() -> Vec<Ballot> {
    // Candidates X=0, Y=1, Z=2; every voter ranks X first, with later
    // choices [Y], [Y,Z] and [] respectively.
    vec![ballot([1, 2, 0, 0, 0], 3), ballot([1, 2, 3, 0, 0], 3), ballot([1, 0, 0, 0, 0], 3)]
}

#[test]
fn later_choices_drop_the_first_choice() {
    let ballots = first_choice_x_ballots();
    let laters = later_choices_for(&ballots, 0);
    assert_eq!(laters, vec![vec![1usize], vec![1, 2], vec![]]);
    assert_eq!(later_choices_for(&ballots, 1), Vec::<Vec<usize>>::new());
    let b = ballot([1, 2, 0, 0, 0], 3);
    assert_eq!(b.later_choices(), vec![1usize]);
}

#[test]
fn rank_frequencies_example() {
    let ballots = first_choice_x_ballots();
    let order = vec![0usize, 1, 2];
    let analysis = compute_later_choices(&ballots, &order, 3);
    assert_eq!(analysis.len(), 3);
    let x = &analysis[0];
    assert_eq!(x.n_voters, 3);
    // One histogram per candidate in order, exhaustion last.
    assert_eq!(x.rank_freqs.len(), 4);
    // X never appears among its own voters' later choices.
    assert_eq!(x.rank_freqs[0], vec![0, 0, 0, 0]);
    // Y is the immediate next preference twice and never deeper.
    assert_eq!(x.rank_freqs[1], vec![2, 0, 0, 0]);
    // Z appears once, at later position 1.
    assert_eq!(x.rank_freqs[2], vec![0, 1, 0, 0]);
    // The empty later-choice ballot is exhausted from position 0 on.
    assert_eq!(x.rank_freqs[3], vec![1, 2, 3, 3]);
    // A candidate nobody ranks first has no voters at all.
    assert_eq!(analysis[1].n_voters, 0);
    assert_eq!(analysis[1].rank_freqs[0], vec![0, 0, 0, 0]);
}

#[test]
fn n_voters_match_first_preference_tallies() {
    let ballots = first_choice_x_ballots();
    let order = vec![0usize, 1, 2];
    let analysis = compute_later_choices(&ballots, &order, 3);
    let first_prefs = nyc_irv::ranking::find_first_prefs(&ballots, 3);
    for (k, cand) in order.iter().enumerate() {
        assert_eq!(analysis[k].n_voters, first_prefs[*cand]);
    }
}

#[test]
fn rank_frequencies_partition_the_voters() {
    // At every later position, the per-candidate frequencies plus the
    // exhaustion frequency account for each voter exactly once.
    let ballots = first_choice_x_ballots();
    let order = vec![0usize, 1, 2];
    let analysis = compute_later_choices(&ballots, &order, 3);
    let x = &analysis[0];
    for pos in 0..4 {
        let total: usize = x.rank_freqs.iter().map(|row| row[pos]).sum();
        assert_eq!(total, x.n_voters);
    }
}

#[test]
fn transfer_flows_example() {
    let ballots = first_choice_x_ballots();
    let order = vec![0usize, 1, 2];
    let analysis = compute_later_choices(&ballots, &order, 3);
    let flows = &analysis[0].flows;
    assert_eq!(flows.n_cands(), 3);
    // Step 0 leaves the first choice: twice toward Y, once straight into
    // exhaustion (index 3).
    assert_eq!(flows.count(0, 0, 1), 2);
    assert_eq!(flows.count(0, 0, 3), 1);
    assert_eq!(flows.count(0, 0, 2), 0);
    // Step 1 leaves Y: once toward Z, once into exhaustion.
    assert_eq!(flows.count(1, 1, 2), 1);
    assert_eq!(flows.count(1, 1, 3), 1);
    // Step 2 leaves Z into exhaustion.
    assert_eq!(flows.count(2, 2, 3), 1);
    assert_eq!(flows.count(3, 2, 3), 0);
}

#[test]
fn calc_scores_exact_values() {
    let freqs = vec![2usize, 0, 1, 0];
    let s = calc_scores(&freqs);
    assert_eq!(s.first_transfer, 2);
    assert_eq!(s.borda, 4 * 2 + 2 * 1);
    assert_eq!(s.harmonic_x12, 12 * 2 + 4 * 1);
    assert_eq!(s.geometric_x8, 8 * 2 + 2 * 1);
    assert_eq!(s.inverse_square_x144, 144 * 2 + 16 * 1);
}

#[test]
fn calc_scores_weight_sequences() {
    // Weights position by position: borda 4,3,2,1; harmonic 12,6,4,3
    // (per 12); geometric 8,4,2,1 (per 8); inverse square 144,36,16,9
    // (per 144).
    let s = calc_scores(&vec![1usize, 1, 1, 1]);
    assert_eq!(s.first_transfer, 1);
    assert_eq!(s.borda, 10);
    assert_eq!(s.harmonic_x12, 25);
    assert_eq!(s.geometric_x8, 15);
    assert_eq!(s.inverse_square_x144, 205);
}

#[test]
fn scoring_is_idempotent() {
    let freqs = vec![5usize, 4, 3, 2];
    let s1 = calc_scores(&freqs);
    let s2 = calc_scores(&freqs);
    assert_eq!(s1, s2);
}

#[test]
fn score_matrices_shape_and_cells() {
    let ballots = first_choice_x_ballots();
    let order = vec![0usize, 1, 2];
    let analysis = compute_later_choices(&ballots, &order, 3);
    let ms = score_matrices(&analysis);
    assert_eq!(ms.len(), 5);
    for m in &ms {
        assert_eq!(m.len(), 4);
        for row in m {
            assert_eq!(row.len(), 4);
        }
        // The exhaustion row is a zero row: exhaustion is a terminal sink.
        assert_eq!(m[3], vec![0, 0, 0, 0]);
    }
    // First-transfer matrix, row of candidate X: toward X itself 0,
    // toward Y 2, toward Z 0, into exhaustion 1.
    assert_eq!(ms[0][0], vec![0, 2, 0, 1]);
    // Borda matrix, same row: Z's single appearance at position 1 weighs 3;
    // the exhaustion histogram [1, 2, 3, 3] weighs 4+6+6+3.
    assert_eq!(ms[1][0], vec![0, 8, 3, 19]);
}

#[test]
fn rank_distributions_example() {
    // Candidates A=0, B=1, C=2; ballots [A,B], [B,A], [A].
    let ballots =
        vec![ballot([1, 2, 0, 0, 0], 3), ballot([2, 1, 0, 0, 0], 3), ballot([1, 0, 0, 0, 0], 3)];
    let order = vec![0usize, 1, 2];
    let dists = compute_rank_distributions(&ballots, &order);
    assert_eq!(dists.len(), 3);
    assert_eq!(dists[0], vec![2, 1, 0, 0, 0, 0]);
    assert_eq!(dists[1], vec![1, 1, 0, 0, 0, 1]);
    // C is never ranked: every ballot falls in the unranked bucket.
    assert_eq!(dists[2], vec![0, 0, 0, 0, 0, 3]);
}

#[test]
fn hmap_to_vec_renders_leaves_and_children() {
    let leaf = NodeInternal::Value(5);
    let node = hmap_to_vec("Exhausted".to_string(), &leaf);
    assert_eq!(node.name, "Exhausted");
    assert_eq!(node.value, Some(5));
    assert!(node.children.is_none());

    let interior = NodeInternal::Children(vec![(
        "Exhausted".to_string(),
        NodeInternal::Value(2),
    )]);
    let node = hmap_to_vec("Alice".to_string(), &interior);
    assert_eq!(node.name, "Alice");
    assert_eq!(node.value, None);
    let ch = node.children.unwrap();
    assert_eq!(ch.len(), 1);
    assert_eq!(ch[0].name, "Exhausted");
    assert_eq!(ch[0].value, Some(2));
}

fn child<'a>(node: &'a Node, name: &str) -> &'a Node {
    node.children.as_ref().unwrap().iter().find(|c| c.name == name).unwrap()
}

#[test]
fn hierarchy_counts_preference_paths() {
    // Ballots [A,B], [B,A], [A] over candidates A, B, C.
    let ballots =
        vec![ballot([1, 2, 0, 0, 0], 3), ballot([2, 1, 0, 0, 0], 3), ballot([1, 0, 0, 0, 0], 3)];
    let names = vec!["A".to_string(), "B".to_string(), "C".to_string()];
    let root = compute_hierarchy(&ballots, &names);
    assert_eq!(root.name, "Root");
    assert_eq!(root.value, None);
    assert_eq!(root.children.as_ref().unwrap().len(), 2);
    // One ballot exhausts right after A, one after the path A then B.
    let a = child(&root, "A");
    assert_eq!(child(a, "Exhausted").value, Some(1));
    assert_eq!(child(child(a, "B"), "Exhausted").value, Some(1));
    // One ballot follows B then A to exhaustion.
    let b = child(&root, "B");
    assert_eq!(child(child(b, "A"), "Exhausted").value, Some(1));
    assert!(b.children.as_ref().unwrap().iter().all(|c| c.name != "Exhausted"));
}

fn check_tree_shape(nodes: &[Node]) {
    for (i, node) in nodes.iter().enumerate() {
        // Sibling names are distinct: one child per key at every level.
        assert!(nodes[..i].iter().all(|other| other.name != node.name));
        if node.name == "Exhausted" {
            // An exhaustion node is a leaf carrying a positive count.
            assert!(node.value.is_some_and(|v| v > 0));
            assert!(node.children.is_none());
        } else {
            // Every other node is an interior candidate node.
            assert!(node.value.is_none());
            check_tree_shape(node.children.as_ref().unwrap());
        }
    }
}

#[test]
fn hierarchy_tree_is_well_formed() {
    let ballots = vec![
        ballot([1, 2, 0, 0, 0], 3),
        ballot([2, 1, 3, 0, 0], 3),
        ballot([1, 0, 0, 0, 0], 3),
        ballot([1, 2, 0, 0, 0], 3),
    ];
    let names = vec!["A".to_string(), "B".to_string(), "C".to_string()];
    let root = compute_hierarchy(&ballots, &names);
    let ch = root.children.as_ref().unwrap();
    check_tree_shape(ch);
    // Every nonempty ballot exhausts at exactly one leaf: the leaf counts
    // sum to the number of nonempty ballots.
    assert_eq!(leaf_sum(ch), 4);
}

fn leaf_sum(nodes: &[Node]) -> i64 {
    nodes
        .iter()
        .map(|n| n.value.unwrap_or(0) + n.children.as_deref().map_or(0, leaf_sum))
        .sum()
}

#[test]
fn hierarchy_of_all_blank_ballots_is_empty() {
    let ballots = vec![ballot([0; 5], 2), ballot([0; 5], 2)];
    let names = vec!["A".to_string(), "B".to_string()];
    let root = compute_hierarchy(&ballots, &names);
    assert_eq!(root.value, Some(0));
    assert_eq!(root.children.unwrap().len(), 0);
}

#[test]
fn hierarchy_of_no_ballots_is_empty() {
    let names = vec!["A".to_string()];
    let root = compute_hierarchy(&Vec::new(), &names);
    assert_eq!(root.name, "Root");
    assert_eq!(root.value, Some(0));
    assert_eq!(root.children.unwrap().len(), 0);
}

#[test]
fn hierarchy_skips_empty_ballots() {
    let ballots = vec![ballot([0; 5], 2), ballot([1, 0, 0, 0, 0], 2)];
    let names = vec!["A".to_string(), "B".to_string()];
    let root = compute_hierarchy(&ballots, &names);
    assert_eq!(root.children.as_ref().unwrap().len(), 1);
    let a = child(&root, "A");
    assert_eq!(child(a, "Exhausted").value, Some(1));
}

#[test]
fn hierarchy_merges_repeated_paths() {
    let ballots = vec![
        ballot([1, 2, 0, 0, 0], 2),
        ballot([1, 2, 0, 0, 0], 2),
        ballot([1, 0, 0, 0, 0], 2),
    ];
    let names = vec!["A".to_string(), "B".to_string()];
    let root = compute_hierarchy(&ballots, &names);
    let a = child(&root, "A");
    assert_eq!(child(child(a, "B"), "Exhausted").value, Some(2));
    assert_eq!(child(a, "Exhausted").value, Some(1));
}
