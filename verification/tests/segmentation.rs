use arxiv_search_rs_mcp_core::segmentation::{find_maximal_cliques, merge_segment_clusters};
use std::collections::HashSet;

#[test]
fn test_clique_merging_logic() {
    let adj = vec![
        vec![false, true, false, false, false, true, true],
        vec![true, false, false, true, false, true, true],
        vec![false, false, false, true, true, false, false],
        vec![false, true, true, false, true, false, true],
        vec![false, false, true, true, false, false, false],
        vec![true, true, false, false, false, false, true],
        vec![true, true, false, true, false, true, false],
    ];
    let cliques = find_maximal_cliques(&adj);
    let expected_cliques = vec![
        HashSet::from([0, 1, 5]),
        HashSet::from([1, 3, 6]),
        HashSet::from([2, 3, 4]),
        HashSet::from([0, 5, 6]),
        HashSet::from([1, 5, 6]),
    ];
    for eq in expected_cliques {
        assert!(
            cliques.iter().any(|q| eq.iter().all(|v| q.contains(v))),
            "Missing clique {:?}",
            eq
        );
    }
}

#[test]
fn cliques_of_path_graph_are_its_edges() {
    let adj = vec![
        vec![false, true, false],
        vec![true, false, true],
        vec![false, true, false],
    ];
    let mut cliques: Vec<Vec<usize>> = find_maximal_cliques(&adj)
        .into_iter()
        .map(|mut c| {
            c.sort();
            c
        })
        .collect();
    cliques.sort();
    assert_eq!(cliques, vec![vec![0, 1], vec![1, 2]]);
}

#[test]
fn cliques_of_empty_graph() {
    let adj: Vec<Vec<bool>> = vec![];
    assert_eq!(find_maximal_cliques(&adj), vec![Vec::<usize>::new()]);
}

#[test]
fn isolated_vertices_are_their_own_cliques() {
    let adj = vec![vec![false, false], vec![false, false]];
    let mut cliques = find_maximal_cliques(&adj);
    cliques.sort();
    assert_eq!(cliques, vec![vec![0], vec![1]]);
}

#[test]
fn merging_joins_neighbours_in_a_clique() {
    // Segments 0-1 and 2-3 share cliques; no similarity counts for single segments.
    let cliques = vec![vec![0, 1], vec![2, 3]];
    let keys = vec![vec![0u32; 4]; 4];
    let clusters = merge_segment_clusters(4, &cliques, &keys);
    assert_eq!(clusters, vec![vec![0, 1], vec![2, 3]]);
}

#[test]
fn merging_joins_runs_met_by_one_clique() {
    // Runs [0,1] and [2] are joined because clique {0, 2} meets both.
    let cliques = vec![vec![0, 1], vec![0, 2]];
    let keys = vec![vec![0u32; 3]; 3];
    let clusters = merge_segment_clusters(3, &cliques, &keys);
    assert_eq!(clusters, vec![vec![0, 1, 2]]);
}

#[test]
fn single_segment_moves_to_most_similar_cluster() {
    // Clusters [0,1], [2], [3,4]; segment 2 is closest to segment 4.
    let cliques = vec![vec![0, 1], vec![3, 4]];
    let mut keys = vec![vec![0u32; 5]; 5];
    keys[2] = vec![5, 6, 0, 7, 9];
    let clusters = merge_segment_clusters(5, &cliques, &keys);
    assert_eq!(clusters, vec![vec![0, 1], vec![2, 3, 4]]);
}

#[test]
fn single_segment_ties_go_to_the_first_cluster() {
    let cliques = vec![vec![0, 1], vec![3, 4]];
    let mut keys = vec![vec![0u32; 5]; 5];
    keys[2] = vec![9, 1, 0, 9, 9];
    let clusters = merge_segment_clusters(5, &cliques, &keys);
    assert_eq!(clusters, vec![vec![0, 1, 2], vec![3, 4]]);
}

#[test]
fn trivial_segment_counts() {
    let none: Vec<Vec<usize>> = vec![];
    assert!(merge_segment_clusters(0, &none, &vec![]).is_empty());
    assert_eq!(merge_segment_clusters(1, &none, &vec![vec![0]]), vec![vec![0]]);
}

#[test]
fn every_segment_lands_in_exactly_one_cluster() {
    let cliques = vec![vec![0, 2], vec![3, 4], vec![5, 6, 1]];
    let mut keys = vec![vec![0u32; 7]; 7];
    keys[0] = vec![0, 1, 2, 3, 4, 5, 6];
    keys[1] = vec![3, 0, 1, 1, 1, 1, 1];
    keys[2] = vec![9, 1, 0, 1, 1, 1, 1];
    let clusters = merge_segment_clusters(7, &cliques, &keys);
    let mut seen = vec![0; 7];
    for c in &clusters {
        assert!(!c.is_empty());
        assert!(c.windows(2).all(|w| w[0] < w[1]));
        for &s in c {
            seen[s] += 1;
        }
    }
    assert_eq!(seen, vec![1; 7]);
}

#[test]
fn each_clique_listed_once_with_distinct_vertices() {
    let adj = vec![
        vec![false, true, true, false],
        vec![true, false, true, true],
        vec![true, true, false, true],
        vec![false, true, true, false],
    ];
    let cliques = find_maximal_cliques(&adj);
    let sets: Vec<HashSet<usize>> = cliques.iter().map(|c| c.iter().copied().collect()).collect();
    for (c, s) in cliques.iter().zip(&sets) {
        assert_eq!(c.len(), s.len());
    }
    assert_eq!(sets.len(), 2);
    assert!(sets.contains(&HashSet::from([0, 1, 2])));
    assert!(sets.contains(&HashSet::from([1, 2, 3])));
}

#[test]
fn lone_segment_without_similar_segments_stays_alone() {
    let cliques = vec![vec![0, 1]];
    let keys = vec![vec![0u32; 3]; 3];
    assert_eq!(merge_segment_clusters(3, &cliques, &keys), vec![vec![0, 1], vec![2]]);
}

#[test]
fn neighbours_in_a_clique_stay_together() {
    let cliques = vec![vec![1, 2]];
    let keys = vec![vec![0u32; 4]; 4];
    assert_eq!(merge_segment_clusters(4, &cliques, &keys), vec![vec![0], vec![1, 2], vec![3]]);
}
