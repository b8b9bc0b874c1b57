use panoloom::estimation::{
    find_max_spanning_tree, leave_biggest_component, DisjointSets, MatchGraph,
};
use panoloom::matcher::{PairMatches, Ratio, RawMatch};

fn ratio(num: u64, den: u64) -> Ratio {
    Ratio { num, den }
}

fn graph_with_edges(n: usize, edges: &[(usize, usize, usize, Ratio)]) -> MatchGraph {
    // (i, j, num_inliers, confidence)
    let mut entries: Vec<PairMatches> = (0..n * n).map(|_| PairMatches::empty()).collect();
    for &(i, j, ni, conf) in edges {
        for &(a, b) in &[(i, j), (j, i)] {
            entries[a * n + b] = PairMatches {
                matches: Vec::new(),
                inliers: Vec::new(),
                num_inliers: ni,
                has_h: true,
                confidence: conf,
            };
        }
    }
    MatchGraph { n, entries }
}

#[test]
fn biggest_component_is_selected() {
    // 0-1-2 connected, 3-4 connected, 5 isolated.
    let two = ratio(2, 1);
    let g = graph_with_edges(6, &[(0, 1, 30, two), (1, 2, 20, two), (3, 4, 50, two)]);
    assert_eq!(leave_biggest_component(&g, ratio(1, 1)), vec![0, 1, 2]);
}

#[test]
fn spanning_tree_prefers_high_inliers() {
    // Triangle 0-1-2; edge 0-2 is weakest and must be dropped.
    let two = ratio(2, 1);
    let g = graph_with_edges(3, &[(0, 1, 50, two), (1, 2, 40, two), (0, 2, 10, two)]);
    let tree = find_max_spanning_tree(&g);
    assert!(tree.adj[0].contains(&1));
    assert!(tree.adj[1].contains(&2));
    assert!(!tree.adj[0].contains(&2));
    // Path graph 0-1-2: center is 1.
    assert_eq!(tree.centers, vec![1]);
}

#[test]
fn weak_pairs_do_not_hold_a_component_together() {
    let g = graph_with_edges(
        3,
        &[(0, 1, 30, ratio(99, 100)), (1, 2, 20, ratio(1, 1))],
    );
    assert_eq!(leave_biggest_component(&g, ratio(1, 1)), vec![1, 2]);
}

#[test]
fn a_path_of_four_has_two_centers() {
    let two = ratio(2, 1);
    let g = graph_with_edges(4, &[(0, 1, 50, two), (1, 2, 40, two), (2, 3, 30, two)]);
    let tree = find_max_spanning_tree(&g);
    assert_eq!(tree.centers, vec![1, 2]);
    assert_eq!(tree.distances(0), vec![0, 1, 2, 3]);
    assert_eq!(tree.walk_breadth_first(1), vec![(1, 0), (1, 2), (2, 3)]);
}

#[test]
fn every_image_hangs_on_the_tree() {
    // A ring of five: one edge, the weakest, is left out.
    let two = ratio(2, 1);
    let g = graph_with_edges(
        5,
        &[
            (0, 1, 50, two),
            (1, 2, 40, two),
            (2, 3, 5, two),
            (3, 4, 60, two),
            (0, 4, 20, two),
        ],
    );
    let tree = find_max_spanning_tree(&g);
    let links: usize = tree.adj.iter().map(|a| a.len()).sum();
    assert_eq!(links, 2 * 4);
    assert!(!tree.adj[2].contains(&3));
    assert_eq!(tree.walk_breadth_first(0).len(), 4);
}

#[test]
fn sets_merge_and_keep_their_sizes() {
    let mut s = DisjointSets::new(5);
    let (a, b) = (s.find_set_by_elem(0), s.find_set_by_elem(3));
    s.merge_sets(a, b);
    let (a, c) = (s.find_set_by_elem(3), s.find_set_by_elem(4));
    let top = s.merge_sets(a, c);
    assert_eq!(s.find_set_by_elem(0), top);
    assert_eq!(s.find_set_by_elem(3), top);
    assert_eq!(s.find_set_by_elem(4), top);
    assert_ne!(s.find_set_by_elem(1), top);
    assert_eq!(s.size[top], 3);
}

#[test]
fn an_upper_triangle_is_entered_both_ways() {
    let m = vec![RawMatch {
        query: 3,
        train: 8,
        distance: 12,
    }];
    let pair = PairMatches::new(m, Some(vec![true]));
    let g = MatchGraph::from_upper_triangle(2, vec![((0, 1), pair)]);
    assert_eq!((g.at(0, 1).matches[0].query, g.at(0, 1).matches[0].train), (3, 8));
    assert_eq!((g.at(1, 0).matches[0].query, g.at(1, 0).matches[0].train), (8, 3));
    assert_eq!(g.at(1, 0).matches[0].distance, 12);
    assert_eq!(g.at(1, 0).num_inliers, 1);
    assert!(!g.at(0, 0).has_h && g.at(0, 0).matches.is_empty());
}

#[test]
fn equally_large_components_go_by_their_roots() {
    // {0, 3} is merged under 3 and {1, 2} under 2: the lower root wins.
    let two = ratio(2, 1);
    let g = graph_with_edges(4, &[(0, 3, 30, two), (1, 2, 20, two)]);
    assert_eq!(leave_biggest_component(&g, ratio(1, 1)), vec![1, 2]);
    let g = graph_with_edges(4, &[(0, 1, 30, two), (2, 3, 90, two)]);
    assert_eq!(leave_biggest_component(&g, ratio(1, 1)), vec![0, 1]);
}

#[test]
fn a_star_has_one_center() {
    let two = ratio(2, 1);
    let g = graph_with_edges(4, &[(0, 2, 50, two), (1, 2, 40, two), (2, 3, 30, two)]);
    assert_eq!(find_max_spanning_tree(&g).centers, vec![2]);
}

#[test]
fn no_other_tree_has_more_inliers() {
    let two = ratio(2, 1);
    let edges = [
        (0, 1, 5, two),
        (0, 2, 9, two),
        (0, 3, 4, two),
        (1, 2, 7, two),
        (1, 3, 8, two),
        (2, 3, 6, two),
    ];
    let tree = find_max_spanning_tree(&graph_with_edges(4, &edges));
    let weight = |picks: &[usize]| picks.iter().map(|&p| edges[p].2).sum::<usize>();
    let kept: Vec<usize> = (0..edges.len())
        .filter(|&p| tree.adj[edges[p].0].contains(&edges[p].1))
        .collect();
    assert_eq!(weight(&kept), 9 + 8 + 7);
    for a in 0..6 {
        for b in a + 1..6 {
            for c in b + 1..6 {
                let picks = [a, b, c];
                let touched = (0..4).all(|v| picks.iter().any(|&p| edges[p].0 == v || edges[p].1 == v));
                if touched {
                    assert!(weight(&picks) <= weight(&kept));
                }
            }
        }
    }
}
