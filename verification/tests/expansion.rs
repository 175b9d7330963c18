//! Tests of the node forest and the blossom expansion engine.

use fusion_blossom::dual_module::{DualModuleInterface, NodeForest};
use fusion_blossom::primal_module::{IntermediateMatching, MatchingError, PerfectMatching};

/// Five leaves standing on the vertices of a small planar-code syndrome.
fn five_leaf_forest() -> NodeForest {
    let mut forest = NodeForest::new();
    for vertex in [39, 52, 63, 90, 100] {
        forest.add_syndrome_vertex(vertex);
    }
    forest
}

#[test]
fn forest_construction() {
    let forest = five_leaf_forest();
    assert_eq!(forest.len(), 5);
    let interface = DualModuleInterface::new(&vec![39, 52, 63, 90, 100]);
    assert_eq!(interface.nodes.len(), 5);
    assert_eq!(interface.sum_dual_variables, 0);
}

#[test]
fn expand_leaf_is_noop() {
    // expanding a leaf entered through itself yields no pairs
    let forest = five_leaf_forest();
    let pairs = IntermediateMatching::expand_blossom(&forest, 3, 3);
    assert!(pairs.is_empty());
}

#[test]
fn expand_single_blossom() {
    let mut forest = five_leaf_forest();
    let blossom = forest.add_blossom(vec![0, 1, 2], vec![(0, 0), (1, 1), (2, 2)]);
    assert_eq!(blossom, 5);
    // entering through leaf 0 pairs the remaining even run (1, 2)
    let pairs = IntermediateMatching::expand_blossom(&forest, blossom, 0);
    assert_eq!(pairs, vec![(1, 2)]);
    // entering through leaf 1 pairs (2, 0)
    let pairs = IntermediateMatching::expand_blossom(&forest, blossom, 1);
    assert_eq!(pairs, vec![(2, 0)]);
}

#[test]
fn expand_nested_blossom() {
    let mut forest = five_leaf_forest();
    let inner = forest.add_blossom(vec![0, 1, 2], vec![(0, 0), (1, 1), (2, 2)]);
    let outer = forest.add_blossom(vec![inner, 3, 4], vec![(0, 1), (3, 3), (4, 4)]);
    assert_eq!(outer, 6);
    // entering through leaf 3: position 1 of the circle; the even run pairs
    // leaf 4 with the inner blossom through leaves 4 and 0, and the inner
    // blossom expands recursively
    let pairs = IntermediateMatching::expand_blossom(&forest, outer, 3);
    assert_eq!(pairs, vec![(1, 2), (4, 0)]);
    // only leaf nodes ever appear
    for &(a, b) in pairs.iter() {
        assert!(a < 5 && b < 5);
    }
}

#[test]
fn expand_peer_matching_pairs_touching_leaves() {
    let mut forest = five_leaf_forest();
    let blossom = forest.add_blossom(vec![0, 1, 2], vec![(0, 0), (1, 1), (2, 2)]);
    let pairs = IntermediateMatching::expand_peer_matching(&forest, blossom, 0, 3, 3);
    assert_eq!(pairs, vec![(1, 2), (0, 3)]);
}

#[test]
fn get_perfect_matching_covers_every_leaf_once() {
    let mut forest = five_leaf_forest();
    let blossom = forest.add_blossom(vec![0, 1, 2], vec![(0, 0), (1, 1), (2, 2)]);
    let mut intermediate = IntermediateMatching::new();
    intermediate.peer_matchings.push(((blossom, 0), (3, 3)));
    intermediate.virtual_matchings.push(((4, 4), 1000));
    let perfect = intermediate.get_perfect_matching(&forest);
    assert_eq!(perfect.peer_matchings, vec![(1, 2), (0, 3)]);
    assert_eq!(perfect.virtual_matchings, vec![(4, 1000)]);
    // leaf coverage: every leaf appears exactly once across both lists
    let mut seen = vec![0usize; 5];
    for &(a, b) in perfect.peer_matchings.iter() {
        seen[a] += 1;
        seen[b] += 1;
    }
    for &(a, _) in perfect.virtual_matchings.iter() {
        seen[a] += 1;
    }
    assert_eq!(seen, vec![1, 1, 1, 1, 1]);
    // symmetry: no unordered pair appears twice
    for (i, &(a, b)) in perfect.peer_matchings.iter().enumerate() {
        for &(c, d) in perfect.peer_matchings.iter().skip(i + 1) {
            assert!((a, b) != (c, d) && (a, b) != (d, c));
        }
    }
}

#[test]
fn legacy_result_round_trip() {
    let mut forest = five_leaf_forest();
    let blossom = forest.add_blossom(vec![0, 1, 2], vec![(0, 0), (1, 1), (2, 2)]);
    let mut intermediate = IntermediateMatching::new();
    intermediate.peer_matchings.push(((blossom, 0), (3, 3)));
    intermediate.virtual_matchings.push(((4, 4), 1000));
    let perfect = intermediate.get_perfect_matching(&forest);
    let result = perfect
        .legacy_get_mwpm_result(&forest, &vec![39, 52, 63, 90, 100])
        .expect("every queried vertex is matched");
    // each vertex maps to its peer's identifier or its virtual vertex,
    // consistently with the pair lists
    assert_eq!(result, vec![90, 63, 52, 39, 1000]);
}

#[test]
fn legacy_result_missing_vertex() {
    let forest = five_leaf_forest();
    let mut perfect = PerfectMatching::new();
    perfect.peer_matchings.push((0, 3));
    let result = perfect.legacy_get_mwpm_result(&forest, &vec![39, 7]);
    assert_eq!(
        result,
        Err(MatchingError::MissingSyndromeVertex { vertex: 7 })
    );
}

#[test]
fn empty_matchings() {
    let forest = NodeForest::new();
    let intermediate = IntermediateMatching::new();
    let perfect = intermediate.get_perfect_matching(&forest);
    assert!(perfect.peer_matchings.is_empty());
    assert!(perfect.virtual_matchings.is_empty());
    let result = perfect.legacy_get_mwpm_result(&forest, &vec![]).unwrap();
    assert!(result.is_empty());
}
