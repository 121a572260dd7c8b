//! Selection among candidate matches.

use grammex::graph::NodeId;
use grammex::pattern::Match;
use grammex::strategy::{find_non_overlapping, select_match, select_match_by, RandomSource};

struct FakeRng(u64);
impl RandomSource for FakeRng {
    fn next_u64(&mut self) -> u64 {
        // Simple LCG
        self.0 = self.0.wrapping_mul(6364136223846793005).wrapping_add(1442695040888963407);
        self.0
    }
}

#[test]
fn weighted_selection_distribution() {
    // Weights [1, 1, 8] => third option ~80%
    let m0 = Match { node_map: vec![NodeId(0)] };
    let m1 = Match { node_map: vec![NodeId(1)] };
    let m2 = Match { node_map: vec![NodeId(2)] };
    let candidates = vec![(0, m0, 1u32), (1, m1, 1u32), (2, m2, 8u32)];

    let mut rng = FakeRng(12345);
    let mut counts = [0u32; 3];
    let trials = 1000;

    for _ in 0..trials {
        if let Some((idx, _)) = select_match(&candidates, &mut rng) {
            counts[idx] += 1;
        }
    }

    let third_pct = counts[2] as f64 / trials as f64;
    assert!(
        third_pct > 0.70 && third_pct < 0.90,
        "Third option should be ~80%, got {:.1}%",
        third_pct * 100.0
    );
}

#[test]
fn non_overlapping_filters_shared_nodes() {
    // 3 matches all sharing node 0
    let candidates = vec![
        (0, Match { node_map: vec![NodeId(0), NodeId(1)] }),
        (1, Match { node_map: vec![NodeId(0), NodeId(2)] }),
        (2, Match { node_map: vec![NodeId(0), NodeId(3)] }),
    ];

    let result = find_non_overlapping(&candidates);
    assert_eq!(result.len(), 1, "Only first match should be selected");
    assert_eq!(result[0].0, 0);
}

#[test]
fn non_overlapping_keeps_independent() {
    // 3 matches with no shared nodes
    let candidates = vec![
        (0, Match { node_map: vec![NodeId(0), NodeId(1)] }),
        (1, Match { node_map: vec![NodeId(2), NodeId(3)] }),
        (2, Match { node_map: vec![NodeId(4), NodeId(5)] }),
    ];

    let result = find_non_overlapping(&candidates);
    assert_eq!(result.len(), 3, "All 3 non-overlapping matches should be kept");
}

#[test]
fn non_overlapping_greedy_in_order() {
    // The second overlaps the first; the third overlaps only the second.
    let candidates = vec![
        (0, Match { node_map: vec![NodeId(0), NodeId(1)] }),
        (1, Match { node_map: vec![NodeId(1), NodeId(2)] }),
        (2, Match { node_map: vec![NodeId(2), NodeId(3)] }),
    ];
    let result = find_non_overlapping(&candidates);
    let picked: Vec<usize> = result.iter().map(|c| c.0).collect();
    assert_eq!(picked, vec![0, 2]);
    assert_eq!(result[1].1.node_map, vec![NodeId(2), NodeId(3)]);
    assert!(find_non_overlapping(&[]).is_empty());
}

#[test]
fn select_by_weight_intervals() {
    let c = vec![
        (0, Match { node_map: vec![NodeId(0)] }, 1u32),
        (1, Match { node_map: vec![NodeId(1)] }, 0u32),
        (2, Match { node_map: vec![NodeId(2)] }, 3u32),
    ];
    // Total weight 4: 0 picks the first, 1..3 the third; zero weight is never picked.
    assert_eq!(select_match_by(&c, 0).unwrap().0, 0);
    assert_eq!(select_match_by(&c, 1).unwrap().0, 2);
    assert_eq!(select_match_by(&c, 3).unwrap().0, 2);
    assert_eq!(select_match_by(&c, 4).unwrap().0, 0);
    assert_eq!(select_match_by(&c, 6).unwrap().1.node_map, vec![NodeId(2)]);
}

#[test]
fn select_none_without_weight() {
    let zero = vec![(0, Match { node_map: vec![NodeId(0)] }, 0u32)];
    assert!(select_match_by(&zero, 5).is_none());
    assert!(select_match_by(&[], 5).is_none());
    let mut rng = FakeRng(1);
    assert!(select_match(&zero, &mut rng).is_none());
    assert!(select_match(&[], &mut rng).is_none());
}

#[test]
fn select_with_large_weights() {
    let c = vec![
        (0, Match { node_map: vec![] }, u32::MAX),
        (1, Match { node_map: vec![] }, u32::MAX),
    ];
    assert_eq!(select_match_by(&c, u32::MAX as u64 - 1).unwrap().0, 0);
    assert_eq!(select_match_by(&c, u32::MAX as u64).unwrap().0, 1);
}
