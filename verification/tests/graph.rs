use apotheosis::controllers::connect::{connect_graph, flag_reached, link_unreached};
use apotheosis::controllers::link::{answer_edges, link_graph};
use apotheosis::controllers::nsg::SearchScratch;
use apotheosis::controllers::occlusion::{default_factor, PruneFactor};
use apotheosis::controllers::prune::{pick_edges, prune_candidates};
use apotheosis::controllers::search::best_first;
use apotheosis::datalayer::algorithms::NormalDistance;
use apotheosis::datalayer::nodes::NsgNode;
use apotheosis::order::{holds_point, rank_of, sort_once};
use apotheosis::random::index_of_draw;
use rand::rngs::StdRng;
use rand::SeedableRng;

fn graph(lists: &[&[u32]]) -> Vec<NsgNode> {
    lists
        .iter()
        .enumerate()
        .map(|(i, l)| {
            let mut node = NsgNode::new_empty(i as u32);
            node.neighbors = l.to_vec();
            node.neighbor_distances = vec![0; l.len()];
            node
        })
        .collect()
}

fn edges(graph: &[NsgNode]) -> Vec<Vec<u32>> {
    graph.iter().map(|n| n.active_neighbors().clone()).collect()
}

fn rng() -> StdRng {
    StdRng::seed_from_u64(7)
}

#[test]
fn an_empty_node() {
    let node = NsgNode::new_empty(5);
    assert_eq!(node.feature_index, 5);
    assert_eq!(node.neighbor_count(), 0);
    assert!(node.active_neighbors().is_empty());
}

#[test]
fn rank_goes_behind_equals() {
    let list = vec![(4usize, 1u32), (2, 3), (9, 3), (1, 8)];
    assert_eq!(rank_of(&list, 0), 0);
    assert_eq!(rank_of(&list, 3), 3);
    assert_eq!(rank_of(&list, 7), 3);
    assert_eq!(rank_of(&list, 8), 4);
}

#[test]
fn points_sorted_once() {
    let mut v = vec![5usize, 1, 5, 3, 1];
    sort_once(&mut v);
    assert_eq!(v, vec![1, 3, 5]);
    assert!(holds_point(&v, 3));
    assert!(!holds_point(&v, 4));
}

#[test]
fn a_draw_stands_for_an_index() {
    assert_eq!(index_of_draw(10, 3), 1);
    assert_eq!(index_of_draw(u64::MAX, 1), 0);
}

#[test]
fn scratch_visits_once_per_search() {
    let mut s = SearchScratch::new(3);
    assert!(!s.visit(1));
    s.begin(3);
    assert!(s.visit(1));
    assert!(!s.visit(1));
    s.mark(2);
    assert!(!s.visit(2));
    assert!(s.visit(0));
    s.begin(3);
    assert!(s.visit(1));
    s.begin(5);
    assert!(s.visit(4));
    let mut d = SearchScratch::default();
    d.begin(1);
    assert!(d.visit(0));
}

#[test]
fn search_with_a_full_pool_is_exact() {
    let features: Vec<u32> = vec![50, 10, 40, 20, 30];
    let g = graph(&[&[1], &[2], &[3], &[4], &[0]]);
    let mut scratch = SearchScratch::new(5);
    let (pool, seen) =
        best_first(&features, &g, 0, &NormalDistance, &mut rng(), &24, 10, &mut scratch);
    assert_eq!(pool, vec![(3, 4), (4, 6), (1, 14), (2, 16), (0, 26)]);
    assert_eq!(seen.len(), 5);
    assert_eq!(seen[0], (1, 14));
}

#[test]
fn search_follows_edges_to_the_nearest() {
    // a chain: whatever the random start, the pool of one walks to the target
    let features: Vec<u32> = (0..20).map(|i| i * 10).collect();
    let lists: Vec<Vec<u32>> = (0..20u32)
        .map(|i| if i == 0 { vec![1] } else if i == 19 { vec![18] } else { vec![i - 1, i + 1] })
        .collect();
    let refs: Vec<&[u32]> = lists.iter().map(|l| l.as_slice()).collect();
    let g = graph(&refs);
    let mut scratch = SearchScratch::new(20);
    let (pool, _) =
        best_first(&features, &g, 0, &NormalDistance, &mut rng(), &153, 1, &mut scratch);
    assert_eq!(pool, vec![(15, 3)]);
    let (none, seen) =
        best_first(&features, &g, 0, &NormalDistance, &mut rng(), &153, 0, &mut scratch);
    assert!(none.is_empty() && seen.is_empty());
}

#[test]
fn edges_are_picked_unless_occluded() {
    // seen from 0: 10 is kept; 12 is occluded by 10; -> 100 is not
    let features: Vec<u32> = vec![100, 110, 112, 0];
    let one = PruneFactor::from_bits(1.0f32.to_bits()).unwrap();
    let sorted = vec![(1usize, 10u32), (2, 12), (3, 100)];
    assert_eq!(
        pick_edges(&features, &NormalDistance, &one, 3, &sorted, 0, 3),
        vec![(1, 10), (3, 100), (2, 12)]
    );
    assert_eq!(
        pick_edges(&features, &NormalDistance, &one, 2, &sorted, 0, 3),
        vec![(1, 10), (3, 100)]
    );
    assert_eq!(
        pick_edges(&features, &NormalDistance, &one, 1, &sorted, 0, 3),
        vec![(1, 10)]
    );
}

#[test]
fn pruning_takes_the_present_edges_into_account() {
    let features: Vec<u32> = vec![100, 110, 112, 0];
    let one = PruneFactor::from_bits(1.0f32.to_bits()).unwrap();
    let g = graph(&[&[3, 1], &[], &[], &[]]);
    let mut candidates = vec![(0usize, 0u32), (1, 10), (2, 12)];
    let picked =
        prune_candidates(&features, &g, &NormalDistance, &one, 3, 10, 0, &mut candidates);
    assert_eq!(candidates, vec![(0, 0), (1, 10), (2, 12), (3, 100)]);
    assert_eq!(picked, vec![(1, 10), (3, 100), (2, 12)]);
    let mut alone = vec![(1usize, 0u32)];
    assert!(prune_candidates(&features, &g, &NormalDistance, &one, 3, 10, 1, &mut alone)
        .is_empty());
    let mut nothing: Vec<(usize, u32)> = vec![];
    assert!(prune_candidates(&features, &g, &NormalDistance, &one, 3, 10, 1, &mut nothing)
        .is_empty());
}

#[test]
fn edges_are_answered() {
    let features: Vec<u32> = vec![0, 1, 2, 50];
    let mut cut: Vec<Vec<(usize, u32)>> = vec![vec![], vec![(0, 1)], vec![(1, 1), (3, 48)], vec![]];
    let selected = vec![(1usize, 1u32), (2, 2), (3, 50)];
    answer_edges(&features, &NormalDistance, &default_factor(), 2, 0, &selected, &mut cut);
    // 1 has the edge already; 2 outgrows its degree and is picked anew
    assert_eq!(cut[1], vec![(0, 1)]);
    assert_eq!(cut[2].len(), 2);
    assert_eq!(cut[2][0], (1, 1));
    assert_eq!(cut[3], vec![(0, 50)]);
}

#[test]
fn linking_bounds_the_degree() {
    let features: Vec<u32> = (0..60u32).map(|i| (i * 37) % 101).collect();
    let lists: Vec<Vec<u32>> = (0..60u32).map(|i| vec![(i + 1) % 60, (i + 7) % 60]).collect();
    let refs: Vec<&[u32]> = lists.iter().map(|l| l.as_slice()).collect();
    let mut g = graph(&refs);
    link_graph(
        &features,
        &mut g,
        0,
        &NormalDistance,
        &mut rng(),
        &default_factor(),
        4,
        20,
        16,
    );
    for (i, node) in g.iter().enumerate() {
        assert!(node.neighbor_count() <= 4);
        assert_eq!(node.feature_index as usize, i);
        for (&end, &d) in node.neighbors.iter().zip(&node.neighbor_distances) {
            assert_eq!(d, features[i].abs_diff(features[end as usize]));
        }
        let mut ends = node.neighbors.clone();
        ends.sort();
        ends.dedup();
        assert_eq!(ends.len(), node.neighbors.len());
    }
}

#[test]
fn flags_what_is_reached() {
    let g = graph(&[&[1, 2], &[0], &[3], &[], &[5], &[4]]);
    let mut flags = vec![false; 6];
    let mut count = 0;
    flag_reached(&g, &mut flags, 0, &mut count);
    assert_eq!(flags, vec![true, true, true, true, false, false]);
    assert_eq!(count, 4);
    flag_reached(&g, &mut flags, 0, &mut count);
    assert_eq!(count, 4);
    flag_reached(&g, &mut flags, 5, &mut count);
    assert_eq!(flags, vec![true; 6]);
    assert_eq!(count, 6);
}

#[test]
fn links_the_first_unreached_to_its_nearest_reached() {
    let features: Vec<u32> = vec![0, 10, 20, 30];
    let mut g = graph(&[&[1], &[2], &[], &[]]);
    let flags = vec![true, true, true, false];
    let mut scratch = SearchScratch::new(4);
    let root = link_unreached(
        &features,
        &mut g,
        0,
        &NormalDistance,
        &mut rng(),
        4,
        &flags,
        &mut scratch,
    );
    assert_eq!(root, 2);
    assert_eq!(edges(&g), vec![vec![1], vec![2], vec![3], vec![]]);
    assert_eq!(g[2].neighbor_distances, vec![10]);
    let all = vec![true; 4];
    let root = link_unreached(
        &features,
        &mut g,
        1,
        &NormalDistance,
        &mut rng(),
        4,
        &all,
        &mut scratch,
    );
    assert_eq!(root, 1);
    assert_eq!(edges(&g), vec![vec![1], vec![2], vec![3], vec![]]);
}

#[test]
fn connecting_reaches_everything_and_drops_nothing() {
    let features: Vec<u32> = vec![0, 10, 20, 30, 40, 50];
    let before = vec![vec![1u32], vec![0], vec![3], vec![2], vec![], vec![4]];
    let refs: Vec<&[u32]> = before.iter().map(|l| l.as_slice()).collect();
    let mut g = graph(&refs);
    connect_graph(&features, &mut g, 0, &NormalDistance, &mut rng(), 6);
    let after = edges(&g);
    for (a, b) in before.iter().zip(&after) {
        assert_eq!(&b[..a.len()], &a[..]);
    }
    let mut flags = vec![false; 6];
    let mut count = 0;
    flag_reached(&g, &mut flags, 0, &mut count);
    assert_eq!(count, 6);
    assert_eq!(after[1], vec![0, 2]);
}

#[test]
fn chance_only_decides_where_a_search_starts() {
    let features: Vec<u32> = vec![50, 10, 40, 20, 30, 60];
    let g = graph(&[&[1, 2], &[3], &[5], &[4], &[0], &[0]]);
    let mut scratch = SearchScratch::new(6);
    let mut runs = Vec::new();
    for seed in 0..5 {
        let mut rng = StdRng::seed_from_u64(seed);
        let run =
            best_first(&features, &g, 0, &NormalDistance, &mut rng, &24, 2, &mut scratch);
        runs.push(run);
    }
    // Nodes 1 and 2 fill the pool; 1 is nearer and leads to 3, 3 to 4.
    assert_eq!(runs[0].1, vec![(1, 14), (2, 16), (3, 4), (4, 6), (0, 26)]);
    assert_eq!(runs[0].0, vec![(3, 4), (4, 6)]);
    assert!(runs.iter().all(|r| *r == runs[0]));
}
