use apotheosis::controllers::apotheosis::{frame, unframe, Apotheosis, Dump, FrameError};
use apotheosis::controllers::connect::flag_reached;
use apotheosis::controllers::join::join_hoods;
use apotheosis::controllers::layout::{push_word, word_at};
use apotheosis::controllers::metric_tree::MetricTreeInit;
use apotheosis::controllers::neighborhood::offer;
use apotheosis::controllers::nndescent::{NNDescent, Nhood, NndParams};
use apotheosis::controllers::nsg::{BuildConfig, LoadError, NndInit, Nsg, NsgParams};
use apotheosis::controllers::occlusion::default_factor;
use apotheosis::controllers::radix_tree::RadixNode;
use apotheosis::controllers::renew::{put_random, renew_hoods, trim_random};
use apotheosis::controllers::vantage::{collect_leaves, shuffled_points, vp_split};
use apotheosis::controllers::vp_forest::VpForest;
use apotheosis::datalayer::algorithms::{
    DistanceAlgorithm, Medoid, NormalDistance, SsdeepDistance, SsdeepHash, TlshDistance, TlshHash,
};
use apotheosis::datalayer::record::{SimpleNumberRecord, SimpleSsdeepRecord, SimpleTlshRecord};
use rand::rngs::StdRng;
use rand::SeedableRng;

fn rng() -> StdRng {
    StdRng::seed_from_u64(11)
}

fn numbers(n: u32) -> Vec<u32> {
    (0..n).map(|i| (i * 7919) % 100_003).collect()
}

fn config(init: NndInit) -> BuildConfig {
    BuildConfig {
        nsg: NsgParams { m: 8, c: 50, ef: 30, alpha: default_factor() },
        nnd: NndParams { k: 10, l: 20, s: 5, r: 10 },
        init,
        iter: 4,
        n_trees: 3,
        leaf_size: 8,
        seed: 42,
    }
}

fn hood(pool: Vec<(usize, u32, bool)>, nn_new: Vec<usize>, nn_old: Vec<usize>) -> Nhood {
    Nhood { pool, nn_new, nn_old, rnn_new: vec![], rnn_old: vec![], m: 0 }
}

// ---- vantage-point trees ----

#[test]
fn split_orders_by_distance_to_a_member() {
    let features: Vec<u32> = vec![40, 0, 10, 30, 20];
    let mut indices = vec![0, 1, 2, 3, 4];
    let lim = vp_split(&features, &NormalDistance, &mut indices, &mut rng());
    assert_eq!(lim, 2);
    let mut sorted = indices.clone();
    sorted.sort();
    assert_eq!(sorted, vec![0, 1, 2, 3, 4]);
    let pivot = features[indices[0]];
    let d: Vec<u32> = indices.iter().map(|&i| features[i].abs_diff(pivot)).collect();
    assert!(d.windows(2).all(|w| w[0] <= w[1]));
}

#[test]
fn leaves_hold_every_point_once() {
    let features = numbers(100);
    let mut leaves = vec![];
    let order = shuffled_points(100, &mut rng());
    collect_leaves(&features, &NormalDistance, 7, order, &mut rng(), &mut leaves);
    assert!(leaves.iter().all(|l| !l.is_empty() && l.len() <= 7));
    let mut all: Vec<usize> = leaves.concat();
    all.sort();
    assert_eq!(all, (0..100).collect::<Vec<_>>());
}

#[test]
fn candidates_are_mutual_and_sorted() {
    let features = numbers(60);
    let forest = VpForest::<NormalDistance, u32>::new(&features, 4, 6);
    let c = forest.candidate_neighbors(&mut rng());
    assert_eq!(c.len(), 60);
    for (p, list) in c.iter().enumerate() {
        assert!(list.windows(2).all(|w| w[0] < w[1]));
        assert!(!list.contains(&p));
        for &q in list {
            assert!(c[q].contains(&p));
        }
    }
}

#[test]
fn one_leaf_makes_all_points_candidates() {
    let features = numbers(5);
    let mt = MetricTreeInit::<NormalDistance, u32>::new(&features, 0, 100);
    let c = mt.candidate_neighbors(&mut rng());
    assert_eq!(c[2], vec![0, 1, 3, 4]);
    assert_eq!(c[0], vec![1, 2, 3, 4]);
}

#[test]
fn leaf_size_is_two_at_least() {
    let features: Vec<u32> = vec![0, 1, 100, 101];
    let mt = MetricTreeInit::<NormalDistance, u32>::new(&features, 1, 0);
    let c = mt.candidate_neighbors(&mut rng());
    assert_eq!(c, vec![vec![1], vec![0], vec![3], vec![2]]);
    let none: Vec<u32> = vec![];
    let empty = VpForest::<NormalDistance, u32>::new(&none, 1, 2);
    assert!(empty.candidate_neighbors(&mut rng()).is_empty());
}

// ---- NN-descent ----

#[test]
fn offer_to_a_pool() {
    let mut pool = vec![];
    offer(&mut pool, 3, 4, 10);
    offer(&mut pool, 3, 5, 5);
    offer(&mut pool, 3, 6, 10);
    assert_eq!(pool, vec![(5, 5, true), (4, 10, true), (6, 10, true)]);
    offer(&mut pool, 3, 7, 10);
    assert_eq!(pool.len(), 3);
    offer(&mut pool, 3, 4, 1);
    assert_eq!(pool, vec![(5, 5, true), (4, 10, true), (6, 10, true)]);
    offer(&mut pool, 3, 8, 7);
    assert_eq!(pool, vec![(5, 5, true), (8, 7, true), (4, 10, true)]);
}

#[test]
fn join_introduces_new_to_new_and_new_to_old() {
    let features: Vec<u32> = vec![0, 10, 25, 45];
    let mut g: Vec<Nhood> = (0..4).map(|_| hood(vec![], vec![], vec![])).collect();
    g[0].nn_new = vec![1, 2];
    g[0].nn_old = vec![3];
    join_hoods(&features, &mut g, &NormalDistance, 10);
    assert_eq!(g[0].pool, vec![]);
    assert_eq!(g[1].pool, vec![(2, 15, true), (3, 35, true)]);
    assert_eq!(g[2].pool, vec![(1, 15, true), (3, 20, true)]);
    assert_eq!(g[3].pool, vec![(2, 20, true), (1, 35, true)]);
}

#[test]
fn renewal_sorts_out_the_window() {
    let features: Vec<u32> = vec![0, 10, 25, 45];
    let mut g: Vec<Nhood> = (0..4).map(|_| hood(vec![], vec![], vec![])).collect();
    g[0].pool = vec![(1, 10, false), (2, 25, true), (3, 45, true)];
    g[0].m = 1;
    g[1].pool = vec![(0, 10, true)];
    g[2].pool = vec![(1, 15, true)];
    let params = NndParams { k: 3, l: 2, s: 1, r: 5 };
    renew_hoods::<NormalDistance, u32>(&features, &mut g, params, &mut rng());
    // the pool is cut to 2; the window goes on to the first marked entry
    assert_eq!(g[0].pool, vec![(1, 10, false), (2, 25, false)]);
    assert_eq!(g[0].m, 2);
    assert_eq!(g[0].nn_old, vec![1]);
    // node 2 holds nothing as far as 25, so that node 0 is a promising candidate
    assert_eq!(g[0].nn_new[0], 2);
    assert!(g[2].nn_new.contains(&0));
    assert!(g[2].rnn_new.is_empty());
}

#[test]
fn a_full_reservoir_replaces() {
    let mut list = vec![];
    for x in 0..3 {
        put_random(&mut list, 3, x, &mut rng());
    }
    assert_eq!(list, vec![0, 1, 2]);
    let pick = put_random(&mut list, 3, 9, &mut rng());
    assert_eq!(list[pick], 9);
    assert_eq!(list.len(), 3);
    let mut none: Vec<usize> = vec![];
    put_random(&mut none, 0, 1, &mut rng());
    assert!(none.is_empty());
}

#[test]
fn random_trim() {
    let mut list = vec![1usize, 2, 3];
    trim_random(&mut list, 3, &mut rng());
    assert_eq!(list, vec![1, 2, 3]);
    let mut long: Vec<usize> = (0..50).collect();
    trim_random(&mut long, 10, &mut rng());
    assert_eq!(long.len(), 10);
    long.sort();
    long.dedup();
    assert_eq!(long.len(), 10);
}

fn check_lists(features: &[u32], k: usize, lists: &[Vec<(usize, u32)>]) {
    assert_eq!(lists.len(), features.len());
    for (i, list) in lists.iter().enumerate() {
        assert!(list.len() <= k);
        assert!(list.windows(2).all(|w| w[0].1 <= w[1].1));
        let mut ends: Vec<usize> = list.iter().map(|e| e.0).collect();
        assert!(!ends.contains(&i));
        ends.sort();
        ends.dedup();
        assert_eq!(ends.len(), list.len());
        for &(j, d) in list {
            assert_eq!(d, features[i].abs_diff(features[j]));
        }
    }
}

#[test]
fn descent_from_random() {
    let features = numbers(80);
    let params = NndParams { k: 6, l: 15, s: 5, r: 8 };
    let mut nnd = NNDescent::<NormalDistance, u32>::new(&features, params);
    let start = nnd.build(0);
    check_lists(&features, 6, &start);
    assert!(start.iter().all(|l| l.len() == 5));
    let done = nnd.build(5);
    check_lists(&features, 6, &done);
    assert!(done.iter().all(|l| l.len() == 6));
}

#[test]
fn descent_from_trees_gets_no_worse() {
    let features = numbers(80);
    let params = NndParams { k: 6, l: 15, s: 5, r: 8 };
    let mut a = NNDescent::<NormalDistance, u32>::new(&features, params);
    let mut b = NNDescent::<NormalDistance, u32>::new(&features, params);
    let start = a.build_with_metric_tree(0, 2, 10);
    let done = b.build_with_metric_tree(6, 2, 10);
    check_lists(&features, 6, &start);
    check_lists(&features, 6, &done);
    for (s, d) in start.iter().zip(&done) {
        assert!(d.len() >= s.len());
        for (x, y) in s.iter().zip(d) {
            assert!(y.1 <= x.1);
        }
    }
}

#[test]
fn seeds_fix_the_outcome() {
    let features = numbers(80);
    let params = NndParams { k: 6, l: 15, s: 5, r: 8 };
    let mut a = NNDescent::<NormalDistance, u32>::new(&features, params);
    let mut b = NNDescent::<NormalDistance, u32>::new(&features, params);
    let mut c = NNDescent::<NormalDistance, u32>::new(&features, params);
    b.set_seed(42);
    c.set_seed(1);
    let x = a.build(0);
    assert_eq!(x, b.build(0));
    assert_ne!(x, c.build(0));
}

#[test]
fn default_sizes() {
    let p = NndParams::default();
    assert_eq!((p.k, p.l, p.s, p.r), (50, 400, 10, 200));
    let c = BuildConfig::default();
    assert_eq!((c.nsg.m, c.nsg.c, c.nsg.ef), (16, 500, 400));
    assert_eq!(c.nsg.alpha, default_factor());
    assert_eq!(c.init, NndInit::MetricTree);
    assert_eq!((c.iter, c.n_trees, c.leaf_size, c.seed), (10, 16, 32, 42));
}

// ---- the graph ----

fn built(init: NndInit) -> (Vec<u32>, Nsg<NormalDistance, u32>) {
    let features = numbers(150);
    let mut nsg = Nsg::<NormalDistance, u32>::new();
    nsg.build(features.clone(), &config(init));
    (features, nsg)
}

#[test]
fn every_node_is_reached() {
    for init in [NndInit::Random, NndInit::MetricTree] {
        let (features, nsg) = built(init);
        let mut flags = vec![false; features.len()];
        let mut count = 0;
        flag_reached(&nsg.nnd_graph, &mut flags, nsg.navigating_node, &mut count);
        assert_eq!(count, features.len());
        for (i, node) in nsg.nnd_graph.iter().enumerate() {
            assert_eq!(node.feature_index as usize, i);
        }
    }
}

#[test]
fn wide_search_is_exact() {
    let (features, mut nsg) = built(NndInit::MetricTree);
    for q in [0u32, 17, 5_000, 77_777, 200_000] {
        let r: Vec<(u32, usize, u32)> =
            nsg.knn_search(&q, 5, 1_000).into_iter().map(|(d, i, f)| (d, i, *f)).collect();
        let mut truth: Vec<u32> = features.iter().map(|f| f.abs_diff(q)).collect();
        truth.sort();
        assert_eq!(r.iter().map(|x| x.0).collect::<Vec<_>>(), truth[..5].to_vec());
        for (d, i, f) in r {
            assert_eq!(features[i], f);
            assert_eq!(d, f.abs_diff(q));
        }
    }
}

#[test]
fn narrow_search_is_sorted_and_short() {
    let (features, mut nsg) = built(NndInit::Random);
    assert_eq!(nsg.default_ef(), 30);
    let r = nsg.knn_search(&50_000, 4, 10);
    assert_eq!(r.len(), 4);
    assert!(r.windows(2).all(|w| w[0].0 <= w[1].0));
    assert_eq!(nsg.knn_search(&50_000, 40, 10).len(), 10);
    assert_eq!(nsg.knn_search(&50_000, 0, 10).len(), 0);
    assert_eq!(nsg.knn_search(&50_000, 3, 0).len(), 0);
    assert_eq!(nsg.knn_search(&50_000, 1_000, 1_000).len(), features.len());
}

#[test]
fn the_seed_of_the_configuration_fixes_the_graph() {
    let (_, a) = built(NndInit::MetricTree);
    let (_, b) = built(NndInit::MetricTree);
    assert_eq!(a.save(), b.save());
    let mut other = config(NndInit::MetricTree);
    other.seed = 7;
    let mut c = Nsg::<NormalDistance, u32>::new();
    c.build(numbers(150), &other);
    assert_ne!(a.save(), c.save());
    c.set_seed(9);
    assert_eq!(c.prng.seed(), 9);
}

#[test]
fn one_feature_makes_a_graph() {
    let mut nsg = Nsg::<NormalDistance, u32>::new();
    nsg.build(vec![5], &config(NndInit::MetricTree));
    let r = nsg.knn_search(&9, 3, 10);
    assert_eq!(r, vec![(4, 0, &5)]);
}

#[test]
fn node_and_neighbours() {
    let (features, nsg) = built(NndInit::MetricTree);
    let r = nsg.get_neighbors_node(3);
    assert_eq!(r[0], (0, 3, &features[3]));
    assert_eq!(r.len(), nsg.nnd_graph[3].neighbor_count() + 1);
    for (x, &end) in r[1..].iter().zip(&nsg.nnd_graph[3].neighbors) {
        assert_eq!(x.1, end as usize);
        assert_eq!(x.0, features[3].abs_diff(features[end as usize]));
    }
}

#[test]
fn loads_what_was_saved() {
    let (features, nsg) = built(NndInit::MetricTree);
    let bytes = nsg.save();
    let mut copy = Nsg::<NormalDistance, u32>::new();
    copy.features = features;
    assert_eq!(copy.load(&bytes), Ok(()));
    assert_eq!(copy.navigating_node, nsg.navigating_node);
    for (a, b) in copy.nnd_graph.iter().zip(&nsg.nnd_graph) {
        assert_eq!(a.neighbors, b.neighbors);
        assert_eq!(a.feature_index, b.feature_index);
        assert!(a.neighbor_distances.iter().all(|&d| d == u32::MAX));
    }
    assert_eq!(copy.save()[4..], bytes[4..]);
}

#[test]
fn layout_of_a_saved_graph() {
    let mut nsg = Nsg::<NormalDistance, u32>::new();
    assert_eq!(nsg.save(), vec![16, 0, 0, 0, 255, 255, 255, 255]);
    let mut bytes = vec![];
    for w in [9u32, 1, 2, 0x0102_0304, 7, 0] {
        push_word(&mut bytes, w);
    }
    assert_eq!(word_at(&bytes, 3), Some(0x0102_0304));
    assert_eq!(word_at(&bytes, 6), None);
    assert_eq!(bytes[12..16], [4, 3, 2, 1]);
    bytes.push(1);
    assert_eq!(nsg.load(&bytes), Ok(()));
    assert_eq!(nsg.navigating_node, 1);
    assert_eq!(nsg.nnd_graph.len(), 2);
    assert_eq!(nsg.nnd_graph[0].neighbors, vec![0x0102_0304, 7]);
    assert_eq!(nsg.nnd_graph[1].neighbors, Vec::<u32>::new());
    assert_eq!(nsg.m, 16);
}

#[test]
fn truncated_graphs() {
    let mut nsg = Nsg::<NormalDistance, u32>::new();
    assert_eq!(nsg.load(&[]), Err(LoadError::Truncated));
    assert_eq!(nsg.load(&[1, 0, 0, 0, 2, 0, 0]), Err(LoadError::Truncated));
    assert_eq!(nsg.navigating_node, usize::MAX);
    // one whole node, then one that lacks its second edge
    let mut bytes = vec![];
    for w in [9u32, 1, 1, 5, 2, 6] {
        push_word(&mut bytes, w);
    }
    assert_eq!(nsg.load(&bytes), Err(LoadError::Truncated));
    assert_eq!(nsg.navigating_node, 1);
    assert_eq!(nsg.nnd_graph.len(), 1);
}

// ---- the radix tree ----

#[test]
fn radix_tree_holds_what_was_put() {
    let mut tree: RadixNode<u8, usize> = RadixNode::new(vec![], None);
    let keys = ["romane", "romanus", "romulus", "rubens", "ruber", "rubicon", "rom", "", "r"];
    for (i, k) in keys.iter().enumerate() {
        assert!(tree.find(k.as_bytes()).is_none(), "{k}");
        tree.insert(k.as_bytes().to_vec(), i);
    }
    for (i, k) in keys.iter().enumerate() {
        assert_eq!(tree.find(k.as_bytes()).unwrap().data, Some(i));
    }
    for k in ["ro", "roma", "romanes", "x", "rub", "rubiconx"] {
        assert!(tree.find(k.as_bytes()).is_none(), "{k}");
    }
    tree.insert(b"rom".to_vec(), 99);
    assert_eq!(tree.find(b"rom").unwrap().data, Some(99));
    assert_eq!(tree.find(b"romane").unwrap().data, Some(0));
}

// ---- the store ----

fn tlsh(i: usize) -> String {
    let mut x: u64 = i as u64 + 1;
    let mut s = String::from("T1");
    for _ in 0..70 {
        x = x.wrapping_mul(6364136223846793005).wrapping_add(1442695040888963407);
        s.push(char::from_digit((x >> 60) as u32, 16).unwrap().to_ascii_uppercase());
    }
    s
}

fn store(n: usize) -> Apotheosis<SimpleTlshRecord, TlshDistance> {
    let mut a = Apotheosis::<SimpleTlshRecord, TlshDistance>::new(config(NndInit::MetricTree));
    assert!(a.insert((0..n).map(|i| SimpleTlshRecord::create(tlsh(i))).collect()));
    a
}

#[test]
fn records_that_share_a_key_are_kept_once() {
    let mut a = Apotheosis::<SimpleTlshRecord, TlshDistance>::new(config(NndInit::MetricTree));
    let lower = format!("T1{}", tlsh(1)[2..].to_lowercase());
    let list = vec![tlsh(0), tlsh(1), tlsh(0), lower, tlsh(2)];
    a.insert(list.into_iter().map(SimpleTlshRecord::create).collect());
    let kept: Vec<String> = a.records.iter().map(|r| r.hash.0.clone()).collect();
    assert_eq!(kept, vec![tlsh(0), tlsh(1), tlsh(2)]);
    assert_eq!(a.radix.find(tlsh(2).as_bytes()).unwrap().data, Some(Some(2)));
}

#[test]
fn an_indexed_query_is_answered_with_its_record_first() {
    let mut a = store(60);
    for i in 0..60 {
        let q = TlshHash::parse(&tlsh(i)).unwrap();
        let r = a.search(&q, 3, None);
        assert!(r.len() <= 3);
        assert_eq!(r[0].0, 0);
        assert_eq!(r[0].1.hash.0, tlsh(i));
        assert!(r.windows(2).all(|w| w[0].0 <= w[1].0));
    }
    let q = TlshHash::parse(&tlsh(5)).unwrap();
    assert!(a.search(&q, 0, None).is_empty());
}

#[test]
fn another_query_is_searched_for() {
    let mut a = store(60);
    let text = tlsh(1_000);
    let q = TlshHash::parse(&text).unwrap();
    let r: Vec<u32> = a.search(&q, 4, Some(60)).iter().map(|x| x.0).collect();
    let digest: tlsh2::TlshDefault = text.parse().unwrap();
    let mut truth: Vec<u32> = (0..60)
        .map(|i| tlsh(i).parse::<tlsh2::TlshDefault>().unwrap().diff(&digest, true) as u32)
        .collect();
    truth.sort();
    assert_eq!(r, truth[..4].to_vec());
    assert_eq!(a.search(&q, 10, None).len(), 10);
    assert_eq!(a.search(&q, 10, Some(2)).len(), 2);
}

#[test]
fn records_without_keys_are_all_kept() {
    let mut a = Apotheosis::<SimpleNumberRecord, NormalDistance>::new(config(NndInit::Random));
    let list: Vec<SimpleNumberRecord> =
        [5u32, 9, 5, 30, 9, 5, 7].iter().map(|&number| SimpleNumberRecord { number }).collect();
    a.insert(list);
    assert_eq!(a.records.len(), 7);
    let r: Vec<u32> = a.search(&8, 4, Some(7)).iter().map(|x| x.1.number).collect();
    let mut sorted = r.clone();
    sorted.sort();
    assert_eq!(sorted[1..], [7, 9, 9]);
    assert_eq!(a.search(&8, 4, Some(7))[0].0, 1);
}

#[test]
fn setting_the_seed_of_a_store() {
    let mut a = store(10);
    a.set_seed(5);
    assert_eq!(a.config.seed, 5);
    assert_eq!(a.nsg.prng.seed(), 5);
    assert!(a.nsg.order.is_empty());
    assert_eq!(a.records.len(), 10);
}

#[test]
fn frames() {
    let bytes = frame(&[1, 2, 3]);
    assert_eq!(bytes, b"APOT\x01\x02\x03".to_vec());
    assert_eq!(unframe(&bytes), Ok(vec![1, 2, 3]));
    assert_eq!(unframe(&frame(&[])), Ok(vec![]));
    assert_eq!(unframe(b"APO"), Err(FrameError::Truncated));
    assert_eq!(unframe(b"APOTH"[..4].as_ref()), Ok(vec![]));
    assert_eq!(unframe(b"APOS1234"), Err(FrameError::MissingMagic));
}

// ---- signatures under a distance of the caller's own ----

/// Ten points of score for each character that two texts begin with alike.
#[derive(Default)]
struct SharedStart;

impl DistanceAlgorithm<SsdeepHash> for SharedStart {
    fn admits(_id: SsdeepHash) -> bool {
        true
    }

    fn distance(a: SsdeepHash, b: SsdeepHash) -> u32 {
        SharedStart.calculate_distance(&a, &b)
    }

    fn calculate_distance(&self, a: &SsdeepHash, b: &SsdeepHash) -> u32 {
        let same = a.0.chars().zip(b.0.chars()).take_while(|(x, y)| x == y).count();
        SsdeepDistance.from_score(Some((10 * same).min(100) as u8))
    }
}

fn signature(text: &str) -> SsdeepHash {
    SsdeepHash(text.to_string())
}

#[test]
fn medoid_of_signatures() {
    let all = [signature("xyz"), signature("abc"), signature("abd"), signature("abe")];
    let center: SsdeepHash = <SsdeepHash as Medoid<SharedStart>>::medoid(&all);
    assert_eq!(center.0, "abc");
}

#[test]
fn signatures_are_stored_by_their_text() {
    let texts: Vec<String> = (0..40).map(|i| format!("{}:{}", i % 4, i)).collect();
    let mut records: Vec<SimpleSsdeepRecord> =
        texts.iter().map(|t| SimpleSsdeepRecord::create(t.clone())).collect();
    records.push(SimpleSsdeepRecord::create(texts[3].clone()));
    let mut store = Apotheosis::<SimpleSsdeepRecord, SharedStart>::new(config(NndInit::MetricTree));
    store.insert(records);
    assert_eq!(store.records.len(), 40);
    assert!(store.is_structured());
    for t in &texts {
        assert_eq!(store.search(&signature(t), 1, None)[0].1.hash.0, *t);
    }
    let found = store.search(&signature("2:3"), 3, Some(40));
    assert_eq!(found.len(), 3);
    assert!(found.iter().all(|(d, r)| *d <= 80 && r.hash.0.starts_with("2:")));
}

#[test]
fn a_store_put_together_wrongly_is_noticed() {
    assert!(store(30).is_structured());
    let mut lost = store(30);
    lost.records.pop();
    assert!(!lost.is_structured());
    let mut astray = store(30);
    astray.nsg.nnd_graph[4].neighbors.push(30);
    assert!(!astray.is_structured());
    let mut far = store(30);
    far.nsg.navigating_node = 30;
    assert!(!far.is_structured());
    let mut beyond = store(30);
    beyond.radix.insert(vec![1, 2, 3], Some(30));
    assert!(!beyond.is_structured());
}

// ---- searching again, and from a dump ----

fn dumped(a: Apotheosis<SimpleTlshRecord, TlshDistance>) -> Dump<SimpleTlshRecord> {
    Dump {
        features: a.nsg.features,
        nnd_graph: a.nsg.nnd_graph,
        navigating_node: a.nsg.navigating_node,
        alpha: a.nsg.alpha,
        m: a.nsg.m,
        c: a.nsg.c,
        ef: a.nsg.ef,
        radix: a.radix,
        records: a.records,
    }
}

fn far_answers(a: &mut Apotheosis<SimpleTlshRecord, TlshDistance>) -> Vec<Vec<(u32, String)>> {
    (100..120)
        .map(|i| {
            let q = TlshHash::parse(&tlsh(i)).unwrap();
            a.search(&q, 5, Some(9)).iter().map(|&(d, r)| (d, r.hash.0.clone())).collect()
        })
        .collect()
}

#[test]
fn asked_twice_a_store_answers_the_same() {
    let mut a = store(60);
    let first = far_answers(&mut a);
    let order = a.nsg.order.clone();
    assert_eq!(order.len(), 60);
    assert_eq!(far_answers(&mut a), first);
    assert_eq!(a.nsg.order, order);
    let q = TlshHash::parse(&tlsh(7)).unwrap();
    let once: Vec<u32> = a.search(&q, 4, None).iter().map(|x| x.0).collect();
    let twice: Vec<u32> = a.search(&q, 4, None).iter().map(|x| x.0).collect();
    assert_eq!(once, twice);
}

#[test]
fn a_restored_store_searches_alike_from_the_same_seed() {
    let mut a = store(60);
    let b = store(60);
    let mut c = Apotheosis::<SimpleTlshRecord, TlshDistance>::restore(dumped(b));
    assert_eq!(c.config.iter, 10);
    assert_eq!(c.nsg.prng.seed(), 42);
    assert_eq!(c.nsg.save(), a.nsg.save());
    a.set_seed(3);
    c.set_seed(3);
    let answers = far_answers(&mut a);
    assert_eq!(far_answers(&mut c), answers);
    assert_eq!(a.nsg.order, c.nsg.order);
    a.set_seed(3);
    assert_eq!(far_answers(&mut a), answers);
    a.set_seed(4);
    far_answers(&mut a);
    assert_ne!(a.nsg.order, c.nsg.order);
}

#[test]
fn a_dump_that_does_not_fit_is_noticed() {
    let mut dump = dumped(store(10));
    dump.navigating_node = 10;
    let a = Apotheosis::<SimpleTlshRecord, TlshDistance>::restore(dump);
    assert_eq!(a.nsg.navigating_node, 10);
    assert!(!a.is_structured());
}

#[test]
fn an_empty_store_is_restored() {
    let a = Apotheosis::<SimpleTlshRecord, TlshDistance>::new(config(NndInit::Random));
    let mut b = Apotheosis::<SimpleTlshRecord, TlshDistance>::restore(dumped(a));
    assert!(b.records.is_empty() && b.nsg.features.is_empty());
    assert_eq!(b.nsg.navigating_node, usize::MAX);
    assert_eq!(b.config.seed, 42);
    b.insert((0..12).map(|i| SimpleTlshRecord::create(tlsh(i))).collect());
    assert_eq!(b.records.len(), 12);
}

#[test]
fn a_store_that_was_filled_twice() {
    let mut a = store(30);
    a.insert((25..40).map(|i| SimpleTlshRecord::create(tlsh(i))).collect());
    let kept: Vec<String> = a.records.iter().map(|r| r.hash.0.clone()).collect();
    assert_eq!(kept, (30..40).map(tlsh).collect::<Vec<_>>());
    // The keys of the first records are still there, and name more than is kept.
    assert_eq!(a.radix.find(tlsh(20).as_bytes()).unwrap().data, Some(Some(20)));
    assert!(!a.is_structured());
    let known = TlshHash::parse(&tlsh(33)).unwrap();
    assert_eq!(a.search(&known, 2, None)[0].1.hash.0, tlsh(33));
    let unknown = TlshHash::parse(&tlsh(500)).unwrap();
    assert_eq!(a.search(&unknown, 4, Some(10)).len(), 4);
    let mut b = Apotheosis::<SimpleTlshRecord, TlshDistance>::restore(dumped(a));
    assert_eq!(b.records.len(), 10);
    assert_eq!(b.radix.find(tlsh(20).as_bytes()).unwrap().data, Some(Some(20)));
    assert_eq!(b.search(&known, 2, None)[0].1.hash.0, tlsh(33));
}

#[test]
fn an_edge_from_a_node_to_itself_names_no_record_twice() {
    let mut a = store(20);
    a.nsg.nnd_graph[4].neighbors.push(4);
    let q = TlshHash::parse(&tlsh(4)).unwrap();
    let degree = a.nsg.nnd_graph[4].neighbor_count();
    let r: Vec<String> = a.search(&q, 100, None).iter().map(|x| x.1.hash.0.clone()).collect();
    assert_eq!(r.len(), degree);
    assert_eq!(r.iter().filter(|t| **t == tlsh(4)).count(), 1);
}

#[test]
fn connecting_goes_beyond_the_picked_degree() {
    let mut cfg = config(NndInit::MetricTree);
    cfg.nsg.m = 1;
    let mut nsg = Nsg::<NormalDistance, u32>::new();
    nsg.build(vec![0, 1, 1000, 1001], &cfg);
    let degrees: Vec<usize> = nsg.nnd_graph.iter().map(|n| n.neighbor_count()).collect();
    assert_eq!(degrees.iter().sum::<usize>(), 5);
    assert_eq!(*degrees.iter().max().unwrap(), 2);
}

#[test]
fn both_forests_draw_the_same_candidates() {
    let features = numbers(80);
    let a = VpForest::<NormalDistance, u32>::new(&features, 3, 7).candidate_neighbors(&mut rng());
    let b =
        MetricTreeInit::<NormalDistance, u32>::new(&features, 3, 7).candidate_neighbors(&mut rng());
    assert_eq!(a, b);
}
