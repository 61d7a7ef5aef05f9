//! The navigating spreading-out graph.

pub use crate::controllers::search::SearchScratch;

use crate::controllers::connect::{
    added, connect_graph, connect_outcome, extended, grown, lemma_extended_degree, reaches,
};
use crate::controllers::layout::{
    graph_words, lemma_graph_back, node_words, nodes_from, push_word, whole_from, word_at,
    word_bytes, words_of,
};
use crate::controllers::link::{
    all_sound, edge_columns, edge_lists, link_graph, link_outcome, sound_list, stores,
};
use crate::controllers::neighborhood::{sound_entries, sound_hoods, Hood, NndParams};
use crate::controllers::nndescent::{
    descent, nearest, random_start, sound_graph, tree_start, NNDescent,
};
use crate::controllers::occlusion::{default_factor, PruneFactor};
use crate::controllers::search::{
    best_first, greater, lemma_full_pool_is_exact, lesser, search_outcome, steady_first,
    steady_outcome,
};
use crate::controllers::vantage::shuffled_points;
use crate::datalayer::algorithms::{all_admitted, DistanceAlgorithm, Medoid};
use crate::datalayer::nodes::{adjacency, graph_on, simple, NsgNode};
use crate::order::{permutation, Entry};
use crate::random::{random_index, seeded_state, Prng};
use vstd::prelude::*;

verus! {

// ---------------------------------------------------------------------------
// Configuration
// ---------------------------------------------------------------------------

/// How an NN-descent starts.
#[derive(Clone, Copy, Debug, PartialEq, Eq, Structural)]
pub enum NndInit {
    /// From random neighbours.
    Random,
    /// From the leaves of vantage-point trees.
    MetricTree,
}

/// Sizes of the graph.
#[derive(Clone, Copy, Debug)]
pub struct NsgParams {
    /// Greatest number of edges that are picked for a node.
    pub m: usize,
    /// Number of candidates that edges are picked from.
    pub c: usize,
    /// Pool size of the searches during construction.
    pub ef: usize,
    /// Scale of the occlusion test.
    pub alpha: PruneFactor,
}

impl Default for NsgParams {
    fn default() -> (p: Self)
        ensures
            p.m == 16,
            p.c == 500,
            p.ef == 400,
            p.alpha.wf(),
            p.alpha == (PruneFactor { significand: 10066330, exponent: -23i32 }),
    {
        NsgParams { m: 16, c: 500, ef: 400, alpha: default_factor() }
    }
}

/// Everything that a construction goes by.
#[derive(Clone, Copy, Debug)]
pub struct BuildConfig {
    pub nsg: NsgParams,
    pub nnd: NndParams,
    pub init: NndInit,
    /// Rounds of NN-descent.
    pub iter: usize,
    /// Number of vantage-point trees.
    pub n_trees: usize,
    /// Greatest number of points in a leaf of a tree.
    pub leaf_size: usize,
    /// Seed of the generators used for construction.
    pub seed: u64,
}

/// What a construction goes by where nothing is said.
pub open spec fn default_config() -> BuildConfig {
    BuildConfig {
        nsg: NsgParams {
            m: 16,
            c: 500,
            ef: 400,
            alpha: PruneFactor { significand: 10066330, exponent: -23i32 },
        },
        nnd: NndParams { k: 50, l: 400, s: 10, r: 200 },
        init: NndInit::MetricTree,
        iter: 10,
        n_trees: 16,
        leaf_size: 32,
        seed: 42,
    }
}

impl Default for BuildConfig {
    fn default() -> (c: Self)
        ensures
            c == default_config(),
            c.nsg.alpha.wf(),
    {
        BuildConfig {
            nsg: NsgParams::default(),
            nnd: NndParams::default(),
            init: NndInit::MetricTree,
            iter: 10,
            n_trees: 16,
            leaf_size: 32,
            seed: 42,
        }
    }
}

// ---------------------------------------------------------------------------
// What a construction comes to
// ---------------------------------------------------------------------------

/// The targets of the edges in `lists`.
pub open spec fn targets(lists: Seq<Seq<Entry>>) -> Seq<Seq<u32>> {
    Seq::new(lists.len(), |i: int| lists[i].map_values(|e: Entry| e.0 as u32))
}

/// `lists` are nearest neighbours by an NN-descent as configured.
pub open spec fn knn_lists<D: DistanceAlgorithm<ID>, ID>(
    features: Seq<ID>,
    cfg: BuildConfig,
    lists: Seq<Seq<Entry>>,
) -> bool {
    exists|trace: Seq<Seq<Hood>>|
        {
            &&& #[trigger] descent::<D, ID>(features, cfg.nnd, cfg.iter as int, trace)
            &&& match cfg.init {
                NndInit::Random => random_start::<D, ID>(features, cfg.nnd.s as int, trace[0]),
                NndInit::MetricTree => tree_start::<D, ID>(
                    features,
                    cfg.nnd,
                    greater(cfg.n_trees as int, 1),
                    greater(cfg.leaf_size as int, 2),
                    trace[0],
                ),
            }
            &&& sound_hoods::<D, ID>(features, trace[0])
            &&& lists == nearest(trace.last(), cfg.nnd.k as int)
        }
}

/// `node` is what a search for `center` from a random node found nearest.
pub open spec fn navigates<D: DistanceAlgorithm<ID>, ID>(
    features: Seq<ID>,
    adj: Seq<Seq<u32>>,
    ef: int,
    center: ID,
    node: int,
) -> bool {
    exists|start: int, pool: Seq<Entry>, seen: Seq<Entry>|
        {
            &&& 0 <= start < features.len()
            &&& #[trigger] search_outcome::<D, ID>(features, adj, start, center, ef, pool, seen)
            &&& node == if pool.len() > 0 {
                pool[0].0 as int
            } else {
                start
            }
        }
}

/// The graph `adj` with the entry point `enter` is what a construction comes to:
/// nearest neighbours (`lists`), edges picked (`chosen`) and answered (`cut`)
/// among them, and edges added until every node is reached (`steps`).
///
/// A node has `m` edges at most (one at least is allowed) before edges are added,
/// and then one more for every step that links from it.
pub open spec fn build_outcome<D: DistanceAlgorithm<ID>, ID: Medoid<D>>(
    features: Seq<ID>,
    cfg: BuildConfig,
    enter: int,
    adj: Seq<Seq<u32>>,
    lists: Seq<Seq<Entry>>,
    chosen: Seq<Seq<Entry>>,
    cut: Seq<Seq<Entry>>,
    steps: Seq<(int, int)>,
) -> bool {
    let sizes = (cfg.nsg.m as int, cfg.nsg.c as int, cfg.nsg.ef as int);
    &&& knn_lists::<D, ID>(features, cfg, lists)
    &&& sound_graph::<D, ID>(features, cfg.nnd.k as int, lists)
    &&& navigates::<D, ID>(
        features,
        targets(lists),
        sizes.2,
        <ID as Medoid<D>>::center(features),
        enter,
    )
    &&& link_outcome::<D, ID>(
        features,
        targets(lists),
        enter,
        sizes,
        cfg.nsg.alpha,
        chosen,
        cut,
    )
    &&& all_sound::<D, ID>(features, sizes.0, true, cut)
    &&& connect_outcome::<D, ID>(features, targets(cut), enter, sizes.2, steps)
    &&& adj == extended(targets(cut), steps)
    &&& adj.len() == cut.len()
    &&& forall|x: int|
        0 <= x < cut.len() ==> {
            &&& (#[trigger] cut[x]).len() <= greater(cfg.nsg.m as int, 1)
            &&& adj[x].len() == cut[x].len() + added(steps, x)
        }
}

/// The edges of `graph` carry distances: those of `cut` as they stand there, and
/// those added behind them as measured from where the edge starts.
pub open spec fn carries<D: DistanceAlgorithm<ID>, ID>(
    features: Seq<ID>,
    cut: Seq<Seq<Entry>>,
    graph: Seq<NsgNode>,
) -> bool {
    &&& graph.len() == cut.len()
    &&& forall|x: int|
        0 <= x < graph.len() ==> carried::<D, ID>(features, x, cut[x], #[trigger] graph[x])
}

/// The same of the edges of node `x`.
pub open spec fn carried<D: DistanceAlgorithm<ID>, ID>(
    features: Seq<ID>,
    x: int,
    list: Seq<Entry>,
    node: NsgNode,
) -> bool {
    let k = list.len() as int;
    &&& k <= node.neighbors@.len()
    &&& node.neighbor_distances@.len() == node.neighbors@.len()
    &&& node.neighbor_distances@.take(k) == list.map_values(|e: Entry| e.1)
    &&& forall|i: int|
        k <= i < node.neighbors@.len() ==> #[trigger] node.neighbor_distances@[i] == D::distance(
            features[x],
            features[node.neighbors@[i] as int],
        )
}

/// What a search gives out: of the pool the first `k`, distance first.
pub open spec fn found<ID>(
    features: Seq<ID>,
    pool: Seq<Entry>,
    k: int,
    r: Seq<(u32, usize, &ID)>,
) -> bool {
    &&& r.len() == lesser(k, pool.len() as int)
    &&& forall|i: int|
        0 <= i < r.len() ==> {
            &&& (#[trigger] r[i]).0 == pool[i].1
            &&& r[i].1 == pool[i].0
            &&& *r[i].2 == features[pool[i].0 as int]
        }
}

proof fn lemma_stored_targets(graph: Seq<NsgNode>, lists: Seq<Seq<Entry>>)
    requires
        stores(graph, lists),
    ensures
        adjacency(graph) == targets(lists),
{
    assert(adjacency(graph) =~= targets(lists)) by {
        assert forall|i: int| 0 <= i < graph.len() implies #[trigger] adjacency(graph)[i]
            == targets(lists)[i] by {
            assert(graph[i].neighbors@ == lists[i].map_values(|e: Entry| e.0 as u32));
        }
    }
}

/// Nearest neighbours make a graph without double edges.
pub(crate) proof fn lemma_targets_simple<D: DistanceAlgorithm<ID>, ID>(
    features: Seq<ID>,
    k: int,
    lists: Seq<Seq<Entry>>,
)
    requires
        sound_graph::<D, ID>(features, k, lists),
        features.len() <= 0x1_0000_0000,
    ensures
        graph_on(targets(lists), features.len() as int),
        simple(targets(lists)),
{
    let adj = targets(lists);
    assert forall|i: int, j: int| 0 <= i < adj.len() && 0 <= j < adj[i].len() implies (
    #[trigger] adj[i][j]) < features.len() by {
        assert(sound_entries::<D, ID>(features, i, lists[i]));
        assert(lists[i][j].0 < features.len());
    }
    assert forall|i: int| 0 <= i < adj.len() implies (#[trigger] adj[i]).no_duplicates() by {
        assert(sound_entries::<D, ID>(features, i, lists[i]));
        assert forall|a: int, b: int|
            0 <= a < adj[i].len() && 0 <= b < adj[i].len() && a != b implies adj[i][a]
            != adj[i][b] by {
            assert(lists[i][a].0 < features.len());
            assert(lists[i][b].0 < features.len());
            if a < b {
                assert(lists[i][a].0 != lists[i][b].0);
            } else {
                assert(lists[i][b].0 != lists[i][a].0);
            }
        }
    }
}

/// A graph with the edges of `lists`.
fn nodes_of(lists: &Vec<Vec<Entry>>) -> (graph: Vec<NsgNode>)
    requires
        lists@.len() <= 0x1_0000_0000,
    ensures
        stores(graph@, edge_lists(lists@)),
        forall|i: int| 0 <= i < graph@.len() ==> (#[trigger] graph@[i]).feature_index == i,
{
    let n: usize = lists.len();
    let mut graph: Vec<NsgNode> = Vec::with_capacity(n);
    let mut i: usize = 0;
    while i < n
        invariant
            n == lists@.len(),
            n <= 0x1_0000_0000,
            i <= n,
            graph@.len() == i,
            forall|j: int|
                0 <= j < i ==> {
                    &&& (#[trigger] graph@[j]).feature_index == j
                    &&& graph@[j].neighbors@ == lists@[j]@.map_values(|e: Entry| e.0 as u32)
                    &&& graph@[j].neighbor_distances@ == lists@[j]@.map_values(|e: Entry| e.1)
                },
        decreases n - i,
    {
        let mut node: NsgNode = NsgNode::new_empty(i as u32);
        let (ends, distances) = edge_columns(&lists[i]);
        node.neighbors = ends;
        node.neighbor_distances = distances;
        graph.push(node);
        i = i + 1;
    }
    graph
}

/// Nearest neighbours by the NN-descent `nnd`, with its generator at the seed of
/// the configuration.
fn neighbor_lists<D, ID>(nnd: NNDescent<D, ID>, cfg: &BuildConfig) -> (built: Vec<
    Vec<Entry>,
>) where D: DistanceAlgorithm<ID> + Default
    requires
        nnd.generator_state() == seeded_state(cfg.seed),
        nnd.sizes() == cfg.nnd,
        nnd.points_over().len() > 0,
        all_admitted::<D, ID>(nnd.points_over()),
        cfg.init == NndInit::Random ==> cfg.nnd.s < nnd.points_over().len(),
    ensures
        knn_lists::<D, ID>(nnd.points_over(), *cfg, edge_lists(built@)),
        sound_graph::<D, ID>(nnd.points_over(), cfg.nnd.k as int, edge_lists(built@)),
{
    let ghost features = nnd.points_over();
    let mut nnd = nnd;
    let built: Vec<Vec<Entry>> = match cfg.init {
        NndInit::Random => nnd.build(cfg.iter),
        NndInit::MetricTree => nnd.build_with_metric_tree(
            cfg.iter,
            cfg.n_trees,
            cfg.leaf_size,
        ),
    };
    assert(knn_lists::<D, ID>(features, *cfg, edge_lists(built@)));
    built
}

// ---------------------------------------------------------------------------
// The graph
// ---------------------------------------------------------------------------

/// A graph over features in which a greedy search from one entry point finds the
/// neighbours of a query.
pub struct Nsg<D, ID> where ID: Clone, D: DistanceAlgorithm<ID> + Default {
    pub features: Vec<ID>,
    pub nnd_graph: Vec<NsgNode>,
    /// The entry point; out of range before anything was built.
    pub navigating_node: usize,
    pub prng: Prng,
    /// The nodes in the order in which they make up the pool of a search; drawn
    /// by the first search.
    pub order: Vec<usize>,
    pub distance: D,
    pub alpha: PruneFactor,
    pub m: usize,
    pub c: usize,
    pub ef: usize,
}

impl<D, ID> Nsg<D, ID> where ID: Clone, D: DistanceAlgorithm<ID> + Default {
    /// The edges.
    pub open spec fn edges(&self) -> Seq<Seq<u32>> {
        adjacency(self.nnd_graph@)
    }

    /// The graph can be searched: it has a node for every feature, edges between
    /// those, an entry point, and features that can be measured.
    pub open spec fn searchable(&self) -> bool {
        &&& all_admitted::<D, ID>(self.features@)
        &&& graph_on(self.edges(), self.features@.len() as int)
        &&& self.navigating_node < self.features@.len()
    }

    /// All but the generator and the order is as in `other`.
    pub open spec fn same_graph(&self, other: &Self) -> bool {
        &&& self.features == other.features
        &&& self.nnd_graph == other.nnd_graph
        &&& self.navigating_node == other.navigating_node
        &&& self.distance == other.distance
        &&& self.alpha == other.alpha
        &&& self.m == other.m
        &&& self.c == other.c
        &&& self.ef == other.ef
        &&& self.prng.origin() == other.prng.origin()
    }

    /// A graph over nothing.
    pub fn new() -> (r: Self)
        ensures
            r.features@.len() == 0,
            r.nnd_graph@.len() == 0,
            r.navigating_node == usize::MAX,
            r.prng.origin() == 42,
            r.prng.state() == seeded_state(42),
            r.order@.len() == 0,
            r.alpha == (PruneFactor { significand: 10066330, exponent: -23i32 }),
            r.alpha.wf(),
            r.m == 16,
            r.c == 500,
            r.ef == 400,
    {
        let p: NsgParams = NsgParams::default();
        Nsg {
            features: Vec::new(),
            nnd_graph: Vec::new(),
            navigating_node: usize::MAX,
            prng: Prng::seeded(42),
            order: Vec::new(),
            distance: D::default(),
            alpha: p.alpha,
            m: p.m,
            c: p.c,
            ef: p.ef,
        }
    }

    /// Starts the generator over from `seed`; the next search draws an order anew.
    pub fn set_seed(&mut self, seed: u64)
        ensures
            final(self).prng.origin() == seed,
            final(self).prng.state() == seeded_state(seed),
            final(self).order@.len() == 0,
            final(self).features == old(self).features,
            final(self).nnd_graph == old(self).nnd_graph,
            final(self).navigating_node == old(self).navigating_node,
            final(self).distance == old(self).distance,
            final(self).alpha == old(self).alpha,
            final(self).m == old(self).m,
            final(self).c == old(self).c,
            final(self).ef == old(self).ef,
    {
        self.prng = Prng::seeded(seed);
        self.order = Vec::new();
    }

    /// The pool size that the graph was built with.
    pub fn default_ef(&self) -> (ef: usize)
        ensures
            ef == self.ef,
    {
        self.ef
    }

    /// Makes the node nearest to the centre of the features the entry point.
    fn init_graph(&mut self) where ID: Medoid<D>
        requires
            old(self).features@.len() > 0,
            all_admitted::<D, ID>(old(self).features@),
            graph_on(old(self).edges(), old(self).features@.len() as int),
            forall|i: int|
                0 <= i < old(self).features@.len() ==> <ID as Medoid<D>>::ranks(
                    #[trigger] old(self).features@[i],
                ),
        ensures
            final(self).navigating_node < old(self).features@.len(),
            navigates::<D, ID>(
                old(self).features@,
                old(self).edges(),
                old(self).ef as int,
                <ID as Medoid<D>>::center(old(self).features@),
                final(self).navigating_node as int,
            ),
            final(self).features == old(self).features,
            final(self).nnd_graph == old(self).nnd_graph,
            final(self).distance == old(self).distance,
            final(self).alpha == old(self).alpha,
            final(self).m == old(self).m,
            final(self).c == old(self).c,
            final(self).ef == old(self).ef,
            final(self).prng.origin() == old(self).prng.origin(),
            final(self).order == old(self).order,
    {
        let n: usize = self.features.len();
        let center: ID = <ID as Medoid<D>>::medoid(self.features.as_slice());
        let start: usize = random_index(self.prng.generator(), n);
        self.navigating_node = start;
        let mut scratch: SearchScratch = SearchScratch::new(n);
        proof {
            let k = choose|k: int|
                0 <= k < self.features@.len() && self.features@[k] == center;
            assert(D::admits(self.features@[k]));
        }
        let (pool, seen) = best_first(
            &self.features,
            &self.nnd_graph,
            start,
            &self.distance,
            self.prng.generator(),
            &center,
            self.ef,
            &mut scratch,
        );
        if pool.len() > 0 {
            assert(pool@[0].0 < n);
            self.navigating_node = pool[0].0;
        }
        assert(search_outcome::<D, ID>(
            self.features@,
            self.edges(),
            start as int,
            center,
            self.ef as int,
            pool@,
            seen@,
        ));
    }

    /// Builds the graph over `features`.
    pub fn build(&mut self, features: Vec<ID>, cfg: &BuildConfig) where ID: Medoid<D>
        requires
            0 < features@.len() <= 0x1_0000_0000,
            all_admitted::<D, ID>(features@),
            forall|i: int|
                0 <= i < features@.len() ==> <ID as Medoid<D>>::ranks(#[trigger] features@[i]),
            cfg.nsg.alpha.wf(),
            cfg.init == NndInit::Random ==> cfg.nnd.s < features@.len(),
        ensures
            exists|
                lists: Seq<Seq<Entry>>,
                chosen: Seq<Seq<Entry>>,
                cut: Seq<Seq<Entry>>,
                steps: Seq<(int, int)>,
            |
                {
                    &&& #[trigger] build_outcome::<D, ID>(
                        features@,
                        *cfg,
                        final(self).navigating_node as int,
                        final(self).edges(),
                        lists,
                        chosen,
                        cut,
                        steps,
                    )
                    &&& carries::<D, ID>(features@, cut, final(self).nnd_graph@)
                },
            final(self).searchable(),
            simple(final(self).edges()),
            forall|v: int|
                0 <= v < features@.len() ==> #[trigger] reaches(
                    final(self).edges(),
                    final(self).navigating_node as int,
                    v,
                ),
            forall|i: int|
                0 <= i < features@.len() ==> (#[trigger] final(self).nnd_graph@[i]).feature_index
                    == i,
            final(self).features == features,
            final(self).m == cfg.nsg.m,
            final(self).c == cfg.nsg.c,
            final(self).ef == cfg.nsg.ef,
            final(self).alpha == cfg.nsg.alpha,
            final(self).prng.origin() == cfg.seed,
            final(self).order@.len() == 0,
    {
        self.features = features;
        self.m = cfg.nsg.m;
        self.c = cfg.nsg.c;
        self.ef = cfg.nsg.ef;
        self.alpha = cfg.nsg.alpha;
        self.prng = Prng::seeded(cfg.seed);
        self.order = Vec::new();
        let mut nnd = NNDescent::<D, ID>::new(self.features.as_slice(), cfg.nnd);
        nnd.set_seed(cfg.seed);
        let built: Vec<Vec<Entry>> = neighbor_lists(nnd, cfg);
        self.grow(&built, cfg);
    }

    /// Builds the graph out of nearest neighbours, with the generator at the seed
    /// of the configuration.
    fn grow(&mut self, built: &Vec<Vec<Entry>>, cfg: &BuildConfig) where ID: Medoid<D>
        requires
            0 < old(self).features@.len() <= 0x1_0000_0000,
            all_admitted::<D, ID>(old(self).features@),
            forall|i: int|
                0 <= i < old(self).features@.len() ==> <ID as Medoid<D>>::ranks(
                    #[trigger] old(self).features@[i],
                ),
            cfg.nsg.alpha.wf(),
            old(self).m == cfg.nsg.m,
            old(self).c == cfg.nsg.c,
            old(self).ef == cfg.nsg.ef,
            old(self).alpha == cfg.nsg.alpha,
            old(self).prng.state() == seeded_state(cfg.seed),
            old(self).prng.origin() == cfg.seed,
            knn_lists::<D, ID>(old(self).features@, *cfg, edge_lists(built@)),
            sound_graph::<D, ID>(old(self).features@, cfg.nnd.k as int, edge_lists(built@)),
        ensures
            exists|
                lists: Seq<Seq<Entry>>,
                chosen: Seq<Seq<Entry>>,
                cut: Seq<Seq<Entry>>,
                steps: Seq<(int, int)>,
            |
                {
                    &&& #[trigger] build_outcome::<D, ID>(
                        old(self).features@,
                        *cfg,
                        final(self).navigating_node as int,
                        final(self).edges(),
                        lists,
                        chosen,
                        cut,
                        steps,
                    )
                    &&& carries::<D, ID>(old(self).features@, cut, final(self).nnd_graph@)
                },
            final(self).searchable(),
            simple(final(self).edges()),
            forall|v: int|
                0 <= v < old(self).features@.len() ==> #[trigger] reaches(
                    final(self).edges(),
                    final(self).navigating_node as int,
                    v,
                ),
            forall|i: int|
                0 <= i < old(self).features@.len() ==> (#[trigger] final(self).nnd_graph@[i]).feature_index
                    == i,
            final(self).features == old(self).features,
            final(self).m == cfg.nsg.m,
            final(self).c == cfg.nsg.c,
            final(self).ef == cfg.nsg.ef,
            final(self).alpha == cfg.nsg.alpha,
            final(self).prng.origin() == cfg.seed,
            final(self).order == old(self).order,
    {
        let n: usize = self.features.len();
        let ghost lists = edge_lists(built@);
        self.nnd_graph = nodes_of(built);
        proof {
            lemma_stored_targets(self.nnd_graph@, lists);
            lemma_targets_simple::<D, ID>(self.features@, cfg.nnd.k as int, lists);
        }
        self.init_graph();
        let ghost graph1 = self.nnd_graph@;
        link_graph(
            &self.features,
            &mut self.nnd_graph,
            self.navigating_node,
            &self.distance,
            self.prng.generator(),
            &self.alpha,
            self.m,
            self.c,
            self.ef,
        );
        let ghost graph2 = self.nnd_graph@;
        let ghost (chosen, cut) = choose|chosen: Seq<Seq<Entry>>, cut: Seq<Seq<Entry>>|
            {
                &&& #[trigger] link_outcome::<D, ID>(
                    self.features@,
                    adjacency(graph1),
                    self.navigating_node as int,
                    (self.m as int, self.c as int, self.ef as int),
                    self.alpha,
                    chosen,
                    cut,
                )
                &&& stores(graph2, cut)
                &&& all_sound::<D, ID>(
                    self.features@,
                    self.m as int,
                    adjacency(graph1)[self.navigating_node as int].no_duplicates(),
                    cut,
                )
            };
        proof {
            lemma_stored_targets(graph2, cut);
        }
        connect_graph(
            &self.features,
            &mut self.nnd_graph,
            self.navigating_node,
            &self.distance,
            self.prng.generator(),
            self.ef,
        );
        proof {
            let steps = choose|steps: Seq<(int, int)>|
                {
                    &&& #[trigger] connect_outcome::<D, ID>(
                        self.features@,
                        adjacency(graph2),
                        self.navigating_node as int,
                        self.ef as int,
                        steps,
                    )
                    &&& self.edges() == extended(adjacency(graph2), steps)
                };
            assert forall|x: int| 0 <= x < cut.len() implies {
                &&& (#[trigger] cut[x]).len() <= greater(cfg.nsg.m as int, 1)
                &&& self.edges()[x].len() == cut[x].len() + added(steps, x)
            } by {
                assert(sound_list::<D, ID>(
                    self.features@,
                    self.m as int,
                    adjacency(graph1)[self.navigating_node as int].no_duplicates(),
                    x,
                    cut[x],
                ));
                lemma_extended_degree(adjacency(graph2), steps, x);
                assert(adjacency(graph2)[x].len() == cut[x].len());
            }
            assert(simple(adjacency(graph1)));
            assert(adjacency(graph1)[self.navigating_node as int].no_duplicates());
            assert(build_outcome::<D, ID>(
                self.features@,
                *cfg,
                self.navigating_node as int,
                self.edges(),
                lists,
                chosen,
                cut,
                steps,
            ));
            assert(carries::<D, ID>(self.features@, cut, self.nnd_graph@)) by {
                assert forall|x: int| 0 <= x < n implies carried::<D, ID>(
                    self.features@,
                    x,
                    cut[x],
                    #[trigger] self.nnd_graph@[x],
                ) by {
                    let k = cut[x].len() as int;
                    let node = self.nnd_graph@[x];
                    assert(grown::<D, ID>(self.features@, x, graph2[x], node));
                    assert(graph2[x].neighbor_distances@.len() == k);
                    assert(graph2[x].neighbors@.len() == k);
                    assert forall|i: int| k <= i < node.neighbors@.len() implies
                        #[trigger] node.neighbor_distances@[i] == D::distance(
                        self.features@[x],
                        self.features@[node.neighbors@[i] as int],
                    ) by {
                        assert(node.neighbor_distances@[k + (i - k)] == D::distance(
                            self.features@[x],
                            self.features@[node.neighbors@[k + (i - k)] as int],
                        ));
                    }
                }
            }
            assert forall|i: int| 0 <= i < n implies (#[trigger] self.nnd_graph@[i]).feature_index
                == i by {
                assert(graph2[i].feature_index == graph1[i].feature_index);
            }
        }
    }

    /// Draws the order in which nodes make up the pool of a search, where none
    /// was drawn before.
    pub(crate) fn draw_order(&mut self)
        ensures
            final(self).same_graph(old(self)),
            old(self).order@.len() == old(self).features@.len() ==> *final(self) == *old(self),
            old(self).order@.len() != old(self).features@.len() ==> permutation(
                final(self).order@,
                old(self).features@.len() as int,
            ),
    {
        let n: usize = self.features.len();
        if self.order.len() != n {
            self.order = shuffled_points(n, self.prng.generator());
        }
    }

    /// The `k` nodes nearest to `query_id` that a search with a pool of `ef` finds
    /// when the order is drawn.
    pub(crate) fn steady_search(&self, query_id: &ID, k: usize, ef: usize) -> (r: Vec<
        (u32, usize, &ID),
    >)
        requires
            self.searchable(),
            D::admits(*query_id),
        ensures
            exists|pool: Seq<Entry>, seen: Seq<Entry>|
                {
                    &&& #[trigger] steady_outcome::<D, ID>(
                        self.features@,
                        self.edges(),
                        self.navigating_node as int,
                        *query_id,
                        ef as int,
                        self.order@,
                        pool,
                        seen,
                    )
                    &&& found(self.features@, pool, k as int, r@)
                },
    {
        let n: usize = self.features.len();
        let mut scratch: SearchScratch = SearchScratch::new(n);
        let (pool, seen) = steady_first(
            &self.features,
            &self.nnd_graph,
            self.navigating_node,
            &self.distance,
            &self.order,
            query_id,
            ef,
            &mut scratch,
        );
        let mut r: Vec<(u32, usize, &ID)> = Vec::new();
        let mut i: usize = 0;
        while i < pool.len() && i < k
            invariant
                n == self.features@.len(),
                i <= pool@.len(),
                i <= k,
                r@.len() == i,
                forall|j: int| 0 <= j < pool@.len() ==> (#[trigger] pool@[j]).0 < n,
                forall|j: int|
                    0 <= j < i ==> {
                        &&& (#[trigger] r@[j]).0 == pool@[j].1
                        &&& r@[j].1 == pool@[j].0
                        &&& *r@[j].2 == self.features@[pool@[j].0 as int]
                    },
            decreases pool@.len() - i,
        {
            let (at, d) = pool[i];
            r.push((d, at, &self.features[at]));
            i = i + 1;
        }
        r
    }

    /// The `k` nodes nearest to `query` that a search with a pool of `ef` finds:
    /// distance, index and feature of each, nearest first.
    ///
    /// Where the edges of the entry point do not fill the pool, nodes in random
    /// order do. The first search draws the order, the others keep to it.
    pub fn knn_search(&mut self, query_id: &ID, k: usize, ef: usize) -> (r: Vec<
        (u32, usize, &ID),
    >)
        requires
            old(self).searchable(),
            D::admits(*query_id),
        ensures
            final(self).same_graph(old(self)),
            old(self).order@.len() == old(self).features@.len() ==> *final(self) == *old(self),
            old(self).order@.len() != old(self).features@.len() ==> permutation(
                final(self).order@,
                old(self).features@.len() as int,
            ),
            exists|pool: Seq<Entry>, seen: Seq<Entry>|
                {
                    &&& #[trigger] steady_outcome::<D, ID>(
                        old(self).features@,
                        old(self).edges(),
                        old(self).navigating_node as int,
                        *query_id,
                        ef as int,
                        final(self).order@,
                        pool,
                        seen,
                    )
                    &&& found(old(self).features@, pool, k as int, r@)
                },
    {
        self.draw_order();
        self.steady_search(query_id, k, ef)
    }

    /// The graph in its file layout.
    pub fn save(&self) -> (bytes: Vec<u8>)
        ensures
            bytes@ == word_bytes(
                graph_words(self.m as u32, self.navigating_node as u32, self.edges()),
            ),
    {
        let mut bytes: Vec<u8> = Vec::new();
        let ghost mut words: Seq<u32> = Seq::empty();
        assert(word_bytes(words) =~= bytes@);
        push_word(&mut bytes, self.m as u32);
        push_word(&mut bytes, self.navigating_node as u32);
        let ghost head = seq![self.m as u32, self.navigating_node as u32];
        let ghost adj = self.edges();
        proof {
            words = words.push(self.m as u32).push(self.navigating_node as u32);
            assert(words =~= head + node_words(adj.take(0)));
        }
        let n: usize = self.nnd_graph.len();
        let mut i: usize = 0;
        while i < n
            invariant
                n == self.nnd_graph@.len(),
                adj == self.edges(),
                i <= n,
                bytes@ == word_bytes(words),
                words == head + node_words(adj.take(i as int)),
            decreases n - i,
        {
            let ghost before = words;
            let targets: &Vec<u32> = self.nnd_graph[i].active_neighbors();
            assert(adj[i as int] == targets@);
            push_word(&mut bytes, self.nnd_graph[i].neighbor_count() as u32);
            proof {
                words = words.push(targets@.len() as u32);
            }
            let ghost opened = words;
            let mut k: usize = 0;
            assert(opened + targets@.take(0) =~= opened);
            while k < targets.len()
                invariant
                    k <= targets@.len(),
                    bytes@ == word_bytes(words),
                    words == opened + targets@.take(k as int),
                decreases targets@.len() - k,
            {
                push_word(&mut bytes, targets[k]);
                proof {
                    words = words.push(targets@[k as int]);
                    assert(words =~= opened + targets@.take(k + 1));
                }
                k = k + 1;
            }
            proof {
                assert(targets@.take(targets@.len() as int) =~= targets@);
                let now = adj.take(i + 1);
                assert(now.drop_last() =~= adj.take(i as int));
                assert(now.last() == targets@);
                assert(words =~= head + node_words(now));
            }
            i = i + 1;
        }
        proof {
            assert(adj.take(n as int) =~= adj);
            assert(words =~= graph_words(self.m as u32, self.navigating_node as u32, adj));
        }
        bytes
    }

    /// Takes over a graph in its file layout. The degree bound in front is not
    /// taken over; the distances along the edges are not in the layout, and are
    /// set to the greatest number.
    ///
    /// Fails on bytes that end before the entry point, and then changes nothing;
    /// and on bytes that end within the edges of a node, and then holds the
    /// nodes before that one. Up to three bytes behind the last word are passed
    /// over.
    pub fn load(&mut self, bytes: &[u8]) -> (r: Result<(), LoadError>)
        ensures
            ({
                let words = words_of(bytes@);
                &&& r is Ok <==> words.len() >= 2 && whole_from(words, 2)
                &&& r is Err ==> r->Err_0 == LoadError::Truncated
                &&& words.len() < 2 ==> *final(self) == *old(self)
                &&& words.len() >= 2 ==> {
                    &&& final(self).navigating_node == words[1]
                    &&& final(self).edges() == nodes_from(words, 2)
                    &&& forall|i: int|
                        0 <= i < final(self).nnd_graph@.len() ==> {
                            let node = #[trigger] final(self).nnd_graph@[i];
                            &&& node.feature_index == i as u32
                            &&& node.neighbor_distances@ == Seq::new(
                                node.neighbors@.len(),
                                |j: int| u32::MAX,
                            )
                        }
                    &&& final(self).features == old(self).features
                    &&& final(self).distance == old(self).distance
                    &&& final(self).alpha == old(self).alpha
                    &&& final(self).m == old(self).m
                    &&& final(self).c == old(self).c
                    &&& final(self).ef == old(self).ef
                    &&& final(self).prng == old(self).prng
                    &&& final(self).order == old(self).order
                }
            }),
    {
        let ghost words = words_of(bytes@);
        let width: Option<u32> = word_at(bytes, 0);
        if width.is_none() {
            return Err(LoadError::Truncated);
        }
        match word_at(bytes, 1) {
            None => {
                return Err(LoadError::Truncated);
            },
            Some(enter) => {
                self.navigating_node = enter as usize;
            },
        }
        let (graph, whole) = read_nodes(bytes);
        self.nnd_graph = graph;
        if whole {
            Ok(())
        } else {
            Err(LoadError::Truncated)
        }
    }

    /// A node, at distance 0, and behind it the ends of its edges in their order:
    /// distance, index and feature of each.
    pub fn get_neighbors_node(&self, index: usize) -> (r: Vec<(u32, usize, &ID)>)
        requires
            all_admitted::<D, ID>(self.features@),
            graph_on(self.edges(), self.features@.len() as int),
            index < self.features@.len(),
            self.nnd_graph@[index as int].feature_index < self.features@.len(),
        ensures
            ({
                let node = self.nnd_graph@[index as int];
                let own = self.features@[node.feature_index as int];
                &&& r@.len() == node.neighbors@.len() + 1
                &&& r@[0].0 == 0
                &&& r@[0].1 == index
                &&& *r@[0].2 == self.features@[index as int]
                &&& forall|i: int|
                    0 <= i < node.neighbors@.len() ==> {
                        let end = #[trigger] node.neighbors@[i];
                        &&& r@[i + 1].0 == D::distance(self.features@[end as int], own)
                        &&& r@[i + 1].1 == end
                        &&& *r@[i + 1].2 == self.features@[end as int]
                    }
            }),
    {
        let mut r: Vec<(u32, usize, &ID)> = Vec::new();
        r.push((0, index, &self.features[index]));
        let node: &NsgNode = &self.nnd_graph[index];
        let ends: &Vec<u32> = node.active_neighbors();
        let own: &ID = &self.features[node.feature_index as usize];
        assert(self.edges()[index as int] == ends@);
        let mut i: usize = 0;
        while i < ends.len()
            invariant
                all_admitted::<D, ID>(self.features@),
                graph_on(self.edges(), self.features@.len() as int),
                index < self.features@.len(),
                self.edges()[index as int] == ends@,
                D::admits(*own),
                i <= ends@.len(),
                r@.len() == i + 1,
                r@[0].0 == 0,
                r@[0].1 == index,
                *r@[0].2 == self.features@[index as int],
                forall|j: int|
                    0 <= j < i ==> {
                        let end = #[trigger] ends@[j];
                        &&& r@[j + 1].0 == D::distance(self.features@[end as int], *own)
                        &&& r@[j + 1].1 == end
                        &&& *r@[j + 1].2 == self.features@[end as int]
                    },
            decreases ends@.len() - i,
        {
            assert(self.edges()[index as int][i as int] < self.features@.len());
            let end: usize = ends[i] as usize;
            let d: u32 = self.distance.calculate_distance(&self.features[end], own);
            r.push((d, end, &self.features[end]));
            i = i + 1;
        }
        r
    }
}

/// Why bytes are not a graph.
#[derive(Clone, Copy, Debug, PartialEq, Eq, Structural)]
pub enum LoadError {
    /// They end too early.
    Truncated,
}

/// The nodes behind the first two words, and whether the last of them is whole.
fn read_nodes(bytes: &[u8]) -> (r: (Vec<NsgNode>, bool))
    requires
        words_of(bytes@).len() >= 2,
    ensures
        adjacency(r.0@) == nodes_from(words_of(bytes@), 2),
        r.1 == whole_from(words_of(bytes@), 2),
        forall|i: int|
            0 <= i < r.0@.len() ==> {
                &&& (#[trigger] r.0@[i]).feature_index == i as u32
                &&& r.0@[i].neighbor_distances@ == Seq::new(
                    r.0@[i].neighbors@.len(),
                    |j: int| u32::MAX,
                )
            },
{
    let ghost words = words_of(bytes@);
    let count: usize = bytes.len() / 4;
    let mut graph: Vec<NsgNode> = Vec::new();
    let mut p: usize = 2;
    assert(adjacency(graph@) + nodes_from(words, 2) =~= nodes_from(words, 2));
    while p < count
        invariant
            words == words_of(bytes@),
            count == words.len(),
            2 <= p <= count,
            adjacency(graph@) + nodes_from(words, p as int) == nodes_from(words, 2),
            whole_from(words, 2) == whole_from(words, p as int),
            forall|i: int|
                0 <= i < graph@.len() ==> {
                    &&& (#[trigger] graph@[i]).feature_index == i as u32
                    &&& graph@[i].neighbor_distances@ == Seq::new(
                        graph@[i].neighbors@.len(),
                        |j: int| u32::MAX,
                    )
                },
        decreases count - p,
    {
        let degree: usize = read_word(bytes, p) as usize;
        let mut node: NsgNode = NsgNode::new_empty(graph.len() as u32);
        let room: usize = count - p - 1;
        let mut i: usize = 0;
        while i < degree
            invariant
                words == words_of(bytes@),
                count == words.len(),
                2 <= p < count,
                room == count - p - 1,
                degree == words[p as int],
                i <= degree,
                i <= room,
                graph@.len() as u32 == node.feature_index,
                adjacency(graph@) + nodes_from(words, p as int) == nodes_from(words, 2),
                whole_from(words, 2) == whole_from(words, p as int),
                forall|i: int|
                    0 <= i < graph@.len() ==> {
                        &&& (#[trigger] graph@[i]).feature_index == i as u32
                        &&& graph@[i].neighbor_distances@ == Seq::new(
                            graph@[i].neighbors@.len(),
                            |j: int| u32::MAX,
                        )
                    },
                node.neighbors@ =~= words.subrange(p + 1, p + 1 + i),
                node.neighbor_distances@ =~= Seq::new(i as nat, |j: int| u32::MAX),
            decreases degree - i,
        {
            if i >= room {
                assert(adjacency(graph@) + nodes_from(words, p as int) =~= adjacency(graph@));
                return (graph, false);
            }
            node.neighbors.push(read_word(bytes, p + 1 + i));
            node.neighbor_distances.push(u32::MAX);
            i = i + 1;
        }
        let ghost before = adjacency(graph@);
        let ghost targets = node.neighbors@;
        let next: usize = p + 1 + degree;
        graph.push(node);
        proof {
            assert(adjacency(graph@) =~= before.push(targets));
            assert(nodes_from(words, p as int) == seq![targets] + nodes_from(words, next as int));
            assert(adjacency(graph@) + nodes_from(words, next as int) =~= before + nodes_from(
                words,
                p as int,
            ));
        }
        p = next;
    }
    assert(adjacency(graph@) + nodes_from(words, p as int) =~= adjacency(graph@));
    (graph, true)
}

/// The word with index `i`.
fn read_word(bytes: &[u8], i: usize) -> (w: u32)
    requires
        i < words_of(bytes@).len(),
    ensures
        w == words_of(bytes@)[i as int],
{
    match word_at(bytes, i) {
        Some(w) => w,
        None => 0,
    }
}

/// A graph that was saved is loaded: entry point and edges are as they were.
pub proof fn lemma_load_after_save(m: usize, enter: usize, edges: Seq<Seq<u32>>)
    requires
        enter <= u32::MAX,
        forall|i: int| 0 <= i < edges.len() ==> (#[trigger] edges[i]).len() <= u32::MAX,
    ensures
        ({
            let words = words_of(word_bytes(graph_words(m as u32, enter as u32, edges)));
            &&& words.len() >= 2
            &&& whole_from(words, 2)
            &&& words[1] == enter
            &&& nodes_from(words, 2) == edges
        }),
{
    lemma_graph_back(m as u32, enter as u32, edges);
}

/// A search with room for every node answers exactly: of the nodes that are not
/// among the answers none is nearer than the last of these.
pub proof fn lemma_wide_search_is_exact<D: DistanceAlgorithm<ID>, ID>(
    features: Seq<ID>,
    adj: Seq<Seq<u32>>,
    enter: int,
    query: ID,
    ef: int,
    pool: Seq<Entry>,
    seen: Seq<Entry>,
    k: int,
    r: Seq<(u32, usize, &ID)>,
)
    requires
        features.len() <= usize::MAX,
        simple(adj),
        0 <= enter < adj.len(),
        ef >= features.len(),
        k >= 1,
        search_outcome::<D, ID>(features, adj, enter, query, ef, pool, seen),
        found(features, pool, k, r),
    ensures
        r.len() == lesser(k, features.len() as int),
        forall|i: int, j: int| 0 <= i <= j < r.len() ==> (#[trigger] r[i]).0 <= (#[trigger] r[j]).0,
        forall|i: int|
            0 <= i < r.len() ==> (#[trigger] r[i]).0 == D::distance(
                features[r[i].1 as int],
                query,
            ),
        forall|v: usize|
            v < features.len() ==> {
                ||| exists|i: int| 0 <= i < r.len() && (#[trigger] r[i]).1 == v
                ||| r.last().0 <= #[trigger] D::distance(features[v as int], query)
            },
{
    assert(adj[enter].no_duplicates());
    lemma_full_pool_is_exact::<D, ID>(features, adj, enter, query, ef, pool, seen);
    assert forall|i: int, j: int| 0 <= i <= j < r.len() implies (#[trigger] r[i]).0 <= (
    #[trigger] r[j]).0 by {
        assert(pool[i].1 <= pool[j].1);
    }
    assert forall|v: usize| v < features.len() implies ({
        ||| exists|i: int| 0 <= i < r.len() && (#[trigger] r[i]).1 == v
        ||| r.last().0 <= #[trigger] D::distance(features[v as int], query)
    }) by {
        let e = (v, D::distance(features[v as int], query));
        assert(pool.contains(e));
        let i = choose|i: int| 0 <= i < pool.len() && pool[i] == e;
        if i < r.len() {
            assert(r[i].1 == v);
        } else {
            assert(r[r.len() - 1].0 == pool[r.len() - 1].1);
            assert(pool[r.len() - 1].1 <= pool[i].1);
        }
    }
}

} // verus!
