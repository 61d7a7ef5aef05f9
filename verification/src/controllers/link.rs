//! The edges of the graph: picked for every node, then answered by the nodes
//! they lead to.

use crate::controllers::occlusion::PruneFactor;
use crate::controllers::prune::{
    completed, considered, lemma_picked, pick_edges, picked, prune_candidates,
};
use crate::controllers::search::{best_first, greater, search_outcome, SearchScratch};
use crate::datalayer::algorithms::{all_admitted, DistanceAlgorithm};
use crate::datalayer::nodes::{adjacency, graph_on, simple, NsgNode};
use crate::order::{
    by_distance, distinct, lemma_insert_distinct, lemma_insert_lists, lemma_same_entries, lists,
    lists_point, same_items, sort_by_distance, within, Entry,
};
use rand::rngs::StdRng;
use vstd::prelude::*;

verus! {

/// The edge lists of a graph under construction.
pub open spec fn edge_lists(cut: Seq<Vec<Entry>>) -> Seq<Seq<Entry>> {
    cut.map_values(|l: Vec<Entry>| l@)
}

/// Every edge out of node `a` carries the distance between its ends, measured
/// in one direction or the other.
pub open spec fn gauged<D: DistanceAlgorithm<ID>, ID>(
    features: Seq<ID>,
    a: int,
    list: Seq<Entry>,
) -> bool {
    forall|i: int|
        0 <= i < list.len() ==> {
            ||| (#[trigger] list[i]).1 == D::distance(features[list[i].0 as int], features[a])
            ||| list[i].1 == D::distance(features[a], features[list[i].0 as int])
        }
}

/// What an edge list of node `a` keeps to: ends that exist, a degree of `m` (one
/// at least), true distances; and, where `once` is set, no end twice.
pub open spec fn sound_list<D: DistanceAlgorithm<ID>, ID>(
    features: Seq<ID>,
    m: int,
    once: bool,
    a: int,
    list: Seq<Entry>,
) -> bool {
    &&& within(list, features.len() as int)
    &&& list.len() <= greater(m, 1)
    &&& gauged::<D, ID>(features, a, list)
    &&& once ==> distinct(list)
}

// ---------------------------------------------------------------------------
// Answering an edge
// ---------------------------------------------------------------------------

/// The edge list `before` after an edge to `node` at distance `d` was added, in
/// answer to one from there: a list that has the edge stays as it is, one that
/// outgrows its degree is picked anew.
pub open spec fn answered<D: DistanceAlgorithm<ID>, ID>(
    features: Seq<ID>,
    factor: PruneFactor,
    m: int,
    node: usize,
    d: u32,
    before: Seq<Entry>,
    after: Seq<Entry>,
) -> bool {
    if lists(before, node) {
        after == before
    } else if before.len() + 1 <= m {
        after == before.push((node, d))
    } else {
        exists|sorted: Seq<Entry>|
            {
                &&& same_items(before.push((node, d)), sorted)
                &&& #[trigger] by_distance(sorted)
                &&& after == picked::<D, ID>(features, factor, m, sorted)
            }
    }
}

/// The edge lists `before` after the edge `e`, which leaves `node`, was answered
/// by the node it leads to.
pub open spec fn one_answered<D: DistanceAlgorithm<ID>, ID>(
    features: Seq<ID>,
    factor: PruneFactor,
    m: int,
    node: usize,
    e: Entry,
    before: Seq<Seq<Entry>>,
    after: Seq<Seq<Entry>>,
) -> bool {
    let nb = e.0 as int;
    &&& after.len() == before.len()
    &&& after =~= before.update(nb, after[nb])
    &&& answered::<D, ID>(features, factor, m, node, e.1, before[nb], after[nb])
}

/// The edge lists `before` after every edge of `selected`, which leaves `node`,
/// was answered in order.
pub open spec fn all_answered<D: DistanceAlgorithm<ID>, ID>(
    features: Seq<ID>,
    factor: PruneFactor,
    m: int,
    node: usize,
    selected: Seq<Entry>,
    before: Seq<Seq<Entry>>,
    after: Seq<Seq<Entry>>,
) -> bool
    decreases selected.len(),
{
    if selected.len() == 0 {
        after == before
    } else {
        exists|mid: Seq<Seq<Entry>>|
            {
                &&& all_answered::<D, ID>(
                    features,
                    factor,
                    m,
                    node,
                    selected.drop_last(),
                    before,
                    mid,
                )
                &&& #[trigger] one_answered::<D, ID>(
                    features,
                    factor,
                    m,
                    node,
                    selected.last(),
                    mid,
                    after,
                )
            }
    }
}

proof fn lemma_answered_sound<D: DistanceAlgorithm<ID>, ID>(
    features: Seq<ID>,
    factor: PruneFactor,
    m: int,
    once: bool,
    a: int,
    node: usize,
    d: u32,
    before: Seq<Entry>,
    after: Seq<Entry>,
)
    requires
        sound_list::<D, ID>(features, m, once, a, before),
        node < features.len(),
        d == D::distance(features[a], features[node as int]) || d == D::distance(
            features[node as int],
            features[a],
        ),
        answered::<D, ID>(features, factor, m, node, d, before, after),
    ensures
        sound_list::<D, ID>(features, m, once, a, after),
{
    if !lists(before, node) {
        let e = (node, d);
        let grown = before.push(e);
        assert(grown =~= before.insert(before.len() as int, e));
        lemma_insert_lists(before, before.len() as int, e);
        if once {
            lemma_insert_distinct(before, before.len() as int, e);
        }
        assert(gauged::<D, ID>(features, a, grown)) by {
            assert forall|i: int| 0 <= i < grown.len() implies ({
                ||| (#[trigger] grown[i]).1 == D::distance(
                    features[grown[i].0 as int],
                    features[a],
                )
                ||| grown[i].1 == D::distance(features[a], features[grown[i].0 as int])
            }) by {
                if i < before.len() {
                    assert(grown[i] == before[i]);
                }
            }
        }
        assert(within(grown, features.len() as int)) by {
            assert forall|i: int| 0 <= i < grown.len() implies (#[trigger] grown[i]).0
                < features.len() by {
                if i < before.len() {
                    assert(grown[i] == before[i]);
                }
            }
        }
        if before.len() + 1 > m {
            let sorted = choose|sorted: Seq<Entry>|
                {
                    &&& same_items(grown, sorted)
                    &&& #[trigger] by_distance(sorted)
                    &&& after == picked::<D, ID>(features, factor, m, sorted)
                };
            lemma_same_entries(grown, sorted);
            lemma_picked_sound::<D, ID>(features, factor, m, once, a, grown, sorted);
        }
    }
}

/// What is picked out of sound entries is sound.
proof fn lemma_picked_sound<D: DistanceAlgorithm<ID>, ID>(
    features: Seq<ID>,
    factor: PruneFactor,
    m: int,
    once: bool,
    a: int,
    all: Seq<Entry>,
    list: Seq<Entry>,
)
    requires
        within(all, features.len() as int),
        gauged::<D, ID>(features, a, all),
        forall|e: Entry| #[trigger] list.contains(e) ==> all.contains(e),
        once ==> distinct(list),
    ensures
        sound_list::<D, ID>(features, m, once, a, picked::<D, ID>(features, factor, m, list)),
{
    lemma_picked::<D, ID>(features, factor, m, list);
    let r = picked::<D, ID>(features, factor, m, list);
    assert forall|i: int| 0 <= i < r.len() implies ({
        &&& (#[trigger] r[i]).0 < features.len()
        &&& r[i].1 == D::distance(features[r[i].0 as int], features[a]) || r[i].1 == D::distance(
            features[a],
            features[r[i].0 as int],
        )
    }) by {
        assert(r.contains(r[i]));
        assert(list.contains(r[i]));
        let k = choose|k: int| 0 <= k < all.len() && all[k] == r[i];
        assert(all[k].0 < features.len());
    }
}

/// Adds to the list of `neighbor` the edge back to `node`.
fn answer<D: DistanceAlgorithm<ID>, ID>(
    features: &Vec<ID>,
    distance: &D,
    factor: &PruneFactor,
    m: usize,
    node: usize,
    d: u32,
    list: &mut Vec<Entry>,
)
    requires
        factor.wf(),
        all_admitted::<D, ID>(features@),
        node < features@.len(),
        within(old(list)@, features@.len() as int),
    ensures
        answered::<D, ID>(features@, *factor, m as int, node, d, old(list)@, final(list)@),
{
    if lists_point(list, node) {
        return;
    }
    let ghost before = list@;
    list.push((node, d));
    if list.len() > m {
        let ghost grown = list@;
        assert(within(grown, features@.len() as int)) by {
            assert forall|i: int| 0 <= i < grown.len() implies (#[trigger] grown[i]).0
                < features@.len() by {
                if i < before.len() {
                    assert(grown[i] == before[i]);
                }
            }
        }
        sort_by_distance(list);
        proof {
            lemma_same_entries(grown, list@);
        }
        let ghost sorted = list@;
        let len: usize = list.len();
        let fresh: Vec<Entry> = pick_edges(features, distance, factor, m, list, 0, len);
        assert(sorted.subrange(0, len as int) =~= sorted);
        *list = fresh;
        assert(by_distance(sorted));
    }
}

/// Every edge list is sound.
pub open spec fn all_sound<D: DistanceAlgorithm<ID>, ID>(
    features: Seq<ID>,
    m: int,
    once: bool,
    cut: Seq<Seq<Entry>>,
) -> bool {
    &&& cut.len() == features.len()
    &&& forall|i: int|
        0 <= i < cut.len() ==> sound_list::<D, ID>(features, m, once, i, #[trigger] cut[i])
}

proof fn lemma_answer_keeps_sound<D: DistanceAlgorithm<ID>, ID>(
    features: Seq<ID>,
    factor: PruneFactor,
    m: int,
    once: bool,
    nb: int,
    node: usize,
    d: u32,
    before: Seq<Seq<Entry>>,
    after: Seq<Seq<Entry>>,
)
    requires
        all_sound::<D, ID>(features, m, once, before),
        0 <= nb < before.len(),
        node < features.len(),
        d == D::distance(features[nb], features[node as int]) || d == D::distance(
            features[node as int],
            features[nb],
        ),
        after.len() == before.len(),
        after =~= before.update(nb, after[nb]),
        answered::<D, ID>(features, factor, m, node, d, before[nb], after[nb]),
    ensures
        all_sound::<D, ID>(features, m, once, after),
{
    lemma_answered_sound::<D, ID>(
        features,
        factor,
        m,
        once,
        nb,
        node,
        d,
        before[nb],
        after[nb],
    );
    assert forall|i: int| 0 <= i < after.len() implies sound_list::<D, ID>(
        features,
        m,
        once,
        i,
        #[trigger] after[i],
    ) by {
        if i != nb {
            assert(after[i] == before[i]);
        }
    }
}

/// Answers every edge of `selected`, the edges of `node`: for each edge from
/// `node` it adds the edge back.
pub fn answer_edges<D: DistanceAlgorithm<ID>, ID>(
    features: &Vec<ID>,
    distance: &D,
    factor: &PruneFactor,
    m: usize,
    node: usize,
    selected: &Vec<Entry>,
    cut: &mut Vec<Vec<Entry>>,
)
    requires
        factor.wf(),
        all_admitted::<D, ID>(features@),
        node < features@.len(),
        within(selected@, features@.len() as int),
        gauged::<D, ID>(features@, node as int, selected@),
        all_sound::<D, ID>(features@, m as int, false, edge_lists(old(cut)@)),
    ensures
        all_answered::<D, ID>(
            features@,
            *factor,
            m as int,
            node,
            selected@,
            edge_lists(old(cut)@),
            edge_lists(final(cut)@),
        ),
        all_sound::<D, ID>(features@, m as int, false, edge_lists(final(cut)@)),
        all_sound::<D, ID>(features@, m as int, true, edge_lists(old(cut)@)) ==> all_sound::<D, ID>(
            features@,
            m as int,
            true,
            edge_lists(final(cut)@),
        ),
{
    let ghost before = edge_lists(cut@);
    let mut i: usize = 0;
    assert(selected@.take(0) =~= Seq::<Entry>::empty());
    while i < selected.len()
        invariant
            factor.wf(),
            all_admitted::<D, ID>(features@),
            node < features@.len(),
            within(selected@, features@.len() as int),
            gauged::<D, ID>(features@, node as int, selected@),
            i <= selected@.len(),
            all_answered::<D, ID>(
                features@,
                *factor,
                m as int,
                node,
                selected@.take(i as int),
                before,
                edge_lists(cut@),
            ),
            all_sound::<D, ID>(features@, m as int, false, edge_lists(cut@)),
            all_sound::<D, ID>(features@, m as int, true, before) ==> all_sound::<D, ID>(
                features@,
                m as int,
                true,
                edge_lists(cut@),
            ),
        decreases selected@.len() - i,
    {
        let (nb, d) = selected[i];
        assert(selected@[i as int] == (nb, d));
        let ghost mid = edge_lists(cut@);
        assert(mid[nb as int] == cut@[nb as int]@);
        answer(features, distance, factor, m, node, d, &mut cut[nb]);
        proof {
            let next = selected@.take(i + 1);
            let after = edge_lists(cut@);
            assert(next.drop_last() =~= selected@.take(i as int));
            assert(next.last() == (nb, d));
            assert(after =~= mid.update(nb as int, after[nb as int]));
            assert(after[nb as int] == cut@[nb as int]@);
            assert(one_answered::<D, ID>(
                features@,
                *factor,
                m as int,
                node,
                next.last(),
                mid,
                after,
            ));
            lemma_answer_keeps_sound::<D, ID>(
                features@,
                *factor,
                m as int,
                false,
                nb as int,
                node,
                d,
                mid,
                after,
            );
            if all_sound::<D, ID>(features@, m as int, true, before) {
                lemma_answer_keeps_sound::<D, ID>(
                    features@,
                    *factor,
                    m as int,
                    true,
                    nb as int,
                    node,
                    d,
                    mid,
                    after,
                );
            }
        }
        i = i + 1;
    }
    assert(selected@.take(i as int) =~= selected@);
}

// ---------------------------------------------------------------------------
// Linking the graph
// ---------------------------------------------------------------------------

/// `list` are edges of `node` picked out of what a search for it measured and
/// out of its present edges.
pub open spec fn pruned_outcome<D: DistanceAlgorithm<ID>, ID>(
    features: Seq<ID>,
    adj: Seq<Seq<u32>>,
    enter: int,
    sizes: (int, int, int),
    factor: PruneFactor,
    node: int,
    list: Seq<Entry>,
) -> bool {
    exists|pool: Seq<Entry>, seen: Seq<Entry>, sorted: Seq<Entry>|
        {
            &&& #[trigger] search_outcome::<D, ID>(
                features,
                adj,
                enter,
                features[node],
                sizes.2,
                pool,
                seen,
            )
            &&& same_items(completed::<D, ID>(features, adj[node], node, seen), sorted)
            &&& #[trigger] by_distance(sorted)
            &&& list == picked::<D, ID>(
                features,
                factor,
                sizes.0,
                considered(sorted, node as usize, sizes.1),
            )
        }
}

/// The edges of `node` in `before` are answered, and stay as they are.
pub open spec fn one_returned<D: DistanceAlgorithm<ID>, ID>(
    features: Seq<ID>,
    factor: PruneFactor,
    m: int,
    node: int,
    before: Seq<Seq<Entry>>,
    after: Seq<Seq<Entry>>,
) -> bool {
    exists|out: Seq<Seq<Entry>>|
        {
            &&& #[trigger] all_answered::<D, ID>(
                features,
                factor,
                m,
                node as usize,
                before[node],
                before.update(node, Seq::empty()),
                out,
            )
            &&& after == out.update(node, before[node])
        }
}

/// The edges of the nodes below `k` are answered, node by node.
pub open spec fn all_returned<D: DistanceAlgorithm<ID>, ID>(
    features: Seq<ID>,
    factor: PruneFactor,
    m: int,
    k: nat,
    before: Seq<Seq<Entry>>,
    after: Seq<Seq<Entry>>,
) -> bool
    decreases k,
{
    if k == 0 {
        after == before
    } else {
        exists|mid: Seq<Seq<Entry>>|
            {
                &&& all_returned::<D, ID>(features, factor, m, (k - 1) as nat, before, mid)
                &&& #[trigger] one_returned::<D, ID>(features, factor, m, k - 1, mid, after)
            }
    }
}

/// The nodes of `graph` have the edges of `cut`.
pub open spec fn stores(graph: Seq<NsgNode>, cut: Seq<Seq<Entry>>) -> bool {
    &&& graph.len() == cut.len()
    &&& forall|i: int|
        0 <= i < graph.len() ==> {
            &&& (#[trigger] graph[i]).neighbors@ == cut[i].map_values(|e: Entry| e.0 as u32)
            &&& graph[i].neighbor_distances@ == cut[i].map_values(|e: Entry| e.1)
        }
}

/// What linking comes to: edges picked for every node (`chosen`), and answered
/// node by node (`cut`).
pub open spec fn link_outcome<D: DistanceAlgorithm<ID>, ID>(
    features: Seq<ID>,
    adj: Seq<Seq<u32>>,
    enter: int,
    sizes: (int, int, int),
    factor: PruneFactor,
    chosen: Seq<Seq<Entry>>,
    cut: Seq<Seq<Entry>>,
) -> bool {
    &&& chosen.len() == features.len()
    &&& forall|i: int|
        0 <= i < chosen.len() ==> pruned_outcome::<D, ID>(
            features,
            adj,
            enter,
            sizes,
            factor,
            i,
            #[trigger] chosen[i],
        )
    &&& all_returned::<D, ID>(features, factor, sizes.0, features.len(), chosen, cut)
}

proof fn lemma_completed<D: DistanceAlgorithm<ID>, ID>(
    features: Seq<ID>,
    targets: Seq<u32>,
    node: int,
    cands: Seq<Entry>,
)
    requires
        within(cands, features.len() as int),
        gauged::<D, ID>(features, node, cands),
        forall|i: int| 0 <= i < targets.len() ==> (#[trigger] targets[i]) < features.len(),
    ensures
        within(completed::<D, ID>(features, targets, node, cands), features.len() as int),
        gauged::<D, ID>(features, node, completed::<D, ID>(features, targets, node, cands)),
        distinct(cands) ==> distinct(completed::<D, ID>(features, targets, node, cands)),
    decreases targets.len(),
{
    if targets.len() > 0 {
        let shorter = targets.drop_last();
        assert forall|i: int| 0 <= i < shorter.len() implies (#[trigger] shorter[i])
            < features.len() by {
            assert(shorter[i] == targets[i]);
        }
        lemma_completed::<D, ID>(features, shorter, node, cands);
        let s = completed::<D, ID>(features, shorter, node, cands);
        let t = targets.last() as usize;
        assert(targets[targets.len() - 1] < features.len());
        if !lists(s, t) {
            let e = (t, D::distance(features[t as int], features[node]));
            let r = s.push(e);
            assert(r =~= s.insert(s.len() as int, e));
            if distinct(cands) {
                lemma_insert_distinct(s, s.len() as int, e);
            }
            assert forall|i: int| 0 <= i < r.len() implies ({
                &&& (#[trigger] r[i]).0 < features.len()
                &&& r[i].1 == D::distance(features[r[i].0 as int], features[node]) || r[i].1
                    == D::distance(features[node], features[r[i].0 as int])
            }) by {
                if i < s.len() {
                    assert(r[i] == s[i]);
                    assert(s[i].0 < features.len());
                }
            }
        }
    }
}

proof fn lemma_pruned_sound<D: DistanceAlgorithm<ID>, ID>(
    features: Seq<ID>,
    adj: Seq<Seq<u32>>,
    enter: int,
    sizes: (int, int, int),
    factor: PruneFactor,
    node: int,
    pool: Seq<Entry>,
    seen: Seq<Entry>,
    sorted: Seq<Entry>,
    once: bool,
)
    requires
        0 <= node < features.len(),
        graph_on(adj, features.len() as int),
        once ==> adj[enter].no_duplicates(),
        search_outcome::<D, ID>(features, adj, enter, features[node], sizes.2, pool, seen),
        same_items(completed::<D, ID>(features, adj[node], node, seen), sorted),
        by_distance(sorted),
    ensures
        sound_list::<D, ID>(
            features,
            sizes.0,
            once,
            node,
            picked::<D, ID>(
                features,
                factor,
                sizes.0,
                considered(sorted, node as usize, sizes.1),
            ),
        ),
{
    let all = completed::<D, ID>(features, adj[node], node, seen);
    assert forall|i: int| 0 <= i < adj[node].len() implies (#[trigger] adj[node][i])
        < features.len() by {}
    assert(within(seen, features.len() as int));
    assert(gauged::<D, ID>(features, node, seen));
    lemma_completed::<D, ID>(features, adj[node], node, seen);
    lemma_same_entries(all, sorted);
    let part = considered(sorted, node as usize, sizes.1);
    let from: int = if sorted.len() > 0 && sorted[0].0 == node as usize {
        1
    } else {
        0
    };
    assert forall|e: Entry| #[trigger] part.contains(e) implies all.contains(e) by {
        let i = choose|i: int| 0 <= i < part.len() && part[i] == e;
        assert(sorted[from + i] == e);
        assert(sorted.contains(e));
    }
    if once {
        assert forall|i: int, j: int| 0 <= i < j < part.len() implies (#[trigger] part[i]).0 != (
        #[trigger] part[j]).0 by {
            assert(part[i] == sorted[from + i] && part[j] == sorted[from + j]);
        }
    }
    lemma_picked_sound::<D, ID>(features, factor, sizes.0, once, node, all, part);
}

/// A sound list put in place of another keeps all lists sound.
proof fn lemma_update_sound<D: DistanceAlgorithm<ID>, ID>(
    features: Seq<ID>,
    m: int,
    once: bool,
    cut: Seq<Seq<Entry>>,
    node: int,
    list: Seq<Entry>,
)
    requires
        all_sound::<D, ID>(features, m, once, cut),
        0 <= node < cut.len(),
        sound_list::<D, ID>(features, m, once, node, list),
    ensures
        all_sound::<D, ID>(features, m, once, cut.update(node, list)),
{
    let next = cut.update(node, list);
    assert forall|i: int| 0 <= i < next.len() implies sound_list::<D, ID>(
        features,
        m,
        once,
        i,
        #[trigger] next[i],
    ) by {
        if i != node {
            assert(next[i] == cut[i]);
        }
    }
}

/// Replaces the edges of every node by edges picked out of what a search for
/// the node measures, and answers them.
pub fn link_graph<D: DistanceAlgorithm<ID>, ID>(
    features: &Vec<ID>,
    graph: &mut Vec<NsgNode>,
    enter: usize,
    distance: &D,
    rng: &mut StdRng,
    factor: &PruneFactor,
    m: usize,
    c: usize,
    ef: usize,
)
    requires
        factor.wf(),
        all_admitted::<D, ID>(features@),
        graph_on(adjacency(old(graph)@), features@.len() as int),
        enter < features@.len(),
        features@.len() <= 0x1_0000_0000,
    ensures
        exists|chosen: Seq<Seq<Entry>>, cut: Seq<Seq<Entry>>|
            {
                &&& #[trigger] link_outcome::<D, ID>(
                    features@,
                    adjacency(old(graph)@),
                    enter as int,
                    (m as int, c as int, ef as int),
                    *factor,
                    chosen,
                    cut,
                )
                &&& stores(final(graph)@, cut)
                &&& all_sound::<D, ID>(
                    features@,
                    m as int,
                    adjacency(old(graph)@)[enter as int].no_duplicates(),
                    cut,
                )
            },
        forall|i: int|
            0 <= i < features@.len() ==> (#[trigger] final(graph)@[i]).feature_index == old(
                graph,
            )@[i].feature_index,
        graph_on(adjacency(final(graph)@), features@.len() as int),
        adjacency(old(graph)@)[enter as int].no_duplicates() ==> simple(adjacency(final(graph)@)),
        forall|i: int|
            0 <= i < features@.len() ==> (#[trigger] final(graph)@[i]).neighbors@.len() <= greater(
                m as int,
                1,
            ),
{
    let n: usize = features.len();
    let ghost graph0 = graph@;
    let ghost adj = adjacency(graph@);
    let ghost sizes = (m as int, c as int, ef as int);
    let ghost once = adj[enter as int].no_duplicates();
    let mut cut: Vec<Vec<Entry>> = Vec::with_capacity(n);
    let mut scratch: SearchScratch = SearchScratch::new(n);
    let mut node: usize = 0;
    while node < n
        invariant
            n == features@.len(),
            graph@ == graph0,
            adj == adjacency(graph0),
            factor.wf(),
            all_admitted::<D, ID>(features@),
            graph_on(adj, n as int),
            enter < n,
            once == adj[enter as int].no_duplicates(),
            sizes == (m as int, c as int, ef as int),
            scratch.wf(),
            node <= n,
            cut@.len() == node,
            forall|i: int|
                0 <= i < node ==> pruned_outcome::<D, ID>(
                    features@,
                    adj,
                    enter as int,
                    sizes,
                    *factor,
                    i,
                    (#[trigger] cut@[i])@,
                ),
            forall|i: int|
                0 <= i < node ==> sound_list::<D, ID>(
                    features@,
                    m as int,
                    once,
                    i,
                    (#[trigger] cut@[i])@,
                ),
        decreases n - node,
    {
        let (pool, mut seen) = best_first(
            features,
            graph,
            enter,
            distance,
            rng,
            &features[node],
            ef,
            &mut scratch,
        );
        let ghost seen0 = seen@;
        assert(within(seen@, n as int));
        let list: Vec<Entry> = prune_candidates(
            features,
            graph,
            distance,
            factor,
            m,
            c,
            node,
            &mut seen,
        );
        proof {
            assert(search_outcome::<D, ID>(
                features@,
                adj,
                enter as int,
                features@[node as int],
                sizes.2,
                pool@,
                seen0,
            ));
            assert(by_distance(seen@));
            lemma_pruned_sound::<D, ID>(
                features@,
                adj,
                enter as int,
                sizes,
                *factor,
                node as int,
                pool@,
                seen0,
                seen@,
                once,
            );
            assert((node as int) as usize == node);
            assert(same_items(
                completed::<D, ID>(features@, adj[node as int], node as int, seen0),
                seen@,
            ));
            assert(list@ == picked::<D, ID>(
                features@,
                *factor,
                m as int,
                considered(seen@, (node as int) as usize, c as int),
            ));
            assert(pruned_outcome::<D, ID>(
                features@,
                adj,
                enter as int,
                sizes,
                *factor,
                node as int,
                list@,
            ));
        }
        cut.push(list);
        node = node + 1;
    }
    let ghost chosen = edge_lists(cut@);
    proof {
        assert(all_sound::<D, ID>(features@, m as int, once, chosen));
        lemma_sound_weaken::<D, ID>(features@, m as int, once, chosen);
    }
    node = 0;
    while node < n
        invariant
            n == features@.len(),
            graph@ == graph0,
            factor.wf(),
            all_admitted::<D, ID>(features@),
            node <= n,
            cut@.len() == n,
            all_returned::<D, ID>(
                features@,
                *factor,
                m as int,
                node as nat,
                chosen,
                edge_lists(cut@),
            ),
            all_sound::<D, ID>(features@, m as int, false, edge_lists(cut@)),
            once ==> all_sound::<D, ID>(features@, m as int, true, edge_lists(cut@)),
        decreases n - node,
    {
        let ghost before = edge_lists(cut@);
        let mut selected: Vec<Entry> = Vec::new();
        assert(before[node as int] == cut@[node as int]@);
        std::mem::swap(&mut selected, &mut cut[node]);
        proof {
            let emptied = before.update(node as int, Seq::empty());
            assert(edge_lists(cut@) =~= emptied);
            assert(selected@ == before[node as int]);
            lemma_update_sound::<D, ID>(
                features@,
                m as int,
                false,
                before,
                node as int,
                Seq::empty(),
            );
            if once {
                lemma_update_sound::<D, ID>(
                    features@,
                    m as int,
                    true,
                    before,
                    node as int,
                    Seq::empty(),
                );
            }
        }
        answer_edges(features, distance, factor, m, node, &selected, &mut cut);
        let ghost out = edge_lists(cut@);
        let ghost kept = selected@;
        assert((node as int) as usize == node);
        assert(all_answered::<D, ID>(
            features@,
            *factor,
            m as int,
            (node as int) as usize,
            before[node as int],
            before.update(node as int, Seq::empty()),
            out,
        ));
        cut.set(node, selected);
        proof {
            assert(edge_lists(cut@) =~= out.update(node as int, kept));
            lemma_update_sound::<D, ID>(features@, m as int, false, out, node as int, kept);
            if once {
                lemma_update_sound::<D, ID>(features@, m as int, true, out, node as int, kept);
            }
            assert(one_returned::<D, ID>(
                features@,
                *factor,
                m as int,
                (node + 1) as nat - 1,
                before,
                edge_lists(cut@),
            ));
        }
        node = node + 1;
    }
    let ghost done = edge_lists(cut@);
    node = 0;
    while node < n
        invariant
            n == features@.len(),
            n <= 0x1_0000_0000,
            node <= n,
            graph@.len() == n,
            graph0.len() == n,
            cut@.len() == n,
            done == edge_lists(cut@),
            all_sound::<D, ID>(features@, m as int, false, done),
            forall|i: int|
                0 <= i < node ==> {
                    &&& (#[trigger] graph@[i]).neighbors@ == done[i].map_values(
                        |e: Entry| e.0 as u32,
                    )
                    &&& graph@[i].neighbor_distances@ == done[i].map_values(|e: Entry| e.1)
                },
            forall|i: int|
                0 <= i < n ==> (#[trigger] graph@[i]).feature_index == graph0[i].feature_index,
        decreases n - node,
    {
        let (neighbors, neighbor_distances) = edge_columns(&cut[node]);
        let feature_index: u32 = graph[node].feature_index;
        graph.set(node, NsgNode { feature_index, neighbors, neighbor_distances });
        assert(done[node as int] == cut@[node as int]@);
        node = node + 1;
    }
    proof {
        assert(stores(graph@, done));
        assert(link_outcome::<D, ID>(features@, adj, enter as int, sizes, *factor, chosen, done));
        lemma_stored_graph::<D, ID>(features@, m as int, once, graph@, done);
    }
}

proof fn lemma_sound_weaken<D: DistanceAlgorithm<ID>, ID>(
    features: Seq<ID>,
    m: int,
    once: bool,
    cut: Seq<Seq<Entry>>,
)
    requires
        all_sound::<D, ID>(features, m, once, cut),
    ensures
        all_sound::<D, ID>(features, m, false, cut),
{
    assert forall|i: int| 0 <= i < cut.len() implies sound_list::<D, ID>(
        features,
        m,
        false,
        i,
        #[trigger] cut[i],
    ) by {
        assert(sound_list::<D, ID>(features, m, once, i, cut[i]));
    }
}

/// A graph that stores sound edge lists.
proof fn lemma_stored_graph<D: DistanceAlgorithm<ID>, ID>(
    features: Seq<ID>,
    m: int,
    once: bool,
    graph: Seq<NsgNode>,
    cut: Seq<Seq<Entry>>,
)
    requires
        all_sound::<D, ID>(features, m, once, cut),
        stores(graph, cut),
        features.len() <= 0x1_0000_0000,
    ensures
        graph_on(adjacency(graph), features.len() as int),
        once ==> simple(adjacency(graph)),
        forall|i: int|
            0 <= i < features.len() ==> (#[trigger] graph[i]).neighbors@.len() <= greater(m, 1),
{
    let adj = adjacency(graph);
    assert forall|i: int, k: int|
        0 <= i < adj.len() && 0 <= k < adj[i].len() implies (#[trigger] adj[i][k])
        < features.len() by {
        assert(graph[i].neighbors@ == cut[i].map_values(|e: Entry| e.0 as u32));
        assert(sound_list::<D, ID>(features, m, once, i, cut[i]));
        assert(cut[i][k].0 < features.len());
    }
    if once {
        assert forall|i: int| 0 <= i < adj.len() implies (#[trigger] adj[i]).no_duplicates() by {
            assert(graph[i].neighbors@ == cut[i].map_values(|e: Entry| e.0 as u32));
            assert(sound_list::<D, ID>(features, m, once, i, cut[i]));
            let list = cut[i];
            assert forall|j: int, k: int|
                0 <= j < adj[i].len() && 0 <= k < adj[i].len() && j != k implies adj[i][j]
                != adj[i][k] by {
                assert(list[j].0 < features.len() && list[k].0 < features.len());
                if j < k {
                    assert(list[j].0 != list[k].0);
                } else {
                    assert(list[k].0 != list[j].0);
                }
            }
        }
    }
    assert forall|i: int| 0 <= i < features.len() implies (#[trigger] graph[i]).neighbors@.len()
        <= greater(m, 1) by {
        assert(sound_list::<D, ID>(features, m, once, i, cut[i]));
    }
}

/// The ends of a list of edges, and their distances.
pub(crate) fn edge_columns(list: &Vec<Entry>) -> (r: (Vec<u32>, Vec<u32>))
    ensures
        r.0@ == list@.map_values(|e: Entry| e.0 as u32),
        r.1@ == list@.map_values(|e: Entry| e.1),
{
    let mut ends: Vec<u32> = Vec::with_capacity(list.len());
    let mut distances: Vec<u32> = Vec::with_capacity(list.len());
    let mut i: usize = 0;
    while i < list.len()
        invariant
            i <= list@.len(),
            ends@ =~= list@.map_values(|e: Entry| e.0 as u32).take(i as int),
            distances@ =~= list@.map_values(|e: Entry| e.1).take(i as int),
        decreases list@.len() - i,
    {
        ends.push(list[i].0 as u32);
        distances.push(list[i].1);
        i = i + 1;
    }
    (ends, distances)
}

} // verus!
