//! Greedy best-first search on a graph.

use crate::datalayer::algorithms::{all_admitted, DistanceAlgorithm};
use crate::datalayer::nodes::{adjacency, graph_on, NsgNode};
use crate::order::{
    by_distance, distinct, lemma_few_below, lemma_insert_distinct, lemma_insert_lists,
    lemma_insert_sorted, lemma_one_missing, lemma_rank, lemma_unmarked_insert, lists,
    marked_rank_of, points, rank, unmarked, Entry, Marked,
};
use crate::random::random_index;
use rand::rngs::StdRng;
use vstd::prelude::*;

verus! {

// ---------------------------------------------------------------------------
// The set of visited nodes
// ---------------------------------------------------------------------------

/// Reusable visited-set for a search. Starting over takes no pass over the
/// nodes: a node is visited when it carries the number of the current search.
pub struct SearchScratch {
    visited: Vec<u32>,
    epoch: u32,
}

impl SearchScratch {
    /// Number of nodes the set is for.
    pub closed spec fn size(&self) -> nat {
        self.visited@.len()
    }

    /// The number of the current search.
    pub closed spec fn current(&self) -> u32 {
        self.epoch
    }

    /// The number that node `i` carries.
    pub closed spec fn number(&self, i: int) -> u32 {
        self.visited@[i]
    }

    /// No node carries a number of a search that is still to come.
    pub open spec fn wf(&self) -> bool {
        forall|i: int| 0 <= i < self.size() ==> (#[trigger] self.number(i)) <= self.current()
    }

    /// Node `i` is visited.
    pub open spec fn holds(&self, i: int) -> bool {
        self.number(i) == self.current()
    }

    /// A set for `n` nodes. All of them count as visited until `begin` is called.
    pub fn new(n: usize) -> (s: Self)
        ensures
            s.wf(),
            s.size() == n,
            s.current() == 0,
            forall|i: int| 0 <= i < n ==> #[trigger] s.number(i) == 0,
            forall|i: int| 0 <= i < n ==> #[trigger] s.holds(i),
    {
        SearchScratch { visited: vec![0u32; n], epoch: 0 }
    }

    /// Starts over with no node of `n` visited. The numbers start over with 1
    /// where there is none left, and where the set is for another number of
    /// nodes.
    pub fn begin(&mut self, n: usize)
        requires
            old(self).wf(),
        ensures
            final(self).wf(),
            final(self).size() == n,
            ({
                let anew = old(self).size() != n || old(self).current() == u32::MAX;
                &&& final(self).current() == if anew {
                    1
                } else {
                    old(self).current() + 1
                }
                &&& forall|i: int|
                    0 <= i < n ==> #[trigger] final(self).number(i) == if anew {
                        0
                    } else {
                        old(self).number(i)
                    }
            }),
            forall|i: int|
                0 <= i < n ==> (#[trigger] final(self).number(i)) < final(self).current(),
            forall|i: int| 0 <= i < n ==> !#[trigger] final(self).holds(i),
    {
        if self.visited.len() != n {
            self.visited = vec![0u32; n];
            self.epoch = 0;
        }
        self.epoch = self.epoch.wrapping_add(1);
        if self.epoch == 0 {
            self.visited = vec![0u32; n];
            self.epoch = 1;
        }
        assert forall|i: int| 0 <= i < n implies (#[trigger] self.number(i)) < self.current() by {
            if old(self).size() == n {
                assert(old(self).number(i) <= old(self).current());
            }
        }
    }

    /// Visits node `idx`.
    pub fn mark(&mut self, idx: usize)
        requires
            old(self).wf(),
            idx < old(self).size(),
        ensures
            final(self).wf(),
            final(self).size() == old(self).size(),
            visited_by(*old(self), *final(self), idx as int),
            forall|i: int|
                0 <= i < old(self).size() ==> (#[trigger] final(self).holds(i) <==> (i == idx
                    || old(self).holds(i))),
    {
        self.visited.set(idx, self.epoch);
        assert forall|i: int| 0 <= i < self.size() implies (#[trigger] self.number(i))
            <= self.current() by {
            assert(old(self).number(i) <= old(self).current());
        }
    }

    /// Visits node `idx`; true if it was newly visited.
    pub fn visit(&mut self, idx: usize) -> (new: bool)
        requires
            old(self).wf(),
            idx < old(self).size(),
        ensures
            final(self).wf(),
            final(self).size() == old(self).size(),
            visited_by(*old(self), *final(self), idx as int),
            new == !old(self).holds(idx as int),
            forall|i: int|
                0 <= i < old(self).size() ==> (#[trigger] final(self).holds(i) <==> (i == idx
                    || old(self).holds(i))),
    {
        if self.visited[idx] != self.epoch {
            self.mark(idx);
            true
        } else {
            false
        }
    }
}

/// The set `after` is `before` with node `x` visited.
pub open spec fn visited_by(before: SearchScratch, after: SearchScratch, x: int) -> bool {
    &&& after.size() == before.size()
    &&& after.current() == before.current()
    &&& forall|i: int|
        0 <= i < before.size() ==> #[trigger] after.number(i) == if i == x {
            before.current()
        } else {
            before.number(i)
        }
}

/// Node `x` is among the first `t` of `nodes`.
pub open spec fn came_before(nodes: Seq<int>, t: int, x: int) -> bool {
    exists|u: int| 0 <= u < t && #[trigger] nodes[u] == x
}

/// After a set was emptied, a node is visited exactly if it has been visited
/// since: `sets` are the set then and after each of `nodes` was visited.
pub proof fn lemma_visited_since(
    sets: Seq<SearchScratch>,
    nodes: Seq<int>,
    t: int,
    x: int,
)
    requires
        sets.len() == nodes.len() + 1,
        forall|i: int| 0 <= i < sets[0].size() ==> !#[trigger] sets[0].holds(i),
        forall|u: int, v: int|
            0 <= u < nodes.len() && v == u + 1 ==> visited_by(
                #[trigger] sets[u],
                #[trigger] sets[v],
                nodes[u],
            ),
        0 <= t < sets.len(),
        0 <= x < sets[0].size(),
    ensures
        sets[t].size() == sets[0].size(),
        sets[t].current() == sets[0].current(),
        sets[t].holds(x) <==> came_before(nodes, t, x),
    decreases t,
{
    if t > 0 {
        lemma_visited_since(sets, nodes, t - 1, x);
        assert(visited_by(sets[t - 1], sets[t], nodes[t - 1]));
        assert(sets[t].number(x) == if x == nodes[t - 1] {
            sets[t - 1].current()
        } else {
            sets[t - 1].number(x)
        });
        if came_before(nodes, t - 1, x) {
            let u = choose|u: int| 0 <= u < t - 1 && #[trigger] nodes[u] == x;
            assert(0 <= u < t && nodes[u] == x);
        }
    } else {
        assert(!sets[0].holds(x));
    }
}

impl Default for SearchScratch {
    fn default() -> (s: Self)
        ensures
            s.wf(),
            s.size() == 0,
            s.current() == 0,
    {
        SearchScratch { visited: Vec::new(), epoch: 0 }
    }
}

// ---------------------------------------------------------------------------
// What a search comes to
// ---------------------------------------------------------------------------

/// Every entry is a node with its distance to `query`.
pub open spec fn measured<D: DistanceAlgorithm<ID>, ID>(
    s: Seq<Entry>,
    features: Seq<ID>,
    query: ID,
) -> bool {
    forall|i: int|
        0 <= i < s.len() ==> {
            &&& (#[trigger] s[i]).0 < features.len()
            &&& s[i].1 == D::distance(features[s[i].0 as int], query)
        }
}

/// The lesser of the two.
pub open spec fn lesser(a: int, b: int) -> int {
    if a < b {
        a
    } else {
        b
    }
}

/// The greater of the two.
pub open spec fn greater(a: int, b: int) -> int {
    if a < b {
        b
    } else {
        a
    }
}

/// The first `width` entries of `pool` are nearest among `seen`: an entry of
/// `seen` that is not among them is no nearer than the last of them.
pub open spec fn nearest_of(pool: Seq<Entry>, width: int, seen: Seq<Entry>) -> bool {
    forall|i: int|
        0 <= i < seen.len() ==> (pool.take(width).contains(#[trigger] seen[i]) || width == 0
            || pool[width - 1].1 <= seen[i].1)
}

/// Every edge that leaves node `x` ends at a node of `seen`.
pub open spec fn expanded(adj: Seq<Seq<u32>>, x: usize, seen: Seq<Entry>) -> bool {
    forall|k: int|
        0 <= k < adj[x as int].len() ==> lists(seen, #[trigger] adj[x as int][k] as usize)
}

/// Entry `i` of `seen` ends an edge from an entry before it.
pub open spec fn followed(adj: Seq<Seq<u32>>, seen: Seq<Entry>, i: int) -> bool {
    exists|j: int, k: int|
        0 <= j < i && 0 <= k < adj[seen[j].0 as int].len() && #[trigger] adj[seen[j].0 as int][k]
            == seen[i].0
}

/// The pool that is made up of the entries of `seen`, one after the other: each
/// goes behind those that are no farther, and is still to be expanded.
pub open spec fn pool_of(seen: Seq<Entry>) -> Seq<Marked>
    decreases seen.len(),
{
    if seen.len() == 0 {
        Seq::empty()
    } else {
        let pool = pool_of(seen.drop_last());
        let e = seen.last();
        pool.insert(rank(unmarked(pool), e.1), (e.0, e.1, true))
    }
}

/// The pool after `e` was offered to it: an entry nearer than the last of the
/// width is taken in, and the last one goes where the pool is full.
pub open spec fn offered(pool: Seq<Marked>, width: int, e: Entry) -> Seq<Marked> {
    let r = rank(unmarked(pool), e.1);
    if e.1 < pool[width - 1].1 {
        if pool.len() == width {
            pool.drop_last().insert(r, (e.0, e.1, true))
        } else {
            pool.insert(r, (e.0, e.1, true))
        }
    } else {
        pool
    }
}

/// Pool and measured nodes after the nodes of `targets` have been visited, in
/// their order: one that is new is measured and offered to the pool.
pub open spec fn visiting<D: DistanceAlgorithm<ID>, ID>(
    features: Seq<ID>,
    query: ID,
    width: int,
    targets: Seq<u32>,
    pool: Seq<Marked>,
    seen: Seq<Entry>,
) -> (Seq<Marked>, Seq<Entry>)
    decreases targets.len(),
{
    if targets.len() == 0 {
        (pool, seen)
    } else {
        let (p, s) = visiting::<D, ID>(features, query, width, targets.drop_last(), pool, seen);
        let x = targets.last() as usize;
        let e = (x, D::distance(features[x as int], query));
        if lists(s, x) {
            (p, s)
        } else {
            (offered(p, width, e), s.push(e))
        }
    }
}

/// Entry `at` is the first within the width that is still to be expanded.
pub open spec fn expands_next(pool: Seq<Marked>, width: int, at: int) -> bool {
    &&& 0 <= at < width
    &&& pool[at].2
    &&& forall|i: int| 0 <= i < at ==> !(#[trigger] pool[i]).2
}

/// Something within the width is still to be expanded.
pub open spec fn unfinished(pool: Seq<Marked>, width: int) -> bool {
    exists|at: int| expands_next(pool, width, at)
}

/// Pool and measured nodes after `steps` expansions, where `start` was measured
/// before. Each time the nearest entry that is still to be expanded is: the
/// nodes that its edges lead to are visited.
pub open spec fn after_steps<D: DistanceAlgorithm<ID>, ID>(
    features: Seq<ID>,
    adj: Seq<Seq<u32>>,
    query: ID,
    width: int,
    start: Seq<Entry>,
    steps: nat,
) -> (Seq<Marked>, Seq<Entry>)
    decreases steps,
{
    if steps == 0 {
        (pool_of(start), start)
    } else {
        let (pool, seen) = after_steps::<D, ID>(
            features,
            adj,
            query,
            width,
            start,
            (steps - 1) as nat,
        );
        let at = choose|at: int| expands_next(pool, width, at);
        let (x, d, _) = pool[at];
        visiting::<D, ID>(
            features,
            query,
            width,
            adj[x as int],
            pool.update(at, (x, d, false)),
            seen,
        )
    }
}

/// `steps` expansions are possible, and lead from `start` to `pool` and `seen`
/// with nothing left to expand.
pub open spec fn leads_to<D: DistanceAlgorithm<ID>, ID>(
    features: Seq<ID>,
    adj: Seq<Seq<u32>>,
    query: ID,
    width: int,
    start: Seq<Entry>,
    steps: nat,
    pool: Seq<Entry>,
    seen: Seq<Entry>,
) -> bool {
    let end = after_steps::<D, ID>(features, adj, query, width, start, steps);
    &&& forall|t: nat|
        t < steps ==> unfinished(
            (#[trigger] after_steps::<D, ID>(features, adj, query, width, start, t)).0,
            width,
        )
    &&& !unfinished(end.0, width)
    &&& pool == unmarked(end.0)
    &&& seen == end.1
}

/// What a search for `query` from `enter` with a pool of `ef` comes to, whatever
/// was drawn: `seen` is what was measured, in that order, and `pool` what was
/// kept, nearest first.
///
/// - The targets of the edges of `enter` are measured first, up to `ef` of them.
/// - Where these are too few, random nodes make the pool up to its width.
/// - From there on nothing is left to chance: the nearest entry is expanded time
///   and again until none is left to expand.
///
/// It follows of what is kept and measured:
///
/// - Whatever is measured after the start ends an edge from a node measured
///   before.
/// - The pool holds the nearest of what was measured.
/// - The pool has been expanded: where its edges lead has been measured.
pub open spec fn search_outcome<D: DistanceAlgorithm<ID>, ID>(
    features: Seq<ID>,
    adj: Seq<Seq<u32>>,
    enter: int,
    query: ID,
    ef: int,
    pool: Seq<Entry>,
    seen: Seq<Entry>,
) -> bool {
    let width = lesser(ef, features.len() as int);
    let first = adj[enter];
    let taken = lesser(ef, first.len() as int);
    &&& measured::<D, ID>(pool, features, query)
    &&& measured::<D, ID>(seen, features, query)
    &&& by_distance(pool)
    &&& width <= pool.len()
    &&& first.no_duplicates() ==> pool.len() == width && distinct(pool) && distinct(seen)
    &&& greater(taken, width) <= seen.len()
    &&& forall|i: int| 0 <= i < taken ==> (#[trigger] seen[i]).0 == first[i]
    &&& forall|i: int|
        taken <= i < greater(taken, width) ==> !lists(seen.take(i), (#[trigger] seen[i]).0)
    &&& exists|steps: nat| #[trigger]
        leads_to::<D, ID>(
            features,
            adj,
            query,
            width,
            seen.take(greater(taken, width)),
            steps,
            pool,
            seen,
        )
    &&& forall|i: int| greater(taken, width) <= i < seen.len() ==> #[trigger] followed(adj, seen, i)
    &&& forall|i: int| 0 <= i < pool.len() ==> seen.contains(#[trigger] pool[i])
    &&& nearest_of(pool, width, seen)
    &&& forall|i: int| 0 <= i < width ==> expanded(adj, (#[trigger] pool[i]).0, seen)
}

/// The first `count` of `nodes`, each with its distance to `query`.
pub open spec fn measured_first<D: DistanceAlgorithm<ID>, ID>(
    features: Seq<ID>,
    query: ID,
    nodes: Seq<u32>,
    count: int,
) -> Seq<Entry> {
    Seq::new(
        count as nat,
        |i: int| (nodes[i] as usize, D::distance(features[nodes[i] as int], query)),
    )
}

/// `s` made up to `width` entries with those nodes of `order` that it lacks, in
/// their order.
pub open spec fn made_up<D: DistanceAlgorithm<ID>, ID>(
    features: Seq<ID>,
    query: ID,
    width: int,
    s: Seq<Entry>,
    order: Seq<usize>,
) -> Seq<Entry>
    decreases order.len(),
{
    if order.len() == 0 {
        s
    } else {
        let t = made_up::<D, ID>(features, query, width, s, order.drop_last());
        let x = order.last();
        if t.len() < width && x < features.len() && !lists(t, x) {
            t.push((x, D::distance(features[x as int], query)))
        } else {
            t
        }
    }
}

/// The points below `n` in their order.
pub open spec fn in_order(n: nat) -> Seq<usize> {
    Seq::new(n, |i: int| i as usize)
}

/// Where a search starts that makes its pool up along `order`: with the targets
/// of the edges of `enter`, up to `ef` of them, then with nodes of `order`, and
/// with any others where these are too few.
pub open spec fn steady_start<D: DistanceAlgorithm<ID>, ID>(
    features: Seq<ID>,
    adj: Seq<Seq<u32>>,
    enter: int,
    query: ID,
    ef: int,
    order: Seq<usize>,
) -> Seq<Entry> {
    let taken = lesser(ef, adj[enter].len() as int);
    made_up::<D, ID>(
        features,
        query,
        lesser(ef, features.len() as int),
        measured_first::<D, ID>(features, query, adj[enter], taken),
        order + in_order(features.len()),
    )
}

/// What a search comes to that makes its pool up along `order`.
pub open spec fn steady_outcome<D: DistanceAlgorithm<ID>, ID>(
    features: Seq<ID>,
    adj: Seq<Seq<u32>>,
    enter: int,
    query: ID,
    ef: int,
    order: Seq<usize>,
    pool: Seq<Entry>,
    seen: Seq<Entry>,
) -> bool {
    let width = lesser(ef, features.len() as int);
    let taken = lesser(ef, adj[enter].len() as int);
    &&& search_outcome::<D, ID>(features, adj, enter, query, ef, pool, seen)
    &&& seen.take(greater(taken, width)) == steady_start::<D, ID>(
        features,
        adj,
        enter,
        query,
        ef,
        order,
    )
}

// ---------------------------------------------------------------------------
// The search
// ---------------------------------------------------------------------------

/// Measures node `x` and puts it into the pool, still to be expanded.
fn enter_pool<D: DistanceAlgorithm<ID>, ID>(
    pool: &mut Vec<Marked>,
    seen: &mut Vec<Entry>,
    features: &Vec<ID>,
    query: &ID,
    distance: &D,
    x: usize,
)
    requires
        x < features@.len(),
        D::admits(features@[x as int]),
        D::admits(*query),
        by_distance(unmarked(old(pool)@)),
    ensures
        ({
            let d = D::distance(features@[x as int], *query);
            &&& final(seen)@ == old(seen)@.push((x, d))
            &&& 0 <= rank(unmarked(old(pool)@), d) <= old(pool)@.len()
            &&& final(pool)@ == old(pool)@.insert(
                rank(unmarked(old(pool)@), d),
                (x, d, true),
            )
        }),
{
    let score: u32 = distance.calculate_distance(&features[x], query);
    let pos: usize = marked_rank_of(pool, score);
    pool.insert(pos, (x, score, true));
    seen.push((x, score));
}

/// While the pool is filled it holds exactly what has been measured.
spec fn filling<D: DistanceAlgorithm<ID>, ID>(
    features: Seq<ID>,
    first: Seq<u32>,
    query: ID,
    pool: Seq<Marked>,
    seen: Seq<Entry>,
) -> bool {
    let p = unmarked(pool);
    &&& pool == pool_of(seen)
    &&& pool.len() == seen.len()
    &&& measured::<D, ID>(p, features, query)
    &&& measured::<D, ID>(seen, features, query)
    &&& by_distance(p)
    &&& first.no_duplicates() ==> distinct(p) && distinct(seen)
    &&& forall|e: Entry| p.contains(e) <==> #[trigger] seen.contains(e)
    &&& forall|i: int| 0 <= i < pool.len() ==> (#[trigger] pool[i]).2
}

proof fn lemma_push_lists(s: Seq<Entry>, e: Entry)
    ensures
        forall|x: usize|
            #![trigger lists(s.push(e), x)]
            #![trigger lists(s, x)]
            lists(s.push(e), x) <==> (lists(s, x) || x == e.0),
        forall|x: Entry|
            #![trigger s.push(e).contains(x)]
            #![trigger s.contains(x)]
            s.push(e).contains(x) <==> (s.contains(x) || x == e),
        distinct(s) && !lists(s, e.0) ==> distinct(s.push(e)),
{
    assert(s.push(e) =~= s.insert(s.len() as int, e));
    lemma_insert_lists(s, s.len() as int, e);
    if distinct(s) && !lists(s, e.0) {
        lemma_insert_distinct(s, s.len() as int, e);
    }
}

/// What comes first stays first.
proof fn lemma_push_takes(s: Seq<Entry>, e: Entry)
    ensures
        forall|k: int| 0 <= k <= s.len() ==> #[trigger] s.push(e).take(k) == s.take(k),
        s.take(s.len() as int) == s,
{
    assert forall|k: int| 0 <= k <= s.len() implies #[trigger] s.push(e).take(k) == s.take(k) by {
        assert(s.push(e).take(k) =~= s.take(k));
    }
    assert(s.take(s.len() as int) =~= s);
}

proof fn lemma_filling_step<D: DistanceAlgorithm<ID>, ID>(
    features: Seq<ID>,
    first: Seq<u32>,
    query: ID,
    pool: Seq<Marked>,
    seen: Seq<Entry>,
    x: usize,
)
    requires
        filling::<D, ID>(features, first, query, pool, seen),
        x < features.len(),
        first.no_duplicates() ==> !lists(seen, x),
    ensures
        ({
            let d = D::distance(features[x as int], query);
            filling::<D, ID>(
                features,
                first,
                query,
                pool.insert(rank(unmarked(pool), d), (x, d, true)),
                seen.push((x, d)),
            )
        }),
{
    let d = D::distance(features[x as int], query);
    let p = unmarked(pool);
    let r = rank(p, d);
    let pool2 = pool.insert(r, (x, d, true));
    let seen2 = seen.push((x, d));
    lemma_insert_sorted(p, (x, d));
    lemma_unmarked_insert(pool, r, (x, d, true));
    lemma_insert_lists(p, r, (x, d));
    lemma_push_lists(seen, (x, d));
    assert(seen2.drop_last() =~= seen);
    if first.no_duplicates() {
        if lists(p, x) {
            let k = choose|k: int| 0 <= k < p.len() && (#[trigger] p[k]).0 == x;
            assert(p.contains(p[k]));
            assert(seen.contains(p[k]));
            let l = choose|l: int| 0 <= l < seen.len() && seen[l] == p[k];
            assert(seen[l].0 == x);
        }
        lemma_insert_distinct(p, r, (x, d));
    }
    assert forall|e: Entry| unmarked(pool2).contains(e) <==> #[trigger] seen2.contains(e) by {
        assert(seen.contains(e) <==> p.contains(e));
    }
    assert forall|i: int| 0 <= i < pool2.len() implies (#[trigger] pool2[i]).2 by {
        if i < r {
            assert(pool2[i] == pool[i]);
        } else if i > r {
            assert(pool2[i] == pool[i - 1]);
        }
    }
    assert forall|i: int| 0 <= i < pool2.len() implies ({
        &&& (#[trigger] unmarked(pool2)[i]).0 < features.len()
        &&& unmarked(pool2)[i].1 == D::distance(features[unmarked(pool2)[i].0 as int], query)
    }) by {
        if i < r {
            assert(unmarked(pool2)[i] == p[i]);
        } else if i > r {
            assert(unmarked(pool2)[i] == p[i - 1]);
        }
    }
}

/// What holds while the pool is filled: the targets of the edges of `enter` came
/// first, and every node after them is a new one.
spec fn started<D: DistanceAlgorithm<ID>, ID>(
    features: Seq<ID>,
    first: Seq<u32>,
    query: ID,
    taken: int,
    scratch: SearchScratch,
    pool: Seq<Marked>,
    seen: Seq<Entry>,
) -> bool {
    &&& scratch.wf()
    &&& scratch.size() == features.len()
    &&& forall|k: int|
        0 <= k < features.len() ==> (#[trigger] scratch.holds(k) <==> lists(seen, k as usize))
    &&& filling::<D, ID>(features, first, query, pool, seen)
    &&& 0 <= taken <= seen.len()
    &&& forall|k: int| 0 <= k < taken ==> (#[trigger] seen[k]).0 == first[k]
    &&& forall|k: int, l: int|
        taken <= k < l < seen.len() ==> (#[trigger] seen[k]).0 != (#[trigger] seen[l]).0
    &&& forall|k: int| taken <= k < seen.len() ==> !lists(seen.take(k), (#[trigger] seen[k]).0)
}

/// The pool is filled.
spec fn ready<D: DistanceAlgorithm<ID>, ID>(
    features: Seq<ID>,
    first: Seq<u32>,
    query: ID,
    ef: int,
    scratch: SearchScratch,
    pool: Seq<Marked>,
    seen: Seq<Entry>,
) -> bool {
    let taken = lesser(ef, first.len() as int);
    let width = lesser(ef, features.len() as int);
    &&& started::<D, ID>(features, first, query, taken, scratch, pool, seen)
    &&& seen.len() == greater(taken, width)
}

/// Takes the targets of the edges of `enter` into an empty pool, up to `ef` of
/// them.
fn fill_from_edges<D: DistanceAlgorithm<ID>, ID>(
    features: &Vec<ID>,
    graph: &Vec<NsgNode>,
    enter: usize,
    distance: &D,
    query: &ID,
    ef: usize,
    scratch: &mut SearchScratch,
) -> (r: (Vec<Marked>, Vec<Entry>))
    requires
        old(scratch).wf(),
        graph_on(adjacency(graph@), features@.len() as int),
        enter < graph@.len(),
        all_admitted::<D, ID>(features@),
        D::admits(*query),
    ensures
        ({
            let first = graph@[enter as int].neighbors@;
            let taken = lesser(ef as int, first.len() as int);
            &&& started::<D, ID>(features@, first, *query, taken, *final(scratch), r.0@, r.1@)
            &&& r.1@ == measured_first::<D, ID>(features@, *query, first, taken)
        }),
{
    let n: usize = features.len();
    scratch.begin(n);
    let mut pool: Vec<Marked> = Vec::new();
    let mut seen: Vec<Entry> = Vec::new();
    let first: &Vec<u32> = graph[enter].active_neighbors();
    let ghost adj = adjacency(graph@);
    assert(adj[enter as int] == first@);
    let mut i: usize = 0;
    while i < first.len() && pool.len() < ef
        invariant
            n == features@.len(),
            enter < graph@.len(),
            adj == adjacency(graph@),
            graph_on(adj, n as int),
            adj[enter as int] == first@,
            all_admitted::<D, ID>(features@),
            D::admits(*query),
            started::<D, ID>(features@, first@, *query, i as int, *scratch, pool@, seen@),
            i == seen@.len(),
            i <= first@.len(),
            i <= ef,
        decreases first@.len() - i,
    {
        assert(adj[enter as int][i as int] < n);
        let x: usize = first[i] as usize;
        proof {
            if first@.no_duplicates() && lists(seen@, x) {
                let k = choose|k: int| 0 <= k < seen@.len() && (#[trigger] seen@[k]).0 == x;
                assert(first@[k] == first@[i as int]);
            }
            lemma_filling_step::<D, ID>(features@, first@, *query, pool@, seen@, x);
            lemma_push_lists(seen@, (x, D::distance(features@[x as int], *query)));
        }
        scratch.mark(x);
        enter_pool(&mut pool, &mut seen, features, query, distance, x);
        i = i + 1;
    }
    assert(i == lesser(ef as int, first@.len() as int));
    assert(seen@ =~= measured_first::<D, ID>(features@, *query, first@, i as int)) by {
        assert forall|k: int| 0 <= k < i implies seen@[k] == measured_first::<D, ID>(
            features@,
            *query,
            first@,
            i as int,
        )[k] by {
            assert(seen@[k].0 == first@[k]);
        }
    }
    (pool, seen)
}

/// Takes node `x` into the pool, if it is new.
fn take_in<D: DistanceAlgorithm<ID>, ID>(
    features: &Vec<ID>,
    distance: &D,
    query: &ID,
    x: usize,
    pool: &mut Vec<Marked>,
    seen: &mut Vec<Entry>,
    scratch: &mut SearchScratch,
    first: Ghost<Seq<u32>>,
    taken: Ghost<int>,
)
    requires
        x < features@.len(),
        all_admitted::<D, ID>(features@),
        D::admits(*query),
        started::<D, ID>(features@, first@, *query, taken@, *old(scratch), old(pool)@, old(seen)@),
    ensures
        started::<D, ID>(
            features@,
            first@,
            *query,
            taken@,
            *final(scratch),
            final(pool)@,
            final(seen)@,
        ),
        final(seen)@ == if lists(old(seen)@, x) {
            old(seen)@
        } else {
            old(seen)@.push((x, D::distance(features@[x as int], *query)))
        },
{
    assert(features.len() == features@.len());
    assert(scratch.holds(x as int) <==> lists(seen@, x));
    if scratch.visit(x) {
        proof {
            lemma_filling_step::<D, ID>(features@, first@, *query, pool@, seen@, x);
            lemma_push_lists(seen@, (x, D::distance(features@[x as int], *query)));
            lemma_push_takes(seen@, (x, D::distance(features@[x as int], *query)));
        }
        enter_pool(pool, seen, features, query, distance, x);
    }
}

/// Takes the nodes from 0 on into the pool until it has `width` entries.
fn fill_in_order<D: DistanceAlgorithm<ID>, ID>(
    features: &Vec<ID>,
    distance: &D,
    query: &ID,
    width: usize,
    pool: &mut Vec<Marked>,
    seen: &mut Vec<Entry>,
    scratch: &mut SearchScratch,
    first: Ghost<Seq<u32>>,
    taken: Ghost<int>,
)
    requires
        width <= features@.len(),
        all_admitted::<D, ID>(features@),
        D::admits(*query),
        started::<D, ID>(features@, first@, *query, taken@, *old(scratch), old(pool)@, old(seen)@),
    ensures
        started::<D, ID>(
            features@,
            first@,
            *query,
            taken@,
            *final(scratch),
            final(pool)@,
            final(seen)@,
        ),
        final(seen)@.len() == greater(old(seen)@.len() as int, width as int),
        final(seen)@ == made_up::<D, ID>(
            features@,
            *query,
            width as int,
            old(seen)@,
            in_order(features@.len()),
        ),
{
    let n: usize = features.len();
    let ghost seen0 = seen@;
    let mut next: usize = 0;
    assert(in_order(n as nat).take(0) =~= Seq::<usize>::empty());
    while next < n
        invariant
            n == features@.len(),
            width <= n,
            all_admitted::<D, ID>(features@),
            D::admits(*query),
            started::<D, ID>(features@, first@, *query, taken@, *scratch, pool@, seen@),
            next <= n,
            seen@.len() >= seen0.len(),
            seen@.len() == seen0.len() || seen@.len() <= width,
            seen@ == made_up::<D, ID>(
                features@,
                *query,
                width as int,
                seen0,
                in_order(n as nat).take(next as int),
            ),
            seen@.len() < width ==> forall|k: usize| k < next ==> #[trigger] lists(seen@, k),
        decreases n - next,
    {
        let ghost before = seen@;
        proof {
            let upto = in_order(n as nat).take(next + 1);
            assert(upto.drop_last() =~= in_order(n as nat).take(next as int));
            assert(upto.last() == next);
        }
        if pool.len() < width {
            take_in(features, distance, query, next, pool, seen, scratch, first, taken);
            proof {
                if !lists(before, next) {
                    lemma_push_lists(before, (next, D::distance(features@[next as int], *query)));
                }
            }
        }
        next = next + 1;
    }
    proof {
        assert(in_order(n as nat).take(n as int) =~= in_order(n as nat));
        if seen@.len() < width {
            let all = points(seen@);
            lemma_one_missing(all, n as nat);
            let x = choose|x: usize| x < n && !all.contains(x);
            assert(lists(seen@, x));
            let k = choose|k: int| 0 <= k < seen@.len() && (#[trigger] seen@[k]).0 == x;
            assert(all[k] == x);
        }
    }
}

/// Fills the pool before the first expansion: with the targets of the edges of
/// `enter`, then with random nodes. After `u64::MAX` draws, the nodes that are
/// still missing are taken in order.
fn fill_pool<D: DistanceAlgorithm<ID>, ID>(
    features: &Vec<ID>,
    graph: &Vec<NsgNode>,
    enter: usize,
    distance: &D,
    rng: &mut StdRng,
    query: &ID,
    ef: usize,
    scratch: &mut SearchScratch,
) -> (r: (Vec<Marked>, Vec<Entry>))
    requires
        old(scratch).wf(),
        graph_on(adjacency(graph@), features@.len() as int),
        enter < graph@.len(),
        all_admitted::<D, ID>(features@),
        D::admits(*query),
    ensures
        ready::<D, ID>(
            features@,
            graph@[enter as int].neighbors@,
            *query,
            ef as int,
            *final(scratch),
            r.0@,
            r.1@,
        ),
{
    let n: usize = features.len();
    let (mut pool, mut seen) = fill_from_edges(
        features,
        graph,
        enter,
        distance,
        query,
        ef,
        scratch,
    );
    let width: usize = if ef < n {
        ef
    } else {
        n
    };
    let ghost first = graph@[enter as int].neighbors@;
    let ghost taken = lesser(ef as int, first.len() as int);
    let mut budget: u64 = u64::MAX;
    while pool.len() < width && budget > 0
        invariant
            n == features@.len(),
            all_admitted::<D, ID>(features@),
            D::admits(*query),
            started::<D, ID>(features@, first, *query, taken, *scratch, pool@, seen@),
            width <= n,
            seen@.len() == taken || seen@.len() <= width,
        decreases budget,
    {
        budget = budget - 1;
        let x: usize = random_index(rng, n);
        take_in(
            features,
            distance,
            query,
            x,
            &mut pool,
            &mut seen,
            scratch,
            Ghost(first),
            Ghost(taken),
        );
    }
    fill_in_order(
        features,
        distance,
        query,
        width,
        &mut pool,
        &mut seen,
        scratch,
        Ghost(first),
        Ghost(taken),
    );
    (pool, seen)
}

/// Fills the pool before the first expansion: with the targets of the edges of
/// `enter`, then with nodes along `order`, and with any others where these are
/// too few.
fn fill_along<D: DistanceAlgorithm<ID>, ID>(
    features: &Vec<ID>,
    graph: &Vec<NsgNode>,
    enter: usize,
    distance: &D,
    order: &Vec<usize>,
    query: &ID,
    ef: usize,
    scratch: &mut SearchScratch,
) -> (r: (Vec<Marked>, Vec<Entry>))
    requires
        old(scratch).wf(),
        graph_on(adjacency(graph@), features@.len() as int),
        enter < graph@.len(),
        all_admitted::<D, ID>(features@),
        D::admits(*query),
    ensures
        ready::<D, ID>(
            features@,
            graph@[enter as int].neighbors@,
            *query,
            ef as int,
            *final(scratch),
            r.0@,
            r.1@,
        ),
        r.1@ == steady_start::<D, ID>(
            features@,
            adjacency(graph@),
            enter as int,
            *query,
            ef as int,
            order@,
        ),
{
    let n: usize = features.len();
    let (mut pool, mut seen) = fill_from_edges(
        features,
        graph,
        enter,
        distance,
        query,
        ef,
        scratch,
    );
    let width: usize = if ef < n {
        ef
    } else {
        n
    };
    let ghost first = graph@[enter as int].neighbors@;
    let ghost taken = lesser(ef as int, first.len() as int);
    let ghost seen0 = seen@;
    assert(adjacency(graph@)[enter as int] == first);
    let mut i: usize = 0;
    assert(order@.take(0) =~= Seq::<usize>::empty());
    while i < order.len()
        invariant
            n == features@.len(),
            all_admitted::<D, ID>(features@),
            D::admits(*query),
            started::<D, ID>(features@, first, *query, taken, *scratch, pool@, seen@),
            width <= n,
            i <= order@.len(),
            seen@.len() == taken || seen@.len() <= width,
            seen@ == made_up::<D, ID>(
                features@,
                *query,
                width as int,
                seen0,
                order@.take(i as int),
            ),
        decreases order@.len() - i,
    {
        proof {
            let upto = order@.take(i + 1);
            assert(upto.drop_last() =~= order@.take(i as int));
            assert(upto.last() == order@[i as int]);
        }
        let x: usize = order[i];
        if pool.len() < width && x < n {
            take_in(
                features,
                distance,
                query,
                x,
                &mut pool,
                &mut seen,
                scratch,
                Ghost(first),
                Ghost(taken),
            );
        }
        i = i + 1;
    }
    assert(order@.take(i as int) =~= order@);
    fill_in_order(
        features,
        distance,
        query,
        width,
        &mut pool,
        &mut seen,
        scratch,
        Ghost(first),
        Ghost(taken),
    );
    proof {
        lemma_made_up_on::<D, ID>(
            features@,
            *query,
            width as int,
            seen0,
            order@,
            in_order(n as nat),
        );
    }
    (pool, seen)
}

/// Making up goes on where it stopped.
proof fn lemma_made_up_on<D: DistanceAlgorithm<ID>, ID>(
    features: Seq<ID>,
    query: ID,
    width: int,
    s: Seq<Entry>,
    a: Seq<usize>,
    b: Seq<usize>,
)
    ensures
        made_up::<D, ID>(features, query, width, s, a + b) == made_up::<D, ID>(
            features,
            query,
            width,
            made_up::<D, ID>(features, query, width, s, a),
            b,
        ),
    decreases b.len(),
{
    if b.len() == 0 {
        assert(a + b =~= a);
    } else {
        assert((a + b).drop_last() =~= a + b.drop_last());
        lemma_made_up_on::<D, ID>(features, query, width, s, a, b.drop_last());
    }
}

/// What holds of pool and measured nodes from the first expansion on.
spec fn searching<D: DistanceAlgorithm<ID>, ID>(
    features: Seq<ID>,
    adj: Seq<Seq<u32>>,
    enter: int,
    query: ID,
    ef: int,
    pool: Seq<Marked>,
    seen: Seq<Entry>,
) -> bool {
    let p = unmarked(pool);
    let width = lesser(ef, features.len() as int);
    let first = adj[enter];
    let taken = lesser(ef, first.len() as int);
    &&& measured::<D, ID>(p, features, query)
    &&& measured::<D, ID>(seen, features, query)
    &&& by_distance(p)
    &&& 0 <= width <= p.len()
    &&& first.no_duplicates() ==> p.len() == width && distinct(p) && distinct(seen)
    &&& greater(taken, width) <= seen.len()
    &&& forall|i: int| 0 <= i < taken ==> (#[trigger] seen[i]).0 == first[i]
    &&& forall|i: int| greater(taken, width) <= i < seen.len() ==> #[trigger] followed(adj, seen, i)
    &&& forall|i: int| 0 <= i < p.len() ==> seen.contains(#[trigger] p[i])
    &&& nearest_of(p, width, seen)
    &&& forall|i: int, j: int|
        taken <= i < j < seen.len() ==> (#[trigger] seen[i]).0 != (#[trigger] seen[j]).0
}

/// Every entry that is no longer to be expanded has been, but for `skip`.
spec fn settled(
    adj: Seq<Seq<u32>>,
    pool: Seq<Marked>,
    seen: Seq<Entry>,
    skip: Option<usize>,
) -> bool {
    forall|i: int|
        0 <= i < pool.len() && !(#[trigger] pool[i]).2 ==> expanded(adj, pool[i].0, seen) || skip
            == Some(pool[i].0)
}

proof fn lemma_expanded_push(adj: Seq<Seq<u32>>, x: usize, seen: Seq<Entry>, e: Entry)
    requires
        expanded(adj, x, seen),
    ensures
        expanded(adj, x, seen.push(e)),
{
    lemma_push_lists(seen, e);
}

/// An entry nearer than the last of the pool goes before it.
proof fn lemma_rank_before_last(p: Seq<Entry>, width: int, d: u32)
    requires
        by_distance(p),
        0 < width <= p.len(),
        d < p[width - 1].1,
    ensures
        0 <= rank(p, d) < width,
        rank(p.drop_last(), d) == rank(p, d),
{
    lemma_rank(p, d);
    if rank(p, d) >= width {
        assert(p[width - 1].1 <= d);
    }
    assert(p[width - 1].1 <= p.last().1);
}

#[verifier::spinoff_prover]
proof fn lemma_offer<D: DistanceAlgorithm<ID>, ID>(
    features: Seq<ID>,
    adj: Seq<Seq<u32>>,
    enter: int,
    query: ID,
    ef: int,
    pool: Seq<Marked>,
    seen: Seq<Entry>,
    x: usize,
    skip: Option<usize>,
)
    requires
        searching::<D, ID>(features, adj, enter, query, ef, pool, seen),
        lesser(ef, features.len() as int) > 0,
        x < features.len(),
        !lists(seen, x),
        settled(adj, pool, seen, skip),
        exists|j: int, k: int|
            0 <= j < seen.len() && 0 <= k < adj[seen[j].0 as int].len()
                && #[trigger] adj[seen[j].0 as int][k] == x,
    ensures
        ({
            let e = (x, D::distance(features[x as int], query));
            let width = lesser(ef, features.len() as int);
            let pool2 = offered(pool, width, e);
            &&& searching::<D, ID>(features, adj, enter, query, ef, pool2, seen.push(e))
            &&& settled(adj, pool2, seen.push(e), skip)
        }),
{
    let d = D::distance(features[x as int], query);
    let e = (x, d);
    let m = (x, d, true);
    let width = lesser(ef, features.len() as int);
    let p = unmarked(pool);
    let pool2 = offered(pool, width, e);
    let p2 = unmarked(pool2);
    let seen2 = seen.push(e);
    let r = rank(p, d);
    let first = adj[enter];
    let taken = lesser(ef, first.len() as int);
    lemma_push_lists(seen, e);
    assert(seen2[seen.len() as int] == e);
    assert(seen2.contains(e));
    assert(p[width - 1].1 == pool[width - 1].1);
    // where the new entry was measured
    assert(followed(adj, seen2, seen.len() as int)) by {
        let (j, k) = choose|j: int, k: int|
            0 <= j < seen.len() && 0 <= k < adj[seen[j].0 as int].len()
                && #[trigger] adj[seen[j].0 as int][k] == x;
        assert(seen2[j] == seen[j]);
        assert(adj[seen2[j].0 as int][k] == x);
    }
    assert forall|i: int| greater(taken, width) <= i < seen2.len() implies #[trigger] followed(
        adj,
        seen2,
        i,
    ) by {
        if i < seen.len() {
            assert(followed(adj, seen, i));
            let (j, k) = choose|j: int, k: int|
                0 <= j < i && 0 <= k < adj[seen[j].0 as int].len()
                    && #[trigger] adj[seen[j].0 as int][k] == seen[i].0;
            assert(seen2[j] == seen[j] && seen2[i] == seen[i]);
            assert(adj[seen2[j].0 as int][k] == seen2[i].0);
        }
    }
    assert forall|i: int, j: int| taken <= i < j < seen2.len() implies (#[trigger] seen2[i]).0 != (
    #[trigger] seen2[j]).0 by {
        assert(seen2[i] == seen[i]);
        if j < seen.len() {
            assert(seen2[j] == seen[j]);
        } else {
            assert(seen[i].0 != x);
        }
    }
    assert(measured::<D, ID>(seen2, features, query)) by {
        assert forall|i: int| 0 <= i < seen2.len() implies ({
            &&& (#[trigger] seen2[i]).0 < features.len()
            &&& seen2[i].1 == D::distance(features[seen2[i].0 as int], query)
        }) by {
            if i < seen.len() {
                assert(seen2[i] == seen[i]);
            }
        }
    }
    // the point is new to the pool as well
    assert(!lists(p, x)) by {
        if lists(p, x) {
            let k = choose|k: int| 0 <= k < p.len() && (#[trigger] p[k]).0 == x;
            assert(seen.contains(p[k]));
            let l = choose|l: int| 0 <= l < seen.len() && seen[l] == p[k];
            assert(seen[l].0 == x);
        }
    }
    if d < pool[width - 1].1 {
        lemma_rank_before_last(p, width, d);
        let base = if pool.len() == width {
            pool.drop_last()
        } else {
            pool
        };
        let b = unmarked(base);
        assert(pool2 == base.insert(r, m));
        assert(b =~= if pool.len() == width {
            p.drop_last()
        } else {
            p
        });
        assert(by_distance(b)) by {
            assert forall|i: int, j: int| 0 <= i <= j < b.len() implies (#[trigger] b[i]).1 <= (
            #[trigger] b[j]).1 by {
                assert(b[i] == p[i] && b[j] == p[j]);
            }
        }
        lemma_unmarked_insert(base, r, m);
        assert(p2 == b.insert(r, e));
        lemma_insert_sorted(b, e);
        assert(rank(b, d) == r);
        assert forall|i: int| 0 <= i < p2.len() implies ({
            &&& (#[trigger] p2[i]).0 < features.len()
            &&& p2[i].1 == D::distance(features[p2[i].0 as int], query)
            &&& seen2.contains(p2[i])
        }) by {
            if i < r {
                assert(p2[i] == p[i]);
                assert(seen.contains(p[i]));
            } else if i > r {
                assert(p2[i] == p[i - 1]);
                assert(seen.contains(p[i - 1]));
            }
        }
        if first.no_duplicates() {
            assert(distinct(b)) by {
                assert forall|i: int, j: int| 0 <= i < j < b.len() implies (#[trigger] b[i]).0 != (
                #[trigger] b[j]).0 by {
                    assert(b[i] == p[i] && b[j] == p[j]);
                }
            }
            assert(!lists(b, x)) by {
                if lists(b, x) {
                    let k = choose|k: int| 0 <= k < b.len() && (#[trigger] b[k]).0 == x;
                    assert(p[k].0 == x);
                }
            }
            lemma_insert_distinct(b, r, e);
        }
        assert(nearest_of(p2, width, seen2)) by {
            assert forall|i: int| 0 <= i < seen2.len() implies (p2.take(width).contains(
                #[trigger] seen2[i],
            ) || width == 0 || p2[width - 1].1 <= seen2[i].1) by {
                if i == seen.len() {
                    assert(p2.take(width)[r] == e);
                } else {
                    assert(seen2[i] == seen[i]);
                    assert(p2[width - 1].1 <= p[width - 1].1) by {
                        if r < width - 1 {
                            assert(p2[width - 1] == p[width - 2]);
                        } else {
                            assert(p2[width - 1] == e);
                        }
                    }
                    if p.take(width).contains(seen[i]) {
                        let k = choose|k: int| 0 <= k < width && p.take(width)[k] == seen[i];
                        assert(p[k] == seen[i]);
                        if k < r {
                            assert(p2.take(width)[k] == p[k]);
                        } else if k < width - 1 {
                            assert(p2.take(width)[k + 1] == p[k]);
                        } else {
                            assert(seen[i].1 == p[width - 1].1);
                        }
                    }
                }
            }
        }
        assert(settled(adj, pool2, seen2, skip)) by {
            assert forall|i: int|
                0 <= i < pool2.len() && !(#[trigger] pool2[i]).2 implies expanded(
                adj,
                pool2[i].0,
                seen2,
            ) || skip == Some(pool2[i].0) by {
                let i0 = if i < r {
                    i
                } else {
                    i - 1
                };
                if i != r {
                    assert(pool2[i] == pool[i0]);
                    if expanded(adj, pool[i0].0, seen) {
                        lemma_expanded_push(adj, pool[i0].0, seen, e);
                    }
                }
            }
        }
    } else {
        assert(p2 == p);
        assert forall|i: int| 0 <= i < p.len() implies seen2.contains(#[trigger] p[i]) by {
            assert(seen.contains(p[i]));
        }
        assert(nearest_of(p2, width, seen2)) by {
            assert forall|i: int| 0 <= i < seen2.len() implies (p2.take(width).contains(
                #[trigger] seen2[i],
            ) || width == 0 || p2[width - 1].1 <= seen2[i].1) by {
                if i < seen.len() {
                    assert(seen2[i] == seen[i]);
                }
            }
        }
        assert(settled(adj, pool2, seen2, skip)) by {
            assert forall|i: int|
                0 <= i < pool2.len() && !(#[trigger] pool2[i]).2 implies expanded(
                adj,
                pool2[i].0,
                seen2,
            ) || skip == Some(pool2[i].0) by {
                if expanded(adj, pool[i].0, seen) {
                    lemma_expanded_push(adj, pool[i].0, seen, e);
                }
            }
        }
    }
}

/// Measures the nodes that the edges of `cand` lead to, as far as they are new,
/// and offers each to the pool. Returns the first position of the pool that was
/// written, or the width where none was.
fn expand<D: DistanceAlgorithm<ID>, ID>(
    features: &Vec<ID>,
    graph: &Vec<NsgNode>,
    enter: usize,
    distance: &D,
    query: &ID,
    ef: usize,
    width: usize,
    cand: usize,
    pool: &mut Vec<Marked>,
    seen: &mut Vec<Entry>,
    scratch: &mut SearchScratch,
) -> (earliest: usize)
    requires
        old(scratch).wf(),
        old(scratch).size() == features@.len(),
        graph_on(adjacency(graph@), features@.len() as int),
        enter < graph@.len(),
        all_admitted::<D, ID>(features@),
        D::admits(*query),
        width == lesser(ef as int, features@.len() as int),
        width > 0,
        cand < features@.len(),
        lists(old(seen)@, cand),
        searching::<D, ID>(
            features@,
            adjacency(graph@),
            enter as int,
            *query,
            ef as int,
            old(pool)@,
            old(seen)@,
        ),
        settled(adjacency(graph@), old(pool)@, old(seen)@, Some(cand)),
        forall|i: int|
            0 <= i < features@.len() ==> (#[trigger] old(scratch).holds(i) <==> lists(
                old(seen)@,
                i as usize,
            )),
    ensures
        final(scratch).wf(),
        final(scratch).size() == features@.len(),
        searching::<D, ID>(
            features@,
            adjacency(graph@),
            enter as int,
            *query,
            ef as int,
            final(pool)@,
            final(seen)@,
        ),
        settled(adjacency(graph@), final(pool)@, final(seen)@, None),
        forall|i: int|
            0 <= i < features@.len() ==> (#[trigger] final(scratch).holds(i) <==> lists(
                final(seen)@,
                i as usize,
            )),
        earliest <= width,
        forall|i: int| 0 <= i < earliest ==> #[trigger] final(pool)@[i] == old(pool)@[i],
        final(seen)@.len() >= old(seen)@.len(),
        earliest < width ==> final(seen)@.len() > old(seen)@.len(),
        final(seen)@.take(old(seen)@.len() as int) == old(seen)@,
        (final(pool)@, final(seen)@) == visiting::<D, ID>(
            features@,
            *query,
            width as int,
            adjacency(graph@)[cand as int],
            old(pool)@,
            old(seen)@,
        ),
{
    let n: usize = features.len();
    let ghost adj = adjacency(graph@);
    let ghost pool0 = pool@;
    let ghost seen0 = seen@;
    let mut earliest: usize = width;
    let targets: &Vec<u32> = graph[cand].active_neighbors();
    assert(adj[cand as int] == targets@);
    assert(targets@.take(0) =~= Seq::<u32>::empty());
    assert(seen0.take(seen0.len() as int) =~= seen0);
    let mut j: usize = 0;
    while j < targets.len()
        invariant
            n == features@.len(),
            adj == adjacency(graph@),
            graph_on(adj, n as int),
            enter < graph@.len(),
            cand < n,
            adj[cand as int] == targets@,
            all_admitted::<D, ID>(features@),
            D::admits(*query),
            width == lesser(ef as int, n as int),
            width > 0,
            scratch.wf(),
            scratch.size() == n,
            searching::<D, ID>(
                features@,
                adj,
                enter as int,
                *query,
                ef as int,
                pool@,
                seen@,
            ),
            settled(adj, pool@, seen@, Some(cand)),
            forall|i: int|
                0 <= i < n ==> (#[trigger] scratch.holds(i) <==> lists(seen@, i as usize)),
            lists(seen@, cand),
            j <= targets@.len(),
            forall|k: int| 0 <= k < j ==> lists(seen@, #[trigger] targets@[k] as usize),
            earliest <= width,
            forall|i: int| 0 <= i < earliest ==> #[trigger] pool@[i] == pool0[i],
            seen@.len() >= seen0.len(),
            earliest < width ==> seen@.len() > seen0.len(),
            seen@.take(seen0.len() as int) == seen0,
            (pool@, seen@) == visiting::<D, ID>(
                features@,
                *query,
                width as int,
                targets@.take(j as int),
                pool0,
                seen0,
            ),
        decreases targets@.len() - j,
    {
        proof {
            let upto = targets@.take(j + 1);
            assert(upto.drop_last() =~= targets@.take(j as int));
            assert(upto.last() == targets@[j as int]);
        }
        assert(adj[cand as int][j as int] < n);
        let x: usize = targets[j] as usize;
        if scratch.visit(x) {
            let score: u32 = distance.calculate_distance(&features[x], query);
            let ghost e = (x, score);
            proof {
                assert(!lists(seen@, x));
                let k = choose|k: int| 0 <= k < seen@.len() && (#[trigger] seen@[k]).0 == cand;
                assert(adj[seen@[k].0 as int][j as int] == x);
                lemma_offer::<D, ID>(
                    features@,
                    adj,
                    enter as int,
                    *query,
                    ef as int,
                    pool@,
                    seen@,
                    x,
                    Some(cand),
                );
                lemma_push_lists(seen@, e);
            }
            let ghost pool1 = pool@;
            let ghost p1 = unmarked(pool@);
            assert(p1[width - 1].1 == pool@[width - 1].1);
            proof {
                lemma_push_takes(seen@, e);
            }
            seen.push((x, score));
            if score < pool[width - 1].1 {
                proof {
                    lemma_rank_before_last(p1, width as int, score);
                }
                let pos: usize = marked_rank_of(pool, score);
                if pool.len() == width {
                    pool.pop();
                    assert(pool@ =~= pool1.drop_last());
                }
                pool.insert(pos, (x, score, true));
                if pos < earliest {
                    earliest = pos;
                }
            }
            assert(pool@ == offered(pool1, width as int, e));
        }
        assert(lists(seen@, x));
        j = j + 1;
    }
    proof {
        assert(targets@.take(j as int) =~= targets@);
        assert(expanded(adj, cand, seen@));
        assert(settled(adj, pool@, seen@, None));
    }
    earliest
}

/// Searches the graph from `enter` for the nodes near `query`, keeping a pool
/// of `ef` of them. Returns the pool and everything that was measured.
pub fn best_first<D: DistanceAlgorithm<ID>, ID>(
    features: &Vec<ID>,
    graph: &Vec<NsgNode>,
    enter: usize,
    distance: &D,
    rng: &mut StdRng,
    query: &ID,
    ef: usize,
    scratch: &mut SearchScratch,
) -> (r: (Vec<Entry>, Vec<Entry>))
    requires
        old(scratch).wf(),
        graph_on(adjacency(graph@), features@.len() as int),
        enter < graph@.len(),
        all_admitted::<D, ID>(features@),
        D::admits(*query),
    ensures
        final(scratch).wf(),
        search_outcome::<D, ID>(
            features@,
            adjacency(graph@),
            enter as int,
            *query,
            ef as int,
            r.0@,
            r.1@,
        ),
{
    let (pool, seen) = fill_pool(features, graph, enter, distance, rng, query, ef, scratch);
    expand_all(features, graph, enter, distance, query, ef, pool, seen, scratch)
}

/// Searches as `best_first` does, but makes the pool up along `order`.
pub fn steady_first<D: DistanceAlgorithm<ID>, ID>(
    features: &Vec<ID>,
    graph: &Vec<NsgNode>,
    enter: usize,
    distance: &D,
    order: &Vec<usize>,
    query: &ID,
    ef: usize,
    scratch: &mut SearchScratch,
) -> (r: (Vec<Entry>, Vec<Entry>))
    requires
        old(scratch).wf(),
        graph_on(adjacency(graph@), features@.len() as int),
        enter < graph@.len(),
        all_admitted::<D, ID>(features@),
        D::admits(*query),
    ensures
        final(scratch).wf(),
        steady_outcome::<D, ID>(
            features@,
            adjacency(graph@),
            enter as int,
            *query,
            ef as int,
            order@,
            r.0@,
            r.1@,
        ),
{
    let (pool, seen) = fill_along(features, graph, enter, distance, order, query, ef, scratch);
    expand_all(features, graph, enter, distance, query, ef, pool, seen, scratch)
}

/// Expands a filled pool until nothing is left to expand.
fn expand_all<D: DistanceAlgorithm<ID>, ID>(
    features: &Vec<ID>,
    graph: &Vec<NsgNode>,
    enter: usize,
    distance: &D,
    query: &ID,
    ef: usize,
    filled: Vec<Marked>,
    entered: Vec<Entry>,
    scratch: &mut SearchScratch,
) -> (r: (Vec<Entry>, Vec<Entry>))
    requires
        graph_on(adjacency(graph@), features@.len() as int),
        enter < graph@.len(),
        all_admitted::<D, ID>(features@),
        D::admits(*query),
        ready::<D, ID>(
            features@,
            graph@[enter as int].neighbors@,
            *query,
            ef as int,
            *old(scratch),
            filled@,
            entered@,
        ),
    ensures
        final(scratch).wf(),
        search_outcome::<D, ID>(
            features@,
            adjacency(graph@),
            enter as int,
            *query,
            ef as int,
            r.0@,
            r.1@,
        ),
        r.1@.take(entered@.len() as int) == entered@,
{
    let n: usize = features.len();
    let width: usize = if ef < n {
        ef
    } else {
        n
    };
    let ghost adj = adjacency(graph@);
    let ghost taken = lesser(ef as int, adj[enter as int].len() as int);
    let mut pool: Vec<Marked> = filled;
    let mut seen: Vec<Entry> = entered;
    proof {
        assert(adj[enter as int] == graph@[enter as int].neighbors@);
        lemma_filled::<D, ID>(features@, adj, enter as int, *query, ef as int, pool@, seen@);
    }
    let ghost start = seen@;
    let ghost mut steps: nat = 0;
    assert(seen@.take(start.len() as int) =~= start);
    let mut current: usize = 0;
    while current < width
        invariant
            n == features@.len(),
            adj == adjacency(graph@),
            graph_on(adj, n as int),
            enter < graph@.len(),
            taken == lesser(ef as int, adj[enter as int].len() as int),
            all_admitted::<D, ID>(features@),
            D::admits(*query),
            width == lesser(ef as int, n as int),
            scratch.wf(),
            scratch.size() == n,
            searching::<D, ID>(
                features@,
                adj,
                enter as int,
                *query,
                ef as int,
                pool@,
                seen@,
            ),
            settled(adj, pool@, seen@, None),
            forall|i: int|
                0 <= i < n ==> (#[trigger] scratch.holds(i) <==> lists(seen@, i as usize)),
            current <= width,
            forall|i: int| 0 <= i < current ==> !(#[trigger] pool@[i]).2,
            start.len() == greater(taken, width as int),
            start.len() <= seen@.len(),
            seen@.take(start.len() as int) == start,
            forall|i: int|
                taken <= i < start.len() ==> !lists(start.take(i), (#[trigger] start[i]).0),
            (pool@, seen@) == after_steps::<D, ID>(
                features@,
                adj,
                *query,
                width as int,
                start,
                steps,
            ),
            forall|t: nat|
                t < steps ==> unfinished(
                    (#[trigger] after_steps::<D, ID>(
                        features@,
                        adj,
                        *query,
                        width as int,
                        start,
                        t,
                    )).0,
                    width as int,
                ),
        decreases taken + n - seen@.len(), width - current,
    {
        let ghost seen0 = seen@;
        let (cand, score, fresh) = pool[current];
        let mut earliest: usize = width;
        assert(unmarked(pool@)[current as int] == (cand, score));
        if fresh {
            let ghost pool0 = pool@;
            pool.set(current, (cand, score, false));
            proof {
                assert(expands_next(pool0, width as int, current as int));
                let at = choose|at: int| expands_next(pool0, width as int, at);
                assert(at == current) by {
                    if at < current {
                        assert(!pool0[at].2);
                    } else if current < at {
                        assert(!pool0[current as int].2);
                    }
                }
                assert(unmarked(pool@) =~= unmarked(pool0));
                assert(seen@.contains(unmarked(pool0)[current as int]));
                let k = choose|k: int| 0 <= k < seen@.len() && seen@[k] == (cand, score);
                assert(seen@[k].0 == cand);
                assert(lists(seen@, cand));
                assert(settled(adj, pool@, seen@, Some(cand))) by {
                    assert forall|i: int|
                        0 <= i < pool@.len() && !(#[trigger] pool@[i]).2 implies expanded(
                        adj,
                        pool@[i].0,
                        seen@,
                    ) || Some(cand) == Some(pool@[i].0) by {
                        if i != current {
                            assert(pool@[i] == pool0[i]);
                        }
                    }
                }
            }
            earliest =
            expand(
                features,
                graph,
                enter,
                distance,
                query,
                ef,
                width,
                cand,
                &mut pool,
                &mut seen,
                scratch,
            );
            proof {
                assert(seen@.take(start.len() as int) =~= start) by {
                    assert(seen0.take(start.len() as int) =~= seen@.take(start.len() as int));
                }
                let before = steps;
                steps = steps + 1;
                assert forall|t: nat| t < steps implies unfinished(
                    (#[trigger] after_steps::<D, ID>(
                        features@,
                        adj,
                        *query,
                        width as int,
                        start,
                        t,
                    )).0,
                    width as int,
                ) by {
                    if t == before {
                        assert(expands_next(pool0, width as int, current as int));
                    }
                }
            }
        }
        proof {
            lemma_seen_bound::<D, ID>(
                features@,
                adj,
                enter as int,
                *query,
                ef as int,
                pool@,
                seen@,
            );
        }
        if earliest <= current {
            current = earliest;
        } else {
            current = current + 1;
        }
    }
    let kept: Vec<Entry> = strip(&pool);
    proof {
        assert forall|i: int| 0 <= i < width implies expanded(adj, (#[trigger] kept@[i]).0, seen@) by {
            assert(!pool@[i].2);
            assert(kept@[i] == (pool@[i].0, pool@[i].1));
        }
        assert forall|i: int| taken <= i < start.len() implies !lists(
            seen@.take(i),
            (#[trigger] seen@[i]).0,
        ) by {
            assert(seen@.take(i) =~= start.take(i));
            assert(seen@[i] == start[i]);
        }
        assert(!unfinished(pool@, width as int)) by {
            if unfinished(pool@, width as int) {
                let at = choose|at: int| expands_next(pool@, width as int, at);
                assert(!pool@[at].2);
            }
        }
        assert(leads_to::<D, ID>(
            features@,
            adj,
            *query,
            width as int,
            start,
            steps,
            kept@,
            seen@,
        ));
    }
    (kept, seen)
}

proof fn lemma_filled<D: DistanceAlgorithm<ID>, ID>(
    features: Seq<ID>,
    adj: Seq<Seq<u32>>,
    enter: int,
    query: ID,
    ef: int,
    pool: Seq<Marked>,
    seen: Seq<Entry>,
)
    requires
        filling::<D, ID>(features, adj[enter], query, pool, seen),
        0 <= enter < adj.len(),
        graph_on(adj, features.len() as int),
        ef >= 0,
        seen.len() == greater(
            lesser(ef, adj[enter].len() as int),
            lesser(ef, features.len() as int),
        ),
        forall|i: int|
            0 <= i < lesser(ef, adj[enter].len() as int) ==> (#[trigger] seen[i]).0
                == adj[enter][i],
        forall|i: int, j: int|
            lesser(ef, adj[enter].len() as int) <= i < j < seen.len() ==> (#[trigger] seen[i]).0
                != (#[trigger] seen[j]).0,
    ensures
        searching::<D, ID>(features, adj, enter, query, ef, pool, seen),
        settled(adj, pool, seen, None),
{
    let p = unmarked(pool);
    let n = features.len() as int;
    let width = lesser(ef, n);
    let first = adj[enter];
    let taken = lesser(ef, first.len() as int);
    assert forall|i: int| 0 <= i < p.len() implies seen.contains(#[trigger] p[i]) by {
        assert(p.contains(p[i]));
    }
    if first.no_duplicates() {
        let all = first.map_values(|x: u32| x as usize);
        assert forall|i: int| 0 <= i < all.len() implies (#[trigger] all[i]) < n by {
            assert(adj[enter][i] < n);
        }
        lemma_few_below(all, n as nat);
    }
    assert(nearest_of(p, width, seen)) by {
        assert forall|i: int| 0 <= i < seen.len() implies (p.take(width).contains(
            #[trigger] seen[i],
        ) || width == 0 || p[width - 1].1 <= seen[i].1) by {
            assert(seen.contains(seen[i]));
            assert(p.contains(seen[i]));
            let k = choose|k: int| 0 <= k < p.len() && p[k] == seen[i];
            if k < width {
                assert(p.take(width)[k] == seen[i]);
            }
        }
    }
}

/// No more nodes are measured than there are, beside the first ones.
proof fn lemma_seen_bound<D: DistanceAlgorithm<ID>, ID>(
    features: Seq<ID>,
    adj: Seq<Seq<u32>>,
    enter: int,
    query: ID,
    ef: int,
    pool: Seq<Marked>,
    seen: Seq<Entry>,
)
    requires
        searching::<D, ID>(features, adj, enter, query, ef, pool, seen),
        ef >= 0,
    ensures
        seen.len() <= lesser(ef, adj[enter].len() as int) + features.len(),
{
    let taken = lesser(ef, adj[enter].len() as int);
    let rest = points(seen.skip(taken));
    assert forall|i: int, j: int| 0 <= i < rest.len() && 0 <= j < rest.len() && i != j implies rest[i]
        != rest[j] by {
        assert(rest[i] == seen[taken + i].0);
        assert(rest[j] == seen[taken + j].0);
        if i < j {
            assert(seen[taken + i].0 != seen[taken + j].0);
        } else {
            assert(seen[taken + j].0 != seen[taken + i].0);
        }
    }
    assert forall|i: int| 0 <= i < rest.len() implies (#[trigger] rest[i]) < features.len() by {
        assert(rest[i] == seen[taken + i].0);
    }
    lemma_few_below(rest, features.len());
}

/// The entries without their marks.
fn strip(s: &Vec<Marked>) -> (r: Vec<Entry>)
    ensures
        r@ == unmarked(s@),
{
    let mut r: Vec<Entry> = Vec::with_capacity(s.len());
    let mut i: usize = 0;
    while i < s.len()
        invariant
            i <= s@.len(),
            r@ =~= unmarked(s@).take(i as int),
        decreases s@.len() - i,
    {
        r.push((s[i].0, s[i].1));
        i = i + 1;
    }
    r
}

// ---------------------------------------------------------------------------
// Laws
// ---------------------------------------------------------------------------

/// A search whose pool has room for every node is exact: the pool holds every
/// node with its distance, nearest first. So its first entries are the nearest
/// there are.
pub proof fn lemma_full_pool_is_exact<D: DistanceAlgorithm<ID>, ID>(
    features: Seq<ID>,
    adj: Seq<Seq<u32>>,
    enter: int,
    query: ID,
    ef: int,
    pool: Seq<Entry>,
    seen: Seq<Entry>,
)
    requires
        features.len() <= usize::MAX,
        adj[enter].no_duplicates(),
        ef >= features.len(),
        search_outcome::<D, ID>(features, adj, enter, query, ef, pool, seen),
    ensures
        pool.len() == features.len(),
        by_distance(pool),
        distinct(pool),
        forall|v: usize|
            v < features.len() ==> pool.contains(
                (v, #[trigger] D::distance(features[v as int], query)),
            ),
{
    let n = features.len();
    assert forall|v: usize| v < n implies pool.contains(
        (v, #[trigger] D::distance(features[v as int], query)),
    ) by {
        if !lists(pool, v) {
            let all = points(pool).push(v);
            assert forall|i: int, j: int|
                0 <= i < all.len() && 0 <= j < all.len() && i != j implies all[i] != all[j] by {
                if i < pool.len() {
                    assert(all[i] == pool[i].0);
                }
                if j < pool.len() {
                    assert(all[j] == pool[j].0);
                }
                if i < j && j < pool.len() {
                    assert(pool[i].0 != pool[j].0);
                } else if j < i && i < pool.len() {
                    assert(pool[j].0 != pool[i].0);
                }
            }
            assert forall|i: int| 0 <= i < all.len() implies (#[trigger] all[i]) < n by {
                if i < pool.len() {
                    assert(all[i] == pool[i].0);
                }
            }
            lemma_few_below(all, n);
        }
        let k = choose|k: int| 0 <= k < pool.len() && (#[trigger] pool[k]).0 == v;
        assert(pool[k] == (v, D::distance(features[v as int], query)));
    }
}

/// Whatever a search leaves out of its pool, of what it measured, is no nearer
/// than the last entry of the pool.
pub proof fn lemma_left_out_is_no_nearer<D: DistanceAlgorithm<ID>, ID>(
    features: Seq<ID>,
    adj: Seq<Seq<u32>>,
    enter: int,
    query: ID,
    ef: int,
    pool: Seq<Entry>,
    seen: Seq<Entry>,
    e: Entry,
)
    requires
        adj[enter].no_duplicates(),
        0 < lesser(ef, features.len() as int),
        search_outcome::<D, ID>(features, adj, enter, query, ef, pool, seen),
        seen.contains(e),
        !pool.contains(e),
    ensures
        pool.last().1 <= e.1,
{
    let width = lesser(ef, features.len() as int);
    let i = choose|i: int| 0 <= i < seen.len() && seen[i] == e;
    assert(pool.take(width) =~= pool);
    assert(pool.take(width).contains(seen[i]) || width == 0 || pool[width - 1].1 <= seen[i].1);
}

/// Chance decides which nodes a search starts from, and nothing else: two
/// searches for the same query that start from the same nodes measure and keep
/// the same.
pub proof fn lemma_start_decides<D: DistanceAlgorithm<ID>, ID>(
    features: Seq<ID>,
    adj: Seq<Seq<u32>>,
    enter: int,
    query: ID,
    ef: int,
    pool: Seq<Entry>,
    seen: Seq<Entry>,
    other_pool: Seq<Entry>,
    other_seen: Seq<Entry>,
)
    requires
        search_outcome::<D, ID>(features, adj, enter, query, ef, pool, seen),
        search_outcome::<D, ID>(features, adj, enter, query, ef, other_pool, other_seen),
        ({
            let width = lesser(ef, features.len() as int);
            let taken = lesser(ef, adj[enter].len() as int);
            seen.take(greater(taken, width)) == other_seen.take(greater(taken, width))
        }),
    ensures
        pool == other_pool,
        seen == other_seen,
{
    let width = lesser(ef, features.len() as int);
    let taken = lesser(ef, adj[enter].len() as int);
    let start = seen.take(greater(taken, width));
    let a = choose|a: nat| #[trigger]
        leads_to::<D, ID>(features, adj, query, width, start, a, pool, seen);
    let b = choose|b: nat| #[trigger]
        leads_to::<D, ID>(features, adj, query, width, start, b, other_pool, other_seen);
    assert(unfinished(after_steps::<D, ID>(features, adj, query, width, start, a).0, width) || a
        >= b);
    assert(unfinished(after_steps::<D, ID>(features, adj, query, width, start, b).0, width) || b
        >= a);
}

/// A search that makes its pool up along an order leaves nothing to chance.
pub proof fn lemma_steady_alike<D: DistanceAlgorithm<ID>, ID>(
    features: Seq<ID>,
    adj: Seq<Seq<u32>>,
    enter: int,
    query: ID,
    ef: int,
    order: Seq<usize>,
    pool: Seq<Entry>,
    seen: Seq<Entry>,
    other_pool: Seq<Entry>,
    other_seen: Seq<Entry>,
)
    requires
        steady_outcome::<D, ID>(features, adj, enter, query, ef, order, pool, seen),
        steady_outcome::<D, ID>(features, adj, enter, query, ef, order, other_pool, other_seen),
    ensures
        pool == other_pool,
        seen == other_seen,
{
    lemma_start_decides::<D, ID>(
        features,
        adj,
        enter,
        query,
        ef,
        pool,
        seen,
        other_pool,
        other_seen,
    );
}

} // verus!
