//! In which order a search goes from node to node.

use crate::controllers::search::{
    after_steps, expands_next, greater, leads_to, lesser, offered, pool_of, search_outcome,
    unfinished, visiting,
};
use crate::datalayer::algorithms::DistanceAlgorithm;
use crate::order::{
    by_distance, distinct, lemma_few_below, lemma_insert_distinct, lemma_insert_sorted,
    lemma_rank, lemma_unmarked_insert, lists, rank, unmarked, Entry, Marked,
};
use vstd::prelude::*;

verus! {

/// What holds of the pool while the nodes of `done` are the ones expanded: it holds the
/// nearest of what is measured, and a mark where a node is yet to be expanded.
spec fn held<D: DistanceAlgorithm<ID>, ID>(
    features: Seq<ID>,
    query: ID,
    width: int,
    pool: Seq<Marked>,
    seen: Seq<Entry>,
    done: Seq<usize>,
) -> bool {
    let u = unmarked(pool);
    &&& pool.len() == width
    &&& by_distance(u)
    &&& distinct(u)
    &&& distinct(seen)
    &&& forall|i: int| 0 <= i < u.len() ==> seen.contains(#[trigger] u[i])
    &&& forall|p: int|
        0 <= p < seen.len() ==> u.contains(#[trigger] seen[p]) || u[width - 1].1 <= seen[p].1
    &&& forall|p: int|
        0 <= p < seen.len() ==> (#[trigger] seen[p]).1 == D::distance(
            features[seen[p].0 as int],
            query,
        )
    &&& forall|i: int| 0 <= i < pool.len() ==> (#[trigger] pool[i]).2 == !done.contains(pool[i].0)
    &&& forall|k: int| 0 <= k < done.len() ==> lists(seen, #[trigger] done[k])
}

/// One more node is measured.
proof fn lemma_held_offer<D: DistanceAlgorithm<ID>, ID>(
    features: Seq<ID>,
    query: ID,
    width: int,
    pool: Seq<Marked>,
    seen: Seq<Entry>,
    done: Seq<usize>,
    x: usize,
)
    requires
        held::<D, ID>(features, query, width, pool, seen, done),
        width > 0,
        !lists(seen, x),
    ensures
        ({
            let e = (x, D::distance(features[x as int], query));
            held::<D, ID>(features, query, width, offered(pool, width, e), seen.push(e), done)
        }),
{
    let d = D::distance(features[x as int], query);
    let e = (x, d);
    let u = unmarked(pool);
    let next = offered(pool, width, e);
    let v = unmarked(next);
    let more = seen.push(e);
    let r = rank(u, d);
    lemma_rank(u, d);
    assert(more[seen.len() as int] == e);
    assert forall|y: Entry| seen.contains(y) implies #[trigger] more.contains(y) by {
        let p = choose|p: int| 0 <= p < seen.len() && seen[p] == y;
        assert(more[p] == y);
    }
    assert(distinct(more)) by {
        assert forall|i: int, j: int| 0 <= i < j < more.len() implies (#[trigger] more[i]).0 != (
        #[trigger] more[j]).0 by {
            assert(more[i] == seen[i]);
            if j < seen.len() {
                assert(more[j] == seen[j]);
            } else if seen[i].0 == x {
                assert(lists(seen, x));
            }
        }
    }
    assert forall|k: int| 0 <= k < done.len() implies lists(more, #[trigger] done[k]) by {
        let p = choose|p: int| 0 <= p < seen.len() && (#[trigger] seen[p]).0 == done[k];
        assert(more[p].0 == done[k]);
    }
    assert(!done.contains(x)) by {
        if done.contains(x) {
            let k = choose|k: int| 0 <= k < done.len() && done[k] == x;
            assert(lists(seen, done[k]));
        }
    }
    if d < pool[width - 1].1 {
        let w = u.drop_last();
        let short = pool.drop_last();
        assert(u[width - 1].1 > d);
        assert(r < width) by {
            if r >= width {
                assert(u[width - 1].1 <= d);
            }
        }
        assert(unmarked(short) =~= w);
        assert(next == short.insert(r, (x, d, true)));
        lemma_unmarked_insert(short, r, (x, d, true));
        assert(v =~= w.insert(r, e));
        assert(rank(w, d) == r);
        assert(by_distance(w)) by {
            assert forall|i: int, j: int| 0 <= i <= j < w.len() implies (#[trigger] w[i]).1 <= (
            #[trigger] w[j]).1 by {
                assert(u[i].1 <= u[j].1);
            }
        }
        lemma_insert_sorted(w, e);
        assert(distinct(w)) by {
            assert forall|i: int, j: int| 0 <= i < j < w.len() implies (#[trigger] w[i]).0 != (
            #[trigger] w[j]).0 by {
                assert(u[i].0 != u[j].0);
            }
        }
        assert(!lists(w, x)) by {
            if lists(w, x) {
                let i = choose|i: int| 0 <= i < w.len() && (#[trigger] w[i]).0 == x;
                assert(seen.contains(u[i]));
                let p = choose|p: int| 0 <= p < seen.len() && seen[p] == u[i];
                assert(seen[p].0 == x);
            }
        }
        lemma_insert_distinct(w, r, e);
        assert forall|i: int| 0 <= i < v.len() implies more.contains(#[trigger] v[i]) by {
            if i < r {
                assert(v[i] == u[i]);
                assert(seen.contains(u[i]));
            } else if i > r {
                assert(v[i] == u[i - 1]);
                assert(seen.contains(u[i - 1]));
            }
        }
        assert(v[width - 1].1 <= u[width - 1].1) by {
            if r < width - 1 {
                assert(v[width - 1] == u[width - 2]);
                assert(u[width - 2].1 <= u[width - 1].1);
            }
        }
        assert forall|p: int| 0 <= p < more.len() implies v.contains(#[trigger] more[p])
            || v[width - 1].1 <= more[p].1 by {
            if p == seen.len() {
                assert(v[r] == e);
            } else {
                assert(more[p] == seen[p]);
                if u.contains(seen[p]) {
                    let i = choose|i: int| 0 <= i < u.len() && u[i] == seen[p];
                    if i < r {
                        assert(v[i] == seen[p]);
                    } else if i < width - 1 {
                        assert(v[i + 1] == seen[p]);
                    }
                }
            }
        }
        assert forall|i: int| 0 <= i < next.len() implies (#[trigger] next[i]).2 == !done.contains(
            next[i].0,
        ) by {
            if i < r {
                assert(next[i] == pool[i]);
            } else if i > r {
                assert(next[i] == pool[i - 1]);
            }
        }
    } else {
        assert forall|p: int| 0 <= p < more.len() implies u.contains(#[trigger] more[p])
            || u[width - 1].1 <= more[p].1 by {
            if p < seen.len() {
                assert(more[p] == seen[p]);
            }
        }
        assert forall|i: int| 0 <= i < u.len() implies more.contains(#[trigger] u[i]) by {
            assert(seen.contains(u[i]));
        }
    }
    assert forall|p: int| 0 <= p < more.len() implies (#[trigger] more[p]).1 == D::distance(
        features[more[p].0 as int],
        query,
    ) by {
        if p < seen.len() {
            assert(more[p] == seen[p]);
        }
    }
}

/// The nodes that the edges of a node lead to are visited.
proof fn lemma_held_visit<D: DistanceAlgorithm<ID>, ID>(
    features: Seq<ID>,
    query: ID,
    width: int,
    targets: Seq<u32>,
    pool: Seq<Marked>,
    seen: Seq<Entry>,
    done: Seq<usize>,
)
    requires
        held::<D, ID>(features, query, width, pool, seen, done),
        width > 0,
    ensures
        ({
            let (p, s) = visiting::<D, ID>(features, query, width, targets, pool, seen);
            &&& held::<D, ID>(features, query, width, p, s, done)
            &&& seen.len() <= s.len()
            &&& s.take(seen.len() as int) == seen
            &&& forall|i: int|
                seen.len() <= i < s.len() ==> targets.contains((#[trigger] s[i]).0 as u32)
            &&& forall|k: int| 0 <= k < targets.len() ==> lists(s, #[trigger] targets[k] as usize)
        }),
    decreases targets.len(),
{
    if targets.len() == 0 {
        assert(seen.take(seen.len() as int) =~= seen);
    } else {
        let shorter = targets.drop_last();
        lemma_held_visit::<D, ID>(features, query, width, shorter, pool, seen, done);
        let (p, s) = visiting::<D, ID>(features, query, width, shorter, pool, seen);
        let (q, t) = visiting::<D, ID>(features, query, width, targets, pool, seen);
        let x = targets.last() as usize;
        let e = (x, D::distance(features[x as int], query));
        if !lists(s, x) {
            lemma_held_offer::<D, ID>(features, query, width, p, s, done, x);
            assert(t == s.push(e));
            assert(t.take(seen.len() as int) =~= s.take(seen.len() as int));
            assert(t[s.len() as int].0 == x);
        }
        assert forall|i: int| seen.len() <= i < t.len() implies targets.contains(
            (#[trigger] t[i]).0 as u32,
        ) by {
            if i < s.len() {
                assert(t[i] == s[i]);
                assert(shorter.contains(s[i].0 as u32));
                let k = choose|k: int| 0 <= k < shorter.len() && shorter[k] == s[i].0 as u32;
                assert(targets[k] == t[i].0 as u32);
            } else {
                assert(targets[targets.len() - 1] == t[i].0 as u32);
            }
        }
        assert forall|k: int| 0 <= k < targets.len() implies lists(
            t,
            #[trigger] targets[k] as usize,
        ) by {
            if k < shorter.len() {
                assert(shorter[k] == targets[k]);
                assert(lists(s, shorter[k] as usize));
                let i = choose|i: int|
                    0 <= i < s.len() && (#[trigger] s[i]).0 == shorter[k] as usize;
                assert(t[i].0 == targets[k] as usize);
            }
        }
    }
}

/// Step `t` of a search that expands the nodes `done`, with the first `at[t]` of `seen`
/// measured before it: `done[t]` is one of these and not expanded yet, and all of these
/// that are nearer are. What is measured in the step are ends of its edges, and behind
/// it all of them are.
pub open spec fn stepped<D: DistanceAlgorithm<ID>, ID>(
    features: Seq<ID>,
    adj: Seq<Seq<u32>>,
    query: ID,
    seen: Seq<Entry>,
    done: Seq<usize>,
    at: Seq<int>,
    t: int,
) -> bool {
    let x = done[t];
    &&& 0 <= at[t] <= at[t + 1] <= seen.len()
    &&& lists(seen.take(at[t]), x)
    &&& !done.take(t).contains(x)
    &&& forall|p: int|
        0 <= p < at[t] && (#[trigger] seen[p]).1 < D::distance(features[x as int], query)
            ==> done.take(t).contains(seen[p].0)
    &&& forall|p: int|
        at[t] <= p < at[t + 1] ==> adj[x as int].contains((#[trigger] seen[p]).0 as u32)
    &&& forall|k: int|
        0 <= k < adj[x as int].len() ==> lists(
            seen.take(at[t + 1]),
            #[trigger] adj[x as int][k] as usize,
        )
}

/// What was so of a step stays so.
proof fn lemma_stepped_on<D: DistanceAlgorithm<ID>, ID>(
    features: Seq<ID>,
    adj: Seq<Seq<u32>>,
    query: ID,
    seen: Seq<Entry>,
    done: Seq<usize>,
    at: Seq<int>,
    t: int,
    more: Seq<Entry>,
    x: usize,
    end: int,
)
    requires
        stepped::<D, ID>(features, adj, query, seen, done, at, t),
        0 <= t < done.len(),
        at.len() == done.len() + 1,
        seen.len() <= more.len(),
        more.take(seen.len() as int) == seen,
    ensures
        stepped::<D, ID>(features, adj, query, more, done.push(x), at.push(end), t),
{
    let d = done.push(x);
    let a = at.push(end);
    let y = done[t];
    assert(d[t] == y && a[t] == at[t] && a[t + 1] == at[t + 1]);
    assert(d.take(t) =~= done.take(t));
    assert(more.take(at[t]) =~= more.take(seen.len() as int).take(at[t]));
    assert(more.take(at[t + 1]) =~= more.take(seen.len() as int).take(at[t + 1]));
    assert forall|p: int| 0 <= p < seen.len() implies #[trigger] more[p] == seen[p] by {
        assert(more.take(seen.len() as int)[p] == more[p]);
    }
}

/// The pool that a search starts with.
proof fn lemma_held_start<D: DistanceAlgorithm<ID>, ID>(
    features: Seq<ID>,
    query: ID,
    start: Seq<Entry>,
)
    requires
        distinct(start),
        forall|p: int|
            0 <= p < start.len() ==> (#[trigger] start[p]).1 == D::distance(
                features[start[p].0 as int],
                query,
            ),
    ensures
        held::<D, ID>(
            features,
            query,
            start.len() as int,
            pool_of(start),
            start,
            Seq::empty(),
        ),
    decreases start.len(),
{
    if start.len() > 0 {
        let shorter = start.drop_last();
        let e = start.last();
        assert(distinct(shorter)) by {
            assert forall|i: int, j: int| 0 <= i < j < shorter.len() implies (
            #[trigger] shorter[i]).0 != (#[trigger] shorter[j]).0 by {
                assert(start[i].0 != start[j].0);
            }
        }
        assert forall|p: int| 0 <= p < shorter.len() implies (#[trigger] shorter[p]).1
            == D::distance(features[shorter[p].0 as int], query) by {
            assert(start[p] == shorter[p]);
        }
        lemma_held_start::<D, ID>(features, query, shorter);
        let pool = pool_of(shorter);
        let u = unmarked(pool);
        let r = rank(u, e.1);
        let next = pool_of(start);
        let v = unmarked(next);
        lemma_rank(u, e.1);
        lemma_unmarked_insert(pool, r, (e.0, e.1, true));
        assert(v =~= u.insert(r, e));
        lemma_insert_sorted(u, e);
        assert(!lists(u, e.0)) by {
            if lists(u, e.0) {
                let i = choose|i: int| 0 <= i < u.len() && (#[trigger] u[i]).0 == e.0;
                assert(shorter.contains(u[i]));
                let p = choose|p: int| 0 <= p < shorter.len() && shorter[p] == u[i];
                assert(start[p].0 != start[start.len() - 1].0);
            }
        }
        lemma_insert_distinct(u, r, e);
        assert forall|i: int| 0 <= i < v.len() implies start.contains(#[trigger] v[i]) by {
            if i == r {
                assert(start[start.len() - 1] == v[i]);
            } else {
                let j = if i < r {
                    i
                } else {
                    i - 1
                };
                assert(v[i] == u[j]);
                assert(shorter.contains(u[j]));
                let p = choose|p: int| 0 <= p < shorter.len() && shorter[p] == u[j];
                assert(start[p] == v[i]);
            }
        }
        assert forall|p: int| 0 <= p < start.len() implies v.contains(#[trigger] start[p]) by {
            if p == start.len() - 1 {
                assert(v[r] == start[p]);
            } else {
                assert(shorter[p] == start[p]);
                lemma_all_in_pool(shorter, p);
                let i = choose|i: int| 0 <= i < u.len() && u[i] == shorter[p];
                if i < r {
                    assert(v[i] == start[p]);
                } else {
                    assert(v[i + 1] == start[p]);
                }
            }
        }
        assert forall|i: int| 0 <= i < next.len() implies (#[trigger] next[i]).2 by {
            if i < r {
                assert(next[i] == pool[i]);
            } else if i > r {
                assert(next[i] == pool[i - 1]);
            }
        }
    }
}

/// The pool at the start holds all that is measured.
proof fn lemma_all_in_pool(start: Seq<Entry>, p: int)
    requires
        0 <= p < start.len(),
    ensures
        unmarked(pool_of(start)).contains(start[p]),
    decreases start.len(),
{
    let shorter = start.drop_last();
    let e = start.last();
    let pool = pool_of(shorter);
    let u = unmarked(pool);
    let r = rank(u, e.1);
    lemma_pool_sorted(shorter);
    lemma_rank(u, e.1);
    lemma_unmarked_insert(pool, r, (e.0, e.1, true));
    let v = unmarked(pool_of(start));
    if p == start.len() - 1 {
        assert(v[r] == e);
    } else {
        lemma_all_in_pool(shorter, p);
        let i = choose|i: int| 0 <= i < u.len() && u[i] == shorter[p];
        if i < r {
            assert(v[i] == start[p]);
        } else {
            assert(v[i + 1] == start[p]);
        }
    }
}

proof fn lemma_pool_sorted(start: Seq<Entry>)
    ensures
        by_distance(unmarked(pool_of(start))),
    decreases start.len(),
{
    if start.len() > 0 {
        let shorter = start.drop_last();
        let e = start.last();
        lemma_pool_sorted(shorter);
        let pool = pool_of(shorter);
        let u = unmarked(pool);
        lemma_rank(u, e.1);
        lemma_unmarked_insert(pool, rank(u, e.1), (e.0, e.1, true));
        lemma_insert_sorted(u, e);
    }
}

/// All steps up to `steps`.
proof fn lemma_steps_of<D: DistanceAlgorithm<ID>, ID>(
    features: Seq<ID>,
    adj: Seq<Seq<u32>>,
    query: ID,
    width: int,
    start: Seq<Entry>,
    steps: nat,
) -> (w: (Seq<usize>, Seq<int>))
    requires
        width > 0,
        start.len() == width,
        distinct(start),
        forall|p: int|
            0 <= p < start.len() ==> (#[trigger] start[p]).1 == D::distance(
                features[start[p].0 as int],
                query,
            ),
        forall|t: nat|
            t < steps ==> unfinished(
                (#[trigger] after_steps::<D, ID>(features, adj, query, width, start, t)).0,
                width,
            ),
    ensures
        ({
            let (pool, seen) = after_steps::<D, ID>(features, adj, query, width, start, steps);
            let (done, at) = w;
            &&& held::<D, ID>(features, query, width, pool, seen, done)
            &&& done.len() == steps
            &&& at.len() == steps + 1
            &&& at[0] == width
            &&& at[steps as int] == seen.len()
            &&& width <= seen.len()
            &&& seen.take(width) == start
            &&& forall|t: int|
                0 <= t < steps ==> #[trigger] stepped::<D, ID>(
                    features,
                    adj,
                    query,
                    seen,
                    done,
                    at,
                    t,
                )
        }),
    decreases steps,
{
    if steps == 0 {
        lemma_held_start::<D, ID>(features, query, start);
        assert(start.take(width) =~= start);
        (Seq::empty(), seq![width])
    } else {
        let prev = (steps - 1) as nat;
        let (done, at) = lemma_steps_of::<D, ID>(features, adj, query, width, start, prev);
        let (pool, seen) = after_steps::<D, ID>(features, adj, query, width, start, prev);
        let (next, more) = after_steps::<D, ID>(features, adj, query, width, start, steps);
        assert(unfinished(pool, width));
        let i = choose|i: int| expands_next(pool, width, i);
        let (x, d, _) = pool[i];
        let taken = pool.update(i, (x, d, false));
        let done2 = done.push(x);
        let at2 = at.push(more.len() as int);
        let u = unmarked(pool);
        assert(unmarked(taken) =~= u);
        assert(held::<D, ID>(features, query, width, taken, seen, done2)) by {
            assert(u[i] == (x, d));
            assert(seen.contains(u[i]));
            let p = choose|p: int| 0 <= p < seen.len() && seen[p] == u[i];
            assert forall|k: int| 0 <= k < done2.len() implies lists(seen, #[trigger] done2[k]) by {
                if k < done.len() {
                    assert(done2[k] == done[k]);
                } else {
                    assert(seen[p].0 == done2[k]);
                }
            }
            assert forall|j: int| 0 <= j < taken.len() implies (#[trigger] taken[j]).2
                == !done2.contains(taken[j].0) by {
                if j == i {
                    assert(done2[done.len() as int] == x);
                } else {
                    assert(taken[j] == pool[j]);
                    assert(u[j].0 != u[i].0);
                    if done.contains(pool[j].0) {
                        let k = choose|k: int| 0 <= k < done.len() && done[k] == pool[j].0;
                        assert(done2[k] == pool[j].0);
                    }
                    if done2.contains(pool[j].0) {
                        let k = choose|k: int| 0 <= k < done2.len() && done2[k] == pool[j].0;
                        assert(done[k] == pool[j].0);
                    }
                }
            }
        }
        lemma_held_visit::<D, ID>(features, query, width, adj[x as int], taken, seen, done2);
        lemma_step_now::<D, ID>(features, adj, query, width, pool, seen, done, at, more, i);
        assert forall|t: int| 0 <= t < steps implies #[trigger] stepped::<D, ID>(
            features,
            adj,
            query,
            more,
            done2,
            at2,
            t,
        ) by {
            if t < prev {
                assert(stepped::<D, ID>(features, adj, query, seen, done, at, t));
                lemma_stepped_on::<D, ID>(
                    features,
                    adj,
                    query,
                    seen,
                    done,
                    at,
                    t,
                    more,
                    x,
                    more.len() as int,
                );
            }
        }
        assert(more.take(width) =~= more.take(seen.len() as int).take(width));
        (done2, at2)
    }
}

/// The step that comes last.
proof fn lemma_step_now<D: DistanceAlgorithm<ID>, ID>(
    features: Seq<ID>,
    adj: Seq<Seq<u32>>,
    query: ID,
    width: int,
    pool: Seq<Marked>,
    seen: Seq<Entry>,
    done: Seq<usize>,
    at: Seq<int>,
    more: Seq<Entry>,
    i: int,
)
    requires
        held::<D, ID>(features, query, width, pool, seen, done),
        expands_next(pool, width, i),
        at.len() == done.len() + 1,
        at[done.len() as int] == seen.len(),
        seen.len() <= more.len(),
        more.take(seen.len() as int) == seen,
        forall|p: int|
            seen.len() <= p < more.len() ==> adj[pool[i].0 as int].contains(
                (#[trigger] more[p]).0 as u32,
            ),
        forall|k: int|
            0 <= k < adj[pool[i].0 as int].len() ==> lists(
                more,
                #[trigger] adj[pool[i].0 as int][k] as usize,
            ),
    ensures
        stepped::<D, ID>(
            features,
            adj,
            query,
            more,
            done.push(pool[i].0),
            at.push(more.len() as int),
            done.len() as int,
        ),
{
    let x = pool[i].0;
    let t = done.len() as int;
    let d2 = done.push(x);
    let a2 = at.push(more.len() as int);
    let u = unmarked(pool);
    assert(d2[t] == x && a2[t] == seen.len() && a2[t + 1] == more.len());
    assert forall|p: int| 0 <= p < seen.len() implies #[trigger] more[p] == seen[p] by {
        assert(more.take(seen.len() as int)[p] == more[p]);
    }
    assert(seen.contains(u[i]));
    let p0 = choose|p: int| 0 <= p < seen.len() && seen[p] == u[i];
    assert(more.take(a2[t])[p0].0 == x);
    assert(more.take(a2[t + 1]) =~= more);
    assert(d2.take(t) =~= done);
    assert(pool[i].2);
    assert(u[i].1 == D::distance(features[x as int], query));
    assert forall|p: int|
        0 <= p < a2[t] && (#[trigger] more[p]).1 < D::distance(
            features[x as int],
            query,
        ) implies done.contains(more[p].0) by {
        assert(more[p] == seen[p]);
        assert(u[i].1 <= u[width - 1].1);
        assert(u.contains(seen[p]));
        let j = choose|j: int| 0 <= j < u.len() && u[j] == seen[p];
        assert(j < i) by {
            if j >= i {
                assert(u[i].1 <= u[j].1);
            }
        }
        assert(!pool[j].2);
    }
}

/// A search goes by distance. It expands one node after the other, each time one that is
/// measured and not expanded yet, where all that is nearer has been. Then the ends of its
/// edges are measured, as far as they are new, and nothing else. At the end all of the
/// pool has been expanded. The result names the nodes that are expanded, and for each how
/// many were measured before.
pub proof fn lemma_search_by_distance<D: DistanceAlgorithm<ID>, ID>(
    features: Seq<ID>,
    adj: Seq<Seq<u32>>,
    enter: int,
    query: ID,
    ef: int,
    pool: Seq<Entry>,
    seen: Seq<Entry>,
) -> (w: (Seq<usize>, Seq<int>))
    requires
        search_outcome::<D, ID>(features, adj, enter, query, ef, pool, seen),
        adj[enter].no_duplicates(),
        features.len() > 0,
        ef > 0,
    ensures
        w.1.len() == w.0.len() + 1,
        w.1[0] == pool.len(),
        w.1[w.0.len() as int] == seen.len(),
        forall|t: int|
            0 <= t < w.0.len() ==> #[trigger] stepped::<D, ID>(
                features,
                adj,
                query,
                seen,
                w.0,
                w.1,
                t,
            ),
        forall|i: int| 0 <= i < pool.len() ==> w.0.contains((#[trigger] pool[i]).0),
{
    let width = lesser(ef, features.len() as int);
    let taken = lesser(ef, adj[enter].len() as int);
    let start = seen.take(greater(taken, width));
    let steps = choose|steps: nat| #[trigger]
        leads_to::<D, ID>(features, adj, query, width, start, steps, pool, seen);
    let end = after_steps::<D, ID>(features, adj, query, width, start, steps);
    lemma_start_width::<D, ID>(features, adj, enter, query, ef, pool, seen);
    assert(distinct(start)) by {
        assert forall|i: int, j: int| 0 <= i < j < start.len() implies (#[trigger] start[i]).0 != (
        #[trigger] start[j]).0 by {
            assert(seen[i].0 != seen[j].0);
        }
    }
    assert forall|p: int| 0 <= p < start.len() implies (#[trigger] start[p]).1 == D::distance(
        features[start[p].0 as int],
        query,
    ) by {
        assert(start[p] == seen[p]);
    }
    let w = lemma_steps_of::<D, ID>(features, adj, query, width, start, steps);
    assert forall|i: int| 0 <= i < pool.len() implies w.0.contains((#[trigger] pool[i]).0) by {
        assert(pool[i] == (end.0[i].0, end.0[i].1));
        lemma_all_expanded(end.0, width, i);
    }
    w
}

/// A pool that is finished has no marks.
proof fn lemma_all_expanded(pool: Seq<Marked>, width: int, i: int)
    requires
        !unfinished(pool, width),
        0 <= i < width <= pool.len(),
    ensures
        !pool[i].2,
    decreases i,
{
    if pool[i].2 {
        assert forall|j: int| 0 <= j < i implies !(#[trigger] pool[j]).2 by {
            lemma_all_expanded(pool, width, j);
        }
        assert(expands_next(pool, width, i));
    }
}

/// A search starts with as many nodes as the pool has room for.
proof fn lemma_start_width<D: DistanceAlgorithm<ID>, ID>(
    features: Seq<ID>,
    adj: Seq<Seq<u32>>,
    enter: int,
    query: ID,
    ef: int,
    pool: Seq<Entry>,
    seen: Seq<Entry>,
)
    requires
        search_outcome::<D, ID>(features, adj, enter, query, ef, pool, seen),
        adj[enter].no_duplicates(),
        features.len() > 0,
        ef > 0,
    ensures
        greater(lesser(ef, adj[enter].len() as int), lesser(ef, features.len() as int)) == lesser(
            ef,
            features.len() as int,
        ),
{
    let n = features.len() as int;
    let first = adj[enter];
    let taken = lesser(ef, first.len() as int);
    if taken > n {
        let some = Seq::new(taken as nat, |i: int| seen[i].0);
        assert forall|i: int, j: int| 0 <= i < some.len() && 0 <= j < some.len() && i != j implies
            some[i] != some[j] by {
            if i < j {
                assert(seen[i].0 != seen[j].0);
            } else {
                assert(seen[j].0 != seen[i].0);
            }
        }
        assert forall|i: int| 0 <= i < some.len() implies (#[trigger] some[i]) < n by {
            assert(seen[i].0 < n);
        }
        lemma_few_below(some, n as nat);
    }
}

} // verus!
