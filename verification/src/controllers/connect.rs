//! Connectivity: every node is made reachable from the entry point.

use crate::controllers::search::{best_first, search_outcome, SearchScratch};
use crate::datalayer::algorithms::{all_admitted, DistanceAlgorithm};
use crate::datalayer::nodes::{adjacency, graph_on, simple, NsgNode};
use crate::order::{by_distance, lemma_same_entries, same_items, sort_by_distance, within, Entry};
use crate::random::random_index;
use rand::rngs::StdRng;
use vstd::prelude::*;

verus! {

// ---------------------------------------------------------------------------
// Paths
// ---------------------------------------------------------------------------

/// An edge leads from `a` to `b`.
pub open spec fn edge(adj: Seq<Seq<u32>>, a: int, b: int) -> bool {
    exists|k: int| 0 <= k < adj[a].len() && #[trigger] adj[a][k] == b
}

/// An edge leads from the `i`-th node of `path` to the next one.
pub open spec fn hop(adj: Seq<Seq<u32>>, path: Seq<int>, i: int) -> bool {
    edge(adj, path[i], path[i + 1])
}

/// A way along edges.
pub open spec fn is_path(adj: Seq<Seq<u32>>, path: Seq<int>) -> bool {
    &&& path.len() > 0
    &&& forall|i: int| 0 <= i < path.len() ==> 0 <= (#[trigger] path[i]) < adj.len()
    &&& forall|i: int| 0 <= i < path.len() - 1 ==> #[trigger] hop(adj, path, i)
}

/// Node `b` can be reached from node `a`.
pub open spec fn reaches(adj: Seq<Seq<u32>>, a: int, b: int) -> bool {
    exists|path: Seq<int>| #[trigger] is_path(adj, path) && path[0] == a && path.last() == b
}

/// Node `b` can be reached from node `a` without coming to a flagged node.
pub open spec fn reaches_fresh(adj: Seq<Seq<u32>>, flags: Seq<bool>, a: int, b: int) -> bool {
    exists|path: Seq<int>|
        {
            &&& #[trigger] is_path(adj, path)
            &&& path[0] == a
            &&& path.last() == b
            &&& forall|i: int| 1 <= i < path.len() ==> !flags[#[trigger] path[i]]
        }
}

proof fn lemma_path_push(adj: Seq<Seq<u32>>, path: Seq<int>, v: int)
    requires
        is_path(adj, path),
        0 <= v < adj.len(),
        edge(adj, path.last(), v),
    ensures
        is_path(adj, path.push(v)),
{
    let longer = path.push(v);
    assert forall|i: int| 0 <= i < longer.len() implies 0 <= (#[trigger] longer[i]) < adj.len() by {
        if i < path.len() {
            assert(longer[i] == path[i]);
        }
    }
    assert forall|i: int| 0 <= i < longer.len() - 1 implies #[trigger] hop(adj, longer, i) by {
        if i < path.len() - 1 {
            assert(hop(adj, path, i));
            assert(longer[i] == path[i] && longer[i + 1] == path[i + 1]);
        }
    }
}

proof fn lemma_path_start(adj: Seq<Seq<u32>>, path: Seq<int>)
    requires
        is_path(adj, path),
        path.len() > 1,
    ensures
        is_path(adj, path.drop_last()),
        edge(adj, path.drop_last().last(), path.last()),
{
    let shorter = path.drop_last();
    assert forall|i: int| 0 <= i < shorter.len() implies 0 <= (#[trigger] shorter[i])
        < adj.len() by {
        assert(shorter[i] == path[i]);
    }
    assert forall|i: int| 0 <= i < shorter.len() - 1 implies #[trigger] hop(adj, shorter, i) by {
        assert(hop(adj, path, i));
        assert(shorter[i] == path[i] && shorter[i + 1] == path[i + 1]);
    }
    assert(hop(adj, path, path.len() - 2));
}

/// A node is reached from itself.
proof fn lemma_reaches_self(adj: Seq<Seq<u32>>, a: int)
    requires
        0 <= a < adj.len(),
    ensures
        reaches(adj, a, a),
{
    let path = seq![a];
    assert(is_path(adj, path));
}

/// A way goes on along an edge.
proof fn lemma_reaches_edge(adj: Seq<Seq<u32>>, a: int, b: int, c: int)
    requires
        reaches(adj, a, b),
        0 <= c < adj.len(),
        edge(adj, b, c),
    ensures
        reaches(adj, a, c),
{
    let path = choose|path: Seq<int>|
        #[trigger] is_path(adj, path) && path[0] == a && path.last() == b;
    lemma_path_push(adj, path, c);
    assert(path.push(c)[0] == a);
}

/// Reachability is transitive.
proof fn lemma_reaches_trans(adj: Seq<Seq<u32>>, a: int, b: int, path: Seq<int>)
    requires
        reaches(adj, a, b),
        is_path(adj, path),
        path[0] == b,
    ensures
        reaches(adj, a, path.last()),
    decreases path.len(),
{
    if path.len() > 1 {
        lemma_path_start(adj, path);
        let shorter = path.drop_last();
        assert(shorter[0] == b);
        lemma_reaches_trans(adj, a, b, shorter);
        lemma_reaches_edge(adj, a, shorter.last(), path.last());
    }
}

/// A set of nodes that no edge leaves holds the end of every way that starts in
/// it.
proof fn lemma_closed_set(adj: Seq<Seq<u32>>, flags: Seq<bool>, path: Seq<int>)
    requires
        flags.len() == adj.len(),
        is_path(adj, path),
        flags[path[0]],
        forall|v: int, w: int|
            0 <= v < adj.len() && flags[v] && #[trigger] edge(adj, v, w) && 0 <= w < adj.len()
                ==> flags[w],
    ensures
        flags[path.last()],
    decreases path.len(),
{
    if path.len() > 1 {
        lemma_path_start(adj, path);
        let shorter = path.drop_last();
        assert(shorter[0] == path[0]);
        lemma_closed_set(adj, flags, shorter);
        assert(0 <= shorter.last() < adj.len());
        assert(0 <= path.last() < adj.len());
    }
}

// ---------------------------------------------------------------------------
// Flags
// ---------------------------------------------------------------------------

/// Number of flags that are set.
pub open spec fn set_count(flags: Seq<bool>) -> nat
    decreases flags.len(),
{
    if flags.len() == 0 {
        0
    } else {
        set_count(flags.drop_last()) + if flags.last() {
            1nat
        } else {
            0
        }
    }
}

proof fn lemma_set_count_bound(flags: Seq<bool>)
    ensures
        set_count(flags) <= flags.len(),
        set_count(flags) == flags.len() ==> forall|i: int|
            0 <= i < flags.len() ==> #[trigger] flags[i],
    decreases flags.len(),
{
    if flags.len() > 0 {
        let t = flags.drop_last();
        lemma_set_count_bound(t);
        if set_count(flags) == flags.len() {
            assert forall|i: int| 0 <= i < flags.len() implies #[trigger] flags[i] by {
                if i < t.len() {
                    assert(t[i]);
                }
            }
        }
    }
}

proof fn lemma_set_count_update(flags: Seq<bool>, i: int)
    requires
        0 <= i < flags.len(),
        !flags[i],
    ensures
        set_count(flags.update(i, true)) == set_count(flags) + 1,
    decreases flags.len(),
{
    let t = flags.drop_last();
    let next = flags.update(i, true);
    if i == flags.len() - 1 {
        assert(next.drop_last() =~= t);
    } else {
        lemma_set_count_update(t, i);
        assert(next.drop_last() =~= t.update(i, true));
    }
}

proof fn lemma_set_count_none(flags: Seq<bool>)
    requires
        forall|i: int| 0 <= i < flags.len() ==> !#[trigger] flags[i],
    ensures
        set_count(flags) == 0,
    decreases flags.len(),
{
    if flags.len() > 0 {
        let t = flags.drop_last();
        assert forall|i: int| 0 <= i < t.len() implies !#[trigger] t[i] by {
            assert(t[i] == flags[i]);
        }
        lemma_set_count_none(t);
    }
}

// ---------------------------------------------------------------------------
// Depth-first traversal
// ---------------------------------------------------------------------------

/// Node `v` was flagged by this traversal, or is where it started.
spec fn visited_now(flags0: Seq<bool>, flags: Seq<bool>, root: int, v: int) -> bool {
    v == root || (flags[v] && !flags0[v])
}

/// Every edge out of `v` ends at a flagged node.
spec fn shut(adj: Seq<Seq<u32>>, flags: Seq<bool>, v: int) -> bool {
    forall|k: int| 0 <= k < adj[v].len() ==> flags[#[trigger] adj[v][k] as int]
}

spec fn on_stack(stack: Seq<(usize, usize)>, v: int) -> bool {
    exists|i: int| 0 <= i < stack.len() && (#[trigger] stack[i]).0 == v
}

/// What holds between two steps of the traversal.
spec fn traversing(
    adj: Seq<Seq<u32>>,
    flags0: Seq<bool>,
    flags: Seq<bool>,
    root: int,
    stack: Seq<(usize, usize)>,
) -> bool {
    &&& flags.len() == flags0.len() == adj.len()
    &&& 0 <= root < adj.len()
    &&& flags[root]
    &&& forall|v: int| 0 <= v < adj.len() && flags0[v] ==> #[trigger] flags[v]
    &&& forall|i: int|
        0 <= i < stack.len() ==> {
            &&& (#[trigger] stack[i]).0 < adj.len()
            &&& visited_now(flags0, flags, root, stack[i].0 as int)
            &&& stack[i].1 <= adj[stack[i].0 as int].len()
        }
    &&& forall|i: int, k: int|
        0 <= i < stack.len() && 0 <= k < (#[trigger] stack[i]).1
            ==> flags[#[trigger] adj[stack[i].0 as int][k] as int]
    &&& forall|v: int|
        0 <= v < adj.len() && #[trigger] visited_now(flags0, flags, root, v) ==> reaches_fresh(
            adj,
            flags0,
            root,
            v,
        )
    &&& forall|v: int|
        0 <= v < adj.len() && #[trigger] visited_now(flags0, flags, root, v) ==> on_stack(stack, v)
            || shut(adj, flags, v)
}

/// Flagging a further node that an edge leads to from the top of the stack.
proof fn lemma_descend(
    adj: Seq<Seq<u32>>,
    flags0: Seq<bool>,
    flags: Seq<bool>,
    root: int,
    stack: Seq<(usize, usize)>,
    x: usize,
    c: usize,
)
    requires
        graph_on(adj, flags.len() as int),
        traversing(adj, flags0, flags, root, stack),
        stack.len() > 0,
        stack.last().1 < c <= adj[stack.last().0 as int].len(),
        adj[stack.last().0 as int][c - 1] == x,
        forall|k: int|
            0 <= k < c - 1 ==> flags[#[trigger] adj[stack.last().0 as int][k] as int],
        !flags[x as int],
        x < flags.len(),
    ensures
        traversing(
            adj,
            flags0,
            flags.update(x as int, true),
            root,
            stack.update(stack.len() - 1, (stack.last().0, c)).push((x, 0)),
        ),
{
    let top = stack.last().0;
    let flags2 = flags.update(x as int, true);
    let stack2 = stack.update(stack.len() - 1, (top, c)).push((x, 0));
    let l = stack.len() as int;
    assert(stack2[l] == (x, 0usize));
    assert(stack2[l - 1] == (top, c));
    assert(stack[l - 1].0 == top);
    assert(visited_now(flags0, flags, root, top as int));
    assert(reaches_fresh(adj, flags0, root, x as int)) by {
        let path = choose|path: Seq<int>|
            {
                &&& #[trigger] is_path(adj, path)
                &&& path[0] == root
                &&& path.last() == top as int
                &&& forall|i: int| 1 <= i < path.len() ==> !flags0[#[trigger] path[i]]
            };
        assert(adj[top as int][c - 1] == x);
        assert(edge(adj, top as int, x as int));
        lemma_path_push(adj, path, x as int);
        let longer = path.push(x as int);
        assert(longer[0] == root);
        assert forall|i: int| 1 <= i < longer.len() implies !flags0[#[trigger] longer[i]] by {
            if i < path.len() {
                assert(longer[i] == path[i]);
            }
        }
    }
    assert forall|i: int| 0 <= i < stack2.len() implies ({
        &&& (#[trigger] stack2[i]).0 < adj.len()
        &&& visited_now(flags0, flags2, root, stack2[i].0 as int)
        &&& stack2[i].1 <= adj[stack2[i].0 as int].len()
    }) by {
        if i < l - 1 {
            assert(stack2[i] == stack[i]);
        }
        if i < l {
            assert(visited_now(flags0, flags, root, stack[i].0 as int));
        }
    }
    assert forall|i: int, k: int|
        0 <= i < stack2.len() && 0 <= k < (#[trigger] stack2[i]).1 implies flags2[
        #[trigger] adj[stack2[i].0 as int][k] as int] by {
        if i < l - 1 {
            assert(stack2[i] == stack[i]);
            assert(flags[adj[stack[i].0 as int][k] as int]);
        } else if i == l - 1 {
            if k < c - 1 {
                assert(flags[adj[top as int][k] as int]);
            }
        }
        assert(adj[stack2[i].0 as int][k] < flags.len());
    }
    assert forall|v: int|
        0 <= v < adj.len() && #[trigger] visited_now(flags0, flags2, root, v) implies reaches_fresh(
        adj,
        flags0,
        root,
        v,
    ) && (on_stack(stack2, v) || shut(adj, flags2, v)) by {
        if v == x {
            assert(stack2[l].0 == v);
        } else {
            assert(visited_now(flags0, flags, root, v));
            if on_stack(stack, v) {
                let i = choose|i: int| 0 <= i < stack.len() && (#[trigger] stack[i]).0 == v;
                assert(stack2[i].0 == v);
            } else {
                assert forall|k: int| 0 <= k < adj[v].len() implies flags2[
                #[trigger] adj[v][k] as int] by {
                    assert(flags[adj[v][k] as int]);
                }
            }
        }
    }
}

/// Leaving a node all of whose edges end at flagged nodes.
proof fn lemma_ascend(
    adj: Seq<Seq<u32>>,
    flags0: Seq<bool>,
    flags: Seq<bool>,
    root: int,
    stack: Seq<(usize, usize)>,
)
    requires
        traversing(adj, flags0, flags, root, stack),
        stack.len() > 0,
        shut(adj, flags, stack.last().0 as int),
    ensures
        traversing(adj, flags0, flags, root, stack.drop_last()),
{
    let stack2 = stack.drop_last();
    assert forall|i: int| 0 <= i < stack2.len() implies #[trigger] stack2[i] == stack[i] by {}
    assert forall|v: int|
        0 <= v < adj.len() && #[trigger] visited_now(flags0, flags, root, v) implies on_stack(
        stack2,
        v,
    ) || shut(adj, flags, v) by {
        if on_stack(stack, v) && v != stack.last().0 {
            let i = choose|i: int| 0 <= i < stack.len() && (#[trigger] stack[i]).0 == v;
            assert(stack2[i].0 == v);
        }
    }
}

/// When the traversal is over every fresh way has been followed to its end.
proof fn lemma_traversed(
    adj: Seq<Seq<u32>>,
    flags0: Seq<bool>,
    flags: Seq<bool>,
    root: int,
    path: Seq<int>,
)
    requires
        graph_on(adj, flags.len() as int),
        traversing(adj, flags0, flags, root, Seq::empty()),
        is_path(adj, path),
        path[0] == root,
        forall|i: int| 1 <= i < path.len() ==> !flags0[#[trigger] path[i]],
    ensures
        visited_now(flags0, flags, root, path.last()),
    decreases path.len(),
{
    if path.len() > 1 {
        lemma_path_start(adj, path);
        let shorter = path.drop_last();
        assert(shorter[0] == root);
        assert forall|i: int| 1 <= i < shorter.len() implies !flags0[#[trigger] shorter[i]] by {
            assert(shorter[i] == path[i]);
        }
        lemma_traversed(adj, flags0, flags, root, shorter);
        let v = shorter.last();
        assert(0 <= v < adj.len());
        assert(visited_now(flags0, flags, root, v));
        assert(shut(adj, flags, v));
        let k = choose|k: int| 0 <= k < adj[v].len() && #[trigger] adj[v][k] == path.last();
        assert(flags[adj[v][k] as int]);
        assert(path[path.len() - 1] == path.last());
    }
}

/// Flags what can be reached from `root` without coming to a node that is
/// flagged already, and adds the number of newly flagged nodes to `count`.
pub fn flag_reached(graph: &Vec<NsgNode>, flags: &mut Vec<bool>, root: usize, count: &mut usize)
    requires
        graph_on(adjacency(graph@), old(flags)@.len() as int),
        root < old(flags)@.len(),
        *old(count) + (old(flags)@.len() - set_count(old(flags)@)) <= usize::MAX,
    ensures
        final(flags)@.len() == old(flags)@.len(),
        forall|v: int|
            0 <= v < old(flags)@.len() ==> (#[trigger] final(flags)@[v] <==> (old(flags)@[v]
                || reaches_fresh(adjacency(graph@), old(flags)@, root as int, v))),
        *final(count) - *old(count) == set_count(final(flags)@) - set_count(old(flags)@),
{
    let ghost adj = adjacency(graph@);
    let ghost flags0 = flags@;
    let ghost count0 = *count as int;
    let n: usize = flags.len();
    let mut stack: Vec<(usize, usize)> = Vec::new();
    proof {
        lemma_set_count_bound(flags@);
    }
    if !flags[root] {
        proof {
            lemma_set_count_update(flags@, root as int);
            lemma_set_count_bound(flags@.update(root as int, true));
        }
        *count = *count + 1;
    }
    flags.set(root, true);
    proof {
        if flags0[root as int] {
            assert(flags@ =~= flags0);
        }
    }
    stack.push((root, 0));
    proof {
        assert(traversing(adj, flags0, flags@, root as int, stack@)) by {
            assert(stack@[0] == (root, 0usize));
            let path = seq![root as int];
            assert(is_path(adj, path));
            assert(reaches_fresh(adj, flags0, root as int, root as int));
            assert(on_stack(stack@, root as int));
        }
    }
    while stack.len() > 0
        invariant
            adj == adjacency(graph@),
            n == flags@.len(),
            graph_on(adj, n as int),
            graph@.len() == n,
            traversing(adj, flags0, flags@, root as int, stack@),
            count0 + (n - set_count(flags0)) <= usize::MAX,
            *count - count0 == set_count(flags@) - set_count(flags0),
        decreases n - set_count(flags@), stack@.len(),
    {
        let ghost stack0 = stack@;
        let ghost flags1 = flags@;
        let at: usize = stack.len() - 1;
        let (node, cursor) = stack[at];
        let targets: &Vec<u32> = graph[node].active_neighbors();
        assert(adj[node as int] == targets@);
        let mut next: Option<usize> = None;
        let mut c: usize = cursor;
        while c < targets.len()
            invariant_except_break
                next is None,
            invariant
                adj == adjacency(graph@),
                n == flags@.len(),
                flags@ == flags1,
                graph_on(adj, n as int),
                node < n,
                adj.len() == n,
                adj[node as int] == targets@,
                cursor <= c <= targets@.len(),
                next is None ==> forall|k: int|
                    0 <= k < c ==> flags@[#[trigger] targets@[k] as int],
                next matches Some(x) ==> {
                    &&& cursor < c
                    &&& x == targets@[c - 1]
                    &&& x < n
                    &&& !flags@[x as int]
                    &&& forall|k: int| 0 <= k < c - 1 ==> flags@[#[trigger] targets@[k] as int]
                },
            ensures
                next is None ==> c == targets@.len(),
            decreases targets@.len() - c,
        {
            assert(adj[node as int][c as int] < n);
            let x: usize = targets[c] as usize;
            c = c + 1;
            if !flags[x] {
                next = Some(x);
                break;
            }
        }
        stack.set(at, (node, c));
        proof {
            lemma_set_count_bound(flags@);
        }
        match next {
            Some(x) => {
                proof {
                    lemma_set_count_update(flags@, x as int);
                    lemma_set_count_bound(flags@.update(x as int, true));
                    lemma_descend(adj, flags0, flags@, root as int, stack0, x, c);
                }
                flags.set(x, true);
                *count = *count + 1;
                stack.push((x, 0));
            },
            None => {
                proof {
                    lemma_ascend(adj, flags0, flags@, root as int, stack0);
                    assert(stack@.drop_last() =~= stack0.drop_last());
                }
                stack.pop();
            },
        }
    }
    proof {
        assert(stack@ =~= Seq::<(usize, usize)>::empty());
        assert forall|v: int| 0 <= v < n implies (#[trigger] flags@[v] <==> (flags0[v]
            || reaches_fresh(adj, flags0, root as int, v))) by {
            if flags@[v] && !flags0[v] {
                assert(visited_now(flags0, flags@, root as int, v));
            }
            if reaches_fresh(adj, flags0, root as int, v) {
                let path = choose|path: Seq<int>|
                    {
                        &&& #[trigger] is_path(adj, path)
                        &&& path[0] == root as int
                        &&& path.last() == v
                        &&& forall|i: int| 1 <= i < path.len() ==> !flags0[#[trigger] path[i]]
                    };
                lemma_traversed(adj, flags0, flags@, root as int, path);
            }
        }
    }
}

// ---------------------------------------------------------------------------
// Linking what was not reached
// ---------------------------------------------------------------------------

/// The nodes that can be reached from `enter`.
pub open spec fn reached_flags(adj: Seq<Seq<u32>>, enter: int) -> Seq<bool> {
    Seq::new(adj.len(), |v: int| reaches(adj, enter, v))
}

/// `u` is the first node without a flag.
pub open spec fn first_unset(flags: Seq<bool>, u: int) -> bool {
    &&& 0 <= u < flags.len()
    &&& !flags[u]
    &&& forall|v: int| 0 <= v < u ==> #[trigger] flags[v]
}

/// `r` is the first entry of `sorted` with a flag; where none of them has one,
/// it is any node with a flag.
pub open spec fn flagged_choice(flags: Seq<bool>, sorted: Seq<Entry>, r: int) -> bool {
    &&& 0 <= r < flags.len()
    &&& flags[r]
    &&& {
        ||| exists|i: int|
            {
                &&& 0 <= i < sorted.len()
                &&& (#[trigger] sorted[i]).0 == r
                &&& forall|j: int| 0 <= j < i ==> !flags[(#[trigger] sorted[j]).0 as int]
            }
        ||| forall|j: int| 0 <= j < sorted.len() ==> !flags[(#[trigger] sorted[j]).0 as int]
    }
}

/// `r` is where an edge to the unreached node `u` is added: the flagged node
/// nearest to `u` among what a search for `u` measured.
pub open spec fn root_outcome<D: DistanceAlgorithm<ID>, ID>(
    features: Seq<ID>,
    adj: Seq<Seq<u32>>,
    enter: int,
    ef: int,
    flags: Seq<bool>,
    u: int,
    r: int,
) -> bool {
    exists|pool: Seq<Entry>, seen: Seq<Entry>, sorted: Seq<Entry>|
        {
            &&& #[trigger] search_outcome::<D, ID>(
                features,
                adj,
                enter,
                features[u],
                ef,
                pool,
                seen,
            )
            &&& #[trigger] same_items(seen, sorted)
            &&& by_distance(sorted)
            &&& flagged_choice(flags, sorted, r)
        }
}

/// A node with one more edge, to `u` at distance `d`.
pub open spec fn with_edge(before: NsgNode, after: NsgNode, u: int, d: u32) -> bool {
    &&& after.feature_index == before.feature_index
    &&& after.neighbors@ == before.neighbors@.push(u as u32)
    &&& after.neighbor_distances@ == before.neighbor_distances@.push(d)
}

/// Links the first node without a flag, if there is one, to a node that has one,
/// and returns the latter; without such a node returns `enter`.
pub fn link_unreached<D: DistanceAlgorithm<ID>, ID>(
    features: &Vec<ID>,
    graph: &mut Vec<NsgNode>,
    enter: usize,
    distance: &D,
    rng: &mut StdRng,
    ef: usize,
    flags: &Vec<bool>,
    scratch: &mut SearchScratch,
) -> (root: usize)
    requires
        old(scratch).wf(),
        all_admitted::<D, ID>(features@),
        graph_on(adjacency(old(graph)@), features@.len() as int),
        enter < features@.len(),
        features@.len() <= 0x1_0000_0000,
        flags@.len() == features@.len(),
        exists|v: int| 0 <= v < flags@.len() && #[trigger] flags@[v],
    ensures
        final(scratch).wf(),
        (forall|v: int| 0 <= v < flags@.len() ==> #[trigger] flags@[v]) ==> root == enter
            && final(graph)@ == old(graph)@,
        (exists|v: int| 0 <= v < flags@.len() && !#[trigger] flags@[v]) ==> exists|u: int|
            {
                &&& #[trigger] first_unset(flags@, u)
                &&& root_outcome::<D, ID>(
                    features@,
                    adjacency(old(graph)@),
                    enter as int,
                    ef as int,
                    flags@,
                    u,
                    root as int,
                )
                &&& root < features@.len()
                &&& flags@[root as int]
                &&& final(graph)@.len() == features@.len()
                &&& with_edge(
                    old(graph)@[root as int],
                    final(graph)@[root as int],
                    u,
                    D::distance(features@[root as int], features@[u]),
                )
                &&& forall|i: int|
                    0 <= i < features@.len() && i != root ==> #[trigger] final(graph)@[i] == old(
                        graph,
                    )@[i]
                &&& adjacency(final(graph)@) == adjacency(old(graph)@).update(
                    root as int,
                    adjacency(old(graph)@)[root as int].push(u as u32),
                )
            },
{
    let n: usize = features.len();
    let ghost adj = adjacency(graph@);
    let mut u: usize = 0;
    while u < n && flags[u]
        invariant
            n == flags@.len(),
            u <= n,
            forall|v: int| 0 <= v < u ==> #[trigger] flags@[v],
        decreases n - u,
    {
        u = u + 1;
    }
    if u == n {
        return enter;
    }
    assert(first_unset(flags@, u as int));
    let (pool, mut seen) = best_first(
        features,
        graph,
        enter,
        distance,
        rng,
        &features[u],
        ef,
        scratch,
    );
    let ghost measured_order = seen@;
    sort_by_distance(&mut seen);
    proof {
        assert(within(measured_order, n as int));
        lemma_same_entries(measured_order, seen@);
        assert(within(seen@, n as int));
    }
    let root: usize = choose_flagged(flags, &seen, rng);
    let d: u32 = distance.calculate_distance(&features[root], &features[u]);
    let ghost before = graph@;
    let node: &mut NsgNode = &mut graph[root];
    node.neighbors.push(u as u32);
    node.neighbor_distances.push(d);
    proof {
        assert(with_edge(before[root as int], graph@[root as int], u as int, d));
        assert(root_outcome::<D, ID>(
            features@,
            adj,
            enter as int,
            ef as int,
            flags@,
            u as int,
            root as int,
        )) by {
            assert(search_outcome::<D, ID>(
                features@,
                adj,
                enter as int,
                features@[u as int],
                ef as int,
                pool@,
                measured_order,
            ));
            assert(same_items(measured_order, seen@));
        }
        let adj2 = adjacency(graph@);
        assert(adj2 =~= adj.update(root as int, adj[root as int].push(u as u32))) by {
            assert forall|i: int| 0 <= i < n implies #[trigger] adj2[i] == adj.update(
                root as int,
                adj[root as int].push(u as u32),
            )[i] by {
                if i != root {
                    assert(graph@[i] == before[i]);
                }
            }
        }
    }
    root
}

/// The first entry of `sorted` with a flag; where there is none, a random node
/// with a flag.
fn choose_flagged(flags: &Vec<bool>, sorted: &Vec<Entry>, rng: &mut StdRng) -> (r: usize)
    requires
        within(sorted@, flags@.len() as int),
        exists|v: int| 0 <= v < flags@.len() && #[trigger] flags@[v],
    ensures
        flagged_choice(flags@, sorted@, r as int),
{
    let n: usize = flags.len();
    let mut i: usize = 0;
    while i < sorted.len()
        invariant
            n == flags@.len(),
            i <= sorted@.len(),
            within(sorted@, n as int),
            forall|j: int| 0 <= j < i ==> !flags@[(#[trigger] sorted@[j]).0 as int],
        decreases sorted@.len() - i,
    {
        let x: usize = sorted[i].0;
        if flags[x] {
            return x;
        }
        i = i + 1;
    }
    let mut budget: u64 = u64::MAX;
    while budget > 0
        invariant
            n == flags@.len(),
            n > 0,
            forall|j: int| 0 <= j < sorted@.len() ==> !flags@[(#[trigger] sorted@[j]).0 as int],
        decreases budget,
    {
        budget = budget - 1;
        let x: usize = random_index(rng, n);
        if flags[x] {
            return x;
        }
    }
    let mut x: usize = 0;
    while !flags[x]
        invariant
            n == flags@.len(),
            x < n,
            forall|v: int| 0 <= v < x ==> !#[trigger] flags@[v],
            exists|v: int| 0 <= v < flags@.len() && #[trigger] flags@[v],
        decreases n - x,
    {
        x = x + 1;
    }
    x
}

// ---------------------------------------------------------------------------
// Linking everything
// ---------------------------------------------------------------------------

/// The graph with the edges of `steps` appended, in that order.
pub open spec fn extended(adj: Seq<Seq<u32>>, steps: Seq<(int, int)>) -> Seq<Seq<u32>>
    decreases steps.len(),
{
    if steps.len() == 0 {
        adj
    } else {
        let a = extended(adj, steps.drop_last());
        let (r, u) = steps.last();
        a.update(r, a[r].push(u as u32))
    }
}

/// Step `i` links the first node that was not reached yet.
pub open spec fn links_next<D: DistanceAlgorithm<ID>, ID>(
    features: Seq<ID>,
    adj: Seq<Seq<u32>>,
    enter: int,
    ef: int,
    steps: Seq<(int, int)>,
    i: int,
) -> bool {
    let a = extended(adj, steps.take(i));
    let flags = reached_flags(a, enter);
    &&& first_unset(flags, steps[i].1)
    &&& root_outcome::<D, ID>(features, a, enter, ef, flags, steps[i].1, steps[i].0)
    &&& reaches(a, enter, steps[i].0)
}

/// Number of steps that link from node `x`.
pub open spec fn added(steps: Seq<(int, int)>, x: int) -> nat
    decreases steps.len(),
{
    if steps.len() == 0 {
        0
    } else {
        added(steps.drop_last(), x) + if steps.last().0 == x {
            1nat
        } else {
            0
        }
    }
}

/// The out-degree of a node after `steps` is what it was and the number of steps
/// that link from it.
pub proof fn lemma_extended_degree(adj: Seq<Seq<u32>>, steps: Seq<(int, int)>, x: int)
    requires
        0 <= x < adj.len(),
        forall|i: int| 0 <= i < steps.len() ==> 0 <= (#[trigger] steps[i]).0 < adj.len(),
    ensures
        extended(adj, steps).len() == adj.len(),
        extended(adj, steps)[x].len() == adj[x].len() + added(steps, x),
    decreases steps.len(),
{
    if steps.len() > 0 {
        let before = steps.drop_last();
        assert forall|i: int| 0 <= i < before.len() implies 0 <= (#[trigger] before[i]).0
            < adj.len() by {
            assert(before[i] == steps[i]);
        }
        lemma_extended_degree(adj, before, x);
        lemma_extended_degree(adj, before, steps.last().0);
        assert(0 <= steps[steps.len() - 1].0 < adj.len());
    }
}

/// What linking everything comes to: as long as a node is not reached from
/// `enter`, the first such node is linked to one that is. No node is linked
/// twice, and the entry point never is: there are fewer steps than nodes.
pub open spec fn connect_outcome<D: DistanceAlgorithm<ID>, ID>(
    features: Seq<ID>,
    adj: Seq<Seq<u32>>,
    enter: int,
    ef: int,
    steps: Seq<(int, int)>,
) -> bool {
    &&& forall|i: int|
        0 <= i < steps.len() ==> #[trigger] links_next::<D, ID>(
            features,
            adj,
            enter,
            ef,
            steps,
            i,
        )
    &&& forall|v: int|
        0 <= v < adj.len() ==> #[trigger] reaches(extended(adj, steps), enter, v)
    &&& forall|i: int| 0 <= i < steps.len() ==> 0 <= (#[trigger] steps[i]).0 < adj.len()
    &&& forall|i: int, j: int|
        0 <= i < j < steps.len() ==> (#[trigger] steps[i]).1 != (#[trigger] steps[j]).1
    &&& steps.len() < adj.len()
}

/// The edges of a node were only added to, each new one with its distance.
pub open spec fn grown<D: DistanceAlgorithm<ID>, ID>(
    features: Seq<ID>,
    x: int,
    before: NsgNode,
    after: NsgNode,
) -> bool {
    let k = before.neighbors@.len() as int;
    let l = before.neighbor_distances@.len() as int;
    &&& after.feature_index == before.feature_index
    &&& after.neighbors@.len() - k == after.neighbor_distances@.len() - l
    &&& k <= after.neighbors@.len()
    &&& after.neighbors@.take(k) == before.neighbors@
    &&& after.neighbor_distances@.take(l) == before.neighbor_distances@
    &&& forall|i: int|
        0 <= i < after.neighbors@.len() - k ==> #[trigger] after.neighbor_distances@[l + i]
            == D::distance(features[x], features[after.neighbors@[k + i] as int])
}

proof fn lemma_grown_edge<D: DistanceAlgorithm<ID>, ID>(
    features: Seq<ID>,
    x: int,
    before: NsgNode,
    mid: NsgNode,
    after: NsgNode,
    u: int,
)
    requires
        grown::<D, ID>(features, x, before, mid),
        with_edge(mid, after, u, D::distance(features[x], features[u])),
        0 <= u <= u32::MAX,
    ensures
        grown::<D, ID>(features, x, before, after),
{
    let k = before.neighbors@.len() as int;
    let l = before.neighbor_distances@.len() as int;
    assert(after.neighbors@.take(k) =~= mid.neighbors@.take(k));
    assert(after.neighbor_distances@.take(l) =~= mid.neighbor_distances@.take(l));
    assert forall|i: int| 0 <= i < after.neighbors@.len() - k implies #[trigger] after.neighbor_distances@[l
        + i] == D::distance(features[x], features[after.neighbors@[k + i] as int]) by {
        if i < mid.neighbors@.len() - k {
            assert(mid.neighbor_distances@[l + i] == after.neighbor_distances@[l + i]);
        }
    }
}

/// A traversal from the node that an edge to an unreached node was added to
/// makes the flags those of the nodes reached.
proof fn lemma_reflag(
    adj: Seq<Seq<u32>>,
    enter: int,
    flags: Seq<bool>,
    r: int,
    u: int,
    flags2: Seq<bool>,
)
    requires
        graph_on(adj, adj.len() as int),
        flags == reached_flags(adj, enter),
        0 <= enter < adj.len(),
        0 <= r < adj.len(),
        flags[r],
        0 <= u < adj.len() <= 0x1_0000_0000,
        flags2.len() == adj.len(),
        forall|v: int|
            0 <= v < adj.len() ==> (#[trigger] flags2[v] <==> (flags[v] || reaches_fresh(
                adj.update(r, adj[r].push(u as u32)),
                flags,
                r,
                v,
            ))),
    ensures
        flags2 == reached_flags(adj.update(r, adj[r].push(u as u32)), enter),
        flags2[u],
        graph_on(adj.update(r, adj[r].push(u as u32)), adj.len() as int),
{
    let adj2 = adj.update(r, adj[r].push(u as u32));
    let n = adj.len() as int;
    assert forall|i: int, k: int| 0 <= i < adj2.len() && 0 <= k < adj2[i].len() implies (
    #[trigger] adj2[i][k]) < n by {
        if i != r {
            assert(adj2[i] == adj[i]);
            assert(adj[i][k] < n);
        } else if k < adj[r].len() {
            assert(adj2[i][k] == adj[r][k]);
        }
    }
    // what an edge of the old graph joins, an edge of the new one does
    assert forall|v: int, w: int| 0 <= v < n && edge(adj, v, w) implies edge(adj2, v, w) by {
        let k = choose|k: int| 0 <= k < adj[v].len() && #[trigger] adj[v][k] == w;
        assert(adj2[v][k] == w);
    }
    assert forall|v: int| reaches(adj, enter, v) implies reaches(adj2, enter, v) by {
        let path = choose|path: Seq<int>|
            #[trigger] is_path(adj, path) && path[0] == enter && path.last() == v;
        assert(is_path(adj2, path)) by {
            assert forall|i: int| 0 <= i < path.len() - 1 implies #[trigger] hop(
                adj2,
                path,
                i,
            ) by {
                assert(hop(adj, path, i));
                assert(0 <= path[i] < n);
                assert(edge(adj, path[i], path[i + 1]));
            }
        }
    }
    // flags2 is closed under the edges of the new graph
    assert forall|v: int, w: int|
        0 <= v < n && flags2[v] && #[trigger] edge(adj2, v, w) && 0 <= w < n implies flags2[w] by {
        if !flags[w] {
            if v != r && flags[v] {
                assert(adj2[v] == adj[v]);
                assert(edge(adj, v, w)) by {
                    let k = choose|k: int| 0 <= k < adj2[v].len() && #[trigger] adj2[v][k] == w;
                    assert(adj[v][k] == w);
                }
                lemma_reaches_edge(adj, enter, v, w);
                assert(flags[w]);
            } else {
                let path = if v == r {
                    seq![r]
                } else {
                    choose|path: Seq<int>|
                        {
                            &&& #[trigger] is_path(adj2, path)
                            &&& path[0] == r
                            &&& path.last() == v
                            &&& forall|i: int| 1 <= i < path.len() ==> !flags[#[trigger] path[i]]
                        }
                };
                if v != r {
                    assert(reaches_fresh(adj2, flags, r, v));
                }
                assert(is_path(adj2, path));
                lemma_path_push(adj2, path, w);
                let longer = path.push(w);
                assert(longer[0] == r);
                assert forall|i: int| 1 <= i < longer.len() implies !flags[#[trigger] longer[i]] by {
                    if i < path.len() {
                        assert(longer[i] == path[i]);
                    }
                }
                assert(reaches_fresh(adj2, flags, r, w));
            }
        }
    }
    lemma_reaches_self(adj, enter);
    assert(flags[enter]);
    assert(flags2[enter]);
    assert forall|v: int| 0 <= v < n implies flags2[v] == #[trigger] reached_flags(adj2, enter)[v] by {
        if flags2[v] {
            if flags[v] {
                assert(reaches(adj, enter, v));
            } else {
                let path = choose|path: Seq<int>|
                    {
                        &&& #[trigger] is_path(adj2, path)
                        &&& path[0] == r
                        &&& path.last() == v
                        &&& forall|i: int| 1 <= i < path.len() ==> !flags[#[trigger] path[i]]
                    };
                assert(reaches(adj, enter, r));
                lemma_reaches_trans(adj2, enter, r, path);
            }
        }
        if reaches(adj2, enter, v) {
            let path = choose|path: Seq<int>|
                #[trigger] is_path(adj2, path) && path[0] == enter && path.last() == v;
            lemma_closed_set(adj2, flags2, path);
        }
    }
    assert(flags2 =~= reached_flags(adj2, enter));
    assert(adj2[r][adj[r].len() as int] == u);
    assert(edge(adj2, r, u));
    assert(flags2[r]);
}

/// The first traversal flags what is reached.
proof fn lemma_first_flags(adj: Seq<Seq<u32>>, enter: int, flags0: Seq<bool>, flags: Seq<bool>)
    requires
        flags0.len() == adj.len(),
        flags.len() == adj.len(),
        forall|v: int| 0 <= v < adj.len() ==> !#[trigger] flags0[v],
        forall|v: int|
            0 <= v < adj.len() ==> (#[trigger] flags[v] <==> (flags0[v] || reaches_fresh(
                adj,
                flags0,
                enter,
                v,
            ))),
    ensures
        flags == reached_flags(adj, enter),
{
    assert forall|v: int| 0 <= v < adj.len() implies flags[v] == #[trigger] reached_flags(
        adj,
        enter,
    )[v] by {
        if reaches(adj, enter, v) {
            let path = choose|path: Seq<int>|
                #[trigger] is_path(adj, path) && path[0] == enter && path.last() == v;
            assert(reaches_fresh(adj, flags0, enter, v));
        }
    }
    assert(flags =~= reached_flags(adj, enter));
}

/// One more step.
proof fn lemma_next_step<D: DistanceAlgorithm<ID>, ID>(
    features: Seq<ID>,
    adj: Seq<Seq<u32>>,
    enter: int,
    ef: int,
    steps: Seq<(int, int)>,
    r: int,
    u: int,
)
    requires
        forall|i: int|
            0 <= i < steps.len() ==> #[trigger] links_next::<D, ID>(
                features,
                adj,
                enter,
                ef,
                steps,
                i,
            ),
        first_unset(reached_flags(extended(adj, steps), enter), u),
        root_outcome::<D, ID>(
            features,
            extended(adj, steps),
            enter,
            ef,
            reached_flags(extended(adj, steps), enter),
            u,
            r,
        ),
        reaches(extended(adj, steps), enter, r),
    ensures
        forall|i: int|
            0 <= i <= steps.len() ==> #[trigger] links_next::<D, ID>(
                features,
                adj,
                enter,
                ef,
                steps.push((r, u)),
                i,
            ),
        extended(adj, steps.push((r, u))) == extended(adj, steps).update(
            r,
            extended(adj, steps)[r].push(u as u32),
        ),
{
    let steps2 = steps.push((r, u));
    assert(steps2.drop_last() =~= steps);
    assert(steps2.last() == (r, u));
    assert forall|i: int| 0 <= i <= steps.len() implies #[trigger] links_next::<D, ID>(
        features,
        adj,
        enter,
        ef,
        steps2,
        i,
    ) by {
        if i < steps.len() {
            assert(links_next::<D, ID>(features, adj, enter, ef, steps, i));
            assert(steps2.take(i) =~= steps.take(i));
            assert(steps2[i] == steps[i]);
        } else {
            assert(steps2.take(i) =~= steps);
        }
    }
}

/// Adding an edge to a node that was not among the targets keeps the targets
/// different.
proof fn lemma_simple_push(adj: Seq<Seq<u32>>, enter: int, r: int, u: int)
    requires
        graph_on(adj, adj.len() as int),
        simple(adj),
        0 <= enter < adj.len(),
        0 <= r < adj.len(),
        0 <= u < adj.len() <= 0x1_0000_0000,
        reaches(adj, enter, r),
        !reaches(adj, enter, u),
    ensures
        simple(adj.update(r, adj[r].push(u as u32))),
{
    let adj2 = adj.update(r, adj[r].push(u as u32));
    assert forall|i: int| 0 <= i < adj2.len() implies (#[trigger] adj2[i]).no_duplicates() by {
        assert(adj[i].no_duplicates());
        if i == r {
            if exists|k: int| 0 <= k < adj[r].len() && adj[r][k] == u as u32 {
                let k = choose|k: int| 0 <= k < adj[r].len() && adj[r][k] == u as u32;
                assert(adj[r][k] == u);
                assert(edge(adj, r, u));
                lemma_reaches_edge(adj, enter, r, u);
            }
        }
    }
}

/// Adds edges until every node can be reached from `enter`.
pub fn connect_graph<D: DistanceAlgorithm<ID>, ID>(
    features: &Vec<ID>,
    graph: &mut Vec<NsgNode>,
    enter: usize,
    distance: &D,
    rng: &mut StdRng,
    ef: usize,
)
    requires
        all_admitted::<D, ID>(features@),
        graph_on(adjacency(old(graph)@), features@.len() as int),
        enter < features@.len(),
        features@.len() <= 0x1_0000_0000,
    ensures
        exists|steps: Seq<(int, int)>|
            {
                &&& #[trigger] connect_outcome::<D, ID>(
                    features@,
                    adjacency(old(graph)@),
                    enter as int,
                    ef as int,
                    steps,
                )
                &&& adjacency(final(graph)@) == extended(adjacency(old(graph)@), steps)
            },
        forall|v: int|
            0 <= v < features@.len() ==> #[trigger] reaches(
                adjacency(final(graph)@),
                enter as int,
                v,
            ),
        forall|x: int|
            0 <= x < features@.len() ==> grown::<D, ID>(
                features@,
                x,
                old(graph)@[x],
                #[trigger] final(graph)@[x],
            ),
        graph_on(adjacency(final(graph)@), features@.len() as int),
        simple(adjacency(old(graph)@)) ==> simple(adjacency(final(graph)@)),
{
    let n: usize = features.len();
    let ghost graph0 = graph@;
    let ghost adj0 = adjacency(graph@);
    let mut flags: Vec<bool> = Vec::new();
    let mut i: usize = 0;
    while i < n
        invariant
            i <= n,
            flags@.len() == i,
            forall|v: int| 0 <= v < i ==> !#[trigger] flags@[v],
        decreases n - i,
    {
        flags.push(false);
        i = i + 1;
    }
    let ghost none = flags@;
    let mut count: usize = 0;
    let mut scratch: SearchScratch = SearchScratch::new(n);
    let ghost mut steps: Seq<(int, int)> = Seq::empty();
    proof {
        lemma_set_count_none(none);
    }
    flag_reached(graph, &mut flags, enter, &mut count);
    proof {
        lemma_first_flags(adj0, enter as int, none, flags@);
        lemma_set_count_bound(flags@);
        lemma_reaches_self(adj0, enter as int);
        lemma_set_count_grows(none, flags@, enter as int);
        assert(grown_all::<D, ID>(features@, graph0, graph@)) by {
            assert forall|x: int| 0 <= x < n implies grown::<D, ID>(
                features@,
                x,
                graph0[x],
                #[trigger] graph@[x],
            ) by {
                let node = graph@[x];
                assert(node.neighbors@.take(node.neighbors@.len() as int) =~= node.neighbors@);
                assert(node.neighbor_distances@.take(node.neighbor_distances@.len() as int)
                    =~= node.neighbor_distances@);
            }
        }
    }
    while count < n
        invariant
            n == features@.len(),
            n == flags@.len(),
            n <= 0x1_0000_0000,
            enter < n,
            all_admitted::<D, ID>(features@),
            graph_on(adjacency(graph@), n as int),
            adj0.len() == n,
            graph0.len() == n,
            adj0 == adjacency(graph0),
            adjacency(graph@) == extended(adj0, steps),
            flags@ == reached_flags(adjacency(graph@), enter as int),
            count == set_count(flags@),
            steps.len() < count,
            forall|k: int| 0 <= k < steps.len() ==> 0 <= (#[trigger] steps[k]).0 < n,
            forall|k: int| 0 <= k < steps.len() ==> flags@[(#[trigger] steps[k]).1],
            forall|k: int| 0 <= k < steps.len() ==> 0 <= (#[trigger] steps[k]).1 < n,
            forall|k: int, l: int|
                0 <= k < l < steps.len() ==> (#[trigger] steps[k]).1 != (#[trigger] steps[l]).1,
            scratch.wf(),
            forall|k: int|
                0 <= k < steps.len() ==> #[trigger] links_next::<D, ID>(
                    features@,
                    adj0,
                    enter as int,
                    ef as int,
                    steps,
                    k,
                ),
            grown_all::<D, ID>(features@, graph0, graph@),
            simple(adj0) ==> simple(adjacency(graph@)),
        decreases n - count,
    {
        let ghost adj = adjacency(graph@);
        let ghost before = graph@;
        let ghost flags0 = flags@;
        proof {
            lemma_reaches_self(adj, enter as int);
            assert(flags@[enter as int]);
            if forall|v: int| 0 <= v < n ==> #[trigger] flags@[v] {
                lemma_set_count_all(flags@);
            }
        }
        let root: usize = link_unreached(
            features,
            graph,
            enter,
            distance,
            rng,
            ef,
            &flags,
            &mut scratch,
        );
        let ghost u = choose|u: int|
            {
                &&& #[trigger] first_unset(flags@, u)
                &&& root_outcome::<D, ID>(
                    features@,
                    adj,
                    enter as int,
                    ef as int,
                    flags@,
                    u,
                    root as int,
                )
                &&& root < features@.len()
                &&& flags@[root as int]
                &&& graph@.len() == features@.len()
                &&& with_edge(
                    before[root as int],
                    graph@[root as int],
                    u,
                    D::distance(features@[root as int], features@[u]),
                )
                &&& forall|i: int|
                    0 <= i < features@.len() && i != root ==> #[trigger] graph@[i] == before[i]
                &&& adjacency(graph@) == adj.update(
                    root as int,
                    adj[root as int].push(u as u32),
                )
            };
        proof {
            assert(exists|v: int| 0 <= v < n && !#[trigger] flags@[v]);
            assert(first_unset(flags@, u));
            lemma_next_step::<D, ID>(
                features@,
                adj0,
                enter as int,
                ef as int,
                steps,
                root as int,
                u,
            );
            steps = steps.push((root as int, u));
            assert(!flags@[u]);
            if simple(adj0) {
                lemma_simple_push(adj, enter as int, root as int, u);
            }
            assert(grown_all::<D, ID>(features@, graph0, graph@)) by {
                assert forall|x: int| 0 <= x < n implies grown::<D, ID>(
                    features@,
                    x,
                    graph0[x],
                    #[trigger] graph@[x],
                ) by {
                    assert(grown::<D, ID>(features@, x, graph0[x], before[x]));
                    if x == root {
                        lemma_grown_edge::<D, ID>(
                            features@,
                            x,
                            graph0[x],
                            before[x],
                            graph@[x],
                            u,
                        );
                    }
                }
            }
            lemma_set_count_bound(flags@);
            lemma_update_graph_on(adj, root as int, u);
        }
        flag_reached(graph, &mut flags, root, &mut count);
        proof {
            lemma_reflag(adj, enter as int, flags0, root as int, u, flags@);
            lemma_set_count_grows(flags0, flags@, u);
            lemma_set_count_bound(flags@);
        }
    }
    proof {
        lemma_set_count_bound(flags@);
        assert forall|v: int| 0 <= v < n implies #[trigger] reaches(
            adjacency(graph@),
            enter as int,
            v,
        ) by {
            assert(flags@[v]);
        }
        assert(connect_outcome::<D, ID>(features@, adj0, enter as int, ef as int, steps));
    }
}

/// The edges of every node were only added to.
spec fn grown_all<D: DistanceAlgorithm<ID>, ID>(
    features: Seq<ID>,
    before: Seq<NsgNode>,
    after: Seq<NsgNode>,
) -> bool {
    forall|x: int|
        0 <= x < features.len() ==> grown::<D, ID>(features, x, before[x], #[trigger] after[x])
}

proof fn lemma_update_graph_on(adj: Seq<Seq<u32>>, r: int, u: int)
    requires
        graph_on(adj, adj.len() as int),
        0 <= r < adj.len(),
        0 <= u < adj.len() <= 0x1_0000_0000,
    ensures
        graph_on(adj.update(r, adj[r].push(u as u32)), adj.len() as int),
{
    let adj2 = adj.update(r, adj[r].push(u as u32));
    assert forall|i: int, k: int| 0 <= i < adj2.len() && 0 <= k < adj2[i].len() implies (
    #[trigger] adj2[i][k]) < adj.len() by {
        if i != r {
            assert(adj2[i] == adj[i]);
            assert(adj[i][k] < adj.len());
        } else if k < adj[r].len() {
            assert(adj2[i][k] == adj[r][k]);
        }
    }
}

proof fn lemma_set_count_all(flags: Seq<bool>)
    requires
        forall|i: int| 0 <= i < flags.len() ==> #[trigger] flags[i],
    ensures
        set_count(flags) == flags.len(),
    decreases flags.len(),
{
    if flags.len() > 0 {
        let t = flags.drop_last();
        assert forall|i: int| 0 <= i < t.len() implies #[trigger] t[i] by {
            assert(t[i] == flags[i]);
        }
        lemma_set_count_all(t);
    }
}

proof fn lemma_set_count_mono(a: Seq<bool>, b: Seq<bool>)
    requires
        a.len() == b.len(),
        forall|i: int| 0 <= i < a.len() && #[trigger] a[i] ==> b[i],
    ensures
        set_count(a) <= set_count(b),
    decreases a.len(),
{
    if a.len() > 0 {
        let s = a.drop_last();
        let t = b.drop_last();
        assert forall|i: int| 0 <= i < s.len() && #[trigger] s[i] implies t[i] by {
            assert(a[i] == s[i] && b[i] == t[i]);
        }
        lemma_set_count_mono(s, t);
        assert(a[a.len() - 1] == a.last());
    }
}

proof fn lemma_set_count_grows(a: Seq<bool>, b: Seq<bool>, u: int)
    requires
        a.len() == b.len(),
        0 <= u < a.len(),
        forall|i: int| 0 <= i < a.len() && a[i] ==> #[trigger] b[i],
        !a[u],
        b[u],
    ensures
        set_count(a) < set_count(b),
{
    lemma_set_count_update(a, u);
    lemma_set_count_mono(a.update(u, true), b);
}

} // verus!
