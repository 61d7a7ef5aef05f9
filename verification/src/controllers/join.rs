//! The local join of an NN-descent: candidates of one node are introduced to
//! each other.

use crate::controllers::neighborhood::{
    hoods, inserted, lemma_inserted_sound, lemma_offer_no_worse, no_worse, offer, sound_entries,
    sound_hood, sound_hoods, Hood, Nhood,
};
use crate::datalayer::algorithms::{all_admitted, DistanceAlgorithm};
use crate::order::{below, by_distance, unmarked, Marked};
use vstd::prelude::*;

verus! {

/// The pools of the neighbourhoods.
pub open spec fn pools(hs: Seq<Hood>) -> Seq<Seq<Marked>> {
    Seq::new(hs.len(), |i: int| hs[i].pool)
}

/// The neighbourhoods with other pools.
pub open spec fn with_pools(hs: Seq<Hood>, ps: Seq<Seq<Marked>>) -> Seq<Hood> {
    Seq::new(hs.len(), |i: int| Hood { pool: ps[i], ..hs[i] })
}

/// The pools after `i` and `j` were offered to each other.
pub open spec fn introduced<D: DistanceAlgorithm<ID>, ID>(
    features: Seq<ID>,
    l: int,
    ps: Seq<Seq<Marked>>,
    i: usize,
    j: usize,
) -> Seq<Seq<Marked>> {
    let d = D::distance(features[i as int], features[j as int]);
    let first = ps.update(i as int, inserted(ps[i as int], l, j, d));
    first.update(j as int, inserted(first[j as int], l, i, d))
}

/// The pools after the pairs were introduced, one after the other.
pub open spec fn met<D: DistanceAlgorithm<ID>, ID>(
    features: Seq<ID>,
    l: int,
    ps: Seq<Seq<Marked>>,
    pairs: Seq<(usize, usize)>,
) -> Seq<Seq<Marked>>
    decreases pairs.len(),
{
    if pairs.len() == 0 {
        ps
    } else {
        introduced::<D, ID>(
            features,
            l,
            met::<D, ID>(features, l, ps, pairs.drop_last()),
            pairs.last().0,
            pairs.last().1,
        )
    }
}

/// `i` with every new candidate above it.
pub open spec fn new_pairs(i: usize, new: Seq<usize>) -> Seq<(usize, usize)>
    decreases new.len(),
{
    if new.len() == 0 {
        Seq::empty()
    } else if i < new.last() {
        new_pairs(i, new.drop_last()).push((i, new.last()))
    } else {
        new_pairs(i, new.drop_last())
    }
}

/// `i` with every other old candidate.
pub open spec fn old_pairs(i: usize, old_list: Seq<usize>) -> Seq<(usize, usize)>
    decreases old_list.len(),
{
    if old_list.len() == 0 {
        Seq::empty()
    } else if i != old_list.last() {
        old_pairs(i, old_list.drop_last()).push((i, old_list.last()))
    } else {
        old_pairs(i, old_list.drop_last())
    }
}

/// The pairs of one neighbourhood for its first `k` new candidates: new with new
/// and new with old, never old with old.
pub open spec fn hood_pairs(h: Hood, k: nat) -> Seq<(usize, usize)>
    decreases k,
{
    if k == 0 {
        Seq::empty()
    } else {
        hood_pairs(h, (k - 1) as nat) + new_pairs(h.nn_new[k - 1], h.nn_new) + old_pairs(
            h.nn_new[k - 1],
            h.nn_old,
        )
    }
}

/// The pairs of the first `k` neighbourhoods.
pub open spec fn all_pairs(hs: Seq<Hood>, k: nat) -> Seq<(usize, usize)>
    decreases k,
{
    if k == 0 {
        Seq::empty()
    } else {
        all_pairs(hs, (k - 1) as nat) + hood_pairs(hs[k - 1], hs[k - 1].nn_new.len())
    }
}

/// The neighbourhoods after a join.
pub open spec fn joined<D: DistanceAlgorithm<ID>, ID>(
    features: Seq<ID>,
    l: int,
    hs: Seq<Hood>,
) -> Seq<Hood> {
    with_pools(hs, met::<D, ID>(features, l, pools(hs), all_pairs(hs, hs.len())))
}

/// Introduces `i` and `j` to each other.
fn introduce<D: DistanceAlgorithm<ID>, ID>(
    features: &[ID],
    graph: &mut Vec<Nhood>,
    distance: &D,
    l: usize,
    i: usize,
    j: usize,
)
    requires
        all_admitted::<D, ID>(features@),
        sound_hoods::<D, ID>(features@, hoods(old(graph)@)),
        i < features@.len(),
        j < features@.len(),
        i != j,
    ensures
        sound_hoods::<D, ID>(features@, hoods(final(graph)@)),
        hoods(final(graph)@) == with_pools(
            hoods(old(graph)@),
            introduced::<D, ID>(features@, l as int, pools(hoods(old(graph)@)), i, j),
        ),
{
    let ghost hs = hoods(graph@);
    let ghost ps = pools(hs);
    let d: u32 = distance.calculate_distance(&features[i], &features[j]);
    assert(sound_hood::<D, ID>(features@, i as int, hs[i as int]));
    assert(sound_hood::<D, ID>(features@, j as int, hs[j as int]));
    proof {
        lemma_inserted_sound::<D, ID>(features@, i as int, ps[i as int], l as int, j, d);
        lemma_inserted_sound::<D, ID>(features@, j as int, ps[j as int], l as int, i, d);
    }
    offer(&mut graph[i].pool, l, j, d);
    let ghost mid = hoods(graph@);
    assert(mid =~= hs.update(i as int, Hood {
        pool: inserted(ps[i as int], l as int, j, d),
        ..hs[i as int]
    }));
    offer(&mut graph[j].pool, l, i, d);
    proof {
        let now = hoods(graph@);
        assert(now =~= mid.update(j as int, Hood {
            pool: inserted(ps[j as int], l as int, i, d),
            ..hs[j as int]
        }));
        assert(now =~= with_pools(hs, introduced::<D, ID>(features@, l as int, ps, i, j)));
        assert forall|x: int| 0 <= x < now.len() implies sound_hood::<D, ID>(
            features@,
            x,
            #[trigger] now[x],
        ) by {
            assert(sound_hood::<D, ID>(features@, x, hs[x]));
        }
    }
}

/// The pairs are of different nodes below `n`.
spec fn pairs_below(pairs: Seq<(usize, usize)>, n: int) -> bool {
    forall|k: int|
        0 <= k < pairs.len() ==> (#[trigger] pairs[k]).0 < n && pairs[k].1 < n && pairs[k].0
            != pairs[k].1
}

proof fn lemma_met_push<D: DistanceAlgorithm<ID>, ID>(
    features: Seq<ID>,
    l: int,
    hs: Seq<Hood>,
    pairs: Seq<(usize, usize)>,
    i: usize,
    j: usize,
)
    requires
        pairs_below(pairs, hs.len() as int),
    ensures
        with_pools(
            with_pools(hs, met::<D, ID>(features, l, pools(hs), pairs)),
            introduced::<D, ID>(
                features,
                l,
                pools(with_pools(hs, met::<D, ID>(features, l, pools(hs), pairs))),
                i,
                j,
            ),
        ) == with_pools(hs, met::<D, ID>(features, l, pools(hs), pairs.push((i, j)))),
{
    let ps = met::<D, ID>(features, l, pools(hs), pairs);
    lemma_met_len::<D, ID>(features, l, pools(hs), pairs);
    let h1 = with_pools(hs, ps);
    assert(pools(h1) =~= ps);
    assert(pairs.push((i, j)).drop_last() =~= pairs);
    let ps2 = introduced::<D, ID>(features, l, ps, i, j);
    assert(with_pools(h1, ps2) =~= with_pools(hs, ps2));
}

proof fn lemma_met_len<D: DistanceAlgorithm<ID>, ID>(
    features: Seq<ID>,
    l: int,
    ps: Seq<Seq<Marked>>,
    pairs: Seq<(usize, usize)>,
)
    requires
        pairs_below(pairs, ps.len() as int),
    ensures
        met::<D, ID>(features, l, ps, pairs).len() == ps.len(),
    decreases pairs.len(),
{
    if pairs.len() > 0 {
        assert(pairs[pairs.len() - 1] == pairs.last());
        assert(pairs_below(pairs.drop_last(), ps.len() as int));
        lemma_met_len::<D, ID>(features, l, ps, pairs.drop_last());
    }
}

/// Introduces the candidates of every node to each other: new ones to new ones,
/// and new ones to old ones.
pub fn join_hoods<D: DistanceAlgorithm<ID>, ID>(
    features: &[ID],
    graph: &mut Vec<Nhood>,
    distance: &D,
    l: usize,
)
    requires
        all_admitted::<D, ID>(features@),
        sound_hoods::<D, ID>(features@, hoods(old(graph)@)),
    ensures
        sound_hoods::<D, ID>(features@, hoods(final(graph)@)),
        hoods(final(graph)@) == joined::<D, ID>(features@, l as int, hoods(old(graph)@)),
{
    let n: usize = features.len();
    let ghost hs = hoods(graph@);
    let ghost mut done: Seq<(usize, usize)> = Seq::empty();
    assert(hs =~= with_pools(hs, pools(hs)));
    let mut node: usize = 0;
    while node < n
        invariant
            n == features@.len(),
            node <= n,
            all_admitted::<D, ID>(features@),
            sound_hoods::<D, ID>(features@, hs),
            sound_hoods::<D, ID>(features@, hoods(graph@)),
            hoods(graph@) == with_pools(hs, met::<D, ID>(features@, l as int, pools(hs), done)),
            pairs_below(done, n as int),
            done == all_pairs(hs, node as nat),
        decreases n - node,
    {
        let ghost h = hs[node as int];
        let ghost start = done;
        assert(sound_hood::<D, ID>(features@, node as int, h));
        assert(hoods(graph@)[node as int].nn_new == h.nn_new);
        let count: usize = graph[node].nn_new.len();
        let mut a: usize = 0;
        assert(start + hood_pairs(h, 0) =~= start);
        while a < count
            invariant
                n == features@.len(),
                node < n,
                all_admitted::<D, ID>(features@),
                sound_hoods::<D, ID>(features@, hs),
                sound_hoods::<D, ID>(features@, hoods(graph@)),
                hoods(graph@) == with_pools(
                    hs,
                    met::<D, ID>(features@, l as int, pools(hs), done),
                ),
                h == hs[node as int],
                sound_hood::<D, ID>(features@, node as int, h),
                a <= count,
                count == h.nn_new.len(),
                pairs_below(done, n as int),
                done == start + hood_pairs(h, a as nat),
            decreases count - a,
        {
            let ghost before = done;
            assert(hoods(graph@)[node as int].nn_new == h.nn_new);
            let i: usize = graph[node].nn_new[a];
            assert(h.nn_new[a as int] < n);
            let mut b: usize = 0;
            assert(h.nn_new.take(0) =~= Seq::<usize>::empty());
            assert(before + new_pairs(i, h.nn_new.take(0)) =~= before);
            while b < count
                invariant
                    n == features@.len(),
                    node < n,
                    i < n,
                    all_admitted::<D, ID>(features@),
                    sound_hoods::<D, ID>(features@, hs),
                    sound_hoods::<D, ID>(features@, hoods(graph@)),
                    hoods(graph@) == with_pools(
                        hs,
                        met::<D, ID>(features@, l as int, pools(hs), done),
                    ),
                    h == hs[node as int],
                    sound_hood::<D, ID>(features@, node as int, h),
                    b <= count,
                    count == h.nn_new.len(),
                    pairs_below(done, n as int),
                    done == before + new_pairs(i, h.nn_new.take(b as int)),
                decreases count - b,
            {
                assert(hoods(graph@)[node as int].nn_new == h.nn_new);
                let j: usize = graph[node].nn_new[b];
                assert(h.nn_new[b as int] < n);
                assert(h.nn_new.take(b + 1).drop_last() =~= h.nn_new.take(b as int));
                if i < j {
                    proof {
                        lemma_met_push::<D, ID>(features@, l as int, hs, done, i, j);
                    }
                    introduce(features, graph, distance, l, i, j);
                    proof {
                        done = done.push((i, j));
                        assert(done =~= before + new_pairs(i, h.nn_new.take(b + 1)));
                    }
                }
                b = b + 1;
            }
            assert(h.nn_new.take(count as int) =~= h.nn_new);
            let ghost half = done;
            assert(hoods(graph@)[node as int].nn_old == h.nn_old);
            let old_count: usize = graph[node].nn_old.len();
            let mut c: usize = 0;
            assert(h.nn_old.take(0) =~= Seq::<usize>::empty());
            assert(half + old_pairs(i, h.nn_old.take(0)) =~= half);
            while c < old_count
                invariant
                    n == features@.len(),
                    node < n,
                    i < n,
                    all_admitted::<D, ID>(features@),
                    sound_hoods::<D, ID>(features@, hs),
                    sound_hoods::<D, ID>(features@, hoods(graph@)),
                    hoods(graph@) == with_pools(
                        hs,
                        met::<D, ID>(features@, l as int, pools(hs), done),
                    ),
                    h == hs[node as int],
                    sound_hood::<D, ID>(features@, node as int, h),
                    c <= old_count,
                    old_count == h.nn_old.len(),
                    pairs_below(done, n as int),
                    done == half + old_pairs(i, h.nn_old.take(c as int)),
                decreases old_count - c,
            {
                assert(hoods(graph@)[node as int].nn_old == h.nn_old);
                let j: usize = graph[node].nn_old[c];
                assert(h.nn_old[c as int] < n);
                assert(h.nn_old.take(c + 1).drop_last() =~= h.nn_old.take(c as int));
                if i != j {
                    proof {
                        lemma_met_push::<D, ID>(features@, l as int, hs, done, i, j);
                    }
                    introduce(features, graph, distance, l, i, j);
                    proof {
                        done = done.push((i, j));
                        assert(done =~= half + old_pairs(i, h.nn_old.take(c + 1)));
                    }
                }
                c = c + 1;
            }
            proof {
                assert(h.nn_old.take(old_count as int) =~= h.nn_old);
                assert(done =~= start + hood_pairs(h, (a + 1) as nat));
            }
            a = a + 1;
        }
        node = node + 1;
    }
}

// ---------------------------------------------------------------------------
// Laws
// ---------------------------------------------------------------------------

/// Every pool is in order of distance.
spec fn ordered_pools(ps: Seq<Seq<Marked>>) -> bool {
    forall|x: int| 0 <= x < ps.len() ==> by_distance(unmarked(#[trigger] ps[x]))
}

proof fn lemma_no_worse_chain(a: Seq<Marked>, b: Seq<Marked>, c: Seq<Marked>)
    requires
        no_worse(a, b, a.len() as int),
        no_worse(b, c, b.len() as int),
    ensures
        no_worse(a, c, a.len() as int),
{
    assert forall|k: int|
        #![trigger a[k]]
        #![trigger c[k]]
        0 <= k < a.len() implies k < c.len() && c[k].1 <= a[k].1 by {
        assert(b[k].1 <= a[k].1);
        assert(c[k].1 <= b[k].1);
    }
}

proof fn lemma_met_no_worse<D: DistanceAlgorithm<ID>, ID>(
    features: Seq<ID>,
    l: int,
    ps: Seq<Seq<Marked>>,
    pairs: Seq<(usize, usize)>,
)
    requires
        ordered_pools(ps),
        pairs_below(pairs, ps.len() as int),
    ensures
        met::<D, ID>(features, l, ps, pairs).len() == ps.len(),
        ordered_pools(met::<D, ID>(features, l, ps, pairs)),
        forall|x: int|
            0 <= x < ps.len() ==> no_worse(
                ps[x],
                #[trigger] met::<D, ID>(features, l, ps, pairs)[x],
                ps[x].len() as int,
            ),
    decreases pairs.len(),
{
    if pairs.len() > 0 {
        let shorter = pairs.drop_last();
        assert(pairs[pairs.len() - 1] == pairs.last());
        assert(pairs_below(shorter, ps.len() as int));
        lemma_met_no_worse::<D, ID>(features, l, ps, shorter);
        let a = met::<D, ID>(features, l, ps, shorter);
        let (i, j) = pairs.last();
        let d = D::distance(features[i as int], features[j as int]);
        lemma_offer_no_worse(a[i as int], l, j, d);
        let b = a.update(i as int, inserted(a[i as int], l, j, d));
        lemma_offer_no_worse(b[j as int], l, i, d);
        let c = met::<D, ID>(features, l, ps, pairs);
        assert(c == b.update(j as int, inserted(b[j as int], l, i, d)));
        assert forall|x: int| 0 <= x < ps.len() implies by_distance(unmarked(#[trigger] c[x])) by {
            assert(by_distance(unmarked(a[x])));
        }
        assert forall|x: int| 0 <= x < ps.len() implies no_worse(
            ps[x],
            #[trigger] c[x],
            ps[x].len() as int,
        ) by {
            assert(no_worse(ps[x], a[x], ps[x].len() as int));
            assert(no_worse(a[x], b[x], a[x].len() as int));
            assert(no_worse(b[x], c[x], b[x].len() as int));
            lemma_no_worse_chain(ps[x], a[x], b[x]);
            lemma_no_worse_chain(ps[x], b[x], c[x]);
        }
    }
}

proof fn lemma_new_pairs_below(i: usize, list: Seq<usize>, n: int)
    requires
        i < n,
        below(list, n),
    ensures
        pairs_below(new_pairs(i, list), n),
        pairs_below(old_pairs(i, list), n),
    decreases list.len(),
{
    if list.len() > 0 {
        assert(list[list.len() - 1] < n);
        lemma_new_pairs_below(i, list.drop_last(), n);
    }
}

proof fn lemma_hood_pairs_below(h: Hood, k: nat, n: int)
    requires
        below(h.nn_new, n),
        below(h.nn_old, n),
        k <= h.nn_new.len(),
    ensures
        pairs_below(hood_pairs(h, k), n),
    decreases k,
{
    if k > 0 {
        lemma_hood_pairs_below(h, (k - 1) as nat, n);
        let i = h.nn_new[k - 1];
        assert(i < n);
        lemma_new_pairs_below(i, h.nn_new, n);
        lemma_new_pairs_below(i, h.nn_old, n);
        let a = hood_pairs(h, (k - 1) as nat);
        let b = new_pairs(i, h.nn_new);
        let c = old_pairs(i, h.nn_old);
        let all = hood_pairs(h, k);
        assert forall|t: int| 0 <= t < all.len() implies (#[trigger] all[t]).0 < n && all[t].1
            < n && all[t].0 != all[t].1 by {
            if t < a.len() {
                assert(all[t] == a[t]);
            } else if t < a.len() + b.len() {
                assert(all[t] == b[t - a.len()]);
            } else {
                assert(all[t] == c[t - a.len() - b.len()]);
            }
        }
    }
}

proof fn lemma_all_pairs_below<D: DistanceAlgorithm<ID>, ID>(
    features: Seq<ID>,
    hs: Seq<Hood>,
    k: nat,
)
    requires
        sound_hoods::<D, ID>(features, hs),
        k <= hs.len(),
    ensures
        pairs_below(all_pairs(hs, k), hs.len() as int),
    decreases k,
{
    if k > 0 {
        lemma_all_pairs_below::<D, ID>(features, hs, (k - 1) as nat);
        let h = hs[k - 1];
        assert(sound_hood::<D, ID>(features, k - 1, h));
        lemma_hood_pairs_below(h, h.nn_new.len(), hs.len() as int);
        let a = all_pairs(hs, (k - 1) as nat);
        let b = hood_pairs(h, h.nn_new.len());
        let all = all_pairs(hs, k);
        assert forall|t: int| 0 <= t < all.len() implies (#[trigger] all[t]).0 < hs.len()
            && all[t].1 < hs.len() && all[t].0 != all[t].1 by {
            if t < a.len() {
                assert(all[t] == a[t]);
            } else {
                assert(all[t] == b[t - a.len()]);
            }
        }
    }
}

/// A join makes no place of a pool worse.
pub proof fn lemma_join_no_worse<D: DistanceAlgorithm<ID>, ID>(
    features: Seq<ID>,
    l: int,
    hs: Seq<Hood>,
)
    requires
        sound_hoods::<D, ID>(features, hs),
    ensures
        joined::<D, ID>(features, l, hs).len() == hs.len(),
        forall|x: int|
            0 <= x < hs.len() ==> no_worse(
                hs[x].pool,
                (#[trigger] joined::<D, ID>(features, l, hs)[x]).pool,
                hs[x].pool.len() as int,
            ),
{
    let ps = pools(hs);
    let pairs = all_pairs(hs, hs.len());
    lemma_all_pairs_below::<D, ID>(features, hs, hs.len());
    assert forall|x: int| 0 <= x < ps.len() implies by_distance(unmarked(#[trigger] ps[x])) by {
        assert(sound_hood::<D, ID>(features, x, hs[x]));
    }
    lemma_met_no_worse::<D, ID>(features, l, ps, pairs);
    let qs = met::<D, ID>(features, l, ps, pairs);
    let after = joined::<D, ID>(features, l, hs);
    assert forall|x: int| 0 <= x < hs.len() implies no_worse(
        hs[x].pool,
        (#[trigger] after[x]).pool,
        hs[x].pool.len() as int,
    ) by {
        assert(no_worse(ps[x], qs[x], ps[x].len() as int));
    }
}

/// A join keeps the neighbourhoods sound.
pub proof fn lemma_joined_sound<D: DistanceAlgorithm<ID>, ID>(
    features: Seq<ID>,
    l: int,
    hs: Seq<Hood>,
)
    requires
        sound_hoods::<D, ID>(features, hs),
    ensures
        sound_hoods::<D, ID>(features, joined::<D, ID>(features, l, hs)),
{
    let ps = pools(hs);
    let pairs = all_pairs(hs, hs.len());
    lemma_all_pairs_below::<D, ID>(features, hs, hs.len());
    assert forall|x: int| 0 <= x < ps.len() implies sound_entries::<D, ID>(
        features,
        x,
        unmarked(#[trigger] ps[x]),
    ) by {
        assert(sound_hood::<D, ID>(features, x, hs[x]));
    }
    lemma_met_sound::<D, ID>(features, l, ps, pairs);
    let qs = met::<D, ID>(features, l, ps, pairs);
    let after = joined::<D, ID>(features, l, hs);
    assert forall|x: int| 0 <= x < after.len() implies sound_hood::<D, ID>(
        features,
        x,
        #[trigger] after[x],
    ) by {
        assert(sound_hood::<D, ID>(features, x, hs[x]));
        assert(sound_entries::<D, ID>(features, x, unmarked(qs[x])));
        assert(ps[x].len() <= qs[x].len());
    }
}

proof fn lemma_met_sound<D: DistanceAlgorithm<ID>, ID>(
    features: Seq<ID>,
    l: int,
    ps: Seq<Seq<Marked>>,
    pairs: Seq<(usize, usize)>,
)
    requires
        ps.len() == features.len(),
        forall|x: int|
            0 <= x < ps.len() ==> sound_entries::<D, ID>(features, x, unmarked(#[trigger] ps[x])),
        pairs_below(pairs, ps.len() as int),
    ensures
        met::<D, ID>(features, l, ps, pairs).len() == ps.len(),
        forall|x: int|
            0 <= x < ps.len() ==> sound_entries::<D, ID>(
                features,
                x,
                unmarked(#[trigger] met::<D, ID>(features, l, ps, pairs)[x]),
            ) && ps[x].len() <= met::<D, ID>(features, l, ps, pairs)[x].len(),
    decreases pairs.len(),
{
    if pairs.len() > 0 {
        let shorter = pairs.drop_last();
        assert(pairs[pairs.len() - 1] == pairs.last());
        assert(pairs_below(shorter, ps.len() as int));
        lemma_met_sound::<D, ID>(features, l, ps, shorter);
        let a = met::<D, ID>(features, l, ps, shorter);
        let (i, j) = pairs.last();
        let d = D::distance(features[i as int], features[j as int]);
        lemma_inserted_sound::<D, ID>(features, i as int, a[i as int], l, j, d);
        lemma_inserted_sound::<D, ID>(features, j as int, a[j as int], l, i, d);
        let b = a.update(i as int, inserted(a[i as int], l, j, d));
        let c = met::<D, ID>(features, l, ps, pairs);
        assert(c == b.update(j as int, inserted(b[j as int], l, i, d)));
        assert forall|x: int| 0 <= x < ps.len() implies sound_entries::<D, ID>(
            features,
            x,
            unmarked(#[trigger] c[x]),
        ) && ps[x].len() <= c[x].len() by {
            assert(sound_entries::<D, ID>(features, x, unmarked(a[x])));
        }
    }
}

} // verus!
