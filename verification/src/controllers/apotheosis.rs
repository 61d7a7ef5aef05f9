//! Records found by similarity, and exactly.

use crate::controllers::connect::reaches;
use crate::controllers::laws::{lemma_answers_are_nearest, lemma_search_closed};
use crate::controllers::nsg::{
    build_outcome, carries, default_config, found, BuildConfig, NndInit, Nsg,
};
use crate::controllers::occlusion::PruneFactor;
use crate::controllers::radix_tree::{lemma_names_below, RadixNode};
use crate::controllers::renew::cut;
use crate::controllers::search::{lemma_steady_alike, steady_outcome};
use crate::datalayer::algorithms::{all_admitted, DistanceAlgorithm, Medoid};
use crate::datalayer::nodes::{adjacency, graph_on, simple, NsgNode};
use crate::datalayer::record::{ApotheosisRecord, RadixKeyMapping};
use crate::order::{
    by_distance, distinct, lemma_insert_distinct, lemma_insert_lists, lemma_insert_sorted,
    lemma_rank, lists, permutation, rank, rank_of, within, Entry,
};
use crate::random::seeded_state;
use vstd::prelude::*;

verus! {

// ---------------------------------------------------------------------------
// What is kept of what is inserted
// ---------------------------------------------------------------------------

/// The byte string under which a record is found exactly.
pub open spec fn key_of<R: ApotheosisRecord>(r: R) -> Option<Seq<u8>> {
    <R::MetricId as RadixKeyMapping>::radix_key(r.id())
}

/// Record `i` is kept: it has no key, or one that stands neither in `before` nor
/// with an earlier record.
pub open spec fn is_kept<R: ApotheosisRecord>(
    records: Seq<R>,
    i: int,
    before: RadixNode<u8, Option<usize>>,
) -> bool {
    match key_of(records[i]) {
        None => true,
        Some(k) => before.get(k) is None && forall|j: int|
            0 <= j < i ==> key_of(#[trigger] records[j]) != Some(k),
    }
}

/// What is kept of the first `n` records, in their order.
pub open spec fn kept_of<R: ApotheosisRecord>(
    records: Seq<R>,
    n: nat,
    before: RadixNode<u8, Option<usize>>,
) -> Seq<R>
    decreases n,
{
    if n == 0 {
        Seq::empty()
    } else if is_kept(records, n - 1, before) {
        kept_of(records, (n - 1) as nat, before).push(records[n - 1])
    } else {
        kept_of(records, (n - 1) as nat, before)
    }
}

/// Record `p` stands under key `k`.
pub open spec fn stands<R: ApotheosisRecord>(records: Seq<R>, p: int, k: Seq<u8>) -> bool {
    0 <= p < records.len() && key_of(records[p]) == Some(k)
}

/// The radix tree `after` holds what `before` did, and beside it every key of
/// `records` with the position of its record.
pub open spec fn keyed<R: ApotheosisRecord>(
    before: RadixNode<u8, Option<usize>>,
    records: Seq<R>,
    after: RadixNode<u8, Option<usize>>,
) -> bool {
    forall|k: Seq<u8>|
        {
            &&& before.get(k) is Some ==> #[trigger] after.get(k) == before.get(k)
            &&& before.get(k) is None ==> (after.get(k) is Some <==> exists|p: int|
                stands(records, p, k))
            &&& forall|p: int|
                before.get(k) is None && #[trigger] stands(records, p, k) ==> after.get(k) == Some(
                    Some(p as usize),
                )
        }
}

/// The identifiers of `records`.
pub open spec fn ids_of<R: ApotheosisRecord>(records: Seq<R>) -> Seq<R::MetricId> {
    Seq::new(records.len(), |i: int| records[i].id())
}

/// What was kept are records that were inserted, and no two of them share a key.
pub proof fn lemma_kept_once<R: ApotheosisRecord>(
    records: Seq<R>,
    n: nat,
    before: RadixNode<u8, Option<usize>>,
)
    requires
        n <= records.len(),
    ensures
        kept_of(records, n, before).len() <= n,
        forall|p: int|
            0 <= p < kept_of(records, n, before).len() ==> exists|j: int|
                0 <= j < n && #[trigger] records[j] == #[trigger] kept_of(records, n, before)[p],
        forall|p: int, q: int, k: Seq<u8>|
            #[trigger] stands(kept_of(records, n, before), p, k) && #[trigger] stands(
                kept_of(records, n, before),
                q,
                k,
            ) ==> p == q,
        forall|p: int, k: Seq<u8>| #[trigger]
            stands(kept_of(records, n, before), p, k) ==> before.get(k) is None,
        forall|j: int, k: Seq<u8>|
            0 <= j < n && #[trigger] stands(records, j, k) && before.get(k) is None ==> exists|
                p: int,
            | #[trigger] stands(kept_of(records, n, before), p, k),
    decreases n,
{
    if n > 0 {
        let m = (n - 1) as nat;
        lemma_kept_once(records, m, before);
        let a = kept_of(records, m, before);
        let b = kept_of(records, n, before);
        assert forall|p: int| 0 <= p < b.len() implies exists|j: int|
            0 <= j < n && #[trigger] records[j] == #[trigger] b[p] by {
            if p < a.len() {
                assert(b[p] == a[p]);
                let j = choose|j: int| 0 <= j < m && #[trigger] records[j] == a[p];
                assert(records[j] == b[p]);
            } else {
                assert(records[n - 1] == b[p]);
            }
        }
        assert forall|p: int, k: Seq<u8>| #[trigger] stands(b, p, k) implies before.get(k) is None
            && (p < a.len() ==> stands(a, p, k)) by {
            if p < a.len() {
                assert(b[p] == a[p]);
                assert(stands(a, p, k));
            }
        }
        assert forall|p: int, q: int, k: Seq<u8>| #[trigger]
            stands(b, p, k) && #[trigger] stands(b, q, k) implies p == q by {
            // a key of the record kept last is no key of one kept before
            assert forall|i: int|
                0 <= i < a.len() && stands(b, i, k) && is_kept(
                    records,
                    n - 1,
                    before,
                ) implies key_of(records[n - 1]) != Some(k) by {
                assert(b[i] == a[i]);
                let j = choose|j: int| 0 <= j < m && #[trigger] records[j] == a[i];
                assert(key_of(records[j]) == Some(k));
            }
            assert(p < a.len() ==> stands(a, p, k));
            assert(q < a.len() ==> stands(a, q, k));
        }
        assert forall|j: int, k: Seq<u8>|
            0 <= j < n && #[trigger] stands(records, j, k) && before.get(k) is None implies exists|
            p: int,
        | #[trigger] stands(b, p, k) by {
            if exists|i: int| 0 <= i < m && stands(records, i, k) {
                let i = choose|i: int| 0 <= i < m && stands(records, i, k);
                assert(stands(records, i, k));
                let p = choose|p: int| #[trigger] stands(a, p, k);
                assert(b[p] == a[p]);
                assert(stands(b, p, k));
            } else {
                assert(j == n - 1);
                assert forall|i: int| 0 <= i < n - 1 implies key_of(#[trigger] records[i]) != Some(
                    k,
                ) by {
                    assert(!stands(records, i, k));
                }
                assert(stands(b, a.len() as int, k));
            }
        }
    }
}

/// What is kept stays in order, and of it nothing is lost: a record is kept if and only
/// if it has no key, or one that is new and that no earlier record has. The result says
/// which records are kept.
pub proof fn lemma_kept_in_order<R: ApotheosisRecord>(
    records: Seq<R>,
    n: nat,
    before: RadixNode<u8, Option<usize>>,
) -> (at: Seq<int>)
    requires
        n <= records.len(),
    ensures
        at.len() == kept_of(records, n, before).len(),
        forall|i: int|
            0 <= i < at.len() ==> {
                &&& 0 <= #[trigger] at[i] < n
                &&& kept_of(records, n, before)[i] == records[at[i]]
            },
        forall|i: int, j: int| 0 <= i < j < at.len() ==> #[trigger] at[i] < #[trigger] at[j],
        forall|p: int|
            0 <= p < n ==> {
                let key = <R::MetricId as RadixKeyMapping>::radix_key((#[trigger] records[p]).id());
                at.contains(p) <==> key is None || (before.get(key->0) is None && forall|j: int|
                    0 <= j < p ==> <R::MetricId as RadixKeyMapping>::radix_key(
                        (#[trigger] records[j]).id(),
                    ) != key)
            },
    decreases n,
{
    if n == 0 {
        Seq::empty()
    } else {
        let m = (n - 1) as nat;
        let earlier = lemma_kept_in_order(records, m, before);
        let a = kept_of(records, m, before);
        let b = kept_of(records, n, before);
        let at = if is_kept(records, n - 1, before) {
            earlier.push(n - 1)
        } else {
            earlier
        };
        assert forall|i: int| 0 <= i < at.len() implies {
            &&& 0 <= #[trigger] at[i] < n
            &&& b[i] == records[at[i]]
        } by {
            if i < earlier.len() {
                assert(at[i] == earlier[i]);
                assert(b[i] == a[i]);
            }
        }
        assert forall|p: int| 0 <= p < n implies (at.contains(p) <==> if p < n - 1 {
            earlier.contains(p)
        } else {
            is_kept(records, n - 1, before)
        }) by {
            if earlier.contains(p) {
                let i = choose|i: int| 0 <= i < earlier.len() && earlier[i] == p;
                assert(at[i] == p);
            }
            if p == n - 1 && is_kept(records, n - 1, before) {
                assert(at[earlier.len() as int] == p);
            }
            if at.contains(p) {
                let i = choose|i: int| 0 <= i < at.len() && at[i] == p;
                if i < earlier.len() {
                    assert(earlier[i] == p);
                }
            }
        }
        assert forall|p: int| 0 <= p < n implies {
            let key = <R::MetricId as RadixKeyMapping>::radix_key((#[trigger] records[p]).id());
            at.contains(p) <==> key is None || (before.get(key->0) is None && forall|j: int|
                0 <= j < p ==> <R::MetricId as RadixKeyMapping>::radix_key(
                    (#[trigger] records[j]).id(),
                ) != key)
        } by {
            if p == n - 1 {
                lemma_is_kept(records, p, before);
            }
        }
        at
    }
}

/// When a record is kept.
proof fn lemma_is_kept<R: ApotheosisRecord>(
    records: Seq<R>,
    p: int,
    before: RadixNode<u8, Option<usize>>,
)
    ensures
        ({
            let key = <R::MetricId as RadixKeyMapping>::radix_key(records[p].id());
            is_kept(records, p, before) <==> key is None || (before.get(key->0) is None && forall|
                j: int,
            |
                0 <= j < p ==> <R::MetricId as RadixKeyMapping>::radix_key(
                    (#[trigger] records[j]).id(),
                ) != key)
        }),
{
    let key = <R::MetricId as RadixKeyMapping>::radix_key(records[p].id());
    assert(key == key_of(records[p]));
    if is_kept(records, p, before) {
        assert forall|j: int|
            key is Some && 0 <= j < p implies <R::MetricId as RadixKeyMapping>::radix_key(
            (#[trigger] records[j]).id(),
        ) != key by {
            assert(key_of(records[j]) != key);
        }
    }
}

/// A node stands for the record of its position.
pub proof fn lemma_ids_in_order<R: ApotheosisRecord>(records: Seq<R>, p: int)
    requires
        0 <= p < records.len(),
    ensures
        ids_of(records).len() == records.len(),
        ids_of(records)[p] == records[p].id(),
{
}

// ---------------------------------------------------------------------------
// What is found
// ---------------------------------------------------------------------------

/// Of records that are given to a store without keys the first is always kept.
pub proof fn lemma_first_is_kept<R: ApotheosisRecord>(
    records: Seq<R>,
    n: nat,
    before: RadixNode<u8, Option<usize>>,
)
    requires
        0 < n <= records.len(),
        forall|k: Seq<u8>| #[trigger] before.get(k) is None,
    ensures
        kept_of(records, n, before).len() > 0,
        kept_of(records, n, before)[0] == records[0],
    decreases n,
{
    if n == 1 {
        assert(is_kept(records, 0, before));
        assert(kept_of(records, 0, before).len() == 0);
    } else {
        lemma_first_is_kept(records, (n - 1) as nat, before);
    }
}

/// `r` are the records at `hits`, with their distances.
pub open spec fn records_at<R>(records: Seq<R>, hits: Seq<Entry>, r: Seq<(u32, &R)>) -> bool {
    &&& r.len() == hits.len()
    &&& forall|i: int|
        0 <= i < r.len() ==> {
            &&& (#[trigger] r[i]).0 == hits[i].1
            &&& *r[i].1 == records[hits[i].0 as int]
        }
}

/// The ends of the edges of `node`, each with its distance to the feature of the
/// node.
pub open spec fn neighbors_at<D: DistanceAlgorithm<ID>, ID>(
    features: Seq<ID>,
    node: NsgNode,
) -> Seq<Entry> {
    let ends = node.neighbors@;
    let own = features[node.feature_index as int];
    Seq::new(
        ends.len(),
        |i: int| (ends[i] as usize, D::distance(features[ends[i] as int], own)),
    )
}

/// The entries of `s` but those of point `at`, nearest first; of two at one
/// distance the one that comes first in `s`.
pub open spec fn ranked_without(s: Seq<Entry>, at: usize) -> Seq<Entry>
    decreases s.len(),
{
    if s.len() == 0 {
        Seq::empty()
    } else {
        let t = ranked_without(s.drop_last(), at);
        let e = s.last();
        if e.0 == at {
            t
        } else {
            t.insert(rank(t, e.1), e)
        }
    }
}

/// The node `at` at distance 0 and behind it its neighbours, nearest first, `k`
/// in all at most. An edge from the node to itself is passed over.
pub open spec fn exact_hits<D: DistanceAlgorithm<ID>, ID>(
    features: Seq<ID>,
    graph: Seq<NsgNode>,
    at: usize,
    k: int,
) -> Seq<Entry> {
    cut(
        seq![(at, 0u32)] + ranked_without(
            neighbors_at::<D, ID>(features, graph[at as int]),
            at,
        ),
        k,
    )
}

/// What ranking keeps: entries of the list other than `at`, in order, and none
/// twice that is not twice in the list.
proof fn lemma_ranked_without(s: Seq<Entry>, at: usize)
    ensures
        by_distance(ranked_without(s, at)),
        !lists(ranked_without(s, at), at),
        forall|x: usize|
            x != at ==> (#[trigger] lists(ranked_without(s, at), x) <==> lists(s, x)),
        distinct(s) ==> distinct(ranked_without(s, at)),
    decreases s.len(),
{
    if s.len() > 0 {
        let t = ranked_without(s.drop_last(), at);
        let e = s.last();
        lemma_ranked_without(s.drop_last(), at);
        assert(s =~= s.drop_last().push(e));
        assert(s =~= s.drop_last().insert(s.len() - 1, e));
        lemma_insert_lists(s.drop_last(), s.len() - 1, e);
        if e.0 != at {
            lemma_insert_sorted(t, e);
            lemma_insert_lists(t, rank(t, e.1), e);
            if distinct(s) {
                assert(!lists(s.drop_last(), e.0)) by {
                    if lists(s.drop_last(), e.0) {
                        let i = choose|i: int|
                            0 <= i < s.drop_last().len() && (#[trigger] s.drop_last()[i]).0 == e.0;
                        assert(s[i].0 != s[s.len() - 1].0);
                    }
                }
                assert(distinct(s.drop_last())) by {
                    assert forall|i: int, j: int| 0 <= i < j < s.drop_last().len() implies (
                    #[trigger] s.drop_last()[i]).0 != (#[trigger] s.drop_last()[j]).0 by {
                        assert(s[i].0 != s[j].0);
                    }
                }
                lemma_insert_distinct(t, rank(t, e.1), e);
            }
        } else if distinct(s) {
            assert(distinct(s.drop_last())) by {
                assert forall|i: int, j: int| 0 <= i < j < s.drop_last().len() implies (
                #[trigger] s.drop_last()[i]).0 != (#[trigger] s.drop_last()[j]).0 by {
                    assert(s[i].0 != s[j].0);
                }
            }
        }
    }
}

/// An exact answer names no record twice, and stays in order behind the record
/// that was asked for.
pub proof fn lemma_exact_hits_once<D: DistanceAlgorithm<ID>, ID>(
    features: Seq<ID>,
    graph: Seq<NsgNode>,
    at: usize,
    k: int,
)
    requires
        0 <= at < graph.len(),
        simple(adjacency(graph)),
        k >= 0,
    ensures
        distinct(exact_hits::<D, ID>(features, graph, at, k)),
        by_distance(exact_hits::<D, ID>(features, graph, at, k)),
{
    let raw = neighbors_at::<D, ID>(features, graph[at as int]);
    let rest = ranked_without(raw, at);
    let whole = seq![(at, 0u32)] + rest;
    assert(distinct(raw)) by {
        assert(adjacency(graph)[at as int] == graph[at as int].neighbors@);
        assert(adjacency(graph)[at as int].no_duplicates());
    }
    lemma_ranked_without(raw, at);
    assert forall|i: int, j: int| 0 <= i < j < whole.len() implies (#[trigger] whole[i]).0 != (
    #[trigger] whole[j]).0 by {
        assert(whole[j] == rest[j - 1]);
        if i > 0 {
            assert(whole[i] == rest[i - 1]);
        } else {
            assert(rest[j - 1].0 != at) by {
                if rest[j - 1].0 == at {
                    assert(lists(rest, at));
                }
            }
        }
    }
    assert forall|i: int, j: int| 0 <= i <= j < whole.len() implies (#[trigger] whole[i]).1 <= (
    #[trigger] whole[j]).1 by {
        if i > 0 {
            assert(whole[i] == rest[i - 1]);
            assert(whole[j] == rest[j - 1]);
        }
    }
}

/// Where each ranked entry comes from.
spec fn ranked_places(s: Seq<Entry>, at: usize) -> Seq<int>
    decreases s.len(),
{
    if s.len() == 0 {
        Seq::empty()
    } else {
        let before = ranked_places(s.drop_last(), at);
        if s.last().0 == at {
            before
        } else {
            before.insert(rank(ranked_without(s.drop_last(), at), s.last().1), s.len() - 1)
        }
    }
}

proof fn lemma_ranked_places(s: Seq<Entry>, at: usize)
    ensures
        ranked_places(s, at).len() == ranked_without(s, at).len(),
        forall|i: int|
            0 <= i < ranked_places(s, at).len() ==> {
                let p = #[trigger] ranked_places(s, at)[i];
                &&& 0 <= p < s.len()
                &&& s[p].0 != at
                &&& ranked_without(s, at)[i] == s[p]
            },
    decreases s.len(),
{
    if s.len() > 0 {
        let shorter = s.drop_last();
        lemma_ranked_places(shorter, at);
        let t = ranked_without(shorter, at);
        let before = ranked_places(shorter, at);
        assert(by_distance(t)) by {
            lemma_ranked_without(shorter, at);
        }
        lemma_rank(t, s.last().1);
        let r = rank(t, s.last().1);
        let places = ranked_places(s, at);
        let next = ranked_without(s, at);
        if s.last().0 != at {
            assert forall|i: int| 0 <= i < places.len() implies {
                let p = #[trigger] places[i];
                &&& 0 <= p < s.len()
                &&& s[p].0 != at
                &&& next[i] == s[p]
            } by {
                if i < r {
                    assert(places[i] == before[i]);
                    assert(next[i] == t[i]);
                } else if i > r {
                    assert(places[i] == before[i - 1]);
                    assert(next[i] == t[i - 1]);
                }
            }
        }
    }
}

/// The places are in order of the distance, and then of the place.
proof fn lemma_ranked_order(s: Seq<Entry>, at: usize)
    ensures
        forall|i: int, j: int|
            0 <= i < j < ranked_places(s, at).len() ==> {
                let p = #[trigger] ranked_places(s, at)[i];
                let q = #[trigger] ranked_places(s, at)[j];
                s[p].1 < s[q].1 || (s[p].1 == s[q].1 && p < q)
            },
    decreases s.len(),
{
    if s.len() > 0 {
        let shorter = s.drop_last();
        let e = s.last();
        lemma_ranked_order(shorter, at);
        lemma_ranked_places(shorter, at);
        let t = ranked_without(shorter, at);
        let before = ranked_places(shorter, at);
        assert(by_distance(t)) by {
            lemma_ranked_without(shorter, at);
        }
        lemma_rank(t, e.1);
        let r = rank(t, e.1);
        let places = ranked_places(s, at);
        assert forall|i: int, j: int| 0 <= i < j < places.len() implies {
            let p = #[trigger] places[i];
            let q = #[trigger] places[j];
            s[p].1 < s[q].1 || (s[p].1 == s[q].1 && p < q)
        } by {
            if e.0 == at {
                assert(places == before);
                assert(0 <= before[i] < shorter.len() && 0 <= before[j] < shorter.len());
            } else if i == r {
                assert(places[j] == before[j - 1]);
                assert(t[j - 1].1 > e.1);
            } else if j == r {
                assert(places[i] == before[i]);
                assert(t[i].1 <= e.1);
            } else {
                let a = if i < r {
                    i
                } else {
                    i - 1
                };
                let b = if j < r {
                    j
                } else {
                    j - 1
                };
                assert(places[i] == before[a] && places[j] == before[b]);
                assert(0 <= before[a] < shorter.len() && 0 <= before[b] < shorter.len());
            }
        }
    }
}

/// Every entry but those of `at` has a place.
proof fn lemma_ranked_all(s: Seq<Entry>, at: usize, p: int)
    requires
        0 <= p < s.len(),
        s[p].0 != at,
    ensures
        ranked_places(s, at).contains(p),
    decreases s.len(),
{
    let shorter = s.drop_last();
    let before = ranked_places(shorter, at);
    let places = ranked_places(s, at);
    let t = ranked_without(shorter, at);
    let r = rank(t, s.last().1);
    lemma_ranked_places(shorter, at);
    assert(by_distance(t)) by {
        lemma_ranked_without(shorter, at);
    }
    lemma_rank(t, s.last().1);
    if p == s.len() - 1 {
        assert(places[r] == p);
    } else {
        lemma_ranked_all(shorter, at, p);
        let i = choose|i: int| 0 <= i < before.len() && before[i] == p;
        if s.last().0 == at || i < r {
            assert(places[i] == p);
        } else {
            assert(places[i + 1] == p);
        }
    }
}

/// An exact answer is the record that was asked for and the neighbours of its
/// node that are nearest to it. For a `k` of one or more the record comes first, at
/// distance 0. Behind it come ends of edges of the node, other than the node, with
/// the distance of each to the feature of the node. They are in order of their
/// distance, and at one distance in the order of the edges. No end that is left out
/// is nearer than one that is there, and one is left out only where the answer holds
/// `k`. The result says which edge each comes from.
pub proof fn lemma_exact_hits_nearest<D: DistanceAlgorithm<ID>, ID>(
    features: Seq<ID>,
    graph: Seq<NsgNode>,
    at: usize,
    k: int,
) -> (edges: Seq<int>)
    requires
        0 <= at < graph.len(),
        k >= 0,
    ensures
        ({
            let hits = exact_hits::<D, ID>(features, graph, at, k);
            let ends = graph[at as int].neighbors@;
            let own = features[graph[at as int].feature_index as int];
            &&& hits.len() <= k
            &&& k > 0 ==> {
                &&& hits.len() == edges.len() + 1
                &&& hits[0] == (at, 0u32)
                &&& forall|i: int|
                    0 <= i < edges.len() ==> {
                        &&& 0 <= #[trigger] edges[i] < ends.len()
                        &&& ends[edges[i]] != at
                        &&& hits[i + 1].0 == ends[edges[i]]
                        &&& hits[i + 1].1 == D::distance(features[ends[edges[i]] as int], own)
                    }
                &&& forall|i: int, j: int|
                    0 <= i < j < edges.len() ==> {
                        &&& #[trigger] edges[i] != #[trigger] edges[j]
                        &&& hits[i + 1].1 < hits[j + 1].1 || (hits[i + 1].1 == hits[j + 1].1
                            && edges[i] < edges[j])
                    }
                &&& forall|p: int|
                    0 <= p < ends.len() && #[trigger] ends[p] != at ==> edges.contains(p) || (
                    hits.len() == k && (k == 1 || hits.last().1 <= D::distance(
                        features[ends[p] as int],
                        own,
                    )))
                &&& forall|p: int|
                    0 <= p < ends.len() && #[trigger] ends[p] != at ==> {
                        ||| exists|i: int|
                            0 <= i < hits.len() && (#[trigger] hits[i]).0 == ends[p]
                        ||| k == 1
                        ||| hits.last().1 <= D::distance(features[ends[p] as int], own)
                    }
            }
        }),
{
    let hits = exact_hits::<D, ID>(features, graph, at, k);
    let ends = graph[at as int].neighbors@;
    let own = features[graph[at as int].feature_index as int];
    let raw = neighbors_at::<D, ID>(features, graph[at as int]);
    let rest = ranked_without(raw, at);
    let places = ranked_places(raw, at);
    lemma_ranked_places(raw, at);
    lemma_ranked_order(raw, at);
    if k == 0 {
        places
    } else {
        let edges = if rest.len() + 1 <= k {
            places
        } else {
            places.take(k - 1)
        };
        assert(hits.len() == edges.len() + 1);
        assert forall|i: int| 0 <= i < edges.len() implies {
            &&& 0 <= #[trigger] edges[i] < ends.len()
            &&& ends[edges[i]] != at
            &&& hits[i + 1].0 == ends[edges[i]]
            &&& hits[i + 1].1 == D::distance(features[ends[edges[i]] as int], own)
        } by {
            assert(edges[i] == places[i]);
            assert(hits[i + 1] == rest[i]);
        }
        assert forall|i: int, j: int| 0 <= i < j < edges.len() implies {
            &&& #[trigger] edges[i] != #[trigger] edges[j]
            &&& hits[i + 1].1 < hits[j + 1].1 || (hits[i + 1].1 == hits[j + 1].1 && edges[i]
                < edges[j])
        } by {
            assert(edges[i] == places[i] && edges[j] == places[j]);
            assert(hits[i + 1] == rest[i] && hits[j + 1] == rest[j]);
        }
        assert forall|p: int| 0 <= p < ends.len() && #[trigger] ends[p] != at implies edges.contains(
            p,
        ) || (hits.len() == k && (k == 1 || hits.last().1 <= D::distance(
            features[ends[p] as int],
            own,
        ))) by {
            lemma_ranked_all(raw, at, p);
            let i = choose|i: int| 0 <= i < places.len() && places[i] == p;
            if i < edges.len() {
                assert(edges[i] == p);
            } else if k > 1 {
                let last = edges.len() - 1;
                assert(edges[last] == places[last]);
                assert(hits[last + 1] == rest[last]);
                assert(raw[places[last]].1 <= raw[places[i]].1);
            }
        }
        assert forall|p: int| 0 <= p < ends.len() && #[trigger] ends[p] != at implies {
            ||| exists|i: int| 0 <= i < hits.len() && (#[trigger] hits[i]).0 == ends[p]
            ||| k == 1
            ||| hits.last().1 <= D::distance(features[ends[p] as int], own)
        } by {
            if edges.contains(p) {
                let i = choose|i: int| 0 <= i < edges.len() && edges[i] == p;
                assert(hits[i + 1].0 == ends[p]);
            }
        }
        edges
    }
}

/// The nodes that a search finds.
proof fn lemma_nodes_found<D: DistanceAlgorithm<ID>, ID>(
    features: Seq<ID>,
    adj: Seq<Seq<u32>>,
    enter: int,
    query: ID,
    ef: int,
    order: Seq<usize>,
    pool: Seq<Entry>,
    seen: Seq<Entry>,
    k: int,
) -> (nodes: Seq<usize>)
    requires
        steady_outcome::<D, ID>(features, adj, enter, query, ef, order, pool, seen),
        graph_on(adj, features.len() as int),
        0 <= enter < features.len() <= usize::MAX,
        adj[enter].no_duplicates(),
        ef >= 0,
        k >= 0,
    ensures
        ({
            let hits = cut(pool, k);
            let n = features.len() as int;
            &&& nodes.len() == hits.len()
            &&& hits.len() <= k && hits.len() <= ef && hits.len() <= n
            &&& hits.len() == k || hits.len() == ef || hits.len() == n
            &&& forall|i: int|
                0 <= i < hits.len() ==> {
                    &&& (#[trigger] nodes[i]) < n
                    &&& nodes[i] == hits[i].0
                    &&& hits[i].1 == D::distance(features[nodes[i] as int], query)
                }
            &&& forall|i: int, j: int|
                0 <= i < j < hits.len() ==> {
                    &&& (#[trigger] nodes[i]) != (#[trigger] nodes[j])
                    &&& hits[i].1 <= hits[j].1
                }
            &&& forall|i: int, a: int|
                #![trigger adj[nodes[i] as int][a]]
                0 <= i < hits.len() && 0 <= a < adj[nodes[i] as int].len() ==> {
                    let y = adj[nodes[i] as int][a];
                    nodes.contains(y as usize) || hits.last().1 <= D::distance(
                        features[y as int],
                        query,
                    )
                }
            &&& forall|a: int|
                0 <= a < ef && a < adj[enter].len() && k > 0 ==> {
                    let y = #[trigger] adj[enter][a];
                    nodes.contains(y as usize) || hits.last().1 <= D::distance(
                        features[y as int],
                        query,
                    )
                }
            &&& ef >= n && k > 0 ==> forall|y: usize|
                y < n ==> #[trigger] nodes.contains(y) || hits.last().1 <= D::distance(
                    features[y as int],
                    query,
                )
        }),
{
    let hits = cut(pool, k);
    let n = features.len() as int;
    let nodes = Seq::new(hits.len(), |i: int| hits[i].0);
    let flat = Seq::new(
        hits.len(),
        |i: int| (hits[i].1, hits[i].0, &features[hits[i].0 as int]),
    );
    lemma_answers_are_nearest::<D, ID>(
        features,
        adj,
        enter,
        query,
        ef,
        order,
        pool,
        seen,
        k,
        flat,
    );
    assert forall|i: int| 0 <= i < hits.len() implies (#[trigger] nodes[i]) < n && hits[i].1
        == D::distance(features[nodes[i] as int], query) by {
        assert(flat[i].1 < n);
    }
    assert forall|i: int, j: int| 0 <= i < j < hits.len() implies (#[trigger] nodes[i]) != (
    #[trigger] nodes[j]) && hits[i].1 <= hits[j].1 by {
        assert(flat[i].1 != flat[j].1);
    }
    assert forall|i: int, a: int|
        #![trigger adj[nodes[i] as int][a]]
        0 <= i < hits.len() && 0 <= a < adj[nodes[i] as int].len() implies {
        let y = adj[nodes[i] as int][a];
        nodes.contains(y as usize) || hits.last().1 <= D::distance(features[y as int], query)
    } by {
        let y = adj[flat[i].1 as int][a];
        assert(y == adj[nodes[i] as int][a]);
        if exists|j: int| 0 <= j < flat.len() && (#[trigger] flat[j]).1 == y {
            let j = choose|j: int| 0 <= j < flat.len() && (#[trigger] flat[j]).1 == y;
            assert(nodes[j] == y);
        }
    }
    assert forall|a: int| 0 <= a < ef && a < adj[enter].len() && k > 0 implies {
        let y = #[trigger] adj[enter][a];
        nodes.contains(y as usize) || hits.last().1 <= D::distance(features[y as int], query)
    } by {
        let y = adj[enter][a];
        if exists|j: int| 0 <= j < flat.len() && (#[trigger] flat[j]).1 == y {
            let j = choose|j: int| 0 <= j < flat.len() && (#[trigger] flat[j]).1 == y;
            assert(nodes[j] == y);
        }
    }
    if ef >= n && k > 0 {
        assert forall|y: usize| y < n implies #[trigger] nodes.contains(y) || hits.last().1
            <= D::distance(features[y as int], query) by {
            lemma_search_closed::<D, ID>(features, adj, enter, query, ef, pool, seen);
            let d = D::distance(features[y as int], query);
            let j = choose|j: int| 0 <= j < pool.len() && (#[trigger] pool[j]) == (y, d);
            assert(pool[j].0 == y);
            if j < hits.len() {
                assert(nodes[j] == y);
            } else {
                assert(pool[hits.len() - 1].1 <= pool[j].1);
            }
        }
    }
    nodes
}

/// The record that the radix tree names for `key`.
pub open spec fn exact_at(
    radix: RadixNode<u8, Option<usize>>,
    key: Option<Seq<u8>>,
) -> Option<usize> {
    match key {
        Some(k) => match radix.get(k) {
            Some(Some(i)) => Some(i),
            _ => None,
        },
        None => None,
    }
}

/// The pool size of a search: `asked`, or `built` where nothing was asked for.
pub open spec fn pool_size(asked: Option<usize>, built: usize) -> int {
    match asked {
        Some(ef) => ef as int,
        None => built as int,
    }
}

/// What a dump of a store holds.
pub struct Dump<R: ApotheosisRecord> {
    pub features: Vec<R::MetricId>,
    pub nnd_graph: Vec<NsgNode>,
    pub navigating_node: usize,
    pub alpha: PruneFactor,
    pub m: usize,
    pub c: usize,
    pub ef: usize,
    pub radix: RadixNode<u8, Option<usize>>,
    pub records: Vec<R>,
}

impl<R: ApotheosisRecord> Dump<R> {
    /// It is a dump of `store`.
    pub open spec fn holds<D>(&self, store: Apotheosis<R, D>) -> bool where
        D: DistanceAlgorithm<R::MetricId> + Default,
     {
        &&& self.features == store.nsg.features
        &&& self.nnd_graph == store.nsg.nnd_graph
        &&& self.navigating_node == store.nsg.navigating_node
        &&& self.alpha == store.nsg.alpha
        &&& self.m == store.nsg.m
        &&& self.c == store.nsg.c
        &&& self.ef == store.nsg.ef
        &&& self.radix == store.radix
        &&& self.records == store.records
    }

    /// Its parts fit together: there is a record and a node to every feature,
    /// and edges, entry point and keys name those that there are.
    pub open spec fn fits(&self) -> bool {
        let n = self.features@.len() as int;
        &&& graph_on(adjacency(self.nnd_graph@), n)
        &&& self.navigating_node < n
        &&& self.records@.len() == n
        &&& forall|i: int|
            0 <= i < self.nnd_graph@.len() ==> (#[trigger] self.nnd_graph@[i]).feature_index < n
        &&& self.radix.wf()
        &&& self.radix.names_below(self.records@.len() as int)
    }
}

/// A store of records: a graph to search by similarity, and a radix tree to find
/// a record exactly.
pub struct Apotheosis<R, D> where
    R: ApotheosisRecord,
    D: DistanceAlgorithm<R::MetricId> + Default,
 {
    pub nsg: Nsg<D, R::MetricId>,
    pub radix: RadixNode<u8, Option<usize>>,
    pub records: Vec<R>,
    pub config: BuildConfig,
}

impl<R, D> Apotheosis<R, D> where
    R: ApotheosisRecord,
    D: DistanceAlgorithm<R::MetricId> + Default,
    R::MetricId: Medoid<D>,
 {
    /// Records can be searched for: the graph can, and there is a record to every
    /// node.
    pub open spec fn searchable(&self) -> bool {
        &&& self.nsg.searchable()
        &&& self.records@.len() == self.nsg.features@.len()
        &&& forall|i: int|
            0 <= i < self.nsg.nnd_graph@.len() ==> (
            #[trigger] self.nsg.nnd_graph@[i]).feature_index < self.nsg.features@.len()
        &&& self.radix.wf()
    }

    /// Where the radix tree names a record for `query`, it is one that there is.
    pub open spec fn names_record(&self, query: R::MetricId) -> bool {
        exact_at(self.radix, <R::MetricId as RadixKeyMapping>::radix_key(query)) matches Some(i)
            ==> i < self.records@.len()
    }

    /// All of `searchable` but that the features can be measured; and every key
    /// in the radix tree names a record that there is.
    pub open spec fn structured(&self) -> bool {
        &&& graph_on(self.nsg.edges(), self.nsg.features@.len() as int)
        &&& self.nsg.navigating_node < self.nsg.features@.len()
        &&& self.records@.len() == self.nsg.features@.len()
        &&& forall|i: int|
            0 <= i < self.nsg.nnd_graph@.len() ==> (
            #[trigger] self.nsg.nnd_graph@[i]).feature_index < self.nsg.features@.len()
        &&& self.radix.wf()
        &&& self.radix.names_below(self.records@.len() as int)
    }

    /// `r` is what the store answers to `query`: the `k` nearest records with
    /// their distances.
    pub open spec fn answers(
        &self,
        query: R::MetricId,
        k: usize,
        ef_search: Option<usize>,
        r: Seq<(u32, &R)>,
    ) -> bool {
        match exact_at(self.radix, <R::MetricId as RadixKeyMapping>::radix_key(query)) {
            Some(i) => records_at(
                self.records@,
                exact_hits::<D, R::MetricId>(
                    self.nsg.features@,
                    self.nsg.nnd_graph@,
                    i,
                    k as int,
                ),
                r,
            ),
            None => exists|pool: Seq<Entry>, seen: Seq<Entry>|
                {
                    &&& #[trigger] steady_outcome::<D, R::MetricId>(
                        self.nsg.features@,
                        self.nsg.edges(),
                        self.nsg.navigating_node as int,
                        query,
                        pool_size(ef_search, self.nsg.ef),
                        self.nsg.order@,
                        pool,
                        seen,
                    )
                    &&& records_at(self.records@, cut(pool, k as int), r)
                },
        }
    }

    /// Nothing has to be drawn to answer `query`: it is found exactly, or a
    /// search has drawn the order before.
    pub open spec fn steady(&self, query: R::MetricId) -> bool {
        ||| exact_at(self.radix, <R::MetricId as RadixKeyMapping>::radix_key(query)) is Some
        ||| self.nsg.order@.len() == self.nsg.features@.len()
    }

    /// Asked twice, a store answers the same: `first` and `second` are the store
    /// after the one search and after the other, `r` and `again` the answers.
    pub proof fn lemma_search_again(
        first: Self,
        second: Self,
        query: R::MetricId,
        k: usize,
        ef_search: Option<usize>,
        r: Seq<(u32, &R)>,
        again: Seq<(u32, &R)>,
    )
        requires
            first.steady(query),
            first.answers(query, k, ef_search, r),
            first.steady(query) ==> second == first,
            second.answers(query, k, ef_search, again),
        ensures
            again == r,
    {
        match exact_at(first.radix, <R::MetricId as RadixKeyMapping>::radix_key(query)) {
            Some(i) => {},
            None => {
                let features = first.nsg.features@;
                let adj = first.nsg.edges();
                let enter = first.nsg.navigating_node as int;
                let ef = pool_size(ef_search, first.nsg.ef);
                let order = first.nsg.order@;
                let (p1, s1) = choose|pool: Seq<Entry>, seen: Seq<Entry>|
                    {
                        &&& #[trigger] steady_outcome::<D, R::MetricId>(
                            features,
                            adj,
                            enter,
                            query,
                            ef,
                            order,
                            pool,
                            seen,
                        )
                        &&& records_at(first.records@, cut(pool, k as int), r)
                    };
                let (p2, s2) = choose|pool: Seq<Entry>, seen: Seq<Entry>|
                    {
                        &&& #[trigger] steady_outcome::<D, R::MetricId>(
                            features,
                            adj,
                            enter,
                            query,
                            ef,
                            order,
                            pool,
                            seen,
                        )
                        &&& records_at(first.records@, cut(pool, k as int), again)
                    };
                lemma_steady_alike::<D, R::MetricId>(
                    features,
                    adj,
                    enter,
                    query,
                    ef,
                    order,
                    p1,
                    s1,
                    p2,
                    s2,
                );
            },
        }
        assert(again =~= r);
    }

    /// Every record that was kept is found by its own key: the record comes
    /// first, at distance 0. `before` is the radix tree before the records were
    /// inserted.
    pub proof fn lemma_kept_is_found(
        store: Self,
        before: RadixNode<u8, Option<usize>>,
        p: int,
        query: R::MetricId,
        k: usize,
        ef_search: Option<usize>,
        r: Seq<(u32, &R)>,
    )
        requires
            <R::MetricId as RadixKeyMapping>::radix_key(query) matches Some(key) && before.get(
                key,
            ) is None && stands(store.records@, p, key),
            keyed(before, store.records@, store.radix),
            store.records@.len() <= usize::MAX,
            k >= 1,
            store.answers(query, k, ef_search, r),
        ensures
            1 <= r.len() <= k,
            r[0].0 == 0,
            *r[0].1 == store.records@[p],
    {
        let key = <R::MetricId as RadixKeyMapping>::radix_key(query)->0;
        assert(stands(store.records@, p, key));
        assert(store.radix.get(key) == Some(Some(p as usize)));
        let hits = exact_hits::<D, R::MetricId>(
            store.nsg.features@,
            store.nsg.nnd_graph@,
            p as usize,
            k as int,
        );
        assert(hits[0] == (p as usize, 0u32));
    }

    /// A query with the key of record `at` is answered with that record and the
    /// records at the ends of its edges that are nearest to it. The record comes
    /// first, at distance 0; behind it each record stands with its distance, the
    /// nearer first; and where an end is left out, the answer holds `k` records and
    /// none farther than that end. The result says which edge each comes from.
    pub proof fn lemma_exact_answer(
        &self,
        query: R::MetricId,
        key: Seq<u8>,
        at: usize,
        k: usize,
        ef_search: Option<usize>,
        r: Seq<(u32, &R)>,
    ) -> (edges: Seq<int>)
        requires
            <R::MetricId as RadixKeyMapping>::radix_key(query) == Some(key),
            self.radix.get(key) == Some(Some(at)),
            at < self.nsg.nnd_graph@.len(),
            self.answers(query, k, ef_search, r),
            k > 0,
        ensures
            ({
                let features = self.nsg.features@;
                let ends = self.nsg.nnd_graph@[at as int].neighbors@;
                let own = features[self.nsg.nnd_graph@[at as int].feature_index as int];
                &&& r.len() == edges.len() + 1
                &&& r.len() <= k
                &&& r[0].0 == 0
                &&& *r[0].1 == self.records@[at as int]
                &&& forall|i: int|
                    0 <= i < edges.len() ==> {
                        &&& 0 <= #[trigger] edges[i] < ends.len()
                        &&& ends[edges[i]] != at
                        &&& *r[i + 1].1 == self.records@[ends[edges[i]] as int]
                        &&& r[i + 1].0 == D::distance(features[ends[edges[i]] as int], own)
                    }
                &&& forall|i: int, j: int|
                    0 <= i < j < edges.len() ==> {
                        &&& #[trigger] edges[i] != #[trigger] edges[j]
                        &&& r[i + 1].0 <= r[j + 1].0
                    }
                &&& forall|p: int|
                    0 <= p < ends.len() && #[trigger] ends[p] != at ==> edges.contains(p) || (
                    r.len() == k && (k == 1 || r.last().0 <= D::distance(
                        features[ends[p] as int],
                        own,
                    )))
            }),
    {
        let features = self.nsg.features@;
        let graph = self.nsg.nnd_graph@;
        let hits = exact_hits::<D, R::MetricId>(features, graph, at, k as int);
        let edges = lemma_exact_hits_nearest::<D, R::MetricId>(features, graph, at, k as int);
        assert(records_at(self.records@, hits, r));
        let ends = graph[at as int].neighbors@;
        let own = features[graph[at as int].feature_index as int];
        assert forall|i: int| 0 <= i < edges.len() implies {
            &&& 0 <= #[trigger] edges[i] < ends.len()
            &&& ends[edges[i]] != at
            &&& *r[i + 1].1 == self.records@[ends[edges[i]] as int]
            &&& r[i + 1].0 == D::distance(features[ends[edges[i]] as int], own)
        } by {
            assert(r[i + 1].0 == hits[i + 1].1);
        }
        assert forall|i: int, j: int| 0 <= i < j < edges.len() implies {
            &&& #[trigger] edges[i] != #[trigger] edges[j]
            &&& r[i + 1].0 <= r[j + 1].0
        } by {
            assert(r[i + 1].0 == hits[i + 1].1);
            assert(r[j + 1].0 == hits[j + 1].1);
        }
        edges
    }

    /// A query whose key names no record is answered with the records of a search.
    /// The result says which node each is of. There are as many as asked for, as
    /// far as the pool and the features go, each once, with its distance to the
    /// query, the nearer first; and where an edge of one of them leads, or of the
    /// entry point as far as the pool has room, is among them or no nearer than the
    /// last. A pool with room for every feature leaves out nothing that is nearer.
    pub proof fn lemma_searched_answer(
        &self,
        query: R::MetricId,
        k: usize,
        ef_search: Option<usize>,
        r: Seq<(u32, &R)>,
    ) -> (nodes: Seq<usize>)
        requires
            self.searchable(),
            self.nsg.edges()[self.nsg.navigating_node as int].no_duplicates(),
            <R::MetricId as RadixKeyMapping>::radix_key(query) matches Some(key) ==> !(
            self.radix.get(key) matches Some(Some(_))),
            self.answers(query, k, ef_search, r),
        ensures
            ({
                let features = self.nsg.features@;
                let n = features.len() as int;
                let adj = self.nsg.edges();
                let enter = self.nsg.navigating_node as int;
                let ef = match ef_search {
                    Some(asked) => asked as int,
                    None => self.nsg.ef as int,
                };
                &&& nodes.len() == r.len()
                &&& r.len() <= k && r.len() <= ef && r.len() <= n
                &&& r.len() == k || r.len() == ef || r.len() == n
                &&& forall|i: int|
                    0 <= i < r.len() ==> {
                        &&& (#[trigger] nodes[i]) < n
                        &&& *r[i].1 == self.records@[nodes[i] as int]
                        &&& r[i].0 == D::distance(features[nodes[i] as int], query)
                    }
                &&& forall|i: int, j: int|
                    0 <= i < j < r.len() ==> {
                        &&& (#[trigger] nodes[i]) != (#[trigger] nodes[j])
                        &&& r[i].0 <= r[j].0
                    }
                &&& forall|i: int, a: int|
                    #![trigger adj[nodes[i] as int][a]]
                    0 <= i < r.len() && 0 <= a < adj[nodes[i] as int].len() ==> {
                        let y = adj[nodes[i] as int][a];
                        nodes.contains(y as usize) || r.last().0 <= D::distance(
                            features[y as int],
                            query,
                        )
                    }
                &&& forall|a: int|
                    0 <= a < ef && a < adj[enter].len() && k > 0 ==> {
                        let y = #[trigger] adj[enter][a];
                        nodes.contains(y as usize) || r.last().0 <= D::distance(
                            features[y as int],
                            query,
                        )
                    }
                &&& ef >= n && k > 0 ==> forall|y: usize|
                    y < n ==> #[trigger] nodes.contains(y) || r.last().0 <= D::distance(
                        features[y as int],
                        query,
                    )
            }),
    {
        let features = self.nsg.features@;
        let n = features.len() as int;
        let adj = self.nsg.edges();
        let enter = self.nsg.navigating_node as int;
        let ef = pool_size(ef_search, self.nsg.ef);
        let (pool, seen) = choose|pool: Seq<Entry>, seen: Seq<Entry>|
            {
                &&& #[trigger] steady_outcome::<D, R::MetricId>(
                    features,
                    adj,
                    enter,
                    query,
                    ef,
                    self.nsg.order@,
                    pool,
                    seen,
                )
                &&& records_at(self.records@, cut(pool, k as int), r)
            };
        let hits = cut(pool, k as int);
        assert(self.nsg.features.len() == n);
        let nodes = lemma_nodes_found::<D, R::MetricId>(
            features,
            adj,
            enter,
            query,
            ef,
            self.nsg.order@,
            pool,
            seen,
            k as int,
        );
        assert forall|i: int| 0 <= i < r.len() implies #[trigger] nodes[i] == hits[i].0 && r[i].0
            == hits[i].1 by {}
        nodes
    }

    /// A structured store whose features can be measured can be searched, for
    /// every query.
    pub proof fn lemma_structured(&self, query: R::MetricId)
        requires
            self.structured(),
            all_admitted::<D, R::MetricId>(self.nsg.features@),
        ensures
            self.searchable(),
            self.names_record(query),
    {
        if let Some(k) = <R::MetricId as RadixKeyMapping>::radix_key(query) {
            lemma_names_below(&self.radix, self.records@.len() as int, k);
        }
    }

    /// Whether the parts of a store fit together, for a store that was put
    /// together from outside.
    pub fn is_structured(&self) -> (r: bool)
        ensures
            r == self.structured(),
    {
        let n: usize = self.nsg.features.len();
        if self.nsg.nnd_graph.len() != n || self.records.len() != n || self.nsg.navigating_node
            >= n {
            return false;
        }
        let ghost adj = self.nsg.edges();
        let mut i: usize = 0;
        while i < n
            invariant
                n == self.nsg.features@.len(),
                n == self.nsg.nnd_graph@.len(),
                adj == self.nsg.edges(),
                i <= n,
                forall|a: int|
                    0 <= a < i ==> (#[trigger] self.nsg.nnd_graph@[a]).feature_index < n,
                forall|a: int, k: int|
                    0 <= a < i && 0 <= k < adj[a].len() ==> (#[trigger] adj[a][k]) < n,
            decreases n - i,
        {
            let node: &NsgNode = &self.nsg.nnd_graph[i];
            assert(adj[i as int] == node.neighbors@);
            if node.feature_index as usize >= n {
                assert(!(self.nsg.nnd_graph@[i as int].feature_index < n));
                return false;
            }
            let ends: &Vec<u32> = node.active_neighbors();
            let mut k: usize = 0;
            while k < ends.len()
                invariant
                    n == self.nsg.features@.len(),
                    i < n,
                    adj == self.nsg.edges(),
                    adj.len() == n,
                    adj[i as int] == ends@,
                    k <= ends@.len(),
                    forall|j: int| 0 <= j < k ==> (#[trigger] ends@[j]) < n,
                decreases ends@.len() - k,
            {
                if ends[k] as usize >= n {
                    assert(!(adj[i as int][k as int] < n));
                    return false;
                }
                k = k + 1;
            }
            i = i + 1;
        }
        self.radix.sound_below(n)
    }

    /// An empty store.
    pub fn new(config: BuildConfig) -> (r: Self)
        ensures
            r.nsg.features@.len() == 0,
            r.nsg.nnd_graph@.len() == 0,
            r.nsg.navigating_node == usize::MAX,
            r.nsg.prng.state() == seeded_state(42),
            r.nsg.order@.len() == 0,
            r.nsg.m == 16,
            r.nsg.c == 500,
            r.nsg.ef == 400,
            r.radix.wf(),
            forall|k: Seq<u8>| #[trigger] r.radix.get(k) is None,
            r.records@.len() == 0,
            r.config == config,
    {
        Apotheosis {
            nsg: Nsg::new(),
            radix: RadixNode::new(Vec::new(), None),
            records: Vec::new(),
            config,
        }
    }

    /// The store that a dump holds, with a generator as a new store has it and
    /// the default configuration: a dump carries neither.
    pub fn restore(parts: Dump<R>) -> (r: Self)
        ensures
            parts.holds(r),
            r.structured() == parts.fits(),
            r.nsg.prng.state() == seeded_state(42),
            r.nsg.prng.origin() == 42,
            r.nsg.order@.len() == 0,
            r.config == default_config(),
    {
        let mut nsg: Nsg<D, R::MetricId> = Nsg::new();
        nsg.features = parts.features;
        nsg.nnd_graph = parts.nnd_graph;
        nsg.navigating_node = parts.navigating_node;
        nsg.alpha = parts.alpha;
        nsg.m = parts.m;
        nsg.c = parts.c;
        nsg.ef = parts.ef;
        Apotheosis {
            nsg,
            radix: parts.radix,
            records: parts.records,
            config: BuildConfig::default(),
        }
    }

    /// A dump of a store, whatever store it is, gives the store back: records,
    /// keys, features, edges with their distances, entry point and sizes.
    pub proof fn lemma_restored_as_it_was(store: Self, parts: Dump<R>, restored: Self)
        requires
            parts.holds(store),
            parts.holds(restored),
        ensures
            restored.records == store.records,
            restored.radix == store.radix,
            restored.nsg.features == store.nsg.features,
            restored.nsg.nnd_graph == store.nsg.nnd_graph,
            restored.nsg.navigating_node == store.nsg.navigating_node,
            restored.nsg.alpha == store.nsg.alpha,
            restored.nsg.m == store.nsg.m,
            restored.nsg.c == store.nsg.c,
            restored.nsg.ef == store.nsg.ef,
            restored.structured() == store.structured(),
    {
    }

    /// Sets the seed of the next construction, and starts the generator of the
    /// searches over from it.
    pub fn set_seed(&mut self, seed: u64)
        ensures
            final(self).config == (BuildConfig { seed, ..old(self).config }),
            final(self).nsg.prng.origin() == seed,
            final(self).nsg.prng.state() == seeded_state(seed),
            final(self).nsg.order@.len() == 0,
            final(self).nsg.features == old(self).nsg.features,
            final(self).nsg.nnd_graph == old(self).nsg.nnd_graph,
            final(self).nsg.navigating_node == old(self).nsg.navigating_node,
            final(self).nsg.distance == old(self).nsg.distance,
            final(self).nsg.alpha == old(self).nsg.alpha,
            final(self).nsg.m == old(self).nsg.m,
            final(self).nsg.c == old(self).nsg.c,
            final(self).nsg.ef == old(self).nsg.ef,
            final(self).radix == old(self).radix,
            final(self).records == old(self).records,
    {
        self.config.seed = seed;
        self.nsg.set_seed(seed);
    }

    /// Takes `records` in place of those there are, and builds the graph over
    /// them. A record whose key is in the radix tree already is left out; the
    /// keys of earlier calls stay in the tree.
    pub fn insert(&mut self, records: Vec<R>) -> (r: bool)
        requires
            old(self).radix.wf(),
            forall|i: int|
                0 <= i < records@.len() ==> {
                    let id = (#[trigger] records@[i]).id();
                    &&& <R::MetricId as RadixKeyMapping>::maps(id)
                    &&& <R::MetricId as Medoid<D>>::ranks(id)
                    &&& D::admits(id)
                },
            ({
                let kept = kept_of(records@, records@.len(), old(self).radix);
                &&& 0 < kept.len() <= 0x1_0000_0000
                &&& old(self).config.init == NndInit::Random ==> old(self).config.nnd.s < kept.len()
            }),
            old(self).config.nsg.alpha.wf(),
        ensures
            r,
            final(self).records@ == kept_of(records@, records@.len(), old(self).radix),
            final(self).radix.wf(),
            keyed(old(self).radix, final(self).records@, final(self).radix),
            final(self).nsg.features@ == ids_of(final(self).records@),
            exists|
                lists: Seq<Seq<Entry>>,
                chosen: Seq<Seq<Entry>>,
                cut: Seq<Seq<Entry>>,
                steps: Seq<(int, int)>,
            |
                {
                    &&& #[trigger] build_outcome::<D, R::MetricId>(
                        final(self).nsg.features@,
                        old(self).config,
                        final(self).nsg.navigating_node as int,
                        final(self).nsg.edges(),
                        lists,
                        chosen,
                        cut,
                        steps,
                    )
                    &&& carries::<D, R::MetricId>(
                        final(self).nsg.features@,
                        cut,
                        final(self).nsg.nnd_graph@,
                    )
                },
            final(self).searchable(),
            simple(final(self).nsg.edges()),
            forall|v: int|
                0 <= v < final(self).records@.len() ==> #[trigger] reaches(
                    final(self).nsg.edges(),
                    final(self).nsg.navigating_node as int,
                    v,
                ),
            forall|query: R::MetricId|
                exact_at(
                    old(self).radix,
                    <R::MetricId as RadixKeyMapping>::radix_key(query),
                ) is None ==> #[trigger] final(self).names_record(query),
            final(self).nsg.ef == old(self).config.nsg.ef,
            final(self).nsg.prng.origin() == old(self).config.seed,
            final(self).config == old(self).config,
    {
        let ghost all = records@;
        let ghost before = self.radix;
        let mut kept: Vec<R> = Vec::with_capacity(records.len());
        let mut features: Vec<R::MetricId> = Vec::with_capacity(records.len());
        let count: usize = records.len();
        for record in it: records
            invariant
                it.seq() == all,
                count == all.len(),
                before.wf(),
                before == old(self).radix,
                self.radix.wf(),
                self.config == old(self).config,
                kept@ == kept_of(all, it.index() as nat, before),
                features@ == ids_of(kept@),
                keyed(before, kept@, self.radix),
                forall|i: int|
                    0 <= i < all.len() ==> {
                        let id = (#[trigger] all[i]).id();
                        &&& <R::MetricId as RadixKeyMapping>::maps(id)
                        &&& <R::MetricId as Medoid<D>>::ranks(id)
                        &&& D::admits(id)
                    },
        {
            let ghost i = it.index();
            let ghost kept0 = kept@;
            let ghost radix0 = self.radix;
            assert(record == all[i]);
            proof {
                lemma_kept_once(all, i as nat, before);
                lemma_kept_once(all, (i + 1) as nat, before);
            }
            let feature: R::MetricId = record.search_id();
            match feature.to_radix_key() {
                Some(key) => {
                    let ghost k = key@;
                    if self.radix.find(key.as_slice()).is_some() {
                        proof {
                            if is_kept(all, i as int, before) {
                                let p = choose|p: int| stands(kept0, p, k);
                                assert(stands(kept0, p, k));
                                let j = choose|j: int|
                                    0 <= j < i && #[trigger] all[j] == kept0[p];
                                assert(key_of(all[j]) == Some(k));
                            }
                        }
                    } else {
                        proof {
                            assert(before.get(k) is None) by {
                                if before.get(k) is Some {
                                    assert(radix0.get(k) == before.get(k));
                                }
                            }
                            assert forall|j: int| 0 <= j < i implies key_of(#[trigger] all[j])
                                != Some(k) by {
                                if key_of(all[j]) == Some(k) {
                                    assert(stands(all, j, k));
                                    let p = choose|p: int| #[trigger] stands(kept0, p, k);
                                    assert(radix0.get(k) is Some);
                                }
                            }
                            assert(is_kept(all, i as int, before));
                        }
                        let index: usize = kept.len();
                        self.radix.insert(key, Some(index));
                        features.push(feature);
                        kept.push(record);
                        proof {
                            assert(kept@ == kept_of(all, (i + 1) as nat, before));
                            assert(features@ =~= ids_of(kept@));
                            lemma_keyed_push(before, kept0, radix0, all[i as int], k, self.radix);
                        }
                    }
                },
                None => {
                    features.push(feature);
                    kept.push(record);
                    proof {
                        assert(kept@ == kept_of(all, (i + 1) as nat, before));
                        assert(features@ =~= ids_of(kept@));
                        lemma_keyed_plain(before, kept0, radix0, all[i as int]);
                    }
                },
            }
        }
        self.records = kept;
        proof {
            lemma_kept_once(all, all.len(), before);
            assert forall|i: int| 0 <= i < features@.len() implies <R::MetricId as Medoid<D>>::ranks(
                #[trigger] features@[i],
            ) && D::admits(features@[i]) by {
                let j = choose|j: int| 0 <= j < all.len() && #[trigger] all[j] == self.records@[i];
                assert(all[j].id() == features@[i]);
            }
        }
        let cfg: BuildConfig = self.config;
        self.nsg.build(features, &cfg);
        proof {
            assert forall|query: R::MetricId|
                exact_at(before, <R::MetricId as RadixKeyMapping>::radix_key(query)) is None implies
                #[trigger] self.names_record(query) by {
                if let Some(k) = <R::MetricId as RadixKeyMapping>::radix_key(query) {
                    if before.get(k) is Some {
                        assert(self.radix.get(k) == before.get(k));
                    } else if self.radix.get(k) is Some {
                        let p = choose|p: int| stands(self.records@, p, k);
                        assert(stands(self.records@, p, k));
                        assert(self.radix.get(k) == Some(Some(p as usize)));
                    }
                }
            }
        }
        true
    }

    /// The `k` records nearest to `query`, with their distances. A query that is
    /// found in the radix tree is answered with its record and the neighbours of
    /// that in the graph, without a search; any other by a search with a pool of
    /// `ef_search`, or of the size that the graph was built with.
    pub fn search(
        &mut self,
        query: &R::MetricId,
        k: usize,
        ef_search: Option<usize>,
    ) -> (r: Vec<(u32, &R)>)
        requires
            old(self).searchable(),
            old(self).names_record(*query),
            <R::MetricId as RadixKeyMapping>::maps(*query),
            D::admits(*query),
        ensures
            final(self).nsg.same_graph(&old(self).nsg),
            final(self).radix == old(self).radix,
            final(self).records == old(self).records,
            final(self).config == old(self).config,
            final(self).answers(*query, k, ef_search, r@),
            final(self).steady(*query),
            old(self).steady(*query) ==> *final(self) == *old(self),
            !old(self).steady(*query) ==> permutation(
                final(self).nsg.order@,
                old(self).nsg.features@.len() as int,
            ),
    {
        let ef: usize = match ef_search {
            Some(e) => e,
            None => self.nsg.default_ef(),
        };
        let at: Option<usize> = self.exact_node(query);
        let hits: Vec<Entry> = match at {
            Some(i) => self.neighbors_of(i, k),
            None => self.search_graph(query, k, ef),
        };
        let mut r: Vec<(u32, &R)> = Vec::new();
        let mut i: usize = 0;
        while i < hits.len()
            invariant
                within(hits@, self.records@.len() as int),
                i <= hits@.len(),
                r@.len() == i,
                forall|j: int|
                    0 <= j < i ==> {
                        &&& (#[trigger] r@[j]).0 == hits@[j].1
                        &&& *r@[j].1 == self.records@[hits@[j].0 as int]
                    },
            decreases hits@.len() - i,
        {
            let (at, d) = hits[i];
            r.push((d, &self.records[at]));
            i = i + 1;
        }
        proof {
            assert(records_at(self.records@, hits@, r@));
            assert(self.nsg.edges() == old(self).nsg.edges());
            if at is None {
                assert(pool_size(ef_search, self.nsg.ef) == ef);
                let (pool, seen) = choose|pool: Seq<Entry>, seen: Seq<Entry>|
                    {
                        &&& #[trigger] steady_outcome::<D, R::MetricId>(
                            self.nsg.features@,
                            self.nsg.edges(),
                            self.nsg.navigating_node as int,
                            *query,
                            ef as int,
                            self.nsg.order@,
                            pool,
                            seen,
                        )
                        &&& hits@ == cut(pool, k as int)
                    };
                assert(records_at(self.records@, cut(pool, k as int), r@));
            }
            assert(self.answers(*query, k, ef_search, r@));
        }
        r
    }

    /// The node that the radix tree names for `query`.
    fn exact_node(&self, query: &R::MetricId) -> (at: Option<usize>)
        requires
            self.searchable(),
            self.names_record(*query),
            <R::MetricId as RadixKeyMapping>::maps(*query),
        ensures
            at == exact_at(
                self.radix,
                <R::MetricId as RadixKeyMapping>::radix_key(*query),
            ),
            at matches Some(i) ==> i < self.records@.len(),
    {
        match query.to_radix_key() {
            Some(key) => match self.radix.find(key.as_slice()) {
                Some(node) => {
                    match node.data {
                        Some(Some(i)) => Some(i),
                        _ => None,
                    }
                },
                None => None,
            },
            None => None,
        }
    }

    /// Node `at` and its neighbours, nearest first, `k` in all at most.
    fn neighbors_of(&self, at: usize, k: usize) -> (hits: Vec<Entry>)
        requires
            self.searchable(),
            at < self.records@.len(),
        ensures
            hits@ == exact_hits::<D, R::MetricId>(
                self.nsg.features@,
                self.nsg.nnd_graph@,
                at,
                k as int,
            ),
            within(hits@, self.records@.len() as int),
    {
        let ghost node = self.nsg.nnd_graph@[at as int];
        let ghost features = self.nsg.features@;
        let ghost own = features[node.feature_index as int];
        let ghost raw = neighbors_at::<D, R::MetricId>(features, node);
        let ghost n = self.records@.len() as int;
        assert(self.nsg.edges()[at as int] == node.neighbors@);
        assert(within(raw, n)) by {
            assert forall|j: int| 0 <= j < raw.len() implies (#[trigger] raw[j]).0 < n by {
                assert(self.nsg.edges()[at as int][j] < self.nsg.features@.len());
            }
        }
        let all = self.nsg.get_neighbors_node(at);
        let mut rest: Vec<Entry> = Vec::new();
        let mut i: usize = 1;
        assert(raw.take(0) =~= Seq::<Entry>::empty());
        while i < all.len()
            invariant
                1 <= i <= all@.len(),
                all@.len() == node.neighbors@.len() + 1,
                raw == neighbors_at::<D, R::MetricId>(features, node),
                own == features[node.feature_index as int],
                within(raw, n),
                forall|j: int|
                    0 <= j < node.neighbors@.len() ==> {
                        let end = #[trigger] node.neighbors@[j];
                        &&& all@[j + 1].0 == D::distance(features[end as int], own)
                        &&& all@[j + 1].1 == end
                    },
                rest@ == ranked_without(raw.take(i - 1), at),
                by_distance(rest@),
                within(rest@, n),
            decreases all@.len() - i,
        {
            let ghost before = rest@;
            let ghost e = raw[i - 1];
            proof {
                let end = node.neighbors@[i - 1];
                assert(all@[(i - 1) + 1].1 == end);
                assert(e == (all@[i as int].1, all@[i as int].0));
                assert(raw.take(i as int).drop_last() =~= raw.take(i - 1));
                assert(raw.take(i as int).last() == e);
                lemma_insert_sorted(before, e);
            }
            let (d, x) = (all[i].0, all[i].1);
            if x != at {
                let p: usize = rank_of(&rest, d);
                rest.insert(p, (x, d));
                assert forall|j: int| 0 <= j < rest@.len() implies (#[trigger] rest@[j]).0 < n by {
                    if j < p {
                        assert(rest@[j] == before[j]);
                    } else if j > p {
                        assert(rest@[j] == before[j - 1]);
                    }
                }
            }
            i = i + 1;
        }
        assert(raw.take(i - 1) =~= raw);
        let ghost ranked = rest@;
        let mut hits: Vec<Entry> = Vec::new();
        hits.push((at, 0));
        hits.append(&mut rest);
        let ghost whole = hits@;
        assert(whole =~= seq![(at, 0u32)] + ranked);
        assert(within(whole, n)) by {
            assert forall|j: int| 0 <= j < whole.len() implies (#[trigger] whole[j]).0 < n by {
                if j > 0 {
                    assert(whole[j] == ranked[j - 1]);
                }
            }
        }
        if hits.len() > k {
            hits.truncate(k);
            assert(hits@ =~= whole.take(k as int));
        }
        hits
    }

    /// The `k` nearest nodes that a search finds.
    fn search_graph(&mut self, query: &R::MetricId, k: usize, ef: usize) -> (hits: Vec<Entry>)
        requires
            old(self).searchable(),
            D::admits(*query),
        ensures
            final(self).nsg.same_graph(&old(self).nsg),
            final(self).radix == old(self).radix,
            final(self).records == old(self).records,
            final(self).config == old(self).config,
            within(hits@, old(self).records@.len() as int),
            old(self).nsg.order@.len() == old(self).nsg.features@.len() ==> *final(self) == *old(
                self,
            ),
            old(self).nsg.order@.len() != old(self).nsg.features@.len() ==> permutation(
                final(self).nsg.order@,
                old(self).nsg.features@.len() as int,
            ),
            exists|pool: Seq<Entry>, seen: Seq<Entry>|
                {
                    &&& #[trigger] steady_outcome::<D, R::MetricId>(
                        old(self).nsg.features@,
                        old(self).nsg.edges(),
                        old(self).nsg.navigating_node as int,
                        *query,
                        ef as int,
                        final(self).nsg.order@,
                        pool,
                        seen,
                    )
                    &&& hits@ == cut(pool, k as int)
                },
    {
        let ghost features = self.nsg.features@;
        self.nsg.draw_order();
        let ghost order = self.nsg.order@;
        let results = self.nsg.steady_search(query, k, ef);
        let ghost (pool, seen) = choose|pool: Seq<Entry>, seen: Seq<Entry>|
            {
                &&& #[trigger] steady_outcome::<D, R::MetricId>(
                    features,
                    old(self).nsg.edges(),
                    old(self).nsg.navigating_node as int,
                    *query,
                    ef as int,
                    order,
                    pool,
                    seen,
                )
                &&& found(features, pool, k as int, results@)
            };
        let mut hits: Vec<Entry> = Vec::new();
        let mut i: usize = 0;
        while i < results.len()
            invariant
                i <= results@.len(),
                found(features, pool, k as int, results@),
                hits@ =~= pool.take(i as int),
            decreases results@.len() - i,
        {
            hits.push((results[i].1, results[i].0));
            assert(pool[i as int] == (results@[i as int].1, results@[i as int].0));
            i = i + 1;
        }
        assert(hits@ =~= cut(pool, k as int));
        assert(within(hits@, features.len() as int)) by {
            assert forall|j: int| 0 <= j < hits@.len() implies (#[trigger] hits@[j]).0
                < features.len() by {
                assert(hits@[j] == pool[j]);
            }
        }
        hits
    }
}

/// One more record under a key.
proof fn lemma_keyed_push<R: ApotheosisRecord>(
    before: RadixNode<u8, Option<usize>>,
    kept: Seq<R>,
    radix: RadixNode<u8, Option<usize>>,
    record: R,
    k: Seq<u8>,
    after: RadixNode<u8, Option<usize>>,
)
    requires
        keyed(before, kept, radix),
        kept.len() <= usize::MAX,
        key_of(record) == Some(k),
        before.get(k) is None,
        radix.get(k) is None,
        forall|s: Seq<u8>| #[trigger]
            after.get(s) == if s == k {
                Some(Some(kept.len() as usize))
            } else {
                radix.get(s)
            },
    ensures
        keyed(before, kept.push(record), after),
{
    let more = kept.push(record);
    let l = kept.len() as int;
    assert forall|s: Seq<u8>|
        {
            &&& before.get(s) is Some ==> #[trigger] after.get(s) == before.get(s)
            &&& before.get(s) is None ==> (after.get(s) is Some <==> exists|p: int|
                stands(more, p, s))
            &&& forall|p: int|
                before.get(s) is None && #[trigger] stands(more, p, s) ==> after.get(s) == Some(
                    Some(p as usize),
                )
        } by {
        assert(before.get(s) is Some ==> radix.get(s) == before.get(s));
        if s == k {
            assert(stands(more, l, s));
            assert forall|p: int| #[trigger] stands(more, p, s) implies p == l by {
                if p < l {
                    assert(more[p] == kept[p]);
                    assert(stands(kept, p, s));
                }
            }
        } else {
            assert forall|p: int| #[trigger] stands(more, p, s) <==> stands(kept, p, s) by {
                if 0 <= p < l {
                    assert(more[p] == kept[p]);
                }
            }
            if exists|p: int| stands(more, p, s) {
                let p = choose|p: int| stands(more, p, s);
                assert(stands(kept, p, s));
            }
            if exists|p: int| stands(kept, p, s) {
                let p = choose|p: int| stands(kept, p, s);
                assert(stands(more, p, s));
            }
        }
    }
}

/// One more record without a key.
proof fn lemma_keyed_plain<R: ApotheosisRecord>(
    before: RadixNode<u8, Option<usize>>,
    kept: Seq<R>,
    radix: RadixNode<u8, Option<usize>>,
    record: R,
)
    requires
        keyed(before, kept, radix),
        key_of(record) is None,
    ensures
        keyed(before, kept.push(record), radix),
{
    let more = kept.push(record);
    assert forall|s: Seq<u8>|
        {
            &&& before.get(s) is Some ==> #[trigger] radix.get(s) == before.get(s)
            &&& before.get(s) is None ==> (radix.get(s) is Some <==> exists|p: int|
                stands(more, p, s))
            &&& forall|p: int|
                before.get(s) is None && #[trigger] stands(more, p, s) ==> radix.get(s) == Some(
                    Some(p as usize),
                )
        } by {
        assert forall|p: int| #[trigger] stands(more, p, s) <==> stands(kept, p, s) by {
            if 0 <= p < kept.len() {
                assert(more[p] == kept[p]);
            }
        }
        if exists|p: int| stands(more, p, s) {
            let p = choose|p: int| stands(more, p, s);
            assert(stands(kept, p, s));
        }
        if exists|p: int| stands(kept, p, s) {
            let p = choose|p: int| stands(kept, p, s);
            assert(stands(more, p, s));
        }
    }
}

// ---------------------------------------------------------------------------
// Laws
// ---------------------------------------------------------------------------

// ---------------------------------------------------------------------------
// Dumps
// ---------------------------------------------------------------------------

/// What a dump starts with: `APOT`.
pub open spec fn magic() -> Seq<u8> {
    seq![0x41u8, 0x50u8, 0x4fu8, 0x54u8]
}

/// Why bytes are not a dump.
#[derive(Clone, Copy, Debug, PartialEq, Eq, Structural)]
pub enum FrameError {
    /// They are fewer than the magic bytes.
    Truncated,
    /// They start with something else.
    MissingMagic,
}

/// A dump that holds `payload`.
pub fn frame(payload: &[u8]) -> (bytes: Vec<u8>)
    ensures
        bytes@ == magic() + payload@,
{
    let mut bytes: Vec<u8> = Vec::with_capacity(4);
    bytes.push(0x41);
    bytes.push(0x50);
    bytes.push(0x4f);
    bytes.push(0x54);
    let mut rest: Vec<u8> = vstd::slice::slice_to_vec(payload);
    bytes.append(&mut rest);
    assert(bytes@ =~= magic() + payload@);
    bytes
}

/// What a dump holds.
pub fn unframe(bytes: &[u8]) -> (r: Result<Vec<u8>, FrameError>)
    ensures
        r is Ok <==> magic().is_prefix_of(bytes@),
        r matches Ok(payload) ==> bytes@ == magic() + payload@,
        r == Err::<Vec<u8>, FrameError>(FrameError::Truncated) <==> bytes@.len() < 4,
        r == Err::<Vec<u8>, FrameError>(FrameError::MissingMagic) <==> bytes@.len() >= 4
            && !magic().is_prefix_of(bytes@),
{
    if bytes.len() < 4 {
        return Err(FrameError::Truncated);
    }
    if bytes[0] != 0x41 || bytes[1] != 0x50 || bytes[2] != 0x4f || bytes[3] != 0x54 {
        proof {
            let head = bytes@.subrange(0, 4);
            assert(head[0] == bytes@[0] && head[1] == bytes@[1] && head[2] == bytes@[2] && head[3]
                == bytes@[3]);
            assert(magic()[0] == 0x41 && magic()[1] == 0x50 && magic()[2] == 0x4f && magic()[3]
                == 0x54);
        }
        return Err(FrameError::MissingMagic);
    }
    let payload: Vec<u8> = vstd::slice::slice_to_vec(
        vstd::slice::slice_subrange(bytes, 4, bytes.len()),
    );
    proof {
        assert(magic() =~= bytes@.subrange(0, 4));
        assert(bytes@ =~= magic() + payload@);
    }
    Ok(payload)
}

/// What a dump was made of is what it holds.
pub proof fn lemma_unframe_frame(payload: Seq<u8>)
    ensures
        magic().is_prefix_of(magic() + payload),
        (magic() + payload).skip(4) == payload,
{
    assert(magic() =~= (magic() + payload).subrange(0, 4));
    assert((magic() + payload).skip(4) =~= payload);
}

} // verus!
