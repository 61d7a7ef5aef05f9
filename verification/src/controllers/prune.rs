//! Selection of the edges of a node: near ones first, spread over directions.

use crate::controllers::occlusion::PruneFactor;
use crate::controllers::search::{greater, lesser};
use crate::datalayer::algorithms::{all_admitted, DistanceAlgorithm};
use crate::datalayer::nodes::{adjacency, graph_on, NsgNode};
use crate::order::{
    by_distance, distinct, lemma_insert_distinct, lemma_insert_lists, lemma_same_entries, lists,
    same_items, sort_by_distance, within, Entry,
};
use std::collections::HashSet;
use vstd::prelude::*;

verus! {

/// Candidate `c` is occluded by a kept entry: it is the same point, or, scaled
/// by the factor, nearer to `c` than `c` is to the node.
pub open spec fn occluded<D: DistanceAlgorithm<ID>, ID>(
    features: Seq<ID>,
    factor: PruneFactor,
    kept: Seq<Entry>,
    c: Entry,
) -> bool {
    exists|i: int|
        0 <= i < kept.len() && ((#[trigger] kept[i]).0 == c.0 || factor.scales_below(
            D::distance(features[kept[i].0 as int], features[c.0 as int]),
            c.1,
        ))
}

/// Goes through `list` in order until `cap` entries are kept: an entry that no
/// kept one occludes is kept (first component), the others are put by (second).
pub open spec fn screened<D: DistanceAlgorithm<ID>, ID>(
    features: Seq<ID>,
    factor: PruneFactor,
    cap: int,
    list: Seq<Entry>,
) -> (Seq<Entry>, Seq<Entry>)
    decreases list.len(),
{
    if list.len() == 0 {
        (Seq::empty(), Seq::empty())
    } else {
        let (kept, put_by) = screened::<D, ID>(features, factor, cap, list.drop_last());
        if kept.len() >= cap {
            (kept, put_by)
        } else if occluded::<D, ID>(features, factor, kept, list.last()) {
            (kept, put_by.push(list.last()))
        } else {
            (kept.push(list.last()), put_by)
        }
    }
}

/// The edges picked out of `list` for an out-degree of `m` (one at least): the
/// entries kept, and as many of those put by as there is room for.
pub open spec fn picked<D: DistanceAlgorithm<ID>, ID>(
    features: Seq<ID>,
    factor: PruneFactor,
    m: int,
    list: Seq<Entry>,
) -> Seq<Entry> {
    let cap = greater(m, 1);
    let (kept, put_by) = screened::<D, ID>(features, factor, cap, list);
    kept + put_by.take(lesser(put_by.len() as int, cap - kept.len()))
}

/// `cands` and, behind them, the targets of `targets` that are missing there,
/// each with its distance to `node`.
pub open spec fn completed<D: DistanceAlgorithm<ID>, ID>(
    features: Seq<ID>,
    targets: Seq<u32>,
    node: int,
    cands: Seq<Entry>,
) -> Seq<Entry>
    decreases targets.len(),
{
    if targets.len() == 0 {
        cands
    } else {
        let s = completed::<D, ID>(features, targets.drop_last(), node, cands);
        let t = targets.last() as usize;
        if lists(s, t) {
            s
        } else {
            s.push((t, D::distance(features[t as int], features[node])))
        }
    }
}

/// The part of a sorted candidate list that edges of `node` are picked out of:
/// not the node itself where it comes first, and nothing from position `c` on
/// (but one entry at least).
pub open spec fn considered(sorted: Seq<Entry>, node: usize, c: int) -> Seq<Entry> {
    let from: int = if sorted.len() > 0 && sorted[0].0 == node {
        1
    } else {
        0
    };
    if from >= sorted.len() {
        Seq::empty()
    } else {
        sorted.subrange(from, greater(from + 1, lesser(sorted.len() as int, c)))
    }
}

/// What screening keeps and puts by.
proof fn lemma_screened<D: DistanceAlgorithm<ID>, ID>(
    features: Seq<ID>,
    factor: PruneFactor,
    cap: int,
    list: Seq<Entry>,
)
    requires
        cap >= 1,
    ensures
        ({
            let (kept, put_by) = screened::<D, ID>(features, factor, cap, list);
            &&& kept.len() <= cap
            &&& kept.len() < cap ==> kept.len() + put_by.len() == list.len()
            &&& kept.len() + put_by.len() <= list.len()
            &&& forall|e: Entry| #[trigger] kept.contains(e) ==> list.contains(e)
            &&& forall|e: Entry| #[trigger] put_by.contains(e) ==> list.contains(e)
            &&& distinct(list) ==> distinct(kept + put_by)
            &&& list.len() > 0 ==> kept.len() > 0 && kept[0] == list[0]
        }),
    decreases list.len(),
{
    if list.len() > 0 {
        let shorter = list.drop_last();
        let e = list.last();
        lemma_screened::<D, ID>(features, factor, cap, shorter);
        let (k0, c0) = screened::<D, ID>(features, factor, cap, shorter);
        let (kept, put_by) = screened::<D, ID>(features, factor, cap, list);
        assert forall|x: Entry| #[trigger] shorter.contains(x) implies list.contains(x) by {
            let i = choose|i: int| 0 <= i < shorter.len() && shorter[i] == x;
            assert(list[i] == x);
        }
        assert(list.contains(e));
        assert forall|x: Entry| #[trigger] kept.contains(x) implies list.contains(x) by {
            if x != e {
                let i = choose|i: int| 0 <= i < kept.len() && kept[i] == x;
                assert(k0[i] == x);
                assert(k0.contains(x));
                assert(shorter.contains(x));
            }
        }
        assert forall|x: Entry| #[trigger] put_by.contains(x) implies list.contains(x) by {
            if x != e {
                let i = choose|i: int| 0 <= i < put_by.len() && put_by[i] == x;
                assert(c0[i] == x);
                assert(c0.contains(x));
                assert(shorter.contains(x));
            }
        }
        if distinct(list) {
            assert forall|i: int, j: int| 0 <= i < j < shorter.len() implies (
            #[trigger] shorter[i]).0 != (#[trigger] shorter[j]).0 by {
                assert(shorter[i] == list[i] && shorter[j] == list[j]);
            }
            let all0 = k0 + c0;
            assert(!lists(all0, e.0)) by {
                if lists(all0, e.0) {
                    let i = choose|i: int| 0 <= i < all0.len() && (#[trigger] all0[i]).0 == e.0;
                    if i < k0.len() {
                        assert(k0.contains(all0[i]));
                    } else {
                        assert(c0[i - k0.len()] == all0[i]);
                        assert(c0.contains(all0[i]));
                    }
                    let l = choose|l: int| 0 <= l < shorter.len() && shorter[l] == all0[i];
                    assert(list[l].0 != list[list.len() - 1].0);
                }
            }
            if k0.len() >= cap {
            } else if occluded::<D, ID>(features, factor, k0, e) {
                lemma_insert_distinct(all0, all0.len() as int, e);
                assert(kept + put_by =~= all0.insert(all0.len() as int, e));
            } else {
                lemma_insert_distinct(all0, k0.len() as int, e);
                assert(kept + put_by =~= all0.insert(k0.len() as int, e));
            }
        }
        if shorter.len() == 0 {
            assert(k0 =~= Seq::<Entry>::empty());
            assert(!occluded::<D, ID>(features, factor, k0, e));
        }
    }
}

/// What is picked: as many entries as the degree allows, out of the list, the
/// nearest one first, none twice that does not occur twice in the list.
pub proof fn lemma_picked<D: DistanceAlgorithm<ID>, ID>(
    features: Seq<ID>,
    factor: PruneFactor,
    m: int,
    list: Seq<Entry>,
)
    ensures
        ({
            let r = picked::<D, ID>(features, factor, m, list);
            &&& r.len() == lesser(greater(m, 1), list.len() as int)
            &&& forall|e: Entry| #[trigger] r.contains(e) ==> list.contains(e)
            &&& distinct(list) ==> distinct(r)
            &&& list.len() > 0 ==> r[0] == list[0]
        }),
{
    let cap = greater(m, 1);
    lemma_screened::<D, ID>(features, factor, cap, list);
    let (kept, put_by) = screened::<D, ID>(features, factor, cap, list);
    let room = lesser(put_by.len() as int, cap - kept.len());
    let r = picked::<D, ID>(features, factor, m, list);
    assert forall|e: Entry| #[trigger] r.contains(e) implies list.contains(e) by {
        let i = choose|i: int| 0 <= i < r.len() && r[i] == e;
        if i < kept.len() {
            assert(kept.contains(e));
        } else {
            assert(put_by[i - kept.len()] == e);
            assert(put_by.contains(e));
        }
    }
    if distinct(list) {
        let all = kept + put_by;
        assert forall|i: int, j: int| 0 <= i < j < r.len() implies (#[trigger] r[i]).0 != (
        #[trigger] r[j]).0 by {
            assert(r[i] == all[i] && r[j] == all[j]);
        }
    }
}

/// Entry `e` alone occludes `c`.
spec fn hides<D: DistanceAlgorithm<ID>, ID>(
    features: Seq<ID>,
    factor: PruneFactor,
    e: Entry,
    c: Entry,
) -> bool {
    e.0 == c.0 || factor.scales_below(
        D::distance(features[e.0 as int], features[c.0 as int]),
        c.1,
    )
}

/// One of `kept` that is no farther than `c` occludes it.
spec fn hidden_by<D: DistanceAlgorithm<ID>, ID>(
    features: Seq<ID>,
    factor: PruneFactor,
    kept: Seq<Entry>,
    c: Entry,
) -> bool {
    exists|i: int|
        0 <= i < kept.len() && hides::<D, ID>(features, factor, #[trigger] kept[i], c)
            && kept[i].1 <= c.1
}

/// How what is kept and put by relates to a sorted list.
proof fn lemma_screened_sorted<D: DistanceAlgorithm<ID>, ID>(
    features: Seq<ID>,
    factor: PruneFactor,
    cap: int,
    list: Seq<Entry>,
)
    requires
        cap >= 1,
        by_distance(list),
    ensures
        ({
            let (kept, put_by) = screened::<D, ID>(features, factor, cap, list);
            &&& by_distance(kept)
            &&& by_distance(put_by)
            &&& forall|i: int| 0 <= i < kept.len() ==> (#[trigger] kept[i]).1 <= list.last().1
            &&& forall|i: int| 0 <= i < put_by.len() ==> (#[trigger] put_by[i]).1 <= list.last().1
            &&& forall|i: int, j: int|
                0 <= i < j < kept.len() ==> !hides::<D, ID>(
                    features,
                    factor,
                    #[trigger] kept[i],
                    #[trigger] kept[j],
                )
            &&& forall|j: int|
                0 <= j < put_by.len() ==> hidden_by::<D, ID>(features, factor, kept, #[trigger] put_by[j])
            &&& forall|p: int|
                0 <= p < list.len() ==> {
                    ||| kept.contains(#[trigger] list[p])
                    ||| put_by.contains(list[p])
                    ||| kept.len() >= cap && forall|i: int|
                        0 <= i < kept.len() ==> (#[trigger] kept[i]).1 <= list[p].1
                }
        }),
    decreases list.len(),
{
    if list.len() > 0 {
        let shorter = list.drop_last();
        let e = list.last();
        assert forall|i: int, j: int| 0 <= i <= j < shorter.len() implies (
        #[trigger] shorter[i]).1 <= (#[trigger] shorter[j]).1 by {
            assert(list[i].1 <= list[j].1);
        }
        lemma_screened_sorted::<D, ID>(features, factor, cap, shorter);
        let (k0, c0) = screened::<D, ID>(features, factor, cap, shorter);
        let (kept, put_by) = screened::<D, ID>(features, factor, cap, list);
        assert(shorter.len() > 0 ==> shorter.last().1 <= e.1) by {
            if shorter.len() > 0 {
                assert(list[list.len() - 2].1 <= list[list.len() - 1].1);
            }
        }
        lemma_screened::<D, ID>(features, factor, cap, shorter);
        assert forall|i: int| 0 <= i < k0.len() implies (#[trigger] k0[i]).1 <= e.1 by {
            assert(k0.contains(k0[i]));
        }
        assert forall|i: int| 0 <= i < c0.len() implies (#[trigger] c0[i]).1 <= e.1 by {
            assert(c0.contains(c0[i]));
        }
        let hidden = occluded::<D, ID>(features, factor, k0, e);
        if k0.len() >= cap {
        } else if hidden {
            let w = choose|i: int| 0 <= i < k0.len() && ((#[trigger] k0[i]).0 == e.0
                || factor.scales_below(
                D::distance(features[k0[i].0 as int], features[e.0 as int]),
                e.1,
            ));
            assert(hides::<D, ID>(features, factor, k0[w], e));
            assert forall|j: int| 0 <= j < put_by.len() implies hidden_by::<D, ID>(
                features,
                factor,
                kept,
                #[trigger] put_by[j],
            ) by {
                if j < c0.len() {
                    assert(put_by[j] == c0[j]);
                    assert(hidden_by::<D, ID>(features, factor, k0, c0[j]));
                let i = choose|i: int|
                    0 <= i < k0.len() && hides::<D, ID>(features, factor, #[trigger] k0[i], c0[j])
                        && k0[i].1 <= c0[j].1;
                    assert(kept[i] == k0[i]);
                } else {
                    assert(kept[w] == k0[w]);
                    assert(put_by[j] == e);
                }
            }
        } else {
            assert forall|i: int, j: int| 0 <= i < j < kept.len() implies !hides::<D, ID>(
                features,
                factor,
                #[trigger] kept[i],
                #[trigger] kept[j],
            ) by {
                assert(kept[i] == k0[i]);
                if j < k0.len() {
                    assert(kept[j] == k0[j]);
                }
            }
            assert forall|j: int| 0 <= j < put_by.len() implies hidden_by::<D, ID>(
                features,
                factor,
                kept,
                #[trigger] put_by[j],
            ) by {
                assert(hidden_by::<D, ID>(features, factor, k0, c0[j]));
                let i = choose|i: int|
                    0 <= i < k0.len() && hides::<D, ID>(features, factor, #[trigger] k0[i], c0[j])
                        && k0[i].1 <= c0[j].1;
                assert(kept[i] == k0[i]);
            }
        }
        assert forall|p: int| 0 <= p < list.len() implies {
            ||| kept.contains(#[trigger] list[p])
            ||| put_by.contains(list[p])
            ||| kept.len() >= cap && forall|i: int|
                0 <= i < kept.len() ==> (#[trigger] kept[i]).1 <= list[p].1
        } by {
            if p < shorter.len() {
                assert(shorter[p] == list[p]);
                if k0.contains(shorter[p]) {
                    let i = choose|i: int| 0 <= i < k0.len() && k0[i] == shorter[p];
                    assert(kept[i] == list[p]);
                } else if c0.contains(shorter[p]) {
                    let i = choose|i: int| 0 <= i < c0.len() && c0[i] == shorter[p];
                    assert(put_by[i] == list[p]);
                }
            } else if k0.len() < cap {
                if hidden {
                    assert(put_by[c0.len() as int] == e);
                } else {
                    assert(kept[k0.len() as int] == e);
                }
            }
        }
    }
}

/// The two parts of what is picked are in order.
proof fn lemma_pick_order(kept: Seq<Entry>, put_by: Seq<Entry>, room: int)
    requires
        by_distance(kept),
        by_distance(put_by),
        0 <= room <= put_by.len(),
    ensures
        ({
            let r = kept + put_by.take(room);
            let c = kept.len() as int;
            by_distance(r.take(c)) && by_distance(r.skip(c))
        }),
{
    let r = kept + put_by.take(room);
    let c = kept.len() as int;
    let t = put_by.take(room);
    assert(r.take(c) =~= kept);
    assert(r.skip(c) =~= t);
    assert forall|i: int, j: int| 0 <= i <= j < t.len() implies (#[trigger] t[i]).1 <= (
    #[trigger] t[j]).1 by {
        assert(put_by[i].1 <= put_by[j].1);
    }
}

/// Which of what is picked hides which, and what is left out.
proof fn lemma_pick_hides<D: DistanceAlgorithm<ID>, ID>(
    features: Seq<ID>,
    factor: PruneFactor,
    list: Seq<Entry>,
    kept: Seq<Entry>,
    put_by: Seq<Entry>,
    room: int,
)
    requires
        by_distance(put_by),
        0 <= room <= put_by.len(),
        forall|i: int, j: int|
            0 <= i < j < kept.len() ==> !hides::<D, ID>(
                features,
                factor,
                #[trigger] kept[i],
                #[trigger] kept[j],
            ),
        forall|j: int|
            0 <= j < put_by.len() ==> hidden_by::<D, ID>(features, factor, kept, #[trigger] put_by[j]),
        forall|p: int|
            0 <= p < list.len() ==> {
                ||| kept.contains(#[trigger] list[p])
                ||| put_by.contains(list[p])
                ||| room == 0 && forall|i: int|
                    0 <= i < kept.len() ==> (#[trigger] kept[i]).1 <= list[p].1
            },
    ensures
        ({
            let r = kept + put_by.take(room);
            let c = kept.len() as int;
            &&& forall|i: int, j: int|
                0 <= i < j < c ==> !hides::<D, ID>(
                    features,
                    factor,
                    #[trigger] r[i],
                    #[trigger] r[j],
                )
            &&& forall|j: int|
                c <= j < r.len() ==> hidden_by::<D, ID>(
                    features,
                    factor,
                    r.take(c),
                    #[trigger] r[j],
                )
            &&& forall|p: int|
                0 <= p < list.len() && !r.contains(#[trigger] list[p]) ==> {
                    ||| (c == r.len() && forall|i: int|
                        0 <= i < r.len() ==> (#[trigger] r[i]).1 <= list[p].1)
                    ||| ((forall|j: int| c <= j < r.len() ==> (#[trigger] r[j]).1 <= list[p].1)
                        && hidden_by::<D, ID>(features, factor, r.take(c), list[p]))
                }
        }),
{
    let r = kept + put_by.take(room);
    let c = kept.len() as int;
    assert forall|i: int| 0 <= i < c implies #[trigger] r[i] == kept[i] by {}
    assert forall|j: int| c <= j < r.len() implies #[trigger] r[j] == put_by[j - c] by {}
    assert forall|i: int, j: int| 0 <= i < j < c implies !hides::<D, ID>(
        features,
        factor,
        #[trigger] r[i],
        #[trigger] r[j],
    ) by {
        assert(r[i] == kept[i] && r[j] == kept[j]);
    }
    assert(r.take(c) =~= kept);
    assert forall|j: int| c <= j < r.len() implies hidden_by::<D, ID>(
        features,
        factor,
        r.take(c),
        #[trigger] r[j],
    ) by {
        assert(hidden_by::<D, ID>(features, factor, kept, put_by[j - c]));
    }
    assert forall|p: int| 0 <= p < list.len() && !r.contains(#[trigger] list[p]) implies {
        ||| (c == r.len() && forall|i: int|
            0 <= i < r.len() ==> (#[trigger] r[i]).1 <= list[p].1)
        ||| ((forall|j: int| c <= j < r.len() ==> (#[trigger] r[j]).1 <= list[p].1)
            && hidden_by::<D, ID>(features, factor, r.take(c), list[p]))
    } by {
        if kept.contains(list[p]) {
            let i = choose|i: int| 0 <= i < kept.len() && kept[i] == list[p];
            assert(r[i] == list[p]);
        } else if put_by.contains(list[p]) {
            let q = choose|q: int| 0 <= q < put_by.len() && put_by[q] == list[p];
            if q < room {
                assert(r[c + q] == list[p]);
            }
            assert(hidden_by::<D, ID>(features, factor, kept, put_by[q]));
            assert forall|j: int| c <= j < r.len() implies (#[trigger] r[j]).1 <= list[p].1 by {
                assert(put_by[j - c].1 <= put_by[q].1);
            }
        }
    }
}

/// What is picked out of a sorted list for an out-degree of `m`, in terms of the
/// list alone.
///
/// As many entries are picked as the degree allows, one at least. The first `c`
/// of them, for some `c`, stand for directions of their own: none of these hides a later one.
/// Each of the others is hidden by one of the first. An entry that is left out is
/// hidden by one of the first that is no farther, and then no refilled entry is
/// farther than it; or the first alone fill the degree and none is farther.
pub proof fn lemma_pick_rule<D: DistanceAlgorithm<ID>, ID>(
    features: Seq<ID>,
    factor: PruneFactor,
    m: int,
    list: Seq<Entry>,
) -> (c: int)
    requires
        by_distance(list),
    ensures
        ({
            let r = picked::<D, ID>(features, factor, m, list);
            &&& r.len() == if list.len() <= m || list.len() <= 1 {
                list.len() as int
            } else if m <= 1 {
                1
            } else {
                m
            }
            &&& forall|e: Entry| #[trigger] r.contains(e) ==> list.contains(e)
            &&& 0 <= c <= r.len()
            &&& by_distance(r.take(c))
            &&& by_distance(r.skip(c))
            &&& forall|i: int, j: int|
                0 <= i < j < c ==> !((#[trigger] r[i]).0 == (#[trigger] r[j]).0
                    || factor.scales_below(
                    D::distance(features[r[i].0 as int], features[r[j].0 as int]),
                    r[j].1,
                ))
            &&& forall|j: int|
                c <= j < r.len() ==> r.contains(#[trigger] r[j]) && exists|i: int|
                    {
                        &&& 0 <= i < c
                        &&& (#[trigger] r[i]).1 <= r[j].1
                        &&& r[i].0 == r[j].0 || factor.scales_below(
                            D::distance(features[r[i].0 as int], features[r[j].0 as int]),
                            r[j].1,
                        )
                    }
            &&& forall|p: int|
                0 <= p < list.len() && !r.contains(#[trigger] list[p]) ==> {
                    ||| (c == r.len() && forall|i: int|
                        0 <= i < r.len() ==> (#[trigger] r[i]).1 <= list[p].1)
                    ||| ((forall|j: int|
                        c <= j < r.len() ==> (#[trigger] r[j]).1 <= list[p].1)
                        && exists|i: int|
                        {
                            &&& 0 <= i < c
                            &&& (#[trigger] r[i]).1 <= list[p].1
                            &&& r[i].0 == list[p].0 || factor.scales_below(
                                D::distance(
                                    features[r[i].0 as int],
                                    features[list[p].0 as int],
                                ),
                                list[p].1,
                            )
                        })
                }
        }),
{
    let cap = greater(m, 1);
    lemma_screened::<D, ID>(features, factor, cap, list);
    lemma_screened_sorted::<D, ID>(features, factor, cap, list);
    lemma_picked::<D, ID>(features, factor, m, list);
    let (kept, put_by) = screened::<D, ID>(features, factor, cap, list);
    let room = lesser(put_by.len() as int, cap - kept.len());
    let r = picked::<D, ID>(features, factor, m, list);
    let c = kept.len() as int;
    assert(r == kept + put_by.take(room));
    lemma_pick_order(kept, put_by, room);
    lemma_pick_hides::<D, ID>(features, factor, list, kept, put_by, room);
    assert(by_distance(r.take(c)));
    assert(r.take(c) =~= kept);
    assert forall|i: int| 0 <= i < c implies #[trigger] r[i] == kept[i] by {}
    assert forall|j: int|
        c <= j < r.len() implies r.contains(#[trigger] r[j]) && exists|i: int|
            {
            &&& 0 <= i < c
            &&& (#[trigger] r[i]).1 <= r[j].1
            &&& r[i].0 == r[j].0 || factor.scales_below(
                D::distance(features[r[i].0 as int], features[r[j].0 as int]),
                r[j].1,
            )
        } by {
        assert(hidden_by::<D, ID>(features, factor, r.take(c), r[j]));
        let i = choose|i: int|
            0 <= i < kept.len() && hides::<D, ID>(features, factor, #[trigger] kept[i], r[j])
                && kept[i].1 <= r[j].1;
        assert(r[i] == kept[i]);
    }
    assert forall|p: int|
        0 <= p < list.len() && !r.contains(#[trigger] list[p]) && hidden_by::<D, ID>(
            features,
            factor,
            r.take(c),
            list[p],
        ) implies exists|i: int|
        {
            &&& 0 <= i < c
            &&& (#[trigger] r[i]).1 <= list[p].1
            &&& r[i].0 == list[p].0 || factor.scales_below(
                D::distance(features[r[i].0 as int], features[list[p].0 as int]),
                list[p].1,
            )
        } by {
        let i = choose|i: int|
            0 <= i < kept.len() && hides::<D, ID>(features, factor, #[trigger] kept[i], list[p])
                && kept[i].1 <= list[p].1;
        assert(r[i] == kept[i]);
    }
    c
}

/// Whether a kept entry occludes `c`.
fn is_occluded<D: DistanceAlgorithm<ID>, ID>(
    features: &Vec<ID>,
    distance: &D,
    factor: &PruneFactor,
    kept: &Vec<Entry>,
    c: Entry,
) -> (r: bool)
    requires
        factor.wf(),
        all_admitted::<D, ID>(features@),
        within(kept@, features@.len() as int),
        c.0 < features@.len(),
    ensures
        r == occluded::<D, ID>(features@, *factor, kept@, c),
{
    let mut i: usize = 0;
    while i < kept.len()
        invariant
            factor.wf(),
            all_admitted::<D, ID>(features@),
            within(kept@, features@.len() as int),
            c.0 < features@.len(),
            i <= kept@.len(),
            forall|k: int|
                0 <= k < i ==> !((#[trigger] kept@[k]).0 == c.0 || factor.scales_below(
                    D::distance(features@[kept@[k].0 as int], features@[c.0 as int]),
                    c.1,
                )),
        decreases kept@.len() - i,
    {
        let s: usize = kept[i].0;
        if s == c.0 {
            assert(kept@[i as int].0 == c.0);
            return true;
        }
        let d: u32 = distance.calculate_distance(&features[s], &features[c.0]);
        if factor.occludes(d, c.1) {
            assert(kept@[i as int].0 == s);
            return true;
        }
        i = i + 1;
    }
    false
}

/// Picks edges out of the entries of `list` from `from` up to `to`.
pub fn pick_edges<D: DistanceAlgorithm<ID>, ID>(
    features: &Vec<ID>,
    distance: &D,
    factor: &PruneFactor,
    m: usize,
    list: &Vec<Entry>,
    from: usize,
    to: usize,
) -> (r: Vec<Entry>)
    requires
        factor.wf(),
        all_admitted::<D, ID>(features@),
        within(list@, features@.len() as int),
        from <= to <= list@.len(),
    ensures
        r@ == picked::<D, ID>(
            features@,
            *factor,
            m as int,
            list@.subrange(from as int, to as int),
        ),
{
    let cap: usize = if m < 1 {
        1
    } else {
        m
    };
    let ghost part = list@.subrange(from as int, to as int);
    let mut kept: Vec<Entry> = Vec::new();
    let mut put_by: Vec<Entry> = Vec::new();
    let mut at: usize = from;
    assert(part.take(0) =~= Seq::<Entry>::empty());
    while at < to && kept.len() < cap
        invariant
            factor.wf(),
            all_admitted::<D, ID>(features@),
            within(list@, features@.len() as int),
            within(kept@, features@.len() as int),
            from <= at <= to <= list@.len(),
            part == list@.subrange(from as int, to as int),
            (kept@, put_by@) == screened::<D, ID>(
                features@,
                *factor,
                cap as int,
                part.take(at - from),
            ),
        decreases to - at,
    {
        let c: Entry = list[at];
        proof {
            let next = part.take(at - from + 1);
            assert(next.drop_last() =~= part.take(at - from));
            assert(next.last() == c);
            assert(list@[at as int].0 < features@.len());
        }
        if is_occluded(features, distance, factor, &kept, c) {
            put_by.push(c);
        } else {
            kept.push(c);
        }
        at = at + 1;
    }
    proof {
        lemma_screened_stops::<D, ID>(
            features@,
            *factor,
            cap as int,
            part,
            at - from,
        );
        assert(part.take(to - from) =~= part);
    }
    let ghost kept0 = kept@;
    let mut i: usize = 0;
    while i < put_by.len() && kept.len() < cap
        invariant
            i <= put_by@.len(),
            kept0.len() <= kept@.len(),
            kept@ =~= kept0 + put_by@.take(i as int),
            kept@.len() <= cap || i == 0,
        decreases put_by@.len() - i,
    {
        kept.push(put_by[i]);
        i = i + 1;
    }
    proof {
        lemma_screened::<D, ID>(features@, *factor, cap as int, part);
    }
    kept
}

/// Once the cap is reached the rest of a list makes no difference.
proof fn lemma_screened_stops<D: DistanceAlgorithm<ID>, ID>(
    features: Seq<ID>,
    factor: PruneFactor,
    cap: int,
    list: Seq<Entry>,
    at: int,
)
    requires
        0 <= at <= list.len(),
        at == list.len() || screened::<D, ID>(features, factor, cap, list.take(at)).0.len() >= cap,
    ensures
        screened::<D, ID>(features, factor, cap, list) == screened::<D, ID>(
            features,
            factor,
            cap,
            list.take(at),
        ),
    decreases list.len(),
{
    if at == list.len() {
        assert(list.take(at) =~= list);
    } else {
        let shorter = list.drop_last();
        assert(shorter.take(at) =~= list.take(at));
        lemma_screened_stops::<D, ID>(features, factor, cap, shorter, at);
    }
}

/// Picks the edges of `node` out of `candidates` and its present edges.
/// `candidates` is completed and sorted on the way.
pub fn prune_candidates<D: DistanceAlgorithm<ID>, ID>(
    features: &Vec<ID>,
    graph: &Vec<NsgNode>,
    distance: &D,
    factor: &PruneFactor,
    m: usize,
    c: usize,
    node: usize,
    candidates: &mut Vec<Entry>,
) -> (selected: Vec<Entry>)
    requires
        factor.wf(),
        all_admitted::<D, ID>(features@),
        graph_on(adjacency(graph@), features@.len() as int),
        node < features@.len(),
        within(old(candidates)@, features@.len() as int),
    ensures
        same_items(
            completed::<D, ID>(
                features@,
                adjacency(graph@)[node as int],
                node as int,
                old(candidates)@,
            ),
            final(candidates)@,
        ),
        by_distance(final(candidates)@),
        selected@ == picked::<D, ID>(
            features@,
            *factor,
            m as int,
            considered(final(candidates)@, node, c as int),
        ),
{
    broadcast use vstd::std_specs::hash::group_hash_axioms;

    let n: usize = features.len();
    let ghost adj = adjacency(graph@);
    let ghost cands0 = candidates@;
    let mut present: HashSet<usize> = HashSet::new();
    let mut i: usize = 0;
    while i < candidates.len()
        invariant
            i <= candidates@.len(),
            candidates@ == cands0,
            forall|x: usize|
                #[trigger] present@.contains(x) <==> exists|k: int|
                    0 <= k < i && (#[trigger] candidates@[k]).0 == x,
        decreases candidates@.len() - i,
    {
        present.insert(candidates[i].0);
        proof {
            assert forall|x: usize|
                #[trigger] present@.contains(x) <==> exists|k: int|
                    0 <= k < i + 1 && (#[trigger] candidates@[k]).0 == x by {
                if x == candidates@[i as int].0 {
                    assert(0 <= i < i + 1);
                }
            }
        }
        i = i + 1;
    }
    let targets: &Vec<u32> = graph[node].active_neighbors();
    assert(adj[node as int] == targets@);
    assert(targets@.take(0) =~= Seq::<u32>::empty());
    let mut j: usize = 0;
    while j < targets.len()
        invariant
            n == features@.len(),
            all_admitted::<D, ID>(features@),
            adj == adjacency(graph@),
            graph_on(adj, n as int),
            node < n,
            adj[node as int] == targets@,
            j <= targets@.len(),
            within(candidates@, n as int),
            candidates@ == completed::<D, ID>(
                features@,
                targets@.take(j as int),
                node as int,
                cands0,
            ),
            forall|x: usize| #[trigger] present@.contains(x) <==> lists(candidates@, x),
        decreases targets@.len() - j,
    {
        assert(adj[node as int][j as int] < n);
        let t: usize = targets[j] as usize;
        proof {
            let next = targets@.take(j + 1);
            assert(next.drop_last() =~= targets@.take(j as int));
            assert(next.last() == targets@[j as int]);
        }
        if present.insert(t) {
            let score: u32 = distance.calculate_distance(&features[t], &features[node]);
            let ghost before = candidates@;
            candidates.push((t, score));
            proof {
                assert(before.push((t, score)) =~= before.insert(before.len() as int, (t, score)));
                lemma_insert_lists(before, before.len() as int, (t, score));
            }
        }
        j = j + 1;
    }
    assert(targets@.take(j as int) =~= targets@);
    let ghost full = candidates@;
    sort_by_distance(candidates);
    proof {
        lemma_same_entries(full, candidates@);
    }
    let len: usize = candidates.len();
    let from: usize = if len > 0 && candidates[0].0 == node {
        1
    } else {
        0
    };
    if from >= len {
        proof {
            lemma_picked::<D, ID>(features@, *factor, m as int, Seq::<Entry>::empty());
            assert(picked::<D, ID>(features@, *factor, m as int, Seq::<Entry>::empty()) =~= Seq::<
                Entry,
            >::empty());
        }
        return Vec::new();
    }
    let cut: usize = if c < len {
        c
    } else {
        len
    };
    let to: usize = if cut < from + 1 {
        from + 1
    } else {
        cut
    };
    pick_edges(features, distance, factor, m, candidates, from, to)
}

} // verus!
