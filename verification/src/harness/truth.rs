//! Ground truth by comparing a query with everything.

use crate::controllers::search::lesser;
use crate::datalayer::algorithms::{all_admitted, DistanceAlgorithm};
use crate::order::{by_distance, lemma_rank, rank, rank_of, Entry};
use vstd::prelude::*;

verus! {

/// Nearer, or as near with the lower index.
pub open spec fn precedes(a: Entry, b: Entry) -> bool {
    a.1 < b.1 || (a.1 == b.1 && a.0 < b.0)
}

/// `top` are the `k` nearest of the first `n` features to `query`, nearest
/// first, and of two at one distance the one with the lower index first.
pub open spec fn nearest_k<D: DistanceAlgorithm<ID>, ID>(
    features: Seq<ID>,
    query: ID,
    n: int,
    k: int,
    top: Seq<Entry>,
) -> bool {
    &&& top.len() == lesser(k, n)
    &&& forall|i: int|
        0 <= i < top.len() ==> (#[trigger] top[i]).0 < n && top[i].1 == D::distance(
            query,
            features[top[i].0 as int],
        )
    &&& forall|i: int, j: int|
        0 <= i < j < top.len() ==> precedes(#[trigger] top[i], #[trigger] top[j])
    &&& forall|x: usize|
        x < n ==> top.contains((x, #[trigger] D::distance(query, features[x as int]))) || (k == 0
            || precedes(top.last(), (x, D::distance(query, features[x as int]))))
}

/// One more feature.
proof fn lemma_nearest_step<D: DistanceAlgorithm<ID>, ID>(
    features: Seq<ID>,
    query: ID,
    n: usize,
    k: int,
    top: Seq<Entry>,
)
    requires
        n < features.len(),
        k >= 0,
        nearest_k::<D, ID>(features, query, n as int, k, top),
    ensures
        ({
            let d = D::distance(query, features[n as int]);
            let e = (n, d);
            let r = rank(top, d);
            &&& by_distance(top)
            &&& 0 <= r <= top.len()
            &&& top.len() < k ==> nearest_k::<D, ID>(
                features,
                query,
                n + 1,
                k,
                top.insert(r, e),
            )
            &&& 0 < k == top.len() && d < top.last().1 ==> r < top.len() && nearest_k::<D, ID>(
                features,
                query,
                n + 1,
                k,
                top.drop_last().insert(r, e),
            )
            &&& k == top.len() && (k == 0 || d >= top.last().1) ==> nearest_k::<D, ID>(
                features,
                query,
                n + 1,
                k,
                top,
            )
        }),
{
    let d = D::distance(query, features[n as int]);
    let e = (n, d);
    let r = rank(top, d);
    assert(by_distance(top)) by {
        assert forall|i: int, j: int| 0 <= i <= j < top.len() implies (#[trigger] top[i]).1 <= (
        #[trigger] top[j]).1 by {
            if i < j {
                assert(precedes(top[i], top[j]));
            }
        }
    }
    lemma_rank(top, d);
    if top.len() < k {
        let next = top.insert(r, e);
        lemma_placed::<D, ID>(features, query, n, top, r);
        assert forall|x: usize| x < n + 1 implies next.contains(
            (x, #[trigger] D::distance(query, features[x as int])),
        ) || (k == 0 || precedes(next.last(), (x, D::distance(query, features[x as int])))) by {
            let y = (x, D::distance(query, features[x as int]));
            if x == n {
                assert(next[r] == e);
            } else if top.contains(y) {
                let i = choose|i: int| 0 <= i < top.len() && top[i] == y;
                if i < r {
                    assert(next[i] == y);
                } else {
                    assert(next[i + 1] == y);
                }
            } else {
                // the pool was not full: it held everything
                lemma_all_held::<D, ID>(features, query, n, k, top, x);
            }
        }
    } else if 0 < k && d < top.last().1 {
        assert(r < top.len()) by {
            if r == top.len() {
                assert(top[top.len() - 1].1 <= d);
            }
        }
        let base = top.drop_last();
        let next = base.insert(r, e);
        assert(rank(base, d) == r);
        assert forall|i: int| 0 <= i < base.len() implies #[trigger] base[i] == top[i] by {}
        lemma_placed_in::<D, ID>(features, query, n, base, r, d);
        assert(precedes(next.last(), top.last()) || next.last() == top.last()) by {
            if r == base.len() {
                assert(next.last() == e);
            } else {
                assert(next.last() == base.last());
                assert(precedes(top[top.len() - 2], top[top.len() - 1]));
            }
        }
        assert forall|x: usize| x < n + 1 implies next.contains(
            (x, #[trigger] D::distance(query, features[x as int])),
        ) || (k == 0 || precedes(next.last(), (x, D::distance(query, features[x as int])))) by {
            let y = (x, D::distance(query, features[x as int]));
            if x == n {
                assert(next[r] == e);
            } else if top.contains(y) {
                let i = choose|i: int| 0 <= i < top.len() && top[i] == y;
                if i < r {
                    assert(next[i] == y);
                } else if i < base.len() {
                    assert(next[i + 1] == y);
                } else {
                    assert(y == top.last());
                    if next.last() == top.last() {
                        assert(next[next.len() - 1] == y);
                    }
                }
            }
        }
    } else {
        assert forall|x: usize| x < n + 1 implies top.contains(
            (x, #[trigger] D::distance(query, features[x as int])),
        ) || (k == 0 || precedes(top.last(), (x, D::distance(query, features[x as int])))) by {
            if x == n && k > 0 {
                assert(top[top.len() - 1].0 < n);
            }
        }
    }
}

/// A list with fewer than `k` entries holds every feature so far.
proof fn lemma_all_held<D: DistanceAlgorithm<ID>, ID>(
    features: Seq<ID>,
    query: ID,
    n: usize,
    k: int,
    top: Seq<Entry>,
    x: usize,
)
    requires
        nearest_k::<D, ID>(features, query, n as int, k, top),
        top.len() < k,
        x < n,
    ensures
        top.contains((x, D::distance(query, features[x as int]))),
{
    let y = (x, D::distance(query, features[x as int]));
    if !top.contains(y) {
        // n different indices below n cannot leave one out
        let idx = crate::order::points(top).push(x);
        assert forall|i: int, j: int| 0 <= i < idx.len() && 0 <= j < idx.len() && i != j implies idx[i]
            != idx[j] by {
            let a = if i < j {
                i
            } else {
                j
            };
            let b = if i < j {
                j
            } else {
                i
            };
            if b < top.len() {
                assert(precedes(top[a], top[b]));
                assert(idx[a] == top[a].0 && idx[b] == top[b].0);
                if top[a].0 == top[b].0 {
                    assert(top[a].1 == top[b].1);
                }
            } else {
                assert(idx[a] == top[a].0);
                if top[a].0 == x {
                    assert(top[a] == y);
                }
            }
        }
        assert forall|i: int| 0 <= i < idx.len() implies (#[trigger] idx[i]) < n by {
            if i < top.len() {
                assert(top[i].0 < n);
            }
        }
        crate::order::lemma_few_below(idx, n as nat);
    }
}

proof fn lemma_placed<D: DistanceAlgorithm<ID>, ID>(
    features: Seq<ID>,
    query: ID,
    n: usize,
    top: Seq<Entry>,
    r: int,
)
    requires
        n < features.len(),
        by_distance(top),
        r == rank(top, D::distance(query, features[n as int])),
        forall|i: int|
            0 <= i < top.len() ==> (#[trigger] top[i]).0 < n && top[i].1 == D::distance(
                query,
                features[top[i].0 as int],
            ),
        forall|i: int, j: int|
            0 <= i < j < top.len() ==> precedes(#[trigger] top[i], #[trigger] top[j]),
    ensures
        ({
            let e = (n, D::distance(query, features[n as int]));
            let next = top.insert(r, e);
            &&& forall|i: int|
                0 <= i < next.len() ==> (#[trigger] next[i]).0 < n + 1 && next[i].1 == D::distance(
                    query,
                    features[next[i].0 as int],
                )
            &&& forall|i: int, j: int|
                0 <= i < j < next.len() ==> precedes(#[trigger] next[i], #[trigger] next[j])
        }),
{
    lemma_placed_in::<D, ID>(
        features,
        query,
        n,
        top,
        r,
        D::distance(query, features[n as int]),
    );
}

/// Putting feature `n` behind what is as near keeps the order: its index is
/// above all others.
proof fn lemma_placed_in<D: DistanceAlgorithm<ID>, ID>(
    features: Seq<ID>,
    query: ID,
    n: usize,
    top: Seq<Entry>,
    r: int,
    d: u32,
)
    requires
        n < features.len(),
        d == D::distance(query, features[n as int]),
        r == rank(top, d),
        forall|i: int|
            0 <= i < top.len() ==> (#[trigger] top[i]).0 < n && top[i].1 == D::distance(
                query,
                features[top[i].0 as int],
            ),
        forall|i: int, j: int|
            0 <= i < j < top.len() ==> precedes(#[trigger] top[i], #[trigger] top[j]),
    ensures
        0 <= r <= top.len(),
        ({
            let next = top.insert(r, (n, d));
            &&& forall|i: int|
                0 <= i < next.len() ==> (#[trigger] next[i]).0 < n + 1 && next[i].1 == D::distance(
                    query,
                    features[next[i].0 as int],
                )
            &&& forall|i: int, j: int|
                0 <= i < j < next.len() ==> precedes(#[trigger] next[i], #[trigger] next[j])
        }),
{
    assert(by_distance(top)) by {
        assert forall|i: int, j: int| 0 <= i <= j < top.len() implies (#[trigger] top[i]).1 <= (
        #[trigger] top[j]).1 by {
            if i < j {
                assert(precedes(top[i], top[j]));
            }
        }
    }
    lemma_rank(top, d);
    let next = top.insert(r, (n, d));
    assert forall|i: int| 0 <= i < next.len() implies (#[trigger] next[i]).0 < n + 1 && next[i].1
        == D::distance(query, features[next[i].0 as int]) by {
        if i < r {
            assert(next[i] == top[i]);
        } else if i > r {
            assert(next[i] == top[i - 1]);
        }
    }
    assert forall|i: int, j: int| 0 <= i < j < next.len() implies precedes(
        #[trigger] next[i],
        #[trigger] next[j],
    ) by {
        if j < r {
            assert(next[i] == top[i] && next[j] == top[j]);
        } else if j == r {
            assert(next[i] == top[i]);
            assert(top[i].1 <= d && top[i].0 < n);
        } else if i < r {
            assert(next[i] == top[i] && next[j] == top[j - 1]);
        } else if i == r {
            assert(next[j] == top[j - 1]);
            assert(top[j - 1].1 > d);
        } else {
            assert(next[i] == top[i - 1] && next[j] == top[j - 1]);
        }
    }
}

/// The `k` features nearest to `query` by comparing it with each.
pub fn top_k<D: DistanceAlgorithm<ID>, ID>(
    features: &[ID],
    query: &ID,
    k: usize,
    distance: &D,
) -> (top: Vec<Entry>)
    requires
        all_admitted::<D, ID>(features@),
        D::admits(*query),
    ensures
        nearest_k::<D, ID>(features@, *query, features@.len() as int, k as int, top@),
{
    let mut top: Vec<Entry> = Vec::new();
    let mut i: usize = 0;
    while i < features.len()
        invariant
            i <= features@.len(),
            all_admitted::<D, ID>(features@),
            D::admits(*query),
            nearest_k::<D, ID>(features@, *query, i as int, k as int, top@),
        decreases features@.len() - i,
    {
        let d: u32 = distance.calculate_distance(query, &features[i]);
        proof {
            lemma_nearest_step::<D, ID>(features@, *query, i, k as int, top@);
        }
        let len: usize = top.len();
        let ghost before = top@;
        if len < k {
            let pos: usize = rank_of(&top, d);
            top.insert(pos, (i, d));
        } else if len > 0 && d < top[len - 1].1 {
            let pos: usize = rank_of(&top, d);
            top.pop();
            assert(top@ =~= before.drop_last());
            top.insert(pos, (i, d));
        }
        i = i + 1;
    }
    top
}

/// `out` are the texts at `top`, with their distances.
pub open spec fn texts_at(top: Seq<Entry>, dataset: Seq<String>, out: Seq<(u32, String)>) -> bool {
    &&& out.len() == top.len()
    &&& forall|i: int|
        0 <= i < out.len() ==> (#[trigger] out[i]).0 == top[i].1 && out[i].1
            == dataset[top[i].0 as int]
}

/// The ground truth of one query: distance and text of the `k` nearest.
pub fn compute_brute<D: DistanceAlgorithm<ID>, ID>(
    features: &[ID],
    dataset: &Vec<String>,
    query: &ID,
    k: usize,
    distance: &D,
) -> (out: Vec<(u32, String)>)
    requires
        all_admitted::<D, ID>(features@),
        D::admits(*query),
        dataset@.len() == features@.len(),
    ensures
        exists|top: Seq<Entry>|
            {
                &&& #[trigger] nearest_k::<D, ID>(
                    features@,
                    *query,
                    features@.len() as int,
                    k as int,
                    top,
                )
                &&& texts_at(top, dataset@, out@)
            },
{
    let top: Vec<Entry> = top_k(features, query, k, distance);
    let mut out: Vec<(u32, String)> = Vec::new();
    let mut i: usize = 0;
    while i < top.len()
        invariant
            dataset@.len() == features@.len(),
            nearest_k::<D, ID>(features@, *query, features@.len() as int, k as int, top@),
            i <= top@.len(),
            out@.len() == i,
            forall|j: int|
                0 <= j < i ==> (#[trigger] out@[j]).0 == top@[j].1 && out@[j].1
                    == dataset@[top@[j].0 as int],
        decreases top@.len() - i,
    {
        assert(top@[i as int].0 < features@.len());
        out.push((top[i].1, dataset[top[i].0].clone()));
        i = i + 1;
    }
    out
}

/// The nearest feature, of several the first; `None`, at the greatest number,
/// where none is nearer than that.
pub open spec fn first_nearest<D: DistanceAlgorithm<ID>, ID>(
    features: Seq<ID>,
    query: ID,
    n: int,
    r: (u32, Option<usize>),
) -> bool {
    match r.1 {
        Some(i) => {
            &&& i < n
            &&& r.0 == D::distance(query, features[i as int])
            &&& r.0 < u32::MAX
            &&& forall|j: int| 0 <= j < n ==> r.0 <= #[trigger] D::distance(query, features[j])
            &&& forall|j: int| 0 <= j < i ==> r.0 < #[trigger] D::distance(query, features[j])
        },
        None => {
            &&& r.0 == u32::MAX
            &&& forall|j: int|
                0 <= j < n ==> #[trigger] D::distance(query, features[j]) == u32::MAX
        },
    }
}

/// The nearest feature by comparing `query` with each.
pub fn closest<D: DistanceAlgorithm<ID>, ID>(features: &[ID], query: &ID, distance: &D) -> (r: (
    u32,
    Option<usize>,
))
    requires
        all_admitted::<D, ID>(features@),
        D::admits(*query),
    ensures
        first_nearest::<D, ID>(features@, *query, features@.len() as int, r),
{
    let mut best: u32 = u32::MAX;
    let mut at: Option<usize> = None;
    let mut i: usize = 0;
    while i < features.len()
        invariant
            i <= features@.len(),
            all_admitted::<D, ID>(features@),
            D::admits(*query),
            first_nearest::<D, ID>(features@, *query, i as int, (best, at)),
        decreases features@.len() - i,
    {
        let d: u32 = distance.calculate_distance(query, &features[i]);
        if d < best {
            best = d;
            at = Some(i);
        }
        i = i + 1;
    }
    (best, at)
}

} // verus!
