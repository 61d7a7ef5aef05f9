//! The neighbourhoods that an NN-descent refines.

use crate::datalayer::algorithms::DistanceAlgorithm;
use crate::order::{
    below, by_distance, distinct, lemma_insert_distinct, lemma_insert_lists, lemma_insert_sorted,
    lemma_rank, lemma_unmarked_insert, lists, marked_rank_of, rank, unmarked, within, Entry, Marked,
};
use vstd::prelude::*;

verus! {

/// Sizes of an NN-descent.
#[derive(Clone, Copy, Debug)]
pub struct NndParams {
    /// Number of final neighbours of a node.
    pub k: usize,
    /// Size of the candidate pool of a node.
    pub l: usize,
    /// Number of initial random neighbours.
    pub s: usize,
    /// Greatest number of reverse neighbours.
    pub r: usize,
}

impl Default for NndParams {
    fn default() -> (p: Self)
        ensures
            p == (NndParams { k: 50, l: 400, s: 10, r: 200 }),
    {
        NndParams { k: 50, l: 400, s: 10, r: 200 }
    }
}

/// What is known around one node.
pub struct Nhood {
    /// Candidates with their distance, nearest first; the mark is set on those
    /// that have not been compared yet.
    pub pool: Vec<Marked>,
    /// Candidates to compare that are new.
    pub nn_new: Vec<usize>,
    /// Candidates to compare that have been compared before.
    pub nn_old: Vec<usize>,
    /// New nodes that this one is a candidate of.
    pub rnn_new: Vec<usize>,
    /// Old nodes that this one is a candidate of.
    pub rnn_old: Vec<usize>,
    /// Entries of the pool that are looked at in this round.
    pub m: usize,
}

/// The contents of a neighbourhood.
#[verifier::ext_equal]
pub struct Hood {
    pub pool: Seq<Marked>,
    pub nn_new: Seq<usize>,
    pub nn_old: Seq<usize>,
    pub rnn_new: Seq<usize>,
    pub rnn_old: Seq<usize>,
    pub m: int,
}

impl View for Nhood {
    type V = Hood;

    open spec fn view(&self) -> Hood {
        Hood {
            pool: self.pool@,
            nn_new: self.nn_new@,
            nn_old: self.nn_old@,
            rnn_new: self.rnn_new@,
            rnn_old: self.rnn_old@,
            m: self.m as int,
        }
    }
}

/// The contents of every neighbourhood.
pub open spec fn hoods(graph: Seq<Nhood>) -> Seq<Hood> {
    Seq::new(graph.len(), |i: int| graph[i]@)
}

// ---------------------------------------------------------------------------
// Soundness
// ---------------------------------------------------------------------------

/// `e` holds the distance between node `x` and its point, measured in one of
/// the two directions.
pub open spec fn between<D: DistanceAlgorithm<ID>, ID>(
    features: Seq<ID>,
    x: int,
    e: Entry,
) -> bool {
    ||| e.1 == D::distance(features[x], features[e.0 as int])
    ||| e.1 == D::distance(features[e.0 as int], features[x])
}

/// Entries around node `x`: nearest first, no node twice, `x` itself not, each
/// with its distance.
pub open spec fn sound_entries<D: DistanceAlgorithm<ID>, ID>(
    features: Seq<ID>,
    x: int,
    p: Seq<Entry>,
) -> bool {
    &&& by_distance(p)
    &&& distinct(p)
    &&& within(p, features.len() as int)
    &&& forall|k: int|
        0 <= k < p.len() ==> (#[trigger] p[k]).0 != x && between::<D, ID>(features, x, p[k])
}

/// A neighbourhood between two rounds.
pub open spec fn sound_hood<D: DistanceAlgorithm<ID>, ID>(
    features: Seq<ID>,
    x: int,
    h: Hood,
) -> bool {
    &&& sound_entries::<D, ID>(features, x, unmarked(h.pool))
    &&& below(h.nn_new, features.len() as int)
    &&& below(h.nn_old, features.len() as int)
    &&& h.rnn_new.len() == 0
    &&& h.rnn_old.len() == 0
    &&& 0 <= h.m <= h.pool.len()
}

/// All neighbourhoods between two rounds.
pub open spec fn sound_hoods<D: DistanceAlgorithm<ID>, ID>(
    features: Seq<ID>,
    hs: Seq<Hood>,
) -> bool {
    &&& hs.len() == features.len()
    &&& forall|x: int| 0 <= x < hs.len() ==> sound_hood::<D, ID>(features, x, #[trigger] hs[x])
}

// ---------------------------------------------------------------------------
// Offering a candidate to a pool
// ---------------------------------------------------------------------------

/// A pool of at most `l` after `x` at distance `d` was offered to it.
///
/// A full pool takes only what is nearer than its last entry, which then leaves;
/// what the pool holds already is not taken again.
pub open spec fn inserted(pool: Seq<Marked>, l: int, x: usize, d: u32) -> Seq<Marked> {
    let r = rank(unmarked(pool), d);
    if pool.len() >= l && (pool.len() == 0 || d >= pool.last().1) {
        pool
    } else if lists(unmarked(pool), x) {
        pool
    } else if pool.len() < l {
        pool.insert(r, (x, d, true))
    } else if r < l {
        pool.drop_last().insert(r, (x, d, true))
    } else {
        pool
    }
}

/// Whether point `x` occurs.
fn pool_lists(pool: &Vec<Marked>, x: usize) -> (r: bool)
    ensures
        r == lists(unmarked(pool@), x),
{
    let mut i: usize = 0;
    while i < pool.len()
        invariant
            i <= pool@.len(),
            forall|k: int| 0 <= k < i ==> (#[trigger] unmarked(pool@)[k]).0 != x,
        decreases pool@.len() - i,
    {
        assert(unmarked(pool@)[i as int].0 == pool@[i as int].0);
        if pool[i].0 == x {
            return true;
        }
        i = i + 1;
    }
    false
}

/// Offers `x` at distance `d` to a pool of at most `l`.
pub fn offer(pool: &mut Vec<Marked>, l: usize, x: usize, d: u32)
    requires
        by_distance(unmarked(old(pool)@)),
    ensures
        final(pool)@ == inserted(old(pool)@, l as int, x, d),
{
    let ghost pool0 = pool@;
    let len: usize = pool.len();
    proof {
        lemma_rank(unmarked(pool0), d);
    }
    if len >= l {
        if len == 0 || d >= pool[len - 1].1 {
            return;
        }
    }
    if pool_lists(pool, x) {
        return;
    }
    let pos: usize = marked_rank_of(pool, d);
    if len < l {
        pool.insert(pos, (x, d, true));
    } else if pos < l {
        proof {
            let p = unmarked(pool0);
            if pos == len {
                assert(p[len - 1].1 <= d);
            }
        }
        pool.pop();
        assert(pool@ =~= pool0.drop_last());
        pool.insert(pos, (x, d, true));
    }
}

/// Dropping the last entry keeps a list sound.
pub proof fn lemma_shorter_sound<D: DistanceAlgorithm<ID>, ID>(
    features: Seq<ID>,
    x: int,
    p: Seq<Entry>,
    k: int,
)
    requires
        sound_entries::<D, ID>(features, x, p),
        0 <= k <= p.len(),
    ensures
        sound_entries::<D, ID>(features, x, p.take(k)),
{
    let t = p.take(k);
    assert forall|i: int| 0 <= i < t.len() implies #[trigger] t[i] == p[i] by {}
}

/// An offer keeps a pool sound. The pool does not get shorter, and longer than
/// `l` only if it was.
pub proof fn lemma_inserted_sound<D: DistanceAlgorithm<ID>, ID>(
    features: Seq<ID>,
    x: int,
    pool: Seq<Marked>,
    l: int,
    y: usize,
    d: u32,
)
    requires
        sound_entries::<D, ID>(features, x, unmarked(pool)),
        y < features.len(),
        y != x,
        between::<D, ID>(features, x, (y, d)),
    ensures
        sound_entries::<D, ID>(features, x, unmarked(inserted(pool, l, y, d))),
        pool.len() <= inserted(pool, l, y, d).len(),
        inserted(pool, l, y, d).len() <= pool.len() || inserted(pool, l, y, d).len() <= l,
{
    let p = unmarked(pool);
    let e = (y, d);
    let pool2 = inserted(pool, l, y, d);
    let p2 = unmarked(pool2);
    lemma_rank(p, d);
    if pool2 != pool {
        let r = rank(p, d);
        let full = pool.len() >= l;
        let base = if full {
            pool.drop_last()
        } else {
            pool
        };
        let b = unmarked(base);
        if full {
            assert(p[p.len() - 1].1 == pool.last().1);
            assert(b =~= p.take(p.len() - 1));
            lemma_shorter_sound::<D, ID>(features, x, p, p.len() - 1);
            assert(p.drop_last() =~= b);
            if r == p.len() {
                assert(p[p.len() - 1].1 <= d);
            }
        }
        assert(rank(b, d) == r);
        lemma_unmarked_insert(base, r, (y, d, true));
        assert(p2 == b.insert(r, e));
        lemma_insert_sorted(b, e);
        assert(!lists(b, y)) by {
            if lists(b, y) {
                let k = choose|k: int| 0 <= k < b.len() && (#[trigger] b[k]).0 == y;
                assert(p[k] == b[k]);
            }
        }
        lemma_insert_distinct(b, r, e);
        assert forall|k: int| 0 <= k < p2.len() implies ({
            &&& (#[trigger] p2[k]).0 < features.len()
            &&& p2[k].0 != x
            &&& between::<D, ID>(features, x, p2[k])
        }) by {
            if k < r {
                assert(p2[k] == b[k]);
            } else if k > r {
                assert(p2[k] == b[k - 1]);
            }
        }
    }
}

/// What was offered is in the pool, unless the pool is full of entries that are
/// no farther. What was in the pool stays, but for an entry at the end of a full
/// pool that is farther than what was offered.
pub proof fn lemma_offer_kept(pool: Seq<Marked>, l: int, x: usize, d: u32)
    requires
        by_distance(unmarked(pool)),
        l > 0 || pool.len() > 0,
    ensures
        ({
            let p = unmarked(pool);
            let p2 = unmarked(inserted(pool, l, x, d));
            &&& lists(p2, x) || (p2.len() >= l && forall|k: int|
                0 <= k < p2.len() && k < l ==> (#[trigger] p2[k]).1 <= d)
            &&& forall|k: int|
                0 <= k < p.len() ==> p2.contains(#[trigger] p[k]) || (k == p.len() - 1 && p.len()
                    >= l && d < p[k].1)
        }),
{
    let p = unmarked(pool);
    let pool2 = inserted(pool, l, x, d);
    let p2 = unmarked(pool2);
    let r = rank(p, d);
    lemma_rank(p, d);
    if pool2 == pool {
        assert forall|k: int| 0 <= k < p.len() implies p2.contains(#[trigger] p[k]) by {
            assert(p2[k] == p[k]);
        }
        if pool.len() >= l && d >= pool.last().1 {
            assert(p[p.len() - 1].1 == pool.last().1);
            assert forall|k: int| 0 <= k < p2.len() && k < l implies (#[trigger] p2[k]).1 <= d by {
                assert(p2[k] == p[k]);
            }
        } else if !lists(p, x) {
            if pool.len() < l || r < l {
                assert(pool2.len() == pool.len());
                assert(pool2[r] == (x, d, true));
                assert(p2[r].0 == x);
            } else {
                assert forall|k: int| 0 <= k < p2.len() && k < l implies (#[trigger] p2[k]).1
                    <= d by {
                    assert(p2[k] == p[k]);
                }
            }
        }
    } else {
        let full = pool.len() >= l;
        let base = if full {
            pool.drop_last()
        } else {
            pool
        };
        let b = unmarked(base);
        assert(b =~= if full {
            p.drop_last()
        } else {
            p
        });
        if full {
            assert(p[p.len() - 1].1 == pool.last().1);
            if r == p.len() {
                assert(p[p.len() - 1].1 <= d);
            }
        }
        lemma_unmarked_insert(base, r, (x, d, true));
        lemma_insert_lists(b, r, (x, d));
        assert forall|k: int| 0 <= k < p.len() implies p2.contains(#[trigger] p[k]) || (k == p.len()
            - 1 && p.len() >= l && d < p[k].1) by {
            if k < b.len() {
                assert(b[k] == p[k]);
                assert(b.contains(p[k]));
            }
        }
    }
}

/// `b` is no worse than `a` among its first `l`: at every place where `a` has an
/// entry `b` has one that is no farther.
pub open spec fn no_worse(a: Seq<Marked>, b: Seq<Marked>, l: int) -> bool {
    forall|k: int|
        #![trigger a[k]]
        #![trigger b[k]]
        0 <= k < a.len() && k < l ==> b[k].1 <= a[k].1 && k < b.len()
}

/// An offer makes no place of a pool worse, and keeps its order.
pub proof fn lemma_offer_no_worse(pool: Seq<Marked>, l: int, x: usize, d: u32)
    requires
        by_distance(unmarked(pool)),
    ensures
        by_distance(unmarked(inserted(pool, l, x, d))),
        pool.len() <= inserted(pool, l, x, d).len(),
        forall|k: int|
            0 <= k < pool.len() ==> (#[trigger] inserted(pool, l, x, d)[k]).1 <= (
            #[trigger] pool[k]).1,
{
    let p = unmarked(pool);
    let pool2 = inserted(pool, l, x, d);
    let r = rank(p, d);
    lemma_rank(p, d);
    assert forall|k: int| 0 <= k < pool.len() implies #[trigger] p[k] == (
        pool[k].0,
        pool[k].1,
    ) by {}
    if pool2 != pool {
        let full = pool.len() >= l;
        let base = if full {
            pool.drop_last()
        } else {
            pool
        };
        let b = unmarked(base);
        assert(b =~= if full {
            p.drop_last()
        } else {
            p
        });
        if full && r == p.len() {
            assert(p[p.len() - 1].1 <= d);
        }
        assert(by_distance(b)) by {
            assert forall|i: int, j: int| 0 <= i <= j < b.len() implies (#[trigger] b[i]).1 <= (
            #[trigger] b[j]).1 by {
                assert(b[i] == p[i] && b[j] == p[j]);
            }
        }
        assert(rank(b, d) == r);
        lemma_insert_sorted(b, (x, d));
        lemma_unmarked_insert(base, r, (x, d, true));
        assert forall|k: int| 0 <= k < pool.len() implies (#[trigger] pool2[k]).1 <= (
        #[trigger] pool[k]).1 by {
            if k < r {
                assert(pool2[k] == pool[k]);
            } else if k == r {
                assert(p[r].1 > d);
            } else {
                assert(pool2[k] == pool[k - 1]);
                assert(p[k - 1].1 <= p[k].1);
            }
        }
    }
}

} // verus!
