//! Lists of points with their distances: order, distinctness, permutations.

use vstd::prelude::*;

verus! {

/// A point by index, with a distance.
pub type Entry = (usize, u32);

// ---------------------------------------------------------------------------
// Permutations
// ---------------------------------------------------------------------------

/// `a` and `b` hold the same items, each as often, in whatever order.
pub open spec fn same_items<T>(a: Seq<T>, b: Seq<T>) -> bool {
    a.to_multiset() =~= b.to_multiset()
}

pub proof fn lemma_same_items<T>(a: Seq<T>, b: Seq<T>)
    requires
        same_items(a, b),
    ensures
        a.len() == b.len(),
        forall|x: T| a.contains(x) <==> #[trigger] b.contains(x),
        a.no_duplicates() ==> b.no_duplicates(),
{
    a.to_multiset_ensures();
    b.to_multiset_ensures();
    assert forall|x: T| a.contains(x) <==> #[trigger] b.contains(x) by {
        assert(a.contains(x) <==> a.to_multiset().count(x) > 0);
        assert(b.contains(x) <==> b.to_multiset().count(x) > 0);
    }
    if a.no_duplicates() {
        a.lemma_multiset_has_no_duplicates();
        b.lemma_multiset_has_no_duplicates_conv();
    }
}

// ---------------------------------------------------------------------------
// Entries
// ---------------------------------------------------------------------------

/// Ascending by distance.
pub open spec fn by_distance(s: Seq<Entry>) -> bool {
    forall|i: int, j: int| 0 <= i <= j < s.len() ==> (#[trigger] s[i]).1 <= (#[trigger] s[j]).1
}

/// No point occurs twice.
pub open spec fn distinct(s: Seq<Entry>) -> bool {
    forall|i: int, j: int| 0 <= i < j < s.len() ==> (#[trigger] s[i]).0 != (#[trigger] s[j]).0
}

/// Every point is below `n`.
pub open spec fn within(s: Seq<Entry>, n: int) -> bool {
    forall|i: int| 0 <= i < s.len() ==> (#[trigger] s[i]).0 < n
}

/// Point `x` occurs.
pub open spec fn lists(s: Seq<Entry>, x: usize) -> bool {
    exists|i: int| 0 <= i < s.len() && (#[trigger] s[i]).0 == x
}

/// The points alone.
pub open spec fn points(s: Seq<Entry>) -> Seq<usize> {
    s.map_values(|e: Entry| e.0)
}

/// One past the last entry at a distance of `d` or less: where a new entry at
/// distance `d` is put behind its equals.
pub open spec fn rank(s: Seq<Entry>, d: u32) -> int
    decreases s.len(),
{
    if s.len() == 0 {
        0
    } else if s.last().1 <= d {
        s.len() as int
    } else {
        rank(s.drop_last(), d)
    }
}

pub proof fn lemma_rank(s: Seq<Entry>, d: u32)
    requires
        by_distance(s),
    ensures
        0 <= rank(s, d) <= s.len(),
        forall|i: int| 0 <= i < rank(s, d) ==> (#[trigger] s[i]).1 <= d,
        forall|i: int| rank(s, d) <= i < s.len() ==> (#[trigger] s[i]).1 > d,
    decreases s.len(),
{
    if s.len() > 0 && s.last().1 > d {
        let t = s.drop_last();
        lemma_rank(t, d);
        assert forall|i: int| 0 <= i < rank(s, d) implies (#[trigger] s[i]).1 <= d by {
            assert(t[i] == s[i]);
        }
        assert forall|i: int| rank(s, d) <= i < s.len() implies (#[trigger] s[i]).1 > d by {
            if i < s.len() - 1 {
                assert(t[i] == s[i]);
            }
        }
    }
}

/// A split of a sorted list that `d` falls into is its rank.
pub proof fn lemma_rank_unique(s: Seq<Entry>, d: u32, p: int)
    requires
        by_distance(s),
        0 <= p <= s.len(),
        p > 0 ==> s[p - 1].1 <= d,
        p < s.len() ==> s[p].1 > d,
    ensures
        p == rank(s, d),
{
    lemma_rank(s, d);
    let r = rank(s, d);
    if p < r {
        assert(s[p].1 <= d);
    }
    if r < p {
        assert(s[p - 1].1 > d);
    }
}

/// Putting an entry at its rank keeps a list sorted.
pub proof fn lemma_insert_sorted(s: Seq<Entry>, e: Entry)
    requires
        by_distance(s),
    ensures
        0 <= rank(s, e.1) <= s.len(),
        by_distance(s.insert(rank(s, e.1), e)),
{
    lemma_rank(s, e.1);
    let r = rank(s, e.1);
    let t = s.insert(r, e);
    assert forall|i: int, j: int| 0 <= i <= j < t.len() implies (#[trigger] t[i]).1 <= (
    #[trigger] t[j]).1 by {
        let i0 = if i < r {
            i
        } else {
            i - 1
        };
        let j0 = if j < r {
            j
        } else {
            j - 1
        };
        if i != r {
            assert(t[i] == s[i0]);
        }
        if j != r {
            assert(t[j] == s[j0]);
        }
    }
}

/// Putting in a point that does not occur keeps a list free of repetitions.
pub proof fn lemma_insert_distinct(s: Seq<Entry>, p: int, e: Entry)
    requires
        distinct(s),
        !lists(s, e.0),
        0 <= p <= s.len(),
    ensures
        distinct(s.insert(p, e)),
        forall|x: usize|
            #![trigger lists(s.insert(p, e), x)]
            #![trigger lists(s, x)]
            lists(s.insert(p, e), x) <==> (lists(s, x) || x == e.0),
{
    let t = s.insert(p, e);
    assert forall|i: int, j: int| 0 <= i < j < t.len() implies (#[trigger] t[i]).0 != (
    #[trigger] t[j]).0 by {
        let i0 = if i < p {
            i
        } else {
            i - 1
        };
        let j0 = if j < p {
            j
        } else {
            j - 1
        };
        if i != p {
            assert(t[i] == s[i0]);
        }
        if j != p {
            assert(t[j] == s[j0]);
        }
    }
    lemma_insert_lists(s, p, e);
}

pub proof fn lemma_insert_lists(s: Seq<Entry>, p: int, e: Entry)
    requires
        0 <= p <= s.len(),
    ensures
        forall|x: usize|
            #![trigger lists(s.insert(p, e), x)]
            #![trigger lists(s, x)]
            lists(s.insert(p, e), x) <==> (lists(s, x) || x == e.0),
        forall|x: Entry|
            #![trigger s.insert(p, e).contains(x)]
            #![trigger s.contains(x)]
            s.insert(p, e).contains(x) <==> (s.contains(x) || x == e),
{
    let t = s.insert(p, e);
    assert(t[p] == e);
    assert forall|x: usize| lists(t, x) <==> (#[trigger] lists(s, x) || x == e.0) by {
        if lists(t, x) {
            let k = choose|k: int| 0 <= k < t.len() && (#[trigger] t[k]).0 == x;
            if k < p {
                assert(s[k].0 == x);
            } else if k > p {
                assert(s[k - 1].0 == x);
            }
        }
        if lists(s, x) {
            let k = choose|k: int| 0 <= k < s.len() && (#[trigger] s[k]).0 == x;
            if k < p {
                assert(t[k].0 == x);
            } else {
                assert(t[k + 1].0 == x);
            }
        }
    }
    assert forall|x: Entry| t.contains(x) <==> (#[trigger] s.contains(x) || x == e) by {
        if t.contains(x) {
            let k = choose|k: int| 0 <= k < t.len() && t[k] == x;
            if k < p {
                assert(s[k] == x);
            } else if k > p {
                assert(s[k - 1] == x);
            }
        }
        if s.contains(x) {
            let k = choose|k: int| 0 <= k < s.len() && s[k] == x;
            if k < p {
                assert(t[k] == x);
            } else {
                assert(t[k + 1] == x);
            }
        }
    }
}

/// A reordered list lists the same points.
pub proof fn lemma_same_entries(a: Seq<Entry>, b: Seq<Entry>)
    requires
        same_items(a, b),
    ensures
        a.len() == b.len(),
        forall|x: Entry| a.contains(x) <==> #[trigger] b.contains(x),
        forall|x: usize| lists(a, x) <==> #[trigger] lists(b, x),
        distinct(a) ==> distinct(b),
        forall|n: int| within(a, n) ==> #[trigger] within(b, n),
{
    lemma_same_items(a, b);
    assert forall|x: usize| lists(a, x) <==> #[trigger] lists(b, x) by {
        if lists(a, x) {
            let k = choose|k: int| 0 <= k < a.len() && (#[trigger] a[k]).0 == x;
            assert(a.contains(a[k]));
            assert(b.contains(a[k]));
        }
        if lists(b, x) {
            let k = choose|k: int| 0 <= k < b.len() && (#[trigger] b[k]).0 == x;
            assert(b.contains(b[k]));
            assert(a.contains(b[k]));
        }
    }
    if distinct(a) {
        assert(a.no_duplicates());
        assert forall|i: int, j: int| 0 <= i < j < b.len() implies (#[trigger] b[i]).0 != (
        #[trigger] b[j]).0 by {
            assert(b.contains(b[i]));
            assert(b.contains(b[j]));
            let k = choose|k: int| 0 <= k < a.len() && a[k] == b[i];
            let l = choose|l: int| 0 <= l < a.len() && a[l] == b[j];
            assert(k != l);
            if k < l {
                assert(a[k].0 != a[l].0);
            } else {
                assert(a[l].0 != a[k].0);
            }
        }
    }
    assert forall|n: int| within(a, n) implies #[trigger] within(b, n) by {
        assert forall|i: int| 0 <= i < b.len() implies (#[trigger] b[i]).0 < n by {
            assert(b.contains(b[i]));
            let k = choose|k: int| 0 <= k < a.len() && a[k] == b[i];
            assert(a[k].0 < n);
        }
    }
}

/// Sorts by distance. `slice::sort_unstable_by_key` (std): claimed is that the
/// list is reordered and ascends by distance; the order of entries at one
/// distance is left open.
#[verifier::external_body]
pub(crate) fn sort_by_distance(v: &mut Vec<Entry>)
    ensures
        same_items(old(v)@, final(v)@),
        by_distance(final(v)@),
{
    v.sort_unstable_by_key(|&(_, d)| d);
}

/// The rank of `d` in a sorted list.
pub fn rank_of(s: &Vec<Entry>, d: u32) -> (p: usize)
    requires
        by_distance(s@),
    ensures
        p == rank(s@, d),
        p <= s@.len(),
{
    let mut lo: usize = 0;
    let mut hi: usize = s.len();
    while lo < hi
        invariant
            lo <= hi <= s@.len(),
            by_distance(s@),
            forall|i: int| 0 <= i < lo ==> (#[trigger] s@[i]).1 <= d,
            forall|i: int| hi <= i < s@.len() ==> (#[trigger] s@[i]).1 > d,
        decreases hi - lo,
    {
        let mid: usize = lo + (hi - lo) / 2;
        if s[mid].1 <= d {
            lo = mid + 1;
        } else {
            hi = mid;
        }
    }
    proof {
        lemma_rank_unique(s@, d, lo as int);
    }
    lo
}

/// Whether point `x` occurs in `s`.
pub fn lists_point(s: &Vec<Entry>, x: usize) -> (r: bool)
    ensures
        r == lists(s@, x),
{
    let mut i: usize = 0;
    while i < s.len()
        invariant
            i <= s@.len(),
            forall|k: int| 0 <= k < i ==> (#[trigger] s@[k]).0 != x,
        decreases s@.len() - i,
    {
        if s[i].0 == x {
            return true;
        }
        i = i + 1;
    }
    false
}

/// The points of a reordered list are reordered.
pub proof fn lemma_same_points(a: Seq<Entry>, b: Seq<Entry>)
    requires
        same_items(a, b),
    ensures
        same_items(points(a), points(b)),
    decreases a.len(),
{
    a.to_multiset_ensures();
    b.to_multiset_ensures();
    points(a).to_multiset_ensures();
    points(b).to_multiset_ensures();
    lemma_same_items(a, b);
    if a.len() > 0 {
        let l = a.len() - 1;
        assert(a.contains(a[l]));
        assert(b.contains(a[l]));
        let k = choose|k: int| 0 <= k < b.len() && b[k] == a[l];
        let s = a.remove(l);
        let t = b.remove(k);
        lemma_same_points(s, t);
        assert(points(s) =~= points(a).remove(l));
        assert(points(t) =~= points(b).remove(k));
        assert(points(a)[l] == points(b)[k]);
        assert(points(a).contains(points(a)[l]));
        assert(points(b).contains(points(b)[k]));
        let x = points(a)[l];
        assert(points(a).to_multiset() =~= points(a).to_multiset().remove(x).insert(x));
        assert(points(b).to_multiset() =~= points(b).to_multiset().remove(x).insert(x));
    } else {
        assert(points(a) =~= points(b));
    }
}

// ---------------------------------------------------------------------------
// Lists of points alone
// ---------------------------------------------------------------------------

/// Every point is below `n`.
pub open spec fn below(s: Seq<usize>, n: int) -> bool {
    forall|i: int| 0 <= i < s.len() ==> (#[trigger] s[i]) < n
}

/// Strictly ascending.
pub open spec fn ascending(s: Seq<usize>) -> bool {
    forall|i: int, j: int| 0 <= i < j < s.len() ==> (#[trigger] s[i]) < (#[trigger] s[j])
}

/// Every point below `n` once, in whatever order.
pub open spec fn permutation(s: Seq<usize>, n: int) -> bool {
    &&& s.len() == n
    &&& s.no_duplicates()
    &&& below(s, n)
}

/// Sorts points. `slice::sort_unstable` (std) on `usize`: claimed is that the
/// list is reordered and ascends.
#[verifier::external_body]
pub(crate) fn sort_points(v: &mut Vec<usize>)
    ensures
        same_items(old(v)@, final(v)@),
        forall|i: int, j: int|
            0 <= i <= j < final(v)@.len() ==> (#[trigger] final(v)@[i]) <= (#[trigger] final(v)@[j]),
{
    v.sort_unstable();
}

/// Sorts points and keeps each once.
pub fn sort_once(v: &mut Vec<usize>)
    ensures
        ascending(final(v)@),
        forall|x: usize| #[trigger] final(v)@.contains(x) <==> old(v)@.contains(x),
{
    let ghost v0 = v@;
    sort_points(v);
    let ghost sorted = v@;
    let mut out: Vec<usize> = Vec::new();
    let mut i: usize = 0;
    while i < v.len()
        invariant
            i <= v@.len(),
            v@ == sorted,
            forall|i: int, j: int|
                0 <= i <= j < sorted.len() ==> (#[trigger] sorted[i]) <= (#[trigger] sorted[j]),
            ascending(out@),
            i == 0 ==> out@.len() == 0,
            i > 0 ==> out@.len() > 0 && out@.last() == sorted[i - 1],
            forall|k: int| 0 <= k < out@.len() ==> sorted.contains(#[trigger] out@[k]),
            forall|k: int| 0 <= k < i ==> out@.contains(#[trigger] sorted[k]),
        decreases v@.len() - i,
    {
        let ghost before = out@;
        let x: usize = v[i];
        if out.len() == 0 || out[out.len() - 1] != x {
            out.push(x);
            proof {
                assert(sorted.contains(sorted[i as int]));
                assert forall|k: int, l: int| 0 <= k < l < out@.len() implies (#[trigger] out@[k])
                    < (#[trigger] out@[l]) by {
                    if l == before.len() {
                        assert(before[k] <= before.last());
                        assert(sorted[i - 1] <= sorted[i as int]);
                    }
                }
            }
        }
        proof {
            assert(out@.last() == x);
            assert forall|k: int| 0 <= k < i + 1 implies out@.contains(#[trigger] sorted[k]) by {
                if k < i {
                    let l = choose|l: int| 0 <= l < before.len() && before[l] == sorted[k];
                    assert(before.contains(sorted[k]));
                    assert(out@[l] == sorted[k]);
                } else {
                    assert(out@[out@.len() - 1] == sorted[k]);
                }
            }
        }
        i = i + 1;
    }
    proof {
        lemma_same_items(v0, sorted);
        assert forall|x: usize| #[trigger] out@.contains(x) <==> v0.contains(x) by {
            assert(v0.contains(x) <==> sorted.contains(x));
        }
    }
    *v = out;
}

/// Whether `x` occurs in `s`.
pub fn holds_point(s: &Vec<usize>, x: usize) -> (r: bool)
    ensures
        r == s@.contains(x),
{
    let mut i: usize = 0;
    while i < s.len()
        invariant
            i <= s@.len(),
            forall|k: int| 0 <= k < i ==> (#[trigger] s@[k]) != x,
        decreases s@.len() - i,
    {
        if s[i] == x {
            return true;
        }
        i = i + 1;
    }
    false
}

/// The lists that a vector of vectors holds.
pub open spec fn lists_of(v: Seq<Vec<usize>>) -> Seq<Seq<usize>> {
    Seq::new(v.len(), |i: int| v[i]@)
}

// ---------------------------------------------------------------------------
// Entries with a mark
// ---------------------------------------------------------------------------

/// An entry with a mark.
pub type Marked = (usize, u32, bool);

/// The entries without their marks.
pub open spec fn unmarked(s: Seq<Marked>) -> Seq<Entry> {
    s.map_values(|e: Marked| (e.0, e.1))
}

pub proof fn lemma_unmarked_insert(s: Seq<Marked>, p: int, e: Marked)
    requires
        0 <= p <= s.len(),
    ensures
        unmarked(s.insert(p, e)) =~= unmarked(s).insert(p, (e.0, e.1)),
{
}

/// The rank of `d` in a sorted list of marked entries.
pub fn marked_rank_of(s: &Vec<Marked>, d: u32) -> (p: usize)
    requires
        by_distance(unmarked(s@)),
    ensures
        p == rank(unmarked(s@), d),
        p <= s@.len(),
{
    let ghost u = unmarked(s@);
    let mut lo: usize = 0;
    let mut hi: usize = s.len();
    while lo < hi
        invariant
            lo <= hi <= s@.len(),
            u == unmarked(s@),
            by_distance(u),
            forall|i: int| 0 <= i < lo ==> (#[trigger] u[i]).1 <= d,
            forall|i: int| hi <= i < s@.len() ==> (#[trigger] u[i]).1 > d,
        decreases hi - lo,
    {
        let mid: usize = lo + (hi - lo) / 2;
        assert(u[mid as int].1 == s@[mid as int].1);
        if s[mid].1 <= d {
            lo = mid + 1;
        } else {
            hi = mid;
        }
    }
    proof {
        lemma_rank_unique(u, d, lo as int);
    }
    lo
}

// ---------------------------------------------------------------------------
// Counting
// ---------------------------------------------------------------------------

/// Different indices below `n` are at most `n` many.
pub proof fn lemma_few_below(s: Seq<usize>, n: nat)
    requires
        s.no_duplicates(),
        forall|i: int| 0 <= i < s.len() ==> (#[trigger] s[i]) < n,
    ensures
        s.len() <= n,
{
    let t = s.map_values(|x: usize| x as int);
    assert(t.no_duplicates());
    t.unique_seq_to_set();
    vstd::set_lib::lemma_int_range(0, n as int);
    assert(t.to_set().subset_of(vstd::set_lib::set_int_range(0, n as int)));
    vstd::set_lib::lemma_len_subset(t.to_set(), vstd::set_lib::set_int_range(0, n as int));
}

/// Fewer than `n` indices leave one below `n` out.
pub proof fn lemma_one_missing(s: Seq<usize>, n: nat)
    requires
        s.len() < n,
        n <= usize::MAX,
    ensures
        exists|x: usize| x < n && !s.contains(x),
{
    if forall|x: usize| x < n ==> s.contains(x) {
        let all = Seq::new(n, |i: int| i as usize);
        assert(all.no_duplicates());
        all.unique_seq_to_set();
        assert(all.to_set().subset_of(s.to_set())) by {
            assert forall|x: usize| all.to_set().contains(x) implies s.to_set().contains(x) by {
                let k = choose|k: int| 0 <= k < all.len() && all[k] == x;
                assert(x < n);
            }
        }
        vstd::seq_lib::seq_to_set_is_finite(s);
        vstd::set_lib::lemma_len_subset(all.to_set(), s.to_set());
        s.lemma_cardinality_of_set();
    }
}

/// Strictly ascending lists with the same points are the same.
pub proof fn lemma_ascending_same(a: Seq<usize>, b: Seq<usize>)
    requires
        ascending(a),
        ascending(b),
        forall|x: usize| #[trigger] a.contains(x) <==> b.contains(x),
    ensures
        a == b,
    decreases a.len(),
{
    if a.len() == 0 {
        if b.len() > 0 {
            assert(b.contains(b[0]));
            assert(a.contains(b[0]));
        }
        assert(a =~= b);
    } else {
        assert(a.contains(a.last()));
        assert(b.contains(a.last()));
        assert(b.contains(b.last()));
        assert(a.contains(b.last()));
        let i = choose|i: int| 0 <= i < a.len() && a[i] == b.last();
        let j = choose|j: int| 0 <= j < b.len() && b[j] == a.last();
        assert(a[i] <= a[a.len() - 1]);
        assert(b[j] <= b[b.len() - 1]);
        assert(a.last() == b.last());
        let a1 = a.drop_last();
        let b1 = b.drop_last();
        assert forall|x: usize| #[trigger] a1.contains(x) <==> b1.contains(x) by {
            if a1.contains(x) {
                let k = choose|k: int| 0 <= k < a1.len() && a1[k] == x;
                assert(a[k] == x && a[k] < a[a.len() - 1]);
                assert(a.contains(x));
                let l = choose|l: int| 0 <= l < b.len() && b[l] == x;
                assert(b1[l] == x);
            }
            if b1.contains(x) {
                let k = choose|k: int| 0 <= k < b1.len() && b1[k] == x;
                assert(b[k] == x && b[k] < b[b.len() - 1]);
                assert(b.contains(x));
                assert(a.contains(x));
                let l = choose|l: int| 0 <= l < a.len() && a[l] == x;
                assert(a1[l] == x);
            }
        }
        lemma_ascending_same(a1, b1);
        assert(a =~= a1.push(a.last()));
        assert(b =~= b1.push(b.last()));
    }
}

} // verus!
