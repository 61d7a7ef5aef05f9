//! What is compared in the next round of an NN-descent: the nearest candidates
//! of every node, and the nodes that it is a promising candidate of.

use crate::controllers::neighborhood::{
    hoods, lemma_shorter_sound, sound_entries, sound_hood, sound_hoods, Hood, NndParams, Nhood,
};
use crate::datalayer::algorithms::DistanceAlgorithm;
use crate::order::{below, same_items, unmarked, Marked};
use crate::random::random_index;
use rand::rngs::StdRng;
use vstd::prelude::*;

verus! {

// ---------------------------------------------------------------------------
// What a renewal comes to
// ---------------------------------------------------------------------------

/// The first `l` entries.
pub open spec fn cut<T>(s: Seq<T>, l: int) -> Seq<T> {
    if s.len() <= l {
        s
    } else {
        s.take(l)
    }
}

/// Number of marked entries among the first `k`.
pub open spec fn marked_count(pool: Seq<Marked>, k: nat) -> nat
    decreases k,
{
    if k == 0 {
        0
    } else {
        marked_count(pool, (k - 1) as nat) + if pool[k - 1].2 {
            1nat
        } else {
            0
        }
    }
}

/// From `m` on, up to `end`, as far as it takes to have `s` marked entries.
pub open spec fn advanced(pool: Seq<Marked>, end: int, s: int, m: int) -> int
    decreases end - m,
{
    if 0 <= m < end && marked_count(pool, m as nat) < s {
        advanced(pool, end, s, m + 1)
    } else {
        m
    }
}

/// How many entries of the pool are looked at: as many as it takes to have `s`
/// marked ones, but at most `s` more than the last time.
pub open spec fn window(pool: Seq<Marked>, last: int, s: int) -> int {
    let end = if last + s < pool.len() {
        last + s
    } else {
        pool.len() as int
    };
    advanced(pool, end, s, 0)
}

/// A neighbourhood with its pool cut to `l` and its window moved on.
pub open spec fn windowed(h: Hood, l: int, s: int) -> Hood {
    Hood {
        pool: cut(h.pool, l),
        nn_new: Seq::empty(),
        nn_old: Seq::empty(),
        m: window(cut(h.pool, l), h.m, s),
        ..h
    }
}

/// The points of the first `k` entries whose mark is `mark`.
pub open spec fn marked_points(pool: Seq<Marked>, k: nat, mark: bool) -> Seq<usize>
    decreases k,
{
    if k == 0 {
        Seq::empty()
    } else if pool[k - 1].2 == mark {
        marked_points(pool, (k - 1) as nat, mark).push(pool[k - 1].0)
    } else {
        marked_points(pool, (k - 1) as nat, mark)
    }
}

/// The pool with the marks of its first `k` entries taken off.
pub open spec fn settled_pool(pool: Seq<Marked>, k: int) -> Seq<Marked> {
    Seq::new(
        pool.len(),
        |i: int|
            if i < k {
                (pool[i].0, pool[i].1, false)
            } else {
                pool[i]
            },
    )
}

/// A neighbourhood with the entries of its window sorted out by their marks.
pub open spec fn sorted_out(h: Hood) -> Hood {
    Hood {
        pool: settled_pool(h.pool, h.m),
        nn_new: marked_points(h.pool, h.m as nat, true),
        nn_old: marked_points(h.pool, h.m as nat, false),
        ..h
    }
}

/// The distance of the farthest entry; the greatest number for an empty pool.
pub open spec fn worst(pool: Seq<Marked>) -> u32 {
    if pool.len() == 0 {
        u32::MAX
    } else {
        pool.last().1
    }
}

/// Of the first `k` entries of node `x` whose mark is `mark`, those nodes that
/// `x` is farther from than all they hold, each with `x`.
pub open spec fn node_calls(hs: Seq<Hood>, x: int, k: nat, mark: bool) -> Seq<(usize, usize)>
    decreases k,
{
    if k == 0 {
        Seq::empty()
    } else {
        let e = hs[x].pool[k - 1];
        let before = node_calls(hs, x, (k - 1) as nat, mark);
        if e.2 == mark && e.1 > worst(hs[e.0 as int].pool) {
            before.push((e.0, x as usize))
        } else {
            before
        }
    }
}

/// The same for the windows of the first `x` nodes.
pub open spec fn calls(hs: Seq<Hood>, x: nat, mark: bool) -> Seq<(usize, usize)>
    decreases x,
{
    if x == 0 {
        Seq::empty()
    } else {
        calls(hs, (x - 1) as nat, mark) + node_calls(hs, x - 1, hs[x - 1].m as nat, mark)
    }
}

/// A list of at most `r` that `x` was put to: behind the others, or in the place
/// `pick` of a full list.
pub open spec fn put(list: Seq<usize>, r: int, x: usize, pick: int) -> Seq<usize> {
    if list.len() < r {
        list.push(x)
    } else if r > 0 {
        list.update(pick, x)
    } else {
        list
    }
}

/// The lists after the calls were put to them, one after the other: the second
/// node of a call to the list of the first.
pub open spec fn kept(
    lists: Seq<Seq<usize>>,
    called: Seq<(usize, usize)>,
    r: int,
    picks: Seq<int>,
) -> Seq<Seq<usize>>
    decreases called.len(),
{
    if called.len() == 0 {
        lists
    } else {
        let before = kept(lists, called.drop_last(), r, picks);
        let (target, source) = called.last();
        before.update(
            target as int,
            put(before[target as int], r, source, picks[called.len() - 1]),
        )
    }
}

/// One pick below `r` for every call.
pub open spec fn picks_for(called: Seq<(usize, usize)>, r: int, picks: Seq<int>) -> bool {
    &&& picks.len() == called.len()
    &&& forall|i: int|
        0 <= i < picks.len() ==> 0 <= (#[trigger] picks[i]) && (r > 0 ==> picks[i] < r)
}

/// Every neighbourhood windowed.
pub open spec fn all_windowed(hs: Seq<Hood>, l: int, s: int) -> Seq<Hood> {
    Seq::new(hs.len(), |i: int| windowed(hs[i], l, s))
}

/// A list without anything for every node.
pub open spec fn no_lists(n: nat) -> Seq<Seq<usize>> {
    Seq::new(n, |i: int| Seq::empty())
}

/// What a renewal comes to when a call that finds a full list takes the place
/// that `new_picks` or `old_picks` names.
pub open spec fn renewed(
    hs: Seq<Hood>,
    params: NndParams,
    new_picks: Seq<int>,
    old_picks: Seq<int>,
) -> Seq<Hood> {
    let a = all_windowed(hs, params.l as int, params.s as int);
    let r = params.r as int;
    let rn = kept(no_lists(hs.len()), calls(a, hs.len(), true), r, new_picks);
    let ro = kept(no_lists(hs.len()), calls(a, hs.len(), false), r, old_picks);
    Seq::new(
        hs.len(),
        |i: int|
            {
                let h = sorted_out(a[i]);
                Hood {
                    nn_new: h.nn_new + rn[i],
                    nn_old: cut(h.nn_old + ro[i], 2 * r),
                    rnn_new: Seq::empty(),
                    rnn_old: Seq::empty(),
                    ..h
                }
            },
    )
}

/// `after` is a renewal of `before`, whatever was drawn.
pub open spec fn renewal(before: Seq<Hood>, params: NndParams, after: Seq<Hood>) -> bool {
    let a = all_windowed(before, params.l as int, params.s as int);
    exists|new_picks: Seq<int>, old_picks: Seq<int>|
        {
            &&& #[trigger] picks_for(calls(a, before.len(), true), params.r as int, new_picks)
            &&& #[trigger] picks_for(calls(a, before.len(), false), params.r as int, old_picks)
            &&& after == renewed(before, params, new_picks, old_picks)
        }
}

// ---------------------------------------------------------------------------
// Windows
// ---------------------------------------------------------------------------

proof fn lemma_advanced(pool: Seq<Marked>, end: int, s: int, m: int, k: int)
    requires
        0 <= m <= k <= end,
        forall|j: nat| m <= j < k ==> #[trigger] marked_count(pool, j) < s,
        k == end || marked_count(pool, k as nat) >= s,
    ensures
        advanced(pool, end, s, m) == k,
    decreases k - m,
{
    if m < k {
        assert(marked_count(pool, m as nat) < s);
        lemma_advanced(pool, end, s, m + 1, k);
    }
}

/// Cuts the pool of a neighbourhood and moves its window on.
fn move_window(h: &mut Nhood, l: usize, s: usize)
    requires
        old(h).m <= old(h).pool@.len(),
    ensures
        final(h)@ == windowed(old(h)@, l as int, s as int),
        final(h).m <= final(h).pool@.len(),
{
    h.nn_new.clear();
    h.nn_old.clear();
    if h.pool.len() > l {
        h.pool.truncate(l);
        assert(h.pool@ =~= old(h).pool@.take(l as int));
    }
    let len: usize = h.pool.len();
    let end: usize = if h.m >= len || s > len - h.m {
        len
    } else {
        h.m + s
    };
    let ghost pool = h.pool@;
    let mut m: usize = 0;
    let mut count: usize = 0;
    while m < end && count < s
        invariant
            h.pool@ == pool,
            pool.len() == len,
            m <= end <= len,
            count == marked_count(pool, m as nat),
            count <= m,
            forall|j: nat| 0 <= j < m ==> #[trigger] marked_count(pool, j) < s,
        decreases end - m,
    {
        if h.pool[m].2 {
            count = count + 1;
        }
        m = m + 1;
    }
    proof {
        lemma_advanced(pool, end as int, s as int, 0, m as int);
    }
    h.m = m;
    assert(h@ =~= windowed(old(h)@, l as int, s as int));
}

proof fn lemma_window_bound(pool: Seq<Marked>, end: int, s: int, m: int)
    requires
        0 <= m <= end,
    ensures
        m <= advanced(pool, end, s, m) <= end,
    decreases end - m,
{
    if m < end && marked_count(pool, m as nat) < s {
        lemma_window_bound(pool, end, s, m + 1);
    }
}

/// Moves every window on.
fn move_windows(graph: &mut Vec<Nhood>, l: usize, s: usize)
    requires
        forall|i: int|
            0 <= i < old(graph)@.len() ==> (#[trigger] old(graph)@[i]).m <= old(
                graph,
            )@[i].pool@.len(),
    ensures
        hoods(final(graph)@) == all_windowed(hoods(old(graph)@), l as int, s as int),
        forall|i: int|
            0 <= i < final(graph)@.len() ==> {
                let h = #[trigger] final(graph)@[i];
                h.m <= h.pool@.len()
            },
{
    let n: usize = graph.len();
    let ghost graph0 = graph@;
    let mut i: usize = 0;
    while i < n
        invariant
            n == graph@.len(),
            n == graph0.len(),
            i <= n,
            forall|j: int| 0 <= j < n ==> (#[trigger] graph@[j]).m <= graph@[j].pool@.len(),
            forall|j: int|
                0 <= j < i ==> (#[trigger] graph@[j])@ == windowed(
                    graph0[j]@,
                    l as int,
                    s as int,
                ),
            forall|j: int| i <= j < n ==> (#[trigger] graph@[j]) == graph0[j],
        decreases n - i,
    {
        move_window(&mut graph[i], l, s);
        i = i + 1;
    }
    assert(hoods(graph@) =~= all_windowed(hoods(graph0), l as int, s as int));
}

// ---------------------------------------------------------------------------
// Sorting out the windows
// ---------------------------------------------------------------------------

/// What the neighbourhoods are after the first `x` nodes were sorted out.
spec fn sorted_up_to(hs: Seq<Hood>, x: int) -> Seq<Hood> {
    Seq::new(
        hs.len(),
        |i: int|
            if i < x {
                sorted_out(hs[i])
            } else {
                hs[i]
            },
    )
}

/// The neighbourhood `h` after the first `k` entries were sorted out.
spec fn partly_sorted(h: Hood, k: int) -> Hood {
    Hood {
        pool: settled_pool(h.pool, k),
        nn_new: marked_points(h.pool, k as nat, true),
        nn_old: marked_points(h.pool, k as nat, false),
        ..h
    }
}

/// Windows lie in the pools, pools hold nodes, and nothing is listed yet.
spec fn ready(hs: Seq<Hood>) -> bool {
    forall|i: int|
        0 <= i < hs.len() ==> {
            &&& 0 <= (#[trigger] hs[i]).m <= hs[i].pool.len()
            &&& hs[i].nn_new.len() == 0
            &&& hs[i].nn_old.len() == 0
            &&& forall|k: int| 0 <= k < hs[i].pool.len() ==> (#[trigger] hs[i].pool[k]).0 < hs.len()
        }
}

/// The distance of the farthest entry of node `y`.
fn worst_of(graph: &Vec<Nhood>, y: usize) -> (d: u32)
    requires
        y < graph@.len(),
    ensures
        d == worst(graph@[y as int].pool@),
{
    let len: usize = graph[y].pool.len();
    if len == 0 {
        u32::MAX
    } else {
        graph[y].pool[len - 1].1
    }
}

/// Sorts the window of every node out by marks, and collects the calls.
fn sort_windows(graph: &mut Vec<Nhood>) -> (r: (Vec<(usize, usize)>, Vec<(usize, usize)>))
    requires
        ready(hoods(old(graph)@)),
    ensures
        hoods(final(graph)@) == sorted_up_to(hoods(old(graph)@), old(graph)@.len() as int),
        r.0@ == calls(hoods(old(graph)@), old(graph)@.len(), true),
        r.1@ == calls(hoods(old(graph)@), old(graph)@.len(), false),
{
    let n: usize = graph.len();
    let ghost hs = hoods(graph@);
    let mut new_calls: Vec<(usize, usize)> = Vec::new();
    let mut old_calls: Vec<(usize, usize)> = Vec::new();
    assert(hs =~= sorted_up_to(hs, 0));
    let mut x: usize = 0;
    while x < n
        invariant
            n == graph@.len(),
            n == hs.len(),
            x <= n,
            ready(hs),
            hoods(graph@) == sorted_up_to(hs, x as int),
            new_calls@ == calls(hs, x as nat, true),
            old_calls@ == calls(hs, x as nat, false),
        decreases n - x,
    {
        let ghost h = hs[x as int];
        let ghost new0 = new_calls@;
        let ghost old0 = old_calls@;
        assert(hoods(graph@)[x as int] == h);
        assert(graph@[x as int]@ == h);
        let m: usize = graph[x].m;
        proof {
            assert(partly_sorted(h, 0) =~= h);
            assert(hoods(graph@) =~= sorted_up_to(hs, x as int).update(
                x as int,
                partly_sorted(h, 0),
            ));
            assert(new0 + node_calls(hs, x as int, 0, true) =~= new0);
            assert(old0 + node_calls(hs, x as int, 0, false) =~= old0);
        }
        let mut k: usize = 0;
        while k < m
            invariant
                n == graph@.len(),
                n == hs.len(),
                x < n,
                ready(hs),
                h == hs[x as int],
                m == h.m,
                k <= m,
                hoods(graph@) == sorted_up_to(hs, x as int).update(
                    x as int,
                    partly_sorted(h, k as int),
                ),
                new_calls@ == new0 + node_calls(hs, x as int, k as nat, true),
                old_calls@ == old0 + node_calls(hs, x as int, k as nat, false),
            decreases m - k,
        {
            let ghost now = hoods(graph@);
            assert(now[x as int] == partly_sorted(h, k as int));
            assert(graph@[x as int]@ == partly_sorted(h, k as int));
            assert(graph@[x as int].pool@ == settled_pool(h.pool, k as int));
            let (y, d, mark) = graph[x].pool[k];
            assert((y, d, mark) == h.pool[k as int]);
            assert(h.pool[k as int].0 < n);
            let far: u32 = worst_of(graph, y);
            proof {
                assert(now[y as int] == graph@[y as int]@);
                assert(far == worst(hs[y as int].pool)) by {
                    if y == x {
                        assert(settled_pool(h.pool, k as int).last().1 == h.pool.last().1);
                    } else if y < x {
                        assert(now[y as int] == sorted_out(hs[y as int]));
                        if hs[y as int].pool.len() > 0 {
                            assert(settled_pool(hs[y as int].pool, hs[y as int].m).last().1
                                == hs[y as int].pool.last().1);
                        }
                    }
                }
            }
            if mark {
                graph[x].nn_new.push(y);
                graph[x].pool.set(k, (y, d, false));
                if d > far {
                    new_calls.push((y, x));
                }
            } else {
                graph[x].nn_old.push(y);
                if d > far {
                    old_calls.push((y, x));
                }
            }
            proof {
                let then = hoods(graph@);
                assert(graph@[x as int].pool@ =~= settled_pool(h.pool, k + 1));
                assert(graph@[x as int]@ =~= partly_sorted(h, k + 1));
                assert(then =~= sorted_up_to(hs, x as int).update(
                    x as int,
                    partly_sorted(h, k + 1),
                )) by {
                    assert forall|i: int| 0 <= i < n && i != x implies #[trigger] then[i] == now[i] by {}
                }
                assert(new_calls@ =~= new0 + node_calls(hs, x as int, (k + 1) as nat, true));
                assert(old_calls@ =~= old0 + node_calls(hs, x as int, (k + 1) as nat, false));
            }
            k = k + 1;
        }
        proof {
            assert(partly_sorted(h, m as int) == sorted_out(h));
            assert(hoods(graph@) =~= sorted_up_to(hs, x + 1));
        }
        x = x + 1;
    }
    (new_calls, old_calls)
}

// ---------------------------------------------------------------------------
// Keeping the calls
// ---------------------------------------------------------------------------

/// Puts `x` to a list of at most `r`: behind the others, or in a random place of
/// a full list. Returns the place.
pub fn put_random(list: &mut Vec<usize>, r: usize, x: usize, rng: &mut StdRng) -> (pick: usize)
    requires
        old(list)@.len() <= r,
    ensures
        r > 0 ==> pick < r,
        final(list)@ == put(old(list)@, r as int, x, pick as int),
        final(list)@.len() <= r,
{
    if list.len() < r {
        list.push(x);
        0
    } else if r > 0 {
        let pick: usize = random_index(rng, r);
        list.set(pick, x);
        pick
    } else {
        0
    }
}

/// The reverse lists of the neighbourhoods: the new ones or the old ones.
spec fn reverse_lists(hs: Seq<Hood>, mark: bool) -> Seq<Seq<usize>> {
    Seq::new(
        hs.len(),
        |i: int|
            if mark {
                hs[i].rnn_new
            } else {
                hs[i].rnn_old
            },
    )
}

/// The neighbourhoods with other reverse lists.
spec fn with_reverse(hs: Seq<Hood>, mark: bool, lists: Seq<Seq<usize>>) -> Seq<Hood> {
    Seq::new(
        hs.len(),
        |i: int|
            if mark {
                Hood { rnn_new: lists[i], ..hs[i] }
            } else {
                Hood { rnn_old: lists[i], ..hs[i] }
            },
    )
}

proof fn lemma_kept_len(
    lists: Seq<Seq<usize>>,
    called: Seq<(usize, usize)>,
    r: int,
    picks: Seq<int>,
    n: int,
)
    requires
        lists.len() == n,
        0 <= r,
        forall|i: int| 0 <= i < called.len() ==> (#[trigger] called[i]).0 < n && called[i].1 < n,
        forall|i: int| 0 <= i < n ==> (#[trigger] lists[i]).len() <= r && below(lists[i], n),
        picks_for(called, r, picks),
    ensures
        kept(lists, called, r, picks).len() == n,
        forall|i: int|
            0 <= i < n ==> (#[trigger] kept(lists, called, r, picks)[i]).len() <= r && below(
                kept(lists, called, r, picks)[i],
                n,
            ),
    decreases called.len(),
{
    if called.len() > 0 {
        let c = called.drop_last();
        let last = called[called.len() - 1];
        assert(last == called.last());
        let t = picks.drop_last();
        assert(picks_for(c, r, t)) by {
            assert forall|i: int| 0 <= i < t.len() implies 0 <= (#[trigger] t[i]) && (r > 0 ==> t[i]
                < r) by {
                assert(t[i] == picks[i]);
            }
        }
        assert forall|i: int| 0 <= i < c.len() implies (#[trigger] c[i]).0 < n && c[i].1 < n by {
            assert(c[i] == called[i]);
        }
        lemma_kept_len(lists, c, r, t, n);
        lemma_kept_picks(lists, c, r, t, picks);
        let before = kept(lists, c, r, picks);
        let after = kept(lists, called, r, picks);
        let pick = picks[called.len() - 1];
        assert forall|i: int| 0 <= i < n implies (#[trigger] after[i]).len() <= r && below(
            after[i],
            n,
        ) by {
            assert(before[i].len() <= r && below(before[i], n));
            if i == last.0 {
                let old_list = before[i];
                assert(after[i] == put(old_list, r, last.1, pick));
                assert forall|k: int| 0 <= k < after[i].len() implies (#[trigger] after[i][k])
                    < n by {
                    if k < old_list.len() {
                        assert(old_list[k] < n);
                    }
                }
            }
        }
    }
}

/// Only the picks of the calls matter.
proof fn lemma_kept_picks(
    lists: Seq<Seq<usize>>,
    called: Seq<(usize, usize)>,
    r: int,
    a: Seq<int>,
    b: Seq<int>,
)
    requires
        called.len() <= a.len(),
        called.len() <= b.len(),
        forall|i: int| 0 <= i < called.len() ==> #[trigger] a[i] == b[i],
    ensures
        kept(lists, called, r, a) == kept(lists, called, r, b),
    decreases called.len(),
{
    if called.len() > 0 {
        lemma_kept_picks(lists, called.drop_last(), r, a, b);
    }
}

/// Puts every call to the reverse list of its first node: to the new ones where
/// `mark` is set, else to the old ones.
#[verifier::rlimit(30)]
fn keep_calls(
    graph: &mut Vec<Nhood>,
    called: &Vec<(usize, usize)>,
    r: usize,
    mark: bool,
    rng: &mut StdRng,
) -> (picks: Ghost<Seq<int>>)
    requires
        forall|i: int|
            0 <= i < called@.len() ==> (#[trigger] called@[i]).0 < old(graph)@.len() && called@[i].1
                < old(graph)@.len(),
        forall|i: int|
            0 <= i < old(graph)@.len() ==> (#[trigger] reverse_lists(
                hoods(old(graph)@),
                mark,
            )[i]).len() == 0,
    ensures
        picks_for(called@, r as int, picks@),
        hoods(final(graph)@) == with_reverse(
            hoods(old(graph)@),
            mark,
            kept(no_lists(old(graph)@.len()), called@, r as int, picks@),
        ),
{
    let n: usize = graph.len();
    let ghost hs = hoods(graph@);
    let ghost none = no_lists(n as nat);
    let ghost mut picks: Seq<int> = Seq::empty();
    proof {
        assert(called@.take(0) =~= Seq::<(usize, usize)>::empty());
        assert(hs =~= with_reverse(hs, mark, none)) by {
            assert forall|i: int| 0 <= i < n implies #[trigger] hs[i] == with_reverse(
                hs,
                mark,
                none,
            )[i] by {
                assert(reverse_lists(hs, mark)[i].len() == 0);
                assert(reverse_lists(hs, mark)[i] =~= none[i]);
            }
        }
    }
    let mut i: usize = 0;
    while i < called.len()
        invariant
            n == graph@.len(),
            n == hs.len(),
            none == no_lists(n as nat),
            i <= called@.len(),
            forall|k: int|
                0 <= k < called@.len() ==> (#[trigger] called@[k]).0 < n && called@[k].1 < n,
            picks_for(called@.take(i as int), r as int, picks),
            hoods(graph@) == with_reverse(
                hs,
                mark,
                kept(none, called@.take(i as int), r as int, picks),
            ),
        decreases called@.len() - i,
    {
        let ghost now = hoods(graph@);
        let ghost done = called@.take(i as int);
        let ghost lists = kept(none, done, r as int, picks);
        let (target, source) = called[i];
        proof {
            assert(called@[i as int].0 < n);
            assert forall|k: int| 0 <= k < done.len() implies (#[trigger] done[k]).0 < n
                && done[k].1 < n by {
                assert(done[k] == called@[k]);
            }
            lemma_kept_len(none, done, r as int, picks, n as int);
            assert(now[target as int] == graph@[target as int]@);
            assert(lists[target as int].len() <= r);
        }
        let pick: usize = if mark {
            put_random(&mut graph[target].rnn_new, r, source, rng)
        } else {
            put_random(&mut graph[target].rnn_old, r, source, rng)
        };
        proof {
            let more = called@.take(i + 1);
            let picks2 = picks.push(pick as int);
            assert(more.drop_last() =~= done);
            assert(more.last() == (target, source));
            lemma_kept_picks(none, done, r as int, picks, picks2);
            let lists2 = kept(none, more, r as int, picks2);
            assert(lists2 == lists.update(
                target as int,
                put(lists[target as int], r as int, source, pick as int),
            ));
            assert(hoods(graph@) =~= with_reverse(hs, mark, lists2)) by {
                assert forall|k: int| 0 <= k < n implies #[trigger] hoods(graph@)[k]
                    == with_reverse(hs, mark, lists2)[k] by {
                    if k != target {
                        assert(hoods(graph@)[k] == now[k]);
                        assert(lists2[k] == lists[k]);
                    }
                }
            }
            assert(picks_for(more, r as int, picks2)) by {
                assert forall|k: int| 0 <= k < picks2.len() implies 0 <= (#[trigger] picks2[k]) && (r
                    > 0 ==> picks2[k] < r) by {
                    if k < picks.len() {
                        assert(picks2[k] == picks[k]);
                    }
                }
            }
            picks = picks2;
        }
        i = i + 1;
    }
    assert(called@.take(called@.len() as int) =~= called@);
    Ghost(picks)
}

/// Cuts a list to `r` random items of it; a list that is no longer stays as it
/// is.
pub fn trim_random(list: &mut Vec<usize>, r: usize, rng: &mut StdRng)
    ensures
        old(list)@.len() <= r ==> final(list)@ == old(list)@,
        old(list)@.len() > r ==> exists|order: Seq<usize>| #[trigger]
            same_items(old(list)@, order) && final(list)@ == order.take(r as int),
{
    if list.len() > r {
        let ghost list0 = list@;
        let len: usize = list.len();
        let mut i: usize = 0;
        while i < r
            invariant
                i <= r < len,
                list@.len() == len,
                same_items(list0, list@),
            decreases r - i,
        {
            let step: usize = random_index(rng, len - i);
            let j: usize = i + step;
            let a: usize = list[i];
            let b: usize = list[j];
            let ghost before = list@;
            list.set(i, b);
            list.set(j, a);
            proof {
                lemma_swap_same(before, i as int, j as int);
            }
            i = i + 1;
        }
        let ghost order = list@;
        list.truncate(r);
        assert(list@ =~= order.take(r as int));
    }
}

/// Exchanging two items only reorders a list.
pub proof fn lemma_swap_same<T>(s: Seq<T>, i: int, j: int)
    requires
        0 <= i < s.len(),
        0 <= j < s.len(),
    ensures
        same_items(s, s.update(i, s[j]).update(j, s[i])),
{
    let t = s.update(i, s[j]).update(j, s[i]);
    if i == j {
        assert(t =~= s);
    } else {
        s.to_multiset_ensures();
        t.to_multiset_ensures();
        let mid = s.update(i, s[j]);
        lemma_update_multiset(s, i, s[j]);
        lemma_update_multiset(mid, j, s[i]);
        assert(mid[j] == s[j]);
        assert(s.contains(s[i]));
        assert(t.to_multiset() =~= s.to_multiset());
    }
}

proof fn lemma_update_multiset<T>(s: Seq<T>, i: int, x: T)
    requires
        0 <= i < s.len(),
    ensures
        s.update(i, x).to_multiset() =~= s.to_multiset().remove(s[i]).insert(x),
{
    let t = s.update(i, x);
    s.to_multiset_ensures();
    t.to_multiset_ensures();
    assert(t[i] == x);
    assert(t.remove(i) =~= s.remove(i));
    assert(t.remove(i).to_multiset() =~= t.to_multiset().remove(t[i]));
    assert(s.remove(i).to_multiset() =~= s.to_multiset().remove(s[i]));
    assert(t.contains(t[i]));
    assert(t.to_multiset() =~= t.to_multiset().remove(x).insert(x));
}

// ---------------------------------------------------------------------------
// The renewal
// ---------------------------------------------------------------------------

/// Moves the reverse lists of a neighbourhood to its lists of candidates.
fn merge(h: &mut Nhood, r: usize, rng: &mut StdRng)
    requires
        old(h).rnn_new@.len() <= r,
        old(h).rnn_old@.len() <= r,
    ensures
        final(h)@ == (Hood {
            nn_new: old(h)@.nn_new + old(h)@.rnn_new,
            nn_old: cut(old(h)@.nn_old + old(h)@.rnn_old, 2 * r),
            rnn_new: Seq::empty(),
            rnn_old: Seq::empty(),
            ..old(h)@
        }),
{
    trim_random(&mut h.rnn_new, r, rng);
    h.nn_new.append(&mut h.rnn_new);
    trim_random(&mut h.rnn_old, r, rng);
    h.nn_old.append(&mut h.rnn_old);
    let len: usize = h.nn_old.len();
    if r <= usize::MAX / 2 {
        let most: usize = r * 2;
        if len > most {
            h.nn_old.truncate(most);
        }
    }
    proof {
        let h0 = old(h)@;
        assert(h@.nn_new =~= h0.nn_new + h0.rnn_new);
        assert(h@.nn_old =~= cut(h0.nn_old + h0.rnn_old, 2 * r));
        assert(h@.rnn_new =~= Seq::<usize>::empty());
        assert(h@.rnn_old =~= Seq::<usize>::empty());
    }
}

proof fn lemma_calls_below(hs: Seq<Hood>, x: nat, mark: bool)
    requires
        ready(hs),
        hs.len() <= usize::MAX,
        x <= hs.len(),
    ensures
        forall|i: int|
            0 <= i < calls(hs, x, mark).len() ==> (#[trigger] calls(hs, x, mark)[i]).0 < hs.len()
                && calls(hs, x, mark)[i].1 < hs.len(),
    decreases x,
{
    if x > 0 {
        lemma_calls_below(hs, (x - 1) as nat, mark);
        let h = hs[x - 1];
        lemma_node_calls_below(hs, x - 1, h.m as nat, mark);
        let a = calls(hs, (x - 1) as nat, mark);
        let b = node_calls(hs, x - 1, h.m as nat, mark);
        let c = calls(hs, x, mark);
        assert forall|i: int| 0 <= i < c.len() implies (#[trigger] c[i]).0 < hs.len() && c[i].1
            < hs.len() by {
            if i < a.len() {
                assert(c[i] == a[i]);
            } else {
                assert(c[i] == b[i - a.len()]);
            }
        }
    }
}

proof fn lemma_node_calls_below(hs: Seq<Hood>, x: int, k: nat, mark: bool)
    requires
        ready(hs),
        hs.len() <= usize::MAX,
        0 <= x < hs.len(),
        k <= hs[x].m,
    ensures
        forall|i: int|
            0 <= i < node_calls(hs, x, k, mark).len() ==> (#[trigger] node_calls(
                hs,
                x,
                k,
                mark,
            )[i]).0 < hs.len() && node_calls(hs, x, k, mark)[i].1 < hs.len(),
    decreases k,
{
    if k > 0 {
        let before = node_calls(hs, x, (k - 1) as nat, mark);
        let now = node_calls(hs, x, k, mark);
        lemma_node_calls_below(hs, x, (k - 1) as nat, mark);
        assert(hs[x].m <= hs[x].pool.len());
        assert(hs[x].pool[k - 1].0 < hs.len());
        assert forall|i: int| 0 <= i < now.len() implies (#[trigger] now[i]).0 < hs.len()
            && now[i].1 < hs.len() by {
            if i < before.len() {
                assert(now[i] == before[i]);
            }
        }
    }
}

proof fn lemma_marked_points_below(pool: Seq<Marked>, k: nat, mark: bool, n: int)
    requires
        k <= pool.len(),
        forall|i: int| 0 <= i < pool.len() ==> (#[trigger] pool[i]).0 < n,
    ensures
        below(marked_points(pool, k, mark), n),
    decreases k,
{
    if k > 0 {
        lemma_marked_points_below(pool, (k - 1) as nat, mark, n);
    }
}

/// A renewal keeps the neighbourhoods sound, whatever was drawn.
pub proof fn lemma_renewed_sound<D: DistanceAlgorithm<ID>, ID>(
    features: Seq<ID>,
    hs: Seq<Hood>,
    params: NndParams,
    new_picks: Seq<int>,
    old_picks: Seq<int>,
)
    requires
        sound_hoods::<D, ID>(features, hs),
        features.len() <= usize::MAX,
        picks_for(
            calls(all_windowed(hs, params.l as int, params.s as int), hs.len(), true),
            params.r as int,
            new_picks,
        ),
        picks_for(
            calls(all_windowed(hs, params.l as int, params.s as int), hs.len(), false),
            params.r as int,
            old_picks,
        ),
    ensures
        sound_hoods::<D, ID>(features, renewed(hs, params, new_picks, old_picks)),
{
    let a = all_windowed(hs, params.l as int, params.s as int);
    let n = hs.len();
    let r = params.r as int;
    let after = renewed(hs, params, new_picks, old_picks);
    lemma_windowed_ready::<D, ID>(features, hs, params.l as int, params.s as int);
    lemma_calls_below(a, n, true);
    lemma_calls_below(a, n, false);
    lemma_kept_len(no_lists(n), calls(a, n, true), r, new_picks, n as int);
    lemma_kept_len(no_lists(n), calls(a, n, false), r, old_picks, n as int);
    let rn = kept(no_lists(n), calls(a, n, true), r, new_picks);
    let ro = kept(no_lists(n), calls(a, n, false), r, old_picks);
    assert forall|x: int| 0 <= x < n implies sound_hood::<D, ID>(
        features,
        x,
        #[trigger] after[x],
    ) by {
        let h = a[x];
        assert(sound_hood::<D, ID>(features, x, hs[x]));
        assert(sound_entries::<D, ID>(features, x, unmarked(h.pool))) by {
            if hs[x].pool.len() > params.l {
                assert(unmarked(h.pool) =~= unmarked(hs[x].pool).take(params.l as int));
                lemma_shorter_sound::<D, ID>(
                    features,
                    x,
                    unmarked(hs[x].pool),
                    params.l as int,
                );
            }
        }
        assert(unmarked(after[x].pool) =~= unmarked(h.pool));
        lemma_marked_points_below(h.pool, h.m as nat, true, n as int);
        lemma_marked_points_below(h.pool, h.m as nat, false, n as int);
        assert(below(rn[x], n as int));
        assert(below(ro[x], n as int));
        let nn = marked_points(h.pool, h.m as nat, true);
        let no = marked_points(h.pool, h.m as nat, false);
        assert forall|k: int| 0 <= k < after[x].nn_new.len() implies (#[trigger] after[x].nn_new[k])
            < n by {
            if k < nn.len() {
                assert(after[x].nn_new[k] == nn[k]);
            } else {
                assert(after[x].nn_new[k] == rn[x][k - nn.len()]);
            }
        }
        assert forall|k: int| 0 <= k < after[x].nn_old.len() implies (#[trigger] after[x].nn_old[k])
            < n by {
            if k < no.len() {
                assert(after[x].nn_old[k] == no[k]);
            } else {
                assert(after[x].nn_old[k] == ro[x][k - no.len()]);
            }
        }
    }
}

proof fn lemma_windowed_ready<D: DistanceAlgorithm<ID>, ID>(
    features: Seq<ID>,
    hs: Seq<Hood>,
    l: int,
    s: int,
)
    requires
        sound_hoods::<D, ID>(features, hs),
        l >= 0,
        s >= 0,
    ensures
        ready(all_windowed(hs, l, s)),
{
    let a = all_windowed(hs, l, s);
    assert forall|i: int| 0 <= i < a.len() implies ({
        &&& 0 <= (#[trigger] a[i]).m <= a[i].pool.len()
        &&& a[i].nn_new.len() == 0
        &&& a[i].nn_old.len() == 0
        &&& forall|k: int| 0 <= k < a[i].pool.len() ==> (#[trigger] a[i].pool[k]).0 < a.len()
    }) by {
        assert(sound_hood::<D, ID>(features, i, hs[i]));
        let pool = cut(hs[i].pool, l);
        let end = if hs[i].m + s < pool.len() {
            hs[i].m + s
        } else {
            pool.len() as int
        };
        lemma_window_bound(pool, end, s, 0);
        assert forall|k: int| 0 <= k < a[i].pool.len() implies (#[trigger] a[i].pool[k]).0
            < a.len() by {
            assert(unmarked(hs[i].pool)[k].0 < features.len());
            assert(a[i].pool[k] == hs[i].pool[k]);
        }
    }
}

/// Prepares the next round: every node compares the nearest candidates of its
/// pool, and the nodes for which it is a promising candidate.
pub fn renew_hoods<D: DistanceAlgorithm<ID>, ID>(
    features: &[ID],
    graph: &mut Vec<Nhood>,
    params: NndParams,
    rng: &mut StdRng,
)
    requires
        sound_hoods::<D, ID>(features@, hoods(old(graph)@)),
    ensures
        sound_hoods::<D, ID>(features@, hoods(final(graph)@)),
        renewal(hoods(old(graph)@), params, hoods(final(graph)@)),
{
    let n: usize = graph.len();
    let ghost hs = hoods(graph@);
    let ghost a = all_windowed(hs, params.l as int, params.s as int);
    assert forall|i: int| 0 <= i < graph@.len() implies (#[trigger] graph@[i]).m
        <= graph@[i].pool@.len() by {
        assert(sound_hood::<D, ID>(features@, i, hs[i]));
    }
    move_windows(graph, params.l, params.s);
    proof {
        lemma_windowed_ready::<D, ID>(features@, hs, params.l as int, params.s as int);
        lemma_calls_below(a, n as nat, true);
        lemma_calls_below(a, n as nat, false);
        assert(graph@.len() == hoods(graph@).len());
    }
    let (new_calls, old_calls) = sort_windows(graph);
    let ghost b = hoods(graph@);
    proof {
        assert(graph@.len() == b.len());
        assert forall|i: int| 0 <= i < graph@.len() implies (#[trigger] reverse_lists(
            b,
            true,
        )[i]).len() == 0 by {
            assert(sound_hood::<D, ID>(features@, i, hs[i]));
        }
    }
    let new_picks = keep_calls(graph, &new_calls, params.r, true, rng);
    let ghost c = hoods(graph@);
    proof {
        assert(graph@.len() == c.len());
        assert forall|i: int| 0 <= i < graph@.len() implies (#[trigger] reverse_lists(
            c,
            false,
        )[i]).len() == 0 by {
            assert(sound_hood::<D, ID>(features@, i, hs[i]));
        }
    }
    let old_picks = keep_calls(graph, &old_calls, params.r, false, rng);
    let ghost d = hoods(graph@);
    let ghost rn = kept(no_lists(n as nat), calls(a, n as nat, true), params.r as int, new_picks@);
    let ghost ro = kept(no_lists(n as nat), calls(a, n as nat, false), params.r as int, old_picks@);
    let ghost graph1 = graph@;
    proof {
        lemma_kept_len(
            no_lists(n as nat),
            calls(a, n as nat, true),
            params.r as int,
            new_picks@,
            n as int,
        );
        lemma_kept_len(
            no_lists(n as nat),
            calls(a, n as nat, false),
            params.r as int,
            old_picks@,
            n as int,
        );
        assert(graph1.len() == d.len());
        assert forall|i: int| 0 <= i < n implies ({
            &&& (#[trigger] graph1[i]).rnn_new@ == rn[i]
            &&& graph1[i].rnn_old@ == ro[i]
            &&& graph1[i].rnn_new@.len() <= params.r
            &&& graph1[i].rnn_old@.len() <= params.r
        }) by {
            assert(d[i] == graph1[i]@);
        }
    }
    let mut i: usize = 0;
    while i < n
        invariant
            n == graph@.len(),
            n == graph1.len(),
            i <= n,
            forall|j: int|
                0 <= j < n ==> (#[trigger] graph1[j]).rnn_new@.len() <= params.r
                    && graph1[j].rnn_old@.len() <= params.r,
            forall|j: int| i <= j < n ==> (#[trigger] graph@[j]) == graph1[j],
            forall|j: int|
                0 <= j < i ==> (#[trigger] graph@[j])@ == (Hood {
                    nn_new: graph1[j]@.nn_new + graph1[j]@.rnn_new,
                    nn_old: cut(graph1[j]@.nn_old + graph1[j]@.rnn_old, 2 * params.r),
                    rnn_new: Seq::empty(),
                    rnn_old: Seq::empty(),
                    ..graph1[j]@
                }),
        decreases n - i,
    {
        assert(graph@[i as int] == graph1[i as int]);
        merge(&mut graph[i], params.r, rng);
        i = i + 1;
    }
    proof {
        let after = renewed(hs, params, new_picks@, old_picks@);
        assert(hoods(graph@) =~= after) by {
            assert forall|j: int| 0 <= j < n implies #[trigger] hoods(graph@)[j] == after[j] by {
                assert(d[j] == graph1[j]@);
                assert(graph@[j]@ =~= after[j]);
            }
        }
        assert(picks_for(calls(a, hs.len(), true), params.r as int, new_picks@));
        assert(picks_for(calls(a, hs.len(), false), params.r as int, old_picks@));
        lemma_renewed_sound::<D, ID>(features@, hs, params, new_picks@, old_picks@);
    }
}

} // verus!
