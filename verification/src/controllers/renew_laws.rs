//! What a renewal is for: which candidates are compared in the next round.

use crate::controllers::neighborhood::{Hood, NndParams};
use crate::controllers::renew::{
    advanced, all_windowed, calls, cut, kept, marked_count, marked_points, no_lists, node_calls,
    picks_for, renewal, renewed, window, worst,
};
use crate::order::Marked;
use vstd::prelude::*;

verus! {

// ---------------------------------------------------------------------------
// Windows
// ---------------------------------------------------------------------------

/// Counting is filtering.
proof fn lemma_marked_filter(pool: Seq<Marked>, k: nat, mark: bool)
    requires
        k <= pool.len(),
    ensures
        marked_points(pool, k, mark).len() == pool.take(k as int).filter(
            |e: Marked| e.2 == mark,
        ).len(),
        mark ==> marked_count(pool, k) == pool.take(k as int).filter(
            |e: Marked| e.2 == mark,
        ).len(),
    decreases k,
{
    let keep = |e: Marked| e.2 == mark;
    reveal(Seq::filter);
    if k == 0 {
        assert(pool.take(0).filter(keep).len() == 0);
    } else {
        lemma_marked_filter(pool, (k - 1) as nat, mark);
        assert(pool.take(k as int).drop_last() =~= pool.take(k - 1));
        assert(pool.take(k as int).last() == pool[k - 1]);
    }
}

/// The points of a mark are those of the entries that carry it.
proof fn lemma_marked_points_of(pool: Seq<Marked>, k: nat, mark: bool, x: usize)
    requires
        k <= pool.len(),
    ensures
        marked_points(pool, k, mark).contains(x) <==> exists|i: int|
            0 <= i < k && (#[trigger] pool[i]).0 == x && pool[i].2 == mark,
    decreases k,
{
    if k > 0 {
        let before = marked_points(pool, (k - 1) as nat, mark);
        let now = marked_points(pool, k, mark);
        lemma_marked_points_of(pool, (k - 1) as nat, mark, x);
        if now.contains(x) {
            let j = choose|j: int| 0 <= j < now.len() && now[j] == x;
            if j < before.len() {
                assert(before[j] == x);
            } else {
                assert(pool[k - 1].0 == x && pool[k - 1].2 == mark);
            }
        }
        if exists|i: int| 0 <= i < k && (#[trigger] pool[i]).0 == x && pool[i].2 == mark {
            let i = choose|i: int| 0 <= i < k && (#[trigger] pool[i]).0 == x && pool[i].2 == mark;
            if i < k - 1 {
                let j = choose|j: int| 0 <= j < before.len() && before[j] == x;
                assert(now[j] == x);
            } else {
                assert(now[now.len() - 1] == x);
            }
        }
    }
}

/// Where an advance stops.
proof fn lemma_advanced_stops(pool: Seq<Marked>, end: int, s: int, m: int)
    requires
        0 <= m <= end,
        s >= 0,
        m > 0 ==> marked_count(pool, (m - 1) as nat) < s,
    ensures
        ({
            let w = advanced(pool, end, s, m);
            &&& m <= w <= end
            &&& w < end ==> marked_count(pool, w as nat) >= s
            &&& w > 0 ==> marked_count(pool, (w - 1) as nat) < s
        }),
    decreases end - m,
{
    if m < end && marked_count(pool, m as nat) < s {
        lemma_advanced_stops(pool, end, s, m + 1);
    }
}

/// What a renewal does to a node: its pool is cut to `l` entries and stays as it
/// was but for the marks. From the nearest on, entries are looked at until `s` of
/// them are marked, no more than `s` beyond those that were looked at before. A mark
/// is taken off where it is looked at, and nowhere else. A marked entry that is
/// looked at is compared as a new candidate, any other as an old one, unless there
/// are twice `r` of these. In all there are no more than `s` and `r` new candidates.
pub proof fn lemma_renewal_looks(
    before: Seq<Hood>,
    params: NndParams,
    after: Seq<Hood>,
    x: int,
)
    requires
        renewal(before, params, after),
        before.len() <= usize::MAX,
        forall|y: int, i: int|
            0 <= y < before.len() && 0 <= i < before[y].pool.len() ==> (
            #[trigger] before[y].pool[i]).0 < before.len(),
        forall|y: int| 0 <= y < before.len() ==> 0 <= (#[trigger] before[y]).m,
        0 <= x < before.len(),
    ensures
        after.len() == before.len(),
        ({
            let p = before[x].pool;
            let q = after[x].pool;
            let m = after[x].m;
            let taken = p.take(m).filter(|e: Marked| e.2 == true).len();
            &&& q.len() == if p.len() <= params.l {
                p.len() as int
            } else {
                params.l as int
            }
            &&& 0 <= m <= q.len()
            &&& m <= before[x].m + params.s
            &&& taken <= params.s
            &&& taken == params.s || m == q.len() || m == before[x].m + params.s
            &&& m > 0 ==> p.take(m - 1).filter(|e: Marked| e.2 == true).len() < params.s
            &&& forall|i: int|
                0 <= i < q.len() ==> {
                    &&& (#[trigger] q[i]).0 == p[i].0
                    &&& q[i].1 == p[i].1
                    &&& q[i].2 == (p[i].2 && i >= m)
                }
            &&& forall|i: int|
                0 <= i < m && (#[trigger] p[i]).2 ==> after[x].nn_new.contains(p[i].0)
            &&& forall|i: int|
                0 <= i < m && !(#[trigger] p[i]).2 ==> after[x].nn_old.contains(p[i].0)
                    || after[x].nn_old.len() == 2 * params.r
            &&& taken <= after[x].nn_new.len() <= taken + params.r
            &&& after[x].nn_old.len() <= 2 * params.r
            &&& after[x].rnn_new.len() == 0
            &&& after[x].rnn_old.len() == 0
        }),
{
    let (np, op) = lemma_renewal_picks(before, params, after);
    lemma_renewal_window(before, params, x);
    let a = all_windowed(before, params.l as int, params.s as int);
    let p = before[x].pool;
    let c = a[x].pool;
    let m = a[x].m;
    let r = params.r as int;
    let rn = kept(no_lists(before.len()), calls(a, before.len(), true), r, np);
    let ro = kept(no_lists(before.len()), calls(a, before.len(), false), r, op);
    lemma_renewal_lists(before, params, np, true);
    lemma_renewal_lists(before, params, op, false);
    assert(after[x].m == m);
    assert(c.take(m) =~= p.take(m));
    lemma_marked_filter(c, m as nat, true);
    let own_new = marked_points(c, m as nat, true);
    let own_old = marked_points(c, m as nat, false);
    assert(after[x].nn_new == own_new + rn[x]);
    assert(after[x].nn_old == cut(own_old + ro[x], 2 * r));
    assert forall|i: int| 0 <= i < m && (#[trigger] p[i]).2 implies after[x].nn_new.contains(
        p[i].0,
    ) by {
        lemma_marked_points_of(c, m as nat, true, p[i].0);
        assert(c[i] == p[i]);
        let j = choose|j: int| 0 <= j < own_new.len() && own_new[j] == p[i].0;
        assert(after[x].nn_new[j] == p[i].0);
    }
    assert forall|i: int| 0 <= i < m && !(#[trigger] p[i]).2 implies after[x].nn_old.contains(
        p[i].0,
    ) || after[x].nn_old.len() == 2 * params.r by {
        lemma_marked_points_of(c, m as nat, false, p[i].0);
        assert(c[i] == p[i]);
        let j = choose|j: int| 0 <= j < own_old.len() && own_old[j] == p[i].0;
        if (own_old + ro[x]).len() <= 2 * r {
            assert(after[x].nn_old[j] == p[i].0);
        }
    }
}

/// The draws of a renewal.
proof fn lemma_renewal_picks(before: Seq<Hood>, params: NndParams, after: Seq<Hood>) -> (w: (
    Seq<int>,
    Seq<int>,
))
    requires
        renewal(before, params, after),
    ensures
        ({
            let a = all_windowed(before, params.l as int, params.s as int);
            &&& picks_for(calls(a, before.len(), true), params.r as int, w.0)
            &&& picks_for(calls(a, before.len(), false), params.r as int, w.1)
            &&& after == renewed(before, params, w.0, w.1)
        }),
{
    let a = all_windowed(before, params.l as int, params.s as int);
    choose|new_picks: Seq<int>, old_picks: Seq<int>|
        {
            &&& #[trigger] picks_for(calls(a, before.len(), true), params.r as int, new_picks)
            &&& #[trigger] picks_for(calls(a, before.len(), false), params.r as int, old_picks)
            &&& after == renewed(before, params, new_picks, old_picks)
        }
}

/// The window of a node.
proof fn lemma_renewal_window(before: Seq<Hood>, params: NndParams, x: int)
    requires
        0 <= x < before.len(),
        0 <= before[x].m,
    ensures
        ({
            let a = all_windowed(before, params.l as int, params.s as int);
            let p = before[x].pool;
            let c = a[x].pool;
            let m = a[x].m;
            &&& c == cut(p, params.l as int)
            &&& 0 <= m <= c.len()
            &&& m <= before[x].m + params.s
            &&& p.take(m).filter(|e: Marked| e.2 == true).len() <= params.s
            &&& p.take(m).filter(|e: Marked| e.2 == true).len() == params.s || m == c.len() || m
                == before[x].m + params.s
            &&& m > 0 ==> p.take(m - 1).filter(|e: Marked| e.2 == true).len() < params.s
        }),
{
    let a = all_windowed(before, params.l as int, params.s as int);
    let p = before[x].pool;
    let c = a[x].pool;
    let m = a[x].m;
    let s = params.s as int;
    let end = if before[x].m + s < c.len() {
        before[x].m + s
    } else {
        c.len() as int
    };
    assert(m == window(c, before[x].m, s));
    lemma_advanced_stops(c, end, s, 0);
    lemma_marked_filter(c, m as nat, true);
    assert(c.take(m) =~= p.take(m));
    if m > 0 {
        lemma_marked_filter(c, (m - 1) as nat, true);
        assert(c.take(m - 1) =~= p.take(m - 1));
    }
}

// ---------------------------------------------------------------------------
// Calls
// ---------------------------------------------------------------------------

/// A call comes of an entry that is looked at, and every such entry calls.
proof fn lemma_node_calls_of(hs: Seq<Hood>, x: int, k: nat, mark: bool, y: usize, z: usize)
    ensures
        node_calls(hs, x, k, mark).contains((y, z)) <==> z == x as usize && exists|i: int|
            0 <= i < k && (#[trigger] hs[x].pool[i]).0 == y && hs[x].pool[i].2 == mark
                && hs[x].pool[i].1 > worst(hs[y as int].pool),
    decreases k,
{
    if k > 0 {
        lemma_node_calls_of(hs, x, (k - 1) as nat, mark, y, z);
        let before = node_calls(hs, x, (k - 1) as nat, mark);
        let now = node_calls(hs, x, k, mark);
        let e = hs[x].pool[k - 1];
        if now.contains((y, z)) {
            let j = choose|j: int| 0 <= j < now.len() && now[j] == (y, z);
            if j < before.len() {
                assert(before[j] == (y, z));
            } else {
                assert(hs[x].pool[k - 1].0 == y);
            }
        }
        if z == x as usize && exists|i: int|
            0 <= i < k && (#[trigger] hs[x].pool[i]).0 == y && hs[x].pool[i].2 == mark
                && hs[x].pool[i].1 > worst(hs[y as int].pool) {
            let i = choose|i: int|
                0 <= i < k && (#[trigger] hs[x].pool[i]).0 == y && hs[x].pool[i].2 == mark
                    && hs[x].pool[i].1 > worst(hs[y as int].pool);
            if i < k - 1 {
                let j = choose|j: int| 0 <= j < before.len() && before[j] == (y, z);
                assert(now[j] == (y, z));
            } else {
                assert(now[now.len() - 1] == (y, z));
            }
        }
    }
}

/// The same for all nodes.
proof fn lemma_calls_of(hs: Seq<Hood>, n: nat, mark: bool, y: usize, z: usize)
    requires
        n <= hs.len() <= usize::MAX,
    ensures
        calls(hs, n, mark).contains((y, z)) <==> z < n && exists|i: int|
            0 <= i < hs[z as int].m as nat && (#[trigger] hs[z as int].pool[i]).0 == y
                && hs[z as int].pool[i].2 == mark && hs[z as int].pool[i].1 > worst(
                hs[y as int].pool,
            ),
    decreases n,
{
    if n > 0 {
        lemma_calls_of(hs, (n - 1) as nat, mark, y, z);
        let before = calls(hs, (n - 1) as nat, mark);
        let own = node_calls(hs, n - 1, hs[n - 1].m as nat, mark);
        let now = calls(hs, n, mark);
        lemma_node_calls_of(hs, n - 1, hs[n - 1].m as nat, mark, y, z);
        assert(now == before + own);
        if now.contains((y, z)) {
            let j = choose|j: int| 0 <= j < now.len() && now[j] == (y, z);
            if j < before.len() {
                assert(before[j] == (y, z));
            } else {
                assert(own[j - before.len()] == (y, z));
            }
        }
        if before.contains((y, z)) {
            let j = choose|j: int| 0 <= j < before.len() && before[j] == (y, z);
            assert(now[j] == (y, z));
        }
        if own.contains((y, z)) {
            let j = choose|j: int| 0 <= j < own.len() && own[j] == (y, z);
            assert(now[before.len() + j] == (y, z));
        }
    }
}

/// A list keeps who calls, as long as there is room; and nobody else.
proof fn lemma_kept_of(
    n: nat,
    called: Seq<(usize, usize)>,
    r: int,
    picks: Seq<int>,
    y: int,
    z: usize,
)
    requires
        forall|i: int| 0 <= i < called.len() ==> (#[trigger] called[i]).0 < n,
        called.len() <= picks.len(),
        forall|i: int|
            0 <= i < called.len() ==> 0 <= (#[trigger] picks[i]) && (r > 0 ==> picks[i] < r),
        0 <= y < n <= usize::MAX,
        r >= 0,
    ensures
        ({
            let lists = kept(no_lists(n), called, r, picks);
            &&& lists.len() == n
            &&& lists[y].len() <= r
            &&& called.contains((y as usize, z)) ==> lists[y].contains(z) || lists[y].len() == r
            &&& lists[y].contains(z) ==> called.contains((y as usize, z))
        }),
    decreases called.len(),
{
    if called.len() > 0 {
        let shorter = called.drop_last();
        assert forall|i: int| 0 <= i < shorter.len() implies (#[trigger] shorter[i]).0 < n by {
            assert(shorter[i] == called[i]);
        }
        lemma_kept_of(n, shorter, r, picks, y, z);
        let before = kept(no_lists(n), shorter, r, picks);
        let after = kept(no_lists(n), called, r, picks);
        let (target, source) = called[called.len() - 1];
        let pick = picks[called.len() - 1];
        if called.contains((y as usize, z)) {
            if (target, source) == (y as usize, z) {
                if before[y].len() < r {
                    assert(after[y][after[y].len() - 1] == z);
                }
            } else {
                let j = choose|j: int| 0 <= j < called.len() && called[j] == (y as usize, z);
                assert(shorter[j] == (y as usize, z));
                if before[y].contains(z) && before[y].len() < r && target == y {
                    let j = choose|j: int| 0 <= j < before[y].len() && before[y][j] == z;
                    assert(after[y][j] == z);
                }
            }
        }
        if after[y].contains(z) && target == y {
            let j = choose|j: int| 0 <= j < after[y].len() && after[y][j] == z;
            if source != z {
                assert(before[y][j] == z);
            } else {
                assert(called[called.len() - 1] == (y as usize, z));
            }
        }
        if shorter.contains((y as usize, z)) {
            let j = choose|j: int| 0 <= j < shorter.len() && shorter[j] == (y as usize, z);
            assert(called[j] == (y as usize, z));
        }
    }
}

/// The reverse lists of a renewal.
proof fn lemma_renewal_lists(before: Seq<Hood>, params: NndParams, picks: Seq<int>, mark: bool)
    requires
        before.len() <= usize::MAX,
        forall|y: int, i: int|
            0 <= y < before.len() && 0 <= i < before[y].pool.len() ==> (
            #[trigger] before[y].pool[i]).0 < before.len(),
        forall|y: int| 0 <= y < before.len() ==> 0 <= (#[trigger] before[y]).m,
        picks_for(
            calls(
                all_windowed(before, params.l as int, params.s as int),
                before.len(),
                mark,
            ),
            params.r as int,
            picks,
        ),
    ensures
        ({
            let a = all_windowed(before, params.l as int, params.s as int);
            let lists = kept(
                no_lists(before.len()),
                calls(a, before.len(), mark),
                params.r as int,
                picks,
            );
            &&& lists.len() == before.len()
            &&& forall|y: int| 0 <= y < before.len() ==> (#[trigger] lists[y]).len() <= params.r
            &&& forall|y: int, z: usize|
                0 <= y < before.len() ==> {
                    &&& #[trigger] lists[y].contains(z) ==> calls(a, before.len(), mark).contains(
                        (y as usize, z),
                    )
                    &&& calls(a, before.len(), mark).contains((y as usize, z))
                        ==> lists[y].contains(z) || lists[y].len() == params.r
                }
        }),
{
    let n = before.len();
    let a = all_windowed(before, params.l as int, params.s as int);
    let called = calls(a, n, mark);
    assert forall|i: int| 0 <= i < called.len() implies (#[trigger] called[i]).0 < n by {
        let (y, z) = called[i];
        assert(called.contains((y, z)));
        lemma_calls_of(a, n, mark, y, z);
        let j = choose|j: int|
            0 <= j < a[z as int].m as nat && (#[trigger] a[z as int].pool[j]).0 == y
                && a[z as int].pool[j].2 == mark && a[z as int].pool[j].1 > worst(
                a[y as int].pool,
            );
        lemma_renewal_window(before, params, z as int);
        assert(before[z as int].pool[j].0 < n);
    }
    let lists = kept(no_lists(n), called, params.r as int, picks);
    if n > 0 {
        lemma_kept_of(n, called, params.r as int, picks, 0, 0);
    }
    assert forall|y: int| 0 <= y < n implies (#[trigger] lists[y]).len() <= params.r by {
        lemma_kept_of(n, called, params.r as int, picks, y, 0);
    }
    assert forall|y: int, z: usize| 0 <= y < n implies {
        &&& #[trigger] lists[y].contains(z) ==> called.contains((y as usize, z))
        &&& called.contains((y as usize, z)) ==> lists[y].contains(z) || lists[y].len() == params.r
    } by {
        lemma_kept_of(n, called, params.r as int, picks, y, z);
    }
    if n == 0 {
        assert(called.len() == 0);
    }
}

/// Candidacy goes both ways: a node that looks at a marked entry from farther than
/// all that the entry's own pool holds becomes a new candidate there, unless `r`
/// such nodes are there already.
pub proof fn lemma_renewal_calls_new(
    before: Seq<Hood>,
    params: NndParams,
    after: Seq<Hood>,
    z: int,
    i: int,
)
    requires
        renewal(before, params, after),
        before.len() <= usize::MAX,
        forall|y: int, j: int|
            0 <= y < before.len() && 0 <= j < before[y].pool.len() ==> (
            #[trigger] before[y].pool[j]).0 < before.len(),
        forall|y: int| 0 <= y < before.len() ==> 0 <= (#[trigger] before[y]).m,
        0 <= z < before.len(),
        0 <= i < after[z].m,
        before[z].pool[i].2 == true,
        after[before[z].pool[i].0 as int].pool.len() > 0,
        before[z].pool[i].1 > after[before[z].pool[i].0 as int].pool.last().1,
    ensures
        ({
            let y = before[z].pool[i].0 as int;
            let own = before[y].pool.take(after[y].m).filter(|e: Marked| e.2 == true).len();
            ||| after[y].nn_new.contains(z as usize)
            ||| after[y].nn_new.len() == own + params.r
        }),
{
    let (np, op) = lemma_renewal_picks(before, params, after);
    let a = all_windowed(before, params.l as int, params.s as int);
    let r = params.r as int;
    let y = before[z].pool[i].0 as int;
    lemma_renewal_window(before, params, z);
    assert(before[z].pool[i].0 < before.len());
    lemma_renewal_window(before, params, y);
    lemma_renewal_lists(before, params, np, true);
    let reverse = kept(no_lists(before.len()), calls(a, before.len(), true), r, np);
    let c = a[y].pool;
    let m = a[y].m;
    let own = marked_points(c, m as nat, true);
    lemma_marked_filter(c, m as nat, true);
    assert(c.take(m) =~= before[y].pool.take(m));
    lemma_calls_of(a, before.len(), true, y as usize, z as usize);
    assert(a[z].pool[i] == before[z].pool[i]);
    assert(after[y].pool.last().1 == c.last().1);
    assert(worst(c) == c.last().1);
    assert(calls(a, before.len(), true).contains((y as usize, z as usize)));
    if reverse[y].contains(z as usize) {
        let j = choose|j: int| 0 <= j < reverse[y].len() && reverse[y][j] == z as usize;
        assert((own + reverse[y])[own.len() + j] == z as usize);
    }
}

/// The same for an entry without a mark, among the old candidates; of these there
/// are no more than twice `r`.
pub proof fn lemma_renewal_calls_old(
    before: Seq<Hood>,
    params: NndParams,
    after: Seq<Hood>,
    z: int,
    i: int,
)
    requires
        renewal(before, params, after),
        before.len() <= usize::MAX,
        forall|y: int, j: int|
            0 <= y < before.len() && 0 <= j < before[y].pool.len() ==> (
            #[trigger] before[y].pool[j]).0 < before.len(),
        forall|y: int| 0 <= y < before.len() ==> 0 <= (#[trigger] before[y]).m,
        0 <= z < before.len(),
        0 <= i < after[z].m,
        before[z].pool[i].2 == false,
        after[before[z].pool[i].0 as int].pool.len() > 0,
        before[z].pool[i].1 > after[before[z].pool[i].0 as int].pool.last().1,
    ensures
        ({
            let y = before[z].pool[i].0 as int;
            let own = before[y].pool.take(after[y].m).filter(|e: Marked| e.2 == false).len();
            ||| after[y].nn_old.contains(z as usize)
            ||| after[y].nn_old.len() == own + params.r || after[y].nn_old.len() == 2 * params.r
        }),
{
    let (np, op) = lemma_renewal_picks(before, params, after);
    let a = all_windowed(before, params.l as int, params.s as int);
    let r = params.r as int;
    let y = before[z].pool[i].0 as int;
    lemma_renewal_window(before, params, z);
    assert(before[z].pool[i].0 < before.len());
    lemma_renewal_window(before, params, y);
    lemma_renewal_lists(before, params, op, false);
    let reverse = kept(no_lists(before.len()), calls(a, before.len(), false), r, op);
    let c = a[y].pool;
    let m = a[y].m;
    let own = marked_points(c, m as nat, false);
    lemma_marked_filter(c, m as nat, false);
    assert(c.take(m) =~= before[y].pool.take(m));
    lemma_calls_of(a, before.len(), false, y as usize, z as usize);
    assert(a[z].pool[i] == before[z].pool[i]);
    assert(after[y].pool.last().1 == c.last().1);
    assert(worst(c) == c.last().1);
    assert(calls(a, before.len(), false).contains((y as usize, z as usize)));
    if reverse[y].contains(z as usize) {
        let j = choose|j: int| 0 <= j < reverse[y].len() && reverse[y][j] == z as usize;
        assert((own + reverse[y])[own.len() + j] == z as usize);
    }
}

/// Nobody else becomes a candidate: behind the marked entries that a node looks at
/// stand nodes that look at it, and from farther than all that its pool holds.
pub proof fn lemma_renewal_calls_only(
    before: Seq<Hood>,
    params: NndParams,
    after: Seq<Hood>,
    y: int,
    z: usize,
)
    requires
        renewal(before, params, after),
        before.len() <= usize::MAX,
        forall|x: int, j: int|
            0 <= x < before.len() && 0 <= j < before[x].pool.len() ==> (
            #[trigger] before[x].pool[j]).0 < before.len(),
        forall|x: int| 0 <= x < before.len() ==> 0 <= (#[trigger] before[x]).m,
        0 <= y < before.len(),
    ensures
        after[y].nn_new.contains(z) ==> {
            ||| exists|i: int|
                0 <= i < after[y].m && (#[trigger] before[y].pool[i]).0 == z && before[y].pool[i].2
            ||| z < before.len() && exists|i: int|
                0 <= i < after[z as int].m && (#[trigger] before[z as int].pool[i]).0 == y
                    && before[z as int].pool[i].2 && before[z as int].pool[i].1
                    > after[y].pool.last().1
        },
        after[y].nn_old.contains(z) ==> {
            ||| exists|i: int|
                0 <= i < after[y].m && (#[trigger] before[y].pool[i]).0 == z
                    && !before[y].pool[i].2
            ||| z < before.len() && exists|i: int|
                0 <= i < after[z as int].m && (#[trigger] before[z as int].pool[i]).0 == y
                    && !before[z as int].pool[i].2 && before[z as int].pool[i].1
                    > after[y].pool.last().1
        },
{
    let (np, op) = lemma_renewal_picks(before, params, after);
    let a = all_windowed(before, params.l as int, params.s as int);
    let r = params.r as int;
    let n = before.len();
    lemma_renewal_window(before, params, y);
    let c = a[y].pool;
    let m = a[y].m;
    let rn = kept(no_lists(n), calls(a, n, true), r, np)[y];
    let ro = kept(no_lists(n), calls(a, n, false), r, op)[y];
    let own_new = marked_points(c, m as nat, true);
    let own_old = marked_points(c, m as nat, false);
    lemma_renewal_lists(before, params, np, true);
    lemma_renewal_lists(before, params, op, false);
    lemma_marked_points_of(c, m as nat, true, z);
    lemma_marked_points_of(c, m as nat, false, z);
    lemma_calls_of(a, n, true, y as usize, z);
    lemma_calls_of(a, n, false, y as usize, z);
    if z < n {
        lemma_renewal_window(before, params, z as int);
    }
    assert(c.len() > 0 ==> after[y].pool.last().1 == c.last().1);
    if after[y].nn_new.contains(z) {
        let j = choose|j: int| 0 <= j < after[y].nn_new.len() && after[y].nn_new[j] == z;
        assert(after[y].nn_new == own_new + rn);
        if j < own_new.len() {
            assert(own_new[j] == z);
            let i = choose|i: int| 0 <= i < m && (#[trigger] c[i]).0 == z && c[i].2 == true;
            assert(before[y].pool[i] == c[i]);
        } else {
            assert(rn[j - own_new.len()] == z);
            assert(rn.contains(z));
            lemma_caller(before, params, y, z, true);
        }
    }
    if after[y].nn_old.contains(z) {
        let j = choose|j: int| 0 <= j < after[y].nn_old.len() && after[y].nn_old[j] == z;
        assert(after[y].nn_old[j] == (own_old + ro)[j]);
        if j < own_old.len() {
            assert(own_old[j] == z);
            let i = choose|i: int| 0 <= i < m && (#[trigger] c[i]).0 == z && c[i].2 == false;
            assert(before[y].pool[i] == c[i]);
        } else {
            assert(ro[j - own_old.len()] == z);
            assert(ro.contains(z));
            lemma_caller(before, params, y, z, false);
        }
    }
}

/// Who calls.
proof fn lemma_caller(before: Seq<Hood>, params: NndParams, y: int, z: usize, mark: bool)
    requires
        before.len() <= usize::MAX,
        0 <= y < before.len(),
        forall|x: int| 0 <= x < before.len() ==> 0 <= (#[trigger] before[x]).m,
        calls(
            all_windowed(before, params.l as int, params.s as int),
            before.len(),
            mark,
        ).contains((y as usize, z)),
    ensures
        z < before.len(),
        ({
            let a = all_windowed(before, params.l as int, params.s as int);
            &&& a[y].pool.len() > 0
            &&& exists|i: int|
                0 <= i < a[z as int].m && (#[trigger] before[z as int].pool[i]).0 == y
                    && before[z as int].pool[i].2 == mark && before[z as int].pool[i].1
                    > a[y].pool.last().1
        }),
{
    let a = all_windowed(before, params.l as int, params.s as int);
    lemma_calls_of(a, before.len(), mark, y as usize, z);
    let i = choose|i: int|
        0 <= i < a[z as int].m as nat && (#[trigger] a[z as int].pool[i]).0 == y as usize
            && a[z as int].pool[i].2 == mark && a[z as int].pool[i].1 > worst(a[y].pool);
    lemma_renewal_window(before, params, z as int);
    assert(a[z as int].pool[i] == before[z as int].pool[i]);
}

} // verus!
