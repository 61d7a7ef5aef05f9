//! How good answers are.

use crate::controllers::search::lesser;
use crate::datalayer::algorithms::{tlsh_key, TlshHash};
use vstd::prelude::*;

verus! {

/// An answer or a true neighbour: distance and text.
pub type Scored = (u32, String);

/// Number of answers no farther than `bound`.
pub open spec fn count_within(answers: Seq<Scored>, bound: u32) -> nat
    decreases answers.len(),
{
    if answers.len() == 0 {
        0
    } else {
        count_within(answers.drop_last(), bound) + if answers.last().0 <= bound {
            1nat
        } else {
            0
        }
    }
}

/// One of `truth` has the text `t`.
pub open spec fn named_in(truth: Seq<Scored>, t: Seq<char>) -> bool {
    exists|i: int| 0 <= i < truth.len() && (#[trigger] truth[i]).1@ == t
}

/// Number of answers whose text is that of one of `truth`.
pub open spec fn count_named(answers: Seq<Scored>, truth: Seq<Scored>) -> nat
    decreases answers.len(),
{
    if answers.len() == 0 {
        0
    } else {
        count_named(answers.drop_last(), truth) + if named_in(truth, answers.last().1@) {
            1nat
        } else {
            0
        }
    }
}

/// The score of one query.
#[derive(Clone, Copy, Debug, PartialEq, Eq, Structural)]
pub struct QueryScore {
    /// Number of true neighbours that count.
    pub depth: usize,
    /// Answers no farther than the last of these.
    pub found: usize,
    /// Answers that are one of these.
    pub exact: usize,
    /// The last of these is at the greatest distance: nothing can be compared
    /// with the query.
    pub incomparable: bool,
}

/// `r` is the score of the answers to one query.
pub open spec fn scores(
    truth: Seq<Scored>,
    answers: Seq<Scored>,
    k: usize,
    farthest: u32,
    r: Option<QueryScore>,
) -> bool {
    let depth = lesser(k as int, truth.len() as int);
    match r {
        None => depth == 0,
        Some(s) => {
            let last = truth[depth - 1].0;
            &&& depth > 0
            &&& s.depth == depth
            &&& s.found == count_within(answers, last)
            &&& s.exact == count_named(answers, truth.take(depth))
            &&& s.incomparable == (last >= farthest)
        },
    }
}

/// Scores the answers to one query against the first `k` of its true
/// neighbours; `None` where there are none.
pub fn score_query(truth: &Vec<Scored>, answers: &Vec<Scored>, k: usize, farthest: u32) -> (r:
    Option<QueryScore>)
    ensures
        scores(truth@, answers@, k, farthest, r),
        ({
            let depth = lesser(k as int, truth@.len() as int);
            match r {
                None => depth == 0,
                Some(s) => {
                    let last = truth@[depth - 1].0;
                    &&& depth > 0
                    &&& s.depth == depth
                    &&& s.found == count_within(answers@, last)
                    &&& s.exact == count_named(answers@, truth@.take(depth))
                    &&& s.incomparable == (last >= farthest)
                },
            }
        }),
{
    let depth: usize = if k < truth.len() {
        k
    } else {
        truth.len()
    };
    if depth == 0 {
        return None;
    }
    let last: u32 = truth[depth - 1].0;
    let ghost ids = truth@.take(depth as int);
    let mut found: usize = 0;
    let mut exact: usize = 0;
    let mut i: usize = 0;
    assert(answers@.take(0) =~= Seq::<Scored>::empty());
    while i < answers.len()
        invariant
            i <= answers@.len(),
            0 < depth <= truth@.len(),
            ids == truth@.take(depth as int),
            found <= i,
            exact <= i,
            found == count_within(answers@.take(i as int), last),
            exact == count_named(answers@.take(i as int), ids),
        decreases answers@.len() - i,
    {
        proof {
            assert(answers@.take(i + 1).drop_last() =~= answers@.take(i as int));
            assert(answers@.take(i + 1).last() == answers@[i as int]);
        }
        if answers[i].0 <= last {
            found = found + 1;
        }
        if is_named(truth, depth, &answers[i].1) {
            exact = exact + 1;
        }
        i = i + 1;
    }
    assert(answers@.take(answers@.len() as int) =~= answers@);
    Some(QueryScore { depth, found, exact, incomparable: last >= farthest })
}

/// Whether one of the first `depth` has the text `t`.
fn is_named(truth: &Vec<Scored>, depth: usize, t: &String) -> (r: bool)
    requires
        depth <= truth@.len(),
    ensures
        r == named_in(truth@.take(depth as int), t@),
{
    let ghost ids = truth@.take(depth as int);
    let mut i: usize = 0;
    while i < depth
        invariant
            i <= depth <= truth@.len(),
            ids == truth@.take(depth as int),
            forall|j: int| 0 <= j < i ==> (#[trigger] ids[j]).1@ != t@,
        decreases depth - i,
    {
        assert(ids[i as int] == truth@[i as int]);
        if truth[i].1 == *t {
            return true;
        }
        i = i + 1;
    }
    false
}

proof fn lemma_all_within(answers: Seq<Scored>, bound: u32)
    requires
        forall|i: int| 0 <= i < answers.len() ==> (#[trigger] answers[i]).0 <= bound,
    ensures
        count_within(answers, bound) == answers.len(),
    decreases answers.len(),
{
    if answers.len() > 0 {
        let t = answers.drop_last();
        assert forall|i: int| 0 <= i < t.len() implies (#[trigger] t[i]).0 <= bound by {
            assert(t[i] == answers[i]);
        }
        lemma_all_within(t, bound);
        assert(answers[answers.len() - 1].0 <= bound);
    }
}

proof fn lemma_all_named(answers: Seq<Scored>, truth: Seq<Scored>)
    requires
        forall|i: int| 0 <= i < answers.len() ==> named_in(truth, (#[trigger] answers[i]).1@),
    ensures
        count_named(answers, truth) == answers.len(),
    decreases answers.len(),
{
    if answers.len() > 0 {
        let t = answers.drop_last();
        assert forall|i: int| 0 <= i < t.len() implies named_in(truth, (#[trigger] t[i]).1@) by {
            assert(t[i] == answers[i]);
        }
        lemma_all_named(t, truth);
        assert(named_in(truth, answers[answers.len() - 1].1@));
    }
}

/// The true neighbours themselves score in full, in both counts.
pub proof fn lemma_truth_scores_full(truth: Seq<Scored>)
    requires
        truth.len() > 0,
        forall|i: int, j: int| 0 <= i <= j < truth.len() ==> (#[trigger] truth[i]).0 <= (
        #[trigger] truth[j]).0,
    ensures
        count_within(truth, truth.last().0) == truth.len(),
        count_named(truth, truth) == truth.len(),
{
    lemma_all_within(truth, truth.last().0);
    assert forall|i: int| 0 <= i < truth.len() implies named_in(truth, (#[trigger] truth[i]).1@) by {
        assert(truth[i].1@ == truth[i].1@);
    }
    lemma_all_named(truth, truth);
}

// ---------------------------------------------------------------------------
// The nearest alone
// ---------------------------------------------------------------------------

/// Scores are fractions: neither count is above the number of answers.
pub proof fn lemma_scores_are_fractions(answers: Seq<Scored>, truth: Seq<Scored>, bound: u32)
    ensures
        count_within(answers, bound) <= answers.len(),
        count_named(answers, truth) <= answers.len(),
    decreases answers.len(),
{
    if answers.len() > 0 {
        lemma_scores_are_fractions(answers.drop_last(), truth, bound);
    }
}

/// A query that nothing can be compared with tells nothing by its distances:
/// whatever is answered counts as found.
pub proof fn lemma_incomparable_finds_all(answers: Seq<Scored>, farthest: u32, bound: u32)
    requires
        farthest <= bound,
        forall|i: int| 0 <= i < answers.len() ==> (#[trigger] answers[i]).0 <= farthest,
    ensures
        count_within(answers, bound) == answers.len(),
    decreases answers.len(),
{
    if answers.len() > 0 {
        let head = answers.drop_last();
        assert forall|i: int| 0 <= i < head.len() implies (#[trigger] head[i]).0 <= farthest by {
            assert(head[i] == answers[i]);
        }
        lemma_incomparable_finds_all(head, farthest, bound);
    }
}

/// Number of the first `n` pairs at the same distance.
pub open spec fn same_distance(
    answers: Seq<(u32, TlshHash)>,
    truth: Seq<(u32, TlshHash)>,
    n: nat,
) -> nat
    decreases n,
{
    if n == 0 {
        0
    } else {
        same_distance(answers, truth, (n - 1) as nat) + if answers[n - 1].0 == truth[n - 1].0 {
            1nat
        } else {
            0
        }
    }
}

/// Number of the first `n` pairs at the same distance and of the same digest.
pub open spec fn same_digest(
    answers: Seq<(u32, TlshHash)>,
    truth: Seq<(u32, TlshHash)>,
    n: nat,
) -> nat
    decreases n,
{
    if n == 0 {
        0
    } else {
        same_digest(answers, truth, (n - 1) as nat) + if answers[n - 1].0 == truth[n - 1].0
            && tlsh_key(answers[n - 1].1.0@) == tlsh_key(truth[n - 1].1.0@) {
            1nat
        } else {
            0
        }
    }
}

/// The score of the nearest answers alone.
#[derive(Clone, Copy, Debug, PartialEq, Eq, Structural)]
pub struct NearestScore {
    /// Answers at the true distance.
    pub recall: usize,
    /// Answers that are the true neighbour.
    pub exact: usize,
    /// Answers at another distance.
    pub miss: usize,
}

/// `r` is the score of the nearest answers alone.
pub open spec fn nearest_scores(
    answers: Seq<(u32, TlshHash)>,
    truth: Seq<(u32, TlshHash)>,
    r: NearestScore,
) -> bool {
    let n = lesser(answers.len() as int, truth.len() as int) as nat;
    &&& r.recall == same_distance(answers, truth, n)
    &&& r.exact == same_digest(answers, truth, n)
    &&& r.exact <= r.recall
    &&& r.recall + r.miss == n
}

/// Scores the nearest answer to every query against its true neighbour. Texts are
/// read only where the distances agree.
pub fn score_nearest(answers: &Vec<(u32, TlshHash)>, truth: &Vec<(u32, TlshHash)>) -> (r:
    NearestScore)
    requires
        forall|i: int|
            0 <= i < answers@.len() && i < truth@.len() && (#[trigger] answers@[i]).0 == (
            #[trigger] truth@[i]).0 ==> answers@[i].1.wf() && truth@[i].1.wf(),
    ensures
        nearest_scores(answers@, truth@, r),
        ({
            let n = lesser(answers@.len() as int, truth@.len() as int) as nat;
            &&& r.recall == same_distance(answers@, truth@, n)
            &&& r.exact == same_digest(answers@, truth@, n)
            &&& r.exact <= r.recall
            &&& r.recall + r.miss == n
        }),
{
    let n: usize = if answers.len() < truth.len() {
        answers.len()
    } else {
        truth.len()
    };
    let mut recall: usize = 0;
    let mut exact: usize = 0;
    let mut miss: usize = 0;
    let mut i: usize = 0;
    while i < n
        invariant
            i <= n,
            n <= answers@.len(),
            n <= truth@.len(),
            forall|i: int|
                0 <= i < answers@.len() && i < truth@.len() && (#[trigger] answers@[i]).0 == (
                #[trigger] truth@[i]).0 ==> answers@[i].1.wf() && truth@[i].1.wf(),
            recall == same_distance(answers@, truth@, i as nat),
            exact == same_digest(answers@, truth@, i as nat),
            exact <= recall,
            recall + miss == i,
        decreases n - i,
    {
        if answers[i].0 == truth[i].0 {
            recall = recall + 1;
            let a: Vec<u8> = answers[i].1.hash();
            let b: Vec<u8> = truth[i].1.hash();
            if same_bytes(&a, &b) {
                exact = exact + 1;
            }
        } else {
            miss = miss + 1;
        }
        i = i + 1;
    }
    NearestScore { recall, exact, miss }
}

/// Whether two byte strings are the same.
fn same_bytes(a: &Vec<u8>, b: &Vec<u8>) -> (r: bool)
    ensures
        r == (a@ == b@),
{
    if a.len() != b.len() {
        return false;
    }
    let mut i: usize = 0;
    while i < a.len()
        invariant
            a@.len() == b@.len(),
            i <= a@.len(),
            forall|j: int| 0 <= j < i ==> a@[j] == b@[j],
        decreases a@.len() - i,
    {
        if a[i] != b[i] {
            return false;
        }
        i = i + 1;
    }
    assert(a@ =~= b@);
    true
}

} // verus!
