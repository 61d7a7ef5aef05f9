//! What the measurements are for, in terms of their inputs and results alone.

use crate::datalayer::algorithms::{tlsh_key, DistanceAlgorithm, TlshHash};
use crate::harness::cache::{
    hashes_verdict, model_verdict, nearest_row, nearest_verdict, text_verdict, truth_rows,
    CachedModel, Reason, Verdict,
};
use crate::harness::dataset::{
    document_rows, field_of, field_texts, first_texts, flagged_texts, plans, DocView, PlanError,
    RowView, SlicePlan,
};
use crate::harness::score::{
    count_named, count_within, nearest_scores, same_digest, same_distance, scores, NearestScore,
    QueryScore, Scored,
};
use crate::harness::truth::{first_nearest, nearest_k, texts_at};
use crate::order::Entry;
use vstd::prelude::*;

verus! {

// ---------------------------------------------------------------------------
// Ground truth
// ---------------------------------------------------------------------------

/// The ground truth of a query holds `k` texts, or as many as there are, each that of
/// a feature with its distance, the nearer first and of two at one distance the
/// earlier; and a feature that is left out is no nearer than any that is there. The
/// result says which features they are.
pub proof fn lemma_truth_is_nearest<D: DistanceAlgorithm<ID>, ID>(
    features: Seq<ID>,
    query: ID,
    k: int,
    top: Seq<Entry>,
    dataset: Seq<String>,
    out: Seq<(u32, String)>,
) -> (at: Seq<usize>)
    requires
        nearest_k::<D, ID>(features, query, features.len() as int, k, top),
        texts_at(top, dataset, out),
        k >= 0,
    ensures
        out.len() == if k < features.len() {
            k
        } else {
            features.len() as int
        },
        at.len() == out.len(),
        forall|i: int|
            0 <= i < out.len() ==> {
                &&& (#[trigger] at[i]) < features.len()
                &&& out[i].0 == D::distance(query, features[at[i] as int])
                &&& out[i].1 == dataset[at[i] as int]
            },
        forall|i: int, j: int|
            0 <= i < j < out.len() ==> {
                &&& (#[trigger] at[i]) != (#[trigger] at[j])
                &&& out[i].0 < out[j].0 || (out[i].0 == out[j].0 && at[i] < at[j])
            },
        forall|x: usize, i: int|
            x < features.len() && !(#[trigger] at.contains(x)) && 0 <= i < out.len() ==> (
            #[trigger] out[i]).0 <= D::distance(query, features[x as int]),
{
    let at = Seq::new(top.len(), |i: int| top[i].0);
    assert forall|i: int| 0 <= i < out.len() implies {
        &&& (#[trigger] at[i]) < features.len()
        &&& out[i].0 == D::distance(query, features[at[i] as int])
        &&& out[i].1 == dataset[at[i] as int]
    } by {
        assert(out[i].0 == top[i].1);
    }
    assert forall|i: int, j: int| 0 <= i < j < out.len() implies {
        &&& (#[trigger] at[i]) != (#[trigger] at[j])
        &&& out[i].0 < out[j].0 || (out[i].0 == out[j].0 && at[i] < at[j])
    } by {
        assert(out[i].0 == top[i].1 && out[j].0 == top[j].1);
    }
    assert forall|x: usize, i: int|
        x < features.len() && !(#[trigger] at.contains(x)) && 0 <= i < out.len() implies (
    #[trigger] out[i]).0 <= D::distance(query, features[x as int]) by {
        let e = (x, D::distance(query, features[x as int]));
        if top.contains(e) {
            let j = choose|j: int| 0 <= j < top.len() && top[j] == e;
            assert(at[j] == x);
        }
        let last = out.len() - 1;
        assert(out[i].0 == top[i].1 && out[last].0 == top[last].1);
    }
    at
}

/// The closest is the first of those than which none is closer; there is none only
/// where all are at the greatest distance.
pub proof fn lemma_closest_is_first<D: DistanceAlgorithm<ID>, ID>(
    features: Seq<ID>,
    query: ID,
    r: (u32, Option<usize>),
    j: int,
)
    requires
        first_nearest::<D, ID>(features, query, features.len() as int, r),
        0 <= j < features.len(),
    ensures
        r.0 <= D::distance(query, features[j]),
        r.1 matches Some(i) ==> {
            &&& i < features.len()
            &&& r.0 == D::distance(query, features[i as int])
            &&& j < i ==> r.0 < D::distance(query, features[j])
        },
        r.1 is None ==> r.0 == u32::MAX,
        D::distance(query, features[j]) < u32::MAX ==> r.1 is Some,
{
}

// ---------------------------------------------------------------------------
// Scores
// ---------------------------------------------------------------------------

/// What counts as found are the answers no farther than the bound, and as exact those
/// that have the text of a true neighbour.
pub proof fn lemma_counts_are_filters(answers: Seq<Scored>, truth: Seq<Scored>, bound: u32)
    ensures
        count_within(answers, bound) == answers.filter(|a: Scored| a.0 <= bound).len(),
        count_named(answers, truth) == answers.filter(
            |a: Scored| exists|i: int| 0 <= i < truth.len() && (#[trigger] truth[i]).1@ == a.1@,
        ).len(),
    decreases answers.len(),
{
    reveal(Seq::filter);
    if answers.len() > 0 {
        lemma_counts_are_filters(answers.drop_last(), truth, bound);
    }
}

/// What counts of the nearest answers alone: the places at which the distances agree,
/// and of these the ones at which the digests agree.
pub proof fn lemma_nearest_counts(
    answers: Seq<(u32, TlshHash)>,
    truth: Seq<(u32, TlshHash)>,
    n: nat,
)
    ensures
        same_distance(answers, truth, n) == Seq::new(n, |i: int| i).filter(
            |i: int| answers[i].0 == truth[i].0,
        ).len(),
        same_digest(answers, truth, n) == Seq::new(n, |i: int| i).filter(
            |i: int|
                answers[i].0 == truth[i].0 && tlsh_key(answers[i].1.0@) == tlsh_key(
                    truth[i].1.0@,
                ),
        ).len(),
    decreases n,
{
    reveal(Seq::filter);
    let all = Seq::new(n, |i: int| i);
    if n > 0 {
        lemma_nearest_counts(answers, truth, (n - 1) as nat);
        assert(all.drop_last() =~= Seq::new((n - 1) as nat, |i: int| i));
        assert(all.last() == n - 1);
    }
}

/// How answers are scored: against as many true neighbours as are asked for and there
/// are, `None` where that is none. An answer is found that is no farther than the last
/// of these, and exact if one of these has its text; and where the last of these is at
/// the greatest distance, the score says so.
pub proof fn lemma_score_rule(
    truth: Seq<Scored>,
    answers: Seq<Scored>,
    k: usize,
    farthest: u32,
    r: Option<QueryScore>,
)
    requires
        scores(truth, answers, k, farthest, r),
    ensures
        r is None <==> k == 0 || truth.len() == 0,
        r matches Some(s) ==> {
            let d = s.depth as int;
            &&& 0 < d <= k && d <= truth.len()
            &&& d == k || d == truth.len()
            &&& s.found == answers.filter(|a: Scored| a.0 <= truth[d - 1].0).len()
            &&& s.exact == answers.filter(
                |a: Scored|
                    exists|i: int|
                        0 <= i < truth.take(d).len() && (#[trigger] truth.take(d)[i]).1@ == a.1@,
            ).len()
            &&& s.incomparable <==> truth[d - 1].0 >= farthest
        },
{
    if let Some(s) = r {
        let d = s.depth as int;
        lemma_counts_are_filters(answers, truth.take(d), truth[d - 1].0);
    }
}

/// How the nearest answers alone are scored: over as many queries as have both an
/// answer and a true neighbour. Each either recalls the distance or misses it, and is
/// exact where it recalls it and has the digest.
pub proof fn lemma_nearest_score_rule(
    answers: Seq<(u32, TlshHash)>,
    truth: Seq<(u32, TlshHash)>,
    r: NearestScore,
    n: nat,
)
    requires
        nearest_scores(answers, truth, r),
        n <= answers.len() && n <= truth.len(),
        n == answers.len() || n == truth.len(),
    ensures
        r.recall + r.miss == n,
        r.exact <= r.recall,
        r.recall == Seq::new(n, |i: int| i).filter(|i: int| answers[i].0 == truth[i].0).len(),
        r.exact == Seq::new(n, |i: int| i).filter(
            |i: int|
                answers[i].0 == truth[i].0 && tlsh_key(answers[i].1.0@) == tlsh_key(
                    truth[i].1.0@,
                ),
        ).len(),
{
    lemma_nearest_counts(answers, truth, n);
}

// ---------------------------------------------------------------------------
// Slices
// ---------------------------------------------------------------------------

/// What a plan keeps to. What is indexed is all, or as many as wanted. The queries lie
/// in the list, as many as asked for or up to its end, from where they are asked for;
/// else they follow on what is indexed, so that none of it is asked for.
pub proof fn lemma_plan_rule(
    total: usize,
    wanted: usize,
    zero_is_all: bool,
    start: Option<usize>,
    count: usize,
    r: Result<SlicePlan, PlanError>,
)
    requires
        plans(total, wanted, zero_is_all, start, count, r),
    ensures
        r matches Ok(p) ==> {
            &&& 0 < p.dataset_size <= total
            &&& p.query_start < p.query_end <= total
            &&& p.dataset_size == wanted || p.dataset_size == total
            &&& p.dataset_size < total ==> wanted < total && !(zero_is_all && wanted == 0)
            &&& wanted < p.dataset_size ==> zero_is_all && wanted == 0
            &&& p.query_end - p.query_start == count || p.query_end == total
            &&& p.query_end - p.query_start <= count
            &&& start is None ==> p.query_start == p.dataset_size
            &&& start matches Some(s) ==> p.query_start == s
        },
        r == Err::<SlicePlan, PlanError>(PlanError::EmptyDataset) <==> total == 0 || (wanted == 0
            && !zero_is_all),
        total > 0 && (wanted > 0 || zero_is_all) && count > 0 && (match start {
            Some(s) => s < total,
            None => 0 < wanted < total,
        }) <==> r is Ok,
{
}

// ---------------------------------------------------------------------------
// Caches
// ---------------------------------------------------------------------------

/// Cached ground truth is used if and only if it can be read, has a row for every
/// query, each of `k` neighbours at least, and is not of other data. It is signed
/// where nothing says of which data it is.
pub proof fn lemma_truth_used_only_if(
    text: Option<Seq<char>>,
    queries: usize,
    k: usize,
    found: Option<u64>,
    expected: u64,
)
    ensures
        ({
            let v = text_verdict(text, queries, k, found, expected);
            let fits = text is Some && truth_rows(text->0) is Some && {
                let rows = truth_rows(text->0)->0;
                rows.len() == queries && forall|i: int|
                    0 <= i < rows.len() ==> (#[trigger] rows[i]).len() >= k
            };
            &&& v == Verdict::Use <==> fits && found == Some(expected)
            &&& v == Verdict::UseAndSign <==> fits && found is None
            &&& v == Verdict::Renew(Reason::Absent) <==> text is None
            &&& v == Verdict::Renew(Reason::Unreadable) <==> text is Some && truth_rows(
                text->0,
            ) is None
            &&& v == Verdict::Renew(Reason::Mismatch) <==> fits && found is Some && found
                != Some(expected)
        }),
{
}

/// Cached nearest neighbours are used if and only if they can be read and there is one
/// for every query.
pub proof fn lemma_nearest_used_only_if(text: Option<Seq<char>>, queries: usize)
    ensures
        ({
            let v = nearest_verdict(text, queries);
            &&& v == Verdict::Use <==> text is Some && nearest_row(text->0) is Some && (nearest_row(
                text->0,
            )->0).len() == queries
            &&& v == Verdict::Renew(Reason::Absent) <==> text is None
            &&& v == Verdict::Renew(Reason::Unreadable) <==> text is Some && nearest_row(
                text->0,
            ) is None
            &&& v != Verdict::UseAndSign
        }),
{
}

/// A cached list is used if and only if no rescan is asked for, it holds something and
/// is not of other data; a cached model if and only if it is of the same records, or,
/// where nothing says of which it is, holds no more than there are, but some.
pub proof fn lemma_lists_and_models_used_only_if(
    rescan: bool,
    cached: Option<usize>,
    model: CachedModel,
    given: usize,
    found: Option<u64>,
    expected: u64,
)
    ensures
        ({
            let v = hashes_verdict(rescan, cached, found, expected);
            let fits = !rescan && cached is Some && cached != Some(0usize);
            &&& v == Verdict::Use <==> fits && found == Some(expected)
            &&& v == Verdict::UseAndSign <==> fits && found is None
            &&& v == Verdict::Renew(Reason::Absent) <==> rescan || cached is None
        }),
        ({
            let v = model_verdict(model, given, found, expected);
            &&& v == Verdict::Use <==> model is Records && found == Some(expected)
            &&& v == Verdict::UseAndSign <==> found is None && (model matches CachedModel::Records(
                n,
            ) && 0 < n <= given)
            &&& v == Verdict::Renew(Reason::Absent) <==> model is Absent
            &&& v == Verdict::Renew(Reason::Unreadable) <==> model is Unreadable
        }),
{
}

// ---------------------------------------------------------------------------
// Lists of texts
// ---------------------------------------------------------------------------

/// The text under a name is that of the first member of the name.
pub proof fn lemma_field_is_first(row: RowView, field: Seq<char>, i: int)
    requires
        0 <= i < row.len(),
        row[i].0 == field,
        forall|j: int| 0 <= j < i ==> (#[trigger] row[j]).0 != field,
    ensures
        field_of(row, field) == row[i].1,
    decreases row.len(),
{
    if i > 0 {
        let rest = row.drop_first();
        assert(row[0].0 != field);
        assert forall|j: int| 0 <= j < i - 1 implies (#[trigger] rest[j]).0 != field by {
            assert(rest[j] == row[j + 1]);
        }
        lemma_field_is_first(rest, field, i - 1);
    }
}

/// Without a member of the name there is no text.
pub proof fn lemma_field_is_there(row: RowView, field: Seq<char>)
    requires
        forall|j: int| 0 <= j < row.len() ==> (#[trigger] row[j]).0 != field,
    ensures
        field_of(row, field) is None,
    decreases row.len(),
{
    if row.len() > 0 {
        let rest = row.drop_first();
        assert(row[0].0 != field);
        assert forall|j: int| 0 <= j < rest.len() implies (#[trigger] rest[j]).0 != field by {
            assert(rest[j] == row[j + 1]);
        }
        lemma_field_is_there(rest, field);
    }
}

/// The texts of a field are those of the rows, in their order: all but where there is
/// none, where it stands for none, or where it is empty and that does not count. The
/// result says which rows they are of.
pub proof fn lemma_field_texts_of(
    rows: Seq<RowView>,
    field: Seq<char>,
    null: Seq<char>,
    empty: bool,
) -> (at: Seq<int>)
    ensures
        at.len() == field_texts(rows, field, null, empty).len(),
        forall|i: int|
            0 <= i < at.len() ==> {
                &&& 0 <= #[trigger] at[i] < rows.len()
                &&& field_of(rows[at[i]], field) == Some(
                    field_texts(rows, field, null, empty)[i],
                )
            },
        forall|i: int, j: int| 0 <= i < j < at.len() ==> #[trigger] at[i] < #[trigger] at[j],
        forall|p: int|
            0 <= p < rows.len() ==> {
                let text = field_of(#[trigger] rows[p], field);
                at.contains(p) <==> text is Some && text != Some(null) && (empty || text
                    != Some(Seq::<char>::empty()))
            },
    decreases rows.len(),
{
    if rows.len() == 0 {
        Seq::empty()
    } else {
        let shorter = rows.drop_last();
        let before = lemma_field_texts_of(shorter, field, null, empty);
        let last = rows.len() - 1;
        let text = field_of(rows[last], field);
        let out = field_texts(rows, field, null, empty);
        let was = field_texts(shorter, field, null, empty);
        let taken = text is Some && text != Some(null) && (empty || text != Some(
            Seq::<char>::empty(),
        ));
        if text is Some && (text->0).len() == 0 {
            assert(text->0 =~= Seq::<char>::empty());
        }
        let at = if taken {
            before.push(last)
        } else {
            before
        };
        assert forall|i: int| 0 <= i < at.len() implies {
            &&& 0 <= #[trigger] at[i] < rows.len()
            &&& field_of(rows[at[i]], field) == Some(out[i])
        } by {
            if i < before.len() {
                assert(at[i] == before[i]);
                assert(shorter[before[i]] == rows[before[i]]);
                assert(out[i] == was[i]);
            }
        }
        assert forall|p: int| 0 <= p < rows.len() implies {
            let text = field_of(#[trigger] rows[p], field);
            at.contains(p) <==> text is Some && text != Some(null) && (empty || text != Some(
                Seq::<char>::empty(),
            ))
        } by {
            lemma_grown_contains(before, last, at, taken, p);
            if p < last {
                assert(shorter[p] == rows[p]);
            }
        }
        at
    }
}

/// What a list of places holds after one more.
proof fn lemma_grown_contains(before: Seq<int>, last: int, at: Seq<int>, taken: bool, p: int)
    requires
        at == if taken {
            before.push(last)
        } else {
            before
        },
        forall|i: int| 0 <= i < before.len() ==> 0 <= #[trigger] before[i] < last,
    ensures
        p == last ==> (at.contains(p) <==> taken),
        p < last ==> (at.contains(p) <==> before.contains(p)),
{
    if taken {
        assert(at[before.len() as int] == last);
    }
    if before.contains(p) {
        let i = choose|i: int| 0 <= i < before.len() && before[i] == p;
        assert(at[i] == p);
    }
    if at.contains(p) {
        let i = choose|i: int| 0 <= i < at.len() && at[i] == p;
        if i < before.len() {
            assert(before[i] == p);
        }
    }
}

/// What is retained are the texts with a flag, in their order.
pub proof fn lemma_flagged_are_retained(list: Seq<Seq<char>>, flags: Seq<bool>) -> (at: Seq<int>)
    requires
        flags.len() >= list.len(),
    ensures
        at.len() == flagged_texts(list, flags).len(),
        forall|i: int|
            0 <= i < at.len() ==> {
                &&& 0 <= #[trigger] at[i] < list.len()
                &&& flagged_texts(list, flags)[i] == list[at[i]]
            },
        forall|i: int, j: int| 0 <= i < j < at.len() ==> #[trigger] at[i] < #[trigger] at[j],
        forall|p: int| 0 <= p < list.len() ==> (at.contains(p) <==> #[trigger] flags[p]),
    decreases list.len(),
{
    if list.len() == 0 {
        Seq::empty()
    } else {
        let shorter = list.drop_last();
        let before = lemma_flagged_are_retained(shorter, flags);
        let last = list.len() - 1;
        let out = flagged_texts(list, flags);
        let was = flagged_texts(shorter, flags);
        let at = if flags[last] {
            before.push(last)
        } else {
            before
        };
        assert forall|i: int| 0 <= i < at.len() implies {
            &&& 0 <= #[trigger] at[i] < list.len()
            &&& out[i] == list[at[i]]
        } by {
            if i < before.len() {
                assert(at[i] == before[i]);
                assert(shorter[before[i]] == list[before[i]]);
                assert(out[i] == was[i]);
            }
        }
        assert forall|p: int| 0 <= p < list.len() implies (at.contains(p) <==> #[trigger] flags[p])
        by {
            lemma_grown_contains(before, last, at, flags[last], p);
        }
        at
    }
}

/// What is left without repetitions are the texts where they occur first, in their
/// order.
pub proof fn lemma_first_are_left(list: Seq<Seq<char>>) -> (at: Seq<int>)
    ensures
        at.len() == first_texts(list).len(),
        forall|i: int|
            0 <= i < at.len() ==> {
                &&& 0 <= #[trigger] at[i] < list.len()
                &&& first_texts(list)[i] == list[at[i]]
            },
        forall|i: int, j: int| 0 <= i < j < at.len() ==> #[trigger] at[i] < #[trigger] at[j],
        forall|p: int|
            0 <= p < list.len() ==> (at.contains(p) <==> !list.take(p).contains(
                #[trigger] list[p],
            )),
    decreases list.len(),
{
    if list.len() == 0 {
        Seq::empty()
    } else {
        let shorter = list.drop_last();
        let before = lemma_first_are_left(shorter);
        let last = list.len() - 1;
        let out = first_texts(list);
        let was = first_texts(shorter);
        let taken = !shorter.contains(list[last]);
        let at = if taken {
            before.push(last)
        } else {
            before
        };
        assert forall|i: int| 0 <= i < at.len() implies {
            &&& 0 <= #[trigger] at[i] < list.len()
            &&& out[i] == list[at[i]]
        } by {
            if i < before.len() {
                assert(at[i] == before[i]);
                assert(shorter[before[i]] == list[before[i]]);
                assert(out[i] == was[i]);
            }
        }
        assert forall|p: int| 0 <= p < list.len() implies (at.contains(p) <==> !list.take(
            p,
        ).contains(#[trigger] list[p])) by {
            lemma_grown_contains(before, last, at, taken, p);
            if p < last {
                assert(shorter[p] == list[p]);
                assert(shorter.take(p) =~= list.take(p));
            } else {
                assert(shorter =~= list.take(p));
            }
        }
        at
    }
}

/// A document has a row for every item of its array, or for every member of its
/// object, whatever its name; what is no object is a row without members.
pub proof fn lemma_rows_of_document(doc: DocView, i: int)
    requires
        0 <= i,
    ensures
        doc.0 matches Some(items) ==> document_rows(doc).len() == items.len() && (i < items.len()
            ==> document_rows(doc)[i] == match items[i] {
            Some(row) => row,
            None => Seq::empty(),
        }),
        doc.0 is None ==> (doc.1 matches Some(members) ==> document_rows(doc).len()
            == members.len() && (i < members.len() ==> document_rows(doc)[i] == match members[i].1 {
            Some(row) => row,
            None => Seq::empty(),
        })),
        doc.0 is None && doc.1 is None ==> document_rows(doc).len() == 0,
{
}

} // verus!
