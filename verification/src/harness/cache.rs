//! Whether what a cache holds can be used. Every cache has a companion that
//! holds a fingerprint of what the cache was derived from.

use vstd::prelude::*;

verus! {

/// What to do with a cache.
#[derive(Clone, Copy, Debug, PartialEq, Eq, Structural)]
pub enum Verdict {
    /// Use it.
    Use,
    /// Use it, and write the fingerprint that it lacks.
    UseAndSign,
    /// Leave it, for `Reason`, and do the work anew.
    Renew(Reason),
}

/// Why a cache is not used.
#[derive(Clone, Copy, Debug, PartialEq, Eq, Structural)]
pub enum Reason {
    /// There is none, or it is not asked for.
    Absent,
    /// It cannot be read.
    Unreadable,
    /// What it holds does not have the right shape.
    Shape,
    /// It was derived from something else.
    Mismatch,
}

/// What a fingerprint says of a cache of the right shape: one that lacks it is
/// accepted.
pub open spec fn signed(found: Option<u64>, expected: u64) -> Verdict {
    match found {
        Some(s) => if s == expected {
            Verdict::Use
        } else {
            Verdict::Renew(Reason::Mismatch)
        },
        None => Verdict::UseAndSign,
    }
}

fn check_signature(found: Option<u64>, expected: u64) -> (v: Verdict)
    ensures
        v == signed(found, expected),
{
    match found {
        Some(s) => if s == expected {
            Verdict::Use
        } else {
            Verdict::Renew(Reason::Mismatch)
        },
        None => Verdict::UseAndSign,
    }
}

/// What becomes of a cached hash list.
pub open spec fn hashes_verdict(
    rescan: bool,
    cached: Option<usize>,
    found: Option<u64>,
    expected: u64,
) -> Verdict {
    match cached {
        Some(n) => if rescan {
            Verdict::Renew(Reason::Absent)
        } else if n == 0 {
            Verdict::Renew(Reason::Shape)
        } else {
            signed(found, expected)
        },
        None => Verdict::Renew(Reason::Absent),
    }
}

/// Whether a cached hash list is used. `cached` is the number of its lines, if
/// it exists and could be read; `found` its fingerprint, `expected` that of the
/// data set on disk.
pub fn judge_hashes(rescan: bool, cached: Option<usize>, found: Option<u64>, expected: u64) -> (v:
    Verdict)
    ensures
        v == hashes_verdict(rescan, cached, found, expected),
{
    match cached {
        Some(n) => if rescan {
            Verdict::Renew(Reason::Absent)
        } else if n == 0 {
            Verdict::Renew(Reason::Shape)
        } else {
            check_signature(found, expected)
        },
        None => Verdict::Renew(Reason::Absent),
    }
}

// ---------------------------------------------------------------------------
// Ground truth: the nearest neighbours of every query
// ---------------------------------------------------------------------------

/// Neighbours of one query: distance and text of each.
pub type Neighbors = Vec<(u32, String)>;

/// The contents of `Neighbors`.
pub type NeighborsView = Seq<(u32, Seq<char>)>;

/// The rows of neighbours written in `text` as `serde_json` reads them; `None`
/// for any other text.
pub uninterp spec fn truth_rows(text: Seq<char>) -> Option<Seq<NeighborsView>>;

/// What `serde_json` writes for `rows`.
pub uninterp spec fn truth_text(rows: Seq<NeighborsView>) -> Seq<char>;

/// `serde_json::from_str` on `text`, for rows of neighbours. Claimed: what comes
/// back depends on the text alone. Not said is which text holds rows.
#[verifier::external_body]
fn parse_truth(text: &str) -> (r: Option<Vec<Neighbors>>)
    ensures
        r is Some <==> truth_rows(text@) is Some,
        r matches Some(rows) ==> truth_rows(text@) == Some(rows.deep_view()),
{
    serde_json::from_str(text).ok()
}

/// `serde_json::to_string` on rows of neighbours, which cannot fail: numbers and
/// strings in arrays can always be written. Claimed: the text depends on the
/// rows alone, and reading it gives the rows back.
#[verifier::external_body]
fn print_truth(rows: &Vec<Neighbors>) -> (text: String)
    ensures
        text@ == truth_text(rows.deep_view()),
        truth_rows(text@) == Some(rows.deep_view()),
{
    serde_json::to_string(rows).unwrap()
}

/// There is a row for every query, and each is `k` deep at least.
pub open spec fn covers(rows: Seq<NeighborsView>, queries: usize, k: usize) -> bool {
    &&& rows.len() == queries
    &&& forall|i: int| 0 <= i < rows.len() ==> (#[trigger] rows[i]).len() >= k
}

/// What becomes of cached rows: they are used only if they cover every query at
/// depth `k`.
pub open spec fn rows_verdict(
    rows: Seq<NeighborsView>,
    queries: usize,
    k: usize,
    found: Option<u64>,
    expected: u64,
) -> Verdict {
    if covers(rows, queries, k) {
        signed(found, expected)
    } else {
        Verdict::Renew(Reason::Shape)
    }
}

/// What becomes of cached ground truth, by the text of its file.
pub open spec fn text_verdict(
    text: Option<Seq<char>>,
    queries: usize,
    k: usize,
    found: Option<u64>,
    expected: u64,
) -> Verdict {
    match text {
        None => Verdict::Renew(Reason::Absent),
        Some(t) => match truth_rows(t) {
            None => Verdict::Renew(Reason::Unreadable),
            Some(rows) => rows_verdict(rows, queries, k, found, expected),
        },
    }
}

/// The characters of a text, if there is one.
pub open spec fn text_view(text: Option<&str>) -> Option<Seq<char>> {
    match text {
        Some(t) => Some(t@),
        None => None,
    }
}

/// Whether cached rows are used: only if they cover every query at depth `k`.
pub fn judge_truth(
    rows: &Vec<Neighbors>,
    queries: usize,
    k: usize,
    found: Option<u64>,
    expected: u64,
) -> (v: Verdict)
    ensures
        v == rows_verdict(rows.deep_view(), queries, k, found, expected),
{
    let ghost all = rows.deep_view();
    if rows.len() != queries {
        return Verdict::Renew(Reason::Shape);
    }
    let mut i: usize = 0;
    while i < rows.len()
        invariant
            all == rows.deep_view(),
            i <= rows@.len(),
            rows@.len() == queries,
            forall|j: int| 0 <= j < i ==> (#[trigger] all[j]).len() >= k,
        decreases rows@.len() - i,
    {
        assert(all[i as int] == rows@[i as int].deep_view());
        if rows[i].len() < k {
            return Verdict::Renew(Reason::Shape);
        }
        i = i + 1;
    }
    check_signature(found, expected)
}

/// Reads cached ground truth: what becomes of it, and its rows where it is used.
/// `text` is what its file holds, if there is one that can be read.
pub fn read_truth(
    text: Option<&str>,
    queries: usize,
    k: usize,
    found: Option<u64>,
    expected: u64,
) -> (r: (Verdict, Vec<Neighbors>))
    ensures
        r.0 == text_verdict(text_view(text), queries, k, found, expected),
        r.0 is Use || r.0 is UseAndSign ==> text is Some && truth_rows((text->0)@) == Some(
            r.1.deep_view(),
        ),
        r.0 is Renew ==> r.1@.len() == 0,
{
    match text {
        None => (Verdict::Renew(Reason::Absent), Vec::new()),
        Some(t) => match parse_truth(t) {
            None => (Verdict::Renew(Reason::Unreadable), Vec::new()),
            Some(rows) => {
                let v: Verdict = judge_truth(&rows, queries, k, found, expected);
                match v {
                    Verdict::Renew(_) => (v, Vec::new()),
                    _ => (v, rows),
                }
            },
        },
    }
}

/// The text under which ground truth is cached.
pub fn write_truth(rows: &Vec<Neighbors>) -> (text: String)
    ensures
        text@ == truth_text(rows.deep_view()),
        truth_rows(text@) == Some(rows.deep_view()),
{
    print_truth(rows)
}

/// Ground truth that was written is used by a run over the same data, for as
/// many queries and no greater depth.
pub proof fn lemma_written_truth_is_used(
    text: Seq<char>,
    rows: Seq<NeighborsView>,
    queries: usize,
    k: usize,
    fp: u64,
)
    requires
        truth_rows(text) == Some(rows),
        covers(rows, queries, k),
    ensures
        text_verdict(Some(text), queries, k, Some(fp), fp) == Verdict::Use,
{
}

// ---------------------------------------------------------------------------
// Ground truth: the nearest neighbour alone
// ---------------------------------------------------------------------------

/// The neighbours written in `text`, one for every query, as `serde_json` reads
/// them; `None` for any other text.
pub uninterp spec fn nearest_row(text: Seq<char>) -> Option<NeighborsView>;

/// What `serde_json` writes for `row`.
pub uninterp spec fn nearest_text(row: NeighborsView) -> Seq<char>;

/// `serde_json::from_str` on `text`, for a row of neighbours. Claimed: what comes
/// back depends on the text alone. Not said is which text holds a row.
#[verifier::external_body]
fn parse_nearest(text: &str) -> (r: Option<Neighbors>)
    ensures
        r is Some <==> nearest_row(text@) is Some,
        r matches Some(row) ==> nearest_row(text@) == Some(row.deep_view()),
{
    serde_json::from_str(text).ok()
}

/// `serde_json::to_string` on a row of neighbours, which cannot fail: numbers and
/// strings in arrays can always be written. Claimed: the text depends on the row
/// alone, and reading it gives the row back.
#[verifier::external_body]
fn print_nearest(row: &Neighbors) -> (text: String)
    ensures
        text@ == nearest_text(row.deep_view()),
        nearest_row(text@) == Some(row.deep_view()),
{
    serde_json::to_string(row).unwrap()
}

/// What becomes of cached nearest neighbours: they are used if there is one for
/// every query.
pub open spec fn nearest_verdict(text: Option<Seq<char>>, queries: usize) -> Verdict {
    match text {
        None => Verdict::Renew(Reason::Absent),
        Some(t) => match nearest_row(t) {
            None => Verdict::Renew(Reason::Unreadable),
            Some(row) => if row.len() == queries {
                Verdict::Use
            } else {
                Verdict::Renew(Reason::Shape)
            },
        },
    }
}

/// Reads cached nearest neighbours: what becomes of them, and the neighbours
/// where they are used.
pub fn read_nearest(text: Option<&str>, queries: usize) -> (r: (Verdict, Neighbors))
    ensures
        r.0 == nearest_verdict(text_view(text), queries),
        r.0 is Use ==> text is Some && nearest_row((text->0)@) == Some(r.1.deep_view()),
        r.0 is Renew ==> r.1@.len() == 0,
{
    match text {
        None => (Verdict::Renew(Reason::Absent), Vec::new()),
        Some(t) => match parse_nearest(t) {
            None => (Verdict::Renew(Reason::Unreadable), Vec::new()),
            Some(row) => if row.len() == queries {
                (Verdict::Use, row)
            } else {
                (Verdict::Renew(Reason::Shape), Vec::new())
            },
        },
    }
}

/// The text under which nearest neighbours are cached.
pub fn write_nearest(row: &Neighbors) -> (text: String)
    ensures
        text@ == nearest_text(row.deep_view()),
        nearest_row(text@) == Some(row.deep_view()),
{
    print_nearest(row)
}

/// Nearest neighbours that were written are used by a run with as many queries.
pub proof fn lemma_written_nearest_is_used(text: Seq<char>, row: NeighborsView, queries: usize)
    requires
        nearest_row(text) == Some(row),
        row.len() == queries,
    ensures
        nearest_verdict(Some(text), queries) == Verdict::Use,
{
}

// ---------------------------------------------------------------------------
// Models
// ---------------------------------------------------------------------------

/// How far a cached model could be read.
#[derive(Clone, Copy, Debug, PartialEq, Eq, Structural)]
pub enum CachedModel {
    /// There is none, or none is asked for.
    Absent,
    /// It is not a model.
    Unreadable,
    /// The number of its records.
    Records(usize),
}

/// What becomes of a cached model.
pub open spec fn model_verdict(
    cached: CachedModel,
    given: usize,
    found: Option<u64>,
    expected: u64,
) -> Verdict {
    match cached {
        CachedModel::Absent => Verdict::Renew(Reason::Absent),
        CachedModel::Unreadable => Verdict::Renew(Reason::Unreadable),
        CachedModel::Records(n) => if found is None && (n == 0 || n > given) {
            Verdict::Renew(Reason::Shape)
        } else {
            signed(found, expected)
        },
    }
}

/// Whether a cached model is used. The fingerprint decides; a model without one
/// is accepted if it holds records, and no more than the `given` ones that it
/// would be built from. It may hold fewer: records that share a key are kept
/// once.
pub fn judge_model(cached: CachedModel, given: usize, found: Option<u64>, expected: u64) -> (v:
    Verdict)
    ensures
        v == model_verdict(cached, given, found, expected),
{
    match cached {
        CachedModel::Absent => Verdict::Renew(Reason::Absent),
        CachedModel::Unreadable => Verdict::Renew(Reason::Unreadable),
        CachedModel::Records(n) => if found.is_none() && (n == 0 || n > given) {
            Verdict::Renew(Reason::Shape)
        } else {
            check_signature(found, expected)
        },
    }
}

/// No cache is used against its fingerprint, whatever it looks like.
pub proof fn lemma_mismatch_refused(
    found: u64,
    expected: u64,
    rescan: bool,
    lines: Option<usize>,
    text: Option<Seq<char>>,
    queries: usize,
    k: usize,
    model: CachedModel,
    given: usize,
)
    requires
        found != expected,
    ensures
        hashes_verdict(rescan, lines, Some(found), expected) is Renew,
        text_verdict(text, queries, k, Some(found), expected) is Renew,
        model_verdict(model, given, Some(found), expected) is Renew,
{
}

} // verus!
