//! Hash lists: out of JSON documents, filtered, and cut into what is indexed and
//! what is asked for.

use crate::controllers::radix_tree::RadixNode;
use crate::controllers::search::lesser;
use crate::datalayer::algorithms::{is_tlsh_text, TlshHash};
use crate::harness::text::{decimal, push_decimal, same_text, texts};
use serde_json::Value;
use vstd::prelude::*;
use vstd::utf8::{encode_utf8, encode_utf8_decode_utf8};

verus! {

// ---------------------------------------------------------------------------
// JSON documents
// ---------------------------------------------------------------------------

/// The members of a JSON object: name, and text where the member is a string.
pub type JsonRow = Vec<(String, Option<String>)>;

/// The members of a JSON value, if it is an object.
pub type JsonItem = Option<JsonRow>;

/// A JSON document: its items, if it is an array, and its members, if it is an
/// object.
pub type JsonDoc = (Option<Vec<JsonItem>>, Option<Vec<(String, JsonItem)>>);

/// The contents of the members of an object.
pub type RowView = Seq<(Seq<char>, Option<Seq<char>>)>;

/// The contents of a document.
pub type DocView = (Option<Seq<Option<RowView>>>, Option<Seq<(Seq<char>, Option<RowView>)>>);

/// The document written in `text` as `serde_json` reads it; `None` for text that
/// is not a document.
pub uninterp spec fn json_document(text: Seq<char>) -> Option<DocView>;

/// `serde_json::from_str` on `text`, for a `Value`: its items (`as_array`), its
/// members (`as_object`) and of each of these the members. Claimed: what comes
/// back depends on the text alone. Not said is which text is a document, and
/// what it holds.
#[verifier::external_body]
fn parse_json(text: &str) -> (r: Option<JsonDoc>)
    ensures
        r is Some <==> json_document(text@) is Some,
        r matches Some(doc) ==> json_document(text@) == Some(doc.deep_view()),
{
    let value: Value = serde_json::from_str(text).ok()?;
    let member = |(k, v): (&String, &Value)| (k.clone(), v.as_str().map(str::to_owned));
    let item = |v: &Value| v.as_object().map(|m| m.iter().map(member).collect());
    let items = value.as_array().map(|a| a.iter().map(item).collect());
    let members = value.as_object();
    Some((items, members.map(|m| m.iter().map(|(k, v)| (k.clone(), item(v))).collect())))
}

/// The members of an item; none where it is no object.
pub open spec fn row_of(item: Option<RowView>) -> RowView {
    match item {
        Some(row) => row,
        None => Seq::empty(),
    }
}

/// The rows of the items of an array.
pub open spec fn item_rows(items: Seq<Option<RowView>>) -> Seq<RowView> {
    items.map_values(|x: Option<RowView>| row_of(x))
}

/// The rows of the members of an object; their names do not count.
pub open spec fn member_rows(members: Seq<(Seq<char>, Option<RowView>)>) -> Seq<RowView> {
    members.map_values(|m: (Seq<char>, Option<RowView>)| row_of(m.1))
}

/// The rows of a document: of the items of an array, or of the members of an
/// object. Any other document has none.
pub open spec fn document_rows(doc: DocView) -> Seq<RowView> {
    match doc {
        (Some(items), _) => item_rows(items),
        (None, Some(members)) => member_rows(members),
        (None, None) => Seq::empty(),
    }
}

/// The rows of a document, if it is an array.
pub open spec fn array_rows(doc: DocView) -> Seq<RowView> {
    match doc.0 {
        Some(items) => item_rows(items),
        None => Seq::empty(),
    }
}

/// The text under `field`.
pub open spec fn field_of(
    row: RowView,
    field: Seq<char>,
) -> Option<Seq<char>>
    decreases row.len(),
{
    if row.len() == 0 {
        None
    } else if row[0].0 == field {
        row[0].1
    } else {
        field_of(row.drop_first(), field)
    }
}

/// The text of a row that counts: it is there, it is not `null`, and unless
/// `empty` is set it is not empty.
pub open spec fn counts(text: Option<Seq<char>>, null: Seq<char>, empty: bool) -> bool {
    match text {
        Some(t) => t != null && (empty || t.len() > 0),
        None => false,
    }
}

/// The texts under `field` that count, in the order of the rows.
pub open spec fn field_texts(
    rows: Seq<RowView>,
    field: Seq<char>,
    null: Seq<char>,
    empty: bool,
) -> Seq<Seq<char>>
    decreases rows.len(),
{
    if rows.len() == 0 {
        Seq::empty()
    } else {
        let before = field_texts(rows.drop_last(), field, null, empty);
        let text = field_of(rows.last(), field);
        if counts(text, null, empty) {
            before.push(text->0)
        } else {
            before
        }
    }
}

/// The text under `field`.
fn field_in(row: &JsonRow, field: &str) -> (r: Option<String>)
    ensures
        r is Some <==> field_of(row.deep_view(), field@) is Some,
        r matches Some(t) ==> field_of(row.deep_view(), field@) == Some(t@),
{
    let ghost all = row.deep_view();
    let mut i: usize = 0;
    assert(all.skip(0) =~= all);
    while i < row.len()
        invariant
            all == row.deep_view(),
            i <= row@.len(),
            field_of(all, field@) == field_of(all.skip(i as int), field@),
        decreases row@.len() - i,
    {
        proof {
            assert(all.skip(i as int)[0] == all[i as int]);
            assert(all[i as int].0 == row@[i as int].0@);
            assert(all.skip(i as int).drop_first() =~= all.skip(i + 1));
        }
        if same_text(row[i].0.as_str(), field) {
            return match &row[i].1 {
                Some(t) => Some(t.clone()),
                None => None,
            };
        }
        i = i + 1;
    }
    None
}

/// Appends the text of a row, if it counts.
pub fn push_field(row: &JsonRow, field: &str, null: &str, empty: bool, out: &mut Vec<String>)
    ensures
        ({
            let text = field_of(row.deep_view(), field@);
            texts(final(out)@) == if counts(text, null@, empty) {
                texts(old(out)@).push(text->0)
            } else {
                texts(old(out)@)
            }
        }),
{
    match field_in(row, field) {
        Some(t) => {
            let blank: bool = t.as_str().is_empty();
            proof {
                assert(blank == (t@.len() == 0)) by {
                    lemma_empty_text(t@);
                }
            }
            if !same_text(t.as_str(), null) && (empty || !blank) {
                let ghost shown = t@;
                out.push(t);
                assert(texts(out@) =~= texts(old(out)@).push(shown));
            }
        },
        None => {},
    }
}

/// No text but the empty one has no bytes.
proof fn lemma_empty_text(s: Seq<char>)
    ensures
        encode_utf8(s).len() == 0 <==> s.len() == 0,
{
    encode_utf8_decode_utf8(s);
    encode_utf8_decode_utf8(Seq::<char>::empty());
    if encode_utf8(s).len() == 0 {
        assert(encode_utf8(s) =~= encode_utf8(Seq::<char>::empty()));
    }
}

/// Appends the text of an item, if it is an object and the text counts.
fn push_item(item: &JsonItem, field: &str, null: &str, empty: bool, out: &mut Vec<String>)
    ensures
        ({
            let text = field_of(row_of(item.deep_view()), field@);
            texts(final(out)@) == if counts(text, null@, empty) {
                texts(old(out)@).push(text->0)
            } else {
                texts(old(out)@)
            }
        }),
{
    match item {
        Some(row) => push_field(row, field, null, empty, out),
        None => {},
    }
}

/// The texts under `field` that count, in the order of the items.
fn collect_items(items: &Vec<JsonItem>, field: &str, null: &str, empty: bool) -> (out: Vec<String>)
    ensures
        texts(out@) == field_texts(item_rows(items.deep_view()), field@, null@, empty),
{
    let ghost all = item_rows(items.deep_view());
    let mut out: Vec<String> = Vec::new();
    let mut i: usize = 0;
    assert(all.take(0) =~= Seq::<RowView>::empty());
    assert(texts(out@) =~= Seq::<Seq<char>>::empty());
    while i < items.len()
        invariant
            all == item_rows(items.deep_view()),
            i <= items@.len(),
            texts(out@) == field_texts(all.take(i as int), field@, null@, empty),
        decreases items@.len() - i,
    {
        proof {
            assert(all.take(i + 1).drop_last() =~= all.take(i as int));
            assert(all.take(i + 1).last() == row_of(items@[i as int].deep_view()));
        }
        push_item(&items[i], field, null, empty, &mut out);
        i = i + 1;
    }
    assert(all.take(items@.len() as int) =~= all);
    out
}

/// The texts under `field` that count, in the order of the members.
fn collect_members(members: &Vec<(String, JsonItem)>, field: &str, null: &str, empty: bool) -> (out:
    Vec<String>)
    ensures
        texts(out@) == field_texts(member_rows(members.deep_view()), field@, null@, empty),
{
    let ghost all = member_rows(members.deep_view());
    let mut out: Vec<String> = Vec::new();
    let mut i: usize = 0;
    assert(all.take(0) =~= Seq::<RowView>::empty());
    assert(texts(out@) =~= Seq::<Seq<char>>::empty());
    while i < members.len()
        invariant
            all == member_rows(members.deep_view()),
            i <= members@.len(),
            texts(out@) == field_texts(all.take(i as int), field@, null@, empty),
        decreases members@.len() - i,
    {
        proof {
            assert(all.take(i + 1).drop_last() =~= all.take(i as int));
            assert(all.take(i + 1).last() == row_of(members@[i as int].1.deep_view()));
        }
        push_item(&members[i].1, field, null, empty, &mut out);
        i = i + 1;
    }
    assert(all.take(members@.len() as int) =~= all);
    out
}

/// The texts under `field` that count, in the order of the rows.
pub fn collect_fields(doc: &JsonDoc, field: &str, null: &str, empty: bool) -> (out: Vec<String>)
    ensures
        texts(out@) == field_texts(document_rows(doc.deep_view()), field@, null@, empty),
{
    match &doc.0 {
        Some(items) => collect_items(items, field, null, empty),
        None => match &doc.1 {
            Some(members) => collect_members(members, field, null, empty),
            None => {
                let out: Vec<String> = Vec::new();
                assert(texts(out@) =~= Seq::<Seq<char>>::empty());
                out
            },
        },
    }
}

// ---------------------------------------------------------------------------
// Filtering
// ---------------------------------------------------------------------------

/// The texts at which `flags` is set.
pub open spec fn flagged_texts(list: Seq<Seq<char>>, flags: Seq<bool>) -> Seq<Seq<char>>
    decreases list.len(),
{
    if list.len() == 0 {
        Seq::empty()
    } else {
        let before = flagged_texts(list.drop_last(), flags);
        if flags[list.len() - 1] {
            before.push(list.last())
        } else {
            before
        }
    }
}

/// For every text whether it is that of a TLSH digest.
pub open spec fn tlsh_flags(list: Seq<Seq<char>>) -> Seq<bool> {
    Seq::new(list.len(), |i: int| is_tlsh_text(list[i]))
}

/// Every text where it occurs first.
pub open spec fn first_texts(list: Seq<Seq<char>>) -> Seq<Seq<char>>
    decreases list.len(),
{
    if list.len() == 0 {
        Seq::empty()
    } else {
        let before = first_texts(list.drop_last());
        if list.drop_last().contains(list.last()) {
            before
        } else {
            before.push(list.last())
        }
    }
}

/// Dropping repetitions drops no text, and leaves none twice.
pub proof fn lemma_first_texts(list: Seq<Seq<char>>)
    ensures
        first_texts(list).no_duplicates(),
        forall|t: Seq<char>| #[trigger] first_texts(list).contains(t) <==> list.contains(t),
    decreases list.len(),
{
    if list.len() > 0 {
        let shorter = list.drop_last();
        lemma_first_texts(shorter);
        let a = first_texts(shorter);
        let b = first_texts(list);
        let last = list.last();
        assert forall|t: Seq<char>| #[trigger] b.contains(t) <==> list.contains(t) by {
            assert(a.contains(t) <==> shorter.contains(t));
            if list.contains(t) {
                let k = choose|k: int| 0 <= k < list.len() && list[k] == t;
                if k < shorter.len() {
                    assert(shorter[k] == t);
                    let l = choose|l: int| 0 <= l < a.len() && a[l] == t;
                    assert(b[l] == t);
                } else if !shorter.contains(last) {
                    assert(b[a.len() as int] == t);
                } else {
                    let l = choose|l: int| 0 <= l < a.len() && a[l] == t;
                    assert(b[l] == t);
                }
            }
            if b.contains(t) {
                let l = choose|l: int| 0 <= l < b.len() && b[l] == t;
                if l < a.len() {
                    assert(a[l] == t);
                    let k = choose|k: int| 0 <= k < shorter.len() && shorter[k] == t;
                    assert(list[k] == t);
                } else {
                    assert(list[list.len() - 1] == t);
                }
            }
        }
        if !shorter.contains(last) {
            assert(!a.contains(last));
            assert forall|i: int, j: int| 0 <= i < b.len() && 0 <= j < b.len() && i != j implies b[i]
                != b[j] by {
                if i < a.len() && j < a.len() {
                    assert(a[i] != a[j]);
                } else if i < a.len() {
                    assert(a.contains(a[i]));
                } else {
                    assert(a.contains(a[j]));
                }
            }
        }
    }
}

/// The texts at which `flags` is set.
pub fn retain_flagged(list: &Vec<String>, flags: &Vec<bool>) -> (out: Vec<String>)
    requires
        flags@.len() == list@.len(),
    ensures
        texts(out@) == flagged_texts(texts(list@), flags@),
{
    let ghost all = texts(list@);
    let mut out: Vec<String> = Vec::new();
    let mut i: usize = 0;
    assert(all.take(0) =~= Seq::<Seq<char>>::empty());
    assert(texts(out@) =~= Seq::<Seq<char>>::empty());
    while i < list.len()
        invariant
            all == texts(list@),
            flags@.len() == list@.len(),
            i <= list@.len(),
            texts(out@) == flagged_texts(all.take(i as int), flags@),
        decreases list@.len() - i,
    {
        let ghost before = texts(out@);
        proof {
            assert(all.take(i + 1).drop_last() =~= all.take(i as int));
            assert(all.take(i + 1).last() == list@[i as int]@);
        }
        if flags[i] {
            out.push(list[i].clone());
            assert(texts(out@) =~= before.push(list@[i as int]@));
        }
        i = i + 1;
    }
    assert(all.take(list@.len() as int) =~= all);
    out
}

/// Every text where it occurs first.
pub fn drop_repeated(list: &Vec<String>) -> (out: Vec<String>)
    ensures
        texts(out@) == first_texts(texts(list@)),
{
    let ghost all = texts(list@);
    let mut out: Vec<String> = Vec::new();
    let mut seen: RadixNode<u8, ()> = RadixNode::new(Vec::new(), None);
    let mut i: usize = 0;
    assert(all.take(0) =~= Seq::<Seq<char>>::empty());
    assert(texts(out@) =~= Seq::<Seq<char>>::empty());
    while i < list.len()
        invariant
            all == texts(list@),
            i <= list@.len(),
            seen.wf(),
            forall|t: Seq<char>|
                seen.get(#[trigger] encode_utf8(t)) is Some <==> all.take(i as int).contains(t),
            texts(out@) == first_texts(all.take(i as int)),
        decreases list@.len() - i,
    {
        let ghost before = texts(out@);
        let ghost seen0 = seen;
        let ghost t = list@[i as int]@;
        let ghost done = all.take(i as int);
        let ghost next = all.take(i + 1);
        proof {
            assert(next.drop_last() =~= done);
            assert(next.last() == t);
            assert(next =~= done.push(t));
        }
        let bytes: Vec<u8> = vstd::slice::slice_to_vec(list[i].as_str().as_bytes());
        assert(bytes@ == encode_utf8(t));
        if seen.find(bytes.as_slice()).is_none() {
            seen.insert(bytes, ());
            out.push(list[i].clone());
            assert(texts(out@) =~= before.push(t));
        }
        proof {
            assert forall|u: Seq<char>|
                seen.get(#[trigger] encode_utf8(u)) is Some <==> next.contains(u) by {
                assert(seen0.get(encode_utf8(u)) is Some <==> done.contains(u));
                encode_utf8_decode_utf8(u);
                encode_utf8_decode_utf8(t);
                assert(next[done.len() as int] == t);
                if done.contains(u) {
                    let k = choose|k: int| 0 <= k < done.len() && done[k] == u;
                    assert(next[k] == u);
                }
                if next.contains(u) && u != t {
                    let k = choose|k: int| 0 <= k < next.len() && next[k] == u;
                    assert(done[k] == u);
                }
            }
        }
        i = i + 1;
    }
    assert(all.take(list@.len() as int) =~= all);
    out
}

/// For every text whether it is that of a TLSH digest.
fn flag_tlsh(list: &Vec<String>) -> (flags: Vec<bool>)
    ensures
        flags@ == tlsh_flags(texts(list@)),
{
    let mut flags: Vec<bool> = Vec::new();
    let mut i: usize = 0;
    while i < list.len()
        invariant
            i <= list@.len(),
            flags@ =~= tlsh_flags(texts(list@)).take(i as int),
        decreases list@.len() - i,
    {
        flags.push(TlshHash::parse(list[i].as_str()).is_some());
        i = i + 1;
    }
    assert(flags@ =~= tlsh_flags(texts(list@)));
    flags
}

// ---------------------------------------------------------------------------
// Reading
// ---------------------------------------------------------------------------

/// A list, without repetitions where `dedup` is set.
pub open spec fn maybe_first(list: Seq<Seq<char>>, dedup: bool) -> Seq<Seq<char>> {
    if dedup {
        first_texts(list)
    } else {
        list
    }
}

/// Of the texts of TLSH digests those that are one.
pub open spec fn tlsh_list(list: Seq<Seq<char>>, dedup: bool) -> Seq<Seq<char>> {
    maybe_first(flagged_texts(list, tlsh_flags(list)), dedup)
}

/// The TLSH digests under `field` in a document, an array of objects or an
/// object of objects; `None` for text that is not a document.
pub fn read_tlsh_hashes(data: &str, field: &str, dedup: bool) -> (r: Option<Vec<String>>)
    ensures
        r is Some <==> json_document(data@) is Some,
        r matches Some(out) ==> texts(out@) == tlsh_list(
            field_texts(document_rows(json_document(data@)->0), field@, "TNULL"@, false),
            dedup,
        ),
{
    match parse_json(data) {
        None => None,
        Some(doc) => {
            let list: Vec<String> = collect_fields(&doc, field, "TNULL", false);
            Some(select_tlsh(&list, dedup))
        },
    }
}

/// Of the texts those that are TLSH digests, without repetitions where `dedup`
/// is set.
pub fn select_tlsh(list: &Vec<String>, dedup: bool) -> (out: Vec<String>)
    ensures
        texts(out@) == tlsh_list(texts(list@), dedup),
{
    let flags: Vec<bool> = flag_tlsh(list);
    let valid: Vec<String> = retain_flagged(list, &flags);
    if dedup {
        drop_repeated(&valid)
    } else {
        valid
    }
}

/// The texts under `field` in a document that may be ssdeep signatures; `None`
/// for text that is not a document.
pub fn read_ssdeep_candidates(data: &str, field: &str) -> (r: Option<Vec<String>>)
    ensures
        r is Some <==> json_document(data@) is Some,
        r matches Some(out) ==> texts(out@) == field_texts(
            document_rows(json_document(data@)->0),
            field@,
            "3::"@,
            false,
        ),
{
    match parse_json(data) {
        None => None,
        Some(doc) => Some(collect_fields(&doc, field, "3::", false)),
    }
}

/// Of the candidates those found valid, without repetitions where `dedup` is
/// set.
pub fn select_valid(list: &Vec<String>, valid: &Vec<bool>, dedup: bool) -> (out: Vec<String>)
    requires
        valid@.len() == list@.len(),
    ensures
        texts(out@) == maybe_first(flagged_texts(texts(list@), valid@), dedup),
{
    let kept: Vec<String> = retain_flagged(list, valid);
    if dedup {
        drop_repeated(&kept)
    } else {
        kept
    }
}

/// The texts under `TLSH` in an array of objects; nothing for any other
/// document, and `None` for text that is not a document.
pub fn read_hashes_from_json(data: &str) -> (r: Option<Vec<String>>)
    ensures
        r is Some <==> json_document(data@) is Some,
        r matches Some(out) ==> texts(out@) == array_texts(json_document(data@)->0),
{
    match parse_json(data) {
        None => None,
        Some(doc) => Some(texts_of_array(&doc)),
    }
}

/// The texts under `TLSH` of a document, if it is an array.
pub open spec fn array_texts(doc: DocView) -> Seq<Seq<char>> {
    field_texts(array_rows(doc), "TLSH"@, "TNULL"@, true)
}

/// The texts under `TLSH` of a document, if it is an array.
pub fn texts_of_array(doc: &JsonDoc) -> (out: Vec<String>)
    ensures
        texts(out@) == array_texts(doc.deep_view()),
{
    match &doc.0 {
        Some(items) => collect_items(items, "TLSH", "TNULL", true),
        None => {
            let out: Vec<String> = Vec::new();
            assert(texts(out@) =~= Seq::<Seq<char>>::empty());
            out
        },
    }
}

// ---------------------------------------------------------------------------
// Slices
// ---------------------------------------------------------------------------

/// What is indexed and what is asked for: positions in the hash list.
#[derive(Clone, Copy, Debug, PartialEq, Eq, Structural)]
pub struct SlicePlan {
    pub dataset_size: usize,
    pub query_start: usize,
    pub query_end: usize,
}

/// Why no plan can be made.
#[derive(Clone, Copy, Debug, PartialEq, Eq, Structural)]
pub enum PlanError {
    /// Nothing would be indexed.
    EmptyDataset,
    /// Nothing would be asked for.
    NoQueries,
}

/// How many of `total` are indexed when `wanted` are asked for. Where
/// `zero_is_all` is set, asking for none asks for all.
pub open spec fn indexed_count(total: int, wanted: int, zero_is_all: bool) -> int {
    if zero_is_all && wanted == 0 {
        total
    } else {
        lesser(wanted, total)
    }
}

/// The first query: the one asked for, else the first that is not indexed.
pub open spec fn first_query(total: int, indexed: int, start: Option<usize>) -> int {
    match start {
        Some(s) => lesser(s as int, total),
        None => indexed,
    }
}

/// `r` is the plan for a list of `total` hashes: what is indexed, then what is asked for.
pub open spec fn plans(
    total: usize,
    wanted: usize,
    zero_is_all: bool,
    start: Option<usize>,
    count: usize,
    r: Result<SlicePlan, PlanError>,
) -> bool {
    let indexed = indexed_count(total as int, wanted as int, zero_is_all);
    let from = first_query(total as int, indexed, start);
    let to = lesser(from + count, total as int);
    &&& r == Err::<SlicePlan, PlanError>(PlanError::EmptyDataset) <==> indexed == 0
    &&& r == Err::<SlicePlan, PlanError>(PlanError::NoQueries) <==> indexed > 0 && from == to
    &&& r is Ok <==> indexed > 0 && from < to
    &&& r matches Ok(p) ==> p.dataset_size == indexed && p.query_start == from && p.query_end == to
        && p.query_end <= total && p.dataset_size <= total
}

/// Plans the slices of a list of `total` hashes.
pub fn plan_slices(
    total: usize,
    wanted: usize,
    zero_is_all: bool,
    start: Option<usize>,
    count: usize,
) -> (r: Result<SlicePlan, PlanError>)
    ensures
        plans(total, wanted, zero_is_all, start, count, r),
        ({
            let indexed = indexed_count(total as int, wanted as int, zero_is_all);
            let from = first_query(total as int, indexed, start);
            let to = lesser(from + count, total as int);
            &&& r == Err::<SlicePlan, PlanError>(PlanError::EmptyDataset) <==> indexed == 0
            &&& r == Err::<SlicePlan, PlanError>(PlanError::NoQueries) <==> indexed > 0 && from
                == to
            &&& r is Ok <==> indexed > 0 && from < to
            &&& r matches Ok(p) ==> p.dataset_size == indexed && p.query_start == from
                && p.query_end == to && p.query_end <= total && p.dataset_size <= total
        }),
{
    let indexed: usize = if zero_is_all && wanted == 0 {
        total
    } else if wanted < total {
        wanted
    } else {
        total
    };
    let from: usize = match start {
        Some(s) => if s < total {
            s
        } else {
            total
        },
        None => indexed,
    };
    let to: usize = if count < total - from {
        from + count
    } else {
        total
    };
    if indexed == 0 {
        return Err(PlanError::EmptyDataset);
    }
    if from >= to {
        return Err(PlanError::NoQueries);
    }
    Ok(SlicePlan { dataset_size: indexed, query_start: from, query_end: to })
}

// ---------------------------------------------------------------------------
// Cache file names
// ---------------------------------------------------------------------------

/// The part of a cache name that says whether repetitions were dropped.
pub open spec fn dedup_label(dedup: bool) -> Seq<char> {
    if dedup {
        "dedup"@
    } else {
        "all"@
    }
}

/// The part of a cache name that says how the list was shuffled.
pub open spec fn shuffle_label(shuffle: Option<u64>) -> Seq<char> {
    match shuffle {
        Some(seed) => "shuf"@ + decimal(seed as nat),
        None => "noshuf"@,
    }
}

/// The name of the data set, or a stand-in where it has none.
pub open spec fn stem_label(stem: Option<String>) -> Seq<char> {
    match stem {
        Some(s) => s@,
        None => "dataset"@,
    }
}

/// The tail of a cache name: the sizes.
pub open spec fn sizes_label(dataset_size: usize, start: usize, count: usize) -> Seq<char> {
    "_"@ + decimal(dataset_size as nat) + "_"@ + decimal(start as nat) + "_"@ + decimal(
        count as nat,
    ) + ".json"@
}

fn push_sizes(s: &mut String, dataset_size: usize, start: usize, count: usize)
    ensures
        final(s)@ == old(s)@ + sizes_label(dataset_size, start, count),
{
    s.append("_");
    push_decimal(s, dataset_size as u64);
    s.append("_");
    push_decimal(s, start as u64);
    s.append("_");
    push_decimal(s, count as u64);
    s.append(".json");
    assert(s@ =~= old(s)@ + sizes_label(dataset_size, start, count));
}

fn push_stem(s: &mut String, stem: &Option<String>)
    ensures
        final(s)@ == old(s)@ + stem_label(*stem),
{
    match stem {
        Some(t) => s.append(t.as_str()),
        None => s.append("dataset"),
    }
}

fn push_dedup(s: &mut String, dedup: bool)
    ensures
        final(s)@ == old(s)@ + dedup_label(dedup),
{
    if dedup {
        s.append("dedup");
    } else {
        s.append("all");
    }
}

/// Where the ground truth of a run over ssdeep signatures is cached: the file
/// asked for, else one named after everything that it depends on.
pub fn ssdeep_cache_path(
    asked: &Option<String>,
    stem: &Option<String>,
    dedup: bool,
    shuffle: Option<u64>,
    dataset_size: usize,
    start: usize,
    count: usize,
) -> (path: String)
    ensures
        path@ == match asked {
            Some(p) => p@,
            None => ".brute_cache_ssdeep_"@ + stem_label(*stem) + "_"@ + dedup_label(dedup) + "_"@
                + shuffle_label(shuffle) + sizes_label(dataset_size, start, count),
        },
{
    match asked {
        Some(p) => p.clone(),
        None => {
            let mut s: String = String::new();
            s.append(".brute_cache_ssdeep_");
            push_stem(&mut s, stem);
            s.append("_");
            push_dedup(&mut s, dedup);
            s.append("_");
            let ghost head = s@;
            match shuffle {
                Some(seed) => {
                    s.append("shuf");
                    push_decimal(&mut s, seed);
                    assert(s@ =~= head + shuffle_label(shuffle));
                },
                None => s.append("noshuf"),
            }
            push_sizes(&mut s, dataset_size, start, count);
            assert(s@ =~= ".brute_cache_ssdeep_"@ + stem_label(*stem) + "_"@ + dedup_label(dedup)
                + "_"@ + shuffle_label(shuffle) + sizes_label(dataset_size, start, count));
            s
        },
    }
}

/// Where the ground truth of a run over TLSH digests is cached: the file asked
/// for, else one named after everything that it depends on.
pub fn tlsh_cache_path(
    asked: &Option<String>,
    stem: &Option<String>,
    dedup: bool,
    dataset_size: usize,
    start: usize,
    count: usize,
) -> (path: String)
    ensures
        path@ == match asked {
            Some(p) => p@,
            None => ".brute_cache_tlsh_"@ + stem_label(*stem) + "_"@ + dedup_label(dedup)
                + sizes_label(dataset_size, start, count),
        },
{
    match asked {
        Some(p) => p.clone(),
        None => {
            let mut s: String = String::new();
            s.append(".brute_cache_tlsh_");
            push_stem(&mut s, stem);
            s.append("_");
            push_dedup(&mut s, dedup);
            push_sizes(&mut s, dataset_size, start, count);
            assert(s@ =~= ".brute_cache_tlsh_"@ + stem_label(*stem) + "_"@ + dedup_label(dedup)
                + sizes_label(dataset_size, start, count));
            s
        },
    }
}

} // verus!
