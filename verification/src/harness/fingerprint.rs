//! Stable content hashes of what a cache was derived from.

use crate::bytes::{le32, le64, lemma_le32_back, to_le64};
use crate::harness::text::texts;
use vstd::prelude::*;
use vstd::utf8::{encode_scalar, encode_utf8, encode_utf8_decode_utf8};

verus! {

/// Where a hash starts.
pub const FNV_OFFSET: u64 = 0xcbf2_9ce4_8422_2325;

/// The 64-bit FNV-1a hash of `bytes`, starting at `h`.
pub open spec fn fnv(bytes: Seq<u8>, h: u64) -> u64
    decreases bytes.len(),
{
    if bytes.len() == 0 {
        h
    } else {
        (fnv(bytes.drop_last(), h) ^ (bytes.last() as u64)).wrapping_mul(0x0000_0100_0000_01B3)
    }
}

/// Hashing goes on where it stopped.
pub proof fn lemma_fnv_add(a: Seq<u8>, b: Seq<u8>, h: u64)
    ensures
        fnv(a + b, h) == fnv(b, fnv(a, h)),
    decreases b.len(),
{
    if b.len() == 0 {
        assert(a + b =~= a);
    } else {
        assert((a + b).drop_last() =~= a + b.drop_last());
        lemma_fnv_add(a, b.drop_last(), h);
    }
}

/// The 64-bit FNV-1a hash of `bytes`, starting at `h`.
pub fn fnv1a64(bytes: &[u8], h: u64) -> (r: u64)
    ensures
        r == fnv(bytes@, h),
{
    let mut r: u64 = h;
    let mut i: usize = 0;
    assert(bytes@.take(0) =~= Seq::<u8>::empty());
    while i < bytes.len()
        invariant
            i <= bytes@.len(),
            r == fnv(bytes@.take(i as int), h),
        decreases bytes@.len() - i,
    {
        assert(bytes@.take(i + 1).drop_last() =~= bytes@.take(i as int));
        r = (r ^ (bytes[i] as u64)).wrapping_mul(0x0000_0100_0000_01B3);
        i = i + 1;
    }
    assert(bytes@.take(bytes@.len() as int) =~= bytes@);
    r
}

/// The bytes that stand for strings: those of each, and a separator that no text
/// holds.
pub open spec fn record_bytes(list: Seq<String>) -> Seq<u8>
    decreases list.len(),
{
    if list.len() == 0 {
        Seq::empty()
    } else {
        record_bytes(list.drop_last()) + encode_utf8(list.last()@) + seq![0xffu8]
    }
}

/// The bytes that stand for lists of strings: of each its length and its
/// strings.
pub open spec fn list_bytes(lists: Seq<Seq<String>>) -> Seq<u8>
    decreases lists.len(),
{
    if lists.len() == 0 {
        Seq::empty()
    } else {
        list_bytes(lists.drop_last()) + le64(lists.last().len() as u64) + record_bytes(
            lists.last(),
        )
    }
}

/// The lists behind slices of slices.
pub open spec fn slice_views(slices: Seq<&[String]>) -> Seq<Seq<String>> {
    Seq::new(slices.len(), |i: int| slices[i]@)
}

/// Hash of a list of strings, starting at `h`.
fn hash_records(list: &[String], h: u64) -> (r: u64)
    ensures
        r == fnv(record_bytes(list@), h),
{
    let mut r: u64 = h;
    let mut i: usize = 0;
    assert(list@.take(0) =~= Seq::<String>::empty());
    while i < list.len()
        invariant
            i <= list@.len(),
            r == fnv(record_bytes(list@.take(i as int)), h),
        decreases list@.len() - i,
    {
        let ghost before = list@.take(i as int);
        let bytes: &[u8] = list[i].as_str().as_bytes();
        r = fnv1a64(bytes, r);
        let mut end: Vec<u8> = Vec::new();
        end.push(0xff);
        r = fnv1a64(end.as_slice(), r);
        proof {
            let now = list@.take(i + 1);
            assert(now.drop_last() =~= before);
            assert(now.last() == list@[i as int]);
            lemma_fnv_add(record_bytes(before), bytes@, h);
            lemma_fnv_add(record_bytes(before) + bytes@, end@, h);
            assert(end@ =~= seq![0xffu8]);
        }
        i = i + 1;
    }
    assert(list@.take(list@.len() as int) =~= list@);
    r
}

/// Stable fingerprint over one or more ordered lists of strings.
pub fn fingerprint_slices(slices: &[&[String]]) -> (r: u64)
    ensures
        r == fnv(list_bytes(slice_views(slices@)), FNV_OFFSET),
{
    let ghost lists = slice_views(slices@);
    let mut r: u64 = FNV_OFFSET;
    let mut i: usize = 0;
    assert(lists.take(0) =~= Seq::<Seq<String>>::empty());
    while i < slices.len()
        invariant
            lists == slice_views(slices@),
            i <= slices@.len(),
            r == fnv(list_bytes(lists.take(i as int)), FNV_OFFSET),
        decreases slices@.len() - i,
    {
        let ghost before = lists.take(i as int);
        let list: &[String] = slices[i];
        let len: Vec<u8> = to_le64(list.len() as u64);
        r = fnv1a64(len.as_slice(), r);
        r = hash_records(list, r);
        proof {
            let now = lists.take(i + 1);
            assert(now.drop_last() =~= before);
            assert(now.last() == list@);
            lemma_fnv_add(list_bytes(before), len@, FNV_OFFSET);
            lemma_fnv_add(list_bytes(before) + len@, record_bytes(list@), FNV_OFFSET);
        }
        i = i + 1;
    }
    assert(lists.take(slices@.len() as int) =~= lists);
    r
}

/// The bytes that stand for a file on disk: its path, and as far as they are
/// known its length and the seconds of its last change.
pub open spec fn file_bytes(path: Seq<char>, len: Option<u64>, changed: Option<u64>) -> Seq<u8> {
    encode_utf8(path) + match len {
        Some(l) => le64(l) + match changed {
            Some(t) => le64(t),
            None => Seq::empty(),
        },
        None => Seq::empty(),
    }
}

/// Signature of a file on disk. The time of the last change counts only where
/// the length is known too.
pub fn dataset_signature(path: &str, len: Option<u64>, changed: Option<u64>) -> (r: u64)
    ensures
        r == fnv(file_bytes(path@, len, changed), FNV_OFFSET),
{
    let bytes: &[u8] = path.as_bytes();
    let mut r: u64 = fnv1a64(bytes, FNV_OFFSET);
    let ghost p = encode_utf8(path@);
    if let Some(l) = len {
        let b: Vec<u8> = to_le64(l);
        r = fnv1a64(b.as_slice(), r);
        proof {
            lemma_fnv_add(p, b@, FNV_OFFSET);
        }
        if let Some(t) = changed {
            let c: Vec<u8> = to_le64(t);
            r = fnv1a64(c.as_slice(), r);
            proof {
                lemma_fnv_add(p + b@, c@, FNV_OFFSET);
                assert(p + (b@ + c@) =~= p + b@ + c@);
            }
        } else {
            assert(p + (b@ + Seq::<u8>::empty()) =~= p + b@);
        }
    } else {
        assert(p + Seq::<u8>::empty() =~= p);
    }
    r
}

// ---------------------------------------------------------------------------
// Laws
// ---------------------------------------------------------------------------

/// No byte of a text is the separator.
proof fn lemma_no_separator(s: Seq<char>)
    ensures
        forall|i: int| 0 <= i < encode_utf8(s).len() ==> (#[trigger] encode_utf8(s)[i]) != 0xff,
    decreases s.len(),
{
    if s.len() > 0 {
        let rest = s.drop_first();
        let c = s[0] as u32;
        let head = encode_scalar(c);
        lemma_no_separator(rest);
        assert((c & 0x7F) as u8 != 0xff && (0xC0u8 | ((c >> 6) & 0x1F) as u8) != 0xff && (0xE0u8 | ((
        c >> 12) & 0x0F) as u8) != 0xff && (0xF0u8 | ((c >> 18) & 0x7) as u8) != 0xff && (0x80u8 | (c
            & 0x3F) as u8) != 0xff && (0x80u8 | ((c >> 6) & 0x3F) as u8) != 0xff && (0x80u8 | ((c
            >> 12) & 0x3F) as u8) != 0xff) by (bit_vector);
        let all = encode_utf8(s);
        assert(all == head + encode_utf8(rest));
        assert forall|i: int| 0 <= i < all.len() implies (#[trigger] all[i]) != 0xff by {
            if i < head.len() {
                assert(all[i] == head[i]);
            } else {
                assert(all[i] == encode_utf8(rest)[i - head.len()]);
            }
        }
    }
}

proof fn lemma_record_front(list: Seq<String>)
    requires
        list.len() > 0,
    ensures
        record_bytes(list) == encode_utf8(list[0]@) + seq![0xffu8] + record_bytes(
            list.drop_first(),
        ),
    decreases list.len(),
{
    let rest = list.drop_first();
    if list.len() == 1 {
        assert(list.drop_last() =~= Seq::<String>::empty());
        assert(rest =~= Seq::<String>::empty());
        assert(record_bytes(list.drop_last()) =~= Seq::<u8>::empty());
        assert(record_bytes(rest) =~= Seq::<u8>::empty());
        assert(record_bytes(list) =~= encode_utf8(list[0]@) + seq![0xffu8] + record_bytes(rest));
    } else {
        lemma_record_front(list.drop_last());
        assert(list.drop_last().drop_first() =~= rest.drop_last());
        assert(list.drop_last()[0] == list[0]);
        assert(rest.last() == list.last());
        assert(record_bytes(rest) == record_bytes(rest.drop_last()) + encode_utf8(rest.last()@)
            + seq![0xffu8]);
        assert(record_bytes(list) =~= encode_utf8(list[0]@) + seq![0xffu8] + record_bytes(rest));
    }
}

proof fn lemma_list_front(lists: Seq<Seq<String>>)
    requires
        lists.len() > 0,
    ensures
        list_bytes(lists) == le64(lists[0].len() as u64) + record_bytes(lists[0]) + list_bytes(
            lists.drop_first(),
        ),
    decreases lists.len(),
{
    let rest = lists.drop_first();
    if lists.len() == 1 {
        assert(lists.drop_last() =~= Seq::<Seq<String>>::empty());
        assert(rest =~= Seq::<Seq<String>>::empty());
        assert(list_bytes(lists.drop_last()) =~= Seq::<u8>::empty());
        assert(list_bytes(rest) =~= Seq::<u8>::empty());
        assert(list_bytes(lists) =~= le64(lists[0].len() as u64) + record_bytes(lists[0])
            + list_bytes(rest));
    } else {
        lemma_list_front(lists.drop_last());
        assert(lists.drop_last().drop_first() =~= rest.drop_last());
        assert(lists.drop_last()[0] == lists[0]);
        assert(rest.last() == lists.last());
        assert(list_bytes(rest) == list_bytes(rest.drop_last()) + le64(rest.last().len() as u64)
            + record_bytes(rest.last()));
        assert(list_bytes(lists) =~= le64(lists[0].len() as u64) + record_bytes(lists[0])
            + list_bytes(rest));
    }
}

/// Of byte strings that start with as many records, the records are the same and
/// so is what follows.
proof fn lemma_records_apart(a: Seq<String>, b: Seq<String>, x: Seq<u8>, y: Seq<u8>)
    requires
        a.len() == b.len(),
        record_bytes(a) + x == record_bytes(b) + y,
    ensures
        texts(a) == texts(b),
        x == y,
    decreases a.len(),
{
    if a.len() == 0 {
        assert(record_bytes(a) + x =~= x);
        assert(record_bytes(b) + y =~= y);
        assert(texts(a) =~= texts(b));
    } else {
        lemma_record_front(a);
        lemma_record_front(b);
        let p = encode_utf8(a[0]@);
        let q = encode_utf8(b[0]@);
        let ra = record_bytes(a.drop_first());
        let rb = record_bytes(b.drop_first());
        let s = p + (seq![0xffu8] + (ra + x));
        let t = q + (seq![0xffu8] + (rb + y));
        assert(record_bytes(a) + x =~= s);
        assert(record_bytes(b) + y =~= t);
        lemma_no_separator(a[0]@);
        lemma_no_separator(b[0]@);
        assert(s[p.len() as int] == 0xff);
        assert(t[q.len() as int] == 0xff);
        if p.len() < q.len() {
            assert(t[p.len() as int] == q[p.len() as int]);
        }
        if q.len() < p.len() {
            assert(s[q.len() as int] == p[q.len() as int]);
        }
        assert(p =~= q) by {
            assert forall|i: int| 0 <= i < p.len() implies p[i] == q[i] by {
                assert(s[i] == p[i] && t[i] == q[i]);
            }
        }
        encode_utf8_decode_utf8(a[0]@);
        encode_utf8_decode_utf8(b[0]@);
        let k = p.len() + 1;
        assert(s.skip(k as int) =~= ra + x);
        assert(t.skip(k as int) =~= rb + y);
        lemma_records_apart(a.drop_first(), b.drop_first(), x, y);
        assert(texts(a) =~= texts(b)) by {
            assert forall|i: int| 0 <= i < a.len() implies texts(a)[i] == texts(b)[i] by {
                if i > 0 {
                    assert(texts(a.drop_first())[i - 1] == texts(b.drop_first())[i - 1]);
                    assert(a.drop_first()[i - 1] == a[i]);
                    assert(b.drop_first()[i - 1] == b[i]);
                }
            }
        }
    }
}

/// Different lists of texts never stand for the same bytes: neither where one
/// text ends and the next begins nor where one list does can be mistaken.
pub proof fn lemma_lists_apart(a: Seq<Seq<String>>, b: Seq<Seq<String>>)
    requires
        forall|i: int| 0 <= i < a.len() ==> (#[trigger] a[i]).len() <= u64::MAX,
        forall|i: int| 0 <= i < b.len() ==> (#[trigger] b[i]).len() <= u64::MAX,
        list_bytes(a) == list_bytes(b),
    ensures
        a.len() == b.len(),
        forall|i: int| 0 <= i < a.len() ==> texts(#[trigger] a[i]) == texts(b[i]),
    decreases a.len(),
{
    if a.len() > 0 && b.len() > 0 {
        let ra = a.drop_first();
        let rb = b.drop_first();
        lemma_heads_apart(a, b);
        assert forall|i: int| 0 <= i < ra.len() implies (#[trigger] ra[i]).len() <= u64::MAX by {
            assert(ra[i] == a[i + 1]);
        }
        assert forall|i: int| 0 <= i < rb.len() implies (#[trigger] rb[i]).len() <= u64::MAX by {
            assert(rb[i] == b[i + 1]);
        }
        lemma_lists_apart(ra, rb);
        assert forall|i: int| 0 <= i < a.len() implies texts(#[trigger] a[i]) == texts(b[i]) by {
            if i > 0 {
                assert(ra[i - 1] == a[i] && rb[i - 1] == b[i]);
            }
        }
    } else {
        lemma_some_bytes(a);
        lemma_some_bytes(b);
    }
}

/// Lists stand for no bytes only where there are none.
proof fn lemma_some_bytes(lists: Seq<Seq<String>>)
    ensures
        lists.len() > 0 ==> list_bytes(lists).len() > 0,
        lists.len() == 0 ==> list_bytes(lists).len() == 0,
{
}

/// The first lists are the same, and so is what the others stand for.
proof fn lemma_heads_apart(a: Seq<Seq<String>>, b: Seq<Seq<String>>)
    requires
        a.len() > 0,
        b.len() > 0,
        a[0].len() <= u64::MAX,
        b[0].len() <= u64::MAX,
        list_bytes(a) == list_bytes(b),
    ensures
        texts(a[0]) == texts(b[0]),
        list_bytes(a.drop_first()) == list_bytes(b.drop_first()),
{
    let la = a[0].len() as u64;
    let lb = b[0].len() as u64;
    let xa = list_bytes(a.drop_first());
    let xb = list_bytes(b.drop_first());
    lemma_list_front(a);
    lemma_list_front(b);
    assert(list_bytes(a) =~= le64(la) + (record_bytes(a[0]) + xa));
    assert(list_bytes(b) =~= le64(lb) + (record_bytes(b[0]) + xb));
    lemma_le64_apart(la, lb, record_bytes(a[0]) + xa, record_bytes(b[0]) + xb);
    lemma_records_apart(a[0], b[0], xa, xb);
}

/// Of byte strings that start with a number, the numbers are the same and so is
/// what follows.
proof fn lemma_le64_apart(a: u64, b: u64, x: Seq<u8>, y: Seq<u8>)
    requires
        le64(a) + x == le64(b) + y,
    ensures
        a == b,
        x == y,
{
    let s = le64(a) + x;
    let t = le64(b) + y;
    assert forall|i: int| 0 <= i < 8 implies #[trigger] le64(a)[i] == le64(b)[i] by {
        assert(s[i] == le64(a)[i] && t[i] == le64(b)[i]);
    }
    assert(le64(a)[0] == le64(b)[0] && le64(a)[1] == le64(b)[1] && le64(a)[2] == le64(b)[2] && le64(
        a,
    )[3] == le64(b)[3] && le64(a)[4] == le64(b)[4] && le64(a)[5] == le64(b)[5] && le64(a)[6]
        == le64(b)[6] && le64(a)[7] == le64(b)[7]);
    lemma_le32_back((a % 0x1_0000_0000) as u32);
    lemma_le32_back((b % 0x1_0000_0000) as u32);
    lemma_le32_back((a / 0x1_0000_0000) as u32);
    lemma_le32_back((b / 0x1_0000_0000) as u32);
    assert(le32((a % 0x1_0000_0000) as u32) =~= le32((b % 0x1_0000_0000) as u32));
    assert(le32((a / 0x1_0000_0000) as u32) =~= le32((b / 0x1_0000_0000) as u32));
    assert(s.skip(8) =~= x);
    assert(t.skip(8) =~= y);
}

/// Files under one path that differ in length, or in the time of their last change where
/// the length is known, never stand for the same bytes.
pub proof fn lemma_files_apart(
    path: Seq<char>,
    len: Option<u64>,
    changed: Option<u64>,
    other_len: Option<u64>,
    other_changed: Option<u64>,
)
    requires
        file_bytes(path, len, changed) == file_bytes(path, other_len, other_changed),
    ensures
        len == other_len,
        len is Some ==> changed == other_changed,
{
    let p = encode_utf8(path);
    let a = file_bytes(path, len, changed);
    let b = file_bytes(path, other_len, other_changed);
    assert(a.skip(p.len() as int) == b.skip(p.len() as int));
    if len is Some && other_len is Some {
        let x = match changed {
            Some(t) => le64(t),
            None => Seq::empty(),
        };
        let y = match other_changed {
            Some(t) => le64(t),
            None => Seq::empty(),
        };
        assert(a.skip(p.len() as int) =~= le64(len->0) + x);
        assert(b.skip(p.len() as int) =~= le64(other_len->0) + y);
        lemma_le64_apart(len->0, other_len->0, x, y);
        if changed is Some && other_changed is Some {
            assert(x =~= x + Seq::<u8>::empty());
            assert(y =~= y + Seq::<u8>::empty());
            lemma_le64_apart(
                changed->0,
                other_changed->0,
                Seq::<u8>::empty(),
                Seq::<u8>::empty(),
            );
        }
    }
}

} // verus!
