use crate::datalayer::algorithms::{is_tlsh_text, tlsh_key, SsdeepHash, TlshHash};
use vstd::prelude::*;
use vstd::utf8::encode_utf8;

verus! {

/// Identifiers that a byte string may stand for exactly.
pub trait RadixKeyMapping: Sized {
    /// Identifiers that can be mapped.
    spec fn maps(id: Self) -> bool;

    /// The byte string, if there is one.
    spec fn radix_key(id: Self) -> Option<Seq<u8>>;

    fn to_radix_key(&self) -> (key: Option<Vec<u8>>)
        requires
            Self::maps(*self),
        ensures
            key is Some <==> Self::radix_key(*self) is Some,
            key matches Some(k) ==> Self::radix_key(*self) == Some(k@),
    ;
}

/// Numbers have no byte string.
impl RadixKeyMapping for u32 {
    open spec fn maps(id: u32) -> bool {
        true
    }

    open spec fn radix_key(id: u32) -> Option<Seq<u8>> {
        None
    }

    fn to_radix_key(&self) -> (key: Option<Vec<u8>>) {
        None
    }
}

/// A TLSH digest stands under its canonical bytes.
impl RadixKeyMapping for TlshHash {
    open spec fn maps(id: TlshHash) -> bool {
        id.wf()
    }

    open spec fn radix_key(id: TlshHash) -> Option<Seq<u8>> {
        Some(tlsh_key(id.0@))
    }

    fn to_radix_key(&self) -> (key: Option<Vec<u8>>) {
        Some(self.hash())
    }
}

/// An ssdeep signature stands under the bytes of its text.
impl RadixKeyMapping for SsdeepHash {
    open spec fn maps(id: SsdeepHash) -> bool {
        true
    }

    open spec fn radix_key(id: SsdeepHash) -> Option<Seq<u8>> {
        Some(encode_utf8(id.0@))
    }

    fn to_radix_key(&self) -> (key: Option<Vec<u8>>) {
        Some(vstd::slice::slice_to_vec(self.0.as_str().as_bytes()))
    }
}

/// Something that is found by an identifier.
pub trait ApotheosisRecord: Sized {
    type MetricId: RadixKeyMapping + Clone;

    /// The identifier.
    spec fn id(&self) -> Self::MetricId;

    fn search_id(&self) -> (id: Self::MetricId)
        ensures
            id == self.id(),
    ;
}

/// A record that is nothing but a TLSH digest.
#[derive(Debug)]
pub struct SimpleTlshRecord {
    pub hash: TlshHash,
}

impl SimpleTlshRecord {
    /// The record of the digest written `text`.
    pub fn create(text: String) -> (r: SimpleTlshRecord)
        requires
            is_tlsh_text(text@),
        ensures
            r.hash.0@ == text@,
            r.hash.wf(),
    {
        SimpleTlshRecord { hash: TlshHash(text) }
    }
}

impl ApotheosisRecord for SimpleTlshRecord {
    type MetricId = TlshHash;

    open spec fn id(&self) -> TlshHash {
        self.hash
    }

    fn search_id(&self) -> (id: TlshHash) {
        self.hash.clone()
    }
}

/// A record that is nothing but an ssdeep signature.
#[derive(Debug)]
pub struct SimpleSsdeepRecord {
    pub hash: SsdeepHash,
}

impl SimpleSsdeepRecord {
    /// The record of the signature written `text`.
    pub fn create(text: String) -> (r: SimpleSsdeepRecord)
        ensures
            r.hash.0@ == text@,
    {
        SimpleSsdeepRecord { hash: SsdeepHash(text) }
    }
}

impl ApotheosisRecord for SimpleSsdeepRecord {
    type MetricId = SsdeepHash;

    open spec fn id(&self) -> SsdeepHash {
        self.hash
    }

    fn search_id(&self) -> (id: SsdeepHash) {
        self.hash.clone()
    }
}

/// A record that is nothing but a number.
#[derive(Clone, Copy, Debug)]
pub struct SimpleNumberRecord {
    pub number: u32,
}

impl ApotheosisRecord for SimpleNumberRecord {
    type MetricId = u32;

    open spec fn id(&self) -> u32 {
        self.number
    }

    fn search_id(&self) -> (id: u32) {
        self.number
    }
}

} // verus!
