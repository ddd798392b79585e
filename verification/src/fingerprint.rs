//! Fingerprints: what two states of an entry are compared by.

use vstd::prelude::*;
use sha1::Digest;

verus! {

/// A fingerprint as a mathematical value: the 160-bit digest of an entry's
/// payload and the checksum that its header declares.
pub struct Fingerprint {
    pub sha1: Seq<u8>,
    pub cksum: u32,
}

/// The fingerprint of one entry, as the index stores it.
#[derive(Debug, Clone, PartialEq, Eq)]
pub struct IndexValue {
    sha1: [u8; 20],
    cksum: u32,
}

impl View for IndexValue {
    type V = Fingerprint;

    closed spec fn view(&self) -> Fingerprint {
        Fingerprint { sha1: self.sha1@, cksum: self.cksum }
    }
}

/// The SHA-1 digest of a byte string.
pub uninterp spec fn sha1_digest(data: Seq<u8>) -> Seq<u8>;

/// The checksum field of a 512-byte tar header, where it can be read.
pub uninterp spec fn header_cksum(header: Seq<u8>) -> Option<u32>;

/// Hashes `data` with `sha1::Sha1::digest`. Trusted: the result is the
/// digest that the `sha1` crate computes for these bytes, which depends on
/// nothing else.
#[verifier::external_body]
pub(crate) fn sha1_of(data: &[u8]) -> (digest: [u8; 20])
    ensures
        digest@ == sha1_digest(data@),
{
    sha1::Sha1::digest(data).into()
}

/// Reads the checksum field with `tar::Header::cksum`, after
/// `tar::Header::from_byte_slice` has turned the block into a header.
/// Trusted: whether the field can be read, and the number read, depend on the
/// 512 bytes alone. `None` stands for the error that `cksum` returns.
#[verifier::external_body]
pub(crate) fn read_cksum(header: &[u8; 512]) -> (cksum: Option<u32>)
    ensures
        cksum == header_cksum(header@),
{
    tar::Header::from_byte_slice(&header[..]).cksum().ok()
}

impl IndexValue {
    /// A fingerprint from its two parts.
    pub fn new(sha1: [u8; 20], cksum: u32) -> (value: IndexValue)
        ensures
            value@ == (Fingerprint { sha1: sha1@, cksum }),
    {
        IndexValue { sha1, cksum }
    }

    /// The digest of the payload.
    pub fn sha1(&self) -> (digest: &[u8; 20])
        ensures
            digest@ == self@.sha1,
    {
        &self.sha1
    }

    /// The checksum that the header declares.
    pub fn cksum(&self) -> (cksum: u32)
        ensures
            cksum == self@.cksum,
    {
        self.cksum
    }

    /// A copy of this fingerprint.
    pub fn duplicate(&self) -> (value: IndexValue)
        ensures
            value@ == self@,
    {
        IndexValue { sha1: self.sha1, cksum: self.cksum }
    }
}

/// Whether two fingerprints differ, in the digest or in the checksum.
pub fn entry_has_changed(a: &IndexValue, b: &IndexValue) -> (changed: bool)
    ensures
        changed == (a@ != b@),
{
    if a.cksum != b.cksum {
        return true;
    }
    let mut i: usize = 0;
    while i < 20
        invariant
            i <= 20,
            a.cksum == b.cksum,
            forall|k: int| 0 <= k < i ==> a.sha1@[k] == b.sha1@[k],
        decreases 20 - i,
    {
        if a.sha1[i] != b.sha1[i] {
            return true;
        }
        i += 1;
    }
    proof {
        assert(a.sha1@ =~= b.sha1@);
    }
    false
}

} // verus!
