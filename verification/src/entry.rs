//! Archive entries as plain values.

use vstd::prelude::*;
use crate::error::DeltaError;
use crate::fingerprint::{header_cksum, read_cksum, sha1_digest, sha1_of, Fingerprint, IndexValue};

verus! {

/// One entry of an archive: its path, its 512-byte header block as the
/// archive holds it, and its payload.
#[derive(Debug, Clone, PartialEq, Eq)]
pub struct Entry {
    pub path: String,
    pub header: [u8; 512],
    pub data: Vec<u8>,
}

/// An entry as a mathematical value.
pub struct EntryView {
    pub path: Seq<char>,
    pub header: Seq<u8>,
    pub data: Seq<u8>,
}

impl View for Entry {
    type V = EntryView;

    open spec fn view(&self) -> EntryView {
        EntryView { path: self.path@, header: self.header@, data: self.data@ }
    }
}

/// The entries of an archive as mathematical values, in archive order.
pub open spec fn entry_views(archive: Seq<Entry>) -> Seq<EntryView> {
    Seq::new(archive.len(), |i: int| archive[i]@)
}

/// Whether the header of `e` declares a checksum that can be read.
pub open spec fn cksum_readable(e: EntryView) -> bool {
    header_cksum(e.header) is Some
}

/// The fingerprint of an entry whose checksum can be read: the digest of its
/// payload and the checksum that its header declares.
pub open spec fn fingerprint_of(e: EntryView) -> Fingerprint
    recommends
        cksum_readable(e),
{
    Fingerprint { sha1: sha1_digest(e.data), cksum: header_cksum(e.header).unwrap() }
}

impl Entry {
    /// An entry from its parts.
    pub fn new(path: String, header: [u8; 512], data: Vec<u8>) -> (entry: Entry)
        ensures
            entry@ == (EntryView { path: path@, header: header@, data: data@ }),
    {
        Entry { path, header, data }
    }

    /// A copy of this entry: the same path, header and payload.
    pub fn duplicate(&self) -> (copy: Entry)
        ensures
            copy@ == self@,
    {
        let data = self.data.clone();
        proof {
            assert(data@ =~= self.data@);
        }
        Entry { path: self.path.clone(), header: self.header, data }
    }

    /// The fingerprint of this entry, or `CorruptHeader` where its header
    /// declares no readable checksum.
    pub fn fingerprint(&self) -> (result: Result<IndexValue, DeltaError>)
        ensures
            match result {
                Ok(value) => cksum_readable(self@) && value@ == fingerprint_of(self@),
                Err(e) => e == DeltaError::CorruptHeader && !cksum_readable(self@),
            },
    {
        match read_cksum(&self.header) {
            Some(cksum) => Ok(IndexValue::new(sha1_of(self.data.as_slice()), cksum)),
            None => Err(DeltaError::CorruptHeader),
        }
    }
}

} // verus!
