//! The ways in which indexing, diffing and applying can fail.

use vstd::prelude::*;
use vstd::string::StringExecFns;

verus! {

/// Why an operation on archives was given up.
#[derive(Debug, Clone, Copy, PartialEq, Eq, Structural)]
pub enum DeltaError {
    /// An entry's header holds no readable checksum.
    CorruptHeader,
    /// An entry's bytes could not be read to their end.
    ReadError,
    /// The output archive could not be written or finalized, or the manifest
    /// could not be serialized.
    WriteError,
    /// The delta archive has no entries.
    EmptyDelta,
    /// The first entry of the delta archive is not the manifest.
    MissingManifest,
    /// The manifest's bytes are not a manifest.
    InvalidManifest,
    /// Compressed archives were asked for; they are not read yet.
    UnsupportedCompression,
}

impl DeltaError {
    /// A short description of the failure, as a mathematical value.
    pub open spec fn spec_message(self) -> Seq<char> {
        match self {
            DeltaError::CorruptHeader => "invalid cksum"@,
            DeltaError::ReadError => "sha1 hashing failed"@,
            DeltaError::WriteError => "failed to create delta archive"@,
            DeltaError::EmptyDelta => "empty delta file"@,
            DeltaError::MissingManifest => "delta file is missing metadata file as first entry"@,
            DeltaError::InvalidManifest => "invalid metadata file"@,
            DeltaError::UnsupportedCompression => "gzip archives are not supported"@,
        }
    }

    /// A short description of the failure.
    pub fn message(&self) -> (text: String)
        ensures
            text@ == self.spec_message(),
    {
        match self {
            DeltaError::CorruptHeader => "invalid cksum".to_owned(),
            DeltaError::ReadError => "sha1 hashing failed".to_owned(),
            DeltaError::WriteError => "failed to create delta archive".to_owned(),
            DeltaError::EmptyDelta => "empty delta file".to_owned(),
            DeltaError::MissingManifest => {
                "delta file is missing metadata file as first entry".to_owned()
            },
            DeltaError::InvalidManifest => "invalid metadata file".to_owned(),
            DeltaError::UnsupportedCompression => "gzip archives are not supported".to_owned(),
        }
    }
}

/// The step of an operation in which it failed.
#[derive(Debug, Clone, Copy, PartialEq, Eq, Structural)]
pub enum Phase {
    /// Before anything was read.
    Opening,
    /// While the old archive was indexed.
    IndexingOld,
    /// While the new archive was indexed.
    IndexingNew,
    /// While the delta archive was made.
    Encoding,
    /// While the delta archive was read.
    Decoding,
}

/// A failure of `diff` or `apply`: what went wrong, and in which step.
#[derive(Debug, Clone, Copy, PartialEq, Eq, Structural)]
pub struct Failure {
    pub phase: Phase,
    pub error: DeltaError,
}

impl Phase {
    /// The name of the step, as the descriptions of failures give it.
    pub open spec fn spec_name(self) -> Seq<char> {
        match self {
            Phase::Opening => "opening"@,
            Phase::IndexingOld => "indexing old archive"@,
            Phase::IndexingNew => "indexing new archive"@,
            Phase::Encoding => "encoding delta"@,
            Phase::Decoding => "decoding delta"@,
        }
    }

    /// The name of the step.
    pub fn name(&self) -> (text: String)
        ensures
            text@ == self.spec_name(),
    {
        match self {
            Phase::Opening => "opening".to_owned(),
            Phase::IndexingOld => "indexing old archive".to_owned(),
            Phase::IndexingNew => "indexing new archive".to_owned(),
            Phase::Encoding => "encoding delta".to_owned(),
            Phase::Decoding => "decoding delta".to_owned(),
        }
    }
}

impl Failure {
    /// The step's name, a colon and a space, then the error's description.
    pub fn message(&self) -> (text: String)
        ensures
            text@ == self.phase.spec_name() + ": "@ + self.error.spec_message(),
    {
        let mut text = self.phase.name();
        text.append(": ");
        text.append(self.error.message().as_str());
        text
    }
}

} // verus!
