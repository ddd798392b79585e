//! Deltas between two tar-style archives.
//!
//! An archive is a sequence of entries, each a path, a 512-byte header and a
//! payload. From an old and a new archive the library derives a manifest of
//! the paths that changed, were added or were removed, and a delta archive:
//! the manifest first, then every changed or added entry of the new archive.
//! From the old archive and the delta it rebuilds the new one.

pub mod codec;
pub mod delta;
pub mod entry;
pub mod error;
pub mod fingerprint;
pub mod header;
pub mod index;
pub mod laws;
pub mod manifest;
pub mod paths;

pub use delta::{apply, apply_delta_archive, create_delta_archive, diff, DELTA_METADATA_FILE};
pub use entry::Entry;
pub use error::{DeltaError, Failure, Phase};
pub use fingerprint::{entry_has_changed, Fingerprint, IndexValue};
pub use index::{create_index, Index};
pub use manifest::{compute_diff, DiffMetadata};
