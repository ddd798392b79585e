//! Delta archives: how one is made from a new archive and a manifest, and
//! how the new archive is rebuilt from the old one and a delta.

use vstd::prelude::*;
use crate::codec::{decode_manifest, encode_manifest, manifest_text, text_manifest};
use crate::entry::{entry_views, Entry, EntryView};
use crate::error::{DeltaError, Failure, Phase};
use crate::header::{make_manifest_header, manifest_header};
use crate::index::{create_index, headers_readable, index_of_entries};
use crate::manifest::{compute_diff, is_diff_of, DiffMetadata, Manifest};
use crate::paths::{contains_path, lemma_sorted_unique, path_seq};

verus! {

/// The path of the manifest entry, which comes first in a delta archive.
pub const DELTA_METADATA_FILE: &'static str = "__delta_metadata.json";

/// `p` is in one of the two lists.
pub open spec fn listed(first: Seq<Seq<char>>, second: Seq<Seq<char>>, p: Seq<char>) -> bool {
    first.contains(p) || second.contains(p)
}

/// The entries whose being in one of the two lists is as `wanted` says.
pub open spec fn selects(first: Seq<Seq<char>>, second: Seq<Seq<char>>, wanted: bool) -> spec_fn(
    EntryView,
) -> bool {
    |e: EntryView| listed(first, second, e.path) == wanted
}

/// The entries that a delta carries: those whose path changed or was added.
pub open spec fn carried(m: Manifest) -> spec_fn(EntryView) -> bool {
    selects(m.changed, m.added, true)
}

/// The entries of the old archive that stay: those whose path was neither
/// removed nor changed.
pub open spec fn kept(m: Manifest) -> spec_fn(EntryView) -> bool {
    selects(m.removed, m.changed, false)
}

/// The payload of a delta: the carried entries of the new archive, in its
/// order.
pub open spec fn delta_payload(new_archive: Seq<EntryView>, m: Manifest) -> Seq<EntryView> {
    new_archive.filter(carried(m))
}

/// The manifest entry for the manifest bytes `text`.
pub open spec fn manifest_entry(text: Seq<u8>) -> EntryView {
    EntryView {
        path: DELTA_METADATA_FILE@,
        header: manifest_header(text.len() as u64),
        data: text,
    }
}

/// A delta archive: the manifest entry, then the payload.
pub open spec fn delta_archive(new_archive: Seq<EntryView>, m: Manifest, text: Seq<u8>) -> Seq<
    EntryView,
> {
    seq![manifest_entry(text)] + delta_payload(new_archive, m)
}

/// The rebuilt archive: the entries of the old archive that stay, in its
/// order, then the payload, in its order.
pub open spec fn reconstruct(
    old_archive: Seq<EntryView>,
    m: Manifest,
    payload: Seq<EntryView>,
) -> Seq<EntryView> {
    old_archive.filter(kept(m)) + payload
}

/// The manifest of two indexes.
pub open spec fn diff_manifest(
    old_index: Map<Seq<char>, crate::fingerprint::Fingerprint>,
    new_index: Map<Seq<char>, crate::fingerprint::Fingerprint>,
) -> Manifest {
    choose|m: Manifest| is_diff_of(m, old_index, new_index)
}

/// What applying `delta` to `old_archive` gives.
pub open spec fn applied(old_archive: Seq<EntryView>, delta: Seq<EntryView>) -> Result<
    Seq<EntryView>,
    DeltaError,
> {
    if delta.len() == 0 {
        Err(DeltaError::EmptyDelta)
    } else if delta[0].path != DELTA_METADATA_FILE@ {
        Err(DeltaError::MissingManifest)
    } else {
        match text_manifest(delta[0].data) {
            Some(m) => Ok(reconstruct(old_archive, m, delta.skip(1))),
            None => Err(DeltaError::InvalidManifest),
        }
    }
}

/// Two manifests of the same two indexes are one.
pub proof fn lemma_diff_unique(
    a: Manifest,
    b: Manifest,
    old_index: Map<Seq<char>, crate::fingerprint::Fingerprint>,
    new_index: Map<Seq<char>, crate::fingerprint::Fingerprint>,
)
    requires
        is_diff_of(a, old_index, new_index),
        is_diff_of(b, old_index, new_index),
    ensures
        a == b,
{
    assert forall|p: Seq<char>| a.changed.contains(p) <==> b.changed.contains(p) by {
        assert(a.changed.contains(p) <==> crate::manifest::is_changed(old_index, new_index, p));
    }
    assert forall|p: Seq<char>| a.added.contains(p) <==> b.added.contains(p) by {
        assert(a.added.contains(p) <==> crate::manifest::is_added(old_index, new_index, p));
    }
    assert forall|p: Seq<char>| a.removed.contains(p) <==> b.removed.contains(p) by {
        assert(a.removed.contains(p) <==> crate::manifest::is_removed(old_index, new_index, p));
    }
    lemma_sorted_unique(a.changed, b.changed);
    lemma_sorted_unique(a.added, b.added);
    lemma_sorted_unique(a.removed, b.removed);
}

/// Appends to `out` a copy of each entry of `archive` whose being in one of
/// the two lists is as `wanted` says, in the order of `archive`.
fn copy_selected(
    archive: &[Entry],
    first: &Vec<String>,
    second: &Vec<String>,
    wanted: bool,
    out: &mut Vec<Entry>,
)
    ensures
        entry_views(final(out)@) == entry_views(old(out)@) + entry_views(archive@).filter(
            selects(path_seq(first@), path_seq(second@), wanted),
        ),
{
    let ghost before = entry_views(out@);
    let ghost views = entry_views(archive@);
    let ghost pred = selects(path_seq(first@), path_seq(second@), wanted);
    let mut i: usize = 0;
    proof {
        reveal(Seq::filter);
        assert(views.take(0) =~= Seq::<EntryView>::empty());
        assert(entry_views(out@) =~= before + views.take(0).filter(pred));
    }
    while i < archive.len()
        invariant
            i <= archive.len(),
            views == entry_views(archive@),
            pred == selects(path_seq(first@), path_seq(second@), wanted),
            entry_views(out@) == before + views.take(i as int).filter(pred),
        decreases archive.len() - i,
    {
        let entry = &archive[i];
        let ghost so_far = entry_views(out@);
        let is_listed = contains_path(first, &entry.path) || contains_path(second, &entry.path);
        proof {
            reveal(Seq::filter);
            let next = views.take(i + 1);
            assert(next.drop_last() =~= views.take(i as int));
            assert(next.last() == entry@);
            assert(pred(entry@) == (is_listed == wanted));
        }
        if is_listed == wanted {
            out.push(entry.duplicate());
            proof {
                assert(entry_views(out@) =~= so_far.push(entry@));
                assert(entry_views(out@) =~= before + views.take(i + 1).filter(pred));
            }
        }
        i += 1;
    }
    proof {
        assert(views.take(i as int) =~= views);
    }
}

/// Appends to `out` a copy of each entry of `archive`, in its order.
fn copy_all(archive: &[Entry], out: &mut Vec<Entry>)
    ensures
        entry_views(final(out)@) == entry_views(old(out)@) + entry_views(archive@),
{
    let ghost before = entry_views(out@);
    let ghost views = entry_views(archive@);
    let mut i: usize = 0;
    proof {
        assert(entry_views(out@) =~= before + views.take(0));
    }
    while i < archive.len()
        invariant
            i <= archive.len(),
            views == entry_views(archive@),
            entry_views(out@) == before + views.take(i as int),
        decreases archive.len() - i,
    {
        let ghost so_far = entry_views(out@);
        out.push(archive[i].duplicate());
        proof {
            assert(entry_views(out@) =~= so_far.push(archive[i as int]@));
            assert(entry_views(out@) =~= before + views.take(i + 1));
        }
        i += 1;
    }
    proof {
        assert(views.take(i as int) =~= views);
    }
}

/// Makes the delta archive for a manifest: the manifest entry first, its
/// payload the serialized manifest and its header's size field the length of
/// that payload; then a copy of every entry of the new archive whose path the
/// manifest lists as changed or added, in the order of the new archive.
/// Fails with `WriteError` if and only if the manifest cannot be serialized.
pub fn create_delta_archive(new_archive: &Vec<Entry>, metadata: &DiffMetadata) -> (result: Result<
    Vec<Entry>,
    DeltaError,
>)
    ensures
        match result {
            Ok(delta) => manifest_text(metadata@) matches Some(text) && entry_views(delta@)
                == delta_archive(entry_views(new_archive@), metadata@, text),
            Err(e) => e == DeltaError::WriteError && manifest_text(metadata@) is None,
        },
{
    let text = match encode_manifest(metadata) {
        Ok(text) => text,
        Err(_) => {
            return Err(DeltaError::WriteError);
        },
    };
    let ghost bytes = text@;
    let header = make_manifest_header(text.len() as u64);
    let mut delta: Vec<Entry> = Vec::new();
    delta.push(Entry::new(DELTA_METADATA_FILE.to_owned(), header, text));
    proof {
        assert(entry_views(delta@) =~= seq![manifest_entry(bytes)]);
    }
    copy_selected(new_archive.as_slice(), metadata.changed(), metadata.added(), true, &mut delta);
    Ok(delta)
}

/// Whether compressed archives are read: they are not, and a request for
/// them is refused with `UnsupportedCompression`.
pub fn check_compression(gzip: bool) -> (result: Result<(), DeltaError>)
    ensures
        result == if gzip {
            Err::<(), DeltaError>(DeltaError::UnsupportedCompression)
        } else {
            Ok::<(), DeltaError>(())
        },
{
    if gzip {
        Err(DeltaError::UnsupportedCompression)
    } else {
        Ok(())
    }
}

/// What `diff` gives for two archives that are read as they are.
pub open spec fn diffed(old_archive: Seq<EntryView>, new_archive: Seq<EntryView>) -> Result<
    Seq<EntryView>,
    Failure,
> {
    if !headers_readable(old_archive) {
        Err(Failure { phase: Phase::IndexingOld, error: DeltaError::CorruptHeader })
    } else if !headers_readable(new_archive) {
        Err(Failure { phase: Phase::IndexingNew, error: DeltaError::CorruptHeader })
    } else {
        let m = diff_manifest(index_of_entries(old_archive), index_of_entries(new_archive));
        match manifest_text(m) {
            Some(text) => Ok(delta_archive(new_archive, m, text)),
            None => Err(Failure { phase: Phase::Encoding, error: DeltaError::WriteError }),
        }
    }
}

/// Computes the delta archive that leads from the old archive to the new
/// one: both are indexed, the old one first; the indexes are compared; and
/// the delta is made from the manifest and the new archive. A request for
/// compressed archives is refused before anything else. A failure names the
/// step in which it came.
pub fn diff(old_archive: &Vec<Entry>, new_archive: &Vec<Entry>, gzip: bool) -> (result: Result<
    Vec<Entry>,
    Failure,
>)
    ensures
        gzip ==> result == Err::<Vec<Entry>, Failure>(
            Failure { phase: Phase::Opening, error: DeltaError::UnsupportedCompression },
        ),
        !gzip ==> match result {
            Ok(delta) => diffed(entry_views(old_archive@), entry_views(new_archive@)) == Ok::<
                Seq<EntryView>,
                Failure,
            >(entry_views(delta@)),
            Err(failure) => diffed(entry_views(old_archive@), entry_views(new_archive@)) == Err::<
                Seq<EntryView>,
                Failure,
            >(failure),
        },
{
    match check_compression(gzip) {
        Ok(_) => {},
        Err(error) => {
            return Err(Failure { phase: Phase::Opening, error });
        },
    }
    let old_index = match create_index(old_archive) {
        Ok(index) => index,
        Err(error) => {
            return Err(Failure { phase: Phase::IndexingOld, error });
        },
    };
    let new_index = match create_index(new_archive) {
        Ok(index) => index,
        Err(error) => {
            return Err(Failure { phase: Phase::IndexingNew, error });
        },
    };
    let metadata = compute_diff(&old_index, &new_index);
    proof {
        lemma_diff_unique(
            metadata@,
            diff_manifest(old_index@, new_index@),
            old_index@,
            new_index@,
        );
    }
    match create_delta_archive(new_archive, &metadata) {
        Ok(delta) => Ok(delta),
        Err(error) => Err(Failure { phase: Phase::Encoding, error }),
    }
}

/// Rebuilds an archive from the old one, a manifest and a delta's payload:
/// first a copy of every entry of the old archive whose path the manifest
/// lists neither as removed nor as changed, in the old order; then a copy of
/// every entry of the payload, in its order.
pub fn apply_manifest(old_archive: &Vec<Entry>, metadata: &DiffMetadata, payload: &[Entry]) -> (out:
    Vec<Entry>)
    ensures
        entry_views(out@) == reconstruct(
            entry_views(old_archive@),
            metadata@,
            entry_views(payload@),
        ),
{
    let mut out: Vec<Entry> = Vec::new();
    proof {
        assert(entry_views(out@) =~= Seq::<EntryView>::empty());
    }
    copy_selected(old_archive.as_slice(), metadata.removed(), metadata.changed(), false, &mut out);
    copy_all(payload, &mut out);
    proof {
        assert(entry_views(out@) =~= reconstruct(
            entry_views(old_archive@),
            metadata@,
            entry_views(payload@),
        ));
    }
    out
}

/// Applies a delta archive to the old archive. Fails with `EmptyDelta` on a
/// delta without entries, with `MissingManifest` where the first entry's path
/// is not the manifest path, with `InvalidManifest` where that entry's
/// payload holds no manifest. Otherwise the archive is rebuilt from the old
/// archive, the manifest and the entries that follow the manifest entry.
pub fn apply_delta_archive(old_archive: &Vec<Entry>, delta: &Vec<Entry>) -> (result: Result<
    Vec<Entry>,
    DeltaError,
>)
    ensures
        match result {
            Ok(out) => applied(entry_views(old_archive@), entry_views(delta@)) == Ok::<
                Seq<EntryView>,
                DeltaError,
            >(entry_views(out@)),
            Err(e) => applied(entry_views(old_archive@), entry_views(delta@)) == Err::<
                Seq<EntryView>,
                DeltaError,
            >(e),
        },
{
    if delta.len() == 0 {
        return Err(DeltaError::EmptyDelta);
    }
    let first = &delta[0];
    let manifest_path = DELTA_METADATA_FILE.to_owned();
    if first.path != manifest_path {
        return Err(DeltaError::MissingManifest);
    }
    let metadata = match decode_manifest(first.data.as_slice()) {
        Ok(metadata) => metadata,
        Err(_) => {
            return Err(DeltaError::InvalidManifest);
        },
    };
    let payload = vstd::slice::slice_subrange(delta.as_slice(), 1, delta.len());
    proof {
        assert(entry_views(payload@) =~= entry_views(delta@).skip(1));
    }
    Ok(apply_manifest(old_archive, &metadata, payload))
}

/// Applies a delta archive to the old archive, as `apply_delta_archive` does.
/// A failure names the step in which it came: the reading of the delta.
pub fn apply(old_archive: &Vec<Entry>, delta: &Vec<Entry>) -> (result: Result<Vec<Entry>, Failure>)
    ensures
        match result {
            Ok(out) => applied(entry_views(old_archive@), entry_views(delta@)) == Ok::<
                Seq<EntryView>,
                DeltaError,
            >(entry_views(out@)),
            Err(failure) => failure.phase == Phase::Decoding && applied(
                entry_views(old_archive@),
                entry_views(delta@),
            ) == Err::<Seq<EntryView>, DeltaError>(failure.error),
        },
{
    match apply_delta_archive(old_archive, delta) {
        Ok(out) => Ok(out),
        Err(error) => Err(Failure { phase: Phase::Decoding, error }),
    }
}

} // verus!
