//! What holds of diffing and applying, whatever the archives.

use vstd::prelude::*;
use vstd::seq_lib::*;
use vstd::set_lib::*;
use crate::codec::{manifest_text, text_manifest};
use crate::delta::{
    applied, carried, delta_archive, delta_payload, diff_manifest, diffed, kept, lemma_diff_unique,
    listed, manifest_entry, reconstruct, selects,
};
use crate::entry::{fingerprint_of, EntryView};
use crate::error::{DeltaError, Failure};
use crate::fingerprint::Fingerprint;
use crate::index::{headers_readable, index_of_entries};
use crate::manifest::{is_added, is_changed, is_diff_of, is_removed, Manifest};
use crate::paths::{lemma_sorted_no_duplicates, strictly_sorted};

verus! {

/// The archive holds an entry under `p`.
pub open spec fn holds_path(archive: Seq<EntryView>, p: Seq<char>) -> bool {
    exists|i: int| 0 <= i < archive.len() && (#[trigger] archive[i]).path == p
}

/// For each path of the archive, what `f` makes of the last entry under it.
pub open spec fn latest<V>(archive: Seq<EntryView>, f: spec_fn(EntryView) -> V) -> Map<Seq<char>, V>
    decreases archive.len(),
{
    if archive.len() == 0 {
        Map::empty()
    } else {
        latest(archive.drop_last(), f).insert(archive.last().path, f(archive.last()))
    }
}

/// The entry itself.
pub open spec fn whole() -> spec_fn(EntryView) -> EntryView {
    |e: EntryView| e
}

/// The entry's fingerprint.
pub open spec fn fingerprints() -> spec_fn(EntryView) -> Fingerprint {
    |e: EntryView| fingerprint_of(e)
}

/// An archive as a reader sees it: for each path the last entry under it,
/// with its header and its payload.
pub open spec fn latest_entries(archive: Seq<EntryView>) -> Map<Seq<char>, EntryView> {
    latest(archive, whole())
}

/// The paths that are, or are not, in one of two lists.
pub open spec fn selected_paths(first: Seq<Seq<char>>, second: Seq<Seq<char>>, wanted: bool) -> Set<
    Seq<char>,
> {
    Set::new(|p: Seq<char>| listed(first, second, p) == wanted)
}

/// No two entries of the archive have the same path.
pub open spec fn paths_distinct(archive: Seq<EntryView>) -> bool {
    forall|i: int, j: int|
        0 <= i < j < archive.len() ==> (#[trigger] archive[i]).path != (#[trigger] archive[j]).path
}

/// The index of an archive holds, for each path, the fingerprint of the last
/// entry under it.
pub proof fn lemma_index_is_latest(archive: Seq<EntryView>)
    ensures
        index_of_entries(archive) == latest(archive, fingerprints()),
    decreases archive.len(),
{
    if archive.len() > 0 {
        lemma_index_is_latest(archive.drop_last());
    }
}

/// A path is mapped if and only if the archive holds an entry under it.
pub proof fn lemma_latest_domain<V>(archive: Seq<EntryView>, f: spec_fn(EntryView) -> V)
    ensures
        forall|p: Seq<char>|
            #![trigger latest(archive, f).contains_key(p)]
            #![trigger holds_path(archive, p)]
            latest(archive, f).contains_key(p) <==> holds_path(archive, p),
    decreases archive.len(),
{
    if archive.len() > 0 {
        let rest = archive.drop_last();
        lemma_latest_domain(rest, f);
        assert forall|p: Seq<char>| #[trigger]
            latest(archive, f).contains_key(p) <==> holds_path(archive, p) by {
            if holds_path(archive, p) {
                let i = choose|i: int| 0 <= i < archive.len() && (#[trigger] archive[i]).path == p;
                if i < rest.len() {
                    assert(rest[i].path == p);
                    assert(holds_path(rest, p));
                }
            }
            if latest(archive, f).contains_key(p) {
                if p == archive.last().path {
                    assert(archive[archive.len() - 1].path == p);
                } else {
                    assert(latest(rest, f).contains_key(p));
                    assert(holds_path(rest, p));
                    let i = choose|i: int| 0 <= i < rest.len() && (#[trigger] rest[i]).path == p;
                    assert(archive[i].path == p);
                }
            }
        }
    } else {
        assert forall|p: Seq<char>| #[trigger]
            latest(archive, f).contains_key(p) <==> holds_path(archive, p) by {}
    }
}

/// Of two archives written one after the other, the second decides where
/// both hold a path.
pub proof fn lemma_latest_concat<V>(
    a: Seq<EntryView>,
    b: Seq<EntryView>,
    f: spec_fn(EntryView) -> V,
)
    ensures
        latest(a + b, f) == latest(a, f).union_prefer_right(latest(b, f)),
    decreases b.len(),
{
    if b.len() == 0 {
        assert(a + b =~= a);
        assert(latest(a, f).union_prefer_right(latest(b, f)) =~= latest(a, f));
    } else {
        let rest = b.drop_last();
        lemma_latest_concat(a, rest, f);
        assert((a + b).drop_last() =~= a + rest);
        assert((a + b).last() == b.last());
        assert(latest(a + b, f) =~= latest(a, f).union_prefer_right(latest(b, f)));
    }
}

/// Selecting entries by their paths restricts the mapping to those paths.
pub proof fn lemma_latest_selected<V>(
    a: Seq<EntryView>,
    first: Seq<Seq<char>>,
    second: Seq<Seq<char>>,
    wanted: bool,
    f: spec_fn(EntryView) -> V,
)
    ensures
        latest(a.filter(selects(first, second, wanted)), f) == latest(a, f).restrict(
            selected_paths(first, second, wanted),
        ),
    decreases a.len(),
{
    reveal(Seq::filter);
    let pred = selects(first, second, wanted);
    let paths = selected_paths(first, second, wanted);
    if a.len() == 0 {
        assert(latest(a.filter(pred), f) =~= latest(a, f).restrict(paths));
    } else {
        let rest = a.drop_last();
        let e = a.last();
        lemma_latest_selected(rest, first, second, wanted, f);
        assert(pred(e) == paths.contains(e.path));
        if pred(e) {
            assert(a.filter(pred) == rest.filter(pred).push(e));
            assert(a.filter(pred).drop_last() =~= rest.filter(pred));
            assert(a.filter(pred).last() == e);
            assert(latest(a.filter(pred), f) =~= latest(a, f).restrict(paths));
        } else {
            assert(a.filter(pred) == rest.filter(pred));
            assert(latest(a.filter(pred), f) =~= latest(a, f).restrict(paths));
        }
    }
}

/// Every selected entry is an entry of the archive, and was wanted.
pub proof fn lemma_selected_entries(
    a: Seq<EntryView>,
    first: Seq<Seq<char>>,
    second: Seq<Seq<char>>,
    wanted: bool,
)
    ensures
        forall|p: Seq<char>|
            #![trigger holds_path(a.filter(selects(first, second, wanted)), p)]
            #![trigger holds_path(a, p)]
            holds_path(a.filter(selects(first, second, wanted)), p) <==> (holds_path(a, p)
                && listed(first, second, p) == wanted),
        paths_distinct(a) ==> paths_distinct(a.filter(selects(first, second, wanted))),
    decreases a.len(),
{
    reveal(Seq::filter);
    let pred = selects(first, second, wanted);
    let out = a.filter(pred);
    if a.len() == 0 {
        assert forall|p: Seq<char>| #[trigger]
            holds_path(out, p) <==> (holds_path(a, p) && listed(first, second, p) == wanted) by {}
    } else {
        let rest = a.drop_last();
        let e = a.last();
        let sub = rest.filter(pred);
        lemma_selected_entries(rest, first, second, wanted);
        assert forall|p: Seq<char>| #[trigger]
            holds_path(out, p) <==> (holds_path(a, p) && listed(first, second, p) == wanted) by {
            if holds_path(out, p) {
                let k = choose|k: int| 0 <= k < out.len() && (#[trigger] out[k]).path == p;
                if pred(e) && k == out.len() - 1 {
                    assert(a[a.len() - 1].path == p);
                } else {
                    assert(sub[k].path == p);
                    assert(holds_path(sub, p));
                    assert(holds_path(rest, p));
                    let i = choose|i: int| 0 <= i < rest.len() && (#[trigger] rest[i]).path == p;
                    assert(a[i].path == p);
                }
            }
            if holds_path(a, p) && listed(first, second, p) == wanted {
                let i = choose|i: int| 0 <= i < a.len() && (#[trigger] a[i]).path == p;
                if i < rest.len() {
                    assert(rest[i].path == p);
                    assert(holds_path(rest, p));
                    assert(holds_path(sub, p));
                    let k = choose|k: int| 0 <= k < sub.len() && (#[trigger] sub[k]).path == p;
                    assert(out[k].path == p);
                } else {
                    assert(pred(e));
                    assert(out[out.len() - 1].path == p);
                }
            }
        }
        if paths_distinct(a) {
            assert(paths_distinct(rest)) by {
                assert forall|i: int, j: int| 0 <= i < j < rest.len() implies (
                #[trigger] rest[i]).path != (#[trigger] rest[j]).path by {
                    assert(a[i].path != a[j].path);
                }
            }
            assert forall|i: int, j: int| 0 <= i < j < out.len() implies (#[trigger] out[i]).path
                != (#[trigger] out[j]).path by {
                if pred(e) && j == out.len() - 1 {
                    assert(sub[i].path == out[i].path);
                    assert(holds_path(sub, out[i].path));
                    assert(holds_path(rest, out[i].path));
                    let k = choose|k: int|
                        0 <= k < rest.len() && (#[trigger] rest[k]).path == out[i].path;
                    assert(a[k].path != a[a.len() - 1].path);
                } else {
                    assert(sub[i].path != sub[j].path);
                }
            }
        }
    }
}

proof fn lemma_rebuild<V>(
    old_archive: Seq<EntryView>,
    new_archive: Seq<EntryView>,
    m: Manifest,
    f: spec_fn(EntryView) -> V,
)
    requires
        forall|p: Seq<char>| #[trigger]
            m.added.contains(p) <==> (holds_path(new_archive, p) && !holds_path(old_archive, p)),
        forall|p: Seq<char>| #[trigger]
            m.removed.contains(p) <==> (holds_path(old_archive, p) && !holds_path(new_archive, p)),
        forall|p: Seq<char>| #[trigger]
            m.changed.contains(p) ==> holds_path(old_archive, p) && holds_path(new_archive, p),
        forall|p: Seq<char>|
            holds_path(old_archive, p) && holds_path(new_archive, p) && !(#[trigger] m.changed.contains(
                p,
            )) ==> latest(old_archive, f)[p] == latest(new_archive, f)[p],
    ensures
        latest(reconstruct(old_archive, m, delta_payload(new_archive, m)), f) == latest(
            new_archive,
            f,
        ),
{
    let stay = old_archive.filter(kept(m));
    let payload = delta_payload(new_archive, m);
    let rebuilt = reconstruct(old_archive, m, payload);
    lemma_latest_concat(stay, payload, f);
    lemma_latest_selected(old_archive, m.removed, m.changed, false, f);
    lemma_latest_selected(new_archive, m.changed, m.added, true, f);
    lemma_latest_domain(old_archive, f);
    lemma_latest_domain(new_archive, f);
    let from_old = latest(old_archive, f).restrict(selected_paths(m.removed, m.changed, false));
    let from_new = latest(new_archive, f).restrict(selected_paths(m.changed, m.added, true));
    assert(latest(rebuilt, f) == from_old.union_prefer_right(from_new));
    assert forall|p: Seq<char>|
        from_old.union_prefer_right(from_new).contains_key(p) <==> latest(
            new_archive,
            f,
        ).contains_key(p) by {
        assert(latest(old_archive, f).contains_key(p) <==> holds_path(old_archive, p));
        assert(latest(new_archive, f).contains_key(p) <==> holds_path(new_archive, p));
        assert(m.added.contains(p) <==> (holds_path(new_archive, p) && !holds_path(
            old_archive,
            p,
        )));
        assert(m.removed.contains(p) <==> (holds_path(old_archive, p) && !holds_path(
            new_archive,
            p,
        )));
        assert(m.changed.contains(p) ==> holds_path(old_archive, p) && holds_path(new_archive, p));
    }
    assert forall|p: Seq<char>|
        from_old.union_prefer_right(from_new).contains_key(p) implies from_old.union_prefer_right(
        from_new,
    )[p] == latest(new_archive, f)[p] by {
        assert(latest(old_archive, f).contains_key(p) <==> holds_path(old_archive, p));
        assert(latest(new_archive, f).contains_key(p) <==> holds_path(new_archive, p));
        assert(m.added.contains(p) <==> (holds_path(new_archive, p) && !holds_path(
            old_archive,
            p,
        )));
        assert(m.removed.contains(p) <==> (holds_path(old_archive, p) && !holds_path(
            new_archive,
            p,
        )));
        assert(m.changed.contains(p) ==> holds_path(old_archive, p) && holds_path(new_archive, p));
    }
    assert(from_old.union_prefer_right(from_new) =~= latest(new_archive, f));
}

proof fn lemma_diff_over_archives(
    old_archive: Seq<EntryView>,
    new_archive: Seq<EntryView>,
    m: Manifest,
)
    requires
        is_diff_of(m, index_of_entries(old_archive), index_of_entries(new_archive)),
    ensures
        forall|p: Seq<char>| #[trigger]
            m.added.contains(p) <==> (holds_path(new_archive, p) && !holds_path(old_archive, p)),
        forall|p: Seq<char>| #[trigger]
            m.removed.contains(p) <==> (holds_path(old_archive, p) && !holds_path(new_archive, p)),
        forall|p: Seq<char>| #[trigger]
            m.changed.contains(p) <==> (holds_path(old_archive, p) && holds_path(new_archive, p)
                && index_of_entries(old_archive)[p] != index_of_entries(new_archive)[p]),
{
    let old_index = index_of_entries(old_archive);
    let new_index = index_of_entries(new_archive);
    lemma_index_is_latest(old_archive);
    lemma_index_is_latest(new_archive);
    lemma_latest_domain(old_archive, fingerprints());
    lemma_latest_domain(new_archive, fingerprints());
    assert forall|p: Seq<char>| #[trigger]
        m.added.contains(p) <==> (holds_path(new_archive, p) && !holds_path(old_archive, p)) by {
        assert(m.added.contains(p) <==> is_added(old_index, new_index, p));
        assert(old_index.contains_key(p) <==> holds_path(old_archive, p));
        assert(new_index.contains_key(p) <==> holds_path(new_archive, p));
    }
    assert forall|p: Seq<char>| #[trigger]
        m.removed.contains(p) <==> (holds_path(old_archive, p) && !holds_path(new_archive, p)) by {
        assert(m.removed.contains(p) <==> is_removed(old_index, new_index, p));
        assert(old_index.contains_key(p) <==> holds_path(old_archive, p));
        assert(new_index.contains_key(p) <==> holds_path(new_archive, p));
    }
    assert forall|p: Seq<char>| #[trigger]
        m.changed.contains(p) <==> (holds_path(old_archive, p) && holds_path(new_archive, p)
            && old_index[p] != new_index[p]) by {
        assert(m.changed.contains(p) <==> is_changed(old_index, new_index, p));
        assert(old_index.contains_key(p) <==> holds_path(old_archive, p));
        assert(new_index.contains_key(p) <==> holds_path(new_archive, p));
    }
}

/// Round trip, by fingerprints. The archive rebuilt from the old archive and
/// the delta's payload has the index of the new archive: the same paths, and
/// under each the same digest and the same checksum.
pub proof fn round_trip_restores_index(
    old_archive: Seq<EntryView>,
    new_archive: Seq<EntryView>,
    m: Manifest,
)
    requires
        is_diff_of(m, index_of_entries(old_archive), index_of_entries(new_archive)),
    ensures
        index_of_entries(reconstruct(old_archive, m, delta_payload(new_archive, m)))
            == index_of_entries(new_archive),
{
    lemma_diff_over_archives(old_archive, new_archive, m);
    lemma_index_is_latest(old_archive);
    lemma_index_is_latest(new_archive);
    lemma_index_is_latest(reconstruct(old_archive, m, delta_payload(new_archive, m)));
    lemma_rebuild(old_archive, new_archive, m, fingerprints());
}

/// Round trip, by entries. Where a path that both archives hold under one
/// fingerprint has one entry in both, the rebuilt archive holds, under every
/// path, the entry of the new archive: its header and its payload.
pub proof fn round_trip_restores_entries(
    old_archive: Seq<EntryView>,
    new_archive: Seq<EntryView>,
    m: Manifest,
)
    requires
        is_diff_of(m, index_of_entries(old_archive), index_of_entries(new_archive)),
        forall|p: Seq<char>|
            holds_path(old_archive, p) && holds_path(new_archive, p) && index_of_entries(
                old_archive,
            )[p] == index_of_entries(new_archive)[p] ==> #[trigger] latest_entries(old_archive)[p]
                == latest_entries(new_archive)[p],
    ensures
        latest_entries(reconstruct(old_archive, m, delta_payload(new_archive, m)))
            == latest_entries(new_archive),
{
    lemma_diff_over_archives(old_archive, new_archive, m);
    assert forall|p: Seq<char>|
        holds_path(old_archive, p) && holds_path(new_archive, p) && !(#[trigger] m.changed.contains(
            p,
        )) implies latest(old_archive, whole())[p] == latest(new_archive, whole())[p] by {
        assert(latest_entries(old_archive)[p] == latest_entries(new_archive)[p]);
    }
    lemma_rebuild(old_archive, new_archive, m, whole());
}

/// Round trip, through the delta archive. Where the manifest reads back from
/// its bytes, applying what `diff` gives to the old archive succeeds, and the
/// archive that comes out has the index of the new archive.
pub proof fn round_trip_through_delta(
    old_archive: Seq<EntryView>,
    new_archive: Seq<EntryView>,
    m: Manifest,
    text: Seq<u8>,
)
    requires
        headers_readable(old_archive),
        headers_readable(new_archive),
        is_diff_of(m, index_of_entries(old_archive), index_of_entries(new_archive)),
        manifest_text(m) == Some(text),
        text_manifest(text) == Some(m),
    ensures
        diffed(old_archive, new_archive) == Ok::<Seq<EntryView>, Failure>(
            delta_archive(new_archive, m, text),
        ),
        applied(old_archive, delta_archive(new_archive, m, text)) == Ok::<
            Seq<EntryView>,
            DeltaError,
        >(reconstruct(old_archive, m, delta_payload(new_archive, m))),
        index_of_entries(reconstruct(old_archive, m, delta_payload(new_archive, m)))
            == index_of_entries(new_archive),
{
    let old_index = index_of_entries(old_archive);
    let new_index = index_of_entries(new_archive);
    lemma_diff_unique(m, diff_manifest(old_index, new_index), old_index, new_index);
    let delta = delta_archive(new_archive, m, text);
    assert(delta[0] == manifest_entry(text));
    assert(delta.skip(1) =~= delta_payload(new_archive, m));
    round_trip_restores_index(old_archive, new_archive, m);
}

/// Idempotence. The manifest of an index against itself lists nothing.
pub proof fn diff_of_same_index_is_empty(index: Map<Seq<char>, Fingerprint>, m: Manifest)
    requires
        is_diff_of(m, index, index),
    ensures
        m.changed.len() == 0,
        m.added.len() == 0,
        m.removed.len() == 0,
{
    if m.changed.len() > 0 {
        assert(m.changed.contains(m.changed[0]));
        assert(is_changed(index, index, m.changed[0]));
    }
    if m.added.len() > 0 {
        assert(m.added.contains(m.added[0]));
        assert(is_added(index, index, m.added[0]));
    }
    if m.removed.len() > 0 {
        assert(m.removed.contains(m.removed[0]));
        assert(is_removed(index, index, m.removed[0]));
    }
}

/// Disjointness. No path is in two lists of a manifest, and none is listed
/// twice; a changed path is in both indexes, an added one in the new index,
/// a removed one in the old index.
pub proof fn diff_classes_are_disjoint(
    m: Manifest,
    old_index: Map<Seq<char>, Fingerprint>,
    new_index: Map<Seq<char>, Fingerprint>,
)
    requires
        is_diff_of(m, old_index, new_index),
    ensures
        forall|p: Seq<char>| !(#[trigger] m.changed.contains(p) && #[trigger] m.added.contains(p)),
        forall|p: Seq<char>|
            !(#[trigger] m.changed.contains(p) && #[trigger] m.removed.contains(p)),
        forall|p: Seq<char>| !(#[trigger] m.added.contains(p) && #[trigger] m.removed.contains(p)),
        m.changed.no_duplicates(),
        m.added.no_duplicates(),
        m.removed.no_duplicates(),
        forall|p: Seq<char>| #[trigger]
            m.changed.contains(p) ==> old_index.contains_key(p) && new_index.contains_key(p),
        forall|p: Seq<char>| #[trigger] m.added.contains(p) ==> new_index.contains_key(p),
        forall|p: Seq<char>| #[trigger] m.removed.contains(p) ==> old_index.contains_key(p),
{
    lemma_sorted_no_duplicates(m.changed);
    lemma_sorted_no_duplicates(m.added);
    lemma_sorted_no_duplicates(m.removed);
    assert forall|p: Seq<char>|
        !(#[trigger] m.changed.contains(p) && #[trigger] m.added.contains(p)) by {
        assert(m.changed.contains(p) <==> is_changed(old_index, new_index, p));
        assert(m.added.contains(p) <==> is_added(old_index, new_index, p));
    }
    assert forall|p: Seq<char>|
        !(#[trigger] m.changed.contains(p) && #[trigger] m.removed.contains(p)) by {
        assert(m.changed.contains(p) <==> is_changed(old_index, new_index, p));
        assert(m.removed.contains(p) <==> is_removed(old_index, new_index, p));
    }
    assert forall|p: Seq<char>|
        !(#[trigger] m.added.contains(p) && #[trigger] m.removed.contains(p)) by {
        assert(m.added.contains(p) <==> is_added(old_index, new_index, p));
        assert(m.removed.contains(p) <==> is_removed(old_index, new_index, p));
    }
}

/// Every path that the manifest of two archives lists is a path of an entry:
/// a changed path of an entry in each archive, an added one of an entry of
/// the new archive, a removed one of an entry of the old archive.
pub proof fn diff_paths_come_from_archives(
    old_archive: Seq<EntryView>,
    new_archive: Seq<EntryView>,
    m: Manifest,
)
    requires
        is_diff_of(m, index_of_entries(old_archive), index_of_entries(new_archive)),
    ensures
        forall|p: Seq<char>| #[trigger]
            m.changed.contains(p) ==> holds_path(old_archive, p) && holds_path(new_archive, p),
        forall|p: Seq<char>| #[trigger]
            m.added.contains(p) ==> holds_path(new_archive, p) && !holds_path(old_archive, p),
        forall|p: Seq<char>| #[trigger]
            m.removed.contains(p) ==> holds_path(old_archive, p) && !holds_path(new_archive, p),
{
    lemma_diff_over_archives(old_archive, new_archive, m);
}

/// Metadata sensitivity. A path under which both indexes hold the same
/// digest and different checksums is changed, and nothing else.
pub proof fn metadata_change_is_a_change(
    m: Manifest,
    old_index: Map<Seq<char>, Fingerprint>,
    new_index: Map<Seq<char>, Fingerprint>,
    p: Seq<char>,
)
    requires
        is_diff_of(m, old_index, new_index),
        old_index.contains_key(p),
        new_index.contains_key(p),
        old_index[p].sha1 == new_index[p].sha1,
        old_index[p].cksum != new_index[p].cksum,
    ensures
        m.changed.contains(p),
        !m.added.contains(p),
        !m.removed.contains(p),
{
    assert(is_changed(old_index, new_index, p));
    assert(!is_added(old_index, new_index, p));
    assert(!is_removed(old_index, new_index, p));
}

/// Deletion. A path that only the old archive holds is removed, in no other
/// list, and the rebuilt archive holds no entry under it.
pub proof fn removed_path_is_gone(
    old_archive: Seq<EntryView>,
    new_archive: Seq<EntryView>,
    m: Manifest,
    p: Seq<char>,
)
    requires
        is_diff_of(m, index_of_entries(old_archive), index_of_entries(new_archive)),
        holds_path(old_archive, p),
        !holds_path(new_archive, p),
    ensures
        m.removed.contains(p),
        !m.changed.contains(p),
        !m.added.contains(p),
        !holds_path(reconstruct(old_archive, m, delta_payload(new_archive, m)), p),
        !index_of_entries(reconstruct(old_archive, m, delta_payload(new_archive, m))).contains_key(
            p,
        ),
{
    lemma_diff_over_archives(old_archive, new_archive, m);
    assert(m.removed.contains(p) <==> (holds_path(old_archive, p) && !holds_path(new_archive, p)));
    assert(m.added.contains(p) <==> (holds_path(new_archive, p) && !holds_path(old_archive, p)));
    assert(m.changed.contains(p) ==> holds_path(old_archive, p) && holds_path(new_archive, p));
    let rebuilt = reconstruct(old_archive, m, delta_payload(new_archive, m));
    round_trip_restores_index(old_archive, new_archive, m);
    lemma_index_is_latest(rebuilt);
    lemma_index_is_latest(new_archive);
    lemma_latest_domain(rebuilt, fingerprints());
    lemma_latest_domain(new_archive, fingerprints());
    assert(latest(new_archive, fingerprints()).contains_key(p) <==> holds_path(new_archive, p));
    assert(latest(rebuilt, fingerprints()).contains_key(p) <==> holds_path(rebuilt, p));
}

/// The paths of the entries of an archive, in its order.
pub open spec fn entry_paths(archive: Seq<EntryView>) -> Seq<Seq<char>> {
    Seq::new(archive.len(), |i: int| archive[i].path)
}

/// Delta minimality. Every entry of the payload is under a changed or an
/// added path, so none is unchanged; and where no two entries of the new
/// archive have one path, the payload has as many entries as the manifest
/// lists changed and added paths.
pub proof fn payload_is_minimal(
    old_archive: Seq<EntryView>,
    new_archive: Seq<EntryView>,
    m: Manifest,
)
    requires
        is_diff_of(m, index_of_entries(old_archive), index_of_entries(new_archive)),
    ensures
        forall|i: int|
            0 <= i < delta_payload(new_archive, m).len() ==> {
                let p = (#[trigger] delta_payload(new_archive, m)[i]).path;
                is_changed(index_of_entries(old_archive), index_of_entries(new_archive), p)
                    || is_added(index_of_entries(old_archive), index_of_entries(new_archive), p)
            },
        paths_distinct(new_archive) ==> delta_payload(new_archive, m).len() == m.changed.len()
            + m.added.len(),
{
    let payload = delta_payload(new_archive, m);
    let old_index = index_of_entries(old_archive);
    let new_index = index_of_entries(new_archive);
    assert forall|i: int| 0 <= i < payload.len() implies {
        let p = (#[trigger] payload[i]).path;
        is_changed(old_index, new_index, p) || is_added(old_index, new_index, p)
    } by {
        new_archive.lemma_filter_pred(carried(m), i);
        let p = payload[i].path;
        assert(listed(m.changed, m.added, p));
        assert(m.changed.contains(p) <==> is_changed(old_index, new_index, p));
        assert(m.added.contains(p) <==> is_added(old_index, new_index, p));
    }
    if paths_distinct(new_archive) {
        lemma_selected_entries(new_archive, m.changed, m.added, true);
        lemma_diff_over_archives(old_archive, new_archive, m);
        diff_classes_are_disjoint(m, old_index, new_index);
        let paths = entry_paths(payload);
        assert(paths.no_duplicates()) by {
            assert forall|i: int, j: int|
                0 <= i < paths.len() && 0 <= j < paths.len() && i != j implies paths[i]
                != paths[j] by {
                if i < j {
                    assert(payload[i].path != payload[j].path);
                } else {
                    assert(payload[j].path != payload[i].path);
                }
            }
        }
        paths.unique_seq_to_set();
        m.changed.unique_seq_to_set();
        m.added.unique_seq_to_set();
        seq_to_set_is_finite(m.changed);
        seq_to_set_is_finite(m.added);
        assert(m.changed.to_set().disjoint(m.added.to_set()));
        lemma_set_disjoint_lens(m.changed.to_set(), m.added.to_set());
        assert(paths.to_set() =~= m.changed.to_set() + m.added.to_set()) by {
            assert forall|p: Seq<char>|
                paths.to_set().contains(p) <==> (m.changed.to_set() + m.added.to_set()).contains(
                    p,
                ) by {
                assert(holds_path(payload, p) <==> (holds_path(new_archive, p) && listed(
                    m.changed,
                    m.added,
                    p,
                ) == true));
                assert(m.added.contains(p) <==> (holds_path(new_archive, p) && !holds_path(
                    old_archive,
                    p,
                )));
                assert(m.changed.contains(p) ==> holds_path(new_archive, p));
                if paths.contains(p) {
                    let k = choose|k: int| 0 <= k < paths.len() && paths[k] == p;
                    assert(payload[k].path == p);
                    assert(holds_path(payload, p));
                }
                if holds_path(payload, p) {
                    let k = choose|k: int|
                        0 <= k < payload.len() && (#[trigger] payload[k]).path == p;
                    assert(paths[k] == p);
                }
            }
        }
    }
}

} // verus!
