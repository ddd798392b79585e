use tar_delta::codec::{decode_manifest, encode_manifest};
use tar_delta::delta::{
    apply, apply_delta_archive, apply_manifest, check_compression, create_delta_archive, diff,
    DELTA_METADATA_FILE,
};
use tar_delta::entry::Entry;
use tar_delta::error::{DeltaError, Failure, Phase};
use tar_delta::header::make_manifest_header;
use tar_delta::index::create_index;
use tar_delta::manifest::{compute_diff, DiffMetadata};

fn header_for(path: &str, size: usize, mode: u32) -> [u8; 512] {
    let mut header = tar::Header::new_gnu();
    header.set_path(path).unwrap();
    header.set_size(size as u64);
    header.set_mode(mode);
    header.set_cksum();
    *header.as_bytes()
}

fn file(path: &str, content: &str) -> Entry {
    Entry::new(
        path.to_string(),
        header_for(path, content.len(), 0o644),
        content.as_bytes().to_vec(),
    )
}

fn file_with_mode(path: &str, content: &str, mode: u32) -> Entry {
    Entry::new(
        path.to_string(),
        header_for(path, content.len(), mode),
        content.as_bytes().to_vec(),
    )
}

fn paths(list: &[&str]) -> Vec<String> {
    list.iter().map(|p| p.to_string()).collect()
}

fn manifest_of(delta: &Vec<Entry>) -> DiffMetadata {
    decode_manifest(&delta[0].data).unwrap()
}

#[test]
fn changed_and_added_scenario() {
    let old = vec![file("a.txt", "hello"), file("b.txt", "world")];
    let new = vec![file("a.txt", "hello"), file("b.txt", "WORLD"), file("c.txt", "new")];

    let delta = diff(&old, &new, false).unwrap();
    let manifest = manifest_of(&delta);
    assert_eq!(manifest.changed(), &paths(&["b.txt"]));
    assert_eq!(manifest.added(), &paths(&["c.txt"]));
    assert_eq!(manifest.removed(), &paths(&[]));

    assert_eq!(delta.len(), 3);
    assert_eq!(delta[0].path, DELTA_METADATA_FILE);
    assert_eq!(delta[1], file("b.txt", "WORLD"));
    assert_eq!(delta[2], file("c.txt", "new"));

    let rebuilt = apply(&old, &delta).unwrap();
    assert_eq!(
        rebuilt,
        vec![file("a.txt", "hello"), file("b.txt", "WORLD"), file("c.txt", "new")]
    );
}

#[test]
fn removed_scenario() {
    let old = vec![file("a.txt", "hello"), file("b.txt", "world")];
    let new = vec![file("a.txt", "hello")];

    let delta = diff(&old, &new, false).unwrap();
    let manifest = manifest_of(&delta);
    assert_eq!(manifest.changed(), &paths(&[]));
    assert_eq!(manifest.added(), &paths(&[]));
    assert_eq!(manifest.removed(), &paths(&["b.txt"]));
    assert_eq!(delta.len(), 1);
    assert_eq!(delta[0].path, DELTA_METADATA_FILE);

    let rebuilt = apply(&old, &delta).unwrap();
    assert_eq!(rebuilt, vec![file("a.txt", "hello")]);
}

#[test]
fn empty_delta_is_rejected() {
    let old = vec![file("a.txt", "hello")];
    let delta: Vec<Entry> = Vec::new();
    assert_eq!(
        apply(&old, &delta),
        Err(Failure { phase: Phase::Decoding, error: DeltaError::EmptyDelta })
    );
    assert_eq!(apply_delta_archive(&old, &delta), Err(DeltaError::EmptyDelta));
}

#[test]
fn delta_without_manifest_first_is_rejected() {
    let old = vec![file("a.txt", "hello")];
    let delta = vec![file("b.txt", "WORLD")];
    assert_eq!(
        apply(&old, &delta),
        Err(Failure { phase: Phase::Decoding, error: DeltaError::MissingManifest })
    );

    let mut late = diff(&old, &vec![file("a.txt", "HELLO")], false).unwrap();
    late.swap(0, 1);
    assert_eq!(apply_delta_archive(&old, &late), Err(DeltaError::MissingManifest));
}

#[test]
fn malformed_manifest_is_rejected() {
    let old = vec![file("a.txt", "hello")];
    let broken = vec![file(DELTA_METADATA_FILE, "{\"changed\": [")];
    assert_eq!(
        apply(&old, &broken),
        Err(Failure { phase: Phase::Decoding, error: DeltaError::InvalidManifest })
    );

    let incomplete = vec![file(DELTA_METADATA_FILE, "{\"changed\":[],\"added\":[]}")];
    assert_eq!(apply_delta_archive(&old, &incomplete), Err(DeltaError::InvalidManifest));

    let not_an_object = vec![file(DELTA_METADATA_FILE, "42")];
    assert_eq!(apply_delta_archive(&old, &not_an_object), Err(DeltaError::InvalidManifest));
}

#[test]
fn corrupt_header_is_rejected() {
    let good = vec![file("a.txt", "hello")];
    let bad = vec![Entry::new("b.txt".to_string(), [0u8; 512], b"world".to_vec())];
    assert_eq!(create_index(&bad).err(), Some(DeltaError::CorruptHeader));
    assert_eq!(bad[0].fingerprint(), Err(DeltaError::CorruptHeader));
    assert_eq!(
        diff(&bad, &good, false),
        Err(Failure { phase: Phase::IndexingOld, error: DeltaError::CorruptHeader })
    );
    assert_eq!(
        diff(&good, &bad, false),
        Err(Failure { phase: Phase::IndexingNew, error: DeltaError::CorruptHeader })
    );
    assert_eq!(
        diff(&bad, &bad, false),
        Err(Failure { phase: Phase::IndexingOld, error: DeltaError::CorruptHeader })
    );

    let mut text = *tar::Header::new_gnu().as_bytes();
    text[148..156].copy_from_slice(b"notoctal");
    let unreadable = vec![Entry::new("c.txt".to_string(), text, Vec::new())];
    assert_eq!(create_index(&unreadable).err(), Some(DeltaError::CorruptHeader));
}

#[test]
fn compression_is_refused() {
    let old = vec![file("a.txt", "hello")];
    let new = vec![file("a.txt", "HELLO")];
    assert_eq!(
        diff(&old, &new, true),
        Err(Failure { phase: Phase::Opening, error: DeltaError::UnsupportedCompression })
    );
    let bad = vec![Entry::new("b.txt".to_string(), [0u8; 512], Vec::new())];
    assert_eq!(
        diff(&bad, &new, true),
        Err(Failure { phase: Phase::Opening, error: DeltaError::UnsupportedCompression })
    );
    assert_eq!(check_compression(true), Err(DeltaError::UnsupportedCompression));
    assert_eq!(check_compression(false), Ok(()));
}

#[test]
fn diff_of_archive_with_itself_is_empty() {
    let old = vec![file("a.txt", "hello"), file("dir/b.txt", "world"), file("c", "")];
    let index = create_index(&old).unwrap();
    let again = create_index(&old).unwrap();
    let manifest = compute_diff(&index, &again);
    assert!(manifest.changed().is_empty());
    assert!(manifest.added().is_empty());
    assert!(manifest.removed().is_empty());

    let delta = diff(&old, &old, false).unwrap();
    assert_eq!(delta.len(), 1);
    assert_eq!(apply(&old, &delta).unwrap(), old);
}

#[test]
fn lists_are_disjoint_and_refer_to_their_archives() {
    let old = vec![file("keep", "1"), file("edit", "2"), file("drop", "3"), file("drop2", "4")];
    let new = vec![file("edit", "two"), file("fresh", "5"), file("keep", "1")];
    let manifest = compute_diff(&create_index(&old).unwrap(), &create_index(&new).unwrap());
    assert_eq!(manifest.changed(), &paths(&["edit"]));
    assert_eq!(manifest.added(), &paths(&["fresh"]));
    assert_eq!(manifest.removed(), &paths(&["drop", "drop2"]));
    for p in manifest.changed() {
        assert!(!manifest.added().contains(p) && !manifest.removed().contains(p));
        assert!(old.iter().any(|e| &e.path == p) && new.iter().any(|e| &e.path == p));
    }
    for p in manifest.added() {
        assert!(!manifest.removed().contains(p));
        assert!(new.iter().any(|e| &e.path == p) && !old.iter().any(|e| &e.path == p));
    }
    for p in manifest.removed() {
        assert!(old.iter().any(|e| &e.path == p) && !new.iter().any(|e| &e.path == p));
    }
}

#[test]
fn metadata_change_alone_is_a_change() {
    let old = vec![file_with_mode("run.sh", "#!/bin/sh\n", 0o644)];
    let new = vec![file_with_mode("run.sh", "#!/bin/sh\n", 0o755)];
    let old_value = old[0].fingerprint().unwrap();
    let new_value = new[0].fingerprint().unwrap();
    assert_eq!(old_value.sha1(), new_value.sha1());
    assert_ne!(old_value.cksum(), new_value.cksum());

    let delta = diff(&old, &new, false).unwrap();
    let manifest = manifest_of(&delta);
    assert_eq!(manifest.changed(), &paths(&["run.sh"]));
    assert!(manifest.added().is_empty());
    assert!(manifest.removed().is_empty());
    assert_eq!(apply(&old, &delta).unwrap(), new);
}

#[test]
fn deleted_path_is_only_removed_and_not_rebuilt() {
    let old = vec![file("a", "1"), file("gone", "2"), file("b", "3")];
    let new = vec![file("a", "1"), file("b", "3")];
    let delta = diff(&old, &new, false).unwrap();
    let manifest = manifest_of(&delta);
    assert_eq!(manifest.removed(), &paths(&["gone"]));
    assert!(!manifest.changed().contains(&"gone".to_string()));
    assert!(!manifest.added().contains(&"gone".to_string()));
    let rebuilt = apply(&old, &delta).unwrap();
    assert!(rebuilt.iter().all(|e| e.path != "gone"));
    assert_eq!(rebuilt, new);
}

#[test]
fn payload_holds_changed_and_added_entries_only() {
    let old = vec![file("a", "1"), file("b", "2"), file("c", "3")];
    let new = vec![file("d", "4"), file("a", "1"), file("c", "three"), file("b", "2"), file("e", "5")];
    let delta = diff(&old, &new, false).unwrap();
    let manifest = manifest_of(&delta);
    assert_eq!(delta.len() - 1, manifest.changed().len() + manifest.added().len());
    assert_eq!(delta.len(), 4);
    assert_eq!(delta[1], file("d", "4"));
    assert_eq!(delta[2], file("c", "three"));
    assert_eq!(delta[3], file("e", "5"));
    assert!(delta.iter().all(|e| e.path != "a" && e.path != "b"));
}

#[test]
fn rebuilt_archive_keeps_old_order_then_delta_order() {
    let old = vec![file("z", "1"), file("m", "2"), file("a", "3"), file("k", "4")];
    let new = vec![file("k", "four"), file("a", "3"), file("n", "5"), file("z", "1"), file("b", "6")];
    let delta = diff(&old, &new, false).unwrap();
    let rebuilt = apply(&old, &delta).unwrap();
    assert_eq!(
        rebuilt,
        vec![file("z", "1"), file("a", "3"), file("k", "four"), file("n", "5"), file("b", "6")]
    );
    let rebuilt_index = create_index(&rebuilt).unwrap();
    let new_index = create_index(&new).unwrap();
    let none = compute_diff(&rebuilt_index, &new_index);
    assert!(none.changed().is_empty() && none.added().is_empty() && none.removed().is_empty());
}

#[test]
fn manifest_lists_are_in_path_order() {
    let old = vec![file("q", "1"), file("c", "2"), file("x", "3"), file("b/z", "4")];
    let new = vec![file("zeta", "1"), file("alpha", "2"), file("b/y", "3"), file("b", "4")];
    let manifest = compute_diff(&create_index(&old).unwrap(), &create_index(&new).unwrap());
    assert_eq!(manifest.added(), &paths(&["alpha", "b", "b/y", "zeta"]));
    assert_eq!(manifest.removed(), &paths(&["b/z", "c", "q", "x"]));
    assert!(manifest.changed().is_empty());
}

#[test]
fn manifest_bytes_are_a_json_object_of_three_lists() {
    let manifest = DiffMetadata::new(paths(&["b.txt"]), paths(&["c.txt"]), paths(&[]));
    let bytes = encode_manifest(&manifest).unwrap();
    assert_eq!(
        String::from_utf8(bytes.clone()).unwrap(),
        "{\"changed\":[\"b.txt\"],\"added\":[\"c.txt\"],\"removed\":[]}"
    );
    assert_eq!(decode_manifest(&bytes), Ok(manifest));
}

#[test]
fn manifest_with_unusual_paths_reads_back() {
    let manifest = DiffMetadata::new(
        paths(&["dir/with space/\"quoted\".txt", "tab\there"]),
        paths(&["caf\u{e9}/\u{1f600}.bin", "back\\slash"]),
        paths(&["", "removed"]),
    );
    let bytes = encode_manifest(&manifest).unwrap();
    assert_eq!(decode_manifest(&bytes), Ok(manifest));
}

#[test]
fn manifest_reads_fields_in_any_order_and_passes_over_others() {
    let text = b"{\"removed\":[\"r\"],\"extra\":[\"x\"],\"added\":[\"a\"],\"changed\":[\"c\"]}";
    let manifest = decode_manifest(text).unwrap();
    assert_eq!(manifest, DiffMetadata::new(paths(&["c"]), paths(&["a"]), paths(&["r"])));
    assert_eq!(decode_manifest(b"{\"changed\":[1],\"added\":[],\"removed\":[]}").err(),
        Some(DeltaError::InvalidManifest));
    assert_eq!(decode_manifest(b"").err(), Some(DeltaError::InvalidManifest));
}

#[test]
fn manifest_entry_header_declares_the_payload_size() {
    let new = vec![file("a.txt", "hello")];
    let manifest = DiffMetadata::new(paths(&[]), paths(&["a.txt"]), paths(&[]));
    let delta = create_delta_archive(&new, &manifest).unwrap();
    let text = "{\"changed\":[],\"added\":[\"a.txt\"],\"removed\":[]}";
    assert_eq!(delta[0].data, text.as_bytes());
    assert_eq!(text.len(), 45);

    let mut expected = [0u8; 512];
    expected[124..136].copy_from_slice(b"00000000055\0");
    expected[136..148].copy_from_slice(b"00000000000\0");
    assert_eq!(delta[0].header, expected);
    assert_eq!(
        tar::Header::from_byte_slice(&delta[0].header).size().unwrap(),
        delta[0].data.len() as u64
    );
    assert_eq!(delta[1], file("a.txt", "hello"));
    assert_eq!(delta.len(), 2);
}

#[test]
fn manifest_header_holds_the_size_in_octal() {
    for size in [0u64, 7, 8, 45, 511, 512, 0o7654321, 4096 * 4096, 0x1_ffff_ffff] {
        let mut expected = [0u8; 512];
        expected[124..135].copy_from_slice(format!("{:011o}", size).as_bytes());
        expected[136..147].copy_from_slice(b"00000000000");
        let header = make_manifest_header(size);
        assert_eq!(header, expected);
        assert_eq!(tar::Header::from_byte_slice(&header).size().unwrap(), size);
    }
    let large = make_manifest_header(0x2_0000_0000);
    assert_eq!(tar::Header::from_byte_slice(&large).size().unwrap(), 0x2_0000_0000);
    assert_eq!(large[124] & 0x80, 0x80);
}

#[test]
fn delta_carries_what_the_manifest_lists() {
    let new = vec![file("a", "1"), file("b", "2"), file("c", "3")];
    let manifest = DiffMetadata::new(paths(&["c"]), paths(&["a"]), paths(&["b"]));
    let delta = create_delta_archive(&new, &manifest).unwrap();
    assert_eq!(delta.len(), 3);
    assert_eq!(delta[1], file("a", "1"));
    assert_eq!(delta[2], file("c", "3"));
}

#[test]
fn apply_manifest_drops_removed_and_changed_then_appends_payload() {
    let old = vec![file("a", "1"), file("b", "2"), file("c", "3"), file("d", "4")];
    let manifest = DiffMetadata::new(paths(&["b"]), paths(&["e"]), paths(&["d"]));
    let payload = vec![file("b", "two"), file("e", "5")];
    let out = apply_manifest(&old, &manifest, &payload);
    assert_eq!(out, vec![file("a", "1"), file("c", "3"), file("b", "two"), file("e", "5")]);

    let nothing = apply_manifest(&old, &manifest, &[]);
    assert_eq!(nothing, vec![file("a", "1"), file("c", "3")]);
}

#[test]
fn apply_copies_every_entry_after_the_manifest() {
    let old = vec![file("a", "1")];
    let manifest = DiffMetadata::new(paths(&[]), paths(&["b"]), paths(&[]));
    let mut delta = create_delta_archive(&vec![file("b", "2")], &manifest).unwrap();
    delta.push(file("stray", "3"));
    let out = apply(&old, &delta).unwrap();
    assert_eq!(out, vec![file("a", "1"), file("b", "2"), file("stray", "3")]);
}

#[test]
fn duplicate_paths_last_entry_decides() {
    let old = vec![file("a", "first"), file("a", "second")];
    let new = vec![file("a", "second")];
    let delta = diff(&old, &new, false).unwrap();
    assert_eq!(delta.len(), 1);

    let newer = vec![file("a", "second"), file("a", "third")];
    let delta = diff(&old, &newer, false).unwrap();
    let manifest = manifest_of(&delta);
    assert_eq!(manifest.changed(), &paths(&["a"]));
    assert_eq!(delta.len(), 3);
    let rebuilt = apply(&old, &delta).unwrap();
    assert_eq!(rebuilt, newer);
}

#[test]
fn empty_archives() {
    let none: Vec<Entry> = Vec::new();
    let some = vec![file("a", "1")];
    let delta = diff(&none, &none, false).unwrap();
    assert_eq!(delta.len(), 1);
    assert_eq!(apply(&none, &delta).unwrap(), none);

    let delta = diff(&none, &some, false).unwrap();
    assert_eq!(manifest_of(&delta).added(), &paths(&["a"]));
    assert_eq!(apply(&none, &delta).unwrap(), some);

    let delta = diff(&some, &none, false).unwrap();
    assert_eq!(manifest_of(&delta).removed(), &paths(&["a"]));
    assert_eq!(apply(&some, &delta).unwrap(), none);
}

#[test]
fn error_messages() {
    assert_eq!(DeltaError::CorruptHeader.message(), "invalid cksum");
    assert_eq!(DeltaError::ReadError.message(), "sha1 hashing failed");
    assert_eq!(DeltaError::WriteError.message(), "failed to create delta archive");
    assert_eq!(DeltaError::EmptyDelta.message(), "empty delta file");
    assert_eq!(
        DeltaError::MissingManifest.message(),
        "delta file is missing metadata file as first entry"
    );
    assert_eq!(DeltaError::InvalidManifest.message(), "invalid metadata file");
    assert_eq!(DeltaError::UnsupportedCompression.message(), "gzip archives are not supported");
}

#[test]
fn failure_messages_name_the_step() {
    let failure = Failure { phase: Phase::IndexingNew, error: DeltaError::CorruptHeader };
    assert_eq!(failure.message(), "indexing new archive: invalid cksum");
    let failure = Failure { phase: Phase::Decoding, error: DeltaError::EmptyDelta };
    assert_eq!(failure.message(), "decoding delta: empty delta file");
    assert_eq!(Phase::Opening.name(), "opening");
    assert_eq!(Phase::IndexingOld.name(), "indexing old archive");
    assert_eq!(Phase::Encoding.name(), "encoding delta");
}
