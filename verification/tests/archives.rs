use std::io::Read;
use tar_delta::delta::{apply, diff, DELTA_METADATA_FILE};
use tar_delta::entry::Entry;

fn write_archive(files: &[(&str, &[u8], u32)]) -> Vec<u8> {
    let mut builder = tar::Builder::new(Vec::new());
    for (path, content, mode) in files {
        let mut header = tar::Header::new_gnu();
        header.set_size(content.len() as u64);
        header.set_mode(*mode);
        builder.append_data(&mut header, path, *content).unwrap();
    }
    builder.into_inner().unwrap()
}

fn read_archive(bytes: &[u8]) -> Vec<Entry> {
    let mut archive = tar::Archive::new(bytes);
    let mut entries = Vec::new();
    for item in archive.entries().unwrap() {
        let mut item = item.unwrap();
        let path = item.path().unwrap().to_str().unwrap().to_string();
        let header = *item.header().as_bytes();
        let mut data = Vec::new();
        item.read_to_end(&mut data).unwrap();
        entries.push(Entry::new(path, header, data));
    }
    entries
}

fn write_entries(entries: &[Entry]) -> Vec<u8> {
    let mut builder = tar::Builder::new(Vec::new());
    for e in entries {
        let mut header = tar::Header::from_byte_slice(&e.header).clone();
        builder.append_data(&mut header, &e.path, &e.data[..]).unwrap();
    }
    builder.into_inner().unwrap()
}

#[test]
fn round_trip_through_tar_bytes() {
    let old_bytes = write_archive(&[
        ("a.txt", b"hello", 0o644),
        ("b.txt", b"world", 0o644),
        ("bin/tool", b"\x7fELF", 0o644),
        ("old.log", b"log", 0o600),
    ]);
    let new_bytes = write_archive(&[
        ("a.txt", b"hello", 0o644),
        ("b.txt", b"WORLD", 0o644),
        ("bin/tool", b"\x7fELF", 0o755),
        ("c.txt", b"new", 0o644),
    ]);
    let old = read_archive(&old_bytes);
    let new = read_archive(&new_bytes);

    let delta = diff(&old, &new, false).unwrap();
    let delta_bytes = write_entries(&delta);
    let delta_read = read_archive(&delta_bytes);
    assert_eq!(delta_read.len(), 4);
    assert_eq!(delta_read[0].path, DELTA_METADATA_FILE);
    assert_eq!(
        String::from_utf8(delta_read[0].data.clone()).unwrap(),
        "{\"changed\":[\"b.txt\",\"bin/tool\"],\"added\":[\"c.txt\"],\"removed\":[\"old.log\"]}"
    );

    let rebuilt = apply(&old, &delta_read).unwrap();
    let rebuilt_bytes = write_entries(&rebuilt);
    let mut got = read_archive(&rebuilt_bytes);
    let mut want = new.clone();
    got.sort_by(|a, b| a.path.cmp(&b.path));
    want.sort_by(|a, b| a.path.cmp(&b.path));
    assert_eq!(got, want);
    assert_eq!(
        rebuilt.iter().map(|e| e.path.as_str()).collect::<Vec<_>>(),
        vec!["a.txt", "b.txt", "bin/tool", "c.txt"]
    );
}
