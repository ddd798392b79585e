//! The manifest as bytes: a JSON object with the three lists of paths under
//! the keys `changed`, `added` and `removed`, in that order.

use vstd::prelude::*;
use crate::error::DeltaError;
use crate::manifest::{DiffMetadata, Manifest};
use crate::paths::path_seq;

verus! {

/// The fields of a JSON object as mathematical values: each a key and a list
/// of strings.
pub open spec fn fields_view(fields: Seq<(String, Vec<String>)>) -> Seq<
    (Seq<char>, Seq<Seq<char>>),
> {
    Seq::new(fields.len(), |i: int| (fields[i].0@, path_seq(fields[i].1@)))
}

/// The compact JSON text of the object that holds `fields` in their order,
/// each value an array of strings; `None` where it cannot be written.
pub uninterp spec fn json_object_text(fields: Seq<(Seq<char>, Seq<Seq<char>>)>) -> Option<Seq<u8>>;

/// The fields of the JSON object that `text` holds, by ascending key, where
/// `text` is one JSON object whose values are all arrays of strings.
pub uninterp spec fn json_object_fields(text: Seq<u8>) -> Option<Seq<(Seq<char>, Seq<Seq<char>>)>>;

/// Writes the fields as one JSON object with `serde_json::to_vec`, handed a
/// `serde_json::Map` that holds each key with its list as an array of
/// strings. Trusted: the bytes, and whether there are any, depend on the
/// fields alone. `None` stands for the error that `to_vec` returns.
#[verifier::external_body]
fn json_write_object(fields: &Vec<(String, Vec<String>)>) -> (text: Option<Vec<u8>>)
    ensures
        match text {
            Some(bytes) => json_object_text(fields_view(fields@)) == Some(bytes@),
            None => json_object_text(fields_view(fields@)) is None,
        },
{
    let object: serde_json::Map<String, serde_json::Value> = fields.iter().map(
        |f| (f.0.clone(), serde_json::Value::from(f.1.clone())),
    ).collect();
    serde_json::to_vec(&object).ok()
}

/// Reads one JSON object with `serde_json::from_slice`, as a
/// `BTreeMap<String, Vec<String>>`. Trusted: the fields, and whether there
/// are any, depend on the bytes alone. `None` stands for the error that
/// `from_slice` returns.
#[verifier::external_body]
fn json_read_object(text: &[u8]) -> (fields: Option<Vec<(String, Vec<String>)>>)
    ensures
        match fields {
            Some(list) => json_object_fields(text@) == Some(fields_view(list@)),
            None => json_object_fields(text@) is None,
        },
{
    let object: Option<std::collections::BTreeMap<String, Vec<String>>> = serde_json::from_slice(
        text,
    ).ok();
    object.map(|m| m.into_iter().collect())
}

/// The fields that stand for a manifest.
pub open spec fn manifest_fields(m: Manifest) -> Seq<(Seq<char>, Seq<Seq<char>>)> {
    seq![("changed"@, m.changed), ("added"@, m.added), ("removed"@, m.removed)]
}

/// The list that `fields` holds under `key`: that of the first field with
/// this key.
pub open spec fn field_named(fields: Seq<(Seq<char>, Seq<Seq<char>>)>, key: Seq<char>) -> Option<
    Seq<Seq<char>>,
>
    decreases fields.len(),
{
    if fields.len() == 0 {
        None
    } else if fields[0].0 == key {
        Some(fields[0].1)
    } else {
        field_named(fields.drop_first(), key)
    }
}

/// The manifest that `fields` stand for: there is one where each of the
/// three keys is present.
pub open spec fn fields_manifest(fields: Seq<(Seq<char>, Seq<Seq<char>>)>) -> Option<Manifest> {
    match (
        field_named(fields, "changed"@),
        field_named(fields, "added"@),
        field_named(fields, "removed"@),
    ) {
        (Some(changed), Some(added), Some(removed)) => Some(Manifest { changed, added, removed }),
        _ => None,
    }
}

/// The bytes of a manifest.
pub open spec fn manifest_text(m: Manifest) -> Option<Seq<u8>> {
    json_object_text(manifest_fields(m))
}

/// The manifest that `text` holds.
pub open spec fn text_manifest(text: Seq<u8>) -> Option<Manifest> {
    match json_object_fields(text) {
        Some(fields) => fields_manifest(fields),
        None => None,
    }
}

fn copy_paths(list: &Vec<String>) -> (copy: Vec<String>)
    ensures
        path_seq(copy@) == path_seq(list@),
{
    let mut copy: Vec<String> = Vec::new();
    let mut i: usize = 0;
    while i < list.len()
        invariant
            i <= list.len(),
            copy@.len() == i,
            path_seq(copy@) == path_seq(list@).take(i as int),
        decreases list.len() - i,
    {
        let ghost before = copy@;
        copy.push(list[i].clone());
        proof {
            let now = path_seq(copy@);
            let goal = path_seq(list@).take(i + 1);
            assert forall|k: int| 0 <= k < now.len() implies now[k] == goal[k] by {
                if k < i {
                    assert(copy@[k] == before[k]);
                    assert(now[k] == path_seq(before)[k]);
                    assert(path_seq(list@).take(i as int)[k] == goal[k]);
                }
            }
            assert(now =~= goal);
        }
        i += 1;
    }
    proof {
        assert(path_seq(list@).take(i as int) =~= path_seq(list@));
    }
    copy
}

fn find_field(fields: &Vec<(String, Vec<String>)>, key: &str) -> (list: Option<Vec<String>>)
    ensures
        match list {
            Some(l) => field_named(fields_view(fields@), key@) == Some(path_seq(l@)),
            None => field_named(fields_view(fields@), key@) is None,
        },
{
    let ghost all = fields_view(fields@);
    let wanted = key.to_owned();
    let mut i: usize = 0;
    proof {
        assert(all.skip(0) =~= all);
    }
    while i < fields.len()
        invariant
            i <= fields.len(),
            all == fields_view(fields@),
            wanted@ == key@,
            field_named(all, key@) == field_named(all.skip(i as int), key@),
        decreases fields.len() - i,
    {
        proof {
            assert(all.skip(i as int)[0] == all[i as int]);
            assert(all.skip(i as int).drop_first() =~= all.skip(i + 1));
        }
        if fields[i].0 == wanted {
            return Some(copy_paths(&fields[i].1));
        }
        i += 1;
    }
    None
}

/// The manifest that a list of fields stands for: the lists under the keys
/// `changed`, `added` and `removed`. There is none where one of the three is
/// missing. Other fields are passed over.
pub fn manifest_from_fields(fields: &Vec<(String, Vec<String>)>) -> (manifest: Option<DiffMetadata>)
    ensures
        match manifest {
            Some(m) => fields_manifest(fields_view(fields@)) == Some(m@),
            None => fields_manifest(fields_view(fields@)) is None,
        },
{
    let changed = find_field(fields, "changed");
    let added = find_field(fields, "added");
    let removed = find_field(fields, "removed");
    match (changed, added, removed) {
        (Some(c), Some(a), Some(r)) => Some(DiffMetadata::new(c, a, r)),
        _ => None,
    }
}

/// The fields that stand for `manifest`, in the order in which they are
/// written.
pub fn manifest_to_fields(manifest: &DiffMetadata) -> (fields: Vec<(String, Vec<String>)>)
    ensures
        fields_view(fields@) == manifest_fields(manifest@),
{
    let mut fields: Vec<(String, Vec<String>)> = Vec::new();
    fields.push(("changed".to_owned(), copy_paths(manifest.changed())));
    fields.push(("added".to_owned(), copy_paths(manifest.added())));
    fields.push(("removed".to_owned(), copy_paths(manifest.removed())));
    proof {
        assert(fields_view(fields@) =~= manifest_fields(manifest@));
    }
    fields
}

/// Serializes a manifest. Fails with `WriteError` if and only if the
/// manifest has no bytes.
pub fn encode_manifest(manifest: &DiffMetadata) -> (result: Result<Vec<u8>, DeltaError>)
    ensures
        match result {
            Ok(bytes) => manifest_text(manifest@) == Some(bytes@),
            Err(e) => e == DeltaError::WriteError && manifest_text(manifest@) is None,
        },
{
    let fields = manifest_to_fields(manifest);
    match json_write_object(&fields) {
        Some(bytes) => Ok(bytes),
        None => Err(DeltaError::WriteError),
    }
}

/// Reads a manifest back from its bytes. Fails with `InvalidManifest` if and
/// only if the bytes hold no manifest.
pub fn decode_manifest(text: &[u8]) -> (result: Result<DiffMetadata, DeltaError>)
    ensures
        match result {
            Ok(manifest) => text_manifest(text@) == Some(manifest@),
            Err(e) => e == DeltaError::InvalidManifest && text_manifest(text@) is None,
        },
{
    match json_read_object(text) {
        Some(fields) => match manifest_from_fields(&fields) {
            Some(manifest) => Ok(manifest),
            None => Err(DeltaError::InvalidManifest),
        },
        None => Err(DeltaError::InvalidManifest),
    }
}

} // verus!
