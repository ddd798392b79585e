//! The diff manifest: which paths changed, were added, or were removed.

use vstd::prelude::*;
use crate::fingerprint::{entry_has_changed, Fingerprint};
use crate::index::Index;
use crate::paths::{
    lemma_not_in_sorted, lemma_path_lt_transitive, lemma_take_next_contains, path_lt, path_order,
    path_seq, push_sorted, strictly_sorted, PathOrder,
};

verus! {

/// A manifest as a mathematical value: three lists of paths.
pub struct Manifest {
    pub changed: Seq<Seq<char>>,
    pub added: Seq<Seq<char>>,
    pub removed: Seq<Seq<char>>,
}

/// The record of what differs between an old and a new archive.
#[derive(Debug, Clone, PartialEq, Eq)]
pub struct DiffMetadata {
    changed: Vec<String>,
    added: Vec<String>,
    removed: Vec<String>,
}

impl View for DiffMetadata {
    type V = Manifest;

    closed spec fn view(&self) -> Manifest {
        Manifest {
            changed: path_seq(self.changed@),
            added: path_seq(self.added@),
            removed: path_seq(self.removed@),
        }
    }
}

impl DiffMetadata {
    /// A manifest from its three lists.
    pub fn new(changed: Vec<String>, added: Vec<String>, removed: Vec<String>) -> (manifest:
        DiffMetadata)
        ensures
            manifest@ == (Manifest {
                changed: path_seq(changed@),
                added: path_seq(added@),
                removed: path_seq(removed@),
            }),
    {
        DiffMetadata { changed, added, removed }
    }

    /// The paths that both archives hold, with different fingerprints.
    pub fn changed(&self) -> (list: &Vec<String>)
        ensures
            path_seq(list@) == self@.changed,
    {
        &self.changed
    }

    /// The paths that only the new archive holds.
    pub fn added(&self) -> (list: &Vec<String>)
        ensures
            path_seq(list@) == self@.added,
    {
        &self.added
    }

    /// The paths that only the old archive holds.
    pub fn removed(&self) -> (list: &Vec<String>)
        ensures
            path_seq(list@) == self@.removed,
    {
        &self.removed
    }
}

/// `p` is in both indexes, with different fingerprints.
pub open spec fn is_changed(
    old_index: Map<Seq<char>, Fingerprint>,
    new_index: Map<Seq<char>, Fingerprint>,
    p: Seq<char>,
) -> bool {
    old_index.contains_key(p) && new_index.contains_key(p) && old_index[p] != new_index[p]
}

/// `p` is in the new index only.
pub open spec fn is_added(
    old_index: Map<Seq<char>, Fingerprint>,
    new_index: Map<Seq<char>, Fingerprint>,
    p: Seq<char>,
) -> bool {
    new_index.contains_key(p) && !old_index.contains_key(p)
}

/// `p` is in the old index only.
pub open spec fn is_removed(
    old_index: Map<Seq<char>, Fingerprint>,
    new_index: Map<Seq<char>, Fingerprint>,
    p: Seq<char>,
) -> bool {
    old_index.contains_key(p) && !new_index.contains_key(p)
}

/// `m` is the manifest of the two indexes: each list holds exactly the paths
/// of its class, in the order of paths. There is one such manifest.
pub open spec fn is_diff_of(
    m: Manifest,
    old_index: Map<Seq<char>, Fingerprint>,
    new_index: Map<Seq<char>, Fingerprint>,
) -> bool {
    &&& strictly_sorted(m.changed)
    &&& strictly_sorted(m.added)
    &&& strictly_sorted(m.removed)
    &&& forall|p: Seq<char>|
        #![trigger m.changed.contains(p)]
        #![trigger is_changed(old_index, new_index, p)]
        m.changed.contains(p) <==> is_changed(old_index, new_index, p)
    &&& forall|p: Seq<char>|
        #![trigger m.added.contains(p)]
        #![trigger is_added(old_index, new_index, p)]
        m.added.contains(p) <==> is_added(old_index, new_index, p)
    &&& forall|p: Seq<char>|
        #![trigger m.removed.contains(p)]
        #![trigger is_removed(old_index, new_index, p)]
        m.removed.contains(p) <==> is_removed(old_index, new_index, p)
}

/// The paths of `list` are among the first `n` of `keys`, which are in
/// strict order: so each comes before the path at `n`.
proof fn lemma_list_before(list: Seq<Seq<char>>, keys: Seq<Seq<char>>, n: int)
    requires
        strictly_sorted(keys),
        0 <= n < keys.len(),
        forall|p: Seq<char>| #[trigger] list.contains(p) ==> keys.take(n).contains(p),
    ensures
        forall|k: int| 0 <= k < list.len() ==> path_lt(#[trigger] list[k], keys[n]),
{
    assert forall|k: int| 0 <= k < list.len() implies path_lt(#[trigger] list[k], keys[n]) by {
        assert(list.contains(list[k]));
        let front = keys.take(n);
        assert(front.contains(list[k]));
        let a = choose|a: int| 0 <= a < front.len() && front[a] == list[k];
        assert(path_lt(keys[a], keys[n]));
    }
}

/// Compares two indexes in one pass over both, in the order of paths. A path
/// of the new index that the old one lacks is added; one that both hold with
/// different fingerprints is changed; a path of the old index that the new
/// one lacks is removed. A path that both hold with the same fingerprint is
/// in no list.
pub fn compute_diff(old_index: &Index, new_index: &Index) -> (manifest: DiffMetadata)
    ensures
        is_diff_of(manifest@, old_index@, new_index@),
{
    let mut changed: Vec<String> = Vec::new();
    let mut added: Vec<String> = Vec::new();
    let mut removed: Vec<String> = Vec::new();
    let ghost old_map = old_index@;
    let ghost new_map = new_index@;
    let ghost old_keys = old_index.keys();
    let ghost new_keys = new_index.keys();
    let old_len = old_index.len();
    let new_len = new_index.len();
    let mut i: usize = 0;
    let mut j: usize = 0;
    proof {
        old_index.lemma_keys_are_domain();
        new_index.lemma_keys_are_domain();
        assert(old_keys.take(0) =~= Seq::<Seq<char>>::empty());
        assert(new_keys.take(0) =~= Seq::<Seq<char>>::empty());
    }
    while i < old_len || j < new_len
        invariant
            i <= old_len,
            j <= new_len,
            old_len == old_keys.len(),
            new_len == new_keys.len(),
            old_keys == old_index.keys(),
            new_keys == new_index.keys(),
            old_map == old_index@,
            new_map == new_index@,
            strictly_sorted(old_keys),
            strictly_sorted(new_keys),
            forall|p: Seq<char>| #[trigger] old_map.contains_key(p) <==> old_keys.contains(p),
            forall|p: Seq<char>| #[trigger] new_map.contains_key(p) <==> new_keys.contains(p),
            i > 0 && j < new_len ==> path_lt(old_keys[i - 1], new_keys[j as int]),
            j > 0 && i < old_len ==> path_lt(new_keys[j - 1], old_keys[i as int]),
            strictly_sorted(path_seq(changed@)),
            strictly_sorted(path_seq(added@)),
            strictly_sorted(path_seq(removed@)),
            forall|p: Seq<char>|
                #![trigger path_seq(changed@).contains(p)]
                path_seq(changed@).contains(p) <==> (old_keys.take(i as int).contains(p)
                    && is_changed(old_map, new_map, p)),
            forall|p: Seq<char>|
                #![trigger path_seq(added@).contains(p)]
                path_seq(added@).contains(p) <==> (new_keys.take(j as int).contains(p) && is_added(
                    old_map,
                    new_map,
                    p,
                )),
            forall|p: Seq<char>|
                #![trigger path_seq(removed@).contains(p)]
                path_seq(removed@).contains(p) <==> (old_keys.take(i as int).contains(p)
                    && is_removed(old_map, new_map, p)),
        decreases (old_len - i) + (new_len - j),
    {
        let ghost before_changed = path_seq(changed@);
        let ghost before_added = path_seq(added@);
        let ghost before_removed = path_seq(removed@);
        let order = if j >= new_len {
            PathOrder::Less
        } else if i >= old_len {
            PathOrder::Greater
        } else {
            path_order(old_index.path_at(i).as_str(), new_index.path_at(j).as_str())
        };
        let ghost step_old = order != PathOrder::Greater;
        let ghost step_new = order != PathOrder::Less;
        match order {
            PathOrder::Less => {
                let path = old_index.path_at(i);
                proof {
                    lemma_not_in_sorted(new_keys, j as int, path@);
                    assert(is_removed(old_map, new_map, path@));
                    lemma_list_before(before_removed, old_keys, i as int);
                }
                push_sorted(&mut removed, path.clone());
                i += 1;
            },
            PathOrder::Greater => {
                let path = new_index.path_at(j);
                proof {
                    lemma_not_in_sorted(old_keys, i as int, path@);
                    assert(is_added(old_map, new_map, path@));
                    lemma_list_before(before_added, new_keys, j as int);
                }
                push_sorted(&mut added, path.clone());
                j += 1;
            },
            PathOrder::Equal => {
                let path = old_index.path_at(i);
                if entry_has_changed(new_index.value_at(j), old_index.value_at(i)) {
                    proof {
                        assert(is_changed(old_map, new_map, path@));
                        lemma_list_before(before_changed, old_keys, i as int);
                    }
                    push_sorted(&mut changed, path.clone());
                }
                i += 1;
                j += 1;
            },
        }
        proof {
            let now_changed = path_seq(changed@);
            let now_added = path_seq(added@);
            let now_removed = path_seq(removed@);
            let at_old = i - if step_old { 1int } else { 0int };
            let at_new = j - if step_new { 1int } else { 0int };
            if step_old {
                assert(old_keys.contains(old_keys[at_old]));
            }
            if step_new {
                assert(new_keys.contains(new_keys[at_new]));
            }
            assert forall|p: Seq<char>|
                now_changed.contains(p) <==> (old_keys.take(i as int).contains(p) && is_changed(
                    old_map,
                    new_map,
                    p,
                )) by {
                assert(before_changed.contains(p) <==> (old_keys.take(at_old).contains(p)
                    && is_changed(old_map, new_map, p)));
                if step_old {
                    lemma_take_next_contains(old_keys, at_old, p);
                }
            }
            assert forall|p: Seq<char>|
                now_added.contains(p) <==> (new_keys.take(j as int).contains(p) && is_added(
                    old_map,
                    new_map,
                    p,
                )) by {
                assert(before_added.contains(p) <==> (new_keys.take(at_new).contains(p)
                    && is_added(old_map, new_map, p)));
                if step_new {
                    lemma_take_next_contains(new_keys, at_new, p);
                }
            }
            assert forall|p: Seq<char>|
                now_removed.contains(p) <==> (old_keys.take(i as int).contains(p) && is_removed(
                    old_map,
                    new_map,
                    p,
                )) by {
                assert(before_removed.contains(p) <==> (old_keys.take(at_old).contains(p)
                    && is_removed(old_map, new_map, p)));
                if step_old {
                    lemma_take_next_contains(old_keys, at_old, p);
                }
            }
            if i > 0 && j < new_len {
                if step_new {
                    assert(path_lt(new_keys[at_new], new_keys[j as int]));
                    if step_old {
                        assert(old_keys[at_old] == new_keys[at_new]);
                    } else if i > 0 {
                        lemma_path_lt_transitive(
                            old_keys[i - 1],
                            new_keys[at_new],
                            new_keys[j as int],
                        );
                    }
                }
            }
            if j > 0 && i < old_len {
                if step_old {
                    assert(path_lt(old_keys[at_old], old_keys[i as int]));
                    if step_new {
                        assert(old_keys[at_old] == new_keys[at_new]);
                    } else if j > 0 {
                        lemma_path_lt_transitive(
                            new_keys[j - 1],
                            old_keys[at_old],
                            old_keys[i as int],
                        );
                    }
                }
            }
        }
    }
    proof {
        assert(old_keys.take(i as int) =~= old_keys);
        assert(new_keys.take(j as int) =~= new_keys);
    }
    DiffMetadata::new(changed, added, removed)
}

} // verus!
