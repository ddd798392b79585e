//! The content index of an archive: for each path, the fingerprint of the
//! last entry that the archive holds under it.

use vstd::prelude::*;
use crate::entry::{cksum_readable, entry_views, fingerprint_of, Entry, EntryView};
use crate::error::DeltaError;
use crate::fingerprint::{Fingerprint, IndexValue};
use crate::paths::{
    lemma_not_in_sorted, lemma_path_lt_transitive, lemma_sorted_no_duplicates, path_lt,
    path_order, strictly_sorted, PathOrder,
};

verus! {

/// A mapping from paths to fingerprints, kept in the order of paths.
#[derive(Debug)]
pub struct Index {
    entries: Vec<(String, IndexValue)>,
}

impl View for Index {
    type V = Map<Seq<char>, Fingerprint>;

    closed spec fn view(&self) -> Map<Seq<char>, Fingerprint> {
        Map::new(
            |p: Seq<char>| self.keys().contains(p),
            |p: Seq<char>| self.entries@[self.keys().index_of(p)].1@,
        )
    }
}

/// The paths of a list of index entries, in its order.
spec fn keys_of(entries: Seq<(String, IndexValue)>) -> Seq<Seq<char>> {
    Seq::new(entries.len(), |i: int| entries[i].0@)
}

impl Index {
    #[verifier::type_invariant]
    spec fn keys_sorted(self) -> bool {
        strictly_sorted(keys_of(self.entries@))
    }

    /// The paths that the index holds, in the order of paths.
    pub closed spec fn keys(self) -> Seq<Seq<char>> {
        keys_of(self.entries@)
    }

    /// The paths of `keys` are the paths that the index maps.
    pub proof fn lemma_keys_are_domain(self)
        ensures
            forall|p: Seq<char>|
                #![trigger self@.contains_key(p)]
                #![trigger self.keys().contains(p)]
                self@.contains_key(p) <==> self.keys().contains(p),
    {
    }

    proof fn lemma_value_at(self, i: int)
        requires
            self.keys_sorted(),
            0 <= i < self.entries@.len(),
        ensures
            self@.contains_key(self.entries@[i].0@),
            self@[self.entries@[i].0@] == self.entries@[i].1@,
    {
        let p = self.entries@[i].0@;
        assert(self.keys()[i] == p);
        let k = self.keys().index_of(p);
        assert(self.keys()[k] == p);
        lemma_sorted_no_duplicates(self.keys());
    }

    /// An index that holds nothing.
    pub fn new() -> (index: Index)
        ensures
            index@ == Map::<Seq<char>, Fingerprint>::empty(),
            index.keys().len() == 0,
    {
        let index = Index { entries: Vec::new() };
        proof {
            assert(index@ =~= Map::<Seq<char>, Fingerprint>::empty());
        }
        index
    }

    /// How many paths the index holds. They are in strict order.
    pub fn len(&self) -> (n: usize)
        ensures
            n == self.keys().len(),
            strictly_sorted(self.keys()),
    {
        proof {
            use_type_invariant(self);
        }
        self.entries.len()
    }

    /// The path at position `i`.
    pub fn path_at(&self, i: usize) -> (path: &String)
        requires
            i < self.keys().len(),
        ensures
            path@ == self.keys()[i as int],
            self@.contains_key(path@),
    {
        proof {
            use_type_invariant(self);
            self.lemma_value_at(i as int);
        }
        &self.entries[i].0
    }

    /// The fingerprint of the path at position `i`.
    pub fn value_at(&self, i: usize) -> (value: &IndexValue)
        requires
            i < self.keys().len(),
        ensures
            value@ == self@[self.keys()[i as int]],
    {
        proof {
            use_type_invariant(self);
            self.lemma_value_at(i as int);
        }
        &self.entries[i].1
    }

    /// Searches for `path` by halving. Where the index holds it, its
    /// position comes back; where not, the position at which it would stand.
    fn position(&self, path: &String) -> (at: (bool, usize))
        ensures
            at.1 <= self.keys().len(),
            at.0 ==> at.1 < self.keys().len() && self.keys()[at.1 as int] == path@,
            !at.0 ==> !self.keys().contains(path@),
            !at.0 ==> forall|k: int| 0 <= k < at.1 ==> path_lt(#[trigger] self.keys()[k], path@),
            !at.0 ==> forall|k: int|
                at.1 <= k < self.keys().len() ==> path_lt(path@, #[trigger] self.keys()[k]),
    {
        proof {
            use_type_invariant(self);
        }
        let ghost keys = self.keys();
        let mut low: usize = 0;
        let mut high: usize = self.entries.len();
        while low < high
            invariant
                low <= high <= keys.len(),
                keys == self.keys(),
                keys.len() == self.entries@.len(),
                strictly_sorted(keys),
                low > 0 ==> path_lt(keys[low - 1], path@),
                high < keys.len() ==> path_lt(path@, keys[high as int]),
            decreases high - low,
        {
            let middle = low + (high - low) / 2;
            proof {
                assert(keys[middle as int] == self.entries@[middle as int].0@);
            }
            match path_order(self.entries[middle].0.as_str(), path.as_str()) {
                PathOrder::Less => {
                    low = middle + 1;
                },
                PathOrder::Equal => {
                    return (true, middle);
                },
                PathOrder::Greater => {
                    high = middle;
                },
            }
        }
        proof {
            lemma_not_in_sorted(keys, low as int, path@);
        }
        (false, low)
    }

    /// The fingerprint that the index holds for `path`, if it holds one.
    pub fn get(&self, path: &String) -> (value: Option<&IndexValue>)
        ensures
            match value {
                Some(v) => self@.contains_key(path@) && v@ == self@[path@],
                None => !self@.contains_key(path@),
            },
    {
        let (found, i) = self.position(path);
        if found {
            proof {
                use_type_invariant(self);
                self.lemma_value_at(i as int);
            }
            Some(&self.entries[i].1)
        } else {
            None
        }
    }

    /// Whether the index holds `path`.
    pub fn contains_key(&self, path: &String) -> (found: bool)
        ensures
            found == self@.contains_key(path@),
    {
        let (found, i) = self.position(path);
        proof {
            if found {
                assert(self.keys().contains(path@));
            }
        }
        found
    }

    /// Maps `path` to `value`. What the index held for `path` before is
    /// overwritten.
    pub fn insert(&mut self, path: String, value: IndexValue)
        ensures
            final(self)@ == old(self)@.insert(path@, value@),
    {
        proof {
            use_type_invariant(&*self);
        }
        let ghost before = *self;
        let ghost p = path@;
        let ghost v = value@;
        let (found, i) = self.position(&path);
        let ghost at = i as int;
        // The entries leave the index while they are changed, and come back
        // in order.
        let mut entries: Vec<(String, IndexValue)> = Vec::new();
        core::mem::swap(&mut self.entries, &mut entries);
        if found {
            entries[i] = (path, value);
            proof {
                assert(keys_of(entries@) =~= before.keys());
            }
        } else {
            entries.insert(i, (path, value));
            proof {
                let keys = keys_of(entries@);
                assert(keys =~= before.keys().insert(at, p));
                assert forall|a: int, b: int| 0 <= a < b < keys.len() implies path_lt(
                    #[trigger] keys[a],
                    #[trigger] keys[b],
                ) by {
                    if b < at {
                        assert(path_lt(before.keys()[a], before.keys()[b]));
                    } else if b == at {
                        assert(path_lt(before.keys()[a], p));
                    } else if a < at {
                        assert(path_lt(before.keys()[a], before.keys()[b - 1]));
                    } else if a == at {
                        assert(path_lt(p, before.keys()[b - 1]));
                    } else {
                        assert(path_lt(before.keys()[a - 1], before.keys()[b - 1]));
                    }
                }
            }
        }
        core::mem::swap(&mut self.entries, &mut entries);
        proof {
            let after = *self;
            assert forall|q: Seq<char>|
                after@.contains_key(q) <==> before@.insert(p, v).contains_key(q) by {
                if after.keys().contains(q) {
                    let k = choose|k: int| 0 <= k < after.keys().len() && after.keys()[k] == q;
                    if !found {
                        if k < at {
                            assert(before.keys()[k] == q);
                        } else if k > at {
                            assert(before.keys()[k - 1] == q);
                        }
                    } else {
                        assert(before.keys()[k] == q);
                    }
                }
                if before.keys().contains(q) {
                    let k = choose|k: int| 0 <= k < before.keys().len() && before.keys()[k] == q;
                    if !found && k >= at {
                        assert(after.keys()[k + 1] == q);
                    } else {
                        assert(after.keys()[k] == q);
                    }
                }
                if q == p {
                    assert(after.keys()[at] == q);
                }
            }
            assert forall|q: Seq<char>| after@.contains_key(q) implies #[trigger] after@[q]
                == before@.insert(p, v)[q] by {
                let k = after.keys().index_of(q);
                assert(after.keys()[k] == q);
                after.lemma_value_at(k);
                if k != at {
                    lemma_sorted_no_duplicates(after.keys());
                    assert(after.keys()[at] == p);
                    assert(q != p);
                    if found || k < at {
                        before.lemma_value_at(k);
                    } else {
                        before.lemma_value_at(k - 1);
                    }
                }
            }
            assert(after@ =~= before@.insert(p, v));
        }
    }
}

/// What an archive's index holds: each entry in turn is put in under its
/// path, so that of two entries with one path the later one stays.
pub open spec fn index_of_entries(archive: Seq<EntryView>) -> Map<Seq<char>, Fingerprint>
    decreases archive.len(),
{
    if archive.len() == 0 {
        Map::empty()
    } else {
        index_of_entries(archive.drop_last()).insert(
            archive.last().path,
            fingerprint_of(archive.last()),
        )
    }
}

/// Whether every header in the archive declares a checksum that can be read.
pub open spec fn headers_readable(archive: Seq<EntryView>) -> bool {
    forall|i: int| 0 <= i < archive.len() ==> cksum_readable(#[trigger] archive[i])
}

/// Builds the index of an archive in one pass over its entries. Fails with
/// `CorruptHeader` if and only if some header declares no readable checksum.
pub fn create_index(archive: &Vec<Entry>) -> (result: Result<Index, DeltaError>)
    ensures
        match result {
            Ok(index) => headers_readable(entry_views(archive@)) && index@ == index_of_entries(
                entry_views(archive@),
            ),
            Err(e) => e == DeltaError::CorruptHeader && !headers_readable(entry_views(archive@)),
        },
{
    let ghost views = entry_views(archive@);
    let mut index = Index::new();
    let mut i: usize = 0;
    proof {
        assert(views.take(0) =~= Seq::<EntryView>::empty());
    }
    while i < archive.len()
        invariant
            i <= archive.len(),
            views == entry_views(archive@),
            headers_readable(views.take(i as int)),
            index@ == index_of_entries(views.take(i as int)),
        decreases archive.len() - i,
    {
        let entry = &archive[i];
        match entry.fingerprint() {
            Ok(value) => {
                index.insert(entry.path.clone(), value);
                proof {
                    let next = views.take(i + 1);
                    assert(next.drop_last() =~= views.take(i as int));
                    assert(next.last() == views[i as int]);
                    assert(views[i as int] == entry@);
                    assert forall|k: int| 0 <= k < next.len() implies cksum_readable(
                        #[trigger] next[k],
                    ) by {
                        if k < i {
                            assert(views.take(i as int)[k] == next[k]);
                        }
                    }
                }
            },
            Err(_) => {
                proof {
                    assert(views[i as int] == entry@);
                }
                return Err(DeltaError::CorruptHeader);
            },
        }
        i += 1;
    }
    proof {
        assert(views.take(i as int) =~= views);
    }
    Ok(index)
}

} // verus!
