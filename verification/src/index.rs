//! The staging index: for each staged path, the address of its content and
//! the file's size and time.

use crate::bytes::{
    bytes_eq, distinct_keys, lemma_position_of, lemma_position_of_push, lemma_position_of_remove,
    lemma_position_of_unique, position_of,
};
use vstd::prelude::*;
use vstd::string::*;
use vstd::utf8::*;

verus! {

/// Represents a single entry in the index
#[derive(Debug, Clone, PartialEq)]
pub struct IndexEntry {
    /// File path (relative to repository root)
    pub path: String,
    /// Address of the blob
    pub hash: String,
    /// File size in bytes
    pub size: u64,
    /// Modification time (Unix timestamp)
    pub mtime: u64,
}

/// What an `IndexEntry` stands for.
pub struct IndexEntryView {
    pub path: Seq<u8>,
    pub hash: Seq<u8>,
    pub size: nat,
    pub mtime: nat,
}

impl View for IndexEntry {
    type V = IndexEntryView;

    open spec fn view(&self) -> IndexEntryView {
        IndexEntryView {
            path: encode_utf8(self.path@),
            hash: encode_utf8(self.hash@),
            size: self.size as nat,
            mtime: self.mtime as nat,
        }
    }
}

/// Represents the index (staging area): at most one entry for each path.
#[derive(Debug, Clone)]
pub struct Index {
    /// The staged entries, in the order in which their paths were first added
    pub entries: Vec<IndexEntry>,
}

impl View for Index {
    type V = Map<Seq<u8>, IndexEntryView>;

    /// From each staged path to its entry.
    open spec fn view(&self) -> Map<Seq<u8>, IndexEntryView> {
        Map::new(
            |path: Seq<u8>| position_of(self.paths(), path) < self.entries@.len(),
            |path: Seq<u8>| self.entries@[position_of(self.paths(), path)]@,
        )
    }
}

impl Index {
    /// The staged paths, in order.
    pub open spec fn paths(&self) -> Seq<Seq<u8>> {
        Seq::new(self.entries@.len(), |i: int| self.entries@[i]@.path)
    }

    /// Whether no path is staged twice.
    pub open spec fn wf(&self) -> bool {
        distinct_keys(self.paths())
    }

    /// Create a new empty index
    pub fn new() -> (index: Self)
        ensures
            index.wf(),
            index@ == Map::<Seq<u8>, IndexEntryView>::empty(),
            index.entries@.len() == 0,
    {
        let index = Index { entries: Vec::new() };
        assert(index@ =~= Map::<Seq<u8>, IndexEntryView>::empty());
        index
    }

    /// Where the entry for `path` stands, or the number of entries if there is none.
    pub fn position(&self, path: &str) -> (at: usize)
        ensures
            at == position_of(self.paths(), path.spec_bytes()),
            at <= self.entries@.len(),
    {
        let wanted = path.as_bytes();
        let mut at: usize = 0;
        while at < self.entries.len()
            invariant
                at <= self.entries@.len(),
                wanted@ == path.spec_bytes(),
                forall|i: int| 0 <= i < at ==> self.paths()[i] != wanted@,
            decreases self.entries@.len() - at,
        {
            if bytes_eq(self.entries[at].path.as_str().as_bytes(), wanted) {
                proof {
                    lemma_position_of_unique(self.paths(), wanted@, at as int);
                }
                return at;
            }
            at += 1;
        }
        proof {
            lemma_position_of_unique(self.paths(), wanted@, at as int);
        }
        at
    }

    /// Add or update an entry in the index: an entry for a path that is
    /// staged already takes the place of the earlier one, an entry for a new
    /// path comes last.
    pub fn add_entry(&mut self, entry: IndexEntry)
        requires
            old(self).wf(),
        ensures
            final(self).wf(),
            final(self)@ == old(self)@.insert(entry@.path, entry@),
            final(self).entries@ == if old(self)@.contains_key(entry@.path) {
                old(self).entries@.update(position_of(old(self).paths(), entry@.path), entry)
            } else {
                old(self).entries@.push(entry)
            },
    {
        let at = self.position(entry.path.as_str());
        let ghost before = *self;
        let ghost key = entry@.path;
        if at < self.entries.len() {
            self.entries[at] = entry;
            proof {
                let after = *self;
                lemma_position_of(before.paths(), key);
                assert(after.entries@ =~= before.entries@.update(at as int, entry));
                assert(after.paths() =~= before.paths());
                assert forall|a: Seq<u8>| #[trigger]
                    after@.dom().contains(a) == before@.insert(key, entry@).dom().contains(a) by {
                    lemma_position_of(before.paths(), a);
                }
                assert forall|a: Seq<u8>| after@.dom().contains(a) implies #[trigger] after@[a]
                    == before@.insert(key, entry@)[a] by {
                    lemma_position_of(before.paths(), a);
                    let p = position_of(before.paths(), a);
                    if p != at {
                        assert(after.entries@[p] == before.entries@[p]);
                    }
                }
                assert(after@ =~= before@.insert(key, entry@));
            }
        } else {
            self.entries.push(entry);
            proof {
                let after = *self;
                assert(after.paths() =~= before.paths().push(key));
                lemma_position_of(before.paths(), key);
                assert forall|i: int, j: int| 0 <= i < j < after.paths().len() implies #[trigger]
                    after.paths()[i] != #[trigger] after.paths()[j] by {
                    if j < before.paths().len() {
                        assert(before.paths()[i] != before.paths()[j]);
                    } else {
                        assert(before.paths()[i] != key);
                    }
                }
                assert forall|a: Seq<u8>| #[trigger]
                    after@.dom().contains(a) == before@.insert(key, entry@).dom().contains(a) by {
                    lemma_position_of_push(before.paths(), key, a);
                }
                assert forall|a: Seq<u8>| after@.dom().contains(a) implies #[trigger] after@[a]
                    == before@.insert(key, entry@)[a] by {
                    lemma_position_of_push(before.paths(), key, a);
                    let p = position_of(before.paths(), a);
                    if p < before.entries@.len() {
                        assert(after.entries@[p] == before.entries@[p]);
                    } else {
                        assert(after.entries@[before.entries@.len() as int] == entry);
                    }
                }
                assert(after@ =~= before@.insert(key, entry@));
            }
        }
    }

    /// Remove an entry from the index; the other entries keep their order
    pub fn remove_entry(&mut self, path: &str)
        requires
            old(self).wf(),
        ensures
            final(self).wf(),
            final(self)@ == old(self)@.remove(path.spec_bytes()),
            final(self).entries@ == if old(self)@.contains_key(path.spec_bytes()) {
                old(self).entries@.remove(position_of(old(self).paths(), path.spec_bytes()))
            } else {
                old(self).entries@
            },
    {
        let at = self.position(path);
        let ghost before = *self;
        let ghost key = path.spec_bytes();
        if at < self.entries.len() {
            let _ = self.entries.remove(at);
            proof {
                let after = *self;
                lemma_position_of(before.paths(), key);
                assert(after.paths() =~= before.paths().remove(at as int));
                assert forall|a: Seq<u8>| #[trigger]
                    after@.dom().contains(a) == before@.remove(key).dom().contains(a) by {
                    lemma_position_of_remove(before.paths(), at as int, a);
                    lemma_position_of(before.paths(), a);
                }
                assert forall|a: Seq<u8>| after@.dom().contains(a) implies #[trigger] after@[a]
                    == before@.remove(key)[a] by {
                    lemma_position_of_remove(before.paths(), at as int, a);
                    lemma_position_of(before.paths(), a);
                    let p = position_of(before.paths(), a);
                    if p < at {
                        assert(after.entries@[p] == before.entries@[p]);
                    } else {
                        assert(after.entries@[p - 1] == before.entries@[p]);
                    }
                }
                lemma_position_of_remove(before.paths(), at as int, key);
                assert(after@ =~= before@.remove(key));
            }
        } else {
            assert(self@ =~= before@.remove(key));
        }
    }

    /// Get an entry by path
    pub fn get_entry(&self, path: &str) -> (entry: Option<&IndexEntry>)
        ensures
            match entry {
                Some(e) => self@.contains_key(path.spec_bytes()) && e@ == self@[path.spec_bytes()],
                None => !self@.contains_key(path.spec_bytes()),
            },
    {
        let at = self.position(path);
        if at < self.entries.len() {
            Some(&self.entries[at])
        } else {
            None
        }
    }

    /// Check if a path is in the index
    pub fn contains(&self, path: &str) -> (present: bool)
        ensures
            present == self@.contains_key(path.spec_bytes()),
    {
        self.position(path) < self.entries.len()
    }

    /// Get all entries
    pub fn entries(&self) -> (all: &Vec<IndexEntry>)
        ensures
            all == &self.entries,
    {
        &self.entries
    }
}

impl Default for Index {
    fn default() -> (index: Self)
        ensures
            index.wf(),
            index@ == Map::<Seq<u8>, IndexEntryView>::empty(),
            index.entries@.len() == 0,
    {
        Index::new()
    }
}

} // verus!
