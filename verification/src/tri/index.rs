//! The staging area of the private backend: the files that were added and
//! wait for a commit. It is kept apart from the objects and is emptied only
//! where the caller asks for it; a commit leaves it as it is.

use crate::bytes::first_index;
use crate::bytes::lemma_first_index;
use vstd::prelude::*;
use vstd::string::*;

verus! {

/// One staged file: its path in the working directory, the id of the blob
/// that holds its content, and its time of change and size when it was added.
#[derive(Debug, Clone)]
pub struct IndexEntry {
    pub path: String,
    pub object_id: String,
    pub modified_time: u64,
    pub file_size: u64,
}

/// A staged file as a mathematical value.
pub struct IndexEntryView {
    pub path: Seq<char>,
    pub object_id: Seq<char>,
    pub modified_time: u64,
    pub file_size: u64,
}

impl View for IndexEntry {
    type V = IndexEntryView;

    open spec fn view(&self) -> IndexEntryView {
        IndexEntryView {
            path: self.path@,
            object_id: self.object_id@,
            modified_time: self.modified_time,
            file_size: self.file_size,
        }
    }
}

/// The staged files, each path at most once, in the order in which they were first added.
#[derive(Debug)]
pub struct Index {
    entries: Vec<IndexEntry>,
}

impl Index {
    /// The staged files, in the order in which they were first added.
    pub closed spec fn staged(self) -> Seq<IndexEntryView> {
        self.entries@.map_values(|e: IndexEntry| e@)
    }

    /// The paths of the staged files, in the same order.
    pub open spec fn paths(self) -> Seq<Seq<char>> {
        self.staged().map_values(|e: IndexEntryView| e.path)
    }

    /// No path is staged twice.
    pub open spec fn wf(self) -> bool {
        self.paths().no_duplicates()
    }

    /// The staging area as a map from path to staged file.
    pub open spec fn view(self) -> Map<Seq<char>, IndexEntryView> {
        Map::new(
            |p: Seq<char>| self.paths().contains(p),
            |p: Seq<char>| self.staged()[first_index(self.paths(), p)],
        )
    }

    /// A staging area without files.
    pub fn new() -> (index: Index)
        ensures
            index.wf(),
            index.staged() == Seq::<IndexEntryView>::empty(),
            index@ == Map::<Seq<char>, IndexEntryView>::empty(),
    {
        let index = Index { entries: Vec::new() };
        assert(index.staged() =~= Seq::<IndexEntryView>::empty());
        assert(index.paths() =~= Seq::<Seq<char>>::empty());
        assert(index@ =~= Map::<Seq<char>, IndexEntryView>::empty());
        index
    }

    /// The number of staged files.
    pub fn len(&self) -> (n: usize)
        ensures
            n == self.staged().len(),
    {
        self.entries.len()
    }

    /// Whether nothing is staged.
    pub fn is_empty(&self) -> (empty: bool)
        ensures
            empty == (self.staged().len() == 0),
    {
        self.entries.len() == 0
    }

    /// The staged file at position `i`.
    pub fn entry_at(&self, i: usize) -> (entry: &IndexEntry)
        requires
            i < self.staged().len(),
        ensures
            entry@ == self.staged()[i as int],
    {
        &self.entries[i]
    }

    /// The position of `path` among the paths, or their number where it is absent.
    fn find(&self, path: &str) -> (pos: usize)
        ensures
            pos == first_index(self.paths(), path@),
            pos <= self.staged().len(),
    {
        let mut i: usize = 0;
        while i < self.entries.len() && !crate::text::str_eq(self.entries[i].path.as_str(), path)
            invariant
                i <= self.entries@.len(),
                forall|j: int| 0 <= j < i ==> self.paths()[j] != path@,
            decreases self.entries@.len() - i,
        {
            i += 1;
        }
        proof {
            lemma_first_index(self.paths(), path@);
            let k = first_index(self.paths(), path@);
            if k < i {
                assert(self.paths()[k] != path@);
            }
            if i < k {
                assert(self.paths()[i as int] == path@);
            }
        }
        i
    }

    /// Stages the file at `path`, in place of what was staged at that path.
    pub fn add(&mut self, path: String, object_id: String, modified_time: u64, file_size: u64)
        requires
            old(self).wf(),
        ensures
            final(self).wf(),
            final(self)@ == old(self)@.insert(
                path@,
                IndexEntryView { path: path@, object_id: object_id@, modified_time, file_size },
            ),
            old(self)@.dom().contains(path@) ==> final(self).paths() == old(self).paths(),
            !old(self)@.dom().contains(path@) ==> final(self).paths() == old(self).paths().push(
                path@,
            ),
    {
        proof {
            lemma_first_index(self.paths(), path@);
        }
        let pos = self.find(path.as_str());
        let ghost before = *self;
        let ghost key = path@;
        let entry = IndexEntry { path, object_id, modified_time, file_size };
        let ghost value = entry@;
        if pos < self.entries.len() {
            self.entries.set(pos, entry);
            proof {
                assert(self.staged() =~= before.staged().update(pos as int, value));
                assert(self.paths() =~= before.paths());
                assert forall|p: Seq<char>| before@.insert(key, value).dom().contains(p)
                    implies #[trigger] self@[p] == before@.insert(key, value)[p] by {
                    lemma_first_index(self.paths(), p);
                }
                assert(self@ =~= before@.insert(key, value));
            }
        } else {
            self.entries.push(entry);
            proof {
                assert(self.staged() =~= before.staged().push(value));
                assert(self.paths() =~= before.paths().push(key));
                assert forall|p: Seq<char>| self.paths().contains(p) <==> (before.paths().contains(
                    p,
                ) || p == key) by {
                    if before.paths().contains(p) {
                        let i = choose|i: int| 0 <= i < before.paths().len() && before.paths()[i]
                            == p;
                        assert(self.paths()[i] == p);
                    }
                    if p == key {
                        assert(self.paths()[before.paths().len() as int] == p);
                    }
                }
                assert forall|p: Seq<char>| before@.insert(key, value).dom().contains(p)
                    implies #[trigger] self@[p] == before@.insert(key, value)[p] by {
                    lemma_first_index(self.paths(), p);
                    lemma_first_index(before.paths(), p);
                    let k = first_index(self.paths(), p);
                    if p != key {
                        let kb = first_index(before.paths(), p);
                        assert(self.paths()[kb] == p);
                        if k < kb {
                            assert(before.paths()[k] != p);
                        }
                    }
                }
                assert(self@ =~= before@.insert(key, value));
            }
        }
    }

    /// Takes the file at `path` out of the staging area and returns what was staged.
    pub fn remove(&mut self, path: &str) -> (removed: Option<IndexEntry>)
        requires
            old(self).wf(),
        ensures
            final(self).wf(),
            final(self)@ == old(self)@.remove(path@),
            removed is Some <==> old(self)@.dom().contains(path@),
            removed matches Some(entry) ==> entry@ == old(self)@[path@],
    {
        proof {
            lemma_first_index(self.paths(), path@);
        }
        let pos = self.find(path);
        let ghost before = *self;
        if pos < self.entries.len() {
            let entry = self.entries.remove(pos);
            proof {
                assert(self.staged() =~= before.staged().remove(pos as int));
                assert(self.paths() =~= before.paths().remove(pos as int));
                assert forall|p: Seq<char>| self.paths().contains(p) <==> (before.paths().contains(
                    p,
                ) && p != path@) by {
                    if before.paths().contains(p) && p != path@ {
                        let i = choose|i: int| 0 <= i < before.paths().len() && before.paths()[i]
                            == p;
                        if i < pos {
                            assert(self.paths()[i] == p);
                        } else {
                            assert(self.paths()[i - 1] == p);
                        }
                    }
                    if self.paths().contains(p) {
                        let i = choose|i: int| 0 <= i < self.paths().len() && self.paths()[i]
                            == p;
                        if i < pos {
                            assert(before.paths()[i] == p);
                        } else {
                            assert(before.paths()[i + 1] == p);
                        }
                    }
                }
                assert forall|p: Seq<char>| before@.remove(path@).dom().contains(p)
                    implies #[trigger] self@[p] == before@.remove(path@)[p] by {
                    lemma_first_index(self.paths(), p);
                    lemma_first_index(before.paths(), p);
                    let k = first_index(self.paths(), p);
                    let kb = first_index(before.paths(), p);
                    if kb < pos {
                        assert(self.paths()[kb] == p);
                        if k < kb {
                            assert(before.paths()[k] != p);
                        }
                    } else {
                        assert(self.paths()[kb - 1] == p);
                        if k < kb - 1 {
                            if k < pos {
                                assert(before.paths()[k] != p);
                            } else {
                                assert(before.paths()[k + 1] != p);
                            }
                        }
                    }
                }
                assert(self@ =~= before@.remove(path@));
            }
            Some(entry)
        } else {
            proof {
                assert(self@ =~= before@.remove(path@));
            }
            None
        }
    }

    /// What is staged at `path`.
    pub fn get(&self, path: &str) -> (entry: Option<&IndexEntry>)
        ensures
            entry is Some <==> self@.dom().contains(path@),
            entry matches Some(e) ==> e@ == self@[path@],
    {
        let pos = self.find(path);
        proof {
            lemma_first_index(self.paths(), path@);
        }
        if pos < self.entries.len() {
            Some(&self.entries[pos])
        } else {
            None
        }
    }

    /// Empties the staging area.
    pub fn clear(&mut self)
        ensures
            final(self).wf(),
            final(self).staged() == Seq::<IndexEntryView>::empty(),
            final(self)@ == Map::<Seq<char>, IndexEntryView>::empty(),
    {
        self.entries.clear();
        assert(self.staged() =~= Seq::<IndexEntryView>::empty());
        assert(self.paths() =~= Seq::<Seq<char>>::empty());
        assert(self@ =~= Map::<Seq<char>, IndexEntryView>::empty());
    }
}

impl Default for Index {
    /// A staging area without files.
    fn default() -> (index: Index)
        ensures
            index.wf(),
            index.staged() == Seq::<IndexEntryView>::empty(),
    {
        Index::new()
    }
}

} // verus!
