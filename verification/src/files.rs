//! A directory held in memory.
//!
//! The object store and the reference store keep their state in files below
//! one directory. The library works on the contents of that directory as a
//! value: each file's path, relative to the directory and written with `/`,
//! and its bytes. Reading the directory from disk and writing it back is left
//! to the caller.

use crate::bytes::first_index;
use crate::bytes::lemma_first_index;
use vstd::prelude::*;
use vstd::string::*;

verus! {

/// One file: its path below the directory, and what it holds.
pub struct FileEntry {
    pub path: String,
    pub data: Vec<u8>,
}

/// The files of a directory, each path at most once, in the order in which
/// they were first written.
pub struct FileTree {
    entries: Vec<FileEntry>,
}

impl FileTree {
    /// No path occurs twice.
    pub open spec fn wf(self) -> bool {
        self.paths().no_duplicates()
    }

    /// The paths of the files, in the order in which they were first written.
    pub closed spec fn paths(self) -> Seq<Seq<char>> {
        Seq::new(self.entries@.len(), |i: int| self.entries@[i].path@)
    }

    /// What the files hold, in the order of `paths`.
    pub closed spec fn contents(self) -> Seq<Seq<u8>> {
        Seq::new(self.entries@.len(), |i: int| self.entries@[i].data@)
    }

    /// The directory as a map from path to contents.
    pub open spec fn view(self) -> Map<Seq<char>, Seq<u8>> {
        Map::new(
            |p: Seq<char>| self.paths().contains(p),
            |p: Seq<char>| self.contents()[first_index(self.paths(), p)],
        )
    }

    /// A directory without files.
    pub fn new() -> (tree: FileTree)
        ensures
            tree.wf(),
            tree@ == Map::<Seq<char>, Seq<u8>>::empty(),
            tree.paths() == Seq::<Seq<char>>::empty(),
    {
        let tree = FileTree { entries: Vec::new() };
        assert(tree.paths() =~= Seq::<Seq<char>>::empty());
        assert(tree@ =~= Map::<Seq<char>, Seq<u8>>::empty());
        tree
    }

    /// The number of files.
    pub fn len(&self) -> (n: usize)
        ensures
            n == self.paths().len(),
            n == self.contents().len(),
            self@.dom() == self.paths().to_set(),
    {
        proof {
            assert(self@.dom() =~= self.paths().to_set());
        }
        self.entries.len()
    }

    /// The path of the file at position `i`.
    pub fn path_at(&self, i: usize) -> (path: &String)
        requires
            i < self.paths().len(),
        ensures
            path@ == self.paths()[i as int],
    {
        &self.entries[i].path
    }

    /// What the file at position `i` holds.
    pub fn data_at(&self, i: usize) -> (data: &Vec<u8>)
        requires
            self.wf(),
            i < self.paths().len(),
        ensures
            data@ == self.contents()[i as int],
            self@.dom().contains(self.paths()[i as int]),
            data@ == self@[self.paths()[i as int]],
    {
        proof {
            let p = self.paths()[i as int];
            lemma_first_index(self.paths(), p);
        }
        &self.entries[i].data
    }

    /// The position of `path` among the paths, or their number where it is absent.
    fn find(&self, path: &str) -> (pos: usize)
        ensures
            pos == first_index(self.paths(), path@),
            pos <= self.paths().len(),
    {
        let mut i: usize = 0;
        while i < self.entries.len() && !crate::text::str_eq(self.entries[i].path.as_str(), path)
            invariant
                i <= self.entries@.len(),
                forall|j: int| 0 <= j < i ==> self.paths()[j] != path@,
            decreases self.entries@.len() - i,
        {
            i += 1;
        }
        proof {
            lemma_first_index(self.paths(), path@);
            let k = first_index(self.paths(), path@);
            if k < i {
                assert(self.paths()[k] != path@);
            }
            if i < k {
                assert(self.paths()[i as int] == path@);
            }
        }
        i
    }

    /// Whether there is a file at `path`.
    pub fn has_file(&self, path: &str) -> (found: bool)
        ensures
            found == self@.dom().contains(path@),
    {
        let pos = self.find(path);
        proof {
            lemma_first_index(self.paths(), path@);
        }
        pos < self.entries.len()
    }

    /// What the file at `path` holds, if there is one.
    pub fn read(&self, path: &str) -> (data: Option<&Vec<u8>>)
        ensures
            data is Some <==> self@.dom().contains(path@),
            data matches Some(d) ==> d@ == self@[path@],
    {
        let pos = self.find(path);
        proof {
            lemma_first_index(self.paths(), path@);
        }
        if pos < self.entries.len() {
            Some(&self.entries[pos].data)
        } else {
            None
        }
    }

    /// Writes `data` to the file at `path`, which is made if absent and
    /// replaced if present.
    pub fn write(&mut self, path: &str, data: Vec<u8>)
        requires
            old(self).wf(),
        ensures
            final(self).wf(),
            final(self)@ == old(self)@.insert(path@, data@),
            old(self)@.dom().contains(path@) ==> final(self).paths() == old(self).paths(),
            !old(self)@.dom().contains(path@) ==> final(self).paths() == old(self).paths().push(
                path@,
            ),
    {
        proof {
            lemma_first_index(self.paths(), path@);
        }
        let pos = self.find(path);
        let ghost before = *self;
        if pos < self.entries.len() {
            let entry = FileEntry { path: path.to_string(), data };
            self.entries.set(pos, entry);
            proof {
                assert(self.paths() =~= before.paths());
                assert(self.contents() =~= before.contents().update(pos as int, data@));
                assert forall|p: Seq<char>| before@.insert(path@, data@).dom().contains(p)
                    implies #[trigger] self@[p] == before@.insert(path@, data@)[p] by {
                    lemma_first_index(self.paths(), p);
                }
                assert(self@ =~= before@.insert(path@, data@));
            }
        } else {
            let entry = FileEntry { path: path.to_string(), data };
            self.entries.push(entry);
            proof {
                assert(self.paths() =~= before.paths().push(path@));
                assert(self.contents() =~= before.contents().push(data@));
                assert forall|p: Seq<char>| self.paths().contains(p) <==> (before.paths().contains(
                    p,
                ) || p == path@) by {
                    if before.paths().contains(p) {
                        let i = choose|i: int| 0 <= i < before.paths().len() && before.paths()[i]
                            == p;
                        assert(self.paths()[i] == p);
                    }
                    if p == path@ {
                        assert(self.paths()[before.paths().len() as int] == p);
                    }
                }
                assert forall|p: Seq<char>| before@.insert(path@, data@).dom().contains(p)
                    implies #[trigger] self@[p] == before@.insert(path@, data@)[p] by {
                    lemma_first_index(self.paths(), p);
                    lemma_first_index(before.paths(), p);
                    let k = first_index(self.paths(), p);
                    if p != path@ {
                        let kb = first_index(before.paths(), p);
                        assert(self.paths()[kb] == p);
                        if k < kb {
                            assert(before.paths()[k] != p);
                        }
                    }
                }
                assert(self@ =~= before@.insert(path@, data@));
            }
        }
    }

    /// Removes the file at `path`. Returns whether there was one.
    pub fn remove(&mut self, path: &str) -> (found: bool)
        requires
            old(self).wf(),
        ensures
            final(self).wf(),
            found == old(self)@.dom().contains(path@),
            final(self)@ == old(self)@.remove(path@),
            final(self).paths() == old(self).paths().remove_value(path@),
    {
        proof {
            lemma_first_index(self.paths(), path@);
        }
        let pos = self.find(path);
        let ghost before = *self;
        if pos < self.entries.len() {
            self.entries.remove(pos);
            proof {
                before.paths().index_of_first_ensures(path@);
                let f = before.paths().index_of_first(path@);
                assert(before.paths().contains(path@));
                assert(f == Some(pos as int)) by {
                    let fi = f->0;
                    if fi != pos as int {
                        assert(before.paths()[fi] == path@);
                        assert(before.paths()[pos as int] == path@);
                    }
                }
                assert(self.paths() =~= before.paths().remove(pos as int));
                assert(self.contents() =~= before.contents().remove(pos as int));
                assert forall|p: Seq<char>| self.paths().contains(p) <==> (before.paths().contains(
                    p,
                ) && p != path@) by {
                    if before.paths().contains(p) && p != path@ {
                        let i = choose|i: int| 0 <= i < before.paths().len() && before.paths()[i]
                            == p;
                        if i < pos {
                            assert(self.paths()[i] == p);
                        } else {
                            assert(self.paths()[i - 1] == p);
                        }
                    }
                    if self.paths().contains(p) {
                        let i = choose|i: int| 0 <= i < self.paths().len() && self.paths()[i]
                            == p;
                        if i < pos {
                            assert(before.paths()[i] == p);
                        } else {
                            assert(before.paths()[i + 1] == p);
                        }
                    }
                }
                assert forall|p: Seq<char>| before@.remove(path@).dom().contains(p)
                    implies #[trigger] self@[p] == before@.remove(path@)[p] by {
                    lemma_first_index(self.paths(), p);
                    lemma_first_index(before.paths(), p);
                    let k = first_index(self.paths(), p);
                    let kb = first_index(before.paths(), p);
                    if kb < pos {
                        assert(self.paths()[kb] == p);
                        if k < kb {
                            assert(before.paths()[k] != p);
                        }
                    } else {
                        assert(self.paths()[kb - 1] == p);
                        if k < kb - 1 {
                            if k < pos {
                                assert(before.paths()[k] != p);
                            } else {
                                assert(before.paths()[k + 1] != p);
                            }
                        }
                    }
                }
                assert(self@ =~= before@.remove(path@));
            }
            true
        } else {
            proof {
                before.paths().index_of_first_ensures(path@);
                assert(self@ =~= before@.remove(path@));
            }
            false
        }
    }
}

} // verus!
