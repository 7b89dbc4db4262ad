//! A repository of the plain backend: a working directory and, in it, the
//! directory `.git` with objects and references.

use crate::errors::StoreError;
use crate::files::FileTree;
use crate::native_git::commit::CommitBuilder;
use crate::native_git::commit::ParsedCommit;
use crate::native_git::commit::ParsedView;
use crate::native_git::objects::listed_ids;
use crate::native_git::objects::load_result;
use crate::native_git::objects::object_id;
use crate::native_git::objects::store_result;
use crate::native_git::objects::GitObject;
use crate::native_git::objects::ObjectType;
use crate::native_git::objects::ObjectView;
use crate::native_git::refs::head_name;
use crate::native_git::refs::head_result;
use crate::native_git::refs::Refs;
use crate::text::texts_of;
use vstd::prelude::*;
use vstd::string::*;
use vstd::utf8::*;

verus! {

/// What `HEAD` holds in a new repository: a reference to the branch `main`.
pub open spec fn initial_head() -> Seq<char> {
    "ref: refs/heads/main\n"@
}

/// The configuration that a new repository is given.
pub open spec fn initial_config() -> Seq<char> {
    "[core]\n\trepositoryformatversion = 0\n\tfilemode = true\n\tbare = false\n"@
}

/// The directory `.git` of a new repository.
pub open spec fn initial_files() -> Map<Seq<char>, Seq<u8>> {
    Map::<Seq<char>, Seq<u8>>::empty().insert(head_name(), encode_utf8(initial_head())).insert(
        "config"@,
        encode_utf8(initial_config()),
    )
}

/// The sum of the lengths of `contents`.
pub open spec fn total_len(contents: Seq<Seq<u8>>) -> int
    decreases contents.len(),
{
    if contents.len() == 0 {
        0
    } else {
        total_len(contents.drop_last()) + contents.last().len()
    }
}

/// A repository held in memory.
pub struct Repository {
    work_dir: String,
    refs: Refs,
}

impl Repository {
    /// The path of the working directory.
    pub closed spec fn work_path(self) -> Seq<char> {
        self.work_dir@
    }

    /// The directory `.git`.
    pub closed spec fn files(self) -> FileTree {
        self.refs.files()
    }

    /// The directory `.git` is well formed.
    pub open spec fn wf(self) -> bool {
        self.files().wf()
    }

    /// The directory `.git` as a map from path to contents.
    pub open spec fn view(self) -> Map<Seq<char>, Seq<u8>> {
        self.files()@
    }

    /// Makes a repository in the working directory `path`. `git_dir` is what
    /// the directory `.git` holds there, or `None` where there is no such
    /// directory; a directory that is there already is `AlreadyExists`.
    pub fn init(path: &str, git_dir: Option<FileTree>) -> (repo: Result<Repository, StoreError>)
        ensures
            match repo {
                Ok(r) => git_dir is None && r.wf() && r.work_path() == path@ && r@
                    == initial_files(),
                Err(e) => git_dir is Some && e == StoreError::AlreadyExists,
            },
    {
        if git_dir.is_some() {
            return Err(StoreError::AlreadyExists);
        }
        proof {
            reveal_strlit("HEAD");
        }
        assert("HEAD"@ =~= head_name());
        let mut files = FileTree::new();
        files.write("HEAD", "ref: refs/heads/main\n".as_bytes_vec());
        let config = "[core]\n\trepositoryformatversion = 0\n\tfilemode = true\n\tbare = false\n";
        files.write("config", config.as_bytes_vec());
        Ok(Repository { work_dir: path.to_string(), refs: Refs::new(files) })
    }

    /// Opens the repository in the working directory `path`. `git_dir` is
    /// what the directory `.git` holds there, or `None` where there is no
    /// such directory, which is `NotFound`.
    pub fn open(path: &str, git_dir: Option<FileTree>) -> (repo: Result<Repository, StoreError>)
        requires
            git_dir matches Some(dir) ==> dir.wf(),
        ensures
            match repo {
                Ok(r) => git_dir == Some(r.files()) && r.wf() && r.work_path() == path@,
                Err(e) => git_dir is None && e == StoreError::NotFound,
            },
    {
        match git_dir {
            Some(files) => Ok(Repository { work_dir: path.to_string(), refs: Refs::new(files) }),
            None => Err(StoreError::NotFound),
        }
    }

    /// The directory `.git`.
    pub fn git_dir(&self) -> (dir: &FileTree)
        ensures
            *dir == self.files(),
    {
        self.refs.git_dir()
    }

    /// Gives the directory `.git` back, to be written to disk.
    pub fn into_git_dir(self) -> (dir: FileTree)
        ensures
            dir == self.files(),
    {
        self.refs.into_git_dir()
    }

    /// The path of the working directory.
    pub fn work_dir(&self) -> (path: &str)
        ensures
            path@ == self.work_path(),
    {
        self.work_dir.as_str()
    }

    /// The reference store.
    pub fn refs(&self) -> (refs: &Refs)
        ensures
            refs.files() == self.files(),
    {
        &self.refs
    }

    /// The reference store, to write into.
    pub fn refs_mut(&mut self) -> (refs: &mut Refs)
        ensures
            refs.files() == old(self).files(),
            final(refs).files() == final(self).files(),
            final(self).work_path() == old(self).work_path(),
    {
        &mut self.refs
    }

    /// Writes `obj` into the repository and returns its id, which is the id
    /// that the object carries. Writing the object again gives the same id
    /// and changes nothing.
    pub fn store_object(&mut self, obj: &GitObject) -> (id: Result<String, StoreError>)
        requires
            old(self).wf(),
        ensures
            final(self).wf(),
            final(self).work_path() == old(self).work_path(),
            match id {
                Ok(s) => s@ == obj.hash@ && store_result(old(self)@, obj@) == Ok::<
                    Map<Seq<char>, Seq<u8>>,
                    StoreError,
                >(final(self)@) && load_result(final(self)@, obj.hash@) == Ok::<
                    ObjectView,
                    StoreError,
                >(obj@) && store_result(final(self)@, obj@) == Ok::<
                    Map<Seq<char>, Seq<u8>>,
                    StoreError,
                >(final(self)@),
                Err(e) => store_result(old(self)@, obj@) == Err::<
                    Map<Seq<char>, Seq<u8>>,
                    StoreError,
                >(e) && final(self).files() == old(self).files(),
            },
    {
        match obj.store(self.refs.git_dir_mut()) {
            Ok(()) => Ok(obj.hash.clone()),
            Err(e) => Err(e),
        }
    }

    /// Reads the object `hash` out of the repository.
    pub fn load_object(&self, hash: &str) -> (object: Result<GitObject, StoreError>)
        requires
            self.wf(),
        ensures
            match object {
                Ok(o) => load_result(self@, hash@) == Ok::<ObjectView, StoreError>(o@),
                Err(e) => load_result(self@, hash@) == Err::<ObjectView, StoreError>(e),
            },
    {
        GitObject::load(self.refs.git_dir(), hash)
    }

    /// The blob that holds `content`. Nothing is written.
    pub fn create_blob(&self, content: &[u8]) -> (blob: Result<GitObject, StoreError>)
        ensures
            blob matches Ok(o) && o.obj_type == ObjectType::Blob && o.content@ == content@
                && o.hash@ == object_id(ObjectType::Blob, content@),
    {
        Ok(GitObject::new(ObjectType::Blob, vstd::slice::slice_to_vec(content)))
    }

    /// The ids of all objects in the repository.
    pub fn list_objects(&self) -> (ids: Result<Vec<String>, StoreError>)
        requires
            self.wf(),
        ensures
            ids matches Ok(v) && texts_of(v@) == listed_ids(self.files().paths(), true),
    {
        GitObject::list_all(self.refs.git_dir())
    }

    /// The number of bytes that the files of the directory `.git` hold. A
    /// sum that does not fit the result's type is `InvalidFormat`.
    pub fn size(&self) -> (total: Result<u64, StoreError>)
        requires
            self.wf(),
        ensures
            match total {
                Ok(n) => n == total_len(self.files().contents()),
                Err(e) => e == StoreError::InvalidFormat && total_len(self.files().contents())
                    > u64::MAX,
            },
    {
        let dir = self.refs.git_dir();
        let count = dir.len();
        let mut total: u64 = 0;
        let mut i: usize = 0;
        assert(dir.contents().take(0) =~= Seq::<Seq<u8>>::empty());
        while i < count
            invariant
                i <= count,
                dir.wf(),
                count == dir.contents().len(),
                count == dir.paths().len(),
                total == total_len(dir.contents().take(i as int)),
                *dir == self.files(),
            decreases count - i,
        {
            let len = dir.data_at(i).len() as u64;
            proof {
                let done = dir.contents().take(i + 1);
                assert(done.drop_last() =~= dir.contents().take(i as int));
                assert(done.last() == dir.contents()[i as int]);
            }
            match total.checked_add(len) {
                Some(sum) => {
                    total = sum;
                },
                None => {
                    proof {
                        lemma_total_len_grows(dir.contents(), i + 1);
                    }
                    return Err(StoreError::InvalidFormat);
                },
            }
            i += 1;
        }
        assert(dir.contents().take(i as int) =~= dir.contents());
        Ok(total)
    }

    /// The id that `HEAD` stands for.
    pub fn head_commit(&self) -> (id: Result<String, StoreError>)
        requires
            self.wf(),
        ensures
            match id {
                Ok(s) => head_result(self@) == Ok::<Seq<char>, StoreError>(s@),
                Err(e) => head_result(self@) == Err::<Seq<char>, StoreError>(e),
            },
    {
        self.refs.head()
    }
}

/// The sum over the first `k` contents is at most the sum over all.
pub proof fn lemma_total_len_grows(contents: Seq<Seq<u8>>, k: int)
    requires
        0 <= k <= contents.len(),
    ensures
        total_len(contents.take(k)) <= total_len(contents),
    decreases contents.len() - k,
{
    if k < contents.len() {
        lemma_total_len_grows(contents, k + 1);
        let next = contents.take(k + 1);
        assert(next.drop_last() =~= contents.take(k));
    } else {
        assert(contents.take(k) =~= contents);
    }
}

/// One step of a history: a commit's id, and what the commit holds.
#[derive(Debug)]
pub struct LogEntry {
    pub id: String,
    pub commit: ParsedCommit,
}

/// A step of a history as a mathematical value.
pub struct LogView {
    pub id: Seq<char>,
    pub commit: ParsedView,
}

impl View for LogEntry {
    type V = LogView;

    open spec fn view(&self) -> LogView {
        LogView { id: self.id@, commit: self.commit@ }
    }
}

/// The steps as mathematical values, in the same order.
pub open spec fn log_views(entries: Seq<LogEntry>) -> Seq<LogView> {
    entries.map_values(|e: LogEntry| e@)
}

/// The history from the commit `start` back along first parents, at most
/// `limit` commits long. An object that is missing, or that is no commit,
/// ends the history with its failure.
pub open spec fn history_of(files: Map<Seq<char>, Seq<u8>>, start: Seq<char>, limit: nat) -> Result<
    Seq<LogView>,
    StoreError,
>
    decreases limit,
{
    if limit == 0 {
        Ok(Seq::empty())
    } else {
        match load_result(files, start) {
            Err(e) => Err(e),
            Ok(object) => match crate::native_git::commit::parse_result(object) {
                Err(e) => Err(e),
                Ok(commit) => {
                    let first = LogView { id: start, commit };
                    if commit.parents.len() == 0 {
                        Ok(seq![first])
                    } else {
                        match history_of(files, commit.parents[0], (limit - 1) as nat) {
                            Err(e) => Err(e),
                            Ok(more) => Ok(seq![first] + more),
                        }
                    }
                },
            },
        }
    }
}

/// The ids among `ids` whose objects cannot be read, in the same order.
pub open spec fn broken(files: Map<Seq<char>, Seq<u8>>, ids: Seq<Seq<char>>) -> Seq<Seq<char>> {
    ids.filter(|id: Seq<char>| load_result(files, id) is Err)
}

/// What a check of all objects found.
#[derive(Debug)]
pub struct VerifyReport {
    /// The number of objects that can be read.
    pub valid: usize,
    /// The ids of the objects that cannot.
    pub invalid: Vec<String>,
}

impl Repository {
    /// The history from the commit `start` back along first parents, at
    /// most `limit` commits long.
    pub fn history(&self, start: &str, limit: usize) -> (entries: Result<Vec<LogEntry>, StoreError>)
        requires
            self.wf(),
        ensures
            match entries {
                Ok(v) => history_of(self@, start@, limit as nat) == Ok::<Seq<LogView>, StoreError>(
                    log_views(v@),
                ),
                Err(e) => history_of(self@, start@, limit as nat) == Err::<
                    Seq<LogView>,
                    StoreError,
                >(e),
            },
    {
        let mut entries: Vec<LogEntry> = Vec::new();
        let mut current = start.to_string();
        let mut left: usize = limit;
        let ghost whole = history_of(self@, start@, limit as nat);
        assert(log_views(entries@) =~= Seq::<LogView>::empty());
        while left > 0
            invariant
                self.wf(),
                whole == history_of(self@, start@, limit as nat),
                whole == match history_of(self@, current@, left as nat) {
                    Ok(more) => Ok::<Seq<LogView>, StoreError>(log_views(entries@) + more),
                    Err(e) => Err::<Seq<LogView>, StoreError>(e),
                },
            decreases left,
        {
            let object = match self.load_object(current.as_str()) {
                Ok(object) => object,
                Err(e) => {
                    return Err(e);
                },
            };
            let commit = match CommitBuilder::parse(&object) {
                Ok(commit) => commit,
                Err(e) => {
                    return Err(e);
                },
            };
            let next = if commit.parents.len() == 0 {
                None
            } else {
                Some(commit.parents[0].clone())
            };
            let ghost done = log_views(entries@);
            let entry = LogEntry { id: current, commit };
            proof {
                assert(log_views(entries@.push(entry)) =~= done.push(entry@));
                if entry@.commit.parents.len() > 0 {
                    assert(entry@.commit.parents[0] == entry.commit.parents@[0]@);
                    let rest = history_of(self@, entry@.commit.parents[0], (left - 1) as nat);
                    if rest is Ok {
                        assert(done + (seq![entry@] + rest->Ok_0) =~= done.push(entry@)
                            + rest->Ok_0);
                    }
                } else {
                    assert(done + seq![entry@] =~= done.push(entry@));
                }
            }
            entries.push(entry);
            match next {
                Some(parent) => {
                    current = parent;
                    left -= 1;
                },
                None => {
                    return Ok(entries);
                },
            }
        }
        proof {
            assert(log_views(entries@) + Seq::<LogView>::empty() =~= log_views(entries@));
        }
        Ok(entries)
    }

    /// Reads every object of the repository and tells how many can be read
    /// and which cannot.
    pub fn verify_objects(&self) -> (report: VerifyReport)
        requires
            self.wf(),
        ensures
            texts_of(report.invalid@) == broken(
                self@,
                listed_ids(self.files().paths(), true),
            ),
            report.valid + report.invalid@.len() == listed_ids(self.files().paths(), true).len(),
    {
        let ids = crate::native_git::objects::list_ids(self.refs.git_dir(), true);
        let ghost all = texts_of(ids@);
        let ghost fails = |id: Seq<char>| load_result(self@, id) is Err;
        let mut valid: usize = 0;
        let mut invalid: Vec<String> = Vec::new();
        let mut i: usize = 0;
        assert(all.take(0) =~= Seq::<Seq<char>>::empty());
        assert(texts_of(invalid@) =~= Seq::<Seq<char>>::empty());
        while i < ids.len()
            invariant
                i <= ids@.len(),
                self.wf(),
                all == texts_of(ids@),
                fails == |id: Seq<char>| load_result(self@, id) is Err,
                texts_of(invalid@) == all.take(i as int).filter(fails),
                valid + invalid@.len() == i,
            decreases ids@.len() - i,
        {
            let readable = self.load_object(ids[i].as_str()).is_ok();
            proof {
                let done = all.take(i as int);
                assert(all.take(i + 1) =~= done.push(ids@[i as int]@));
                Seq::lemma_filter_push(done, ids@[i as int]@, fails);
                if !readable {
                    assert(texts_of(invalid@.push(ids@[i as int])) =~= texts_of(invalid@).push(
                        ids@[i as int]@,
                    ));
                }
            }
            if readable {
                valid += 1;
            } else {
                invalid.push(ids[i].clone());
            }
            i += 1;
        }
        assert(all.take(i as int) =~= all);
        VerifyReport { valid, invalid }
    }
}

} // verus!
