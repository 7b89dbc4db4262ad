//! References: names that point at objects.
//!
//! A reference is a file below the repository's directory that holds an id
//! and a line feed. `HEAD` may hold an id, or `ref: ` and the name of another
//! reference, which is then followed.

use crate::errors::StoreError;
use crate::files::FileTree;
use crate::text::texts_of;
use crate::text::trim;
use crate::text::trimmed;
use crate::text::utf8_str;
use vstd::prelude::*;
use vstd::string::*;
use vstd::utf8::*;

verus! {

/// The words that mark a reference to another reference.
pub open spec fn symbolic_key() -> Seq<char> {
    seq!['r', 'e', 'f', ':', ' ']
}

/// The name of the reference that stands for the current position.
pub open spec fn head_name() -> Seq<char> {
    seq!['H', 'E', 'A', 'D']
}

/// The branch that is read first where there is no `HEAD`.
pub open spec fn main_name() -> Seq<char> {
    "refs/heads/main"@
}

/// The branch that is read where there is neither `HEAD` nor `main`.
pub open spec fn master_name() -> Seq<char> {
    "refs/heads/master"@
}

/// What a reference file holds for the id `id`.
pub open spec fn ref_bytes(id: Seq<char>) -> Seq<u8> {
    encode_utf8(id + seq!['\n'])
}

/// What reading the reference `name` gives: the text of its file without
/// the white space around it. A missing file is `NotFound`; one that is not
/// UTF-8 is `InvalidFormat`.
pub open spec fn read_result(files: Map<Seq<char>, Seq<u8>>, name: Seq<char>) -> Result<
    Seq<char>,
    StoreError,
> {
    if !files.dom().contains(name) {
        Err(StoreError::NotFound)
    } else if !valid_utf8(files[name]) {
        Err(StoreError::InvalidFormat)
    } else {
        Ok(trim(decode_utf8(files[name])))
    }
}

/// What following the reference `name` gives, through at most `limit`
/// references to other references. A chain that is longer than `limit` is
/// `InvalidFormat`.
pub open spec fn resolve(files: Map<Seq<char>, Seq<u8>>, name: Seq<char>, limit: nat) -> Result<
    Seq<char>,
    StoreError,
>
    decreases limit,
{
    match read_result(files, name) {
        Err(e) => Err(e),
        Ok(text) => if !symbolic_key().is_prefix_of(text) {
            Ok(text)
        } else if limit == 0 {
            Err(StoreError::InvalidFormat)
        } else {
            resolve(files, text.skip(5), (limit - 1) as nat)
        },
    }
}

/// The id that `HEAD` stands for. `HEAD` is followed through as many
/// references as the directory has files: a chain that is longer passes the
/// same file twice and would never end. Without a file `HEAD`, the branch
/// `main` is read, and `master` where that fails.
pub open spec fn head_result(files: Map<Seq<char>, Seq<u8>>) -> Result<Seq<char>, StoreError> {
    if files.dom().contains(head_name()) {
        resolve(files, head_name(), files.dom().len())
    } else {
        match read_result(files, main_name()) {
            Ok(id) => Ok(id),
            Err(_) => read_result(files, master_name()),
        }
    }
}

/// The paths below `prefix`, in the order of `paths`.
pub open spec fn paths_below(paths: Seq<Seq<char>>, prefix: Seq<char>) -> Seq<Seq<char>> {
    paths.filter(|p: Seq<char>| (prefix + seq!['/']).is_prefix_of(p))
}

/// The reference store of one repository.
pub struct Refs {
    git_dir: FileTree,
}

impl Refs {
    /// The directory that the references are kept in.
    pub closed spec fn files(self) -> FileTree {
        self.git_dir
    }

    /// The directory is well formed.
    pub open spec fn wf(self) -> bool {
        self.files().wf()
    }

    /// The directory as a map from path to contents.
    pub open spec fn view(self) -> Map<Seq<char>, Seq<u8>> {
        self.files()@
    }

    /// The reference store in the directory `git_dir`.
    pub fn new(git_dir: FileTree) -> (refs: Refs)
        ensures
            refs.files() == git_dir,
    {
        Refs { git_dir }
    }

    /// The directory that the references are kept in.
    pub fn git_dir(&self) -> (dir: &FileTree)
        ensures
            *dir == self.files(),
    {
        &self.git_dir
    }

    /// The directory, to write into.
    pub fn git_dir_mut(&mut self) -> (dir: &mut FileTree)
        ensures
            *dir == old(self).files(),
            *final(dir) == final(self).files(),
    {
        &mut self.git_dir
    }

    /// Gives the directory back.
    pub fn into_git_dir(self) -> (dir: FileTree)
        ensures
            dir == self.files(),
    {
        self.git_dir
    }

    /// Points the reference `ref_name` at `hash`.
    pub fn update(&mut self, ref_name: &str, hash: &str) -> (done: Result<(), StoreError>)
        requires
            old(self).wf(),
        ensures
            done is Ok,
            final(self).wf(),
            final(self)@ == old(self)@.insert(ref_name@, ref_bytes(hash@)),
    {
        proof {
            reveal_strlit("\n");
        }
        let mut text = hash.to_string();
        text.append("\n");
        assert(text@ =~= hash@ + seq!['\n']);
        let data = text.as_str().as_bytes_vec();
        self.git_dir.write(ref_name, data);
        Ok(())
    }

    /// The id that the reference `ref_name` holds.
    pub fn read(&self, ref_name: &str) -> (id: Result<String, StoreError>)
        requires
            self.wf(),
        ensures
            match id {
                Ok(s) => read_result(self@, ref_name@) == Ok::<Seq<char>, StoreError>(s@),
                Err(e) => read_result(self@, ref_name@) == Err::<Seq<char>, StoreError>(e),
            },
    {
        let data = match self.git_dir.read(ref_name) {
            Some(data) => data,
            None => {
                return Err(StoreError::NotFound);
            },
        };
        match utf8_str(data.as_slice()) {
            Some(text) => {
                proof {
                    encode_utf8_decode_utf8(text@);
                }
                Ok(trimmed(text))
            },
            None => Err(StoreError::InvalidFormat),
        }
    }

    /// Removes the reference `ref_name`, if there is one.
    pub fn delete(&mut self, ref_name: &str) -> (done: Result<(), StoreError>)
        requires
            old(self).wf(),
        ensures
            done is Ok,
            final(self).wf(),
            final(self)@ == old(self)@.remove(ref_name@),
    {
        self.git_dir.remove(ref_name);
        Ok(())
    }

    /// The references below `prefix`, each by its full name, in the order in
    /// which they were first written. Nested names such as
    /// `refs/heads/feature/x` are among them.
    pub fn list(&self, prefix: &str) -> (names: Result<Vec<String>, StoreError>)
        requires
            self.wf(),
        ensures
            names matches Ok(v) && texts_of(v@) == paths_below(
                self.files().paths(),
                prefix@,
            ),
    {
        Ok(list_below(&self.git_dir, prefix))
    }

    /// The id that `HEAD` stands for.
    pub fn head(&self) -> (id: Result<String, StoreError>)
        requires
            self.wf(),
        ensures
            match id {
                Ok(s) => head_result(self@) == Ok::<Seq<char>, StoreError>(s@),
                Err(e) => head_result(self@) == Err::<Seq<char>, StoreError>(e),
            },
    {
        resolve_head(&self.git_dir)
    }
}

/// The paths of `dir` below `prefix`.
pub fn list_below(dir: &FileTree, prefix: &str) -> (names: Vec<String>)
    requires
        dir.wf(),
    ensures
        texts_of(names@) == paths_below(dir.paths(), prefix@),
{
    proof {
        reveal_strlit("/");
    }
    let mut start = prefix.to_string();
    start.append("/");
    assert(start@ =~= prefix@ + seq!['/']);
    let mut names: Vec<String> = Vec::new();
    let n = dir.len();
    let mut i: usize = 0;
    let ghost keep = |p: Seq<char>| (prefix@ + seq!['/']).is_prefix_of(p);
    assert(dir.paths().take(0) =~= Seq::<Seq<char>>::empty());
    assert(texts_of(names@) =~= Seq::<Seq<char>>::empty());
    while i < n
        invariant
            i <= n,
            n == dir.paths().len(),
            start@ == prefix@ + seq!['/'],
            keep == |p: Seq<char>| (prefix@ + seq!['/']).is_prefix_of(p),
            texts_of(names@) == dir.paths().take(i as int).filter(keep),
        decreases n - i,
    {
        let path = dir.path_at(i);
        let below = crate::text::str_starts_with(path.as_str(), start.as_str());
        proof {
            let done = dir.paths().take(i as int);
            assert(dir.paths().take(i + 1) =~= done.push(path@));
            Seq::lemma_filter_push(done, path@, keep);
            if below {
                assert(texts_of(names@.push(*path))
                    =~= texts_of(names@).push(path@));
            }
        }
        if below {
            names.push(path.clone());
        }
        i += 1;
    }
    assert(dir.paths().take(i as int) =~= dir.paths());
    names
}

/// The id that `HEAD` stands for in the directory `dir`.
pub fn resolve_head(dir: &FileTree) -> (id: Result<String, StoreError>)
    requires
        dir.wf(),
    ensures
        match id {
            Ok(s) => head_result(dir@) == Ok::<Seq<char>, StoreError>(s@),
            Err(e) => head_result(dir@) == Err::<Seq<char>, StoreError>(e),
        },
{
    proof {
        reveal_strlit("HEAD");
        reveal_strlit("ref: ");
    }
    assert("HEAD"@ =~= head_name());
    assert("ref: "@ =~= symbolic_key());
    if !dir.has_file("HEAD") {
        return match read_ref(dir, "refs/heads/main") {
            Ok(id) => Ok(id),
            Err(_) => read_ref(dir, "refs/heads/master"),
        };
    }
    let mut limit: usize = dir.len();
    proof {
        dir.paths().unique_seq_to_set();
    }
    let mut name = "HEAD".to_string();
    loop
        invariant
            dir.wf(),
            "ref: "@ == symbolic_key(),
            head_result(dir@) == resolve(dir@, name@, limit as nat),
        decreases limit,
    {
        let text = match read_ref(dir, name.as_str()) {
            Ok(text) => text,
            Err(e) => {
                return Err(e);
            },
        };
        if !crate::text::str_starts_with(text.as_str(), "ref: ") {
            return Ok(text);
        }
        if limit == 0 {
            return Err(StoreError::InvalidFormat);
        }
        let n = text.as_str().unicode_len();
        name = text.as_str().substring_char(5, n).to_string();
        limit -= 1;
    }
}

/// The id that the reference `name` holds in the directory `dir`.
pub fn read_ref(dir: &FileTree, name: &str) -> (id: Result<String, StoreError>)
    requires
        dir.wf(),
    ensures
        match id {
            Ok(s) => read_result(dir@, name@) == Ok::<Seq<char>, StoreError>(s@),
            Err(e) => read_result(dir@, name@) == Err::<Seq<char>, StoreError>(e),
        },
{
    let data = match dir.read(name) {
        Some(data) => data,
        None => {
            return Err(StoreError::NotFound);
        },
    };
    match utf8_str(data.as_slice()) {
        Some(text) => {
            proof {
                encode_utf8_decode_utf8(text@);
            }
            Ok(trimmed(text))
        },
        None => Err(StoreError::InvalidFormat),
    }
}

/// Where `HEAD` names a reference that holds an id, `HEAD` stands for that id.
pub proof fn lemma_head_through_reference(
    files: Map<Seq<char>, Seq<u8>>,
    name: Seq<char>,
    id: Seq<char>,
)
    requires
        files.dom().finite(),
        read_result(files, head_name()) == Ok::<Seq<char>, StoreError>(symbolic_key() + name),
        read_result(files, name) == Ok::<Seq<char>, StoreError>(id),
        !symbolic_key().is_prefix_of(id),
    ensures
        head_result(files) == Ok::<Seq<char>, StoreError>(id),
{
    let text = symbolic_key() + name;
    assert(text.subrange(0, 5) =~= symbolic_key());
    assert(text.skip(5) =~= name);
    assert(files.dom().contains(head_name()));
    assert(files.dom().len() > 0) by {
        if files.dom().len() == 0 {
            files.dom().lemma_len0_is_empty();
        }
    }
    let limit = files.dom().len();
    assert(resolve(files, name, (limit - 1) as nat) == Ok::<Seq<char>, StoreError>(id));
}

/// Where `HEAD` names a reference that is absent, `HEAD` cannot be resolved.
pub proof fn lemma_head_without_target(files: Map<Seq<char>, Seq<u8>>, name: Seq<char>)
    requires
        files.dom().finite(),
        read_result(files, head_name()) == Ok::<Seq<char>, StoreError>(symbolic_key() + name),
        !files.dom().contains(name),
    ensures
        head_result(files) == Err::<Seq<char>, StoreError>(StoreError::NotFound),
{
    let text = symbolic_key() + name;
    assert(text.subrange(0, 5) =~= symbolic_key());
    assert(text.skip(5) =~= name);
    assert(files.dom().contains(head_name()));
    assert(files.dom().len() > 0) by {
        if files.dom().len() == 0 {
            files.dom().lemma_len0_is_empty();
        }
    }
    let limit = files.dom().len();
    assert(resolve(files, name, (limit - 1) as nat) == Err::<Seq<char>, StoreError>(
        StoreError::NotFound,
    ));
}

/// A reference that was pointed at an id is read as that id, where the id
/// neither begins nor ends with white space.
pub proof fn lemma_read_after_update(
    files: Map<Seq<char>, Seq<u8>>,
    name: Seq<char>,
    id: Seq<char>,
)
    requires
        id.len() > 0 ==> !crate::text::is_space(id[0]) && !crate::text::is_space(id.last()),
    ensures
        read_result(files.insert(name, ref_bytes(id)), name) == Ok::<Seq<char>, StoreError>(id),
{
    let text = id + seq!['\n'];
    encode_utf8_valid_utf8(text);
    encode_utf8_decode_utf8(text);
    if id.len() == 0 {
        crate::text::lemma_leading_spaces_unique(text, 1);
        assert(text.skip(1) =~= Seq::<char>::empty());
        assert(trim(text) =~= id);
    } else {
        crate::text::lemma_leading_spaces_unique(text, 0);
        assert(text.skip(0) =~= text);
        crate::text::lemma_trimmed_len_unique(text, id.len() as int);
        assert(text.take(id.len() as int) =~= id);
    }
}

} // verus!
