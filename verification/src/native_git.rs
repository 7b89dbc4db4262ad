//! The plain backend: objects named by their SHA-1 digest, laid out as Git lays them out.

pub mod commit;
pub mod hash;
pub mod objects;
pub mod refs;
pub mod repository;
pub mod tree;

pub use crate::native_git::commit::CommitBuilder;
pub use crate::native_git::objects::GitObject;
pub use crate::native_git::objects::ObjectType;
pub use crate::native_git::refs::Refs;
pub use crate::native_git::repository::Repository;
pub use crate::native_git::tree::TreeBuilder;

use crate::errors::StoreError;
use crate::files::FileTree;
use crate::native_git::repository::initial_files;
use vstd::prelude::*;

verus! {

/// Makes a repository in the working directory `path`, of which `git_dir`
/// is the directory `.git`, if there is one.
pub fn init(path: &str, git_dir: Option<FileTree>) -> (repo: Result<Repository, StoreError>)
    ensures
        match repo {
            Ok(r) => git_dir is None && r.wf() && r.work_path() == path@ && r@ == initial_files(),
            Err(e) => git_dir is Some && e == StoreError::AlreadyExists,
        },
{
    Repository::init(path, git_dir)
}

/// Opens the repository in the working directory `path`, of which `git_dir`
/// is the directory `.git`, if there is one.
pub fn open(path: &str, git_dir: Option<FileTree>) -> (repo: Result<Repository, StoreError>)
    requires
        git_dir matches Some(dir) ==> dir.wf(),
    ensures
        match repo {
            Ok(r) => git_dir == Some(r.files()) && r.wf() && r.work_path() == path@,
            Err(e) => git_dir is None && e == StoreError::NotFound,
        },
{
    Repository::open(path, git_dir)
}

} // verus!
