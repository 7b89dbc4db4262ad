//! Merging branches.
//!
//! Merging is not supported. A merge reads both branches, so a branch that
//! is missing is reported, and then says loudly that nothing was merged.
//! What the library can tell is whether a merge would be a fast-forward:
//! whether the history of the commit to merge leads back to the current one.

use crate::errors::StoreError;
use crate::files::FileTree;
use crate::native_git::objects::ObjectType;
use crate::native_git::refs::read_result;
use crate::text::utf8_lossy;
use crate::tri::commit::parent_in;
use crate::tri::crypto::EncryptionKey;
use crate::tri::objects::key_view;
use vstd::prelude::*;
use vstd::string::*;

verus! {

/// How a merge ended.
pub struct MergeResult {
    pub success: bool,
    pub conflicts: Vec<String>,
    pub merged_commit: Option<String>,
}

/// The one conflict that every merge reports.
pub open spec fn not_implemented() -> Seq<char> {
    "Merge not yet implemented"@
}

/// Merges `merge_branch` into `current_branch`. Both references must be
/// there; the merge itself always fails, with one conflict that says so.
pub fn merge_branches(repo_path: &FileTree, current_branch: &str, merge_branch: &str) -> (merged:
    Result<MergeResult, StoreError>)
    requires
        repo_path.wf(),
    ensures
        match merged {
            Ok(m) => read_result(repo_path@, current_branch@) is Ok && read_result(
                repo_path@,
                merge_branch@,
            ) is Ok && !m.success && m.merged_commit is None && m.conflicts@.len() == 1
                && m.conflicts@[0]@ == not_implemented(),
            Err(e) => match read_result(repo_path@, current_branch@) {
                Err(first) => e == first,
                Ok(_) => read_result(repo_path@, merge_branch@) == Err::<Seq<char>, StoreError>(e),
            },
        },
{
    match crate::tri::refs::read_ref(repo_path, current_branch) {
        Ok(_) => {},
        Err(e) => {
            return Err(e);
        },
    }
    match crate::tri::refs::read_ref(repo_path, merge_branch) {
        Ok(_) => {},
        Err(e) => {
            return Err(e);
        },
    }
    let mut conflicts: Vec<String> = Vec::new();
    conflicts.push("Merge not yet implemented".to_string());
    Ok(MergeResult { success: false, conflicts, merged_commit: None })
}

/// Whether the history of `from`, followed back through at most `limit`
/// parents, comes to `target`. A commit is part of its own history. The
/// history ends at a commit without a parent and at an object that is no
/// commit; an object that cannot be read is a failure.
pub open spec fn leads_to(
    files: Map<Seq<char>, Seq<u8>>,
    from: Seq<char>,
    target: Seq<char>,
    limit: nat,
    key: Option<(Seq<u8>, Seq<u8>)>,
    compress: bool,
) -> Result<bool, StoreError>
    decreases limit,
{
    if from == target {
        Ok(true)
    } else if limit == 0 {
        Ok(false)
    } else {
        match crate::tri::objects::read_result(files, from, key, compress) {
            Err(e) => Err(e),
            Ok((kind, content)) => if kind != ObjectType::Commit {
                Ok(false)
            } else {
                match parent_in(utf8_lossy(content)) {
                    None => Ok(false),
                    Some(parent) => leads_to(
                        files,
                        parent,
                        target,
                        (limit - 1) as nat,
                        key,
                        compress,
                    ),
                }
            },
        }
    }
}

/// Whether merging `merge_commit` into `current_commit` would be a
/// fast-forward: whether the history of `merge_commit` comes to
/// `current_commit`. The history is followed through as many parents as the
/// directory has files: one that is longer passes the same object twice.
pub fn is_fast_forward(
    repo_path: &FileTree,
    current_commit: &str,
    merge_commit: &str,
    encryption_key: Option<&EncryptionKey>,
    compress: bool,
) -> (possible: Result<bool, StoreError>)
    requires
        repo_path.wf(),
    ensures
        possible == leads_to(
            repo_path@,
            merge_commit@,
            current_commit@,
            repo_path.paths().len(),
            key_view(encryption_key),
            compress,
        ),
{
    let ghost key = key_view(encryption_key);
    let ghost whole = leads_to(
        repo_path@,
        merge_commit@,
        current_commit@,
        repo_path.paths().len(),
        key,
        compress,
    );
    let mut from = merge_commit.to_string();
    let mut left: usize = repo_path.len();
    loop
        invariant
            repo_path.wf(),
            key == key_view(encryption_key),
            whole == leads_to(
                repo_path@,
                merge_commit@,
                current_commit@,
                repo_path.paths().len(),
                key,
                compress,
            ),
            whole == leads_to(repo_path@, from@, current_commit@, left as nat, key, compress),
        decreases left,
    {
        if crate::text::str_eq(from.as_str(), current_commit) {
            return Ok(true);
        }
        if left == 0 {
            return Ok(false);
        }
        let (kind, content) = match crate::tri::objects::read_object(
            repo_path,
            from.as_str(),
            encryption_key,
            compress,
        ) {
            Ok(read) => read,
            Err(e) => {
                return Err(e);
            },
        };
        if kind != ObjectType::Commit {
            return Ok(false);
        }
        let text = crate::text::lossy_text(content.as_slice());
        match crate::tri::commit::first_parent(text.as_str()) {
            Some(parent) => {
                from = parent;
                left -= 1;
            },
            None => {
                return Ok(false);
            },
        }
    }
}

} // verus!
