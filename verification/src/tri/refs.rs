//! References of the private backend.
//!
//! They are kept as the plain backend keeps them: one file for each name,
//! holding an id and a line feed.

use crate::errors::StoreError;
use crate::files::FileTree;
use crate::native_git::refs::paths_below;
use crate::native_git::refs::read_result;
use crate::native_git::refs::ref_bytes;
use crate::text::texts_of;
use vstd::prelude::*;
use vstd::string::*;

verus! {

/// Points the reference `ref_name` at `object_id`.
pub fn set_ref(repo_path: &mut FileTree, ref_name: &str, object_id: &str) -> (done: Result<
    (),
    StoreError,
>)
    requires
        old(repo_path).wf(),
    ensures
        done is Ok,
        final(repo_path).wf(),
        final(repo_path)@ == old(repo_path)@.insert(ref_name@, ref_bytes(object_id@)),
{
    proof {
        reveal_strlit("\n");
    }
    let mut text = object_id.to_string();
    text.append("\n");
    assert(text@ =~= object_id@ + seq!['\n']);
    repo_path.write(ref_name, text.as_str().as_bytes_vec());
    Ok(())
}

/// What the reference `ref_name` holds, without the white space around it.
/// `HEAD` is read like any other reference: what it holds is not followed.
pub fn read_ref(repo_path: &FileTree, ref_name: &str) -> (id: Result<String, StoreError>)
    requires
        repo_path.wf(),
    ensures
        match id {
            Ok(s) => read_result(repo_path@, ref_name@) == Ok::<Seq<char>, StoreError>(s@),
            Err(e) => read_result(repo_path@, ref_name@) == Err::<Seq<char>, StoreError>(e),
        },
{
    crate::native_git::refs::read_ref(repo_path, ref_name)
}

/// The references below `prefix`, each by its full name.
pub fn list_refs(repo_path: &FileTree, prefix: &str) -> (names: Result<Vec<String>, StoreError>)
    requires
        repo_path.wf(),
    ensures
        names matches Ok(v) && texts_of(v@) == paths_below(repo_path.paths(), prefix@),
{
    Ok(crate::native_git::refs::list_below(repo_path, prefix))
}

} // verus!
