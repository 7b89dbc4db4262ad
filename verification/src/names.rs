//! Rules about names: which paths of a working directory are left alone, how
//! the address of a repository is cleaned, and what a repository is called.

use crate::text::after_last;
use crate::text::has_substring;
use crate::text::is_suffix_of;
use crate::text::to_chars;
use crate::text::without_prefixes;
use crate::text::without_suffixes;
use vstd::prelude::*;
use vstd::string::*;

verus! {

/// Whether a path of the working directory is left out of what is added and
/// committed: what lies in a directory `.git`, `.tri` or `target`, and the
/// directories `.git` and `.tri` themselves.
pub open spec fn ignored(path: Seq<char>) -> bool {
    has_substring(path, "/.git/"@) || has_substring(path, "/.tri/"@) || has_substring(
        path,
        "/target/"@,
    ) || is_suffix_of("/.git"@, path) || is_suffix_of("/.tri"@, path)
}

/// Whether `path` is left out of what is added and committed.
pub fn is_ignored(path: &str) -> (yes: bool)
    ensures
        yes == ignored(path@),
{
    crate::text::str_contains(path, "/.git/") || crate::text::str_contains(path, "/.tri/")
        || crate::text::str_contains(path, "/target/") || crate::text::str_ends_with(
        path,
        "/.git",
    ) || crate::text::str_ends_with(path, "/.tri")
}

/// The address of a repository without the schemes that users put in front
/// of it: `hyrule://` first, then `http://`, then `https://`, each as often
/// as it stands there.
pub open spec fn cleaned_hash(hash: Seq<char>) -> Seq<char> {
    without_prefixes(
        without_prefixes(without_prefixes(hash, "hyrule://"@), "http://"@),
        "https://"@,
    )
}

/// The address of a repository without the schemes in front of it.
pub fn clean_repo_hash(hash: &str) -> (cleaned: String)
    ensures
        cleaned@ == cleaned_hash(hash@),
{
    let chars = to_chars(hash);
    let hyrule = to_chars("hyrule://");
    let http = to_chars("http://");
    let https = to_chars("https://");
    assert(chars@.skip(0) =~= chars@);
    let first = crate::text::skip_prefixes(chars.as_slice(), 0, hyrule.as_slice());
    let second = crate::text::skip_prefixes(chars.as_slice(), first, http.as_slice());
    let third = crate::text::skip_prefixes(chars.as_slice(), second, https.as_slice());
    assert(chars@.skip(third as int) =~= hash@.subrange(third as int, hash@.len() as int));
    hash.substring_char(third, chars.len()).to_string()
}

/// The address of a repository without `hyrule://` in front of it, as often
/// as it stands there.
pub fn without_scheme(hash: &str) -> (cleaned: String)
    ensures
        cleaned@ == without_prefixes(hash@, "hyrule://"@),
{
    let chars = to_chars(hash);
    let hyrule = to_chars("hyrule://");
    assert(chars@.skip(0) =~= chars@);
    let start = crate::text::skip_prefixes(chars.as_slice(), 0, hyrule.as_slice());
    assert(chars@.skip(start as int) =~= hash@.subrange(start as int, hash@.len() as int));
    hash.substring_char(start, chars.len()).to_string()
}

/// What a repository is called, going by the address of its remote: what
/// follows the last `/`, without `.git` at its end.
pub open spec fn name_in_url(url: Seq<char>) -> Seq<char> {
    without_suffixes(url.skip(after_last(url, '/')), ".git"@)
}

/// What a repository is called, going by the address of its remote.
pub fn repo_name_of_url(url: &str) -> (name: String)
    ensures
        name@ == name_in_url(url@),
{
    let chars = to_chars(url);
    let n = chars.len();
    let git = to_chars(".git");
    assert(chars@.take(n as int) =~= chars@);
    let start = crate::text::find_after_last(chars.as_slice(), n, '/');
    let tail = vstd::slice::slice_subrange(chars.as_slice(), start, n);
    assert(tail@ =~= url@.skip(start as int));
    assert(tail@.take(tail@.len() as int) =~= tail@);
    let stop = crate::text::skip_suffixes(tail, tail.len(), git.as_slice());
    assert(tail@.take(stop as int) =~= url@.subrange(start as int, start + stop));
    url.substring_char(start, start + stop).to_string()
}

/// The directory below which branches are kept.
pub open spec fn heads_prefix() -> Seq<char> {
    "refs/heads/"@
}

/// The reference that the branch `name` is kept as.
pub fn branch_ref(name: &str) -> (reference: String)
    ensures
        reference@ == heads_prefix() + name@,
{
    "refs/heads/".to_string().concat(name)
}

/// The branch that a reference stands for: the reference without
/// `refs/heads/` at its start, or the reference itself where it does not
/// begin so.
pub open spec fn branch_in(reference: Seq<char>) -> Seq<char> {
    if heads_prefix().is_prefix_of(reference) {
        reference.skip(heads_prefix().len() as int)
    } else {
        reference
    }
}

/// The branch that a reference stands for.
pub fn branch_of(reference: &str) -> (name: String)
    ensures
        name@ == branch_in(reference@),
{
    proof {
        reveal_strlit("refs/heads/");
    }
    if crate::text::str_starts_with(reference, "refs/heads/") {
        let n = reference.unicode_len();
        reference.substring_char(11, n).to_string()
    } else {
        reference.to_string()
    }
}

/// The number of characters of an id that are shown where space is short.
pub const SHORT_ID: usize = 8;

/// The first eight characters of `id`, or all of it where it is shorter.
pub fn short_id(id: &str) -> (short: String)
    ensures
        short@ == if id@.len() <= SHORT_ID {
            id@
        } else {
            id@.take(SHORT_ID as int)
        },
{
    let n = id.unicode_len();
    if n <= SHORT_ID {
        id.to_string()
    } else {
        id.substring_char(0, SHORT_ID).to_string()
    }
}

} // verus!
