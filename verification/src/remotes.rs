//! The list of remotes of a repository: one line `<name>=<address>` for each.

use crate::native_git::commit::line_at;
use crate::native_git::commit::next_line;
use crate::bytes::first_index;
use crate::text::to_chars;
use vstd::prelude::*;
use vstd::string::*;

verus! {

/// One remote: what it is called, and the address of the repository.
#[derive(Debug, Clone)]
pub struct Remote {
    pub name: String,
    pub hash: String,
}

/// A remote as a mathematical value.
pub struct RemoteView {
    pub name: Seq<char>,
    pub hash: Seq<char>,
}

impl View for Remote {
    type V = RemoteView;

    open spec fn view(&self) -> RemoteView {
        RemoteView { name: self.name@, hash: self.hash@ }
    }
}

/// The remotes as mathematical values, in the same order.
pub open spec fn remote_views(remotes: Seq<Remote>) -> Seq<RemoteView> {
    remotes.map_values(|r: Remote| r@)
}

/// The line that is written for a remote.
pub open spec fn remote_line(name: Seq<char>, hash: Seq<char>) -> Seq<char> {
    name + seq!['='] + hash + seq!['\n']
}

/// The list with one remote more at its end.
pub fn with_remote(list: &str, name: &str, hash: &str) -> (updated: String)
    ensures
        updated@ == list@ + remote_line(name@, hash@),
{
    proof {
        reveal_strlit("=");
        reveal_strlit("\n");
    }
    let mut updated = list.to_string();
    updated.append(name);
    updated.append("=");
    updated.append(hash);
    updated.append("\n");
    assert(updated@ =~= list@ + remote_line(name@, hash@));
    updated
}

/// What one line of the list says: the name is what stands before the first
/// `=`, the address what follows it. A line without `=` says nothing.
pub open spec fn line_remote(line: Seq<char>) -> Option<RemoteView> {
    let at = first_index(line, '=');
    if at < line.len() {
        Some(RemoteView { name: line.take(at), hash: line.skip(at + 1) })
    } else {
        None
    }
}

/// What the lines of `text` from `pos` on say, in order.
pub open spec fn remotes_from(text: Seq<char>, pos: int) -> Seq<RemoteView>
    decreases text.len() - pos,
{
    if pos < 0 || pos >= text.len() {
        Seq::empty()
    } else {
        proof {
            crate::bytes::lemma_first_index(text.skip(pos), '\n');
        }
        match line_remote(line_at(text, pos)) {
            Some(remote) => seq![remote] + remotes_from(text, next_line(text, pos)),
            None => remotes_from(text, next_line(text, pos)),
        }
    }
}

/// The remotes that the list names, in the order of its lines.
pub fn parse_remotes(list: &str) -> (remotes: Vec<Remote>)
    ensures
        remote_views(remotes@) == remotes_from(list@, 0),
{
    let chars = to_chars(list);
    let n = chars.len();
    let mut remotes: Vec<Remote> = Vec::new();
    let mut pos: usize = 0;
    assert(remote_views(remotes@) =~= Seq::<RemoteView>::empty());
    while pos < n
        invariant
            chars@ == list@,
            n == chars@.len(),
            pos <= n,
            remotes_from(list@, 0) == remote_views(remotes@) + remotes_from(list@, pos as int),
        decreases n - pos,
    {
        let end = crate::bytes::find_char(chars.as_slice(), pos, '\n');
        let stop = if end < n && pos < end && chars[end - 1] == '\r' {
            end - 1
        } else {
            end
        };
        let next = if end < n {
            end + 1
        } else {
            n
        };
        let ghost line = chars@.subrange(pos as int, stop as int);
        proof {
            crate::bytes::lemma_first_index(list@.skip(pos as int), '\n');
            assert(line_at(list@, pos as int) =~= line);
        }
        let part = vstd::slice::slice_subrange(chars.as_slice(), pos, stop);
        assert(part@.skip(0) =~= part@);
        let at = crate::bytes::find_char(part, 0, '=');
        let ghost done = remote_views(remotes@);
        if at < part.len() {
            let remote = Remote {
                name: list.substring_char(pos, pos + at).to_string(),
                hash: list.substring_char(pos + at + 1, stop).to_string(),
            };
            proof {
                assert(line.take(at as int) =~= list@.subrange(pos as int, pos + at));
                assert(line.skip(at + 1) =~= list@.subrange(pos + at + 1, stop as int));
                assert(remote_views(remotes@.push(remote)) =~= done.push(remote@));
                let rest = remotes_from(list@, next as int);
                assert(done + (seq![remote@] + rest) =~= done.push(remote@) + rest);
            }
            remotes.push(remote);
        }
        pos = next;
    }
    proof {
        assert(remote_views(remotes@) + Seq::<RemoteView>::empty() =~= remote_views(remotes@));
    }
    remotes
}

} // verus!
