//! Commits and trees of the private backend, as text.
//!
//! A tree is one line `blob <id> <path>` for each staged file: the files
//! are put side by side, whatever directories their paths name. A commit is
//! a line `tree <id>`, a line `parent <id>` where there is a parent, the
//! lines `author TriForge User` and `committer TriForge User`, an empty
//! line, and the message with one line feed at its end.

use crate::errors::StoreError;
use crate::files::FileTree;
use crate::native_git::objects::ObjectType;
use crate::text::utf8_lossy;
use crate::tri::crypto::EncryptionKey;
use crate::tri::objects::key_view;
use crate::tri::objects::read_result;
use crate::native_git::commit::line_at;
use crate::native_git::commit::next_line;
use crate::native_git::commit::parent_key;
use crate::native_git::commit::tree_key;
use crate::text::closed_text;
use crate::text::has_prefix_at;
use crate::text::option_text;
use crate::text::to_chars;
use crate::tri::index::Index;
use crate::tri::index::IndexEntryView;
use vstd::prelude::*;
use vstd::string::*;

verus! {

/// The line of a tree that stands for one staged file.
pub open spec fn tree_line(entry: IndexEntryView) -> Seq<char> {
    "blob "@ + entry.object_id + seq![' '] + entry.path
}

/// The text of the tree of the staged files: their lines, with a line feed between them.
pub open spec fn tree_text_of(staged: Seq<IndexEntryView>) -> Seq<char>
    decreases staged.len(),
{
    if staged.len() == 0 {
        Seq::empty()
    } else if staged.len() == 1 {
        tree_line(staged[0])
    } else {
        tree_text_of(staged.drop_last()) + seq!['\n'] + tree_line(staged.last())
    }
}

/// The text of the tree of what is staged in `index`.
pub fn tree_text(index: &Index) -> (text: String)
    ensures
        text@ == tree_text_of(index.staged()),
{
    proof {
        reveal_strlit(" ");
        reveal_strlit("\n");
    }
    let mut text = String::new();
    let n = index.len();
    let mut i: usize = 0;
    assert(index.staged().take(0) =~= Seq::<IndexEntryView>::empty());
    while i < n
        invariant
            i <= n,
            n == index.staged().len(),
            text@ == tree_text_of(index.staged().take(i as int)),
        decreases n - i,
    {
        let entry = index.entry_at(i);
        proof {
            let done = index.staged().take(i + 1);
            assert(done.drop_last() =~= index.staged().take(i as int));
            assert(done.last() == entry@);
            reveal_strlit(" ");
            reveal_strlit("\n");
        }
        let ghost before = text@;
        if i > 0 {
            text.append("\n");
        }
        text.append("blob ");
        text.append(entry.object_id.as_str());
        text.append(" ");
        text.append(entry.path.as_str());
        proof {
            if i == 0 {
                assert(before =~= Seq::<char>::empty());
                assert(text@ =~= tree_line(entry@));
            } else {
                assert(text@ =~= before + seq!['\n'] + tree_line(entry@));
            }
        }
        i += 1;
    }
    assert(index.staged().take(i as int) =~= index.staged());
    text
}

/// The text of a commit of the tree `tree_id` with the given message, after
/// `parent` where there is one. The message is written with exactly one line
/// feed at its end, however many it was given with.
pub open spec fn commit_text_of(
    tree_id: Seq<char>,
    parent: Option<Seq<char>>,
    message: Seq<char>,
) -> Seq<char> {
    tree_key() + tree_id + seq!['\n'] + match parent {
        Some(p) => parent_key() + p + seq!['\n'],
        None => Seq::empty(),
    } + "author TriForge User\ncommitter TriForge User\n\n"@ + closed_text(message)
}

/// The text of a commit.
pub fn commit_text(tree_id: &str, parent: Option<&str>, message: &str) -> (text: String)
    ensures
        text@ == commit_text_of(
            tree_id@,
            match parent {
                Some(p) => Some(p@),
                None => None,
            },
            message@,
        ),
{
    proof {
        reveal_strlit("tree ");
        reveal_strlit("parent ");
        reveal_strlit("\n");
    }
    let mut text = "tree ".to_string();
    text.append(tree_id);
    text.append("\n");
    let ghost start = text@;
    assert(start =~= tree_key() + tree_id@ + seq!['\n']);
    match parent {
        Some(p) => {
            text.append("parent ");
            text.append(p);
            text.append("\n");
            assert(text@ =~= start + (parent_key() + p@ + seq!['\n']));
        },
        None => {
            assert(text@ =~= start + Seq::<char>::empty());
        },
    }
    let ghost middle = text@;
    text.append("author TriForge User\ncommitter TriForge User\n\n");
    let body = crate::text::closed(message);
    text.append(body.as_str());
    assert(text@ =~= middle + "author TriForge User\ncommitter TriForge User\n\n"@
        + closed_text(message@));
    text
}

/// What follows `key` on the first line, from `pos` on, that begins with `key`.
pub open spec fn first_keyed_from(text: Seq<char>, pos: int, key: Seq<char>) -> Option<Seq<char>>
    decreases text.len() - pos,
{
    if pos < 0 || pos >= text.len() {
        None
    } else if key.is_prefix_of(line_at(text, pos)) {
        Some(line_at(text, pos).skip(key.len() as int))
    } else {
        proof {
            crate::bytes::lemma_first_index(text.skip(pos), '\n');
        }
        first_keyed_from(text, next_line(text, pos), key)
    }
}

/// The tree that the text of a commit names: what follows `tree ` on the
/// first line that begins so, wherever in the text that line stands.
pub open spec fn tree_in(text: Seq<char>) -> Option<Seq<char>> {
    first_keyed_from(text, 0, tree_key())
}

/// The parent that the text of a commit names first.
pub open spec fn parent_in(text: Seq<char>) -> Option<Seq<char>> {
    first_keyed_from(text, 0, parent_key())
}

/// What follows `key` on the first line of `text` that begins with `key`.
fn first_keyed(text: &str, key: &str) -> (value: Option<String>)
    ensures
        option_text(value) == first_keyed_from(text@, 0, key@),
{
    let chars = to_chars(text);
    let word = to_chars(key);
    let n = chars.len();
    let mut pos: usize = 0;
    while pos < n
        invariant
            chars@ == text@,
            word@ == key@,
            n == chars@.len(),
            pos <= n,
            first_keyed_from(text@, 0, key@) == first_keyed_from(text@, pos as int, key@),
        decreases n - pos,
    {
        let end = crate::bytes::find_char(chars.as_slice(), pos, '\n');
        let stop = if end < n && pos < end && chars[end - 1] == '\r' {
            end - 1
        } else {
            end
        };
        let next = if end < n {
            end + 1
        } else {
            n
        };
        let ghost line = chars@.subrange(pos as int, stop as int);
        proof {
            crate::bytes::lemma_first_index(text@.skip(pos as int), '\n');
            assert(line_at(text@, pos as int) =~= line);
        }
        if has_prefix_at(chars.as_slice(), pos, stop, word.as_slice()) {
            proof {
                assert(line.skip(key@.len() as int) =~= text@.subrange(
                    pos + key@.len(),
                    stop as int,
                ));
            }
            return Some(text.substring_char(pos + word.len(), stop).to_string());
        }
        pos = next;
    }
    None
}

/// The tree that the text of a commit names.
pub fn tree_of_commit(text: &str) -> (tree: Option<String>)
    ensures
        option_text(tree) == tree_in(text@),
{
    proof {
        reveal_strlit("tree ");
    }
    assert("tree "@ =~= tree_key());
    first_keyed(text, "tree ")
}

/// The parent that the text of a commit names first.
pub fn first_parent(text: &str) -> (parent: Option<String>)
    ensures
        option_text(parent) == parent_in(text@),
{
    proof {
        reveal_strlit("parent ");
    }
    assert("parent "@ =~= parent_key());
    first_keyed(text, "parent ")
}

/// The lines of `text` from `pos` on, with a line feed between them.
pub open spec fn joined_from(text: Seq<char>, pos: int) -> Seq<char>
    decreases text.len() - pos,
{
    if pos < 0 || pos >= text.len() {
        Seq::empty()
    } else {
        proof {
            crate::bytes::lemma_first_index(text.skip(pos), '\n');
        }
        if next_line(text, pos) < text.len() {
            line_at(text, pos) + seq!['\n'] + joined_from(text, next_line(text, pos))
        } else {
            line_at(text, pos)
        }
    }
}

/// Where the message of a commit begins: after the first empty line from
/// `pos` on, or at the end of the text where there is none.
pub open spec fn body_from(text: Seq<char>, pos: int) -> int
    decreases text.len() - pos,
{
    if pos < 0 || pos >= text.len() {
        text.len() as int
    } else if line_at(text, pos).len() == 0 {
        next_line(text, pos)
    } else {
        proof {
            crate::bytes::lemma_first_index(text.skip(pos), '\n');
        }
        body_from(text, next_line(text, pos))
    }
}

/// The message of a commit: the lines after the first empty line, with a
/// line feed between them and without the white space around the whole.
pub open spec fn message_in(text: Seq<char>) -> Seq<char> {
    crate::text::trim(joined_from(text, body_from(text, 0)))
}

/// The message of a commit.
pub fn message_of(text: &str) -> (message: String)
    ensures
        message@ == message_in(text@),
{
    proof {
        reveal_strlit("\n");
    }
    let chars = to_chars(text);
    let n = chars.len();
    let mut pos: usize = 0;
    let mut found = false;
    while !found && pos < n
        invariant
            chars@ == text@,
            n == chars@.len(),
            pos <= n,
            !found ==> body_from(text@, 0) == body_from(text@, pos as int),
            found ==> body_from(text@, 0) == pos,
        decreases (if found { 0int } else { 1int }), n - pos,
    {
        let end = crate::bytes::find_char(chars.as_slice(), pos, '\n');
        let stop = if end < n && pos < end && chars[end - 1] == '\r' {
            end - 1
        } else {
            end
        };
        let next = if end < n {
            end + 1
        } else {
            n
        };
        proof {
            crate::bytes::lemma_first_index(text@.skip(pos as int), '\n');
            assert(line_at(text@, pos as int) =~= chars@.subrange(pos as int, stop as int));
        }
        if stop == pos {
            found = true;
        }
        pos = next;
    }
    let ghost body = pos as int;
    let mut joined = String::new();
    while pos < n
        invariant
            chars@ == text@,
            n == chars@.len(),
            pos <= n,
            "\n"@ == seq!['\n'],
            joined_from(text@, body) == joined@ + joined_from(text@, pos as int),
        decreases n - pos,
    {
        let end = crate::bytes::find_char(chars.as_slice(), pos, '\n');
        let stop = if end < n && pos < end && chars[end - 1] == '\r' {
            end - 1
        } else {
            end
        };
        let next = if end < n {
            end + 1
        } else {
            n
        };
        proof {
            crate::bytes::lemma_first_index(text@.skip(pos as int), '\n');
            assert(line_at(text@, pos as int) =~= text@.subrange(pos as int, stop as int));
        }
        let ghost before = joined@;
        let ghost line = text@.subrange(pos as int, stop as int);
        joined.append(text.substring_char(pos, stop));
        if next < n {
            joined.append("\n");
            proof {
                let rest = joined_from(text@, next as int);
                assert(before + (line + seq!['\n'] + rest) =~= before + line + seq!['\n'] + rest);
            }
        } else {
            proof {
                assert(joined_from(text@, next as int) =~= Seq::<char>::empty());
                assert(before + line + Seq::<char>::empty() =~= before + line);
            }
        }
        pos = next;
    }
    proof {
        assert(joined@ + Seq::<char>::empty() =~= joined@);
    }
    crate::text::trimmed(joined.as_str())
}

/// One step of a history: a commit's id and its message.
#[derive(Debug)]
pub struct LogEntry {
    pub id: String,
    pub message: String,
}

/// A step of a history as a mathematical value.
pub struct LogView {
    pub id: Seq<char>,
    pub message: Seq<char>,
}

impl View for LogEntry {
    type V = LogView;

    open spec fn view(&self) -> LogView {
        LogView { id: self.id@, message: self.message@ }
    }
}

/// The steps as mathematical values, in the same order.
pub open spec fn log_views(entries: Seq<LogEntry>) -> Seq<LogView> {
    entries.map_values(|e: LogEntry| e@)
}

/// The history from the object `start` back along first parents, at most
/// `limit` commits long. It ends before an object that is no commit; an
/// object that cannot be read ends it with its failure.
pub open spec fn history_of(
    files: Map<Seq<char>, Seq<u8>>,
    start: Seq<char>,
    limit: nat,
    key: Option<(Seq<u8>, Seq<u8>)>,
    compress: bool,
) -> Result<Seq<LogView>, StoreError>
    decreases limit,
{
    if limit == 0 {
        Ok(Seq::empty())
    } else {
        match read_result(files, start, key, compress) {
            Err(e) => Err(e),
            Ok((kind, content)) => if kind != ObjectType::Commit {
                Ok(Seq::empty())
            } else {
                let text = utf8_lossy(content);
                let first = LogView { id: start, message: message_in(text) };
                match parent_in(text) {
                    None => Ok(seq![first]),
                    Some(parent) => match history_of(
                        files,
                        parent,
                        (limit - 1) as nat,
                        key,
                        compress,
                    ) {
                        Err(e) => Err(e),
                        Ok(more) => Ok(seq![first] + more),
                    },
                }
            },
        }
    }
}

/// The history from the object `start` back along first parents, at most
/// `limit` commits long.
pub fn history(
    repo_path: &FileTree,
    start: &str,
    limit: usize,
    encryption_key: Option<&EncryptionKey>,
    compress: bool,
) -> (entries: Result<Vec<LogEntry>, StoreError>)
    requires
        repo_path.wf(),
    ensures
        match entries {
            Ok(v) => history_of(
                repo_path@,
                start@,
                limit as nat,
                key_view(encryption_key),
                compress,
            ) == Ok::<Seq<LogView>, StoreError>(log_views(v@)),
            Err(e) => history_of(
                repo_path@,
                start@,
                limit as nat,
                key_view(encryption_key),
                compress,
            ) == Err::<Seq<LogView>, StoreError>(e),
        },
{
    let ghost key = key_view(encryption_key);
    let ghost whole = history_of(repo_path@, start@, limit as nat, key, compress);
    let mut entries: Vec<LogEntry> = Vec::new();
    let mut current = start.to_string();
    let mut left: usize = limit;
    assert(log_views(entries@) =~= Seq::<LogView>::empty());
    while left > 0
        invariant
            repo_path.wf(),
            key == key_view(encryption_key),
            whole == history_of(repo_path@, start@, limit as nat, key, compress),
            whole == match history_of(repo_path@, current@, left as nat, key, compress) {
                Ok(more) => Ok::<Seq<LogView>, StoreError>(log_views(entries@) + more),
                Err(e) => Err::<Seq<LogView>, StoreError>(e),
            },
        decreases left,
    {
        let (kind, content) = match crate::tri::objects::read_object(
            repo_path,
            current.as_str(),
            encryption_key,
            compress,
        ) {
            Ok(read) => read,
            Err(e) => {
                return Err(e);
            },
        };
        if kind != ObjectType::Commit {
            proof {
                assert(log_views(entries@) + Seq::<LogView>::empty() =~= log_views(entries@));
            }
            return Ok(entries);
        }
        let text = crate::text::lossy_text(content.as_slice());
        let message = message_of(text.as_str());
        let next = first_parent(text.as_str());
        let ghost done = log_views(entries@);
        let entry = LogEntry { id: current, message };
        proof {
            assert(log_views(entries@.push(entry)) =~= done.push(entry@));
            if next is Some {
                let rest = history_of(repo_path@, next->0@, (left - 1) as nat, key, compress);
                if rest is Ok {
                    assert(done + (seq![entry@] + rest->Ok_0) =~= done.push(entry@) + rest->Ok_0);
                }
            } else {
                assert(done + seq![entry@] =~= done.push(entry@));
            }
        }
        entries.push(entry);
        match next {
            Some(parent) => {
                current = parent;
                left -= 1;
            },
            None => {
                return Ok(entries);
            },
        }
    }
    proof {
        assert(log_views(entries@) + Seq::<LogView>::empty() =~= log_views(entries@));
    }
    Ok(entries)
}

/// The tree of the commit `id`: the object must be a commit, else
/// `TypeMismatch`, and its text must name a tree, else `InvalidFormat`.
pub open spec fn commit_tree_of(
    files: Map<Seq<char>, Seq<u8>>,
    id: Seq<char>,
    key: Option<(Seq<u8>, Seq<u8>)>,
    compress: bool,
) -> Result<Seq<char>, StoreError> {
    match read_result(files, id, key, compress) {
        Err(e) => Err(e),
        Ok((kind, content)) => if kind != ObjectType::Commit {
            Err(StoreError::TypeMismatch)
        } else {
            match tree_in(utf8_lossy(content)) {
                Some(tree) => Ok(tree),
                None => Err(StoreError::InvalidFormat),
            }
        },
    }
}

/// The tree of the commit `commit_id` of the repository whose directory is `repo_path`.
pub fn commit_tree(
    repo_path: &FileTree,
    commit_id: &str,
    encryption_key: Option<&EncryptionKey>,
    compress: bool,
) -> (tree: Result<String, StoreError>)
    requires
        repo_path.wf(),
    ensures
        match tree {
            Ok(t) => commit_tree_of(repo_path@, commit_id@, key_view(encryption_key), compress)
                == Ok::<Seq<char>, StoreError>(t@),
            Err(e) => commit_tree_of(repo_path@, commit_id@, key_view(encryption_key), compress)
                == Err::<Seq<char>, StoreError>(e),
        },
{
    match crate::tri::objects::read_object(repo_path, commit_id, encryption_key, compress) {
        Ok((kind, content)) => {
            if kind != ObjectType::Commit {
                return Err(StoreError::TypeMismatch);
            }
            let text = crate::text::lossy_text(content.as_slice());
            match tree_of_commit(text.as_str()) {
                Some(tree) => Ok(tree),
                None => Err(StoreError::InvalidFormat),
            }
        },
        Err(e) => Err(e),
    }
}

} // verus!
