//! The differences between two trees of the private backend.
//!
//! A tree of the private backend is text: one line `blob <id> <path>` for
//! each file. Two trees are compared path by path. A path of the new tree
//! that the old tree lacks was added; one that both have under different ids
//! was modified; one that only the old tree has was deleted. What is the
//! same in both is left out. The paths of the new tree come first, then the
//! deletions; within each group the order is that of the lines and nothing
//! that a caller should rely on.

use crate::errors::StoreError;
use crate::files::FileTree;
use crate::native_git::commit::line_at;
use crate::native_git::commit::next_line;
use crate::native_git::objects::ObjectType;
use crate::text::next_index;
use crate::text::to_chars;
use crate::text::utf8_lossy;
use crate::tri::crypto::EncryptionKey;
use crate::tri::objects::key_view;
use crate::tri::objects::read_result;
use vstd::prelude::*;
use vstd::string::*;

verus! {

/// What became of a path between two trees.
#[derive(Debug, Clone, Copy, PartialEq, Eq, Structural)]
pub enum FileStatus {
    Added,
    Modified,
    Deleted,
}

impl FileStatus {
    /// The sign under which the status is shown.
    pub fn symbol(&self) -> (sign: &'static str)
        ensures
            sign@ == match *self {
                FileStatus::Added => "+"@,
                FileStatus::Modified => "M"@,
                FileStatus::Deleted => "-"@,
            },
    {
        match self {
            FileStatus::Added => "+",
            FileStatus::Modified => "M",
            FileStatus::Deleted => "-",
        }
    }
}

/// One difference: the path, what became of it, and its id in the old and in the new tree.
pub struct DiffEntry {
    pub path: String,
    pub status: FileStatus,
    pub old_id: Option<String>,
    pub new_id: Option<String>,
}

/// A difference as a mathematical value.
pub struct DiffView {
    pub path: Seq<char>,
    pub status: FileStatus,
    pub old_id: Option<Seq<char>>,
    pub new_id: Option<Seq<char>>,
}

/// The text of an optional string.
pub open spec fn text_view(s: Option<String>) -> Option<Seq<char>> {
    match s {
        Some(t) => Some(t@),
        None => None,
    }
}

impl View for DiffEntry {
    type V = DiffView;

    open spec fn view(&self) -> DiffView {
        DiffView {
            path: self.path@,
            status: self.status,
            old_id: text_view(self.old_id),
            new_id: text_view(self.new_id),
        }
    }
}

/// The differences as mathematical values, in the same order.
pub open spec fn diff_views(entries: Seq<DiffEntry>) -> Seq<DiffView> {
    entries.map_values(|e: DiffEntry| e@)
}

/// One line of a tree: a path and the id of its content.
#[derive(Debug, Clone)]
pub struct TreeItem {
    pub path: String,
    pub id: String,
}

/// A line of a tree as a mathematical value.
pub struct ItemView {
    pub path: Seq<char>,
    pub id: Seq<char>,
}

impl View for TreeItem {
    type V = ItemView;

    open spec fn view(&self) -> ItemView {
        ItemView { path: self.path@, id: self.id@ }
    }
}

/// The lines as mathematical values, in the same order.
pub open spec fn item_views(items: Seq<TreeItem>) -> Seq<ItemView> {
    items.map_values(|e: TreeItem| e@)
}

/// The id that `items` give for `path`: of several lines for one path, the last counts.
pub open spec fn lookup(items: Seq<ItemView>, path: Seq<char>) -> Option<Seq<char>>
    decreases items.len(),
{
    if items.len() == 0 {
        None
    } else if items.last().path == path {
        Some(items.last().id)
    } else {
        lookup(items.drop_last(), path)
    }
}

/// Whether the line at `i` counts: no later line is for the same path.
pub open spec fn counts(items: Seq<ItemView>, i: int) -> bool {
    lookup(items.skip(i + 1), items[i].path) is None
}

/// What a line of the new tree gives rise to, if anything.
pub open spec fn change_of(old_items: Option<Seq<ItemView>>, item: ItemView) -> Option<DiffView> {
    let added = DiffView {
        path: item.path,
        status: FileStatus::Added,
        old_id: None,
        new_id: Some(item.id),
    };
    match old_items {
        None => Some(added),
        Some(old_tree) => match lookup(old_tree, item.path) {
            None => Some(added),
            Some(old_id) => if old_id != item.id {
                Some(
                    DiffView {
                        path: item.path,
                        status: FileStatus::Modified,
                        old_id: Some(old_id),
                        new_id: Some(item.id),
                    },
                )
            } else {
                None
            },
        },
    }
}

/// The additions and modifications that the first `k` lines of the new tree give rise to.
pub open spec fn changes(old_items: Option<Seq<ItemView>>, new_items: Seq<ItemView>, k: int) -> Seq<
    DiffView,
>
    decreases k,
{
    if k <= 0 {
        Seq::empty()
    } else {
        let before = changes(old_items, new_items, k - 1);
        let item = new_items[k - 1];
        if !counts(new_items, k - 1) {
            before
        } else {
            match change_of(old_items, item) {
                Some(change) => before.push(change),
                None => before,
            }
        }
    }
}

/// The deletion that a line of the old tree gives rise to, if any.
pub open spec fn deletion_of(new_items: Seq<ItemView>, item: ItemView) -> Option<DiffView> {
    if lookup(new_items, item.path) is None {
        Some(
            DiffView {
                path: item.path,
                status: FileStatus::Deleted,
                old_id: Some(item.id),
                new_id: None,
            },
        )
    } else {
        None
    }
}

/// The deletions that the first `k` lines of the old tree give rise to.
pub open spec fn deletions(old_items: Seq<ItemView>, new_items: Seq<ItemView>, k: int) -> Seq<
    DiffView,
>
    decreases k,
{
    if k <= 0 {
        Seq::empty()
    } else {
        let before = deletions(old_items, new_items, k - 1);
        if !counts(old_items, k - 1) {
            before
        } else {
            match deletion_of(new_items, old_items[k - 1]) {
                Some(change) => before.push(change),
                None => before,
            }
        }
    }
}

/// The differences between the old tree, if there is one, and the new tree.
pub open spec fn diff_of(old_items: Option<Seq<ItemView>>, new_items: Seq<ItemView>) -> Seq<
    DiffView,
> {
    changes(old_items, new_items, new_items.len() as int) + match old_items {
        Some(old_tree) => deletions(old_tree, new_items, old_tree.len() as int),
        None => Seq::empty(),
    }
}

/// The id that `items` give for `path`.
pub fn find_id<'a>(items: &'a Vec<TreeItem>, path: &str) -> (id: Option<&'a String>)
    ensures
        text_view_ref(id) == lookup(item_views(items@), path@),
{
    assert(item_views(items@).take(items@.len() as int) =~= item_views(items@));
    find_id_before(items, items.len(), path)
}

/// The text of an optional borrowed string.
pub open spec fn text_view_ref(s: Option<&String>) -> Option<Seq<char>> {
    match s {
        Some(t) => Some(t@),
        None => None,
    }
}

/// The id that the first `end` lines of `items` give for `path`.
fn find_id_before<'a>(items: &'a Vec<TreeItem>, end: usize, path: &str) -> (id: Option<&'a String>)
    requires
        end <= items@.len(),
    ensures
        text_view_ref(id) == lookup(item_views(items@).take(end as int), path@),
{
    let mut i: usize = end;
    let ghost all = item_views(items@);
    while i > 0
        invariant
            i <= end <= items@.len(),
            all == item_views(items@),
            lookup(all.take(end as int), path@) == lookup(all.take(i as int), path@),
        decreases i,
    {
        proof {
            assert(all.take(i as int).drop_last() =~= all.take(i - 1));
            assert(all.take(i as int).last() == items@[i - 1]@);
        }
        if crate::text::str_eq(items[i - 1].path.as_str(), path) {
            return Some(&items[i - 1].id);
        }
        i -= 1;
    }
    None
}

/// Whether a line of `items` from `start` on is for `path`.
fn find_id_after(items: &Vec<TreeItem>, start: usize, path: &str) -> (found: bool)
    requires
        start <= items@.len(),
    ensures
        found == (lookup(item_views(items@).skip(start as int), path@) is Some),
{
    let mut i: usize = items.len();
    let ghost tail = item_views(items@).skip(start as int);
    assert(tail.take(i - start) =~= tail);
    while i > start
        invariant
            start <= i <= items@.len(),
            tail == item_views(items@).skip(start as int),
            lookup(tail, path@) == lookup(tail.take(i - start), path@),
        decreases i,
    {
        proof {
            assert(tail.take(i - start).drop_last() =~= tail.take(i - start - 1));
            assert(tail.take(i - start).last() == items@[i - 1]@);
        }
        if crate::text::str_eq(items[i - 1].path.as_str(), path) {
            return true;
        }
        i -= 1;
    }
    proof {
        assert(tail.take(0) =~= Seq::<ItemView>::empty());
    }
    false
}

/// Compares two trees that were read already.
pub fn diff_items(old_items: Option<&Vec<TreeItem>>, new_items: &Vec<TreeItem>) -> (diffs: Vec<
    DiffEntry,
>)
    ensures
        diff_views(diffs@) == diff_of(
            match old_items {
                Some(o) => Some(item_views(o@)),
                None => None,
            },
            item_views(new_items@),
        ),
        distinct_paths(diff_views(diffs@)),
{
    let ghost old_view = match old_items {
        Some(o) => Some(item_views(o@)),
        None => None,
    };
    let ghost new_view = item_views(new_items@);
    proof {
        lemma_diff_paths_distinct(old_view, new_view);
    }
    let mut diffs: Vec<DiffEntry> = Vec::new();
    let mut i: usize = 0;
    assert(diff_views(diffs@) =~= Seq::<DiffView>::empty());
    while i < new_items.len()
        invariant
            i <= new_items@.len(),
            new_view == item_views(new_items@),
            old_view == match old_items {
                Some(o) => Some(item_views(o@)),
                None => None,
            },
            diff_views(diffs@) == changes(old_view, new_view, i as int),
        decreases new_items@.len() - i,
    {
        let item = &new_items[i];
        let ghost before = diff_views(diffs@);
        if !find_id_after(new_items, i + 1, item.path.as_str()) {
            let old_id = match old_items {
                Some(old_tree) => find_id(old_tree, item.path.as_str()),
                None => None,
            };
            match old_id {
                None => {
                    let entry = DiffEntry {
                        path: item.path.clone(),
                        status: FileStatus::Added,
                        old_id: None,
                        new_id: Some(item.id.clone()),
                    };
                    assert(diff_views(diffs@.push(entry)) =~= before.push(entry@));
                    diffs.push(entry);
                },
                Some(old_id) => {
                    if !crate::text::str_eq(old_id.as_str(), item.id.as_str()) {
                        let entry = DiffEntry {
                            path: item.path.clone(),
                            status: FileStatus::Modified,
                            old_id: Some(old_id.clone()),
                            new_id: Some(item.id.clone()),
                        };
                        assert(diff_views(diffs@.push(entry)) =~= before.push(entry@));
                        diffs.push(entry);
                    }
                },
            }
        }
        i += 1;
    }
    let ghost first = diff_views(diffs@);
    match old_items {
        Some(old_tree) => {
            let mut k: usize = 0;
            assert(first + Seq::<DiffView>::empty() =~= first);
            while k < old_tree.len()
                invariant
                    k <= old_tree@.len(),
                    new_view == item_views(new_items@),
                    old_view == Some(item_views(old_tree@)),
                    diff_views(diffs@) == first + deletions(old_view->0, new_view, k as int),
                decreases old_tree@.len() - k,
            {
                let item = &old_tree[k];
                let ghost before = deletions(old_view->0, new_view, k as int);
                if !find_id_after(old_tree, k + 1, item.path.as_str()) && find_id(
                    new_items,
                    item.path.as_str(),
                ).is_none() {
                    let entry = DiffEntry {
                        path: item.path.clone(),
                        status: FileStatus::Deleted,
                        old_id: Some(item.id.clone()),
                        new_id: None,
                    };
                    assert(diff_views(diffs@.push(entry)) =~= diff_views(diffs@).push(entry@));
                    assert((first + before).push(entry@) =~= first + before.push(entry@));
                    diffs.push(entry);
                }
                k += 1;
            }
        },
        None => {
            assert(first + Seq::<DiffView>::empty() =~= first);
        },
    }
    diffs
}

/// What one line of a tree says, if it says anything: a line of three words
/// or more gives the id by its second word and the path by its third.
pub open spec fn line_item(line: Seq<char>) -> Option<ItemView> {
    let first = next_index(line, 0, false);
    let first_end = next_index(line, first, true);
    let second = next_index(line, first_end, false);
    let second_end = next_index(line, second, true);
    let third = next_index(line, second_end, false);
    let third_end = next_index(line, third, true);
    if third < line.len() {
        Some(
            ItemView {
                path: line.subrange(third, third_end),
                id: line.subrange(second, second_end),
            },
        )
    } else {
        None
    }
}

/// What the lines of `text` from `pos` on say, in order.
pub open spec fn items_from(text: Seq<char>, pos: int) -> Seq<ItemView>
    decreases text.len() - pos,
{
    if pos < 0 || pos >= text.len() {
        Seq::empty()
    } else {
        proof {
            crate::bytes::lemma_first_index(text.skip(pos), '\n');
        }
        match line_item(line_at(text, pos)) {
            Some(item) => seq![item] + items_from(text, next_line(text, pos)),
            None => items_from(text, next_line(text, pos)),
        }
    }
}

/// What the lines of `text` say.
pub open spec fn items_of(text: Seq<char>) -> Seq<ItemView> {
    items_from(text, 0)
}

/// Reads the text of a tree.
pub fn flatten_text(text: &str) -> (items: Vec<TreeItem>)
    ensures
        item_views(items@) == items_of(text@),
{
    let chars = to_chars(text);
    let n = chars.len();
    let mut items: Vec<TreeItem> = Vec::new();
    let mut pos: usize = 0;
    assert(item_views(items@) =~= Seq::<ItemView>::empty());
    while pos < n
        invariant
            chars@ == text@,
            n == chars@.len(),
            pos <= n,
            items_of(text@) == item_views(items@) + items_from(text@, pos as int),
        decreases n - pos,
    {
        let end = crate::bytes::find_char(chars.as_slice(), pos, '\n');
        let stop = if end < n && pos < end && chars[end - 1] == '\r' {
            end - 1
        } else {
            end
        };
        let next = if end < n {
            end + 1
        } else {
            n
        };
        let ghost line = chars@.subrange(pos as int, stop as int);
        proof {
            crate::bytes::lemma_first_index(text@.skip(pos as int), '\n');
            assert(line_at(text@, pos as int) =~= line);
        }
        let first = find_in_line(chars.as_slice(), pos, pos, stop, false);
        let first_end = find_in_line(chars.as_slice(), pos, first, stop, true);
        let second = find_in_line(chars.as_slice(), pos, first_end, stop, false);
        let second_end = find_in_line(chars.as_slice(), pos, second, stop, true);
        let third = find_in_line(chars.as_slice(), pos, second_end, stop, false);
        let third_end = find_in_line(chars.as_slice(), pos, third, stop, true);
        let ghost done = item_views(items@);
        if third < stop {
            let item = TreeItem {
                path: text.substring_char(third, third_end).to_string(),
                id: text.substring_char(second, second_end).to_string(),
            };
            proof {
                assert(line.subrange(third - pos, third_end - pos) =~= text@.subrange(
                    third as int,
                    third_end as int,
                ));
                assert(line.subrange(second - pos, second_end - pos) =~= text@.subrange(
                    second as int,
                    second_end as int,
                ));
                assert(line_item(line) == Some(item@));
                assert(item_views(items@.push(item)) =~= done.push(item@));
                let rest = items_from(text@, next as int);
                assert(done + (seq![item@] + rest) =~= done.push(item@) + rest);
            }
            items.push(item);
        } else {
            assert(line_item(line) is None);
        }
        pos = next;
    }
    proof {
        assert(item_views(items@) + Seq::<ItemView>::empty() =~= item_views(items@));
    }
    items
}

/// Searches the line `text[start..stop]` from `pos` on.
fn find_in_line(text: &[char], start: usize, pos: usize, stop: usize, space: bool) -> (found: usize)
    requires
        start <= pos <= stop <= text.len(),
    ensures
        pos <= found <= stop,
        found - start == next_index(
            text@.subrange(start as int, stop as int),
            pos - start,
            space,
        ),
{
    let mut i: usize = pos;
    let ghost line = text@.subrange(start as int, stop as int);
    while i < stop && crate::text::char_is_space(text[i]) != space
        invariant
            start <= pos <= i <= stop <= text.len(),
            line == text@.subrange(start as int, stop as int),
            next_index(line, pos - start, space) == next_index(line, i - start, space),
        decreases stop - i,
    {
        assert(line[i - start] == text@[i as int]);
        i += 1;
    }
    proof {
        if i < stop {
            assert(line[i - start] == text@[i as int]);
        }
    }
    i
}

/// What reading the tree `id` gives: the object must be a tree, and its
/// content is read as text, with a replacement character for what is not UTF-8.
pub open spec fn tree_result(
    files: Map<Seq<char>, Seq<u8>>,
    id: Seq<char>,
    key: Option<(Seq<u8>, Seq<u8>)>,
    compress: bool,
) -> Result<Seq<ItemView>, StoreError> {
    match read_result(files, id, key, compress) {
        Err(e) => Err(e),
        Ok((kind, content)) => if kind != ObjectType::Tree {
            Err(StoreError::TypeMismatch)
        } else {
            Ok(items_of(utf8_lossy(content)))
        },
    }
}

/// What `diff_trees` returns.
pub open spec fn diff_result(
    files: Map<Seq<char>, Seq<u8>>,
    old_tree_id: Option<Seq<char>>,
    new_tree_id: Seq<char>,
    key: Option<(Seq<u8>, Seq<u8>)>,
    compress: bool,
) -> Result<Seq<DiffView>, StoreError> {
    match tree_result(files, new_tree_id, key, compress) {
        Err(e) => Err(e),
        Ok(new_items) => match old_tree_id {
            None => Ok(diff_of(None, new_items)),
            Some(id) => match tree_result(files, id, key, compress) {
                Err(e) => Err(e),
                Ok(old_items) => Ok(diff_of(Some(old_items), new_items)),
            },
        },
    }
}

/// Reads the tree `tree_id` out of the repository whose directory is `repo_path`.
pub fn parse_tree(
    repo_path: &FileTree,
    tree_id: &str,
    encryption_key: Option<&EncryptionKey>,
    compress: bool,
) -> (items: Result<Vec<TreeItem>, StoreError>)
    requires
        repo_path.wf(),
    ensures
        match items {
            Ok(v) => tree_result(repo_path@, tree_id@, key_view(encryption_key), compress) == Ok::<
                Seq<ItemView>,
                StoreError,
            >(item_views(v@)),
            Err(e) => tree_result(repo_path@, tree_id@, key_view(encryption_key), compress)
                == Err::<Seq<ItemView>, StoreError>(e),
        },
{
    match crate::tri::objects::read_object(repo_path, tree_id, encryption_key, compress) {
        Ok((kind, content)) => {
            if kind != ObjectType::Tree {
                return Err(StoreError::TypeMismatch);
            }
            let text = crate::text::lossy_text(content.as_slice());
            Ok(flatten_text(text.as_str()))
        },
        Err(e) => Err(e),
    }
}

/// The differences between the tree `old_tree_id`, if one is given, and the
/// tree `new_tree_id`. Without an old tree every path of the new tree was added.
pub fn diff_trees(
    repo_path: &FileTree,
    old_tree_id: Option<&str>,
    new_tree_id: &str,
    encryption_key: Option<&EncryptionKey>,
    compress: bool,
) -> (diffs: Result<Vec<DiffEntry>, StoreError>)
    requires
        repo_path.wf(),
    ensures
        match diffs {
            Ok(v) => diff_result(
                repo_path@,
                match old_tree_id {
                    Some(id) => Some(id@),
                    None => None,
                },
                new_tree_id@,
                key_view(encryption_key),
                compress,
            ) == Ok::<Seq<DiffView>, StoreError>(diff_views(v@)) && distinct_paths(diff_views(v@)),
            Err(e) => diff_result(
                repo_path@,
                match old_tree_id {
                    Some(id) => Some(id@),
                    None => None,
                },
                new_tree_id@,
                key_view(encryption_key),
                compress,
            ) == Err::<Seq<DiffView>, StoreError>(e),
        },
{
    let new_items = match parse_tree(repo_path, new_tree_id, encryption_key, compress) {
        Ok(items) => items,
        Err(e) => {
            return Err(e);
        },
    };
    match old_tree_id {
        Some(id) => match parse_tree(repo_path, id, encryption_key, compress) {
            Ok(old_items) => Ok(diff_items(Some(&old_items), &new_items)),
            Err(e) => Err(e),
        },
        None => Ok(diff_items(None, &new_items)),
    }
}

/// The id that a tree gives for a path is that of the one line for the path
/// that counts; a tree gives none where it has no line for the path.
pub proof fn lemma_lookup(items: Seq<ItemView>, path: Seq<char>)
    ensures
        lookup(items, path) matches Some(id) ==> exists|i: int|
            0 <= i < items.len() && #[trigger] counts(items, i) && items[i].path == path
                && items[i].id == id,
        lookup(items, path) is None ==> forall|i: int|
            0 <= i < items.len() ==> (#[trigger] items[i]).path != path,
        forall|i: int|
            0 <= i < items.len() && #[trigger] counts(items, i) && items[i].path == path
                ==> lookup(items, path) == Some(items[i].id),
    decreases items.len(),
{
    if items.len() > 0 {
        let front = items.drop_last();
        let last = items.len() - 1;
        lemma_lookup(front, path);
        assert(items.skip(last + 1) =~= Seq::<ItemView>::empty());
        if items.last().path == path {
            assert(counts(items, last));
            assert forall|i: int|
                0 <= i < items.len() && #[trigger] counts(items, i) && items[i].path
                    == path implies lookup(items, path) == Some(items[i].id) by {
                if i < last {
                    lemma_shadowed(items, i, last);
                }
            }
        } else {
            assert forall|i: int| 0 <= i < front.len() && items[i].path == path implies counts(
                front,
                i,
            ) == counts(items, i) by {
                lemma_counts_without_last(items, i);
            }
            if lookup(items, path) is Some {
                let i = choose|i: int|
                    0 <= i < front.len() && #[trigger] counts(front, i) && front[i].path == path
                        && front[i].id == lookup(front, path)->0;
                assert(counts(items, i) && items[i].path == path);
            } else {
                assert forall|i: int| 0 <= i < items.len() implies (#[trigger] items[i]).path
                    != path by {
                    if i < last {
                        assert(front[i].path != path);
                    }
                }
            }
            assert forall|i: int|
                0 <= i < items.len() && #[trigger] counts(items, i) && items[i].path
                    == path implies lookup(items, path) == Some(items[i].id) by {
                assert(i < last);
                assert(counts(front, i));
                assert(front[i] == items[i]);
            }
        }
    }
}

/// A line that is followed by a line for the same path does not count.
proof fn lemma_shadowed(items: Seq<ItemView>, i: int, j: int)
    requires
        0 <= i < j < items.len(),
        items[i].path == items[j].path,
    ensures
        !counts(items, i),
{
    let tail = items.skip(i + 1);
    lemma_lookup_finds(tail, items[i].path, j - i - 1);
}

/// A tree that has a line for a path gives an id for it.
proof fn lemma_lookup_finds(items: Seq<ItemView>, path: Seq<char>, j: int)
    requires
        0 <= j < items.len(),
        items[j].path == path,
    ensures
        lookup(items, path) is Some,
    decreases items.len(),
{
    if items.last().path != path {
        lemma_lookup_finds(items.drop_last(), path, j);
    }
}

/// Whether a line counts does not depend on a later line for another path.
proof fn lemma_counts_without_last(items: Seq<ItemView>, i: int)
    requires
        0 <= i < items.len() - 1,
        items.last().path != items[i].path,
    ensures
        counts(items.drop_last(), i) == counts(items, i),
{
    let tail = items.skip(i + 1);
    assert(tail.drop_last() =~= items.drop_last().skip(i + 1));
    assert(tail.last() == items.last());
}

/// What the first `k` lines of the new tree give rise to: the changes of
/// those lines among them that count.
pub proof fn lemma_changes(
    old_items: Option<Seq<ItemView>>,
    new_items: Seq<ItemView>,
    k: int,
    change: DiffView,
)
    requires
        0 <= k <= new_items.len(),
    ensures
        changes(old_items, new_items, k).contains(change) <==> exists|i: int|
            0 <= i < k && #[trigger] counts(new_items, i) && change_of(old_items, new_items[i])
                == Some(change),
    decreases k,
{
    if k > 0 {
        lemma_changes(old_items, new_items, k - 1, change);
        let before = changes(old_items, new_items, k - 1);
        let here = counts(new_items, k - 1) && change_of(old_items, new_items[k - 1]) == Some(
            change,
        );
        if counts(new_items, k - 1) && change_of(old_items, new_items[k - 1]) is Some {
            let added = change_of(old_items, new_items[k - 1])->0;
            assert(before.push(added).contains(change) <==> before.contains(change) || added
                == change) by {
                if before.contains(change) {
                    let j = choose|j: int| 0 <= j < before.len() && before[j] == change;
                    assert(before.push(added)[j] == change);
                }
                if added == change {
                    assert(before.push(added)[before.len() as int] == change);
                }
                if before.push(added).contains(change) {
                    let j = choose|j: int|
                        0 <= j < before.push(added).len() && before.push(added)[j] == change;
                    if j < before.len() {
                        assert(before[j] == change);
                    }
                }
            }
        }
        if changes(old_items, new_items, k).contains(change) {
            if before.contains(change) {
                let i = choose|i: int|
                    0 <= i < k - 1 && #[trigger] counts(new_items, i) && change_of(
                        old_items,
                        new_items[i],
                    ) == Some(change);
                assert(0 <= i < k && counts(new_items, i));
            } else {
                assert(here);
                assert(counts(new_items, k - 1));
            }
        }
        if exists|i: int|
            0 <= i < k && #[trigger] counts(new_items, i) && change_of(old_items, new_items[i])
                == Some(change) {
            let i = choose|i: int|
                0 <= i < k && #[trigger] counts(new_items, i) && change_of(
                    old_items,
                    new_items[i],
                ) == Some(change);
            if i < k - 1 {
                assert(before.contains(change));
            }
        }
    }
}

/// What the first `k` lines of the old tree give rise to: the deletions of
/// those lines among them that count.
pub proof fn lemma_deletions(
    old_items: Seq<ItemView>,
    new_items: Seq<ItemView>,
    k: int,
    change: DiffView,
)
    requires
        0 <= k <= old_items.len(),
    ensures
        deletions(old_items, new_items, k).contains(change) <==> exists|i: int|
            0 <= i < k && #[trigger] counts(old_items, i) && deletion_of(new_items, old_items[i])
                == Some(change),
    decreases k,
{
    if k > 0 {
        lemma_deletions(old_items, new_items, k - 1, change);
        let before = deletions(old_items, new_items, k - 1);
        let here = counts(old_items, k - 1) && deletion_of(new_items, old_items[k - 1]) == Some(
            change,
        );
        if counts(old_items, k - 1) && deletion_of(new_items, old_items[k - 1]) is Some {
            let added = deletion_of(new_items, old_items[k - 1])->0;
            assert(before.push(added).contains(change) <==> before.contains(change) || added
                == change) by {
                if before.contains(change) {
                    let j = choose|j: int| 0 <= j < before.len() && before[j] == change;
                    assert(before.push(added)[j] == change);
                }
                if added == change {
                    assert(before.push(added)[before.len() as int] == change);
                }
                if before.push(added).contains(change) {
                    let j = choose|j: int|
                        0 <= j < before.push(added).len() && before.push(added)[j] == change;
                    if j < before.len() {
                        assert(before[j] == change);
                    }
                }
            }
        }
        if deletions(old_items, new_items, k).contains(change) {
            if before.contains(change) {
                let i = choose|i: int|
                    0 <= i < k - 1 && #[trigger] counts(old_items, i) && deletion_of(
                        new_items,
                        old_items[i],
                    ) == Some(change);
                assert(0 <= i < k && counts(old_items, i));
            } else {
                assert(here);
                assert(counts(old_items, k - 1));
            }
        }
        if exists|i: int|
            0 <= i < k && #[trigger] counts(old_items, i) && deletion_of(new_items, old_items[i])
                == Some(change) {
            let i = choose|i: int|
                0 <= i < k && #[trigger] counts(old_items, i) && deletion_of(
                    new_items,
                    old_items[i],
                ) == Some(change);
            if i < k - 1 {
                assert(before.contains(change));
            }
        }
    }
}

/// What a difference must be to stand among the differences of two trees.
/// With `new_id` the id that the new tree gives for the path, and `old_id`
/// the id that the old tree gives, if there is an old tree: the path was
/// added where only the new tree gives an id, modified where both give one
/// and the two differ, and deleted where only the old tree gives one.
pub open spec fn is_difference(
    old_items: Option<Seq<ItemView>>,
    new_items: Seq<ItemView>,
    change: DiffView,
) -> bool {
    let new_id = lookup(new_items, change.path);
    let old_id = match old_items {
        Some(old_tree) => lookup(old_tree, change.path),
        None => None,
    };
    &&& change.new_id == new_id
    &&& change.old_id == old_id
    &&& match change.status {
        FileStatus::Added => new_id is Some && old_id is None,
        FileStatus::Modified => new_id is Some && old_id is Some && new_id != old_id,
        FileStatus::Deleted => new_id is None && old_id is Some,
    }
}

/// The differences of two trees are exactly what `is_difference` describes:
/// every path that was added, modified or deleted stands among them with
/// its ids, and nothing else does. A path that both trees give the same id
/// for does not stand among them.
pub proof fn lemma_diff_is_exact(
    old_items: Option<Seq<ItemView>>,
    new_items: Seq<ItemView>,
    change: DiffView,
)
    ensures
        diff_of(old_items, new_items).contains(change) <==> is_difference(
            old_items,
            new_items,
            change,
        ),
{
    let first = changes(old_items, new_items, new_items.len() as int);
    let second = match old_items {
        Some(old_tree) => deletions(old_tree, new_items, old_tree.len() as int),
        None => Seq::<DiffView>::empty(),
    };
    let all = diff_of(old_items, new_items);
    assert(all.contains(change) <==> first.contains(change) || second.contains(change)) by {
        if first.contains(change) {
            let j = choose|j: int| 0 <= j < first.len() && first[j] == change;
            assert(all[j] == change);
        }
        if second.contains(change) {
            let j = choose|j: int| 0 <= j < second.len() && second[j] == change;
            assert(all[first.len() + j] == change);
        }
        if all.contains(change) {
            let j = choose|j: int| 0 <= j < all.len() && all[j] == change;
            if j < first.len() {
                assert(first[j] == change);
            } else {
                assert(second[j - first.len()] == change);
            }
        }
    }
    lemma_changes(old_items, new_items, new_items.len() as int, change);
    lemma_lookup(new_items, change.path);
    match old_items {
        Some(old_tree) => {
            lemma_deletions(old_tree, new_items, old_tree.len() as int, change);
            lemma_lookup(old_tree, change.path);
        },
        None => {},
    }
    if first.contains(change) {
        let i = choose|i: int|
            0 <= i < new_items.len() && #[trigger] counts(new_items, i) && change_of(
                old_items,
                new_items[i],
            ) == Some(change);
        assert(new_items[i].path == change.path);
        assert(is_difference(old_items, new_items, change));
    }
    if second.contains(change) {
        let old_tree = old_items->0;
        let i = choose|i: int|
            0 <= i < old_tree.len() && #[trigger] counts(old_tree, i) && deletion_of(
                new_items,
                old_tree[i],
            ) == Some(change);
        assert(old_tree[i].path == change.path);
        assert(is_difference(old_items, new_items, change));
    }
    if is_difference(old_items, new_items, change) {
        if change.status == FileStatus::Deleted {
            let old_tree = old_items->0;
            let i = choose|i: int|
                0 <= i < old_tree.len() && #[trigger] counts(old_tree, i) && old_tree[i].path
                    == change.path && old_tree[i].id == lookup(old_tree, change.path)->0;
            assert(deletion_of(new_items, old_tree[i]) == Some(change));
        } else {
            let i = choose|i: int|
                0 <= i < new_items.len() && #[trigger] counts(new_items, i) && new_items[i].path
                    == change.path && new_items[i].id == lookup(new_items, change.path)->0;
            assert(change_of(old_items, new_items[i]) == Some(change));
        }
    }
}

/// Whether no path occurs twice among `diffs`.
pub open spec fn distinct_paths(diffs: Seq<DiffView>) -> bool {
    forall|a: int, b: int|
        0 <= a < b < diffs.len() ==> (#[trigger] diffs[a]).path != (#[trigger] diffs[b]).path
}

/// Of two lines for one path, at most one counts.
proof fn lemma_counting_lines_differ(items: Seq<ItemView>, i: int, j: int)
    requires
        0 <= i < items.len(),
        0 <= j < items.len(),
        i != j,
        counts(items, i),
        counts(items, j),
    ensures
        items[i].path != items[j].path,
{
    if items[i].path == items[j].path {
        if i < j {
            lemma_shadowed(items, i, j);
        } else {
            lemma_shadowed(items, j, i);
        }
    }
}

/// No path occurs twice among what the first `k` lines of the new tree give rise to.
pub proof fn lemma_changes_distinct(
    old_items: Option<Seq<ItemView>>,
    new_items: Seq<ItemView>,
    k: int,
)
    requires
        0 <= k <= new_items.len(),
    ensures
        distinct_paths(changes(old_items, new_items, k)),
    decreases k,
{
    if k > 0 {
        lemma_changes_distinct(old_items, new_items, k - 1);
        let before = changes(old_items, new_items, k - 1);
        let here = changes(old_items, new_items, k);
        if counts(new_items, k - 1) && change_of(old_items, new_items[k - 1]) is Some {
            let added = change_of(old_items, new_items[k - 1])->0;
            assert(here == before.push(added));
            assert forall|a: int, b: int| 0 <= a < b < here.len() implies (#[trigger] here[a]).path
                != (#[trigger] here[b]).path by {
                if b < before.len() {
                    assert(here[a] == before[a] && here[b] == before[b]);
                } else {
                    assert(here[a] == before[a]);
                    assert(before.contains(before[a]));
                    lemma_changes(old_items, new_items, k - 1, before[a]);
                    let i = choose|i: int|
                        0 <= i < k - 1 && #[trigger] counts(new_items, i) && change_of(
                            old_items,
                            new_items[i],
                        ) == Some(before[a]);
                    assert(before[a].path == new_items[i].path);
                    assert(added.path == new_items[k - 1].path);
                    lemma_counting_lines_differ(new_items, i, k - 1);
                }
            }
        }
    }
}

/// No path occurs twice among what the first `k` lines of the old tree give rise to.
pub proof fn lemma_deletions_distinct(old_items: Seq<ItemView>, new_items: Seq<ItemView>, k: int)
    requires
        0 <= k <= old_items.len(),
    ensures
        distinct_paths(deletions(old_items, new_items, k)),
    decreases k,
{
    if k > 0 {
        lemma_deletions_distinct(old_items, new_items, k - 1);
        let before = deletions(old_items, new_items, k - 1);
        let here = deletions(old_items, new_items, k);
        if counts(old_items, k - 1) && deletion_of(new_items, old_items[k - 1]) is Some {
            let added = deletion_of(new_items, old_items[k - 1])->0;
            assert(here == before.push(added));
            assert forall|a: int, b: int| 0 <= a < b < here.len() implies (#[trigger] here[a]).path
                != (#[trigger] here[b]).path by {
                if b < before.len() {
                    assert(here[a] == before[a] && here[b] == before[b]);
                } else {
                    assert(here[a] == before[a]);
                    assert(before.contains(before[a]));
                    lemma_deletions(old_items, new_items, k - 1, before[a]);
                    let i = choose|i: int|
                        0 <= i < k - 1 && #[trigger] counts(old_items, i) && deletion_of(
                            new_items,
                            old_items[i],
                        ) == Some(before[a]);
                    assert(before[a].path == old_items[i].path);
                    assert(added.path == old_items[k - 1].path);
                    lemma_counting_lines_differ(old_items, i, k - 1);
                }
            }
        }
    }
}

/// No path occurs twice among the differences of two trees: each path was
/// added, modified or deleted, or it is left out.
pub proof fn lemma_diff_paths_distinct(old_items: Option<Seq<ItemView>>, new_items: Seq<ItemView>)
    ensures
        distinct_paths(diff_of(old_items, new_items)),
{
    let first = changes(old_items, new_items, new_items.len() as int);
    let second = match old_items {
        Some(old_tree) => deletions(old_tree, new_items, old_tree.len() as int),
        None => Seq::<DiffView>::empty(),
    };
    let all = diff_of(old_items, new_items);
    lemma_changes_distinct(old_items, new_items, new_items.len() as int);
    if old_items is Some {
        lemma_deletions_distinct(old_items->0, new_items, old_items->0.len() as int);
    }
    assert forall|a: int, b: int| 0 <= a < b < all.len() implies (#[trigger] all[a]).path != (
    #[trigger] all[b]).path by {
        if b < first.len() {
            assert(all[a] == first[a] && all[b] == first[b]);
        } else if a >= first.len() {
            assert(all[a] == second[a - first.len()] && all[b] == second[b - first.len()]);
        } else {
            assert(all[a] == first[a]);
            assert(all[b] == second[b - first.len()]);
            assert(all.contains(all[a]));
            assert(all.contains(all[b]));
            lemma_diff_is_exact(old_items, new_items, all[a]);
            lemma_diff_is_exact(old_items, new_items, all[b]);
            assert(first.contains(first[a]));
            lemma_changes(old_items, new_items, new_items.len() as int, first[a]);
            assert(first[a].status != FileStatus::Deleted);
            let old_tree = old_items->0;
            assert(second.contains(second[b - first.len()]));
            lemma_deletions(old_tree, new_items, old_tree.len() as int, second[b - first.len()]);
            assert(second[b - first.len()].status == FileStatus::Deleted);
        }
    }
}

} // verus!
