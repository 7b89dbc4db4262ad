//! Commits: a tree, its parents, who made it, and why.
//!
//! A commit is kept as text: a line `tree <id>`, one line `parent <id>` for
//! each parent in the order in which they were given, a line `author` and a
//! line `committer`, each with a time stamp and the offset `+0000`, an empty
//! line, and the message, which is written with exactly one line feed at its
//! end, however many it was given with.

use crate::bytes::find_char;
use crate::bytes::first_index;
use crate::bytes::lemma_first_index;
use crate::bytes::lemma_first_index_unique;
use crate::errors::StoreError;
use crate::native_git::objects::object_id;
use crate::native_git::objects::GitObject;
use crate::native_git::objects::ObjectType;
use crate::native_git::objects::ObjectView;
use crate::text::closed_text;
use crate::text::has_prefix_at;
use crate::text::int_text;
use crate::text::int_to_string;
use crate::text::lemma_int_text_chars;
use crate::text::lemma_trim_closed_text;
use crate::text::texts_of;
use crate::text::to_chars;
use crate::text::trim_end;
use crate::text::trim_end_index;
use crate::text::utf8_str;
use vstd::prelude::*;
use vstd::string::*;
use vstd::utf8::*;

verus! {

/// The name that a commit carries where none is given.
pub open spec fn default_identity() -> Seq<char> {
    "TriForge User <user@triforge.local>"@
}

/// The word that opens the line of the tree.
pub open spec fn tree_key() -> Seq<char> {
    seq!['t', 'r', 'e', 'e', ' ']
}

/// The word that opens the line of a parent.
pub open spec fn parent_key() -> Seq<char> {
    seq!['p', 'a', 'r', 'e', 'n', 't', ' ']
}

/// The word that opens the line of the author.
pub open spec fn author_key() -> Seq<char> {
    seq!['a', 'u', 't', 'h', 'o', 'r', ' ']
}

/// The word that opens the line of the committer.
pub open spec fn committer_key() -> Seq<char> {
    seq!['c', 'o', 'm', 'm', 'i', 't', 't', 'e', 'r', ' ']
}

/// The offset that follows every time stamp: the time is given in UTC.
pub open spec fn utc_offset() -> Seq<char> {
    seq![' ', '+', '0', '0', '0', '0']
}

/// A commit under construction, as a mathematical value.
pub struct CommitView {
    pub tree: Seq<char>,
    pub parents: Seq<Seq<char>>,
    pub author: Seq<char>,
    pub committer: Seq<char>,
    pub message: Seq<char>,
}

/// What is read out of a commit, as a mathematical value.
pub struct ParsedView {
    pub tree: Seq<char>,
    pub parents: Seq<Seq<char>>,
    pub author: Seq<char>,
    pub message: Seq<char>,
}

/// One line `parent <id>` for each parent, in order.
pub open spec fn parent_lines(parents: Seq<Seq<char>>) -> Seq<char>
    decreases parents.len(),
{
    if parents.len() == 0 {
        Seq::empty()
    } else {
        parent_lines(parents.drop_last()) + parent_key() + parents.last() + seq!['\n']
    }
}

/// Who and when: the name, the time stamp in seconds, and the offset.
pub open spec fn signature(who: Seq<char>, timestamp: int) -> Seq<char> {
    who + seq![' '] + int_text(timestamp) + utc_offset()
}

/// The message as it is written: with exactly one line feed at its end,
/// however many it ends in as it was given.
pub open spec fn closed_message(message: Seq<char>) -> Seq<char> {
    closed_text(message)
}

/// The lines that precede the empty line, for a commit made at `timestamp`.
pub open spec fn header_text(commit: CommitView, timestamp: int) -> Seq<char> {
    tree_key() + commit.tree + seq!['\n'] + parent_lines(commit.parents) + author_key()
        + signature(commit.author, timestamp) + seq!['\n'] + committer_key() + signature(
        commit.committer,
        timestamp,
    ) + seq!['\n']
}

/// The text of a commit made at `timestamp`.
pub open spec fn commit_text(commit: CommitView, timestamp: int) -> Seq<char> {
    header_text(commit, timestamp) + seq!['\n'] + closed_message(commit.message)
}

/// Where the line that begins at `pos` ends: at the next line feed, or at the end of the text.
pub open spec fn line_end(text: Seq<char>, pos: int) -> int {
    pos + first_index(text.skip(pos), '\n')
}

/// The line that begins at `pos`, without the line feed that ends it and
/// without a carriage return just before that line feed.
pub open spec fn line_at(text: Seq<char>, pos: int) -> Seq<char> {
    let end = line_end(text, pos);
    if end < text.len() && pos < end && text[end - 1] == '\r' {
        text.subrange(pos, end - 1)
    } else {
        text.subrange(pos, end)
    }
}

/// Where the line after the one at `pos` begins.
pub open spec fn next_line(text: Seq<char>, pos: int) -> int {
    if line_end(text, pos) < text.len() {
        line_end(text, pos) + 1
    } else {
        text.len() as int
    }
}

/// What has been read of a header so far.
pub struct HeaderView {
    pub tree: Option<Seq<char>>,
    pub parents: Seq<Seq<char>>,
    pub author: Option<Seq<char>>,
    /// Where the message begins.
    pub body: int,
}

/// The header with one more line taken in. Of several `tree` lines the last
/// counts, of several `author` lines the first; a line that begins with none
/// of the three words is passed over.
pub open spec fn with_line(header: HeaderView, line: Seq<char>) -> HeaderView {
    if tree_key().is_prefix_of(line) {
        HeaderView { tree: Some(line.skip(5)), ..header }
    } else if parent_key().is_prefix_of(line) {
        HeaderView { parents: header.parents.push(line.skip(7)), ..header }
    } else if author_key().is_prefix_of(line) && header.author is None {
        HeaderView { author: Some(line.skip(7)), ..header }
    } else {
        header
    }
}

/// The header that is read from `pos` on, line by line up to the first empty
/// line. The message begins after that line; where there is none, the
/// message is empty.
pub open spec fn scan_header(text: Seq<char>, pos: int, header: HeaderView) -> HeaderView
    decreases text.len() - pos,
{
    if pos < 0 || pos >= text.len() {
        HeaderView { body: text.len() as int, ..header }
    } else if line_at(text, pos).len() == 0 {
        HeaderView { body: next_line(text, pos), ..header }
    } else {
        proof {
            lemma_first_index(text.skip(pos), '\n');
        }
        scan_header(text, next_line(text, pos), with_line(header, line_at(text, pos)))
    }
}

/// A header of which nothing has been read.
pub open spec fn empty_header() -> HeaderView {
    HeaderView { tree: None, parents: Seq::empty(), author: None, body: 0 }
}

/// What the text of a commit is read as: the tree and the first author are
/// required; the message is everything after the first empty line, without
/// the white space at its end.
pub open spec fn parse_text(text: Seq<char>) -> Result<ParsedView, StoreError> {
    let header = scan_header(text, 0, empty_header());
    if header.tree is None || header.author is None {
        Err(StoreError::InvalidFormat)
    } else {
        Ok(
            ParsedView {
                tree: header.tree->0,
                parents: header.parents,
                author: header.author->0,
                message: trim_end(text.skip(header.body)),
            },
        )
    }
}

/// What `CommitBuilder::parse` returns for `object`.
pub open spec fn parse_result(object: ObjectView) -> Result<ParsedView, StoreError> {
    if object.obj_type != ObjectType::Commit {
        Err(StoreError::TypeMismatch)
    } else if !valid_utf8(object.content) {
        Err(StoreError::InvalidFormat)
    } else {
        parse_text(decode_utf8(object.content))
    }
}

/// What is read out of a commit.
#[derive(Debug)]
pub struct ParsedCommit {
    pub tree: String,
    pub parents: Vec<String>,
    pub author: String,
    pub message: String,
}

impl View for ParsedCommit {
    type V = ParsedView;

    open spec fn view(&self) -> ParsedView {
        ParsedView {
            tree: self.tree@,
            parents: texts_of(self.parents@),
            author: self.author@,
            message: self.message@,
        }
    }
}

/// A commit under construction.
pub struct CommitBuilder {
    tree: String,
    parents: Vec<String>,
    author: String,
    committer: String,
    message: String,
    timestamp: Option<i64>,
}

impl View for CommitBuilder {
    type V = CommitView;

    closed spec fn view(&self) -> CommitView {
        CommitView {
            tree: self.tree@,
            parents: texts_of(self.parents@),
            author: self.author@,
            committer: self.committer@,
            message: self.message@,
        }
    }
}

impl CommitBuilder {
    /// The time stamp that the commit is to carry, where one was fixed.
    /// Where none was, the commit is stamped with the time at which it is built.
    pub closed spec fn stamp(self) -> Option<int> {
        match self.timestamp {
            Some(t) => Some(t as int),
            None => None,
        }
    }

    /// A commit of `tree` with the given message, without parents, made by
    /// the default identity. No time stamp is fixed for it: it is stamped
    /// with the time that `build` is given.
    pub fn new(tree: String, message: String) -> (builder: CommitBuilder)
        ensures
            builder@ == (CommitView {
                tree: tree@,
                parents: Seq::empty(),
                author: default_identity(),
                committer: default_identity(),
                message: message@,
            }),
            builder.stamp() is None,
    {
        let builder = CommitBuilder {
            tree,
            parents: Vec::new(),
            author: "TriForge User <user@triforge.local>".to_string(),
            committer: "TriForge User <user@triforge.local>".to_string(),
            message,
            timestamp: None,
        };
        assert(texts_of(builder.parents@) =~= Seq::<Seq<char>>::empty());
        builder
    }

    /// A commit of `tree` with the given message and time stamp, without
    /// parents, made by the default identity.
    pub fn new_at(tree: String, message: String, timestamp: i64) -> (builder: CommitBuilder)
        ensures
            builder@ == (CommitView {
                tree: tree@,
                parents: Seq::empty(),
                author: default_identity(),
                committer: default_identity(),
                message: message@,
            }),
            builder.stamp() == Some(timestamp as int),
    {
        let mut builder = CommitBuilder::new(tree, message);
        builder.timestamp = Some(timestamp);
        builder
    }

    /// Adds a parent after those already given.
    pub fn parent(self, parent: String) -> (builder: CommitBuilder)
        ensures
            builder@ == (CommitView { parents: self@.parents.push(parent@), ..self@ }),
            builder.stamp() == self.stamp(),
    {
        let mut builder = self;
        let ghost before = builder@;
        builder.parents.push(parent);
        assert(texts_of(builder.parents@) =~= before.parents.push(parent@));
        builder
    }

    /// Sets the author.
    pub fn author(self, author: String) -> (builder: CommitBuilder)
        ensures
            builder@ == (CommitView { author: author@, ..self@ }),
            builder.stamp() == self.stamp(),
    {
        let mut builder = self;
        builder.author = author;
        builder
    }

    /// Sets the committer.
    pub fn committer(self, committer: String) -> (builder: CommitBuilder)
        ensures
            builder@ == (CommitView { committer: committer@, ..self@ }),
            builder.stamp() == self.stamp(),
    {
        let mut builder = self;
        builder.committer = committer;
        builder
    }

    /// The time stamp of a commit that is built at the time `now`: the one
    /// that was fixed for it, or `now` where none was.
    pub open spec fn stamp_at(self, now: int) -> int {
        match self.stamp() {
            Some(fixed) => fixed,
            None => now,
        }
    }

    /// The commit object: its content is the UTF-8 encoding of the commit's
    /// text. `now` is the time at which the commit is built, in seconds since
    /// the start of 1970; the caller reads it from the clock. The commit
    /// carries the time stamp that was fixed for it, and `now` where none was.
    pub fn build(self, now: i64) -> (object: Result<GitObject, StoreError>)
        ensures
            object matches Ok(o) && o.obj_type == ObjectType::Commit && o.content@ == encode_utf8(
                commit_text(self@, self.stamp_at(now as int)),
            ) && o.hash@ == object_id(ObjectType::Commit, o.content@),
    {
        let timestamp = match self.timestamp {
            Some(fixed) => fixed,
            None => now,
        };
        self.build_at(timestamp)
    }

    /// The commit object for a commit made at `timestamp`, whatever time
    /// stamp was fixed for it.
    pub fn build_at(self, timestamp: i64) -> (object: Result<GitObject, StoreError>)
        ensures
            object matches Ok(o) && o.obj_type == ObjectType::Commit && o.content@ == encode_utf8(
                commit_text(self@, timestamp as int),
            ) && o.hash@ == object_id(ObjectType::Commit, o.content@),
    {
        proof {
            reveal_strlit("tree ");
            reveal_strlit("parent ");
            reveal_strlit("author ");
            reveal_strlit("committer ");
            reveal_strlit(" +0000");
            reveal_strlit(" ");
            reveal_strlit("\n");
        }
        let mut content = "tree ".to_string();
        content.append(self.tree.as_str());
        content.append("\n");
        let ghost start = content@;
        assert(start =~= tree_key() + self@.tree + seq!['\n']);
        let mut i: usize = 0;
        assert(texts_of(self.parents@).take(0) =~= Seq::<Seq<char>>::empty());
        while i < self.parents.len()
            invariant
                i <= self.parents@.len(),
                content@ == start + parent_lines(texts_of(self.parents@).take(i as int)),
            decreases self.parents@.len() - i,
        {
            proof {
                reveal_strlit("parent ");
                reveal_strlit("\n");
                let all = texts_of(self.parents@);
                assert(all.take(i + 1).drop_last() =~= all.take(i as int));
                assert(all.take(i + 1).last() == self.parents@[i as int]@);
            }
            let ghost before = content@;
            content.append("parent ");
            content.append(self.parents[i].as_str());
            content.append("\n");
            assert(content@ =~= before + parent_key() + self.parents@[i as int]@ + seq!['\n']);
            i += 1;
        }
        assert(texts_of(self.parents@).take(i as int) =~= texts_of(self.parents@));
        let stamp = int_to_string(timestamp);
        content.append("author ");
        content.append(self.author.as_str());
        content.append(" ");
        content.append(stamp.as_str());
        content.append(" +0000");
        content.append("\n");
        content.append("committer ");
        content.append(self.committer.as_str());
        content.append(" ");
        content.append(stamp.as_str());
        content.append(" +0000");
        content.append("\n");
        assert(content@ =~= header_text(self@, timestamp as int));
        content.append("\n");
        let message = crate::text::closed(self.message.as_str());
        content.append(message.as_str());
        assert(content@ =~= commit_text(self@, timestamp as int));
        let bytes = content.as_str().as_bytes_vec();
        Ok(GitObject::new(ObjectType::Commit, bytes))
    }

    /// Takes the text of a commit apart.
    pub fn parse_chars(text: &str) -> (parsed: Result<ParsedCommit, StoreError>)
        ensures
            match parsed {
                Ok(p) => parse_text(text@) == Ok::<ParsedView, StoreError>(p@),
                Err(e) => parse_text(text@) == Err::<ParsedView, StoreError>(e),
            },
    {
        proof {
            reveal_strlit("tree ");
            reveal_strlit("parent ");
            reveal_strlit("author ");
        }
        let chars = to_chars(text);
        let tree_word = to_chars("tree ");
        let parent_word = to_chars("parent ");
        let author_word = to_chars("author ");
        assert(tree_word@ =~= tree_key());
        assert(parent_word@ =~= parent_key());
        assert(author_word@ =~= author_key());
        let n = chars.len();
        let mut tree: Option<String> = None;
        let mut parents: Vec<String> = Vec::new();
        let mut author: Option<String> = None;
        let mut body: usize = n;
        let mut pos: usize = 0;
        let mut scanning = true;
        assert(texts_of(parents@) =~= Seq::<Seq<char>>::empty());
        let ghost mut header = empty_header();
        while scanning && pos < n
            invariant
                chars@ == text@,
                n == chars@.len(),
                pos <= n,
                tree_word@ == tree_key(),
                parent_word@ == parent_key(),
                author_word@ == author_key(),
                header.tree == match tree {
                    Some(t) => Some(t@),
                    None => None,
                },
                header.author == match author {
                    Some(a) => Some(a@),
                    None => None,
                },
                header.parents == texts_of(parents@),
                scanning ==> body == n && scan_header(text@, 0, empty_header()) == scan_header(
                    text@,
                    pos as int,
                    header,
                ),
                !scanning ==> body <= n && scan_header(text@, 0, empty_header()) == (HeaderView {
                    body: body as int,
                    ..header
                }),
            decreases (if scanning { 1int } else { 0int }), n - pos,
        {
            let end = find_char(chars.as_slice(), pos, '\n');
            let stop = if end < n && pos < end && chars[end - 1] == '\r' {
                end - 1
            } else {
                end
            };
            let next = if end < n {
                end + 1
            } else {
                n
            };
            proof {
                lemma_first_index(text@.skip(pos as int), '\n');
                assert(line_at(text@, pos as int) =~= chars@.subrange(pos as int, stop as int));
            }
            let ghost line = chars@.subrange(pos as int, stop as int);
            if stop == pos {
                body = next;
                scanning = false;
            } else {
                if has_prefix_at(chars.as_slice(), pos, stop, tree_word.as_slice()) {
                    tree = Some(text.substring_char(pos + 5, stop).to_string());
                    proof {
                        assert(line.skip(5) =~= text@.subrange(pos + 5, stop as int));
                        header = with_line(header, line);
                    }
                } else if has_prefix_at(chars.as_slice(), pos, stop, parent_word.as_slice()) {
                    let parent = text.substring_char(pos + 7, stop).to_string();
                    proof {
                        assert(line.skip(7) =~= text@.subrange(pos + 7, stop as int));
                        assert(texts_of(parents@.push(parent)) =~= texts_of(parents@).push(
                            parent@,
                        ));
                        header = with_line(header, line);
                    }
                    parents.push(parent);
                } else if has_prefix_at(chars.as_slice(), pos, stop, author_word.as_slice())
                    && author.is_none() {
                    author = Some(text.substring_char(pos + 7, stop).to_string());
                    proof {
                        assert(line.skip(7) =~= text@.subrange(pos + 7, stop as int));
                        header = with_line(header, line);
                    }
                } else {
                    proof {
                        header = with_line(header, line);
                    }
                }
                pos = next;
            }
        }
        let tree = match tree {
            Some(tree) => tree,
            None => {
                return Err(StoreError::InvalidFormat);
            },
        };
        let author = match author {
            Some(author) => author,
            None => {
                return Err(StoreError::InvalidFormat);
            },
        };
        let stop = trim_end_index(chars.as_slice(), body, n);
        proof {
            let rest = text@.skip(body as int);
            assert(rest =~= chars@.subrange(body as int, n as int));
            assert(trim_end(rest) =~= text@.subrange(body as int, stop as int));
        }
        let message = text.substring_char(body, stop).to_string();
        Ok(ParsedCommit { tree, parents, author, message })
    }

    /// What a commit object holds. An object of another kind is
    /// `TypeMismatch`; content that is not UTF-8, or that lacks the tree or
    /// the author, is `InvalidFormat`.
    pub fn parse(obj: &GitObject) -> (parsed: Result<ParsedCommit, StoreError>)
        ensures
            match parsed {
                Ok(p) => parse_result(obj@) == Ok::<ParsedView, StoreError>(p@),
                Err(e) => parse_result(obj@) == Err::<ParsedView, StoreError>(e),
            },
    {
        if obj.obj_type != ObjectType::Commit {
            return Err(StoreError::TypeMismatch);
        }
        match utf8_str(obj.content.as_slice()) {
            Some(text) => {
                proof {
                    encode_utf8_decode_utf8(text@);
                }
                CommitBuilder::parse_chars(text)
            },
            None => Err(StoreError::InvalidFormat),
        }
    }
}

/// Whether `line` can stand as one line of a header and be read back as it
/// is: it is not empty, holds no line feed, and does not end in a carriage return.
pub open spec fn is_header_line(line: Seq<char>) -> bool {
    line.len() > 0 && !line.contains('\n') && line.last() != '\r'
}

/// The lines, each closed by a line feed, one after the other.
pub open spec fn lines_text(lines: Seq<Seq<char>>) -> Seq<char>
    decreases lines.len(),
{
    if lines.len() == 0 {
        Seq::empty()
    } else {
        lines[0] + seq!['\n'] + lines_text(lines.drop_first())
    }
}

/// The header after the lines are taken in, in order.
pub open spec fn with_lines(header: HeaderView, lines: Seq<Seq<char>>) -> HeaderView
    decreases lines.len(),
{
    if lines.len() == 0 {
        header
    } else {
        with_lines(with_line(header, lines[0]), lines.drop_first())
    }
}

/// Appending one line appends its text, and takes it in last.
pub proof fn lemma_lines_push(header: HeaderView, lines: Seq<Seq<char>>, line: Seq<char>)
    ensures
        lines_text(lines.push(line)) == lines_text(lines) + line + seq!['\n'],
        with_lines(header, lines.push(line)) == with_line(with_lines(header, lines), line),
    decreases lines.len(),
{
    let all = lines.push(line);
    if lines.len() == 0 {
        assert(all.drop_first() =~= Seq::<Seq<char>>::empty());
        assert(lines_text(all.drop_first()) =~= Seq::<char>::empty());
        assert(lines_text(lines) =~= Seq::<char>::empty());
        assert(lines_text(all) =~= lines_text(lines) + line + seq!['\n']);
        assert(with_lines(with_line(header, line), all.drop_first()) == with_line(header, line));
    } else {
        assert(all.drop_first() =~= lines.drop_first().push(line));
        lemma_lines_push(with_line(header, lines[0]), lines.drop_first(), line);
        assert(lines_text(all) =~= lines_text(lines) + line + seq!['\n']);
    }
}

/// A header line that stands in a text between `before` and a line feed is
/// read as it is, and the next line begins after that line feed.
pub proof fn lemma_line_in_text(before: Seq<char>, line: Seq<char>, after: Seq<char>)
    requires
        !line.contains('\n'),
        line.len() == 0 || line.last() != '\r',
    ensures
        line_at(before + line + seq!['\n'] + after, before.len() as int) == line,
        next_line(before + line + seq!['\n'] + after, before.len() as int) == before.len()
            + line.len() + 1,
{
    let text = before + line + seq!['\n'] + after;
    let pos = before.len() as int;
    let tail = text.skip(pos);
    assert(tail =~= line + seq!['\n'] + after);
    assert forall|j: int| 0 <= j < line.len() implies tail[j] != '\n' by {
        assert(tail[j] == line[j]);
        assert(line.contains(line[j]));
    }
    assert(tail[line.len() as int] == '\n');
    lemma_first_index_unique(tail, '\n', line.len() as int);
    let end = pos + line.len();
    assert(text.subrange(pos, end) =~= line);
    if line.len() > 0 {
        assert(text[end - 1] == line.last());
    }
}

/// Header lines that stand in a text are taken in one after the other.
pub proof fn lemma_scan_lines(
    before: Seq<char>,
    lines: Seq<Seq<char>>,
    after: Seq<char>,
    header: HeaderView,
)
    requires
        forall|i: int| 0 <= i < lines.len() ==> is_header_line(#[trigger] lines[i]),
    ensures
        scan_header(before + lines_text(lines) + after, before.len() as int, header) == scan_header(
            before + lines_text(lines) + after,
            (before.len() + lines_text(lines).len()) as int,
            with_lines(header, lines),
        ),
    decreases lines.len(),
{
    let text = before + lines_text(lines) + after;
    if lines.len() == 0 {
        assert(lines_text(lines) =~= Seq::<char>::empty());
    } else {
        let line = lines[0];
        let rest = lines.drop_first();
        assert(is_header_line(line));
        assert forall|i: int| 0 <= i < rest.len() implies is_header_line(#[trigger] rest[i]) by {
            assert(rest[i] == lines[i + 1]);
        }
        let tail = lines_text(rest) + after;
        assert(text =~= before + line + seq!['\n'] + tail);
        lemma_line_in_text(before, line, tail);
        let before2 = before + line + seq!['\n'];
        assert(text =~= before2 + lines_text(rest) + after);
        lemma_scan_lines(before2, rest, after, with_line(header, line));
        assert(before2.len() + lines_text(rest).len() == before.len() + lines_text(lines).len());
    }
}

/// The lines `parent <id>`, one for each parent.
pub open spec fn parent_line_texts(parents: Seq<Seq<char>>) -> Seq<Seq<char>> {
    parents.map_values(|p: Seq<char>| parent_key() + p)
}

/// The lines of a commit's header.
pub open spec fn header_lines(commit: CommitView, timestamp: int) -> Seq<Seq<char>> {
    seq![tree_key() + commit.tree] + parent_line_texts(commit.parents)
        + seq![
        author_key() + signature(commit.author, timestamp),
        committer_key() + signature(commit.committer, timestamp),
    ]
}

/// Whether a commit is read back as it was built: no line feed in its tree,
/// its parents, its author or its committer, and no carriage return at the
/// end of its tree or of a parent.
pub open spec fn reads_back(commit: CommitView) -> bool {
    &&& !commit.tree.contains('\n')
    &&& commit.tree.len() == 0 || commit.tree.last() != '\r'
    &&& forall|i: int|
        0 <= i < commit.parents.len() ==> !(#[trigger] commit.parents[i]).contains('\n') && (
        commit.parents[i].len() == 0 || commit.parents[i].last() != '\r')
    &&& !commit.author.contains('\n')
    &&& !commit.committer.contains('\n')
}

/// A signature holds a line feed only where the name holds one, and it ends in a digit.
proof fn lemma_signature(who: Seq<char>, timestamp: int)
    requires
        !who.contains('\n'),
    ensures
        !signature(who, timestamp).contains('\n'),
        signature(who, timestamp).len() > 0,
        signature(who, timestamp).last() == '0',
{
    let stamp = int_text(timestamp);
    let sig = signature(who, timestamp);
    lemma_int_text_chars(timestamp);
    assert forall|i: int| 0 <= i < sig.len() implies sig[i] != '\n' by {
        if i < who.len() {
            assert(sig[i] == who[i]);
            assert(who.contains(who[i]));
        } else if i == who.len() {
        } else if i < who.len() + 1 + stamp.len() {
            assert(sig[i] == stamp[i - who.len() - 1]);
        } else {
            assert(sig[i] == utc_offset()[i - who.len() - 1 - stamp.len()]);
        }
    }
    assert(sig.last() == utc_offset()[5]);
}

/// A line made of a key and a value that holds no line feed holds none.
proof fn lemma_keyed_line(key: Seq<char>, value: Seq<char>)
    requires
        key.len() > 0,
        !key.contains('\n'),
        !value.contains('\n'),
        value.len() == 0 || value.last() != '\r',
        key.last() != '\r',
    ensures
        is_header_line(key + value),
        key.is_prefix_of(key + value),
        (key + value).skip(key.len() as int) == value,
{
    let line = key + value;
    assert forall|i: int| 0 <= i < line.len() implies line[i] != '\n' by {
        if i < key.len() {
            assert(line[i] == key[i]);
            assert(key.contains(key[i]));
        } else {
            assert(line[i] == value[i - key.len()]);
            assert(value.contains(value[i - key.len()]));
        }
    }
    if value.len() > 0 {
        assert(line.last() == value.last());
    } else {
        assert(line.last() == key.last());
    }
    assert(line.subrange(0, key.len() as int) =~= key);
    assert(line.skip(key.len() as int) =~= value);
}

/// The keys hold no line feed and differ in their first letter.
proof fn lemma_keys()
    ensures
        !tree_key().contains('\n'),
        !parent_key().contains('\n'),
        !author_key().contains('\n'),
        !committer_key().contains('\n'),
{
    assert forall|i: int| 0 <= i < tree_key().len() implies tree_key()[i] != '\n' by {}
    assert forall|i: int| 0 <= i < parent_key().len() implies parent_key()[i] != '\n' by {}
    assert forall|i: int| 0 <= i < author_key().len() implies author_key()[i] != '\n' by {}
    assert forall|i: int| 0 <= i < committer_key().len() implies committer_key()[i] != '\n' by {}
}

/// The parent lines are the text of the lines `parent <id>`, and taking them
/// in adds the parents in order.
proof fn lemma_parent_lines(header: HeaderView, parents: Seq<Seq<char>>)
    requires
        forall|i: int|
            0 <= i < parents.len() ==> !(#[trigger] parents[i]).contains('\n') && (parents[i].len()
                == 0 || parents[i].last() != '\r'),
    ensures
        parent_lines(parents) == lines_text(parent_line_texts(parents)),
        with_lines(header, parent_line_texts(parents)) == (HeaderView {
            parents: header.parents + parents,
            ..header
        }),
        forall|i: int|
            0 <= i < parents.len() ==> is_header_line(
                #[trigger] parent_line_texts(parents)[i],
            ),
    decreases parents.len(),
{
    let lines = parent_line_texts(parents);
    lemma_keys();
    if parents.len() == 0 {
        assert(lines_text(lines) =~= Seq::<char>::empty());
        assert(header.parents + parents =~= header.parents);
    } else {
        let front = parents.drop_last();
        let last = parents.last();
        let front_lines = parent_line_texts(front);
        assert forall|i: int| 0 <= i < front.len() implies !(#[trigger] front[i]).contains('\n')
            && (front[i].len() == 0 || front[i].last() != '\r') by {
            assert(front[i] == parents[i]);
        }
        lemma_parent_lines(header, front);
        assert(lines =~= front_lines.push(parent_key() + last));
        lemma_lines_push(header, front_lines, parent_key() + last);
        assert(!parents[parents.len() - 1].contains('\n'));
        lemma_keyed_line(parent_key(), last);
        let line = parent_key() + last;
        assert(!tree_key().is_prefix_of(line)) by {
            if tree_key().is_prefix_of(line) {
                assert(line[0] == tree_key()[0]);
                assert(line[0] == parent_key()[0]);
            }
        }
        assert(header.parents + front + seq![last] =~= header.parents + parents);
        assert((header.parents + front).push(last) =~= header.parents + parents);
        assert(parent_lines(parents) =~= lines_text(lines));
        assert forall|i: int| 0 <= i < parents.len() implies is_header_line(
            #[trigger] lines[i],
        ) by {
            if i < front.len() {
                assert(lines[i] == front_lines[i]);
            }
        }
    }
}

/// A message is trimmed to the same text as it was given and as it is written.
pub proof fn lemma_trim_closed_message(message: Seq<char>)
    ensures
        trim_end(closed_message(message)) == trim_end(message),
{
    lemma_trim_closed_text(message);
}

/// The header of a commit is the text of its lines; each of them is read
/// back as it is; and taking them in gives the tree, the parents in order,
/// and the author with the time stamp.
proof fn lemma_header_lines(commit: CommitView, timestamp: int)
    requires
        reads_back(commit),
    ensures
        lines_text(header_lines(commit, timestamp)) == header_text(commit, timestamp),
        forall|i: int|
            0 <= i < header_lines(commit, timestamp).len() ==> is_header_line(
                #[trigger] header_lines(commit, timestamp)[i],
            ),
        with_lines(empty_header(), header_lines(commit, timestamp)) == (HeaderView {
            tree: Some(commit.tree),
            parents: commit.parents,
            author: Some(signature(commit.author, timestamp)),
            body: 0,
        }),
{
    let tree_line = tree_key() + commit.tree;
    let parents = parent_line_texts(commit.parents);
    let author_line = author_key() + signature(commit.author, timestamp);
    let committer_line = committer_key() + signature(commit.committer, timestamp);
    let lines = header_lines(commit, timestamp);
    let start = empty_header();
    lemma_keys();
    lemma_signature(commit.author, timestamp);
    lemma_signature(commit.committer, timestamp);
    lemma_keyed_line(tree_key(), commit.tree);
    lemma_keyed_line(author_key(), signature(commit.author, timestamp));
    lemma_keyed_line(committer_key(), signature(commit.committer, timestamp));
    let h1 = with_line(start, tree_line);
    assert(h1 == HeaderView { tree: Some(commit.tree), ..start });
    lemma_parent_lines(h1, commit.parents);
    let h2 = with_lines(h1, parents);
    assert(h1.parents + commit.parents =~= commit.parents);
    assert(h2 == HeaderView { parents: commit.parents, ..h1 });
    lemma_other_key(tree_key(), author_key(), signature(commit.author, timestamp));
    lemma_other_key(parent_key(), author_key(), signature(commit.author, timestamp));
    let h3 = with_line(h2, author_line);
    assert(h3 == HeaderView { author: Some(signature(commit.author, timestamp)), ..h2 });
    lemma_other_key(tree_key(), committer_key(), signature(commit.committer, timestamp));
    lemma_other_key(parent_key(), committer_key(), signature(commit.committer, timestamp));
    lemma_other_key(author_key(), committer_key(), signature(commit.committer, timestamp));
    assert(with_line(h3, committer_line) == h3);
    let l1 = seq![tree_line];
    let l2 = l1 + parents;
    let l3 = l2.push(author_line);
    assert(lines =~= l3.push(committer_line));
    assert(lines_text(l1) =~= tree_line + seq!['\n'] && with_lines(start, l1) == h1) by {
        assert(l1 =~= Seq::<Seq<char>>::empty().push(tree_line));
        lemma_lines_push(start, Seq::<Seq<char>>::empty(), tree_line);
        assert(lines_text(Seq::<Seq<char>>::empty()) =~= Seq::<char>::empty());
    }
    lemma_lines_concat(start, l1, parents);
    lemma_lines_push(start, l2, author_line);
    lemma_lines_push(start, l3, committer_line);
    assert(lines_text(lines) =~= header_text(commit, timestamp));
    assert forall|i: int| 0 <= i < lines.len() implies is_header_line(#[trigger] lines[i]) by {
        if 1 <= i < 1 + parents.len() {
            assert(lines[i] == parents[i - 1]);
        }
    }
}

/// A line that begins with one key does not begin with another, where the
/// two keys differ in their first letter.
proof fn lemma_other_key(other: Seq<char>, key: Seq<char>, value: Seq<char>)
    requires
        other.len() > 0,
        key.len() > 0,
        other[0] != key[0],
    ensures
        !other.is_prefix_of(key + value),
{
    let line = key + value;
    if other.is_prefix_of(line) {
        assert(line[0] == other[0]);
        assert(line[0] == key[0]);
    }
}

/// A commit that was built is parsed into what it was built of: the tree,
/// the parents in order, the author with the time stamp, and the message
/// without the white space at its end.
pub proof fn lemma_parse_commit_text(commit: CommitView, timestamp: int)
    requires
        reads_back(commit),
    ensures
        parse_text(commit_text(commit, timestamp)) == Ok::<ParsedView, StoreError>(
            ParsedView {
                tree: commit.tree,
                parents: commit.parents,
                author: signature(commit.author, timestamp),
                message: trim_end(commit.message),
            },
        ),
{
    let text = commit_text(commit, timestamp);
    let lines = header_lines(commit, timestamp);
    let header = lines_text(lines);
    let message = closed_message(commit.message);
    let read = with_lines(empty_header(), lines);
    lemma_header_lines(commit, timestamp);
    let body = seq!['\n'] + message;
    assert(text =~= Seq::<char>::empty() + header + body);
    lemma_scan_lines(Seq::<char>::empty(), lines, body, empty_header());
    let pos = header.len() as int;
    assert(text =~= header + Seq::<char>::empty() + seq!['\n'] + message);
    lemma_line_in_text(header, Seq::<char>::empty(), message);
    assert(scan_header(text, pos, read) == HeaderView { body: pos + 1, ..read });
    assert(text.skip(pos + 1) =~= message);
    lemma_trim_closed_message(commit.message);
}

/// The text of two runs of lines is the text of the first, then that of the
/// second, and they are taken in one run after the other.
pub proof fn lemma_lines_concat(header: HeaderView, a: Seq<Seq<char>>, b: Seq<Seq<char>>)
    ensures
        lines_text(a + b) == lines_text(a) + lines_text(b),
        with_lines(header, a + b) == with_lines(with_lines(header, a), b),
    decreases b.len(),
{
    if b.len() == 0 {
        assert(a + b =~= a);
        assert(lines_text(b) =~= Seq::<char>::empty());
        assert(lines_text(a + b) =~= lines_text(a) + lines_text(b));
    } else {
        let front = b.drop_last();
        lemma_lines_concat(header, a, front);
        assert(a + b =~= (a + front).push(b.last()));
        assert(b =~= front.push(b.last()));
        lemma_lines_push(header, a + front, b.last());
        lemma_lines_push(with_lines(header, a), front, b.last());
        assert(lines_text(a + b) =~= lines_text(a) + lines_text(b));
    }
}

/// A commit object that was built is parsed into what it was built of.
pub proof fn lemma_build_then_parse(commit: CommitView, timestamp: int, object: ObjectView)
    requires
        reads_back(commit),
        object.obj_type == ObjectType::Commit,
        object.content == encode_utf8(commit_text(commit, timestamp)),
    ensures
        parse_result(object) == Ok::<ParsedView, StoreError>(
            ParsedView {
                tree: commit.tree,
                parents: commit.parents,
                author: signature(commit.author, timestamp),
                message: trim_end(commit.message),
            },
        ),
{
    encode_utf8_valid_utf8(commit_text(commit, timestamp));
    encode_utf8_decode_utf8(commit_text(commit, timestamp));
    lemma_parse_commit_text(commit, timestamp);
}

} // verus!
