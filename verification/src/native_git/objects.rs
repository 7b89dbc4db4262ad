//! Objects of the plain backend and how they are kept in a repository.
//!
//! An object is written deflated to `objects/<first two characters of its
//! id>/<the rest of its id>`. What is deflated is the canonical form: the
//! header `<kind> <length>`, a NUL byte, and the content.

use crate::bytes::copy_range;
use crate::bytes::find_char;
use crate::bytes::decimal;
use crate::bytes::find_byte;
use crate::bytes::first_index;
use crate::bytes::lemma_decimal_digits;
use crate::bytes::lemma_first_index;
use crate::bytes::lemma_first_index_unique;
use crate::compression::zlib_deflate;
use crate::compression::zlib_inflate;
use crate::compression::DEFAULT_LEVEL;
use crate::errors::StoreError;
use crate::files::FileTree;
use crate::native_git::hash::hash_of;
use crate::native_git::hash::object_bytes;
use crate::text::has_prefix_at;
use crate::text::is_ascii_bytes;
use crate::text::texts_of;
use crate::text::to_chars;
use crate::text::lemma_ascii_utf8;
use vstd::prelude::*;
use vstd::string::*;
use vstd::utf8::*;

verus! {

/// The four kinds of object. The set is closed: a header names one of these or is malformed.
#[derive(Debug, Clone, Copy, PartialEq, Eq, Structural)]
pub enum ObjectType {
    Blob,
    Tree,
    Commit,
    Tag,
}

impl ObjectType {
    /// The word that names this kind in a header.
    pub open spec fn tag(self) -> Seq<char> {
        match self {
            ObjectType::Blob => seq!['b', 'l', 'o', 'b'],
            ObjectType::Tree => seq!['t', 'r', 'e', 'e'],
            ObjectType::Commit => seq!['c', 'o', 'm', 'm', 'i', 't'],
            ObjectType::Tag => seq!['t', 'a', 'g'],
        }
    }

    /// The bytes of `tag`.
    pub open spec fn tag_bytes(self) -> Seq<u8> {
        match self {
            ObjectType::Blob => seq![98u8, 108u8, 111u8, 98u8],
            ObjectType::Tree => seq![116u8, 114u8, 101u8, 101u8],
            ObjectType::Commit => seq![99u8, 111u8, 109u8, 109u8, 105u8, 116u8],
            ObjectType::Tag => seq![116u8, 97u8, 103u8],
        }
    }

    /// The kind that the word `word` names, if any.
    pub open spec fn of_tag(word: Seq<char>) -> Option<ObjectType> {
        if word == ObjectType::Blob.tag() {
            Some(ObjectType::Blob)
        } else if word == ObjectType::Tree.tag() {
            Some(ObjectType::Tree)
        } else if word == ObjectType::Commit.tag() {
            Some(ObjectType::Commit)
        } else if word == ObjectType::Tag.tag() {
            Some(ObjectType::Tag)
        } else {
            None
        }
    }

    /// The kind that the bytes `word` name, if any.
    pub open spec fn of_tag_bytes(word: Seq<u8>) -> Option<ObjectType> {
        if word == ObjectType::Blob.tag_bytes() {
            Some(ObjectType::Blob)
        } else if word == ObjectType::Tree.tag_bytes() {
            Some(ObjectType::Tree)
        } else if word == ObjectType::Commit.tag_bytes() {
            Some(ObjectType::Commit)
        } else if word == ObjectType::Tag.tag_bytes() {
            Some(ObjectType::Tag)
        } else {
            None
        }
    }

    /// The bytes of a tag are the UTF-8 encoding of its characters; they are
    /// ASCII letters, so they hold neither a space nor a NUL byte.
    pub proof fn lemma_tag_bytes(self)
        ensures
            encode_utf8(self.tag()) == self.tag_bytes(),
            is_ascii_bytes(self.tag_bytes()),
            forall|i: int|
                0 <= i < self.tag_bytes().len() ==> 97 <= #[trigger] self.tag_bytes()[i] <= 122,
            ObjectType::of_tag_bytes(self.tag_bytes()) == Some(self),
            ObjectType::of_tag(self.tag()) == Some(self),
    {
        let b = self.tag_bytes();
        lemma_ascii_utf8(b);
        assert(crate::text::ascii_text(b) =~= self.tag());
        assert(ObjectType::Blob.tag_bytes().len() == 4 && ObjectType::Blob.tag().len() == 4);
        assert(ObjectType::Tree.tag_bytes().len() == 4 && ObjectType::Tree.tag().len() == 4);
        assert(ObjectType::Commit.tag_bytes().len() == 6 && ObjectType::Commit.tag().len() == 6);
        assert(ObjectType::Tag.tag_bytes().len() == 3 && ObjectType::Tag.tag().len() == 3);
        assert(ObjectType::Tree.tag_bytes()[0] != ObjectType::Blob.tag_bytes()[0]);
        assert(ObjectType::Tree.tag()[0] != ObjectType::Blob.tag()[0]);
    }

    /// The word that names this kind in a header.
    pub fn as_str(&self) -> (word: &'static str)
        ensures
            word@ == self.tag(),
            word.spec_bytes() == self.tag_bytes(),
    {
        proof {
            reveal_strlit("blob");
            reveal_strlit("tree");
            reveal_strlit("commit");
            reveal_strlit("tag");
            self.lemma_tag_bytes();
        }
        let word = match self {
            ObjectType::Blob => "blob",
            ObjectType::Tree => "tree",
            ObjectType::Commit => "commit",
            ObjectType::Tag => "tag",
        };
        assert(word@ =~= self.tag());
        word
    }

    /// The kind that `word` names: `blob`, `tree`, `commit` or `tag`, and nothing else.
    pub fn from_str(word: &str) -> (kind: Option<ObjectType>)
        ensures
            kind == ObjectType::of_tag(word@),
    {
        if crate::text::str_eq(word, ObjectType::Blob.as_str()) {
            Some(ObjectType::Blob)
        } else if crate::text::str_eq(word, ObjectType::Tree.as_str()) {
            Some(ObjectType::Tree)
        } else if crate::text::str_eq(word, ObjectType::Commit.as_str()) {
            Some(ObjectType::Commit)
        } else if crate::text::str_eq(word, ObjectType::Tag.as_str()) {
            Some(ObjectType::Tag)
        } else {
            None
        }
    }

    /// The kind that the bytes `word` name.
    pub fn from_tag_bytes(word: &[u8]) -> (kind: Option<ObjectType>)
        ensures
            kind == ObjectType::of_tag_bytes(word@),
    {
        if crate::bytes::bytes_eq(word, ObjectType::Blob.as_str().as_bytes()) {
            Some(ObjectType::Blob)
        } else if crate::bytes::bytes_eq(word, ObjectType::Tree.as_str().as_bytes()) {
            Some(ObjectType::Tree)
        } else if crate::bytes::bytes_eq(word, ObjectType::Commit.as_str().as_bytes()) {
            Some(ObjectType::Commit)
        } else if crate::bytes::bytes_eq(word, ObjectType::Tag.as_str().as_bytes()) {
            Some(ObjectType::Tag)
        } else {
            None
        }
    }
}

/// The canonical form of an object of kind `kind` with content `content`.
pub open spec fn payload_of(kind: ObjectType, content: Seq<u8>) -> Seq<u8> {
    object_bytes(kind.tag_bytes(), content)
}

/// The id of an object of kind `kind` with content `content`.
pub open spec fn object_id(kind: ObjectType, content: Seq<u8>) -> Seq<char> {
    hash_of(payload_of(kind, content))
}

/// What a canonical form is taken apart into: it is cut at the first NUL
/// byte; what precedes must be valid UTF-8 and begin with the tag of a kind,
/// which ends at the first space or at the end; what follows is the content.
/// The length that the header gives is not looked at.
pub open spec fn parse_payload(data: Seq<u8>) -> Result<(ObjectType, Seq<u8>), StoreError> {
    let nul = first_index(data, 0u8);
    let header = data.take(nul);
    if nul >= data.len() {
        Err(StoreError::InvalidFormat)
    } else if !valid_utf8(header) {
        Err(StoreError::InvalidFormat)
    } else {
        match ObjectType::of_tag_bytes(header.take(first_index(header, 32u8))) {
            Some(kind) => Ok((kind, data.skip(nul + 1))),
            None => Err(StoreError::InvalidFormat),
        }
    }
}

/// Taking a canonical form apart gives the kind and the content that it was made of.
pub proof fn lemma_parse_payload_of(kind: ObjectType, content: Seq<u8>)
    ensures
        parse_payload(payload_of(kind, content)) == Ok::<(ObjectType, Seq<u8>), StoreError>(
            (kind, content),
        ),
{
    let tag = kind.tag_bytes();
    let digits = decimal(content.len());
    let header = tag + seq![32u8] + digits;
    let data = payload_of(kind, content);
    kind.lemma_tag_bytes();
    lemma_decimal_digits(content.len());
    assert(data =~= header + seq![0u8] + content);
    assert forall|j: int| 0 <= j < header.len() implies header[j] != 0u8 && #[trigger] header[j]
        < 128 by {
        if j < tag.len() {
            assert(header[j] == tag[j]);
        } else if j > tag.len() {
            assert(header[j] == digits[j - tag.len() - 1]);
        }
    }
    assert forall|j: int| 0 <= j < header.len() implies data[j] != 0u8 by {
        assert(data[j] == header[j]);
    }
    lemma_first_index_unique(data, 0u8, header.len() as int);
    assert(data.take(header.len() as int) =~= header);
    assert(data.skip(header.len() as int + 1) =~= content);
    lemma_ascii_utf8(header);
    assert forall|j: int| 0 <= j < tag.len() implies header[j] != 32u8 by {
        assert(header[j] == tag[j]);
    }
    lemma_first_index_unique(header, 32u8, tag.len() as int);
    assert(header.take(tag.len() as int) =~= tag);
}

/// Where the object with id `id` is kept, below the repository's directory.
pub open spec fn object_path(id: Seq<char>) -> Seq<char> {
    "objects/"@ + id.take(2) + "/"@ + id.skip(2)
}

/// Two ids kept at the same path are the same.
pub proof fn lemma_object_path_injective(a: Seq<char>, b: Seq<char>)
    requires
        a.len() >= 2,
        b.len() >= 2,
        object_path(a) == object_path(b),
    ensures
        a == b,
{
    reveal_strlit("objects/");
    reveal_strlit("/");
    let pa = object_path(a);
    let pb = object_path(b);
    assert(pa.len() == a.len() + 9);
    assert(pb.len() == b.len() + 9);
    assert forall|i: int| 0 <= i < a.len() implies a[i] == b[i] by {
        if i < 2 {
            assert(pa[8 + i] == a.take(2)[i]);
            assert(pb[8 + i] == b.take(2)[i]);
        } else {
            assert(pa[9 + i] == a.skip(2)[i - 2]);
            assert(pb[9 + i] == b.skip(2)[i - 2]);
        }
    }
    assert(a =~= b);
}

/// An object as a mathematical value.
pub struct ObjectView {
    pub obj_type: ObjectType,
    pub content: Seq<u8>,
    pub hash: Seq<char>,
}

/// An object: its kind, its content, and its id.
#[derive(Debug, Clone)]
pub struct GitObject {
    pub obj_type: ObjectType,
    pub content: Vec<u8>,
    pub hash: String,
}

impl View for GitObject {
    type V = ObjectView;

    open spec fn view(&self) -> ObjectView {
        ObjectView { obj_type: self.obj_type, content: self.content@, hash: self.hash@ }
    }
}

/// What reading the object `id` out of the directory `files` gives.
pub open spec fn load_result(files: Map<Seq<char>, Seq<u8>>, id: Seq<char>) -> Result<
    ObjectView,
    StoreError,
> {
    if id.len() < 2 || !files.dom().contains(object_path(id)) {
        Err(StoreError::NotFound)
    } else {
        match zlib_inflate(files[object_path(id)]) {
            None => Err(StoreError::InvalidFormat),
            Some(raw) => match parse_payload(raw) {
                Ok((kind, content)) => Ok(ObjectView { obj_type: kind, content, hash: id }),
                Err(e) => Err(e),
            },
        }
    }
}

/// What writing `object` into the directory `files` gives: the directory
/// with the deflated canonical form at the object's path.
pub open spec fn store_result(files: Map<Seq<char>, Seq<u8>>, object: ObjectView) -> Result<
    Map<Seq<char>, Seq<u8>>,
    StoreError,
> {
    if object.hash.len() < 2 {
        Err(StoreError::InvalidFormat)
    } else {
        match zlib_deflate(payload_of(object.obj_type, object.content), DEFAULT_LEVEL) {
            None => Err(StoreError::InvalidFormat),
            Some(z) => Ok(files.insert(object_path(object.hash), z)),
        }
    }
}

/// An object that was written under its id is read back as it was, whatever
/// else the directory holds; `stored` stands for the deflated bytes.
pub proof fn lemma_load_after_store(
    files: Map<Seq<char>, Seq<u8>>,
    object: ObjectView,
    stored: Seq<u8>,
)
    requires
        object.hash.len() >= 2,
        zlib_inflate(stored) == Some(payload_of(object.obj_type, object.content)),
    ensures
        load_result(files.insert(object_path(object.hash), stored), object.hash) == Ok::<
            ObjectView,
            StoreError,
        >(object),
{
    lemma_parse_payload_of(object.obj_type, object.content);
}

/// Writing an object a second time changes nothing.
pub proof fn lemma_store_twice(files: Map<Seq<char>, Seq<u8>>, object: ObjectView)
    ensures
        store_result(files, object) matches Ok(once) ==> store_result(once, object) == Ok::<
            Map<Seq<char>, Seq<u8>>,
            StoreError,
        >(once),
{
    if store_result(files, object) is Ok {
        let once = store_result(files, object)->Ok_0;
        let stored = zlib_deflate(payload_of(object.obj_type, object.content), DEFAULT_LEVEL)->0;
        assert(once.insert(object_path(object.hash), stored) =~= once);
    }
}

/// Writing an object leaves every other object as it reads.
pub proof fn lemma_store_keeps_others(
    files: Map<Seq<char>, Seq<u8>>,
    object: ObjectView,
    stored: Seq<u8>,
    other: Seq<char>,
)
    requires
        object.hash.len() >= 2,
        other != object.hash,
    ensures
        load_result(files.insert(object_path(object.hash), stored), other) == load_result(
            files,
            other,
        ),
{
    if other.len() >= 2 && object_path(other) == object_path(object.hash) {
        lemma_object_path_injective(other, object.hash);
    }
}

impl GitObject {
    /// An object of the given kind and content, under the id of its canonical form.
    pub fn new(obj_type: ObjectType, content: Vec<u8>) -> (object: GitObject)
        ensures
            object.obj_type == obj_type,
            object.content@ == content@,
            object.hash@ == object_id(obj_type, content@),
            object.hash@.len() == 40,
    {
        let hash = crate::native_git::hash::compute_object_hash(
            obj_type.as_str(),
            content.as_slice(),
        );
        GitObject { obj_type, content, hash }
    }

    /// The canonical form: header, then content.
    pub fn data(&self) -> (data: Vec<u8>)
        ensures
            data@ == payload_of(self.obj_type, self.content@),
            parse_payload(data@) == Ok::<(ObjectType, Seq<u8>), StoreError>(
                (self.obj_type, self.content@),
            ),
    {
        proof {
            lemma_parse_payload_of(self.obj_type, self.content@);
        }
        crate::native_git::hash::object_data(self.obj_type.as_str(), self.content.as_slice())
    }

    /// Takes a canonical form apart and names the object `hash`.
    pub fn from_payload(data: &[u8], hash: &str) -> (object: Result<GitObject, StoreError>)
        ensures
            match object {
                Ok(o) => parse_payload(data@) == Ok::<(ObjectType, Seq<u8>), StoreError>(
                    (o.obj_type, o.content@),
                ) && o.hash@ == hash@,
                Err(e) => parse_payload(data@) == Err::<(ObjectType, Seq<u8>), StoreError>(e),
            },
    {
        match split_payload(data) {
            Ok((obj_type, content)) => Ok(GitObject { obj_type, content, hash: hash.to_string() }),
            Err(e) => Err(e),
        }
    }

    /// The two parts of the id that make the object's path: its first two
    /// characters, and the rest.
    pub fn path_components(&self) -> (parts: (&str, &str))
        requires
            self.hash@.len() >= 2,
        ensures
            parts.0@ == self.hash@.take(2),
            parts.1@ == self.hash@.skip(2),
    {
        split_id(self.hash.as_str())
    }

    /// Writes the object into the repository whose directory is `git_dir`.
    /// An object whose id is shorter than two characters has no path and is
    /// refused. Whatever was at the object's path is replaced. Once the
    /// object is written, it is read back as it is, and writing it again
    /// changes nothing.
    pub fn store(&self, git_dir: &mut FileTree) -> (done: Result<(), StoreError>)
        requires
            old(git_dir).wf(),
        ensures
            final(git_dir).wf(),
            match done {
                Ok(()) => store_result(old(git_dir)@, self@) == Ok::<
                    Map<Seq<char>, Seq<u8>>,
                    StoreError,
                >(final(git_dir)@) && load_result(final(git_dir)@, self.hash@) == Ok::<
                    ObjectView,
                    StoreError,
                >(self@) && store_result(final(git_dir)@, self@) == Ok::<
                    Map<Seq<char>, Seq<u8>>,
                    StoreError,
                >(final(git_dir)@),
                Err(e) => store_result(old(git_dir)@, self@) == Err::<
                    Map<Seq<char>, Seq<u8>>,
                    StoreError,
                >(e) && *final(git_dir) == *old(git_dir),
            },
    {
        let path = match path_of(self.hash.as_str()) {
            Some(path) => path,
            None => {
                return Err(StoreError::InvalidFormat);
            },
        };
        let data = self.data();
        match crate::compression::deflate(data.as_slice(), DEFAULT_LEVEL) {
            Some(stored) => {
                proof {
                    lemma_load_after_store(git_dir@, self@, stored@);
                    lemma_store_twice(git_dir@, self@);
                }
                git_dir.write(path.as_str(), stored);
                Ok(())
            },
            None => Err(StoreError::InvalidFormat),
        }
    }

    /// Reads the object `hash` out of the repository whose directory is
    /// `git_dir`. The object is named as it was asked for: its content is
    /// not hashed again.
    pub fn load(git_dir: &FileTree, hash: &str) -> (object: Result<GitObject, StoreError>)
        requires
            git_dir.wf(),
        ensures
            match object {
                Ok(o) => load_result(git_dir@, hash@) == Ok::<ObjectView, StoreError>(o@),
                Err(e) => load_result(git_dir@, hash@) == Err::<ObjectView, StoreError>(e),
            },
    {
        let path = match path_of(hash) {
            Some(path) => path,
            None => {
                return Err(StoreError::NotFound);
            },
        };
        let stored = match git_dir.read(path.as_str()) {
            Some(stored) => stored,
            None => {
                return Err(StoreError::NotFound);
            },
        };
        match crate::compression::inflate(stored.as_slice()) {
            Some(raw) => GitObject::from_payload(raw.as_slice(), hash),
            None => Err(StoreError::InvalidFormat),
        }
    }
}

/// Takes a canonical form apart into the kind and the content.
pub fn split_payload(data: &[u8]) -> (parts: Result<(ObjectType, Vec<u8>), StoreError>)
    ensures
        match parts {
            Ok((kind, content)) => parse_payload(data@) == Ok::<(ObjectType, Seq<u8>), StoreError>(
                (kind, content@),
            ),
            Err(e) => parse_payload(data@) == Err::<(ObjectType, Seq<u8>), StoreError>(e),
        },
{
    let nul = find_byte(data, 0, 0u8);
    assert(data@.skip(0) =~= data@);
    if nul >= data.len() {
        return Err(StoreError::InvalidFormat);
    }
    let header = vstd::slice::slice_subrange(data, 0, nul);
    if crate::text::utf8_str(header).is_none() {
        return Err(StoreError::InvalidFormat);
    }
    let space = find_byte(header, 0, 32u8);
    assert(header@.skip(0) =~= header@);
    let word = vstd::slice::slice_subrange(header, 0, space);
    match ObjectType::from_tag_bytes(word) {
        Some(obj_type) => Ok((obj_type, copy_range(data, nul + 1, data.len()))),
        None => Err(StoreError::InvalidFormat),
    }
}

/// Cuts an id after its second character.
pub fn split_id(id: &str) -> (parts: (&str, &str))
    requires
        id@.len() >= 2,
    ensures
        parts.0@ == id@.take(2),
        parts.1@ == id@.skip(2),
{
    let n = id.unicode_len();
    (id.substring_char(0, 2), id.substring_char(2, n))
}

/// The path at which the object `id` is kept, or `None` where the id is
/// shorter than two characters.
pub fn path_of(id: &str) -> (path: Option<String>)
    ensures
        path is Some <==> id@.len() >= 2,
        path matches Some(p) ==> p@ == object_path(id@),
{
    if id.unicode_len() < 2 {
        return None;
    }
    let (dir, file) = split_id(id);
    let mut path = "objects/".to_string();
    path.append(dir);
    path.append("/");
    path.append(file);
    Some(path)
}

/// The directory below which objects are kept.
pub open spec fn objects_prefix() -> Seq<char> {
    seq!['o', 'b', 'j', 'e', 'c', 't', 's', '/']
}

/// The id of the object kept at `path`, if `path` is one at which an object
/// is kept: `objects/`, a directory, and a file in it. With `two`, the
/// directory's name must be two characters long. The id is the name of the
/// directory followed by that of the file.
pub open spec fn listed_id(path: Seq<char>, two: bool) -> Option<Seq<char>> {
    let rest = path.skip(8);
    let slash = first_index(rest, '/');
    if objects_prefix().is_prefix_of(path) && 0 < slash && slash + 1 < rest.len() && !rest.skip(
        slash + 1,
    ).contains('/') && (two ==> slash == 2) {
        Some(rest.take(slash) + rest.skip(slash + 1))
    } else {
        None
    }
}

/// The ids of the objects kept at `paths`, in the same order.
pub open spec fn listed_ids(paths: Seq<Seq<char>>, two: bool) -> Seq<Seq<char>>
    decreases paths.len(),
{
    if paths.len() == 0 {
        Seq::empty()
    } else {
        match listed_id(paths.last(), two) {
            Some(id) => listed_ids(paths.drop_last(), two).push(id),
            None => listed_ids(paths.drop_last(), two),
        }
    }
}

/// An object's path is one at which an object is kept, and the id found
/// there is the object's, where the id holds no `/` and is longer than two characters.
pub proof fn lemma_listed_id_of_object_path(id: Seq<char>)
    requires
        id.len() > 2,
        !id.contains('/'),
    ensures
        listed_id(object_path(id), true) == Some(id),
        listed_id(object_path(id), false) == Some(id),
{
    reveal_strlit("objects/");
    reveal_strlit("/");
    let path = object_path(id);
    assert("objects/"@ =~= objects_prefix());
    assert(path.subrange(0, 8) =~= objects_prefix());
    let rest = path.skip(8);
    assert(rest =~= id.take(2) + seq!['/'] + id.skip(2));
    assert forall|j: int| 0 <= j < 2 implies rest[j] != '/' by {
        assert(rest[j] == id[j]);
        assert(id.contains(id[j]));
    }
    lemma_first_index_unique(rest, '/', 2);
    assert(rest.take(2) =~= id.take(2));
    assert(rest.skip(3) =~= id.skip(2));
    assert(!id.skip(2).contains('/')) by {
        if id.skip(2).contains('/') {
            let j = choose|j: int| 0 <= j < id.skip(2).len() && id.skip(2)[j] == '/';
            assert(id[j + 2] == '/');
            assert(id.contains('/'));
        }
    }
    assert(id.take(2) + id.skip(2) =~= id);
}

/// The id of an object that is kept at one of `paths` is among the ids listed.
pub proof fn lemma_listed_ids_contains(paths: Seq<Seq<char>>, two: bool, path: Seq<char>)
    requires
        paths.contains(path),
        listed_id(path, two) is Some,
    ensures
        listed_ids(paths, two).contains(listed_id(path, two)->0),
    decreases paths.len(),
{
    let id = listed_id(path, two)->0;
    let front = paths.drop_last();
    let before = listed_ids(front, two);
    if paths.last() == path {
        assert(before.push(id)[before.len() as int] == id);
    } else {
        let i = choose|i: int| 0 <= i < paths.len() && paths[i] == path;
        assert(front[i] == path);
        lemma_listed_ids_contains(front, two, path);
        let j = choose|j: int| 0 <= j < before.len() && before[j] == id;
        match listed_id(paths.last(), two) {
            Some(other) => {
                assert(before.push(other)[j] == id);
            },
            None => {},
        }
    }
}

/// An object that was written is among the objects listed, where its id is
/// longer than two characters and holds no `/`.
pub proof fn lemma_stored_is_listed(paths: Seq<Seq<char>>, id: Seq<char>)
    requires
        id.len() > 2,
        !id.contains('/'),
        paths.contains(object_path(id)),
    ensures
        listed_ids(paths, true).contains(id),
        listed_ids(paths, false).contains(id),
{
    lemma_listed_id_of_object_path(id);
    lemma_listed_ids_contains(paths, true, object_path(id));
    lemma_listed_ids_contains(paths, false, object_path(id));
}

/// The ids of the objects that the directory `dir` holds, in the order in
/// which their files were first written.
pub fn list_ids(dir: &FileTree, two: bool) -> (ids: Vec<String>)
    requires
        dir.wf(),
    ensures
        texts_of(ids@) == listed_ids(dir.paths(), two),
{
    proof {
        reveal_strlit("objects/");
    }
    let prefix = to_chars("objects/");
    assert(prefix@ =~= objects_prefix());
    let mut ids: Vec<String> = Vec::new();
    let count = dir.len();
    let mut i: usize = 0;
    assert(dir.paths().take(0) =~= Seq::<Seq<char>>::empty());
    assert(texts_of(ids@) =~= Seq::<Seq<char>>::empty());
    while i < count
        invariant
            i <= count,
            count == dir.paths().len(),
            prefix@ == objects_prefix(),
            texts_of(ids@) == listed_ids(dir.paths().take(i as int), two),
        decreases count - i,
    {
        let path = dir.path_at(i);
        let chars = to_chars(path.as_str());
        let n = chars.len();
        proof {
            let done = dir.paths().take(i + 1);
            assert(done.drop_last() =~= dir.paths().take(i as int));
            assert(done.last() == path@);
            assert(chars@.subrange(0, n as int) =~= chars@);
        }
        if has_prefix_at(chars.as_slice(), 0, n, prefix.as_slice()) {
            let slash = find_char(chars.as_slice(), 8, '/');
            if slash > 8 && slash < n && n - slash > 1 && (!two || slash == 10) {
                let more = find_char(chars.as_slice(), slash + 1, '/');
                proof {
                    let rest = chars@.skip(8);
                    lemma_first_index(rest.skip(slash - 8 + 1), '/');
                    assert(rest.skip(slash - 8 + 1) =~= chars@.skip(slash + 1));
                }
                if more == n {
                    let mut id = path.as_str().substring_char(8, slash).to_string();
                    id.append(path.as_str().substring_char(slash + 1, n));
                    proof {
                        let rest = chars@.skip(8);
                        assert(rest.take(slash - 8) =~= chars@.subrange(8, slash as int));
                        assert(rest.skip(slash - 8 + 1) =~= chars@.subrange(
                            slash + 1,
                            n as int,
                        ));
                        assert(texts_of(ids@.push(id)) =~= texts_of(ids@).push(id@));
                    }
                    ids.push(id);
                }
            }
        }
        i += 1;
    }
    assert(dir.paths().take(i as int) =~= dir.paths());
    ids
}

impl GitObject {
    /// The ids of all objects in the repository whose directory is
    /// `git_dir`, in no order that a caller should rely on.
    pub fn list_all(git_dir: &FileTree) -> (ids: Result<Vec<String>, StoreError>)
        requires
            git_dir.wf(),
        ensures
            ids matches Ok(v) && texts_of(v@) == listed_ids(git_dir.paths(), true),
    {
        Ok(list_ids(git_dir, true))
    }
}

} // verus!
