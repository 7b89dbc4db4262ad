//! The object store of the private backend.
//!
//! An object is written in this order: its canonical form is made (header,
//! NUL byte, content); its id is the digest of that form, so that neither
//! deflating nor encrypting changes the id; the form is deflated, where the
//! repository deflates; the result is encrypted, where the repository has a
//! key; and that is written under the id. Reading takes the same steps back.

pub use crate::native_git::objects::ObjectType;

use crate::compression::zlib_deflate;
use crate::compression::zlib_inflate;
use crate::compression::DEFAULT_LEVEL;
use crate::errors::StoreError;
use crate::files::FileTree;
use crate::native_git::objects::lemma_object_path_injective;
use crate::native_git::objects::lemma_parse_payload_of;
use crate::native_git::objects::listed_ids;
use crate::native_git::objects::object_path;
use crate::native_git::objects::parse_payload;
use crate::native_git::objects::payload_of;
use crate::text::texts_of;
use crate::tri::crypto::cipher;
use crate::tri::crypto::hash_of;
use crate::tri::crypto::lemma_cipher_twice;
use crate::tri::crypto::EncryptionKey;
use vstd::prelude::*;
use vstd::string::*;

verus! {

/// A key as a pair of key bytes and nonce bytes, or `None` where the
/// repository is not encrypted.
pub open spec fn key_view(key: Option<&EncryptionKey>) -> Option<(Seq<u8>, Seq<u8>)> {
    match key {
        Some(k) => Some((k.key(), k.nonce())),
        None => None,
    }
}

/// The id of an object of kind `kind` with content `data`.
pub open spec fn object_id(kind: ObjectType, data: Seq<u8>) -> Seq<char> {
    hash_of(payload_of(kind, data))
}

/// `data` with the cipher applied, where there is a key.
pub open spec fn ciphered(data: Seq<u8>, key: Option<(Seq<u8>, Seq<u8>)>) -> Seq<u8> {
    match key {
        Some((k, n)) => cipher(k, n, data),
        None => data,
    }
}

/// What is written for a canonical form: deflated first, where asked for,
/// then encrypted, where there is a key. `None` where deflating fails.
pub open spec fn sealed(payload: Seq<u8>, key: Option<(Seq<u8>, Seq<u8>)>, compress: bool)
    -> Option<Seq<u8>> {
    if compress {
        match zlib_deflate(payload, DEFAULT_LEVEL) {
            Some(z) => Some(ciphered(z, key)),
            None => None,
        }
    } else {
        Some(ciphered(payload, key))
    }
}

/// What is read out of stored bytes: decrypted first, where there is a key,
/// then inflated, where asked for, then taken apart.
pub open spec fn opened(stored: Seq<u8>, key: Option<(Seq<u8>, Seq<u8>)>, compressed: bool)
    -> Result<(ObjectType, Seq<u8>), StoreError> {
    let plain = ciphered(stored, key);
    if compressed {
        match zlib_inflate(plain) {
            Some(raw) => parse_payload(raw),
            None => Err(StoreError::InvalidFormat),
        }
    } else {
        parse_payload(plain)
    }
}

/// What reading the object `id` out of the directory `files` gives.
pub open spec fn read_result(
    files: Map<Seq<char>, Seq<u8>>,
    id: Seq<char>,
    key: Option<(Seq<u8>, Seq<u8>)>,
    compressed: bool,
) -> Result<(ObjectType, Seq<u8>), StoreError> {
    if id.len() < 2 || !files.dom().contains(object_path(id)) {
        Err(StoreError::NotFound)
    } else {
        opened(files[object_path(id)], key, compressed)
    }
}

/// What writing an object into the directory `files` gives: its id, and the
/// directory with the sealed bytes at the object's path.
pub open spec fn store_result(
    files: Map<Seq<char>, Seq<u8>>,
    kind: ObjectType,
    data: Seq<u8>,
    key: Option<(Seq<u8>, Seq<u8>)>,
    compress: bool,
) -> Result<(Seq<char>, Map<Seq<char>, Seq<u8>>), StoreError> {
    match sealed(payload_of(kind, data), key, compress) {
        Some(bytes) => Ok(
            (object_id(kind, data), files.insert(object_path(object_id(kind, data)), bytes)),
        ),
        None => Err(StoreError::InvalidFormat),
    }
}

/// The id under which an object is written depends on its kind and its
/// content only: not on the directory, the key, or whether it is deflated.
pub proof fn lemma_store_id_is_fixed(
    files1: Map<Seq<char>, Seq<u8>>,
    files2: Map<Seq<char>, Seq<u8>>,
    kind: ObjectType,
    data: Seq<u8>,
    key1: Option<(Seq<u8>, Seq<u8>)>,
    key2: Option<(Seq<u8>, Seq<u8>)>,
    compress1: bool,
    compress2: bool,
)
    ensures
        store_result(files1, kind, data, key1, compress1) matches Ok((id1, _)) ==> (store_result(
            files2,
            kind,
            data,
            key2,
            compress2,
        ) matches Ok((id2, _)) ==> id1 == id2),
{
}

/// Writing an object a second time, with the same key and setting, gives
/// the same id and changes nothing.
pub proof fn lemma_store_twice(
    files: Map<Seq<char>, Seq<u8>>,
    kind: ObjectType,
    data: Seq<u8>,
    key: Option<(Seq<u8>, Seq<u8>)>,
    compress: bool,
)
    ensures
        store_result(files, kind, data, key, compress) matches Ok((id, once)) ==> store_result(
            once,
            kind,
            data,
            key,
            compress,
        ) == Ok::<(Seq<char>, Map<Seq<char>, Seq<u8>>), StoreError>((id, once)),
{
    if store_result(files, kind, data, key, compress) is Ok {
        let once = store_result(files, kind, data, key, compress)->Ok_0.1;
        let bytes = sealed(payload_of(kind, data), key, compress)->0;
        assert(once.insert(object_path(object_id(kind, data)), bytes) =~= once);
    }
}

/// Sealed bytes that inflate to a canonical form are opened, with the same
/// key and setting, as the object that the form was made of.
pub proof fn lemma_opened_sealed(
    kind: ObjectType,
    data: Seq<u8>,
    key: Option<(Seq<u8>, Seq<u8>)>,
    compress: bool,
    packed: Seq<u8>,
)
    requires
        compress ==> zlib_inflate(packed) == Some(payload_of(kind, data)),
        !compress ==> packed == payload_of(kind, data),
    ensures
        opened(ciphered(packed, key), key, compress) == Ok::<(ObjectType, Seq<u8>), StoreError>(
            (kind, data),
        ),
{
    lemma_parse_payload_of(kind, data);
    match key {
        Some((k, n)) => {
            lemma_cipher_twice(k, n, packed);
        },
        None => {},
    }
}

/// Writes an object of kind `object_type` with content `data` into the
/// repository whose directory is `repo_path`, and returns its id. Writing
/// the same object again writes the same file under the same id.
pub fn store_object(
    repo_path: &mut FileTree,
    object_type: ObjectType,
    data: &[u8],
    encryption_key: Option<&EncryptionKey>,
    compress: bool,
) -> (id: Result<String, StoreError>)
    requires
        old(repo_path).wf(),
    ensures
        final(repo_path).wf(),
        match id {
            Ok(s) => store_result(
                old(repo_path)@,
                object_type,
                data@,
                key_view(encryption_key),
                compress,
            ) == Ok::<(Seq<char>, Map<Seq<char>, Seq<u8>>), StoreError>((s@, final(repo_path)@))
                && s@ == object_id(object_type, data@) && read_result(
                final(repo_path)@,
                s@,
                key_view(encryption_key),
                compress,
            ) == Ok::<(ObjectType, Seq<u8>), StoreError>((object_type, data@)) && store_result(
                final(repo_path)@,
                object_type,
                data@,
                key_view(encryption_key),
                compress,
            ) == Ok::<(Seq<char>, Map<Seq<char>, Seq<u8>>), StoreError>((s@, final(repo_path)@)),
            Err(e) => store_result(
                old(repo_path)@,
                object_type,
                data@,
                key_view(encryption_key),
                compress,
            ) == Err::<(Seq<char>, Map<Seq<char>, Seq<u8>>), StoreError>(e) && *final(repo_path)
                == *old(repo_path),
        },
{
    let full = crate::native_git::hash::object_data(object_type.as_str(), data);
    let id = crate::tri::crypto::hash_data(full.as_slice());
    let packed = if compress {
        match crate::compression::deflate(full.as_slice(), DEFAULT_LEVEL) {
            Some(z) => z,
            None => {
                return Err(StoreError::InvalidFormat);
            },
        }
    } else {
        full
    };
    proof {
        lemma_opened_sealed(object_type, data@, key_view(encryption_key), compress, packed@);
        lemma_store_twice(repo_path@, object_type, data@, key_view(encryption_key), compress);
    }
    let bytes = match encryption_key {
        Some(key) => key.encrypt(packed.as_slice()),
        None => packed,
    };
    match crate::native_git::objects::path_of(id.as_str()) {
        Some(path) => {
            repo_path.write(path.as_str(), bytes);
            Ok(id)
        },
        None => Err(StoreError::InvalidFormat),
    }
}

/// Takes stored bytes back to the kind and the content of the object.
pub fn open_stored(
    stored: &[u8],
    encryption_key: Option<&EncryptionKey>,
    compressed: bool,
) -> (object: Result<(ObjectType, Vec<u8>), StoreError>)
    ensures
        match object {
            Ok((kind, content)) => opened(stored@, key_view(encryption_key), compressed) == Ok::<
                (ObjectType, Seq<u8>),
                StoreError,
            >((kind, content@)),
            Err(e) => opened(stored@, key_view(encryption_key), compressed) == Err::<
                (ObjectType, Seq<u8>),
                StoreError,
            >(e),
        },
{
    let plain = match encryption_key {
        Some(key) => key.decrypt(stored),
        None => vstd::slice::slice_to_vec(stored),
    };
    if compressed {
        match crate::compression::inflate(plain.as_slice()) {
            Some(raw) => crate::native_git::objects::split_payload(raw.as_slice()),
            None => Err(StoreError::InvalidFormat),
        }
    } else {
        crate::native_git::objects::split_payload(plain.as_slice())
    }
}

/// Reads the object `object_id` out of the repository whose directory is
/// `repo_path`. A missing file is `NotFound`. Bytes that do not inflate, or
/// whose header is malformed, are `InvalidFormat`: so is whatever a wrong
/// key makes of the file, which cannot be told from damage.
pub fn read_object(
    repo_path: &FileTree,
    object_id: &str,
    encryption_key: Option<&EncryptionKey>,
    compressed: bool,
) -> (object: Result<(ObjectType, Vec<u8>), StoreError>)
    requires
        repo_path.wf(),
    ensures
        match object {
            Ok((kind, content)) => read_result(
                repo_path@,
                object_id@,
                key_view(encryption_key),
                compressed,
            ) == Ok::<(ObjectType, Seq<u8>), StoreError>((kind, content@)),
            Err(e) => read_result(repo_path@, object_id@, key_view(encryption_key), compressed)
                == Err::<(ObjectType, Seq<u8>), StoreError>(e),
        },
{
    let path = match crate::native_git::objects::path_of(object_id) {
        Some(path) => path,
        None => {
            return Err(StoreError::NotFound);
        },
    };
    match repo_path.read(path.as_str()) {
        Some(stored) => open_stored(stored.as_slice(), encryption_key, compressed),
        None => Err(StoreError::NotFound),
    }
}

/// The ids of all objects in the repository whose directory is `repo_path`,
/// in no order that a caller should rely on.
pub fn list_objects(repo_path: &FileTree) -> (ids: Result<Vec<String>, StoreError>)
    requires
        repo_path.wf(),
    ensures
        ids matches Ok(v) && texts_of(v@) == listed_ids(repo_path.paths(), false),
{
    Ok(crate::native_git::objects::list_ids(repo_path, false))
}

/// Writing an object leaves every other object as it reads.
pub proof fn lemma_store_keeps_others(
    files: Map<Seq<char>, Seq<u8>>,
    id: Seq<char>,
    bytes: Seq<u8>,
    other: Seq<char>,
    key: Option<(Seq<u8>, Seq<u8>)>,
    compressed: bool,
)
    requires
        id.len() >= 2,
        other != id,
    ensures
        read_result(files.insert(object_path(id), bytes), other, key, compressed) == read_result(
            files,
            other,
            key,
            compressed,
        ),
{
    if other.len() >= 2 && object_path(other) == object_path(id) {
        lemma_object_path_injective(other, id);
    }
}

} // verus!
