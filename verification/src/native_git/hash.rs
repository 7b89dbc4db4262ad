//! Object ids of the plain backend: SHA-1, written as lowercase hexadecimal.

pub use crate::hexcode::id_of_digest;

use crate::bytes::decimal;
use crate::bytes::push_decimal;
use crate::hexcode::hex_string;
use crate::hexcode::is_lower_hex_string;
use sha1::Digest;
use sha1::Sha1;
use vstd::prelude::*;
use vstd::string::*;

verus! {

/// The SHA-1 digest of `data`: twenty bytes.
pub uninterp spec fn sha1_digest(data: Seq<u8>) -> Seq<u8>;

/// `sha1::Sha1`: `new`, one `update` with the data, `finalize`. The digest
/// is a function of the data and is twenty bytes long.
#[verifier::external_body]
fn sha1_of(data: &[u8]) -> (digest: Vec<u8>)
    ensures
        digest@ == sha1_digest(data@),
        digest@.len() == 20,
{
    let mut hasher = Sha1::new();
    hasher.update(data);
    hasher.finalize().to_vec()
}

/// The id of `data`: its SHA-1 digest in hexadecimal.
pub open spec fn hash_of(data: Seq<u8>) -> Seq<char> {
    hex_string(sha1_digest(data))
}

/// The header that precedes an object's content: the tag of its kind, a
/// space, the length of the content in decimal, and a NUL byte.
pub open spec fn object_header(tag: Seq<u8>, len: nat) -> Seq<u8> {
    tag + seq![32u8] + decimal(len) + seq![0u8]
}

/// An object in canonical form: its header, then its content.
pub open spec fn object_bytes(tag: Seq<u8>, content: Seq<u8>) -> Seq<u8> {
    object_header(tag, content.len()) + content
}

/// The id of `data`.
pub fn compute_hash(data: &[u8]) -> (id: String)
    ensures
        id@ == hash_of(data@),
        id@.len() == 40,
        is_lower_hex_string(id@),
{
    let digest = sha1_of(data);
    id_of_digest(digest.as_slice())
}

/// The canonical form of an object of the kind tagged `obj_type` with the given content.
pub fn object_data(obj_type: &str, content: &[u8]) -> (data: Vec<u8>)
    ensures
        data@ == object_bytes(obj_type.spec_bytes(), content@),
{
    let mut data: Vec<u8> = Vec::new();
    data.extend_from_slice(obj_type.as_bytes());
    data.push(32u8);
    push_decimal(&mut data, content.len() as u64);
    data.push(0u8);
    data.extend_from_slice(content);
    assert(data@ =~= object_bytes(obj_type.spec_bytes(), content@));
    data
}

/// The id of an object of the kind tagged `obj_type` with the given content:
/// the id of its canonical form.
pub fn compute_object_hash(obj_type: &str, content: &[u8]) -> (id: String)
    ensures
        id@ == hash_of(object_bytes(obj_type.spec_bytes(), content@)),
        id@.len() == 40,
        is_lower_hex_string(id@),
{
    let data = object_data(obj_type, content);
    compute_hash(data.as_slice())
}

/// Whether `expected` is the id of `data`.
pub fn verify_hash(data: &[u8], expected: &str) -> (matches: bool)
    ensures
        matches == (hash_of(data@) == expected@),
{
    let id = compute_hash(data);
    crate::text::str_eq(id.as_str(), expected)
}

} // verus!
