//! Keys and the cipher of the private backend.
//!
//! A key is derived from a password and a salt that each repository makes
//! once and keeps in the clear. The cipher is a stream cipher: the key
//! stream is made block by block, by hashing the key, the nonce and the
//! number of the block, and is combined with the data by exclusive or.
//! Applying it twice gives the data back. It keeps data secret and nothing
//! more: bytes that were tampered with decrypt to other bytes, without a
//! failure at this layer.

pub use crate::hexcode::id_of_digest;

use crate::errors::StoreError;
use crate::hexcode::hex_bytes;
use crate::hexcode::hex_string;
use crate::hexcode::is_hex_string;
use crate::text::trim;
use vstd::bytes::spec_u128_to_le_bytes;
use vstd::bytes::spec_u32_to_le_bytes;
use vstd::bytes::spec_u64_to_le_bytes;
use vstd::bytes::u128_to_le_bytes;
use vstd::bytes::u32_to_le_bytes;
use vstd::bytes::u64_to_le_bytes;
use vstd::prelude::*;
use vstd::string::*;
use vstd::utf8::*;

verus! {

/// The number of bytes in a digest, and in one block of the key stream.
pub const BLOCK: usize = 32;

/// The number of bytes in a nonce.
pub const NONCE: usize = 12;

/// The BLAKE3 digest of `data`: thirty-two bytes.
pub uninterp spec fn blake3_digest(data: Seq<u8>) -> Seq<u8>;

/// `blake3::hash` and `Hash::as_bytes`. The digest is a function of the data.
#[verifier::external_body]
fn blake3_of(data: &[u8]) -> (digest: [u8; 32])
    ensures
        digest@ == blake3_digest(data@),
{
    *blake3::hash(data).as_bytes()
}

/// The tag under which keys are derived. Each use of the hash has a tag of
/// its own, so that no two uses hash the same bytes.
pub open spec fn key_tag() -> Seq<u8> {
    encode_utf8("triforge.encryption.v1"@)
}

/// The tag under which nonces are derived.
pub open spec fn nonce_tag() -> Seq<u8> {
    encode_utf8("triforge.nonce.v1"@)
}

/// The tag under which keys for single purposes are derived.
pub open spec fn subkey_tag() -> Seq<u8> {
    encode_utf8("triforge.subkey.v1"@)
}

/// The tag under which salts are made.
pub open spec fn salt_tag() -> Seq<u8> {
    encode_utf8("triforge.salt.v1"@)
}

/// The key that `password` and `salt` give: the digest of the tag, the salt
/// and the password's bytes.
pub open spec fn derived_key(password: Seq<char>, salt: Seq<u8>) -> Seq<u8> {
    blake3_digest(key_tag() + salt + encode_utf8(password))
}

/// The nonce that goes with `key`: the first twelve bytes of the digest of the tag and the key.
pub open spec fn derived_nonce(key: Seq<u8>) -> Seq<u8> {
    blake3_digest(nonce_tag() + key).take(NONCE as int)
}

/// The block of the key stream with the number `block`.
pub open spec fn stream_block(key: Seq<u8>, nonce: Seq<u8>, block: u64) -> Seq<u8> {
    blake3_digest(key + nonce + spec_u64_to_le_bytes(block))
}

/// The byte of the key stream at position `i`.
pub open spec fn stream_byte(key: Seq<u8>, nonce: Seq<u8>, i: int) -> u8 {
    stream_block(key, nonce, (i / BLOCK as int) as u64)[i % BLOCK as int]
}

/// `data` combined with the key stream.
pub open spec fn cipher(key: Seq<u8>, nonce: Seq<u8>, data: Seq<u8>) -> Seq<u8> {
    Seq::new(data.len(), |i: int| data[i] ^ stream_byte(key, nonce, i))
}

/// The cipher undoes itself: what was encrypted is decrypted by encrypting it again.
pub proof fn lemma_cipher_twice(key: Seq<u8>, nonce: Seq<u8>, data: Seq<u8>)
    ensures
        cipher(key, nonce, cipher(key, nonce, data)) == data,
        cipher(key, nonce, data).len() == data.len(),
{
    let once = cipher(key, nonce, data);
    let twice = cipher(key, nonce, once);
    assert forall|i: int| 0 <= i < data.len() implies twice[i] == data[i] by {
        let d = data[i];
        let k = stream_byte(key, nonce, i);
        assert((d ^ k) ^ k == d) by (bit_vector);
    }
    assert(twice =~= data);
}

/// The salt that a reading of the clock and a process number give: the
/// digest of the tag, the reading and the number, both in little-endian order.
pub open spec fn salt_of(nanos: u128, pid: u32) -> Seq<u8> {
    blake3_digest(salt_tag() + spec_u128_to_le_bytes(nanos) + spec_u32_to_le_bytes(pid))
}

/// The id of `data` in the private backend: its BLAKE3 digest in hexadecimal.
pub open spec fn hash_of(data: Seq<u8>) -> Seq<char> {
    hex_string(blake3_digest(data))
}

/// A key of the cipher, with its nonce. It lives as long as one command
/// runs, is handed on by reference, and is never written anywhere.
pub struct EncryptionKey {
    key: [u8; 32],
    nonce: [u8; 12],
}

impl EncryptionKey {
    /// The bytes of the key.
    pub closed spec fn key(self) -> Seq<u8> {
        self.key@
    }

    /// The bytes of the nonce.
    pub closed spec fn nonce(self) -> Seq<u8> {
        self.nonce@
    }

    /// The key for `password` in the repository whose salt is `salt`.
    pub fn from_password(password: &str, salt: &[u8]) -> (this: EncryptionKey)
        ensures
            this.key() == derived_key(password@, salt@),
            this.nonce() == derived_nonce(this.key()),
    {
        let mut input: Vec<u8> = Vec::new();
        input.extend_from_slice("triforge.encryption.v1".as_bytes());
        input.extend_from_slice(salt);
        input.extend_from_slice(password.as_bytes());
        assert(input@ =~= key_tag() + salt@ + encode_utf8(password@));
        let key = blake3_of(input.as_slice());
        let mut seed: Vec<u8> = Vec::new();
        seed.extend_from_slice("triforge.nonce.v1".as_bytes());
        seed.extend_from_slice(key.as_slice());
        assert(seed@ =~= nonce_tag() + key@);
        let digest = blake3_of(seed.as_slice());
        let nonce = nonce_of(&digest);
        EncryptionKey { key, nonce }
    }

    /// A salt for a new repository, made of a reading of the clock in
    /// nanoseconds and the number of the process.
    pub fn generate_salt(nanos: u128, pid: u32) -> (salt: [u8; 32])
        ensures
            salt@ == salt_of(nanos, pid),
    {
        let mut input: Vec<u8> = Vec::new();
        input.extend_from_slice("triforge.salt.v1".as_bytes());
        let clock = u128_to_le_bytes(nanos);
        input.extend_from_slice(clock.as_slice());
        let number = u32_to_le_bytes(pid);
        input.extend_from_slice(number.as_slice());
        assert(input@ =~= salt_tag() + spec_u128_to_le_bytes(nanos) + spec_u32_to_le_bytes(pid));
        blake3_of(input.as_slice())
    }

    /// The block of the key stream with the number `block`.
    fn block_stream(&self, block: u64) -> (stream: [u8; 32])
        ensures
            stream@ == stream_block(self.key(), self.nonce(), block),
    {
        let mut input: Vec<u8> = Vec::new();
        input.extend_from_slice(self.key.as_slice());
        input.extend_from_slice(self.nonce.as_slice());
        let counter = u64_to_le_bytes(block);
        input.extend_from_slice(counter.as_slice());
        assert(input@ =~= self.key() + self.nonce() + spec_u64_to_le_bytes(block));
        blake3_of(input.as_slice())
    }

    /// The first `len` bytes of the key stream.
    pub fn key_stream(&self, len: usize) -> (stream: Vec<u8>)
        ensures
            stream@.len() == len,
            forall|j: int|
                0 <= j < len ==> stream@[j] == stream_byte(self.key(), self.nonce(), j),
    {
        let mut stream: Vec<u8> = Vec::new();
        let mut block = [0u8; 32];
        let mut i: usize = 0;
        while i < len
            invariant
                i <= len,
                stream@.len() == i,
                i % BLOCK != 0 ==> block@ == stream_block(
                    self.key(),
                    self.nonce(),
                    (i / BLOCK) as u64,
                ),
                forall|j: int|
                    0 <= j < i ==> stream@[j] == stream_byte(self.key(), self.nonce(), j),
            decreases len - i,
        {
            if i % BLOCK == 0 {
                block = self.block_stream((i / BLOCK) as u64);
            }
            stream.push(block[i % BLOCK]);
            proof {
                assert((i + 1) % 32 != 0 ==> (i + 1) / 32 == i / 32) by (nonlinear_arith);
            }
            i += 1;
        }
        stream
    }

    /// `data` combined with the key stream.
    pub fn encrypt(&self, data: &[u8]) -> (out: Vec<u8>)
        ensures
            out@ == cipher(self.key(), self.nonce(), data@),
            cipher(self.key(), self.nonce(), out@) == data@,
    {
        let stream = self.key_stream(data.len());
        let out = combine(data, stream.as_slice());
        proof {
            assert(out@ =~= cipher(self.key(), self.nonce(), data@));
            lemma_cipher_twice(self.key(), self.nonce(), data@);
        }
        out
    }

    /// What was encrypted with this key, decrypted.
    pub fn decrypt(&self, data: &[u8]) -> (out: Vec<u8>)
        ensures
            out@ == cipher(self.key(), self.nonce(), data@),
            cipher(self.key(), self.nonce(), out@) == data@,
    {
        self.encrypt(data)
    }

    /// A key for one purpose, derived from this key and the name of the purpose.
    pub fn derive_subkey(&self, context: &[u8]) -> (subkey: [u8; 32])
        ensures
            subkey@ == blake3_digest(subkey_tag() + self.key() + context@),
    {
        let mut input: Vec<u8> = Vec::new();
        input.extend_from_slice("triforge.subkey.v1".as_bytes());
        input.extend_from_slice(self.key.as_slice());
        input.extend_from_slice(context);
        assert(input@ =~= subkey_tag() + self.key() + context@);
        blake3_of(input.as_slice())
    }
}

/// `data` combined with `stream` by exclusive or, byte by byte.
pub fn combine(data: &[u8], stream: &[u8]) -> (out: Vec<u8>)
    requires
        stream@.len() >= data@.len(),
    ensures
        out@.len() == data@.len(),
        forall|i: int| 0 <= i < data@.len() ==> out@[i] == data@[i] ^ stream@[i],
{
    let mut out: Vec<u8> = Vec::new();
    let mut i: usize = 0;
    while i < data.len()
        invariant
            i <= data@.len() <= stream@.len(),
            out@.len() == i,
            forall|j: int| 0 <= j < i ==> out@[j] == data@[j] ^ stream@[j],
        decreases data@.len() - i,
    {
        out.push(data[i] ^ stream[i]);
        i += 1;
    }
    out
}

/// The nonce that a digest gives: its first twelve bytes.
pub fn nonce_of(digest: &[u8; 32]) -> (nonce: [u8; 12])
    ensures
        nonce@ == digest@.take(NONCE as int),
{
    let mut nonce = [0u8; 12];
    let mut i: usize = 0;
    while i < NONCE
        invariant
            i <= NONCE,
            forall|j: int| 0 <= j < i ==> nonce@[j] == digest@[j],
        decreases NONCE - i,
    {
        nonce.set(i, digest[i]);
        i += 1;
    }
    assert(nonce@ =~= digest@.take(NONCE as int));
    nonce
}

/// The id of `data`.
pub fn hash_data(data: &[u8]) -> (id: String)
    ensures
        id@ == hash_of(data@),
        id@.len() == 64,
{
    let digest = blake3_of(data);
    id_of_digest(digest.as_slice())
}

/// The id of an object of the kind tagged `obj_type` with the given content:
/// the id of its canonical form.
pub fn compute_object_hash(obj_type: &str, content: &[u8]) -> (id: String)
    ensures
        id@ == hash_of(crate::native_git::hash::object_bytes(obj_type.spec_bytes(), content@)),
        id@.len() == 64,
{
    let data = crate::native_git::hash::object_data(obj_type, content);
    hash_data(data.as_slice())
}

/// Whether `expected_hash` is the id of `data`.
pub fn verify_hash(data: &[u8], expected_hash: &str) -> (matches: bool)
    ensures
        matches == (hash_of(data@) == expected_hash@),
{
    let id = hash_data(data);
    crate::text::str_eq(id.as_str(), expected_hash)
}

/// The salt that a repository keeps, as it is written: in hexadecimal.
pub fn salt_to_hex(salt: &[u8; 32]) -> (text: String)
    ensures
        text@ == hex_string(salt@),
{
    id_of_digest(salt.as_slice())
}

/// The salt that the text of a repository's salt file gives: the text
/// without the white space around it must be hexadecimal for thirty-two
/// bytes or more, of which the first thirty-two are the salt.
pub open spec fn salt_in(text: Seq<char>) -> Result<Seq<u8>, StoreError> {
    let digits = trim(text);
    if !is_hex_string(digits) || hex_bytes(digits).len() < BLOCK {
        Err(StoreError::InvalidFormat)
    } else {
        Ok(hex_bytes(digits).take(BLOCK as int))
    }
}

/// Reads the salt of a repository out of the text of its salt file.
pub fn salt_from_hex(text: &str) -> (salt: Result<[u8; 32], StoreError>)
    ensures
        match salt {
            Ok(s) => salt_in(text@) == Ok::<Seq<u8>, StoreError>(s@),
            Err(e) => salt_in(text@) == Err::<Seq<u8>, StoreError>(e),
        },
{
    let digits = crate::text::trimmed(text);
    let bytes = match crate::hexcode::decode(digits.as_str()) {
        Some(bytes) => bytes,
        None => {
            return Err(StoreError::InvalidFormat);
        },
    };
    if bytes.len() < BLOCK {
        return Err(StoreError::InvalidFormat);
    }
    let mut salt = [0u8; 32];
    let mut i: usize = 0;
    while i < BLOCK
        invariant
            i <= BLOCK,
            bytes@.len() >= BLOCK,
            forall|j: int| 0 <= j < i ==> salt@[j] == bytes@[j],
        decreases BLOCK - i,
    {
        salt.set(i, bytes[i]);
        i += 1;
    }
    assert(salt@ =~= bytes@.take(BLOCK as int));
    Ok(salt)
}

} // verus!
