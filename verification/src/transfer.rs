//! What goes over the wire: objects in base64, and which objects to fetch.
//!
//! The `base64` crate does the coding, with the standard alphabet and
//! padding. The library relies on one thing only, that decoding undoes
//! encoding.

use crate::text::texts_of;
use base64::engine::general_purpose::STANDARD;
use base64::Engine;
use vstd::prelude::*;
use vstd::string::*;
use vstd::utf8::*;

verus! {

/// The longest data that is encoded: the text is a third longer than the
/// data, and its length must fit.
pub const MAX_ENCODED: usize = usize::MAX / 2;

/// The base64 text of `data`.
pub uninterp spec fn base64_text(data: Seq<u8>) -> Seq<char>;

/// The data that the bytes `text` stand for in base64, or `None` where they are not base64.
pub uninterp spec fn base64_data(text: Seq<u8>) -> Option<Seq<u8>>;

/// `Engine::encode` of `base64::engine::general_purpose::STANDARD`. The
/// text is a function of the data, and its bytes decode to the data. The
/// crate fails on data so long that the length of the text overflows; that
/// is left out.
#[verifier::external_body]
fn encode(data: &[u8]) -> (text: String)
    requires
        data@.len() <= MAX_ENCODED,
    ensures
        text@ == base64_text(data@),
        base64_data(encode_utf8(text@)) == Some(data@),
{
    STANDARD.encode(data)
}

/// `Engine::decode` of `base64::engine::general_purpose::STANDARD`, with its
/// error dropped. What is decoded is a function of the text.
#[verifier::external_body]
fn decode(text: &[u8]) -> (data: Option<Vec<u8>>)
    ensures
        data is Some <==> base64_data(text@) is Some,
        data matches Some(d) ==> base64_data(text@) == Some(d@),
{
    STANDARD.decode(text).ok()
}

/// An object's data as it is sent: in base64. Data that is too long to be
/// encoded gives `None`.
pub fn encode_payload(data: &[u8]) -> (text: Option<String>)
    ensures
        text is Some <==> data@.len() <= MAX_ENCODED,
        text matches Some(t) ==> t@ == base64_text(data@) && base64_data(encode_utf8(t@)) == Some(
            data@,
        ),
{
    if data.len() > MAX_ENCODED {
        None
    } else {
        Some(encode(data))
    }
}

/// An object's data as it was received: decoded where it is base64, and as it is where it is not.
pub fn decode_or_raw(data: Vec<u8>) -> (out: Vec<u8>)
    ensures
        out@ == match base64_data(data@) {
            Some(decoded) => decoded,
            None => data@,
        },
{
    match decode(data.as_slice()) {
        Some(decoded) => decoded,
        None => data,
    }
}

/// Whether `id` is among `ids`.
pub fn has_id(ids: &[String], id: &str) -> (found: bool)
    ensures
        found == texts_of(ids@).contains(id@),
{
    let mut i: usize = 0;
    while i < ids.len()
        invariant
            i <= ids@.len(),
            forall|j: int| 0 <= j < i ==> texts_of(ids@)[j] != id@,
        decreases ids@.len() - i,
    {
        if crate::text::str_eq(ids[i].as_str(), id) {
            assert(texts_of(ids@)[i as int] == id@);
            return true;
        }
        i += 1;
    }
    false
}

/// The ids of `remote` that `local` lacks, in the order of `remote`.
pub open spec fn missing(remote: Seq<Seq<char>>, local: Seq<Seq<char>>) -> Seq<Seq<char>> {
    remote.filter(|id: Seq<char>| !local.contains(id))
}

/// The objects to fetch: those that the remote has and the local repository lacks.
pub fn missing_objects(remote: &[String], local: &[String]) -> (wanted: Vec<String>)
    ensures
        texts_of(wanted@) == missing(texts_of(remote@), texts_of(local@)),
{
    let mut wanted: Vec<String> = Vec::new();
    let ghost all = texts_of(remote@);
    let ghost have = texts_of(local@);
    let ghost lacks = |id: Seq<char>| !have.contains(id);
    let mut i: usize = 0;
    assert(all.take(0) =~= Seq::<Seq<char>>::empty());
    assert(texts_of(wanted@) =~= Seq::<Seq<char>>::empty());
    while i < remote.len()
        invariant
            i <= remote@.len(),
            all == texts_of(remote@),
            have == texts_of(local@),
            lacks == |id: Seq<char>| !have.contains(id),
            texts_of(wanted@) == all.take(i as int).filter(lacks),
        decreases remote@.len() - i,
    {
        let found = has_id(local, remote[i].as_str());
        proof {
            let done = all.take(i as int);
            assert(all.take(i + 1) =~= done.push(remote@[i as int]@));
            Seq::lemma_filter_push(done, remote@[i as int]@, lacks);
            if !found {
                assert(texts_of(wanted@.push(remote@[i as int])) =~= texts_of(wanted@).push(
                    remote@[i as int]@,
                ));
            }
        }
        if !found {
            wanted.push(remote[i].clone());
        }
        i += 1;
    }
    assert(all.take(i as int) =~= all);
    wanted
}

} // verus!
