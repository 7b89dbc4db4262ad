//! Packs: several objects in one run of bytes, with a table that says where each lies.

use crate::errors::StoreError;
use crate::files::FileTree;
use crate::native_git::objects::ObjectType;
use crate::tri::crypto::EncryptionKey;
use crate::tri::objects::key_view;
use crate::tri::objects::read_result;
use vstd::prelude::*;
use vstd::string::*;

verus! {

/// Where one object lies in a pack.
#[derive(Debug)]
pub struct PackEntry {
    pub object_id: String,
    pub object_type: ObjectType,
    pub size: usize,
    pub offset: usize,
}

/// One row of the table, as a mathematical value.
pub struct PackEntryView {
    pub object_id: Seq<char>,
    pub object_type: ObjectType,
    pub size: int,
    pub offset: int,
}

impl View for PackEntry {
    type V = PackEntryView;

    open spec fn view(&self) -> PackEntryView {
        PackEntryView {
            object_id: self.object_id@,
            object_type: self.object_type,
            size: self.size as int,
            offset: self.offset as int,
        }
    }
}

/// The rows as mathematical values, in the same order.
pub open spec fn rows_of(entries: Seq<PackEntry>) -> Seq<PackEntryView> {
    entries.map_values(|e: PackEntry| e@)
}

/// A pack: the table, and the contents of the objects one after the other.
pub struct PackFile {
    pub entries: Vec<PackEntry>,
    pub data: Vec<u8>,
}

/// A pack as a mathematical value.
pub struct PackView {
    pub entries: Seq<PackEntryView>,
    pub data: Seq<u8>,
}

impl View for PackFile {
    type V = PackView;

    open spec fn view(&self) -> PackView {
        PackView { entries: rows_of(self.entries@), data: self.data@ }
    }
}

/// The pack of the objects `ids`, read out of the directory `files`: each
/// object's content is appended to the data, and its row gives its kind,
/// its size and the offset at which its content begins. The first object
/// that cannot be read gives its failure.
pub open spec fn pack_of(
    files: Map<Seq<char>, Seq<u8>>,
    ids: Seq<Seq<char>>,
    key: Option<(Seq<u8>, Seq<u8>)>,
    compress: bool,
) -> Result<PackView, StoreError>
    decreases ids.len(),
{
    if ids.len() == 0 {
        Ok(PackView { entries: Seq::empty(), data: Seq::empty() })
    } else {
        match pack_of(files, ids.drop_last(), key, compress) {
            Err(e) => Err(e),
            Ok(pack) => match read_result(files, ids.last(), key, compress) {
                Err(e) => Err(e),
                Ok((kind, content)) => Ok(
                    PackView {
                        entries: pack.entries.push(
                            PackEntryView {
                                object_id: ids.last(),
                                object_type: kind,
                                size: content.len() as int,
                                offset: pack.data.len() as int,
                            },
                        ),
                        data: pack.data + content,
                    },
                ),
            },
        }
    }
}

impl PackFile {
    /// Packs the objects `object_ids` of the repository whose directory is `repo_path`.
    pub fn create(
        repo_path: &FileTree,
        object_ids: &[String],
        encryption_key: Option<&EncryptionKey>,
        compress: bool,
    ) -> (pack: Result<PackFile, StoreError>)
        requires
            repo_path.wf(),
        ensures
            match pack {
                Ok(p) => pack_of(
                    repo_path@,
                    crate::text::texts_of(object_ids@),
                    key_view(encryption_key),
                    compress,
                ) == Ok::<PackView, StoreError>(p@),
                Err(e) => pack_of(
                    repo_path@,
                    crate::text::texts_of(object_ids@),
                    key_view(encryption_key),
                    compress,
                ) == Err::<PackView, StoreError>(e),
            },
    {
        let ghost ids = crate::text::texts_of(object_ids@);
        let ghost key = key_view(encryption_key);
        let mut entries: Vec<PackEntry> = Vec::new();
        let mut data: Vec<u8> = Vec::new();
        let mut i: usize = 0;
        assert(ids.take(0) =~= Seq::<Seq<char>>::empty());
        assert(rows_of(entries@) =~= Seq::<PackEntryView>::empty());
        while i < object_ids.len()
            invariant
                i <= object_ids@.len(),
                repo_path.wf(),
                ids == crate::text::texts_of(object_ids@),
                key == key_view(encryption_key),
                pack_of(repo_path@, ids.take(i as int), key, compress) == Ok::<
                    PackView,
                    StoreError,
                >(PackView { entries: rows_of(entries@), data: data@ }),
            decreases object_ids@.len() - i,
        {
            proof {
                assert(ids.take(i + 1).drop_last() =~= ids.take(i as int));
                assert(ids.take(i + 1).last() == object_ids@[i as int]@);
            }
            let id = &object_ids[i];
            match crate::tri::objects::read_object(
                repo_path,
                id.as_str(),
                encryption_key,
                compress,
            ) {
                Ok((object_type, content)) => {
                    let entry = PackEntry {
                        object_id: id.clone(),
                        object_type,
                        size: content.len(),
                        offset: data.len(),
                    };
                    let ghost rows = rows_of(entries@);
                    let ghost bytes = data@;
                    proof {
                        assert(rows_of(entries@.push(entry)) =~= rows.push(entry@));
                    }
                    entries.push(entry);
                    data.extend_from_slice(content.as_slice());
                    proof {
                        assert(rows_of(entries@) == rows.push(entry@));
                        assert(data@ == bytes + content@);
                    }
                },
                Err(e) => {
                    proof {
                        lemma_pack_failure_stays(repo_path@, ids, key, compress, i + 1);
                    }
                    return Err(e);
                },
            }
            i += 1;
        }
        assert(ids.take(i as int) =~= ids);
        Ok(PackFile { entries, data })
    }
}

/// Once the first `k` objects cannot be packed, no more of them can, and the failure is the same.
pub proof fn lemma_pack_failure_stays(
    files: Map<Seq<char>, Seq<u8>>,
    ids: Seq<Seq<char>>,
    key: Option<(Seq<u8>, Seq<u8>)>,
    compress: bool,
    k: int,
)
    requires
        0 <= k <= ids.len(),
        pack_of(files, ids.take(k), key, compress) is Err,
    ensures
        pack_of(files, ids, key, compress) == pack_of(files, ids.take(k), key, compress),
    decreases ids.len() - k,
{
    if k < ids.len() {
        assert(ids.take(k + 1).drop_last() =~= ids.take(k));
        lemma_pack_failure_stays(files, ids, key, compress, k + 1);
    } else {
        assert(ids.take(k) =~= ids);
    }
}

} // verus!
