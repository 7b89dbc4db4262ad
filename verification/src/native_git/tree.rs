//! Trees: the entries of a directory and their canonical encoding.
//!
//! A tree maps each name to a mode and the id of a child object. Its
//! encoding is the entries in the order of their names, each written as the
//! mode, a space, the name, a NUL byte, and the twenty raw bytes of the id.
//! Because the order is fixed, the same entries always encode to the same
//! bytes, in whatever order they were added.

use crate::bytes::find_byte;
use crate::bytes::first_index;
use crate::bytes::lemma_first_index;
use crate::bytes::lemma_first_index_unique;
use crate::errors::StoreError;
use crate::hexcode::hex_bytes;
use crate::hexcode::hex_string;
use crate::hexcode::is_hex_string;
use crate::hexcode::is_lower_hex_string;
use crate::hexcode::lemma_hex_text_round_trip;
use crate::native_git::objects::object_id;
use crate::native_git::objects::GitObject;
use crate::native_git::objects::ObjectType;
use crate::native_git::objects::ObjectView;
use crate::text::ascii_text;
use crate::text::lemma_ascii_utf8;
use crate::text::str_eq;
use crate::text::str_less;
use crate::text::text_of_utf8;
use crate::text::lemma_text_less_asymmetric;
use crate::text::lemma_text_less_total;
use crate::text::lemma_text_less_transitive;
use crate::text::text_less;
use vstd::prelude::*;
use vstd::string::*;
use vstd::utf8::*;

verus! {

/// An entry as a mathematical value.
pub struct EntryView {
    pub mode: Seq<char>,
    pub name: Seq<char>,
    pub hash: Seq<char>,
}

/// One entry of a tree: the mode of the child, its name, and its id in hexadecimal.
#[derive(Debug, Clone)]
pub struct TreeEntry {
    pub mode: String,
    pub name: String,
    pub hash: String,
}

impl View for TreeEntry {
    type V = EntryView;

    open spec fn view(&self) -> EntryView {
        EntryView { mode: self.mode@, name: self.name@, hash: self.hash@ }
    }
}

/// The mode of a regular file.
pub open spec fn mode_file() -> Seq<char> {
    seq!['1', '0', '0', '6', '4', '4']
}

/// The mode of a subtree.
pub open spec fn mode_tree() -> Seq<char> {
    seq!['0', '4', '0', '0', '0', '0']
}

/// The mode of an executable file.
pub open spec fn mode_executable() -> Seq<char> {
    seq!['1', '0', '0', '7', '5', '5']
}

/// Whether `mode` is one of the three modes that a builder writes.
pub open spec fn is_builder_mode(mode: Seq<char>) -> bool {
    mode == mode_file() || mode == mode_tree() || mode == mode_executable()
}

/// Whether every entry has one of the three modes that a builder writes.
pub open spec fn builder_modes(entries: Seq<EntryView>) -> bool {
    forall|i: int| 0 <= i < entries.len() ==> is_builder_mode((#[trigger] entries[i]).mode)
}

/// The entries as mathematical values, in the same order.
pub open spec fn entry_views(entries: Seq<TreeEntry>) -> Seq<EntryView> {
    entries.map_values(|e: TreeEntry| e@)
}

/// The names of the entries, in the same order.
pub open spec fn names_of(entries: Seq<EntryView>) -> Seq<Seq<char>> {
    entries.map_values(|e: EntryView| e.name)
}

/// Whether the entries stand in the strict order of their names, so that no name occurs twice.
pub open spec fn sorted_by_name(entries: Seq<EntryView>) -> bool {
    forall|i: int, j: int|
        0 <= i < j < entries.len() ==> text_less(
            (#[trigger] entries[i]).name,
            (#[trigger] entries[j]).name,
        )
}

/// The number of leading entries whose name comes before `name`: in sorted
/// entries, the place where an entry of that name is or belongs.
pub open spec fn rank(entries: Seq<EntryView>, name: Seq<char>) -> int
    decreases entries.len(),
{
    if entries.len() == 0 {
        0
    } else if text_less(entries[0].name, name) {
        1 + rank(entries.drop_first(), name)
    } else {
        0
    }
}

/// A position with only smaller names before it, and none smaller at it, is the rank.
pub proof fn lemma_rank_unique(entries: Seq<EntryView>, name: Seq<char>, k: int)
    requires
        0 <= k <= entries.len(),
        forall|j: int| 0 <= j < k ==> text_less((#[trigger] entries[j]).name, name),
        k < entries.len() ==> !text_less(entries[k].name, name),
    ensures
        rank(entries, name) == k,
    decreases entries.len(),
{
    if k > 0 {
        let rest = entries.drop_first();
        assert(text_less(entries[0].name, name));
        assert forall|j: int| 0 <= j < k - 1 implies text_less((#[trigger] rest[j]).name, name) by {
            assert(rest[j] == entries[j + 1]);
        }
        if k < entries.len() {
            assert(rest[k - 1] == entries[k]);
        }
        lemma_rank_unique(rest, name, k - 1);
    }
}

/// The entries with `entry` put in: in place of the entry of the same name
/// where there is one, else at the place that keeps the order.
pub open spec fn with_entry(entries: Seq<EntryView>, entry: EntryView) -> Seq<EntryView> {
    let k = rank(entries, entry.name);
    if k < entries.len() && entries[k].name == entry.name {
        entries.update(k, entry)
    } else {
        entries.insert(k, entry)
    }
}

/// The entries as a map from name to mode and id.
pub open spec fn tree_map(entries: Seq<EntryView>) -> Map<Seq<char>, (Seq<char>, Seq<char>)> {
    Map::new(
        |name: Seq<char>| names_of(entries).contains(name),
        |name: Seq<char>|
            {
                let e = entries[first_index(names_of(entries), name)];
                (e.mode, e.hash)
            },
    )
}

/// In sorted entries each name stands at one place only.
pub proof fn lemma_sorted_names_distinct(entries: Seq<EntryView>)
    requires
        sorted_by_name(entries),
    ensures
        names_of(entries).no_duplicates(),
        forall|i: int|
            0 <= i < entries.len() ==> first_index(names_of(entries), (#[trigger] entries[i]).name)
                == i,
{
    let names = names_of(entries);
    assert forall|i: int, j: int|
        0 <= i < names.len() && 0 <= j < names.len() && i != j implies names[i] != names[j] by {
        if i < j {
            assert(text_less(entries[i].name, entries[j].name));
            lemma_text_less_asymmetric(names[i], names[j]);
        } else {
            assert(text_less(entries[j].name, entries[i].name));
            lemma_text_less_asymmetric(names[j], names[i]);
        }
    }
    assert forall|i: int| 0 <= i < entries.len() implies first_index(
        names,
        (#[trigger] entries[i]).name,
    ) == i by {
        lemma_first_index(names, entries[i].name);
        let f = first_index(names, entries[i].name);
        assert(names[i] == entries[i].name);
        if f != i {
            assert(names[f] == names[i]);
        }
    }
}

/// Putting an entry into sorted entries keeps them sorted and changes the
/// map at the entry's name only.
pub proof fn lemma_with_entry(entries: Seq<EntryView>, entry: EntryView)
    requires
        sorted_by_name(entries),
    ensures
        sorted_by_name(with_entry(entries, entry)),
        tree_map(with_entry(entries, entry)) == tree_map(entries).insert(
            entry.name,
            (entry.mode, entry.hash),
        ),
{
    let k = rank(entries, entry.name);
    lemma_rank_bounds(entries, entry.name);
    let after = with_entry(entries, entry);
    let replace = k < entries.len() && entries[k].name == entry.name;
    if !replace {
        if k < entries.len() {
            lemma_text_less_total(entries[k].name, entry.name);
            assert(text_less(entry.name, entries[k].name));
        }
        assert forall|i: int, j: int| 0 <= i < j < after.len() implies text_less(
            (#[trigger] after[i]).name,
            (#[trigger] after[j]).name,
        ) by {
            if j < k {
                assert(after[i] == entries[i] && after[j] == entries[j]);
            } else if j == k {
                assert(after[i] == entries[i]);
            } else if i < k {
                assert(after[i] == entries[i] && after[j] == entries[j - 1]);
            } else if i == k {
                assert(after[j] == entries[j - 1]);
                if j - 1 > k {
                    assert(text_less(entries[k].name, entries[j - 1].name));
                    lemma_text_less_transitive(entry.name, entries[k].name, entries[j - 1].name);
                }
            } else {
                assert(after[i] == entries[i - 1] && after[j] == entries[j - 1]);
            }
        }
    } else {
        assert forall|i: int, j: int| 0 <= i < j < after.len() implies text_less(
            (#[trigger] after[i]).name,
            (#[trigger] after[j]).name,
        ) by {
            assert(after[i].name == entries[i].name);
            assert(after[j].name == entries[j].name);
        }
    }
    lemma_sorted_names_distinct(entries);
    lemma_sorted_names_distinct(after);
    let names = names_of(entries);
    let names_after = names_of(after);
    let want = tree_map(entries).insert(entry.name, (entry.mode, entry.hash));
    assert forall|n: Seq<char>| names_after.contains(n) <==> (names.contains(n) || n
        == entry.name) by {
        if names.contains(n) {
            let i = choose|i: int| 0 <= i < names.len() && names[i] == n;
            if replace {
                assert(names_after[i] == n);
            } else if i < k {
                assert(names_after[i] == n);
            } else {
                assert(names_after[i + 1] == n);
            }
        }
        if n == entry.name {
            assert(names_after[k] == n);
        }
        if names_after.contains(n) {
            let i = choose|i: int| 0 <= i < names_after.len() && names_after[i] == n;
            if replace {
                assert(names[i] == n);
            } else if i < k {
                assert(names[i] == n);
            } else if i > k {
                assert(names[i - 1] == n);
            }
        }
    }
    assert forall|n: Seq<char>| want.dom().contains(n) implies #[trigger] tree_map(after)[n]
        == want[n] by {
        if n == entry.name {
            assert(after[k].name == n);
        } else {
            let i = choose|i: int| 0 <= i < names.len() && names[i] == n;
            assert(entries[i].name == n);
            if replace {
                assert(after[i] == entries[i]);
            } else if i < k {
                assert(after[i] == entries[i]);
            } else {
                assert(after[i + 1] == entries[i]);
            }
        }
    }
    assert(tree_map(after) =~= want);
}

/// Putting an entry with a builder's mode among entries with builders' modes
/// leaves every entry with a builder's mode.
pub proof fn lemma_with_entry_modes(entries: Seq<EntryView>, entry: EntryView)
    requires
        builder_modes(entries),
        is_builder_mode(entry.mode),
    ensures
        builder_modes(with_entry(entries, entry)),
{
    let k = rank(entries, entry.name);
    lemma_rank_bounds(entries, entry.name);
    let after = with_entry(entries, entry);
    assert forall|i: int| 0 <= i < after.len() implies is_builder_mode(
        (#[trigger] after[i]).mode,
    ) by {
        if i == k {
        } else if k < entries.len() && entries[k].name == entry.name {
            assert(after[i] == entries[i]);
        } else if i < k {
            assert(after[i] == entries[i]);
        } else {
            assert(after[i] == entries[i - 1]);
        }
    }
}

/// The rank lies within the entries; every entry before it has a smaller
/// name, and the entry at it has none.
pub proof fn lemma_rank_bounds(entries: Seq<EntryView>, name: Seq<char>)
    ensures
        0 <= rank(entries, name) <= entries.len(),
        forall|j: int|
            0 <= j < rank(entries, name) ==> text_less((#[trigger] entries[j]).name, name),
        rank(entries, name) < entries.len() ==> !text_less(entries[rank(entries, name)].name, name),
    decreases entries.len(),
{
    if entries.len() > 0 && text_less(entries[0].name, name) {
        let rest = entries.drop_first();
        lemma_rank_bounds(rest, name);
        assert forall|j: int| 0 <= j < rank(entries, name) implies text_less(
            (#[trigger] entries[j]).name,
            name,
        ) by {
            if j > 0 {
                assert(entries[j] == rest[j - 1]);
            }
        }
    }
}

/// Sorted entries are fixed by the map they stand for: two sorted sequences
/// with the same map are the same sequence.
pub proof fn lemma_sorted_entries_unique(a: Seq<EntryView>, b: Seq<EntryView>)
    requires
        sorted_by_name(a),
        sorted_by_name(b),
        tree_map(a) == tree_map(b),
    ensures
        a == b,
    decreases a.len(),
{
    lemma_sorted_names_distinct(a);
    lemma_sorted_names_distinct(b);
    let na = names_of(a);
    let nb = names_of(b);
    assert forall|n: Seq<char>| na.contains(n) <==> nb.contains(n) by {
        assert(tree_map(a).dom().contains(n) <==> na.contains(n));
        assert(tree_map(b).dom().contains(n) <==> nb.contains(n));
    }
    if a.len() == 0 {
        if b.len() > 0 {
            assert(nb[0] == b[0].name);
            assert(nb.contains(b[0].name));
        }
        assert(a =~= b);
    } else {
        assert(na[0] == a[0].name);
        assert(na.contains(a[0].name));
        let j = choose|j: int| 0 <= j < nb.len() && nb[j] == a[0].name;
        assert(nb[0] == b[0].name);
        assert(nb.contains(b[0].name));
        let k = choose|k: int| 0 <= k < na.len() && na[k] == b[0].name;
        if j > 0 {
            assert(text_less(b[0].name, b[j].name));
            if k > 0 {
                assert(text_less(a[0].name, a[k].name));
                lemma_text_less_asymmetric(a[0].name, b[0].name);
            }
        }
        assert(a[0].name == b[0].name);
        assert(tree_map(a)[a[0].name] == tree_map(b)[a[0].name]);
        assert(a[0] == b[0]);
        let ta = a.drop_first();
        let tb = b.drop_first();
        assert(sorted_by_name(ta)) by {
            assert forall|i: int, j: int| 0 <= i < j < ta.len() implies text_less(
                (#[trigger] ta[i]).name,
                (#[trigger] ta[j]).name,
            ) by {
                assert(ta[i] == a[i + 1] && ta[j] == a[j + 1]);
            }
        }
        assert(sorted_by_name(tb)) by {
            assert forall|i: int, j: int| 0 <= i < j < tb.len() implies text_less(
                (#[trigger] tb[i]).name,
                (#[trigger] tb[j]).name,
            ) by {
                assert(tb[i] == b[i + 1] && tb[j] == b[j + 1]);
            }
        }
        lemma_tail_map(a);
        lemma_tail_map(b);
        lemma_sorted_entries_unique(ta, tb);
        assert(a =~= seq![a[0]] + ta);
        assert(b =~= seq![b[0]] + tb);
    }
}

/// The map of sorted entries without the first is the map without the first name.
proof fn lemma_tail_map(a: Seq<EntryView>)
    requires
        sorted_by_name(a),
        a.len() > 0,
    ensures
        tree_map(a.drop_first()) == tree_map(a).remove(a[0].name),
{
    let t = a.drop_first();
    let na = names_of(a);
    let nt = names_of(t);
    assert(sorted_by_name(t)) by {
        assert forall|i: int, j: int| 0 <= i < j < t.len() implies text_less(
            (#[trigger] t[i]).name,
            (#[trigger] t[j]).name,
        ) by {
            assert(t[i] == a[i + 1] && t[j] == a[j + 1]);
        }
    }
    lemma_sorted_names_distinct(a);
    lemma_sorted_names_distinct(t);
    let want = tree_map(a).remove(a[0].name);
    assert forall|n: Seq<char>| nt.contains(n) <==> (na.contains(n) && n != a[0].name) by {
        if nt.contains(n) {
            let i = choose|i: int| 0 <= i < nt.len() && nt[i] == n;
            assert(na[i + 1] == n);
            assert(text_less(a[0].name, a[i + 1].name));
            lemma_text_less_asymmetric(a[0].name, a[i + 1].name);
        }
        if na.contains(n) && n != a[0].name {
            let i = choose|i: int| 0 <= i < na.len() && na[i] == n;
            assert(nt[i - 1] == n);
        }
    }
    assert forall|n: Seq<char>| want.dom().contains(n) implies #[trigger] tree_map(t)[n]
        == want[n] by {
        let i = choose|i: int| 0 <= i < na.len() && na[i] == n;
        assert(a[i].name == n);
        assert(t[i - 1] == a[i]);
    }
    assert(tree_map(t) =~= want);
}

/// The number of raw bytes that an id takes in a tree.
pub const ID_BYTES: usize = 20;

/// One entry as it is written: mode, space, name, NUL, raw id.
pub open spec fn entry_bytes(entry: EntryView) -> Seq<u8> {
    encode_utf8(entry.mode) + seq![32u8] + encode_utf8(entry.name) + seq![0u8] + hex_bytes(
        entry.hash,
    )
}

/// The entries as they are written, one after the other.
pub open spec fn tree_bytes(entries: Seq<EntryView>) -> Seq<u8>
    decreases entries.len(),
{
    if entries.len() == 0 {
        Seq::empty()
    } else {
        entry_bytes(entries[0]) + tree_bytes(entries.drop_first())
    }
}

/// Writing one entry more appends its bytes.
pub proof fn lemma_tree_bytes_push(entries: Seq<EntryView>, entry: EntryView)
    ensures
        tree_bytes(entries.push(entry)) == tree_bytes(entries) + entry_bytes(entry),
    decreases entries.len(),
{
    let all = entries.push(entry);
    if entries.len() == 0 {
        assert(all.drop_first() =~= Seq::<EntryView>::empty());
        assert(tree_bytes(all.drop_first()) =~= Seq::<u8>::empty());
        assert(tree_bytes(entries) =~= Seq::<u8>::empty());
        assert(tree_bytes(all) =~= tree_bytes(entries) + entry_bytes(entry));
    } else {
        assert(all.drop_first() =~= entries.drop_first().push(entry));
        lemma_tree_bytes_push(entries.drop_first(), entry);
        assert(tree_bytes(all) =~= tree_bytes(entries) + entry_bytes(entry));
    }
}

/// Whether every id among the entries is hexadecimal text for whole bytes.
pub open spec fn all_hex(entries: Seq<EntryView>) -> bool {
    forall|i: int| 0 <= i < entries.len() ==> is_hex_string((#[trigger] entries[i]).hash)
}

/// The content of the tree object that holds `entries`. An id that is not
/// hexadecimal text cannot be written.
pub open spec fn build_content(entries: Seq<EntryView>) -> Result<Seq<u8>, StoreError> {
    if all_hex(entries) {
        Ok(tree_bytes(entries))
    } else {
        Err(StoreError::InvalidFormat)
    }
}

/// The entries that `data` holds, or `None` where `data` is cut short or
/// malformed. Each entry is read as: the mode up to the next space, the name
/// up to the next NUL byte, then twenty raw bytes of id, given back in
/// hexadecimal. Mode and name must be valid UTF-8.
pub open spec fn parse_entries(data: Seq<u8>) -> Option<Seq<EntryView>>
    decreases data.len(),
{
    let space = first_index(data, 32u8);
    let rest = data.skip(space + 1);
    let nul = first_index(rest, 0u8);
    let after = rest.skip(nul + 1);
    if data.len() == 0 {
        Some(Seq::empty())
    } else if space >= data.len() || !valid_utf8(data.take(space)) {
        None
    } else if nul >= rest.len() || !valid_utf8(rest.take(nul)) {
        None
    } else if after.len() < ID_BYTES {
        None
    } else {
        let entry = EntryView {
            mode: decode_utf8(data.take(space)),
            name: decode_utf8(rest.take(nul)),
            hash: hex_string(after.take(ID_BYTES as int)),
        };
        proof {
            lemma_first_index(data, 32u8);
            lemma_first_index(rest, 0u8);
        }
        match parse_entries(after.skip(ID_BYTES as int)) {
            Some(more) => Some(seq![entry] + more),
            None => None,
        }
    }
}

/// What `TreeBuilder::parse` returns for `object`.
pub open spec fn parse_result(object: ObjectView) -> Result<Seq<EntryView>, StoreError> {
    if object.obj_type != ObjectType::Tree {
        Err(StoreError::TypeMismatch)
    } else {
        match parse_entries(object.content) {
            Some(entries) => Ok(entries),
            None => Err(StoreError::InvalidFormat),
        }
    }
}

/// Whether an entry can be read back as it was written: no space among the
/// bytes of its mode, no NUL byte among those of its name, and an id of
/// forty lowercase hexadecimal digits.
pub open spec fn entry_ok(entry: EntryView) -> bool {
    &&& !encode_utf8(entry.mode).contains(32u8)
    &&& !encode_utf8(entry.name).contains(0u8)
    &&& entry.hash.len() == 2 * ID_BYTES
    &&& is_lower_hex_string(entry.hash)
}

/// Whether the name and the id of an entry can be read back as they were
/// written: no NUL byte among the bytes of the name, and an id of forty
/// lowercase hexadecimal digits. The name may hold spaces.
pub open spec fn name_and_id_ok(entry: EntryView) -> bool {
    &&& !encode_utf8(entry.name).contains(0u8)
    &&& entry.hash.len() == 2 * ID_BYTES
    &&& is_lower_hex_string(entry.hash)
}

/// Whether the name and the id of every entry can be read back.
pub open spec fn names_and_ids_ok(entries: Seq<EntryView>) -> bool {
    forall|i: int| 0 <= i < entries.len() ==> name_and_id_ok(#[trigger] entries[i])
}

/// One entry that was written is read back as it was, and reading goes on
/// with what follows it.
pub proof fn lemma_parse_one_entry(entry: EntryView, rest: Seq<u8>)
    requires
        entry_ok(entry),
    ensures
        parse_entries(entry_bytes(entry) + rest) == match parse_entries(rest) {
            Some(more) => Some(seq![entry] + more),
            None => None,
        },
{
    let mode = encode_utf8(entry.mode);
    let name = encode_utf8(entry.name);
    let id = hex_bytes(entry.hash);
    let data = entry_bytes(entry) + rest;
    lemma_hex_text_round_trip(entry.hash);
    assert(id.len() == ID_BYTES);
    assert(data =~= mode + seq![32u8] + (name + seq![0u8] + id + rest));
    lemma_field_in_bytes(mode, 32u8, name + seq![0u8] + id + rest);
    let space = first_index(data, 32u8);
    assert(space == mode.len());
    assert(data.take(space) == mode);
    let tail = data.skip(space + 1);
    assert(tail == name + seq![0u8] + id + rest);
    assert(tail =~= name + seq![0u8] + (id + rest));
    lemma_field_in_bytes(name, 0u8, id + rest);
    let nul = first_index(tail, 0u8);
    assert(nul == name.len());
    assert(tail.take(nul) == name);
    let after = tail.skip(nul + 1);
    assert(after == id + rest);
    assert(after.take(ID_BYTES as int) =~= id);
    assert(after.skip(ID_BYTES as int) =~= rest);
    encode_utf8_valid_utf8(entry.mode);
    encode_utf8_decode_utf8(entry.mode);
    encode_utf8_valid_utf8(entry.name);
    encode_utf8_decode_utf8(entry.name);
}

/// A field that does not hold its own closing byte ends where that byte
/// first stands, and what follows the byte is what was written after it.
proof fn lemma_field_in_bytes(field: Seq<u8>, close: u8, rest: Seq<u8>)
    requires
        !field.contains(close),
    ensures
        first_index(field + seq![close] + rest, close) == field.len(),
        (field + seq![close] + rest).take(field.len() as int) == field,
        (field + seq![close] + rest).skip(field.len() as int + 1) == rest,
{
    let data = field + seq![close] + rest;
    assert forall|j: int| 0 <= j < field.len() implies data[j] != close by {
        assert(data[j] == field[j]);
        assert(field.contains(field[j]));
    }
    assert(data[field.len() as int] == close);
    lemma_first_index_unique(data, close, field.len() as int);
    assert(data.take(field.len() as int) =~= field);
    assert(data.skip(field.len() as int + 1) =~= rest);
}

/// Reading what was written gives the entries back, in the order in which
/// they were written. Names may hold spaces.
pub proof fn lemma_parse_entries_of_tree_bytes(entries: Seq<EntryView>)
    requires
        forall|i: int| 0 <= i < entries.len() ==> entry_ok(#[trigger] entries[i]),
    ensures
        parse_entries(tree_bytes(entries)) == Some(entries),
    decreases entries.len(),
{
    if entries.len() == 0 {
        assert(tree_bytes(entries) =~= Seq::<u8>::empty());
    } else {
        let tail = entries.drop_first();
        assert(entry_ok(entries[0]));
        assert forall|i: int| 0 <= i < tail.len() implies entry_ok(#[trigger] tail[i]) by {
            assert(tail[i] == entries[i + 1]);
        }
        lemma_parse_entries_of_tree_bytes(tail);
        lemma_parse_one_entry(entries[0], tree_bytes(tail));
        assert(entries =~= seq![entries[0]] + tail);
    }
}

/// The entries of a tree under construction, kept in the order of their names.
pub struct TreeBuilder {
    entries: Vec<TreeEntry>,
}

impl TreeBuilder {
    /// The entries, in the order of their names.
    pub closed spec fn entries(self) -> Seq<EntryView> {
        entry_views(self.entries@)
    }

    /// The entries stand in the strict order of their names, and each has
    /// the mode of a regular file, of a subtree or of an executable file.
    pub open spec fn wf(self) -> bool {
        sorted_by_name(self.entries()) && builder_modes(self.entries())
    }

    /// The tree as a map from name to mode and id.
    pub open spec fn view(self) -> Map<Seq<char>, (Seq<char>, Seq<char>)> {
        tree_map(self.entries())
    }

    /// A tree without entries.
    pub fn new() -> (builder: TreeBuilder)
        ensures
            builder.wf(),
            builder.entries() == Seq::<EntryView>::empty(),
            builder@ == Map::<Seq<char>, (Seq<char>, Seq<char>)>::empty(),
    {
        let builder = TreeBuilder { entries: Vec::new() };
        assert(builder.entries() =~= Seq::<EntryView>::empty());
        assert(builder@ =~= Map::<Seq<char>, (Seq<char>, Seq<char>)>::empty());
        builder
    }

    /// Puts `entry` in, at the place that its name gives it.
    fn put(&mut self, entry: TreeEntry)
        requires
            old(self).wf(),
            is_builder_mode(entry.mode@),
        ensures
            final(self).wf(),
            final(self).entries() == with_entry(old(self).entries(), entry@),
            final(self)@ == old(self)@.insert(entry.name@, (entry.mode@, entry.hash@)),
    {
        let ghost before = self.entries();
        let mut k: usize = 0;
        while k < self.entries.len() && str_less(
            self.entries[k].name.as_str(),
            entry.name.as_str(),
        )
            invariant
                k <= self.entries@.len(),
                self.entries() == before,
                forall|j: int| 0 <= j < k ==> text_less((#[trigger] before[j]).name, entry.name@),
            decreases self.entries@.len() - k,
        {
            k += 1;
        }
        proof {
            lemma_rank_unique(before, entry.name@, k as int);
            lemma_with_entry(before, entry@);
            lemma_with_entry_modes(before, entry@);
        }
        let ghost added = entry@;
        if k < self.entries.len() && str_eq(self.entries[k].name.as_str(), entry.name.as_str()) {
            self.entries.set(k, entry);
            assert(self.entries() =~= before.update(k as int, added));
        } else {
            self.entries.insert(k, entry);
            assert(self.entries() =~= before.insert(k as int, added));
        }
    }

    /// Adds a regular file, in place of any entry of the same name.
    pub fn add_file(&mut self, name: String, hash: String)
        requires
            old(self).wf(),
        ensures
            final(self).wf(),
            final(self).entries() == with_entry(
                old(self).entries(),
                EntryView { mode: mode_file(), name: name@, hash: hash@ },
            ),
            final(self)@ == old(self)@.insert(name@, (mode_file(), hash@)),
    {
        proof {
            reveal_strlit("100644");
        }
        let mode = "100644".to_string();
        assert(mode@ =~= mode_file());
        self.put(TreeEntry { mode, name, hash });
    }

    /// Adds a subtree, in place of any entry of the same name.
    pub fn add_tree(&mut self, name: String, hash: String)
        requires
            old(self).wf(),
        ensures
            final(self).wf(),
            final(self).entries() == with_entry(
                old(self).entries(),
                EntryView { mode: mode_tree(), name: name@, hash: hash@ },
            ),
            final(self)@ == old(self)@.insert(name@, (mode_tree(), hash@)),
    {
        proof {
            reveal_strlit("040000");
        }
        let mode = "040000".to_string();
        assert(mode@ =~= mode_tree());
        self.put(TreeEntry { mode, name, hash });
    }

    /// Adds an executable file, in place of any entry of the same name.
    pub fn add_executable(&mut self, name: String, hash: String)
        requires
            old(self).wf(),
        ensures
            final(self).wf(),
            final(self).entries() == with_entry(
                old(self).entries(),
                EntryView { mode: mode_executable(), name: name@, hash: hash@ },
            ),
            final(self)@ == old(self)@.insert(name@, (mode_executable(), hash@)),
    {
        proof {
            reveal_strlit("100755");
        }
        let mode = "100755".to_string();
        assert(mode@ =~= mode_executable());
        self.put(TreeEntry { mode, name, hash });
    }

    /// The tree object that holds the entries. An id that is not hexadecimal
    /// text is `InvalidFormat`.
    pub fn build(self) -> (object: Result<GitObject, StoreError>)
        ensures
            match object {
                Ok(o) => build_content(self.entries()) == Ok::<Seq<u8>, StoreError>(o.content@)
                    && o.obj_type == ObjectType::Tree && o.hash@ == object_id(
                    ObjectType::Tree,
                    o.content@,
                ),
                Err(e) => build_content(self.entries()) == Err::<Seq<u8>, StoreError>(e),
            },
            self.wf() && names_and_ids_ok(self.entries()) ==> (object is Ok && parse_result(
                object->Ok_0@,
            ) == Ok::<Seq<EntryView>, StoreError>(self.entries())),
    {
        proof {
            if self.wf() && names_and_ids_ok(self.entries()) {
                lemma_builder_entries_ok(self.entries());
                lemma_entries_ok_build(self.entries());
                lemma_parse_entries_of_tree_bytes(self.entries());
            }
        }
        let ghost all = self.entries();
        let mut content: Vec<u8> = Vec::new();
        let mut i: usize = 0;
        assert(all.take(0) =~= Seq::<EntryView>::empty());
        while i < self.entries.len()
            invariant
                i <= self.entries@.len(),
                all == self.entries(),
                content@ == tree_bytes(all.take(i as int)),
                all_hex(all.take(i as int)),
            decreases self.entries@.len() - i,
        {
            let entry = &self.entries[i];
            let id = match crate::hexcode::decode(entry.hash.as_str()) {
                Some(id) => id,
                None => {
                    assert(!is_hex_string(all[i as int].hash));
                    return Err(StoreError::InvalidFormat);
                },
            };
            content.extend_from_slice(entry.mode.as_str().as_bytes());
            content.push(32u8);
            content.extend_from_slice(entry.name.as_str().as_bytes());
            content.push(0u8);
            content.extend_from_slice(id.as_slice());
            proof {
                let done = all.take(i as int);
                assert(all.take(i + 1) =~= done.push(all[i as int]));
                lemma_tree_bytes_push(done, all[i as int]);
                assert(content@ =~= tree_bytes(done) + entry_bytes(all[i as int]));
                assert forall|j: int| 0 <= j < i + 1 implies is_hex_string(
                    (#[trigger] all.take(i + 1)[j]).hash,
                ) by {
                    if j < i {
                        assert(all.take(i + 1)[j] == done[j]);
                    }
                }
            }
            i += 1;
        }
        assert(all.take(i as int) =~= all);
        Ok(GitObject::new(ObjectType::Tree, content))
    }

    /// The entries that a tree object holds. An object of another kind is
    /// `TypeMismatch`; content that is cut short or malformed is `InvalidFormat`.
    pub fn parse(obj: &GitObject) -> (entries: Result<Vec<TreeEntry>, StoreError>)
        ensures
            match entries {
                Ok(v) => parse_result(obj@) == Ok::<Seq<EntryView>, StoreError>(entry_views(v@)),
                Err(e) => parse_result(obj@) == Err::<Seq<EntryView>, StoreError>(e),
            },
    {
        if obj.obj_type != ObjectType::Tree {
            return Err(StoreError::TypeMismatch);
        }
        let data = obj.content.as_slice();
        let mut entries: Vec<TreeEntry> = Vec::new();
        let mut pos: usize = 0;
        assert(data@.skip(0) =~= data@);
        assert(entry_views(entries@) =~= Seq::<EntryView>::empty());
        while pos < data.len()
            invariant
                pos <= data.len(),
                obj.obj_type == ObjectType::Tree,
                data@ == obj.content@,
                parse_entries(data@) == match parse_entries(data@.skip(pos as int)) {
                    Some(more) => Some(entry_views(entries@) + more),
                    None => None,
                },
            decreases data.len() - pos,
        {
            let ghost tail = data@.skip(pos as int);
            let ghost done = entry_views(entries@);
            let space = find_byte(data, pos, 32u8);
            if space >= data.len() {
                return Err(StoreError::InvalidFormat);
            }
            assert(tail.take(space - pos) =~= data@.subrange(pos as int, space as int));
            let mode = match text_of_utf8(vstd::slice::slice_subrange(data, pos, space)) {
                Some(mode) => mode,
                None => {
                    return Err(StoreError::InvalidFormat);
                },
            };
            let ghost rest = tail.skip(space - pos + 1);
            assert(rest =~= data@.skip(space + 1));
            let nul = find_byte(data, space + 1, 0u8);
            if nul >= data.len() {
                return Err(StoreError::InvalidFormat);
            }
            assert(rest.take(nul - space - 1) =~= data@.subrange(space + 1, nul as int));
            let name = match text_of_utf8(vstd::slice::slice_subrange(data, space + 1, nul)) {
                Some(name) => name,
                None => {
                    return Err(StoreError::InvalidFormat);
                },
            };
            let ghost after = rest.skip(nul - space - 1 + 1);
            assert(after =~= data@.skip(nul + 1));
            if data.len() - (nul + 1) < ID_BYTES {
                return Err(StoreError::InvalidFormat);
            }
            assert(after.take(ID_BYTES as int) =~= data@.subrange(nul + 1, nul + 1 + ID_BYTES));
            assert(after.skip(ID_BYTES as int) =~= data@.skip(nul + 1 + ID_BYTES));
            let hash = crate::native_git::hash::id_of_digest(
                vstd::slice::slice_subrange(data, nul + 1, nul + 1 + ID_BYTES),
            );
            let entry = TreeEntry { mode, name, hash };
            proof {
                let more = parse_entries(after.skip(ID_BYTES as int));
                if more is Some {
                    assert(done + (seq![entry@] + more->0) =~= done.push(entry@) + more->0);
                }
                assert(entry_views(entries@.push(entry)) =~= done.push(entry@));
            }
            entries.push(entry);
            pos = nul + 1 + ID_BYTES;
        }
        proof {
            assert(data@.skip(pos as int) =~= Seq::<u8>::empty());
            assert(entry_views(entries@) + Seq::<EntryView>::empty() =~= entry_views(entries@));
        }
        Ok(entries)
    }
}

/// The three modes that a builder writes hold no space.
pub proof fn lemma_modes_have_no_space()
    ensures
        !encode_utf8(mode_file()).contains(32u8),
        !encode_utf8(mode_tree()).contains(32u8),
        !encode_utf8(mode_executable()).contains(32u8),
{
    let file = seq![49u8, 48u8, 48u8, 54u8, 52u8, 52u8];
    let tree = seq![48u8, 52u8, 48u8, 48u8, 48u8, 48u8];
    let exec = seq![49u8, 48u8, 48u8, 55u8, 53u8, 53u8];
    lemma_ascii_utf8(file);
    lemma_ascii_utf8(tree);
    lemma_ascii_utf8(exec);
    assert(ascii_text(file) =~= mode_file());
    assert(ascii_text(tree) =~= mode_tree());
    assert(ascii_text(exec) =~= mode_executable());
}

/// The encoding is canonical: two builders that hold the same entries,
/// however and in whatever order these were added, hold them in the same
/// order and build the same content.
pub proof fn lemma_same_entries_same_bytes(a: TreeBuilder, b: TreeBuilder)
    requires
        a.wf(),
        b.wf(),
        a@ == b@,
    ensures
        a.entries() == b.entries(),
        build_content(a.entries()) == build_content(b.entries()),
{
    lemma_sorted_entries_unique(a.entries(), b.entries());
}

/// Adding two entries of different names gives the same tree in either order.
pub proof fn lemma_with_entry_commutes(entries: Seq<EntryView>, x: EntryView, y: EntryView)
    requires
        sorted_by_name(entries),
        x.name != y.name,
    ensures
        with_entry(with_entry(entries, x), y) == with_entry(with_entry(entries, y), x),
{
    lemma_with_entry(entries, x);
    lemma_with_entry(entries, y);
    let xy = with_entry(with_entry(entries, x), y);
    let yx = with_entry(with_entry(entries, y), x);
    lemma_with_entry(with_entry(entries, x), y);
    lemma_with_entry(with_entry(entries, y), x);
    assert(tree_map(xy) =~= tree_map(yx));
    lemma_sorted_entries_unique(xy, yx);
}

/// The entries of a builder can be read back where their names and ids can:
/// the modes that a builder writes hold no space.
pub proof fn lemma_builder_entries_ok(entries: Seq<EntryView>)
    requires
        builder_modes(entries),
        names_and_ids_ok(entries),
    ensures
        forall|i: int| 0 <= i < entries.len() ==> entry_ok(#[trigger] entries[i]),
{
    lemma_modes_have_no_space();
    assert forall|i: int| 0 <= i < entries.len() implies entry_ok(#[trigger] entries[i]) by {
        assert(is_builder_mode(entries[i].mode));
        assert(name_and_id_ok(entries[i]));
    }
}

/// What a builder holds can be built, and what was built is parsed into the
/// builder's entries: each of them once, with its mode, name and id, in the
/// ascending order of the names. This holds of every builder whose names hold
/// no NUL byte and whose ids are forty lowercase hexadecimal digits.
pub proof fn lemma_build_then_parse(builder: TreeBuilder, object: ObjectView)
    requires
        builder.wf(),
        names_and_ids_ok(builder.entries()),
        object.obj_type == ObjectType::Tree,
        object.content == tree_bytes(builder.entries()),
    ensures
        build_content(builder.entries()) == Ok::<Seq<u8>, StoreError>(object.content),
        parse_result(object) == Ok::<Seq<EntryView>, StoreError>(builder.entries()),
        sorted_by_name(builder.entries()),
        tree_map(builder.entries()) == builder@,
{
    lemma_builder_entries_ok(builder.entries());
    lemma_entries_ok_build(builder.entries());
    lemma_parse_entries_of_tree_bytes(builder.entries());
}

/// Entries that can be read back can be written.
pub proof fn lemma_entries_ok_build(entries: Seq<EntryView>)
    requires
        forall|i: int| 0 <= i < entries.len() ==> entry_ok(#[trigger] entries[i]),
    ensures
        build_content(entries) == Ok::<Seq<u8>, StoreError>(tree_bytes(entries)),
{
    assert forall|i: int| 0 <= i < entries.len() implies is_hex_string(
        (#[trigger] entries[i]).hash,
    ) by {
        assert(entry_ok(entries[i]));
    }
}

} // verus!
