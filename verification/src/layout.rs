//! How the files of an index are laid out, byte by byte.

use crate::error::StorageError;
use crate::filemeta;
use crate::filemeta::StateView;
use crate::indexer;
use crate::postings;
use crate::storage;
use crate::storage::IndexView;
use crate::text;
use vstd::bytes::*;
use vstd::prelude::*;
use vstd::utf8::*;

verus! {

// ---------------------------------------------------------------------------
// Numbers and posting lists
// ---------------------------------------------------------------------------

/// A number is written in bytes that give it seven bits each, the lowest first; all but the
/// last have their high bit set, and there are no more of them than it takes.
pub proof fn law_varint_layout(value: nat)
    ensures
        ({
            let bytes = postings::varint(value);
            &&& bytes.len() > 0
            &&& bytes.last() < 128
            &&& bytes.len() > 1 ==> bytes.last() > 0
            &&& forall|k: int| 0 <= k < bytes.len() - 1 ==> #[trigger] bytes[k] >= 128
            &&& bytes.fold_right(|b: u8, n: int| b % 128 + 128 * n, 0int) == value
        }),
    decreases value,
{
    let bytes = postings::varint(value);
    let f = |b: u8, n: int| b % 128 + 128 * n;
    bytes.lemma_fold_right_alt(f, 0int);
    if value < 128 {
        assert(bytes =~= seq![value as u8]);
        assert(bytes.subrange(1, 1) =~= Seq::empty());
        reveal_with_fuel(Seq::fold_right_alt, 2);
    } else {
        let rest = postings::varint(value / 128);
        law_varint_layout(value / 128);
        rest.lemma_fold_right_alt(f, 0int);
        assert(bytes.subrange(1, bytes.len() as int) =~= rest);
        assert(bytes.last() == rest.last());
        assert forall|k: int| 0 <= k < bytes.len() - 1 implies #[trigger] bytes[k] >= 128 by {
            if k > 0 {
                assert(bytes[k] == rest[k - 1]);
            }
        }
        assert(bytes[0] % 128 == value % 128);
        assert(bytes.fold_right_alt(f, 0int) == f(bytes[0], rest.fold_right_alt(f, 0int)));
        if rest.len() == 1 {
            assert(rest.fold_right_alt(f, 0int) == value / 128);
            assert(rest.subrange(1, 1) =~= Seq::empty());
            reveal_with_fuel(Seq::fold_right_alt, 2);
        }
    }
}

/// A number is read from the bytes up to the first that has its high bit clear, as what their
/// low seven bits give modulo 2^32. There are at most five of them; where the first five have
/// it set, the number is too long if more bytes follow, and otherwise cut off, as it is where
/// fewer bytes all have it set.
pub proof fn law_varint_is_read_up_to_its_end(data: Seq<u8>, n: int)
    requires
        0 <= n <= data.len(),
        forall|k: int| 0 <= k < n ==> #[trigger] data[k] >= 128,
    ensures
        n < 5 && n < data.len() && data[n] < 128 ==> postings::read_varint(data) is Ok && postings::read_varint(
            data,
        )->Ok_0 == (
            (data.take(n + 1).fold_right(|b: u8, m: int| b % 128 + 128 * m, 0int) % 0x1_0000_0000) as u32,
            (n + 1) as nat,
        ),
        n == data.len() && n <= 5 ==> postings::read_varint(data) == Err::<(u32, nat), StorageError>(
            StorageError::VarintTruncated,
        ),
        n == 5 && data.len() > 5 ==> postings::read_varint(data) == Err::<(u32, nat), StorageError>(
            StorageError::VarintOverflow,
        ),
{
    postings::lemma_continuation_run(data, n as nat);
    lemma_payload_is_fold(data.take(n + 1));
}

proof fn lemma_payload_is_fold(bytes: Seq<u8>)
    ensures
        postings::varint_payload(bytes) == bytes.fold_right(|b: u8, n: int| b % 128 + 128 * n, 0int),
    decreases bytes.len(),
{
    let f = |b: u8, n: int| b % 128 + 128 * n;
    bytes.lemma_fold_right_alt(f, 0int);
    if bytes.len() > 0 {
        let rest = bytes.drop_first();
        lemma_payload_is_fold(rest);
        rest.lemma_fold_right_alt(f, 0int);
        assert(bytes.subrange(1, bytes.len() as int) =~= rest);
    }
}

/// A posting list is written as its first file ID and then the difference of each to the one
/// before: one more ID adds the number of its difference, and leaves what stands before.
pub proof fn law_posting_list_layout(ids: Seq<u32>, id: u32)
    requires
        postings::ascending(ids.push(id)),
    ensures
        postings::encoded_ids(ids.push(id), 0) == postings::encoded_ids(ids, 0) + postings::varint(
            if ids.len() == 0 {
                id as nat
            } else {
                (id - ids.last()) as nat
            },
        ),
        postings::encoded_ids(Seq::empty(), 0) == Seq::<u8>::empty(),
{
    lemma_encoded_push(ids, 0, id);
}

proof fn lemma_encoded_push(ids: Seq<u32>, prev: u32, id: u32)
    ensures
        postings::encoded_ids(ids.push(id), prev) == postings::encoded_ids(ids, prev) + postings::varint(
            (id - (if ids.len() == 0 {
                prev
            } else {
                ids.last()
            })) as nat,
        ),
    decreases ids.len(),
{
    let all = ids.push(id);
    if ids.len() == 0 {
        let none = Seq::<u32>::empty();
        assert(ids =~= none);
        assert(all.drop_first() =~= none);
        assert(postings::encoded_ids(none, id) =~= Seq::<u8>::empty());
        let v = postings::varint((id - prev) as nat);
        assert(postings::encoded_ids(all, prev) == v + postings::encoded_ids(none, id));
        assert(v + Seq::<u8>::empty() =~= Seq::<u8>::empty() + v);
    } else {
        let rest = ids.drop_first();
        lemma_encoded_push(rest, ids[0], id);
        assert(all.drop_first() =~= rest.push(id));
        if rest.len() > 0 {
            assert(rest.last() == ids.last());
        } else {
            assert(ids.last() == ids[0]);
        }
        let a = postings::varint((ids[0] - prev) as nat);
        let b = postings::encoded_ids(rest, ids[0]);
        let c = postings::varint(
            (id - (if rest.len() == 0 {
                ids[0]
            } else {
                rest.last()
            })) as nat,
        );
        assert(a + (b + c) =~= (a + b) + c);
    }
}

/// In a posting list with masks, two bytes follow every number, whatever they are: what
/// follows them is read as it would be after the file ID that the number gives.
pub proof fn law_masks_are_skipped(delta: u32, prev: u32, a: u8, b: u8, rest: Seq<u8>)
    requires
        prev + delta <= u32::MAX,
    ensures
        postings::decoded_ids(postings::varint(delta as nat) + seq![a, b] + rest, prev, 2) == (
        match postings::decoded_ids(rest, (prev + delta) as u32, 2) {
            Ok(ids) => Ok::<Seq<u32>, StorageError>(seq![(prev + delta) as u32] + ids),
            Err(e) => Err(e),
        }),
{
    let v = postings::varint(delta as nat);
    let data = v + seq![a, b] + rest;
    let tail = seq![a, b] + rest;
    postings::law_varint_round_trip(delta, tail);
    law_varint_layout(delta as nat);
    assert(data =~= v + tail);
    assert(data.skip((v.len() + 2) as int) =~= rest);
}

// ---------------------------------------------------------------------------
// The lookup table
// ---------------------------------------------------------------------------

/// The lookup table starts with the letters NGI and a one, the version, which is three, the
/// numbers of entries and of files, and eight bytes that are zero. Then comes, for each hash
/// in ascending order, an entry of sixteen bytes: the hash, and where among the postings its
/// list stands and how many bytes it takes. Numbers are written with their lowest byte
/// first.
#[verifier::rlimit(40)]
pub proof fn law_lookup_table_layout(lists: Map<u64, Seq<u32>>, num_files: nat, k: int)
    requires
        lists.dom().finite(),
        lists.len() <= usize::MAX,
        num_files <= u64::MAX,
        storage::writable(lists),
        0 <= k < lists.len(),
    ensures
        ({
            let hashes = storage::sorted_hashes(lists.dom());
            let lookup = storage::lookup_bytes(lists, num_files);
            let postings = storage::postings_bytes(hashes, lists);
            let offset = spec_u32_from_le_bytes(lookup.subrange(40 + 16 * k, 44 + 16 * k)) as int;
            let length = spec_u32_from_le_bytes(lookup.subrange(44 + 16 * k, 48 + 16 * k)) as int;
            &&& lookup.len() == 32 + 16 * lists.len()
            &&& lookup.take(4) == seq![78u8, 71, 73, 1]
            &&& lookup.subrange(4, 8) == spec_u32_to_le_bytes(3)
            &&& lookup.subrange(8, 16) == spec_u64_to_le_bytes(lists.len() as u64)
            &&& lookup.subrange(16, 24) == spec_u64_to_le_bytes(num_files as u64)
            &&& forall|i: int| 24 <= i < 32 ==> #[trigger] lookup[i] == 0
            &&& lookup.subrange(32 + 16 * k, 40 + 16 * k) == spec_u64_to_le_bytes(hashes[k])
            &&& offset + length <= postings.len()
            &&& postings.subrange(offset, offset + length) == postings::encoded_ids(lists[hashes[k]], 0)
            &&& lists.dom().contains(hashes[k])
            &&& k > 0 ==> hashes[k - 1] < hashes[k]
        }),
{
    let hashes = storage::sorted_hashes(lists.dom());
    let lookup = storage::lookup_bytes(lists, num_files);
    lemma_auto_spec_u64_to_from_le_bytes();
    lemma_auto_spec_u32_to_from_le_bytes();
    storage::lemma_sorted_exists(lists.dom());
    storage::lemma_table_len(hashes, lists);
    storage::lemma_entry_layout(hashes, lists, k);
    let table = storage::table_bytes(hashes, lists);
    let entry = table.subrange(16 * k, 16 * k + 16);
    let off = storage::postings_bytes(hashes.take(k), lists).len();
    let len = postings::encoded_ids(lists[hashes[k]], 0).len();
    assert(hashes.contains(hashes[k]));
    assert(lookup.len() == 32 + 16 * hashes.len());
    assert(lookup.take(4) =~= seq![78u8, 71, 73, 1]);
    assert(lookup.subrange(4, 8) =~= spec_u32_to_le_bytes(3));
    assert(lookup.subrange(8, 16) =~= spec_u64_to_le_bytes(hashes.len() as u64));
    assert(lookup.subrange(16, 24) =~= spec_u64_to_le_bytes(num_files as u64));
    assert(lookup.subrange(32 + 16 * k, 48 + 16 * k) =~= entry);
    assert(lookup.subrange(32 + 16 * k, 40 + 16 * k) =~= entry.subrange(0, 8));
    assert(lookup.subrange(40 + 16 * k, 44 + 16 * k) =~= entry.subrange(8, 12));
    assert(lookup.subrange(44 + 16 * k, 48 + 16 * k) =~= entry.subrange(12, 16));
    assert(entry.subrange(0, 8) =~= spec_u64_to_le_bytes(hashes[k]));
    assert(entry.subrange(8, 12) =~= spec_u32_to_le_bytes(off as u32));
    assert(entry.subrange(12, 16) =~= spec_u32_to_le_bytes(len as u32));
}

/// Which lookup tables are taken, and why others are not: one of fewer than 32 bytes is too
/// small, one that does not start with the letters NGI and a one is none, a version is known
/// where it is one, two or three, and there is room for the entries that are announced.
pub proof fn law_header_is_checked(lookup: Seq<u8>)
    ensures
        ({
            let version = spec_u32_from_le_bytes(lookup.subrange(4, 8));
            let entries = spec_u64_from_le_bytes(lookup.subrange(8, 16));
            let read = storage::header_fields(lookup);
            let small = lookup.len() < 32;
            let foreign = !small && !(lookup[0] == 78 && lookup[1] == 71 && lookup[2] == 73 && lookup[3] == 1);
            let unknown = !small && !foreign && !(1 <= version <= 3);
            let cut = !small && !foreign && !unknown && lookup.len() < 32 + 16 * entries;
            &&& small <==> read == Err::<(u32, u64), StorageError>(StorageError::LookupTooSmall)
            &&& foreign <==> read == Err::<(u32, u64), StorageError>(StorageError::BadMagic)
            &&& unknown <==> read == Err::<(u32, u64), StorageError>(StorageError::UnsupportedVersion(version))
            &&& cut <==> read == Err::<(u32, u64), StorageError>(
                StorageError::LookupTruncated { num_entries: entries, actual: lookup.len() as usize },
            )
            &&& !small && !foreign && !unknown && !cut <==> read == Ok::<(u32, u64), StorageError>((version, entries))
        }),
{
    if lookup.len() >= 32 {
        let start = lookup.take(4);
        if lookup[0] == 78 && lookup[1] == 71 && lookup[2] == 73 && lookup[3] == 1 {
            assert(start =~= storage::magic());
        } else {
            assert(start[0] == lookup[0] && start[1] == lookup[1] && start[2] == lookup[2] && start[3] == lookup[3]);
        }
    }
}

// ---------------------------------------------------------------------------
// File metadata
// ---------------------------------------------------------------------------

/// File metadata is the number of files in eight bytes and then, for each, the length of the
/// path in four bytes, the path, and the modification time and the size in eight bytes
/// each. Numbers are written with their lowest byte first.
pub proof fn law_filemeta_layout(states: Seq<StateView>)
    requires
        states.len() > 0,
    ensures
        ({
            let bytes = filemeta::filemeta_bytes(states);
            let path = encode_utf8(states[0].path);
            let end = 12 + path.len() as int;
            &&& bytes.take(8) == spec_u64_to_le_bytes(states.len() as u64)
            &&& bytes.subrange(8, 12) == spec_u32_to_le_bytes(path.len() as u32)
            &&& bytes.subrange(12, end) == path
            &&& bytes.subrange(end, end + 8) == spec_u64_to_le_bytes(states[0].mtime)
            &&& bytes.subrange(end + 8, end + 16) == spec_u64_to_le_bytes(states[0].size)
            &&& bytes.skip(end + 16) == filemeta::filemeta_bytes(states.drop_first()).skip(8)
        }),
{
    let bytes = filemeta::filemeta_bytes(states);
    let path = encode_utf8(states[0].path);
    let end = 12 + path.len() as int;
    lemma_auto_spec_u64_to_from_le_bytes();
    lemma_auto_spec_u32_to_from_le_bytes();
    assert(bytes.take(8) =~= spec_u64_to_le_bytes(states.len() as u64));
    assert(bytes.subrange(8, 12) =~= spec_u32_to_le_bytes(path.len() as u32));
    assert(bytes.subrange(12, end) =~= path);
    assert(bytes.subrange(end, end + 8) =~= spec_u64_to_le_bytes(states[0].mtime));
    assert(bytes.subrange(end + 8, end + 16) =~= spec_u64_to_le_bytes(states[0].size));
    assert(bytes.skip(end + 16) =~= filemeta::states_bytes(states.drop_first()));
    assert(filemeta::filemeta_bytes(states.drop_first()).skip(8) =~= filemeta::states_bytes(states.drop_first()));
}

/// File metadata that is cut off anywhere is refused.
pub proof fn law_cut_filemeta_is_refused(states: Seq<StateView>, n: int)
    requires
        states.len() <= usize::MAX,
        forall|i: int| 0 <= i < states.len() ==> encode_utf8((#[trigger] states[i]).path).len() <= u32::MAX,
        0 <= n < filemeta::filemeta_bytes(states).len(),
    ensures
        filemeta::read_filemeta_bytes(filemeta::filemeta_bytes(states).take(n)) is Err,
{
    let bytes = filemeta::filemeta_bytes(states);
    lemma_auto_spec_u64_to_from_le_bytes();
    if n >= 8 {
        assert(bytes.take(n).subrange(0, 8) =~= spec_u64_to_le_bytes(states.len() as u64));
        assert(bytes.take(n).skip(8) =~= filemeta::states_bytes(states).take(n - 8));
        lemma_cut_states(states, n - 8);
    }
}

proof fn lemma_cut_states(states: Seq<StateView>, n: int)
    requires
        forall|i: int| 0 <= i < states.len() ==> encode_utf8((#[trigger] states[i]).path).len() <= u32::MAX,
        0 <= n < filemeta::states_bytes(states).len(),
    ensures
        filemeta::read_states(filemeta::states_bytes(states).take(n), states.len()) is Err,
    decreases states.len(),
{
    if states.len() > 0 {
        let data = filemeta::states_bytes(states);
        let cut = data.take(n);
        let path = encode_utf8(states[0].path);
        let len = path.len() as int;
        let rest = states.drop_first();
        lemma_auto_spec_u64_to_from_le_bytes();
        lemma_auto_spec_u32_to_from_le_bytes();
        if n >= 4 {
            assert(cut.subrange(0, 4) =~= spec_u32_to_le_bytes(path.len() as u32));
            if n >= 20 + len {
                assert(cut.subrange(4, 4 + len) =~= path);
                assert(cut.skip(20 + len) =~= filemeta::states_bytes(rest).take(n - 20 - len));
                assert forall|i: int| 0 <= i < rest.len() implies encode_utf8((#[trigger] rest[i]).path).len()
                    <= u32::MAX by {
                    assert(rest[i] == states[i + 1]);
                }
                lemma_cut_states(rest, n - 20 - len);
            }
        }
    }
}

/// The posting lists of files can be laid out exactly if they take at most 2^32 - 1 bytes.
pub proof fn law_built_lists_can_be_laid_out(sets: Seq<Set<u64>>)
    requires
        sets.len() <= u32::MAX,
    ensures
        storage::writable(indexer::index_lists(sets)) <==> storage::postings_bytes(
            storage::sorted_hashes(indexer::index_lists(sets).dom()),
            indexer::index_lists(sets),
        ).len() <= 0xFFFF_FFFF,
{
    let lists = indexer::index_lists(sets);
    assert forall|h: u64| lists.dom().contains(h) implies postings::ascending(#[trigger] lists[h]) by {
        indexer::law_index_lists_holders(sets, h);
        assert(indexer::list_of(lists, h) == lists[h]);
        assert(postings::strictly_ascending(lists[h]));
    }
}

/// Why a posting list is refused: a file ID that takes more than 32 bits is, and so is one
/// that is not followed by as many bytes as the masks take.
pub proof fn law_posting_list_is_checked(delta: u32, prev: u32, mask_len: nat, rest: Seq<u8>)
    ensures
        rest.len() < mask_len ==> postings::decoded_ids(postings::varint(delta as nat) + rest, prev, mask_len) == Err::<
            Seq<u32>,
            StorageError,
        >(StorageError::MasksTruncated),
        rest.len() >= mask_len && prev + delta > u32::MAX ==> postings::decoded_ids(
            postings::varint(delta as nat) + rest,
            prev,
            mask_len,
        ) == Err::<Seq<u32>, StorageError>(StorageError::FileIdOverflow),
        rest.len() >= mask_len && prev + delta <= u32::MAX ==> postings::decoded_ids(
            postings::varint(delta as nat) + rest,
            prev,
            mask_len,
        ) == (match postings::decoded_ids(rest.skip(mask_len as int), (prev + delta) as u32, mask_len) {
            Ok(ids) => Ok::<Seq<u32>, StorageError>(seq![(prev + delta) as u32] + ids),
            Err(e) => Err(e),
        }),
        postings::decoded_ids(Seq::empty(), prev, mask_len) == Ok::<Seq<u32>, StorageError>(Seq::empty()),
{
    let v = postings::varint(delta as nat);
    let data = v + rest;
    postings::law_varint_round_trip(delta, rest);
    law_varint_layout(delta as nat);
    if rest.len() >= mask_len {
        assert(data.skip((v.len() + mask_len) as int) =~= rest.skip(mask_len as int));
    }
}

/// Why file metadata is refused: it is too small where there is no room for the count, and
/// cut off where there is none for the length of a path, for the path, or for its times and
/// sizes; a path has to be UTF-8. So it is of the first file, and then of those behind it.
pub proof fn law_filemeta_is_checked(data: Seq<u8>, n: nat)
    requires
        n > 0,
    ensures
        ({
            let len = spec_u32_from_le_bytes(data.subrange(0, 4)) as int;
            let read = filemeta::read_states(data, n);
            let cut = data.len() < 4;
            let cut_path = !cut && data.len() < 4 + len;
            let bad = !cut && !cut_path && !valid_utf8(data.subrange(4, 4 + len));
            let cut_stat = !cut && !cut_path && !bad && data.len() < 4 + len + 16;
            &&& cut ==> read == Err::<Seq<StateView>, StorageError>(StorageError::PathLenTruncated)
            &&& cut_path ==> read == Err::<Seq<StateView>, StorageError>(StorageError::PathTruncated)
            &&& bad ==> read == Err::<Seq<StateView>, StorageError>(StorageError::PathNotUtf8)
            &&& cut_stat ==> read == Err::<Seq<StateView>, StorageError>(StorageError::StatTruncated)
            &&& !cut && !cut_path && !bad && !cut_stat ==> (read is Ok <==> filemeta::read_states(
                data.skip(4 + len + 16),
                (n - 1) as nat,
            ) is Ok)
            &&& !cut && !cut_path && !bad && !cut_stat && read is Err ==> read == filemeta::read_states(
                data.skip(4 + len + 16),
                (n - 1) as nat,
            )
        }),
        data.len() < 8 ==> filemeta::read_filemeta_bytes(data) == Err::<Seq<StateView>, StorageError>(
            StorageError::FileMetaTooSmall,
        ),
{
}

/// An entry is read from its sixteen bytes of the lookup table: its hash, and the posting list
/// that stands at its place among the postings, with two bytes of masks behind every number in
/// the second version and none in the others. There is no list where it would end behind the
/// postings, or cannot be decoded; among all entries it is empty there.
pub proof fn law_entry_is_read(index: IndexView, k: int, bytes: Seq<u8>)
    requires
        index.postings == Some(bytes),
    ensures
        ({
            let start = spec_u32_from_le_bytes(index.lookup.subrange(40 + 16 * k, 44 + 16 * k)) as int;
            let end = start + spec_u32_from_le_bytes(index.lookup.subrange(44 + 16 * k, 48 + 16 * k));
            let masks: nat = if index.version == 2 {
                2
            } else {
                0
            };
            &&& index.hash_at(k) == spec_u64_from_le_bytes(index.lookup.subrange(32 + 16 * k, 40 + 16 * k))
            &&& end > bytes.len() ==> index.ids_at(k) is None
            &&& end <= bytes.len() ==> match postings::decoded_ids(bytes.subrange(start, end), 0, masks) {
                Ok(ids) => index.ids_at(k) == Some(ids),
                Err(_) => index.ids_at(k) is None,
            }
        }),
        index.entries().len() == index.num_entries,
        0 <= k < index.num_entries ==> index.entries()[k].0 == index.hash_at(k),
        0 <= k < index.num_entries && index.ids_at(k) is Some ==> index.entries()[k].1 == index.ids_at(k)->0,
        0 <= k < index.num_entries && index.ids_at(k) is None ==> index.entries()[k].1.len() == 0,
{
}

/// What opening an index takes from its files: the lookup table and its header, the postings
/// where there are any, and a path for every line of the list of files.
pub proof fn law_opened_index(lookup: Seq<u8>, postings: Seq<u8>, files: Seq<char>)
    ensures
        storage::opened(lookup, postings, files) is Ok <==> storage::header_fields(lookup) is Ok,
        storage::header_fields(lookup) matches Err(e) ==> storage::opened(lookup, postings, files) == Err::<
            IndexView,
            StorageError,
        >(e),
        storage::opened(lookup, postings, files) matches Ok(index) ==> {
            &&& index.lookup == lookup
            &&& index.postings == (if postings.len() == 0 {
                None
            } else {
                Some(postings)
            })
            &&& index.files == text::lines(files)
            &&& (index.version, index.num_entries) == storage::header_fields(lookup)->Ok_0
        },
{
}

} // verus!
