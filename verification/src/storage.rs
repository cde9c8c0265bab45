//! The layout of an index in bytes, and reading it back.
//!
//! An index takes these files:
//! - the lookup table: a 32-byte header and 16-byte entries (hash, offset, length)
//!   in ascending order of their hashes;
//! - the postings: delta-encoded posting lists, one after the other;
//! - the file list: one path per line, in the order of the file IDs;
//! - build metadata, and the states of the files.

pub use crate::error::StorageError;
use crate::filemeta;
use crate::filemeta::push_bytes;
pub use crate::filemeta::{read_filemeta, write_filemeta, FileState};
use crate::indexer::InMemoryIndex;
use crate::metadata;
use crate::metadata::write_meta;
use crate::postings;
use crate::postings::{decode_posting_list, decode_posting_list_v2, encode_posting_list, is_ascending};
use crate::text;
use crate::text::{chars_of, join_lines, split_lines};
use std::collections::{BTreeSet, HashMap};
use vstd::bytes::*;
use vstd::prelude::*;
use vstd::std_specs::cmp::OrdSpec;

verus! {

broadcast use {
    vstd::std_specs::hash::group_hash_axioms,
    vstd::std_specs::btree::group_btree_axioms,
    vstd::laws_cmp::group_laws_cmp,
};

/// The format version that is written: posting lists of file IDs alone.
pub const VERSION: u32 = 3;

/// The first format version, with the same posting lists.
pub const VERSION_V1: u32 = 1;

/// The format version whose posting lists hold two mask bytes after every file ID.
pub const VERSION_V2: u32 = 2;

/// The length of the lookup table's header.
pub const HEADER_SIZE: usize = 32;

/// The length of an entry of the lookup table.
pub const ENTRY_SIZE: usize = 16;

/// The bytes that a lookup table starts with.
pub open spec fn magic() -> Seq<u8> {
    seq![78u8, 71u8, 73u8, 1u8]
}

// ---------------------------------------------------------------------------
// The layout
// ---------------------------------------------------------------------------

/// Whether `hashes` lists a set of hashes in ascending order, each once.
pub open spec fn lists_set(hashes: Seq<u64>, set: Set<u64>) -> bool {
    &&& forall|i: int, j: int| 0 <= i < j < hashes.len() ==> hashes[i] < hashes[j]
    &&& forall|h: u64| set.contains(h) <==> hashes.contains(h)
}

/// The ascending list of a finite set of hashes.
pub open spec fn sorted_hashes(set: Set<u64>) -> Seq<u64> {
    choose|hashes: Seq<u64>| lists_set(hashes, set)
}

/// The encoded posting lists of `hashes`, one after the other.
pub open spec fn postings_bytes(hashes: Seq<u64>, lists: Map<u64, Seq<u32>>) -> Seq<u8>
    decreases hashes.len(),
{
    if hashes.len() == 0 {
        Seq::empty()
    } else {
        postings_bytes(hashes.drop_last(), lists) + postings::encoded_ids(lists[hashes.last()], 0)
    }
}

/// The bytes of an entry of the lookup table.
pub open spec fn entry_bytes(hash: u64, offset: u32, length: u32) -> Seq<u8> {
    spec_u64_to_le_bytes(hash) + spec_u32_to_le_bytes(offset) + spec_u32_to_le_bytes(length)
}

/// The entries of `hashes`, one after the other. An entry's offset is where its
/// posting list starts among the postings.
pub open spec fn table_bytes(hashes: Seq<u64>, lists: Map<u64, Seq<u32>>) -> Seq<u8>
    decreases hashes.len(),
{
    if hashes.len() == 0 {
        Seq::empty()
    } else {
        let before = hashes.drop_last();
        table_bytes(before, lists) + entry_bytes(
            hashes.last(),
            postings_bytes(before, lists).len() as u32,
            postings::encoded_ids(lists[hashes.last()], 0).len() as u32,
        )
    }
}

/// The header of a lookup table: the magic bytes, the version, the numbers of
/// entries and of files, and eight reserved bytes.
pub open spec fn header_bytes(num_entries: u64, num_files: u64) -> Seq<u8> {
    magic() + spec_u32_to_le_bytes(VERSION) + spec_u64_to_le_bytes(num_entries) + spec_u64_to_le_bytes(num_files)
        + Seq::new(8, |i: int| 0u8)
}

/// The lookup table of posting lists and of a number of files.
pub open spec fn lookup_bytes(lists: Map<u64, Seq<u32>>, num_files: nat) -> Seq<u8> {
    let hashes = sorted_hashes(lists.dom());
    header_bytes(hashes.len() as u64, num_files as u64) + table_bytes(hashes, lists)
}

/// Two ascending lists of one set are the same list.
pub proof fn lemma_sorted_unique(a: Seq<u64>, b: Seq<u64>, set: Set<u64>)
    requires
        lists_set(a, set),
        lists_set(b, set),
    ensures
        a == b,
{
    lemma_sorted_prefix(a, b, set, a.len() as int);
    lemma_sorted_prefix(b, a, set, b.len() as int);
    assert(a =~= b);
}

proof fn lemma_sorted_prefix(a: Seq<u64>, b: Seq<u64>, set: Set<u64>, n: int)
    requires
        lists_set(a, set),
        lists_set(b, set),
        0 <= n <= a.len(),
    ensures
        n <= b.len(),
        forall|i: int| 0 <= i < n ==> a[i] == b[i],
    decreases n,
{
    if n > 0 {
        lemma_sorted_prefix(a, b, set, n - 1);
        let x = a[n - 1];
        assert(a.contains(x));
        assert(set.contains(x));
        assert(b.contains(x));
        let k = choose|k: int| 0 <= k < b.len() && b[k] == x;
        if k < n - 1 {
            assert(a[k] == b[k]);
            assert(a[k] < a[n - 1]);
        }
        assert(k >= n - 1);
        if k > n - 1 {
            let y = b[n - 1];
            assert(b.contains(y));
            assert(set.contains(y));
            assert(a.contains(y));
            let m = choose|m: int| 0 <= m < a.len() && a[m] == y;
            assert(b[n - 1] < b[k]);
            assert(m < n - 1) by {
                if m > n - 1 {
                    assert(a[n - 1] < a[m]);
                }
            }
            assert(a[m] == b[m]);
            assert(b[m] < b[n - 1]);
        }
        assert(a[n - 1] == b[n - 1]);
    }
}

/// The set of what a sequence of references refers to.
proof fn lemma_refs_set(all: Seq<&u64>, set: Set<u64>)
    requires
        forall|x: u64| set.contains(x) ==> exists|k: int| 0 <= k < all.len() && *#[trigger] all[k] == x,
    ensures
        (forall|k: int| 0 <= k < all.len() ==> set.contains(*#[trigger] all[k])) ==> set == all.unref().to_set(),
{
    assert forall|x: u64| set.contains(x) implies all.unref().contains(x) by {
        let k = choose|k: int| 0 <= k < all.len() && *#[trigger] all[k] == x;
        assert(all.unref()[k] == x);
    }
    if forall|k: int| 0 <= k < all.len() ==> set.contains(*#[trigger] all[k]) {
        assert forall|x: u64| all.unref().contains(x) implies set.contains(x) by {
            let k = choose|k: int| 0 <= k < all.unref().len() && all.unref()[k] == x;
            assert(*all[k] == x);
        }
        assert(set =~= all.unref().to_set());
    }
}

/// An ascending sequence of references to the members of a set lists the set.
proof fn lemma_refs_list(all: Seq<&u64>, hashes: Seq<u64>, set: Set<u64>)
    requires
        all.unref().to_set() == set,
        vstd::std_specs::btree::increasing_seq(all),
        forall|k: int| 0 <= k < hashes.len() && k < all.len() ==> hashes[k] == *#[trigger] all[k],
    ensures
        hashes.len() == all.len() ==> lists_set(hashes, set),
{
    if hashes.len() == all.len() {
        assert(hashes =~= all.unref());
        assert(vstd::laws_cmp::obeys_cmp::<u64>());
        assert(vstd::laws_cmp::obeys_cmp::<&u64>());
        assert forall|i: int, j: int| 0 <= i < j < hashes.len() implies hashes[i] < hashes[j] by {
            assert(OrdSpec::cmp_spec(&all[i], &all[j]) is Less);
        }
    }
}

/// The ascending list of the hashes of a map.
fn sorted_keys(postings: &HashMap<u64, Vec<u32>>) -> (hashes: Vec<u64>)
    ensures
        lists_set(hashes@, postings@.dom()),
        hashes@ == sorted_hashes(postings@.dom()),
{
    let mut set: BTreeSet<u64> = BTreeSet::new();
    for h in it: postings.keys()
        invariant
            it.seq().unref().to_set() == postings@.dom(),
            forall|x: u64| set@.contains(x) <==> exists|k: int| 0 <= k < it.index() && *#[trigger] it.seq()[k] == x,
            it.index() == it.seq().len() ==> set@ == postings@.dom(),
    {
        let ghost before = set@;
        set.insert(*h);
        proof {
            let all = it.seq();
            let n = it.index();
            assert forall|x: u64| set@.contains(x) <==> exists|k: int| 0 <= k < n + 1 && *#[trigger] all[k] == x by {
                if before.contains(x) {
                    let k = choose|k: int| 0 <= k < n && *#[trigger] all[k] == x;
                    assert(0 <= k < n + 1 && *all[k] == x);
                }
                if x == *h {
                    assert(*all[n] == x);
                }
            }
            lemma_refs_set(all, set@);
        }
    }
    let mut hashes: Vec<u64> = Vec::new();
    for h in it: set.iter()
        invariant
            it.seq().unref().to_set() == set@,
            vstd::std_specs::btree::increasing_seq(it.seq()),
            hashes@.len() == it.index(),
            forall|k: int| 0 <= k < it.index() ==> hashes@[k] == *#[trigger] it.seq()[k],
            it.index() == it.seq().len() ==> lists_set(hashes@, set@),
    {
        hashes.push(*h);
        proof {
            lemma_refs_list(it.seq(), hashes@, set@);
        }
    }
    proof {
        lemma_sorted_unique(hashes@, sorted_hashes(set@), set@);
    }
    hashes
}

// ---------------------------------------------------------------------------
// Writing
// ---------------------------------------------------------------------------

/// The files of an index, by their contents.
pub struct IndexFiles {
    /// `lookup.ngi`
    pub lookup: Vec<u8>,
    /// `postings.ngi`
    pub postings: Vec<u8>,
    /// `files.txt`
    pub files: String,
    /// `meta.json`
    pub meta: String,
    /// `filemeta.bin`, where the states of the files are known
    pub filemeta: Option<Vec<u8>>,
}

/// Whether posting lists can be laid out: their IDs ascend, and all of them
/// together take fewer than 2^32 bytes.
pub open spec fn writable(lists: Map<u64, Seq<u32>>) -> bool {
    &&& forall|h: u64| lists.dom().contains(h) ==> postings::ascending(#[trigger] lists[h])
    &&& postings_bytes(sorted_hashes(lists.dom()), lists).len() <= u32::MAX
}

/// Appends the lookup entry of a hash to `table` and its posting list to `postings`.
fn push_entry(table: &mut Vec<u8>, postings: &mut Vec<u8>, hash: u64, ids: &[u32])
    requires
        postings::ascending(ids@),
        old(postings)@.len() + postings::encoded_ids(ids@, 0).len() <= u32::MAX,
    ensures
        final(postings)@ == old(postings)@ + postings::encoded_ids(ids@, 0),
        final(table)@ == old(table)@ + entry_bytes(
            hash,
            old(postings)@.len() as u32,
            postings::encoded_ids(ids@, 0).len() as u32,
        ),
{
    let encoded = encode_posting_list(ids);
    push_bytes(table, u64_to_le_bytes(hash).as_slice());
    push_bytes(table, u32_to_le_bytes(postings.len() as u32).as_slice());
    push_bytes(table, u32_to_le_bytes(encoded.len() as u32).as_slice());
    push_bytes(postings, encoded.as_slice());
    assert(table@ =~= old(table)@ + entry_bytes(
        hash,
        old(postings)@.len() as u32,
        postings::encoded_ids(ids@, 0).len() as u32,
    ));
}

/// The postings of some of the hashes are no longer than those of all.
proof fn lemma_postings_prefix(hashes: Seq<u64>, lists: Map<u64, Seq<u32>>, k: int)
    requires
        0 <= k <= hashes.len(),
    ensures
        postings_bytes(hashes.take(k), lists).len() <= postings_bytes(hashes, lists).len(),
        postings_bytes(hashes.take(k), lists) == postings_bytes(hashes, lists).take(
            postings_bytes(hashes.take(k), lists).len() as int,
        ),
    decreases hashes.len() - k,
{
    let all = postings_bytes(hashes, lists);
    if k == hashes.len() {
        assert(hashes.take(k) =~= hashes);
        assert(all.take(all.len() as int) =~= all);
    } else {
        lemma_postings_prefix(hashes, lists, k + 1);
        let next = postings_bytes(hashes.take(k + 1), lists);
        assert(hashes.take(k + 1).drop_last() =~= hashes.take(k));
        let here = postings_bytes(hashes.take(k), lists);
        assert(next.take(here.len() as int) =~= here);
        assert(all.take(next.len() as int).take(here.len() as int) =~= all.take(here.len() as int));
    }
}

/// Lays an index out without metadata on its files.
pub fn write_index(index: &InMemoryIndex, root: &str, built_at: u64) -> (out: IndexFiles)
    requires
        writable(index.lists()),
    ensures
        out.lookup@ == lookup_bytes(index.lists(), index.files@.len()),
        out.postings@ == postings_bytes(sorted_hashes(index.lists().dom()), index.lists()),
        out.files@ == text::joined(text::texts(index.files@)),
        out.meta@ == metadata::meta_text(
            root@,
            None,
            index.files@.len(),
            index.lists().len(),
            built_at as nat,
            (index.stats.build_duration / 1_000_000) as nat,
        ),
        out.filemeta is None,
{
    write_index_with_meta(index, root, built_at, None, None)
}

/// Lays an index out, with the states of the files and the commit at the head of
/// the repository where they are known.
pub fn write_index_with_meta(
    index: &InMemoryIndex,
    root: &str,
    built_at: u64,
    file_states: Option<&[FileState]>,
    git_head: Option<&str>,
) -> (out: IndexFiles)
    requires
        writable(index.lists()),
    ensures
        out.lookup@ == lookup_bytes(index.lists(), index.files@.len()),
        out.postings@ == postings_bytes(sorted_hashes(index.lists().dom()), index.lists()),
        out.files@ == text::joined(text::texts(index.files@)),
        out.meta@ == metadata::meta_text(
            root@,
            match git_head {
                Some(h) => Some(h@),
                None => None,
            },
            index.files@.len(),
            index.lists().len(),
            built_at as nat,
            (index.stats.build_duration / 1_000_000) as nat,
        ),
        match file_states {
            Some(states) => out.filemeta is Some && out.filemeta->0@ == filemeta::filemeta_bytes(filemeta::state_views(states@)),
            None => out.filemeta is None,
        },
{
    let ghost lists = index.lists();
    assert(lists.dom() =~= index.postings@.dom());
    let hashes = sorted_keys(&index.postings);
    let mut table: Vec<u8> = Vec::new();
    let mut postings: Vec<u8> = Vec::new();
    let mut i: usize = 0;
    while i < hashes.len()
        invariant
            i <= hashes@.len(),
            lists == index.lists(),
            lists.dom() == index.postings@.dom(),
            lists_set(hashes@, lists.dom()),
            hashes@ == sorted_hashes(lists.dom()),
            writable(lists),
            postings@ == postings_bytes(hashes@.take(i as int), lists),
            table@ == table_bytes(hashes@.take(i as int), lists),
        decreases hashes@.len() - i,
    {
        let hash: u64 = hashes[i];
        proof {
            assert(hashes@.contains(hash));
            assert(hashes@.take(i + 1).drop_last() =~= hashes@.take(i as int));
            lemma_postings_prefix(hashes@, lists, i + 1);
        }
        match index.postings.get(&hash) {
            Some(ids) => {
                assert(lists[hash] == ids@);
                push_entry(&mut table, &mut postings, hash, ids.as_slice());
            },
            None => {
                assert(false);
            },
        }
        i += 1;
    }
    assert(hashes@.take(i as int) =~= hashes@);

    let mut lookup: Vec<u8> = Vec::new();
    lookup.push(78);
    lookup.push(71);
    lookup.push(73);
    lookup.push(1);
    push_bytes(&mut lookup, u32_to_le_bytes(VERSION).as_slice());
    push_bytes(&mut lookup, u64_to_le_bytes(hashes.len() as u64).as_slice());
    push_bytes(&mut lookup, u64_to_le_bytes(index.files.len() as u64).as_slice());
    let reserved: [u8; 8] = [0u8; 8];
    push_bytes(&mut lookup, reserved.as_slice());
    assert(lookup@ =~= header_bytes(hashes@.len() as u64, index.files@.len() as u64));
    push_bytes(&mut lookup, table.as_slice());

    let meta = write_meta(
        root,
        git_head,
        index.files.len(),
        index.postings.len(),
        built_at,
        index.stats.build_duration / 1_000_000,
    );

    let filemeta = match file_states {
        Some(states) => Some(write_filemeta(states)),
        None => None,
    };
    IndexFiles { lookup, postings, files: join_lines(index.files.as_slice()), meta, filemeta }
}

/// Whether an index can be laid out.
pub fn is_writable(index: &InMemoryIndex) -> (r: bool)
    ensures
        r == writable(index.lists()),
{
    let ghost lists = index.lists();
    assert(lists.dom() =~= index.postings@.dom());
    let hashes = sorted_keys(&index.postings);
    let mut total: usize = 0;
    let mut i: usize = 0;
    while i < hashes.len()
        invariant
            i <= hashes@.len(),
            lists == index.lists(),
            lists.dom() == index.postings@.dom(),
            lists_set(hashes@, lists.dom()),
            hashes@ == sorted_hashes(lists.dom()),
            total == postings_bytes(hashes@.take(i as int), lists).len(),
            total <= u32::MAX,
            forall|k: int| 0 <= k < i ==> postings::ascending(lists[#[trigger] hashes@[k]]),
        decreases hashes@.len() - i,
    {
        let hash: u64 = hashes[i];
        proof {
            assert(hashes@.contains(hash));
            assert(hashes@.take(i + 1).drop_last() =~= hashes@.take(i as int));
            lemma_postings_prefix(hashes@, lists, i + 1);
        }
        match index.postings.get(&hash) {
            Some(ids) => {
                assert(lists[hash] == ids@);
                if !is_ascending(ids.as_slice()) {
                    return false;
                }
                let length: usize = encode_posting_list(ids.as_slice()).len();
                if length > u32::MAX as usize - total {
                    return false;
                }
                total = total + length;
            },
            None => {
                assert(false);
            },
        }
        i += 1;
    }
    proof {
        assert(hashes@.take(i as int) =~= hashes@);
        assert forall|h: u64| lists.dom().contains(h) implies postings::ascending(#[trigger] lists[h]) by {
            let k = choose|k: int| 0 <= k < hashes@.len() && hashes@[k] == h;
            assert(hashes@.contains(h));
            assert(postings::ascending(lists[hashes@[k]]));
        }
    }
    true
}

// ---------------------------------------------------------------------------
// Reading
// ---------------------------------------------------------------------------

/// What an open index holds: the bytes of the lookup table and of the postings
/// (`None` where there are none), the file paths, and two fields of the header.
#[verifier::ext_equal]
pub struct IndexView {
    pub lookup: Seq<u8>,
    pub postings: Option<Seq<u8>>,
    pub files: Seq<Seq<char>>,
    pub num_entries: u64,
    pub version: u32,
}

impl IndexView {
    /// The hash of the `k`-th entry.
    pub open spec fn hash_at(self, k: int) -> u64 {
        spec_u64_from_le_bytes(self.lookup.subrange(32 + 16 * k, 40 + 16 * k))
    }

    /// Where the posting list of the `k`-th entry starts.
    pub open spec fn offset_at(self, k: int) -> u32 {
        spec_u32_from_le_bytes(self.lookup.subrange(40 + 16 * k, 44 + 16 * k))
    }

    /// How many bytes the posting list of the `k`-th entry takes.
    pub open spec fn length_at(self, k: int) -> u32 {
        spec_u32_from_le_bytes(self.lookup.subrange(44 + 16 * k, 48 + 16 * k))
    }

    /// The posting list of the `k`-th entry: `None` where there are no postings,
    /// where it does not lie within them, and where its bytes are no posting list.
    pub open spec fn ids_at(self, k: int) -> Option<Seq<u32>> {
        let start = self.offset_at(k) as int;
        let end = start + self.length_at(k);
        let mask_len: nat = if self.version == VERSION_V2 {
            2
        } else {
            0
        };
        match self.postings {
            None => None,
            Some(bytes) => if end > bytes.len() {
                None
            } else {
                match postings::decoded_ids(bytes.subrange(start, end), 0, mask_len) {
                    Ok(ids) => Some(ids),
                    Err(_) => None,
                }
            },
        }
    }

    /// The entry that bisection finds for a hash among the entries from `lo` to
    /// before `hi`.
    pub open spec fn bisect(self, hash: u64, lo: int, hi: int) -> Option<int>
        decreases hi - lo,
    {
        if lo >= hi {
            None
        } else {
            let mid = lo + (hi - lo) / 2;
            if self.hash_at(mid) == hash {
                Some(mid)
            } else if self.hash_at(mid) < hash {
                self.bisect(hash, mid + 1, hi)
            } else {
                self.bisect(hash, lo, mid)
            }
        }
    }

    /// The posting list of a hash.
    pub open spec fn ids_of(self, hash: u64) -> Option<Seq<u32>> {
        match self.bisect(hash, 0, self.num_entries as int) {
            Some(k) => self.ids_at(k),
            None => None,
        }
    }

    /// All entries in their order, with an empty list where there is none.
    pub open spec fn entries(self) -> Seq<(u64, Seq<u32>)> {
        Seq::new(
            self.num_entries as nat,
            |k: int|
                (
                    self.hash_at(k),
                    match self.ids_at(k) {
                        Some(ids) => ids,
                        None => Seq::empty(),
                    },
                ),
        )
    }

    /// Whether the hashes of the entries ascend.
    pub open spec fn sorted(self) -> bool {
        forall|i: int, j: int| 0 <= i < j < self.num_entries ==> #[trigger] self.hash_at(i) < #[trigger] self.hash_at(j)
    }
}

/// What the header of a lookup table says: the format version and the number of
/// entries.
pub open spec fn header_fields(lookup: Seq<u8>) -> Result<(u32, u64), StorageError> {
    let version = spec_u32_from_le_bytes(lookup.subrange(4, 8));
    let num_entries = spec_u64_from_le_bytes(lookup.subrange(8, 16));
    if lookup.len() < 32 {
        Err(StorageError::LookupTooSmall)
    } else if lookup.take(4) != magic() {
        Err(StorageError::BadMagic)
    } else if version != VERSION && version != VERSION_V1 && version != VERSION_V2 {
        Err(StorageError::UnsupportedVersion(version))
    } else if lookup.len() < 32 + 16 * num_entries {
        Err(StorageError::LookupTruncated { num_entries, actual: lookup.len() as usize })
    } else {
        Ok((version, num_entries))
    }
}

/// What opening an index gives, from the contents of its files.
pub open spec fn opened(lookup: Seq<u8>, postings: Seq<u8>, files: Seq<char>) -> Result<IndexView, StorageError> {
    match header_fields(lookup) {
        Err(e) => Err(e),
        Ok((version, num_entries)) => Ok(
            IndexView {
                lookup,
                postings: if postings.len() == 0 {
                    None
                } else {
                    Some(postings)
                },
                files: text::lines(files),
                num_entries,
                version,
            },
        ),
    }
}

/// Checks the header of a lookup table, and reads the format version and the
/// number of entries.
pub fn read_header(lookup: &[u8]) -> (r: Result<(u32, u64), StorageError>)
    ensures
        r == header_fields(lookup@),
{
    if lookup.len() < HEADER_SIZE {
        return Err(StorageError::LookupTooSmall);
    }
    proof {
        let head = lookup@.take(4);
        assert(head == magic() <==> (head[0] == 78 && head[1] == 71 && head[2] == 73 && head[3] == 1)) by {
            if head[0] == 78 && head[1] == 71 && head[2] == 73 && head[3] == 1 {
                assert(head =~= magic());
            }
        }
    }
    if lookup[0] != 78 || lookup[1] != 71 || lookup[2] != 73 || lookup[3] != 1 {
        return Err(StorageError::BadMagic);
    }
    let version: u32 = u32_from_le_bytes(vstd::slice::slice_subrange(lookup, 4, 8));
    if version != VERSION && version != VERSION_V1 && version != VERSION_V2 {
        return Err(StorageError::UnsupportedVersion(version));
    }
    let num_entries: u64 = u64_from_le_bytes(vstd::slice::slice_subrange(lookup, 8, 16));
    if num_entries > ((lookup.len() - HEADER_SIZE) / ENTRY_SIZE) as u64 {
        return Err(StorageError::LookupTruncated { num_entries, actual: lookup.len() });
    }
    Ok((version, num_entries))
}

/// An index whose files are at hand as bytes, for lookups.
pub struct MappedIndex<'a> {
    lookup: &'a [u8],
    postings: Option<&'a [u8]>,
    files: Vec<String>,
    num_entries: u64,
    version: u32,
}

impl<'a> View for MappedIndex<'a> {
    type V = IndexView;

    closed spec fn view(&self) -> IndexView {
        IndexView {
            lookup: self.lookup@,
            postings: match self.postings {
                Some(p) => Some(p@),
                None => None,
            },
            files: text::texts(self.files@),
            num_entries: self.num_entries,
            version: self.version,
        }
    }
}

impl<'a> MappedIndex<'a> {
    #[verifier::type_invariant]
    spec fn wf(self) -> bool {
        32 + 16 * self.num_entries <= self.lookup@.len() <= usize::MAX
    }

    /// Opens an index from the contents of its files.
    pub fn open(lookup: &'a [u8], postings: &'a [u8], files_content: &str) -> (r: Result<MappedIndex<'a>, StorageError>)
        ensures
            match r {
                Ok(index) => opened(lookup@, postings@, files_content@) == Ok::<IndexView, StorageError>(index@),
                Err(e) => opened(lookup@, postings@, files_content@) == Err::<IndexView, StorageError>(e),
            },
    {
        let (version, num_entries) = match read_header(lookup) {
            Ok(p) => p,
            Err(e) => {
                return Err(e);
            },
        };
        let postings = if postings.len() > 0 {
            Some(postings)
        } else {
            None
        };
        let files = split_lines(chars_of(files_content).as_slice());
        assert(lookup.len() == lookup@.len());
        Ok(MappedIndex { lookup, postings, files, num_entries, version })
    }

    /// The hash of the `k`-th entry.
    fn entry_hash(&self, k: usize) -> (hash: u64)
        requires
            k < self@.num_entries,
        ensures
            hash == self@.hash_at(k as int),
    {
        proof {
            use_type_invariant(self);
        }
        let base: usize = HEADER_SIZE + k * ENTRY_SIZE;
        u64_from_le_bytes(vstd::slice::slice_subrange(self.lookup, base, base + 8))
    }

    /// The posting list of the `k`-th entry.
    fn entry_ids(&self, k: usize) -> (r: Option<Vec<u32>>)
        requires
            k < self@.num_entries,
        ensures
            match r {
                Some(ids) => self@.ids_at(k as int) == Some(ids@),
                None => self@.ids_at(k as int) is None,
            },
    {
        proof {
            use_type_invariant(self);
        }
        let base: usize = HEADER_SIZE + k * ENTRY_SIZE;
        let offset: usize = u32_from_le_bytes(vstd::slice::slice_subrange(self.lookup, base + 8, base + 12)) as usize;
        let length: usize = u32_from_le_bytes(vstd::slice::slice_subrange(self.lookup, base + 12, base + 16)) as usize;
        match self.postings {
            None => None,
            Some(bytes) => {
                if offset > bytes.len() || length > bytes.len() - offset {
                    return None;
                }
                let data = vstd::slice::slice_subrange(bytes, offset, offset + length);
                let decoded = if self.version == VERSION_V2 {
                    decode_posting_list_v2(data)
                } else {
                    decode_posting_list(data)
                };
                match decoded {
                    Ok(ids) => Some(ids),
                    Err(_) => None,
                }
            },
        }
    }

    /// Looks up an n-gram hash: the IDs of the files that hold the n-gram.
    pub fn lookup(&self, hash: u64) -> (r: Option<Vec<u32>>)
        ensures
            match r {
                Some(ids) => self@.ids_of(hash) == Some(ids@),
                None => self@.ids_of(hash) is None,
            },
    {
        proof {
            use_type_invariant(self);
        }
        let mut lo: usize = 0;
        let mut hi: usize = self.num_entries as usize;
        while lo < hi
            invariant
                hi <= self@.num_entries,
                self@.bisect(hash, lo as int, hi as int) == self@.bisect(hash, 0, self@.num_entries as int),
            decreases hi - lo,
        {
            let mid: usize = lo + (hi - lo) / 2;
            let entry_hash: u64 = self.entry_hash(mid);
            if entry_hash == hash {
                return self.entry_ids(mid);
            } else if entry_hash < hash {
                lo = mid + 1;
            } else {
                hi = mid;
            }
        }
        None
    }

    /// The path of a file ID.
    pub fn file_path(&self, file_id: u32) -> (r: Option<&str>)
        ensures
            match r {
                Some(path) => file_id < self@.files.len() && path@ == self@.files[file_id as int],
                None => file_id >= self@.files.len(),
            },
    {
        if (file_id as usize) < self.files.len() {
            Some(self.files[file_id as usize].as_str())
        } else {
            None
        }
    }

    /// The number of indexed files.
    pub fn file_count(&self) -> (n: usize)
        ensures
            n == self@.files.len(),
    {
        self.files.len()
    }

    /// The number of distinct n-grams.
    pub fn ngram_count(&self) -> (n: u64)
        ensures
            n == self@.num_entries,
    {
        self.num_entries
    }

    /// The paths of all indexed files.
    pub fn file_list(&self) -> (paths: &[String])
        ensures
            text::texts(paths@) == self@.files,
    {
        self.files.as_slice()
    }

    /// All hashes with their posting lists, in the order of the lookup table.
    pub fn all_postings(&self) -> (out: Vec<(u64, Vec<u32>)>)
        ensures
            entry_views(out@) == self@.entries(),
    {
        proof {
            use_type_invariant(self);
        }
        let n: usize = self.num_entries as usize;
        let mut out: Vec<(u64, Vec<u32>)> = Vec::new();
        let mut i: usize = 0;
        while i < n
            invariant
                i <= n,
                n == self@.num_entries,
                out@.len() == i,
                forall|k: int| 0 <= k < i ==> entry_view(#[trigger] out@[k]) == self@.entries()[k],
            decreases n - i,
        {
            let hash: u64 = self.entry_hash(i);
            let ids = match self.entry_ids(i) {
                Some(ids) => ids,
                None => Vec::new(),
            };
            out.push((hash, ids));
            i += 1;
        }
        assert(entry_views(out@) =~= self@.entries());
        out
    }
}

/// A hash and its posting list.
pub open spec fn entry_view(entry: (u64, Vec<u32>)) -> (u64, Seq<u32>) {
    (entry.0, entry.1@)
}

/// Hashes and their posting lists.
pub open spec fn entry_views(entries: Seq<(u64, Vec<u32>)>) -> Seq<(u64, Seq<u32>)> {
    entries.map_values(|e: (u64, Vec<u32>)| entry_view(e))
}

// ---------------------------------------------------------------------------
// What a lookup finds, and what is read back
// ---------------------------------------------------------------------------

/// Where the entries are in ascending order of their hashes, a lookup finds every
/// hash of the table, and nothing for a hash that is not in it.
pub proof fn law_lookup_in_sorted_table(index: IndexView, hash: u64)
    requires
        index.sorted(),
    ensures
        forall|k: int| 0 <= k < index.num_entries && #[trigger] index.hash_at(k) == hash ==> index.ids_of(hash)
            == index.ids_at(k),
        (forall|k: int| 0 <= k < index.num_entries ==> #[trigger] index.hash_at(k) != hash) ==> index.ids_of(
            hash,
        ) is None,
{
    lemma_bisect(index, hash, 0, index.num_entries as int);
    if let Some(k) = index.bisect(hash, 0, index.num_entries as int) {
        assert forall|j: int| 0 <= j < index.num_entries && #[trigger] index.hash_at(j) == hash implies j == k by {
            assert(index.hash_at(k) == hash);
        }
    }
}

proof fn lemma_bisect(index: IndexView, hash: u64, lo: int, hi: int)
    requires
        index.sorted(),
        0 <= lo <= hi <= index.num_entries,
        forall|k: int| 0 <= k < index.num_entries && #[trigger] index.hash_at(k) == hash ==> lo <= k < hi,
    ensures
        match index.bisect(hash, lo, hi) {
            Some(k) => lo <= k < hi && index.hash_at(k) == hash,
            None => forall|k: int| 0 <= k < index.num_entries ==> #[trigger] index.hash_at(k) != hash,
        },
    decreases hi - lo,
{
    if lo < hi {
        let mid = lo + (hi - lo) / 2;
        let h = index.hash_at(mid);
        if h != hash {
            if h < hash {
                lemma_bisect(index, hash, mid + 1, hi);
            } else {
                lemma_bisect(index, hash, lo, mid);
            }
        }
    }
}

/// A finite set of hashes can be listed in ascending order.
pub proof fn lemma_sorted_exists(set: Set<u64>)
    requires
        set.finite(),
    ensures
        lists_set(sorted_hashes(set), set),
        sorted_hashes(set).len() == set.len(),
    decreases set.len(),
{
    if set.len() == 0 {
        assert(set =~= Set::<u64>::empty());
        assert(lists_set(Seq::<u64>::empty(), set));
        lemma_sorted_unique(sorted_hashes(set), Seq::empty(), set);
    } else {
        let leq = |a: u64, b: u64| a <= b;
        let top = set.find_unique_maximal(leq);
        set.find_unique_maximal_ensures(leq);
        set.lemma_maximal_equivalent_greatest(leq, top);
        let rest = set.remove(top);
        lemma_sorted_exists(rest);
        let below = sorted_hashes(rest);
        let all = below.push(top);
        assert forall|i: int, j: int| 0 <= i < j < all.len() implies all[i] < all[j] by {
            if j == below.len() {
                assert(below.contains(below[i]));
                assert(rest.contains(below[i]));
                assert(leq(below[i], top));
            }
        }
        assert forall|h: u64| set.contains(h) <==> all.contains(h) by {
            if set.contains(h) {
                if h == top {
                    assert(all[below.len() as int] == h);
                } else {
                    assert(rest.contains(h));
                    let k = choose|k: int| 0 <= k < below.len() && below[k] == h;
                    assert(all[k] == h);
                }
            }
            if all.contains(h) {
                let k = choose|k: int| 0 <= k < all.len() && all[k] == h;
                if k < below.len() {
                    assert(below.contains(h));
                    assert(rest.contains(h));
                }
            }
        }
        assert(lists_set(all, set));
        lemma_sorted_unique(sorted_hashes(set), all, set);
    }
}

/// Where the `k`-th entry and its posting list lie.
pub proof fn lemma_entry_layout(hashes: Seq<u64>, lists: Map<u64, Seq<u32>>, k: int)
    requires
        0 <= k < hashes.len(),
    ensures
        table_bytes(hashes, lists).len() == 16 * hashes.len(),
        table_bytes(hashes, lists).subrange(16 * k, 16 * k + 16) == entry_bytes(
            hashes[k],
            postings_bytes(hashes.take(k), lists).len() as u32,
            postings::encoded_ids(lists[hashes[k]], 0).len() as u32,
        ),
        postings_bytes(hashes.take(k), lists).len() + postings::encoded_ids(lists[hashes[k]], 0).len()
            <= postings_bytes(hashes, lists).len(),
        postings_bytes(hashes, lists).subrange(
            postings_bytes(hashes.take(k), lists).len() as int,
            (postings_bytes(hashes.take(k), lists).len() + postings::encoded_ids(lists[hashes[k]], 0).len()) as int,
        ) == postings::encoded_ids(lists[hashes[k]], 0),
    decreases hashes.len(),
{
    let before = hashes.drop_last();
    let table = table_bytes(hashes, lists);
    let bytes = postings_bytes(hashes, lists);
    lemma_auto_spec_u64_to_from_le_bytes();
    lemma_auto_spec_u32_to_from_le_bytes();
    lemma_table_len(before, lists);
    if k == hashes.len() - 1 {
        assert(hashes.take(k) =~= before);
        let entry = entry_bytes(
            hashes[k],
            postings_bytes(before, lists).len() as u32,
            postings::encoded_ids(lists[hashes[k]], 0).len() as u32,
        );
        assert(table.subrange(16 * k, 16 * k + 16) =~= entry);
        let off = postings_bytes(before, lists).len() as int;
        assert(bytes.subrange(off, bytes.len() as int) =~= postings::encoded_ids(lists[hashes[k]], 0));
    } else {
        lemma_entry_layout(before, lists, k);
        assert(before.take(k) =~= hashes.take(k));
        assert(table.subrange(16 * k, 16 * k + 16) =~= table_bytes(before, lists).subrange(16 * k, 16 * k + 16));
        let off = postings_bytes(hashes.take(k), lists).len() as int;
        let len = postings::encoded_ids(lists[hashes[k]], 0).len() as int;
        assert(bytes.subrange(off, off + len) =~= postings_bytes(before, lists).subrange(off, off + len));
    }
}

pub proof fn lemma_table_len(hashes: Seq<u64>, lists: Map<u64, Seq<u32>>)
    ensures
        table_bytes(hashes, lists).len() == 16 * hashes.len(),
    decreases hashes.len(),
{
    lemma_auto_spec_u64_to_from_le_bytes();
    lemma_auto_spec_u32_to_from_le_bytes();
    if hashes.len() > 0 {
        lemma_table_len(hashes.drop_last(), lists);
    }
}

/// The entry at `k` of a lookup table that was laid out.
proof fn lemma_entry_read(lists: Map<u64, Seq<u32>>, num_files: nat, files: Seq<char>, k: int)
    requires
        lists.dom().finite(),
        lists.len() <= usize::MAX,
        writable(lists),
        0 <= k < lists.len(),
    ensures
        ({
            let hashes = sorted_hashes(lists.dom());
            let bytes = postings_bytes(hashes, lists);
            let index = opened(lookup_bytes(lists, num_files), bytes, files)->Ok_0;
            &&& index.hash_at(k) == hashes[k]
            &&& index.ids_at(k) == (if bytes.len() == 0 {
                None
            } else {
                Some(lists[hashes[k]])
            })
        }),
{
    let hashes = sorted_hashes(lists.dom());
    let bytes = postings_bytes(hashes, lists);
    let lookup = lookup_bytes(lists, num_files);
    let index = opened(lookup, bytes, files)->Ok_0;
    law_written_index_opens(lists, num_files, files);
    lemma_sorted_exists(lists.dom());
    lemma_auto_spec_u64_to_from_le_bytes();
    lemma_auto_spec_u32_to_from_le_bytes();
    lemma_entry_layout(hashes, lists, k);
    let h = hashes[k];
    assert(hashes.contains(h));
    let off = postings_bytes(hashes.take(k), lists).len();
    let len = postings::encoded_ids(lists[h], 0).len();
    let table = table_bytes(hashes, lists);
    let entry = table.subrange(16 * k, 16 * k + 16);
    assert(lookup.len() == 32 + table.len());
    assert(lookup.subrange(32 + 16 * k, 48 + 16 * k) =~= entry);
    assert(lookup.subrange(32 + 16 * k, 40 + 16 * k) =~= entry.subrange(0, 8));
    assert(lookup.subrange(40 + 16 * k, 44 + 16 * k) =~= entry.subrange(8, 12));
    assert(lookup.subrange(44 + 16 * k, 48 + 16 * k) =~= entry.subrange(12, 16));
    assert(entry.subrange(0, 8) =~= spec_u64_to_le_bytes(h));
    assert(entry.subrange(8, 12) =~= spec_u32_to_le_bytes(off as u32));
    assert(entry.subrange(12, 16) =~= spec_u32_to_le_bytes(len as u32));
    postings::law_posting_list_round_trip(lists[h]);
}

/// An index that was laid out opens, with the numbers of entries that it has.
pub proof fn law_written_index_opens(lists: Map<u64, Seq<u32>>, num_files: nat, files: Seq<char>)
    requires
        lists.dom().finite(),
        lists.len() <= usize::MAX,
        writable(lists),
    ensures
        ({
            let bytes = postings_bytes(sorted_hashes(lists.dom()), lists);
            let index = opened(lookup_bytes(lists, num_files), bytes, files);
            &&& index is Ok
            &&& index->Ok_0.num_entries == lists.len()
            &&& index->Ok_0.version == VERSION
            &&& index->Ok_0.files == text::lines(files)
        }),
{
    let hashes = sorted_hashes(lists.dom());
    let lookup = lookup_bytes(lists, num_files);
    lemma_auto_spec_u64_to_from_le_bytes();
    lemma_auto_spec_u32_to_from_le_bytes();
    lemma_sorted_exists(lists.dom());
    lemma_table_len(hashes, lists);
    assert(lookup.len() == 32 + 16 * hashes.len());
    assert(lookup.take(4) =~= magic());
    assert(lookup.subrange(4, 8) =~= spec_u32_to_le_bytes(VERSION));
    assert(lookup.subrange(8, 16) =~= spec_u64_to_le_bytes(hashes.len() as u64));
}

/// A lookup in an index that was laid out gives the posting list of every hash
/// that the index holds, and nothing for any other hash. Where all posting lists
/// are empty, no postings are there to read and every lookup gives nothing.
pub proof fn law_lookup_after_write(lists: Map<u64, Seq<u32>>, num_files: nat, files: Seq<char>, hash: u64)
    requires
        lists.dom().finite(),
        lists.len() <= usize::MAX,
        writable(lists),
    ensures
        ({
            let bytes = postings_bytes(sorted_hashes(lists.dom()), lists);
            let index = opened(lookup_bytes(lists, num_files), bytes, files);
            &&& index is Ok
            &&& index->Ok_0.sorted()
            &&& index->Ok_0.ids_of(hash) == (if lists.dom().contains(hash) && bytes.len() > 0 {
                Some(lists[hash])
            } else {
                None
            })
        }),
{
    let hashes = sorted_hashes(lists.dom());
    let index = opened(lookup_bytes(lists, num_files), postings_bytes(hashes, lists), files)->Ok_0;
    law_written_index_opens(lists, num_files, files);
    lemma_sorted_exists(lists.dom());
    assert forall|i: int, j: int| 0 <= i < j < index.num_entries implies #[trigger] index.hash_at(i)
        < #[trigger] index.hash_at(j) by {
        lemma_entry_read(lists, num_files, files, i);
        lemma_entry_read(lists, num_files, files, j);
    }
    law_lookup_in_sorted_table(index, hash);
    if lists.dom().contains(hash) {
        assert(hashes.contains(hash));
        let k = choose|k: int| 0 <= k < hashes.len() && hashes[k] == hash;
        lemma_entry_read(lists, num_files, files, k);
        assert(index.hash_at(k) == hash);
    } else {
        assert forall|k: int| 0 <= k < index.num_entries implies #[trigger] index.hash_at(k) != hash by {
            lemma_entry_read(lists, num_files, files, k);
            assert(hashes.contains(hashes[k]));
        }
    }
}

/// Reading all postings of an index that was laid out gives every hash with its
/// posting list, in ascending order of the hashes.
pub proof fn law_all_postings_after_write(lists: Map<u64, Seq<u32>>, num_files: nat, files: Seq<char>)
    requires
        lists.dom().finite(),
        lists.len() <= usize::MAX,
        writable(lists),
    ensures
        ({
            let hashes = sorted_hashes(lists.dom());
            let index = opened(lookup_bytes(lists, num_files), postings_bytes(hashes, lists), files);
            &&& index is Ok
            &&& lists_set(hashes, lists.dom())
            &&& index->Ok_0.entries() == hashes.map_values(|h: u64| (h, lists[h]))
        }),
{
    let hashes = sorted_hashes(lists.dom());
    let bytes = postings_bytes(hashes, lists);
    let index = opened(lookup_bytes(lists, num_files), bytes, files)->Ok_0;
    law_written_index_opens(lists, num_files, files);
    lemma_sorted_exists(lists.dom());
    assert forall|k: int| 0 <= k < hashes.len() implies index.entries()[k] == (hashes[k], lists[hashes[k]]) by {
        lemma_entry_read(lists, num_files, files, k);
        lemma_entry_layout(hashes, lists, k);
        if bytes.len() == 0 {
            lemma_encoded_empty(lists[hashes[k]], 0);
        }
    }
    assert(index.entries() =~= hashes.map_values(|h: u64| (h, lists[h])));
}

/// Postings are there as soon as one posting list is not empty.
pub proof fn lemma_some_postings(lists: Map<u64, Seq<u32>>, hash: u64)
    requires
        lists.dom().finite(),
        lists.dom().contains(hash),
        lists[hash].len() > 0,
    ensures
        postings_bytes(sorted_hashes(lists.dom()), lists).len() > 0,
{
    let hashes = sorted_hashes(lists.dom());
    lemma_sorted_exists(lists.dom());
    assert(hashes.contains(hash));
    let k = choose|k: int| 0 <= k < hashes.len() && hashes[k] == hash;
    lemma_entry_layout(hashes, lists, k);
    if postings::encoded_ids(lists[hash], 0).len() == 0 {
        lemma_encoded_empty(lists[hash], 0);
    }
}

/// Only an empty list has an empty encoding.
proof fn lemma_encoded_empty(ids: Seq<u32>, prev: u32)
    requires
        postings::encoded_ids(ids, prev).len() == 0,
    ensures
        ids == Seq::<u32>::empty(),
{
    if ids.len() > 0 {
        assert(postings::varint((ids[0] - prev) as nat).len() > 0);
    }
    assert(ids =~= Seq::<u32>::empty());
}

/// The file paths of an index that was laid out are read back, where they can be told
/// apart as lines.
pub proof fn law_files_after_write(lists: Map<u64, Seq<u32>>, files: Seq<Seq<char>>)
    requires
        lists.dom().finite(),
        lists.len() <= usize::MAX,
        writable(lists),
        text::separable(files),
    ensures
        ({
            let bytes = postings_bytes(sorted_hashes(lists.dom()), lists);
            let index = opened(lookup_bytes(lists, files.len()), bytes, text::joined(files));
            &&& index is Ok
            &&& index->Ok_0.files == files
        }),
{
    law_written_index_opens(lists, files.len(), text::joined(files));
    text::law_lines_of_joined(files);
}

} // verus!
