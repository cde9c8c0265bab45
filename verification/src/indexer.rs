//! The inverted index in memory, and how it is built and updated.

use crate::freshness::FreshnessReport;
use crate::ngram;
use crate::ngram::collect_hashes;
use crate::postings;
use crate::sorting;
use crate::sorting::order_texts;
use crate::storage;
use crate::storage::{IndexView, MappedIndex};
use crate::text;
use crate::text::{push_copies, text_set};
use std::collections::{HashMap, HashSet};
use vstd::hash_set::StringHashSet;
use vstd::prelude::*;

verus! {

broadcast use vstd::std_specs::hash::group_hash_axioms;

/// Default maximum file size to index (10 MB).
pub const DEFAULT_MAX_FILE_SIZE: u64 = 10_485_760;

/// Number of leading bytes checked for null bytes (binary detection).
pub const BINARY_CHECK_LEN: usize = 8192;

/// Statistics about the building of an index.
pub struct IndexStats {
    pub file_count: usize,
    pub ngram_count: usize,
    pub total_ngrams: usize,
    /// How long the building took, in nanoseconds.
    pub build_duration: u128,
    pub skipped_binary: usize,
    pub skipped_large: usize,
    pub skipped_errors: usize,
}

/// An inverted index, ready to be laid out in bytes.
pub struct InMemoryIndex {
    /// The indexed file paths, relative to the root. A file's ID is its position.
    pub files: Vec<String>,
    /// Map from n-gram hash to the ascending IDs of the files that hold the n-gram.
    pub postings: HashMap<u64, Vec<u32>>,
    /// Statistics about the build process.
    pub stats: IndexStats,
}

/// The posting lists of a map from hashes.
pub open spec fn posting_lists(postings: Map<u64, Vec<u32>>) -> Map<u64, Seq<u32>> {
    postings.map_values(|ids: Vec<u32>| ids@)
}

impl InMemoryIndex {
    /// The posting lists by hash.
    pub open spec fn lists(self) -> Map<u64, Seq<u32>> {
        posting_lists(self.postings@)
    }
}

// ---------------------------------------------------------------------------
// One file
// ---------------------------------------------------------------------------

/// Result of processing a single file for indexing.
pub enum FileResult {
    Indexed { rel_path: String, hashes: HashSet<u64> },
    SkippedBinary,
    SkippedLarge,
    Error(String),
}

/// Whether contents count as binary: a null byte is among their first bytes.
pub open spec fn binary(contents: Seq<u8>) -> bool {
    exists|i: int| 0 <= i < contents.len() && i < BINARY_CHECK_LEN && contents[i] == 0
}

/// Whether contents count as binary.
fn is_binary(contents: &[u8]) -> (r: bool)
    ensures
        r == binary(contents@),
{
    let mut i: usize = 0;
    while i < contents.len() && i < BINARY_CHECK_LEN
        invariant
            i <= contents@.len(),
            i <= BINARY_CHECK_LEN,
            forall|k: int| 0 <= k < i ==> contents@[k] != 0,
        decreases contents@.len() - i,
    {
        if contents[i] == 0 {
            return true;
        }
        i += 1;
    }
    false
}

/// Whether a file is too large to be indexed.
pub fn is_too_large(size: u64, max_file_size: u64) -> (r: bool)
    ensures
        r == (size > max_file_size),
{
    size > max_file_size
}

/// Contents are binary exactly if there is a null byte among their first 8192 bytes, or
/// among all of them where there are fewer.
pub proof fn law_binary_is_a_leading_null_byte(contents: Seq<u8>)
    ensures
        binary(contents) <==> contents.take(
            if contents.len() < 8192 {
                contents.len() as int
            } else {
                8192
            },
        ).contains(0u8),
{
    let n: int = if contents.len() < 8192 {
        contents.len() as int
    } else {
        8192
    };
    let first = contents.take(n);
    if binary(contents) {
        let i = choose|i: int| 0 <= i < contents.len() && i < BINARY_CHECK_LEN && contents[i] == 0;
        assert(first[i] == 0u8);
    }
    if first.contains(0u8) {
        let i = choose|i: int| 0 <= i < first.len() && first[i] == 0u8;
        assert(contents[i] == 0);
    }
}

/// Indexes the contents of a file: its trigram hashes, or nothing where the
/// contents are binary.
pub fn index_file(rel_path: String, contents: &[u8]) -> (r: FileResult)
    ensures
        if contents@.take(
            if contents@.len() < 8192 {
                contents@.len() as int
            } else {
                8192
            },
        ).contains(0u8) {
            r is SkippedBinary
        } else {
            &&& r is Indexed
            &&& r->rel_path@ == rel_path@
            &&& r->hashes@ == ngram::content_hashes(contents@)
        },
        r is SkippedBinary <==> binary(contents@),
{
    proof {
        law_binary_is_a_leading_null_byte(contents@);
    }
    if is_binary(contents) {
        FileResult::SkippedBinary
    } else {
        FileResult::Indexed { rel_path, hashes: collect_hashes(contents) }
    }
}

/// Processes a single file for an update: `None` where it is larger than
/// `max_file_size`, could not be read, is binary, or does not lie under the root.
pub fn process_file(
    rel_path: Option<String>,
    size: u64,
    contents: Option<&[u8]>,
    max_file_size: u64,
) -> (r: Option<(String, HashSet<u64>)>)
    ensures
        r is Some <==> size <= max_file_size && rel_path is Some && contents is Some && !binary(contents->0@),
        r is Some <==> size <= max_file_size && rel_path is Some && contents is Some && !contents->0@.take(
            if contents->0@.len() < 8192 {
                contents->0@.len() as int
            } else {
                8192
            },
        ).contains(0u8),
        match r {
            Some((path, hashes)) => path@ == rel_path->0@ && hashes@ == ngram::content_hashes(contents->0@),
            None => true,
        },
{
    if is_too_large(size, max_file_size) {
        return None;
    }
    match contents {
        None => None,
        Some(bytes) => {
            proof {
                law_binary_is_a_leading_null_byte(bytes@);
            }
            if is_binary(bytes) {
                return None;
            }
            match rel_path {
                None => None,
                Some(path) => Some((path, collect_hashes(bytes))),
            }
        },
    }
}

// ---------------------------------------------------------------------------
// Posting lists of files
// ---------------------------------------------------------------------------

/// The posting list of a hash, empty where there is none.
pub open spec fn list_of(lists: Map<u64, Seq<u32>>, h: u64) -> Seq<u32> {
    if lists.dom().contains(h) {
        lists[h]
    } else {
        Seq::empty()
    }
}

/// Posting lists with a further file: its ID at the end of the list of every hash
/// that it holds.
pub open spec fn with_file(lists: Map<u64, Seq<u32>>, id: u32, hashes: Set<u64>) -> Map<u64, Seq<u32>> {
    Map::new(
        |h: u64| lists.dom().contains(h) || hashes.contains(h),
        |h: u64|
            if hashes.contains(h) {
                list_of(lists, h).push(id)
            } else {
                lists[h]
            },
    )
}

/// Posting lists with further files, whose IDs go on after `first`.
pub open spec fn with_files(lists: Map<u64, Seq<u32>>, first: nat, sets: Seq<Set<u64>>) -> Map<u64, Seq<u32>>
    decreases sets.len(),
{
    if sets.len() == 0 {
        lists
    } else {
        with_file(
            with_files(lists, first, sets.drop_last()),
            (first + sets.len() - 1) as u32,
            sets.last(),
        )
    }
}

/// The posting lists of files, by the hashes that each of them holds.
pub open spec fn index_lists(sets: Seq<Set<u64>>) -> Map<u64, Seq<u32>> {
    with_files(Map::empty(), 0, sets)
}

/// How many hashes the files hold, each counted in every file that holds it.
pub open spec fn total_hashes(sets: Seq<Set<u64>>) -> nat
    decreases sets.len(),
{
    if sets.len() == 0 {
        0
    } else {
        total_hashes(sets.drop_last()) + sets.last().len()
    }
}

/// Appends a file's ID to the posting lists of its hashes.
fn add_file(postings: &mut HashMap<u64, Vec<u32>>, id: u32, hashes: &HashSet<u64>)
    ensures
        posting_lists(final(postings)@) == with_file(posting_lists(old(postings)@), id, hashes@),
{
    let ghost before = posting_lists(postings@);
    proof {
        lemma_with_no_file(before, id, Set::<u64>::empty());
        lemma_lists_dom(postings@);
    }
    for h in it: hashes.iter()
        invariant
            it.seq().unref().to_set() == hashes@,
            it.seq().unref().no_duplicates(),
            before == posting_lists(old(postings)@),
            posting_lists(postings@) == with_file(before, id, it.seq().unref().take(it.index()).to_set()),
            it.index() == it.seq().len() ==> posting_lists(postings@) == with_file(before, id, hashes@),
    {
        let ghost current = posting_lists(postings@);
        let ghost map_before = postings@;
        let hash: u64 = *h;
        let mut list: Vec<u32> = match postings.remove(&hash) {
            Some(list) => list,
            None => Vec::new(),
        };
        proof {
            assert(list@ =~= list_of(current, hash));
        }
        list.push(id);
        let ghost pushed = list@;
        postings.insert(hash, list);
        proof {
            lemma_add_hash(before, id, it.seq().unref(), it.index(), current, posting_lists(postings@));
        }
    }
}

proof fn lemma_lists_dom(postings: Map<u64, Vec<u32>>)
    ensures
        posting_lists(postings).dom() == postings.dom(),
{
    assert(posting_lists(postings).dom() =~= postings.dom());
}

proof fn lemma_with_no_file(lists: Map<u64, Seq<u32>>, id: u32, none: Set<u64>)
    requires
        none == Set::<u64>::empty(),
    ensures
        with_file(lists, id, none) == lists,
{
    assert(with_file(lists, id, none) =~= lists);
}

/// One more hash of a file.
proof fn lemma_add_hash(
    before: Map<u64, Seq<u32>>,
    id: u32,
    hashes: Seq<u64>,
    n: int,
    current: Map<u64, Seq<u32>>,
    next: Map<u64, Seq<u32>>,
)
    requires
        0 <= n < hashes.len(),
        hashes.no_duplicates(),
        current == with_file(before, id, hashes.take(n).to_set()),
        next =~= current.insert(hashes[n], list_of(current, hashes[n]).push(id)),
    ensures
        next == with_file(before, id, hashes.take(n + 1).to_set()),
        n + 1 == hashes.len() ==> next == with_file(before, id, hashes.to_set()),
{
    let done = hashes.take(n).to_set();
    let all = hashes.take(n + 1).to_set();
    let h = hashes[n];
    assert(!done.contains(h)) by {
        if done.contains(h) {
            let k = choose|k: int| 0 <= k < n && hashes.take(n)[k] == h;
            assert(hashes[k] == h);
        }
    }
    assert forall|x: u64| all.contains(x) <==> done.contains(x) || x == h by {
        if done.contains(x) {
            let k = choose|k: int| 0 <= k < n && hashes.take(n)[k] == x;
            assert(hashes.take(n + 1)[k] == x);
        }
        if x == h {
            assert(hashes.take(n + 1)[n] == x);
        }
        if all.contains(x) && x != h {
            let longer = hashes.take(n + 1);
            let k = choose|k: int| 0 <= k < longer.len() && longer[k] == x;
            assert(hashes.take(n)[k] == x);
        }
    }
    let want = with_file(before, id, all);
    assert(list_of(current, h) == list_of(before, h));
    assert(next =~= want);
    if n + 1 == hashes.len() {
        assert(hashes.take(n + 1) =~= hashes);
    }
}

// ---------------------------------------------------------------------------
// A full build
// ---------------------------------------------------------------------------

/// The paths of the files that were indexed, in the order of the results.
pub open spec fn indexed_paths(results: Seq<FileResult>) -> Seq<Seq<char>>
    decreases results.len(),
{
    if results.len() == 0 {
        Seq::empty()
    } else {
        match results.last() {
            FileResult::Indexed { rel_path, .. } => indexed_paths(results.drop_last()).push(rel_path@),
            _ => indexed_paths(results.drop_last()),
        }
    }
}

/// The hashes of the files that were indexed, in the order of the results.
pub open spec fn indexed_sets(results: Seq<FileResult>) -> Seq<Set<u64>>
    decreases results.len(),
{
    if results.len() == 0 {
        Seq::empty()
    } else {
        match results.last() {
            FileResult::Indexed { hashes, .. } => indexed_sets(results.drop_last()).push(hashes@),
            _ => indexed_sets(results.drop_last()),
        }
    }
}

/// How many results are of the wanted kind.
pub open spec fn count(results: Seq<FileResult>, wanted: spec_fn(FileResult) -> bool) -> nat
    decreases results.len(),
{
    if results.len() == 0 {
        0
    } else {
        count(results.drop_last(), wanted) + if wanted(results.last()) {
            1nat
        } else {
            0
        }
    }
}

/// Whether results can be numbered and counted: file IDs have 32 bits, and the
/// counts have to fit in a machine word.
pub open spec fn countable(results: Seq<FileResult>, walker_errors: usize) -> bool {
    &&& indexed_paths(results).len() <= u32::MAX
    &&& walker_errors + count(results, |r: FileResult| r is Error) <= usize::MAX
    &&& total_hashes(indexed_sets(results)) <= usize::MAX
}

proof fn lemma_counts(results: Seq<FileResult>, wanted: spec_fn(FileResult) -> bool)
    ensures
        count(results, wanted) <= results.len(),
        indexed_sets(results).len() <= results.len(),
        indexed_paths(results).len() == indexed_sets(results).len(),
    decreases results.len(),
{
    if results.len() > 0 {
        lemma_counts(results.drop_last(), wanted);
    }
}

/// The counts of the first results are no larger than those of all.
proof fn lemma_prefix_counts(results: Seq<FileResult>, wanted: spec_fn(FileResult) -> bool, n: int)
    requires
        0 <= n <= results.len(),
    ensures
        count(results.take(n), wanted) <= count(results, wanted),
        indexed_paths(results.take(n)).len() <= indexed_paths(results).len(),
        total_hashes(indexed_sets(results.take(n))) <= total_hashes(indexed_sets(results)),
    decreases results.len(),
{
    if n < results.len() {
        let before = results.drop_last();
        lemma_prefix_counts(before, wanted, n);
        assert(before.take(n) =~= results.take(n));
        if results.last() is Indexed {
            assert(indexed_sets(results).drop_last() =~= indexed_sets(before));
        }
    } else {
        assert(results.take(n) =~= results);
    }
}

/// Whether results can be numbered and counted.
pub fn is_countable(results: &[FileResult], walker_errors: usize) -> (r: bool)
    ensures
        r == countable(results@, walker_errors),
{
    let mut indexed: u32 = 0;
    let mut errors: usize = walker_errors;
    let mut total: usize = 0;
    let ghost error_kind = |r: FileResult| r is Error;
    let mut i: usize = 0;
    while i < results.len()
        invariant
            i <= results@.len(),
            error_kind == |r: FileResult| r is Error,
            indexed == indexed_paths(results@.take(i as int)).len(),
            errors == walker_errors + count(results@.take(i as int), error_kind),
            total == total_hashes(indexed_sets(results@.take(i as int))),
        decreases results@.len() - i,
    {
        proof {
            assert(results@.take(i + 1).drop_last() =~= results@.take(i as int));
            lemma_prefix_counts(results@, error_kind, i + 1);
        }
        match &results[i] {
            FileResult::Indexed { rel_path, hashes } => {
                let n: usize = hashes.len();
                proof {
                    let sets = indexed_sets(results@.take(i + 1));
                    assert(sets.drop_last() =~= indexed_sets(results@.take(i as int)));
                }
                if indexed == u32::MAX || n > usize::MAX - total {
                    return false;
                }
                indexed = indexed + 1;
                total = total + n;
            },
            FileResult::Error(_) => {
                if errors == usize::MAX {
                    return false;
                }
                errors = errors + 1;
            },
            _ => {},
        }
        i += 1;
    }
    assert(results@.take(i as int) =~= results@);
    true
}

/// The paths of the files that a build indexes, in ascending order: the position of a
/// path is the ID of its file.
pub open spec fn built_paths(results: Seq<FileResult>) -> Seq<Seq<char>> {
    let paths = indexed_paths(results);
    sorting::arranged(paths, sorting::text_order(paths))
}

/// The hashes of the files that a build indexes, by the IDs of the files.
pub open spec fn built_sets(results: Seq<FileResult>) -> Seq<Set<u64>> {
    sorting::arranged(indexed_sets(results), sorting::text_order(indexed_paths(results)))
}

/// Where the files that were indexed stand among the results.
struct Gathered {
    paths: Vec<String>,
    positions: Vec<usize>,
    total_ngrams: usize,
    skipped_binary: usize,
    skipped_large: usize,
    skipped_errors: usize,
}

/// Whether a result is that of a file with a path and hashes.
spec fn holds_file(result: FileResult, path: Seq<char>, hashes: Set<u64>) -> bool {
    &&& result is Indexed
    &&& result->rel_path@ == path
    &&& result->hashes@ == hashes
}

/// Counts the results of each kind, and gathers the paths of the files that were
/// indexed.
fn gather(results: &Vec<FileResult>, walker_errors: usize) -> (out: Gathered)
    requires
        countable(results@, walker_errors),
    ensures
        text::texts(out.paths@) == indexed_paths(results@),
        out.positions@.len() == indexed_sets(results@).len(),
        forall|k: int|
            0 <= k < out.positions@.len() ==> (#[trigger] out.positions@[k]) < results@.len() && holds_file(
                results@[out.positions@[k] as int],
                indexed_paths(results@)[k],
                indexed_sets(results@)[k],
            ),
        out.total_ngrams == total_hashes(indexed_sets(results@)),
        out.skipped_binary == count(results@, |r: FileResult| r is SkippedBinary),
        out.skipped_large == count(results@, |r: FileResult| r is SkippedLarge),
        out.skipped_errors == walker_errors + count(results@, |r: FileResult| r is Error),
{
    let mut paths: Vec<String> = Vec::new();
    let mut positions: Vec<usize> = Vec::new();
    let mut total_ngrams: usize = 0;
    let mut skipped_binary: usize = 0;
    let mut skipped_large: usize = 0;
    let mut skipped_errors: usize = walker_errors;
    let ghost all = results@;
    let ghost binary_kind = |r: FileResult| r is SkippedBinary;
    let ghost large_kind = |r: FileResult| r is SkippedLarge;
    let ghost error_kind = |r: FileResult| r is Error;
    let mut i: usize = 0;
    assert(text::texts(paths@) =~= indexed_paths(all.take(0)));
    while i < results.len()
        invariant
            i <= results@.len(),
            all == results@,
            countable(all, walker_errors),
            binary_kind == |r: FileResult| r is SkippedBinary,
            large_kind == |r: FileResult| r is SkippedLarge,
            error_kind == |r: FileResult| r is Error,
            text::texts(paths@) == indexed_paths(all.take(i as int)),
            positions@.len() == indexed_sets(all.take(i as int)).len(),
            forall|k: int|
                0 <= k < positions@.len() ==> (#[trigger] positions@[k]) < i && holds_file(
                    all[positions@[k] as int],
                    indexed_paths(all.take(i as int))[k],
                    indexed_sets(all.take(i as int))[k],
                ),
            total_ngrams == total_hashes(indexed_sets(all.take(i as int))),
            skipped_binary == count(all.take(i as int), binary_kind),
            skipped_large == count(all.take(i as int), large_kind),
            skipped_errors == walker_errors + count(all.take(i as int), error_kind),
        decreases results@.len() - i,
    {
        let ghost paths_before = text::texts(paths@);
        let ghost now = all.take(i + 1);
        proof {
            assert(now.drop_last() =~= all.take(i as int));
            assert(now.last() == all[i as int]);
            lemma_counts(all.take(i as int), binary_kind);
            lemma_counts(all.take(i as int), large_kind);
            lemma_counts(all.take(i as int), error_kind);
            lemma_prefix_counts(all, error_kind, i + 1);
        }
        match &results[i] {
            FileResult::SkippedBinary => {
                skipped_binary += 1;
            },
            FileResult::SkippedLarge => {
                skipped_large += 1;
            },
            FileResult::Error(_) => {
                skipped_errors += 1;
            },
            FileResult::Indexed { rel_path, hashes } => {
                assert(indexed_sets(now).drop_last() =~= indexed_sets(all.take(i as int)));
                paths.push(rel_path.clone());
                positions.push(i);
                total_ngrams = total_ngrams + hashes.len();
                assert(text::texts(paths@) =~= paths_before.push(rel_path@));
            },
        }
        i += 1;
    }
    assert(all.take(i as int) =~= all);
    Gathered { paths, positions, total_ngrams, skipped_binary, skipped_large, skipped_errors }
}

/// Builds an inverted index from the results of processing each file. File IDs are
/// given out in the order of the paths, whatever the order of the results.
pub fn build_index(results: Vec<FileResult>, walker_errors: usize, build_duration: u128) -> (index: InMemoryIndex)
    requires
        countable(results@, walker_errors),
    ensures
        text::texts(index.files@) == built_paths(results@),
        sorting::sorted_copy(text::texts(index.files@), indexed_paths(results@)),
        index.lists() == index_lists(built_sets(results@)),
        index.stats.file_count == index.files@.len(),
        index.stats.ngram_count == index.lists().len(),
        index.stats.total_ngrams == total_hashes(indexed_sets(results@)),
        index.stats.build_duration == build_duration,
        index.stats.skipped_binary == count(results@, |r: FileResult| r is SkippedBinary),
        index.stats.skipped_large == count(results@, |r: FileResult| r is SkippedLarge),
        index.stats.skipped_errors == walker_errors + count(results@, |r: FileResult| r is Error),
{
    let ghost all = results@;
    let ghost paths = indexed_paths(all);
    let ghost sets = indexed_sets(all);
    let gathered = gather(&results, walker_errors);
    let order = order_texts(gathered.paths.as_slice());
    let ghost positions = sorting::text_order(paths);
    proof {
        lemma_counts(all, |r: FileResult| r is Error);
        sorting::law_text_order_sorts(paths);
    }
    let mut files: Vec<String> = Vec::new();
    let mut postings: HashMap<u64, Vec<u32>> = HashMap::new();
    let mut i: usize = 0;
    proof {
        assert(built_sets(all).take(0) =~= Seq::<Set<u64>>::empty());
        assert(posting_lists(postings@) =~= Map::<u64, Seq<u32>>::empty());
    }
    while i < order.len()
        invariant
            i <= order@.len(),
            all == results@,
            paths == indexed_paths(all),
            sets == indexed_sets(all),
            paths.len() == sets.len() <= u32::MAX,
            positions == sorting::text_order(paths),
            order@.map_values(|i: usize| i as int) == positions,
            sorting::lists_positions(positions, paths.len()),
            gathered.positions@.len() == sets.len(),
            forall|k: int|
                0 <= k < sets.len() ==> (#[trigger] gathered.positions@[k]) < all.len() && holds_file(
                    all[gathered.positions@[k] as int],
                    paths[k],
                    sets[k],
                ),
            files@.len() == i,
            forall|k: int| 0 <= k < i ==> (#[trigger] files@[k])@ == built_paths(all)[k],
            posting_lists(postings@) == index_lists(built_sets(all).take(i as int)),
        decreases order@.len() - i,
    {
        let ghost now = built_sets(all).take(i + 1);
        proof {
            assert(positions[i as int] == order@[i as int]);
            assert(now.drop_last() =~= built_sets(all).take(i as int));
        }
        let at: usize = gathered.positions[order[i]];
        match &results[at] {
            FileResult::Indexed { rel_path, hashes } => {
                add_file(&mut postings, i as u32, hashes);
                files.push(rel_path.clone());
            },
            _ => {
                assert(false);
            },
        }
        i += 1;
    }
    proof {
        assert(built_sets(all).take(i as int) =~= built_sets(all));
        assert(text::texts(files@) =~= built_paths(all));
        lemma_lists_dom(postings@);
    }
    let stats = IndexStats {
        file_count: files.len(),
        ngram_count: postings.len(),
        total_ngrams: gathered.total_ngrams,
        build_duration,
        skipped_binary: gathered.skipped_binary,
        skipped_large: gathered.skipped_large,
        skipped_errors: gathered.skipped_errors,
    };
    InMemoryIndex { files, postings, stats }
}

// ---------------------------------------------------------------------------
// What an index knows
// ---------------------------------------------------------------------------

/// Whether the IDs of a list ascend, each once, and are those of the files that hold
/// the hash.
pub open spec fn lists_holders(ids: Seq<u32>, sets: Seq<Set<u64>>, h: u64) -> bool {
    &&& postings::strictly_ascending(ids)
    &&& forall|id: u32| #[trigger] ids.contains(id) <==> id < sets.len() && sets[id as int].contains(h)
}

/// The posting lists of files list, for every hash, exactly the files that hold it,
/// in ascending order and each once; a hash that no file holds has no list.
pub proof fn law_index_lists_holders(sets: Seq<Set<u64>>, h: u64)
    requires
        sets.len() <= u32::MAX,
    ensures
        lists_holders(list_of(index_lists(sets), h), sets, h),
        index_lists(sets).dom().contains(h) <==> exists|id: int|
            0 <= id < sets.len() && (#[trigger] sets[id]).contains(h),
        index_lists(sets).dom().contains(h) ==> index_lists(sets)[h].len() > 0,
    decreases sets.len(),
{
    let lists = index_lists(sets);
    let ids = list_of(lists, h);
    if sets.len() == 0 {
        assert(ids =~= Seq::<u32>::empty());
    } else {
        let before = sets.drop_last();
        let id = (sets.len() - 1) as u32;
        law_index_lists_holders(before, h);
        let ids_before = list_of(index_lists(before), h);
        if sets.last().contains(h) {
            assert(sets[sets.len() - 1].contains(h));
            assert(ids == ids_before.push(id));
            assert forall|i: int, j: int| 0 <= i < j < ids.len() implies ids[i] < ids[j] by {
                if j == ids_before.len() {
                    assert(ids_before.contains(ids_before[i]));
                }
            }
            assert forall|x: u32| #[trigger] ids.contains(x) <==> x < sets.len() && sets[x as int].contains(h) by {
                if ids.contains(x) {
                    let k = choose|k: int| 0 <= k < ids.len() && ids[k] == x;
                    if k < ids_before.len() {
                        assert(ids_before.contains(x));
                        assert(before[x as int] == sets[x as int]);
                    }
                }
                if x < sets.len() && sets[x as int].contains(h) {
                    if x < before.len() {
                        assert(before[x as int] == sets[x as int]);
                        assert(ids_before.contains(x));
                        let k = choose|k: int| 0 <= k < ids_before.len() && ids_before[k] == x;
                        assert(ids[k] == x);
                    } else {
                        assert(ids[ids_before.len() as int] == x);
                    }
                }
            }
        } else {
            assert(ids == ids_before);
            assert forall|x: u32| #[trigger] ids.contains(x) <==> x < sets.len() && sets[x as int].contains(h) by {
                if x < before.len() {
                    assert(before[x as int] == sets[x as int]);
                }
                if ids.contains(x) {
                    assert(ids_before.contains(x));
                }
                if x < sets.len() && sets[x as int].contains(h) {
                    assert(x < before.len());
                    assert(ids_before.contains(x));
                }
            }
            if index_lists(before).dom().contains(h) {
                let k = choose|k: int| 0 <= k < before.len() && (#[trigger] before[k]).contains(h);
                assert(sets[k].contains(h));
            }
            if exists|k: int| 0 <= k < sets.len() && (#[trigger] sets[k]).contains(h) {
                let k = choose|k: int| 0 <= k < sets.len() && (#[trigger] sets[k]).contains(h);
                assert(before[k].contains(h));
            }
        }
    }
}

// ---------------------------------------------------------------------------
// An incremental update
// ---------------------------------------------------------------------------

/// The paths whose entries in an index are no longer good: those that changed and
/// those that were deleted.
pub open spec fn dirty_paths(report: FreshnessReport) -> Set<Seq<char>> {
    Set::new(
        |path: Seq<char>| text::texts(report.changed@).contains(path) || text::texts(report.deleted@).contains(path),
    )
}

/// The paths that are kept, in their order.
pub open spec fn kept_paths(files: Seq<Seq<char>>, dirty: Set<Seq<char>>) -> Seq<Seq<char>>
    decreases files.len(),
{
    if files.len() == 0 {
        Seq::empty()
    } else if dirty.contains(files.last()) {
        kept_paths(files.drop_last(), dirty)
    } else {
        kept_paths(files.drop_last(), dirty).push(files.last())
    }
}

/// The new ID of a file that is kept: how many files before it are kept.
pub open spec fn new_id(files: Seq<Seq<char>>, dirty: Set<Seq<char>>, id: int) -> nat {
    kept_paths(files.take(id), dirty).len()
}

/// Whether a file ID stands for a file that is kept.
pub open spec fn is_kept(files: Seq<Seq<char>>, dirty: Set<Seq<char>>, id: u32) -> bool {
    id < files.len() && !dirty.contains(files[id as int])
}

/// A posting list with the new IDs of the files that are kept, and no others.
pub open spec fn remapped(ids: Seq<u32>, files: Seq<Seq<char>>, dirty: Set<Seq<char>>) -> Seq<u32>
    decreases ids.len(),
{
    if ids.len() == 0 {
        Seq::empty()
    } else if is_kept(files, dirty, ids.last()) {
        remapped(ids.drop_last(), files, dirty).push(new_id(files, dirty, ids.last() as int) as u32)
    } else {
        remapped(ids.drop_last(), files, dirty)
    }
}

/// The posting lists that are left of an index when only some files are kept.
pub open spec fn kept_lists(
    entries: Seq<(u64, Seq<u32>)>,
    files: Seq<Seq<char>>,
    dirty: Set<Seq<char>>,
) -> Map<u64, Seq<u32>>
    decreases entries.len(),
{
    if entries.len() == 0 {
        Map::empty()
    } else {
        let before = kept_lists(entries.drop_last(), files, dirty);
        let ids = remapped(entries.last().1, files, dirty);
        if ids.len() > 0 {
            before.insert(entries.last().0, ids)
        } else {
            before
        }
    }
}

/// The paths of the files that were processed again.
pub open spec fn processed_paths(results: Seq<Option<(String, HashSet<u64>)>>) -> Seq<Seq<char>>
    decreases results.len(),
{
    if results.len() == 0 {
        Seq::empty()
    } else {
        match results.last() {
            Some((path, _)) => processed_paths(results.drop_last()).push(path@),
            None => processed_paths(results.drop_last()),
        }
    }
}

/// The hashes of the files that were processed again.
pub open spec fn processed_sets(results: Seq<Option<(String, HashSet<u64>)>>) -> Seq<Set<u64>>
    decreases results.len(),
{
    if results.len() == 0 {
        Seq::empty()
    } else {
        match results.last() {
            Some((_, hashes)) => processed_sets(results.drop_last()).push(hashes@),
            None => processed_sets(results.drop_last()),
        }
    }
}

/// Whether the files of an index and of its update can be numbered and counted: file
/// IDs have 32 bits, and the count of hashes has to fit in a machine word.
pub open spec fn updatable(
    report: FreshnessReport,
    old: IndexView,
    results: Seq<Option<(String, HashSet<u64>)>>,
) -> bool {
    &&& old.files.len() <= u32::MAX
    &&& kept_paths(old.files, dirty_paths(report)).len() + processed_paths(results).len() <= u32::MAX
    &&& total_hashes(processed_sets(results)) <= usize::MAX
}

proof fn lemma_kept_len(files: Seq<Seq<char>>, dirty: Set<Seq<char>>)
    ensures
        kept_paths(files, dirty).len() <= files.len(),
    decreases files.len(),
{
    if files.len() > 0 {
        lemma_kept_len(files.drop_last(), dirty);
    }
}

proof fn lemma_processed_len(results: Seq<Option<(String, HashSet<u64>)>>)
    ensures
        processed_paths(results).len() == processed_sets(results).len(),
    decreases results.len(),
{
    if results.len() > 0 {
        lemma_processed_len(results.drop_last());
    }
}

proof fn lemma_processed_prefix(results: Seq<Option<(String, HashSet<u64>)>>, n: int)
    requires
        0 <= n <= results.len(),
    ensures
        processed_paths(results.take(n)).len() <= processed_paths(results).len(),
        total_hashes(processed_sets(results.take(n))) <= total_hashes(processed_sets(results)),
    decreases results.len(),
{
    if n < results.len() {
        let before = results.drop_last();
        lemma_processed_prefix(before, n);
        assert(before.take(n) =~= results.take(n));
        if results.last() is Some {
            assert(processed_sets(results).drop_last() =~= processed_sets(before));
        }
    } else {
        assert(results.take(n) =~= results);
    }
}

/// The paths of an update that have to be processed again: those that changed, then
/// those that were added.
pub fn paths_to_process(report: &FreshnessReport) -> (paths: Vec<String>)
    ensures
        text::texts(paths@) == text::texts(report.changed@) + text::texts(report.added@),
{
    let mut paths: Vec<String> = Vec::new();
    push_copies(&mut paths, report.changed.as_slice());
    push_copies(&mut paths, report.added.as_slice());
    assert(text::texts(paths@) =~= text::texts(report.changed@) + text::texts(report.added@));
    paths
}

/// The set of paths whose entries are no longer good.
fn dirty_set(report: &FreshnessReport) -> (dirty: StringHashSet)
    ensures
        dirty@ == dirty_paths(*report),
{
    let mut dirty = text_set(report.changed.as_slice());
    let ghost changed = dirty@;
    let ghost deleted = text::texts(report.deleted@);
    let mut i: usize = 0;
    while i < report.deleted.len()
        invariant
            i <= report.deleted@.len(),
            deleted == text::texts(report.deleted@),
            forall|path: Seq<char>|
                #[trigger] dirty@.contains(path) <==> changed.contains(path) || deleted.take(i as int).contains(path),
        decreases report.deleted@.len() - i,
    {
        let ghost earlier = deleted.take(i as int);
        let ghost path = report.deleted@[i as int]@;
        dirty.insert(report.deleted[i].clone());
        proof {
            assert(deleted.take(i + 1) =~= earlier.push(path));
            assert forall|p: Seq<char>| #[trigger] dirty@.contains(p) <==> changed.contains(p) || deleted.take(
                i + 1,
            ).contains(p) by {
                text::lemma_push_contains(earlier, path, p);
            }
        }
        i += 1;
    }
    proof {
        assert(deleted.take(i as int) =~= deleted);
        assert(dirty@ =~= dirty_paths(*report));
    }
    dirty
}

/// A posting list with the new IDs of the files that are kept.
fn remap_ids(
    ids: &Vec<u32>,
    mapping: &Vec<Option<u32>>,
    Ghost(files): Ghost<Seq<Seq<char>>>,
    Ghost(dirty): Ghost<Set<Seq<char>>>,
) -> (out: Vec<u32>)
    requires
        mapping@.len() == files.len(),
        forall|k: int|
            0 <= k < files.len() ==> #[trigger] mapping@[k] == (if dirty.contains(files[k]) {
                None::<u32>
            } else {
                Some(new_id(files, dirty, k) as u32)
            }),
    ensures
        out@ == remapped(ids@, files, dirty),
{
    let mut out: Vec<u32> = Vec::new();
    let mut i: usize = 0;
    while i < ids.len()
        invariant
            i <= ids@.len(),
            mapping@.len() == files.len(),
            forall|k: int|
                0 <= k < files.len() ==> #[trigger] mapping@[k] == (if dirty.contains(files[k]) {
                    None::<u32>
                } else {
                    Some(new_id(files, dirty, k) as u32)
                }),
            out@ == remapped(ids@.take(i as int), files, dirty),
        decreases ids@.len() - i,
    {
        let id: u32 = ids[i];
        assert(ids@.take(i + 1).drop_last() =~= ids@.take(i as int));
        if (id as usize) < mapping.len() {
            match mapping[id as usize] {
                Some(new) => {
                    out.push(new);
                },
                None => {},
            }
        }
        i += 1;
    }
    assert(ids@.take(i as int) =~= ids@);
    out
}

/// Whether the files of an index and of its update can be numbered and counted.
pub fn is_updatable(
    report: &FreshnessReport,
    old_index: &MappedIndex,
    results: &[Option<(String, HashSet<u64>)>],
) -> (r: bool)
    ensures
        r == updatable(*report, old_index@, results@),
{
    let ghost old = old_index@;
    let dirty = dirty_set(report);
    let old_files = old_index.file_list();
    assert(old.files.len() == old_files@.len());
    if old_files.len() > u32::MAX as usize {
        return false;
    }
    let mut kept: u32 = 0;
    let mut k: usize = 0;
    while k < old_files.len()
        invariant
            k <= old_files@.len() <= u32::MAX,
            old.files == text::texts(old_files@),
            kept == kept_paths(old.files.take(k as int), dirty@).len(),
        decreases old_files@.len() - k,
    {
        proof {
            assert(old.files.take(k + 1).drop_last() =~= old.files.take(k as int));
            assert(old.files.take(k + 1).last() == old_files@[k as int]@);
            lemma_kept_len(old.files.take(k as int), dirty@);
        }
        if !dirty.contains(old_files[k].as_str()) {
            kept = kept + 1;
        }
        k += 1;
    }
    assert(old.files.take(k as int) =~= old.files);
    let mut count: u32 = kept;
    let mut total: usize = 0;
    let mut i: usize = 0;
    while i < results.len()
        invariant
            i <= results@.len(),
            old == old_index@,
            old.files.len() <= u32::MAX,
            kept == kept_paths(old.files, dirty_paths(*report)).len(),
            count == kept + processed_paths(results@.take(i as int)).len(),
            total == total_hashes(processed_sets(results@.take(i as int))),
        decreases results@.len() - i,
    {
        proof {
            assert(results@.take(i + 1).drop_last() =~= results@.take(i as int));
            lemma_processed_prefix(results@, i + 1);
        }
        match &results[i] {
            Some((_, hashes)) => {
                let n: usize = hashes.len();
                proof {
                    let sets = processed_sets(results@.take(i + 1));
                    assert(sets.drop_last() =~= processed_sets(results@.take(i as int)));
                }
                if count == u32::MAX || n > usize::MAX - total {
                    return false;
                }
                count = count + 1;
                total = total + n;
            },
            None => {},
        }
        i += 1;
    }
    assert(results@.take(i as int) =~= results@);
    true
}

/// Updates an index: keeps what it holds of the files that did not change, drops
/// those that changed or were deleted, and adds the files that were processed again
/// after those that are kept.
pub fn incremental_reindex(
    report: &FreshnessReport,
    old_index: &MappedIndex,
    reprocessed: Vec<Option<(String, HashSet<u64>)>>,
    build_duration: u128,
) -> (index: InMemoryIndex)
    requires
        updatable(*report, old_index@, reprocessed@),
    ensures
        ({
            let old = old_index@;
            let dirty = dirty_paths(*report);
            let kept = kept_paths(old.files, dirty);
            &&& text::texts(index.files@) == kept + processed_paths(reprocessed@)
            &&& index.lists() == with_files(
                kept_lists(old.entries(), old.files, dirty),
                kept.len(),
                processed_sets(reprocessed@),
            )
        }),
        index.stats.file_count == index.files@.len(),
        index.stats.ngram_count == index.lists().len(),
        index.stats.total_ngrams == total_hashes(processed_sets(reprocessed@)),
        index.stats.build_duration == build_duration,
        index.stats.skipped_binary == 0,
        index.stats.skipped_large == 0,
        index.stats.skipped_errors == 0,
{
    let ghost old = old_index@;
    let ghost dirty_ghost = dirty_paths(*report);
    let dirty = dirty_set(report);

    // The files that are kept get the first IDs, in their order.
    let old_files = old_index.file_list();
    let mut files: Vec<String> = Vec::new();
    let mut mapping: Vec<Option<u32>> = Vec::new();
    let mut i: usize = 0;
    assert(text::texts(files@) =~= kept_paths(old.files.take(0), dirty@));
    while i < old_files.len()
        invariant
            i <= old_files@.len(),
            old.files == text::texts(old_files@),
            old.files.len() <= u32::MAX,
            mapping@.len() == i,
            forall|k: int|
                0 <= k < i ==> #[trigger] mapping@[k] == (if dirty@.contains(old.files[k]) {
                    None::<u32>
                } else {
                    Some(new_id(old.files, dirty@, k) as u32)
                }),
            text::texts(files@) == kept_paths(old.files.take(i as int), dirty@),
        decreases old_files@.len() - i,
    {
        let ghost before = text::texts(files@);
        proof {
            assert(old.files.take(i + 1).drop_last() =~= old.files.take(i as int));
            assert(old.files.take(i + 1).last() == old_files@[i as int]@);
            lemma_kept_len(old.files.take(i as int), dirty@);
            assert(text::texts(files@).len() == files@.len());
        }
        if dirty.contains(old_files[i].as_str()) {
            mapping.push(None);
        } else {
            mapping.push(Some(files.len() as u32));
            files.push(old_files[i].clone());
            assert(text::texts(files@) =~= before.push(old_files@[i as int]@));
        }
        i += 1;
    }
    assert(old.files.take(i as int) =~= old.files);
    let ghost kept = text::texts(files@);

    // Their posting lists, with the new IDs.
    let entries = old_index.all_postings();
    let ghost all_entries = old.entries();
    let mut postings: HashMap<u64, Vec<u32>> = HashMap::new();
    let mut e: usize = 0;
    assert(posting_lists(postings@) =~= kept_lists(all_entries.take(0), old.files, dirty@));
    while e < entries.len()
        invariant
            e <= entries@.len(),
            all_entries == storage::entry_views(entries@),
            mapping@.len() == old.files.len(),
            forall|k: int|
                0 <= k < old.files.len() ==> #[trigger] mapping@[k] == (if dirty@.contains(old.files[k]) {
                    None::<u32>
                } else {
                    Some(new_id(old.files, dirty@, k) as u32)
                }),
            posting_lists(postings@) == kept_lists(all_entries.take(e as int), old.files, dirty@),
        decreases entries@.len() - e,
    {
        let ghost before = posting_lists(postings@);
        proof {
            assert(all_entries.take(e + 1).drop_last() =~= all_entries.take(e as int));
            assert(all_entries.take(e + 1).last() == storage::entry_view(entries@[e as int]));
        }
        let (hash, ids) = &entries[e];
        let new_ids = remap_ids(ids, &mapping, Ghost(old.files), Ghost(dirty@));
        if new_ids.len() > 0 {
            let ghost list = new_ids@;
            postings.insert(*hash, new_ids);
            assert(posting_lists(postings@) =~= before.insert(*hash, list));
        }
        e += 1;
    }
    assert(all_entries.take(e as int) =~= all_entries);
    let ghost base = posting_lists(postings@);

    // The files that were processed again come after them.
    let mut total_ngrams: usize = 0;
    let ghost all = reprocessed@;
    let ghost mut n: int = 0;
    proof {
        assert(text::texts(files@) =~= kept + processed_paths(all.take(0)));
        lemma_kept_len(old.files, dirty@);
    }
    for result in it: reprocessed.into_iter()
        invariant
            it.seq() == all,
            n == it.index(),
            0 <= n <= all.len(),
            it.index() == it.seq().len() ==> n == all.len(),
            updatable(*report, old, all),
            kept == kept_paths(old.files, dirty_paths(*report)),
            text::texts(files@) == kept + processed_paths(all.take(n)),
            posting_lists(postings@) == with_files(base, kept.len(), processed_sets(all.take(n))),
            total_ngrams == total_hashes(processed_sets(all.take(n))),
    {
        let ghost files_before = text::texts(files@);
        let ghost now = all.take(n + 1);
        proof {
            assert(now.drop_last() =~= all.take(n));
            assert(now.last() == result);
            lemma_processed_len(all.take(n));
            lemma_processed_len(now);
            lemma_processed_prefix(all, n + 1);
        }
        match result {
            Some((rel_path, hashes)) => {
                proof {
                    assert(processed_sets(now).drop_last() =~= processed_sets(all.take(n)));
                    assert(text::texts(files@).len() == files@.len());
                }
                let file_id: u32 = files.len() as u32;
                files.push(rel_path);
                total_ngrams = total_ngrams + hashes.len();
                add_file(&mut postings, file_id, &hashes);
                proof {
                    assert(text::texts(files@) =~= files_before.push(rel_path@));
                    assert(text::texts(files@) =~= kept + processed_paths(now));
                }
            },
            None => {},
        }
        proof {
            n = n + 1;
        }
    }
    proof {
        assert(all.take(n) =~= all);
        lemma_lists_dom(postings@);
    }
    let stats = IndexStats {
        file_count: files.len(),
        ngram_count: postings.len(),
        total_ngrams,
        build_duration,
        skipped_binary: 0,
        skipped_large: 0,
        skipped_errors: 0,
    };
    InMemoryIndex { files, postings, stats }
}

// ---------------------------------------------------------------------------
// What is gathered
// ---------------------------------------------------------------------------

/// Gathering the results of a walk takes the path and the hashes of every file that was
/// indexed, in their order, and counts the results of each other kind.
pub proof fn law_results_are_gathered(results: Seq<FileResult>, wanted: spec_fn(FileResult) -> bool)
    ensures
        indexed_paths(results) == results.filter(|r: FileResult| r is Indexed).map_values(
            |r: FileResult| r->rel_path@,
        ),
        indexed_sets(results) == results.filter(|r: FileResult| r is Indexed).map_values(|r: FileResult| r->hashes@),
        count(results, wanted) == results.filter(wanted).len(),
    decreases results.len(),
{
    reveal(Seq::filter);
    if results.len() > 0 {
        law_results_are_gathered(results.drop_last(), wanted);
    }
    assert(indexed_paths(results) =~= results.filter(|r: FileResult| r is Indexed).map_values(
        |r: FileResult| r->rel_path@,
    ));
    assert(indexed_sets(results) =~= results.filter(|r: FileResult| r is Indexed).map_values(
        |r: FileResult| r->hashes@,
    ));
}

/// The files that were processed again are those that gave a result, in their order.
pub proof fn law_processed_are_gathered(results: Seq<Option<(String, HashSet<u64>)>>)
    ensures
        processed_paths(results) == results.filter(|r: Option<(String, HashSet<u64>)>| r is Some).map_values(
            |r: Option<(String, HashSet<u64>)>| r.unwrap().0@,
        ),
        processed_sets(results) == results.filter(|r: Option<(String, HashSet<u64>)>| r is Some).map_values(
            |r: Option<(String, HashSet<u64>)>| r.unwrap().1@,
        ),
    decreases results.len(),
{
    reveal(Seq::filter);
    if results.len() > 0 {
        law_processed_are_gathered(results.drop_last());
    }
    assert(processed_paths(results) =~= results.filter(|r: Option<(String, HashSet<u64>)>| r is Some).map_values(
        |r: Option<(String, HashSet<u64>)>| r.unwrap().0@,
    ));
    assert(processed_sets(results) =~= results.filter(|r: Option<(String, HashSet<u64>)>| r is Some).map_values(
        |r: Option<(String, HashSet<u64>)>| r.unwrap().1@,
    ));
}

/// The paths that are kept in an update are those that neither changed nor were deleted, in
/// their order.
pub proof fn law_kept_paths(report: FreshnessReport, files: Seq<Seq<char>>)
    ensures
        kept_paths(files, dirty_paths(report)) == files.filter(
            |path: Seq<char>|
                !text::texts(report.changed@).contains(path) && !text::texts(report.deleted@).contains(path),
        ),
    decreases files.len(),
{
    reveal(Seq::filter);
    if files.len() > 0 {
        law_kept_paths(report, files.drop_last());
    }
}

/// The hashes of files are counted in every file that holds them.
pub proof fn law_total_hashes(sets: Seq<Set<u64>>)
    ensures
        total_hashes(sets) == sets.fold_left(0int, |n: int, set: Set<u64>| n + set.len()),
    decreases sets.len(),
{
    reveal(Seq::fold_left);
    if sets.len() > 0 {
        law_total_hashes(sets.drop_last());
    }
}

/// Results can be numbered and counted exactly if there are at most 2^32 - 1 indexed files
/// among them, and the errors and the hashes can be counted in a machine word.
pub proof fn law_countable(results: Seq<FileResult>, walker_errors: usize)
    ensures
        countable(results, walker_errors) <==> results.filter(|r: FileResult| r is Indexed).len() <= 0xFFFF_FFFF
            && walker_errors + results.filter(|r: FileResult| r is Error).len() <= usize::MAX && results.filter(
            |r: FileResult| r is Indexed,
        ).map_values(|r: FileResult| r->hashes@).fold_left(0int, |n: int, set: Set<u64>| n + set.len()) <= usize::MAX,
{
    law_results_are_gathered(results, |r: FileResult| r is Error);
    law_total_hashes(indexed_sets(results));
}

/// An update can be numbered and counted exactly if the files of the index, and those that
/// are kept together with those that were processed again, are at most 2^32 - 1, and the
/// hashes of the latter can be counted in a machine word.
pub proof fn law_updatable(
    report: FreshnessReport,
    old: IndexView,
    results: Seq<Option<(String, HashSet<u64>)>>,
)
    ensures
        updatable(report, old, results) <==> old.files.len() <= 0xFFFF_FFFF && old.files.filter(
            |path: Seq<char>|
                !text::texts(report.changed@).contains(path) && !text::texts(report.deleted@).contains(path),
        ).len() + results.filter(|r: Option<(String, HashSet<u64>)>| r is Some).len() <= 0xFFFF_FFFF && results.filter(
            |r: Option<(String, HashSet<u64>)>| r is Some,
        ).map_values(|r: Option<(String, HashSet<u64>)>| r.unwrap().1@).fold_left(
            0int,
            |n: int, set: Set<u64>| n + set.len(),
        ) <= usize::MAX,
{
    law_kept_paths(report, old.files);
    law_processed_are_gathered(results);
    law_total_hashes(processed_sets(results));
}

/// Whether there is a result with a path and hashes.
pub open spec fn has_result(results: Seq<FileResult>, path: Seq<char>, hashes: Set<u64>) -> bool {
    exists|i: int|
        0 <= i < results.len() && (#[trigger] results[i]) is Indexed && results[i]->rel_path@ == path
            && results[i]->hashes@ == hashes
}

/// A build puts the files that were indexed in ascending order of their paths and keeps to each
/// its own hashes: every file ID stands for one result, with the path and the hashes of that
/// result, and every indexed path is there as often as among the results.
pub proof fn law_built_files_keep_their_hashes(results: Seq<FileResult>)
    ensures
        built_paths(results).len() == built_sets(results).len(),
        sorting::in_order(built_paths(results)),
        built_paths(results).to_multiset() == results.filter(|r: FileResult| r is Indexed).map_values(
            |r: FileResult| r->rel_path@,
        ).to_multiset(),
        forall|k: int|
            0 <= k < built_paths(results).len() ==> has_result(
                results,
                #[trigger] built_paths(results)[k],
                built_sets(results)[k],
            ),
{
    let wanted = |r: FileResult| r is Indexed;
    let paths = indexed_paths(results);
    let sets = indexed_sets(results);
    let some = results.filter(wanted);
    let order = sorting::text_order(paths);
    law_results_are_gathered(results, wanted);
    sorting::law_text_order_sorts(paths);
    assert forall|k: int| 0 <= k < built_paths(results).len() implies has_result(
        results,
        #[trigger] built_paths(results)[k],
        built_sets(results)[k],
    ) by {
        let j = order[k];
        assert(0 <= j < paths.len());
        assert(built_paths(results)[k] == paths[j]);
        assert(built_sets(results)[k] == sets[j]);
        results.lemma_filter_pred(wanted, j);
        lemma_filter_from(results, wanted, j);
        let i = choose|i: int| 0 <= i < results.len() && results[i] == some[j];
        assert(results[i]->rel_path@ == built_paths(results)[k]);
    }
}

proof fn lemma_filter_from(results: Seq<FileResult>, wanted: spec_fn(FileResult) -> bool, j: int)
    requires
        0 <= j < results.filter(wanted).len(),
    ensures
        exists|i: int| 0 <= i < results.len() && results[i] == results.filter(wanted)[j],
    decreases results.len(),
{
    reveal(Seq::filter);
    if results.len() > 0 {
        let before = results.drop_last();
        if j < before.filter(wanted).len() {
            lemma_filter_from(before, wanted, j);
            let i = choose|i: int| 0 <= i < before.len() && before[i] == before.filter(wanted)[j];
            assert(results[i] == results.filter(wanted)[j]);
        } else {
            assert(results[results.len() - 1] == results.filter(wanted)[j]);
        }
    }
}

/// The default limit on the size of files lets pass what has at most ten times 1024 times 1024
/// bytes.
pub proof fn law_default_limit(size: u64)
    ensures
        size <= DEFAULT_MAX_FILE_SIZE <==> size <= 10 * 1024 * 1024,
{
}

} // verus!
