//! Laws that span the building of an index, its layout in bytes, lookups and searches.

use crate::candidates;
use crate::completeness;
use crate::filter;
use crate::indexer;
use crate::matching;
use crate::ngram;
use crate::pattern::PatternView;
use crate::postings;
use crate::scan;
use crate::search;
use crate::sorting;
use crate::storage;
use crate::storage::{IndexView, StorageError};
use crate::text;
use vstd::prelude::*;

verus! {

// ---------------------------------------------------------------------------
// Build, write, open, look up
// ---------------------------------------------------------------------------

/// Posting lists of finitely many hashes per file have finitely many hashes.
proof fn lemma_lists_finite(sets: Seq<Set<u64>>)
    requires
        forall|i: int| 0 <= i < sets.len() ==> (#[trigger] sets[i]).finite(),
    ensures
        indexer::index_lists(sets).dom().finite(),
    decreases sets.len(),
{
    let lists = indexer::index_lists(sets);
    if sets.len() > 0 {
        let before = sets.drop_last();
        assert forall|i: int| 0 <= i < before.len() implies (#[trigger] before[i]).finite() by {
            assert(before[i] == sets[i]);
        }
        lemma_lists_finite(before);
        assert(sets[sets.len() - 1].finite());
        assert(lists.dom() =~= indexer::index_lists(before).dom().union(sets.last()));
    }
}

/// Whether an index of files with the given trigram hashes can be laid out and opened
/// again: file IDs, offsets and counts fit in their integers, and the paths can be
/// told apart as lines.
pub open spec fn storable(sets: Seq<Set<u64>>, files: Seq<Seq<char>>) -> bool {
    &&& sets.len() == files.len() <= u32::MAX
    &&& forall|i: int| 0 <= i < sets.len() ==> (#[trigger] sets[i]).finite()
    &&& indexer::index_lists(sets).len() <= usize::MAX
    &&& storage::writable(indexer::index_lists(sets))
    &&& text::separable(files)
}

/// The index that is opened after files with the given trigram hashes were indexed and
/// the index was laid out.
pub open spec fn reopened(sets: Seq<Set<u64>>, files: Seq<Seq<char>>) -> Result<IndexView, StorageError> {
    let lists = indexer::index_lists(sets);
    let bytes = storage::postings_bytes(storage::sorted_hashes(lists.dom()), lists);
    storage::opened(storage::lookup_bytes(lists, files.len()), bytes, text::joined(files))
}

/// An index that was built, laid out in bytes and opened again knows, for every
/// hash, exactly which files hold it.
pub proof fn law_opened_index_is_faithful(sets: Seq<Set<u64>>, files: Seq<Seq<char>>)
    requires
        storable(sets, files),
    ensures
        reopened(sets, files) is Ok,
        reopened(sets, files)->Ok_0.files == files,
        candidates::faithful(reopened(sets, files)->Ok_0, sets),
{
    let lists = indexer::index_lists(sets);
    let content = text::joined(files);
    let index = reopened(sets, files)->Ok_0;
    lemma_lists_finite(sets);
    storage::law_files_after_write(lists, files);
    assert forall|h: u64| #[trigger] candidates::knows(index, sets, h) by {
        indexer::law_index_lists_holders(sets, h);
        storage::law_lookup_after_write(lists, files.len(), content, h);
        let ids = indexer::list_of(lists, h);
        if lists.dom().contains(h) {
            storage::lemma_some_postings(lists, h);
            assert(index.ids_of(h) == Some(ids));
            assert(postings::strictly_ascending(ids));
        } else {
            assert(index.ids_of(h) is None);
        }
    }
}

/// The trigram hashes of the contents of files.
pub open spec fn hashes_of(contents: Seq<Seq<u8>>) -> Seq<Set<u64>> {
    contents.map_values(|bytes: Seq<u8>| ngram::content_hashes(bytes))
}

/// A search in an index that was built from files, laid out and opened again finds
/// exactly what looking at every file finds, in the same order.
///
/// `tree` is that of the pattern, of whose matches the tree tells how they look. Where
/// case is ignored, the classes of the pattern fold alike, and ignoring case comes down
/// to upper and lower case of ASCII letters.
pub proof fn law_search_after_build_misses_nothing(
    tree: PatternView,
    files: Seq<Seq<char>>,
    contents: Seq<Seq<u8>>,
    source: (Seq<char>, bool),
    file_pattern: Option<Seq<char>>,
    files_only: bool,
    before: nat,
    after: nat,
)
    requires
        storable(hashes_of(contents), files),
        forall|t: Seq<char>| #[trigger] matching::explained(tree, source.0, source.1, t),
        completeness::covers(source, tree, contents.map_values(|bytes: Seq<u8>| Some(bytes))),
    ensures
        ({
            let all = contents.map_values(|bytes: Seq<u8>| Some(bytes));
            let index = reopened(hashes_of(contents), files)->Ok_0;
            let cands = search::search_candidates_of(tree, index, file_pattern);
            search::candidate_matches(
                cands,
                completeness::picked(cands, all),
                source,
                files_only,
                before,
                after,
            ) == completeness::scan_matches(files, all, source, file_pattern, files_only, before, after, files.len())
        }),
{
    let all = contents.map_values(|bytes: Seq<u8>| Some(bytes));
    let sets = hashes_of(contents);
    law_opened_index_is_faithful(sets, files);
    assert(completeness::hashes_of_contents(sets, all));
    completeness::law_narrowing_misses_nothing(
        tree,
        reopened(sets, files)->Ok_0,
        sets,
        all,
        source,
        file_pattern,
        files_only,
        before,
        after,
    );
}

/// A search in an index that was built from files, laid out and opened again finds all
/// matches in a file whose path passes the file pattern, whatever the other files hold.
///
/// `tree` is that of the pattern, of whose matches the tree tells how they look. Where
/// case is ignored, the file is one in which the index takes two characters for the same
/// wherever the pattern does.
pub proof fn law_search_after_build_keeps_covered_file(
    tree: PatternView,
    files: Seq<Seq<char>>,
    contents: Seq<Seq<u8>>,
    source: (Seq<char>, bool),
    file_pattern: Option<Seq<char>>,
    files_only: bool,
    before: nat,
    after: nat,
    id: int,
)
    requires
        storable(hashes_of(contents), files),
        forall|t: Seq<char>| #[trigger] matching::explained(tree, source.0, source.1, t),
        0 <= id < files.len(),
        completeness::file_covered(source, tree, Some(contents[id])),
        filter::path_passes(file_pattern, files[id]),
    ensures
        ({
            let all = contents.map_values(|bytes: Seq<u8>| Some(bytes));
            let index = reopened(hashes_of(contents), files)->Ok_0;
            let cands = search::search_candidates_of(tree, index, file_pattern);
            completeness::holds_all(
                search::candidate_matches(
                    cands,
                    completeness::picked(cands, all),
                    source,
                    files_only,
                    before,
                    after,
                ),
                scan::file_matches(Some(contents[id]), files[id], source, files_only, before, after),
            )
        }),
{
    let all = contents.map_values(|bytes: Seq<u8>| Some(bytes));
    let sets = hashes_of(contents);
    law_opened_index_is_faithful(sets, files);
    assert(completeness::hashes_of_contents(sets, all));
    assert(all[id] == Some(contents[id]));
    completeness::law_covered_file_keeps_its_matches(
        tree,
        reopened(sets, files)->Ok_0,
        sets,
        all,
        source,
        file_pattern,
        files_only,
        before,
        after,
        id,
    );
}

// ---------------------------------------------------------------------------
// An update and a full build
// ---------------------------------------------------------------------------

/// The hashes of the files that are kept.
pub open spec fn kept_sets(
    files: Seq<Seq<char>>,
    dirty: Set<Seq<char>>,
    sets: Seq<Set<u64>>,
) -> Seq<Set<u64>>
    decreases files.len(),
{
    if files.len() == 0 || files.len() != sets.len() {
        Seq::empty()
    } else if dirty.contains(files.last()) {
        kept_sets(files.drop_last(), dirty, sets.drop_last())
    } else {
        kept_sets(files.drop_last(), dirty, sets.drop_last()).push(sets.last())
    }
}

/// Adding files to the posting lists of others is indexing all of them at once.
pub proof fn law_adding_files_is_indexing_all(first: Seq<Set<u64>>, more: Seq<Set<u64>>)
    ensures
        indexer::with_files(indexer::index_lists(first), first.len(), more) == indexer::index_lists(first + more),
    decreases more.len(),
{
    if more.len() == 0 {
        assert(first + more =~= first);
    } else {
        law_adding_files_is_indexing_all(first, more.drop_last());
        assert((first + more).drop_last() =~= first + more.drop_last());
        assert((first + more).last() == more.last());
    }
}

/// Whether some file that is kept has the new ID `m`.
spec fn has_source(files: Seq<Seq<char>>, dirty: Set<Seq<char>>, m: int) -> bool {
    exists|id: int|
        0 <= id < files.len() && !dirty.contains(#[trigger] files[id]) && indexer::new_id(files, dirty, id) == m
}

/// As many sets as paths are kept, and no more than there are files.
proof fn lemma_kept_count(files: Seq<Seq<char>>, dirty: Set<Seq<char>>, sets: Seq<Set<u64>>)
    requires
        files.len() == sets.len(),
    ensures
        kept_sets(files, dirty, sets).len() == indexer::kept_paths(files, dirty).len(),
        kept_sets(files, dirty, sets).len() <= files.len(),
    decreases files.len(),
{
    if files.len() > 0 {
        lemma_kept_count(files.drop_last(), dirty, sets.drop_last());
    }
}

/// A file that is kept goes to its new ID.
proof fn lemma_kept_at(files: Seq<Seq<char>>, dirty: Set<Seq<char>>, sets: Seq<Set<u64>>, id: int)
    requires
        files.len() == sets.len(),
        0 <= id < files.len(),
        !dirty.contains(files[id]),
    ensures
        indexer::new_id(files, dirty, id) < kept_sets(files, dirty, sets).len(),
        kept_sets(files, dirty, sets)[indexer::new_id(files, dirty, id) as int] == sets[id],
    decreases files.len(),
{
    let f = files.drop_last();
    let s = sets.drop_last();
    if id < f.len() {
        assert(f[id] == files[id]);
        assert(files.take(id) =~= f.take(id));
        lemma_kept_at(f, dirty, s, id);
    } else {
        assert(files.take(id) =~= f);
        lemma_kept_count(f, dirty, s);
    }
}

/// Files that are kept stay in their order.
proof fn lemma_new_id_less(files: Seq<Seq<char>>, dirty: Set<Seq<char>>, a: int, b: int)
    requires
        0 <= a < b <= files.len(),
        !dirty.contains(files[a]),
    ensures
        indexer::new_id(files, dirty, a) < indexer::new_id(files, dirty, b),
    decreases b,
{
    assert(files.take(b).drop_last() =~= files.take(b - 1));
    if a < b - 1 {
        lemma_new_id_less(files, dirty, a, b - 1);
    } else {
        assert(files.take(b).last() == files[a]);
    }
}

/// Every new ID below the number of files that are kept is that of one of them.
proof fn lemma_has_source(files: Seq<Seq<char>>, dirty: Set<Seq<char>>, m: int)
    requires
        0 <= m < indexer::kept_paths(files, dirty).len(),
    ensures
        has_source(files, dirty, m),
    decreases files.len(),
{
    if files.len() > 0 {
        let f = files.drop_last();
        let n = f.len() as int;
        if m < indexer::kept_paths(f, dirty).len() {
            lemma_has_source(f, dirty, m);
            let id = choose|id: int|
                0 <= id < f.len() && !dirty.contains(#[trigger] f[id]) && indexer::new_id(f, dirty, id) == m;
            assert(files[id] == f[id]);
            assert(files.take(id) =~= f.take(id));
            assert(indexer::new_id(files, dirty, id) == m);
        } else {
            assert(files.take(n) =~= f);
            assert(!dirty.contains(files[n]));
            assert(indexer::new_id(files, dirty, n) == m);
        }
    }
}

/// The new IDs of a posting list: they ascend, each once, and are those of the
/// kept files of the list.
proof fn lemma_remapped(ids: Seq<u32>, files: Seq<Seq<char>>, dirty: Set<Seq<char>>, sets: Seq<Set<u64>>)
    requires
        files.len() == sets.len() <= u32::MAX,
        forall|i: int, j: int| 0 <= i < j < ids.len() ==> ids[i] < ids[j],
    ensures
        forall|i: int, j: int|
            0 <= i < j < indexer::remapped(ids, files, dirty).len() ==> indexer::remapped(ids, files, dirty)[i]
                < indexer::remapped(ids, files, dirty)[j],
        forall|x: u32|
            #[trigger] indexer::remapped(ids, files, dirty).contains(x) <==> exists|id: u32| #[trigger]
                ids.contains(id) && indexer::is_kept(files, dirty, id) && indexer::new_id(files, dirty, id as int) == x,
    decreases ids.len(),
{
    let out = indexer::remapped(ids, files, dirty);
    if ids.len() == 0 {
        assert(out =~= Seq::<u32>::empty());
    } else {
        let before = ids.drop_last();
        let last = ids.last();
        let out_before = indexer::remapped(before, files, dirty);
        assert forall|i: int, j: int| 0 <= i < j < before.len() implies before[i] < before[j] by {
            assert(ids[i] < ids[j]);
        }
        lemma_remapped(before, files, dirty, sets);
        let new = indexer::new_id(files, dirty, last as int) as u32;
        if indexer::is_kept(files, dirty, last) {
            lemma_kept_at(files, dirty, sets, last as int);
            lemma_kept_count(files, dirty, sets);
        }
        assert forall|i: int, j: int| 0 <= i < j < out.len() implies out[i] < out[j] by {
            if j == out_before.len() {
                let x = out_before[i];
                assert(out_before.contains(x));
                let id = choose|id: u32| #[trigger]
                    before.contains(id) && indexer::is_kept(files, dirty, id) && indexer::new_id(
                        files,
                        dirty,
                        id as int,
                    ) == x;
                let k = choose|k: int| 0 <= k < before.len() && before[k] == id;
                assert(ids[k] < ids[ids.len() - 1]);
                lemma_new_id_less(files, dirty, id as int, last as int);
            }
        }
        assert forall|x: u32| #[trigger] out.contains(x) <==> exists|id: u32| #[trigger]
            ids.contains(id) && indexer::is_kept(files, dirty, id) && indexer::new_id(files, dirty, id as int)
                == x by {
            if out.contains(x) {
                let k = choose|k: int| 0 <= k < out.len() && out[k] == x;
                if k < out_before.len() {
                    assert(out_before[k] == x);
                    assert(out_before.contains(x));
                    let id = choose|id: u32| #[trigger]
                        before.contains(id) && indexer::is_kept(files, dirty, id) && indexer::new_id(
                            files,
                            dirty,
                            id as int,
                        ) == x;
                    let j = choose|j: int| 0 <= j < before.len() && before[j] == id;
                    assert(ids[j] == id);
                    assert(ids.contains(id));
                } else {
                    assert(ids[ids.len() - 1] == last);
                    assert(ids.contains(last));
                }
            }
            if exists|id: u32| #[trigger]
                ids.contains(id) && indexer::is_kept(files, dirty, id) && indexer::new_id(files, dirty, id as int)
                    == x {
                let id = choose|id: u32| #[trigger]
                    ids.contains(id) && indexer::is_kept(files, dirty, id) && indexer::new_id(
                        files,
                        dirty,
                        id as int,
                    ) == x;
                let k = choose|k: int| 0 <= k < ids.len() && ids[k] == id;
                if k < before.len() {
                    assert(before[k] == id);
                    assert(before.contains(id));
                    assert(out_before.contains(x));
                    let j = choose|j: int| 0 <= j < out_before.len() && out_before[j] == x;
                    assert(out[j] == x);
                } else {
                    assert(id == last);
                    assert(out[out_before.len() as int] == x);
                }
            }
        }
    }
}

/// What is left of an entry when only some files are kept.
proof fn lemma_kept_entry(
    entries: Seq<(u64, Seq<u32>)>,
    files: Seq<Seq<char>>,
    dirty: Set<Seq<char>>,
    h: u64,
)
    requires
        forall|i: int, j: int| 0 <= i < j < entries.len() ==> (#[trigger] entries[i]).0 != (#[trigger] entries[j]).0,
    ensures
        ({
            let lists = indexer::kept_lists(entries, files, dirty);
            &&& forall|k: int|
                0 <= k < entries.len() && (#[trigger] entries[k]).0 == h ==> indexer::list_of(lists, h)
                    == indexer::remapped(entries[k].1, files, dirty)
            &&& (forall|k: int| 0 <= k < entries.len() ==> (#[trigger] entries[k]).0 != h) ==> !lists.dom().contains(h)
            &&& lists.dom().contains(h) ==> lists[h].len() > 0
        }),
    decreases entries.len(),
{
    let lists = indexer::kept_lists(entries, files, dirty);
    if entries.len() > 0 {
        let before = entries.drop_last();
        assert forall|i: int, j: int| 0 <= i < j < before.len() implies (#[trigger] before[i]).0 != (
        #[trigger] before[j]).0 by {
            assert(entries[i].0 != entries[j].0);
        }
        lemma_kept_entry(before, files, dirty, h);
        let last = entries.last();
        let ids = indexer::remapped(last.1, files, dirty);
        assert(entries[entries.len() - 1] == last);
        if last.0 == h {
            assert forall|k: int| 0 <= k < before.len() implies (#[trigger] before[k]).0 != h by {
                assert(entries[k].0 != entries[entries.len() - 1].0);
            }
            if ids.len() == 0 {
                assert(ids =~= Seq::<u32>::empty());
            }
            assert forall|k: int| 0 <= k < entries.len() && (#[trigger] entries[k]).0 == h implies indexer::list_of(
                lists,
                h,
            ) == indexer::remapped(entries[k].1, files, dirty) by {
                if k < before.len() {
                    assert(before[k].0 == h);
                }
            }
        } else {
            assert forall|k: int| 0 <= k < entries.len() && (#[trigger] entries[k]).0 == h implies indexer::list_of(
                lists,
                h,
            ) == indexer::remapped(entries[k].1, files, dirty) by {
                assert(before[k].0 == h);
            }
            if forall|k: int| 0 <= k < entries.len() ==> (#[trigger] entries[k]).0 != h {
                assert forall|k: int| 0 <= k < before.len() implies (#[trigger] before[k]).0 != h by {
                    assert(entries[k].0 != h);
                }
            }
        }
    }
}

/// An incremental update gives the posting lists that a full build gives from the
/// files that are kept, followed by the files that were processed again.
///
/// `old` holds the entries of an index of `sets` in ascending order of their
/// hashes, as reading all postings of a written index gives them.
pub proof fn law_update_matches_rebuild(
    old: Seq<(u64, Seq<u32>)>,
    hashes: Seq<u64>,
    files: Seq<Seq<char>>,
    dirty: Set<Seq<char>>,
    sets: Seq<Set<u64>>,
    added: Seq<Set<u64>>,
)
    requires
        files.len() == sets.len() <= u32::MAX,
        storage::lists_set(hashes, indexer::index_lists(sets).dom()),
        old == hashes.map_values(|h: u64| (h, indexer::index_lists(sets)[h])),
    ensures
        indexer::with_files(
            indexer::kept_lists(old, files, dirty),
            indexer::kept_paths(files, dirty).len(),
            added,
        ) == indexer::index_lists(kept_sets(files, dirty, sets) + added),
{
    let lists = indexer::index_lists(sets);
    let kept = kept_sets(files, dirty, sets);
    let left = indexer::kept_lists(old, files, dirty);
    let want = indexer::index_lists(kept);
    lemma_kept_count(files, dirty, sets);
    assert forall|i: int, j: int| 0 <= i < j < old.len() implies (#[trigger] old[i]).0 != (#[trigger] old[j]).0 by {
        assert(hashes[i] < hashes[j]);
    }
    assert forall|h: u64| #![trigger left.dom().contains(h)] left.dom().contains(h) == want.dom().contains(h)
        && indexer::list_of(left, h) == indexer::list_of(want, h) by {
        lemma_kept_entry(old, files, dirty, h);
        indexer::law_index_lists_holders(sets, h);
        indexer::law_index_lists_holders(kept, h);
        let ids = indexer::list_of(lists, h);
        let now = indexer::remapped(ids, files, dirty);
        let full = indexer::list_of(want, h);
        lemma_remapped(ids, files, dirty, sets);
        if lists.dom().contains(h) {
            assert(hashes.contains(h));
            let k = choose|k: int| 0 <= k < hashes.len() && hashes[k] == h;
            assert(old[k].0 == h && old[k].1 == ids);
        } else {
            assert forall|k: int| 0 <= k < old.len() implies (#[trigger] old[k]).0 != h by {
                assert(hashes.contains(hashes[k]));
            }
            assert(ids =~= Seq::<u32>::empty());
            assert(now =~= Seq::<u32>::empty());
        }
        assert(indexer::list_of(left, h) == now);
        assert forall|x: u32| #[trigger] now.contains(x) <==> full.contains(x) by {
            if now.contains(x) {
                let id = choose|id: u32| #[trigger]
                    ids.contains(id) && indexer::is_kept(files, dirty, id) && indexer::new_id(files, dirty, id as int)
                        == x;
                lemma_kept_at(files, dirty, sets, id as int);
            }
            if full.contains(x) {
                lemma_has_source(files, dirty, x as int);
                let id = choose|id: int|
                    0 <= id < files.len() && !dirty.contains(#[trigger] files[id]) && indexer::new_id(
                        files,
                        dirty,
                        id,
                    ) == x;
                lemma_kept_at(files, dirty, sets, id);
                assert(ids.contains(id as u32));
                assert(indexer::is_kept(files, dirty, id as u32));
            }
        }
        sorting::lemma_ascending_unique(now, full, |x: u32, y: u32| x < y);
        if left.dom().contains(h) && !want.dom().contains(h) {
            assert(full.len() == 0);
        }
        if want.dom().contains(h) && !left.dom().contains(h) {
            assert(now.len() == 0);
        }
    }
    assert(left =~= want) by {
        assert(left.dom() =~= want.dom());
        assert forall|h: u64| left.dom().contains(h) implies left[h] == want[h] by {
            assert(indexer::list_of(left, h) == indexer::list_of(want, h));
        }
    }
    law_adding_files_is_indexing_all(kept, added);
}

/// Updating an index that was built, laid out and opened again gives the posting lists
/// that a full build gives from the files that are kept, followed by the files that
/// were processed again.
pub proof fn law_update_of_opened_index_matches_rebuild(
    sets: Seq<Set<u64>>,
    files: Seq<Seq<char>>,
    dirty: Set<Seq<char>>,
    added: Seq<Set<u64>>,
)
    requires
        storable(sets, files),
    ensures
        ({
            let index = reopened(sets, files)->Ok_0;
            indexer::with_files(
                indexer::kept_lists(index.entries(), index.files, dirty),
                indexer::kept_paths(index.files, dirty).len(),
                added,
            ) == indexer::index_lists(kept_sets(files, dirty, sets) + added)
        }),
{
    let lists = indexer::index_lists(sets);
    let index = reopened(sets, files)->Ok_0;
    let hashes = storage::sorted_hashes(lists.dom());
    lemma_lists_finite(sets);
    law_opened_index_is_faithful(sets, files);
    storage::law_all_postings_after_write(lists, files.len(), text::joined(files));
    law_update_matches_rebuild(index.entries(), hashes, files, dirty, sets, added);
}

} // verus!
