//! Laws on trees of files: what an index of a tree holds does not depend on the order
//! of the walk, nor on whether the index was built or updated.

use crate::filemeta::StateView;
use crate::freshness;
use crate::freshness::{CurrentView, FreshnessReport, Verdict};
use crate::indexer;
use crate::indexer::FileResult;
use crate::laws;
use crate::ngram;
use crate::postings;
use crate::sorting;
use crate::text;
use std::collections::HashSet;
use vstd::prelude::*;

verus! {

/// A file in a tree: its path, its contents and its modification time.
pub struct TreeFile {
    pub path: Seq<char>,
    pub contents: Seq<u8>,
    pub mtime: u64,
}

/// Whether a file is indexed: it is no larger than the limit, and not binary.
pub open spec fn indexable(f: TreeFile, max_file_size: u64) -> bool {
    f.contents.len() <= max_file_size && !indexer::binary(f.contents)
}

/// Whether no path occurs twice in a tree, and sizes fit in their integers.
pub open spec fn well_formed(tree: Seq<TreeFile>) -> bool {
    &&& forall|a: int, b: int| 0 <= a < b < tree.len() ==> (#[trigger] tree[a]).path != (#[trigger] tree[b]).path
    &&& forall|a: int| 0 <= a < tree.len() ==> (#[trigger] tree[a]).contents.len() <= u64::MAX
}

/// Whether a result is that of processing a file for a build.
pub open spec fn processes(result: FileResult, f: TreeFile, max_file_size: u64) -> bool {
    if f.contents.len() > max_file_size {
        result is SkippedLarge
    } else if indexer::binary(f.contents) {
        result is SkippedBinary
    } else {
        &&& result is Indexed
        &&& result->rel_path@ == f.path
        &&& result->hashes@ == ngram::content_hashes(f.contents)
    }
}

/// Whether results are those of processing the files of a tree for a build, in the
/// order of the walk.
pub open spec fn scanned(results: Seq<FileResult>, tree: Seq<TreeFile>, max_file_size: u64) -> bool {
    &&& results.len() == tree.len()
    &&& forall|i: int| 0 <= i < tree.len() ==> processes(#[trigger] results[i], tree[i], max_file_size)
}

// ---------------------------------------------------------------------------
// What an index of a tree holds
// ---------------------------------------------------------------------------

/// Whether a tree has a file with a path and hashes that is indexed.
pub open spec fn has_file(tree: Seq<TreeFile>, max_file_size: u64, path: Seq<char>, hashes: Set<u64>) -> bool {
    exists|i: int|
        0 <= i < tree.len() && #[trigger] indexable(tree[i], max_file_size) && tree[i].path == path
            && ngram::content_hashes(tree[i].contents) == hashes
}

/// Whether paths with their hashes are those of the files of a tree that are indexed,
/// each once, in whatever order.
pub open spec fn indexes(
    paths: Seq<Seq<char>>,
    sets: Seq<Set<u64>>,
    tree: Seq<TreeFile>,
    max_file_size: u64,
) -> bool {
    &&& paths.len() == sets.len()
    &&& paths.no_duplicates()
    &&& forall|k: int| 0 <= k < paths.len() ==> has_file(tree, max_file_size, #[trigger] paths[k], sets[k])
    &&& forall|i: int|
        0 <= i < tree.len() && #[trigger] indexable(tree[i], max_file_size) ==> paths.contains(tree[i].path)
}

proof fn lemma_scanned(results: Seq<FileResult>, tree: Seq<TreeFile>, max_file_size: u64)
    requires
        well_formed(tree),
        scanned(results, tree, max_file_size),
    ensures
        indexes(indexer::indexed_paths(results), indexer::indexed_sets(results), tree, max_file_size),
    decreases tree.len(),
{
    let paths = indexer::indexed_paths(results);
    let sets = indexer::indexed_sets(results);
    if tree.len() > 0 {
        let t = tree.drop_last();
        let r = results.drop_last();
        let n = tree.len() - 1;
        assert(well_formed(t)) by {
            assert forall|a: int, b: int| 0 <= a < b < t.len() implies (#[trigger] t[a]).path != (#[trigger] t[b]).path by {
                assert(tree[a].path != tree[b].path);
            }
            assert forall|a: int| 0 <= a < t.len() implies (#[trigger] t[a]).contents.len() <= u64::MAX by {
                assert(tree[a].contents.len() <= u64::MAX);
            }
        }
        assert forall|i: int| 0 <= i < t.len() implies processes(#[trigger] r[i], t[i], max_file_size) by {
            assert(processes(results[i], tree[i], max_file_size));
        }
        lemma_scanned(r, t, max_file_size);
        let paths_before = indexer::indexed_paths(r);
        let sets_before = indexer::indexed_sets(r);
        assert(processes(results[n], tree[n], max_file_size));
        assert forall|k: int| 0 <= k < paths.len() implies has_file(tree, max_file_size, #[trigger] paths[k], sets[k]) by {
            if k < paths_before.len() {
                assert(has_file(t, max_file_size, paths_before[k], sets_before[k]));
                let i = choose|i: int|
                    0 <= i < t.len() && #[trigger] indexable(t[i], max_file_size) && t[i].path == paths_before[k]
                        && ngram::content_hashes(t[i].contents) == sets_before[k];
                assert(indexable(tree[i], max_file_size));
            } else {
                assert(indexable(tree[n], max_file_size));
            }
        }
        assert forall|i: int| 0 <= i < tree.len() && #[trigger] indexable(tree[i], max_file_size) implies paths.contains(
            tree[i].path,
        ) by {
            if i < n {
                assert(indexable(t[i], max_file_size));
                let k = choose|k: int| 0 <= k < paths_before.len() && paths_before[k] == t[i].path;
                assert(paths[k] == tree[i].path);
            } else {
                assert(paths[paths_before.len() as int] == tree[i].path);
            }
        }
        assert forall|a: int, b: int| 0 <= a < paths.len() && 0 <= b < paths.len() && a != b implies paths[a] != paths[b] by {
            let low = if a < b {
                a
            } else {
                b
            };
            let high = if a < b {
                b
            } else {
                a
            };
            if high == paths_before.len() {
                assert(has_file(t, max_file_size, paths_before[low], sets_before[low]));
                let i = choose|i: int|
                    0 <= i < t.len() && #[trigger] indexable(t[i], max_file_size) && t[i].path == paths_before[low]
                        && ngram::content_hashes(t[i].contents) == sets_before[low];
                assert(tree[i].path != tree[n].path);
            }
        }
    }
}

/// Another order of the files does not change what an index holds.
proof fn lemma_arranged_indexes(
    paths: Seq<Seq<char>>,
    sets: Seq<Set<u64>>,
    order: Seq<int>,
    tree: Seq<TreeFile>,
    max_file_size: u64,
)
    requires
        indexes(paths, sets, tree, max_file_size),
        sorting::lists_positions(order, paths.len()),
    ensures
        indexes(sorting::arranged(paths, order), sorting::arranged(sets, order), tree, max_file_size),
{
    let p = sorting::arranged(paths, order);
    let s = sorting::arranged(sets, order);
    assert forall|k: int| 0 <= k < p.len() implies has_file(tree, max_file_size, #[trigger] p[k], s[k]) by {
        assert(has_file(tree, max_file_size, paths[order[k]], sets[order[k]]));
    }
    assert forall|i: int| 0 <= i < tree.len() && #[trigger] indexable(tree[i], max_file_size) implies p.contains(
        tree[i].path,
    ) by {
        let k = choose|k: int| 0 <= k < paths.len() && paths[k] == tree[i].path;
        assert(order.contains(k));
        let m = choose|m: int| 0 <= m < order.len() && order[m] == k;
        assert(p[m] == tree[i].path);
    }
    assert forall|a: int, b: int| 0 <= a < p.len() && 0 <= b < p.len() && a != b implies p[a] != p[b] by {
        assert(order[a] != order[b]);
    }
}

/// What a build gives holds the files of the tree, in ascending order of their paths.
pub proof fn lemma_built(results: Seq<FileResult>, tree: Seq<TreeFile>, max_file_size: u64)
    requires
        well_formed(tree),
        scanned(results, tree, max_file_size),
    ensures
        indexes(indexer::built_paths(results), indexer::built_sets(results), tree, max_file_size),
        sorting::in_order(indexer::built_paths(results)),
{
    let paths = indexer::indexed_paths(results);
    lemma_scanned(results, tree, max_file_size);
    sorting::law_text_order_sorts(paths);
    lemma_arranged_indexes(paths, indexer::indexed_sets(results), sorting::text_order(paths), tree, max_file_size);
}

/// Whether two trees hold the same files, in whatever order.
pub open spec fn same_files(a: Seq<TreeFile>, b: Seq<TreeFile>) -> bool {
    forall|f: TreeFile| #[trigger] a.contains(f) <==> b.contains(f)
}

/// An index of a tree is one of any tree with the same files.
pub proof fn lemma_same_files(
    paths: Seq<Seq<char>>,
    sets: Seq<Set<u64>>,
    a: Seq<TreeFile>,
    b: Seq<TreeFile>,
    max_file_size: u64,
)
    requires
        indexes(paths, sets, a, max_file_size),
        same_files(a, b),
    ensures
        indexes(paths, sets, b, max_file_size),
{
    assert forall|k: int| 0 <= k < paths.len() implies has_file(b, max_file_size, #[trigger] paths[k], sets[k]) by {
        assert(has_file(a, max_file_size, paths[k], sets[k]));
        let i = choose|i: int|
            0 <= i < a.len() && #[trigger] indexable(a[i], max_file_size) && a[i].path == paths[k]
                && ngram::content_hashes(a[i].contents) == sets[k];
        assert(a.contains(a[i]));
        let j = choose|j: int| 0 <= j < b.len() && b[j] == a[i];
        assert(indexable(b[j], max_file_size));
    }
    assert forall|j: int| 0 <= j < b.len() && #[trigger] indexable(b[j], max_file_size) implies paths.contains(
        b[j].path,
    ) by {
        assert(b.contains(b[j]));
        assert(a.contains(b[j]));
        let i = choose|i: int| 0 <= i < a.len() && a[i] == b[j];
        assert(indexable(a[i], max_file_size));
    }
}

/// Two indexes of one tree hold the same paths, with the same hashes.
proof fn lemma_indexes_agree(
    pa: Seq<Seq<char>>,
    sa: Seq<Set<u64>>,
    pb: Seq<Seq<char>>,
    sb: Seq<Set<u64>>,
    tree: Seq<TreeFile>,
    max_file_size: u64,
)
    requires
        well_formed(tree),
        indexes(pa, sa, tree, max_file_size),
        indexes(pb, sb, tree, max_file_size),
    ensures
        forall|path: Seq<char>| #[trigger] pa.contains(path) <==> pb.contains(path),
        forall|i: int, j: int|
            0 <= i < pa.len() && 0 <= j < pb.len() && #[trigger] pa[i] == #[trigger] pb[j] ==> sa[i] == sb[j],
{
    assert forall|path: Seq<char>| #[trigger] pa.contains(path) <==> pb.contains(path) by {
        if pa.contains(path) {
            let k = choose|k: int| 0 <= k < pa.len() && pa[k] == path;
            assert(has_file(tree, max_file_size, pa[k], sa[k]));
        }
        if pb.contains(path) {
            let k = choose|k: int| 0 <= k < pb.len() && pb[k] == path;
            assert(has_file(tree, max_file_size, pb[k], sb[k]));
        }
    }
    assert forall|i: int, j: int|
        0 <= i < pa.len() && 0 <= j < pb.len() && #[trigger] pa[i] == #[trigger] pb[j] implies sa[i] == sb[j] by {
        assert(has_file(tree, max_file_size, pa[i], sa[i]));
        assert(has_file(tree, max_file_size, pb[j], sb[j]));
        let x = choose|x: int|
            0 <= x < tree.len() && #[trigger] indexable(tree[x], max_file_size) && tree[x].path == pa[i]
                && ngram::content_hashes(tree[x].contents) == sa[i];
        let y = choose|y: int|
            0 <= y < tree.len() && #[trigger] indexable(tree[y], max_file_size) && tree[y].path == pb[j]
                && ngram::content_hashes(tree[y].contents) == sb[j];
        if x < y {
            assert(tree[x].path != tree[y].path);
        } else if y < x {
            assert(tree[y].path != tree[x].path);
        }
    }
}

// ---------------------------------------------------------------------------
// The order of the walk
// ---------------------------------------------------------------------------

/// Two builds of the same files give the same file IDs and the same posting lists,
/// whatever the order in which the files were walked, and so the same index when it is
/// written and opened.
pub proof fn law_builds_agree(
    a: Seq<FileResult>,
    b: Seq<FileResult>,
    walked_a: Seq<TreeFile>,
    walked_b: Seq<TreeFile>,
    max_file_size: u64,
)
    requires
        well_formed(walked_a),
        well_formed(walked_b),
        same_files(walked_a, walked_b),
        scanned(a, walked_a, max_file_size),
        scanned(b, walked_b, max_file_size),
    ensures
        indexer::built_paths(a) == indexer::built_paths(b),
        indexer::built_sets(a) == indexer::built_sets(b),
        laws::reopened(indexer::built_sets(a), indexer::built_paths(a)) == laws::reopened(
            indexer::built_sets(b),
            indexer::built_paths(b),
        ),
{
    let (pa, sa) = (indexer::built_paths(a), indexer::built_sets(a));
    let (pb, sb) = (indexer::built_paths(b), indexer::built_sets(b));
    lemma_built(a, walked_a, max_file_size);
    lemma_built(b, walked_b, max_file_size);
    lemma_same_files(pb, sb, walked_b, walked_a, max_file_size);
    lemma_indexes_agree(pa, sa, pb, sb, walked_a, max_file_size);
    let before = |x: Seq<char>, y: Seq<char>| sorting::text_before(x, y);
    assert forall|x: Seq<char>, y: Seq<char>| !(#[trigger] before(x, y) && before(y, x)) by {
        sorting::law_texts_are_ordered(x, y);
    }
    assert forall|i: int, j: int| 0 <= i < j < pa.len() implies before(#[trigger] pa[i], #[trigger] pa[j]) by {
        sorting::law_texts_are_ordered(pa[i], pa[j]);
    }
    assert forall|i: int, j: int| 0 <= i < j < pb.len() implies before(#[trigger] pb[i], #[trigger] pb[j]) by {
        sorting::law_texts_are_ordered(pb[i], pb[j]);
    }
    sorting::lemma_ascending_unique(pa, pb, before);
    assert(sa =~= sb) by {
        assert forall|i: int| 0 <= i < sa.len() implies sa[i] == sb[i] by {
            assert(pa[i] == pb[i]);
        }
    }
}

// ---------------------------------------------------------------------------
// An update and a full build
// ---------------------------------------------------------------------------

/// Whether a posting list names a path.
pub open spec fn names(paths: Seq<Seq<char>>, ids: Seq<u32>, path: Seq<char>) -> bool {
    exists|id: u32| #[trigger] ids.contains(id) && id < paths.len() && paths[id as int] == path
}

/// Two indexes of one tree have the same paths and the same hashes, and every hash names
/// the same paths in both, in lists that ascend strictly.
pub proof fn law_indexes_name_the_same(
    pa: Seq<Seq<char>>,
    sa: Seq<Set<u64>>,
    pb: Seq<Seq<char>>,
    sb: Seq<Set<u64>>,
    tree: Seq<TreeFile>,
    max_file_size: u64,
)
    requires
        well_formed(tree),
        indexes(pa, sa, tree, max_file_size),
        indexes(pb, sb, tree, max_file_size),
        pa.len() <= u32::MAX,
        pb.len() <= u32::MAX,
    ensures
        pa.to_multiset() == pb.to_multiset(),
        indexer::index_lists(sa).dom() == indexer::index_lists(sb).dom(),
        forall|h: u64, path: Seq<char>|
            #![trigger names(pa, indexer::list_of(indexer::index_lists(sa), h), path)]
            names(pa, indexer::list_of(indexer::index_lists(sa), h), path) <==> names(
                pb,
                indexer::list_of(indexer::index_lists(sb), h),
                path,
            ),
        forall|h: u64|
            #[trigger] indexer::index_lists(sa).dom().contains(h) ==> postings::strictly_ascending(
                indexer::index_lists(sa)[h],
            ),
{
    broadcast use vstd::seq_lib::group_to_multiset_ensures;
    broadcast use vstd::multiset::group_multiset_axioms;

    let la = indexer::index_lists(sa);
    let lb = indexer::index_lists(sb);
    lemma_indexes_agree(pa, sa, pb, sb, tree, max_file_size);
    pa.lemma_multiset_has_no_duplicates();
    pb.lemma_multiset_has_no_duplicates();
    assert forall|path: Seq<char>| pa.to_multiset().count(path) == pb.to_multiset().count(path) by {
        assert(pa.contains(path) <==> pb.contains(path));
    }
    assert(pa.to_multiset() =~= pb.to_multiset());
    assert forall|h: u64, path: Seq<char>|
        #![trigger names(pa, indexer::list_of(la, h), path)]
        names(pa, indexer::list_of(la, h), path) <==> names(pb, indexer::list_of(lb, h), path) by {
        lemma_names(pa, sa, h, path);
        lemma_names(pb, sb, h, path);
        if holds(pa, sa, h, path) {
            let i = choose|i: int| 0 <= i < pa.len() && #[trigger] pa[i] == path && sa[i].contains(h);
            assert(pa.contains(path));
            let j = choose|j: int| 0 <= j < pb.len() && pb[j] == path;
            assert(pa[i] == pb[j]);
            assert(holds(pb, sb, h, path));
        }
        if holds(pb, sb, h, path) {
            let j = choose|j: int| 0 <= j < pb.len() && #[trigger] pb[j] == path && sb[j].contains(h);
            assert(pb.contains(path));
            assert(pa.contains(path));
            let i = choose|i: int| 0 <= i < pa.len() && pa[i] == path;
            assert(pa[i] == pb[j]);
            assert(holds(pa, sa, h, path));
        }
    }
    assert forall|h: u64| la.dom().contains(h) <==> lb.dom().contains(h) by {
        indexer::law_index_lists_holders(sa, h);
        indexer::law_index_lists_holders(sb, h);
        if la.dom().contains(h) {
            let i = choose|i: int| 0 <= i < sa.len() && (#[trigger] sa[i]).contains(h);
            assert(pa.contains(pa[i]));
            let j = choose|j: int| 0 <= j < pb.len() && pb[j] == pa[i];
            assert(pa[i] == pb[j]);
            assert(sb[j].contains(h));
        }
        if lb.dom().contains(h) {
            let j = choose|j: int| 0 <= j < sb.len() && (#[trigger] sb[j]).contains(h);
            assert(pb.contains(pb[j]));
            assert(pa.contains(pb[j]));
            let i = choose|i: int| 0 <= i < pa.len() && pa[i] == pb[j];
            assert(pa[i] == pb[j]);
            assert(sa[i].contains(h));
        }
    }
    assert(la.dom() =~= lb.dom());
    assert forall|h: u64| #[trigger] la.dom().contains(h) implies postings::strictly_ascending(la[h]) by {
        indexer::law_index_lists_holders(sa, h);
    }
}

/// Whether a file with a path holds a hash.
spec fn holds(paths: Seq<Seq<char>>, sets: Seq<Set<u64>>, h: u64, path: Seq<char>) -> bool {
    exists|i: int| 0 <= i < paths.len() && #[trigger] paths[i] == path && sets[i].contains(h)
}

/// The list of a hash names the paths of the files that hold it.
proof fn lemma_names(paths: Seq<Seq<char>>, sets: Seq<Set<u64>>, h: u64, path: Seq<char>)
    requires
        paths.len() == sets.len() <= u32::MAX,
    ensures
        names(paths, indexer::list_of(indexer::index_lists(sets), h), path) <==> holds(paths, sets, h, path),
{
    let ids = indexer::list_of(indexer::index_lists(sets), h);
    indexer::law_index_lists_holders(sets, h);
    if names(paths, ids, path) {
        let id = choose|id: u32| #[trigger] ids.contains(id) && id < paths.len() && paths[id as int] == path;
        assert(paths[id as int] == path && sets[id as int].contains(h));
    }
    if holds(paths, sets, h, path) {
        let i = choose|i: int| 0 <= i < paths.len() && #[trigger] paths[i] == path && sets[i].contains(h);
        assert(ids.contains(i as u32));
    }
}

/// The files of a tree as a walk finds them.
pub open spec fn found_on_disk(tree: Seq<TreeFile>) -> Seq<CurrentView> {
    tree.map_values(
        |f: TreeFile| CurrentView { path: f.path, stat: Some((f.mtime, f.contents.len() as u64)) },
    )
}

/// Whether every edit of a file shows in its modification time or in its size.
pub open spec fn edits_show(old: Seq<TreeFile>, new: Seq<TreeFile>) -> bool {
    forall|i: int, j: int|
        0 <= i < old.len() && 0 <= j < new.len() && (#[trigger] old[i]).path == (#[trigger] new[j]).path && old[i].mtime
            == new[j].mtime && old[i].contents.len() == new[j].contents.len() ==> old[i].contents == new[j].contents
}

/// Whether a result is that of processing a file again.
pub open spec fn processes_again(result: Option<(String, HashSet<u64>)>, f: TreeFile, max_file_size: u64) -> bool {
    match result {
        Some((path, hashes)) => {
            &&& indexable(f, max_file_size)
            &&& path@ == f.path
            &&& hashes@ == ngram::content_hashes(f.contents)
        },
        None => !indexable(f, max_file_size),
    }
}

/// Whether results are those of processing the files at paths of a tree again.
pub open spec fn scanned_again(
    results: Seq<Option<(String, HashSet<u64>)>>,
    paths: Seq<Seq<char>>,
    tree: Seq<TreeFile>,
    max_file_size: u64,
) -> bool {
    &&& results.len() == paths.len()
    &&& forall|k: int, i: int|
        0 <= k < paths.len() && 0 <= i < tree.len() && (#[trigger] tree[i]).path == #[trigger] paths[k]
            ==> processes_again(results[k], tree[i], max_file_size)
}

/// What is kept of paths: those that are not dirty.
proof fn lemma_kept(files: Seq<Seq<char>>, dirty: Set<Seq<char>>, sets: Seq<Set<u64>>)
    requires
        files.len() == sets.len(),
        files.no_duplicates(),
    ensures
        ({
            let kept = indexer::kept_paths(files, dirty);
            let kept_sets = laws::kept_sets(files, dirty, sets);
            &&& kept.len() == kept_sets.len()
            &&& kept.no_duplicates()
            &&& forall|k: int| 0 <= k < kept.len() ==> #[trigger] has_origin(kept[k], kept_sets[k], files, dirty, sets)
            &&& forall|i: int|
                0 <= i < files.len() && !dirty.contains(#[trigger] files[i]) ==> kept.contains(files[i])
        }),
    decreases files.len(),
{
    let kept = indexer::kept_paths(files, dirty);
    let kept_sets = laws::kept_sets(files, dirty, sets);
    if files.len() > 0 {
        let f = files.drop_last();
        let s = sets.drop_last();
        let n = files.len() - 1;
        lemma_kept(f, dirty, s);
        let kept_before = indexer::kept_paths(f, dirty);
        let sets_before = laws::kept_sets(f, dirty, s);
        assert forall|k: int| 0 <= k < kept.len() implies #[trigger] has_origin(kept[k], kept_sets[k], files, dirty, sets) by {
            if k < kept_before.len() {
                assert(has_origin(kept_before[k], sets_before[k], f, dirty, s));
                let i = choose|i: int|
                    0 <= i < f.len() && #[trigger] f[i] == kept_before[k] && s[i] == sets_before[k] && !dirty.contains(f[i]);
                assert(files[i] == kept[k] && sets[i] == kept_sets[k]);
            } else {
                assert(files[n] == kept[k] && sets[n] == kept_sets[k]);
            }
        }
        assert forall|i: int| 0 <= i < files.len() && !dirty.contains(#[trigger] files[i]) implies kept.contains(
            files[i],
        ) by {
            if i < n {
                assert(f[i] == files[i]);
                let k = choose|k: int| 0 <= k < kept_before.len() && kept_before[k] == f[i];
                assert(kept[k] == files[i]);
            } else {
                assert(kept[kept_before.len() as int] == files[i]);
            }
        }
        assert forall|a: int, b: int| 0 <= a < kept.len() && 0 <= b < kept.len() && a != b implies kept[a] != kept[b] by {
            let low = if a < b {
                a
            } else {
                b
            };
            let high = if a < b {
                b
            } else {
                a
            };
            if high == kept_before.len() {
                assert(has_origin(kept_before[low], sets_before[low], f, dirty, s));
                let i = choose|i: int|
                    0 <= i < f.len() && #[trigger] f[i] == kept_before[low] && s[i] == sets_before[low]
                        && !dirty.contains(f[i]);
                assert(files[i] != files[n]);
            }
        }
    }
}

/// Whether a path with hashes is that of a file which is kept.
spec fn has_origin(
    path: Seq<char>,
    hashes: Set<u64>,
    files: Seq<Seq<char>>,
    dirty: Set<Seq<char>>,
    sets: Seq<Set<u64>>,
) -> bool {
    exists|i: int| 0 <= i < files.len() && #[trigger] files[i] == path && sets[i] == hashes && !dirty.contains(files[i])
}

/// The hashes in the result of processing a file again.
spec fn hashes_in(result: Option<(String, HashSet<u64>)>) -> Set<u64> {
    match result {
        Some((_, hashes)) => hashes@,
        None => Set::empty(),
    }
}

/// Whether a path with hashes is that of a file which was processed again.
spec fn has_result(
    path: Seq<char>,
    hashes: Set<u64>,
    results: Seq<Option<(String, HashSet<u64>)>>,
    paths: Seq<Seq<char>>,
) -> bool {
    exists|i: int|
        0 <= i < paths.len() && #[trigger] paths[i] == path && results[i] is Some && hashes_in(results[i]) == hashes
}

/// What files that were processed again give.
proof fn lemma_processed(results: Seq<Option<(String, HashSet<u64>)>>, paths: Seq<Seq<char>>)
    requires
        results.len() == paths.len(),
        paths.no_duplicates(),
        forall|i: int| 0 <= i < paths.len() ==> ((#[trigger] results[i]) matches Some((path, _)) ==> path@ == paths[i]),
    ensures
        ({
            let again = indexer::processed_paths(results);
            let sets = indexer::processed_sets(results);
            &&& again.len() == sets.len()
            &&& again.no_duplicates()
            &&& forall|k: int| 0 <= k < again.len() ==> #[trigger] has_result(again[k], sets[k], results, paths)
            &&& forall|i: int| 0 <= i < paths.len() && #[trigger] results[i] is Some ==> again.contains(paths[i])
        }),
    decreases results.len(),
{
    let again = indexer::processed_paths(results);
    let sets = indexer::processed_sets(results);
    if results.len() > 0 {
        let r = results.drop_last();
        let p = paths.drop_last();
        let n = results.len() - 1;
        assert forall|i: int| 0 <= i < p.len() implies ((#[trigger] r[i]) matches Some((path, _)) ==> path@ == p[i]) by {
            assert(r[i] == results[i]);
        }
        lemma_processed(r, p);
        assert(results[n] == results.last());
        let again_before = indexer::processed_paths(r);
        let sets_before = indexer::processed_sets(r);
        assert forall|k: int| 0 <= k < again.len() implies #[trigger] has_result(again[k], sets[k], results, paths) by {
            if k < again_before.len() {
                assert(has_result(again_before[k], sets_before[k], r, p));
                let i = choose|i: int|
                    0 <= i < p.len() && #[trigger] p[i] == again_before[k] && r[i] is Some && hashes_in(r[i]) == sets_before[k];
                assert(paths[i] == again[k] && results[i] == r[i]);
            } else {
                assert(paths[n] == again[k]);
            }
        }
        assert forall|i: int| 0 <= i < paths.len() && #[trigger] results[i] is Some implies again.contains(paths[i]) by {
            if i < n {
                assert(r[i] is Some);
                let k = choose|k: int| 0 <= k < again_before.len() && again_before[k] == p[i];
                assert(again[k] == paths[i]);
            } else {
                assert(again[again_before.len() as int] == paths[i]);
            }
        }
        assert forall|a: int, b: int| 0 <= a < again.len() && 0 <= b < again.len() && a != b implies again[a]
            != again[b] by {
            let low = if a < b {
                a
            } else {
                b
            };
            let high = if a < b {
                b
            } else {
                a
            };
            if high == again_before.len() {
                assert(has_result(again_before[low], sets_before[low], r, p));
                let i = choose|i: int|
                    0 <= i < p.len() && #[trigger] p[i] == again_before[low] && r[i] is Some && hashes_in(r[i]) == sets_before[low];
                assert(paths[i] != paths[n]);
            }
        }
    }
}

/// The states that are collected when a tree is indexed.
pub open spec fn recorded_states(tree: Seq<TreeFile>, paths: Seq<Seq<char>>, indexed: bool) -> Seq<StateView> {
    freshness::collected(found_on_disk(tree), paths, indexed)
}

/// A file of a tree is found on disk as it is.
proof fn lemma_found(tree: Seq<TreeFile>, i: int)
    requires
        well_formed(tree),
        0 <= i < tree.len(),
    ensures
        freshness::distinct_files(found_on_disk(tree)),
        freshness::on_disk(found_on_disk(tree)).dom().contains(tree[i].path),
        freshness::on_disk(found_on_disk(tree))[tree[i].path] == Some((tree[i].mtime, tree[i].contents.len() as u64)),
{
    let found = found_on_disk(tree);
    assert forall|a: int, b: int| 0 <= a < b < found.len() implies (#[trigger] found[a]).path != (
    #[trigger] found[b]).path by {
        assert(tree[a].path != tree[b].path);
    }
    freshness::lemma_on_disk_distinct(found, i);
}

/// What is found under a path on disk is a file of the tree.
proof fn lemma_found_from(tree: Seq<TreeFile>, path: Seq<char>)
    requires
        well_formed(tree),
        freshness::on_disk(found_on_disk(tree)).dom().contains(path),
    ensures
        exists|j: int|
            0 <= j < tree.len() && (#[trigger] tree[j]).path == path && freshness::on_disk(found_on_disk(tree))[path]
                == Some((tree[j].mtime, tree[j].contents.len() as u64)),
{
    let found = found_on_disk(tree);
    freshness::lemma_on_disk_from(found, path);
    let j = choose|j: int| 0 <= j < found.len() && (#[trigger] found[j]).path == path;
    assert(tree[j].path == path);
    lemma_found(tree, j);
}

/// The states that are recorded of an index of a tree are those of its files, each
/// once.
proof fn lemma_recorded(tree: Seq<TreeFile>, paths: Seq<Seq<char>>, sets: Seq<Set<u64>>, max_file_size: u64)
    requires
        well_formed(tree),
        indexes(paths, sets, tree, max_file_size),
    ensures
        freshness::state_paths(recorded_states(tree, paths, true)).no_duplicates(),
        forall|path: Seq<char>|
            #[trigger] paths.contains(path) <==> freshness::has_path(recorded_states(tree, paths, true), path),
        forall|k: int|
            0 <= k < recorded_states(tree, paths, true).len() ==> is_state_of(
                #[trigger] recorded_states(tree, paths, true)[k],
                tree,
            ),
        forall|k: int|
            0 <= k < recorded_states(tree, paths, false).len() ==> is_state_of(
                #[trigger] recorded_states(tree, paths, false)[k],
                tree,
            ) && !paths.contains(recorded_states(tree, paths, false)[k].path),
{
    let found = found_on_disk(tree);
    let stored = recorded_states(tree, paths, true);
    let skipped = recorded_states(tree, paths, false);
    assert(freshness::distinct_files(found)) by {
        if tree.len() > 0 {
            lemma_found(tree, 0);
        }
    }
    assert forall|path: Seq<char>| #[trigger] paths.contains(path) implies freshness::on_disk(found).dom().contains(
        path,
    ) && freshness::on_disk(found)[path] is Some by {
        let k = choose|k: int| 0 <= k < paths.len() && paths[k] == path;
        assert(has_file(tree, max_file_size, paths[k], sets[k]));
        let i = choose|i: int|
            0 <= i < tree.len() && #[trigger] indexable(tree[i], max_file_size) && tree[i].path == paths[k]
                && ngram::content_hashes(tree[i].contents) == sets[k];
        lemma_found(tree, i);
    }
    freshness::law_collected_are_the_indexed(found, paths);
    freshness::lemma_collected(found, paths, true);
    freshness::lemma_collected(found, paths, false);
    let names = freshness::state_paths(stored);
    assert forall|path: Seq<char>| #[trigger] paths.contains(path) <==> freshness::has_path(stored, path) by {
        assert(names.contains(path) <==> paths.contains(path));
        if names.contains(path) {
            let k = choose|k: int| 0 <= k < names.len() && names[k] == path;
            assert(stored[k].path == path);
        }
        if freshness::has_path(stored, path) {
            let k = choose|k: int| 0 <= k < stored.len() && (#[trigger] stored[k]).path == path;
            assert(names[k] == path);
        }
    }
    assert forall|k: int| 0 <= k < stored.len() implies is_state_of(#[trigger] stored[k], tree) by {
        assert(freshness::has_source(stored[k], found, paths, true));
        let i = choose|i: int| freshness::comes_from(stored[k], found, paths, true, i);
        assert(tree[i].path == stored[k].path);
    }
    assert forall|k: int| 0 <= k < skipped.len() implies is_state_of(#[trigger] skipped[k], tree) && !paths.contains(
        skipped[k].path,
    ) by {
        assert(freshness::has_source(skipped[k], found, paths, false));
        let i = choose|i: int| freshness::comes_from(skipped[k], found, paths, false, i);
        assert(tree[i].path == skipped[k].path);
    }
}

/// Whether a state is that of a file of a tree.
spec fn is_state_of(s: StateView, tree: Seq<TreeFile>) -> bool {
    exists|i: int|
        0 <= i < tree.len() && (#[trigger] tree[i]).path == s.path && tree[i].mtime == s.mtime
            && tree[i].contents.len() as u64 == s.size
}

/// Whether a report tells what has become of a tree since it was indexed.
pub open spec fn reports_on(
    report: FreshnessReport,
    old: Seq<TreeFile>,
    paths: Seq<Seq<char>>,
    new: Seq<TreeFile>,
) -> bool {
    freshness::reports(
        report,
        recorded_states(old, paths, true),
        recorded_states(old, paths, false),
        found_on_disk(new),
    )
}

/// A file that is kept is in the new tree as it was.
proof fn lemma_kept_file(
    report: FreshnessReport,
    old: Seq<TreeFile>,
    paths: Seq<Seq<char>>,
    sets: Seq<Set<u64>>,
    new: Seq<TreeFile>,
    max_file_size: u64,
    k: int,
)
    requires
        well_formed(old),
        well_formed(new),
        edits_show(old, new),
        indexes(paths, sets, old, max_file_size),
        reports_on(report, old, paths, new),
        0 <= k < paths.len(),
        !indexer::dirty_paths(report).contains(paths[k]),
    ensures
        has_file(new, max_file_size, paths[k], sets[k]),
{
    let stored = recorded_states(old, paths, true);
    let disk = freshness::on_disk(found_on_disk(new));
    let path = paths[k];
    lemma_recorded(old, paths, sets, max_file_size);
    assert(paths.contains(path));
    let s = choose|s: int| 0 <= s < stored.len() && (#[trigger] stored[s]).path == path;
    assert(is_state_of(stored[s], old));
    let i = choose|i: int|
        0 <= i < old.len() && (#[trigger] old[i]).path == path && old[i].mtime == stored[s].mtime
            && old[i].contents.len() as u64 == stored[s].size;
    freshness::lemma_paths_with_members(stored, disk, Verdict::Changed, path);
    freshness::lemma_paths_with_members(stored, disk, Verdict::Deleted, path);
    sorting::lemma_sorted_copy_members(
        text::texts(report.changed@),
        freshness::paths_with(stored, disk, Verdict::Changed),
    );
    sorting::lemma_sorted_copy_members(
        text::texts(report.deleted@),
        freshness::paths_with(stored, disk, Verdict::Deleted),
    );
    assert(freshness::verdict(stored[s], disk) == Verdict::Unchanged);
    lemma_found_from(new, path);
    let j = choose|j: int|
        0 <= j < new.len() && (#[trigger] new[j]).path == path && disk[path] == Some(
            (new[j].mtime, new[j].contents.len() as u64),
        );
    assert(old[i].contents == new[j].contents) by {
        assert(old[i].contents.len() <= u64::MAX && new[j].contents.len() <= u64::MAX);
    }
    assert(has_file(old, max_file_size, paths[k], sets[k]));
    let x = choose|x: int|
        0 <= x < old.len() && #[trigger] indexable(old[x], max_file_size) && old[x].path == paths[k]
            && ngram::content_hashes(old[x].contents) == sets[k];
    if x < i {
        assert(old[x].path != old[i].path);
    } else if i < x {
        assert(old[i].path != old[x].path);
    }
    assert(indexable(new[j], max_file_size));
}

/// A file that is to be indexed is kept or has to be processed again.
proof fn lemma_new_file(
    report: FreshnessReport,
    old: Seq<TreeFile>,
    paths: Seq<Seq<char>>,
    sets: Seq<Set<u64>>,
    new: Seq<TreeFile>,
    max_file_size: u64,
    j: int,
)
    requires
        well_formed(old),
        well_formed(new),
        edits_show(old, new),
        indexes(paths, sets, old, max_file_size),
        reports_on(report, old, paths, new),
        0 <= j < new.len(),
        indexable(new[j], max_file_size),
    ensures
        paths.contains(new[j].path) && !indexer::dirty_paths(report).contains(new[j].path) || (text::texts(
            report.changed@,
        ) + text::texts(report.added@)).contains(new[j].path),
{
    let stored = recorded_states(old, paths, true);
    let skipped = recorded_states(old, paths, false);
    let disk = freshness::on_disk(found_on_disk(new));
    let path = new[j].path;
    let changed = text::texts(report.changed@);
    let deleted = text::texts(report.deleted@);
    let added = text::texts(report.added@);
    let again = changed + added;
    lemma_recorded(old, paths, sets, max_file_size);
    lemma_found(new, j);
    freshness::lemma_paths_with_members(stored, disk, Verdict::Changed, path);
    freshness::lemma_paths_with_members(stored, disk, Verdict::Deleted, path);
    sorting::lemma_sorted_copy_members(changed, freshness::paths_with(stored, disk, Verdict::Changed));
    sorting::lemma_sorted_copy_members(deleted, freshness::paths_with(stored, disk, Verdict::Deleted));
    if freshness::still_skipped(skipped, disk, path) {
        let s = choose|s: int|
            0 <= s < skipped.len() && (#[trigger] skipped[s]).path == path && freshness::verdict(skipped[s], disk)
                == Verdict::Unchanged;
        assert(is_state_of(skipped[s], old));
        let i = choose|i: int|
            0 <= i < old.len() && (#[trigger] old[i]).path == path && old[i].mtime == skipped[s].mtime
                && old[i].contents.len() as u64 == skipped[s].size;
        assert(old[i].contents == new[j].contents) by {
            assert(old[i].contents.len() <= u64::MAX && new[j].contents.len() <= u64::MAX);
        }
        assert(indexable(old[i], max_file_size));
        assert(paths.contains(path));
        assert(false);
    }
    if added.contains(path) {
        let k = choose|k: int| 0 <= k < added.len() && added[k] == path;
        assert(again[changed.len() + k] == path);
    }
    if changed.contains(path) {
        let k = choose|k: int| 0 <= k < changed.len() && changed[k] == path;
        assert(again[k] == path);
    }
    if deleted.contains(path) {
        let s = choose|s: int|
            0 <= s < stored.len() && (#[trigger] stored[s]).path == path && freshness::verdict(stored[s], disk)
                == Verdict::Deleted;
        assert(false);
    }
}

/// The paths that have to be processed again are distinct, are in the new tree, and are
/// none of those that are kept.
proof fn lemma_paths_again(
    report: FreshnessReport,
    old: Seq<TreeFile>,
    paths: Seq<Seq<char>>,
    sets: Seq<Set<u64>>,
    new: Seq<TreeFile>,
    max_file_size: u64,
)
    requires
        well_formed(old),
        well_formed(new),
        indexes(paths, sets, old, max_file_size),
        reports_on(report, old, paths, new),
    ensures
        ({
            let again = text::texts(report.changed@) + text::texts(report.added@);
            &&& again.no_duplicates()
            &&& forall|k: int| 0 <= k < again.len() ==> is_in(#[trigger] again[k], new)
            &&& forall|k: int|
                0 <= k < again.len() ==> !paths.contains(#[trigger] again[k]) || indexer::dirty_paths(report).contains(
                    again[k],
                )
        }),
{
    let stored = recorded_states(old, paths, true);
    let disk = freshness::on_disk(found_on_disk(new));
    let changed = text::texts(report.changed@);
    let added = text::texts(report.added@);
    let again = changed + added;
    let with_change = freshness::paths_with(stored, disk, Verdict::Changed);
    lemma_recorded(old, paths, sets, max_file_size);
    freshness::lemma_paths_with_distinct(stored, disk, Verdict::Changed);
    sorting::lemma_sorted_copy_members(changed, with_change);
    sorting::lemma_sorted_copy_distinct(changed, with_change);
    assert forall|k: int| 0 <= k < changed.len() implies freshness::has_path(stored, #[trigger] changed[k])
        && disk.dom().contains(changed[k]) by {
        let path = changed[k];
        assert(changed.contains(path));
        assert(with_change.contains(path));
        freshness::lemma_paths_with_members(stored, disk, Verdict::Changed, path);
        let s = choose|s: int|
            0 <= s < stored.len() && (#[trigger] stored[s]).path == path && freshness::verdict(stored[s], disk)
                == Verdict::Changed;
        assert(stored[s].path == path);
    }
    assert forall|k: int| 0 <= k < added.len() implies !freshness::has_path(stored, #[trigger] added[k])
        && disk.dom().contains(added[k]) by {
        assert(added.contains(added[k]));
    }
    assert forall|k: int| 0 <= k < again.len() implies is_in(#[trigger] again[k], new) && (!paths.contains(again[k])
        || indexer::dirty_paths(report).contains(again[k])) by {
        if k < changed.len() {
            assert(again[k] == changed[k]);
            assert(changed.contains(changed[k]));
        } else {
            assert(again[k] == added[k - changed.len()]);
        }
        lemma_found_from(new, again[k]);
        let j = choose|j: int|
            0 <= j < new.len() && (#[trigger] new[j]).path == again[k] && disk[again[k]] == Some(
                (new[j].mtime, new[j].contents.len() as u64),
            );
        assert(new[j].path == again[k]);
    }
    assert forall|a: int, b: int| 0 <= a < again.len() && 0 <= b < again.len() && a != b implies again[a] != again[b] by {
        if a < changed.len() && b < changed.len() {
            assert(again[a] == changed[a] && again[b] == changed[b]);
        } else if a < changed.len() {
            assert(again[a] == changed[a] && again[b] == added[b - changed.len()]);
        } else if b < changed.len() {
            assert(again[b] == changed[b] && again[a] == added[a - changed.len()]);
        } else {
            assert(again[a] == added[a - changed.len()] && again[b] == added[b - changed.len()]);
        }
    }
}

/// Whether a path is that of a file of a tree.
spec fn is_in(path: Seq<char>, tree: Seq<TreeFile>) -> bool {
    exists|i: int| 0 <= i < tree.len() && (#[trigger] tree[i]).path == path
}

/// What an update gives holds the files of the new tree.
proof fn lemma_updated(
    report: FreshnessReport,
    old: Seq<TreeFile>,
    paths: Seq<Seq<char>>,
    sets: Seq<Set<u64>>,
    new: Seq<TreeFile>,
    results: Seq<Option<(String, HashSet<u64>)>>,
    max_file_size: u64,
)
    requires
        well_formed(old),
        well_formed(new),
        edits_show(old, new),
        indexes(paths, sets, old, max_file_size),
        reports_on(report, old, paths, new),
        scanned_again(results, text::texts(report.changed@) + text::texts(report.added@), new, max_file_size),
    ensures
        indexes(
            indexer::kept_paths(paths, indexer::dirty_paths(report)) + indexer::processed_paths(results),
            laws::kept_sets(paths, indexer::dirty_paths(report), sets) + indexer::processed_sets(results),
            new,
            max_file_size,
        ),
{
    let dirty = indexer::dirty_paths(report);
    let again = text::texts(report.changed@) + text::texts(report.added@);
    let kept = indexer::kept_paths(paths, dirty);
    let kept_sets = laws::kept_sets(paths, dirty, sets);
    let more = indexer::processed_paths(results);
    let more_sets = indexer::processed_sets(results);
    let all = kept + more;
    let all_sets = kept_sets + more_sets;
    lemma_paths_again(report, old, paths, sets, new, max_file_size);
    lemma_kept(paths, dirty, sets);
    assert forall|k: int| 0 <= k < again.len() implies ((#[trigger] results[k]) matches Some((path, _)) ==> path@
        == again[k]) by {
        assert(is_in(again[k], new));
        let i = choose|i: int| 0 <= i < new.len() && (#[trigger] new[i]).path == again[k];
        assert(processes_again(results[k], new[i], max_file_size));
    }
    lemma_processed(results, again);
    assert forall|k: int| 0 <= k < all.len() implies has_file(new, max_file_size, #[trigger] all[k], all_sets[k]) by {
        if k < kept.len() {
            assert(has_origin(kept[k], kept_sets[k], paths, dirty, sets));
            let i = choose|i: int|
                0 <= i < paths.len() && #[trigger] paths[i] == kept[k] && sets[i] == kept_sets[k] && !dirty.contains(paths[i]);
            lemma_kept_file(report, old, paths, sets, new, max_file_size, i);
        } else {
            let m = k - kept.len();
            assert(all[k] == more[m] && all_sets[k] == more_sets[m]);
            assert(has_result(more[m], more_sets[m], results, again));
            let i = choose|i: int|
                0 <= i < again.len() && #[trigger] again[i] == more[m] && results[i] is Some && hashes_in(results[i])
                    == more_sets[m];
            assert(is_in(again[i], new));
            let j = choose|j: int| 0 <= j < new.len() && (#[trigger] new[j]).path == again[i];
            assert(processes_again(results[i], new[j], max_file_size));
            assert(indexable(new[j], max_file_size));
        }
    }
    assert forall|j: int| 0 <= j < new.len() && #[trigger] indexable(new[j], max_file_size) implies all.contains(
        new[j].path,
    ) by {
        let path = new[j].path;
        lemma_new_file(report, old, paths, sets, new, max_file_size, j);
        if paths.contains(path) && !dirty.contains(path) {
            let i = choose|i: int| 0 <= i < paths.len() && paths[i] == path;
            assert(!dirty.contains(paths[i]));
            let k = choose|k: int| 0 <= k < kept.len() && kept[k] == path;
            assert(all[k] == path);
        } else {
            let i = choose|i: int| 0 <= i < again.len() && again[i] == path;
            assert(new[j].path == again[i]);
            assert(processes_again(results[i], new[j], max_file_size));
            assert(results[i] is Some);
            let m = choose|m: int| 0 <= m < more.len() && more[m] == path;
            assert(all[kept.len() + m] == path);
        }
    }
    assert forall|a: int, b: int| 0 <= a < all.len() && 0 <= b < all.len() && a != b implies all[a] != all[b] by {
        let low = if a < b {
            a
        } else {
            b
        };
        let high = if a < b {
            b
        } else {
            a
        };
        if high < kept.len() {
            assert(all[a] == kept[a] && all[b] == kept[b]);
        } else if low < kept.len() {
            let m = high - kept.len();
            assert(all[high] == more[m]);
            assert(has_origin(kept[low], kept_sets[low], paths, dirty, sets));
            let x = choose|x: int|
                0 <= x < paths.len() && #[trigger] paths[x] == kept[low] && sets[x] == kept_sets[low] && !dirty.contains(
                    paths[x],
                );
            assert(paths.contains(kept[low]));
            assert(has_result(more[m], more_sets[m], results, again));
            let i = choose|i: int|
                0 <= i < again.len() && #[trigger] again[i] == more[m] && results[i] is Some && hashes_in(results[i])
                    == more_sets[m];
            assert(!paths.contains(again[i]) || dirty.contains(again[i]));
        } else {
            assert(all[a] == more[a - kept.len()] && all[b] == more[b - kept.len()]);
        }
    }
}

/// An update of an index that was built, written with the states of its files and opened
/// again gives what a full build of the changed tree gives, up to the order of the
/// files: the same paths, each once, the same hashes, and for every hash the same paths,
/// in lists that ascend strictly.
///
/// The report is that on the files which were recorded, the limit on the size of files is
/// the same, and every edit shows in the modification time or the size of the file.
pub proof fn law_update_is_a_rebuild(
    old: Seq<TreeFile>,
    new: Seq<TreeFile>,
    max_file_size: u64,
    old_results: Seq<FileResult>,
    new_results: Seq<FileResult>,
    reprocessed: Seq<Option<(String, HashSet<u64>)>>,
    report: FreshnessReport,
)
    requires
        well_formed(old),
        well_formed(new),
        edits_show(old, new),
        scanned(old_results, old, max_file_size),
        scanned(new_results, new, max_file_size),
        laws::storable(indexer::built_sets(old_results), indexer::built_paths(old_results)),
        reports_on(report, old, indexer::built_paths(old_results), new),
        scanned_again(reprocessed, text::texts(report.changed@) + text::texts(report.added@), new, max_file_size),
        indexer::updatable(
            report,
            laws::reopened(indexer::built_sets(old_results), indexer::built_paths(old_results))->Ok_0,
            reprocessed,
        ),
        indexer::countable(new_results, 0),
    ensures
        ({
            let index = laws::reopened(indexer::built_sets(old_results), indexer::built_paths(old_results))->Ok_0;
            let dirty = indexer::dirty_paths(report);
            let kept = indexer::kept_paths(index.files, dirty);
            let files = kept + indexer::processed_paths(reprocessed);
            let lists = indexer::with_files(
                indexer::kept_lists(index.entries(), index.files, dirty),
                kept.len(),
                indexer::processed_sets(reprocessed),
            );
            let full_files = indexer::built_paths(new_results);
            let full_lists = indexer::index_lists(indexer::built_sets(new_results));
            &&& files.to_multiset() == full_files.to_multiset()
            &&& lists.dom() == full_lists.dom()
            &&& forall|h: u64, path: Seq<char>|
                #![trigger names(files, indexer::list_of(lists, h), path)]
                names(files, indexer::list_of(lists, h), path) <==> names(
                    full_files,
                    indexer::list_of(full_lists, h),
                    path,
                )
            &&& forall|h: u64| #[trigger] lists.dom().contains(h) ==> postings::strictly_ascending(lists[h])
        }),
{
    let paths = indexer::built_paths(old_results);
    let sets = indexer::built_sets(old_results);
    let dirty = indexer::dirty_paths(report);
    lemma_built(old_results, old, max_file_size);
    lemma_built(new_results, new, max_file_size);
    laws::law_opened_index_is_faithful(sets, paths);
    laws::law_update_of_opened_index_matches_rebuild(sets, paths, dirty, indexer::processed_sets(reprocessed));
    lemma_updated(report, old, paths, sets, new, reprocessed, max_file_size);
    sorting::law_text_order_sorts(indexer::indexed_paths(new_results));
    law_indexes_name_the_same(
        indexer::kept_paths(paths, dirty) + indexer::processed_paths(reprocessed),
        laws::kept_sets(paths, dirty, sets) + indexer::processed_sets(reprocessed),
        indexer::built_paths(new_results),
        indexer::built_sets(new_results),
        new,
        max_file_size,
    );
}

/// The states that are collected when a tree is indexed are those of the files of the
/// index, as they are on disk, and each of them once.
pub proof fn law_recorded_states_are_those_of_the_index(
    results: Seq<FileResult>,
    tree: Seq<TreeFile>,
    max_file_size: u64,
)
    requires
        well_formed(tree),
        scanned(results, tree, max_file_size),
    ensures
        ({
            let files = indexer::built_paths(results);
            let states = recorded_states(tree, files, true);
            &&& freshness::state_paths(states).no_duplicates()
            &&& forall|path: Seq<char>|
                #[trigger] freshness::state_paths(states).contains(path) <==> files.contains(path)
            &&& forall|k: int, i: int|
                0 <= k < states.len() && 0 <= i < tree.len() && (#[trigger] states[k]).path == (#[trigger] tree[i]).path
                    ==> states[k].mtime == tree[i].mtime && states[k].size == tree[i].contents.len()
        }),
{
    let files = indexer::built_paths(results);
    let states = recorded_states(tree, files, true);
    let names = freshness::state_paths(states);
    lemma_built(results, tree, max_file_size);
    lemma_recorded(tree, files, indexer::built_sets(results), max_file_size);
    assert forall|path: Seq<char>| #[trigger] names.contains(path) <==> files.contains(path) by {
        if names.contains(path) {
            let k = choose|k: int| 0 <= k < names.len() && names[k] == path;
            assert(states[k].path == path);
        }
        if files.contains(path) {
            let k = choose|k: int| 0 <= k < states.len() && (#[trigger] states[k]).path == path;
            assert(names[k] == path);
        }
    }
    assert forall|k: int, i: int|
        0 <= k < states.len() && 0 <= i < tree.len() && (#[trigger] states[k]).path == (
        #[trigger] tree[i]).path implies states[k].mtime == tree[i].mtime && states[k].size
        == tree[i].contents.len() by {
        assert(is_state_of(states[k], tree));
        let j = choose|j: int|
            0 <= j < tree.len() && (#[trigger] tree[j]).path == states[k].path && tree[j].mtime == states[k].mtime
                && tree[j].contents.len() as u64 == states[k].size;
        if i < j {
            assert(tree[i].path != tree[j].path);
        } else if j < i {
            assert(tree[j].path != tree[i].path);
        }
    }
}

/// A report on a tree counts the files of the index; it is fresh where the tree has not
/// changed, whatever files were skipped.
pub proof fn law_report_after_indexing(
    report: FreshnessReport,
    results: Seq<FileResult>,
    old: Seq<TreeFile>,
    new: Seq<TreeFile>,
    max_file_size: u64,
)
    requires
        well_formed(old),
        scanned(results, old, max_file_size),
        reports_on(report, old, indexer::built_paths(results), new),
    ensures
        report.total_indexed == indexer::built_paths(results).len(),
        new == old ==> report.is_fresh,
{
    let files = indexer::built_paths(results);
    let found = found_on_disk(old);
    lemma_built(results, old, max_file_size);
    law_recorded_states_are_those_of_the_index(results, old, max_file_size);
    assert(freshness::distinct_files(found)) by {
        if old.len() > 0 {
            lemma_found(old, 0);
        }
    }
    let names = freshness::state_paths(recorded_states(old, files, true));
    names.unique_seq_to_set();
    files.unique_seq_to_set();
    assert(names.to_set() =~= files.to_set()) by {
        assert forall|path: Seq<char>| names.to_set().contains(path) <==> files.to_set().contains(path) by {
            assert(names.contains(path) <==> files.contains(path));
        }
    }
    if new == old {
        freshness::law_fresh_after_collecting(report, files, found);
    }
}

/// What a full build of a tree gives: the paths of the files that are no larger than the
/// limit and have no null byte among their first 8192 bytes, each once and in ascending
/// order, and under every hash the IDs of just those files whose contents hold a trigram
/// with it.
pub proof fn law_built_index_holds_the_files(results: Seq<FileResult>, tree: Seq<TreeFile>, max_file_size: u64)
    requires
        well_formed(tree),
        scanned(results, tree, max_file_size),
        tree.len() <= u32::MAX,
    ensures
        indexer::built_paths(results).no_duplicates(),
        sorting::in_order(indexer::built_paths(results)),
        forall|path: Seq<char>|
            #[trigger] indexer::built_paths(results).contains(path) <==> exists|i: int|
                0 <= i < tree.len() && (#[trigger] tree[i]).path == path && tree[i].contents.len() <= max_file_size
                    && !tree[i].contents.take(
                    if tree[i].contents.len() < 8192 {
                        tree[i].contents.len() as int
                    } else {
                        8192
                    },
                ).contains(0u8),
        forall|h: u64, id: u32|
            #[trigger] indexer::list_of(indexer::index_lists(indexer::built_sets(results)), h).contains(id) <==> id
                < indexer::built_paths(results).len() && exists|i: int|
                0 <= i < tree.len() && (#[trigger] tree[i]).path == indexer::built_paths(results)[id as int]
                    && ngram::content_hashes(tree[i].contents).contains(h),
{
    let paths = indexer::built_paths(results);
    let sets = indexer::built_sets(results);
    lemma_built(results, tree, max_file_size);
    assert forall|i: int| 0 <= i < tree.len() implies #[trigger] indexable(tree[i], max_file_size) == (
    tree[i].contents.len() <= max_file_size && !tree[i].contents.take(
        if tree[i].contents.len() < 8192 {
            tree[i].contents.len() as int
        } else {
            8192
        },
    ).contains(0u8)) by {
        indexer::law_binary_is_a_leading_null_byte(tree[i].contents);
    }
    assert forall|path: Seq<char>| #[trigger] paths.contains(path) implies exists|i: int|
        0 <= i < tree.len() && (#[trigger] tree[i]).path == path && indexable(tree[i], max_file_size) by {
        let k = choose|k: int| 0 <= k < paths.len() && paths[k] == path;
        assert(has_file(tree, max_file_size, paths[k], sets[k]));
        let i = choose|i: int|
            0 <= i < tree.len() && #[trigger] indexable(tree[i], max_file_size) && tree[i].path == paths[k]
                && ngram::content_hashes(tree[i].contents) == sets[k];
        assert(tree[i].path == path);
    }
    assert forall|path: Seq<char>|
        #[trigger] paths.contains(path) <==> exists|i: int|
            0 <= i < tree.len() && (#[trigger] tree[i]).path == path && tree[i].contents.len() <= max_file_size
                && !tree[i].contents.take(
                if tree[i].contents.len() < 8192 {
                    tree[i].contents.len() as int
                } else {
                    8192
                },
            ).contains(0u8) by {
        if paths.contains(path) {
            let i = choose|i: int|
                0 <= i < tree.len() && (#[trigger] tree[i]).path == path && indexable(tree[i], max_file_size);
            assert(tree[i].path == path);
        } else {
            assert forall|i: int| 0 <= i < tree.len() && (#[trigger] tree[i]).path == path implies !indexable(
                tree[i],
                max_file_size,
            ) by {}
        }
    }
    lemma_no_more_paths(paths, tree);
    assert forall|h: u64, id: u32|
        #[trigger] indexer::list_of(indexer::index_lists(sets), h).contains(id) <==> id < paths.len() && exists|i: int|
            0 <= i < tree.len() && (#[trigger] tree[i]).path == paths[id as int] && ngram::content_hashes(
                tree[i].contents,
            ).contains(h) by {
        indexer::law_index_lists_holders(sets, h);
        if id < paths.len() {
            let k = id as int;
            assert(has_file(tree, max_file_size, paths[k], sets[k]));
            let j = choose|j: int|
                0 <= j < tree.len() && #[trigger] indexable(tree[j], max_file_size) && tree[j].path == paths[k]
                    && ngram::content_hashes(tree[j].contents) == sets[k];
            assert(tree[j].path == paths[k]);
            if exists|i: int|
                0 <= i < tree.len() && (#[trigger] tree[i]).path == paths[k] && ngram::content_hashes(
                    tree[i].contents,
                ).contains(h) {
                let i = choose|i: int|
                    0 <= i < tree.len() && (#[trigger] tree[i]).path == paths[k] && ngram::content_hashes(
                        tree[i].contents,
                    ).contains(h);
                if i < j {
                    assert(tree[i].path != tree[j].path);
                } else if j < i {
                    assert(tree[j].path != tree[i].path);
                }
            }
        }
    }
}

/// Paths that are those of files, each once, are no more than the files.
proof fn lemma_no_more_paths(paths: Seq<Seq<char>>, tree: Seq<TreeFile>)
    requires
        paths.no_duplicates(),
        forall|path: Seq<char>|
            #[trigger] paths.contains(path) ==> exists|i: int| 0 <= i < tree.len() && (#[trigger] tree[i]).path == path,
    ensures
        paths.len() <= tree.len(),
{
    let names = tree.map_values(|f: TreeFile| f.path);
    assert(paths.to_set().subset_of(names.to_set())) by {
        assert forall|path: Seq<char>| paths.to_set().contains(path) implies names.to_set().contains(path) by {
            assert(paths.contains(path));
            let i = choose|i: int| 0 <= i < tree.len() && (#[trigger] tree[i]).path == path;
            assert(names[i] == path);
        }
    }
    names.lemma_cardinality_of_set();
    paths.unique_seq_to_set();
    vstd::set_lib::lemma_len_subset(paths.to_set(), names.to_set());
}

} // verus!
