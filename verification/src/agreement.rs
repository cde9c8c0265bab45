//! A search with an index gives what a search without one gives, whatever the order in
//! which the files were walked.

use crate::completeness;
use crate::filter;
use crate::indexer;
use crate::indexer::FileResult;
use crate::laws;
use crate::matching;
use crate::ngram;
use crate::ordering;
use crate::pattern::PatternView;
use crate::scan;
use crate::scan::MatchView;
use crate::search;
use crate::sorting;
use crate::trees;
use crate::trees::TreeFile;
use crate::unindexed;
use vstd::prelude::*;

verus! {

/// Whether the lines of a file can all be read and numbered.
pub open spec fn is_text(bytes: Seq<u8>) -> bool {
    &&& matching::file_lines(bytes).len() <= u32::MAX
    &&& forall|i: int|
        0 <= i < matching::file_lines(bytes).len() ==> (#[trigger] matching::file_lines(bytes)[i]) is Some
}

/// Whether the contents of all files could be read, and so can their lines.
pub open spec fn all_texts(contents: Seq<Option<Seq<u8>>>) -> bool {
    forall|i: int| 0 <= i < contents.len() ==> (#[trigger] contents[i] matches Some(bytes) && is_text(bytes))
}

/// Contents that could be read.
pub open spec fn as_read(contents: Seq<Seq<u8>>) -> Seq<Option<Seq<u8>>> {
    contents.map_values(|bytes: Seq<u8>| Some(bytes))
}

// ---------------------------------------------------------------------------
// One file
// ---------------------------------------------------------------------------

/// There is a match among the first lines exactly if one of them is marked.
proof fn lemma_marked_any(
    lines: Seq<Option<Seq<char>>>,
    hits: Seq<bool>,
    path: Seq<char>,
    before: nat,
    after: nat,
    n: nat,
)
    ensures
        scan::marked_lines(lines, hits, path, before, after, n).len() > 0 <==> exists|i: int|
            0 <= i < n && lines[i] is Some && #[trigger] hits[i],
    decreases n,
{
    if n > 0 {
        lemma_marked_any(lines, hits, path, before, after, (n - 1) as nat);
        if exists|i: int| 0 <= i < n && lines[i] is Some && #[trigger] hits[i] {
            let i = choose|i: int| 0 <= i < n && lines[i] is Some && #[trigger] hits[i];
            if i < n - 1 {
                assert(0 <= i < n - 1 && hits[i]);
            }
        }
        if scan::marked_lines(lines, hits, path, before, after, (n - 1) as nat).len() > 0 {
            let i = choose|i: int| 0 <= i < n - 1 && lines[i] is Some && #[trigger] hits[i];
            assert(0 <= i < n && hits[i]);
        }
        if lines[n - 1] is Some && hits[n - 1] {
            assert(hits[n - 1]);
        }
    }
}

/// In a file whose lines can all be read, both searches find the same.
proof fn lemma_same_in_file(
    bytes: Seq<u8>,
    path: Seq<char>,
    source: (Seq<char>, bool),
    files_only: bool,
    before: nat,
    after: nat,
)
    requires
        is_text(bytes),
    ensures
        unindexed::unindexed_matches(Some(bytes), path, source, files_only, before, after) == scan::file_matches(
            Some(bytes),
            path,
            source,
            files_only,
            before,
            after,
        ),
{
    let lines = matching::file_lines(bytes);
    let hits = scan::line_hits(source, lines);
    lemma_marked_any(lines, hits, path, 0, 0, lines.len());
    if scan::line_matches(lines, hits, path, 0, 0).len() > 0 {
        let i = choose|i: int| 0 <= i < lines.len() && lines[i] is Some && #[trigger] hits[i];
        assert(hits[i] && forall|j: int| 0 <= j <= i ==> #[trigger] lines[j] is Some);
        assert(unindexed::reaches_hit(lines, hits));
    }
    if unindexed::reaches_hit(lines, hits) {
        let i = choose|i: int|
            0 <= i < lines.len() && #[trigger] hits[i] && forall|j: int| 0 <= j <= i ==> #[trigger] lines[j] is Some;
        assert(lines[i] is Some && hits[i]);
    }
}

/// The matches on marked lines are at different places of the file.
proof fn lemma_marked_places(
    lines: Seq<Option<Seq<char>>>,
    hits: Seq<bool>,
    path: Seq<char>,
    before: nat,
    after: nat,
    n: nat,
)
    requires
        n <= u32::MAX,
    ensures
        ({
            let out = scan::marked_lines(lines, hits, path, before, after, n);
            &&& forall|k: int| 0 <= k < out.len() ==> (#[trigger] out[k]).path == path && out[k].line_number <= n
            &&& forall|a: int, b: int|
                0 <= a < b < out.len() ==> (#[trigger] out[a]).line_number != (#[trigger] out[b]).line_number
        }),
    decreases n,
{
    let out = scan::marked_lines(lines, hits, path, before, after, n);
    if n > 0 {
        lemma_marked_places(lines, hits, path, before, after, (n - 1) as nat);
        let earlier = scan::marked_lines(lines, hits, path, before, after, (n - 1) as nat);
        assert forall|k: int| 0 <= k < out.len() implies (#[trigger] out[k]).path == path && out[k].line_number <= n by {
            if k < earlier.len() {
                assert(out[k] == earlier[k]);
            }
        }
        assert forall|a: int, b: int| 0 <= a < b < out.len() implies (#[trigger] out[a]).line_number != (
        #[trigger] out[b]).line_number by {
            assert(out[a] == earlier[a]);
            if b < earlier.len() {
                assert(out[b] == earlier[b]);
            }
        }
    }
}

/// Whether no two matches are at the same place.
spec fn apart(matches: Seq<MatchView>) -> bool {
    forall|a: int, b: int|
        0 <= a < b < matches.len() ==> ordering::match_place(#[trigger] matches[a]) != ordering::match_place(
            #[trigger] matches[b],
        )
}

/// The matches of a file are at different places, all in the file.
proof fn lemma_file_places(
    bytes: Seq<u8>,
    path: Seq<char>,
    source: (Seq<char>, bool),
    files_only: bool,
    before: nat,
    after: nat,
)
    requires
        is_text(bytes),
    ensures
        apart(scan::file_matches(Some(bytes), path, source, files_only, before, after)),
        forall|k: int|
            0 <= k < scan::file_matches(Some(bytes), path, source, files_only, before, after).len() ==> (
            #[trigger] scan::file_matches(Some(bytes), path, source, files_only, before, after)[k]).path == path,
{
    let lines = matching::file_lines(bytes);
    let hits = scan::line_hits(source, lines);
    scan::lemma_readable(lines, hits);
    lemma_marked_places(lines, hits, path, before, after, lines.len());
    let out = scan::file_matches(Some(bytes), path, source, files_only, before, after);
    assert forall|a: int, b: int| 0 <= a < b < out.len() implies ordering::match_place(#[trigger] out[a])
        != ordering::match_place(#[trigger] out[b]) by {
        assert(out[a].line_number != out[b].line_number);
    }
}

// ---------------------------------------------------------------------------
// All files
// ---------------------------------------------------------------------------

/// Whether a match is in the first `n` files.
spec fn found_in(
    m: MatchView,
    files: Seq<Seq<char>>,
    contents: Seq<Option<Seq<u8>>>,
    source: (Seq<char>, bool),
    file_pattern: Option<Seq<char>>,
    files_only: bool,
    before: nat,
    after: nat,
    n: nat,
) -> bool {
    exists|i: int|
        0 <= i < n && filter::path_passes(file_pattern, #[trigger] files[i]) && scan::file_matches(
            contents[i],
            files[i],
            source,
            files_only,
            before,
            after,
        ).contains(m)
}

/// A scan finds what is in the files, each match at another place.
proof fn lemma_scan_places(
    files: Seq<Seq<char>>,
    contents: Seq<Option<Seq<u8>>>,
    source: (Seq<char>, bool),
    file_pattern: Option<Seq<char>>,
    files_only: bool,
    before: nat,
    after: nat,
    n: nat,
)
    requires
        n <= files.len() == contents.len(),
        files.no_duplicates(),
        all_texts(contents),
    ensures
        ({
            let out = completeness::scan_matches(
                files,
                contents,
                source,
                file_pattern,
                files_only,
                before,
                after,
                n,
            );
            &&& apart(out)
            &&& forall|m: MatchView|
                #[trigger] out.contains(m) <==> found_in(
                    m,
                    files,
                    contents,
                    source,
                    file_pattern,
                    files_only,
                    before,
                    after,
                    n,
                )
            &&& forall|k: int| 0 <= k < out.len() ==> files.take(n as int).contains((#[trigger] out[k]).path)
        }),
    decreases n,
{
    let out = completeness::scan_matches(files, contents, source, file_pattern, files_only, before, after, n);
    if n > 0 {
        let last = n - 1;
        lemma_scan_places(files, contents, source, file_pattern, files_only, before, after, last as nat);
        let earlier = completeness::scan_matches(
            files,
            contents,
            source,
            file_pattern,
            files_only,
            before,
            after,
            last as nat,
        );
        assert(contents[last] matches Some(bytes) && is_text(bytes));
        let bytes = contents[last]->0;
        let more = scan::file_matches(contents[last], files[last], source, files_only, before, after);
        lemma_file_places(bytes, files[last], source, files_only, before, after);
        let passes = filter::path_passes(file_pattern, files[last]);
        assert forall|k: int| 0 <= k < out.len() implies files.take(n as int).contains((#[trigger] out[k]).path) by {
            if k < earlier.len() {
                assert(out[k] == earlier[k]);
                let i = choose|i: int| 0 <= i < last && files.take(last)[i] == earlier[k].path;
                assert(files.take(n as int)[i] == out[k].path);
            } else {
                assert(out[k] == more[k - earlier.len()]);
                assert(files.take(n as int)[last] == out[k].path);
            }
        }
        assert forall|a: int, b: int| 0 <= a < b < out.len() implies ordering::match_place(#[trigger] out[a])
            != ordering::match_place(#[trigger] out[b]) by {
            if b < earlier.len() {
                assert(out[a] == earlier[a] && out[b] == earlier[b]);
            } else if a < earlier.len() {
                assert(out[a] == earlier[a] && out[b] == more[b - earlier.len()]);
                let i = choose|i: int| 0 <= i < last && files.take(last)[i] == earlier[a].path;
                assert(files[i] != files[last]);
            } else {
                assert(out[a] == more[a - earlier.len()] && out[b] == more[b - earlier.len()]);
            }
        }
        assert forall|m: MatchView| #[trigger] out.contains(m) <==> found_in(
            m,
            files,
            contents,
            source,
            file_pattern,
            files_only,
            before,
            after,
            n,
        ) by {
            if out.contains(m) {
                let k = choose|k: int| 0 <= k < out.len() && out[k] == m;
                if k < earlier.len() {
                    assert(earlier[k] == m);
                    assert(earlier.contains(m));
                    let i = choose|i: int|
                        0 <= i < last && filter::path_passes(file_pattern, #[trigger] files[i]) && scan::file_matches(
                            contents[i],
                            files[i],
                            source,
                            files_only,
                            before,
                            after,
                        ).contains(m);
                    assert(filter::path_passes(file_pattern, files[i]));
                } else {
                    assert(more[k - earlier.len()] == m);
                    assert(filter::path_passes(file_pattern, files[last]));
                }
            }
            if found_in(m, files, contents, source, file_pattern, files_only, before, after, n) {
                let i = choose|i: int|
                    0 <= i < n && filter::path_passes(file_pattern, #[trigger] files[i]) && scan::file_matches(
                        contents[i],
                        files[i],
                        source,
                        files_only,
                        before,
                        after,
                    ).contains(m);
                if i < last {
                    assert(filter::path_passes(file_pattern, files[i]));
                    assert(earlier.contains(m));
                    let k = choose|k: int| 0 <= k < earlier.len() && earlier[k] == m;
                    assert(out[k] == m);
                } else {
                    let k = choose|k: int| 0 <= k < more.len() && more[k] == m;
                    assert(out[earlier.len() + k] == m);
                }
            }
        }
    }
}

/// The contents of the files whose paths pass a file pattern.
pub open spec fn passing_contents(
    paths: Seq<Seq<char>>,
    contents: Seq<Option<Seq<u8>>>,
    file_pattern: Option<Seq<char>>,
) -> Seq<Option<Seq<u8>>> {
    filter::marked(contents, paths.map_values(|path: Seq<char>| filter::path_passes(file_pattern, path)))
}

/// A search of the files whose paths pass a file pattern finds what a scan finds.
proof fn lemma_unindexed_is_scan(
    paths: Seq<Seq<char>>,
    contents: Seq<Option<Seq<u8>>>,
    source: (Seq<char>, bool),
    file_pattern: Option<Seq<char>>,
    files_only: bool,
    before: nat,
    after: nat,
    n: nat,
)
    requires
        n <= paths.len() == contents.len(),
        all_texts(contents),
    ensures
        unindexed::all_unindexed_matches(
            unindexed::passing_paths(paths.take(n as int), file_pattern),
            passing_contents(paths.take(n as int), contents.take(n as int), file_pattern),
            source,
            files_only,
            before,
            after,
        ) == completeness::scan_matches(paths, contents, source, file_pattern, files_only, before, after, n),
        unindexed::passing_paths(paths.take(n as int), file_pattern).len() == passing_contents(
            paths.take(n as int),
            contents.take(n as int),
            file_pattern,
        ).len(),
    decreases n,
{
    let p = paths.take(n as int);
    let c = contents.take(n as int);
    let marks = p.map_values(|path: Seq<char>| filter::path_passes(file_pattern, path));
    if n > 0 {
        let last = n - 1;
        lemma_unindexed_is_scan(paths, contents, source, file_pattern, files_only, before, after, last as nat);
        assert(p.drop_last() =~= paths.take(last));
        assert(c.drop_last() =~= contents.take(last));
        assert(marks.drop_last() =~= paths.take(last).map_values(
            |path: Seq<char>| filter::path_passes(file_pattern, path),
        ));
        assert(marks.last() == filter::path_passes(file_pattern, paths[last]));
        assert(contents[last] matches Some(bytes) && is_text(bytes));
        lemma_same_in_file(contents[last]->0, paths[last], source, files_only, before, after);
        let names = unindexed::passing_paths(p, file_pattern);
        let kept = passing_contents(p, c, file_pattern);
        if marks.last() {
            assert(names.drop_last() =~= unindexed::passing_paths(paths.take(last), file_pattern));
            assert(kept.drop_last() =~= passing_contents(paths.take(last), contents.take(last), file_pattern));
        }
    }
}

/// Sorting matches at different places gives them in strictly ascending order.
proof fn lemma_sorted_apart(out: Seq<MatchView>, input: Seq<MatchView>)
    requires
        apart(input),
        ordering::sorted_matches(out, input),
    ensures
        forall|i: int, j: int| 0 <= i < j < out.len() ==> ordering::match_before(#[trigger] out[i], #[trigger] out[j]),
        forall|m: MatchView| #[trigger] out.contains(m) <==> input.contains(m),
{
    let places = ordering::match_places(input);
    let order = choose|order: Seq<int>| #[trigger]
        sorting::sorts_places(order, places) && out == sorting::arranged(input, order);
    sorting::lemma_order_lists_all(order, places);
    assert forall|i: int, j: int| 0 <= i < j < out.len() implies ordering::match_before(
        #[trigger] out[i],
        #[trigger] out[j],
    ) by {
        let (p, q) = (order[i], order[j]);
        assert(p != q);
        assert(sorting::place_before(places[p], places[q]) || (!sorting::place_before(places[q], places[p]) && p < q));
        sorting::law_places_are_ordered(places[p], places[q], places[p]);
        if p < q {
            assert(ordering::match_place(input[p]) != ordering::match_place(input[q]));
        } else {
            assert(ordering::match_place(input[q]) != ordering::match_place(input[p]));
        }
    }
    assert forall|m: MatchView| #[trigger] out.contains(m) <==> input.contains(m) by {
        if out.contains(m) {
            let k = choose|k: int| 0 <= k < out.len() && out[k] == m;
            assert(input[order[k]] == m);
        }
        if input.contains(m) {
            let p = choose|p: int| 0 <= p < input.len() && input[p] == m;
            assert(order.to_set().contains(p));
            let k = choose|k: int| 0 <= k < order.len() && order[k] == p;
            assert(out[k] == m);
        }
    }
}

/// What is selected from two scans of the same files, in whatever orders, is the same.
proof fn lemma_selections_agree(
    a: Seq<MatchView>,
    b: Seq<MatchView>,
    found_a: Seq<MatchView>,
    found_b: Seq<MatchView>,
    max_count: Option<usize>,
)
    requires
        apart(found_a),
        apart(found_b),
        forall|m: MatchView| #[trigger] found_a.contains(m) <==> found_b.contains(m),
        ordering::selected(a, found_a, max_count),
        ordering::selected(b, found_b, max_count),
    ensures
        a == b,
{
    let x = choose|all: Seq<MatchView>| #[trigger]
        ordering::sorted_matches(all, found_a) && a == ordering::first_of(all, max_count);
    let y = choose|all: Seq<MatchView>| #[trigger]
        ordering::sorted_matches(all, found_b) && b == ordering::first_of(all, max_count);
    lemma_sorted_apart(x, found_a);
    lemma_sorted_apart(y, found_b);
    let before = |m: MatchView, n: MatchView| ordering::match_before(m, n);
    assert forall|m: MatchView, n: MatchView| !(#[trigger] before(m, n) && before(n, m)) by {
        sorting::law_places_are_ordered(ordering::match_place(m), ordering::match_place(n), ordering::match_place(m));
    }
    assert forall|m: MatchView| #[trigger] x.contains(m) <==> y.contains(m) by {
        assert(found_a.contains(m) <==> found_b.contains(m));
    }
    sorting::lemma_ascending_unique(x, y, before);
}

/// Whether contents are those of the files of a tree, by their paths.
pub open spec fn contents_at(files: Seq<Seq<char>>, contents: Seq<Seq<u8>>, tree: Seq<TreeFile>) -> bool {
    &&& contents.len() == files.len()
    &&& forall|k: int, i: int|
        0 <= k < files.len() && 0 <= i < tree.len() && #[trigger] files[k] == (#[trigger] tree[i]).path ==> contents[k]
            == tree[i].contents
}

/// The paths of a tree, in the order of the walk.
pub open spec fn tree_paths(tree: Seq<TreeFile>) -> Seq<Seq<char>> {
    tree.map_values(|f: TreeFile| f.path)
}

/// The contents of a tree, in the order of the walk.
pub open spec fn tree_contents(tree: Seq<TreeFile>) -> Seq<Seq<u8>> {
    tree.map_values(|f: TreeFile| f.contents)
}

/// Scans of an index and of a tree find the same matches.
proof fn lemma_scans_agree(
    files: Seq<Seq<char>>,
    contents: Seq<Seq<u8>>,
    walked: Seq<TreeFile>,
    source: (Seq<char>, bool),
    file_pattern: Option<Seq<char>>,
    files_only: bool,
    before: nat,
    after: nat,
    m: MatchView,
)
    requires
        contents_at(files, contents, walked),
        forall|k: int| 0 <= k < files.len() ==> tree_paths(walked).contains(#[trigger] files[k]),
        forall|i: int| 0 <= i < walked.len() ==> files.contains((#[trigger] walked[i]).path),
    ensures
        found_in(m, files, as_read(contents), source, file_pattern, files_only, before, after, files.len())
            <==> found_in(
            m,
            tree_paths(walked),
            as_read(tree_contents(walked)),
            source,
            file_pattern,
            files_only,
            before,
            after,
            walked.len(),
        ),
{
    let paths = tree_paths(walked);
    let bytes = as_read(tree_contents(walked));
    let read = as_read(contents);
    if found_in(m, files, read, source, file_pattern, files_only, before, after, files.len()) {
        let k = choose|k: int|
            0 <= k < files.len() && filter::path_passes(file_pattern, #[trigger] files[k]) && scan::file_matches(
                read[k],
                files[k],
                source,
                files_only,
                before,
                after,
            ).contains(m);
        assert(paths.contains(files[k]));
        let i = choose|i: int| 0 <= i < paths.len() && paths[i] == files[k];
        assert(files[k] == walked[i].path);
        assert(bytes[i] == read[k]);
        assert(filter::path_passes(file_pattern, paths[i]));
    }
    if found_in(m, paths, bytes, source, file_pattern, files_only, before, after, walked.len()) {
        let i = choose|i: int|
            0 <= i < paths.len() && filter::path_passes(file_pattern, #[trigger] paths[i]) && scan::file_matches(
                bytes[i],
                paths[i],
                source,
                files_only,
                before,
                after,
            ).contains(m);
        assert(files.contains(walked[i].path));
        let k = choose|k: int| 0 <= k < files.len() && files[k] == walked[i].path;
        assert(bytes[i] == read[k]);
        assert(filter::path_passes(file_pattern, files[k]));
    }
}

/// An index of a tree of text files knows its files and their contents.
proof fn lemma_index_of_texts(
    indexed: Seq<TreeFile>,
    results: Seq<FileResult>,
    max_file_size: u64,
    contents: Seq<Seq<u8>>,
    walked: Seq<TreeFile>,
)
    requires
        trees::well_formed(indexed),
        trees::well_formed(walked),
        trees::same_files(indexed, walked),
        forall|i: int|
            0 <= i < walked.len() ==> #[trigger] trees::indexable(walked[i], max_file_size) && is_text(walked[i].contents),
        trees::scanned(results, indexed, max_file_size),
        contents_at(indexer::built_paths(results), contents, walked),
    ensures
        indexer::built_sets(results) == laws::hashes_of(contents),
        indexer::built_paths(results).no_duplicates(),
        tree_paths(walked).no_duplicates(),
        forall|k: int|
            0 <= k < indexer::built_paths(results).len() ==> tree_paths(walked).contains(
                #[trigger] indexer::built_paths(results)[k],
            ),
        forall|i: int| 0 <= i < walked.len() ==> indexer::built_paths(results).contains((#[trigger] walked[i]).path),
        all_texts(as_read(contents)),
        all_texts(as_read(tree_contents(walked))),
{
    let files = indexer::built_paths(results);
    let sets = indexer::built_sets(results);
    let n = files.len();
    let paths = tree_paths(walked);
    let bytes = as_read(tree_contents(walked));
    let read = as_read(contents);
    trees::lemma_built(results, indexed, max_file_size);
    trees::lemma_same_files(files, sets, indexed, walked, max_file_size);
    assert forall|k: int| 0 <= k < n implies paths.contains(#[trigger] files[k]) && sets[k] == ngram::content_hashes(
        contents[k],
    ) && is_text(contents[k]) by {
        assert(trees::has_file(walked, max_file_size, files[k], sets[k]));
        let i = choose|i: int|
            0 <= i < walked.len() && #[trigger] trees::indexable(walked[i], max_file_size) && walked[i].path == files[k]
                && ngram::content_hashes(walked[i].contents) == sets[k];
        assert(paths[i] == files[k]);
    }
    assert forall|i: int| 0 <= i < walked.len() implies files.contains((#[trigger] walked[i]).path) by {
        assert(trees::indexable(walked[i], max_file_size));
    }
    assert(sets =~= laws::hashes_of(contents)) by {
        assert forall|k: int| 0 <= k < sets.len() implies sets[k] == laws::hashes_of(contents)[k] by {
            assert(paths.contains(files[k]));
        }
    }
    assert(paths.no_duplicates()) by {
        assert forall|a: int, b: int| 0 <= a < paths.len() && 0 <= b < paths.len() && a != b implies paths[a]
            != paths[b] by {
            if a < b {
                assert(walked[a].path != walked[b].path);
            } else {
                assert(walked[b].path != walked[a].path);
            }
        }
    }
    assert forall|i: int| 0 <= i < bytes.len() implies (#[trigger] bytes[i] matches Some(b) && is_text(b)) by {
        assert(trees::indexable(walked[i], max_file_size));
    }
    assert forall|k: int| 0 <= k < read.len() implies (#[trigger] read[k] matches Some(b) && is_text(b)) by {
        assert(paths.contains(files[k]));
    }
}

/// A search in an index of a tree of text files gives what a search without an index
/// gives: no match is lost, and none is added, whatever the orders in which the tree was
/// walked.
///
/// `tree` is that of the pattern, of whose matches the tree tells how they look. Where
/// case is ignored, the classes of the pattern fold alike, and ignoring case comes down
/// to upper and lower case of ASCII letters. `contents` are those of the indexed files,
/// by their IDs.
pub proof fn law_index_changes_no_result(
    tree: PatternView,
    source: (Seq<char>, bool),
    file_pattern: Option<Seq<char>>,
    files_only: bool,
    before: nat,
    after: nat,
    max_count: Option<usize>,
    indexed: Seq<TreeFile>,
    results: Seq<FileResult>,
    max_file_size: u64,
    contents: Seq<Seq<u8>>,
    walked: Seq<TreeFile>,
    with_index: Seq<MatchView>,
    without_index: Seq<MatchView>,
)
    requires
        trees::well_formed(indexed),
        trees::well_formed(walked),
        trees::same_files(indexed, walked),
        forall|i: int|
            0 <= i < walked.len() ==> #[trigger] trees::indexable(walked[i], max_file_size) && is_text(walked[i].contents),
        trees::scanned(results, indexed, max_file_size),
        laws::storable(indexer::built_sets(results), indexer::built_paths(results)),
        contents_at(indexer::built_paths(results), contents, walked),
        forall|t: Seq<char>| #[trigger] matching::explained(tree, source.0, source.1, t),
        completeness::covers(source, tree, as_read(contents)),
        ({
            let index = laws::reopened(indexer::built_sets(results), indexer::built_paths(results))->Ok_0;
            let cands = search::search_candidates_of(tree, index, file_pattern);
            ordering::selected(
                with_index,
                search::candidate_matches(
                    cands,
                    completeness::picked(cands, as_read(contents)),
                    source,
                    files_only,
                    before,
                    after,
                ),
                max_count,
            )
        }),
        ordering::selected(
            without_index,
            unindexed::all_unindexed_matches(
                unindexed::passing_paths(tree_paths(walked), file_pattern),
                passing_contents(tree_paths(walked), as_read(tree_contents(walked)), file_pattern),
                source,
                files_only,
                before,
                after,
            ),
            max_count,
        ),
    ensures
        with_index == without_index,
{
    let files = indexer::built_paths(results);
    let n = files.len();
    let paths = tree_paths(walked);
    let bytes = as_read(tree_contents(walked));
    let read = as_read(contents);
    lemma_index_of_texts(indexed, results, max_file_size, contents, walked);
    assert(read =~= contents.map_values(|bytes: Seq<u8>| Some(bytes)));
    laws::law_search_after_build_misses_nothing(
        tree,
        files,
        contents,
        source,
        file_pattern,
        files_only,
        before,
        after,
    );
    lemma_unindexed_is_scan(paths, bytes, source, file_pattern, files_only, before, after, paths.len());
    assert(paths.take(paths.len() as int) =~= paths);
    assert(bytes.take(paths.len() as int) =~= bytes);
    lemma_scan_places(files, read, source, file_pattern, files_only, before, after, n);
    lemma_scan_places(paths, bytes, source, file_pattern, files_only, before, after, paths.len());
    let found_a = completeness::scan_matches(files, read, source, file_pattern, files_only, before, after, n);
    let found_b = completeness::scan_matches(
        paths,
        bytes,
        source,
        file_pattern,
        files_only,
        before,
        after,
        paths.len(),
    );
    assert forall|m: MatchView| #[trigger] found_a.contains(m) <==> found_b.contains(m) by {
        lemma_scans_agree(files, contents, walked, source, file_pattern, files_only, before, after, m);
    }
    lemma_selections_agree(with_index, without_index, found_a, found_b, max_count);
}

/// Searches in two indexes of the same files give the same result, whatever the orders in
/// which the files were walked.
pub proof fn law_rebuilt_index_gives_the_same(
    tree: PatternView,
    source: (Seq<char>, bool),
    file_pattern: Option<Seq<char>>,
    files_only: bool,
    before: nat,
    after: nat,
    max_count: Option<usize>,
    walked_a: Seq<TreeFile>,
    walked_b: Seq<TreeFile>,
    results_a: Seq<FileResult>,
    results_b: Seq<FileResult>,
    max_file_size: u64,
    contents: Seq<Option<Seq<u8>>>,
    a: Seq<MatchView>,
    b: Seq<MatchView>,
)
    requires
        trees::well_formed(walked_a),
        trees::well_formed(walked_b),
        trees::same_files(walked_a, walked_b),
        trees::scanned(results_a, walked_a, max_file_size),
        trees::scanned(results_b, walked_b, max_file_size),
        ({
            let index = laws::reopened(indexer::built_sets(results_a), indexer::built_paths(results_a))->Ok_0;
            let cands = search::search_candidates_of(tree, index, file_pattern);
            let found = search::candidate_matches(
                cands,
                completeness::picked(cands, contents),
                source,
                files_only,
                before,
                after,
            );
            ordering::selected(a, found, max_count)
        }),
        ({
            let index = laws::reopened(indexer::built_sets(results_b), indexer::built_paths(results_b))->Ok_0;
            let cands = search::search_candidates_of(tree, index, file_pattern);
            let found = search::candidate_matches(
                cands,
                completeness::picked(cands, contents),
                source,
                files_only,
                before,
                after,
            );
            ordering::selected(b, found, max_count)
        }),
    ensures
        a == b,
{
    trees::law_builds_agree(results_a, results_b, walked_a, walked_b, max_file_size);
    let index = laws::reopened(indexer::built_sets(results_a), indexer::built_paths(results_a))->Ok_0;
    let cands = search::search_candidates_of(tree, index, file_pattern);
    let found = search::candidate_matches(
        cands,
        completeness::picked(cands, contents),
        source,
        files_only,
        before,
        after,
    );
    ordering::law_selection_is_unique(a, b, found, max_count);
}

} // verus!
