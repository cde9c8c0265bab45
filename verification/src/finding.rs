//! What a search finds: which files it looks at, and which matches it gives in what order.

use crate::candidates;
use crate::completeness;
use crate::error::SearchError;
use crate::filter;
use crate::matching;
use crate::narrowing;
use crate::ordering;
use crate::pattern::PatternView;
use crate::query;
use crate::scan;
use crate::scan::MatchView;
use crate::search;
use crate::sorting;
use crate::storage::IndexView;
use crate::unindexed;
use vstd::prelude::*;
use vstd::utf8::*;

verus! {

// ---------------------------------------------------------------------------
// Filters
// ---------------------------------------------------------------------------

proof fn lemma_marked_is_filter<T>(items: Seq<T>, hits: Seq<bool>, p: spec_fn(T) -> bool)
    requires
        hits.len() == items.len(),
        forall|k: int| 0 <= k < items.len() ==> #[trigger] hits[k] == p(items[k]),
    ensures
        filter::marked(items, hits) == items.filter(p),
    decreases items.len(),
{
    reveal(Seq::filter);
    if items.len() > 0 {
        lemma_marked_is_filter(items.drop_last(), hits.drop_last(), p);
        assert(hits.last() == hits[hits.len() - 1]);
        assert(items.last() == items[items.len() - 1]);
    } else {
        assert(filter::marked(items, hits) =~= items.filter(p));
    }
}

/// A file pattern keeps the files in whose paths it matches with case regarded, and all
/// files where there is none; those it keeps stay in their order. So it is of candidates,
/// of matches and of paths.
pub proof fn law_file_pattern_filters(
    candidates: Seq<(u32, Seq<char>)>,
    matches: Seq<MatchView>,
    paths: Seq<Seq<char>>,
    file_pattern: Option<Seq<char>>,
)
    ensures
        search::passing(candidates, file_pattern) == candidates.filter(
            |c: (u32, Seq<char>)|
                file_pattern is None || matching::match_spans(file_pattern->0, false, c.1).len() > 0,
        ),
        search::passing_matches(matches, file_pattern) == matches.filter(
            |m: MatchView|
                file_pattern is None || matching::match_spans(file_pattern->0, false, m.path).len() > 0,
        ),
        unindexed::passing_paths(paths, file_pattern) == paths.filter(
            |path: Seq<char>|
                file_pattern is None || matching::match_spans(file_pattern->0, false, path).len() > 0,
        ),
{
    lemma_marked_is_filter(
        candidates,
        candidates.map_values(|c: (u32, Seq<char>)| filter::path_passes(file_pattern, c.1)),
        |c: (u32, Seq<char>)| file_pattern is None || matching::match_spans(file_pattern->0, false, c.1).len() > 0,
    );
    lemma_marked_is_filter(
        matches,
        matches.map_values(|m: MatchView| filter::path_passes(file_pattern, m.path)),
        |m: MatchView| file_pattern is None || matching::match_spans(file_pattern->0, false, m.path).len() > 0,
    );
    lemma_marked_is_filter(
        paths,
        paths.map_values(|path: Seq<char>| filter::path_passes(file_pattern, path)),
        |path: Seq<char>| file_pattern is None || matching::match_spans(file_pattern->0, false, path).len() > 0,
    );
}

/// Of the matches that a walk of the whole tree gives, those stay whose files are indexed.
pub proof fn law_indexed_matches_are_in_indexed_files(matches: Seq<MatchView>, files: Seq<Seq<char>>)
    ensures
        search::indexed_matches(matches, files) == matches.filter(|m: MatchView| files.contains(m.path)),
{
    lemma_marked_is_filter(
        matches,
        matches.map_values(|m: MatchView| files.contains(m.path)),
        |m: MatchView| files.contains(m.path),
    );
}

/// File IDs become candidates by the paths that the index lists for them; an ID that it
/// does not list is left out.
pub proof fn law_candidates_have_their_paths(ids: Seq<u32>, files: Seq<Seq<char>>)
    ensures
        search::resolved(ids, files) == ids.filter(|id: u32| id < files.len()).map_values(
            |id: u32| (id, files[id as int]),
        ),
    decreases ids.len(),
{
    reveal(Seq::filter);
    if ids.len() > 0 {
        law_candidates_have_their_paths(ids.drop_last(), files);
    }
    assert(search::resolved(ids, files) =~= ids.filter(|id: u32| id < files.len()).map_values(
        |id: u32| (id, files[id as int]),
    ));
}

proof fn lemma_filter_keeps_order(s: Seq<(u32, Seq<char>)>, p: spec_fn((u32, Seq<char>)) -> bool)
    requires
        forall|i: int, j: int| 0 <= i < j < s.len() ==> (#[trigger] s[i]).0 < (#[trigger] s[j]).0,
    ensures
        forall|i: int, j: int|
            0 <= i < j < s.filter(p).len() ==> (#[trigger] s.filter(p)[i]).0 < (#[trigger] s.filter(p)[j]).0,
        forall|x: (u32, Seq<char>)| #[trigger] s.filter(p).contains(x) <==> s.contains(x) && p(x),
    decreases s.len(),
{
    reveal(Seq::filter);
    let out = s.filter(p);
    if s.len() > 0 {
        let t = s.drop_last();
        let last = s.last();
        let some = t.filter(p);
        assert forall|i: int, j: int| 0 <= i < j < t.len() implies (#[trigger] t[i]).0 < (#[trigger] t[j]).0 by {
            assert(s[i].0 < s[j].0);
        }
        lemma_filter_keeps_order(t, p);
        assert forall|i: int, j: int| 0 <= i < j < out.len() implies (#[trigger] out[i]).0 < (#[trigger] out[j]).0 by {
            assert(out[i] == some[i]);
            if j < some.len() {
                assert(out[j] == some[j]);
            } else {
                assert(some.contains(some[i]));
                assert(t.contains(some[i]));
                let k = choose|k: int| 0 <= k < t.len() && t[k] == some[i];
                assert(s[k].0 < s[s.len() - 1].0);
            }
        }
        assert forall|x: (u32, Seq<char>)| #[trigger] out.contains(x) <==> s.contains(x) && p(x) by {
            if out.contains(x) {
                let k = choose|k: int| 0 <= k < out.len() && out[k] == x;
                if k < some.len() {
                    assert(some[k] == x);
                    assert(some.contains(x));
                    assert(t.contains(x));
                    let i = choose|i: int| 0 <= i < t.len() && t[i] == x;
                    assert(s[i] == x);
                } else {
                    assert(s[s.len() - 1] == x);
                }
            }
            if s.contains(x) && p(x) {
                let k = choose|k: int| 0 <= k < s.len() && s[k] == x;
                if k < t.len() {
                    assert(t[k] == x);
                    assert(t.contains(x));
                    assert(some.contains(x));
                    let i = choose|i: int| 0 <= i < some.len() && some[i] == x;
                    assert(out[i] == x);
                } else {
                    assert(out[some.len() as int] == x);
                }
            }
        }
    }
}

/// The files that a search looks at, on an index that knows which file holds which trigram:
/// just those that are indexed under what the plan of the pattern asks for and whose paths
/// pass the file pattern, with their paths, in ascending order of their IDs.
pub proof fn law_candidates_of_a_search(
    tree: PatternView,
    index: IndexView,
    sets: Seq<Set<u64>>,
    file_pattern: Option<Seq<char>>,
    out: Seq<(u32, Seq<char>)>,
)
    requires
        candidates::faithful(index, sets),
        out == search::search_candidates_of(tree, index, file_pattern),
    ensures
        forall|id: u32, path: Seq<char>|
            #[trigger] out.contains((id, path)) <==> id < index.files.len() && path == index.files[id as int]
                && narrowing::plan_holds(query::tree_plan(tree), sets[id as int]) && (file_pattern is None
                || matching::match_spans(file_pattern->0, false, path).len() > 0),
        forall|i: int, j: int| 0 <= i < j < out.len() ==> (#[trigger] out[i]).0 < (#[trigger] out[j]).0,
{
    let plan = query::tree_plan(tree);
    let ids = candidates::evaluated(plan, index);
    let all = search::resolved(ids, index.files);
    let p = |c: (u32, Seq<char>)|
        file_pattern is None || matching::match_spans(file_pattern->0, false, c.1).len() > 0;
    narrowing::law_simplified_is_normal(query::literals_plan(query::literals(tree)));
    candidates::law_candidates_pass_the_plan(plan, index, sets);
    law_file_pattern_filters(all, Seq::empty(), Seq::empty(), file_pattern);
    assert forall|k: int| 0 <= k < ids.len() implies (#[trigger] ids[k]) < index.files.len() by {
        assert(ids.contains(ids[k]));
    }
    lemma_resolved_all(ids, index.files);
    assert forall|i: int, j: int| 0 <= i < j < all.len() implies (#[trigger] all[i]).0 < (#[trigger] all[j]).0 by {
        assert(ids[i] < ids[j]);
    }
    lemma_filter_keeps_order(all, p);
    assert(out == all.filter(p));
    assert forall|id: u32, path: Seq<char>|
        #[trigger] out.contains((id, path)) <==> id < index.files.len() && path == index.files[id as int]
            && narrowing::plan_holds(plan, sets[id as int]) && (file_pattern is None || matching::match_spans(
            file_pattern->0,
            false,
            path,
        ).len() > 0) by {
        let c = (id, path);
        assert(out.contains(c) <==> all.contains(c) && p(c));
        if all.contains(c) {
            let k = choose|k: int| 0 <= k < all.len() && all[k] == c;
            assert(ids[k] == id);
            assert(ids.contains(id));
        }
        if id < index.files.len() && narrowing::plan_holds(plan, sets[id as int]) {
            assert(ids.contains(id));
            let k = choose|k: int| 0 <= k < ids.len() && ids[k] == id;
            assert(all[k] == (id, index.files[id as int]));
        }
    }
}

proof fn lemma_resolved_all(ids: Seq<u32>, files: Seq<Seq<char>>)
    requires
        forall|k: int| 0 <= k < ids.len() ==> (#[trigger] ids[k]) < files.len(),
    ensures
        search::resolved(ids, files).len() == ids.len(),
        forall|k: int|
            0 <= k < ids.len() ==> #[trigger] search::resolved(ids, files)[k] == (ids[k], files[ids[k] as int]),
    decreases ids.len(),
{
    if ids.len() > 0 {
        assert(ids.last() == ids[ids.len() - 1]);
        lemma_resolved_all(ids.drop_last(), files);
    }
}

// ---------------------------------------------------------------------------
// File by file
// ---------------------------------------------------------------------------

/// The matches in candidates are those in each file, one file after the other.
pub proof fn law_candidates_are_searched_in_turn(
    candidates: Seq<(u32, Seq<char>)>,
    contents: Seq<Option<Seq<u8>>>,
    source: (Seq<char>, bool),
    files_only: bool,
    before: nat,
    after: nat,
)
    requires
        candidates.len() == contents.len(),
    ensures
        search::candidate_matches(candidates, contents, source, files_only, before, after) == Seq::new(
            candidates.len(),
            |i: int| scan::file_matches(contents[i], candidates[i].1, source, files_only, before, after),
        ).flatten(),
    decreases candidates.len(),
{
    let parts = Seq::new(
        candidates.len(),
        |i: int| scan::file_matches(contents[i], candidates[i].1, source, files_only, before, after),
    );
    parts.lemma_flatten_and_flatten_alt_are_equivalent();
    if candidates.len() > 0 {
        let c = candidates.drop_last();
        let t = contents.drop_last();
        law_candidates_are_searched_in_turn(c, t, source, files_only, before, after);
        let some = Seq::new(
            c.len(),
            |i: int| scan::file_matches(t[i], c[i].1, source, files_only, before, after),
        );
        some.lemma_flatten_and_flatten_alt_are_equivalent();
        assert(parts.drop_last() =~= some);
    }
}

/// Without an index, the matches are those in each file, one file after the other.
pub proof fn law_files_are_searched_in_turn(
    paths: Seq<Seq<char>>,
    contents: Seq<Option<Seq<u8>>>,
    source: (Seq<char>, bool),
    files_only: bool,
    before: nat,
    after: nat,
)
    requires
        paths.len() == contents.len(),
    ensures
        unindexed::all_unindexed_matches(paths, contents, source, files_only, before, after) == Seq::new(
            paths.len(),
            |i: int| unindexed::unindexed_matches(contents[i], paths[i], source, files_only, before, after),
        ).flatten(),
    decreases paths.len(),
{
    let parts = Seq::new(
        paths.len(),
        |i: int| unindexed::unindexed_matches(contents[i], paths[i], source, files_only, before, after),
    );
    parts.lemma_flatten_and_flatten_alt_are_equivalent();
    if paths.len() > 0 {
        let c = paths.drop_last();
        let t = contents.drop_last();
        law_files_are_searched_in_turn(c, t, source, files_only, before, after);
        let some = Seq::new(
            c.len(),
            |i: int| unindexed::unindexed_matches(t[i], c[i], source, files_only, before, after),
        );
        some.lemma_flatten_and_flatten_alt_are_equivalent();
        assert(parts.drop_last() =~= some);
    }
}

/// In a file, a search without an index gives the lines that a search with one gives.
pub proof fn law_unindexed_lines(
    contents: Option<Seq<u8>>,
    path: Seq<char>,
    source: (Seq<char>, bool),
    before: nat,
    after: nat,
)
    ensures
        unindexed::unindexed_matches(contents, path, source, false, before, after) == scan::file_matches(
            contents,
            path,
            source,
            false,
            before,
            after,
        ),
{
}

/// Without an index, a file is named exactly if the pattern matches in a line of it such
/// that this line and all before it can be read; it is named once, and nothing but its path
/// is said of it.
pub proof fn law_unindexed_names(
    contents: Seq<u8>,
    path: Seq<char>,
    source: (Seq<char>, bool),
    before: nat,
    after: nat,
    out: Seq<MatchView>,
)
    requires
        out == unindexed::unindexed_matches(Some(contents), path, source, true, before, after),
    ensures
        out.len() == (if exists|i: int|
            0 <= i < matching::file_lines(contents).len() && (forall|j: int|
                0 <= j <= i ==> (#[trigger] matching::file_lines(contents)[j]) is Some) && matching::match_spans(
                source.0,
                source.1,
                (#[trigger] matching::file_lines(contents)[i])->0,
            ).len() > 0 {
            1int
        } else {
            0
        }),
        forall|k: int|
            0 <= k < out.len() ==> (#[trigger] out[k]).path == path && out[k].line_number == 0 && out[k].line_text.len()
                == 0 && out[k].context_before.len() == 0 && out[k].context_after.len() == 0,
        unindexed::unindexed_matches(None, path, source, true, before, after).len() == 0,
{
    let lines = matching::file_lines(contents);
    let hits = scan::line_hits(source, lines);
    if unindexed::reaches_hit(lines, hits) {
        let i = choose|i: int|
            0 <= i < lines.len() && #[trigger] hits[i] && forall|j: int| 0 <= j <= i ==> #[trigger] lines[j] is Some;
        assert(lines[i] is Some);
    }
    if exists|i: int|
        0 <= i < lines.len() && (forall|j: int| 0 <= j <= i ==> (#[trigger] lines[j]) is Some) && matching::match_spans(
            source.0,
            source.1,
            (#[trigger] lines[i])->0,
        ).len() > 0 {
        let i = choose|i: int|
            0 <= i < lines.len() && (forall|j: int| 0 <= j <= i ==> (#[trigger] lines[j]) is Some)
                && matching::match_spans(source.0, source.1, (#[trigger] lines[i])->0).len() > 0;
        assert(lines[i] is Some);
        assert(hits[i]);
    }
}

/// A scan of all files gives a match exactly if it is in one of the files whose paths pass
/// the file pattern.
pub proof fn law_scan_finds_what_is_there(
    files: Seq<Seq<char>>,
    contents: Seq<Option<Seq<u8>>>,
    source: (Seq<char>, bool),
    file_pattern: Option<Seq<char>>,
    files_only: bool,
    before: nat,
    after: nat,
    n: nat,
    m: MatchView,
)
    requires
        n <= files.len(),
    ensures
        completeness::scan_matches(files, contents, source, file_pattern, files_only, before, after, n).contains(m)
            <==> exists|i: int|
            0 <= i < n && (file_pattern is None || matching::match_spans(
                file_pattern->0,
                false,
                #[trigger] files[i],
            ).len() > 0) && scan::file_matches(contents[i], files[i], source, files_only, before, after).contains(m),
    decreases n,
{
    if n > 0 {
        let p = (n - 1) as nat;
        law_scan_finds_what_is_there(files, contents, source, file_pattern, files_only, before, after, p, m);
        let earlier = completeness::scan_matches(
            files,
            contents,
            source,
            file_pattern,
            files_only,
            before,
            after,
            p,
        );
        let here = scan::file_matches(contents[n - 1], files[n - 1], source, files_only, before, after);
        let all = completeness::scan_matches(files, contents, source, file_pattern, files_only, before, after, n);
        if earlier.contains(m) {
            let k = choose|k: int| 0 <= k < earlier.len() && earlier[k] == m;
            assert(all[k] == m);
        }
        if filter::path_passes(file_pattern, files[n - 1]) && here.contains(m) {
            let k = choose|k: int| 0 <= k < here.len() && here[k] == m;
            assert(all[earlier.len() + k] == m);
        }
        if all.contains(m) {
            let k = choose|k: int| 0 <= k < all.len() && all[k] == m;
            if k < earlier.len() {
                assert(earlier[k] == m);
            } else {
                assert(here[k - earlier.len()] == m);
                assert(files[n - 1] == files[n - 1]);
            }
        }
    }
}

// ---------------------------------------------------------------------------
// Order and limit
// ---------------------------------------------------------------------------

/// A byte string comes before another exactly if, up to some place, they are the same, and
/// there it ends while the other goes on, or has the smaller byte.
pub proof fn law_bytes_before(a: Seq<u8>, b: Seq<u8>)
    ensures
        sorting::bytes_before(a, b) <==> exists|i: int|
            0 <= i <= a.len() && i < b.len() && #[trigger] a.take(i) == b.take(i) && (i == a.len() || a[i] < b[i]),
    decreases a.len(),
{
    if b.len() == 0 {
    } else if a.len() == 0 {
        assert(a.take(0) =~= b.take(0));
    } else if a[0] != b[0] {
        if a[0] < b[0] {
            assert(a.take(0) =~= b.take(0));
        }
        if exists|i: int|
            0 <= i <= a.len() && i < b.len() && #[trigger] a.take(i) == b.take(i) && (i == a.len() || a[i] < b[i]) {
            let i = choose|i: int|
                0 <= i <= a.len() && i < b.len() && #[trigger] a.take(i) == b.take(i) && (i == a.len() || a[i] < b[i]);
            if i > 0 {
                assert(a.take(i)[0] == b.take(i)[0]);
            }
        }
    } else {
        let x = a.drop_first();
        let y = b.drop_first();
        law_bytes_before(x, y);
        if sorting::bytes_before(x, y) {
            let i = choose|i: int|
                0 <= i <= x.len() && i < y.len() && #[trigger] x.take(i) == y.take(i) && (i == x.len() || x[i] < y[i]);
            let (u, v) = (a.take(i + 1), b.take(i + 1));
            assert(u =~= v) by {
                assert forall|k: int| 0 <= k < i + 1 implies u[k] == v[k] by {
                    if k > 0 {
                        assert(x.take(i)[k - 1] == y.take(i)[k - 1]);
                    }
                }
            }
        }
        if exists|i: int|
            0 <= i <= a.len() && i < b.len() && #[trigger] a.take(i) == b.take(i) && (i == a.len() || a[i] < b[i]) {
            let i = choose|i: int|
                0 <= i <= a.len() && i < b.len() && #[trigger] a.take(i) == b.take(i) && (i == a.len() || a[i] < b[i]);
            assert(i > 0);
            let (u, v) = (x.take(i - 1), y.take(i - 1));
            assert(u =~= v) by {
                assert forall|k: int| 0 <= k < i - 1 implies u[k] == v[k] by {
                    assert(a.take(i)[k + 1] == b.take(i)[k + 1]);
                }
            }
        }
    }
}

/// A search gives as many matches as were found, or as many as the limit allows where that
/// is fewer: the first ones when all that were found, each as often as it was found, are
/// put in ascending order of the bytes of their paths and, in one file, of their line
/// numbers.
#[verifier::rlimit(40)]
pub proof fn law_matches_come_in_order(
    out: Seq<MatchView>,
    found: Seq<MatchView>,
    max_count: Option<usize>,
) -> (rest: Seq<MatchView>)
    requires
        ordering::selected(out, found, max_count),
    ensures
        (out + rest).to_multiset() == found.to_multiset(),
        out.len() == (if max_count is Some && max_count->0 < found.len() {
            max_count->0 as int
        } else {
            found.len() as int
        }),
        forall|i: int, j: int|
            0 <= i < j < out.len() + rest.len() && (#[trigger] (out + rest)[i]).path == (#[trigger] (out + rest)[j]).path
                ==> (out + rest)[i].line_number <= (out + rest)[j].line_number,
        forall|i: int, j: int|
            0 <= i < j < out.len() + rest.len() && (#[trigger] (out + rest)[i]).path != (#[trigger] (out + rest)[j]).path
                ==> sorting::bytes_before(encode_utf8((out + rest)[i].path), encode_utf8((out + rest)[j].path)),
{
    let all = choose|all: Seq<MatchView>|
        #[trigger] ordering::sorted_matches(all, found) && out == ordering::first_of(all, max_count);
    let places = ordering::match_places(found);
    let order = choose|order: Seq<int>|
        #[trigger] sorting::sorts_places(order, places) && all == sorting::arranged(found, order);
    sorting::lemma_order_lists_all(order, places);
    assert forall|p: int| 0 <= p < found.len() implies #[trigger] order.contains(p) by {
        assert(order.to_set().contains(p));
    }
    assert(sorting::lists_positions(order, found.len()));
    sorting::law_arranging_keeps_items(found, order);
    assert(all.len() == found.len());
    let rest = all.skip(out.len() as int);
    assert(out + rest =~= all);
    assert forall|i: int, j: int|
        0 <= i < j < all.len() && (#[trigger] all[i]).path == (#[trigger] all[j]).path implies all[i].line_number
        <= all[j].line_number by {
        let a = places[order[i]];
        let b = places[order[j]];
        sorting::law_texts_are_ordered(all[i].path, all[j].path);
        assert(!sorting::place_before(b, a) || sorting::place_before(a, b));
        sorting::law_places_are_ordered(a, b, b);
    }
    assert forall|i: int, j: int|
        0 <= i < j < all.len() && (#[trigger] all[i]).path != (#[trigger] all[j]).path implies sorting::bytes_before(
        encode_utf8(all[i].path),
        encode_utf8(all[j].path),
    ) by {
        let a = places[order[i]];
        let b = places[order[j]];
        sorting::law_texts_are_ordered(all[i].path, all[j].path);
        assert(sorting::place_before(a, b) || !sorting::place_before(b, a));
        sorting::law_places_are_ordered(a, b, b);
    }
    rest
}

/// Matches that were found in order stay as they were found, those at one place too, but for
/// what a limit leaves no room for.
pub proof fn law_what_is_in_order_stays(out: Seq<MatchView>, found: Seq<MatchView>, max_count: Option<usize>)
    requires
        ordering::selected(out, found, max_count),
        forall|i: int, j: int|
            0 <= i < j < found.len() ==> {
                let a = #[trigger] found[i];
                let b = #[trigger] found[j];
                (a.path == b.path && a.line_number <= b.line_number) || sorting::bytes_before(
                    encode_utf8(a.path),
                    encode_utf8(b.path),
                )
            },
    ensures
        out == (if max_count is Some && max_count->0 < found.len() {
            found.take(max_count->0 as int)
        } else {
            found
        }),
{
    let places = ordering::match_places(found);
    let order = Seq::new(found.len(), |i: int| i);
    assert forall|i: int, j: int| 0 <= i < j < order.len() implies ({
        let a = places[#[trigger] order[i]];
        let b = places[#[trigger] order[j]];
        sorting::place_before(a, b) || (!sorting::place_before(b, a) && order[i] < order[j])
    }) by {
        let a = found[i];
        let b = found[j];
        sorting::law_texts_are_ordered(a.path, b.path);
    }
    assert(sorting::sorts_places(order, places));
    assert(found =~= sorting::arranged(found, order));
    assert(ordering::sorted_matches(found, found));
    let all = choose|all: Seq<MatchView>|
        #[trigger] ordering::sorted_matches(all, found) && out == ordering::first_of(all, max_count);
    ordering::law_order_is_unique(all, found, found);
}

/// A file pattern is refused exactly if it does not compile with case regarded, by an error
/// that says so with the message of the compiler; without a pattern there is nothing to refuse.
pub proof fn law_file_pattern_is_refused(file_pattern: Option<Seq<char>>, e: SearchError)
    ensures
        filter::refused_file_pattern(e, file_pattern) <==> file_pattern is Some && e is FilePattern
            && matching::build_error(file_pattern->0, false, usize::BITS) == Some(e->FilePattern_0@),
        filter::file_refusal(file_pattern) == (if file_pattern is Some {
            matching::build_error(file_pattern->0, false, usize::BITS)
        } else {
            None
        }),
{
}

/// What a search without a limit gives from a scan of all files: a match exactly if it is in one
/// of the files whose paths pass the file pattern.
pub proof fn law_search_gives_what_is_there(
    out: Seq<MatchView>,
    files: Seq<Seq<char>>,
    contents: Seq<Option<Seq<u8>>>,
    source: (Seq<char>, bool),
    file_pattern: Option<Seq<char>>,
    files_only: bool,
    before: nat,
    after: nat,
    m: MatchView,
)
    requires
        ordering::selected(
            out,
            completeness::scan_matches(
                files,
                contents,
                source,
                file_pattern,
                files_only,
                before,
                after,
                files.len(),
            ),
            None,
        ),
    ensures
        out.contains(m) <==> exists|i: int|
            0 <= i < files.len() && (file_pattern is None || matching::match_spans(
                file_pattern->0,
                false,
                #[trigger] files[i],
            ).len() > 0) && scan::file_matches(contents[i], files[i], source, files_only, before, after).contains(m),
{
    broadcast use vstd::seq_lib::group_to_multiset_ensures;

    let n = files.len();
    let found = completeness::scan_matches(files, contents, source, file_pattern, files_only, before, after, n);
    law_scan_finds_what_is_there(files, contents, source, file_pattern, files_only, before, after, n, m);
    let rest = law_matches_come_in_order(out, found, None);
    assert((out + rest).to_multiset().len() == found.to_multiset().len());
    assert(rest =~= Seq::empty());
    assert(out + rest =~= out);
    assert(out.to_multiset().count(m) == found.to_multiset().count(m));
}

proof fn lemma_filter_arranged(
    found: Seq<MatchView>,
    order: Seq<int>,
    p: spec_fn(MatchView) -> bool,
    q: spec_fn(int) -> bool,
)
    requires
        forall|i: int| #[trigger] q(i) == p(found[i]),
    ensures
        sorting::arranged(found, order).filter(p) == sorting::arranged(found, order.filter(q)),
    decreases order.len(),
{
    reveal(Seq::filter);
    let all = sorting::arranged(found, order);
    if order.len() > 0 {
        let o = order.drop_last();
        lemma_filter_arranged(found, o, p, q);
        assert(all.drop_last() =~= sorting::arranged(found, o));
        assert(all.last() == found[order.last()]);
        assert(q(order.last()) == p(found[order.last()]));
    }
    assert(all.filter(p) =~= sorting::arranged(found, order.filter(q)));
}

proof fn lemma_filter_ascends(order: Seq<int>, q: spec_fn(int) -> bool)
    requires
        forall|i: int, j: int|
            0 <= i < j < order.len() && q(#[trigger] order[i]) && q(#[trigger] order[j]) ==> order[i] < order[j],
    ensures
        forall|i: int, j: int|
            0 <= i < j < order.filter(q).len() ==> (#[trigger] order.filter(q)[i]) < (#[trigger] order.filter(q)[j]),
        forall|x: int| #[trigger] order.filter(q).contains(x) <==> order.contains(x) && q(x),
    decreases order.len(),
{
    reveal(Seq::filter);
    let out = order.filter(q);
    if order.len() > 0 {
        let o = order.drop_last();
        let some = o.filter(q);
        let n = order.len() - 1;
        assert forall|i: int, j: int|
            0 <= i < j < o.len() && q(#[trigger] o[i]) && q(#[trigger] o[j]) implies o[i] < o[j] by {
            assert(order[i] < order[j]);
        }
        lemma_filter_ascends(o, q);
        assert forall|i: int, j: int| 0 <= i < j < out.len() implies (#[trigger] out[i]) < (#[trigger] out[j]) by {
            assert(out[i] == some[i]);
            if j < some.len() {
                assert(out[j] == some[j]);
            } else {
                assert(some.contains(some[i]));
                let k = choose|k: int| 0 <= k < o.len() && o[k] == some[i];
                assert(q(order[k]) && q(order[n]));
            }
        }
        assert forall|x: int| #[trigger] out.contains(x) <==> order.contains(x) && q(x) by {
            if out.contains(x) {
                let k = choose|k: int| 0 <= k < out.len() && out[k] == x;
                if k < some.len() {
                    assert(some[k] == x);
                    assert(some.contains(x));
                    let i = choose|i: int| 0 <= i < o.len() && o[i] == x;
                    assert(order[i] == x);
                } else {
                    assert(order[n] == x);
                }
            }
            if order.contains(x) && q(x) {
                let k = choose|k: int| 0 <= k < order.len() && order[k] == x;
                if k < n {
                    assert(o[k] == x);
                    assert(o.contains(x));
                    assert(some.contains(x));
                    let i = choose|i: int| 0 <= i < some.len() && some[i] == x;
                    assert(out[i] == x);
                } else {
                    assert(out[some.len() as int] == x);
                }
            }
        }
    }
}

/// Matches at one place stay in the order in which they were found, and none of them is lost,
/// where there is no limit.
pub proof fn law_ties_keep_their_order(
    out: Seq<MatchView>,
    found: Seq<MatchView>,
    path: Seq<char>,
    line_number: u32,
)
    requires
        ordering::selected(out, found, None),
    ensures
        out.filter(|m: MatchView| m.path == path && m.line_number == line_number) == found.filter(
            |m: MatchView| m.path == path && m.line_number == line_number,
        ),
{
    let p = |m: MatchView| m.path == path && m.line_number == line_number;
    let q = |i: int| p(found[i]);
    let places = ordering::match_places(found);
    let order = choose|order: Seq<int>|
        #[trigger] sorting::sorts_places(order, places) && out == sorting::arranged(found, order);
    let same = Seq::new(found.len(), |i: int| i);
    sorting::lemma_order_lists_all(order, places);
    assert(found =~= sorting::arranged(found, same));
    lemma_filter_arranged(found, order, p, q);
    lemma_filter_arranged(found, same, p, q);
    assert forall|i: int, j: int|
        0 <= i < j < order.len() && q(#[trigger] order[i]) && q(#[trigger] order[j]) implies order[i] < order[j] by {
        let a = places[order[i]];
        let b = places[order[j]];
        assert(a == b);
        sorting::law_places_are_ordered(a, b, b);
        assert(sorting::place_before(a, b) || (!sorting::place_before(b, a) && order[i] < order[j]));
    }
    lemma_filter_ascends(order, q);
    lemma_filter_ascends(same, q);
    let x = order.filter(q);
    let y = same.filter(q);
    let before = |a: int, b: int| a < b;
    assert forall|i: int| #[trigger] x.contains(i) <==> y.contains(i) by {
        assert(order.contains(i) <==> 0 <= i < found.len()) by {
            assert(order.to_set().contains(i) <==> 0 <= i < found.len());
        }
        if 0 <= i < found.len() {
            assert(same[i] == i);
        }
        if same.contains(i) {
            let k = choose|k: int| 0 <= k < same.len() && same[k] == i;
        }
    }
    assert forall|i: int, j: int| 0 <= i < j < x.len() implies before(#[trigger] x[i], #[trigger] x[j]) by {}
    assert forall|i: int, j: int| 0 <= i < j < y.len() implies before(#[trigger] y[i], #[trigger] y[j]) by {}
    sorting::lemma_ascending_unique(x, y, before);
}

} // verus!
