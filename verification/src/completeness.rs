//! Narrowing by the index misses nothing: what a search over the candidates finds is
//! what a scan of all files finds.

use crate::candidates;
use crate::filter;
use crate::matching;
use crate::narrowing;
use crate::ngram;
use crate::pattern;
use crate::query;
use crate::scan;
use crate::scan::MatchView;
use crate::search;
use crate::storage::IndexView;
use vstd::prelude::*;
use vstd::utf8::*;

verus! {

/// The matches in the first `n` files whose paths pass a file pattern, one file
/// after the other.
pub open spec fn scan_matches(
    files: Seq<Seq<char>>,
    contents: Seq<Option<Seq<u8>>>,
    source: (Seq<char>, bool),
    file_pattern: Option<Seq<char>>,
    files_only: bool,
    before: nat,
    after: nat,
    n: nat,
) -> Seq<MatchView>
    decreases n,
{
    if n == 0 {
        Seq::empty()
    } else {
        let earlier = scan_matches(
            files,
            contents,
            source,
            file_pattern,
            files_only,
            before,
            after,
            (n - 1) as nat,
        );
        if filter::path_passes(file_pattern, files[n - 1]) {
            earlier + scan::file_matches(contents[n - 1], files[n - 1], source, files_only, before, after)
        } else {
            earlier
        }
    }
}

/// The contents of candidates, picked by their file IDs.
pub open spec fn picked(candidates: Seq<(u32, Seq<char>)>, contents: Seq<Option<Seq<u8>>>) -> Seq<Option<Seq<u8>>> {
    candidates.map_values(|c: (u32, Seq<char>)| contents[c.0 as int])
}

/// Whether trigram hashes are those of the contents of files, as far as they could
/// be read.
pub open spec fn hashes_of_contents(sets: Seq<Set<u64>>, contents: Seq<Option<Seq<u8>>>) -> bool {
    &&& sets.len() == contents.len()
    &&& forall|i: int|
        0 <= i < contents.len() ==> ((#[trigger] contents[i]) matches Some(bytes) ==> sets[i]
            == ngram::content_hashes(bytes))
}

/// Whether the index takes two characters of a file for the same wherever a pattern
/// does: case is regarded, or the classes of the pattern fold alike, its literals have no
/// case beyond ASCII, and the file holds no Kelvin sign and no long s that they could
/// match.
pub open spec fn file_covered(
    source: (Seq<char>, bool),
    tree: pattern::PatternView,
    contents: Option<Seq<u8>>,
) -> bool {
    source.1 ==> {
        &&& matching::folds_alike(source.0)
        &&& narrowing::foldable_literals(tree)
        &&& contents matches Some(bytes) ==> narrowing::folds_plainly(tree, bytes)
    }
}

/// Whether that is so in all files.
pub open spec fn covers(source: (Seq<char>, bool), tree: pattern::PatternView, contents: Seq<Option<Seq<u8>>>) -> bool {
    &&& source.1 ==> matching::folds_alike(source.0)
    &&& forall|i: int| 0 <= i < contents.len() ==> file_covered(source, tree, #[trigger] contents[i])
}

/// Whether matches hold all that are in a file.
pub open spec fn holds_all(matches: Seq<MatchView>, in_file: Seq<MatchView>) -> bool {
    forall|m: MatchView| #[trigger] in_file.contains(m) ==> matches.contains(m)
}

proof fn lemma_marked_some(
    lines: Seq<Option<Seq<char>>>,
    hits: Seq<bool>,
    path: Seq<char>,
    before: nat,
    after: nat,
    n: nat,
)
    requires
        scan::marked_lines(lines, hits, path, before, after, n).len() > 0,
    ensures
        exists|i: int| 0 <= i < n && lines[i] is Some && #[trigger] hits[i],
    decreases n,
{
    if n > 0 {
        if lines[n - 1] is Some && hits[n - 1] {
        } else {
            lemma_marked_some(lines, hits, path, before, after, (n - 1) as nat);
            let i = choose|i: int| 0 <= i < n - 1 && lines[i] is Some && #[trigger] hits[i];
            assert(0 <= i < n && hits[i]);
        }
    }
}

/// A file with a match has a line that the pattern matches in.
proof fn lemma_file_match_has_line(
    bytes: Seq<u8>,
    path: Seq<char>,
    source: (Seq<char>, bool),
    files_only: bool,
    before: nat,
    after: nat,
)
    requires
        scan::file_matches(Some(bytes), path, source, files_only, before, after).len() > 0,
    ensures
        exists|i: int|
            0 <= i < matching::file_lines(bytes).len() && ((#[trigger] matching::file_lines(bytes)[i]) matches Some(t)
                && matching::matches(source, t)),
{
    let lines = matching::file_lines(bytes);
    let hits = scan::line_hits(source, lines);
    if files_only || (before == 0 && after == 0) {
        lemma_marked_some(lines, hits, path, 0, 0, lines.len());
        let i = choose|i: int| 0 <= i < lines.len() && lines[i] is Some && #[trigger] hits[i];
        assert(lines[i] is Some);
    } else {
        let left = scan::readable(lines);
        let marks = scan::readable_hits(lines, hits);
        scan::lemma_readable(lines, hits);
        lemma_marked_some(left, marks, path, before, after, left.len());
        let k = choose|k: int| 0 <= k < left.len() && left[k] is Some && #[trigger] marks[k];
        assert(scan::has_mark(lines, hits, left[k], marks[k]));
        let i = choose|i: int| 0 <= i < lines.len() && #[trigger] lines[i] == left[k] && hits[i] == marks[k];
        assert(lines[i] is Some && hits[i]);
    }
}

/// A file in which a pattern matches passes the pattern's plan.
pub proof fn law_matching_file_passes_plan(
    tree: pattern::PatternView,
    source: (Seq<char>, bool),
    bytes: Seq<u8>,
    line: Seq<char>,
)
    requires
        matching::explained(tree, source.0, source.1, line),
        matching::matches(source, line),
        narrowing::occurs(bytes, encode_utf8(line)),
        source.1 ==> narrowing::foldable_literals(tree) && narrowing::folds_plainly(tree, bytes),
    ensures
        narrowing::plan_holds(query::tree_plan(tree), ngram::content_hashes(bytes)),
{
    let spans = matching::match_spans(source.0, source.1, line);
    let (start, end) = spans[0];
    let whole = encode_utf8(line);
    let s = whole.subrange(start as int, end as int);
    let a = choose|a: int| narrowing::occurs_at(bytes, whole, a);
    let low = ngram::lower(bytes);
    assert(bytes.subrange(a + start, a + end) =~= bytes.subrange(a, a + whole.len()).subrange(
        start as int,
        end as int,
    ));
    assert(s =~= bytes.subrange(a + start, a + end));
    assert(low.subrange(a + start, a + start + ngram::lower(s).len()) =~= ngram::lower(s));
    assert(narrowing::occurs_at(low, ngram::lower(s), a + start));
    assert(matching::match_explained(tree, source.1, s));
    if source.1 {
        narrowing::lemma_stretch_folds_plainly(tree, bytes, a + start, a + end);
        narrowing::law_plan_keeps_folded_matches(tree, s, bytes);
    } else {
        narrowing::law_plan_keeps_matches(tree, s, bytes);
    }
}

/// A file that is no candidate holds no match.
proof fn lemma_no_candidate_no_match(
    tree: pattern::PatternView,
    index: IndexView,
    sets: Seq<Set<u64>>,
    contents: Seq<Option<Seq<u8>>>,
    source: (Seq<char>, bool),
    files_only: bool,
    before: nat,
    after: nat,
    id: int,
)
    requires
        candidates::faithful(index, sets),
        hashes_of_contents(sets, contents),
        forall|t: Seq<char>| #[trigger] matching::explained(tree, source.0, source.1, t),
        0 <= id < contents.len(),
        file_covered(source, tree, contents[id]),
        !candidates::evaluated(query::tree_plan(tree), index).contains(id as u32),
    ensures
        scan::file_matches(contents[id], index.files[id], source, files_only, before, after) == Seq::<MatchView>::empty(),
{
    let found = scan::file_matches(contents[id], index.files[id], source, files_only, before, after);
    let plan = query::tree_plan(tree);
    narrowing::law_simplified_is_normal(query::literals_plan(query::literals(tree)));
    candidates::law_candidates_pass_the_plan(plan, index, sets);
    if found.len() > 0 {
        let bytes = contents[id]->0;
        lemma_file_match_has_line(bytes, index.files[id], source, files_only, before, after);
        let lines = matching::file_lines(bytes);
        let i = choose|i: int|
            0 <= i < lines.len() && ((#[trigger] lines[i]) matches Some(t) && matching::matches(source, t));
        let line = lines[i]->0;
        matching::law_lines_occur(bytes, i);
        assert(matching::explained(tree, source.0, source.1, line));
        law_matching_file_passes_plan(tree, source, bytes, line);
        assert(candidates::evaluated(plan, index).contains(id as u32));
    }
    assert(found =~= Seq::<MatchView>::empty());
}

/// The candidates of the first file IDs of a list.
spec fn candidates_of_ids(ids: Seq<u32>, files: Seq<Seq<char>>, file_pattern: Option<Seq<char>>) -> Seq<
    (u32, Seq<char>),
> {
    search::passing(search::resolved(ids, files), file_pattern)
}

proof fn lemma_push_candidate(ids: Seq<u32>, id: u32, files: Seq<Seq<char>>, file_pattern: Option<Seq<char>>)
    requires
        id < files.len(),
    ensures
        candidates_of_ids(ids.push(id), files, file_pattern) == (if filter::path_passes(file_pattern, files[id as int]) {
            candidates_of_ids(ids, files, file_pattern).push((id, files[id as int]))
        } else {
            candidates_of_ids(ids, files, file_pattern)
        }),
{
    assert(ids.push(id).drop_last() =~= ids);
    let all = search::resolved(ids, files);
    let more = search::resolved(ids.push(id), files);
    let pass = |c: (u32, Seq<char>)| filter::path_passes(file_pattern, c.1);
    assert(more == all.push((id, files[id as int])));
    assert(more.drop_last() =~= all);
    assert(more.map_values(pass).drop_last() =~= all.map_values(pass));
}

/// Looking at the candidates only finds what looking at every file finds.
proof fn lemma_scan_prefix(
    tree: pattern::PatternView,
    index: IndexView,
    sets: Seq<Set<u64>>,
    contents: Seq<Option<Seq<u8>>>,
    source: (Seq<char>, bool),
    file_pattern: Option<Seq<char>>,
    files_only: bool,
    before: nat,
    after: nat,
    n: nat,
    k: nat,
)
    requires
        candidates::faithful(index, sets),
        hashes_of_contents(sets, contents),
        forall|t: Seq<char>| #[trigger] matching::explained(tree, source.0, source.1, t),
        covers(source, tree, contents),
        n <= index.files.len(),
        k <= candidates::evaluated(query::tree_plan(tree), index).len(),
        forall|j: int| 0 <= j < k ==> candidates::evaluated(query::tree_plan(tree), index)[j] < n,
        forall|j: int|
            k <= j < candidates::evaluated(query::tree_plan(tree), index).len() ==> candidates::evaluated(
                query::tree_plan(tree),
                index,
            )[j] >= n,
    ensures
        ({
            let ids = candidates::evaluated(query::tree_plan(tree), index).take(k as int);
            let cands = candidates_of_ids(ids, index.files, file_pattern);
            search::candidate_matches(cands, picked(cands, contents), source, files_only, before, after) == scan_matches(
                index.files,
                contents,
                source,
                file_pattern,
                files_only,
                before,
                after,
                n,
            )
        }),
    decreases n,
{
    let all = candidates::evaluated(query::tree_plan(tree), index);
    let ids = all.take(k as int);
    let cands = candidates_of_ids(ids, index.files, file_pattern);
    narrowing::law_simplified_is_normal(query::literals_plan(query::literals(tree)));
    candidates::law_candidates_pass_the_plan(query::tree_plan(tree), index, sets);
    if n == 0 {
        if k > 0 {
            assert(all[0] < 0);
        }
        assert(ids =~= Seq::<u32>::empty());
        assert(cands =~= Seq::<(u32, Seq<char>)>::empty());
    } else {
        let m = (n - 1) as nat;
        if k > 0 && all[k - 1] == m {
            let id = m as u32;
            let k0 = (k - 1) as nat;
            assert forall|j: int| 0 <= j < k0 implies all[j] < m by {
                assert(all[j] < all[k - 1]);
            }
            lemma_scan_prefix(
                tree,
                index,
                sets,
                contents,
                source,
                file_pattern,
                files_only,
                before,
                after,
                m,
                k0,
            );
            let ids0 = all.take(k0 as int);
            assert(ids =~= ids0.push(id));
            lemma_push_candidate(ids0, id, index.files, file_pattern);
            let cands0 = candidates_of_ids(ids0, index.files, file_pattern);
            if filter::path_passes(file_pattern, index.files[m as int]) {
                assert(cands.drop_last() =~= cands0);
                assert(picked(cands, contents).drop_last() =~= picked(cands0, contents));
                assert(picked(cands, contents).last() == contents[m as int]);
                assert(cands.last().1 == index.files[m as int]);
            }
        } else {
            assert forall|j: int| 0 <= j < k implies all[j] < m by {
                if all[j] == m {
                    assert(j < k - 1);
                    assert(all[j] < all[k - 1]);
                }
            }
            lemma_scan_prefix(
                tree,
                index,
                sets,
                contents,
                source,
                file_pattern,
                files_only,
                before,
                after,
                m,
                k,
            );
            assert(!all.contains(m as u32)) by {
                if all.contains(m as u32) {
                    let j = choose|j: int| 0 <= j < all.len() && all[j] == m as u32;
                    if j < k {
                        assert(all[j] < m);
                    } else {
                        assert(all[j] >= n);
                    }
                }
            }
            lemma_no_candidate_no_match(
                tree,
                index,
                sets,
                contents,
                source,
                files_only,
                before,
                after,
                m as int,
            );
            assert(scan_matches(index.files, contents, source, file_pattern, files_only, before, after, m)
                + Seq::<MatchView>::empty() =~= scan_matches(
                index.files,
                contents,
                source,
                file_pattern,
                files_only,
                before,
                after,
                m,
            ));
        }
    }
}

/// The matches in a candidate are among those in all candidates.
proof fn lemma_candidate_keeps_matches(
    cands: Seq<(u32, Seq<char>)>,
    contents: Seq<Option<Seq<u8>>>,
    source: (Seq<char>, bool),
    files_only: bool,
    before: nat,
    after: nat,
    k: int,
)
    requires
        cands.len() == contents.len(),
        0 <= k < cands.len(),
    ensures
        holds_all(
            search::candidate_matches(cands, contents, source, files_only, before, after),
            scan::file_matches(contents[k], cands[k].1, source, files_only, before, after),
        ),
    decreases cands.len(),
{
    let all = search::candidate_matches(cands, contents, source, files_only, before, after);
    let some = scan::file_matches(contents[k], cands[k].1, source, files_only, before, after);
    let c = cands.drop_last();
    let d = contents.drop_last();
    let earlier = search::candidate_matches(c, d, source, files_only, before, after);
    if k < c.len() {
        lemma_candidate_keeps_matches(c, d, source, files_only, before, after, k);
    }
    assert forall|m: MatchView| #[trigger] some.contains(m) implies all.contains(m) by {
        if k < c.len() {
            assert(c[k] == cands[k] && d[k] == contents[k]);
            assert(earlier.contains(m));
            let j = choose|j: int| 0 <= j < earlier.len() && earlier[j] == m;
            assert(all[j] == m);
        } else {
            let j = choose|j: int| 0 <= j < some.len() && some[j] == m;
            assert(all[earlier.len() + j] == m);
        }
    }
}

/// A listed file whose path passes the file pattern is among the candidates.
proof fn lemma_listed_is_candidate(ids: Seq<u32>, files: Seq<Seq<char>>, file_pattern: Option<Seq<char>>, id: u32)
    requires
        ids.contains(id),
        id < files.len(),
        filter::path_passes(file_pattern, files[id as int]),
    ensures
        candidates_of_ids(ids, files, file_pattern).contains((id, files[id as int])),
    decreases ids.len(),
{
    let cands = candidates_of_ids(ids, files, file_pattern);
    let before = ids.drop_last();
    let earlier = candidates_of_ids(before, files, file_pattern);
    assert(before.push(ids.last()) =~= ids);
    if ids.last() < files.len() {
        lemma_push_candidate(before, ids.last(), files, file_pattern);
    }
    if ids.last() == id {
        assert(cands[earlier.len() as int] == (id, files[id as int]));
    } else {
        let k = choose|k: int| 0 <= k < ids.len() && ids[k] == id;
        assert(before[k] == id);
        lemma_listed_is_candidate(before, files, file_pattern, id);
        let j = choose|j: int| 0 <= j < earlier.len() && earlier[j] == (id, files[id as int]);
        assert(cands[j] == (id, files[id as int]));
    }
}

/// On an index that knows which file holds which trigram, looking at the candidates of a
/// pattern finds all matches in a file whose path passes the file pattern, whatever the
/// other files hold. Where case is ignored, the file is one in which the index takes two
/// characters for the same wherever the pattern does.
pub proof fn law_covered_file_keeps_its_matches(
    tree: pattern::PatternView,
    index: IndexView,
    sets: Seq<Set<u64>>,
    contents: Seq<Option<Seq<u8>>>,
    source: (Seq<char>, bool),
    file_pattern: Option<Seq<char>>,
    files_only: bool,
    before: nat,
    after: nat,
    id: int,
)
    requires
        candidates::faithful(index, sets),
        hashes_of_contents(sets, contents),
        forall|t: Seq<char>| #[trigger] matching::explained(tree, source.0, source.1, t),
        0 <= id < contents.len(),
        file_covered(source, tree, contents[id]),
        filter::path_passes(file_pattern, index.files[id]),
    ensures
        ({
            let cands = search::search_candidates_of(tree, index, file_pattern);
            holds_all(
                search::candidate_matches(cands, picked(cands, contents), source, files_only, before, after),
                scan::file_matches(contents[id], index.files[id], source, files_only, before, after),
            )
        }),
{
    let all = candidates::evaluated(query::tree_plan(tree), index);
    let cands = search::search_candidates_of(tree, index, file_pattern);
    if all.contains(id as u32) {
        lemma_listed_is_candidate(all, index.files, file_pattern, id as u32);
        let k = choose|k: int| 0 <= k < cands.len() && cands[k] == (id as u32, index.files[id]);
        lemma_candidate_keeps_matches(cands, picked(cands, contents), source, files_only, before, after, k);
    } else {
        lemma_no_candidate_no_match(tree, index, sets, contents, source, files_only, before, after, id);
    }
}

/// On an index that knows which file holds which trigram, looking at the candidates
/// of a pattern finds exactly what looking at every file finds, in the same order.
///
/// Where case is ignored, the classes of the pattern fold alike, its literals have no
/// case beyond ASCII, and no Kelvin sign and no long s stands in the files where the
/// pattern has a `k` or an `s`.
pub proof fn law_narrowing_misses_nothing(
    tree: pattern::PatternView,
    index: IndexView,
    sets: Seq<Set<u64>>,
    contents: Seq<Option<Seq<u8>>>,
    source: (Seq<char>, bool),
    file_pattern: Option<Seq<char>>,
    files_only: bool,
    before: nat,
    after: nat,
)
    requires
        candidates::faithful(index, sets),
        hashes_of_contents(sets, contents),
        forall|t: Seq<char>| #[trigger] matching::explained(tree, source.0, source.1, t),
        covers(source, tree, contents),
    ensures
        ({
            let cands = search::search_candidates_of(tree, index, file_pattern);
            search::candidate_matches(cands, picked(cands, contents), source, files_only, before, after) == scan_matches(
                index.files,
                contents,
                source,
                file_pattern,
                files_only,
                before,
                after,
                index.files.len(),
            )
        }),
{
    let all = candidates::evaluated(query::tree_plan(tree), index);
    narrowing::law_simplified_is_normal(query::literals_plan(query::literals(tree)));
    candidates::law_candidates_pass_the_plan(query::tree_plan(tree), index, sets);
    assert forall|j: int| 0 <= j < all.len() implies all[j] < index.files.len() by {
        assert(all.contains(all[j]));
    }
    lemma_scan_prefix(
        tree,
        index,
        sets,
        contents,
        source,
        file_pattern,
        files_only,
        before,
        after,
        index.files.len(),
        all.len(),
    );
    assert(all.take(all.len() as int) =~= all);
}

/// Resolved IDs are IDs of files.
pub(crate) proof fn lemma_candidate_ids(ids: Seq<u32>, files: Seq<Seq<char>>, file_pattern: Option<Seq<char>>)
    ensures
        forall|k: int|
            0 <= k < search::passing(search::resolved(ids, files), file_pattern).len() ==> (#[trigger] search::passing(
                search::resolved(ids, files),
                file_pattern,
            )[k]).0 < files.len(),
    decreases ids.len(),
{
    let cands = candidates_of_ids(ids, files, file_pattern);
    if ids.len() > 0 {
        let before = ids.drop_last();
        let earlier = candidates_of_ids(before, files, file_pattern);
        lemma_candidate_ids(before, files, file_pattern);
        if ids.last() < files.len() {
            lemma_push_candidate(before, ids.last(), files, file_pattern);
            assert(before.push(ids.last()) =~= ids);
            assert forall|k: int| 0 <= k < cands.len() implies (#[trigger] cands[k]).0 < files.len() by {
                if k < earlier.len() {
                    assert(cands[k] == earlier[k]);
                }
            }
        }
    }
}

} // verus!
