//! Searching: from a pattern to the candidate files, and from their lines to the
//! matches.

use crate::candidates;
pub use crate::candidates::{evaluate_plan, intersect_sorted, union_sorted};
use crate::completeness;
pub use crate::error::SearchError;
use crate::filter;
use crate::filter::{compile_filter, keep_marked, passes};
use crate::matching;
use crate::matching::compile;
use crate::ordering;
pub use crate::ordering::select_matches;
use crate::pattern;
use crate::query;
use crate::query::{build_query_plan, QueryPlan};
use crate::scan;
pub use crate::scan::{collect_matches, MatchView, SearchMatch};
use crate::scan::{copy_str, push_matches, search_file};
use crate::storage::{IndexView, MappedIndex};
use crate::text::text_set;
use regex::Regex;
use vstd::prelude::*;

verus! {

/// Search result summary.
#[derive(Debug)]
pub struct SearchResult {
    pub matches: Vec<SearchMatch>,
    pub files_searched: usize,
    pub total_files: usize,
    /// How long the search took, in nanoseconds.
    pub duration: u128,
    /// True if the query plan was a full scan (no narrowing by the index).
    pub full_scan: bool,
    /// True if ripgrep scanned the whole tree.
    pub rg_fullscan: bool,
}

// ---------------------------------------------------------------------------
// Candidate files
// ---------------------------------------------------------------------------

/// Candidates over texts.
pub open spec fn candidate_views(candidates: Seq<(u32, String)>) -> Seq<(u32, Seq<char>)> {
    candidates.map_values(|c: (u32, String)| (c.0, c.1@))
}

/// File IDs with their paths, where they have one.
pub open spec fn resolved(ids: Seq<u32>, files: Seq<Seq<char>>) -> Seq<(u32, Seq<char>)>
    decreases ids.len(),
{
    if ids.len() == 0 {
        Seq::empty()
    } else if ids.last() < files.len() {
        resolved(ids.drop_last(), files).push((ids.last(), files[ids.last() as int]))
    } else {
        resolved(ids.drop_last(), files)
    }
}

/// The candidates whose paths pass a file pattern.
pub open spec fn passing(candidates: Seq<(u32, Seq<char>)>, file_pattern: Option<Seq<char>>) -> Seq<(u32, Seq<char>)> {
    filter::marked(candidates, candidates.map_values(|c: (u32, Seq<char>)| filter::path_passes(file_pattern, c.1)))
}

/// Resolves file IDs to paths.
fn resolve_candidates(ids: &[u32], index: &MappedIndex) -> (out: Vec<(u32, String)>)
    ensures
        candidate_views(out@) == resolved(ids@, index@.files),
{
    let mut out: Vec<(u32, String)> = Vec::new();
    let mut i: usize = 0;
    assert(candidate_views(out@) =~= Seq::<(u32, Seq<char>)>::empty());
    while i < ids.len()
        invariant
            i <= ids@.len(),
            candidate_views(out@) == resolved(ids@.take(i as int), index@.files),
        decreases ids@.len() - i,
    {
        let ghost before = candidate_views(out@);
        assert(ids@.take(i + 1).drop_last() =~= ids@.take(i as int));
        match index.file_path(ids[i]) {
            Some(path) => {
                out.push((ids[i], copy_str(path)));
                assert(candidate_views(out@) =~= before.push((ids@[i as int], path@)));
            },
            None => {},
        }
        i += 1;
    }
    assert(ids@.take(i as int) =~= ids@);
    out
}

/// Marks the candidates whose paths pass a compiled file pattern.
fn mark_candidates(candidates: &Vec<(u32, String)>, filter: &Option<Regex>) -> (hits: Vec<bool>)
    ensures
        hits@.len() == candidates@.len(),
        forall|i: int|
            0 <= i < hits@.len() ==> #[trigger] hits@[i] == filter::filter_passes(*filter, candidates@[i].1@),
{
    let mut hits: Vec<bool> = Vec::new();
    let mut i: usize = 0;
    while i < candidates.len()
        invariant
            i <= candidates@.len(),
            hits@.len() == i,
            forall|k: int|
                0 <= k < i ==> #[trigger] hits@[k] == filter::filter_passes(*filter, candidates@[k].1@),
        decreases candidates@.len() - i,
    {
        hits.push(passes(filter, candidates[i].1.as_str()));
        i += 1;
    }
    hits
}

// ---------------------------------------------------------------------------
// What does the matching
// ---------------------------------------------------------------------------

/// The largest number of candidate files that are handed to ripgrep as arguments.
pub const RG_MAX_CANDIDATES: usize = 10_000;

/// What matches the lines of the candidate files.
#[derive(Debug, Clone, Copy, PartialEq, Eq, Structural)]
pub enum Engine {
    /// ripgrep, on the whole tree.
    RgFullScan,
    /// ripgrep, on the candidate files.
    RgCandidates,
    /// The matcher of this library.
    Native,
}

/// Chooses what does the matching. More candidates than a tenth of all files are
/// left to ripgrep's own walk over the tree; more than it takes as arguments, or
/// none, to the matcher of this library.
pub fn choose_engine(rg_available: bool, candidate_count: usize, total_files: usize) -> (engine: Engine)
    ensures
        engine == (if rg_available && candidate_count > 0 && 10 * candidate_count > total_files {
            Engine::RgFullScan
        } else if rg_available && 0 < candidate_count <= RG_MAX_CANDIDATES {
            Engine::RgCandidates
        } else {
            Engine::Native
        }),
        engine == Engine::Native <==> !rg_available || candidate_count == 0 || (candidate_count > 10_000 && 10
            * candidate_count <= total_files),
        engine == Engine::RgFullScan <==> rg_available && candidate_count > 0 && 10 * candidate_count > total_files,
{
    if rg_available && candidate_count > 0 && candidate_count > total_files / 10 {
        Engine::RgFullScan
    } else if rg_available && candidate_count > 0 && candidate_count <= RG_MAX_CANDIDATES {
        Engine::RgCandidates
    } else {
        Engine::Native
    }
}

/// What is known of a search before any file is read.
pub struct PreparedSearch {
    /// The files to look at, with their IDs.
    pub candidates: Vec<(u32, String)>,
    pub total_files: usize,
    /// True if the index did not narrow the search.
    pub full_scan: bool,
    pub engine: Engine,
}

/// The candidates of a pattern on an index: the files that the plan of its tree
/// gives, whose paths pass the file pattern.
pub open spec fn search_candidates_of(
    tree: pattern::PatternView,
    index: IndexView,
    file_pattern: Option<Seq<char>>,
) -> Seq<(u32, Seq<char>)> {
    passing(resolved(candidates::evaluated(query::tree_plan(tree), index), index.files), file_pattern)
}

/// Prepares a search: builds the plan of the pattern, evaluates it against the
/// index, resolves the candidates, and chooses what does the matching.
pub fn prepare_search(
    index: &MappedIndex,
    pattern: &str,
    case_insensitive: bool,
    file_pattern: Option<&str>,
    rg_available: bool,
) -> (r: Result<PreparedSearch, SearchError>)
    ensures
        match pattern::parsed(pattern@) {
            Err(message) => r is Err && r->Err_0 is Pattern && r->Err_0->Pattern_0@ == message,
            Ok(tree) => match r {
                Err(e) => filter::refused_file_pattern(e, filter::optional_text(file_pattern)),
                Ok(prepared) => {
                    &&& filter::file_refusal(filter::optional_text(file_pattern)) is None
                    &&& candidate_views(prepared.candidates@) == search_candidates_of(
                        tree,
                        index@,
                        filter::optional_text(file_pattern),
                    )
                    &&& prepared.total_files == index@.files.len()
                    &&& prepared.full_scan == (query::tree_plan(tree) is FullScan)
                    &&& prepared.engine == (if rg_available && prepared.candidates@.len() > 0 && 10
                        * prepared.candidates@.len() > index@.files.len() {
                        Engine::RgFullScan
                    } else if rg_available && 0 < prepared.candidates@.len() <= RG_MAX_CANDIDATES {
                        Engine::RgCandidates
                    } else {
                        Engine::Native
                    })
                },
            },
        },
{
    let total_files: usize = index.file_count();
    let plan = match build_query_plan(pattern, case_insensitive) {
        Ok(plan) => plan,
        Err(e) => {
            return Err(SearchError::Pattern(e.message));
        },
    };
    let full_scan: bool = match &plan {
        QueryPlan::FullScan => true,
        _ => false,
    };
    let ids = evaluate_plan(&plan, index);
    let all = resolve_candidates(ids.as_slice(), index);
    let filter = match compile_filter(file_pattern) {
        Ok(filter) => filter,
        Err(e) => {
            return Err(e);
        },
    };
    let hits = mark_candidates(&all, &filter);
    let ghost views = candidate_views(all@);
    proof {
        let wanted = filter::optional_text(file_pattern);
        assert(hits@ =~= views.map_values(|c: (u32, Seq<char>)| filter::path_passes(wanted, c.1)));
        filter::lemma_marked_map(all@, hits@, |c: (u32, String)| (c.0, c.1@));
        assert(views =~= all@.map_values(|c: (u32, String)| (c.0, c.1@)));
    }
    let candidates = keep_marked(all, hits.as_slice());
    assert(candidate_views(candidates@) =~= filter::marked(views, hits@));
    assert(candidate_views(candidates@).len() == candidates@.len());
    let engine = choose_engine(rg_available, candidates.len(), total_files);
    Ok(PreparedSearch { candidates, total_files, full_scan, engine })
}

// ---------------------------------------------------------------------------
// The matches of the candidates
// ---------------------------------------------------------------------------

/// The matches in candidates, one file after the other.
pub open spec fn candidate_matches(
    candidates: Seq<(u32, Seq<char>)>,
    contents: Seq<Option<Seq<u8>>>,
    source: (Seq<char>, bool),
    files_only: bool,
    before: nat,
    after: nat,
) -> Seq<MatchView>
    decreases candidates.len(),
{
    if candidates.len() == 0 || candidates.len() != contents.len() {
        Seq::empty()
    } else {
        candidate_matches(candidates.drop_last(), contents.drop_last(), source, files_only, before, after)
            + scan::file_matches(contents.last(), candidates.last().1, source, files_only, before, after)
    }
}

/// Searches candidates with a compiled pattern.
fn match_candidates(
    candidates: &[(u32, String)],
    contents: &[Option<&[u8]>],
    re: &Regex,
    files_only: bool,
    context_before: usize,
    context_after: usize,
) -> (out: Vec<SearchMatch>)
    requires
        candidates@.len() == contents@.len(),
    ensures
        scan::match_views(out@) == candidate_matches(
            candidate_views(candidates@),
            scan::content_views(contents@),
            matching::made_with(*re),
            files_only,
            context_before as nat,
            context_after as nat,
        ),
{
    let ghost views = candidate_views(candidates@);
    let ghost bytes = scan::content_views(contents@);
    let mut out: Vec<SearchMatch> = Vec::new();
    let mut i: usize = 0;
    assert(scan::match_views(out@) =~= Seq::<MatchView>::empty());
    while i < candidates.len()
        invariant
            i <= candidates@.len(),
            candidates@.len() == contents@.len(),
            views == candidate_views(candidates@),
            bytes == scan::content_views(contents@),
            scan::match_views(out@) == candidate_matches(
                views.take(i as int),
                bytes.take(i as int),
                matching::made_with(*re),
                files_only,
                context_before as nat,
                context_after as nat,
            ),
        decreases candidates@.len() - i,
    {
        proof {
            assert(views.take(i + 1).drop_last() =~= views.take(i as int));
            assert(bytes.take(i + 1).drop_last() =~= bytes.take(i as int));
            assert(views.take(i + 1).last().1 == candidates@[i as int].1@);
            assert(bytes.take(i + 1).last() == scan::content_view(contents@[i as int]));
        }
        let found = search_file(
            contents[i],
            candidates[i].1.as_str(),
            re,
            files_only,
            context_before,
            context_after,
        );
        push_matches(&mut out, found);
        i += 1;
    }
    proof {
        assert(views.take(i as int) =~= views);
        assert(bytes.take(i as int) =~= bytes);
    }
    out
}

/// Searches the contents of candidate files, where `contents` are those of the
/// candidates at the same positions. A pattern that does not compile finds nothing.
pub fn search_candidates(
    candidates: &[(u32, String)],
    contents: &[Option<&[u8]>],
    pattern: &str,
    case_insensitive: bool,
    files_only: bool,
    context_before: usize,
    context_after: usize,
) -> (out: Vec<SearchMatch>)
    requires
        candidates@.len() == contents@.len(),
    ensures
        scan::match_views(out@) == (if matching::refusal(pattern@, case_insensitive) is Some {
            Seq::empty()
        } else {
            candidate_matches(
                candidate_views(candidates@),
                scan::content_views(contents@),
                (pattern@, case_insensitive),
                files_only,
                context_before as nat,
                context_after as nat,
            )
        }),
{
    match compile(pattern, case_insensitive) {
        Ok(re) => match_candidates(candidates, contents, &re, files_only, context_before, context_after),
        Err(_) => {
            let none: Vec<SearchMatch> = Vec::new();
            assert(scan::match_views(none@) =~= Seq::<MatchView>::empty());
            none
        },
    }
}

// ---------------------------------------------------------------------------
// The result
// ---------------------------------------------------------------------------

/// The matches whose paths pass a file pattern.
pub open spec fn passing_matches(matches: Seq<MatchView>, file_pattern: Option<Seq<char>>) -> Seq<MatchView> {
    filter::marked(matches, matches.map_values(|m: MatchView| filter::path_passes(file_pattern, m.path)))
}

/// Keeps the matches whose paths pass a file pattern, as a scan of the whole tree
/// also gives others.
pub fn filter_by_path(matches: Vec<SearchMatch>, file_pattern: Option<&str>) -> (r: Result<Vec<SearchMatch>, SearchError>)
    ensures
        match r {
            Ok(out) => {
                &&& filter::file_refusal(filter::optional_text(file_pattern)) is None
                &&& scan::match_views(out@) == passing_matches(
                    scan::match_views(matches@),
                    filter::optional_text(file_pattern),
                )
            },
            Err(e) => filter::refused_file_pattern(e, filter::optional_text(file_pattern)),
        },
{
    let filter = match compile_filter(file_pattern) {
        Ok(filter) => filter,
        Err(e) => {
            return Err(e);
        },
    };
    let mut hits: Vec<bool> = Vec::new();
    let mut i: usize = 0;
    while i < matches.len()
        invariant
            i <= matches@.len(),
            hits@.len() == i,
            forall|k: int| 0 <= k < i ==> #[trigger] hits@[k] == filter::filter_passes(filter, matches@[k].path@),
        decreases matches@.len() - i,
    {
        hits.push(passes(&filter, matches[i].path.as_str()));
        i += 1;
    }
    let ghost views = scan::match_views(matches@);
    proof {
        let wanted = filter::optional_text(file_pattern);
        assert(hits@ =~= views.map_values(|m: MatchView| filter::path_passes(wanted, m.path)));
        filter::lemma_marked_map(matches@, hits@, |m: SearchMatch| m@);
        assert(views =~= matches@.map_values(|m: SearchMatch| m@));
    }
    let out = keep_marked(matches, hits.as_slice());
    assert(scan::match_views(out@) =~= filter::marked(views, hits@));
    Ok(out)
}

/// The matches in indexed files.
pub open spec fn indexed_matches(matches: Seq<MatchView>, files: Seq<Seq<char>>) -> Seq<MatchView> {
    filter::marked(matches, matches.map_values(|m: MatchView| files.contains(m.path)))
}

/// Keeps the matches in files that are indexed, as a scan of the whole tree also looks
/// at files that are ignored or were skipped.
pub fn keep_indexed(matches: Vec<SearchMatch>, index: &MappedIndex) -> (out: Vec<SearchMatch>)
    ensures
        scan::match_views(out@) == indexed_matches(scan::match_views(matches@), index@.files),
{
    let known = text_set(index.file_list());
    let mut hits: Vec<bool> = Vec::new();
    let mut i: usize = 0;
    while i < matches.len()
        invariant
            i <= matches@.len(),
            forall|t: Seq<char>| #[trigger] known@.contains(t) <==> index@.files.contains(t),
            hits@.len() == i,
            forall|k: int| 0 <= k < i ==> #[trigger] hits@[k] == index@.files.contains(matches@[k].path@),
        decreases matches@.len() - i,
    {
        hits.push(known.contains(matches[i].path.as_str()));
        i += 1;
    }
    let ghost views = scan::match_views(matches@);
    proof {
        assert(hits@ =~= views.map_values(|m: MatchView| index@.files.contains(m.path)));
        filter::lemma_marked_map(matches@, hits@, |m: SearchMatch| m@);
        assert(views =~= matches@.map_values(|m: SearchMatch| m@));
    }
    let out = keep_marked(matches, hits.as_slice());
    assert(scan::match_views(out@) =~= filter::marked(views, hits@));
    out
}

/// Puts the result of a search together from what was prepared and what was found.
pub fn finish_search(
    prepared: &PreparedSearch,
    found: Vec<SearchMatch>,
    max_count: Option<usize>,
    duration: u128,
) -> (result: SearchResult)
    ensures
        ordering::selected(scan::match_views(result.matches@), scan::match_views(found@), max_count),
        result.files_searched == prepared.candidates@.len(),
        result.total_files == prepared.total_files,
        result.duration == duration,
        result.full_scan == prepared.full_scan,
        result.rg_fullscan == (prepared.engine == Engine::RgFullScan),
{
    SearchResult {
        matches: select_matches(found, max_count),
        files_searched: prepared.candidates.len(),
        total_files: prepared.total_files,
        duration,
        full_scan: prepared.full_scan,
        rg_fullscan: prepared.engine == Engine::RgFullScan,
    }
}

/// Searches the files of an index with the matcher of this library. `contents` are
/// those of the indexed files, by their IDs, as far as they could be read. A pattern
/// that parses and does not compile finds nothing.
pub fn search(
    index: &MappedIndex,
    contents: &[Option<&[u8]>],
    pattern: &str,
    case_insensitive: bool,
    file_pattern: Option<&str>,
    files_only: bool,
    context_before: usize,
    context_after: usize,
    max_count: Option<usize>,
    duration: u128,
) -> (r: Result<SearchResult, SearchError>)
    requires
        contents@.len() == index@.files.len(),
    ensures
        match pattern::parsed(pattern@) {
            Err(message) => r is Err && r->Err_0 is Pattern && r->Err_0->Pattern_0@ == message,
            Ok(tree) => match r {
                Err(e) => filter::refused_file_pattern(e, filter::optional_text(file_pattern)),
                Ok(result) => {
                    let source = (pattern@, case_insensitive);
                    let filter = filter::optional_text(file_pattern);
                    let bytes = scan::content_views(contents@);
                    let cands = search_candidates_of(tree, index@, filter);
                    let before = context_before as nat;
                    let after = context_after as nat;
                    let found = scan::match_views(result.matches@);
                    &&& filter::file_refusal(filter) is None
                    &&& matching::refusal(pattern@, case_insensitive) is Some ==> found == Seq::<MatchView>::empty()
                    &&& matching::refusal(pattern@, case_insensitive) is None ==> ordering::selected(
                        found,
                        candidate_matches(cands, completeness::picked(cands, bytes), source, files_only, before, after),
                        max_count,
                    )
                    &&& result.files_searched == cands.len()
                    &&& result.total_files == index@.files.len()
                    &&& result.duration == duration
                    &&& result.full_scan == (query::tree_plan(tree) is FullScan)
                    &&& !result.rg_fullscan
                    &&& forall|sets: Seq<Set<u64>>, id: int|
                        #![trigger completeness::hashes_of_contents(sets, bytes), bytes[id]]
                        matching::refusal(pattern@, case_insensitive) is None && candidates::faithful(index@, sets)
                            && completeness::hashes_of_contents(sets, bytes) && 0 <= id < bytes.len()
                            && completeness::file_covered(source, tree, bytes[id]) && filter::path_passes(
                            filter,
                            index@.files[id],
                        ) ==> ordering::keeps_all(
                            found,
                            scan::file_matches(bytes[id], index@.files[id], source, files_only, before, after),
                            max_count,
                        )
                    &&& forall|sets: Seq<Set<u64>>|
                        matching::refusal(pattern@, case_insensitive) is None && candidates::faithful(index@, sets)
                            && #[trigger] completeness::hashes_of_contents(sets, bytes) && completeness::covers(
                            source,
                            tree,
                            bytes,
                        ) ==> ordering::selected(
                            found,
                            completeness::scan_matches(
                                index@.files,
                                bytes,
                                source,
                                filter,
                                files_only,
                                before,
                                after,
                                index@.files.len(),
                            ),
                            max_count,
                        )
                },
            },
        },
{
    let prepared = match prepare_search(index, pattern, case_insensitive, file_pattern, false) {
        Ok(prepared) => prepared,
        Err(e) => {
            return Err(e);
        },
    };
    let ghost tree = pattern::parsed(pattern@)->Ok_0;
    let ghost filter = filter::optional_text(file_pattern);
    let ghost bytes = scan::content_views(contents@);
    let ghost cands = search_candidates_of(tree, index@, filter);
    let ghost source = (pattern@, case_insensitive);
    proof {
        completeness::lemma_candidate_ids(candidates::evaluated(query::tree_plan(tree), index@), index@.files, filter);
        assert(candidate_views(prepared.candidates@).len() == prepared.candidates@.len());
    }
    let mut chosen: Vec<Option<&[u8]>> = Vec::new();
    let mut i: usize = 0;
    while i < prepared.candidates.len()
        invariant
            i <= prepared.candidates@.len(),
            bytes == scan::content_views(contents@),
            cands == candidate_views(prepared.candidates@),
            contents@.len() == index@.files.len(),
            forall|k: int| 0 <= k < cands.len() ==> (#[trigger] cands[k]).0 < index@.files.len(),
            chosen@.len() == i,
            forall|k: int| 0 <= k < i ==> scan::content_view(#[trigger] chosen@[k]) == completeness::picked(cands, bytes)[k],
        decreases prepared.candidates@.len() - i,
    {
        let id: u32 = prepared.candidates[i].0;
        assert(cands[i as int].0 == id);
        chosen.push(contents[id as usize]);
        i += 1;
    }
    assert(scan::content_views(chosen@) =~= completeness::picked(cands, bytes));
    let found = match compile(pattern, case_insensitive) {
        Ok(re) => {
            proof {
                assert forall|sets: Seq<Set<u64>>|
                    candidates::faithful(index@, sets) && #[trigger] completeness::hashes_of_contents(sets, bytes)
                        && completeness::covers(source, tree, bytes) implies candidate_matches(
                    cands,
                    completeness::picked(cands, bytes),
                    source,
                    files_only,
                    context_before as nat,
                    context_after as nat,
                ) == completeness::scan_matches(
                    index@.files,
                    bytes,
                    source,
                    filter,
                    files_only,
                    context_before as nat,
                    context_after as nat,
                    index@.files.len(),
                ) by {
                    completeness::law_narrowing_misses_nothing(
                        tree,
                        index@,
                        sets,
                        bytes,
                        source,
                        filter,
                        files_only,
                        context_before as nat,
                        context_after as nat,
                    );
                }
            }
            match_candidates(
                prepared.candidates.as_slice(),
                chosen.as_slice(),
                &re,
                files_only,
                context_before,
                context_after,
            )
        },
        Err(_) => {
            let none: Vec<SearchMatch> = Vec::new();
            assert(scan::match_views(none@) =~= Seq::<MatchView>::empty());
            none
        },
    };
    let result = finish_search(&prepared, found, max_count, duration);
    proof {
        let given = scan::match_views(result.matches@);
        let all = scan::match_views(found@);
        assert forall|sets: Seq<Set<u64>>, id: int|
            #![trigger completeness::hashes_of_contents(sets, bytes), bytes[id]]
            matching::refusal(pattern@, case_insensitive) is None && candidates::faithful(index@, sets)
                && completeness::hashes_of_contents(sets, bytes) && 0 <= id < bytes.len() && completeness::file_covered(
                source,
                tree,
                bytes[id],
            ) && filter::path_passes(filter, index@.files[id]) implies ordering::keeps_all(
            given,
            scan::file_matches(
                bytes[id],
                index@.files[id],
                source,
                files_only,
                context_before as nat,
                context_after as nat,
            ),
            max_count,
        ) by {
            completeness::law_covered_file_keeps_its_matches(
                tree,
                index@,
                sets,
                bytes,
                source,
                filter,
                files_only,
                context_before as nat,
                context_after as nat,
                id,
            );
            ordering::law_selection_keeps_all(
                given,
                all,
                scan::file_matches(
                    bytes[id],
                    index@.files[id],
                    source,
                    files_only,
                    context_before as nat,
                    context_after as nat,
                ),
                max_count,
            );
        }
    }
    Ok(result)
}

} // verus!
