//! Searching without an index: every file of a walk is looked at.

use crate::error::SearchError;
use crate::filter;
use crate::filter::{compile_filter, keep_marked, passes};
use crate::matching;
use crate::matching::{compile, split_file};
use crate::pattern;
use crate::scan;
use crate::scan::{collect_matches, mark_lines, push_matches, whole_file, MatchView, SearchMatch};
use crate::text;
use regex::Regex;
use vstd::prelude::*;

verus! {

/// Whether a marked line comes before the first line that cannot be read.
pub open spec fn reaches_hit(lines: Seq<Option<Seq<char>>>, hits: Seq<bool>) -> bool {
    exists|i: int|
        0 <= i < lines.len() && #[trigger] hits[i] && forall|j: int| 0 <= j <= i ==> #[trigger] lines[j] is Some
}

/// The matches of a pattern in a file without an index. Where only file names are
/// wanted, a file is given up at the first line that cannot be read.
pub open spec fn unindexed_matches(
    contents: Option<Seq<u8>>,
    path: Seq<char>,
    source: (Seq<char>, bool),
    files_only: bool,
    before: nat,
    after: nat,
) -> Seq<MatchView> {
    match contents {
        None => Seq::empty(),
        Some(bytes) => {
            let lines = matching::file_lines(bytes);
            let hits = scan::line_hits(source, lines);
            if files_only {
                if reaches_hit(lines, hits) {
                    seq![scan::file_match(path)]
                } else {
                    Seq::empty()
                }
            } else {
                scan::line_matches(lines, hits, path, before, after)
            }
        },
    }
}

/// Whether a marked line comes before the first line that cannot be read.
pub fn hit_before_error(lines: &[Option<String>], hits: &[bool]) -> (r: bool)
    requires
        lines@.len() == hits@.len(),
    ensures
        r == reaches_hit(matching::line_views(lines@), hits@),
{
    let ghost views = matching::line_views(lines@);
    let mut i: usize = 0;
    while i < lines.len()
        invariant
            i <= lines@.len(),
            lines@.len() == hits@.len(),
            views == matching::line_views(lines@),
            forall|j: int| 0 <= j < i ==> #[trigger] views[j] is Some,
            forall|j: int| 0 <= j < i ==> !#[trigger] hits@[j],
        decreases lines@.len() - i,
    {
        match &lines[i] {
            Some(_) => {
                assert(views[i as int] is Some);
            },
            None => {
                assert(views[i as int] is None);
                return false;
            },
        }
        if hits[i] {
            assert(hits@[i as int]);
            return true;
        }
        i += 1;
    }
    false
}

/// Searches the contents of a file.
fn search_unindexed_file(
    contents: Option<&[u8]>,
    rel_path: &str,
    re: &Regex,
    files_only: bool,
    context_before: usize,
    context_after: usize,
) -> (out: Vec<SearchMatch>)
    ensures
        scan::match_views(out@) == unindexed_matches(
            scan::content_view(contents),
            rel_path@,
            matching::made_with(*re),
            files_only,
            context_before as nat,
            context_after as nat,
        ),
{
    match contents {
        None => {
            let none: Vec<SearchMatch> = Vec::new();
            assert(scan::match_views(none@) =~= Seq::<MatchView>::empty());
            none
        },
        Some(bytes) => {
            let lines = split_file(bytes);
            let hits = mark_lines(lines.as_slice(), re);
            if files_only {
                let mut out: Vec<SearchMatch> = Vec::new();
                if hit_before_error(lines.as_slice(), hits.as_slice()) {
                    out.push(whole_file(rel_path));
                    assert(scan::match_views(out@) =~= seq![scan::file_match(rel_path@)]);
                } else {
                    assert(scan::match_views(out@) =~= Seq::<MatchView>::empty());
                }
                out
            } else {
                collect_matches(lines.as_slice(), hits.as_slice(), rel_path, context_before, context_after)
            }
        },
    }
}

/// The matches in files, one file after the other.
pub open spec fn all_unindexed_matches(
    paths: Seq<Seq<char>>,
    contents: Seq<Option<Seq<u8>>>,
    source: (Seq<char>, bool),
    files_only: bool,
    before: nat,
    after: nat,
) -> Seq<MatchView>
    decreases paths.len(),
{
    if paths.len() == 0 || paths.len() != contents.len() {
        Seq::empty()
    } else {
        all_unindexed_matches(paths.drop_last(), contents.drop_last(), source, files_only, before, after)
            + unindexed_matches(contents.last(), paths.last(), source, files_only, before, after)
    }
}

/// Searches files without an index, where `contents` are those of the paths at the
/// same positions.
pub fn search_unindexed(
    paths: &[String],
    contents: &[Option<&[u8]>],
    pattern: &str,
    case_insensitive: bool,
    files_only: bool,
    context_before: usize,
    context_after: usize,
) -> (r: Result<Vec<SearchMatch>, SearchError>)
    requires
        paths@.len() == contents@.len(),
    ensures
        match r {
            Ok(out) => {
                &&& matching::refusal(pattern@, case_insensitive) is None
                &&& pattern::parsed(pattern@) is Ok
                &&& scan::match_views(out@) == all_unindexed_matches(
                    text::texts(paths@),
                    scan::content_views(contents@),
                    (pattern@, case_insensitive),
                    files_only,
                    context_before as nat,
                    context_after as nat,
                )
            },
            Err(e) => {
                &&& e matches SearchError::Pattern(message)
                &&& matching::refusal(pattern@, case_insensitive) == Some(message@)
            },
        },
{
    let re = match compile(pattern, case_insensitive) {
        Ok(re) => re,
        Err(message) => {
            return Err(SearchError::Pattern(message));
        },
    };
    let ghost names = text::texts(paths@);
    let ghost bytes = scan::content_views(contents@);
    let mut out: Vec<SearchMatch> = Vec::new();
    let mut i: usize = 0;
    assert(scan::match_views(out@) =~= Seq::<MatchView>::empty());
    while i < paths.len()
        invariant
            i <= paths@.len(),
            paths@.len() == contents@.len(),
            names == text::texts(paths@),
            bytes == scan::content_views(contents@),
            matching::made_with(re) == (pattern@, case_insensitive),
            scan::match_views(out@) == all_unindexed_matches(
                names.take(i as int),
                bytes.take(i as int),
                (pattern@, case_insensitive),
                files_only,
                context_before as nat,
                context_after as nat,
            ),
        decreases paths@.len() - i,
    {
        proof {
            assert(names.take(i + 1).drop_last() =~= names.take(i as int));
            assert(bytes.take(i + 1).drop_last() =~= bytes.take(i as int));
            assert(names.take(i + 1).last() == paths@[i as int]@);
            assert(bytes.take(i + 1).last() == scan::content_view(contents@[i as int]));
        }
        let found = search_unindexed_file(
            contents[i],
            paths[i].as_str(),
            &re,
            files_only,
            context_before,
            context_after,
        );
        push_matches(&mut out, found);
        i += 1;
    }
    proof {
        assert(names.take(i as int) =~= names);
        assert(bytes.take(i as int) =~= bytes);
    }
    Ok(out)
}

/// The paths that pass a file pattern.
pub open spec fn passing_paths(paths: Seq<Seq<char>>, file_pattern: Option<Seq<char>>) -> Seq<Seq<char>> {
    filter::marked(paths, paths.map_values(|path: Seq<char>| filter::path_passes(file_pattern, path)))
}

/// Keeps the paths that pass a file pattern.
pub fn filter_paths(paths: Vec<String>, file_pattern: Option<&str>) -> (r: Result<Vec<String>, SearchError>)
    ensures
        match r {
            Ok(out) => {
                &&& filter::file_refusal(filter::optional_text(file_pattern)) is None
                &&& text::texts(out@) == passing_paths(text::texts(paths@), filter::optional_text(file_pattern))
            },
            Err(e) => filter::refused_file_pattern(e, filter::optional_text(file_pattern)),
        },
{
    let filter = match compile_filter(file_pattern) {
        Ok(filter) => filter,
        Err(e) => {
            return Err(e);
        },
    };
    let mut hits: Vec<bool> = Vec::new();
    let mut i: usize = 0;
    while i < paths.len()
        invariant
            i <= paths@.len(),
            hits@.len() == i,
            forall|k: int| 0 <= k < i ==> #[trigger] hits@[k] == filter::filter_passes(filter, paths@[k]@),
        decreases paths@.len() - i,
    {
        hits.push(passes(&filter, paths[i].as_str()));
        i += 1;
    }
    let ghost names = text::texts(paths@);
    proof {
        let wanted = filter::optional_text(file_pattern);
        assert(hits@ =~= names.map_values(|path: Seq<char>| filter::path_passes(wanted, path)));
        filter::lemma_marked_map(paths@, hits@, |path: String| path@);
        assert(names =~= paths@.map_values(|path: String| path@));
    }
    let out = keep_marked(paths, hits.as_slice());
    assert(text::texts(out@) =~= filter::marked(names, hits@));
    Ok(out)
}

} // verus!
