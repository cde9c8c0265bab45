//! What the commands of the program decide, and what they say.

use crate::freshness::FreshnessReport;
use crate::metadata::MetaStats;
use crate::report;
use crate::report::{change_count, count_unique_files};
use crate::scan;
use crate::scan::SearchMatch;
use crate::search::SearchResult;
use crate::text;
use crate::text::push_decimal;
use vstd::prelude::*;

verus! {

// ---------------------------------------------------------------------------
// Decisions
// ---------------------------------------------------------------------------

/// How many lines of context to show on one side of a match: as many as were asked
/// for that side, else as many as were asked for both.
pub fn context_size(side: Option<usize>, both: usize) -> (n: usize)
    ensures
        n == (match side {
            Some(k) => k,
            None => both,
        }),
{
    match side {
        Some(k) => k,
        None => both,
    }
}

/// Whether matches are printed in color.
pub fn uses_color(no_color: bool, json: bool, terminal: bool) -> (r: bool)
    ensures
        r == (terminal && !no_color && !json),
{
    !no_color && !json && terminal
}

/// What indexing does first.
#[derive(Debug, Clone, Copy, PartialEq, Eq, Structural)]
pub enum IndexStep {
    /// Show the statistics of the index that is there.
    ShowStats,
    /// Tell that there is no index to show the statistics of.
    NoIndex,
    /// Bring the index that is there up to date.
    Update,
    /// Build the index anew, after removing the one that is there if need be.
    Rebuild { remove: bool },
}

/// Chooses what indexing does first. An index is updated where it is there with its
/// file metadata and a rebuild is not forced.
pub fn first_index_step(stats: bool, force: bool, has_index: bool, has_filemeta: bool) -> (step: IndexStep)
    ensures
        stats ==> step == (if has_index {
            IndexStep::ShowStats
        } else {
            IndexStep::NoIndex
        }),
        !stats ==> (step == IndexStep::Update <==> has_index && has_filemeta && !force),
        !stats && step != IndexStep::Update ==> step == (IndexStep::Rebuild { remove: force && has_index }),
{
    if stats {
        if has_index {
            IndexStep::ShowStats
        } else {
            IndexStep::NoIndex
        }
    } else if !force && has_index && has_filemeta {
        IndexStep::Update
    } else {
        IndexStep::Rebuild { remove: force && has_index }
    }
}

/// Whether a search first brings the index up to date: where its metadata tells of
/// changes. Without a report it is used as it is.
pub fn needs_update(report: Option<&FreshnessReport>) -> (r: bool)
    ensures
        r == (report is Some && !report->0.is_fresh),
{
    match report {
        Some(report) => !report.is_fresh,
        None => false,
    }
}

// ---------------------------------------------------------------------------
// Messages
// ---------------------------------------------------------------------------

/// The statistics of an index, whose files take `size` on disk.
pub open spec fn stats_text(files: nat, ngrams: nat, duration_ms: nat, size: Seq<char>) -> Seq<char> {
    "Index statistics:\n  files:    "@ + text::decimal(files) + "\n  n-grams:  "@ + text::decimal(ngrams)
        + "\n  built in: "@ + text::decimal(duration_ms) + "ms\n  size:     "@ + size + "\n"@
}

/// Tells the statistics of an index, whose files take `size` on disk.
pub fn describe_stats(stats: MetaStats, size: &str) -> (out: String)
    ensures
        out@ == stats_text(stats.file_count as nat, stats.ngram_count as nat, stats.duration_ms as nat, size@),
{
    let mut out = String::new();
    out.append("Index statistics:\n  files:    ");
    push_decimal(&mut out, stats.file_count as u128);
    out.append("\n  n-grams:  ");
    push_decimal(&mut out, stats.ngram_count as u128);
    out.append("\n  built in: ");
    push_decimal(&mut out, stats.duration_ms as u128);
    out.append("ms\n  size:     ");
    out.append(size);
    out.append("\n");
    assert(out@ =~= stats_text(
        stats.file_count as nat,
        stats.ngram_count as nat,
        stats.duration_ms as nat,
        size@,
    ));
    out
}

/// What indexing did. `took` is the duration in milliseconds.
pub open spec fn indexed_text(
    files: nat,
    ngrams: nat,
    took: Seq<char>,
    size: Seq<char>,
    mode: Seq<char>,
    limit: Seq<char>,
) -> Seq<char> {
    "Indexed "@ + text::decimal(files) + " files, "@ + text::decimal(ngrams) + " unique n-grams in "@ + took + "ms ("@
        + size + ") ["@ + mode + "] (max file size: "@ + limit + ")"@
}

/// Tells what indexing did. `took` is the duration in milliseconds.
pub fn describe_indexing(
    files: usize,
    ngrams: usize,
    took: &str,
    size: &str,
    mode: &str,
    limit: &str,
) -> (out: String)
    ensures
        out@ == indexed_text(files as nat, ngrams as nat, took@, size@, mode@, limit@),
{
    let mut out = String::new();
    out.append("Indexed ");
    push_decimal(&mut out, files as u128);
    out.append(" files, ");
    push_decimal(&mut out, ngrams as u128);
    out.append(" unique n-grams in ");
    out.append(took);
    out.append("ms (");
    out.append(size);
    out.append(") [");
    out.append(mode);
    out.append("] (max file size: ");
    out.append(limit);
    out.append(")");
    assert(out@ =~= indexed_text(files as nat, ngrams as nat, took@, size@, mode@, limit@));
    out
}

/// Tells what the first indexing did. `took` is the duration in milliseconds.
pub fn describe_first_indexing(files: usize, took: &str, size: &str) -> (out: String)
    ensures
        out@ == "Indexed "@ + text::decimal(files as nat) + " files in "@ + took@ + "ms ("@ + size@ + ")"@,
{
    let mut out = String::new();
    out.append("Indexed ");
    push_decimal(&mut out, files as u128);
    out.append(" files in ");
    out.append(took);
    out.append("ms (");
    out.append(size);
    out.append(")");
    assert(out@ =~= "Indexed "@ + text::decimal(files as nat) + " files in "@ + took@ + "ms ("@ + size@ + ")"@);
    out
}

/// Tells how many files could not be read, where there are any.
pub fn describe_skipped(errors: usize) -> (out: Option<String>)
    ensures
        out is Some <==> errors > 0,
        out matches Some(line) ==> line@ == text::decimal(errors as nat) + " files skipped due to read errors"@,
{
    if errors == 0 {
        return None;
    }
    let mut line = String::new();
    push_decimal(&mut line, errors as u128);
    line.append(" files skipped due to read errors");
    assert(line@ =~= text::decimal(errors as nat) + " files skipped due to read errors"@);
    Some(line)
}

/// Announces that an index is brought up to date before a search.
pub fn describe_auto_update(report: &FreshnessReport) -> (out: String)
    ensures
        out@ == "Auto-reindexing ("@ + text::decimal(
            report.changed@.len() + report.added@.len() + report.deleted@.len(),
        ) + " files changed)..."@,
{
    let mut out = String::new();
    out.append("Auto-reindexing (");
    push_decimal(&mut out, change_count(report));
    out.append(" files changed)...");
    assert(out@ =~= "Auto-reindexing ("@ + text::decimal(
        report.changed@.len() + report.added@.len() + report.deleted@.len(),
    ) + " files changed)..."@);
    out
}

/// What a report says of how fresh an index is.
pub open spec fn freshness_text(report: FreshnessReport) -> Seq<char> {
    if report.is_fresh {
        "  freshness: index is fresh"@
    } else {
        "  freshness: STALE — "@ + text::decimal(report.changed@.len()) + " changed, "@ + text::decimal(
            report.added@.len(),
        ) + " new, "@ + text::decimal(report.deleted@.len()) + " deleted"@
    }
}

/// Tells what a report says of how fresh an index is.
pub fn describe_freshness(report: &FreshnessReport) -> (out: String)
    ensures
        out@ == freshness_text(*report),
{
    let mut out = String::new();
    if report.is_fresh {
        out.append("  freshness: index is fresh");
    } else {
        out.append("  freshness: STALE — ");
        push_decimal(&mut out, report.changed.len() as u128);
        out.append(" changed, ");
        push_decimal(&mut out, report.added.len() as u128);
        out.append(" new, ");
        push_decimal(&mut out, report.deleted.len() as u128);
        out.append(" deleted");
    }
    assert(out@ =~= freshness_text(*report));
    out
}

/// How many matches there are in how many files.
pub open spec fn count_text(matches: Seq<scan::MatchView>) -> Seq<char> {
    text::decimal(matches.len()) + " matches in "@ + text::decimal(report::match_paths(matches).len()) + " files ("@
}

/// Appends how many matches there are in how many files.
fn push_counts(out: &mut String, matches: &[SearchMatch])
    ensures
        final(out)@ == old(out)@ + count_text(scan::match_views(matches@)),
{
    push_decimal(out, matches.len() as u128);
    out.append(" matches in ");
    push_decimal(out, count_unique_files(matches) as u128);
    out.append(" files (");
    assert(out@ =~= old(out)@ + count_text(scan::match_views(matches@)));
}

/// What an indexed search did. `took` is the duration in milliseconds.
pub open spec fn search_text(
    matches: Seq<scan::MatchView>,
    files_searched: nat,
    total_files: nat,
    full_scan: bool,
    rg_fullscan: bool,
    took: Seq<char>,
) -> Seq<char> {
    let mode = if rg_fullscan {
        "rg fullscan"@
    } else {
        "indexed"@
    };
    if full_scan {
        count_text(matches) + text::decimal(total_files) + " files scanned, took "@ + took + "ms) [full scan]"@
    } else {
        count_text(matches) + text::decimal(files_searched) + " candidates from "@ + text::decimal(total_files)
            + " total, took "@ + took + "ms) ["@ + mode + "]"@
    }
}

/// Tells what an indexed search did. `took` is the duration in milliseconds.
pub fn describe_search(result: &SearchResult, took: &str) -> (out: String)
    ensures
        out@ == search_text(
            scan::match_views(result.matches@),
            result.files_searched as nat,
            result.total_files as nat,
            result.full_scan,
            result.rg_fullscan,
            took@,
        ),
{
    let mut out = String::new();
    push_counts(&mut out, result.matches.as_slice());
    if result.full_scan {
        push_decimal(&mut out, result.total_files as u128);
        out.append(" files scanned, took ");
        out.append(took);
        out.append("ms) [full scan]");
    } else {
        push_decimal(&mut out, result.files_searched as u128);
        out.append(" candidates from ");
        push_decimal(&mut out, result.total_files as u128);
        out.append(" total, took ");
        out.append(took);
        out.append("ms) [");
        if result.rg_fullscan {
            out.append("rg fullscan");
        } else {
            out.append("indexed");
        }
        out.append("]");
    }
    assert(out@ =~= search_text(
        scan::match_views(result.matches@),
        result.files_searched as nat,
        result.total_files as nat,
        result.full_scan,
        result.rg_fullscan,
        took@,
    ));
    out
}

/// Tells what a search without an index did. `took` is the duration in milliseconds.
pub fn describe_unindexed_search(matches: &[SearchMatch], walked: usize, took: &str) -> (out: String)
    ensures
        out@ == count_text(scan::match_views(matches@)) + "no index, walked "@ + text::decimal(walked as nat)
            + " files, took "@ + took@ + "ms)"@,
{
    let mut out = String::new();
    push_counts(&mut out, matches);
    out.append("no index, walked ");
    push_decimal(&mut out, walked as u128);
    out.append(" files, took ");
    out.append(took);
    out.append("ms)");
    assert(out@ =~= count_text(scan::match_views(matches@)) + "no index, walked "@ + text::decimal(walked as nat)
        + " files, took "@ + took@ + "ms)"@);
    out
}

} // verus!
