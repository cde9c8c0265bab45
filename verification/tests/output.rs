use ngi::command::{
    context_size, describe_auto_update, describe_first_indexing, describe_freshness, describe_indexing, describe_search,
    describe_skipped, describe_stats, describe_unindexed_search, first_index_step, needs_update, uses_color, IndexStep,
};
use ngi::freshness::{check_freshness, collect_file_states, CurrentFile, FreshnessReport};
use ngi::indexer::{build_index, index_file};
use ngi::metadata::{extract_json_u64, read_meta_stats, write_meta};
use ngi::render::{format_match_colored, highlight_matches, render_matches, render_results};
use ngi::report::{
    change_count, count_unique_files, describe_update, freshness_of, json_escape, json_string_array,
    parse_size, render_json_index, render_json_results, render_json_status, search_mode, Freshness, SizeError,
};
use ngi::search::{search, SearchMatch, SearchResult};
use ngi::storage::{write_index_with_meta, MappedIndex};
use ngi::unindexed::{filter_paths, hit_before_error, search_unindexed};

fn run(files: &[(&str, &str)], pattern: &str, files_only: bool, before: usize, after: usize, max: Option<usize>) -> SearchResult {
    let mut all = files.to_vec();
    all.sort();
    let results = all.iter().map(|f| index_file(f.0.to_string(), f.1.as_bytes())).collect();
    let out = ngi::storage::write_index(&build_index(results, 0, 0), "/root", 0);
    let index = MappedIndex::open(&out.lookup, &out.postings, &out.files).unwrap();
    let contents: Vec<Option<&[u8]>> = all.iter().map(|f| Some(f.1.as_bytes())).collect();
    search(&index, &contents, pattern, false, None, files_only, before, after, max, 0).unwrap()
}

/// What a search prints without color.
fn plain(files: &[(&str, &str)], pattern: &str, before: usize, after: usize, max: Option<usize>) -> String {
    let result = run(files, pattern, false, before, after, max);
    render_results(&result.matches, pattern, false, false, false, before > 0 || after > 0)
}

/// What a search prints as JSON.
fn json(files: &[(&str, &str)], pattern: &str, files_only: bool, before: usize, after: usize, max: Option<usize>) -> String {
    let result = run(files, pattern, files_only, before, after, max);
    render_json_results(
        &result.matches,
        result.matches.len(),
        count_unique_files(&result.matches),
        result.files_searched,
        result.total_files,
        result.duration,
        search_mode(result.full_scan, result.rg_fullscan),
    )
}

fn line(path: &str, line_number: u32, line_text: &str) -> SearchMatch {
    SearchMatch {
        path: path.to_string(),
        line_number,
        line_text: line_text.to_string(),
        context_before: vec![],
        context_after: vec![],
    }
}

#[test]
fn context_c2_shows_lines_around_match() {
    let stdout = plain(&[("f.txt", "line1\nline2\nline3\nMATCH\nline5\nline6\nline7\n")], "MATCH", 2, 2, None);
    assert!(stdout.contains("line2"), "missing before context: {stdout}");
    assert!(stdout.contains("line3"), "missing before context: {stdout}");
    assert!(stdout.contains("MATCH"), "missing match: {stdout}");
    assert!(stdout.contains("line5"), "missing after context: {stdout}");
    assert!(stdout.contains("line6"), "missing after context: {stdout}");
    assert_eq!(stdout, "f.txt-2-line2\nf.txt-3-line3\nf.txt:4:MATCH\nf.txt-5-line5\nf.txt-6-line6\n");
}

#[test]
fn context_a1_shows_after_only() {
    let stdout = plain(&[("f.txt", "before\nMATCH\nafter1\nafter2\n")], "MATCH", 0, 1, None);
    assert!(stdout.contains("MATCH"), "missing match: {stdout}");
    assert!(stdout.contains("after1"), "missing after context: {stdout}");
    let lines: Vec<&str> = stdout.lines().collect();
    assert!(
        !lines.iter().any(|l| l.contains("-1-before")),
        "should not have before context with -A only: {stdout}"
    );
}

#[test]
fn context_b1_shows_before_only() {
    let stdout = plain(&[("f.txt", "before1\nbefore2\nMATCH\nafter\n")], "MATCH", 1, 0, None);
    assert!(stdout.contains("MATCH"), "missing match: {stdout}");
    assert!(stdout.contains("before2"), "missing before context: {stdout}");
    assert!(
        !lines_with_dash_separator(&stdout).iter().any(|l| l.contains("after")),
        "should not have after context with -B only: {stdout}"
    );
}

/// Collect lines that use the context separator format (path-linenum-text).
fn lines_with_dash_separator(output: &str) -> Vec<String> {
    output
        .lines()
        .filter(|l| {
            if let Some((_path, rest)) = l.split_once('-') {
                if let Some((num, _text)) = rest.split_once('-') {
                    return num.parse::<u32>().is_ok();
                }
            }
            false
        })
        .map(|l| l.to_string())
        .collect()
}

#[test]
fn context_doesnt_go_past_file_boundaries() {
    let stdout = plain(&[("f.txt", "MATCH\nafter\n")], "MATCH", 5, 5, None);
    assert!(stdout.contains("MATCH"));
    assert!(stdout.contains("after"));
    let lines: Vec<&str> = stdout.lines().collect();
    assert!(lines.len() <= 3, "too many lines for small file: {stdout}");
}

#[test]
fn context_adjacent_matches_separated() {
    let stdout = plain(&[("f.txt", "a\nMATCH1\nb\nMATCH2\nc\n")], "MATCH", 1, 1, None);
    assert!(stdout.contains("MATCH1"), "missing MATCH1: {stdout}");
    assert!(stdout.contains("MATCH2"), "missing MATCH2: {stdout}");
    assert!(stdout.contains("--"), "missing group separator: {stdout}");
}

#[test]
fn json_outputs_valid_jsonl() {
    let stdout = json(&[("a.txt", "hello world\n"), ("b.txt", "hello again\n")], "hello", false, 0, 0, None);
    let lines: Vec<&str> = stdout.lines().collect();
    assert!(lines.len() >= 3, "expected at least 3 JSON lines, got: {stdout}");
    for line in &lines {
        assert!(line.starts_with('{'), "not JSON: {line}");
        assert!(line.ends_with('}'), "not JSON: {line}");
    }
    let last = lines.last().unwrap();
    assert!(last.contains("\"type\":\"summary\""), "last line should be summary: {last}");
    assert!(last.contains("\"match_count\":"), "summary should have match_count: {last}");
    assert!(last.contains("\"file_count\":"), "summary should have file_count: {last}");
    assert!(last.contains("\"duration_ms\":"), "summary should have duration_ms: {last}");
}

#[test]
fn json_includes_context_arrays() {
    let stdout = json(&[("f.txt", "before\nMATCH\nafter\n")], "MATCH", false, 1, 1, None);
    let match_line = stdout.lines().find(|l| l.contains("\"type\":\"match\"")).unwrap();
    assert!(match_line.contains("\"context_before\":["), "missing context_before: {match_line}");
    assert!(match_line.contains("\"context_after\":["), "missing context_after: {match_line}");
    assert!(match_line.contains("before"), "context_before should contain 'before': {match_line}");
    assert!(match_line.contains("after"), "context_after should contain 'after': {match_line}");
}

#[test]
fn json_summary_has_correct_stats() {
    let files = [("a.txt", "hello\n"), ("b.txt", "hello\nhello\n"), ("c.txt", "nothing\n")];
    let stdout = json(&files, "hello", false, 0, 0, None);
    let summary = stdout.lines().last().unwrap();
    assert!(summary.contains("\"type\":\"summary\""), "last line should be summary");
    assert!(summary.contains("\"match_count\":3"), "expected 3 matches: {summary}");
    assert!(summary.contains("\"file_count\":2"), "expected 2 files: {summary}");
}

#[test]
fn json_with_files_only() {
    let stdout = json(&[("a.txt", "target\n"), ("b.txt", "target\ntarget\n")], "target", true, 0, 0, None);
    let match_lines: Vec<&str> = stdout.lines().filter(|l| l.contains("\"type\":\"match\"")).collect();
    assert!(match_lines.len() >= 2, "expected at least 2 file matches: {stdout}");
    for ml in &match_lines {
        assert!(ml.contains("\"line_number\":0"), "files-only should have line_number 0: {ml}");
    }
}

#[test]
fn max_count_1_stops_after_1() {
    let files = [("a.txt", "match1\nmatch2\nmatch3\n"), ("b.txt", "match4\nmatch5\n")];
    let stdout = plain(&files, "match", 0, 0, Some(1));
    let match_lines: Vec<&str> = stdout.lines().filter(|l| l.contains("match")).collect();
    assert_eq!(match_lines.len(), 1, "expected exactly 1 match with -m 1: {stdout}");
}

#[test]
fn max_count_5_with_many_matches() {
    let text = (0..100).map(|i| format!("line_match_{i}")).collect::<Vec<_>>().join("\n");
    let stdout = plain(&[("big.txt", &text)], "line_match", 0, 0, Some(5));
    let match_lines: Vec<&str> = stdout.lines().filter(|l| l.contains("line_match")).collect();
    assert_eq!(match_lines.len(), 5, "expected exactly 5 matches with -m 5, got {}: {stdout}", match_lines.len());
}

#[test]
fn max_count_with_json() {
    let stdout = json(&[("f.txt", "a\nb\nc\nd\ne\nf\ng\nh\ni\nj\n")], "[a-z]", false, 0, 0, Some(3));
    let match_lines: Vec<&str> = stdout.lines().filter(|l| l.contains("\"type\":\"match\"")).collect();
    assert_eq!(match_lines.len(), 3, "expected 3 match lines with -m 3 --json: {stdout}");
    let summary = stdout.lines().last().unwrap();
    assert!(summary.contains("\"match_count\":3"), "summary should show 3: {summary}");
}

#[test]
fn json_context_and_max_count_together() {
    let files = [("f.txt", "a\nb\nMATCH1\nc\nd\ne\nMATCH2\nf\ng\nh\nMATCH3\ni\n")];
    let stdout = json(&files, "MATCH", false, 1, 1, Some(2));
    let match_lines: Vec<&str> = stdout.lines().filter(|l| l.contains("\"type\":\"match\"")).collect();
    assert_eq!(match_lines.len(), 2, "expected 2 matches with -m 2: {stdout}");
    let first = match_lines[0];
    assert!(first.contains("\"context_before\":["), "should have context_before: {first}");
    assert!(first.contains("\"context_after\":["), "should have context_after: {first}");
}

#[test]
fn c_flag_overridden_by_specific_a_b() {
    // Five lines on both sides, but only one after.
    let before = context_size(None, 5);
    let after = context_size(Some(1), 5);
    let stdout =
        json(&[("f.txt", "l1\nl2\nl3\nl4\nl5\nMATCH\na1\na2\na3\na4\na5\n")], "MATCH", false, before, after, None);
    let match_line = stdout.lines().find(|l| l.contains("\"type\":\"match\"")).unwrap();
    assert!(match_line.contains("l1"), "should have l1 in before: {match_line}");
    assert!(match_line.contains("l5"), "should have l5 in before: {match_line}");
    assert!(match_line.contains("a1"), "should have a1 in after: {match_line}");
    assert!(!match_line.contains("a2"), "should NOT have a2 with -A 1: {match_line}");
}

#[test]
fn no_index_with_context_and_json() {
    let contents: Vec<Option<&[u8]>> = vec![Some(b"before\nTARGET\nafter\n")];
    let matches = search_unindexed(&["f.txt".to_string()], &contents, "TARGET", false, false, 1, 1).unwrap();
    let stdout = render_json_results(&matches, matches.len(), count_unique_files(&matches), 1, 1, 0, "no-index");
    let match_line = stdout.lines().find(|l| l.contains("\"type\":\"match\"")).unwrap();
    assert!(match_line.contains("TARGET"), "should find TARGET: {match_line}");
    assert!(match_line.contains("before"), "should have before context: {match_line}");
    assert!(match_line.contains("after"), "should have after context: {match_line}");
    let summary = stdout.lines().last().unwrap();
    assert!(summary.contains("\"type\":\"summary\""), "should have summary: {summary}");
}

#[test]
fn index_json_produces_valid_json() {
    let index = build_index(vec![index_file("hello.txt".into(), b"hello world\n")], 0, 0);
    let stdout = render_json_index(
        index.stats.file_count as u64,
        index.stats.ngram_count as u64,
        index.stats.build_duration,
        "1.0 KB",
        "full",
        "10.0 MB",
    );
    let line = stdout.trim();
    assert_eq!(stdout.trim().lines().count(), 1, "expected single JSON line: {stdout}");
    assert!(line.contains("\"type\":\"index\""), "missing type: {line}");
    assert!(line.contains("\"file_count\":"), "missing file_count: {line}");
    assert!(line.contains("\"ngram_count\":"), "missing ngram_count: {line}");
    assert!(line.contains("\"duration_ms\":"), "missing duration_ms: {line}");
    assert!(line.contains("\"index_size\":"), "missing index_size: {line}");
    assert!(line.contains("\"mode\":"), "missing mode: {line}");
    assert!(line.contains("\"max_file_size\":"), "missing max_file_size: {line}");
    assert!(line.contains("\"file_count\":1"), "expected 1 file: {line}");
}

#[test]
fn status_json_produces_valid_json() {
    let index = build_index(vec![index_file("a.txt".into(), b"hello world\n")], 0, 0);
    let walked = [CurrentFile { path: "a.txt".into(), stat: Some((7, 12)) }];
    let states = collect_file_states(&index.files, &walked);
    let out = write_index_with_meta(&index, "/root", 0, Some(&states), None);
    let checked = check_freshness(&out.filemeta.unwrap(), None, &walked).unwrap();
    let stdout = render_json_status(
        extract_json_u64(&out.meta, "file_count").unwrap(),
        extract_json_u64(&out.meta, "ngram_count").unwrap(),
        freshness_of(Some(&checked)),
    );
    let line = stdout.trim();
    assert_eq!(stdout.trim().lines().count(), 1, "expected single JSON line: {stdout}");
    assert!(line.contains("\"type\":\"status\""), "missing type: {line}");
    assert!(line.contains("\"indexed_files\":"), "missing indexed_files: {line}");
    assert!(line.contains("\"ngram_count\":"), "missing ngram_count: {line}");
    assert!(line.contains("\"freshness\":"), "missing freshness: {line}");
    assert!(line.contains("\"changes\":"), "missing changes: {line}");
    assert!(line.contains("\"freshness\":\"fresh\""), "expected fresh: {line}");
}

#[test]
fn status_json_no_index() {
    let stdout = render_json_status(0, 0, Freshness::Missing);
    let line = stdout.trim();
    assert!(line.contains("\"type\":\"status\""), "missing type: {line}");
    assert!(line.contains("\"freshness\":\"none\""), "expected none freshness: {line}");
    assert!(line.contains("\"indexed_files\":0"), "expected 0 files: {line}");
}

#[test]
fn json_escapes_special_characters() {
    let stdout = json(&[("f.txt", "hello \"world\" and\\backslash\n")], "hello", false, 0, 0, None);
    let match_line = stdout.lines().find(|l| l.contains("\"type\":\"match\"")).unwrap();
    assert!(match_line.contains(r#"\\backslash"#), "backslash should be escaped: {match_line}");
    assert!(match_line.contains(r#"\"world\""#), "quotes should be escaped: {match_line}");
}

// ---------------------------------------------------------------------------

fn report(changed: &[&str], deleted: &[&str], added: &[&str], is_fresh: bool) -> FreshnessReport {
    let own = |paths: &[&str]| paths.iter().map(|p| p.to_string()).collect::<Vec<String>>();
    FreshnessReport { changed: own(changed), deleted: own(deleted), added: own(added), is_fresh, total_indexed: 3 }
}

#[test]
fn sizes() {
    assert_eq!(parse_size("1048576").unwrap(), 1_048_576);
    assert_eq!(parse_size(" 10M ").unwrap(), 10_485_760);
    assert_eq!(parse_size("500k").unwrap(), 512_000);
    assert_eq!(parse_size("2\u{2003}G").unwrap(), 2_147_483_648);
    assert_eq!(parse_size("+7").unwrap(), 7);
    assert_eq!(parse_size("0").unwrap(), 0);
    assert!(matches!(parse_size(" \t"), Err(SizeError::Empty)));
    assert!(matches!(parse_size(" 1.5M "), Err(SizeError::Invalid(s)) if s == "1.5M"));
    assert!(matches!(parse_size("M"), Err(SizeError::Invalid(s)) if s == "M"));
    assert!(matches!(parse_size("-1"), Err(SizeError::Invalid(_))));
    assert!(matches!(parse_size("10MB"), Err(SizeError::Invalid(_))));
    assert!(matches!(parse_size("18446744073709551616"), Err(SizeError::Invalid(_))));
    assert!(matches!(parse_size("17179869184G"), Err(SizeError::TooLarge)));
    assert_eq!(parse_size("17179869183G").unwrap(), 17_179_869_183 * 1_073_741_824);
}

#[test]
fn numbers_of_the_build_metadata() {
    let meta = "{\n  \"file_count\": 42,\n  \"ngram_count\":7\n}";
    assert_eq!(extract_json_u64(meta, "file_count"), Some(42));
    assert_eq!(extract_json_u64(meta, "ngram_count"), Some(7));
    assert_eq!(extract_json_u64(meta, "count"), None);
    assert_eq!(extract_json_u64("\"n\": 5", "n"), None);
    assert_eq!(extract_json_u64("\"n\": x", "n"), None);
}

#[test]
fn written_counts_are_read_back() {
    let index = build_index(vec![index_file("a".into(), b"abcdef"), index_file("b".into(), b"xyz")], 0, 9_000_000);
    let meta = write_index_with_meta(&index, "/a \"file_count\": 9 \\\"nt\":", 1, None, Some("0123abc")).meta;
    assert_eq!(extract_json_u64(&meta, "file_count"), Some(2));
    assert_eq!(extract_json_u64(&meta, "ngram_count"), Some(5));
    assert_eq!(extract_json_u64(&meta, "built_at_unix"), Some(1));
    assert_eq!(extract_json_u64(&meta, "build_duration_ms"), Some(9));
    let stats = read_meta_stats(&meta);
    assert_eq!((stats.file_count, stats.ngram_count, stats.duration_ms), (2, 5, 9));
    assert_eq!(describe_stats(stats, "3B"), "Index statistics:\n  files:    2\n  n-grams:  5\n  built in: 9ms\n  size:     3B\n");
    let none = read_meta_stats("");
    assert_eq!((none.file_count, none.ngram_count, none.duration_ms), (0, 0, 0));
    assert_eq!(
        write_meta("r\\\"", None, 1, 2, 3, 4),
        "{\n  \"version\": 1,\n  \"root\": \"r\\\\\\\"\",\n  \"file_count\": 1,\n  \"ngram_count\": 2,\n  \"built_at_unix\": 3,\n  \"build_duration_ms\": 4\n}\n"
    );
}

#[test]
fn what_commands_decide() {
    assert_eq!(context_size(Some(0), 3), 0);
    assert_eq!(context_size(None, 3), 3);
    assert!(uses_color(false, false, true));
    assert!(!uses_color(true, false, true));
    assert!(!uses_color(false, true, true));
    assert!(!uses_color(false, false, false));
    assert_eq!(first_index_step(true, true, true, true), IndexStep::ShowStats);
    assert_eq!(first_index_step(true, false, false, false), IndexStep::NoIndex);
    assert_eq!(first_index_step(false, false, true, true), IndexStep::Update);
    assert_eq!(first_index_step(false, false, true, false), IndexStep::Rebuild { remove: false });
    assert_eq!(first_index_step(false, true, true, true), IndexStep::Rebuild { remove: true });
    assert_eq!(first_index_step(false, true, false, false), IndexStep::Rebuild { remove: false });
    assert!(!needs_update(None));
    assert!(!needs_update(Some(&report(&[], &[], &[], true))));
    assert!(needs_update(Some(&report(&["a"], &[], &[], false))));
}

#[test]
fn what_commands_say() {
    let stale = report(&["a"], &["b", "c"], &["d"], false);
    assert_eq!(describe_auto_update(&stale), "Auto-reindexing (4 files changed)...");
    assert_eq!(describe_freshness(&stale), "  freshness: STALE \u{2014} 1 changed, 1 new, 2 deleted");
    assert_eq!(describe_freshness(&report(&[], &[], &[], true)), "  freshness: index is fresh");
    assert_eq!(describe_skipped(0), None);
    assert_eq!(describe_skipped(2), Some("2 files skipped due to read errors".to_string()));
    assert_eq!(
        describe_indexing(3, 40, "5", "1.0KB", "full rebuild", "10.0MB"),
        "Indexed 3 files, 40 unique n-grams in 5ms (1.0KB) [full rebuild] (max file size: 10.0MB)"
    );
    assert_eq!(describe_first_indexing(3, "5", "1.0KB"), "Indexed 3 files in 5ms (1.0KB)");
    let matches = vec![line("a", 1, "x"), line("a", 2, "x"), line("b", 1, "x")];
    assert_eq!(describe_unindexed_search(&matches, 9, "5"), "3 matches in 2 files (no index, walked 9 files, took 5ms)");
    let mut result =
        SearchResult { matches, files_searched: 4, total_files: 9, duration: 0, full_scan: false, rg_fullscan: false };
    assert_eq!(describe_search(&result, "5"), "3 matches in 2 files (4 candidates from 9 total, took 5ms) [indexed]");
    result.rg_fullscan = true;
    assert_eq!(describe_search(&result, "5"), "3 matches in 2 files (4 candidates from 9 total, took 5ms) [rg fullscan]");
    result.full_scan = true;
    assert_eq!(describe_search(&result, "5"), "3 matches in 2 files (9 files scanned, took 5ms) [full scan]");
}

#[test]
fn one_json_line_for_each_match() {
    let matches = vec![line("a\nb", 1, "x\r\u{0}\u{85}\u{2028}"), line("b", 2, "\"}\n{")];
    let out = render_json_results(&matches, 2, 2, 2, 2, 0, "indexed\n");
    let lines: Vec<&str> = out.lines().collect();
    assert_eq!(lines.len(), 3);
    for l in lines {
        assert!(l.starts_with('{') && l.ends_with('}') && l.chars().all(|c| c >= ' '), "{l}");
    }
}

#[test]
fn escapes() {
    assert_eq!(json_escape("a\"b\\c\nd\te\rf\u{1}g\u{1f}h\u{7f}\u{e9}"), "a\\\"b\\\\c\\nd\\te\\rf\\u0001g\\u001fh\u{7f}\u{e9}");
    assert_eq!(json_string_array(&[]), "[]");
    assert_eq!(json_string_array(&["a".into(), "b\"".into()]), "[\"a\",\"b\\\"\"]");
}

#[test]
fn json_lines() {
    let mut m = line("a", 3, "x");
    m.context_after = vec!["y".into()];
    assert_eq!(
        render_json_results(&[m], 1, 1, 2, 3, 4_999_999, "indexed"),
        "{\"type\":\"match\",\"path\":\"a\",\"line_number\":3,\"line_text\":\"x\",\"context_before\":[],\"context_after\":[\"y\"]}\n{\"type\":\"summary\",\"match_count\":1,\"file_count\":1,\"files_searched\":2,\"total_files\":3,\"duration_ms\":4,\"mode\":\"indexed\"}\n"
    );
    assert_eq!(
        render_json_index(1, 2, 3_000_000, "4 B", "fresh", "5 B"),
        "{\"type\":\"index\",\"file_count\":1,\"ngram_count\":2,\"duration_ms\":3,\"index_size\":\"4 B\",\"mode\":\"fresh\",\"max_file_size\":\"5 B\"}\n"
    );
    assert_eq!(
        render_json_status(1, 2, Freshness::Stale { changes: 3 }),
        "{\"type\":\"status\",\"indexed_files\":1,\"ngram_count\":2,\"freshness\":\"stale\",\"changes\":3}\n"
    );
}

#[test]
fn modes_and_freshness() {
    assert_eq!(search_mode(true, true), "full-scan");
    assert_eq!(search_mode(false, true), "rg-fullscan");
    assert_eq!(search_mode(false, false), "indexed");
    let stale = report(&["a"], &["b", "c"], &["d"], false);
    assert_eq!(freshness_of(None), Freshness::Unknown);
    assert_eq!(freshness_of(Some(&stale)), Freshness::Stale { changes: 4 });
    assert_eq!(change_count(&stale), 4);
    assert_eq!(describe_update(&stale), "incremental: 1 changed, 1 new, 2 deleted");
}

#[test]
fn unique_files() {
    assert_eq!(count_unique_files(&[line("a", 1, ""), line("b", 1, ""), line("a", 2, "")]), 2);
    assert_eq!(count_unique_files(&[]), 0);
}

#[test]
fn highlights() {
    assert_eq!(highlight_matches("foo bar foo", &[(0, 3), (8, 11)]), "\x1b[1;31mfoo\x1b[0m bar \x1b[1;31mfoo\x1b[0m");
    assert_eq!(highlight_matches("\u{e9}x", &[(2, 3)]), "\u{e9}\x1b[1;31mx\x1b[0m");
    assert_eq!(highlight_matches("plain", &[]), "plain");
}

#[test]
fn colored_matches() {
    let m = line("p", 7, "ab");
    assert_eq!(format_match_colored(&m, &[(1, 2)], true), "\x1b[1;35mp\x1b[0m");
    assert_eq!(
        format_match_colored(&m, &[(1, 2)], false),
        "\x1b[1;35mp\x1b[0m\x1b[36m:\x1b[0m\x1b[32m7\x1b[0m\x1b[36m:\x1b[0ma\x1b[1;31mb\x1b[0m"
    );
    let out = render_results(&[m], "B", true, false, true, false);
    assert_eq!(out, "\x1b[1;35mp\x1b[0m\x1b[36m:\x1b[0m\x1b[32m7\x1b[0m\x1b[36m:\x1b[0ma\x1b[1;31mb\x1b[0m\n");
    let unparsed = render_results(&[line("p", 7, "ab")], "(", false, false, true, false);
    assert!(unparsed.ends_with("\x1b[0mab\n"));
}

#[test]
fn plain_matches() {
    let all = [line("a", 1, "x"), line("b", 0, "")];
    assert_eq!(render_matches(&all, &[vec![], vec![]], false, false, false), "a:1:x\nb:0:\n");
    assert_eq!(render_matches(&all, &[vec![], vec![]], true, false, false), "a\nb\n");
    let mut m = line("a", 2, "x");
    m.context_before = vec!["w".into()];
    assert_eq!(render_matches(&[m, line("c", 9, "z")], &[vec![], vec![]], false, false, true), "a-1-w\na:2:x\n--\nc:9:z\n");
}

#[test]
fn unindexed_files() {
    let paths = vec!["a".to_string(), "b".to_string(), "c".to_string()];
    let contents: Vec<Option<&[u8]>> = vec![Some(b"hit\n\xFF\nhit"), Some(b"\xFF\nhit"), None];
    let all = search_unindexed(&paths, &contents, "hit", false, false, 0, 0).unwrap();
    let places: Vec<(&str, u32)> = all.iter().map(|m| (m.path.as_str(), m.line_number)).collect();
    assert_eq!(places, vec![("a", 1), ("a", 3), ("b", 2)]);
    // A file is given up at the first line that is no text.
    let names = search_unindexed(&paths, &contents, "HIT", true, true, 0, 0).unwrap();
    assert_eq!(names.len(), 1);
    assert_eq!((names[0].path.as_str(), names[0].line_number), ("a", 0));
    assert!(search_unindexed(&paths, &contents, "(", false, false, 0, 0).is_err());
    assert!(hit_before_error(&[Some("x".into()), None], &[true, false]));
    assert!(!hit_before_error(&[None, Some("x".into())], &[false, true]));
}

#[test]
fn paths_by_pattern() {
    let paths = vec!["a.rs".to_string(), "b.txt".to_string()];
    assert_eq!(filter_paths(paths.clone(), Some("txt$")).unwrap(), vec!["b.txt"]);
    assert_eq!(filter_paths(paths.clone(), None).unwrap(), paths);
    assert!(filter_paths(paths, Some("(")).is_err());
}
