use ngi::filter::keep_marked;
use ngi::indexer::{build_index, index_file};
use ngi::ngram::hash_ngram;
use ngi::query::QueryPlan;
use ngi::search::{
    choose_engine, collect_matches, evaluate_plan, filter_by_path, finish_search, intersect_sorted, keep_indexed,
    prepare_search, search, search_candidates, select_matches, union_sorted, Engine, SearchError, SearchMatch, SearchResult,
};
use ngi::storage::{write_index, IndexFiles, MappedIndex};
use ngi::unindexed::{filter_paths, search_unindexed};

fn write(files: &[(&str, &str)]) -> IndexFiles {
    let results = files.iter().map(|f| index_file(f.0.to_string(), f.1.as_bytes())).collect();
    write_index(&build_index(results, 0, 0), "/root", 0)
}

fn sorted<'a>(files: &[(&'a str, &'a str)]) -> Vec<(&'a str, &'a str)> {
    let mut all = files.to_vec();
    all.sort();
    all
}

/// Indexes files and searches them.
fn run(
    files: &[(&str, &str)],
    pattern: &str,
    case_insensitive: bool,
    file_pattern: Option<&str>,
    files_only: bool,
    context: (usize, usize),
    max_count: Option<usize>,
) -> Result<SearchResult, SearchError> {
    let out = write(files);
    let index = MappedIndex::open(&out.lookup, &out.postings, &out.files).unwrap();
    let all = sorted(files);
    let contents: Vec<Option<&[u8]>> = all.iter().map(|f| Some(f.1.as_bytes())).collect();
    search(
        &index,
        &contents,
        pattern,
        case_insensitive,
        file_pattern,
        files_only,
        context.0,
        context.1,
        max_count,
        7,
    )
}

fn found(files: &[(&str, &str)], pattern: &str, case_insensitive: bool) -> SearchResult {
    run(files, pattern, case_insensitive, None, false, (0, 0), None).unwrap()
}

fn places(matches: &[SearchMatch]) -> Vec<(String, u32)> {
    matches.iter().map(|m| (m.path.clone(), m.line_number)).collect()
}

fn at(path: &str, line_number: u32) -> SearchMatch {
    SearchMatch {
        path: path.to_string(),
        line_number,
        line_text: String::new(),
        context_before: vec![],
        context_after: vec![],
    }
}

#[test]
fn end_to_end_search() {
    let files = [
        ("src/main.rs", "fn main() {\n    println!(\"hello world\");\n}\n"),
        ("src/lib.rs", "pub fn greet() -> &'static str {\n    \"hello\"\n}\n"),
        ("readme.txt", "This is a readme file.\n"),
    ];
    let result = found(&files, "hello", false);
    assert!(result.matches.len() >= 2, "expected at least 2 matches for 'hello', got {}", result.matches.len());
    assert!(result.matches.iter().any(|m| m.path.contains("main.rs")));
    assert!(result.matches.iter().any(|m| m.path.contains("lib.rs")));
    assert_eq!(result.total_files, 3);

    let result_fs = found(&files, "h.llo", false);
    assert!(result_fs.matches.len() >= 2, "expected at least 2 matches, got {}", result_fs.matches.len());
    assert!(result_fs.matches.iter().any(|m| m.path.contains("main.rs")));
    assert!(result_fs.matches.iter().any(|m| m.path.contains("lib.rs")));
    assert_eq!(result_fs.total_files, 3);
}

#[test]
fn intersect_sorted_basic() {
    assert_eq!(intersect_sorted(&[1, 3, 5, 7], &[2, 3, 5, 8]), vec![3, 5]);
    assert_eq!(intersect_sorted(&[1, 2, 3], &[1, 2, 3]), vec![1, 2, 3]);
    assert_eq!(intersect_sorted(&[1, 2], &[3, 4]), Vec::<u32>::new());
    assert_eq!(intersect_sorted(&[], &[1, 2, 3]), Vec::<u32>::new());
    assert_eq!(intersect_sorted(&[1, 2, 3], &[]), Vec::<u32>::new());
}

#[test]
fn union_sorted_basic() {
    assert_eq!(union_sorted(&[1, 3, 5], &[2, 4, 6]), vec![1, 2, 3, 4, 5, 6]);
    assert_eq!(union_sorted(&[1, 2, 3], &[1, 2, 3]), vec![1, 2, 3]);
    assert_eq!(union_sorted(&[1, 3], &[2]), vec![1, 2, 3]);
    assert_eq!(union_sorted(&[], &[1, 2]), vec![1, 2]);
    assert_eq!(union_sorted(&[1, 2], &[]), vec![1, 2]);
}

#[test]
fn file_pattern_filter() {
    let files = [
        ("src/main.rs", "fn main() { hello(); }\n"),
        ("src/lib.rs", "pub fn hello() {}\n"),
        ("docs/guide.txt", "hello world guide\n"),
    ];
    let result = run(&files, "h.llo", false, Some(r"\.rs$"), false, (0, 0), None).unwrap();
    for m in &result.matches {
        assert!(m.path.ends_with(".rs"), "unexpected file: {}", m.path);
    }
    assert!(!result.matches.is_empty());
}

#[test]
fn case_insensitive_search() {
    let files = [("a.txt", "Hello World\n"), ("b.txt", "HELLO WORLD\n"), ("c.txt", "hello world\n")];
    let result = found(&files, "hello world", true);
    assert!(
        result.matches.len() >= 3,
        "expected at least 3 case-insensitive matches, got {}",
        result.matches.len()
    );
}

#[test]
fn fullscan_pattern() {
    let result = found(&[("a.txt", "foo 123 bar\n"), ("b.txt", "baz 456 qux\n")], "[0-9]+", false);
    assert_eq!(result.files_searched, 2, "FullScan should search all files");
    assert!(result.matches.len() >= 2);
    assert!(result.full_scan);
}

#[test]
fn files_only_mode() {
    let files = [("a.txt", "hello from a\n"), ("b.txt", "hello from b\n"), ("c.txt", "nothing here\n")];
    let result = run(&files, "hello", false, None, true, (0, 0), None).unwrap();
    assert!(result.matches.len() >= 2);
    for m in &result.matches {
        assert_eq!(m.line_number, 0, "files_only should have line_number=0");
        assert!(m.line_text.is_empty(), "files_only should have empty line_text");
    }
}

#[test]
fn no_matches() {
    let files = [("a.txt", "foo bar baz\n"), ("b.txt", "qux quux corge\n")];
    assert!(found(&files, "zzz_nonexistent_pattern_zzz", false).matches.is_empty());
}

#[test]
fn evaluate_fullscan() {
    let out = write(&[("a.txt", "content"), ("b.txt", "content")]);
    let index = MappedIndex::open(&out.lookup, &out.postings, &out.files).unwrap();
    let ids = evaluate_plan(&QueryPlan::FullScan, &index);
    assert_eq!(ids.len(), index.file_count());
}

#[test]
fn evaluate_or_plan() {
    let out = write(&[("a.txt", "some text content")]);
    let index = MappedIndex::open(&out.lookup, &out.postings, &out.files).unwrap();
    let plan = QueryPlan::Or(vec![
        QueryPlan::Lookup { hash: 0xDEAD, trigram: vec![] },
        QueryPlan::Lookup { hash: 0xBEEF, trigram: vec![] },
    ]);
    let ids = evaluate_plan(&plan, &index);
    assert!(ids.is_empty());
}

#[test]
fn evaluate_and_empty_returns_empty() {
    let out = write(&[("a.txt", "some text content")]);
    let index = MappedIndex::open(&out.lookup, &out.postings, &out.files).unwrap();
    let plan = QueryPlan::And(vec![]);
    let ids = evaluate_plan(&plan, &index);
    assert!(ids.is_empty());
}

#[test]
fn search_still_works_end_to_end() {
    let files = [
        ("a.txt", "fn parse_token_stream() {}\n"),
        ("b.txt", "fn compile_ast_node() {}\n"),
        ("c.txt", "fn parse_token_stream() { more stuff }\n"),
    ];
    let result = found(&files, "parse_token_stream", false);
    assert!(result.matches.len() >= 2);
    for m in &result.matches {
        assert!(m.path == "a.txt" || m.path == "c.txt", "unexpected match in {}", m.path);
    }
}

#[test]
fn case_insensitive_end_to_end() {
    let files = [("a.txt", "Hello World From Here\n"), ("b.txt", "hello world from here\n")];
    let result = found(&files, "hello world", true);
    assert!(result.matches.len() >= 2, "case-insensitive search should find both");
}

#[test]
fn end_to_end_with_real_indexer() {
    let results = vec![
        index_file("hello.rs".into(), b"fn main() { println!(\"hello world\"); }"),
        index_file("lib.rs".into(), b"pub fn greet() { println!(\"greetings\"); }"),
    ];
    let index = build_index(results, 0, 0);
    let out = write_index(&index, "/root", 0);
    let mapped = MappedIndex::open(&out.lookup, &out.postings, &out.files).unwrap();
    assert_eq!(mapped.file_count(), 2);
    assert!(mapped.ngram_count() > 0);
    for (&hash, expected) in &index.postings {
        let result = mapped.lookup(hash).expect(&format!("hash {hash} missing"));
        assert_eq!(&result, expected);
    }
}

#[test]
fn index_roundtrip_with_new_hash() {
    let out = write(&[("test.rs", "fn parse_token() { return 42; }")]);
    let mapped = MappedIndex::open(&out.lookup, &out.postings, &out.files).unwrap();
    let h = hash_ngram(b"par");
    let postings = mapped.lookup(h);
    assert!(postings.is_some(), "trigram 'par' should be in index");
    assert!(!postings.unwrap().is_empty(), "posting list for 'par' should not be empty");
}

#[test]
fn broad_query_uses_fullscan_path() {
    let names: Vec<String> = (0..20).map(|i| format!("f{i}.txt")).collect();
    let texts: Vec<String> = (0..20).map(|i| format!("the value is {i}")).collect();
    let files: Vec<(&str, &str)> = (0..20).map(|i| (names[i].as_str(), texts[i].as_str())).collect();
    let result = found(&files, "the", false);
    assert_eq!(result.matches.len(), 20);
}

#[test]
fn selective_query_uses_index() {
    let names: Vec<String> = (0..19).map(|i| format!("other{i}.txt")).collect();
    let texts: Vec<String> = (0..19).map(|i| format!("unrelated content {i}")).collect();
    let mut files: Vec<(&str, &str)> = (0..19).map(|i| (names[i].as_str(), texts[i].as_str())).collect();
    files.push(("target.txt", "PyObject_GC_Track(obj)"));
    let result = found(&files, "PyObject_GC_Track", false);
    assert_eq!(result.matches.len(), 1);
    assert!(!result.full_scan);
    assert!(result.files_searched < result.total_files);
}

#[test]
fn index_v3_no_masks_is_smaller() {
    let out = write(&[("code.rs", "fn parse_token_stream() { let ast = compile_module(); optimize_ir(ast); }")]);
    let postings_size = out.postings.len();
    assert!(postings_size < 500, "postings file should be compact without masks: {postings_size} bytes");
}

#[test]
fn search_works_without_masks() {
    let files = [
        ("a.rs", "fn hello_world() { println!(\"hello\"); }"),
        ("b.rs", "fn goodbye() { println!(\"bye\"); }"),
    ];
    let result = found(&files, "hello_world", false);
    assert_eq!(result.matches.len(), 1);
    assert!(result.matches[0].path.contains("a.rs"));
}

#[test]
fn case_insensitive_search_works() {
    let files = [("a.txt", "PyObject_GC_Track(obj)")];
    assert_eq!(found(&files, "pyobject_gc_track", true).matches.len(), 1);
    assert_eq!(found(&files, "PyObject_GC_Track", false).matches.len(), 1);
}

#[test]
fn auto_index_handles_empty_directory() {
    let result = found(&[], "anything", false);
    assert!(result.matches.is_empty());
    assert_eq!(result.total_files, 0);
}

// ---------------------------------------------------------------------------

#[test]
fn matches_carry_numbers_texts_and_context() {
    let files = [("b.txt", "one\r\ntwo hit\nthree"), ("a.txt", "hit\nhit\n")];
    let result = run(&files, "hit", false, None, false, (1, 1), None).unwrap();
    assert_eq!(
        places(&result.matches),
        vec![("a.txt".to_string(), 1), ("a.txt".to_string(), 2), ("b.txt".to_string(), 2)]
    );
    let m = &result.matches[2];
    assert_eq!(m.line_text, "two hit");
    assert_eq!(m.context_before, vec!["one"]);
    assert_eq!(m.context_after, vec!["three"]);
    assert!(result.matches[0].context_before.is_empty());
    assert_eq!(result.duration, 7);
    assert!(!result.rg_fullscan);
}

#[test]
fn lines_that_are_not_text_are_passed_over() {
    let results = vec![index_file("a".into(), b"\xFFhit\nhit\n")];
    let out = write_index(&build_index(results, 0, 0), "/root", 0);
    let index = MappedIndex::open(&out.lookup, &out.postings, &out.files).unwrap();
    let contents: Vec<Option<&[u8]>> = vec![Some(b"\xFFhit\nhit\n")];
    let result = search(&index, &contents, "hit", false, None, false, 0, 0, None, 0).unwrap();
    assert_eq!(places(&result.matches), vec![("a".to_string(), 2)]);
    let unread: Vec<Option<&[u8]>> = vec![None];
    assert!(search(&index, &unread, "hit", false, None, false, 0, 0, None, 0).unwrap().matches.is_empty());
}

#[test]
fn narrowing_misses_no_match() {
    let files = [
        ("a", "the quick brown fox\njumps"),
        ("b", "THE QUICK BROWN FOX"),
        ("c", "quick\nbrown"),
        ("d", "nothing"),
        ("e", "qu1ck br0wn"),
    ];
    let all = sorted(&files);
    let candidates: Vec<(u32, String)> =
        (0..all.len()).map(|i| (i as u32, all[i].0.to_string())).collect();
    let contents: Vec<Option<&[u8]>> = all.iter().map(|f| Some(f.1.as_bytes())).collect();
    for pattern in ["quick", "quick|fox", "qu.ck b[ro]+wn", "(quick) (brown)", "n.th(ing)?", "^jumps$", "x*", "o"] {
        for ignore_case in [false, true] {
            let narrowed = found(&files, pattern, ignore_case).matches;
            let scanned = search_candidates(&candidates, &contents, pattern, ignore_case, false, 0, 0);
            assert_eq!(places(&narrowed), places(&select_matches(scanned, None)), "{pattern}");
        }
    }
}

#[test]
fn ignoring_case_beyond_ascii() {
    // Characters beyond ASCII around an ASCII literal do no harm.
    let files = [("a", "FOO\u{e9}bar k\u{212A}"), ("b", "other")];
    assert_eq!(found(&files, "foo.BAR", true).matches.len(), 1);
    // Nor do characters without case inside of it.
    assert_eq!(found(&[("a", "\u{4e2d}\u{6587}ABC")], "\u{6587}abc", true).matches.len(), 1);
    // A Kelvin sign matches a `k`.
    let contents: Vec<Option<&[u8]>> = vec![Some("\u{212A}elvin".as_bytes())];
    assert_eq!(search_candidates(&[(0, "a".to_string())], &contents, "kelvin", true, false, 0, 0).len(), 1);
}

#[test]
fn ignoring_case_in_classes() {
    let files = [("a", "FOOzBAR &&"), ("b", "fooXbar"), ("c", "\u{212A} fooYbar"), ("d", "other")];
    let paths = |pattern: &str| -> Vec<String> {
        found(&files, pattern, true).matches.into_iter().map(|m| m.path).collect()
    };
    // A complement leaves out both cases of its members.
    assert_eq!(paths("foo[^x]bar"), vec!["a", "c"]);
    // Outside of classes, operators stand for themselves.
    assert_eq!(paths("foo[xyz]bar &&"), vec!["a"]);
    // What stands in another file does no harm.
    assert_eq!(paths("foo[x-z]bar"), vec!["a", "b", "c"]);
}

#[test]
fn bad_patterns_are_errors() {
    let files = [("a", "text")];
    match run(&files, "(", false, None, false, (0, 0), None) {
        Err(SearchError::Pattern(message)) => assert!(message.contains("unclosed group")),
        other => panic!("expected a pattern error, got {other:?}"),
    }
    match run(&files, "text", false, Some("["), false, (0, 0), None) {
        Err(SearchError::FilePattern(message)) => assert!(message.contains("unclosed character class")),
        other => panic!("expected a file pattern error, got {other:?}"),
    }
    // It parses, but the compiled program would be too large.
    let huge = r"\w{1000}{1000}";
    assert!(run(&files, huge, false, None, false, (0, 0), None).unwrap().matches.is_empty());
    assert!(matches!(filter_by_path(vec![at("a", 1)], Some("[")), Err(SearchError::FilePattern(_))));
}

#[test]
fn plans_are_evaluated_with_the_smallest_lists() {
    let out = write(&[("a", "abcd"), ("b", "abc"), ("c", "bcd")]);
    let index = MappedIndex::open(&out.lookup, &out.postings, &out.files).unwrap();
    let lookup = |t: &[u8]| QueryPlan::Lookup { hash: hash_ngram(t), trigram: t.to_vec() };
    assert_eq!(evaluate_plan(&lookup(b"abc"), &index), vec![0, 1]);
    assert_eq!(evaluate_plan(&QueryPlan::And(vec![lookup(b"abc"), lookup(b"bcd")]), &index), vec![0]);
    assert_eq!(evaluate_plan(&QueryPlan::Or(vec![lookup(b"abc"), lookup(b"bcd")]), &index), vec![0, 1, 2]);
    assert_eq!(evaluate_plan(&QueryPlan::And(vec![QueryPlan::FullScan, lookup(b"bcd")]), &index), vec![0, 2]);
    assert_eq!(evaluate_plan(&QueryPlan::Or(vec![]), &index), Vec::<u32>::new());
    assert_eq!(evaluate_plan(&QueryPlan::And(vec![lookup(b"xyz"), lookup(b"abc")]), &index), Vec::<u32>::new());
}

#[test]
fn engines() {
    assert_eq!(choose_engine(true, 2, 19), Engine::RgFullScan);
    assert_eq!(choose_engine(true, 2, 20), Engine::RgCandidates);
    assert_eq!(choose_engine(true, 10_000, 1_000_000), Engine::RgCandidates);
    assert_eq!(choose_engine(true, 10_001, 1_000_000), Engine::Native);
    assert_eq!(choose_engine(true, 0, 20), Engine::Native);
    assert_eq!(choose_engine(false, 2, 19), Engine::Native);
}

#[test]
fn a_search_is_prepared_and_finished() {
    let out = write(&[("a.rs", "needle"), ("b.rs", "other"), ("c.txt", "needle")]);
    let index = MappedIndex::open(&out.lookup, &out.postings, &out.files).unwrap();
    let prepared = prepare_search(&index, "needle", false, Some("rs$"), true).unwrap();
    assert_eq!(prepared.candidates, vec![(0, "a.rs".to_string())]);
    assert_eq!(prepared.total_files, 3);
    assert!(!prepared.full_scan);
    assert_eq!(prepared.engine, Engine::RgFullScan);
    let result = finish_search(&prepared, vec![at("b", 2), at("a", 9), at("b", 1)], Some(2), 3);
    assert_eq!(places(&result.matches), vec![("a".to_string(), 9), ("b".to_string(), 1)]);
    assert_eq!(result.files_searched, 1);
    assert!(result.rg_fullscan);
}

#[test]
fn matches_are_sorted_by_path_and_line() {
    let mut first = at("a", 3);
    first.line_text = "first".into();
    let mut second = at("a", 3);
    second.line_text = "second".into();
    let out = select_matches(vec![at("b", 1), first, at("a", 10), second, at("a", 2)], None);
    assert_eq!(
        places(&out),
        vec![
            ("a".to_string(), 2),
            ("a".to_string(), 3),
            ("a".to_string(), 3),
            ("a".to_string(), 10),
            ("b".to_string(), 1)
        ]
    );
    assert_eq!(out[1].line_text, "first");
    assert_eq!(out[2].line_text, "second");
    assert!(select_matches(vec![at("a", 1)], Some(0)).is_empty());
}

#[test]
fn matches_outside_the_file_pattern_are_dropped() {
    let matches = vec![at("a.rs", 1), at("b.txt", 1), at("c.rs", 1)];
    let kept = filter_by_path(matches.clone(), Some(r"\.rs$")).unwrap();
    assert_eq!(places(&kept), vec![("a.rs".to_string(), 1), ("c.rs".to_string(), 1)]);
    assert_eq!(filter_by_path(matches, None).unwrap().len(), 3);
}

#[test]
fn candidates_are_kept_by_their_marks() {
    let all = vec![(0, "a".to_string()), (4, "b".to_string())];
    assert_eq!(keep_marked(all, &[false, true]), vec![(4, "b".to_string())]);
}

#[test]
fn context_is_cut_at_the_ends_and_skips_unreadable_lines() {
    let lines = vec![Some("l1".to_string()), None, Some("l3".to_string()), Some("l4".to_string())];
    let out = collect_matches(&lines, &[false, false, true, false], "f", 5, usize::MAX);
    assert_eq!(out.len(), 1);
    // With context, the lines that can be read are numbered.
    assert_eq!(out[0].line_number, 2);
    assert_eq!(out[0].context_before, vec!["l1"]);
    assert_eq!(out[0].context_after, vec!["l4"]);
    let plain = collect_matches(&lines, &[false, false, true, false], "f", 0, 0);
    assert_eq!(plain[0].line_number, 3);
    assert!(plain[0].context_before.is_empty());
}

#[test]
fn matches_outside_the_index_are_dropped() {
    let out = write(&[("public.txt", "hello\n"), ("sub/other.txt", "hello\n")]);
    let index = MappedIndex::open(&out.lookup, &out.postings, &out.files).unwrap();
    let scanned = vec![at("public.txt", 1), at("secret.txt", 1), at("sub/other.txt", 1), at("public.txt", 2)];
    assert_eq!(
        places(&keep_indexed(scanned, &index)),
        vec![("public.txt".to_string(), 1), ("sub/other.txt".to_string(), 1), ("public.txt".to_string(), 2)]
    );
}

#[test]
fn context_of_matches_near_each_other() {
    let text = "a\nb\nMATCH1\nc\nd\ne\nMATCH2\nf\ng\nh\nMATCH3\ni\n";
    let result = run(&[("f.txt", text)], "MATCH", false, None, false, (1, 1), Some(2)).unwrap();
    assert_eq!(places(&result.matches), vec![("f.txt".to_string(), 3), ("f.txt".to_string(), 7)]);
    assert_eq!(result.matches[0].context_before, vec!["b"]);
    assert_eq!(result.matches[0].context_after, vec!["c"]);
    assert_eq!(result.matches[1].context_before, vec!["e"]);
    assert_eq!(result.matches[1].context_after, vec!["f"]);
}

#[test]
fn an_index_changes_no_result() {
    let files = [("b.rs", "let quick = 1;\nquick"), ("a/x.rs", "no match\nquick brown"), ("c.txt", "slow quick")];
    let mut walked = files.to_vec();
    walked.reverse();
    for (file_pattern, max) in [(None, None), (Some("rs$"), None), (None, Some(2))] {
        for files_only in [false, true] {
            let with = run(&files, "quick", false, file_pattern, files_only, (1, 0), max).unwrap().matches;
            let names = walked.iter().map(|f| f.0.to_string()).collect();
            let names = filter_paths(names, file_pattern).unwrap();
            let contents: Vec<Option<&[u8]>> = names
                .iter()
                .map(|name| walked.iter().find(|f| f.0 == name).map(|f| f.1.as_bytes()))
                .collect();
            let found = search_unindexed(&names, &contents, "quick", false, files_only, 1, 0).unwrap();
            let without = select_matches(found, max);
            assert_eq!(format!("{with:?}"), format!("{without:?}"));
            assert!(!with.is_empty());
        }
    }
}
