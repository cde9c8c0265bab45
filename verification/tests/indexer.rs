use ngi::freshness::{
    check_freshness, collect_file_states, collect_skipped_states, CurrentFile, FreshnessReport,
};
use ngi::indexer::{
    build_index, incremental_reindex, index_file, is_countable, is_too_large, is_updatable, paths_to_process, process_file,
    FileResult, InMemoryIndex, BINARY_CHECK_LEN, DEFAULT_MAX_FILE_SIZE,
};
use ngi::ngram::hash_ngram;
use ngi::sorting::sort_walked;
use ngi::storage::{write_filemeta, write_index_with_meta, IndexFiles, MappedIndex};
use std::collections::HashSet;

/// A file in memory: its path, its contents and its modification time.
type File<'a> = (&'a str, &'a [u8], u64);

fn scan(files: &[File], max_file_size: u64) -> Vec<FileResult> {
    files
        .iter()
        .map(|f| {
            if is_too_large(f.1.len() as u64, max_file_size) {
                FileResult::SkippedLarge
            } else {
                index_file(f.0.to_string(), f.1)
            }
        })
        .collect()
}

fn build(files: &[File], max_file_size: u64) -> InMemoryIndex {
    let results = scan(files, max_file_size);
    assert!(is_countable(&results, 0));
    build_index(results, 0, 1)
}

fn current(files: &[File]) -> Vec<CurrentFile> {
    files.iter().map(|f| CurrentFile { path: f.0.to_string(), stat: Some((f.2, f.1.len() as u64)) }).collect()
}

/// The files of an index, and the states of the files that were skipped.
fn write(files: &[File]) -> (IndexFiles, Vec<u8>) {
    let index = build(files, DEFAULT_MAX_FILE_SIZE);
    let states = collect_file_states(&index.files, &current(files));
    let skipped = collect_skipped_states(&index.files, &current(files));
    (write_index_with_meta(&index, "/root", 0, Some(&states), None), write_filemeta(&skipped))
}

/// The report on what changed, and the updated index.
fn update(old: &[File], new: &[File]) -> (FreshnessReport, InMemoryIndex) {
    let (out, skipped) = write(old);
    let report = check_freshness(out.filemeta.as_ref().unwrap(), Some(&skipped), &current(new)).unwrap();
    let old_index = MappedIndex::open(&out.lookup, &out.postings, &out.files).unwrap();
    let again: Vec<Option<(String, HashSet<u64>)>> = paths_to_process(&report)
        .into_iter()
        .map(|path| {
            let file = new.iter().find(|f| f.0 == path).unwrap();
            process_file(Some(path), file.1.len() as u64, Some(file.1), DEFAULT_MAX_FILE_SIZE)
        })
        .collect();
    assert!(is_updatable(&report, &old_index, &again));
    let index = incremental_reindex(&report, &old_index, again, 1);
    (report, index)
}

/// The posting lists with paths in place of file IDs.
fn named(index: &InMemoryIndex) -> Vec<(u64, Vec<String>)> {
    let mut all: Vec<(u64, Vec<String>)> = index
        .postings
        .iter()
        .map(|(&hash, ids)| {
            let mut paths: Vec<String> = ids.iter().map(|&id| index.files[id as usize].clone()).collect();
            paths.sort();
            (hash, paths)
        })
        .collect();
    all.sort();
    all
}

#[test]
fn empty_directory() {
    let index = build(&[], DEFAULT_MAX_FILE_SIZE);
    assert_eq!(index.files.len(), 0);
    assert!(index.postings.is_empty());
    assert_eq!(index.stats.file_count, 0);
    assert_eq!(index.stats.ngram_count, 0);
    assert_eq!(index.stats.total_ngrams, 0);
}

#[test]
fn single_file_indexed() {
    let index = build(&[("hello.txt", b"hello world from the indexer", 1)], DEFAULT_MAX_FILE_SIZE);
    assert_eq!(index.files.len(), 1);
    assert_eq!(index.files[0], "hello.txt");
    assert_eq!(index.stats.file_count, 1);
    assert!(index.stats.ngram_count > 0);
    assert!(index.stats.total_ngrams > 0);
    for list in index.postings.values() {
        assert!(list.contains(&0));
    }
}

#[test]
fn binary_file_skipped() {
    let mut bin_content = b"hello\x00world".to_vec();
    bin_content.extend_from_slice(&[0u8; 100]);
    let index = build(
        &[("binary.dat", &bin_content, 1), ("text.txt", b"some real text content here", 1)],
        DEFAULT_MAX_FILE_SIZE,
    );
    assert_eq!(index.files.len(), 1);
    assert_eq!(index.files[0], "text.txt");
    assert_eq!(index.stats.skipped_binary, 1);
}

#[test]
fn posting_lists_are_sorted() {
    let texts: Vec<String> =
        (0..5).map(|i| format!("shared content for file number {i} with enough text")).collect();
    let names: Vec<String> = (0..5).map(|i| format!("file_{i}.txt")).collect();
    let files: Vec<File> = (0..5).map(|i| (names[i].as_str(), texts[i].as_bytes(), 1)).collect();
    let index = build(&files, DEFAULT_MAX_FILE_SIZE);
    for (hash, list) in &index.postings {
        for window in list.windows(2) {
            assert!(window[0] <= window[1], "posting list for hash {hash} is not sorted by file_id");
        }
    }
}

#[test]
fn stats_populated() {
    let mut bin = vec![0u8; 100];
    bin.extend_from_slice(b"binary stuff");
    let index = build(
        &[("a.txt", b"some text content", 1), ("b.txt", b"more text content", 1), ("c.bin", &bin, 1)],
        DEFAULT_MAX_FILE_SIZE,
    );
    assert_eq!(index.stats.file_count, 2);
    assert_eq!(index.stats.skipped_binary, 1);
    assert!(index.stats.ngram_count > 0);
    assert!(index.stats.total_ngrams > 0);
    assert!(index.stats.build_duration > 0);
}

#[test]
fn large_file_skipped() {
    let big = vec![b'x'; (DEFAULT_MAX_FILE_SIZE + 1) as usize];
    let index = build(&[("big.txt", &big, 1), ("small.txt", b"small file", 1)], DEFAULT_MAX_FILE_SIZE);
    assert_eq!(index.stats.file_count, 1);
    assert_eq!(index.stats.skipped_large, 1);
    assert_eq!(index.files[0], "small.txt");
}

#[test]
fn multiple_files_share_postings() {
    let content = b"exactly the same content in both files";
    let index = build(&[("a.txt", content, 1), ("b.txt", content, 1)], DEFAULT_MAX_FILE_SIZE);
    assert_eq!(index.files.len(), 2);
    for list in index.postings.values() {
        assert_eq!(list.len(), 2, "expected both files in posting list");
    }
}

#[test]
fn incremental_after_file_change_produces_correct_results() {
    let new: Vec<File> = vec![
        ("a.txt", b"xray yankee zulu modified content here", 2),
        ("b.txt", b"delta echo foxtrot", 1),
    ];
    let (report, new_index) =
        update(&[("a.txt", b"alpha bravo charlie", 1), ("b.txt", b"delta echo foxtrot", 1)], &new);
    assert!(!report.is_fresh);
    assert!(report.changed.contains(&"a.txt".to_string()));
    assert_eq!(new_index.files.len(), 2);
    assert!(new_index.files.contains(&"a.txt".to_string()));
    assert!(new_index.files.contains(&"b.txt".to_string()));
    let full_index = build(&new, DEFAULT_MAX_FILE_SIZE);
    assert_eq!(new_index.files.len(), full_index.files.len());
    assert_eq!(named(&new_index), named(&full_index));
}

#[test]
fn incremental_after_file_delete_removes_old_matches() {
    let old: Vec<File> = vec![
        ("a.txt", b"unique_content_aaa_only_in_a", 1),
        ("b.txt", b"unique_content_bbb_only_in_b", 1),
        ("c.txt", b"unique_content_ccc_only_in_c", 1),
    ];
    let (report, new_index) = update(&old, &[old[0], old[2]]);
    assert!(report.deleted.contains(&"b.txt".to_string()));
    assert_eq!(new_index.files.len(), 2);
    assert!(!new_index.files.contains(&"b.txt".to_string()));
    assert!(new_index.files.contains(&"a.txt".to_string()));
    assert!(new_index.files.contains(&"c.txt".to_string()));
}

#[test]
fn incremental_after_file_add() {
    let old: Vec<File> = vec![("a.txt", b"hello world", 1)];
    let (report, new_index) =
        update(&old, &[old[0], ("b.txt", b"brand new file with unique_new_content", 1)]);
    assert!(report.added.contains(&"b.txt".to_string()));
    assert_eq!(new_index.files.len(), 2);
    assert!(new_index.files.contains(&"a.txt".to_string()));
    assert!(new_index.files.contains(&"b.txt".to_string()));
}

#[test]
fn incremental_matches_full_rebuild() {
    let old: Vec<File> = vec![
        ("a.txt", b"fn parse_token() { return token; }", 1),
        ("b.txt", b"fn compile_ast() { return ast; }", 1),
        ("c.txt", b"fn optimize_ir() { return ir; }", 1),
    ];
    let new: Vec<File> = vec![
        ("a.txt", b"fn parse_modified_token() { return new_token; }", 2),
        old[2],
        ("d.txt", b"fn new_function() { return value; }", 2),
    ];
    let (_, incr) = update(&old, &new);
    let full = build(&new, DEFAULT_MAX_FILE_SIZE);
    assert_eq!(incr.files.len(), full.files.len());

    let mut incr_files = incr.files.clone();
    incr_files.sort();
    let mut full_files = full.files.clone();
    full_files.sort();
    assert_eq!(incr_files, full_files);

    assert_eq!(incr.postings.len(), full.postings.len());
    assert_eq!(named(&incr), named(&full));
    assert_eq!(incr.files, vec!["c.txt", "a.txt", "d.txt"]);
}

#[test]
fn incremental_reindex_with_new_format() {
    let old: Vec<File> = vec![
        ("a.txt", b"fn parse_token() { return token; }", 1),
        ("b.txt", b"fn compile_ast() { return ast; }", 1),
    ];
    let new: Vec<File> = vec![("a.txt", b"fn parse_modified_token() { return new_token; }", 2), old[1]];
    let (_, incr) = update(&old, &new);
    let full = build(&new, DEFAULT_MAX_FILE_SIZE);
    assert_eq!(incr.files.len(), full.files.len());
    assert_eq!(incr.postings.len(), full.postings.len());
}

#[test]
fn file_ids_are_deterministic_across_rebuilds() {
    let files: Vec<File> = vec![
        ("zebra.py", b"def zebra(): pass", 1),
        ("alpha.py", b"def alpha(): pass", 1),
        ("middle.py", b"def middle(): pass", 1),
        ("sub/beta.py", b"def beta(): pass", 1),
    ];
    let index1 = build(&files, DEFAULT_MAX_FILE_SIZE);
    let index2 = build(&files, DEFAULT_MAX_FILE_SIZE);
    assert_eq!(index1.files, index2.files, "file ordering must be identical across builds");
    let mut sorted = index1.files.clone();
    sorted.sort();
    assert_eq!(index1.files, sorted, "files must be in sorted order");
    assert_eq!(index1.files, vec!["alpha.py", "middle.py", "sub/beta.py", "zebra.py"]);

    let walked = files.iter().map(|f| (f.0.to_string(), f.1.len() as u64)).collect();
    assert_eq!(
        sort_walked(walked),
        vec![
            ("alpha.py".to_string(), 17),
            ("middle.py".to_string(), 18),
            ("sub/beta.py".to_string(), 16),
            ("zebra.py".to_string(), 17),
        ]
    );
}

#[test]
fn unreadable_file_counted_in_stats() {
    let index = build(
        &[("binary.dat", &[0u8, 1, 2, 3, 0, 0, 0, 0], 1), ("good.txt", b"fn parse_token() { }", 1)],
        DEFAULT_MAX_FILE_SIZE,
    );
    assert_eq!(index.stats.file_count, 1);
    assert!(index.stats.skipped_binary >= 1);
}

#[test]
fn small_max_file_size_skips_large_files() {
    let big_content = "x".repeat(200);
    let index = build(&[("big.txt", big_content.as_bytes(), 1), ("small.txt", b"tiny", 1)], 100);
    assert_eq!(index.stats.file_count, 1);
    assert_eq!(index.stats.skipped_large, 1);
    assert_eq!(index.files[0], "small.txt");
}

#[test]
fn large_max_file_size_includes_files_old_limit_would_skip() {
    let size = 2 * 1024 * 1024;
    let content = "a".repeat(size);
    let files: Vec<File> = vec![("medium.txt", content.as_bytes(), 1)];

    let index_small = build(&files, 1_048_576);
    assert_eq!(index_small.stats.file_count, 0);
    assert_eq!(index_small.stats.skipped_large, 1);

    let index_large = build(&files, DEFAULT_MAX_FILE_SIZE);
    assert_eq!(index_large.stats.file_count, 1);
    assert_eq!(index_large.stats.skipped_large, 0);
    assert_eq!(index_large.files[0], "medium.txt");
}

// ---------------------------------------------------------------------------

#[test]
fn a_null_byte_counts_only_near_the_start() {
    let mut late = vec![b'a'; BINARY_CHECK_LEN];
    late.push(0);
    assert!(matches!(index_file("late".into(), &late), FileResult::Indexed { .. }));
    late[BINARY_CHECK_LEN - 1] = 0;
    assert!(matches!(index_file("early".into(), &late), FileResult::SkippedBinary));
}

#[test]
fn errors_of_files_and_of_the_walk_add_up() {
    let results = vec![
        FileResult::Error("unreadable".into()),
        index_file("a".into(), b"abcd"),
        FileResult::SkippedLarge,
        FileResult::SkippedBinary,
    ];
    let index = build_index(results, 2, 5);
    assert_eq!(index.stats.skipped_errors, 3);
    assert_eq!(index.stats.skipped_large, 1);
    assert_eq!(index.stats.skipped_binary, 1);
    assert_eq!(index.stats.build_duration, 5);
    assert_eq!(index.stats.total_ngrams, 2);
    assert_eq!(index.postings[&hash_ngram(b"abc")], vec![0]);
    assert_eq!(index.postings[&hash_ngram(b"bcd")], vec![0]);
}

#[test]
fn counts_that_do_not_fit_are_refused() {
    assert!(!is_countable(&[FileResult::Error("e".into())], usize::MAX));
    assert!(is_countable(&[FileResult::SkippedLarge], usize::MAX));
    assert!(is_countable(&[FileResult::Error("e".into())], usize::MAX - 1));
}

#[test]
fn files_to_process_again_must_be_usable() {
    assert!(process_file(None, 4, Some(b"abcd"), 10).is_none());
    assert!(process_file(Some("a".into()), 11, Some(b"abcd"), 10).is_none());
    assert!(process_file(Some("a".into()), 4, None, 10).is_none());
    assert!(process_file(Some("a".into()), 4, Some(b"ab\0d"), 10).is_none());
    let (path, hashes) = process_file(Some("a".into()), 10, Some(b"abc"), 10).unwrap();
    assert_eq!(path, "a");
    assert_eq!(hashes.len(), 1);
}

#[test]
fn an_update_drops_files_that_cannot_be_processed() {
    let old: Vec<File> = vec![("a.txt", b"alpha", 1), ("b.txt", b"bravo", 1)];
    let new: Vec<File> = vec![("a.txt", b"al\0ha", 2), ("b.txt", b"bravo", 1)];
    let (report, index) = update(&old, &new);
    assert_eq!(report.changed, vec!["a.txt"]);
    assert_eq!(index.files, vec!["b.txt"]);
    assert!(!index.postings.contains_key(&hash_ngram(b"alp")));
    assert_eq!(index.postings[&hash_ngram(b"bra")], vec![0]);
    assert_eq!(index.stats.total_ngrams, 0);
}

#[test]
fn paths_are_sorted_as_strings() {
    let walked = vec![("a/b".to_string(), 1), ("a.txt".to_string(), 2), ("a".to_string(), 3), ("A".to_string(), 4)];
    let paths: Vec<String> = sort_walked(walked).into_iter().map(|f| f.0).collect();
    assert_eq!(paths, vec!["A", "a", "a.txt", "a/b"]);
}

#[test]
fn the_order_of_the_walk_does_not_matter() {
    let files: Vec<File> = vec![("b/x.rs", b"second file", 1), ("a.rs", b"first file", 2), ("c.bin", b"\0", 3)];
    let mut reversed = files.clone();
    reversed.reverse();
    let (one, _) = write(&files);
    let (other, _) = write(&reversed);
    assert_eq!(one.files, "a.rs\nb/x.rs");
    assert_eq!(one.files, other.files);
    assert_eq!(one.lookup, other.lookup);
    assert_eq!(one.postings, other.postings);
}

#[test]
fn skipped_files_are_not_counted_as_indexed() {
    let files: Vec<File> = vec![("a.txt", b"hello", 1), ("b.bin", &[0u8; 4], 1)];
    let (out, skipped) = write(&files);
    let filemeta = out.filemeta.unwrap();
    let report = check_freshness(&filemeta, Some(&skipped), &current(&files)).unwrap();
    assert_eq!(report.total_indexed, 1);
    assert!(report.is_fresh);

    // A skipped file that changes may have become one to index.
    let edited: Vec<File> = vec![files[0], ("b.bin", b"text", 2)];
    let report = check_freshness(&filemeta, Some(&skipped), &current(&edited)).unwrap();
    assert_eq!(report.added, vec!["b.bin"]);
    let (_, index) = update(&files, &edited);
    assert_eq!(index.files, vec!["a.txt", "b.bin"]);

    // Nothing is known of it without a record.
    let report = check_freshness(&filemeta, None, &current(&files)).unwrap();
    assert_eq!(report.added, vec!["b.bin"]);
}

#[test]
fn an_update_names_the_files_that_a_rebuild_names() {
    let old: Vec<File> = vec![
        ("keep.rs", b"shared words kept", 1),
        ("edit.rs", b"shared words before", 1),
        ("gone.rs", b"shared words gone", 1),
        ("bin", b"\0\0", 1),
    ];
    let new: Vec<File> = vec![
        ("zz.rs", b"shared words new", 2),
        ("edit.rs", b"shared words after", 2),
        ("bin", b"\0\0", 1),
        ("keep.rs", b"shared words kept", 1),
    ];
    let (report, index) = update(&old, &new);
    assert_eq!(report.added, vec!["zz.rs"]);
    assert_eq!(report.changed, vec!["edit.rs"]);
    assert_eq!(report.deleted, vec!["gone.rs"]);
    let full = build(&new, DEFAULT_MAX_FILE_SIZE);
    assert_eq!(full.files, vec!["edit.rs", "keep.rs", "zz.rs"]);
    assert_eq!(index.files, vec!["keep.rs", "edit.rs", "zz.rs"]);
    assert_eq!(index.postings.len(), full.postings.len());
    for (hash, ids) in &full.postings {
        let mut wanted: Vec<&str> = ids.iter().map(|id| full.files[*id as usize].as_str()).collect();
        let mut got: Vec<&str> = index.postings[hash].iter().map(|id| index.files[*id as usize].as_str()).collect();
        wanted.sort();
        got.sort();
        assert_eq!(got, wanted);
        assert!(index.postings[hash].windows(2).all(|w| w[0] < w[1]));
    }
}
