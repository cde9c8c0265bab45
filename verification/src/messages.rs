//! What the messages of the program say.

use crate::command;
use crate::error::StorageError;
use crate::freshness::FreshnessReport;
use crate::query;
use crate::query::PlanView;
use crate::report;
use crate::scan::MatchView;
use crate::text;
use crate::walk;
use vstd::prelude::*;

verus! {

// ---------------------------------------------------------------------------
// The numbers in a message
// ---------------------------------------------------------------------------

/// The numbers in a text, in their order: every run of digits that is not part of a longer
/// one.
pub open spec fn numbers(s: Seq<char>) -> Seq<nat>
    decreases s.len(),
{
    if s.len() == 0 {
        Seq::empty()
    } else {
        let run = text::digit_run(s) as int;
        if run == 0 || run > s.len() {
            numbers(s.skip(1))
        } else {
            seq![text::digits_value(s.take(run))] + numbers(s.skip(run))
        }
    }
}

/// Whether what follows a number ends it.
spec fn ends_number(s: Seq<char>) -> bool {
    s.len() == 0 || !text::is_digit(s[0])
}

proof fn lemma_run(s: Seq<char>)
    ensures
        text::digit_run(s) <= s.len(),
        forall|k: int| 0 <= k < text::digit_run(s) ==> text::is_digit(#[trigger] s[k]),
        text::digit_run(s) < s.len() ==> !text::is_digit(s[text::digit_run(s) as int]),
    decreases s.len(),
{
    if s.len() > 0 && text::is_digit(s[0]) {
        let t = s.drop_first();
        lemma_run(t);
        let n = text::digit_run(t) as int;
        assert forall|k: int| 0 <= k < text::digit_run(s) implies text::is_digit(#[trigger] s[k]) by {
            if k > 0 {
                assert(text::is_digit(t[k - 1]));
            }
        }
        if n < t.len() {
            assert(s[n + 1] == t[n]);
        }
    }
}

proof fn lemma_numbers(a: Seq<char>, b: Seq<char>)
    requires
        ends_number(b),
    ensures
        numbers(a + b) == numbers(a) + numbers(b),
    decreases a.len(),
{
    let s = a + b;
    if a.len() == 0 {
        assert(s =~= b);
        assert(numbers(a) + numbers(b) =~= numbers(b));
    } else {
        let n = text::digit_run(a) as int;
        lemma_run(a);
        assert forall|k: int| 0 <= k < n implies text::is_digit(#[trigger] s[k]) by {
            assert(text::is_digit(a[k]));
        }
        text::lemma_digit_run(s, n);
        if n < a.len() {
            assert(s[n] == a[n]);
        } else if b.len() > 0 {
            assert(s[n] == b[0]);
        }
        assert(text::digit_run(s) == n);
        if n == 0 {
            lemma_numbers(a.skip(1), b);
            assert(s.skip(1) =~= a.skip(1) + b);
        } else {
            lemma_numbers(a.skip(n), b);
            assert(s.skip(n) =~= a.skip(n) + b);
            assert(s.take(n) =~= a.take(n));
            let one = seq![text::digits_value(a.take(n))];
            assert(one + (numbers(a.skip(n)) + numbers(b)) =~= one + numbers(a.skip(n)) + numbers(b));
        }
    }
}

proof fn lemma_no_numbers(s: Seq<char>)
    requires
        forall|k: int| 0 <= k < s.len() ==> !text::is_digit(#[trigger] s[k]),
    ensures
        numbers(s) == Seq::<nat>::empty(),
    decreases s.len(),
{
    if s.len() > 0 {
        assert(!text::is_digit(s[0]));
        lemma_no_numbers(s.skip(1));
    }
}

proof fn lemma_one_number(n: nat)
    ensures
        numbers(text::decimal(n)) == seq![n],
{
    let d = text::decimal(n);
    text::lemma_decimal_digits(n);
    text::lemma_digit_run(d, d.len() as int);
    assert(d.take(d.len() as int) =~= d);
    assert(d.skip(d.len() as int) =~= Seq::empty());
    assert(numbers(d.skip(d.len() as int)) =~= Seq::<nat>::empty());
    assert(numbers(d) =~= seq![n]);
}

/// Words before a number or another text that ends with one.
proof fn lemma_then_words(s: Seq<char>, words: Seq<char>)
    requires
        words.len() > 0,
        forall|k: int| 0 <= k < words.len() ==> !text::is_digit(#[trigger] words[k]),
    ensures
        numbers(s + words) == numbers(s),
        forall|more: Seq<char>| #[trigger] numbers(s + words + more) == numbers(s) + numbers(more),
{
    assert(!text::is_digit(words[0]));
    lemma_numbers(s, words);
    lemma_no_numbers(words);
    assert(numbers(s) + Seq::<nat>::empty() =~= numbers(s));
    assert forall|more: Seq<char>| #[trigger] numbers(s + words + more) == numbers(s) + numbers(more) by {
        lemma_words_first(words, more);
        assert(s + words + more =~= s + (words + more));
        assert((words + more)[0] == words[0]);
        lemma_numbers(s, words + more);
    }
}

proof fn lemma_words_first(words: Seq<char>, more: Seq<char>)
    requires
        forall|k: int| 0 <= k < words.len() ==> !text::is_digit(#[trigger] words[k]),
    ensures
        numbers(words + more) == numbers(more),
    decreases words.len(),
{
    if words.len() == 0 {
        assert(words + more =~= more);
    } else {
        assert(!text::is_digit(words[0]));
        lemma_words_first(words.skip(1), more);
        assert((words + more).skip(1) =~= words.skip(1) + more);
        assert((words + more)[0] == words[0]);
    }
}

/// What a text says beside its numbers: all that is no digit.
pub open spec fn words(s: Seq<char>) -> Seq<char> {
    s.filter(|c: char| !('0' <= c <= '9'))
}

proof fn lemma_words(a: Seq<char>, b: Seq<char>)
    ensures
        words(a + b) == words(a) + words(b),
{
    Seq::filter_distributes_over_add(a, b, |c: char| !('0' <= c <= '9'));
}

proof fn lemma_only_words(s: Seq<char>)
    requires
        forall|k: int| 0 <= k < s.len() ==> !text::is_digit(#[trigger] s[k]),
    ensures
        words(s) == s,
    decreases s.len(),
{
    reveal(Seq::filter);
    if s.len() > 0 {
        assert(!text::is_digit(s[s.len() - 1]));
        lemma_only_words(s.drop_last());
        assert(s.drop_last().push(s.last()) =~= s);
    }
}

proof fn lemma_no_words(n: nat)
    ensures
        words(text::decimal(n)) == Seq::<char>::empty(),
    decreases n,
{
    reveal(Seq::filter);
    let d = text::decimal(n);
    if n >= 10 {
        lemma_no_words(n / 10);
        assert(d.drop_last() =~= text::decimal(n / 10));
    } else {
        assert(d.drop_last() =~= Seq::empty());
        assert(words(d.drop_last()) =~= Seq::empty());
    }
}

/// A number with words behind it.
proof fn lemma_number_words(s: Seq<char>, n: nat, more: Seq<char>)
    requires
        forall|k: int| 0 <= k < more.len() ==> !text::is_digit(#[trigger] more[k]),
    ensures
        words(s + text::decimal(n) + more) == words(s) + more,
        words(s + text::decimal(n)) == words(s),
{
    lemma_words(s + text::decimal(n), more);
    lemma_words(s, text::decimal(n));
    lemma_no_words(n);
    lemma_only_words(more);
    assert(words(s) + Seq::<char>::empty() =~= words(s));
}

/// A text with words behind it.
proof fn lemma_text_words(s: Seq<char>, t: Seq<char>, more: Seq<char>)
    requires
        forall|k: int| 0 <= k < more.len() ==> !text::is_digit(#[trigger] more[k]),
    ensures
        words(s + t + more) == words(s) + words(t) + more,
{
    lemma_words(s + t, more);
    lemma_words(s, t);
    lemma_only_words(more);
}

/// The statistics of an index name the numbers of files and of n-grams and the duration, in
/// this order, and then the size in its own words, at the end of the last line.
#[verifier::rlimit(40)]
pub proof fn law_statistics(files: nat, ngrams: nat, duration_ms: nat, size: Seq<char>)
    ensures
        numbers(command::stats_text(files, ngrams, duration_ms, size)) =~= seq![files, ngrams, duration_ms] + numbers(
            size,
        ),
        command::stats_text(files, ngrams, duration_ms, size) == command::stats_text(
            files,
            ngrams,
            duration_ms,
            Seq::empty(),
        ).drop_last() + size + seq!['\n'],
        words(command::stats_text(files, ngrams, duration_ms, size))
            == "Index statistics:\n  files:    \n  n-grams:  \n  built in: ms\n  size:     "@ + words(size) + "\n"@,
{
    reveal_strlit("Index statistics:\n  files:    ");
    reveal_strlit("\n  n-grams:  ");
    reveal_strlit("\n  built in: ");
    reveal_strlit("ms\n  size:     ");
    reveal_strlit("\n");
    lemma_one_number(files);
    lemma_one_number(ngrams);
    lemma_one_number(duration_ms);
    let p1 = "Index statistics:\n  files:    "@ + text::decimal(files);
    lemma_words_first("Index statistics:\n  files:    "@, text::decimal(files));
    lemma_then_words(p1, "\n  n-grams:  "@);
    let p2 = p1 + "\n  n-grams:  "@ + text::decimal(ngrams);
    lemma_then_words(p2, "\n  built in: "@);
    let p3 = p2 + "\n  built in: "@ + text::decimal(duration_ms);
    lemma_then_words(p3, "ms\n  size:     "@);
    let p4 = p3 + "ms\n  size:     "@ + size;
    lemma_then_words(p4, "\n"@);
    lemma_only_words("Index statistics:\n  files:    "@);
    lemma_number_words("Index statistics:\n  files:    "@, files, "\n  n-grams:  "@);
    lemma_number_words(p1 + "\n  n-grams:  "@, ngrams, "\n  built in: "@);
    lemma_number_words(p2 + "\n  built in: "@, duration_ms, "ms\n  size:     "@);
    lemma_text_words(p3 + "ms\n  size:     "@, size, "\n"@);
    assert("Index statistics:\n  files:    "@ + "\n  n-grams:  "@ + "\n  built in: "@ + "ms\n  size:     "@
        =~= "Index statistics:\n  files:    \n  n-grams:  \n  built in: ms\n  size:     "@) by {
        reveal_strlit("Index statistics:\n  files:    \n  n-grams:  \n  built in: ms\n  size:     ");
    }
    assert(command::stats_text(files, ngrams, duration_ms, size) =~= command::stats_text(
        files,
        ngrams,
        duration_ms,
        Seq::empty(),
    ).drop_last() + size + seq!['\n']);
}

/// What indexing did is told by the numbers of files and of n-grams, the duration, the size,
/// the mode and the limit on sizes, in this order and each with its words.
#[verifier::rlimit(40)]
pub proof fn law_indexing_message(
    files: nat,
    ngrams: nat,
    took: Seq<char>,
    size: Seq<char>,
    mode: Seq<char>,
    limit: Seq<char>,
)
    ensures
        numbers(command::indexed_text(files, ngrams, took, size, mode, limit)) =~= seq![files, ngrams] + numbers(took)
            + numbers(size) + numbers(mode) + numbers(limit),
        words(command::indexed_text(files, ngrams, took, size, mode, limit)) == "Indexed  files,  unique n-grams in "@
            + words(took) + "ms ("@ + words(size) + ") ["@ + words(mode) + "] (max file size: "@ + words(limit) + ")"@,
{
    reveal_strlit("Indexed ");
    reveal_strlit(" files, ");
    reveal_strlit(" unique n-grams in ");
    reveal_strlit("ms (");
    reveal_strlit(") [");
    reveal_strlit("] (max file size: ");
    reveal_strlit(")");
    lemma_one_number(files);
    lemma_one_number(ngrams);
    let p1 = "Indexed "@ + text::decimal(files);
    lemma_words_first("Indexed "@, text::decimal(files));
    lemma_then_words(p1, " files, "@);
    let p2 = p1 + " files, "@ + text::decimal(ngrams);
    lemma_then_words(p2, " unique n-grams in "@);
    let p3 = p2 + " unique n-grams in "@ + took;
    lemma_then_words(p3, "ms ("@);
    let p4 = p3 + "ms ("@ + size;
    lemma_then_words(p4, ") ["@);
    let p5 = p4 + ") ["@ + mode;
    lemma_then_words(p5, "] (max file size: "@);
    let p6 = p5 + "] (max file size: "@ + limit;
    lemma_then_words(p6, ")"@);
    lemma_only_words("Indexed "@);
    lemma_number_words("Indexed "@, files, " files, "@);
    lemma_number_words(p1 + " files, "@, ngrams, " unique n-grams in "@);
    lemma_text_words(p2 + " unique n-grams in "@, took, "ms ("@);
    lemma_text_words(p3 + "ms ("@, size, ") ["@);
    lemma_text_words(p4 + ") ["@, mode, "] (max file size: "@);
    lemma_text_words(p5 + "] (max file size: "@, limit, ")"@);
    assert("Indexed "@ + " files, "@ + " unique n-grams in "@ =~= "Indexed  files,  unique n-grams in "@) by {
        reveal_strlit("Indexed  files,  unique n-grams in ");
    }
}

/// What an update did is told by the numbers of changed, of new and of deleted files, each
/// with its word.
pub proof fn law_update_message(changed: nat, added: nat, deleted: nat)
    ensures
        numbers(report::update_summary(changed, added, deleted)) =~= seq![changed, added, deleted],
        words(report::update_summary(changed, added, deleted)) == "incremental:  changed,  new,  deleted"@,
{
    reveal_strlit("incremental: ");
    reveal_strlit(" changed, ");
    reveal_strlit(" new, ");
    reveal_strlit(" deleted");
    lemma_one_number(changed);
    lemma_one_number(added);
    lemma_one_number(deleted);
    let p1 = "incremental: "@ + text::decimal(changed);
    lemma_words_first("incremental: "@, text::decimal(changed));
    lemma_then_words(p1, " changed, "@);
    let p2 = p1 + " changed, "@ + text::decimal(added);
    lemma_then_words(p2, " new, "@);
    let p3 = p2 + " new, "@ + text::decimal(deleted);
    lemma_then_words(p3, " deleted"@);
    lemma_only_words("incremental: "@);
    lemma_number_words("incremental: "@, changed, " changed, "@);
    lemma_number_words(p1 + " changed, "@, added, " new, "@);
    lemma_number_words(p2 + " new, "@, deleted, " deleted"@);
    reveal_strlit("incremental:  changed,  new,  deleted");
    assert("incremental: "@ + " changed, "@ + " new, "@ + " deleted"@ =~= "incremental:  changed,  new,  deleted"@);
}

/// How fresh an index is, is told by the numbers of changed, of new and of deleted files,
/// each with its word, where it is stale, and without a number where it is fresh.
pub proof fn law_freshness_message(report: FreshnessReport)
    ensures
        numbers(command::freshness_text(report)) =~= (if report.is_fresh {
            Seq::empty()
        } else {
            seq![report.changed@.len(), report.added@.len(), report.deleted@.len()]
        }),
        words(command::freshness_text(report)) == (if report.is_fresh {
            "  freshness: index is fresh"@
        } else {
            "  freshness: STALE —  changed,  new,  deleted"@
        }),
{
    reveal_strlit("  freshness: STALE — ");
    reveal_strlit(" changed, ");
    reveal_strlit(" new, ");
    reveal_strlit(" deleted");
    lemma_one_number(report.changed@.len());
    lemma_one_number(report.added@.len());
    lemma_one_number(report.deleted@.len());
    let p1 = "  freshness: STALE — "@ + text::decimal(report.changed@.len());
    lemma_words_first("  freshness: STALE — "@, text::decimal(report.changed@.len()));
    lemma_then_words(p1, " changed, "@);
    let p2 = p1 + " changed, "@ + text::decimal(report.added@.len());
    lemma_then_words(p2, " new, "@);
    let p3 = p2 + " new, "@ + text::decimal(report.deleted@.len());
    lemma_then_words(p3, " deleted"@);
    reveal_strlit("  freshness: index is fresh");
    lemma_no_numbers("  freshness: index is fresh"@);
    lemma_only_words("  freshness: index is fresh"@);
    lemma_only_words("  freshness: STALE — "@);
    lemma_number_words("  freshness: STALE — "@, report.changed@.len(), " changed, "@);
    lemma_number_words(p1 + " changed, "@, report.added@.len(), " new, "@);
    lemma_number_words(p2 + " new, "@, report.deleted@.len(), " deleted"@);
    reveal_strlit("  freshness: STALE —  changed,  new,  deleted");
    assert("  freshness: STALE — "@ + " changed, "@ + " new, "@ + " deleted"@
        =~= "  freshness: STALE —  changed,  new,  deleted"@);
}

proof fn lemma_counts(matches: Seq<MatchView>)
    ensures
        numbers(command::count_text(matches)) == seq![matches.len(), report::match_paths(matches).len()],
        forall|more: Seq<char>|
            #[trigger] numbers(command::count_text(matches) + more) == seq![
                matches.len(),
                report::match_paths(matches).len(),
            ] + numbers(more),
{
    let files = report::match_paths(matches).len();
    reveal_strlit(" matches in ");
    reveal_strlit(" files (");
    lemma_one_number(matches.len());
    lemma_one_number(files);
    let p1 = text::decimal(matches.len());
    lemma_then_words(p1, " matches in "@);
    let p2 = p1 + " matches in "@ + text::decimal(files);
    lemma_then_words(p2, " files ("@);
    let both = seq![matches.len(), files];
    assert(numbers(p1) + numbers(text::decimal(files)) =~= both);
    assert forall|more: Seq<char>| #[trigger] numbers(command::count_text(matches) + more) == both + numbers(more) by {
        assert(numbers(p2 + " files ("@ + more) == numbers(p2) + numbers(more));
    }
}

proof fn lemma_scan_message(total_files: nat, took: Seq<char>)
    ensures
        numbers(text::decimal(total_files) + " files scanned, took "@ + took + "ms) [full scan]"@) == seq![total_files]
            + numbers(took),
{
    reveal_strlit(" files scanned, took ");
    reveal_strlit("ms) [full scan]");
    lemma_one_number(total_files);
    let p1 = text::decimal(total_files);
    lemma_then_words(p1, " files scanned, took "@);
    let p2 = p1 + " files scanned, took "@ + took;
    lemma_then_words(p2, "ms) [full scan]"@);
}

#[verifier::rlimit(40)]
proof fn lemma_narrowed_message(files_searched: nat, total_files: nat, took: Seq<char>, mode: Seq<char>)
    requires
        numbers(mode) == Seq::<nat>::empty(),
    ensures
        numbers(
            text::decimal(files_searched) + " candidates from "@ + text::decimal(total_files) + " total, took "@ + took
                + "ms) ["@ + mode + "]"@,
        ) == seq![files_searched, total_files] + numbers(took),
{
    reveal_strlit(" candidates from ");
    reveal_strlit(" total, took ");
    reveal_strlit("ms) [");
    reveal_strlit("]");
    lemma_one_number(files_searched);
    lemma_one_number(total_files);
    let p1 = text::decimal(files_searched);
    lemma_then_words(p1, " candidates from "@);
    let p2 = p1 + " candidates from "@ + text::decimal(total_files);
    lemma_then_words(p2, " total, took "@);
    let p3 = p2 + " total, took "@ + took;
    lemma_then_words(p3, "ms) ["@);
    let p4 = p3 + "ms) ["@ + mode;
    lemma_then_words(p4, "]"@);
    assert(seq![files_searched] + seq![total_files] =~= seq![files_searched, total_files]);
    assert(numbers(p3) + Seq::<nat>::empty() =~= numbers(p3));
}

proof fn lemma_ends_with(s: Seq<char>, end: Seq<char>)
    ensures
        (s + end).skip((s + end).len() - end.len()) == end,
{
    assert((s + end).skip((s + end).len() - end.len()) =~= end);
}

/// What a search did is told by the numbers of matches and of the files that they are in, of
/// the files that were looked at where the index narrowed the search, of all files, and the
/// duration. A full scan of the library is marked as such, and so is one by ripgrep.
#[verifier::rlimit(40)]
pub proof fn law_search_message(
    matches: Seq<MatchView>,
    files_searched: nat,
    total_files: nat,
    full_scan: bool,
    rg_fullscan: bool,
    took: Seq<char>,
    message: Seq<char>,
)
    requires
        message == command::search_text(matches, files_searched, total_files, full_scan, rg_fullscan, took),
    ensures
        numbers(message) =~= seq![
            matches.len(),
            matches.map_values(|m: MatchView| m.path).to_set().len(),
        ] + (if full_scan {
            seq![total_files]
        } else {
            seq![files_searched, total_files]
        }) + numbers(took),
        ({
            let mark = if full_scan {
                "[full scan]"@
            } else if rg_fullscan {
                "[rg fullscan]"@
            } else {
                "[indexed]"@
            };
            message.len() >= mark.len() && message.skip(message.len() - mark.len()) == mark
        }),
{
    report::lemma_match_paths(matches);
    lemma_counts(matches);
    let c = command::count_text(matches);
    if full_scan {
        let head = text::decimal(total_files) + " files scanned, took "@ + took;
        let rest = head + "ms) [full scan]"@;
        lemma_scan_message(total_files, took);
        assert(c + rest =~= message);
        lemma_marks(c + head);
        lemma_ends_with(c + head + "ms) "@, "[full scan]"@);
        assert(c + rest =~= c + head + "ms) [full scan]"@);
    } else {
        let mode = if rg_fullscan {
            "rg fullscan"@
        } else {
            "indexed"@
        };
        assert(numbers(mode) == Seq::<nat>::empty()) by {
            reveal_strlit("rg fullscan");
            reveal_strlit("indexed");
            lemma_no_numbers(mode);
        }
        let head = text::decimal(files_searched) + " candidates from "@ + text::decimal(total_files) + " total, took "@
            + took;
        let rest = head + "ms) ["@ + mode + "]"@;
        lemma_narrowed_message(files_searched, total_files, took, mode);
        assert(c + rest =~= message);
        lemma_marks(c + head);
        assert(c + rest =~= c + head + "ms) ["@ + mode + "]"@);
        if rg_fullscan {
            lemma_ends_with(c + head + "ms) "@, "[rg fullscan]"@);
        } else {
            lemma_ends_with(c + head + "ms) "@, "[indexed]"@);
        }
    }
}

/// How the marks stand at the end.
proof fn lemma_marks(s: Seq<char>)
    ensures
        s + "ms) [full scan]"@ == s + "ms) "@ + "[full scan]"@,
        s + "ms) ["@ + "rg fullscan"@ + "]"@ == s + "ms) "@ + "[rg fullscan]"@,
        s + "ms) ["@ + "indexed"@ + "]"@ == s + "ms) "@ + "[indexed]"@,
{
    reveal_strlit("ms) [full scan]");
    reveal_strlit("ms) ");
    reveal_strlit("[full scan]");
    reveal_strlit("ms) [");
    reveal_strlit("rg fullscan");
    reveal_strlit("indexed");
    reveal_strlit("]");
    reveal_strlit("[rg fullscan]");
    reveal_strlit("[indexed]");
    assert(s + "ms) [full scan]"@ =~= s + "ms) "@ + "[full scan]"@);
    assert(s + "ms) ["@ + "rg fullscan"@ + "]"@ =~= s + "ms) "@ + "[rg fullscan]"@);
    assert(s + "ms) ["@ + "indexed"@ + "]"@ =~= s + "ms) "@ + "[indexed]"@);
}

// ---------------------------------------------------------------------------
// What a walk leaves out
// ---------------------------------------------------------------------------

/// A walk leaves out directories of nine names at any depth: the pattern of each is an
/// exclamation mark, two asterisks, and the name between slashes.
#[verifier::rlimit(40)]
pub proof fn law_walk_leaves_out(name: Seq<char>)
    ensures
        walk::ignore_patterns().contains("!**/"@ + name + "/"@) <==> seq![
            "node_modules"@,
            "venv"@,
            ".venv"@,
            "__pycache__"@,
            ".tox"@,
            ".mypy_cache"@,
            ".eggs"@,
            "*.egg-info"@,
            ".ngi"@,
        ].contains(name),
        walk::ignore_patterns().len() == 12,
{
    let patterns = walk::ignore_patterns();
    let names = seq!["node_modules"@, "venv"@, ".venv"@, "__pycache__"@, ".tox"@, ".mypy_cache"@, ".eggs"@,
        "*.egg-info"@, ".ngi"@];
    let x = "!**/"@ + name + "/"@;
    lemma_patterns();
    lemma_starts(name);
    assert(patterns[0] == "!**/node_modules/"@);
    lemma_middle("!**/"@, name, "node_modules"@, "/"@);
    assert(names[0] == "node_modules"@);
    assert(patterns[1] == "!**/venv/"@);
    lemma_middle("!**/"@, name, "venv"@, "/"@);
    assert(names[1] == "venv"@);
    assert(patterns[2] == "!**/.venv/"@);
    lemma_middle("!**/"@, name, ".venv"@, "/"@);
    assert(names[2] == ".venv"@);
    assert(patterns[3] == "!**/__pycache__/"@);
    lemma_middle("!**/"@, name, "__pycache__"@, "/"@);
    assert(names[3] == "__pycache__"@);
    assert(patterns[4] == "!/target/"@);
    lemma_starts("target"@);
    assert(patterns[5] == "!**/.tox/"@);
    lemma_middle("!**/"@, name, ".tox"@, "/"@);
    assert(names[4] == ".tox"@);
    assert(patterns[6] == "!/dist/"@);
    lemma_starts("dist"@);
    assert(patterns[7] == "!**/.mypy_cache/"@);
    lemma_middle("!**/"@, name, ".mypy_cache"@, "/"@);
    assert(names[5] == ".mypy_cache"@);
    assert(patterns[8] == "!/build/"@);
    lemma_starts("build"@);
    assert(patterns[9] == "!**/.eggs/"@);
    lemma_middle("!**/"@, name, ".eggs"@, "/"@);
    assert(names[6] == ".eggs"@);
    assert(patterns[10] == "!**/*.egg-info/"@);
    lemma_middle("!**/"@, name, "*.egg-info"@, "/"@);
    assert(names[7] == "*.egg-info"@);
    assert(patterns[11] == "!**/.ngi/"@);
    lemma_middle("!**/"@, name, ".ngi"@, "/"@);
    assert(names[8] == ".ngi"@);
    if patterns.contains(x) {
        let k = choose|k: int| 0 <= k < patterns.len() && patterns[k] == x;
        assert(patterns[k][1] == '*');
        assert(names.contains(name));
    }
    if names.contains(name) {
        let k = choose|k: int| 0 <= k < names.len() && names[k] == name;
        assert(patterns.contains(x));
    }
}

/// A walk leaves out directories of three more names at the root: the pattern of each is an
/// exclamation mark, and the name between slashes.
#[verifier::rlimit(40)]
pub proof fn law_walk_leaves_out_at_the_root(name: Seq<char>)
    ensures
        walk::ignore_patterns().contains("!/"@ + name + "/"@) <==> seq![
            "target"@,
            "dist"@,
            "build"@,
        ].contains(name),
        walk::ignore_patterns().len() == 12,
{
    let patterns = walk::ignore_patterns();
    let names = seq!["target"@, "dist"@, "build"@];
    let x = "!/"@ + name + "/"@;
    lemma_patterns();
    lemma_starts(name);
    assert(patterns[0] == "!**/node_modules/"@);
    lemma_starts("node_modules"@);
    assert(patterns[1] == "!**/venv/"@);
    lemma_starts("venv"@);
    assert(patterns[2] == "!**/.venv/"@);
    lemma_starts(".venv"@);
    assert(patterns[3] == "!**/__pycache__/"@);
    lemma_starts("__pycache__"@);
    assert(patterns[4] == "!/target/"@);
    lemma_middle("!/"@, name, "target"@, "/"@);
    assert(names[0] == "target"@);
    assert(patterns[5] == "!**/.tox/"@);
    lemma_starts(".tox"@);
    assert(patterns[6] == "!/dist/"@);
    lemma_middle("!/"@, name, "dist"@, "/"@);
    assert(names[1] == "dist"@);
    assert(patterns[7] == "!**/.mypy_cache/"@);
    lemma_starts(".mypy_cache"@);
    assert(patterns[8] == "!/build/"@);
    lemma_middle("!/"@, name, "build"@, "/"@);
    assert(names[2] == "build"@);
    assert(patterns[9] == "!**/.eggs/"@);
    lemma_starts(".eggs"@);
    assert(patterns[10] == "!**/*.egg-info/"@);
    lemma_starts("*.egg-info"@);
    assert(patterns[11] == "!**/.ngi/"@);
    lemma_starts(".ngi"@);
    if patterns.contains(x) {
        let k = choose|k: int| 0 <= k < patterns.len() && patterns[k] == x;
        assert(patterns[k][1] == '/');
        assert(names.contains(name));
    }
    if names.contains(name) {
        let k = choose|k: int| 0 <= k < names.len() && names[k] == name;
        assert(patterns.contains(x));
    }
}

proof fn lemma_middle(open: Seq<char>, a: Seq<char>, b: Seq<char>, close: Seq<char>)
    ensures
        open + a + close == open + b + close <==> a == b,
{
    let (x, y) = (open + a + close, open + b + close);
    if x == y {
        assert(x.len() == y.len());
        assert(a =~= x.subrange(open.len() as int, x.len() - close.len()));
        assert(b =~= y.subrange(open.len() as int, y.len() - close.len()));
    }
}

proof fn lemma_starts(name: Seq<char>)
    ensures
        ("!**/"@ + name + "/"@)[1] == '*',
        ("!/"@ + name + "/"@)[1] == '/',
{
    reveal_strlit("!**/");
    reveal_strlit("!/");
}

#[verifier::rlimit(40)]
proof fn lemma_patterns()
    ensures
        "!**/node_modules/"@ == "!**/"@ + "node_modules"@ + "/"@,
        "!**/venv/"@ == "!**/"@ + "venv"@ + "/"@,
        "!**/.venv/"@ == "!**/"@ + ".venv"@ + "/"@,
        "!**/__pycache__/"@ == "!**/"@ + "__pycache__"@ + "/"@,
        "!/target/"@ == "!/"@ + "target"@ + "/"@,
        "!**/.tox/"@ == "!**/"@ + ".tox"@ + "/"@,
        "!/dist/"@ == "!/"@ + "dist"@ + "/"@,
        "!**/.mypy_cache/"@ == "!**/"@ + ".mypy_cache"@ + "/"@,
        "!/build/"@ == "!/"@ + "build"@ + "/"@,
        "!**/.eggs/"@ == "!**/"@ + ".eggs"@ + "/"@,
        "!**/*.egg-info/"@ == "!**/"@ + "*.egg-info"@ + "/"@,
        "!**/.ngi/"@ == "!**/"@ + ".ngi"@ + "/"@,
{
    reveal_strlit("!**/");
    reveal_strlit("!/");
    reveal_strlit("/");
    reveal_strlit("node_modules");
    reveal_strlit("venv");
    reveal_strlit(".venv");
    reveal_strlit("__pycache__");
    reveal_strlit("target");
    reveal_strlit(".tox");
    reveal_strlit("dist");
    reveal_strlit(".mypy_cache");
    reveal_strlit("build");
    reveal_strlit(".eggs");
    reveal_strlit("*.egg-info");
    reveal_strlit(".ngi");
    reveal_strlit("!**/node_modules/");
    reveal_strlit("!**/venv/");
    reveal_strlit("!**/.venv/");
    reveal_strlit("!**/__pycache__/");
    reveal_strlit("!/target/");
    reveal_strlit("!**/.tox/");
    reveal_strlit("!/dist/");
    reveal_strlit("!**/.mypy_cache/");
    reveal_strlit("!/build/");
    reveal_strlit("!**/.eggs/");
    reveal_strlit("!**/*.egg-info/");
    reveal_strlit("!**/.ngi/");
    assert("!**/node_modules/"@ =~= "!**/"@ + "node_modules"@ + "/"@);
    assert("!**/venv/"@ =~= "!**/"@ + "venv"@ + "/"@);
    assert("!**/.venv/"@ =~= "!**/"@ + ".venv"@ + "/"@);
    assert("!**/__pycache__/"@ =~= "!**/"@ + "__pycache__"@ + "/"@);
    assert("!/target/"@ =~= "!/"@ + "target"@ + "/"@);
    assert("!**/.tox/"@ =~= "!**/"@ + ".tox"@ + "/"@);
    assert("!/dist/"@ =~= "!/"@ + "dist"@ + "/"@);
    assert("!**/.mypy_cache/"@ =~= "!**/"@ + ".mypy_cache"@ + "/"@);
    assert("!/build/"@ =~= "!/"@ + "build"@ + "/"@);
    assert("!**/.eggs/"@ =~= "!**/"@ + ".eggs"@ + "/"@);
    assert("!**/*.egg-info/"@ =~= "!**/"@ + "*.egg-info"@ + "/"@);
    assert("!**/.ngi/"@ =~= "!**/"@ + ".ngi"@ + "/"@);
}

// ---------------------------------------------------------------------------
// Plans and errors
// ---------------------------------------------------------------------------

proof fn lemma_explained_all(subs: Seq<PlanView>, n: nat, pad: Seq<char>)
    requires
        n <= subs.len(),
    ensures
        query::explained_all(subs, n, pad) == Seq::new(
            n,
            |i: int| query::explained(subs[i], pad) + seq!['\n'],
        ).flatten(),
    decreases n,
{
    let parts = Seq::new(n, |i: int| query::explained(subs[i], pad) + seq!['\n']);
    parts.lemma_flatten_and_flatten_alt_are_equivalent();
    if n > 0 {
        let m = (n - 1) as nat;
        lemma_explained_all(subs, m, pad);
        let some = Seq::new(m, |i: int| query::explained(subs[i], pad) + seq!['\n']);
        some.lemma_flatten_and_flatten_alt_are_equivalent();
        assert(parts.drop_last() =~= some);
        reveal_strlit("\n");
        assert("\n"@ =~= seq!['\n']);
        let all = query::explained_all(subs, m, pad);
        let one = query::explained(subs[n - 1], pad);
        assert(all + one + "\n"@ =~= all + (one + seq!['\n']));
    }
}

/// A plan is explained part by part: behind the word for what becomes of its parts stands
/// every part on lines of its own, two blanks deeper and in their order, and then the closing
/// parenthesis. A lookup names its three bytes, as far as they are text, and its hash in
/// sixteen hexadecimal digits.
pub proof fn law_plan_is_explained(plan: PlanView, pad: Seq<char>)
    ensures
        ({
            let deeper = pad + seq![' ', ' '];
            let said = query::explained(plan, pad);
            match plan {
                PlanView::Lookup { hash, trigram } => said.len() >= 16 && said.skip(said.len() - 16) == text::hex(
                    hash as nat,
                    16,
                ) && said.take(said.len() - 16) == pad + "lookup \""@ + text::utf8_lossy(trigram) + "\" → 0x"@,
                PlanView::And(subs) => said == pad + seq!['A', 'N', 'D', '(', '\n'] + Seq::new(
                    subs.len(),
                    |i: int| query::explained(subs[i], deeper) + seq!['\n'],
                ).flatten() + pad + seq![')'],
                PlanView::Or(subs) => said == pad + seq!['O', 'R', '(', '\n'] + Seq::new(
                    subs.len(),
                    |i: int| query::explained(subs[i], deeper) + seq!['\n'],
                ).flatten() + pad + seq![')'],
                PlanView::FullScan => said == pad + "FULL_SCAN"@,
            }
        }),
{
    let deeper = pad + seq![' ', ' '];
    reveal_strlit("  ");
    reveal_strlit("AND(\n");
    reveal_strlit("OR(\n");
    reveal_strlit(")");
    assert("  "@ =~= seq![' ', ' ']);
    assert("AND(\n"@ =~= seq!['A', 'N', 'D', '(', '\n']);
    assert("OR(\n"@ =~= seq!['O', 'R', '(', '\n']);
    assert(")"@ =~= seq![')']);
    match plan {
        PlanView::Lookup { hash, trigram } => {
            text::law_hex(hash as nat, 16);
            let said = query::explained(plan, pad);
            assert(said.skip(said.len() - 16) =~= text::hex(hash as nat, 16));
            assert(said.take(said.len() - 16) =~= pad + "lookup \""@ + text::utf8_lossy(trigram) + "\" → 0x"@);
        },
        PlanView::And(subs) => {
            lemma_explained_all(subs, subs.len(), deeper);
        },
        PlanView::Or(subs) => {
            lemma_explained_all(subs, subs.len(), deeper);
        },
        PlanView::FullScan => {},
    }
}

/// An error about a version names the version, and one about a table that is cut off names
/// how many bytes there have to be, which is 32 and 16 for every entry, and how many there
/// are.
pub proof fn law_error_message(version: u32, num_entries: u64, actual: usize)
    ensures
        numbers(StorageError::UnsupportedVersion(version).text()) =~= seq![version as nat],
        numbers(StorageError::LookupTruncated { num_entries, actual }.text()) =~= seq![
            (32 + 16 * num_entries) as nat,
            actual as nat,
        ],
{
    reveal_strlit("unsupported index version: ");
    reveal_strlit("lookup.ngi truncated: expected at least ");
    reveal_strlit(" bytes, got ");
    let n = (32 + 16 * num_entries) as nat;
    lemma_one_number(version as nat);
    lemma_one_number(n);
    lemma_one_number(actual as nat);
    lemma_words_first("unsupported index version: "@, text::decimal(version as nat));
    let p = "lookup.ngi truncated: expected at least "@ + text::decimal(n);
    lemma_words_first("lookup.ngi truncated: expected at least "@, text::decimal(n));
    lemma_then_words(p, " bytes, got "@);
    assert(numbers(p + " bytes, got "@ + text::decimal(actual as nat)) == numbers(p) + numbers(
        text::decimal(actual as nat),
    ));
}

/// The numbers of a search stand between the words that say what they count.
#[verifier::rlimit(40)]
pub proof fn law_words_of_a_search(
    matches: Seq<MatchView>,
    files_searched: nat,
    total_files: nat,
    rg_fullscan: bool,
    took: Seq<char>,
)
    ensures
        words(command::search_text(matches, files_searched, total_files, true, rg_fullscan, took))
            == " matches in  files ( files scanned, took "@ + words(took) + "ms) [full scan]"@,
        words(command::search_text(matches, files_searched, total_files, false, rg_fullscan, took))
            == " matches in  files ( candidates from  total, took "@ + words(took) + "ms) ["@ + (if rg_fullscan {
            "rg fullscan"@
        } else {
            "indexed"@
        }) + "]"@,
{
    let files = report::match_paths(matches).len();
    let c = command::count_text(matches);
    let none = Seq::<char>::empty();
    reveal_strlit(" matches in ");
    reveal_strlit(" files (");
    reveal_strlit(" files scanned, took ");
    reveal_strlit("ms) [full scan]");
    reveal_strlit(" candidates from ");
    reveal_strlit(" total, took ");
    reveal_strlit("ms) [");
    reveal_strlit("]");
    lemma_number_words(none, matches.len(), " matches in "@);
    assert(none + text::decimal(matches.len()) =~= text::decimal(matches.len()));
    lemma_only_words(none);
    lemma_number_words(text::decimal(matches.len()) + " matches in "@, files, " files ("@);
    lemma_number_words(c, total_files, " files scanned, took "@);
    lemma_text_words(c + text::decimal(total_files) + " files scanned, took "@, took, "ms) [full scan]"@);
    lemma_number_words(c, files_searched, " candidates from "@);
    let p = c + text::decimal(files_searched) + " candidates from "@;
    lemma_number_words(p, total_files, " total, took "@);
    let q = p + text::decimal(total_files) + " total, took "@;
    lemma_text_words(q, took, "ms) ["@);
    let mode = if rg_fullscan {
        "rg fullscan"@
    } else {
        "indexed"@
    };
    assert(words(mode) == mode) by {
        reveal_strlit("rg fullscan");
        reveal_strlit("indexed");
        lemma_only_words(mode);
    }
    lemma_text_words(q + took + "ms) ["@, mode, "]"@);
    assert(none + " matches in "@ + " files ("@ + " files scanned, took "@
        =~= " matches in  files ( files scanned, took "@) by {
        reveal_strlit(" matches in  files ( files scanned, took ");
    }
    assert(none + " matches in "@ + " files ("@ + " candidates from "@ + " total, took "@
        =~= " matches in  files ( candidates from  total, took "@) by {
        reveal_strlit(" matches in  files ( candidates from  total, took ");
    }
}

} // verus!
