//! Working with ripgrep: the arguments it is run with, and reading what it prints.

use crate::report;
use crate::scan;
use crate::scan::{MatchView, SearchMatch};
use crate::search;
use crate::text;
use crate::text::{
    chars_of, find_after, find_char, leading_digits, lossy_text, parse_number, push_decimal, split_lines, string_of,
    trim_start,
};
use vstd::prelude::*;

verus! {

// ---------------------------------------------------------------------------
// Arguments
// ---------------------------------------------------------------------------

/// The paths of candidates.
pub open spec fn candidate_paths(candidates: Seq<(u32, Seq<char>)>) -> Seq<Seq<char>> {
    candidates.map_values(|c: (u32, Seq<char>)| c.1)
}

/// Whether context is asked for. Where only file names are wanted, there is none.
pub open spec fn wants_context(files_only: bool, before: nat, after: nat) -> bool {
    !files_only && (before > 0 || after > 0)
}

/// Whether context is asked for.
pub fn needs_context(files_only: bool, context_before: usize, context_after: usize) -> (r: bool)
    ensures
        r == wants_context(files_only, context_before as nat, context_after as nat),
{
    !files_only && (context_before > 0 || context_after > 0)
}

/// The arguments that ripgrep is run with. Context is asked for as JSON; without it,
/// every line comes with its path and number, or every file with its path alone.
/// Without paths, ripgrep walks the tree itself.
pub open spec fn rg_args(
    pattern: Seq<char>,
    case_insensitive: bool,
    files_only: bool,
    before: nat,
    after: nat,
    max_count: Option<usize>,
    paths: Seq<Seq<char>>,
) -> Seq<Seq<char>> {
    let context = wants_context(files_only, before, after);
    let mode = if context {
        seq!["--json"@]
    } else {
        seq!["--no-heading"@, "--with-filename"@, "-n"@]
    };
    let ignore_case = if case_insensitive {
        seq!["-i"@]
    } else {
        Seq::empty()
    };
    let names = if files_only {
        seq!["-l"@]
    } else {
        Seq::empty()
    };
    let lines_before = if context && before > 0 {
        seq!["-B"@, text::decimal(before)]
    } else {
        Seq::empty()
    };
    let lines_after = if context && after > 0 {
        seq!["-A"@, text::decimal(after)]
    } else {
        Seq::empty()
    };
    let limit = match max_count {
        Some(n) => seq!["-m"@, text::decimal(n as nat)],
        None => Seq::empty(),
    };
    mode + seq!["-e"@, pattern] + ignore_case + names + lines_before + lines_after + limit + paths
}

/// Appends an argument.
fn push_arg(args: &mut Vec<String>, arg: &str)
    ensures
        text::texts(final(args)@) == text::texts(old(args)@).push(arg@),
{
    let mut s = String::new();
    s.append(arg);
    assert(s@ =~= arg@);
    args.push(s);
    assert(text::texts(args@) =~= text::texts(old(args)@).push(arg@));
}

/// Appends a number as an argument.
fn push_number(args: &mut Vec<String>, n: usize)
    ensures
        text::texts(final(args)@) == text::texts(old(args)@).push(text::decimal(n as nat)),
{
    let mut s = String::new();
    push_decimal(&mut s, n as u128);
    assert(s@ =~= text::decimal(n as nat));
    args.push(s);
    assert(text::texts(args@) =~= text::texts(old(args)@).push(text::decimal(n as nat)));
}

/// Builds the arguments to run ripgrep with: on the candidates, or on the whole tree
/// where there are none.
pub fn rg_arguments(
    pattern: &str,
    case_insensitive: bool,
    files_only: bool,
    context_before: usize,
    context_after: usize,
    max_count: Option<usize>,
    candidates: &[(u32, String)],
) -> (args: Vec<String>)
    ensures
        text::texts(args@) == rg_args(
            pattern@,
            case_insensitive,
            files_only,
            context_before as nat,
            context_after as nat,
            max_count,
            candidate_paths(search::candidate_views(candidates@)),
        ),
        args@.len() >= candidates@.len(),
        forall|i: int|
            0 <= i < candidates@.len() ==> (#[trigger] args@[args@.len() - candidates@.len() + i])@ == candidates@[i].1@,
{
    let need_context: bool = needs_context(files_only, context_before, context_after);
    let mut args: Vec<String> = Vec::new();
    let ghost mut so_far: Seq<Seq<char>> = Seq::empty();
    assert(text::texts(args@) =~= so_far);
    if need_context {
        push_arg(&mut args, "--json");
        proof {
            so_far = so_far + seq!["--json"@];
        }
    } else {
        push_arg(&mut args, "--no-heading");
        push_arg(&mut args, "--with-filename");
        push_arg(&mut args, "-n");
        proof {
            so_far = so_far + seq!["--no-heading"@, "--with-filename"@, "-n"@];
        }
    }
    assert(text::texts(args@) =~= so_far);
    push_arg(&mut args, "-e");
    push_arg(&mut args, pattern);
    proof {
        so_far = so_far + seq!["-e"@, pattern@];
    }
    assert(text::texts(args@) =~= so_far);
    if case_insensitive {
        push_arg(&mut args, "-i");
        proof {
            so_far = so_far + seq!["-i"@];
        }
    }
    assert(text::texts(args@) =~= so_far);
    if files_only {
        push_arg(&mut args, "-l");
        proof {
            so_far = so_far + seq!["-l"@];
        }
    }
    assert(text::texts(args@) =~= so_far);
    if need_context && context_before > 0 {
        push_arg(&mut args, "-B");
        push_number(&mut args, context_before);
        proof {
            so_far = so_far + seq!["-B"@, text::decimal(context_before as nat)];
        }
    }
    assert(text::texts(args@) =~= so_far);
    if need_context && context_after > 0 {
        push_arg(&mut args, "-A");
        push_number(&mut args, context_after);
        proof {
            so_far = so_far + seq!["-A"@, text::decimal(context_after as nat)];
        }
    }
    assert(text::texts(args@) =~= so_far);
    match max_count {
        Some(n) => {
            push_arg(&mut args, "-m");
            push_number(&mut args, n);
            proof {
                so_far = so_far + seq!["-m"@, text::decimal(n as nat)];
            }
        },
        None => {},
    }
    assert(text::texts(args@) =~= so_far);
    let ghost paths = candidate_paths(search::candidate_views(candidates@));
    let mut i: usize = 0;
    assert(so_far + paths.take(0) =~= so_far);
    while i < candidates.len()
        invariant
            i <= candidates@.len(),
            paths == candidate_paths(search::candidate_views(candidates@)),
            text::texts(args@) == so_far + paths.take(i as int),
        decreases candidates@.len() - i,
    {
        push_arg(&mut args, candidates[i].1.as_str());
        assert(so_far + paths.take(i + 1) =~= (so_far + paths.take(i as int)).push(candidates@[i as int].1@));
        i += 1;
    }
    proof {
        assert(paths.take(i as int) =~= paths);
        assert(text::texts(args@) =~= rg_args(
            pattern@,
            case_insensitive,
            files_only,
            context_before as nat,
            context_after as nat,
            max_count,
            paths,
        ));
        assert forall|i: int| 0 <= i < candidates@.len() implies (#[trigger] args@[args@.len() - candidates@.len()
            + i])@ == candidates@[i].1@ by {
            assert(text::texts(args@)[so_far.len() + i] == paths[i]);
        }
    }
    args
}

/// An argument that is a number is none of the options.
proof fn lemma_number_is_no_option(n: nat)
    ensures
        text::decimal(n) != "-i"@,
        text::decimal(n) != "-l"@,
        text::decimal(n) != "-m"@,
        text::decimal(n) != "-B"@,
        text::decimal(n) != "-A"@,
{
    text::lemma_decimal_digits(n);
    reveal_strlit("-i");
    reveal_strlit("-l");
    reveal_strlit("-m");
    reveal_strlit("-B");
    reveal_strlit("-A");
    assert(text::is_digit(text::decimal(n)[0]));
}

/// Every option follows from its own setting alone, whatever else is asked for.
///
/// The arguments are those that fix the form of the output, `-e` with the pattern, the
/// options, and the paths. Among the options stand `-i` exactly if case is ignored, `-l`
/// exactly if only names are wanted, `-m` exactly if there is a limit, and where names
/// alone are not enough `-B` and `-A` exactly if lines before and after are wanted; behind
/// `-m`, `-B` and `-A` comes their number. Nothing else stands there, and nothing twice.
#[verifier::rlimit(40)]
pub proof fn law_every_option_has_its_own_setting(
    pattern: Seq<char>,
    case_insensitive: bool,
    files_only: bool,
    before: nat,
    after: nat,
    max_count: Option<usize>,
    paths: Seq<Seq<char>>,
    args: Seq<Seq<char>>,
    options: Seq<Seq<char>>,
)
    requires
        args == rg_args(pattern, case_insensitive, files_only, before, after, max_count, paths),
        options == args.subrange(
            if !files_only && (before > 0 || after > 0) {
                3
            } else {
                5
            },
            args.len() - paths.len(),
        ),
    ensures
        !files_only && (before > 0 || after > 0) ==> args[0] == "--json"@ && args[1] == "-e"@ && args[2] == pattern
            && args.len() >= 3 + paths.len(),
        files_only || (before == 0 && after == 0) ==> args[0] == "--no-heading"@ && args[1] == "--with-filename"@
            && args[2] == "-n"@ && args[3] == "-e"@ && args[4] == pattern && args.len() >= 5 + paths.len(),
        args.skip(args.len() - paths.len()) == paths,
        options.contains("-i"@) <==> case_insensitive,
        options.contains("-l"@) <==> files_only,
        options.contains("-m"@) <==> max_count is Some,
        options.contains("-B"@) <==> !files_only && before > 0,
        options.contains("-A"@) <==> !files_only && after > 0,
        forall|k: int|
            0 <= k < options.len() && #[trigger] options[k] == "-m"@ ==> k + 1 < options.len() && options[k + 1]
                == text::decimal(max_count->0 as nat),
        forall|k: int|
            0 <= k < options.len() && #[trigger] options[k] == "-B"@ ==> k + 1 < options.len() && options[k + 1]
                == text::decimal(before),
        forall|k: int|
            0 <= k < options.len() && #[trigger] options[k] == "-A"@ ==> k + 1 < options.len() && options[k + 1]
                == text::decimal(after),
        options.len() == (if case_insensitive {
            1int
        } else {
            0
        }) + (if files_only {
            1int
        } else {
            0
        }) + (if max_count is Some {
            2int
        } else {
            0
        }) + (if !files_only && before > 0 {
            2int
        } else {
            0
        }) + (if !files_only && after > 0 {
            2int
        } else {
            0
        }),
{
    reveal_strlit("-i");
    reveal_strlit("-l");
    reveal_strlit("-m");
    reveal_strlit("-B");
    reveal_strlit("-A");
    assert("-i"@[1] == 'i' && "-l"@[1] == 'l' && "-m"@[1] == 'm' && "-B"@[1] == 'B' && "-A"@[1] == 'A');
    lemma_number_is_no_option(before);
    lemma_number_is_no_option(after);
    lemma_number_is_no_option(max_count->0 as nat);
    assert(args.skip(args.len() - paths.len()) =~= paths);
    let i: int = if case_insensitive {
        1
    } else {
        0
    };
    let l: int = i + if files_only {
        1int
    } else {
        0
    };
    let b: int = l + if !files_only && before > 0 {
        2int
    } else {
        0
    };
    let a: int = b + if !files_only && after > 0 {
        2int
    } else {
        0
    };
    let m: int = a + if max_count is Some {
        2int
    } else {
        0
    };
    assert(options.len() == m);
    if case_insensitive {
        assert(options[0] == "-i"@);
    }
    if files_only {
        assert(options[i] == "-l"@);
    }
    if !files_only && before > 0 {
        assert(options[l] == "-B"@);
        assert(options[l + 1] == text::decimal(before));
    }
    if !files_only && after > 0 {
        assert(options[b] == "-A"@);
        assert(options[b + 1] == text::decimal(after));
    }
    if max_count is Some {
        assert(options[a] == "-m"@);
        assert(options[a + 1] == text::decimal(max_count->0 as nat));
    }
    assert forall|k: int| 0 <= k < options.len() implies ({
        ||| k < i && options[k] == "-i"@
        ||| i <= k < l && options[k] == "-l"@
        ||| k == l && k + 1 < b && options[k] == "-B"@
        ||| k == l + 1 && k < b && options[k] == text::decimal(before)
        ||| k == b && k + 1 < a && options[k] == "-A"@
        ||| k == b + 1 && k < a && options[k] == text::decimal(after)
        ||| k == a && k + 1 < m && options[k] == "-m"@
        ||| k == a + 1 && k < m && options[k] == text::decimal(max_count->0 as nat)
    }) by {}
}

// ---------------------------------------------------------------------------
// Plain output
// ---------------------------------------------------------------------------

/// The match on a line of plain output: a path, a line number and a text with colons
/// between them. Anything else is no match.
pub open spec fn plain_line(line: Seq<char>) -> Option<MatchView> {
    let p = text::position(line, ':') as int;
    let rest = line.skip(p + 1);
    let q = text::position(rest, ':') as int;
    if p >= line.len() || q >= rest.len() {
        None
    } else {
        match text::number(rest.take(q), u32::MAX as nat) {
            Some(n) => Some(scan::plain_match(line.take(p), n as u32, rest.skip(q + 1))),
            None => None,
        }
    }
}

/// The matches on lines of plain output.
pub open spec fn plain_matches(lines: Seq<Seq<char>>) -> Seq<MatchView>
    decreases lines.len(),
{
    if lines.len() == 0 {
        Seq::empty()
    } else {
        match plain_line(lines.last()) {
            Some(m) => plain_matches(lines.drop_last()).push(m),
            None => plain_matches(lines.drop_last()),
        }
    }
}

/// The files that lines of output name: a line that is not empty is a path.
pub open spec fn named_files(lines: Seq<Seq<char>>) -> Seq<MatchView>
    decreases lines.len(),
{
    if lines.len() == 0 {
        Seq::empty()
    } else if lines.last().len() == 0 {
        named_files(lines.drop_last())
    } else {
        named_files(lines.drop_last()).push(scan::file_match(lines.last()))
    }
}

/// A match without context.
fn make_match(path: String, line_number: u32, line_text: String) -> (m: SearchMatch)
    ensures
        m@ == scan::plain_match(path@, line_number, line_text@),
{
    let none_before: Vec<String> = Vec::new();
    let none_after: Vec<String> = Vec::new();
    let m = SearchMatch { path, line_number, line_text, context_before: none_before, context_after: none_after };
    assert(m@ =~= scan::plain_match(path@, line_number, line_text@));
    m
}

/// Reads a line of plain output.
fn parse_plain_line(line: &str) -> (r: Option<SearchMatch>)
    ensures
        match r {
            Some(m) => plain_line(line@) == Some(m@),
            None => plain_line(line@) is None,
        },
{
    let chars = chars_of(line);
    let s = chars.as_slice();
    let p: usize = find_char(s, ':', 0);
    assert(s@.skip(0) =~= s@);
    if p >= s.len() {
        return None;
    }
    let q: usize = find_char(s, ':', p + 1);
    if q >= s.len() {
        return None;
    }
    let ghost rest = s@.skip(p + 1);
    let digits = vstd::slice::slice_subrange(s, p + 1, q);
    assert(digits@ =~= rest.take(q - (p + 1)));
    match parse_number(digits, u32::MAX as u64) {
        Some(n) => {
            let path = string_of(vstd::slice::slice_subrange(s, 0, p));
            let line_text = string_of(vstd::slice::slice_subrange(s, q + 1, s.len()));
            proof {
                assert(path@ =~= s@.take(p as int));
                assert(line_text@ =~= rest.skip(q - p));
            }
            Some(make_match(path, n as u32, line_text))
        },
        None => None,
    }
}

/// Reads lines of plain output.
fn parse_plain_lines(lines: &[String]) -> (out: Vec<SearchMatch>)
    ensures
        scan::match_views(out@) == plain_matches(text::texts(lines@)),
{
    let ghost all = text::texts(lines@);
    let mut out: Vec<SearchMatch> = Vec::new();
    let mut i: usize = 0;
    assert(scan::match_views(out@) =~= Seq::<MatchView>::empty());
    while i < lines.len()
        invariant
            i <= lines@.len(),
            all == text::texts(lines@),
            scan::match_views(out@) == plain_matches(all.take(i as int)),
        decreases lines@.len() - i,
    {
        let ghost before = scan::match_views(out@);
        proof {
            assert(all.take(i + 1).drop_last() =~= all.take(i as int));
            assert(all.take(i + 1).last() == lines@[i as int]@);
        }
        match parse_plain_line(lines[i].as_str()) {
            Some(m) => {
                out.push(m);
                assert(scan::match_views(out@) =~= before.push(m@));
            },
            None => {},
        }
        i += 1;
    }
    assert(all.take(i as int) =~= all);
    out
}

/// Reads lines that are paths.
fn parse_named_files(lines: &[String]) -> (out: Vec<SearchMatch>)
    ensures
        scan::match_views(out@) == named_files(text::texts(lines@)),
{
    let ghost all = text::texts(lines@);
    let mut out: Vec<SearchMatch> = Vec::new();
    let mut i: usize = 0;
    assert(scan::match_views(out@) =~= Seq::<MatchView>::empty());
    while i < lines.len()
        invariant
            i <= lines@.len(),
            all == text::texts(lines@),
            scan::match_views(out@) == named_files(all.take(i as int)),
        decreases lines@.len() - i,
    {
        let ghost before = scan::match_views(out@);
        proof {
            assert(all.take(i + 1).drop_last() =~= all.take(i as int));
            assert(all.take(i + 1).last() == lines@[i as int]@);
        }
        if chars_of(lines[i].as_str()).len() > 0 {
            let empty = String::new();
            assert(empty@ =~= Seq::<char>::empty());
            let m = make_match(lines[i].clone(), 0, empty);
            out.push(m);
            assert(scan::match_views(out@) =~= before.push(m@));
        }
        i += 1;
    }
    assert(all.take(i as int) =~= all);
    out
}

/// Parses ripgrep's plain output.
pub fn parse_rg_plain_output(stdout: &str, files_only: bool) -> (out: Vec<SearchMatch>)
    ensures
        scan::match_views(out@) == (if files_only {
            named_files(text::lines(stdout@))
        } else {
            plain_matches(text::lines(stdout@))
        }),
{
    let lines = split_lines(chars_of(stdout).as_slice());
    if files_only {
        parse_named_files(lines.as_slice())
    } else {
        parse_plain_lines(lines.as_slice())
    }
}

/// Where only file names are wanted, every match stands for a whole file that a line
/// names.
pub proof fn law_named_files(lines: Seq<Seq<char>>)
    ensures
        forall|i: int|
            0 <= i < named_files(lines).len() ==> #[trigger] named_files(lines)[i] == scan::file_match(
                named_files(lines)[i].path,
            ) && named_files(lines)[i].path.len() > 0 && lines.contains(named_files(lines)[i].path),
    decreases lines.len(),
{
    if lines.len() > 0 {
        let before = lines.drop_last();
        let now = named_files(lines);
        let earlier = named_files(before);
        law_named_files(before);
        assert forall|i: int| 0 <= i < now.len() implies #[trigger] now[i] == scan::file_match(now[i].path)
            && now[i].path.len() > 0 && lines.contains(now[i].path) by {
            if i < earlier.len() {
                assert(now[i] == earlier[i]);
                let k = choose|k: int| 0 <= k < before.len() && before[k] == earlier[i].path;
                assert(lines[k] == earlier[i].path);
            } else {
                assert(lines[lines.len() - 1] == now[i].path);
            }
        }
    }
}

/// Where ripgrep names no file twice, no path occurs twice among the matches.
pub proof fn law_named_files_once(lines: Seq<Seq<char>>)
    requires
        forall|i: int, j: int| 0 <= i < j < lines.len() && (#[trigger] lines[i]).len() > 0 ==> lines[i] != #[trigger] lines[j],
    ensures
        forall|i: int, j: int|
            0 <= i < j < named_files(lines).len() ==> (#[trigger] named_files(lines)[i]).path != (
            #[trigger] named_files(lines)[j]).path,
    decreases lines.len(),
{
    if lines.len() > 0 {
        let before = lines.drop_last();
        let now = named_files(lines);
        let earlier = named_files(before);
        assert forall|i: int, j: int|
            0 <= i < j < before.len() && (#[trigger] before[i]).len() > 0 implies before[i] != #[trigger] before[j] by {
            assert(lines[i] != lines[j]);
        }
        law_named_files_once(before);
        law_named_files(before);
        assert forall|i: int, j: int| 0 <= i < j < now.len() implies (#[trigger] now[i]).path != (
        #[trigger] now[j]).path by {
            assert(now[i] == earlier[i]);
            if j < earlier.len() {
                assert(now[j] == earlier[j]);
            } else {
                let k = choose|k: int| 0 <= k < before.len() && before[k] == earlier[i].path;
                assert(lines[k] != lines[lines.len() - 1]);
            }
        }
    }
}

// ---------------------------------------------------------------------------
// Fields of JSON output
// ---------------------------------------------------------------------------

/// The value of a field that is a string: what stands between the first
/// `"key":"` and the next quote.
pub open spec fn json_str(json: Seq<char>, key: Seq<char>) -> Option<Seq<char>> {
    up_to_quote(json, "\""@ + key + "\":\""@)
}

/// What stands between the first marker and the next quote.
pub open spec fn up_to_quote(json: Seq<char>, marker: Seq<char>) -> Option<Seq<char>> {
    match text::after_first(json, marker) {
        Some(rest) => if text::position(rest, '"') < rest.len() {
            Some(rest.take(text::position(rest, '"') as int))
        } else {
            None
        },
        None => None,
    }
}

/// The value of a field that is a number: the digits that follow the first `"key":`
/// and white space.
pub open spec fn json_number(json: Seq<char>, key: Seq<char>) -> Option<nat> {
    match text::after_first(json, "\""@ + key + "\":"@) {
        Some(rest) => {
            let s = text::trimmed_start(rest);
            text::number(s.take(text::digit_run(s) as int), u64::MAX as nat)
        },
        None => None,
    }
}

/// A text up to the first quote that is not escaped, with the escapes of a newline,
/// a tabulator, a carriage return, a quote and a backslash resolved. Other escapes
/// stay as they are.
pub open spec fn unescaped(s: Seq<char>) -> Seq<char>
    decreases s.len(),
{
    if s.len() == 0 || s[0] == '"' {
        Seq::empty()
    } else if s[0] != '\\' {
        seq![s[0]] + unescaped(s.skip(1))
    } else if s.len() == 1 {
        Seq::empty()
    } else {
        unescape_char(s[1]) + unescaped(s.skip(2))
    }
}

/// What a backslash and a character stand for.
pub open spec fn unescape_char(c: char) -> Seq<char> {
    if c == 'n' {
        seq!['\n']
    } else if c == 't' {
        seq!['\t']
    } else if c == 'r' {
        seq!['\r']
    } else if c == '"' || c == '\\' {
        seq![c]
    } else {
        seq!['\\', c]
    }
}

/// The marker before the path of an event.
pub open spec fn path_marker() -> Seq<char> {
    "\"path\":{\"text\":\""@
}

/// The marker before the text of an event.
pub open spec fn text_marker() -> Seq<char> {
    "\"lines\":{\"text\":\""@
}

/// Finds what stands between the first marker and the next quote.
fn take_up_to_quote(json: &[char], marker: &[char]) -> (r: Option<String>)
    ensures
        match r {
            Some(s) => up_to_quote(json@, marker@) == Some(s@),
            None => up_to_quote(json@, marker@) is None,
        },
{
    match find_after(json, marker) {
        Some(rest) => {
            let end: usize = find_char(rest, '"', 0);
            assert(rest@.skip(0) =~= rest@);
            if end < rest.len() {
                let s = string_of(vstd::slice::slice_subrange(rest, 0, end));
                assert(s@ =~= rest@.take(end as int));
                Some(s)
            } else {
                None
            }
        },
        None => None,
    }
}

/// The characters of a key in quotes, followed by a text.
fn quoted_key(key: &str, tail: &str) -> (out: Vec<char>)
    ensures
        out@ == "\""@ + key@ + tail@,
{
    let mut s = String::new();
    s.append("\"");
    s.append(key);
    s.append(tail);
    assert(s@ =~= "\""@ + key@ + tail@);
    chars_of(s.as_str())
}

/// Extracts a string value for a key like `"type":"match"`.
pub fn extract_json_str(json: &str, key: &str) -> (r: Option<String>)
    ensures
        match r {
            Some(s) => json_str(json@, key@) == Some(s@),
            None => json_str(json@, key@) is None,
        },
{
    take_up_to_quote(chars_of(json).as_slice(), quoted_key(key, "\":\"").as_slice())
}

/// Extracts a numeric value for a key like `"line_number":42`.
pub fn extract_json_u64_field(json: &str, key: &str) -> (r: Option<u64>)
    ensures
        match r {
            Some(n) => json_number(json@, key@) == Some(n as nat),
            None => json_number(json@, key@) is None,
        },
{
    let chars = chars_of(json);
    match find_after(chars.as_slice(), quoted_key(key, "\":").as_slice()) {
        Some(rest) => {
            let s = trim_start(rest);
            let end: usize = leading_digits(s);
            let digits = vstd::slice::slice_subrange(s, 0, end);
            assert(digits@ =~= s@.take(end as int));
            parse_number(digits, u64::MAX)
        },
        None => None,
    }
}

/// Extracts the path of an event.
pub fn extract_rg_json_path(json: &str) -> (r: Option<String>)
    ensures
        match r {
            Some(s) => up_to_quote(json@, path_marker()) == Some(s@),
            None => up_to_quote(json@, path_marker()) is None,
        },
{
    take_up_to_quote(chars_of(json).as_slice(), chars_of("\"path\":{\"text\":\"").as_slice())
}

/// Resolves the escapes of a text up to its closing quote.
fn unescape(s: &[char]) -> (out: String)
    ensures
        out@ == unescaped(s@),
{
    let mut out = String::new();
    let mut i: usize = 0;
    proof {
        assert(s@.skip(0) =~= s@);
        assert(out@ + unescaped(s@) =~= unescaped(s@));
    }
    while i < s.len() && s[i] != '"'
        invariant
            i <= s@.len(),
            out@ + unescaped(s@.skip(i as int)) == unescaped(s@),
        decreases s@.len() - i,
    {
        let ghost before = out@;
        let ghost tail = s@.skip(i as int);
        if s[i] != '\\' {
            out.push(s[i]);
            proof {
                assert(tail.skip(1) =~= s@.skip(i + 1));
                assert(before + (seq![tail[0]] + unescaped(tail.skip(1))) =~= out@ + unescaped(tail.skip(1)));
            }
            i += 1;
        } else if s.len() - i == 1 {
            assert(out@ =~= out@ + unescaped(tail));
            return out;
        } else {
            let c: char = s[i + 1];
            if c == 'n' {
                out.push('\n');
            } else if c == 't' {
                out.push('\t');
            } else if c == 'r' {
                out.push('\r');
            } else if c == '"' || c == '\\' {
                out.push(c);
            } else {
                out.push('\\');
                out.push(c);
            }
            proof {
                assert(tail[1] == c);
                assert(tail.skip(2) =~= s@.skip(i + 2));
                assert(out@ =~= before + unescape_char(c));
                assert(before + (unescape_char(c) + unescaped(tail.skip(2))) =~= out@ + unescaped(tail.skip(2)));
            }
            i += 2;
        }
    }
    proof {
        assert(unescaped(s@.skip(i as int)) =~= Seq::<char>::empty());
        assert(out@ =~= unescaped(s@));
    }
    out
}

/// Extracts the text of an event.
pub fn extract_rg_json_lines_text(json: &str) -> (r: Option<String>)
    ensures
        match r {
            Some(s) => text::after_first(json@, text_marker()) is Some && s@ == unescaped(
                text::after_first(json@, text_marker())->0,
            ),
            None => text::after_first(json@, text_marker()) is None,
        },
{
    let chars = chars_of(json);
    match find_after(chars.as_slice(), chars_of("\"lines\":{\"text\":\"").as_slice()) {
        Some(rest) => Some(unescape(rest)),
        None => None,
    }
}

/// Whether a text has no control characters but newlines, tabulators and carriage
/// returns, whose escapes are the ones that are resolved.
pub open spec fn plainly_escaped(s: Seq<char>) -> bool {
    forall|i: int| 0 <= i < s.len() ==> (#[trigger] s[i] >= ' ' || s[i] == '\n' || s[i] == '\t' || s[i] == '\r')
}

/// Resolving the escapes up to the closing quote undoes the escaping of a text.
pub proof fn law_unescaping_undoes_escaping(s: Seq<char>, tail: Seq<char>)
    requires
        plainly_escaped(s),
    ensures
        unescaped(report::json_escaped(s) + seq!['"'] + tail) == s,
    decreases s.len(),
{
    let out = report::json_escaped(s) + seq!['"'] + tail;
    if s.len() == 0 {
        assert(out[0] == '"');
        assert(unescaped(out) =~= s);
    } else {
        let c = s[0];
        let rest = s.skip(1);
        let first = report::json_char(c);
        report::lemma_escaped_first(s);
        assert forall|i: int| 0 <= i < rest.len() implies (#[trigger] rest[i] >= ' ' || rest[i] == '\n' || rest[i] == '\t'
            || rest[i] == '\r') by {
            assert(rest[i] == s[i + 1]);
        }
        law_unescaping_undoes_escaping(rest, tail);
        assert(s[0] >= ' ' || s[0] == '\n' || s[0] == '\t' || s[0] == '\r');
        let after = report::json_escaped(rest) + seq!['"'] + tail;
        assert(out =~= first + after);
        assert(seq![c] + rest =~= s);
        if first.len() == 2 {
            assert(out.skip(2) =~= after);
        } else {
            assert(first.len() == 1);
            assert(out.skip(1) =~= after);
        }
    }
}

/// The text of an event is the text that was escaped into it, where no marker stands
/// ahead of that of the text.
pub proof fn law_event_gives_its_text(head: Seq<char>, s: Seq<char>, tail: Seq<char>)
    requires
        plainly_escaped(s),
        forall|k: int|
            0 <= k < head.len() ==> !#[trigger] text::stands_at(
                head + text_marker() + report::json_escaped(s) + seq!['"'] + tail,
                text_marker(),
                k,
            ),
    ensures
        ({
            let json = head + text_marker() + report::json_escaped(s) + seq!['"'] + tail;
            &&& text::after_first(json, text_marker()) is Some
            &&& unescaped(text::after_first(json, text_marker())->0) == s
        }),
{
    let marker = text_marker();
    let json = head + marker + report::json_escaped(s) + seq!['"'] + tail;
    let n = head.len() as int;
    assert(json.subrange(n, n + marker.len()) =~= marker);
    text::lemma_found_first(json, marker, n);
    assert(json.skip(n + marker.len()) =~= report::json_escaped(s) + seq!['"'] + tail);
    law_unescaping_undoes_escaping(s, tail);
}

// ---------------------------------------------------------------------------
// JSON output
// ---------------------------------------------------------------------------

/// A line that ripgrep reports, as a match or as context of one.
pub struct RgEvent {
    pub is_match: bool,
    pub path: String,
    pub line_number: u32,
    pub text: String,
}

/// An [`RgEvent`] over texts.
pub struct EventView {
    pub is_match: bool,
    pub path: Seq<char>,
    pub line_number: u32,
    pub text: Seq<char>,
}

impl View for RgEvent {
    type V = EventView;

    open spec fn view(&self) -> EventView {
        EventView { is_match: self.is_match, path: self.path@, line_number: self.line_number, text: self.text@ }
    }
}

/// Events over texts.
pub open spec fn event_views(events: Seq<RgEvent>) -> Seq<EventView> {
    events.map_values(|e: RgEvent| e@)
}

/// A text without the newlines at its end.
pub open spec fn without_newlines(s: Seq<char>) -> Seq<char>
    decreases s.len(),
{
    if s.len() > 0 && s.last() == '\n' {
        without_newlines(s.drop_last())
    } else {
        s
    }
}

/// The event on a line of JSON output: a line of type "match" or "context". A path
/// or a text that is missing is empty, and a number that is missing is zero.
pub open spec fn event_on(line: Seq<char>) -> Option<EventView> {
    match json_str(line, "type"@) {
        Some(kind) => if kind == "match"@ || kind == "context"@ {
            Some(
                EventView {
                    is_match: kind == "match"@,
                    path: match up_to_quote(line, path_marker()) {
                        Some(p) => p,
                        None => Seq::empty(),
                    },
                    line_number: match json_number(line, "line_number"@) {
                        Some(n) => (n as u64) as u32,
                        None => 0,
                    },
                    text: match text::after_first(line, text_marker()) {
                        Some(rest) => without_newlines(unescaped(rest)),
                        None => Seq::empty(),
                    },
                },
            )
        } else {
            None
        },
        None => None,
    }
}

/// The events on lines of JSON output.
pub open spec fn events_on(lines: Seq<Seq<char>>) -> Seq<EventView>
    decreases lines.len(),
{
    if lines.len() == 0 {
        Seq::empty()
    } else {
        match event_on(lines.last()) {
            Some(e) => events_on(lines.drop_last()).push(e),
            None => events_on(lines.drop_last()),
        }
    }
}

/// Whether an event is a line of a file, numbered from `lo` to before `hi`.
pub open spec fn is_within(e: EventView, path: Seq<char>, lo: int, hi: int) -> bool {
    e.path == path && lo <= e.line_number < hi
}

/// Where the run of such lines starts that ends before `i`.
pub open spec fn run_start(events: Seq<EventView>, path: Seq<char>, lo: int, hi: int, i: int) -> int
    decreases i,
{
    if i <= 0 || !is_within(events[i - 1], path, lo, hi) {
        i
    } else {
        run_start(events, path, lo, hi, i - 1)
    }
}

/// Where the run of such lines ends that starts at `i`.
pub open spec fn run_end(events: Seq<EventView>, path: Seq<char>, lo: int, hi: int, i: int) -> int
    decreases events.len() - i,
{
    if i >= events.len() || !is_within(events[i], path, lo, hi) {
        i
    } else {
        run_end(events, path, lo, hi, i + 1)
    }
}

/// The texts of events.
pub open spec fn event_texts(events: Seq<EventView>) -> Seq<Seq<char>> {
    events.map_values(|e: EventView| e.text)
}

/// The match at `i` with the reported lines next to it: those that are numbered as the
/// `before` lines before it and the `after` lines after it.
pub open spec fn event_match(events: Seq<EventView>, i: int, before: nat, after: nat) -> MatchView {
    let e = events[i];
    let n = e.line_number as int;
    MatchView {
        path: e.path,
        line_number: e.line_number,
        line_text: e.text,
        context_before: event_texts(events.subrange(run_start(events, e.path, n - before, n, i), i)),
        context_after: event_texts(
            events.subrange(i + 1, run_end(events, e.path, n + 1, n + 1 + after, i + 1)),
        ),
    }
}

/// The matches among the first `n` events.
pub open spec fn event_matches(events: Seq<EventView>, before: nat, after: nat, n: nat) -> Seq<MatchView>
    decreases n,
{
    if n == 0 {
        Seq::empty()
    } else if events[n - 1].is_match {
        event_matches(events, before, after, (n - 1) as nat).push(event_match(events, n - 1, before, after))
    } else {
        event_matches(events, before, after, (n - 1) as nat)
    }
}

/// Leaves out the newlines at the end of a text.
fn strip_newlines(s: String) -> (out: String)
    ensures
        out@ == without_newlines(s@),
{
    let chars = chars_of(s.as_str());
    let mut n: usize = chars.len();
    assert(chars@.take(n as int) =~= chars@);
    while n > 0 && chars[n - 1] == '\n'
        invariant
            n <= chars@.len(),
            without_newlines(chars@.take(n as int)) == without_newlines(chars@),
        decreases n,
    {
        assert(chars@.take(n as int).drop_last() =~= chars@.take(n - 1));
        n -= 1;
    }
    assert(chars@.subrange(0, n as int) =~= chars@.take(n as int));
    string_of(vstd::slice::slice_subrange(chars.as_slice(), 0, n))
}

/// Whether a string has the characters of another.
fn same_text(a: &str, b: &str) -> (r: bool)
    ensures
        r == (a@ == b@),
{
    let x = chars_of(a);
    let y = chars_of(b);
    if x.len() != y.len() {
        return false;
    }
    let mut i: usize = 0;
    while i < x.len()
        invariant
            x@ == a@,
            y@ == b@,
            i <= x@.len(),
            x@.len() == y@.len(),
            forall|k: int| 0 <= k < i ==> x@[k] == y@[k],
        decreases x@.len() - i,
    {
        if x[i] != y[i] {
            return false;
        }
        i += 1;
    }
    assert(x@ =~= y@);
    true
}

/// Reads a line of JSON output.
fn parse_event(line: &str) -> (r: Option<RgEvent>)
    ensures
        match r {
            Some(e) => event_on(line@) == Some(e@),
            None => event_on(line@) is None,
        },
{
    let kind = match extract_json_str(line, "type") {
        Some(kind) => kind,
        None => {
            return None;
        },
    };
    let is_match: bool = same_text(kind.as_str(), "match");
    let is_context: bool = same_text(kind.as_str(), "context");
    if !is_match && !is_context {
        return None;
    }
    let path = match extract_rg_json_path(line) {
        Some(p) => p,
        None => String::new(),
    };
    assert(up_to_quote(line@, path_marker()) is None ==> path@ =~= Seq::<char>::empty());
    let line_number: u32 = match extract_json_u64_field(line, "line_number") {
        Some(n) => n as u32,
        None => 0,
    };
    let text = match extract_rg_json_lines_text(line) {
        Some(s) => strip_newlines(s),
        None => String::new(),
    };
    assert(text::after_first(line@, text_marker()) is None ==> text@ =~= Seq::<char>::empty());
    Some(RgEvent { is_match, path, line_number, text })
}

/// Copies the texts of events from `start` to before `end`.
fn copy_texts(events: &Vec<RgEvent>, start: usize, end: usize) -> (out: Vec<String>)
    requires
        start <= end <= events@.len(),
    ensures
        text::texts(out@) == event_texts(event_views(events@).subrange(start as int, end as int)),
{
    let ghost views = event_views(events@);
    let mut out: Vec<String> = Vec::new();
    let mut i: usize = start;
    assert(text::texts(out@) =~= event_texts(views.subrange(start as int, start as int)));
    while i < end
        invariant
            start <= i <= end <= events@.len(),
            views == event_views(events@),
            text::texts(out@) == event_texts(views.subrange(start as int, i as int)),
        decreases end - i,
    {
        let ghost before = text::texts(out@);
        out.push(events[i].text.clone());
        proof {
            assert(text::texts(out@) =~= before.push(events@[i as int].text@));
            assert(event_texts(views.subrange(start as int, i + 1)) =~= before.push(views[i as int].text));
        }
        i += 1;
    }
    out
}

/// Puts the match of an event together with the reported lines next to it.
fn assemble(events: &Vec<RgEvent>, i: usize, context_before: usize, context_after: usize) -> (m: SearchMatch)
    requires
        i < events.len(),
    ensures
        m@ == event_match(event_views(events@), i as int, context_before as nat, context_after as nat),
{
    let ghost views = event_views(events@);
    let path = events[i].path.as_str();
    let n: i128 = events[i].line_number as i128;
    let low: i128 = n - context_before as i128;
    let high: i128 = n + 1 + context_after as i128;
    let mut start: usize = i;
    while start > 0 && low <= events[start - 1].line_number as i128 && (events[start - 1].line_number as i128) < n
        && same_text(events[start - 1].path.as_str(), path)
        invariant
            start <= i < events@.len(),
            views == event_views(events@),
            path@ == views[i as int].path,
            run_start(views, path@, low as int, n as int, start as int) == run_start(
                views,
                path@,
                low as int,
                n as int,
                i as int,
            ),
        decreases start,
    {
        start -= 1;
    }
    let mut end: usize = i + 1;
    while end < events.len() && n < events[end].line_number as i128 && (events[end].line_number as i128) < high
        && same_text(events[end].path.as_str(), path)
        invariant
            i + 1 <= end <= events@.len(),
            views == event_views(events@),
            path@ == views[i as int].path,
            run_end(views, path@, n + 1, high as int, end as int) == run_end(views, path@, n + 1, high as int, i + 1),
        decreases events@.len() - end,
    {
        end += 1;
    }
    let m = SearchMatch {
        path: events[i].path.clone(),
        line_number: events[i].line_number,
        line_text: events[i].text.clone(),
        context_before: copy_texts(events, start, i),
        context_after: copy_texts(events, i + 1, end),
    };
    assert(m@ =~= event_match(views, i as int, context_before as nat, context_after as nat));
    m
}

/// Parses ripgrep's JSON output: one event per line, of which the matches are taken
/// with the lines next to them, as many as are wanted on either side.
pub fn parse_rg_json_output(stdout: &str, context_before: usize, context_after: usize) -> (out: Vec<SearchMatch>)
    ensures
        ({
            let events = events_on(text::lines(stdout@));
            scan::match_views(out@) == event_matches(
                events,
                context_before as nat,
                context_after as nat,
                events.len(),
            )
        }),
{
    let lines = split_lines(chars_of(stdout).as_slice());
    let ghost all = text::texts(lines@);
    let mut events: Vec<RgEvent> = Vec::new();
    let mut i: usize = 0;
    assert(event_views(events@) =~= Seq::<EventView>::empty());
    while i < lines.len()
        invariant
            i <= lines@.len(),
            all == text::texts(lines@),
            event_views(events@) == events_on(all.take(i as int)),
        decreases lines@.len() - i,
    {
        let ghost before = event_views(events@);
        proof {
            assert(all.take(i + 1).drop_last() =~= all.take(i as int));
            assert(all.take(i + 1).last() == lines@[i as int]@);
        }
        match parse_event(lines[i].as_str()) {
            Some(e) => {
                events.push(e);
                assert(event_views(events@) =~= before.push(e@));
            },
            None => {},
        }
        i += 1;
    }
    assert(all.take(i as int) =~= all);
    let ghost views = event_views(events@);
    let mut out: Vec<SearchMatch> = Vec::new();
    let mut j: usize = 0;
    assert(scan::match_views(out@) =~= Seq::<MatchView>::empty());
    while j < events.len()
        invariant
            j <= events@.len(),
            views == event_views(events@),
            scan::match_views(out@) == event_matches(views, context_before as nat, context_after as nat, j as nat),
        decreases events@.len() - j,
    {
        let ghost before = scan::match_views(out@);
        if events[j].is_match {
            let m = assemble(&events, j, context_before, context_after);
            out.push(m);
            assert(scan::match_views(out@) =~= before.push(m@));
        }
        j += 1;
    }
    out
}

/// Reads what ripgrep printed: JSON where context was asked for, plain lines else.
pub fn parse_rg_output(stdout: &[u8], files_only: bool, context_before: usize, context_after: usize) -> (out: Vec<
    SearchMatch,
>)
    ensures
        ({
            let before = context_before as nat;
            let after = context_after as nat;
            let lines = text::lines(text::utf8_lossy(stdout@));
            let events = events_on(lines);
            scan::match_views(out@) == (if files_only {
                named_files(lines)
            } else if wants_context(files_only, before, after) {
                event_matches(events, before, after, events.len())
            } else {
                plain_matches(lines)
            })
        }),
{
    let output = lossy_text(stdout);
    if needs_context(files_only, context_before, context_after) {
        parse_rg_json_output(output.as_str(), context_before, context_after)
    } else {
        parse_rg_plain_output(output.as_str(), files_only)
    }
}

} // verus!
