//! Search results as text, plain or with ANSI colors.

use crate::matching;
use crate::matching::{compile, find_spans};
use crate::scan;
use crate::scan::{MatchView, SearchMatch};
use crate::text;
use crate::text::{push_decimal, utf8_text};
use vstd::prelude::*;
use vstd::utf8::*;

verus! {

/// The ANSI escape for bold magenta, for paths.
pub const MAGENTA_BOLD: &'static str = "\x1b[1;35m";

/// The ANSI escape for green, for line numbers.
pub const GREEN: &'static str = "\x1b[32m";

/// The ANSI escape for cyan, for separators.
pub const CYAN: &'static str = "\x1b[36m";

/// The ANSI escape for bold red, for matched text.
pub const RED_BOLD: &'static str = "\x1b[1;31m";

/// The ANSI escape that ends a color.
pub const RESET: &'static str = "\x1b[0m";

// ---------------------------------------------------------------------------
// Highlighting
// ---------------------------------------------------------------------------

/// The stretch of a text between two positions in its UTF-8 encoding.
pub open spec fn byte_slice(s: Seq<char>, start: int, end: int) -> Seq<char> {
    decode_utf8(encode_utf8(s).subrange(start, end))
}

/// A text from position `from` on, with `open` before and `close` after each of the
/// spans from the `k`-th on.
pub open spec fn wrapped_from(
    s: Seq<char>,
    spans: Seq<(usize, usize)>,
    open: Seq<char>,
    close: Seq<char>,
    k: int,
    from: int,
) -> Seq<char>
    decreases spans.len() - k,
{
    if k < 0 || k >= spans.len() {
        byte_slice(s, from, encode_utf8(s).len() as int)
    } else {
        let (start, end) = spans[k];
        byte_slice(s, from, start as int) + open + byte_slice(s, start as int, end as int) + close + wrapped_from(
            s,
            spans,
            open,
            close,
            k + 1,
            end as int,
        )
    }
}

/// A text with its spans in bold red.
pub open spec fn highlighted(s: Seq<char>, spans: Seq<(usize, usize)>) -> Seq<char> {
    wrapped_from(s, spans, RED_BOLD@, RESET@, 0, 0)
}

/// A boundary of characters stays one when the text is cut at a later one.
proof fn lemma_boundary_of_prefix(bytes: Seq<u8>, start: int, end: int)
    requires
        valid_utf8(bytes),
        0 <= start <= end <= bytes.len(),
        is_char_boundary(bytes, start),
        is_char_boundary(bytes, end),
    ensures
        valid_utf8(bytes.subrange(0, end)),
        is_char_boundary(bytes.subrange(0, end), start),
        valid_utf8(bytes.subrange(start, end)),
{
    let prefix = bytes.subrange(0, end);
    valid_utf8_split(bytes, end);
    if start < end {
        is_char_boundary_iff_not_is_continuation_byte(bytes, start);
        is_char_boundary_iff_not_is_continuation_byte(prefix, start);
        assert(prefix[start] == bytes[start]);
    } else {
        is_char_boundary_start_end_of_seq(prefix);
    }
    valid_utf8_split(prefix, start);
    assert(prefix.subrange(start, prefix.len() as int) =~= bytes.subrange(start, end));
}

/// Appends the stretch of a text between two positions in its UTF-8 encoding.
fn push_slice(out: &mut String, s: &str, start: usize, end: usize)
    requires
        start <= end <= encode_utf8(s@).len(),
        is_char_boundary(encode_utf8(s@), start as int),
        is_char_boundary(encode_utf8(s@), end as int),
    ensures
        final(out)@ == old(out)@ + byte_slice(s@, start as int, end as int),
{
    proof {
        encode_utf8_valid_utf8(s@);
        lemma_boundary_of_prefix(encode_utf8(s@), start as int, end as int);
    }
    let part = vstd::slice::slice_subrange(s.as_bytes(), start, end);
    match utf8_text(part) {
        Some(t) => {
            proof {
                encode_utf8_decode_utf8(t@);
            }
            out.append(t.as_str());
        },
        None => {
            assert(false);
        },
    }
}

/// Appends a line with its spans in bold red.
fn push_highlighted(out: &mut String, line: &str, spans: &[(usize, usize)])
    requires
        matching::spans_fit(spans@, line@),
    ensures
        final(out)@ == old(out)@ + highlighted(line@, spans@),
{
    let mut last_end: usize = 0;
    let mut k: usize = 0;
    proof {
        encode_utf8_valid_utf8(line@);
        is_char_boundary_start_end_of_seq(encode_utf8(line@));
    }
    while k < spans.len()
        invariant
            k <= spans@.len(),
            matching::spans_fit(spans@, line@),
            last_end <= encode_utf8(line@).len(),
            is_char_boundary(encode_utf8(line@), last_end as int),
            last_end == (if k == 0 {
                0
            } else {
                spans@[k - 1].1
            }),
            out@ + wrapped_from(line@, spans@, RED_BOLD@, RESET@, k as int, last_end as int) == old(out)@ + highlighted(
                line@,
                spans@,
            ),
        decreases spans@.len() - k,
    {
        let ghost before = out@;
        let (start, end) = spans[k];
        assert(spans@[k as int] == (start, end));
        push_slice(out, line, last_end, start);
        out.append(RED_BOLD);
        push_slice(out, line, start, end);
        out.append(RESET);
        proof {
            let rest = wrapped_from(line@, spans@, RED_BOLD@, RESET@, k + 1, end as int);
            assert(before + wrapped_from(line@, spans@, RED_BOLD@, RESET@, k as int, last_end as int) =~= out@ + rest);
        }
        last_end = end;
        k += 1;
    }
    proof {
        encode_utf8_valid_utf8(line@);
        is_char_boundary_start_end_of_seq(encode_utf8(line@));
    }
    let size: usize = line.as_bytes().len();
    push_slice(out, line, last_end, size);
}

/// Wraps the matches in a line in bold red.
pub fn highlight_matches(line: &str, spans: &[(usize, usize)]) -> (out: String)
    requires
        matching::spans_fit(spans@, line@),
    ensures
        out@ == highlighted(line@, spans@),
{
    let mut out = String::new();
    push_highlighted(&mut out, line, spans);
    assert(out@ =~= highlighted(line@, spans@));
    out
}

pub proof fn lemma_slices_join(s: Seq<char>, start: int, mid: int, end: int)
    requires
        0 <= start <= mid <= end <= encode_utf8(s).len(),
        is_char_boundary(encode_utf8(s), start),
        is_char_boundary(encode_utf8(s), mid),
        is_char_boundary(encode_utf8(s), end),
    ensures
        byte_slice(s, start, mid) + byte_slice(s, mid, end) == byte_slice(s, start, end),
{
    let bytes = encode_utf8(s);
    encode_utf8_valid_utf8(s);
    lemma_boundary_of_prefix(bytes, start, end);
    lemma_boundary_of_prefix(bytes, start, mid);
    lemma_boundary_of_prefix(bytes, mid, end);
    let part = bytes.subrange(start, end);
    let prefix = bytes.subrange(0, end);
    let cut = mid - start;
    // `mid` is a boundary of the prefix, and so of what follows `start` in it.
    lemma_boundary_of_suffix(prefix, start, mid);
    assert(prefix.subrange(start, prefix.len() as int) =~= part);
    assert(part.subrange(0, cut) =~= bytes.subrange(start, mid));
    assert(part.subrange(cut, part.len() as int) =~= bytes.subrange(mid, end));
    decode_utf8_split(part, cut);
}

/// A boundary of characters stays one when the text is cut at an earlier one.
proof fn lemma_boundary_of_suffix(bytes: Seq<u8>, start: int, mid: int)
    requires
        valid_utf8(bytes),
        0 <= start <= mid <= bytes.len(),
        is_char_boundary(bytes, start),
        is_char_boundary(bytes, mid),
    ensures
        valid_utf8(bytes.subrange(start, bytes.len() as int)),
        is_char_boundary(bytes.subrange(start, bytes.len() as int), mid - start),
{
    let suffix = bytes.subrange(start, bytes.len() as int);
    valid_utf8_split(bytes, start);
    if mid < bytes.len() {
        is_char_boundary_iff_not_is_continuation_byte(bytes, mid);
        is_char_boundary_iff_not_is_continuation_byte(suffix, mid - start);
        assert(suffix[mid - start] == bytes[mid]);
    } else {
        is_char_boundary_start_end_of_seq(suffix);
    }
}

proof fn lemma_wrapped_keeps(s: Seq<char>, spans: Seq<(usize, usize)>, k: int, from: int)
    requires
        matching::spans_fit(spans, s),
        0 <= k <= spans.len(),
        0 <= from <= encode_utf8(s).len(),
        is_char_boundary(encode_utf8(s), from),
        k < spans.len() ==> from <= spans[k].0,
    ensures
        wrapped_from(s, spans, Seq::empty(), Seq::empty(), k, from) == byte_slice(
            s,
            from,
            encode_utf8(s).len() as int,
        ),
    decreases spans.len() - k,
{
    let size = encode_utf8(s).len() as int;
    encode_utf8_valid_utf8(s);
    is_char_boundary_start_end_of_seq(encode_utf8(s));
    if k < spans.len() {
        let (start, end) = spans[k];
        assert(spans[k] == (start, end));
        if k + 1 < spans.len() {
            assert(spans[k].1 <= spans[k + 1].0);
        }
        lemma_wrapped_keeps(s, spans, k + 1, end as int);
        lemma_slices_join(s, from, start as int, end as int);
        lemma_slices_join(s, from, end as int, size);
        let none = Seq::<char>::empty();
        let rest = byte_slice(s, end as int, size);
        assert(wrapped_from(s, spans, none, none, k, from) =~= (byte_slice(s, from, start as int) + byte_slice(
            s,
            start as int,
            end as int,
        )) + rest);
    }
}

/// Highlighting only adds colors: with nothing in place of the escapes, the text is
/// what it was.
pub proof fn law_highlighting_keeps_text(s: Seq<char>, spans: Seq<(usize, usize)>)
    requires
        matching::spans_fit(spans, s),
    ensures
        wrapped_from(s, spans, Seq::empty(), Seq::empty(), 0, 0) == s,
{
    encode_utf8_valid_utf8(s);
    is_char_boundary_start_end_of_seq(encode_utf8(s));
    lemma_wrapped_keeps(s, spans, 0, 0);
    assert(encode_utf8(s).subrange(0, encode_utf8(s).len() as int) =~= encode_utf8(s));
    encode_utf8_decode_utf8(s);
}

// ---------------------------------------------------------------------------
// Results
// ---------------------------------------------------------------------------

/// A context line: its path, number and text with dashes between them.
pub open spec fn context_line(path: Seq<char>, number: nat, line: Seq<char>, color: bool) -> Seq<char> {
    if color {
        MAGENTA_BOLD@ + path + RESET@ + CYAN@ + "-"@ + RESET@ + GREEN@ + text::decimal(number) + RESET@ + CYAN@
            + "-"@ + RESET@ + line + "\n"@
    } else {
        path + "-"@ + text::decimal(number) + "-"@ + line + "\n"@
    }
}

/// The first `n` of several context lines, numbered from `first` on.
pub open spec fn context_lines(
    path: Seq<char>,
    first: nat,
    lines: Seq<Seq<char>>,
    color: bool,
    n: nat,
) -> Seq<char>
    decreases n,
{
    if n == 0 {
        Seq::empty()
    } else {
        context_lines(path, first, lines, color, (n - 1) as nat) + context_line(
            path,
            (first + n - 1) as nat,
            lines[n - 1],
            color,
        )
    }
}

/// The line of a match in colors: its path, or its path, number and text with colons
/// between them and the matched parts highlighted.
pub open spec fn colored_match(m: MatchView, spans: Seq<(usize, usize)>, files_only: bool) -> Seq<char> {
    if files_only {
        MAGENTA_BOLD@ + m.path + RESET@
    } else {
        MAGENTA_BOLD@ + m.path + RESET@ + CYAN@ + ":"@ + RESET@ + GREEN@ + text::decimal(m.line_number as nat)
            + RESET@ + CYAN@ + ":"@ + RESET@ + highlighted(m.line_text, spans)
    }
}

/// The number of the first context line before a match.
pub open spec fn first_before(m: MatchView) -> nat {
    if m.line_number <= m.context_before.len() {
        0
    } else {
        (m.line_number - m.context_before.len()) as nat
    }
}

/// The line of a match with its number and text, colored or plain.
pub open spec fn match_line(m: MatchView, spans: Seq<(usize, usize)>, files_only: bool, color: bool) -> Seq<char> {
    if color {
        colored_match(m, spans, files_only) + "\n"@
    } else {
        m.path + ":"@ + text::decimal(m.line_number as nat) + ":"@ + m.line_text + "\n"@
    }
}

/// The context lines before a match.
pub open spec fn lines_before(m: MatchView, color: bool) -> Seq<char> {
    context_lines(m.path, first_before(m), m.context_before, color, m.context_before.len())
}

/// The context lines after a match.
pub open spec fn lines_after(m: MatchView, color: bool) -> Seq<char> {
    context_lines(m.path, m.line_number as nat + 1, m.context_after, color, m.context_after.len())
}

/// The lines of one match. Plain output of file names is the path alone.
pub open spec fn match_block(
    m: MatchView,
    spans: Seq<(usize, usize)>,
    files_only: bool,
    color: bool,
    has_context: bool,
) -> Seq<char> {
    if files_only && !color {
        m.path + "\n"@
    } else if has_context {
        lines_before(m, color) + match_line(m, spans, files_only, color) + lines_after(m, color)
    } else {
        match_line(m, spans, files_only, color)
    }
}

/// The lines of the first `n` matches, with a separator between each two where there
/// is context.
pub open spec fn rendered(
    matches: Seq<MatchView>,
    spans: Seq<Seq<(usize, usize)>>,
    files_only: bool,
    color: bool,
    has_context: bool,
    n: nat,
) -> Seq<char>
    decreases n,
{
    if n == 0 {
        Seq::empty()
    } else {
        let earlier = rendered(matches, spans, files_only, color, has_context, (n - 1) as nat);
        let separator = if has_context && n > 1 {
            "--\n"@
        } else {
            Seq::empty()
        };
        earlier + separator + match_block(matches[n - 1], spans[n - 1], files_only, color, has_context)
    }
}

/// The spans of several lines.
pub open spec fn span_views(spans: Seq<Vec<(usize, usize)>>) -> Seq<Seq<(usize, usize)>> {
    spans.map_values(|s: Vec<(usize, usize)>| s@)
}

/// Appends a context line.
fn push_context_line(out: &mut String, path: &str, number: u128, line: &str, color: bool)
    ensures
        final(out)@ == old(out)@ + context_line(path@, number as nat, line@, color),
{
    if color {
        out.append(MAGENTA_BOLD);
        out.append(path);
        out.append(RESET);
        out.append(CYAN);
        out.append("-");
        out.append(RESET);
        out.append(GREEN);
        push_decimal(out, number);
        out.append(RESET);
        out.append(CYAN);
        out.append("-");
        out.append(RESET);
        out.append(line);
        out.append("\n");
    } else {
        out.append(path);
        out.append("-");
        push_decimal(out, number);
        out.append("-");
        out.append(line);
        out.append("\n");
    }
    assert(out@ =~= old(out)@ + context_line(path@, number as nat, line@, color));
}

/// Appends context lines.
fn push_context_lines(out: &mut String, path: &str, first: u64, lines: &[String], color: bool)
    ensures
        final(out)@ == old(out)@ + context_lines(path@, first as nat, text::texts(lines@), color, lines@.len()),
{
    let ghost all = text::texts(lines@);
    let mut i: usize = 0;
    assert(old(out)@ + context_lines(path@, first as nat, all, color, 0) =~= old(out)@);
    while i < lines.len()
        invariant
            i <= lines@.len(),
            all == text::texts(lines@),
            out@ == old(out)@ + context_lines(path@, first as nat, all, color, i as nat),
        decreases lines@.len() - i,
    {
        push_context_line(out, path, first as u128 + i as u128, lines[i].as_str(), color);
        assert(out@ =~= old(out)@ + context_lines(path@, first as nat, all, color, (i + 1) as nat));
        i += 1;
    }
}

/// Appends the line of a match in colors.
fn push_colored_match(out: &mut String, m: &SearchMatch, spans: &[(usize, usize)], files_only: bool)
    requires
        matching::spans_fit(spans@, m.line_text@),
    ensures
        final(out)@ == old(out)@ + colored_match(m@, spans@, files_only),
{
    out.append(MAGENTA_BOLD);
    out.append(m.path.as_str());
    out.append(RESET);
    if !files_only {
        out.append(CYAN);
        out.append(":");
        out.append(RESET);
        out.append(GREEN);
        push_decimal(out, m.line_number as u128);
        out.append(RESET);
        out.append(CYAN);
        out.append(":");
        out.append(RESET);
        push_highlighted(out, m.line_text.as_str(), spans);
    }
    assert(out@ =~= old(out)@ + colored_match(m@, spans@, files_only));
}

/// Formats the line of a match with ANSI colors: the path in bold magenta, the line
/// number in green, separators in cyan, matched parts in bold red.
pub fn format_match_colored(m: &SearchMatch, spans: &[(usize, usize)], files_only: bool) -> (out: String)
    requires
        matching::spans_fit(spans@, m.line_text@),
    ensures
        out@ == colored_match(m@, spans@, files_only),
{
    let mut out = String::new();
    push_colored_match(&mut out, m, spans, files_only);
    assert(out@ =~= colored_match(m@, spans@, files_only));
    out
}

/// Appends the line of a match.
fn push_match_line(out: &mut String, m: &SearchMatch, spans: &[(usize, usize)], files_only: bool, color: bool)
    requires
        matching::spans_fit(spans@, m.line_text@),
    ensures
        final(out)@ == old(out)@ + match_line(m@, spans@, files_only, color),
{
    if color {
        push_colored_match(out, m, spans, files_only);
    } else {
        out.append(m.path.as_str());
        out.append(":");
        push_decimal(out, m.line_number as u128);
        out.append(":");
        out.append(m.line_text.as_str());
    }
    out.append("\n");
    assert(out@ =~= old(out)@ + match_line(m@, spans@, files_only, color));
}

/// Appends the context lines before a match.
fn push_lines_before(out: &mut String, m: &SearchMatch, color: bool)
    ensures
        final(out)@ == old(out)@ + lines_before(m@, color),
{
    let count: usize = m.context_before.len();
    let first: u64 = if m.line_number as u64 <= count as u64 {
        0
    } else {
        m.line_number as u64 - count as u64
    };
    push_context_lines(out, m.path.as_str(), first, m.context_before.as_slice(), color);
}

/// Appends the lines of one match.
fn push_match_block(
    out: &mut String,
    m: &SearchMatch,
    spans: &[(usize, usize)],
    files_only: bool,
    color: bool,
    has_context: bool,
)
    requires
        matching::spans_fit(spans@, m.line_text@),
    ensures
        final(out)@ == old(out)@ + match_block(m@, spans@, files_only, color, has_context),
{
    if files_only && !color {
        out.append(m.path.as_str());
        out.append("\n");
        assert(out@ =~= old(out)@ + (m@.path + "\n"@));
    } else if has_context {
        push_lines_before(out, m, color);
        push_match_line(out, m, spans, files_only, color);
        push_context_lines(out, m.path.as_str(), m.line_number as u64 + 1, m.context_after.as_slice(), color);
        assert(out@ =~= old(out)@ + (lines_before(m@, color) + match_line(m@, spans@, files_only, color)
            + lines_after(m@, color)));
    } else {
        push_match_line(out, m, spans, files_only, color);
    }
}

/// Renders matches as text, plain or colored, where `spans` are the matched parts of
/// their lines.
pub fn render_matches(
    matches: &[SearchMatch],
    spans: &[Vec<(usize, usize)>],
    files_only: bool,
    color: bool,
    has_context: bool,
) -> (out: String)
    requires
        matches@.len() == spans@.len(),
        forall|i: int| 0 <= i < matches@.len() ==> matching::spans_fit((#[trigger] spans@[i])@, matches@[i].line_text@),
    ensures
        out@ == rendered(
            scan::match_views(matches@),
            span_views(spans@),
            files_only,
            color,
            has_context,
            matches@.len(),
        ),
{
    let ghost all = scan::match_views(matches@);
    let ghost marks = span_views(spans@);
    let mut out = String::new();
    let mut i: usize = 0;
    assert(out@ =~= rendered(all, marks, files_only, color, has_context, 0));
    while i < matches.len()
        invariant
            i <= matches@.len(),
            matches@.len() == spans@.len(),
            all == scan::match_views(matches@),
            marks == span_views(spans@),
            forall|k: int|
                0 <= k < matches@.len() ==> matching::spans_fit((#[trigger] spans@[k])@, matches@[k].line_text@),
            out@ == rendered(all, marks, files_only, color, has_context, i as nat),
        decreases matches@.len() - i,
    {
        if has_context && i > 0 {
            out.append("--\n");
        }
        assert(matching::spans_fit(spans@[i as int]@, matches@[i as int].line_text@));
        push_match_block(&mut out, &matches[i], spans[i].as_slice(), files_only, color, has_context);
        assert(out@ =~= rendered(all, marks, files_only, color, has_context, (i + 1) as nat));
        i += 1;
    }
    out
}

/// No spans for any match.
pub open spec fn no_spans(n: nat) -> Seq<Seq<(usize, usize)>> {
    Seq::new(n, |i: int| Seq::<(usize, usize)>::empty())
}

/// The spans of a pattern in the lines of matches.
pub open spec fn pattern_spans(
    matches: Seq<MatchView>,
    pattern: Seq<char>,
    case_insensitive: bool,
) -> Seq<Seq<(usize, usize)>> {
    matches.map_values(|m: MatchView| matching::match_spans(pattern, case_insensitive, m.line_text))
}

/// Renders search results as text. Colored output highlights what the pattern
/// matches in the lines, or nothing where the pattern does not compile.
pub fn render_results(
    matches: &[SearchMatch],
    pattern: &str,
    case_insensitive: bool,
    files_only: bool,
    color: bool,
    has_context: bool,
) -> (out: String)
    ensures
        ({
            let all = scan::match_views(matches@);
            let n = all.len();
            let spans = if color && matching::refusal(pattern@, case_insensitive) is None {
                pattern_spans(all, pattern@, case_insensitive)
            } else {
                no_spans(n)
            };
            out@ == rendered(all, spans, files_only, color, has_context, n)
        }),
{
    let ghost all = scan::match_views(matches@);
    let mut spans: Vec<Vec<(usize, usize)>> = Vec::new();
    let mut i: usize = 0;
    if color {
        match compile(pattern, case_insensitive) {
            Ok(re) => {
                while i < matches.len()
                    invariant
                        i <= matches@.len(),
                        all == scan::match_views(matches@),
                        spans@.len() == i,
                        matching::made_with(re) == (pattern@, case_insensitive),
                        forall|k: int|
                            0 <= k < i ==> matching::spans_fit((#[trigger] spans@[k])@, matches@[k].line_text@)
                                && spans@[k]@ == pattern_spans(all, pattern@, case_insensitive)[k],
                    decreases matches@.len() - i,
                {
                    spans.push(find_spans(&re, matches[i].line_text.as_str()));
                    i += 1;
                }
                assert(span_views(spans@) =~= pattern_spans(all, pattern@, case_insensitive));
                return render_matches(matches, spans.as_slice(), files_only, color, has_context);
            },
            Err(_) => {},
        }
    }
    while i < matches.len()
        invariant
            i <= matches@.len(),
            spans@.len() == i,
            forall|k: int| 0 <= k < i ==> (#[trigger] spans@[k])@ == Seq::<(usize, usize)>::empty(),
        decreases matches@.len() - i,
    {
        let none: Vec<(usize, usize)> = Vec::new();
        spans.push(none);
        i += 1;
    }
    assert(span_views(spans@) =~= no_spans(matches@.len()));
    render_matches(matches, spans.as_slice(), files_only, color, has_context)
}

} // verus!
