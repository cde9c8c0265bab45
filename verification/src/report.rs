//! What the program reads from its arguments and prints: sizes, JSON lines, and
//! plain or colored matches.

use crate::freshness::FreshnessReport;
use crate::scan;
use crate::scan::{MatchView, SearchMatch};
use crate::text;
use crate::text::{chars_of, parse_number, push_decimal, push_hex, string_of, trim};
use vstd::hash_set::StringHashSet;
use vstd::prelude::*;

verus! {

// ---------------------------------------------------------------------------
// Sizes
// ---------------------------------------------------------------------------

/// Why a text is no size.
#[derive(Debug)]
pub enum SizeError {
    /// There is nothing but white space.
    Empty,
    /// There is no number, with the text without white space around it.
    Invalid(String),
    /// The size does not fit in 64 bits.
    TooLarge,
}

/// What the unit at the end of a text stands for.
pub open spec fn unit(c: char) -> nat {
    if c == 'K' || c == 'k' {
        1024
    } else if c == 'M' || c == 'm' {
        1_048_576
    } else if c == 'G' || c == 'g' {
        1_073_741_824
    } else {
        1
    }
}

/// The number and the unit of a size.
pub open spec fn size_parts(s: Seq<char>) -> (Seq<char>, nat)
    recommends
        s.len() > 0,
{
    if unit(s.last()) > 1 {
        (text::trimmed(s.drop_last()), unit(s.last()))
    } else {
        (text::trimmed(s), 1)
    }
}

/// Parses a human-readable size like `10M`, `500K` or `1048576` into bytes.
pub fn parse_size(s: &str) -> (r: Result<u64, SizeError>)
    ensures
        ({
            let t = text::trimmed(s@);
            let (digits, factor) = size_parts(t);
            if t.len() == 0 {
                r == Err::<u64, SizeError>(SizeError::Empty)
            } else {
                match text::number(digits, u64::MAX as nat) {
                    None => r is Err && r->Err_0 is Invalid && r->Err_0->Invalid_0@ == t,
                    Some(n) => r == (if n * factor <= u64::MAX {
                        Ok::<u64, SizeError>((n * factor) as u64)
                    } else {
                        Err::<u64, SizeError>(SizeError::TooLarge)
                    }),
                }
            }
        }),
{
    let chars = chars_of(s);
    let t = trim(chars.as_slice());
    if t.len() == 0 {
        return Err(SizeError::Empty);
    }
    let last: char = t[t.len() - 1];
    let factor: u64 = if last == 'M' || last == 'm' {
        1_048_576
    } else if last == 'K' || last == 'k' {
        1_024
    } else if last == 'G' || last == 'g' {
        1_073_741_824
    } else {
        1
    };
    let digits = if factor > 1 {
        let before = vstd::slice::slice_subrange(t, 0, t.len() - 1);
        assert(before@ =~= t@.drop_last());
        trim(before)
    } else {
        trim(t)
    };
    assert((digits@, factor as nat) == size_parts(t@));
    match parse_number(digits, u64::MAX) {
        None => Err(SizeError::Invalid(string_of(t))),
        Some(n) => {
            let size: Option<u64> = n.checked_mul(factor);
            match size {
                Some(bytes) => Ok(bytes),
                None => Err(SizeError::TooLarge),
            }
        },
    }
}

// ---------------------------------------------------------------------------
// JSON lines
// ---------------------------------------------------------------------------

/// What a character becomes in a JSON string.
pub open spec fn json_char(c: char) -> Seq<char> {
    if c == '"' {
        seq!['\\', '"']
    } else if c == '\\' {
        seq!['\\', '\\']
    } else if c == '\n' {
        seq!['\\', 'n']
    } else if c == '\t' {
        seq!['\\', 't']
    } else if c == '\r' {
        seq!['\\', 'r']
    } else if ' ' > c {
        seq!['\\', 'u'] + text::hex(c as nat, 4)
    } else {
        seq![c]
    }
}

/// A text escaped for a JSON string.
pub open spec fn json_escaped(s: Seq<char>) -> Seq<char>
    decreases s.len(),
{
    if s.len() == 0 {
        Seq::empty()
    } else {
        json_escaped(s.drop_last()) + json_char(s.last())
    }
}

/// Appends a character as it stands in a JSON string.
fn push_json_char(out: &mut String, c: char)
    ensures
        final(out)@ == old(out)@ + json_char(c),
{
    if c == '"' {
        out.push('\\');
        out.push('"');
    } else if c == '\\' {
        out.push('\\');
        out.push('\\');
    } else if c == '\n' {
        out.push('\\');
        out.push('n');
    } else if c == '\t' {
        out.push('\\');
        out.push('t');
    } else if c == '\r' {
        out.push('\\');
        out.push('r');
    } else if ' ' > c {
        out.push('\\');
        out.push('u');
        push_hex(out, c as u64, 4);
    } else {
        out.push(c);
    }
    assert(out@ =~= old(out)@ + json_char(c));
}

/// Appends a text escaped for a JSON string.
fn push_escaped(out: &mut String, s: &str)
    ensures
        final(out)@ == old(out)@ + json_escaped(s@),
{
    let chars = chars_of(s);
    let mut i: usize = 0;
    assert(old(out)@ + json_escaped(chars@.take(0)) =~= old(out)@);
    while i < chars.len()
        invariant
            i <= chars@.len(),
            out@ == old(out)@ + json_escaped(chars@.take(i as int)),
        decreases chars@.len() - i,
    {
        push_json_char(out, chars[i]);
        proof {
            assert(chars@.take(i + 1).drop_last() =~= chars@.take(i as int));
            assert(out@ =~= old(out)@ + json_escaped(chars@.take(i + 1)));
        }
        i += 1;
    }
    assert(chars@.take(i as int) =~= s@);
}

/// Escapes a string for JSON output.
pub fn json_escape(s: &str) -> (out: String)
    ensures
        out@ == json_escaped(s@),
{
    let mut out = String::new();
    push_escaped(&mut out, s);
    assert(out@ =~= json_escaped(s@));
    out
}

/// The value of a hexadecimal digit.
pub open spec fn hex_value(c: char) -> Option<nat> {
    if '0' <= c && c <= '9' {
        Some((c as nat - 48) as nat)
    } else if 'a' <= c && c <= 'f' {
        Some((c as nat - 87) as nat)
    } else if 'A' <= c && c <= 'F' {
        Some((c as nat - 55) as nat)
    } else {
        None
    }
}

/// The number that four hexadecimal digits stand for.
pub open spec fn hex_number(s: Seq<char>) -> Option<nat> {
    match (hex_value(s[0]), hex_value(s[1]), hex_value(s[2]), hex_value(s[3])) {
        (Some(a), Some(b), Some(c), Some(d)) => Some(4096 * a + 256 * b + 16 * c + d),
        _ => None,
    }
}

/// What a backslash and a letter stand for in a JSON string.
pub open spec fn json_letter(c: char) -> Option<char> {
    if c == 'n' {
        Some('\n')
    } else if c == 't' {
        Some('\t')
    } else if c == 'r' {
        Some('\r')
    } else if c == 'b' {
        Some(8 as char)
    } else if c == 'f' {
        Some(12 as char)
    } else if c == '"' || c == '\\' || c == '/' {
        Some(c)
    } else {
        None
    }
}

/// The text that the inside of a JSON string stands for, or `None` where it is none.
/// Numbered characters are those of the basic plane that are no surrogates.
pub open spec fn json_text(s: Seq<char>) -> Option<Seq<char>>
    decreases s.len(),
{
    if s.len() == 0 {
        Some(Seq::empty())
    } else if s[0] == '"' || ' ' > s[0] {
        None
    } else if s[0] != '\\' {
        match json_text(s.skip(1)) {
            Some(rest) => Some(seq![s[0]] + rest),
            None => None,
        }
    } else if s.len() == 1 {
        None
    } else if s[1] == 'u' {
        if s.len() < 6 {
            None
        } else {
            match (hex_number(s.subrange(2, 6)), json_text(s.skip(6))) {
                (Some(n), Some(rest)) => if 0xD800 <= n <= 0xDFFF {
                    None
                } else {
                    Some(seq![n as char] + rest)
                },
                _ => None,
            }
        }
    } else {
        match (json_letter(s[1]), json_text(s.skip(2))) {
            (Some(c), Some(rest)) => Some(seq![c] + rest),
            _ => None,
        }
    }
}

/// Escaping goes from the first character to the last.
pub proof fn lemma_escaped_first(s: Seq<char>)
    requires
        s.len() > 0,
    ensures
        json_escaped(s) == json_char(s[0]) + json_escaped(s.skip(1)),
    decreases s.len(),
{
    if s.len() == 1 {
        assert(s.drop_last() =~= Seq::<char>::empty());
        assert(s.skip(1) =~= Seq::<char>::empty());
        assert(json_escaped(s) =~= json_char(s[0]) + json_escaped(s.skip(1)));
    } else {
        let t = s.drop_last();
        lemma_escaped_first(t);
        assert(s.skip(1).drop_last() =~= t.skip(1));
        assert(json_escaped(s) =~= json_char(s[0]) + json_escaped(s.skip(1)));
    }
}

/// A control character is read back from its number.
proof fn lemma_control_number(c: char)
    requires
        ' ' > c,
    ensures
        text::hex(c as nat, 4).len() == 4,
        hex_number(text::hex(c as nat, 4)) == Some(c as nat),
        (c as nat) < 32,
        (c as nat) as char == c,
{
    reveal_with_fuel(text::hex, 5);
    let n = c as nat;
    assert(n < 32);
    assert(n / 16 / 16 == 0 && n / 16 / 16 / 16 == 0);
    let s = text::hex(n, 4);
    assert(s.len() == 4);
    assert(s[3] == text::hex_digit(n % 16));
    assert(s[2] == text::hex_digit(n / 16 % 16));
    assert(s[1] == text::hex_digit(0));
    assert(s[0] == text::hex_digit(0));
    assert(hex_value(s[0]) == Some(0nat) && hex_value(s[1]) == Some(0nat));
    assert(hex_value(s[2]) == Some(n / 16));
    assert(hex_value(s[3]) == Some(n % 16));
}

/// A text that is escaped and put between quotes is a JSON string of that text.
pub proof fn law_escaping_keeps_the_text(s: Seq<char>)
    ensures
        json_text(json_escaped(s)) == Some(s),
    decreases s.len(),
{
    if s.len() > 0 {
        let c = s[0];
        let rest = s.skip(1);
        let out = json_escaped(s);
        let first = json_char(c);
        lemma_escaped_first(s);
        law_escaping_keeps_the_text(rest);
        assert(seq![c] + rest =~= s);
        if c == '"' || c == '\\' || c == '\n' || c == '\t' || c == '\r' {
            assert(first.len() == 2);
            assert(out.skip(2) =~= json_escaped(rest));
        } else if ' ' > c {
            lemma_control_number(c);
            assert(first.len() == 6);
            assert(out.skip(6) =~= json_escaped(rest));
            let n = c as nat;
            assert(out.subrange(2, 6) =~= text::hex(n, 4));
            assert(out[0] == '\\' && out[1] == 'u');
            assert(json_text(out) == Some(seq![n as char] + rest));
        } else {
            assert(first.len() == 1);
            assert(out.skip(1) =~= json_escaped(rest));
        }
    } else {
        assert(json_text(json_escaped(s))->0 =~= s);
    }
}

/// Strings in quotes, with commas between them.
pub open spec fn json_items(items: Seq<Seq<char>>) -> Seq<char>
    decreases items.len(),
{
    if items.len() == 0 {
        Seq::empty()
    } else {
        let before = json_items(items.drop_last());
        let comma = if items.len() > 1 {
            before.push(',')
        } else {
            before
        };
        comma + "\""@ + json_escaped(items.last()) + "\""@
    }
}

/// A JSON array of strings.
pub open spec fn json_array(items: Seq<Seq<char>>) -> Seq<char> {
    "["@ + json_items(items) + "]"@
}

/// Appends a JSON array of strings.
fn push_array(out: &mut String, items: &[String])
    ensures
        final(out)@ == old(out)@ + json_array(text::texts(items@)),
{
    let ghost all = text::texts(items@);
    out.append("[");
    let ghost start = out@;
    let mut i: usize = 0;
    assert(start + json_items(all.take(0)) =~= start);
    while i < items.len()
        invariant
            i <= items@.len(),
            all == text::texts(items@),
            out@ == start + json_items(all.take(i as int)),
        decreases items@.len() - i,
    {
        let ghost now = all.take(i + 1);
        if i > 0 {
            out.push(',');
        }
        out.append("\"");
        push_escaped(out, items[i].as_str());
        out.append("\"");
        proof {
            assert(now.drop_last() =~= all.take(i as int));
            assert(now.last() == items@[i as int]@);
            assert(out@ =~= start + json_items(now));
        }
        i += 1;
    }
    out.append("]");
    proof {
        assert(all.take(i as int) =~= all);
        assert(out@ =~= old(out)@ + json_array(all));
    }
}

/// Formats a JSON array of strings.
pub fn json_string_array(items: &[String]) -> (out: String)
    ensures
        out@ == json_array(text::texts(items@)),
{
    let mut out = String::new();
    push_array(&mut out, items);
    assert(out@ =~= json_array(text::texts(items@)));
    out
}

/// The JSON line of a match.
pub open spec fn json_match(m: MatchView) -> Seq<char> {
    "{\"type\":\"match\",\"path\":\""@ + json_escaped(m.path) + "\",\"line_number\":"@ + text::decimal(
        m.line_number as nat,
    ) + ",\"line_text\":\""@ + json_escaped(m.line_text) + "\",\"context_before\":"@ + json_array(m.context_before)
        + ",\"context_after\":"@ + json_array(m.context_after) + "}\n"@
}

/// The JSON lines of matches.
pub open spec fn json_matches(matches: Seq<MatchView>) -> Seq<char>
    decreases matches.len(),
{
    if matches.len() == 0 {
        Seq::empty()
    } else {
        json_matches(matches.drop_last()) + json_match(matches.last())
    }
}

/// The JSON line that sums a search up.
pub open spec fn json_summary(
    match_count: nat,
    file_count: nat,
    files_searched: nat,
    total_files: nat,
    duration_ms: nat,
    mode: Seq<char>,
) -> Seq<char> {
    "{\"type\":\"summary\",\"match_count\":"@ + text::decimal(match_count) + ",\"file_count\":"@ + text::decimal(
        file_count,
    ) + ",\"files_searched\":"@ + text::decimal(files_searched) + ",\"total_files\":"@ + text::decimal(total_files)
        + ",\"duration_ms\":"@ + text::decimal(duration_ms) + ",\"mode\":\""@ + json_escaped(mode) + "\"}\n"@
}

/// Appends the JSON line of a match.
fn push_json_match(out: &mut String, m: &SearchMatch)
    ensures
        final(out)@ == old(out)@ + json_match(m@),
{
    out.append("{\"type\":\"match\",\"path\":\"");
    push_escaped(out, m.path.as_str());
    out.append("\",\"line_number\":");
    push_decimal(out, m.line_number as u128);
    out.append(",\"line_text\":\"");
    push_escaped(out, m.line_text.as_str());
    out.append("\",\"context_before\":");
    push_array(out, m.context_before.as_slice());
    out.append(",\"context_after\":");
    push_array(out, m.context_after.as_slice());
    out.append("}\n");
    assert(out@ =~= old(out)@ + json_match(m@));
}

/// Whether a text has no control characters.
pub open spec fn printable(s: Seq<char>) -> bool {
    forall|i: int| 0 <= i < s.len() ==> ' ' <= #[trigger] s[i]
}

proof fn lemma_hex_printable(n: nat, width: nat)
    ensures
        printable(text::hex(n, width)),
    decreases width,
{
    if width > 0 {
        lemma_hex_printable(n / 16, (width - 1) as nat);
    }
}

proof fn lemma_decimal_printable(n: nat)
    ensures
        printable(text::decimal(n)),
    decreases n,
{
    if n >= 10 {
        lemma_decimal_printable(n / 10);
    }
}

/// An escaped text has no control characters.
pub proof fn law_escaped_is_printable(s: Seq<char>)
    ensures
        printable(json_escaped(s)),
    decreases s.len(),
{
    if s.len() > 0 {
        law_escaped_is_printable(s.drop_last());
        lemma_hex_printable(s.last() as nat, 4);
    }
}

proof fn lemma_items_printable(items: Seq<Seq<char>>)
    ensures
        printable(json_items(items)),
    decreases items.len(),
{
    reveal_strlit("\"");
    if items.len() > 0 {
        lemma_items_printable(items.drop_last());
        law_escaped_is_printable(items.last());
    }
}

/// The JSON of a match is one line: a newline ends it, and there is no control
/// character before.
pub proof fn law_match_is_one_line(m: MatchView)
    ensures
        json_match(m).len() > 0,
        json_match(m).last() == '\n',
        printable(json_match(m).drop_last()),
{
    reveal_strlit("{\"type\":\"match\",\"path\":\"");
    reveal_strlit("\",\"line_number\":");
    reveal_strlit(",\"line_text\":\"");
    reveal_strlit("\",\"context_before\":");
    reveal_strlit(",\"context_after\":");
    reveal_strlit("}\n");
    reveal_strlit("[");
    reveal_strlit("]");
    law_escaped_is_printable(m.path);
    law_escaped_is_printable(m.line_text);
    lemma_decimal_printable(m.line_number as nat);
    lemma_items_printable(m.context_before);
    lemma_items_printable(m.context_after);
}

/// Whether a line is that of a JSON object: it is in braces and has no control
/// characters.
pub open spec fn object_line(s: Seq<char>) -> bool {
    &&& s.len() > 1
    &&& s[0] == '{'
    &&& s.last() == '}'
    &&& printable(s)
}

proof fn lemma_match_object(m: MatchView)
    ensures
        object_line(json_match(m).drop_last()),
{
    reveal_strlit("{\"type\":\"match\",\"path\":\"");
    reveal_strlit("}\n");
    law_match_is_one_line(m);
}

proof fn lemma_summary_object(
    match_count: nat,
    file_count: nat,
    files_searched: nat,
    total_files: nat,
    duration_ms: nat,
    mode: Seq<char>,
)
    ensures
        ({
            let s = json_summary(match_count, file_count, files_searched, total_files, duration_ms, mode);
            s.len() > 0 && s.last() == '\n' && object_line(s.drop_last())
        }),
{
    reveal_strlit("{\"type\":\"summary\",\"match_count\":");
    reveal_strlit(",\"file_count\":");
    reveal_strlit(",\"files_searched\":");
    reveal_strlit(",\"total_files\":");
    reveal_strlit(",\"duration_ms\":");
    reveal_strlit(",\"mode\":\"");
    reveal_strlit("\"}\n");
    lemma_decimal_printable(match_count);
    lemma_decimal_printable(file_count);
    lemma_decimal_printable(files_searched);
    lemma_decimal_printable(total_files);
    lemma_decimal_printable(duration_ms);
    law_escaped_is_printable(mode);
}

/// A text with a newline at its end and no control characters before is one line.
proof fn lemma_one_line(s: Seq<char>)
    requires
        s.len() > 1,
        s.last() == '\n',
        printable(s.drop_last()),
    ensures
        text::lines(s) == seq![s.drop_last()],
{
    let n = s.len() - 1;
    let body = s.drop_last();
    assert forall|k: int| 0 <= k < n implies s[k] != '\n' by {
        assert(' ' <= body[k]);
    }
    text::lemma_position(s, '\n', n);
    assert(s.take(n) =~= body);
    assert(' ' <= body[n - 1]);
    assert(text::strip_return(body) == body);
    assert(text::lines(s.skip(n + 1)) =~= Seq::<Seq<char>>::empty());
    assert(text::lines(s) =~= seq![body]);
}

proof fn lemma_match_lines(matches: Seq<MatchView>)
    ensures
        json_matches(matches).len() > 0 ==> json_matches(matches).last() == '\n',
        text::lines(json_matches(matches)) == matches.map_values(|m: MatchView| json_match(m).drop_last()),
    decreases matches.len(),
{
    if matches.len() == 0 {
        assert(text::lines(json_matches(matches)) =~= matches.map_values(
            |m: MatchView| json_match(m).drop_last(),
        ));
    } else {
        let before = matches.drop_last();
        let m = matches.last();
        lemma_match_lines(before);
        law_match_is_one_line(m);
        lemma_match_object(m);
        lemma_one_line(json_match(m));
        text::lemma_lines_append(json_matches(before), json_match(m));
        assert(matches =~= before.push(m));
        assert(text::lines(json_matches(matches)) =~= matches.map_values(
            |m: MatchView| json_match(m).drop_last(),
        ));
    }
}

/// The JSON of search results has a line for each match, in their order, and one more
/// for the summary, and each line is that of a JSON object.
pub proof fn law_results_are_json_lines(
    matches: Seq<MatchView>,
    match_count: nat,
    file_count: nat,
    files_searched: nat,
    total_files: nat,
    duration_ms: nat,
    mode: Seq<char>,
)
    ensures
        ({
            let summary = json_summary(match_count, file_count, files_searched, total_files, duration_ms, mode);
            let all = text::lines(json_matches(matches) + summary);
            &&& all.len() == matches.len() + 1
            &&& forall|i: int| 0 <= i < matches.len() ==> #[trigger] all[i] == json_match(matches[i]).drop_last()
            &&& all.last() == summary.drop_last()
            &&& forall|i: int| 0 <= i < all.len() ==> object_line(#[trigger] all[i])
        }),
{
    let summary = json_summary(match_count, file_count, files_searched, total_files, duration_ms, mode);
    let all = text::lines(json_matches(matches) + summary);
    lemma_match_lines(matches);
    lemma_summary_object(match_count, file_count, files_searched, total_files, duration_ms, mode);
    lemma_one_line(summary);
    text::lemma_lines_append(json_matches(matches), summary);
    assert forall|i: int| 0 <= i < all.len() implies object_line(#[trigger] all[i]) by {
        if i < matches.len() {
            lemma_match_object(matches[i]);
        }
    }
}

/// Renders search results as JSON lines: one for each match, then a summary.
/// `duration` is in nanoseconds.
pub fn render_json_results(
    matches: &[SearchMatch],
    match_count: usize,
    file_count: usize,
    files_searched: usize,
    total_files: usize,
    duration: u128,
    mode: &str,
) -> (out: String)
    ensures
        out@ == json_matches(scan::match_views(matches@)) + json_summary(
            match_count as nat,
            file_count as nat,
            files_searched as nat,
            total_files as nat,
            (duration / 1_000_000) as nat,
            mode@,
        ),
{
    let ghost all = scan::match_views(matches@);
    let mut out = String::new();
    let mut i: usize = 0;
    assert(out@ =~= json_matches(all.take(0)));
    while i < matches.len()
        invariant
            i <= matches@.len(),
            all == scan::match_views(matches@),
            out@ == json_matches(all.take(i as int)),
        decreases matches@.len() - i,
    {
        push_json_match(&mut out, &matches[i]);
        proof {
            assert(all.take(i + 1).drop_last() =~= all.take(i as int));
            assert(all.take(i + 1).last() == matches@[i as int]@);
        }
        i += 1;
    }
    assert(all.take(i as int) =~= all);
    let ghost lines = out@;
    out.append("{\"type\":\"summary\",\"match_count\":");
    push_decimal(&mut out, match_count as u128);
    out.append(",\"file_count\":");
    push_decimal(&mut out, file_count as u128);
    out.append(",\"files_searched\":");
    push_decimal(&mut out, files_searched as u128);
    out.append(",\"total_files\":");
    push_decimal(&mut out, total_files as u128);
    out.append(",\"duration_ms\":");
    push_decimal(&mut out, duration / 1_000_000);
    out.append(",\"mode\":\"");
    push_escaped(&mut out, mode);
    out.append("\"}\n");
    assert(out@ =~= lines + json_summary(
        match_count as nat,
        file_count as nat,
        files_searched as nat,
        total_files as nat,
        (duration / 1_000_000) as nat,
        mode@,
    ));
    out
}

/// The mode that the summary of an indexed search names.
pub fn search_mode(full_scan: bool, rg_fullscan: bool) -> (mode: &'static str)
    ensures
        mode@ == (if full_scan {
            "full-scan"@
        } else if rg_fullscan {
            "rg-fullscan"@
        } else {
            "indexed"@
        }),
{
    if full_scan {
        "full-scan"
    } else if rg_fullscan {
        "rg-fullscan"
    } else {
        "indexed"
    }
}

/// The JSON line that tells what indexing did.
pub open spec fn json_index(
    file_count: nat,
    ngram_count: nat,
    duration_ms: nat,
    index_size: Seq<char>,
    mode: Seq<char>,
    max_file_size: Seq<char>,
) -> Seq<char> {
    "{\"type\":\"index\",\"file_count\":"@ + text::decimal(file_count) + ",\"ngram_count\":"@ + text::decimal(
        ngram_count,
    ) + ",\"duration_ms\":"@ + text::decimal(duration_ms) + ",\"index_size\":\""@ + json_escaped(index_size)
        + "\",\"mode\":\""@ + json_escaped(mode) + "\",\"max_file_size\":\""@ + json_escaped(max_file_size)
        + "\"}\n"@
}

/// Renders what indexing did as a JSON line. `duration` is in nanoseconds.
pub fn render_json_index(
    file_count: u64,
    ngram_count: u64,
    duration: u128,
    index_size: &str,
    mode: &str,
    max_file_size: &str,
) -> (out: String)
    ensures
        out@ == json_index(
            file_count as nat,
            ngram_count as nat,
            (duration / 1_000_000) as nat,
            index_size@,
            mode@,
            max_file_size@,
        ),
{
    let mut out = String::new();
    out.append("{\"type\":\"index\",\"file_count\":");
    push_decimal(&mut out, file_count as u128);
    out.append(",\"ngram_count\":");
    push_decimal(&mut out, ngram_count as u128);
    out.append(",\"duration_ms\":");
    push_decimal(&mut out, duration / 1_000_000);
    out.append(",\"index_size\":\"");
    push_escaped(&mut out, index_size);
    out.append("\",\"mode\":\"");
    push_escaped(&mut out, mode);
    out.append("\",\"max_file_size\":\"");
    push_escaped(&mut out, max_file_size);
    out.append("\"}\n");
    assert(out@ =~= json_index(
        file_count as nat,
        ngram_count as nat,
        (duration / 1_000_000) as nat,
        index_size@,
        mode@,
        max_file_size@,
    ));
    out
}

/// The JSON line that tells the status of an index.
pub open spec fn json_status(indexed_files: nat, ngram_count: nat, freshness: Seq<char>, changes: nat) -> Seq<char> {
    "{\"type\":\"status\",\"indexed_files\":"@ + text::decimal(indexed_files) + ",\"ngram_count\":"@ + text::decimal(
        ngram_count,
    ) + ",\"freshness\":\""@ + freshness + "\",\"changes\":"@ + text::decimal(changes) + "}\n"@
}

/// What is known of how fresh an index is.
#[derive(Debug, Clone, Copy, PartialEq, Eq, Structural)]
pub enum Freshness {
    /// There is no index.
    Missing,
    /// The file metadata is missing or cannot be read.
    Unknown,
    /// Nothing changed.
    Fresh,
    /// So many files changed, were added or were deleted.
    Stale { changes: u128 },
}

impl Freshness {
    /// The word for it.
    pub open spec fn word(self) -> Seq<char> {
        match self {
            Freshness::Missing => "none"@,
            Freshness::Unknown => "unknown"@,
            Freshness::Fresh => "fresh"@,
            Freshness::Stale { .. } => "stale"@,
        }
    }

    /// How many files changed.
    pub open spec fn changes(self) -> nat {
        match self {
            Freshness::Stale { changes } => changes as nat,
            _ => 0,
        }
    }
}

/// How many files a report counts as changed, added or deleted.
pub fn change_count(report: &FreshnessReport) -> (n: u128)
    ensures
        n == report.changed@.len() + report.added@.len() + report.deleted@.len(),
{
    report.changed.len() as u128 + report.added.len() as u128 + report.deleted.len() as u128
}

/// What a report says of how fresh an index is, where one could be made.
pub fn freshness_of(report: Option<&FreshnessReport>) -> (freshness: Freshness)
    ensures
        freshness == (match report {
            None => Freshness::Unknown,
            Some(r) => if r.is_fresh {
                Freshness::Fresh
            } else {
                Freshness::Stale { changes: (r.changed@.len() + r.added@.len() + r.deleted@.len()) as u128 }
            },
        }),
{
    match report {
        None => Freshness::Unknown,
        Some(r) => {
            if r.is_fresh {
                Freshness::Fresh
            } else {
                Freshness::Stale { changes: change_count(r) }
            }
        },
    }
}

/// Renders the status of an index as a JSON line.
pub fn render_json_status(indexed_files: u64, ngram_count: u64, freshness: Freshness) -> (out: String)
    ensures
        out@ == json_status(indexed_files as nat, ngram_count as nat, freshness.word(), freshness.changes()),
{
    let mut out = String::new();
    out.append("{\"type\":\"status\",\"indexed_files\":");
    push_decimal(&mut out, indexed_files as u128);
    out.append(",\"ngram_count\":");
    push_decimal(&mut out, ngram_count as u128);
    out.append(",\"freshness\":\"");
    let mut changes: u128 = 0;
    match freshness {
        Freshness::Missing => {
            out.append("none");
        },
        Freshness::Unknown => {
            out.append("unknown");
        },
        Freshness::Fresh => {
            out.append("fresh");
        },
        Freshness::Stale { changes: n } => {
            out.append("stale");
            changes = n;
        },
    }
    out.append("\",\"changes\":");
    push_decimal(&mut out, changes);
    out.append("}\n");
    assert(out@ =~= json_status(indexed_files as nat, ngram_count as nat, freshness.word(), freshness.changes()));
    out
}

/// What an incremental update did, in words.
pub open spec fn update_summary(changed: nat, added: nat, deleted: nat) -> Seq<char> {
    "incremental: "@ + text::decimal(changed) + " changed, "@ + text::decimal(added) + " new, "@ + text::decimal(
        deleted,
    ) + " deleted"@
}

/// Tells what an incremental update did.
pub fn describe_update(report: &FreshnessReport) -> (out: String)
    ensures
        out@ == update_summary(report.changed@.len(), report.added@.len(), report.deleted@.len()),
{
    let mut out = String::new();
    out.append("incremental: ");
    push_decimal(&mut out, report.changed.len() as u128);
    out.append(" changed, ");
    push_decimal(&mut out, report.added.len() as u128);
    out.append(" new, ");
    push_decimal(&mut out, report.deleted.len() as u128);
    out.append(" deleted");
    assert(out@ =~= update_summary(report.changed@.len(), report.added@.len(), report.deleted@.len()));
    out
}

// ---------------------------------------------------------------------------
// Counting files
// ---------------------------------------------------------------------------

/// The paths of matches.
pub open spec fn match_paths(matches: Seq<MatchView>) -> Set<Seq<char>> {
    Set::new(|path: Seq<char>| exists|i: int| 0 <= i < matches.len() && (#[trigger] matches[i]).path == path)
}

/// Counts the files that have a match.
pub fn count_unique_files(matches: &[SearchMatch]) -> (n: usize)
    ensures
        n == match_paths(scan::match_views(matches@)).len(),
        n == scan::match_views(matches@).map_values(|m: MatchView| m.path).to_set().len(),
{
    proof {
        lemma_match_paths(scan::match_views(matches@));
    }
    let ghost all = scan::match_views(matches@);
    let mut seen: StringHashSet = StringHashSet::new();
    let mut i: usize = 0;
    assert(seen@ =~= match_paths(all.take(0)));
    while i < matches.len()
        invariant
            i <= matches@.len(),
            all == scan::match_views(matches@),
            seen@ == match_paths(all.take(i as int)),
        decreases matches@.len() - i,
    {
        seen.insert(matches[i].path.clone());
        proof {
            let now = all.take(i + 1);
            let then = all.take(i as int);
            assert(now[i as int].path == matches@[i as int].path@);
            assert forall|path: Seq<char>| seen@.contains(path) <==> match_paths(now).contains(path) by {
                if match_paths(then).contains(path) {
                    let k = choose|k: int| 0 <= k < then.len() && (#[trigger] then[k]).path == path;
                    assert(now[k].path == path);
                }
                if match_paths(now).contains(path) {
                    let k = choose|k: int| 0 <= k < now.len() && (#[trigger] now[k]).path == path;
                    if k < i {
                        assert(then[k].path == path);
                    }
                }
            }
            assert(seen@ =~= match_paths(now));
        }
        i += 1;
    }
    assert(all.take(i as int) =~= all);
    seen.len()
}

/// The paths of matches are those that occur in the list of their paths.
pub proof fn lemma_match_paths(matches: Seq<MatchView>)
    ensures
        match_paths(matches) == matches.map_values(|m: MatchView| m.path).to_set(),
{
    let paths = matches.map_values(|m: MatchView| m.path);
    assert forall|path: Seq<char>| match_paths(matches).contains(path) <==> paths.to_set().contains(path) by {
        if match_paths(matches).contains(path) {
            let i = choose|i: int| 0 <= i < matches.len() && (#[trigger] matches[i]).path == path;
            assert(paths[i] == path);
        }
        if paths.contains(path) {
            let i = choose|i: int| 0 <= i < paths.len() && paths[i] == path;
            assert(matches[i].path == path);
        }
    }
    assert(match_paths(matches) =~= paths.to_set());
}

/// A size is read as a number of units: of 1024 bytes behind a `k` of either case, of 1024
/// of these behind an `m`, of 1024 of these behind a `g`, and of single bytes where it ends
/// otherwise.
pub proof fn law_units(s: Seq<char>, c: char)
    ensures
        c == 'k' || c == 'K' ==> size_parts(s.push(c)) == (text::trimmed(s), 1024nat),
        c == 'm' || c == 'M' ==> size_parts(s.push(c)) == (text::trimmed(s), (1024 * 1024) as nat),
        c == 'g' || c == 'G' ==> size_parts(s.push(c)) == (text::trimmed(s), (1024 * 1024 * 1024) as nat),
        !seq!['k', 'K', 'm', 'M', 'g', 'G'].contains(c) ==> size_parts(s.push(c)) == (text::trimmed(s.push(c)), 1nat),
{
    let all = seq!['k', 'K', 'm', 'M', 'g', 'G'];
    assert(s.push(c).drop_last() =~= s);
    assert(all[0] == 'k' && all[1] == 'K' && all[2] == 'm' && all[3] == 'M' && all[4] == 'g' && all[5] == 'G');
}

/// A character stays as it is in a JSON string but for quotes, backslashes and control
/// characters. These stand behind a backslash: newlines, tabulators and carriage returns as a
/// letter, and other control characters as their number in four hexadecimal digits. What is
/// escaped of a text with one more character is what is escaped of the text, and of the
/// character.
pub proof fn law_escaping_by_character(s: Seq<char>, c: char)
    ensures
        json_escaped(s.push(c)) == json_escaped(s) + (if c == '"' || c == '\\' {
            seq!['\\', c]
        } else if c == '\n' {
            seq!['\\', 'n']
        } else if c == '\t' {
            seq!['\\', 't']
        } else if c == '\r' {
            seq!['\\', 'r']
        } else if (c as nat) < 32 {
            seq!['\\', 'u'] + text::hex(c as nat, 4)
        } else {
            seq![c]
        }),
        json_escaped(Seq::empty()) == Seq::<char>::empty(),
{
    assert(s.push(c).drop_last() =~= s);
}

} // verus!
