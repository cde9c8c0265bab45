//! What is read from the lines in which ripgrep reports.

use crate::report;
use crate::rg;
use crate::rg::EventView;
use crate::text;
use vstd::prelude::*;

verus! {

/// A line in which ripgrep reports a line of a file: of which kind it is, the path, the text
/// as a JSON string, the number, and whatever follows.
pub open spec fn event_line(
    kind: Seq<char>,
    path: Seq<char>,
    line_text: Seq<char>,
    number: nat,
    tail: Seq<char>,
) -> Seq<char> {
    "{\"type\":\""@ + kind + "\",\"data\":{\"path\":{\"text\":\""@ + path + "\"},\"lines\":{\"text\":\""@
        + report::json_escaped(line_text) + "\"},\"line_number\":"@ + text::decimal(number) + seq![','] + tail
}

/// The parts of such a line, with what is escaped and the digits already written out.
spec fn parts(kind: Seq<char>, path: Seq<char>, e: Seq<char>, rest: Seq<char>) -> Seq<char> {
    "{\"type\":\""@ + kind + "\",\"data\":{\"path\":{\"text\":\""@ + path + "\"},\"lines\":{\"text\":\""@ + e
        + "\"},\"line_number\":"@ + rest
}

/// Whether a kind is one of the two that are read.
spec fn is_kind(kind: Seq<char>) -> bool {
    kind == "match"@ || kind == "context"@
}

/// Whether every quote has a backslash before it.
spec fn quotes_escaped(e: Seq<char>) -> bool {
    forall|k: int| 0 <= k < e.len() && #[trigger] e[k] == '"' ==> k > 0 && e[k - 1] == '\\'
}

proof fn lemma_quotes_escaped(s: Seq<char>)
    ensures
        quotes_escaped(report::json_escaped(s)),
    decreases s.len(),
{
    let e = report::json_escaped(s);
    if s.len() > 0 {
        let before = report::json_escaped(s.drop_last());
        let c = s.last();
        let last = report::json_char(c);
        lemma_quotes_escaped(s.drop_last());
        lemma_char_quotes(c);
        assert forall|k: int| 0 <= k < e.len() && #[trigger] e[k] == '"' implies k > 0 && e[k - 1] == '\\' by {
            if k < before.len() {
                assert(before[k] == '"');
                assert(e[k - 1] == before[k - 1]);
            } else {
                let j = k - before.len();
                assert(last[j] == '"');
                assert(e[k - 1] == last[j - 1]);
            }
        }
    }
}

proof fn lemma_char_quotes(c: char)
    ensures
        quotes_escaped(report::json_char(c)),
{
    if ' ' > c {
        reveal_with_fuel(text::hex, 5);
        let n = c as nat;
        let h = text::hex(n, 4);
        assert(h =~= seq![
            text::hex_digit(n / 16 / 16 / 16 % 16),
            text::hex_digit(n / 16 / 16 % 16),
            text::hex_digit(n / 16 % 16),
            text::hex_digit(n % 16),
        ]);
    }
}

proof fn lemma_kinds(kind: Seq<char>)
    requires
        is_kind(kind),
    ensures
        kind.len() > 0,
        kind[0] == 'm' || kind[0] == 'c',
        kind.last() == 'h' || kind.last() == 't',
        forall|k: int| 0 <= k < kind.len() ==> #[trigger] kind[k] != '"',
{
    reveal_strlit("match");
    reveal_strlit("context");
}

/// The kind is read.
proof fn lemma_kind_read(kind: Seq<char>, more: Seq<char>)
    requires
        is_kind(kind),
        more.len() > 0,
        more[0] == '"',
    ensures
        rg::json_str("{\"type\":\""@ + kind + more, "type"@) == Some(kind),
{
    let start = "{\"type\":\""@;
    let line = start + kind + more;
    let key = "\""@ + "type"@ + "\":\""@;
    let rest = kind + more;
    reveal_strlit("{\"type\":\"");
    reveal_strlit("\"");
    reveal_strlit("type");
    reveal_strlit("\":\"");
    lemma_kinds(kind);
    assert(line.subrange(1, 1 + key.len() as int) =~= key);
    assert(!text::stands_at(line, key, 0)) by {
        if text::stands_at(line, key, 0) {
            assert(line.subrange(0, key.len() as int)[0] == key[0]);
        }
    }
    text::lemma_found_first(line, key, 1);
    assert(line.skip(1 + key.len() as int) =~= rest);
    assert forall|k: int| 0 <= k < kind.len() implies rest[k] != '"' by {
        assert(kind[k] != '"');
    }
    text::lemma_position(rest, '"', kind.len() as int);
    assert(rest.take(kind.len() as int) =~= kind);
}

/// The path is read.
#[verifier::rlimit(40)]
proof fn lemma_path_read(kind: Seq<char>, path: Seq<char>, more: Seq<char>)
    requires
        is_kind(kind),
        !path.contains('"'),
        more.len() > 0,
        more[0] == '"',
    ensures
        rg::up_to_quote(
            "{\"type\":\""@ + kind + "\",\"data\":{\"path\":{\"text\":\""@ + path + more,
            rg::path_marker(),
        ) == Some(path),
{
    let start = "{\"type\":\""@;
    let mid = "\",\"data\":{\"path\":{\"text\":\""@;
    let line = start + kind + mid + path + more;
    let key = rg::path_marker();
    let rest = path + more;
    reveal_strlit("{\"type\":\"");
    reveal_strlit("\",\"data\":{\"path\":{\"text\":\"");
    reveal_strlit("\"path\":{\"text\":\"");
    lemma_kinds(kind);
    let m = start.len() + kind.len();
    let p = m + 10;
    assert(line.subrange(p as int, (p + key.len()) as int) =~= key);
    assert forall|k: int| 0 <= k < p implies !text::stands_at(line, key, k) by {
        if text::stands_at(line, key, k) {
            let part = line.subrange(k, k + key.len());
            assert(part[0] == key[0] && part[1] == key[1]);
            assert(line[k] == '"' && line[k + 1] == 'p');
            if k < start.len() {
                assert(line[k] == start[k]);
                if k + 1 < start.len() {
                    assert(line[k + 1] == start[k + 1]);
                } else {
                    assert(line[k + 1] == kind[0]);
                }
            } else if k < m {
                assert(line[k] == kind[k - start.len()]);
            } else {
                assert(line[k] == mid[k - m]);
                assert(line[k + 1] == mid[k + 1 - m]);
            }
        }
    }
    text::lemma_found_first(line, key, p as int);
    assert(line.skip((p + key.len()) as int) =~= rest);
    assert forall|k: int| 0 <= k < path.len() implies rest[k] != '"' by {
        assert(path.contains(path[k]));
    }
    text::lemma_position(rest, '"', path.len() as int);
    assert(rest.take(path.len() as int) =~= path);
}

/// What follows the marker of the text is found.
#[verifier::rlimit(40)]
proof fn lemma_text_found(kind: Seq<char>, path: Seq<char>, more: Seq<char>)
    requires
        is_kind(kind),
        !path.contains('"'),
    ensures
        text::after_first(
            "{\"type\":\""@ + kind + "\",\"data\":{\"path\":{\"text\":\""@ + path + "\"},\"lines\":{\"text\":\""@ + more,
            rg::text_marker(),
        ) == Some(more),
{
    let start = "{\"type\":\""@;
    let mid = "\",\"data\":{\"path\":{\"text\":\""@;
    let lit = "\"},\"lines\":{\"text\":\""@;
    let line = start + kind + mid + path + lit + more;
    let key = rg::text_marker();
    reveal_strlit("{\"type\":\"");
    reveal_strlit("\",\"data\":{\"path\":{\"text\":\"");
    reveal_strlit("\"},\"lines\":{\"text\":\"");
    reveal_strlit("\"lines\":{\"text\":\"");
    lemma_kinds(kind);
    let m = start.len() + kind.len();
    let p = m + mid.len();
    let q = p + path.len();
    let t = q + 3;
    assert(line.subrange(t as int, (t + key.len()) as int) =~= key);
    assert forall|k: int| 0 <= k < t implies !text::stands_at(line, key, k) by {
        if text::stands_at(line, key, k) {
            let part = line.subrange(k, k + key.len());
            assert(part[0] == key[0] && part[1] == key[1] && part[2] == key[2] && part[3] == key[3] && part[4] == key[4]
                && part[5] == key[5] && part[6] == key[6] && part[7] == key[7]);
            assert(line[k] == '"' && line[k + 1] == 'l');
            if k < start.len() {
                assert(line[k] == start[k]);
                if k + 1 < start.len() {
                    assert(line[k + 1] == start[k + 1]);
                } else {
                    assert(line[k + 1] == kind[0]);
                }
            } else if k < m {
                assert(line[k] == kind[k - start.len()]);
            } else if k < p {
                assert(line[k] == mid[k - m]);
                if k + 1 < p {
                    assert(line[k + 1] == mid[k + 1 - m]);
                } else {
                    lemma_path_not_lines(line, path, lit, p as int);
                }
            } else if k < q {
                assert(path.contains(path[k - p]));
                assert(line[k] == path[k - p]);
            } else {
                assert(line[k] == lit[k - q]);
                assert(line[k + 1] == lit[k + 1 - q]);
            }
        }
    }
    text::lemma_found_first(line, key, t as int);
    assert(line.skip((t + key.len()) as int) =~= more);
}

/// A path that comes right behind a quote does not make the marker of the text.
proof fn lemma_path_not_lines(line: Seq<char>, path: Seq<char>, lit: Seq<char>, p: int)
    requires
        !path.contains('"'),
        0 <= p,
        p + path.len() + 2 <= line.len(),
        forall|k: int| 0 <= k < path.len() ==> line[p + k] == #[trigger] path[k],
        line[p + path.len()] == '"',
        line[p + path.len() + 1] == '}',
        p + 7 <= line.len(),
        line[p] != '"' && line[p + 1] != '"' && line[p + 2] != '"' && line[p + 3] != '"' && line[p + 4] != '"',
    ensures
        !(line[p + 5] == '"' && line[p + 6] == ':'),
{
    let n = path.len() as int;
    if n > 5 {
        assert(path.contains(path[5]));
        assert(line[p + 5] == path[5]);
    } else if n < 5 {
        assert(n == 0 || n == 1 || n == 2 || n == 3 || n == 4);
    }
}

/// What follows the marker of the number is found.
#[verifier::rlimit(40)]
proof fn lemma_number_found(kind: Seq<char>, path: Seq<char>, e: Seq<char>, rest: Seq<char>)
    requires
        is_kind(kind),
        !path.contains('"'),
        quotes_escaped(e),
    ensures
        text::after_first(parts(kind, path, e, rest), "\""@ + "line_number"@ + "\":"@) == Some(rest),
{
    let start = "{\"type\":\""@;
    let mid = "\",\"data\":{\"path\":{\"text\":\""@;
    let lit = "\"},\"lines\":{\"text\":\""@;
    let end = "\"},\"line_number\":"@;
    let line = parts(kind, path, e, rest);
    let key = "\""@ + "line_number"@ + "\":"@;
    reveal_strlit("{\"type\":\"");
    reveal_strlit("\",\"data\":{\"path\":{\"text\":\"");
    reveal_strlit("\"},\"lines\":{\"text\":\"");
    reveal_strlit("\"},\"line_number\":");
    reveal_strlit("\"");
    reveal_strlit("line_number");
    reveal_strlit("\":");
    lemma_kinds(kind);
    let m = start.len() + kind.len();
    let p = m + mid.len();
    let q = p + path.len();
    let t = q + lit.len();
    let u = t + e.len();
    let n = u + 3;
    assert(line.subrange(n as int, (n + key.len()) as int) =~= key);
    assert forall|k: int| 0 <= k < n implies !text::stands_at(line, key, k) by {
        if text::stands_at(line, key, k) {
            let part = line.subrange(k, k + key.len());
            assert(part[11] == key[11] && part[12] == key[12] && part[13] == key[13]);
            let j = k + 12;
            assert(line[j - 1] == 'r' && line[j] == '"' && line[j + 1] == ':');
            if j < start.len() {
            } else if j < m {
                assert(line[j] == kind[j - start.len()]);
            } else if j < p {
                assert(line[j] == mid[j - m]);
                if j == m {
                    assert(line[j - 1] == kind.last());
                } else {
                    assert(line[j - 1] == mid[j - 1 - m]);
                }
            } else if j < q {
                assert(path.contains(path[j - p]));
                assert(line[j] == path[j - p]);
            } else if j < t {
                assert(line[j] == lit[j - q]);
                if j == q {
                    assert(line[j + 1] == lit[1]);
                } else {
                    assert(line[j - 1] == lit[j - 1 - q]);
                }
            } else if j < u {
                assert(line[j] == e[j - t]);
                assert(line[j - 1] == e[j - t - 1]);
            } else {
                assert(line[j] == end[j - u]);
                assert(line[j + 1] == end[j + 1 - u]);
                if j > u {
                    assert(line[j - 1] == end[j - 1 - u]);
                }
            }
        }
    }
    text::lemma_found_first(line, key, n as int);
    assert(line.skip((n + key.len()) as int) =~= rest);
}

proof fn lemma_number_read(number: nat, tail: Seq<char>)
    requires
        number <= u64::MAX,
    ensures
        ({
            let s = text::trimmed_start(text::decimal(number) + seq![','] + tail);
            text::number(s.take(text::digit_run(s) as int), u64::MAX as nat) == Some(number)
        }),
{
    let d = text::decimal(number);
    let s = d + seq![','] + tail;
    text::law_decimal(number);
    text::lemma_decimal_digits(number);
    assert('0' <= d[0] <= '9');
    assert(s[0] == d[0]);
    assert(!text::is_space(s[0]));
    assert(text::trimmed_start(s) == s);
    assert forall|k: int| 0 <= k < d.len() implies text::is_digit(#[trigger] s[k]) by {
        assert(text::is_digit(d[k]));
    }
    assert(s[d.len() as int] == ',');
    text::lemma_digit_run(s, d.len() as int);
    assert(s.take(d.len() as int) =~= d);
    text::law_number(d, d, u64::MAX as nat);
}

/// A line in which ripgrep reports a line of a file is read as an event with the kind, the
/// path, the number and the text of that line, without the newlines at its end.
///
/// The path holds no quote, and the text nothing that JSON gives by a number.
pub proof fn law_event_is_read(
    kind: Seq<char>,
    path: Seq<char>,
    line_text: Seq<char>,
    number: u32,
    tail: Seq<char>,
)
    requires
        kind == "match"@ || kind == "context"@,
        !path.contains('"'),
        rg::plainly_escaped(line_text),
    ensures
        rg::event_on(event_line(kind, path, line_text, number as nat, tail)) == Some(
            EventView {
                is_match: kind == "match"@,
                path,
                line_number: number,
                text: rg::without_newlines(line_text),
            },
        ),
{
    let start = "{\"type\":\""@;
    let mid = "\",\"data\":{\"path\":{\"text\":\""@;
    let lit = "\"},\"lines\":{\"text\":\""@;
    let end = "\"},\"line_number\":"@;
    let e = report::json_escaped(line_text);
    let rest = text::decimal(number as nat) + seq![','] + tail;
    let line = event_line(kind, path, line_text, number as nat, tail);
    lemma_line_parts(start, kind, mid, path, lit, e, end, text::decimal(number as nat), seq![','], tail);
    lemma_signs();
    lemma_kind_read(kind, mid + path + lit + e + end + rest);
    lemma_path_read(kind, path, lit + e + end + rest);
    lemma_text_found(kind, path, e + end + rest);
    lemma_quotes_escaped(line_text);
    lemma_number_found(kind, path, e, rest);
    lemma_number_read(number as nat, tail);
    lemma_end_quote(e, end, rest);
    rg::law_unescaping_undoes_escaping(line_text, end.skip(1) + rest);
}

proof fn lemma_signs()
    ensures
        "\",\"data\":{\"path\":{\"text\":\""@.len() > 0,
        "\",\"data\":{\"path\":{\"text\":\""@[0] == '"',
        "\"},\"lines\":{\"text\":\""@.len() > 0,
        "\"},\"lines\":{\"text\":\""@[0] == '"',
{
    reveal_strlit("\",\"data\":{\"path\":{\"text\":\"");
    reveal_strlit("\"},\"lines\":{\"text\":\"");
}

proof fn lemma_end_quote(e: Seq<char>, end: Seq<char>, rest: Seq<char>)
    requires
        end == "\"},\"line_number\":"@,
    ensures
        e + end + rest == e + seq!['"'] + (end.skip(1) + rest),
{
    reveal_strlit("\"},\"line_number\":");
    assert(e + end + rest =~= e + seq!['"'] + (end.skip(1) + rest));
}

#[verifier::rlimit(40)]
proof fn lemma_line_parts(
    start: Seq<char>,
    kind: Seq<char>,
    mid: Seq<char>,
    path: Seq<char>,
    lit: Seq<char>,
    e: Seq<char>,
    end: Seq<char>,
    number: Seq<char>,
    comma: Seq<char>,
    tail: Seq<char>,
)
    ensures
        start + kind + mid + path + lit + e + end + number + comma + tail == start + kind + mid + path + lit + e + end + (
        number + comma + tail),
        start + kind + mid + path + lit + e + end + number + comma + tail == start + kind + (mid + path + lit
            + e + end + (
        number + comma + tail)),
        start + kind + mid + path + lit + e + end + number + comma + tail == start + kind + mid + path + (lit
            + e + end + (
        number + comma + tail)),
        start + kind + mid + path + lit + e + end + number + comma + tail == start + kind + mid + path + lit
            + (e + end + (
        number + comma + tail)),
        mid.len() > 0 ==> (mid + path + lit + e + end + (number + comma + tail))[0] == mid[0],
        lit.len() > 0 ==> (lit + e + end + (number + comma + tail))[0] == lit[0],
{
    let all = start + kind + mid + path + lit + e + end + number + comma + tail;
    let rest = number + comma + tail;
    assert(all =~= start + kind + mid + path + lit + e + end + rest);
    assert(all =~= start + kind + (mid + path + lit + e + end + rest));
    assert(all =~= start + kind + mid + path + (lit + e + end + rest));
    assert(all =~= start + kind + mid + path + lit + (e + end + rest));
}

/// Of the text of an event, all newlines at its end go and nothing else.
pub proof fn law_newlines_at_the_end_go(s: Seq<char>) -> (n: int)
    ensures
        0 <= n <= s.len(),
        rg::without_newlines(s) == s.take(n),
        n > 0 ==> s[n - 1] != '\n',
        forall|k: int| n <= k < s.len() ==> #[trigger] s[k] == '\n',
    decreases s.len(),
{
    if s.len() > 0 && s.last() == '\n' {
        let t = s.drop_last();
        let n = law_newlines_at_the_end_go(t);
        assert(t.take(n) =~= s.take(n));
        assert forall|k: int| n <= k < s.len() implies #[trigger] s[k] == '\n' by {
            if k < t.len() {
                assert(t[k] == '\n');
            }
        }
        n
    } else {
        assert(s.take(s.len() as int) =~= s);
        s.len() as int
    }
}

/// A line of another kind is no event.
pub proof fn law_other_kinds_are_passed_over(kind: Seq<char>, more: Seq<char>)
    requires
        kind != "match"@,
        kind != "context"@,
        !kind.contains('"'),
    ensures
        rg::event_on("{\"type\":\""@ + kind + (seq!['"'] + more)) is None,
{
    let start = "{\"type\":\""@;
    let line = start + kind + (seq!['"'] + more);
    let key = "\""@ + "type"@ + "\":\""@;
    let rest = kind + (seq!['"'] + more);
    reveal_strlit("{\"type\":\"");
    reveal_strlit("\"");
    reveal_strlit("type");
    reveal_strlit("\":\"");
    assert(line.subrange(1, 1 + key.len() as int) =~= key);
    assert(!text::stands_at(line, key, 0)) by {
        if text::stands_at(line, key, 0) {
            assert(line.subrange(0, key.len() as int)[0] == key[0]);
        }
    }
    text::lemma_found_first(line, key, 1);
    assert(line.skip(1 + key.len() as int) =~= rest);
    assert forall|k: int| 0 <= k < kind.len() implies rest[k] != '"' by {
        assert(kind.contains(kind[k]));
    }
    text::lemma_position(rest, '"', kind.len() as int);
    assert(rest.take(kind.len() as int) =~= kind);
}

/// Of an event that lacks a field, the path or the text is empty, or the number zero; a line
/// that names no kind is no event.
pub proof fn law_fields_may_be_missing(line: Seq<char>)
    ensures
        rg::event_on(line) matches Some(e) ==> {
            &&& text::after_first(line, "\"path\":{\"text\":\""@) is None ==> e.path.len() == 0
            &&& text::after_first(line, "\"lines\":{\"text\":\""@) is None ==> e.text.len() == 0
            &&& text::after_first(line, "\"line_number\":"@) is None ==> e.line_number == 0
        },
        text::after_first(line, "\"type\":\""@) is None ==> rg::event_on(line) is None,
{
    reveal_strlit("\"");
    reveal_strlit("type");
    reveal_strlit("\":\"");
    reveal_strlit("\"type\":\"");
    reveal_strlit("line_number");
    reveal_strlit("\":");
    reveal_strlit("\"line_number\":");
    assert("\""@ + "type"@ + "\":\""@ =~= "\"type\":\""@);
    assert("\""@ + "line_number"@ + "\":"@ =~= "\"line_number\":"@);
}

/// A value is read from behind the first marker up to the next quote, whatever follows; there
/// is none without a marker, or without a quote behind it.
pub proof fn law_value_is_read_up_to_its_quote(
    head: Seq<char>,
    marker: Seq<char>,
    value: Seq<char>,
    tail: Seq<char>,
    json: Seq<char>,
)
    requires
        !value.contains('"'),
        json == head + marker + value + tail,
        forall|k: int| 0 <= k < head.len() ==> #[trigger] json.subrange(k, k + marker.len()) != marker,
    ensures
        tail.len() > 0 && tail[0] == '"' ==> rg::up_to_quote(json, marker) == Some(value),
        tail.len() == 0 ==> rg::up_to_quote(json, marker) is None,
{
    let at = head.len() as int;
    let rest = value + tail;
    assert(json.subrange(at, at + marker.len()) =~= marker);
    assert forall|k: int| 0 <= k < at implies !text::stands_at(json, marker, k) by {
        assert(json.subrange(k, k + marker.len()) != marker);
    }
    text::lemma_found_first(json, marker, at);
    assert(json.skip(at + marker.len()) =~= rest);
    assert forall|k: int| 0 <= k < value.len() implies rest[k] != '"' by {
        assert(value.contains(value[k]));
    }
    text::lemma_position(rest, '"', value.len() as int);
    assert(rest.take(value.len() as int) =~= value);
}

/// A number is read from behind the first key, over blanks, up to the first character that is
/// no digit; there is none without a digit.
pub proof fn law_number_is_read_up_to_its_end(
    head: Seq<char>,
    key: Seq<char>,
    number: u64,
    tail: Seq<char>,
    json: Seq<char>,
)
    requires
        json == head + (seq!['"'] + key + seq!['"', ':']) + text::decimal(number as nat) + tail,
        tail.len() > 0 ==> !('0' <= tail[0] <= '9'),
        forall|k: int|
            0 <= k < head.len() ==> #[trigger] json.subrange(k, k + key.len() + 3) != seq!['"'] + key + seq!['"', ':'],
    ensures
        rg::json_number(json, key) == Some(number as nat),
{
    let name = "\""@ + key + "\":"@;
    let d = text::decimal(number as nat);
    let s = d + tail;
    let at = head.len() as int;
    assert(name =~= seq!['"'] + key + seq!['"', ':']) by {
        reveal_strlit("\"");
        reveal_strlit("\":");
    }
    assert(json.subrange(at, at + name.len()) =~= name);
    assert forall|k: int| 0 <= k < at implies !text::stands_at(json, name, k) by {
        assert(json.subrange(k, k + key.len() + 3) != name);
    }
    text::lemma_found_first(json, name, at);
    assert(json.skip(at + name.len()) =~= s);
    text::law_decimal(number as nat);
    text::lemma_decimal_digits(number as nat);
    assert('0' <= d[0] <= '9');
    assert(s[0] == d[0]);
    assert(!text::is_space(s[0]));
    assert(text::trimmed_start(s) == s);
    assert forall|k: int| 0 <= k < d.len() implies text::is_digit(#[trigger] s[k]) by {
        assert(text::is_digit(d[k]));
    }
    if tail.len() > 0 {
        assert(s[d.len() as int] == tail[0]);
    }
    text::lemma_digit_run(s, d.len() as int);
    assert(s.take(d.len() as int) =~= d);
    text::law_number(d, d, u64::MAX as nat);
}

/// An escape other than of a newline, a tabulator, a carriage return, a quote or a backslash
/// stays as it is.
pub proof fn law_other_escapes_stay(c: char, rest: Seq<char>)
    requires
        c != 'n' && c != 't' && c != 'r' && c != '"' && c != '\\',
    ensures
        rg::unescaped(seq!['\\', c] + rest) == seq!['\\', c] + rg::unescaped(rest),
{
    let s = seq!['\\', c] + rest;
    assert(s.skip(2) =~= rest);
}

/// The value of a key is read from behind the key in quotes, a colon and a quote.
pub proof fn law_keys_are_quoted(json: Seq<char>, key: Seq<char>)
    ensures
        rg::json_str(json, key) == rg::up_to_quote(json, seq!['"'] + key + seq!['"', ':', '"']),
{
    reveal_strlit("\"");
    reveal_strlit("\":\"");
    assert("\""@ + key + "\":\""@ =~= seq!['"'] + key + seq!['"', ':', '"']);
}

} // verus!
