//! The build metadata: a small JSON object that tells what an index was built from.

use crate::json;
use crate::report;
use crate::text;
use crate::text::{chars_of, find_after, leading_digits, parse_number, push_decimal, trim_start};
use vstd::prelude::*;

verus! {

// ---------------------------------------------------------------------------
// Writing
// ---------------------------------------------------------------------------

/// What a character becomes inside a quoted string of the metadata: a backslash or
/// a double quote gets a backslash before it.
pub open spec fn quote_char(c: char) -> Seq<char> {
    if c == '\\' || c == '"' {
        seq!['\\', c]
    } else {
        seq![c]
    }
}

/// A text with every backslash and every double quote escaped.
pub open spec fn quoted(s: Seq<char>) -> Seq<char>
    decreases s.len(),
{
    if s.len() == 0 {
        Seq::empty()
    } else {
        quoted(s.drop_last()) + quote_char(s.last())
    }
}

/// The name of a field, as it stands before the value.
pub open spec fn label(name: Seq<char>) -> Seq<char> {
    "\""@ + name + "\":"@
}

/// The build metadata: a JSON object with the root, the commit where it is known,
/// the numbers of files and of n-grams, the time of building in seconds since the
/// epoch, and how long it took in milliseconds.
pub open spec fn meta_text(
    root: Seq<char>,
    git_head: Option<Seq<char>>,
    file_count: nat,
    ngram_count: nat,
    built_at: nat,
    duration_ms: nat,
) -> Seq<char> {
    let head = match git_head {
        Some(h) => label("git_head"@) + " \""@ + h + "\",\n  "@,
        None => Seq::empty(),
    };
    "{\n  "@ + label("version"@) + " 1,\n  "@ + label("root"@) + " \""@ + quoted(root) + "\",\n  "@ + head + label(
        "file_count"@,
    ) + " "@ + text::decimal(file_count) + ",\n  "@ + label("ngram_count"@) + " "@ + text::decimal(ngram_count)
        + ",\n  "@ + label("built_at_unix"@) + " "@ + text::decimal(built_at) + ",\n  "@ + label("build_duration_ms"@)
        + " "@ + text::decimal(duration_ms) + "\n}\n"@
}

/// Appends a text with its backslashes and double quotes escaped.
fn push_quoted(out: &mut String, text: &str)
    ensures
        final(out)@ == old(out)@ + quoted(text@),
{
    let chars = chars_of(text);
    let mut i: usize = 0;
    assert(old(out)@ + quoted(chars@.take(0)) =~= old(out)@);
    while i < chars.len()
        invariant
            i <= chars@.len(),
            out@ == old(out)@ + quoted(chars@.take(i as int)),
        decreases chars@.len() - i,
    {
        let c = chars[i];
        let ghost before = out@;
        if c == '\\' || c == '"' {
            out.push('\\');
        }
        out.push(c);
        proof {
            assert(chars@.take(i + 1).drop_last() =~= chars@.take(i as int));
            assert(out@ =~= before + quote_char(c));
            assert(out@ =~= old(out)@ + quoted(chars@.take(i + 1)));
        }
        i += 1;
    }
    assert(chars@.take(i as int) =~= text@);
}

/// Appends the name of a field.
fn push_label(out: &mut String, name: &str)
    ensures
        final(out)@ == old(out)@ + label(name@),
{
    out.append("\"");
    out.append(name);
    out.append("\":");
    assert(out@ =~= old(out)@ + label(name@));
}

/// Appends a field with a number.
fn push_number(out: &mut String, name: &str, n: u128)
    ensures
        final(out)@ == old(out)@ + label(name@) + " "@ + text::decimal(n as nat),
{
    push_label(out, name);
    out.append(" ");
    push_decimal(out, n);
}

/// Writes the build metadata.
pub fn write_meta(
    root: &str,
    git_head: Option<&str>,
    file_count: usize,
    ngram_count: usize,
    built_at: u64,
    duration_ms: u128,
) -> (meta: String)
    ensures
        meta@ == meta_text(
            root@,
            match git_head {
                Some(h) => Some(h@),
                None => None,
            },
            file_count as nat,
            ngram_count as nat,
            built_at as nat,
            duration_ms as nat,
        ),
{
    let mut meta = String::new();
    meta.append("{\n  ");
    push_label(&mut meta, "version");
    meta.append(" 1,\n  ");
    push_label(&mut meta, "root");
    meta.append(" \"");
    push_quoted(&mut meta, root);
    meta.append("\",\n  ");
    let ghost before_head = meta@;
    match git_head {
        Some(h) => {
            push_label(&mut meta, "git_head");
            meta.append(" \"");
            meta.append(h);
            meta.append("\",\n  ");
            assert(meta@ =~= before_head + (label("git_head"@) + " \""@ + h@ + "\",\n  "@));
        },
        None => {
            assert(meta@ =~= before_head + Seq::<char>::empty());
        },
    }
    push_number(&mut meta, "file_count", file_count as u128);
    meta.append(",\n  ");
    push_number(&mut meta, "ngram_count", ngram_count as u128);
    meta.append(",\n  ");
    push_number(&mut meta, "built_at_unix", built_at as u128);
    meta.append(",\n  ");
    push_number(&mut meta, "build_duration_ms", duration_ms);
    meta.append("\n}\n");
    assert(meta@ =~= meta_text(
        root@,
        match git_head {
            Some(h) => Some(h@),
            None => None,
        },
        file_count as nat,
        ngram_count as nat,
        built_at as nat,
        duration_ms as nat,
    ));
    meta
}

// ---------------------------------------------------------------------------
// Reading
// ---------------------------------------------------------------------------

/// The value of a numeric field of the build metadata: the digits after the first
/// label of that name and white space, up to a character that is no digit.
pub open spec fn meta_number(json: Seq<char>, key: Seq<char>) -> Option<nat> {
    match text::after_first(json, label(key)) {
        Some(rest) => {
            let s = text::trimmed_start(rest);
            let end = text::digit_run(s);
            if end < s.len() {
                text::number(s.take(end as int), u64::MAX as nat)
            } else {
                None
            }
        },
        None => None,
    }
}

/// Extracts a numeric field of the build metadata.
pub fn extract_json_u64(json: &str, key: &str) -> (r: Option<u64>)
    ensures
        match r {
            Some(n) => meta_number(json@, key@) == Some(n as nat),
            None => meta_number(json@, key@) is None,
        },
{
    let chars = chars_of(json);
    let mut pattern = String::new();
    push_label(&mut pattern, key);
    assert(pattern@ =~= label(key@));
    let pattern_chars = chars_of(pattern.as_str());
    match find_after(chars.as_slice(), pattern_chars.as_slice()) {
        Some(rest) => {
            let s = trim_start(rest);
            let end: usize = leading_digits(s);
            if end < s.len() {
                let digits = vstd::slice::slice_subrange(s, 0, end);
                assert(digits@ =~= s@.take(end as int));
                parse_number(digits, u64::MAX)
            } else {
                None
            }
        },
        None => None,
    }
}

/// The numbers that the build metadata holds.
#[derive(Debug, Clone, Copy, PartialEq, Eq, Structural)]
pub struct MetaStats {
    pub file_count: u64,
    pub ngram_count: u64,
    pub duration_ms: u64,
}

/// A number of the build metadata, or zero where it cannot be read.
pub open spec fn number_or_zero(meta: Seq<char>, key: Seq<char>) -> nat {
    match meta_number(meta, key) {
        Some(n) => n,
        None => 0,
    }
}

/// Reads a number of the build metadata.
fn read_number(meta: &str, key: &str) -> (n: u64)
    ensures
        n == number_or_zero(meta@, key@),
{
    match extract_json_u64(meta, key) {
        Some(n) => n,
        None => 0,
    }
}

/// Reads the numbers that the build metadata holds. One that cannot be read counts
/// as zero.
pub fn read_meta_stats(meta: &str) -> (stats: MetaStats)
    ensures
        stats.file_count == number_or_zero(meta@, "file_count"@),
        stats.ngram_count == number_or_zero(meta@, "ngram_count"@),
        stats.duration_ms == number_or_zero(meta@, "build_duration_ms"@),
{
    MetaStats {
        file_count: read_number(meta, "file_count"),
        ngram_count: read_number(meta, "ngram_count"),
        duration_ms: read_number(meta, "build_duration_ms"),
    }
}

// ---------------------------------------------------------------------------
// Reading what was written
// ---------------------------------------------------------------------------

/// Whether a text can be the name of a field: there are no quotes, backslashes,
/// colons or spaces in it.
spec fn plain_name(name: Seq<char>) -> bool {
    &&& name.len() > 0
    &&& forall|i: int|
        0 <= i < name.len() ==> #[trigger] name[i] != '"' && name[i] != '\\' && name[i] != ':' && name[i] != ' '
}

/// Whether no quote in a text can be the end of a label: each is followed by
/// something else than a colon, or a backslash or a space stands before it.
spec fn calm(t: Seq<char>) -> bool {
    forall|j: int|
        0 <= j < t.len() && #[trigger] t[j] == '"' ==> (j + 1 < t.len() && t[j + 1] != ':') || (j > 0 && (t[j - 1] == '\\'
            || t[j - 1] == ' '))
}

/// Whether no label of a name ends in a text, whatever comes after it.
spec fn clear_of(p: Seq<char>, name: Seq<char>) -> bool {
    forall|j: int|
        0 <= j < p.len() && #[trigger] p[j] == '"' && (j + 1 == p.len() || p[j + 1] == ':') && j > name.len()
            ==> p.subrange(j - 1 - name.len(), j) != seq!['"'] + name
}

proof fn lemma_calm_append(p: Seq<char>, t: Seq<char>, name: Seq<char>)
    requires
        clear_of(p, name),
        calm(t),
        plain_name(name),
    ensures
        clear_of(p + t, name),
{
    let s = p + t;
    let n = name.len() as int;
    assert forall|j: int|
        0 <= j < s.len() && #[trigger] s[j] == '"' && (j + 1 == s.len() || s[j + 1] == ':') && j
            > name.len() implies s.subrange(j - 1 - n, j) != seq!['"'] + name by {
        let before = s.subrange(j - 1 - n, j);
        if j < p.len() {
            assert(p[j] == '"');
            assert(before =~= p.subrange(j - 1 - n, j));
        } else {
            let k = j - p.len();
            assert(t[k] == '"');
            assert(k > 0 && (t[k - 1] == '\\' || t[k - 1] == ' '));
            assert(before[n] == t[k - 1]);
            assert((seq!['"'] + name)[n] == name[n - 1]);
        }
    }
}

proof fn lemma_label_append(p: Seq<char>, other: Seq<char>, name: Seq<char>)
    requires
        clear_of(p, name),
        plain_name(other),
        plain_name(name),
        other != name,
    ensures
        clear_of(p + label(other), name),
{
    reveal_strlit("\"");
    reveal_strlit("\":");
    let s = p + label(other);
    let n = name.len() as int;
    let m = other.len() as int;
    assert(label(other) =~= seq!['"'] + other + seq!['"', ':']);
    assert forall|j: int|
        0 <= j < s.len() && #[trigger] s[j] == '"' && (j + 1 == s.len() || s[j + 1] == ':') && j
            > name.len() implies s.subrange(j - 1 - n, j) != seq!['"'] + name by {
        let before = s.subrange(j - 1 - n, j);
        let wanted = seq!['"'] + name;
        if j < p.len() {
            assert(p[j] == '"');
            assert(before =~= p.subrange(j - 1 - n, j));
        } else {
            let k = j - p.len();
            assert(label(other)[k] == '"');
            if k == 0 {
                assert(s[j + 1] == other[0]);
            } else {
                if 0 < k <= m {
                    assert(other[k - 1] == '"');
                }
                assert(k == m + 1);
                if n < m {
                    assert(before[0] == other[m - n - 1]);
                    assert(wanted[0] == '"');
                } else if n > m {
                    assert(before[n - m] == s[p.len() as int]);
                    assert(wanted[n - m] == name[n - m - 1]);
                } else {
                    if before == wanted {
                        assert forall|i: int| 0 <= i < n implies other[i] == name[i] by {
                            assert(before[i + 1] == wanted[i + 1]);
                        }
                        assert(other =~= name);
                    }
                }
            }
        }
    }
}

/// After a text that is clear of a label, the label is found first where it comes.
proof fn lemma_label_found(p: Seq<char>, name: Seq<char>, rest: Seq<char>)
    requires
        clear_of(p, name),
        plain_name(name),
    ensures
        text::after_first(p + label(name) + rest, label(name)) == Some(rest),
{
    reveal_strlit("\"");
    reveal_strlit("\":");
    let s = p + label(name) + rest;
    let part = label(name);
    let n = name.len() as int;
    let t = p.len() as int;
    assert(part =~= seq!['"'] + name + seq!['"', ':']);
    assert(s.subrange(t, t + part.len()) =~= part);
    assert forall|i: int| 0 <= i < t implies !text::stands_at(s, part, i) by {
        if text::stands_at(s, part, i) {
            let e = i + n + 1;
            let there = s.subrange(i, i + part.len());
            assert(there[n + 1] == '"' && there[n + 2] == ':');
            assert(s[e] == '"' && s[e + 1] == ':');
            if e < t {
                assert(p[e] == '"');
                assert(p.subrange(e - 1 - n, e) =~= seq!['"'] + name) by {
                    assert forall|k: int| 0 <= k < n + 1 implies p.subrange(e - 1 - n, e)[k] == (seq!['"'] + name)[k] by {
                        assert(there[k] == part[k]);
                    }
                }
            } else if e == t {
                assert(s[t + 1] == name[0]);
            } else {
                assert(there[t - i] == part[t - i]);
                assert(part[t - i] == name[t - i - 1]);
            }
        }
    }
    text::lemma_found_first(s, part, t);
    assert(s.skip(t + part.len()) =~= rest);
}

/// A number that follows a space is read up to what comes after it.
proof fn lemma_number_after_space(n: nat, rest: Seq<char>)
    requires
        n <= u64::MAX,
        rest.len() > 0,
        !text::is_digit(rest[0]),
    ensures
        ({
            let s = text::trimmed_start(" "@ + text::decimal(n) + rest);
            let end = text::digit_run(s) as int;
            end < s.len() && text::number(s.take(end), u64::MAX as nat) == Some(n)
        }),
{
    reveal_strlit(" ");
    let digits = text::decimal(n);
    let s = digits + rest;
    let all = " "@ + digits + rest;
    text::lemma_decimal_digits(n);
    assert(all.drop_first() =~= s);
    assert(text::is_digit(digits[0]));
    assert(s[0] == digits[0]);
    assert(text::trimmed_start(s) == s);
    assert(text::trimmed_start(all) == s);
    assert forall|k: int| 0 <= k < digits.len() implies text::is_digit(#[trigger] s[k]) by {
        assert(text::is_digit(digits[k]));
    }
    assert(s[digits.len() as int] == rest[0]);
    text::lemma_digit_run(s, digits.len() as int);
    text::lemma_digit_run(digits, digits.len() as int);
    assert(s.take(digits.len() as int) =~= digits);
    assert(text::without_plus(digits) == digits);
}

/// A field that comes after a text clear of its label is read.
proof fn lemma_field_read(p: Seq<char>, name: Seq<char>, n: nat, rest: Seq<char>)
    requires
        clear_of(p, name),
        plain_name(name),
        n <= u64::MAX,
        rest.len() > 0,
        !text::is_digit(rest[0]),
    ensures
        meta_number(p + label(name) + (" "@ + text::decimal(n) + rest), name) == Some(n),
{
    lemma_label_found(p, name, " "@ + text::decimal(n) + rest);
    lemma_number_after_space(n, rest);
}

proof fn lemma_quoted_calm(s: Seq<char>)
    ensures
        calm(quoted(s)),
        forall|j: int|
            0 <= j < quoted(s).len() && #[trigger] quoted(s)[j] == '"' ==> j > 0 && quoted(s)[j - 1] == '\\',
    decreases s.len(),
{
    if s.len() > 0 {
        lemma_quoted_calm(s.drop_last());
        let before = quoted(s.drop_last());
        let now = quoted(s);
        assert forall|j: int| 0 <= j < now.len() && #[trigger] now[j] == '"' implies j > 0 && now[j - 1] == '\\' by {
            if j < before.len() {
                assert(before[j] == '"');
            }
        }
    }
}

/// A text without quotes is calm.
proof fn lemma_unquoted_calm(t: Seq<char>)
    requires
        !t.contains('"'),
    ensures
        calm(t),
{
    assert forall|j: int| 0 <= j < t.len() implies #[trigger] t[j] != '"' by {
        assert(t.contains(t[j]));
    }
}

/// The text before the first number is clear of the labels of the numbers.
proof fn lemma_start_clear(root: Seq<char>, git_head: Option<Seq<char>>, name: Seq<char>)
    requires
        plain_name(name),
        name != "version"@,
        name != "root"@,
        name != "git_head"@,
        git_head matches Some(h) ==> !h.contains('"'),
    ensures
        clear_of(meta_start(root, git_head), name),
{
    reveal_strlit("{\n  ");
    reveal_strlit("version");
    reveal_strlit(" 1,\n  ");
    reveal_strlit("root");
    reveal_strlit(" \"");
    reveal_strlit("\",\n  ");
    reveal_strlit("git_head");
    let p0 = Seq::<char>::empty() + "{\n  "@;
    lemma_calm_append(Seq::empty(), "{\n  "@, name);
    let p1 = p0 + label("version"@);
    lemma_label_append(p0, "version"@, name);
    let p2 = p1 + " 1,\n  "@;
    lemma_calm_append(p1, " 1,\n  "@, name);
    let p3 = p2 + label("root"@);
    lemma_label_append(p2, "root"@, name);
    let p4 = p3 + " \""@;
    lemma_calm_append(p3, " \""@, name);
    let p5 = p4 + quoted(root);
    lemma_quoted_calm(root);
    lemma_calm_append(p4, quoted(root), name);
    let p6 = p5 + "\",\n  "@;
    lemma_calm_append(p5, "\",\n  "@, name);
    match git_head {
        Some(h) => {
            let p7 = p6 + label("git_head"@);
            lemma_label_append(p6, "git_head"@, name);
            let p8 = p7 + " \""@;
            lemma_calm_append(p7, " \""@, name);
            let p9 = p8 + h;
            lemma_unquoted_calm(h);
            lemma_calm_append(p8, h, name);
            lemma_calm_append(p9, "\",\n  "@, name);
            assert(meta_start(root, git_head) =~= p9 + "\",\n  "@);
        },
        None => {
            assert(meta_start(root, git_head) =~= p6);
        },
    }
}

/// The build metadata before the first number.
spec fn meta_start(root: Seq<char>, git_head: Option<Seq<char>>) -> Seq<char> {
    let head = match git_head {
        Some(h) => label("git_head"@) + " \""@ + h + "\",\n  "@,
        None => Seq::empty(),
    };
    "{\n  "@ + label("version"@) + " 1,\n  "@ + label("root"@) + " \""@ + quoted(root) + "\",\n  "@ + head
}

/// A number and what comes before the next one keep a text clear.
proof fn lemma_number_clear(p: Seq<char>, other: Seq<char>, n: nat, name: Seq<char>)
    requires
        clear_of(p, name),
        plain_name(other),
        plain_name(name),
        other != name,
    ensures
        clear_of(p + label(other) + " "@ + text::decimal(n) + ",\n  "@, name),
{
    reveal_strlit(" ");
    reveal_strlit(",\n  ");
    let p1 = p + label(other);
    lemma_label_append(p, other, name);
    lemma_calm_append(p1, " "@, name);
    let digits = text::decimal(n);
    text::lemma_decimal_digits(n);
    assert(calm(digits)) by {
        assert forall|j: int| 0 <= j < digits.len() implies #[trigger] digits[j] != '"' by {
            assert(text::is_digit(digits[j]));
        }
    }
    lemma_calm_append(p1 + " "@, digits, name);
    lemma_calm_append(p1 + " "@ + digits, ",\n  "@, name);
}

/// A text in three parts, however its last part is put together.
proof fn lemma_regroup(p: Seq<char>, a: Seq<char>, b: Seq<char>, c: Seq<char>, d: Seq<char>)
    ensures
        p + a + b + c + d == p + a + (b + c + d),
{
    assert(p + a + b + c + d =~= p + a + (b + c + d));
}

/// What follows a number in the build metadata: the fields with the other numbers.
spec fn rest_after(fields: Seq<(Seq<char>, nat)>) -> Seq<char>
    decreases fields.len(),
{
    if fields.len() == 0 {
        "\n}\n"@
    } else {
        ",\n  "@ + label(fields[0].0) + " "@ + text::decimal(fields[0].1) + rest_after(fields.drop_first())
    }
}

/// The text up to the name of a field: a start and the fields before.
spec fn text_before(p: Seq<char>, fields: Seq<(Seq<char>, nat)>) -> Seq<char>
    decreases fields.len(),
{
    if fields.len() == 0 {
        p
    } else {
        let (name, n) = fields.last();
        text_before(p, fields.drop_last()) + label(name) + " "@ + text::decimal(n) + ",\n  "@
    }
}

/// The whole of a text with fields, seen from one of them.
spec fn seen_from(p: Seq<char>, fields: Seq<(Seq<char>, nat)>, i: int) -> Seq<char> {
    text_before(p, fields.take(i)) + label(fields[i].0) + (" "@ + text::decimal(fields[i].1) + rest_after(
        fields.skip(i + 1),
    ))
}

/// It is the same text from each of its fields.
proof fn lemma_same_text(p: Seq<char>, fields: Seq<(Seq<char>, nat)>, i: int)
    requires
        0 <= i < fields.len() - 1,
    ensures
        seen_from(p, fields, i) == seen_from(p, fields, i + 1),
{
    let t = text_before(p, fields.take(i));
    let (name, n) = fields[i];
    let next = fields[i + 1].0;
    let m = fields[i + 1].1;
    let later = rest_after(fields.skip(i + 2));
    assert(fields.take(i + 1).drop_last() =~= fields.take(i));
    assert(fields.take(i + 1).last() == fields[i]);
    assert(fields.skip(i + 1)[0] == fields[i + 1]);
    assert(fields.skip(i + 1).drop_first() =~= fields.skip(i + 2));
    let digits = text::decimal(n);
    let more = text::decimal(m);
    assert(t + label(name) + (" "@ + digits + (",\n  "@ + label(next) + " "@ + more + later)) =~= t + label(name) + " "@
        + digits + ",\n  "@ + label(next) + (" "@ + more + later));
}

/// The text before a field is clear of its label.
proof fn lemma_before_clear(p: Seq<char>, fields: Seq<(Seq<char>, nat)>, name: Seq<char>)
    requires
        clear_of(p, name),
        plain_name(name),
        forall|k: int| 0 <= k < fields.len() ==> plain_name((#[trigger] fields[k]).0) && fields[k].0 != name,
    ensures
        clear_of(text_before(p, fields), name),
    decreases fields.len(),
{
    if fields.len() > 0 {
        let last = fields[fields.len() - 1];
        assert(plain_name(last.0) && last.0 != name);
        lemma_before_clear(p, fields.drop_last(), name);
        lemma_number_clear(text_before(p, fields.drop_last()), last.0, last.1, name);
    }
}

/// A text with fields of different names, after a start that is clear of them, gives
/// each number back.
proof fn lemma_fields_read(p: Seq<char>, fields: Seq<(Seq<char>, nat)>, i: int)
    requires
        0 <= i < fields.len(),
        forall|k: int| 0 <= k < fields.len() ==> clear_of(p, (#[trigger] fields[k]).0) && plain_name(fields[k].0),
        forall|j: int, k: int| 0 <= j < k < fields.len() ==> (#[trigger] fields[j]).0 != (#[trigger] fields[k]).0,
        fields[i].1 <= u64::MAX,
    ensures
        meta_number(seen_from(p, fields, 0), fields[i].0) == Some(fields[i].1),
{
    reveal_strlit("\n}\n");
    reveal_strlit(",\n  ");
    let (name, n) = fields[i];
    let before = fields.take(i);
    let rest = rest_after(fields.skip(i + 1));
    assert forall|k: int| 0 <= k < before.len() implies plain_name((#[trigger] before[k]).0) && before[k].0 != name by {
        assert(before[k] == fields[k]);
    }
    lemma_before_clear(p, before, name);
    assert(rest.len() > 0 && !text::is_digit(rest[0]));
    lemma_field_read(text_before(p, before), name, n, rest);
    lemma_seen_from_all(p, fields, i);
}

proof fn lemma_seen_from_all(p: Seq<char>, fields: Seq<(Seq<char>, nat)>, i: int)
    requires
        0 <= i < fields.len(),
    ensures
        seen_from(p, fields, i) == seen_from(p, fields, 0),
    decreases i,
{
    if i > 0 {
        lemma_seen_from_all(p, fields, i - 1);
        lemma_same_text(p, fields, i - 1);
    }
}

/// The numbers of the build metadata, with the names of their fields.
spec fn meta_fields(file_count: nat, ngram_count: nat, built_at: nat, duration_ms: nat) -> Seq<(Seq<char>, nat)> {
    seq![
        ("file_count"@, file_count),
        ("ngram_count"@, ngram_count),
        ("built_at_unix"@, built_at),
        ("build_duration_ms"@, duration_ms),
    ]
}

/// The build metadata is its start with the four numbers.
proof fn lemma_meta_fields(
    root: Seq<char>,
    git_head: Option<Seq<char>>,
    file_count: nat,
    ngram_count: nat,
    built_at: nat,
    duration_ms: nat,
)
    ensures
        meta_text(root, git_head, file_count, ngram_count, built_at, duration_ms) == seen_from(
            meta_start(root, git_head),
            meta_fields(file_count, ngram_count, built_at, duration_ms),
            0,
        ),
{
    let p = meta_start(root, git_head);
    let fields = meta_fields(file_count, ngram_count, built_at, duration_ms);
    lemma_seen_from_all(p, fields, 3);
    assert(fields.take(3).drop_last() =~= fields.take(2));
    assert(fields.take(2).drop_last() =~= fields.take(1));
    assert(fields.take(1).drop_last() =~= fields.take(0));
    assert(fields.skip(4).len() == 0);
    reveal_with_fuel(text_before, 4);
    lemma_regroup(
        text_before(p, fields.take(3)),
        label("build_duration_ms"@),
        " "@,
        text::decimal(duration_ms),
        "\n}\n"@,
    );
}

/// Reading the build metadata gives back the numbers that were written, whatever the
/// root is called, where the name of the commit holds no quote.
pub proof fn law_meta_reads_back(
    root: Seq<char>,
    git_head: Option<Seq<char>>,
    file_count: nat,
    ngram_count: nat,
    built_at: nat,
    duration_ms: nat,
)
    requires
        git_head matches Some(h) ==> !h.contains('"'),
        file_count <= u64::MAX,
        ngram_count <= u64::MAX,
        built_at <= u64::MAX,
        duration_ms <= u64::MAX,
    ensures
        ({
            let meta = meta_text(root, git_head, file_count, ngram_count, built_at, duration_ms);
            &&& meta_number(meta, "file_count"@) == Some(file_count)
            &&& meta_number(meta, "ngram_count"@) == Some(ngram_count)
            &&& meta_number(meta, "built_at_unix"@) == Some(built_at)
            &&& meta_number(meta, "build_duration_ms"@) == Some(duration_ms)
        }),
{
    reveal_strlit("version");
    reveal_strlit("root");
    reveal_strlit("git_head");
    reveal_strlit("file_count");
    reveal_strlit("ngram_count");
    reveal_strlit("built_at_unix");
    reveal_strlit("build_duration_ms");
    let p = meta_start(root, git_head);
    let fields = meta_fields(file_count, ngram_count, built_at, duration_ms);
    assert forall|k: int| 0 <= k < fields.len() implies clear_of(p, (#[trigger] fields[k]).0) && plain_name(fields[k].0) by {
        let name = fields[k].0;
        assert(name[0] != 'v' && name[0] != 'r' && name[0] != 'g');
        lemma_start_clear(root, git_head, name);
    }
    assert forall|j: int, k: int| 0 <= j < k < fields.len() implies (#[trigger] fields[j]).0 != (#[trigger] fields[k]).0 by {
        assert(fields[j].0.len() != fields[k].0.len());
    }
    lemma_meta_fields(root, git_head, file_count, ngram_count, built_at, duration_ms);
    lemma_fields_read(p, fields, 0);
    lemma_fields_read(p, fields, 1);
    lemma_fields_read(p, fields, 2);
    lemma_fields_read(p, fields, 3);
}

/// A root without control characters is quoted as in JSON.
proof fn lemma_quoted_is_json(s: Seq<char>)
    requires
        forall|k: int| 0 <= k < s.len() ==> !(' ' > #[trigger] s[k]),
    ensures
        quoted(s) == report::json_escaped(s),
    decreases s.len(),
{
    if s.len() > 0 {
        assert(s.last() == s[s.len() - 1]);
        lemma_quoted_is_json(s.drop_last());
    }
}

/// The build metadata starts with its version, which is one, and names the root: behind the
/// first label of that name stands the root as a JSON string, where there are no control
/// characters in it.
#[verifier::rlimit(40)]
pub proof fn law_meta_names_the_root(
    root: Seq<char>,
    git_head: Option<Seq<char>>,
    file_count: nat,
    ngram_count: nat,
    built_at: nat,
    duration_ms: nat,
)
    requires
        forall|k: int| 0 <= k < root.len() ==> !(' ' > #[trigger] root[k]),
    ensures
        ({
            let meta = meta_text(root, git_head, file_count, ngram_count, built_at, duration_ms);
            let rest = text::after_first(meta, "\"root\": "@);
            &&& rest is Some
            &&& json::read_text(rest->0) is Some
            &&& json::read_text(rest->0).unwrap().0 == root
            &&& meta.len() >= 20
            &&& meta.take(20) == "{\n  \"version\": 1,\n  "@
        }),
{
    let key = "\"root\": "@;
    let start = "{\n  \"version\": 1,\n  "@;
    let quote = seq!['"'];
    lemma_root_label();
    let tail = lemma_meta_split(root, git_head, file_count, ngram_count, built_at, duration_ms);
    lemma_quoted_is_json(root);
    lemma_root_regroup(start, key, quote, quoted(root), tail);
    lemma_root_found(quote + quoted(root) + quote + tail);
    lemma_starts_with(start, key + (quote + quoted(root) + quote + tail));
    lemma_start_len();
    lemma_start_regroup(start, key, quote + quoted(root) + quote + tail);
    json::lemma_read_string(root, tail);
}

proof fn lemma_start_len()
    ensures
        "{\n  \"version\": 1,\n  "@.len() == 20,
{
    reveal_strlit("{\n  \"version\": 1,\n  ");
}

proof fn lemma_start_regroup(start: Seq<char>, key: Seq<char>, rest: Seq<char>)
    ensures
        start + key + rest == start + (key + rest),
{
    assert(start + key + rest =~= start + (key + rest));
}

proof fn lemma_starts_with(start: Seq<char>, rest: Seq<char>)
    ensures
        (start + rest).len() >= start.len(),
        (start + rest).take(start.len() as int) == start,
{
    assert((start + rest).take(start.len() as int) =~= start);
}

proof fn lemma_root_regroup(start: Seq<char>, key: Seq<char>, quote: Seq<char>, root: Seq<char>, tail: Seq<char>)
    ensures
        start + key + quote + root + quote + tail == start + key + (quote + root + quote + tail),
{
    assert(start + key + quote + root + quote + tail =~= start + key + (quote + root + quote + tail));
}

proof fn lemma_root_found(end: Seq<char>)
    ensures
        text::after_first("{\n  \"version\": 1,\n  "@ + "\"root\": "@ + end, "\"root\": "@) == Some(end),
{
    let key = "\"root\": "@;
    let start = "{\n  \"version\": 1,\n  "@;
    let meta = start + key + end;
    let n = start.len() as int;
    reveal_strlit("{\n  \"version\": 1,\n  ");
    reveal_strlit("\"root\": ");
    assert(meta.subrange(n, n + key.len()) =~= key);
    assert forall|k: int| 0 <= k < n implies !text::stands_at(meta, key, k) by {
        if text::stands_at(meta, key, k) {
            let part = meta.subrange(k, k + key.len());
            assert(part[0] == key[0] && part[1] == key[1]);
            assert(meta[k] == '"' && meta[k + 1] == 'r');
            assert(meta[k] == start[k]);
            if k + 1 < n {
                assert(meta[k + 1] == start[k + 1]);
            }
        }
    }
    text::lemma_found_first(meta, key, n);
    assert(meta.skip(n + key.len()) =~= end);
}

/// How the label of the root stands in the build metadata.
proof fn lemma_root_label()
    ensures
        "{\n  "@ + label("version"@) + " 1,\n  "@ + label("root"@) + " \""@ == "{\n  \"version\": 1,\n  "@ + "\"root\": "@
            + seq!['"'],
{
    reveal_strlit("{\n  ");
    reveal_strlit("\"");
    reveal_strlit("version");
    reveal_strlit("\":");
    reveal_strlit(" 1,\n  ");
    reveal_strlit("root");
    reveal_strlit(" \"");
    reveal_strlit("{\n  \"version\": 1,\n  ");
    reveal_strlit("\"root\": ");
    assert("{\n  "@ + label("version"@) + " 1,\n  "@ + label("root"@) + " \""@ =~= "{\n  \"version\": 1,\n  "@
        + "\"root\": "@ + seq!['"']);
}

/// What follows the root in the build metadata.
proof fn lemma_meta_split(
    root: Seq<char>,
    git_head: Option<Seq<char>>,
    file_count: nat,
    ngram_count: nat,
    built_at: nat,
    duration_ms: nat,
) -> (tail: Seq<char>)
    ensures
        meta_text(root, git_head, file_count, ngram_count, built_at, duration_ms) == "{\n  "@ + label("version"@)
            + " 1,\n  "@ + label("root"@) + " \""@ + quoted(root) + seq!['"'] + tail,
{
    let meta = meta_text(root, git_head, file_count, ngram_count, built_at, duration_ms);
    let start = "{\n  "@ + label("version"@) + " 1,\n  "@ + label("root"@) + " \""@ + quoted(root);
    let tail = meta.skip(start.len() as int + 1);
    reveal_strlit("\",\n  ");
    assert(meta.take(start.len() as int) =~= start);
    assert(meta[start.len() as int] == '"');
    assert(meta =~= start + seq!['"'] + tail);
    tail
}

/// The commit is one more field of the build metadata, right before the number of files: with
/// it, the metadata is what it is without it, but for that field.
#[verifier::rlimit(40)]
pub proof fn law_commit_is_one_more_field(
    root: Seq<char>,
    commit: Seq<char>,
    file_count: nat,
    ngram_count: nat,
    built_at: nat,
    duration_ms: nat,
) -> (at: int)
    ensures
        ({
            let plain = meta_text(root, None, file_count, ngram_count, built_at, duration_ms);
            let full = meta_text(root, Some(commit), file_count, ngram_count, built_at, duration_ms);
            &&& 0 <= at <= plain.len()
            &&& full == plain.take(at) + "\"git_head\": \""@ + commit + "\",\n  "@ + plain.skip(at)
            &&& plain.skip(at).len() >= 13
            &&& plain.skip(at).take(13) == "\"file_count\":"@
        }),
{
    let start = meta_start(root, None);
    let key = label("file_count"@);
    let rest = lemma_meta_rest(root, commit, file_count, ngram_count, built_at, duration_ms);
    lemma_commit_label();
    lemma_field_between(start, "\"git_head\": \""@, commit, "\",\n  "@, key, rest);
    start.len() as int
}

proof fn lemma_field_between(
    start: Seq<char>,
    open: Seq<char>,
    value: Seq<char>,
    close: Seq<char>,
    key: Seq<char>,
    rest: Seq<char>,
)
    ensures
        start.len() <= (start + (key + rest)).len(),
        (start + (key + rest)).take(start.len() as int) == start,
        (start + (key + rest)).skip(start.len() as int) == key + rest,
        (key + rest).take(key.len() as int) == key,
        start + (open + value + close) + (key + rest) == start + open + value + close + (key + rest),
{
    assert((start + (key + rest)).take(start.len() as int) =~= start);
    assert((start + (key + rest)).skip(start.len() as int) =~= key + rest);
    assert((key + rest).take(key.len() as int) =~= key);
    assert(start + (open + value + close) + (key + rest) =~= start + open + value + close + (key + rest));
}

/// The build metadata with and without the commit, up to the numbers.
#[verifier::rlimit(40)]
proof fn lemma_meta_rest(
    root: Seq<char>,
    commit: Seq<char>,
    file_count: nat,
    ngram_count: nat,
    built_at: nat,
    duration_ms: nat,
) -> (rest: Seq<char>)
    ensures
        meta_text(root, None, file_count, ngram_count, built_at, duration_ms) == meta_start(root, None) + (label(
            "file_count"@,
        ) + rest),
        meta_text(root, Some(commit), file_count, ngram_count, built_at, duration_ms) == meta_start(root, None) + (label(
            "git_head"@,
        ) + " \""@ + commit + "\",\n  "@) + (label("file_count"@) + rest),
{
    let start = "{\n  "@ + label("version"@) + " 1,\n  "@ + label("root"@) + " \""@ + quoted(root) + "\",\n  "@;
    let head = label("git_head"@) + " \""@ + commit + "\",\n  "@;
    let none = Seq::<char>::empty();
    lemma_join_rest(
        start + none,
        label("file_count"@),
        " "@,
        text::decimal(file_count),
        ",\n  "@,
        label("ngram_count"@),
        " "@,
        text::decimal(ngram_count),
        ",\n  "@,
        label("built_at_unix"@),
        " "@,
        text::decimal(built_at),
        ",\n  "@,
        label("build_duration_ms"@),
        " "@,
        text::decimal(duration_ms),
        "\n}\n"@,
    );
    lemma_join_rest(
        start + head,
        label("file_count"@),
        " "@,
        text::decimal(file_count),
        ",\n  "@,
        label("ngram_count"@),
        " "@,
        text::decimal(ngram_count),
        ",\n  "@,
        label("built_at_unix"@),
        " "@,
        text::decimal(built_at),
        ",\n  "@,
        label("build_duration_ms"@),
        " "@,
        text::decimal(duration_ms),
        "\n}\n"@,
    );
    assert(start + none =~= start);
    " "@ + text::decimal(file_count) + ",\n  "@ + label("ngram_count"@) + " "@ + text::decimal(ngram_count)
        + ",\n  "@ + label("built_at_unix"@) + " "@ + text::decimal(built_at) + ",\n  "@
        + label("build_duration_ms"@) + " "@ + text::decimal(duration_ms) + "\n}\n"@
}

#[verifier::rlimit(40)]
proof fn lemma_join_rest(
    start: Seq<char>,
    key: Seq<char>,
    a1: Seq<char>,
    a2: Seq<char>,
    a3: Seq<char>,
    a4: Seq<char>,
    a5: Seq<char>,
    a6: Seq<char>,
    a7: Seq<char>,
    a8: Seq<char>,
    a9: Seq<char>,
    a10: Seq<char>,
    a11: Seq<char>,
    a12: Seq<char>,
    a13: Seq<char>,
    a14: Seq<char>,
    a15: Seq<char>,
)
    ensures
        start + key + a1 + a2 + a3 + a4 + a5 + a6 + a7 + a8 + a9 + a10 + a11 + a12 + a13 + a14 + a15 == start
            + (key + (a1 + a2 + a3 + a4 + a5 + a6 + a7 + a8 + a9 + a10 + a11 + a12 + a13 + a14 + a15)),
{
    assert(start + key + a1 + a2 + a3 + a4 + a5 + a6 + a7 + a8 + a9 + a10 + a11 + a12 + a13 + a14 + a15
        =~= start + (key + (a1 + a2 + a3 + a4 + a5 + a6 + a7 + a8 + a9 + a10 + a11 + a12 + a13 + a14 + a15)));
}

proof fn lemma_commit_label()
    ensures
        label("git_head"@) + " \""@ == "\"git_head\": \""@,
        label("file_count"@) == "\"file_count\":"@,
        label("file_count"@).len() == 13,
{
    reveal_strlit("\"");
    reveal_strlit("\":");
    reveal_strlit("git_head");
    reveal_strlit("file_count");
    reveal_strlit(" \"");
    reveal_strlit("\"git_head\": \"");
    reveal_strlit("\"file_count\":");
    assert(label("git_head"@) + " \""@ =~= "\"git_head\": \""@);
    assert(label("file_count"@) =~= "\"file_count\":"@);
}

/// A number of the build metadata is read from behind the first label of its name, over a
/// blank, up to the first character that is no digit.
pub proof fn law_field_is_read(head: Seq<char>, key: Seq<char>, n: nat, end: char, tail: Seq<char>, json: Seq<char>)
    requires
        json == head + (seq!['"'] + key + seq!['"', ':', ' ']) + text::decimal(n) + seq![end] + tail,
        !('0' <= end <= '9'),
        n <= u64::MAX,
        forall|k: int|
            0 <= k < head.len() ==> #[trigger] json.subrange(k, k + key.len() + 3) != seq!['"'] + key + seq!['"', ':'],
    ensures
        meta_number(json, key) == Some(n),
{
    let name = label(key);
    let d = text::decimal(n);
    let rest = seq![' '] + d + seq![end] + tail;
    let at = head.len() as int;
    assert(name =~= seq!['"'] + key + seq!['"', ':']) by {
        reveal_strlit("\"");
        reveal_strlit("\":");
    }
    assert(json.subrange(at, at + name.len()) =~= name);
    assert forall|k: int| 0 <= k < at implies !text::stands_at(json, name, k) by {
        assert(json.subrange(k, k + key.len() + 3) != name);
    }
    text::lemma_found_first(json, name, at);
    assert(json.skip(at + name.len()) =~= rest);
    text::law_decimal(n);
    text::lemma_decimal_digits(n);
    let s = d + seq![end] + tail;
    assert(rest.drop_first() =~= s);
    assert('0' <= d[0] <= '9');
    assert(s[0] == d[0]);
    assert(text::is_space(' '));
    assert(!text::is_space(s[0]));
    assert(text::trimmed_start(s) == s);
    assert(text::trimmed_start(rest) == s);
    assert forall|k: int| 0 <= k < d.len() implies text::is_digit(#[trigger] s[k]) by {
        assert(text::is_digit(d[k]));
    }
    assert(s[d.len() as int] == end);
    text::lemma_digit_run(s, d.len() as int);
    assert(s.take(d.len() as int) =~= d);
    text::law_number(d, d, u64::MAX as nat);
}

/// In the root, a backslash is put before every backslash and every quote, and nothing else
/// changes.
pub proof fn law_quoting_by_character(s: Seq<char>, c: char)
    ensures
        quoted(s.push(c)) == quoted(s) + (if c == '"' || c == '\\' {
            seq!['\\', c]
        } else {
            seq![c]
        }),
        quoted(Seq::empty()) == Seq::<char>::empty(),
{
    assert(s.push(c).drop_last() =~= s);
}

/// A number that the build metadata does not give counts as zero.
pub proof fn law_missing_number_is_zero(meta: Seq<char>, key: Seq<char>)
    ensures
        meta_number(meta, key) is None ==> number_or_zero(meta, key) == 0,
        meta_number(meta, key) is Some ==> meta_number(meta, key) == Some(number_or_zero(meta, key)),
        text::after_first(meta, seq!['"'] + key + seq!['"', ':']) is None ==> number_or_zero(meta, key) == 0,
{
    assert(label(key) =~= seq!['"'] + key + seq!['"', ':']) by {
        reveal_strlit("\"");
        reveal_strlit("\":");
    }
}

/// The build metadata ends with the duration on a line of its own and the closing brace: what
/// stands before does not depend on it.
pub proof fn law_meta_ends_with_the_duration(
    root: Seq<char>,
    git_head: Option<Seq<char>>,
    file_count: nat,
    ngram_count: nat,
    built_at: nat,
) -> (start: Seq<char>)
    ensures
        forall|ms: nat|
            #[trigger] meta_text(root, git_head, file_count, ngram_count, built_at, ms) == start
                + "\"build_duration_ms\": "@ + text::decimal(ms) + "\n}\n"@,
{
    let head = match git_head {
        Some(h) => label("git_head"@) + " \""@ + h + "\",\n  "@,
        None => Seq::empty(),
    };
    let start = "{\n  "@ + label("version"@) + " 1,\n  "@ + label("root"@) + " \""@ + quoted(root) + "\",\n  "@ + head
        + label("file_count"@) + " "@ + text::decimal(file_count) + ",\n  "@ + label("ngram_count"@) + " "@
        + text::decimal(ngram_count) + ",\n  "@ + label("built_at_unix"@) + " "@ + text::decimal(built_at) + ",\n  "@;
    let key = label("build_duration_ms"@);
    assert(key + " "@ == "\"build_duration_ms\": "@) by {
        reveal_strlit("\"");
        reveal_strlit("\":");
        reveal_strlit(" ");
        reveal_strlit("build_duration_ms");
        reveal_strlit("\"build_duration_ms\": ");
        assert(key + " "@ =~= "\"build_duration_ms\": "@);
    }
    assert forall|ms: nat|
        #[trigger] meta_text(root, git_head, file_count, ngram_count, built_at, ms) == start + "\"build_duration_ms\": "@
            + text::decimal(ms) + "\n}\n"@ by {
        lemma_last_field(start, key, " "@, text::decimal(ms), "\n}\n"@);
    }
    start
}

proof fn lemma_last_field(start: Seq<char>, key: Seq<char>, blank: Seq<char>, value: Seq<char>, end: Seq<char>)
    ensures
        start + key + blank + value + end == start + (key + blank) + value + end,
{
    assert(start + key + blank + value + end =~= start + (key + blank) + value + end);
}

} // verus!
