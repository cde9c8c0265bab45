//! Reading JSON objects: what the lines that the program prints as JSON say.

use crate::report;
use crate::report::Freshness;
use crate::scan::MatchView;
use crate::text;
use vstd::prelude::*;

verus! {

// ---------------------------------------------------------------------------
// Reading
// ---------------------------------------------------------------------------

/// A value of a JSON object: a string, a number or an array of strings.
pub enum Json {
    Text(Seq<char>),
    Number(nat),
    Texts(Seq<Seq<char>>),
}

/// How far it is to the quote that ends a JSON string. A backslash takes the next character
/// with it.
pub open spec fn inside(s: Seq<char>) -> nat
    decreases s.len(),
{
    if s.len() == 0 || s[0] == '"' {
        0
    } else if s[0] == '\\' && s.len() > 1 {
        2 + inside(s.skip(2))
    } else {
        1 + inside(s.skip(1))
    }
}

/// The JSON string at the start of a text, and what follows it.
pub open spec fn read_text(s: Seq<char>) -> Option<(Seq<char>, Seq<char>)> {
    if s.len() == 0 || s[0] != '"' {
        None
    } else {
        let n = inside(s.skip(1)) as int;
        if n + 1 >= s.len() {
            None
        } else {
            match report::json_text(s.subrange(1, n + 1)) {
                Some(t) => Some((t, s.skip(n + 2))),
                None => None,
            }
        }
    }
}

/// The number at the start of a text, and what follows it.
pub open spec fn read_number(s: Seq<char>) -> Option<(nat, Seq<char>)> {
    let n = text::digit_run(s) as int;
    if n == 0 {
        None
    } else {
        Some((text::digits_value(s.take(n)), s.skip(n)))
    }
}

/// The JSON strings at the start of a text with commas between them, up to a bracket that
/// ends them, and what follows that.
pub open spec fn read_texts(s: Seq<char>) -> Option<(Seq<Seq<char>>, Seq<char>)>
    decreases s.len(),
{
    match read_text(s) {
        None => None,
        Some((t, rest)) => if rest.len() == 0 || rest.len() >= s.len() {
            None
        } else if rest[0] == ']' {
            Some((seq![t], rest.skip(1)))
        } else if rest[0] == ',' {
            match read_texts(rest.skip(1)) {
                Some((more, end)) => Some((seq![t] + more, end)),
                None => None,
            }
        } else {
            None
        },
    }
}

/// The JSON array of strings at the start of a text, and what follows it.
pub open spec fn read_array(s: Seq<char>) -> Option<(Seq<Seq<char>>, Seq<char>)> {
    if s.len() < 2 || s[0] != '[' {
        None
    } else if s[1] == ']' {
        Some((Seq::empty(), s.skip(2)))
    } else {
        read_texts(s.skip(1))
    }
}

/// The JSON value at the start of a text, and what follows it.
pub open spec fn read_value(s: Seq<char>) -> Option<(Json, Seq<char>)> {
    if s.len() == 0 {
        None
    } else if s[0] == '"' {
        match read_text(s) {
            Some((t, rest)) => Some((Json::Text(t), rest)),
            None => None,
        }
    } else if s[0] == '[' {
        match read_array(s) {
            Some((ts, rest)) => Some((Json::Texts(ts), rest)),
            None => None,
        }
    } else {
        match read_number(s) {
            Some((n, rest)) => Some((Json::Number(n), rest)),
            None => None,
        }
    }
}

/// The fields of a JSON object behind its opening brace, with the brace that closes it at
/// the end.
pub open spec fn read_fields(s: Seq<char>) -> Option<Seq<(Seq<char>, Json)>>
    decreases s.len(),
{
    match read_text(s) {
        None => None,
        Some((key, rest)) => if rest.len() == 0 || rest[0] != ':' {
            None
        } else {
            match read_value(rest.skip(1)) {
                None => None,
                Some((value, end)) => if end.len() == 0 || end.len() >= s.len() {
                    None
                } else if end[0] == '}' {
                    if end.len() == 1 {
                        Some(seq![(key, value)])
                    } else {
                        None
                    }
                } else if end[0] == ',' {
                    match read_fields(end.skip(1)) {
                        Some(more) => Some(seq![(key, value)] + more),
                        None => None,
                    }
                } else {
                    None
                },
            }
        },
    }
}

/// The fields of a JSON object, in their order.
pub open spec fn read_object(s: Seq<char>) -> Option<Seq<(Seq<char>, Json)>> {
    if s.len() == 0 || s[0] != '{' {
        None
    } else {
        read_fields(s.skip(1))
    }
}

// ---------------------------------------------------------------------------
// What is written reads back
// ---------------------------------------------------------------------------

proof fn lemma_inside(t: Seq<char>, rest: Seq<char>)
    ensures
        inside(report::json_escaped(t) + seq!['"'] + rest) == report::json_escaped(t).len(),
    decreases t.len(),
{
    let out = report::json_escaped(t);
    let all = out + seq!['"'] + rest;
    if t.len() > 0 {
        let c = t[0];
        let first = report::json_char(c);
        let more = report::json_escaped(t.skip(1));
        let tail = more + seq!['"'] + rest;
        report::lemma_escaped_first(t);
        lemma_inside(t.skip(1), rest);
        assert(all =~= first + tail);
        if c == '"' || c == '\\' || c == '\n' || c == '\t' || c == '\r' {
            assert(all.skip(2) =~= tail);
        } else if ' ' > c {
            lemma_control(c);
            let h = text::hex(c as nat, 4);
            assert(all.skip(2) =~= h + tail);
            lemma_inside_plain(h, tail);
        } else {
            assert(all.skip(1) =~= tail);
        }
    } else {
        assert(all[0] == '"');
    }
}

proof fn lemma_control(c: char)
    requires
        ' ' > c,
    ensures
        text::hex(c as nat, 4).len() == 4,
        forall|k: int|
            0 <= k < 4 ==> (#[trigger] text::hex(c as nat, 4)[k]) != '"' && text::hex(c as nat, 4)[k] != '\\',
{
    reveal_with_fuel(text::hex, 5);
    let n = c as nat;
    let s = text::hex(n, 4);
    assert(s =~= seq![
        text::hex_digit(n / 16 / 16 / 16 % 16),
        text::hex_digit(n / 16 / 16 % 16),
        text::hex_digit(n / 16 % 16),
        text::hex_digit(n % 16),
    ]);
    lemma_hex_digit(n / 16 / 16 / 16 % 16);
    lemma_hex_digit(n / 16 / 16 % 16);
    lemma_hex_digit(n / 16 % 16);
    lemma_hex_digit(n % 16);
}

proof fn lemma_hex_digit(d: nat)
    requires
        d < 16,
    ensures
        text::hex_digit(d) != '"',
        text::hex_digit(d) != '\\',
{
}

proof fn lemma_inside_plain(p: Seq<char>, rest: Seq<char>)
    requires
        forall|k: int| 0 <= k < p.len() ==> #[trigger] p[k] != '"' && p[k] != '\\',
    ensures
        inside(p + rest) == p.len() + inside(rest),
    decreases p.len(),
{
    if p.len() == 0 {
        assert(p + rest =~= rest);
    } else {
        lemma_inside_plain(p.skip(1), rest);
        assert((p + rest).skip(1) =~= p.skip(1) + rest);
        assert((p + rest)[0] == p[0]);
    }
}

/// A text as a JSON string.
#[verifier::opaque]
spec fn quoted(t: Seq<char>) -> Seq<char> {
    seq!['"'] + report::json_escaped(t) + seq!['"']
}

proof fn lemma_read_text(t: Seq<char>, rest: Seq<char>)
    ensures
        read_text(quoted(t) + rest) == Some((t, rest)),
        quoted(t).len() >= 2,
{
    reveal(quoted);
    let s = quoted(t) + rest;
    let e = report::json_escaped(t);
    lemma_inside(t, rest);
    report::law_escaping_keeps_the_text(t);
    assert(s.skip(1) =~= e + seq!['"'] + rest);
    let n = e.len() as int;
    assert(s.subrange(1, n + 1) =~= e);
    assert(s.skip(n + 2) =~= rest);
}

/// A text that is escaped and put between quotes is read as that text.
pub proof fn lemma_read_string(t: Seq<char>, rest: Seq<char>)
    ensures
        read_text(seq!['"'] + report::json_escaped(t) + seq!['"'] + rest) == Some((t, rest)),
{
    reveal(quoted);
    lemma_read_text(t, rest);
}

proof fn lemma_read_number(n: nat, rest: Seq<char>)
    requires
        rest.len() > 0,
        !text::is_digit(rest[0]),
    ensures
        read_number(text::decimal(n) + rest) == Some((n, rest)),
{
    let d = text::decimal(n);
    let s = d + rest;
    text::lemma_decimal_digits(n);
    assert forall|k: int| 0 <= k < d.len() implies text::is_digit(#[trigger] s[k]) by {
        assert(text::is_digit(d[k]));
    }
    text::lemma_digit_run(s, d.len() as int);
    assert(s[d.len() as int] == rest[0]);
    assert(s.take(d.len() as int) =~= d);
    assert(s.skip(d.len() as int) =~= rest);
}

proof fn lemma_items_first(items: Seq<Seq<char>>)
    requires
        items.len() > 0,
    ensures
        report::json_items(items) == quoted(items[0]) + (if items.len() > 1 {
            seq![','] + report::json_items(items.skip(1))
        } else {
            Seq::empty()
        }),
    decreases items.len(),
{
    reveal(quoted);
    reveal_strlit("\"");
    assert("\""@ =~= seq!['"']);
    let before = items.drop_last();
    if items.len() == 1 {
        assert(report::json_items(before) =~= Seq::empty());
        assert(report::json_items(items) =~= quoted(items[0]) + Seq::empty());
    } else {
        lemma_items_first(before);
        let rest = items.skip(1);
        assert(rest.drop_last() =~= before.skip(1));
        assert(rest.last() == items.last());
        let last = quoted(items.last());
        let some = report::json_items(before);
        assert(report::json_items(items) =~= some + seq![','] + last);
        if items.len() == 2 {
            assert(report::json_items(rest.drop_last()) =~= Seq::empty());
            assert(report::json_items(rest) =~= last);
            assert(report::json_items(items) =~= quoted(items[0]) + (seq![','] + report::json_items(rest)));
        } else {
            let mid = report::json_items(before.skip(1));
            assert(report::json_items(rest) =~= mid + seq![','] + last);
            assert(quoted(items[0]) + (seq![','] + mid) + seq![','] + last =~= quoted(items[0]) + (seq![','] + (mid
                + seq![','] + last)));
        }
    }
}

proof fn lemma_read_texts(items: Seq<Seq<char>>, rest: Seq<char>)
    requires
        items.len() > 0,
    ensures
        read_texts(report::json_items(items) + seq![']'] + rest) == Some((items, rest)),
        report::json_items(items).len() > 0,
        report::json_items(items)[0] == '"',
    decreases items.len(),
{
    reveal(quoted);
    let t = items[0];
    let s = report::json_items(items) + seq![']'] + rest;
    lemma_items_first(items);
    if items.len() == 1 {
        let end = seq![']'] + rest;
        lemma_read_text(t, end);
        assert(s =~= quoted(t) + end);
        assert(end.skip(1) =~= rest);
        assert(seq![t] =~= items);
    } else {
        let more = items.skip(1);
        let tail = report::json_items(more) + seq![']'] + rest;
        let end = seq![','] + tail;
        lemma_read_texts(more, rest);
        lemma_read_text(t, end);
        assert(s =~= quoted(t) + end);
        assert(end.skip(1) =~= tail);
        assert(seq![t] + more =~= items);
    }
}

proof fn lemma_read_array(items: Seq<Seq<char>>, rest: Seq<char>)
    ensures
        read_array(report::json_array(items) + rest) == Some((items, rest)),
        report::json_array(items).len() >= 2,
        report::json_array(items)[0] == '[',
{
    reveal_strlit("[");
    reveal_strlit("]");
    let s = report::json_array(items) + rest;
    let inner = report::json_items(items);
    if items.len() == 0 {
        assert(inner =~= Seq::empty());
        assert(s.skip(2) =~= rest);
        assert(items =~= Seq::empty());
    } else {
        lemma_read_texts(items, rest);
        assert(s.skip(1) =~= inner + seq![']'] + rest);
    }
}

/// A value as JSON.
#[verifier::opaque]
spec fn written_value(v: Json) -> Seq<char> {
    match v {
        Json::Text(t) => quoted(t),
        Json::Number(n) => text::decimal(n),
        Json::Texts(ts) => report::json_array(ts),
    }
}

proof fn lemma_read_value(v: Json, rest: Seq<char>)
    requires
        rest.len() > 0,
        !text::is_digit(rest[0]),
    ensures
        read_value(written_value(v) + rest) == Some((v, rest)),
        written_value(v).len() > 0,
{
    reveal(written_value);
    reveal(quoted);
    let s = written_value(v) + rest;
    match v {
        Json::Text(t) => {
            lemma_read_text(t, rest);
            assert(s[0] == '"');
        },
        Json::Number(n) => {
            lemma_read_number(n, rest);
            text::lemma_decimal_digits(n);
            assert(text::is_digit(text::decimal(n)[0]));
            assert(s[0] == text::decimal(n)[0]);
        },
        Json::Texts(ts) => {
            lemma_read_array(ts, rest);
            assert(s[0] == '[');
        },
    }
}

/// A field as JSON, with what follows it.
#[verifier::opaque]
spec fn written_field(key: Seq<char>, v: Json, rest: Seq<char>) -> Seq<char> {
    quoted(key) + seq![':'] + written_value(v) + rest
}

/// Fields as JSON, up to the closing brace.
#[verifier::opaque]
spec fn written(fields: Seq<(Seq<char>, Json)>) -> Seq<char>
    decreases fields.len(),
{
    if fields.len() == 0 {
        Seq::empty()
    } else {
        written_field(
            fields[0].0,
            fields[0].1,
            if fields.len() == 1 {
                seq!['}']
            } else {
                seq![','] + written(fields.skip(1))
            },
        )
    }
}

proof fn lemma_read_fields(fields: Seq<(Seq<char>, Json)>)
    requires
        fields.len() > 0,
    ensures
        read_fields(written(fields)) == Some(fields),
    decreases fields.len(),
{
    reveal(written);
    reveal(written_field);
    let s = written(fields);
    let (key, v) = fields[0];
    let end = if fields.len() == 1 {
        seq!['}']
    } else {
        seq![','] + written(fields.skip(1))
    };
    let rest = seq![':'] + written_value(v) + end;
    assert(end[0] == '}' || end[0] == ',');
    lemma_read_text(key, rest);
    assert(s =~= quoted(key) + rest);
    assert(rest.skip(1) =~= written_value(v) + end);
    lemma_read_value(v, end);
    if fields.len() == 1 {
        assert(seq![(key, v)] =~= fields);
    } else {
        lemma_read_fields(fields.skip(1));
        assert(end.skip(1) =~= written(fields.skip(1)));
        assert(seq![(key, v)] + fields.skip(1) =~= fields);
    }
}

/// Whether nothing in a text is escaped.
spec fn unescaped(s: Seq<char>) -> bool {
    forall|k: int| 0 <= k < s.len() ==> #[trigger] s[k] != '"' && s[k] != '\\' && !(' ' > s[k])
}

proof fn lemma_unescaped(s: Seq<char>)
    requires
        unescaped(s),
    ensures
        report::json_escaped(s) == s,
        quoted(s) == seq!['"'] + s + seq!['"'],
    decreases s.len(),
{
    reveal(quoted);
    if s.len() > 0 {
        lemma_unescaped(s.drop_last());
        assert(s.last() == s[s.len() - 1]);
        assert(s.drop_last() + seq![s.last()] =~= s);
    } else {
        assert(report::json_escaped(s) =~= s);
    }
}

#[verifier::rlimit(40)]
proof fn lemma_regroup_nine(
    p0: Seq<char>,
    p1: Seq<char>,
    p2: Seq<char>,
    p3: Seq<char>,
    p4: Seq<char>,
    p5: Seq<char>,
    p6: Seq<char>,
    p7: Seq<char>,
    p8: Seq<char>,
)
    ensures
        p0 + p1 + p2 + p3 + p4 + p5 + p6 + p7 + p8 == p0 + (p1 + (p2 + (p3 + (p4 + (p5 + (p6 + (p7 + (p8)))))))),
{
    assert(p0 + p1 + p2 + p3 + p4 + p5 + p6 + p7 + p8 =~= p0 + (p1 + (p2 + (p3 + (p4 + (p5 + (p6 + (p7 + (p8)))))))));
}

#[verifier::rlimit(40)]
proof fn lemma_regroup_eleven(
    p0: Seq<char>,
    p1: Seq<char>,
    p2: Seq<char>,
    p3: Seq<char>,
    p4: Seq<char>,
    p5: Seq<char>,
    p6: Seq<char>,
    p7: Seq<char>,
    p8: Seq<char>,
    p9: Seq<char>,
    p10: Seq<char>,
)
    ensures
        p0 + p1 + p2 + p3 + p4 + p5 + p6 + p7 + p8 + p9 + p10 == p0 + (p1 + (p2 + (p3 + (p4 + (p5 + (p6 + (p7
            + (p8 + (p9 + (p10)))))))))),
{
    assert(p0 + p1 + p2 + p3 + p4 + p5 + p6 + p7 + p8 + p9 + p10 =~= p0 + (p1 + (p2 + (p3 + (p4 + (p5 + (p6
        + (p7 + (p8 + (p9 + (p10)))))))))));
}

#[verifier::rlimit(40)]
proof fn lemma_regroup_fourteen(
    p0: Seq<char>,
    p1: Seq<char>,
    p2: Seq<char>,
    p3: Seq<char>,
    p4: Seq<char>,
    p5: Seq<char>,
    p6: Seq<char>,
    p7: Seq<char>,
    p8: Seq<char>,
    p9: Seq<char>,
    p10: Seq<char>,
    p11: Seq<char>,
    p12: Seq<char>,
    p13: Seq<char>,
)
    ensures
        p0 + p1 + p2 + p3 + p4 + p5 + p6 + p7 + p8 + p9 + p10 + p11 + p12 + p13 == p0 + (p1 + (p2 + (p3 + (p4
            + (p5 + (p6 + (p7 + (p8 + (p9 + (p10 + (p11 + (p12 + (p13))))))))))))),
{
    assert(p0 + p1 + p2 + p3 + p4 + p5 + p6 + p7 + p8 + p9 + p10 + p11 + p12 + p13 =~= p0 + (p1 + (p2 + (p3
        + (p4 + (p5 + (p6 + (p7 + (p8 + (p9 + (p10 + (p11 + (p12 + (p13))))))))))))));
}

/// A comma, a key and a colon.
#[verifier::opaque]
spec fn key_of(key: Seq<char>) -> Seq<char> {
    seq![','] + quoted(key) + seq![':']
}

proof fn lemma_next_text(key: Seq<char>, t: Seq<char>, rest: Seq<char>)
    ensures
        (key_of(key) + seq!['"']) + (report::json_escaped(t) + (seq!['"'] + rest)) == seq![','] + written_field(
            key,
            Json::Text(t),
            rest,
        ),
{
    reveal(key_of);
    reveal(written_field);
    reveal(written_value);
    reveal(quoted);
    assert((key_of(key) + seq!['"']) + (report::json_escaped(t) + (seq!['"'] + rest)) =~= seq![','] + written_field(
        key,
        Json::Text(t),
        rest,
    ));
}

proof fn lemma_next(key: Seq<char>, v: Json, rest: Seq<char>)
    ensures
        key_of(key) + (written_value(v) + rest) == seq![','] + written_field(key, v, rest),
{
    reveal(key_of);
    reveal(written_field);
    assert(key_of(key) + (written_value(v) + rest) =~= seq![','] + written_field(key, v, rest));
}

proof fn lemma_written_on(f: (Seq<char>, Json), more: Seq<(Seq<char>, Json)>)
    requires
        more.len() > 0,
    ensures
        written(seq![f] + more) == written_field(f.0, f.1, seq![','] + written(more)),
{
    reveal(written);
    assert((seq![f] + more).skip(1) =~= more);
}

proof fn lemma_assoc(a: Seq<char>, b: Seq<char>, c: Seq<char>)
    ensures
        (a + b) + c == a + (b + c),
{
    assert((a + b) + c =~= a + (b + c));
}

/// A line without its newline.
proof fn lemma_without_newline(s: Seq<char>)
    ensures
        (s + "}\n"@).drop_last() == s + seq!['}'],
        (s + "\"}\n"@).drop_last() == s + seq!['"'] + seq!['}'],
{
    reveal_strlit("}\n");
    reveal_strlit("\"}\n");
    assert((s + "}\n"@).drop_last() =~= s + seq!['}']);
    assert((s + "\"}\n"@).drop_last() =~= s + seq!['"'] + seq!['}']);
}

/// The first field, which is the type.
#[verifier::opaque]
spec fn type_of(t: Seq<char>) -> Seq<char> {
    seq!['{'] + quoted("type"@) + seq![':'] + quoted(t)
}

proof fn lemma_object(t: Seq<char>, more: Seq<(Seq<char>, Json)>)
    requires
        more.len() > 0,
    ensures
        read_object(type_of(t) + (seq![','] + written(more))) == Some(seq![("type"@, Json::Text(t))] + more),
{
    reveal(type_of);
    reveal(written_field);
    reveal(written_value);
    let f = ("type"@, Json::Text(t));
    let rest = seq![','] + written(more);
    let all = type_of(t) + rest;
    lemma_written_on(f, more);
    lemma_read_fields(seq![f] + more);
    lemma_object_text(quoted("type"@), quoted(t), rest);
    assert(all.skip(1) == written(seq![f] + more));
    assert(all[0] == '{');
}

proof fn lemma_object_text(q: Seq<char>, t: Seq<char>, rest: Seq<char>)
    ensures
        (seq!['{'] + q + seq![':'] + t + rest).skip(1) == q + seq![':'] + t + rest,
        (seq!['{'] + q + seq![':'] + t + rest)[0] == '{',
{
    assert((seq!['{'] + q + seq![':'] + t + rest).skip(1) =~= q + seq![':'] + t + rest);
}

/// The JSON of a match says what the match is: its path, number and text, and the lines
/// around it, each as a field of its own and in its own characters.
#[verifier::rlimit(40)]
pub proof fn law_json_match_reads_back(m: MatchView)
    ensures
        read_object(report::json_match(m).drop_last()) == Some(
            seq![
                ("type"@, Json::Text("match"@)),
                ("path"@, Json::Text(m.path)),
                ("line_number"@, Json::Number(m.line_number as nat)),
                ("line_text"@, Json::Text(m.line_text)),
                ("context_before"@, Json::Texts(m.context_before)),
                ("context_after"@, Json::Texts(m.context_after)),
            ],
        ),
{
    let f2 = ("path"@, Json::Text(m.path));
    let f3 = ("line_number"@, Json::Number(m.line_number as nat));
    let f4 = ("line_text"@, Json::Text(m.line_text));
    let f5 = ("context_before"@, Json::Texts(m.context_before));
    let f6 = ("context_after"@, Json::Texts(m.context_after));
    let s6 = seq![f6];
    let s5 = seq![f5] + s6;
    let s4 = seq![f4] + s5;
    let s3 = seq![f3] + s4;
    let s2 = seq![f2] + s3;
    let comma = seq![','];
    let brace = seq!['}'];
    let quote = seq!['"'];
    let path = report::json_escaped(m.path);
    let number = text::decimal(m.line_number as nat);
    let line = report::json_escaped(m.line_text);
    let before = report::json_array(m.context_before);
    let after = report::json_array(m.context_after);
    let l1 = "{\"type\":\"match\",\"path\":\""@;
    let l2 = "\",\"line_number\":"@;
    let l3 = ",\"line_text\":\""@;
    let l4 = "\",\"context_before\":"@;
    let l5 = ",\"context_after\":"@;
    let all = report::json_match(m).drop_last();
    reveal(written_value);
    lemma_without_newline(l1 + path + l2 + number + l3 + line + l4 + before + l5 + after);
    lemma_regroup_eleven(l1, path, l2, number, l3, line, l4, before, l5, after, brace);
    lemma_match_literals();
    lemma_written_last(f6);
    lemma_next(f6.0, f6.1, brace);
    let t6 = comma + written(s6);
    lemma_written_on(f5, s6);
    lemma_next(f5.0, f5.1, t6);
    let t5 = comma + written(s5);
    lemma_assoc(quote, key_of(f5.0), before + t6);
    lemma_written_on(f4, s5);
    lemma_next_text(f4.0, m.line_text, t5);
    let t4 = comma + written(s4);
    lemma_written_on(f3, s4);
    lemma_next(f3.0, f3.1, t4);
    let t3 = comma + written(s3);
    lemma_assoc(quote, key_of(f3.0), number + t4);
    lemma_written_on(f2, s3);
    lemma_next_text(f2.0, m.path, t3);
    let t2 = comma + written(s2);
    lemma_assoc(type_of("match"@), key_of(f2.0) + quote, path + (quote + t3));
    lemma_object("match"@, s2);
    lemma_six(("type"@, Json::Text("match"@)), f2, f3, f4, f5, f6);
}

proof fn lemma_six<T>(a: T, b: T, c: T, d: T, e: T, f: T)
    ensures
        seq![a] + (seq![b] + (seq![c] + (seq![d] + (seq![e] + seq![f])))) == seq![a, b, c, d, e, f],
{
    assert(seq![a] + (seq![b] + (seq![c] + (seq![d] + (seq![e] + seq![f])))) =~= seq![a, b, c, d, e, f]);
}

proof fn lemma_written_last(f: (Seq<char>, Json))
    ensures
        written(seq![f]) == written_field(f.0, f.1, seq!['}']),
{
    reveal(written);
}

#[verifier::rlimit(40)]
proof fn lemma_match_literals()
    ensures
        "{\"type\":\"match\",\"path\":\""@ == type_of("match"@) + (key_of("path"@) + seq!['"']),
        "\",\"line_number\":"@ == seq!['"'] + key_of("line_number"@),
        ",\"line_text\":\""@ == key_of("line_text"@) + seq!['"'],
        "\",\"context_before\":"@ == seq!['"'] + key_of("context_before"@),
        ",\"context_after\":"@ == key_of("context_after"@),
{
    reveal(type_of);
    reveal(key_of);
    reveal_strlit("type");
    reveal_strlit("match");
    reveal_strlit("path");
    reveal_strlit("line_number");
    reveal_strlit("line_text");
    reveal_strlit("context_before");
    reveal_strlit("context_after");
    lemma_unescaped("type"@);
    lemma_unescaped("match"@);
    lemma_unescaped("path"@);
    lemma_unescaped("line_number"@);
    lemma_unescaped("line_text"@);
    lemma_unescaped("context_before"@);
    lemma_unescaped("context_after"@);
    reveal_strlit("{\"type\":\"match\",\"path\":\"");
    reveal_strlit("\",\"line_number\":");
    reveal_strlit(",\"line_text\":\"");
    reveal_strlit("\",\"context_before\":");
    reveal_strlit(",\"context_after\":");
    assert("{\"type\":\"match\",\"path\":\""@ =~= type_of("match"@) + (key_of("path"@) + seq!['"']));
    assert("\",\"line_number\":"@ =~= seq!['"'] + key_of("line_number"@));
    assert(",\"line_text\":\""@ =~= key_of("line_text"@) + seq!['"']);
    assert("\",\"context_before\":"@ =~= seq!['"'] + key_of("context_before"@));
    assert(",\"context_after\":"@ =~= key_of("context_after"@));
}

proof fn lemma_seven<T>(a: T, b: T, c: T, d: T, e: T, f: T, g: T)
    ensures
        seq![a] + (seq![b] + (seq![c] + (seq![d] + (seq![e] + (seq![f] + (seq![g])))))) == seq![a, b, c, d, e, f, g],
{
    assert(seq![a] + (seq![b] + (seq![c] + (seq![d] + (seq![e] + (seq![f] + (seq![g])))))) =~= seq![a, b, c, d, e, f, g]);
}

proof fn lemma_five<T>(a: T, b: T, c: T, d: T, e: T)
    ensures
        seq![a] + (seq![b] + (seq![c] + (seq![d] + (seq![e])))) == seq![a, b, c, d, e],
{
    assert(seq![a] + (seq![b] + (seq![c] + (seq![d] + (seq![e])))) =~= seq![a, b, c, d, e]);
}

/// The JSON that sums a search up says each of its numbers, and the mode, in a field of
/// its own.
#[verifier::rlimit(40)]
pub proof fn law_json_summary_reads_back(
    match_count: nat,
    file_count: nat,
    files_searched: nat,
    total_files: nat,
    duration_ms: nat,
    mode: Seq<char>,
)
    ensures
        read_object(report::json_summary(match_count, file_count, files_searched, total_files, duration_ms,
            mode).drop_last()) == Some(
            seq![
                ("type"@, Json::Text("summary"@)),
                ("match_count"@, Json::Number(match_count)),
                ("file_count"@, Json::Number(file_count)),
                ("files_searched"@, Json::Number(files_searched)),
                ("total_files"@, Json::Number(total_files)),
                ("duration_ms"@, Json::Number(duration_ms)),
                ("mode"@, Json::Text(mode)),
            ],
        ),
{
    let f2 = ("match_count"@, Json::Number(match_count));
    let f3 = ("file_count"@, Json::Number(file_count));
    let f4 = ("files_searched"@, Json::Number(files_searched));
    let f5 = ("total_files"@, Json::Number(total_files));
    let f6 = ("duration_ms"@, Json::Number(duration_ms));
    let f7 = ("mode"@, Json::Text(mode));
    let s7 = seq![f7];
    let s6 = seq![f6] + s7;
    let s5 = seq![f5] + s6;
    let s4 = seq![f4] + s5;
    let s3 = seq![f3] + s4;
    let s2 = seq![f2] + s3;
    let comma = seq![','];
    let brace = seq!['}'];
    let quote = seq!['"'];
    let l1 = "{\"type\":\"summary\",\"match_count\":"@;
    let v1 = text::decimal(match_count);
    let l2 = ",\"file_count\":"@;
    let v2 = text::decimal(file_count);
    let l3 = ",\"files_searched\":"@;
    let v3 = text::decimal(files_searched);
    let l4 = ",\"total_files\":"@;
    let v4 = text::decimal(total_files);
    let l5 = ",\"duration_ms\":"@;
    let v5 = text::decimal(duration_ms);
    let l6 = ",\"mode\":\""@;
    let v6 = report::json_escaped(mode);
    reveal(written_value);
    lemma_without_newline(l1 + v1 + l2 + v2 + l3 + v3 + l4 + v4 + l5 + v5 + l6 + v6);
    lemma_regroup_fourteen(l1, v1, l2, v2, l3, v3, l4, v4, l5, v5, l6, v6, quote, brace);
    lemma_summary_literals();
    lemma_written_last(f7);
    lemma_next_text(f7.0, mode, brace);
    let t7 = comma + written(s7);
    lemma_written_on(f6, s7);
    lemma_next(f6.0, f6.1, t7);
    let t6 = comma + written(s6);
    lemma_written_on(f5, s6);
    lemma_next(f5.0, f5.1, t6);
    let t5 = comma + written(s5);
    lemma_written_on(f4, s5);
    lemma_next(f4.0, f4.1, t5);
    let t4 = comma + written(s4);
    lemma_written_on(f3, s4);
    lemma_next(f3.0, f3.1, t4);
    let t3 = comma + written(s3);
    lemma_written_on(f2, s3);
    lemma_next(f2.0, f2.1, t3);
    lemma_assoc(type_of("summary"@), key_of(f2.0), v1 + t3);
    let t2 = comma + written(s2);
    lemma_object("summary"@, s2);
    lemma_seven(("type"@, Json::Text("summary"@)), f2, f3, f4, f5, f6, f7);
}

#[verifier::rlimit(40)]
proof fn lemma_summary_literals()
    ensures
        "{\"type\":\"summary\",\"match_count\":"@ == type_of("summary"@) + key_of("match_count"@),
        ",\"file_count\":"@ == key_of("file_count"@),
        ",\"files_searched\":"@ == key_of("files_searched"@),
        ",\"total_files\":"@ == key_of("total_files"@),
        ",\"duration_ms\":"@ == key_of("duration_ms"@),
        ",\"mode\":\""@ == key_of("mode"@) + seq!['"'],
{
    reveal(type_of);
    reveal(key_of);
    reveal_strlit("type");
    reveal_strlit("summary");
    reveal_strlit("match_count");
    reveal_strlit("file_count");
    reveal_strlit("files_searched");
    reveal_strlit("total_files");
    reveal_strlit("duration_ms");
    reveal_strlit("mode");
    lemma_unescaped("type"@);
    lemma_unescaped("summary"@);
    lemma_unescaped("match_count"@);
    lemma_unescaped("file_count"@);
    lemma_unescaped("files_searched"@);
    lemma_unescaped("total_files"@);
    lemma_unescaped("duration_ms"@);
    lemma_unescaped("mode"@);
    reveal_strlit("{\"type\":\"summary\",\"match_count\":");
    reveal_strlit(",\"file_count\":");
    reveal_strlit(",\"files_searched\":");
    reveal_strlit(",\"total_files\":");
    reveal_strlit(",\"duration_ms\":");
    reveal_strlit(",\"mode\":\"");
    assert("{\"type\":\"summary\",\"match_count\":"@ =~= type_of("summary"@) + key_of("match_count"@));
    assert(",\"file_count\":"@ =~= key_of("file_count"@));
    assert(",\"files_searched\":"@ =~= key_of("files_searched"@));
    assert(",\"total_files\":"@ =~= key_of("total_files"@));
    assert(",\"duration_ms\":"@ =~= key_of("duration_ms"@));
    assert(",\"mode\":\""@ =~= key_of("mode"@) + seq!['"']);
}

/// The JSON that tells what indexing did says each of its numbers and texts in a field of
/// its own.
#[verifier::rlimit(40)]
pub proof fn law_json_index_reads_back(
    file_count: nat,
    ngram_count: nat,
    duration_ms: nat,
    index_size: Seq<char>,
    mode: Seq<char>,
    max_file_size: Seq<char>,
)
    ensures
        read_object(report::json_index(file_count, ngram_count, duration_ms, index_size, mode,
            max_file_size).drop_last()) == Some(
            seq![
                ("type"@, Json::Text("index"@)),
                ("file_count"@, Json::Number(file_count)),
                ("ngram_count"@, Json::Number(ngram_count)),
                ("duration_ms"@, Json::Number(duration_ms)),
                ("index_size"@, Json::Text(index_size)),
                ("mode"@, Json::Text(mode)),
                ("max_file_size"@, Json::Text(max_file_size)),
            ],
        ),
{
    let f2 = ("file_count"@, Json::Number(file_count));
    let f3 = ("ngram_count"@, Json::Number(ngram_count));
    let f4 = ("duration_ms"@, Json::Number(duration_ms));
    let f5 = ("index_size"@, Json::Text(index_size));
    let f6 = ("mode"@, Json::Text(mode));
    let f7 = ("max_file_size"@, Json::Text(max_file_size));
    let s7 = seq![f7];
    let s6 = seq![f6] + s7;
    let s5 = seq![f5] + s6;
    let s4 = seq![f4] + s5;
    let s3 = seq![f3] + s4;
    let s2 = seq![f2] + s3;
    let comma = seq![','];
    let brace = seq!['}'];
    let quote = seq!['"'];
    let l1 = "{\"type\":\"index\",\"file_count\":"@;
    let v1 = text::decimal(file_count);
    let l2 = ",\"ngram_count\":"@;
    let v2 = text::decimal(ngram_count);
    let l3 = ",\"duration_ms\":"@;
    let v3 = text::decimal(duration_ms);
    let l4 = ",\"index_size\":\""@;
    let v4 = report::json_escaped(index_size);
    let l5 = "\",\"mode\":\""@;
    let v5 = report::json_escaped(mode);
    let l6 = "\",\"max_file_size\":\""@;
    let v6 = report::json_escaped(max_file_size);
    reveal(written_value);
    lemma_without_newline(l1 + v1 + l2 + v2 + l3 + v3 + l4 + v4 + l5 + v5 + l6 + v6);
    lemma_regroup_fourteen(l1, v1, l2, v2, l3, v3, l4, v4, l5, v5, l6, v6, quote, brace);
    lemma_index_literals();
    lemma_written_last(f7);
    lemma_next_text(f7.0, max_file_size, brace);
    lemma_assoc(quote, key_of(f7.0) + quote, v6 + (quote + brace));
    let t7 = comma + written(s7);
    lemma_written_on(f6, s7);
    lemma_next_text(f6.0, mode, t7);
    lemma_assoc(quote, key_of(f6.0) + quote, v5 + (quote + t7));
    let t6 = comma + written(s6);
    lemma_written_on(f5, s6);
    lemma_next_text(f5.0, index_size, t6);
    let t5 = comma + written(s5);
    lemma_written_on(f4, s5);
    lemma_next(f4.0, f4.1, t5);
    let t4 = comma + written(s4);
    lemma_written_on(f3, s4);
    lemma_next(f3.0, f3.1, t4);
    let t3 = comma + written(s3);
    lemma_written_on(f2, s3);
    lemma_next(f2.0, f2.1, t3);
    lemma_assoc(type_of("index"@), key_of(f2.0), v1 + t3);
    let t2 = comma + written(s2);
    lemma_object("index"@, s2);
    lemma_seven(("type"@, Json::Text("index"@)), f2, f3, f4, f5, f6, f7);
}

#[verifier::rlimit(40)]
proof fn lemma_index_literals()
    ensures
        "{\"type\":\"index\",\"file_count\":"@ == type_of("index"@) + key_of("file_count"@),
        ",\"ngram_count\":"@ == key_of("ngram_count"@),
        ",\"duration_ms\":"@ == key_of("duration_ms"@),
        ",\"index_size\":\""@ == key_of("index_size"@) + seq!['"'],
        "\",\"mode\":\""@ == seq!['"'] + (key_of("mode"@) + seq!['"']),
        "\",\"max_file_size\":\""@ == seq!['"'] + (key_of("max_file_size"@) + seq!['"']),
{
    reveal(type_of);
    reveal(key_of);
    reveal_strlit("type");
    reveal_strlit("index");
    reveal_strlit("file_count");
    reveal_strlit("ngram_count");
    reveal_strlit("duration_ms");
    reveal_strlit("index_size");
    reveal_strlit("mode");
    reveal_strlit("max_file_size");
    lemma_unescaped("type"@);
    lemma_unescaped("index"@);
    lemma_unescaped("file_count"@);
    lemma_unescaped("ngram_count"@);
    lemma_unescaped("duration_ms"@);
    lemma_unescaped("index_size"@);
    lemma_unescaped("mode"@);
    lemma_unescaped("max_file_size"@);
    reveal_strlit("{\"type\":\"index\",\"file_count\":");
    reveal_strlit(",\"ngram_count\":");
    reveal_strlit(",\"duration_ms\":");
    reveal_strlit(",\"index_size\":\"");
    reveal_strlit("\",\"mode\":\"");
    reveal_strlit("\",\"max_file_size\":\"");
    assert("{\"type\":\"index\",\"file_count\":"@ =~= type_of("index"@) + key_of("file_count"@));
    assert(",\"ngram_count\":"@ =~= key_of("ngram_count"@));
    assert(",\"duration_ms\":"@ =~= key_of("duration_ms"@));
    assert(",\"index_size\":\""@ =~= key_of("index_size"@) + seq!['"']);
    assert("\",\"mode\":\""@ =~= seq!['"'] + (key_of("mode"@) + seq!['"']));
    assert("\",\"max_file_size\":\""@ =~= seq!['"'] + (key_of("max_file_size"@) + seq!['"']));
}

/// The JSON that tells the status of an index, for a word in which nothing is escaped.
#[verifier::rlimit(40)]
proof fn lemma_json_status(
    indexed_files: nat,
    ngram_count: nat,
    word: Seq<char>,
    changes: nat,
)
    requires
        unescaped(word),
    ensures
        read_object(report::json_status(indexed_files, ngram_count, word, changes).drop_last()) == Some(
            seq![
                ("type"@, Json::Text("status"@)),
                ("indexed_files"@, Json::Number(indexed_files)),
                ("ngram_count"@, Json::Number(ngram_count)),
                ("freshness"@, Json::Text(word)),
                ("changes"@, Json::Number(changes)),
            ],
        ),
{
    let f2 = ("indexed_files"@, Json::Number(indexed_files));
    let f3 = ("ngram_count"@, Json::Number(ngram_count));
    let f4 = ("freshness"@, Json::Text(word));
    let f5 = ("changes"@, Json::Number(changes));
    let s5 = seq![f5];
    let s4 = seq![f4] + s5;
    let s3 = seq![f3] + s4;
    let s2 = seq![f2] + s3;
    let comma = seq![','];
    let brace = seq!['}'];
    let quote = seq!['"'];
    let l1 = "{\"type\":\"status\",\"indexed_files\":"@;
    let v1 = text::decimal(indexed_files);
    let l2 = ",\"ngram_count\":"@;
    let v2 = text::decimal(ngram_count);
    let l3 = ",\"freshness\":\""@;
    let v3 = report::json_escaped(word);
    let l4 = "\",\"changes\":"@;
    let v4 = text::decimal(changes);
    lemma_unescaped(word);
    reveal(written_value);
    lemma_without_newline(l1 + v1 + l2 + v2 + l3 + v3 + l4 + v4);
    lemma_regroup_nine(l1, v1, l2, v2, l3, v3, l4, v4, brace);
    lemma_status_literals();
    lemma_written_last(f5);
    lemma_next(f5.0, f5.1, brace);
    lemma_assoc(quote, key_of(f5.0), v4 + brace);
    let t5 = comma + written(s5);
    lemma_written_on(f4, s5);
    lemma_next_text(f4.0, word, t5);
    let t4 = comma + written(s4);
    lemma_written_on(f3, s4);
    lemma_next(f3.0, f3.1, t4);
    let t3 = comma + written(s3);
    lemma_written_on(f2, s3);
    lemma_next(f2.0, f2.1, t3);
    lemma_assoc(type_of("status"@), key_of(f2.0), v1 + t3);
    let t2 = comma + written(s2);
    lemma_object("status"@, s2);
    lemma_five(("type"@, Json::Text("status"@)), f2, f3, f4, f5);
}

#[verifier::rlimit(40)]
proof fn lemma_status_literals()
    ensures
        "{\"type\":\"status\",\"indexed_files\":"@ == type_of("status"@) + key_of("indexed_files"@),
        ",\"ngram_count\":"@ == key_of("ngram_count"@),
        ",\"freshness\":\""@ == key_of("freshness"@) + seq!['"'],
        "\",\"changes\":"@ == seq!['"'] + key_of("changes"@),
{
    reveal(type_of);
    reveal(key_of);
    reveal_strlit("type");
    reveal_strlit("status");
    reveal_strlit("indexed_files");
    reveal_strlit("ngram_count");
    reveal_strlit("freshness");
    reveal_strlit("changes");
    lemma_unescaped("type"@);
    lemma_unescaped("status"@);
    lemma_unescaped("indexed_files"@);
    lemma_unescaped("ngram_count"@);
    lemma_unescaped("freshness"@);
    lemma_unescaped("changes"@);
    reveal_strlit("{\"type\":\"status\",\"indexed_files\":");
    reveal_strlit(",\"ngram_count\":");
    reveal_strlit(",\"freshness\":\"");
    reveal_strlit("\",\"changes\":");
    assert("{\"type\":\"status\",\"indexed_files\":"@ =~= type_of("status"@) + key_of("indexed_files"@));
    assert(",\"ngram_count\":"@ =~= key_of("ngram_count"@));
    assert(",\"freshness\":\""@ =~= key_of("freshness"@) + seq!['"']);
    assert("\",\"changes\":"@ =~= seq!['"'] + key_of("changes"@));
}

/// The JSON that tells the status of an index says each of its numbers in a field of its
/// own, and the freshness by a word: none, unknown, fresh or stale. There are changes
/// where it is stale.
#[verifier::rlimit(40)]
pub proof fn law_json_status_reads_back(indexed_files: nat, ngram_count: nat, freshness: Freshness)
    ensures
        read_object(
            report::json_status(indexed_files, ngram_count, freshness.word(), freshness.changes()).drop_last(),
        ) == Some(
            seq![
                ("type"@, Json::Text("status"@)),
                ("indexed_files"@, Json::Number(indexed_files)),
                ("ngram_count"@, Json::Number(ngram_count)),
                (
                    "freshness"@,
                    Json::Text(
                        match freshness {
                            Freshness::Missing => "none"@,
                            Freshness::Unknown => "unknown"@,
                            Freshness::Fresh => "fresh"@,
                            Freshness::Stale { .. } => "stale"@,
                        },
                    ),
                ),
                (
                    "changes"@,
                    Json::Number(
                        match freshness {
                            Freshness::Stale { changes } => changes as nat,
                            _ => 0,
                        },
                    ),
                ),
            ],
        ),
{
    lemma_word(freshness);
    lemma_json_status(indexed_files, ngram_count, freshness.word(), freshness.changes());
}

proof fn lemma_word(freshness: Freshness)
    ensures
        unescaped(freshness.word()),
{
    reveal_strlit("none");
    reveal_strlit("unknown");
    reveal_strlit("fresh");
    reveal_strlit("stale");
}

/// A JSON array of strings says each of them, in its own characters.
pub proof fn law_json_array_reads_back(items: Seq<Seq<char>>, rest: Seq<char>)
    ensures
        read_array(report::json_array(items) + rest) == Some((items, rest)),
{
    lemma_read_array(items, rest);
}

} // verus!
