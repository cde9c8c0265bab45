//! What a terminal shows of rendered results: the characters, and the color of each.

use crate::matching;
use crate::render;
use crate::scan::MatchView;
use crate::text;
use vstd::prelude::*;
use vstd::utf8::*;

verus! {

// ---------------------------------------------------------------------------
// Terminals
// ---------------------------------------------------------------------------

/// What a terminal shows of a text: each character with the style that the last escape
/// before it set, which is none after a reset. An escape reaches from the escape character
/// to the next `m`, and its style is what stands between the bracket and that.
pub open spec fn shown(s: Seq<char>, style: Seq<char>) -> Seq<(char, Seq<char>)>
    decreases s.len(),
{
    if s.len() == 0 {
        Seq::empty()
    } else if s[0] == '\x1b' {
        let end = text::position(s, 'm') as int;
        if end < 2 || end >= s.len() {
            Seq::empty()
        } else {
            let code = s.subrange(2, end);
            shown(
                s.skip(end + 1),
                if code == "0"@ {
                    Seq::empty()
                } else {
                    code
                },
            )
        }
    } else {
        seq![(s[0], style)] + shown(s.drop_first(), style)
    }
}

/// The characters without their styles.
pub open spec fn letters(s: Seq<(char, Seq<char>)>) -> Seq<char> {
    s.map_values(|p: (char, Seq<char>)| p.0)
}

/// A text with its ANSI escapes taken out.
pub open spec fn stripped(s: Seq<char>) -> Seq<char> {
    letters(shown(s, Seq::empty()))
}

/// A text all in one style.
pub open spec fn painted(s: Seq<char>, style: Seq<char>) -> Seq<(char, Seq<char>)> {
    s.map_values(|c: char| (c, style))
}

/// Whether no escape character stands in a text.
pub open spec fn unescaping(s: Seq<char>) -> bool {
    !s.contains('\x1b')
}

proof fn lemma_plain(p: Seq<char>, rest: Seq<char>, style: Seq<char>)
    requires
        unescaping(p),
    ensures
        shown(p + rest, style) == painted(p, style) + shown(rest, style),
    decreases p.len(),
{
    if p.len() == 0 {
        assert(p + rest =~= rest);
        assert(painted(p, style) + shown(rest, style) =~= shown(rest, style));
    } else {
        let q = p.drop_first();
        assert(p.contains(p[0]));
        assert(unescaping(q)) by {
            if q.contains('\x1b') {
                let k = choose|k: int| 0 <= k < q.len() && q[k] == '\x1b';
                assert(p[k + 1] == '\x1b');
            }
        }
        lemma_plain(q, rest, style);
        assert((p + rest).drop_first() =~= q + rest);
        assert(seq![(p[0], style)] + (painted(q, style) + shown(rest, style)) =~= painted(p, style) + shown(
            rest,
            style,
        ));
    }
}

proof fn lemma_escape(e: Seq<char>, rest: Seq<char>, style: Seq<char>)
    requires
        e.len() >= 3,
        e[0] == '\x1b',
        e[e.len() - 1] == 'm',
        forall|k: int| 0 <= k < e.len() - 1 ==> e[k] != 'm',
    ensures
        shown(e + rest, style) == shown(
            rest,
            if e.subrange(2, e.len() - 1) == "0"@ {
                Seq::empty()
            } else {
                e.subrange(2, e.len() - 1)
            },
        ),
{
    let s = e + rest;
    let end = e.len() - 1;
    text::lemma_position(s, 'm', end);
    assert(s.subrange(2, end) =~= e.subrange(2, end));
    assert(s.skip(end + 1) =~= rest);
}

/// What the escapes of rendered results set.
proof fn lemma_escapes(rest: Seq<char>, style: Seq<char>)
    ensures
        shown(render::MAGENTA_BOLD@ + rest, style) == shown(rest, "1;35"@),
        shown(render::GREEN@ + rest, style) == shown(rest, "32"@),
        shown(render::CYAN@ + rest, style) == shown(rest, "36"@),
        shown(render::RED_BOLD@ + rest, style) == shown(rest, "1;31"@),
        shown(render::RESET@ + rest, style) == shown(rest, Seq::empty()),
{
    reveal_strlit("\x1b[1;35m");
    reveal_strlit("\x1b[32m");
    reveal_strlit("\x1b[36m");
    reveal_strlit("\x1b[1;31m");
    reveal_strlit("\x1b[0m");
    reveal_strlit("1;35");
    reveal_strlit("32");
    reveal_strlit("36");
    reveal_strlit("1;31");
    reveal_strlit("0");
    let (m, g, c, r, z) = (
        render::MAGENTA_BOLD@,
        render::GREEN@,
        render::CYAN@,
        render::RED_BOLD@,
        render::RESET@,
    );
    lemma_escape(m, rest, style);
    lemma_escape(g, rest, style);
    lemma_escape(c, rest, style);
    lemma_escape(r, rest, style);
    lemma_escape(z, rest, style);
    assert(m.subrange(2, m.len() - 1) =~= "1;35"@);
    assert(g.subrange(2, g.len() - 1) =~= "32"@);
    assert(c.subrange(2, c.len() - 1) =~= "36"@);
    assert(r.subrange(2, r.len() - 1) =~= "1;31"@);
    assert(z.subrange(2, z.len() - 1) =~= "0"@);
    assert("1;35"@.len() == 4 && "1;31"@.len() == 4 && "32"@.len() == 2 && "36"@.len() == 2 && "0"@.len() == 1);
}

/// Whether a text leaves the style as it was: what follows it is shown as without it.
spec fn closed(s: Seq<char>) -> bool {
    forall|rest: Seq<char>|
        #[trigger] shown(s + rest, Seq::empty()) == shown(s, Seq::empty()) + shown(rest, Seq::empty())
}

proof fn lemma_closed_sum(a: Seq<char>, b: Seq<char>)
    requires
        closed(a),
        closed(b),
    ensures
        closed(a + b),
        shown(a + b, Seq::empty()) == shown(a, Seq::empty()) + shown(b, Seq::empty()),
{
    let none = Seq::<char>::empty();
    assert(shown(a + b, none) == shown(a, none) + shown(b, none));
    assert forall|rest: Seq<char>| #[trigger] shown(a + b + rest, none) == shown(a + b, none) + shown(rest, none) by {
        assert(a + b + rest =~= a + (b + rest));
        assert(shown(a + (b + rest), none) == shown(a, none) + shown(b + rest, none));
        assert(shown(a, none) + (shown(b, none) + shown(rest, none)) =~= shown(a, none) + shown(b, none) + shown(
            rest,
            none,
        ));
    }
}

proof fn lemma_closed_plain(p: Seq<char>)
    requires
        unescaping(p),
    ensures
        closed(p),
        shown(p, Seq::empty()) == painted(p, Seq::empty()),
{
    let none = Seq::<char>::empty();
    lemma_plain(p, none, none);
    assert(p + none =~= p);
    assert(painted(p, none) + shown(none, none) =~= painted(p, none));
    assert forall|rest: Seq<char>| #[trigger] shown(p + rest, none) == shown(p, none) + shown(rest, none) by {
        lemma_plain(p, rest, none);
    }
}

/// A text between an escape that sets a style and a reset is shown in that style.
proof fn lemma_closed_colored(escape: Seq<char>, p: Seq<char>, style: Seq<char>)
    requires
        unescaping(p),
        forall|rest: Seq<char>| #[trigger] shown(escape + rest, Seq::empty()) == shown(rest, style),
    ensures
        closed(escape + p + render::RESET@),
        shown(escape + p + render::RESET@, Seq::empty()) == painted(p, style),
{
    let none = Seq::<char>::empty();
    let s = escape + p + render::RESET@;
    assert forall|rest: Seq<char>| #[trigger] shown(s + rest, none) == painted(p, style) + shown(rest, none) by {
        let t = render::RESET@ + rest;
        assert(s + rest =~= escape + (p + t));
        assert(shown(escape + (p + t), none) == shown(p + t, style));
        lemma_plain(p, t, style);
        lemma_escapes(rest, style);
    }
    assert(s + none =~= s);
    assert(shown(s + none, none) == painted(p, style) + shown(none, none));
    assert(painted(p, style) + shown(none, none) =~= painted(p, style));
}

proof fn lemma_colored(p: Seq<char>)
    requires
        unescaping(p),
    ensures
        closed(render::MAGENTA_BOLD@ + p + render::RESET@),
        closed(render::GREEN@ + p + render::RESET@),
        closed(render::CYAN@ + p + render::RESET@),
        closed(render::RED_BOLD@ + p + render::RESET@),
        shown(render::MAGENTA_BOLD@ + p + render::RESET@, Seq::empty()) == painted(p, "1;35"@),
        shown(render::GREEN@ + p + render::RESET@, Seq::empty()) == painted(p, "32"@),
        shown(render::CYAN@ + p + render::RESET@, Seq::empty()) == painted(p, "36"@),
        shown(render::RED_BOLD@ + p + render::RESET@, Seq::empty()) == painted(p, "1;31"@),
{
    let none = Seq::<char>::empty();
    assert forall|rest: Seq<char>| #[trigger] shown(render::MAGENTA_BOLD@ + rest, none) == shown(rest, "1;35"@) by {
        lemma_escapes(rest, none);
    }
    assert forall|rest: Seq<char>| #[trigger] shown(render::GREEN@ + rest, none) == shown(rest, "32"@) by {
        lemma_escapes(rest, none);
    }
    assert forall|rest: Seq<char>| #[trigger] shown(render::CYAN@ + rest, none) == shown(rest, "36"@) by {
        lemma_escapes(rest, none);
    }
    assert forall|rest: Seq<char>| #[trigger] shown(render::RED_BOLD@ + rest, none) == shown(rest, "1;31"@) by {
        lemma_escapes(rest, none);
    }
    lemma_closed_colored(render::MAGENTA_BOLD@, p, "1;35"@);
    lemma_closed_colored(render::GREEN@, p, "32"@);
    lemma_closed_colored(render::CYAN@, p, "36"@);
    lemma_closed_colored(render::RED_BOLD@, p, "1;31"@);
}

proof fn lemma_letters(a: Seq<(char, Seq<char>)>, b: Seq<(char, Seq<char>)>)
    ensures
        letters(a + b) == letters(a) + letters(b),
{
    assert(letters(a + b) =~= letters(a) + letters(b));
}

proof fn lemma_letters_painted(s: Seq<char>, style: Seq<char>)
    ensures
        letters(painted(s, style)) == s,
{
    assert(letters(painted(s, style)) =~= s);
}

proof fn lemma_signs()
    ensures
        unescaping("-"@),
        unescaping(":"@),
        unescaping("\n"@),
        unescaping("--\n"@),
{
    reveal_strlit("-");
    reveal_strlit(":");
    reveal_strlit("\n");
    reveal_strlit("--\n");
}

proof fn lemma_digits(n: nat)
    ensures
        unescaping(text::decimal(n)),
{
    let d = text::decimal(n);
    text::lemma_decimal_digits(n);
    if d.contains('\x1b') {
        let k = choose|k: int| 0 <= k < d.len() && d[k] == '\x1b';
        assert(text::is_digit(d[k]));
    }
}

// ---------------------------------------------------------------------------
// Context lines
// ---------------------------------------------------------------------------

/// What is shown of a context line: the path in bold magenta, the number in green, the
/// dashes in cyan, and the text as it is.
pub open spec fn painted_context(path: Seq<char>, number: nat, line: Seq<char>) -> Seq<(char, Seq<char>)> {
    painted(path, "1;35"@) + painted("-"@, "36"@) + painted(text::decimal(number), "32"@) + painted("-"@, "36"@)
        + painted(line, Seq::empty()) + painted("\n"@, Seq::empty())
}

proof fn lemma_context_line(path: Seq<char>, number: nat, line: Seq<char>)
    requires
        unescaping(path),
        unescaping(line),
    ensures
        closed(render::context_line(path, number, line, true)),
        shown(render::context_line(path, number, line, true), Seq::empty()) == painted_context(path, number, line),
{
    let d = text::decimal(number);
    let z = render::RESET@;
    lemma_signs();
    lemma_digits(number);
    lemma_colored(path);
    lemma_colored("-"@);
    lemma_colored(d);
    lemma_closed_plain(line);
    lemma_closed_plain("\n"@);
    let p = render::MAGENTA_BOLD@ + path + z;
    let dash = render::CYAN@ + "-"@ + z;
    let n = render::GREEN@ + d + z;
    lemma_closed_sum(p, dash);
    lemma_closed_sum(p + dash, n);
    lemma_closed_sum(p + dash + n, dash);
    lemma_closed_sum(p + dash + n + dash, line);
    lemma_closed_sum(p + dash + n + dash + line, "\n"@);
    lemma_context_line_parts(path, number, line);
}

#[verifier::rlimit(40)]
proof fn lemma_context_line_parts(path: Seq<char>, number: nat, line: Seq<char>)
    ensures
        render::context_line(path, number, line, true) == (render::MAGENTA_BOLD@ + path + render::RESET@) + (
        render::CYAN@ + "-"@ + render::RESET@) + (render::GREEN@ + text::decimal(number) + render::RESET@) + (
        render::CYAN@ + "-"@ + render::RESET@) + line + "\n"@,
{
    assert(render::context_line(path, number, line, true) =~= (render::MAGENTA_BOLD@ + path + render::RESET@) + (
    render::CYAN@ + "-"@ + render::RESET@) + (render::GREEN@ + text::decimal(number) + render::RESET@) + (
    render::CYAN@ + "-"@ + render::RESET@) + line + "\n"@);
}

proof fn lemma_context_letters(path: Seq<char>, number: nat, line: Seq<char>)
    ensures
        letters(painted_context(path, number, line)) == render::context_line(path, number, line, false),
{
    assert(letters(painted_context(path, number, line)) =~= render::context_line(path, number, line, false));
}

/// A context line in color shows the path in bold magenta, the number in green, the dashes
/// in cyan, and the whole text in no color.
pub proof fn law_context_line_in_color(path: Seq<char>, number: nat, line: Seq<char>)
    requires
        !path.contains('\x1b'),
        !line.contains('\x1b'),
    ensures
        shown(render::context_line(path, number, line, true), Seq::empty()) == painted(path, "1;35"@) + painted(
            "-"@,
            "36"@,
        ) + painted(text::decimal(number), "32"@) + painted("-"@, "36"@) + painted(line, Seq::empty()) + painted(
            "\n"@,
            Seq::empty(),
        ),
{
    lemma_context_line(path, number, line);
}

/// Whatever stands in a context line, its text stands whole behind what comes before it,
/// which does not depend on the text.
#[verifier::rlimit(40)]
pub proof fn law_context_line_ends_with_its_text(path: Seq<char>, number: nat, line: Seq<char>, color: bool)
    ensures
        render::context_line(path, number, line, color) == render::context_line(
            path,
            number,
            Seq::empty(),
            color,
        ).drop_last() + line + seq!['\n'],
{
    reveal_strlit("\n");
    assert("\n"@ =~= seq!['\n']);
    assert(render::context_line(path, number, line, color) =~= render::context_line(
        path,
        number,
        Seq::empty(),
        color,
    ).drop_last() + line + seq!['\n']);
}

/// Whether no escape character stands in lines.
pub open spec fn all_unescaping(lines: Seq<Seq<char>>) -> bool {
    forall|k: int| 0 <= k < lines.len() ==> unescaping(#[trigger] lines[k])
}

proof fn lemma_empty()
    ensures
        closed(Seq::empty()),
        stripped(Seq::empty()) == Seq::<char>::empty(),
{
    let none = Seq::<char>::empty();
    lemma_closed_plain(none);
    assert(stripped(none) =~= none);
}

proof fn lemma_stripped_sum(a: Seq<char>, b: Seq<char>)
    requires
        closed(a),
        closed(b),
    ensures
        closed(a + b),
        stripped(a + b) == stripped(a) + stripped(b),
{
    lemma_closed_sum(a, b);
    lemma_letters(shown(a, Seq::empty()), shown(b, Seq::empty()));
}

proof fn lemma_context_lines(path: Seq<char>, first: nat, lines: Seq<Seq<char>>, n: nat)
    requires
        n <= lines.len(),
        unescaping(path),
        all_unescaping(lines),
    ensures
        closed(render::context_lines(path, first, lines, true, n)),
        stripped(render::context_lines(path, first, lines, true, n)) == render::context_lines(
            path,
            first,
            lines,
            false,
            n,
        ),
    decreases n,
{
    if n == 0 {
        lemma_empty();
    } else {
        let number = (first + n - 1) as nat;
        let line = lines[n - 1];
        let earlier = render::context_lines(path, first, lines, true, (n - 1) as nat);
        lemma_context_lines(path, first, lines, (n - 1) as nat);
        lemma_context_line(path, number, line);
        lemma_context_letters(path, number, line);
        lemma_stripped_sum(earlier, render::context_line(path, number, line, true));
    }
}

// ---------------------------------------------------------------------------
// Highlighted lines
// ---------------------------------------------------------------------------

/// Whether a position in the encoding of a text lies in one of several spans.
pub open spec fn in_span(spans: Seq<(usize, usize)>, at: int) -> bool {
    exists|k: int| 0 <= k < spans.len() && (#[trigger] spans[k]).0 <= at < spans[k].1
}

/// A text with the characters that lie in spans in bold red.
pub open spec fn marked_red(s: Seq<char>, spans: Seq<(usize, usize)>) -> Seq<(char, Seq<char>)> {
    Seq::new(
        s.len(),
        |i: int|
            (
                s[i],
                if in_span(spans, encode_utf8(s.take(i)).len() as int) {
                    "1;31"@
                } else {
                    Seq::empty()
                },
            ),
    )
}

proof fn lemma_encode_sum(a: Seq<char>, b: Seq<char>)
    ensures
        encode_utf8(a + b) == encode_utf8(a) + encode_utf8(b),
    decreases a.len(),
{
    if a.len() == 0 {
        assert(a + b =~= b);
        assert(encode_utf8(a) + encode_utf8(b) =~= encode_utf8(b));
    } else {
        lemma_encode_sum(a.drop_first(), b);
        assert((a + b).drop_first() =~= a.drop_first() + b);
        assert(encode_utf8(a + b) =~= encode_utf8(a) + encode_utf8(b));
    }
}

/// Later characters stand later in the encoding.
proof fn lemma_offsets(s: Seq<char>, i: int, j: int)
    requires
        0 <= i <= j <= s.len(),
    ensures
        encode_utf8(s.take(i)).len() <= encode_utf8(s.take(j)).len(),
        i < j ==> encode_utf8(s.take(i)).len() < encode_utf8(s.take(j)).len(),
{
    lemma_encode_sum(s.take(i), s.subrange(i, j));
    assert(s.take(i) + s.subrange(i, j) =~= s.take(j));
}

/// The number of characters before a position in the encoding of a text.
spec fn chars_before(s: Seq<char>, at: int) -> int {
    render::byte_slice(s, 0, at).len() as int
}

proof fn lemma_cut(s: Seq<char>, at: int)
    requires
        0 <= at <= encode_utf8(s).len(),
        is_char_boundary(encode_utf8(s), at),
    ensures
        0 <= chars_before(s, at) <= s.len(),
        render::byte_slice(s, 0, at) == s.take(chars_before(s, at)),
        encode_utf8(s.take(chars_before(s, at))).len() == at,
{
    let bytes = encode_utf8(s);
    encode_utf8_valid_utf8(s);
    decode_utf8_split(bytes, at);
    encode_utf8_decode_utf8(s);
    valid_utf8_split(bytes, at);
    decode_utf8_encode_utf8(bytes.subrange(0, at));
    assert(render::byte_slice(s, 0, at) =~= s.take(chars_before(s, at)));
}

proof fn lemma_slice(s: Seq<char>, start: int, end: int)
    requires
        0 <= start <= end <= encode_utf8(s).len(),
        is_char_boundary(encode_utf8(s), start),
        is_char_boundary(encode_utf8(s), end),
    ensures
        0 <= chars_before(s, start) <= chars_before(s, end) <= s.len(),
        render::byte_slice(s, start, end) == s.subrange(chars_before(s, start), chars_before(s, end)),
{
    encode_utf8_valid_utf8(s);
    is_char_boundary_start_end_of_seq(encode_utf8(s));
    lemma_cut(s, start);
    lemma_cut(s, end);
    render::lemma_slices_join(s, 0, start, end);
    let a = render::byte_slice(s, 0, start);
    let b = render::byte_slice(s, start, end);
    assert(b =~= (a + b).skip(a.len() as int));
    assert(b =~= s.subrange(chars_before(s, start), chars_before(s, end)));
}

proof fn lemma_part_unescaping(s: Seq<char>, i: int, j: int)
    requires
        unescaping(s),
        0 <= i <= j <= s.len(),
    ensures
        unescaping(s.subrange(i, j)),
{
    let t = s.subrange(i, j);
    if t.contains('\x1b') {
        let k = choose|k: int| 0 <= k < t.len() && t[k] == '\x1b';
        assert(s[i + k] == '\x1b');
    }
}

/// Between the end of one span and the start of the next there is none.
proof fn lemma_between_spans(s: Seq<char>, spans: Seq<(usize, usize)>, k: int, at: int)
    requires
        matching::spans_fit(spans, s),
        0 <= k <= spans.len(),
        k > 0 ==> spans[k - 1].1 <= at,
        k < spans.len() ==> at < spans[k].0,
    ensures
        !in_span(spans, at),
{
    if in_span(spans, at) {
        let j = choose|j: int| 0 <= j < spans.len() && (#[trigger] spans[j]).0 <= at < spans[j].1;
        if j < k - 1 {
            assert(spans[j].1 <= spans[k - 1].0);
            assert(spans[k - 1].0 <= spans[k - 1].1);
        } else if j > k {
            assert(spans[k].1 <= spans[j].0);
            assert(spans[k].0 <= spans[k].1);
        }
    }
}

/// Behind the last span there is no color.
proof fn lemma_plain_stretch(s: Seq<char>, spans: Seq<(usize, usize)>, a: int)
    requires
        matching::spans_fit(spans, s),
        0 <= a <= s.len(),
        spans.len() > 0 ==> encode_utf8(s.take(a)).len() == spans.last().1,
    ensures
        painted(s.subrange(a, s.len() as int), Seq::empty()) == marked_red(s, spans).skip(a),
{
    let red = marked_red(s, spans);
    let none = Seq::<char>::empty();
    assert forall|i: int| a <= i < s.len() implies #[trigger] red[i] == (s[i], none) by {
        lemma_offsets(s, a, i);
        lemma_between_spans(s, spans, spans.len() as int, encode_utf8(s.take(i)).len() as int);
    }
    assert(painted(s.subrange(a, s.len() as int), none) =~= red.skip(a));
}

/// From the end of one span to the end of the next there is no color and then red.
proof fn lemma_red_stretch(s: Seq<char>, spans: Seq<(usize, usize)>, k: int, a: int, b: int, c: int)
    requires
        matching::spans_fit(spans, s),
        0 <= k < spans.len(),
        0 <= a <= b <= c <= s.len(),
        k > 0 ==> encode_utf8(s.take(a)).len() == spans[k - 1].1,
        encode_utf8(s.take(b)).len() == spans[k].0,
        encode_utf8(s.take(c)).len() == spans[k].1,
    ensures
        painted(s.subrange(a, b), Seq::empty()) + painted(s.subrange(b, c), "1;31"@) + marked_red(s, spans).skip(c)
            == marked_red(s, spans).skip(a),
{
    let red = marked_red(s, spans);
    let none = Seq::<char>::empty();
    assert forall|i: int| a <= i < b implies #[trigger] red[i] == (s[i], none) by {
        lemma_offsets(s, a, i);
        lemma_offsets(s, i, b);
        lemma_between_spans(s, spans, k, encode_utf8(s.take(i)).len() as int);
    }
    assert forall|i: int| b <= i < c implies #[trigger] red[i] == (s[i], "1;31"@) by {
        lemma_offsets(s, b, i);
        lemma_offsets(s, i, c);
        let at = encode_utf8(s.take(i)).len() as int;
        assert(spans[k].0 <= at < spans[k].1);
        assert(in_span(spans, at));
    }
    assert(painted(s.subrange(a, b), none) + painted(s.subrange(b, c), "1;31"@) + red.skip(c) =~= red.skip(a));
}

#[verifier::rlimit(40)]
proof fn lemma_wrapped(s: Seq<char>, spans: Seq<(usize, usize)>, k: int, from: int)
    requires
        unescaping(s),
        matching::spans_fit(spans, s),
        0 <= k <= spans.len(),
        0 <= from <= encode_utf8(s).len(),
        is_char_boundary(encode_utf8(s), from),
        from == (if k == 0 {
            0
        } else {
            spans[k - 1].1 as int
        }),
    ensures
        ({
            let w = render::wrapped_from(s, spans, render::RED_BOLD@, render::RESET@, k, from);
            &&& closed(w)
            &&& chars_before(s, from) <= s.len()
            &&& shown(w, Seq::empty()) == marked_red(s, spans).skip(chars_before(s, from))
        }),
    decreases spans.len() - k,
{
    let size = encode_utf8(s).len() as int;
    let red = marked_red(s, spans);
    let none = Seq::<char>::empty();
    let a = chars_before(s, from);
    encode_utf8_valid_utf8(s);
    is_char_boundary_start_end_of_seq(encode_utf8(s));
    lemma_cut(s, from);
    if k == spans.len() {
        lemma_slice(s, from, size);
        lemma_cut(s, size);
        let z = chars_before(s, size);
        assert(z == s.len()) by {
            lemma_offsets(s, z, s.len() as int);
            assert(s.take(s.len() as int) =~= s);
        }
        lemma_part_unescaping(s, a, z);
        lemma_closed_plain(s.subrange(a, z));
        lemma_plain_stretch(s, spans, a);
    } else {
        let (start, end) = spans[k];
        assert(spans[k] == (start, end));
        if k > 0 {
            assert(spans[k - 1].1 <= spans[k].0);
        }
        lemma_wrapped(s, spans, k + 1, end as int);
        lemma_slice(s, from, start as int);
        lemma_slice(s, start as int, end as int);
        lemma_cut(s, start as int);
        lemma_cut(s, end as int);
        let b = chars_before(s, start as int);
        let c = chars_before(s, end as int);
        let x = s.subrange(a, b);
        let y = s.subrange(b, c);
        let w = render::wrapped_from(s, spans, render::RED_BOLD@, render::RESET@, k + 1, end as int);
        lemma_part_unescaping(s, a, b);
        lemma_part_unescaping(s, b, c);
        lemma_closed_plain(x);
        lemma_colored(y);
        let colored = render::RED_BOLD@ + y + render::RESET@;
        lemma_closed_sum(x, colored);
        lemma_closed_sum(x + colored, w);
        assert(render::wrapped_from(s, spans, render::RED_BOLD@, render::RESET@, k, from) =~= x + colored + w);
        lemma_red_stretch(s, spans, k, a, b, c);
    }
}

proof fn lemma_highlighted(s: Seq<char>, spans: Seq<(usize, usize)>)
    requires
        unescaping(s),
        matching::spans_fit(spans, s),
    ensures
        closed(render::highlighted(s, spans)),
        shown(render::highlighted(s, spans), Seq::empty()) == marked_red(s, spans),
{
    encode_utf8_valid_utf8(s);
    is_char_boundary_start_end_of_seq(encode_utf8(s));
    lemma_wrapped(s, spans, 0, 0);
    lemma_cut(s, 0);
    assert(chars_before(s, 0) == 0) by {
        if chars_before(s, 0) > 0 {
            lemma_offsets(s, 0, chars_before(s, 0));
        }
    }
    assert(marked_red(s, spans).skip(0) =~= marked_red(s, spans));
}

/// A highlighted line shows all characters of the line in their order: those that start
/// within one of the spans in bold red, and all others in no color.
pub proof fn law_highlighting_marks_the_spans(s: Seq<char>, spans: Seq<(usize, usize)>, i: int)
    requires
        !s.contains('\x1b'),
        matching::spans_fit(spans, s),
        0 <= i < s.len(),
    ensures
        shown(render::highlighted(s, spans), Seq::empty()).len() == s.len(),
        shown(render::highlighted(s, spans), Seq::empty())[i] == (
            s[i],
            if exists|k: int|
                0 <= k < spans.len() && (#[trigger] spans[k]).0 <= encode_utf8(s.take(i)).len() < spans[k].1 {
                "1;31"@
            } else {
                Seq::empty()
            },
        ),
{
    lemma_highlighted(s, spans);
}

// ---------------------------------------------------------------------------
// Results
// ---------------------------------------------------------------------------

/// Whether no escape character stands in what a match holds.
pub open spec fn match_unescaping(m: MatchView) -> bool {
    &&& unescaping(m.path)
    &&& unescaping(m.line_text)
    &&& all_unescaping(m.context_before)
    &&& all_unescaping(m.context_after)
}

#[verifier::rlimit(40)]
proof fn lemma_match_line_parts(m: MatchView, spans: Seq<(usize, usize)>)
    ensures
        render::match_line(m, spans, false, true) == (render::MAGENTA_BOLD@ + m.path + render::RESET@) + (render::CYAN@
            + ":"@ + render::RESET@) + (render::GREEN@ + text::decimal(m.line_number as nat) + render::RESET@) + (
        render::CYAN@ + ":"@ + render::RESET@) + render::highlighted(m.line_text, spans) + "\n"@,
{
    assert(render::match_line(m, spans, false, true) =~= (render::MAGENTA_BOLD@ + m.path + render::RESET@) + (
    render::CYAN@ + ":"@ + render::RESET@) + (render::GREEN@ + text::decimal(m.line_number as nat) + render::RESET@)
        + (render::CYAN@ + ":"@ + render::RESET@) + render::highlighted(m.line_text, spans) + "\n"@);
}

proof fn lemma_match_line(m: MatchView, spans: Seq<(usize, usize)>)
    requires
        unescaping(m.path),
        unescaping(m.line_text),
        matching::spans_fit(spans, m.line_text),
    ensures
        closed(render::match_line(m, spans, false, true)),
        shown(render::match_line(m, spans, false, true), Seq::empty()) == painted(m.path, "1;35"@) + painted(
            ":"@,
            "36"@,
        ) + painted(text::decimal(m.line_number as nat), "32"@) + painted(":"@, "36"@) + marked_red(m.line_text, spans)
            + painted("\n"@, Seq::empty()),
{
    let d = text::decimal(m.line_number as nat);
    let z = render::RESET@;
    lemma_signs();
    lemma_digits(m.line_number as nat);
    lemma_colored(m.path);
    lemma_colored(":"@);
    lemma_colored(d);
    lemma_highlighted(m.line_text, spans);
    lemma_closed_plain("\n"@);
    let p = render::MAGENTA_BOLD@ + m.path + z;
    let colon = render::CYAN@ + ":"@ + z;
    let n = render::GREEN@ + d + z;
    let line = render::highlighted(m.line_text, spans);
    lemma_closed_sum(p, colon);
    lemma_closed_sum(p + colon, n);
    lemma_closed_sum(p + colon + n, colon);
    lemma_closed_sum(p + colon + n + colon, line);
    lemma_closed_sum(p + colon + n + colon + line, "\n"@);
    lemma_match_line_parts(m, spans);
}

proof fn lemma_match_line_stripped(m: MatchView, spans: Seq<(usize, usize)>)
    requires
        unescaping(m.path),
        unescaping(m.line_text),
        matching::spans_fit(spans, m.line_text),
    ensures
        stripped(render::match_line(m, spans, false, true)) == render::match_line(m, spans, false, false),
{
    lemma_match_line(m, spans);
    assert(letters(marked_red(m.line_text, spans)) =~= m.line_text);
    assert(stripped(render::match_line(m, spans, false, true)) =~= render::match_line(m, spans, false, false));
}

/// The line of a match in color shows the path in bold magenta, the number in green, the
/// colons in cyan, and the text with its matched parts highlighted.
pub proof fn law_match_line_in_color(m: MatchView, spans: Seq<(usize, usize)>)
    requires
        !m.path.contains('\x1b'),
        !m.line_text.contains('\x1b'),
        matching::spans_fit(spans, m.line_text),
    ensures
        shown(render::match_line(m, spans, false, true), Seq::empty()) == painted(m.path, "1;35"@) + painted(
            ":"@,
            "36"@,
        ) + painted(text::decimal(m.line_number as nat), "32"@) + painted(":"@, "36"@) + shown(
            render::highlighted(m.line_text, spans),
            Seq::empty(),
        ) + painted("\n"@, Seq::empty()),
        shown(render::match_line(m, spans, true, true), Seq::empty()) == painted(m.path, "1;35"@) + painted(
            "\n"@,
            Seq::empty(),
        ),
{
    lemma_match_line(m, spans);
    lemma_highlighted(m.line_text, spans);
    lemma_signs();
    lemma_colored(m.path);
    lemma_closed_plain("\n"@);
    lemma_closed_sum(render::MAGENTA_BOLD@ + m.path + render::RESET@, "\n"@);
}

proof fn lemma_block(m: MatchView, spans: Seq<(usize, usize)>, has_context: bool)
    requires
        match_unescaping(m),
        matching::spans_fit(spans, m.line_text),
    ensures
        closed(render::match_block(m, spans, false, true, has_context)),
        stripped(render::match_block(m, spans, false, true, has_context)) == render::match_block(
            m,
            spans,
            false,
            false,
            has_context,
        ),
{
    lemma_match_line(m, spans);
    lemma_match_line_stripped(m, spans);
    if has_context {
        lemma_context_lines(m.path, render::first_before(m), m.context_before, m.context_before.len());
        lemma_context_lines(m.path, m.line_number as nat + 1, m.context_after, m.context_after.len());
        let line = render::match_line(m, spans, false, true);
        lemma_stripped_sum(render::lines_before(m, true), line);
        lemma_stripped_sum(render::lines_before(m, true) + line, render::lines_after(m, true));
    }
}

proof fn lemma_rendered(matches: Seq<MatchView>, spans: Seq<Seq<(usize, usize)>>, has_context: bool, n: nat)
    requires
        n <= matches.len() == spans.len(),
        forall|k: int| 0 <= k < n ==> match_unescaping(#[trigger] matches[k]),
        forall|k: int| 0 <= k < n ==> matching::spans_fit(#[trigger] spans[k], matches[k].line_text),
    ensures
        closed(render::rendered(matches, spans, false, true, has_context, n)),
        stripped(render::rendered(matches, spans, false, true, has_context, n)) == render::rendered(
            matches,
            spans,
            false,
            false,
            has_context,
            n,
        ),
    decreases n,
{
    lemma_empty();
    if n > 0 {
        let p = (n - 1) as nat;
        lemma_rendered(matches, spans, has_context, p);
        assert(match_unescaping(matches[n - 1]));
        assert(matching::spans_fit(spans[n - 1], matches[n - 1].line_text));
        lemma_block(matches[n - 1], spans[n - 1], has_context);
        lemma_signs();
        lemma_closed_plain("--\n"@);
        lemma_letters_painted("--\n"@, Seq::empty());
        let separator = if has_context && n > 1 {
            "--\n"@
        } else {
            Seq::empty()
        };
        let earlier = render::rendered(matches, spans, false, true, has_context, p);
        lemma_stripped_sum(earlier, separator);
        lemma_stripped_sum(
            earlier + separator,
            render::match_block(matches[n - 1], spans[n - 1], false, true, has_context),
        );
    }
}

/// Color changes nothing but the color: with its escapes taken out, what is rendered in
/// color is what is rendered without, lines of matches and of context alike, where more
/// than the names of files is wanted.
pub proof fn law_color_only_adds_escapes(
    matches: Seq<MatchView>,
    spans: Seq<Seq<(usize, usize)>>,
    plain_spans: Seq<Seq<(usize, usize)>>,
    has_context: bool,
)
    requires
        matches.len() == spans.len(),
        matches.len() == plain_spans.len(),
        forall|k: int| 0 <= k < matches.len() ==> match_unescaping(#[trigger] matches[k]),
        forall|k: int| 0 <= k < matches.len() ==> matching::spans_fit(#[trigger] spans[k], matches[k].line_text),
    ensures
        stripped(render::rendered(matches, spans, false, true, has_context, matches.len())) == render::rendered(
            matches,
            plain_spans,
            false,
            false,
            has_context,
            matches.len(),
        ),
{
    lemma_rendered(matches, spans, has_context, matches.len());
    lemma_plain_needs_no_spans(matches, spans, plain_spans, has_context, matches.len());
}

proof fn lemma_plain_needs_no_spans(
    matches: Seq<MatchView>,
    a: Seq<Seq<(usize, usize)>>,
    b: Seq<Seq<(usize, usize)>>,
    has_context: bool,
    n: nat,
)
    ensures
        render::rendered(matches, a, false, false, has_context, n) == render::rendered(
            matches,
            b,
            false,
            false,
            has_context,
            n,
        ),
    decreases n,
{
    if n > 0 {
        lemma_plain_needs_no_spans(matches, a, b, has_context, (n - 1) as nat);
    }
}

// ---------------------------------------------------------------------------
// Whatever is shown
// ---------------------------------------------------------------------------

/// One more span to highlight, behind the others, changes nothing before it: where it starts
/// an escape for bold red is put in, and where it ends the escape that ends a color, whatever
/// the text holds. Without spans nothing is put in.
pub proof fn law_highlighting_one_more_span(s: Seq<char>, spans: Seq<(usize, usize)>, span: (usize, usize))
    requires
        matching::spans_fit(spans.push(span), s),
    ensures
        ({
            let size = encode_utf8(s).len() as int;
            let before = render::highlighted(s, spans);
            let behind = render::byte_slice(s, span.0 as int, size);
            &&& behind.len() <= before.len()
            &&& before.skip(before.len() - behind.len()) == behind
            &&& render::highlighted(s, spans.push(span)) == before.take(before.len() - behind.len()) + "\x1b[1;31m"@
                + render::byte_slice(s, span.0 as int, span.1 as int) + "\x1b[0m"@ + render::byte_slice(
                s,
                span.1 as int,
                size,
            )
        }),
        render::highlighted(s, Seq::empty()) == s,
{
    encode_utf8_valid_utf8(s);
    is_char_boundary_start_end_of_seq(encode_utf8(s));
    let all = spans.push(span);
    assert(all[spans.len() as int] == span);
    if spans.len() > 0 {
        assert(all[0] == spans[0]);
    }
    lemma_one_more_span(s, spans, span, 0, 0);
    render::law_highlighting_keeps_text(s, Seq::empty());
}

#[verifier::rlimit(40)]
proof fn lemma_one_more_span(s: Seq<char>, spans: Seq<(usize, usize)>, span: (usize, usize), k: int, from: int)
    requires
        matching::spans_fit(spans.push(span), s),
        0 <= k <= spans.len(),
        0 <= from <= encode_utf8(s).len(),
        is_char_boundary(encode_utf8(s), from),
        from == (if k == 0 {
            0
        } else {
            spans[k - 1].1 as int
        }),
    ensures
        ({
            let size = encode_utf8(s).len() as int;
            let before = render::wrapped_from(s, spans, render::RED_BOLD@, render::RESET@, k, from);
            let behind = render::byte_slice(s, span.0 as int, size);
            &&& behind.len() <= before.len()
            &&& before.skip(before.len() - behind.len()) == behind
            &&& render::wrapped_from(s, spans.push(span), render::RED_BOLD@, render::RESET@, k, from) == before.take(
                before.len() - behind.len(),
            ) + render::RED_BOLD@ + render::byte_slice(s, span.0 as int, span.1 as int) + render::RESET@
                + render::byte_slice(s, span.1 as int, size)
        }),
    decreases spans.len() - k,
{
    let size = encode_utf8(s).len() as int;
    let (red, reset) = (render::RED_BOLD@, render::RESET@);
    let all = spans.push(span);
    let before = render::wrapped_from(s, spans, red, reset, k, from);
    let behind = render::byte_slice(s, span.0 as int, size);
    let marked = render::byte_slice(s, span.0 as int, span.1 as int);
    let end = render::byte_slice(s, span.1 as int, size);
    encode_utf8_valid_utf8(s);
    is_char_boundary_start_end_of_seq(encode_utf8(s));
    assert(all[spans.len() as int] == span);
    if k == spans.len() {
        if k > 0 {
            assert(all[k - 1] == spans[k - 1]);
            assert(all[k - 1].1 <= all[k].0);
        }
        render::lemma_slices_join(s, from, span.0 as int, size);
        let head = render::byte_slice(s, from, span.0 as int);
        assert(before == head + behind);
        assert(before.skip(before.len() - behind.len()) =~= behind);
        assert(before.take(before.len() - behind.len()) =~= head);
        assert(render::wrapped_from(s, all, red, reset, k + 1, span.1 as int) == end);
        assert(render::wrapped_from(s, all, red, reset, k, from) == head + red + marked + reset + end);
    } else {
        let (a, b) = spans[k];
        assert(all[k] == spans[k]);
        lemma_one_more_span(s, spans, span, k + 1, b as int);
        let head = render::byte_slice(s, from, a as int) + red + render::byte_slice(s, a as int, b as int) + reset;
        let rest = render::wrapped_from(s, spans, red, reset, k + 1, b as int);
        assert(before == head + rest);
        assert(before.skip(before.len() - behind.len()) =~= rest.skip(rest.len() - behind.len()));
        let cut = rest.take(rest.len() - behind.len());
        assert(before.take(before.len() - behind.len()) =~= head + cut);
        lemma_prefix_sum(head, cut, red, marked, reset, end);
    }
}

proof fn lemma_prefix_sum(
    head: Seq<char>,
    a: Seq<char>,
    b: Seq<char>,
    c: Seq<char>,
    d: Seq<char>,
    e: Seq<char>,
)
    ensures
        head + (a + b + c + d + e) == head + a + b + c + d + e,
{
    assert(head + (a + b + c + d + e) =~= head + a + b + c + d + e);
}

/// Whatever stands in a path or in the text of a line without spans, it stands whole in what is
/// rendered: the path at its start, behind the escape of its color if there is one, and the
/// text at its end.
#[verifier::rlimit(40)]
pub proof fn law_path_and_text_stand_whole(m: MatchView, number: nat, line: Seq<char>, color: bool)
    ensures
        ({
            let at: int = if color {
                7
            } else {
                0
            };
            let none = Seq::<char>::empty();
            let bare = MatchView { path: none, ..m };
            let empty = MatchView { line_text: none, ..m };
            let shown_bare = render::match_line(bare, Seq::empty(), false, color);
            let context_bare = render::context_line(none, number, line, color);
            &&& render::match_line(m, Seq::empty(), false, color) == shown_bare.take(at) + m.path + shown_bare.skip(at)
            &&& render::match_line(m, Seq::empty(), false, color) == render::match_line(
                empty,
                Seq::empty(),
                false,
                color,
            ).drop_last() + m.line_text + seq!['\n']
            &&& render::context_line(m.path, number, line, color) == context_bare.take(at) + m.path
                + context_bare.skip(at)
        }),
{
    let none = Seq::<char>::empty();
    let (g, c, z) = (render::GREEN@, render::CYAN@, render::RESET@);
    let d = text::decimal(m.line_number as nat);
    let e = text::decimal(number);
    let open = if color {
        render::MAGENTA_BOLD@
    } else {
        none
    };
    assert(open.len() == (if color {
        7int
    } else {
        0
    })) by {
        reveal_strlit("\x1b[1;35m");
    }
    assert("\n"@ == seq!['\n']) by {
        reveal_strlit("\n");
        assert("\n"@ =~= seq!['\n']);
    }
    lemma_no_spans(m.line_text);
    lemma_no_spans(none);
    if color {
        let tail = lemma_after_path(open, m.path, z, c, ":"@, z, g, d, z, c, ":"@, z, m.line_text, "\n"@);
        lemma_after_path(open, none, z, c, ":"@, z, g, d, z, c, ":"@, z, m.line_text, "\n"@);
        lemma_put_in(open, m.path, tail);
        let tail = lemma_after_path(open, m.path, z, c, "-"@, z, g, e, z, c, "-"@, z, line, "\n"@);
        lemma_after_path(open, none, z, c, "-"@, z, g, e, z, c, "-"@, z, line, "\n"@);
        lemma_put_in(open, m.path, tail);
        lemma_text_end(
            open + m.path + z + c + ":"@ + z + g + d + z + c + ":"@ + z,
            m.line_text,
        );
    } else {
        let tail = lemma_after_plain_path(m.path, ":"@, d, ":"@, m.line_text, "\n"@);
        lemma_after_plain_path(none, ":"@, d, ":"@, m.line_text, "\n"@);
        lemma_put_in(none, m.path, tail);
        let tail = lemma_after_plain_path(m.path, "-"@, e, "-"@, line, "\n"@);
        lemma_after_plain_path(none, "-"@, e, "-"@, line, "\n"@);
        lemma_put_in(none, m.path, tail);
        lemma_text_end(m.path + ":"@ + d + ":"@, m.line_text);
    }
}

proof fn lemma_put_in(open: Seq<char>, path: Seq<char>, tail: Seq<char>)
    ensures
        ({
            let bare = open + Seq::<char>::empty() + tail;
            bare.take(open.len() as int) + path + bare.skip(open.len() as int) == open + path + tail
        }),
        Seq::<char>::empty() + path + tail == path + tail,
{
    let bare = open + Seq::<char>::empty() + tail;
    assert(bare.take(open.len() as int) =~= open);
    assert(bare.skip(open.len() as int) =~= tail);
    assert(Seq::<char>::empty() + path + tail =~= path + tail);
    assert(Seq::<char>::empty() + Seq::<char>::empty() + tail =~= tail);
}

proof fn lemma_text_end(head: Seq<char>, line: Seq<char>)
    ensures
        (head + Seq::<char>::empty() + seq!['\n']).drop_last() + line + seq!['\n'] == head + line + seq!['\n'],
{
    assert((head + Seq::<char>::empty() + seq!['\n']).drop_last() =~= head);
}

#[verifier::rlimit(40)]
proof fn lemma_after_path(
    open: Seq<char>,
    path: Seq<char>,
    a1: Seq<char>,
    a2: Seq<char>,
    a3: Seq<char>,
    a4: Seq<char>,
    a5: Seq<char>,
    a6: Seq<char>,
    a7: Seq<char>,
    a8: Seq<char>,
    a9: Seq<char>,
    a10: Seq<char>,
    a11: Seq<char>,
    a12: Seq<char>,
) -> (tail: Seq<char>)
    ensures
        tail == a1 + a2 + a3 + a4 + a5 + a6 + a7 + a8 + a9 + a10 + a11 + a12,
        open + path + a1 + a2 + a3 + a4 + a5 + a6 + a7 + a8 + a9 + a10 + a11 + a12 == open + path + tail,
{
    let tail = a1 + a2 + a3 + a4 + a5 + a6 + a7 + a8 + a9 + a10 + a11 + a12;
    assert(open + path + a1 + a2 + a3 + a4 + a5 + a6 + a7 + a8 + a9 + a10 + a11 + a12 =~= open + path + tail);
    tail
}

proof fn lemma_after_plain_path(
    path: Seq<char>,
    a1: Seq<char>,
    a2: Seq<char>,
    a3: Seq<char>,
    a4: Seq<char>,
    a5: Seq<char>,
) -> (tail: Seq<char>)
    ensures
        tail == a1 + a2 + a3 + a4 + a5,
        path + a1 + a2 + a3 + a4 + a5 == Seq::<char>::empty() + path + tail,
{
    let tail = a1 + a2 + a3 + a4 + a5;
    assert(path + a1 + a2 + a3 + a4 + a5 =~= Seq::<char>::empty() + path + tail);
    tail
}

proof fn lemma_no_spans(s: Seq<char>)
    ensures
        render::highlighted(s, Seq::empty()) == s,
{
    encode_utf8_valid_utf8(s);
    is_char_boundary_start_end_of_seq(encode_utf8(s));
    assert(encode_utf8(s).subrange(0, encode_utf8(s).len() as int) =~= encode_utf8(s));
    encode_utf8_decode_utf8(s);
}

/// Names in color are the paths in bold magenta. Where context is shown with them, it stands
/// around the path as it stands around a line: without its escapes, the context lines as they
/// are in plain output, the path alone, and the context lines behind it.
pub proof fn law_names_in_color(m: MatchView, spans: Seq<(usize, usize)>)
    requires
        match_unescaping(m),
    ensures
        shown(render::match_block(m, spans, true, true, false), Seq::empty()) == painted(m.path, "1;35"@) + painted(
            "\n"@,
            Seq::empty(),
        ),
        stripped(render::match_block(m, spans, true, true, true)) == render::lines_before(m, false) + (m.path + "\n"@)
            + render::lines_after(m, false),
{
    lemma_signs();
    lemma_colored(m.path);
    lemma_closed_plain("\n"@);
    let line = render::match_line(m, spans, true, true);
    lemma_closed_sum(render::MAGENTA_BOLD@ + m.path + render::RESET@, "\n"@);
    assert(stripped(line) =~= m.path + "\n"@);
    lemma_context_lines(m.path, render::first_before(m), m.context_before, m.context_before.len());
    lemma_context_lines(m.path, m.line_number as nat + 1, m.context_after, m.context_after.len());
    lemma_stripped_sum(render::lines_before(m, true), line);
    lemma_stripped_sum(render::lines_before(m, true) + line, render::lines_after(m, true));
}

} // verus!
