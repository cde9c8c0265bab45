//! What the lines that ripgrep reports come to: the matches, with the lines around them.

use crate::matching;
use crate::render;
use crate::rg;
use crate::rg::EventView;
use crate::scan;
use crate::scan::MatchView;
use crate::sorting;
use crate::text;
use vstd::prelude::*;

verus! {

// ---------------------------------------------------------------------------
// The lines around a match
// ---------------------------------------------------------------------------

proof fn lemma_run_start(events: Seq<EventView>, path: Seq<char>, lo: int, hi: int, i: int)
    requires
        0 <= i <= events.len(),
    ensures
        ({
            let s = rg::run_start(events, path, lo, hi, i);
            &&& 0 <= s <= i
            &&& forall|k: int| s <= k < i ==> rg::is_within(#[trigger] events[k], path, lo, hi)
            &&& s > 0 ==> !rg::is_within(events[s - 1], path, lo, hi)
        }),
    decreases i,
{
    if i > 0 && rg::is_within(events[i - 1], path, lo, hi) {
        lemma_run_start(events, path, lo, hi, i - 1);
    }
}

proof fn lemma_run_end(events: Seq<EventView>, path: Seq<char>, lo: int, hi: int, i: int)
    requires
        0 <= i <= events.len(),
    ensures
        ({
            let e = rg::run_end(events, path, lo, hi, i);
            &&& i <= e <= events.len()
            &&& forall|k: int| i <= k < e ==> rg::is_within(#[trigger] events[k], path, lo, hi)
            &&& e < events.len() ==> !rg::is_within(events[e], path, lo, hi)
        }),
    decreases events.len() - i,
{
    if i < events.len() && rg::is_within(events[i], path, lo, hi) {
        lemma_run_end(events, path, lo, hi, i + 1);
    }
}

/// A match that is read from events is the event it stands for, with the texts of the
/// events right before it and right after it, in their order: of as many as are lines of
/// the same file with numbers in the `before` before, and the `after` behind, the number of
/// the match.
pub proof fn law_context_is_the_events_around(events: Seq<EventView>, i: int, before: nat, after: nat)
    requires
        0 <= i < events.len(),
    ensures
        ({
            let m = rg::event_match(events, i, before, after);
            let e = events[i];
            let b = m.context_before.len() as int;
            let a = m.context_after.len() as int;
            &&& m.path == e.path && m.line_number == e.line_number && m.line_text == e.text
            &&& b <= i && i + a < events.len()
            &&& forall|k: int|
                0 <= k < b ==> #[trigger] m.context_before[k] == events[i - b + k].text && events[i - b
                    + k].path == e.path
                    && e.line_number - before <= events[i - b + k].line_number < e.line_number
            &&& forall|k: int|
                0 <= k < a ==> #[trigger] m.context_after[k] == events[i + 1 + k].text && events[i + 1 + k].path == e.path
                    && e.line_number < events[i + 1 + k].line_number <= e.line_number + after
            &&& b < i ==> !(events[i - b - 1].path == e.path && e.line_number - before <= events[i - b - 1].line_number
                < e.line_number)
            &&& i + a + 1 < events.len() ==> !(events[i + a + 1].path == e.path && e.line_number < events[i + a
                + 1].line_number <= e.line_number + after)
        }),
{
    let m = rg::event_match(events, i, before, after);
    let e = events[i];
    let n = e.line_number as int;
    lemma_run_start(events, e.path, n - before, n, i);
    lemma_run_end(events, e.path, n + 1, n + 1 + after, i + 1);
    let s = rg::run_start(events, e.path, n - before, n, i);
    let b = m.context_before.len() as int;
    let a = m.context_after.len() as int;
    assert(b == i - s);
    assert forall|k: int| 0 <= k < b implies #[trigger] m.context_before[k] == events[i - b + k].text && events[i - b
        + k].path == e.path && n - before <= events[i - b + k].line_number < n by {
        assert(rg::is_within(events[s + k], e.path, n - before, n));
    }
    assert forall|k: int| 0 <= k < a implies #[trigger] m.context_after[k] == events[i + 1 + k].text && events[i + 1
        + k].path == e.path && n < events[i + 1 + k].line_number <= n + after by {
        assert(rg::is_within(events[i + 1 + k], e.path, n + 1, n + 1 + after));
    }
}

/// The matches that are read from events stand for the events of matches, for each of them
/// and in their order.
pub proof fn law_every_match_event_is_read(events: Seq<EventView>, before: nat, after: nat, n: nat)
    requires
        n <= events.len(),
    ensures
        ({
            let out = rg::event_matches(events, before, after, n);
            let hits = events.take(n as int).filter(|e: EventView| e.is_match);
            &&& out.len() == hits.len()
            &&& forall|k: int|
                0 <= k < out.len() ==> (#[trigger] out[k]).path == hits[k].path && out[k].line_number
                    == hits[k].line_number && out[k].line_text == hits[k].text
            &&& forall|i: int|
                0 <= i < n && (#[trigger] events[i]).is_match ==> out.contains(rg::event_match(events, i, before, after))
        }),
    decreases n,
{
    reveal(Seq::filter);
    let out = rg::event_matches(events, before, after, n);
    let is_hit = |e: EventView| e.is_match;
    if n > 0 {
        let m = (n - 1) as nat;
        law_every_match_event_is_read(events, before, after, m);
        assert(events.take(n as int).drop_last() =~= events.take(m as int));
        let earlier = rg::event_matches(events, before, after, m);
        let hits = events.take(n as int).filter(is_hit);
        assert forall|k: int| 0 <= k < out.len() implies (#[trigger] out[k]).path == hits[k].path && out[k].line_number
            == hits[k].line_number && out[k].line_text == hits[k].text by {
            if k < earlier.len() {
                assert(out[k] == earlier[k]);
            }
        }
        assert forall|i: int| 0 <= i < n && (#[trigger] events[i]).is_match implies out.contains(
            rg::event_match(events, i, before, after),
        ) by {
            let x = rg::event_match(events, i, before, after);
            if i < m {
                assert(earlier.contains(x));
                let k = choose|k: int| 0 <= k < earlier.len() && earlier[k] == x;
                assert(out[k] == x);
            } else {
                assert(out[earlier.len() as int] == x);
            }
        }
    }
}

// ---------------------------------------------------------------------------
// Reading and scanning
// ---------------------------------------------------------------------------

/// Whether there is an event for the line of a file with a number.
pub open spec fn has_event(events: Seq<EventView>, path: Seq<char>, number: int) -> bool {
    exists|j: int| 0 <= j < events.len() && (#[trigger] events[j]).path == path && events[j].line_number == number
}

/// Whether events report a file: its lines under their numbers and with their texts, one
/// after another in ascending order, those marked as matches, and around each of these all
/// lines that are wanted.
pub open spec fn reports_file(
    events: Seq<EventView>,
    path: Seq<char>,
    lines: Seq<Option<Seq<char>>>,
    hits: Seq<bool>,
    before: nat,
    after: nat,
) -> bool {
    &&& lines.len() == hits.len()
    &&& forall|j: int, k: int|
        0 <= j < k < events.len() && (#[trigger] events[j]).path == path && (#[trigger] events[k]).path == path
            ==> events[j].line_number < events[k].line_number
    &&& forall|j: int, k: int, l: int|
        0 <= j < k < l < events.len() && (#[trigger] events[j]).path == path && (#[trigger] events[l]).path == path
            ==> (#[trigger] events[k]).path == path
    &&& forall|j: int|
        0 <= j < events.len() && (#[trigger] events[j]).path == path ==> {
            &&& 1 <= events[j].line_number <= lines.len()
            &&& lines[events[j].line_number - 1] == Some(events[j].text)
            &&& hits[events[j].line_number - 1] == events[j].is_match
        }
    &&& forall|h: int, l: int|
        0 <= h < lines.len() && #[trigger] hits[h] && 0 <= l < lines.len() && h - before <= l <= h + after
            ==> #[trigger] has_event(events, path, l + 1)
}

/// The event for the line `d` before a match stands `d` before its event.
proof fn lemma_event_before(
    events: Seq<EventView>,
    path: Seq<char>,
    lines: Seq<Option<Seq<char>>>,
    hits: Seq<bool>,
    before: nat,
    after: nat,
    i: int,
    d: int,
)
    requires
        reports_file(events, path, lines, hits, before, after),
        0 <= i < events.len(),
        events[i].path == path,
        events[i].is_match,
        0 <= d <= before,
        d < events[i].line_number,
    ensures
        d <= i,
        events[i - d].path == path,
        events[i - d].line_number == events[i].line_number - d,
    decreases d,
{
    if d > 0 {
        lemma_event_before(events, path, lines, hits, before, after, i, d - 1);
        let n = events[i].line_number as int;
        let p = i - d + 1;
        assert(hits[n - 1]);
        let l = n - 1 - d;
        assert(has_event(events, path, l + 1));
        let j = choose|j: int|
            0 <= j < events.len() && (#[trigger] events[j]).path == path && events[j].line_number == n - d;
        if j >= p {
            assert(j > p ==> events[p].line_number < events[j].line_number);
        }
        assert(j < p);
        if j < p - 1 {
            assert(events[p - 1].path == path);
            assert(events[j].line_number < events[p - 1].line_number);
            assert(events[p - 1].line_number < events[p].line_number);
        }
    }
}

/// The event for the line `d` after a match stands `d` after its event.
proof fn lemma_event_after(
    events: Seq<EventView>,
    path: Seq<char>,
    lines: Seq<Option<Seq<char>>>,
    hits: Seq<bool>,
    before: nat,
    after: nat,
    i: int,
    d: int,
)
    requires
        reports_file(events, path, lines, hits, before, after),
        0 <= i < events.len(),
        events[i].path == path,
        events[i].is_match,
        0 <= d <= after,
        events[i].line_number + d <= lines.len(),
    ensures
        i + d < events.len(),
        events[i + d].path == path,
        events[i + d].line_number == events[i].line_number + d,
    decreases d,
{
    if d > 0 {
        lemma_event_after(events, path, lines, hits, before, after, i, d - 1);
        let n = events[i].line_number as int;
        let p = i + d - 1;
        assert(hits[n - 1]);
        let l = n - 1 + d;
        assert(has_event(events, path, l + 1));
        let j = choose|j: int|
            0 <= j < events.len() && (#[trigger] events[j]).path == path && events[j].line_number == n + d;
        if j <= p {
            assert(j < p ==> events[j].line_number < events[p].line_number);
        }
        assert(j > p);
        if j > p + 1 {
            assert(events[p + 1].path == path);
            assert(events[p + 1].line_number < events[j].line_number);
            assert(events[p].line_number < events[p + 1].line_number);
        }
    }
}

/// A match comes with as many lines before it and after it as are wanted and there.
proof fn lemma_context_lengths(
    events: Seq<EventView>,
    path: Seq<char>,
    lines: Seq<Option<Seq<char>>>,
    hits: Seq<bool>,
    before: nat,
    after: nat,
    i: int,
    m: MatchView,
)
    requires
        reports_file(events, path, lines, hits, before, after),
        0 <= i < events.len(),
        events[i].path == path,
        events[i].is_match,
        m == rg::event_match(events, i, before, after),
    ensures
        m.context_before.len() == (if m.line_number - 1 < before {
            m.line_number - 1
        } else {
            before as int
        }),
        m.context_after.len() == (if lines.len() - m.line_number < after {
            lines.len() - m.line_number
        } else {
            after as int
        }),
{
    let n = events[i].line_number as int;
    law_context_is_the_events_around(events, i, before, after);
    let b = m.context_before.len() as int;
    let a = m.context_after.len() as int;
    let full_b: int = if n - 1 < before {
        n - 1
    } else {
        before as int
    };
    let full_a: int = if lines.len() - n < after {
        lines.len() - n
    } else {
        after as int
    };
    assert(b >= full_b) by {
        if b < full_b {
            lemma_event_before(events, path, lines, hits, before, after, i, b + 1);
        }
    }
    assert(b <= full_b) by {
        if b > full_b {
            lemma_event_before(events, path, lines, hits, before, after, i, full_b);
            let k = b - full_b - 1;
            assert(m.context_before[k] == events[i - b + k].text);
            assert(i - b + k == i - full_b - 1);
            let e = events[i - full_b - 1];
            assert(e.path == path && n - before <= e.line_number);
            assert(e.line_number < events[i - full_b].line_number);
        }
    }
    assert(a >= full_a) by {
        if a < full_a {
            lemma_event_after(events, path, lines, hits, before, after, i, a + 1);
        }
    }
    assert(a <= full_a) by {
        if a > full_a {
            lemma_event_after(events, path, lines, hits, before, after, i, full_a);
            assert(m.context_after[full_a] == events[i + 1 + full_a].text);
            let e = events[i + 1 + full_a];
            assert(e.path == path && e.line_number <= n + after);
            assert(events[i + full_a].line_number < e.line_number);
        }
    }
}

/// Where the lines of a file are reported under their numbers, the lines that a match
/// comes with are those numbered right before it and right after it, in ascending order:
/// the first before it has its number less their count, the first after it the next
/// number. They are as many as are wanted and there.
#[verifier::rlimit(40)]
pub proof fn law_context_follows_the_numbers(
    events: Seq<EventView>,
    path: Seq<char>,
    lines: Seq<Option<Seq<char>>>,
    hits: Seq<bool>,
    before: nat,
    after: nat,
    i: int,
    m: MatchView,
)
    requires
        reports_file(events, path, lines, hits, before, after),
        0 <= i < events.len(),
        events[i].path == path,
        events[i].is_match,
        m == rg::event_match(events, i, before, after),
    ensures
        m.path == path,
        1 <= m.line_number <= lines.len(),
        lines[m.line_number - 1] == Some(m.line_text),
        m.context_before.len() == (if m.line_number - 1 < before {
            m.line_number - 1
        } else {
            before as int
        }),
        m.context_after.len() == (if lines.len() - m.line_number < after {
            lines.len() - m.line_number
        } else {
            after as int
        }),
        m.context_before.len() <= i,
        i + m.context_after.len() < events.len(),
        forall|k: int|
            0 <= k < m.context_before.len() ==> #[trigger] m.context_before[k] == events[i - m.context_before.len()
                + k].text,
        forall|k: int|
            0 <= k < m.context_before.len() ==> (#[trigger] events[i - m.context_before.len() + k]).line_number
                == m.line_number - m.context_before.len() + k,
        forall|k: int|
            0 <= k < m.context_after.len() ==> #[trigger] m.context_after[k] == events[i + 1 + k].text,
        forall|k: int|
            0 <= k < m.context_after.len() ==> (#[trigger] events[i + 1 + k]).line_number == m.line_number + 1 + k,
        forall|k: int|
            0 <= k < m.context_before.len() ==> lines[m.line_number - 1 - m.context_before.len() + k] == Some(
                #[trigger] m.context_before[k],
            ),
        forall|k: int|
            0 <= k < m.context_after.len() ==> lines[m.line_number + k] == Some(#[trigger] m.context_after[k]),
{
    law_context_is_the_events_around(events, i, before, after);
    lemma_context_lengths(events, path, lines, hits, before, after, i, m);
    let b = m.context_before.len() as int;
    assert forall|k: int| 0 <= k < m.context_before.len() implies (#[trigger] events[i - m.context_before.len()
        + k]).line_number == m.line_number - m.context_before.len() + k by {
        lemma_event_before(events, path, lines, hits, before, after, i, b - k);
        assert(i - (b - k) == i - b + k);
    }
    assert forall|k: int| 0 <= k < m.context_after.len() implies (#[trigger] events[i + 1 + k]).line_number
        == m.line_number + 1 + k by {
        lemma_event_after(events, path, lines, hits, before, after, i, k + 1);
        assert(i + (k + 1) == i + 1 + k);
    }
    assert forall|k: int| 0 <= k < m.context_before.len() implies lines[m.line_number - 1 - m.context_before.len() + k]
        == Some(#[trigger] m.context_before[k]) by {
        assert(m.context_before[k] == events[i - m.context_before.len() + k].text);
        assert(events[i - m.context_before.len() + k].path == path);
    }
    assert forall|k: int| 0 <= k < m.context_after.len() implies lines[m.line_number + k] == Some(
        #[trigger] m.context_after[k],
    ) by {
        assert(m.context_after[k] == events[i + 1 + k].text);
        assert(events[i + 1 + k].path == path);
    }
}

/// A match that is read from the reported lines of a file is the match on that line with
/// the lines around it.
proof fn lemma_event_match_is_line_match(
    events: Seq<EventView>,
    path: Seq<char>,
    lines: Seq<Option<Seq<char>>>,
    hits: Seq<bool>,
    before: nat,
    after: nat,
    i: int,
)
    requires
        reports_file(events, path, lines, hits, before, after),
        lines.len() <= u32::MAX,
        0 <= i < events.len(),
        events[i].path == path,
        events[i].is_match,
    ensures
        rg::event_match(events, i, before, after) == scan::match_at(
            lines,
            path,
            events[i].line_number - 1,
            before,
            after,
        ),
{
    let m = rg::event_match(events, i, before, after);
    let w = scan::match_at(lines, path, events[i].line_number - 1, before, after);
    law_context_is_the_events_around(events, i, before, after);
    law_context_follows_the_numbers(events, path, lines, hits, before, after, i, m);
    assert(m.context_before =~= w.context_before) by {
        assert forall|k: int| 0 <= k < m.context_before.len() implies m.context_before[k] == w.context_before[k] by {
            let e = events[i - m.context_before.len() + k];
            assert(m.context_before[k] == e.text);
        }
    }
    assert(m.context_after =~= w.context_after) by {
        assert forall|k: int| 0 <= k < m.context_after.len() implies m.context_after[k] == w.context_after[k] by {
            let e = events[i + 1 + k];
            assert(m.context_after[k] == e.text);
        }
    }
}

/// The matches of one file among those that are read from events.
proof fn lemma_matches_of_file(
    events: Seq<EventView>,
    path: Seq<char>,
    lines: Seq<Option<Seq<char>>>,
    hits: Seq<bool>,
    before: nat,
    after: nat,
    n: nat,
    out: Seq<MatchView>,
)
    requires
        reports_file(events, path, lines, hits, before, after),
        lines.len() <= u32::MAX,
        n <= events.len(),
        out == rg::event_matches(events, before, after, n).filter(|m: MatchView| m.path == path),
    ensures
        forall|k: int|
            0 <= k < out.len() ==> {
                let h = (#[trigger] out[k]).line_number - 1;
                0 <= h < lines.len() && hits[h] && out[k] == scan::match_at(lines, path, h, before, after)
            },
        forall|j: int, k: int|
            0 <= j < k < out.len() ==> (#[trigger] out[j]).line_number < (#[trigger] out[k]).line_number,
        forall|k: int| 0 <= k < out.len() ==> has_event(events.take(n as int), path,
            (#[trigger] out[k]).line_number as int),
        forall|i: int|
            0 <= i < n && (#[trigger] events[i]).is_match && events[i].path == path ==> out.contains(
                scan::match_at(lines, path, events[i].line_number - 1, before, after),
            ),
    decreases n,
{
    reveal(Seq::filter);
    let of_file = |m: MatchView| m.path == path;
    let all = rg::event_matches(events, before, after, n);
    if n > 0 {
        let p = (n - 1) as nat;
        let all_before = rg::event_matches(events, before, after, p);
        let earlier = all_before.filter(of_file);
        lemma_matches_of_file(events, path, lines, hits, before, after, p, earlier);
        let e = events[n - 1];
        let m = rg::event_match(events, n - 1, before, after);
        if e.is_match {
            assert(all.drop_last() =~= all_before);
        }
        if e.is_match && e.path == path {
            lemma_event_match_is_line_match(events, path, lines, hits, before, after, n - 1);
            assert(out == earlier.push(m));
        } else {
            assert(out == earlier);
        }
        assert forall|k: int| 0 <= k < out.len() implies has_event(
            events.take(n as int),
            path,
            (#[trigger] out[k]).line_number as int,
        ) by {
            let t = events.take(n as int);
            if k < earlier.len() {
                let u = events.take(p as int);
                assert(out[k] == earlier[k]);
                assert(has_event(u, path, earlier[k].line_number as int));
                let i = choose|i: int|
                    0 <= i < u.len() && (#[trigger] u[i]).path == path && u[i].line_number == earlier[k].line_number;
                assert(t[i] == u[i]);
            } else {
                assert(t[n - 1].line_number == out[k].line_number);
            }
        }
        assert forall|j: int, k: int| 0 <= j < k < out.len() implies (#[trigger] out[j]).line_number < (
        #[trigger] out[k]).line_number by {
            assert(out[j] == earlier[j]);
            if k < earlier.len() {
                assert(out[k] == earlier[k]);
            } else {
                let u = events.take(p as int);
                assert(has_event(u, path, earlier[j].line_number as int));
                let i = choose|i: int|
                    0 <= i < u.len() && (#[trigger] u[i]).path == path && u[i].line_number == earlier[j].line_number;
                assert(events[i].line_number < events[n - 1].line_number);
            }
        }
        assert forall|i: int| 0 <= i < n && (#[trigger] events[i]).is_match && events[i].path
            == path implies out.contains(
            scan::match_at(lines, path, events[i].line_number - 1, before, after),
        ) by {
            let x = scan::match_at(lines, path, events[i].line_number - 1, before, after);
            if i < p {
                assert(earlier.contains(x));
                let k = choose|k: int| 0 <= k < earlier.len() && earlier[k] == x;
                assert(out[k] == x);
            } else {
                assert(out[earlier.len() as int] == x);
            }
        }
        assert forall|k: int| 0 <= k < out.len() implies ({
            let h = (#[trigger] out[k]).line_number - 1;
            0 <= h < lines.len() && hits[h] && out[k] == scan::match_at(lines, path, h, before, after)
        }) by {
            if k < earlier.len() {
                assert(out[k] == earlier[k]);
            }
        }
    }
}

proof fn lemma_all_readable(lines: Seq<Option<Seq<char>>>, hits: Seq<bool>)
    requires
        lines.len() == hits.len(),
        forall|k: int| 0 <= k < lines.len() ==> (#[trigger] lines[k]) is Some,
    ensures
        scan::readable(lines) == lines,
        scan::readable_hits(lines, hits) == hits,
    decreases lines.len(),
{
    if lines.len() > 0 {
        lemma_all_readable(lines.drop_last(), hits.drop_last());
        assert(lines.last() == lines[lines.len() - 1]);
        assert(lines.drop_last().push(lines.last()) =~= lines);
        assert(hits.drop_last().push(hits.last()) =~= hits);
    } else {
        assert(scan::readable(lines) =~= lines);
        assert(scan::readable_hits(lines, hits) =~= hits);
    }
}

/// Where a file is reported with the lines in which the pattern matches and all the
/// wanted lines around them, each under its number, reading the report gives for that file
/// the matches with context that searching the file itself gives, in the same order,
/// whatever other files are reported beside it.
pub proof fn law_reading_a_report_is_searching_the_file(
    events: Seq<EventView>,
    path: Seq<char>,
    contents: Seq<u8>,
    source: (Seq<char>, bool),
    before: nat,
    after: nat,
)
    requires
        before > 0 || after > 0,
        matching::file_lines(contents).len() <= u32::MAX,
        forall|k: int|
            0 <= k < matching::file_lines(contents).len() ==> (#[trigger] matching::file_lines(contents)[k]) is Some,
        reports_file(
            events,
            path,
            matching::file_lines(contents),
            scan::line_hits(source, matching::file_lines(contents)),
            before,
            after,
        ),
    ensures
        rg::event_matches(events, before, after, events.len()).filter(|m: MatchView| m.path == path)
            == scan::file_matches(Some(contents), path, source, false, before, after),
{
    let lines = matching::file_lines(contents);
    let hits = scan::line_hits(source, lines);
    let out = rg::event_matches(events, before, after, events.len()).filter(|m: MatchView| m.path == path);
    let want = scan::file_matches(Some(contents), path, source, false, before, after);
    lemma_all_readable(lines, hits);
    assert(want == scan::marked_lines(lines, hits, path, before, after, lines.len()));
    scan::lemma_marked_lines(lines, hits, path, before, after, lines.len());
    lemma_matches_of_file(events, path, lines, hits, before, after, events.len(), out);
    let earlier = |x: MatchView, y: MatchView| x.line_number < y.line_number;
    assert forall|m: MatchView| #[trigger] out.contains(m) <==> want.contains(m) by {
        if out.contains(m) {
            let k = choose|k: int| 0 <= k < out.len() && out[k] == m;
            let h = out[k].line_number - 1;
            assert(lines[h] is Some && hits[h]);
            let j = choose|j: int| 0 <= j < want.len() && (#[trigger] want[j]).line_number == h + 1;
            assert(want[j] == m);
        }
        if want.contains(m) {
            let k = choose|k: int| 0 <= k < want.len() && want[k] == m;
            let h = want[k].line_number - 1;
            assert(hits[h]);
            assert(has_event(events, path, h + 1));
            let j = choose|j: int|
                0 <= j < events.len() && (#[trigger] events[j]).path == path && events[j].line_number == h + 1;
            assert(events[j].is_match);
        }
    }
    sorting::lemma_ascending_unique(out, want, earlier);
}

// ---------------------------------------------------------------------------
// Plain lines
// ---------------------------------------------------------------------------

/// A line of plain output is read from its first two colons: before the first stands the
/// path, between them the number, and behind the second the text, whatever it holds. It is
/// no match where what stands between them is no number.
pub proof fn law_plain_line(path: Seq<char>, number: Seq<char>, line_text: Seq<char>)
    requires
        !path.contains(':'),
        !number.contains(':'),
    ensures
        rg::plain_line(path + seq![':'] + number + seq![':'] + line_text) == match text::number(
            number,
            u32::MAX as nat,
        ) {
            Some(n) => Some(
                MatchView {
                    path,
                    line_number: n as u32,
                    line_text,
                    context_before: Seq::empty(),
                    context_after: Seq::empty(),
                },
            ),
            None => None,
        },
{
    let line = path + seq![':'] + number + seq![':'] + line_text;
    let p = path.len() as int;
    let q = number.len() as int;
    assert forall|k: int| 0 <= k < p implies line[k] != ':' by {
        assert(path.contains(path[k]));
    }
    text::lemma_position(line, ':', p);
    let rest = line.skip(p + 1);
    assert forall|k: int| 0 <= k < q implies rest[k] != ':' by {
        assert(rest[k] == number[k]);
        assert(number.contains(number[k]));
    }
    text::lemma_position(rest, ':', q);
    assert(line.take(p) =~= path);
    assert(rest.take(q) =~= number);
    assert(rest.skip(q + 1) =~= line_text);
}

/// A line with fewer than two colons is no match.
pub proof fn law_line_without_two_colons(line: Seq<char>)
    requires
        forall|i: int, j: int| 0 <= i < j < line.len() && #[trigger] line[i] == ':' ==> #[trigger] line[j] != ':',
    ensures
        rg::plain_line(line) is None,
{
    text::lemma_position(line, ':', 0);
    let p = text::position(line, ':') as int;
    if p < line.len() {
        lemma_first_is_there(line, ':');
        let rest = line.skip(p + 1);
        text::lemma_position(rest, ':', 0);
        if text::position(rest, ':') < rest.len() {
            lemma_first_is_there(rest, ':');
            let q = text::position(rest, ':') as int;
            assert(line[p + 1 + q] == ':');
        }
    }
}

proof fn lemma_first_is_there(s: Seq<char>, c: char)
    requires
        text::position(s, c) < s.len(),
    ensures
        s[text::position(s, c) as int] == c,
    decreases s.len(),
{
    if s[0] != c {
        lemma_first_is_there(s.drop_first(), c);
    }
}

/// The matches on lines of plain output are what each line alone is read as, in their
/// order; the files that lines name are those of the lines that are not empty; the events
/// on lines of JSON are what each line alone is read as.
pub proof fn law_lines_are_read_one_by_one(lines: Seq<Seq<char>>)
    ensures
        rg::plain_matches(lines) == lines.filter(|line: Seq<char>| rg::plain_line(line) is Some).map_values(
            |line: Seq<char>| rg::plain_line(line)->0,
        ),
        rg::named_files(lines) == lines.filter(|line: Seq<char>| line.len() > 0).map_values(
            |line: Seq<char>|
                MatchView {
                    path: line,
                    line_number: 0,
                    line_text: Seq::empty(),
                    context_before: Seq::empty(),
                    context_after: Seq::empty(),
                },
        ),
        rg::events_on(lines) == lines.filter(|line: Seq<char>| rg::event_on(line) is Some).map_values(
            |line: Seq<char>| rg::event_on(line)->0,
        ),
    decreases lines.len(),
{
    reveal(Seq::filter);
    let named = |line: Seq<char>|
        MatchView {
            path: line,
            line_number: 0,
            line_text: Seq::empty(),
            context_before: Seq::empty(),
            context_after: Seq::empty(),
        };
    if lines.len() > 0 {
        law_lines_are_read_one_by_one(lines.drop_last());
    }
    assert(rg::plain_matches(lines) =~= lines.filter(|line: Seq<char>| rg::plain_line(line) is Some).map_values(
        |line: Seq<char>| rg::plain_line(line)->0,
    ));
    assert(rg::named_files(lines) =~= lines.filter(|line: Seq<char>| line.len() > 0).map_values(named));
    assert(rg::events_on(lines) =~= lines.filter(|line: Seq<char>| rg::event_on(line) is Some).map_values(
        |line: Seq<char>| rg::event_on(line)->0,
    ));
}

// ---------------------------------------------------------------------------
// Printing and reading
// ---------------------------------------------------------------------------

/// Whether a text can stand in a line: it holds no newline and does not end with a carriage
/// return.
pub open spec fn fits_line(s: Seq<char>) -> bool {
    !s.contains('\n') && (s.len() > 0 ==> s.last() != '\r')
}

proof fn lemma_signs()
    ensures
        ":"@ == seq![':'],
        "-"@ == seq!['-'],
        "\n"@ == seq!['\n'],
{
    reveal_strlit(":");
    reveal_strlit("-");
    reveal_strlit("\n");
    assert(":"@ =~= seq![':']);
    assert("-"@ =~= seq!['-']);
    assert("\n"@ =~= seq!['\n']);
}

proof fn lemma_digits_hold(n: nat, c: char)
    requires
        c == ':' || c == '\n',
    ensures
        !text::decimal(n).contains(c),
{
    let d = text::decimal(n);
    text::law_decimal(n);
    if d.contains(c) {
        let k = choose|k: int| 0 <= k < d.len() && d[k] == c;
        assert('0' <= d[k] <= '9');
    }
}

proof fn lemma_number_read(n: u32)
    ensures
        text::number(text::decimal(n as nat), u32::MAX as nat) == Some(n as nat),
{
    let d = text::decimal(n as nat);
    text::law_decimal(n as nat);
    assert('0' <= d[0] <= '9');
    text::law_number(d, d, u32::MAX as nat);
}

/// A path, a sign, a number, the sign and a text make one line.
proof fn lemma_printed_line(path: Seq<char>, sign: char, number: nat, t: Seq<char>)
    requires
        !path.contains('\n'),
        fits_line(t),
        sign == ':' || sign == '-',
    ensures
        text::lines(path + seq![sign] + text::decimal(number) + seq![sign] + t + seq!['\n']) == seq![
            path + seq![sign] + text::decimal(number) + seq![sign] + t,
        ],
{
    let d = text::decimal(number);
    let x = path + seq![sign] + d + seq![sign] + t;
    lemma_digits_hold(number, '\n');
    if x.contains('\n') {
        let k = choose|k: int| 0 <= k < x.len() && x[k] == '\n';
        let a = path.len() as int;
        let b = a + 1 + d.len();
        if k < a {
            assert(path[k] == '\n');
        } else if a < k < b {
            assert(d[k - a - 1] == '\n');
        } else if k > b {
            assert(t[k - b - 1] == '\n');
        }
    }
    if t.len() == 0 {
        assert(x.last() == sign);
    } else {
        assert(x.last() == t.last());
    }
    text::lemma_one_line(x);
}

/// A match with no more than its line.
pub open spec fn line_alone(m: MatchView) -> MatchView {
    MatchView { context_before: Seq::empty(), context_after: Seq::empty(), ..m }
}

/// Plain output without context says all there is to say: it is read as the matches that
/// were rendered, each with its path, number and text, in their order. A path holds no
/// colon and no newline, and a text is one line.
#[verifier::rlimit(40)]
pub proof fn law_plain_output_reads_back(matches: Seq<MatchView>, spans: Seq<Seq<(usize, usize)>>, n: nat)
    requires
        n <= matches.len(),
        forall|k: int|
            0 <= k < n ==> !(#[trigger] matches[k]).path.contains(':') && !matches[k].path.contains('\n') && fits_line(
                matches[k].line_text,
            ),
    ensures
        rg::plain_matches(text::lines(render::rendered(matches, spans, false, false, false, n))) == matches.take(
            n as int,
        ).map_values(|m: MatchView| line_alone(m)),
        n > 0 ==> render::rendered(matches, spans, false, false, false, n).last() == '\n',
    decreases n,
{
    let all = render::rendered(matches, spans, false, false, false, n);
    if n > 0 {
        let m = matches[n - 1];
        let p = (n - 1) as nat;
        let d = text::decimal(m.line_number as nat);
        let earlier = render::rendered(matches, spans, false, false, false, p);
        let line = m.path + seq![':'] + d + seq![':'] + m.line_text;
        law_plain_output_reads_back(matches, spans, p);
        lemma_signs();
        lemma_printed_line(m.path, ':', m.line_number as nat, m.line_text);
        if p == 0 {
            assert(earlier =~= Seq::<char>::empty());
        }
        assert(all =~= earlier + (line + seq!['\n']));
        text::lemma_lines_append(earlier, line + seq!['\n']);
        let lines = text::lines(all);
        assert(lines.drop_last() =~= text::lines(earlier));
        assert(lines.last() == line);
        lemma_digits_hold(m.line_number as nat, ':');
        lemma_number_read(m.line_number);
        law_plain_line(m.path, d, m.line_text);
        assert(rg::plain_matches(lines) =~= rg::plain_matches(text::lines(earlier)).push(line_alone(m)));
        assert(rg::plain_matches(lines) =~= matches.take(n as int).map_values(|m: MatchView| line_alone(m)));
    } else {
        assert(text::lines(all) =~= Seq::empty());
        assert(rg::plain_matches(text::lines(all)) =~= matches.take(0).map_values(|m: MatchView| line_alone(m)));
    }
}

/// Plain output of file names is read as the files that were rendered.
pub proof fn law_names_read_back(
    matches: Seq<MatchView>,
    spans: Seq<Seq<(usize, usize)>>,
    n: nat,
)
    requires
        n <= matches.len(),
        forall|k: int| 0 <= k < n ==> (#[trigger] matches[k]).path.len() > 0 && fits_line(matches[k].path),
    ensures
        rg::named_files(text::lines(render::rendered(matches, spans, true, false, false, n))) == matches.take(
            n as int,
        ).map_values(
            |m: MatchView|
                MatchView {
                    path: m.path,
                    line_number: 0,
                    line_text: Seq::empty(),
                    context_before: Seq::empty(),
                    context_after: Seq::empty(),
                },
        ),
        n > 0 ==> render::rendered(matches, spans, true, false, false, n).last() == '\n',
    decreases n,
{
    let all = render::rendered(matches, spans, true, false, false, n);
    let name = |m: MatchView|
        MatchView {
            path: m.path,
            line_number: 0,
            line_text: Seq::empty(),
            context_before: Seq::empty(),
            context_after: Seq::empty(),
        };
    if n > 0 {
        let m = matches[n - 1];
        let p = (n - 1) as nat;
        let earlier = render::rendered(matches, spans, true, false, false, p);
        law_names_read_back(matches, spans, p);
        lemma_signs();
        text::lemma_one_line(m.path);
        if p == 0 {
            assert(earlier =~= Seq::<char>::empty());
        }
        assert(all =~= earlier + (m.path + seq!['\n']));
        text::lemma_lines_append(earlier, m.path + seq!['\n']);
        let lines = text::lines(all);
        assert(lines.drop_last() =~= text::lines(earlier));
        assert(lines.last() == m.path);
        assert(rg::named_files(lines) =~= matches.take(n as int).map_values(name));
    } else {
        assert(text::lines(all) =~= Seq::empty());
        assert(rg::named_files(text::lines(all)) =~= matches.take(0).map_values(name));
    }
}

proof fn lemma_context_block(path: Seq<char>, first: nat, lines: Seq<Seq<char>>, n: nat)
    requires
        n <= lines.len(),
        !path.contains('\n'),
        forall|k: int| 0 <= k < lines.len() ==> fits_line(#[trigger] lines[k]),
    ensures
        text::lines(render::context_lines(path, first, lines, false, n)) == Seq::new(
            n,
            |k: int| path + seq!['-'] + text::decimal((first + k) as nat) + seq!['-'] + lines[k],
        ),
        n > 0 ==> render::context_lines(path, first, lines, false, n).len() > 0 && render::context_lines(
            path,
            first,
            lines,
            false,
            n,
        ).last() == '\n',
    decreases n,
{
    let all = render::context_lines(path, first, lines, false, n);
    let want = Seq::new(n, |k: int| path + seq!['-'] + text::decimal((first + k) as nat) + seq!['-'] + lines[k]);
    if n > 0 {
        let p = (n - 1) as nat;
        let number = (first + n - 1) as nat;
        let earlier = render::context_lines(path, first, lines, false, p);
        let line = path + seq!['-'] + text::decimal(number) + seq!['-'] + lines[n - 1];
        lemma_context_block(path, first, lines, p);
        lemma_signs();
        lemma_printed_line(path, '-', number, lines[n - 1]);
        if p == 0 {
            assert(earlier =~= Seq::<char>::empty());
        }
        assert(all =~= earlier + (line + seq!['\n']));
        text::lemma_lines_append(earlier, line + seq!['\n']);
    }
    assert(text::lines(all) =~= want);
}

/// Plain output of a match with context is the lines before it, its own line and the lines
/// after it, each with the path and its own number: those before count up to the number of
/// the match, or from zero on where they are more than that, those after on from it. Dashes
/// tell context from the match, which has colons.
#[verifier::rlimit(40)]
pub proof fn law_plain_lines_are_numbered(m: MatchView, spans: Seq<(usize, usize)>, lines: Seq<Seq<char>>)
    requires
        !m.path.contains('\n'),
        fits_line(m.line_text),
        forall|k: int| 0 <= k < m.context_before.len() ==> fits_line(#[trigger] m.context_before[k]),
        forall|k: int| 0 <= k < m.context_after.len() ==> fits_line(#[trigger] m.context_after[k]),
        lines == text::lines(render::match_block(m, spans, false, false, true)),
    ensures
        lines.len() == m.context_before.len() + 1 + m.context_after.len(),
        forall|k: int|
            0 <= k < m.context_before.len() ==> #[trigger] lines[k] == m.path + seq!['-'] + text::decimal(
                if m.context_before.len() <= m.line_number {
                    (m.line_number - m.context_before.len() + k) as nat
                } else {
                    k as nat
                },
            ) + seq!['-'] + m.context_before[k],
        lines[m.context_before.len() as int] == m.path + seq![':'] + text::decimal(m.line_number as nat) + seq![':']
            + m.line_text,
        forall|k: int|
            0 <= k < m.context_after.len() ==> #[trigger] lines[m.context_before.len() + 1 + k] == m.path + seq!['-']
                + text::decimal((m.line_number + 1 + k) as nat) + seq!['-'] + m.context_after[k],
{
    let before = render::lines_before(m, false);
    let after = render::lines_after(m, false);
    let line = m.path + seq![':'] + text::decimal(m.line_number as nat) + seq![':'] + m.line_text;
    lemma_signs();
    lemma_context_block(m.path, render::first_before(m), m.context_before, m.context_before.len());
    lemma_context_block(m.path, m.line_number as nat + 1, m.context_after, m.context_after.len());
    lemma_printed_line(m.path, ':', m.line_number as nat, m.line_text);
    assert(render::match_block(m, spans, false, false, true) =~= before + ((line + seq!['\n']) + after));
    if m.context_before.len() == 0 {
        assert(before =~= Seq::<char>::empty());
    }
    text::lemma_lines_append(before, (line + seq!['\n']) + after);
    text::lemma_lines_append(line + seq!['\n'], after);
    let b = m.context_before.len() as int;
    assert(lines =~= text::lines(before) + (seq![line] + text::lines(after)));
    assert forall|k: int| 0 <= k < m.context_after.len() implies #[trigger] lines[m.context_before.len() + 1 + k]
        == m.path + seq!['-'] + text::decimal((m.line_number + 1 + k) as nat) + seq!['-'] + m.context_after[k] by {
        assert(lines[b + 1 + k] == text::lines(after)[k]);
    }
    assert forall|k: int| 0 <= k < m.context_before.len() implies #[trigger] lines[k] == m.path + seq!['-']
        + text::decimal(
        if m.context_before.len() <= m.line_number {
            (m.line_number - m.context_before.len() + k) as nat
        } else {
            k as nat
        },
    ) + seq!['-'] + m.context_before[k] by {
        assert(lines[k] == text::lines(before)[k]);
    }
}

/// Matches are rendered one after another: what is rendered of some matches and then some
/// more is what is rendered of the first, a separator where there is context, and what is
/// rendered of the others. One match is rendered as its block.
pub proof fn law_matches_are_rendered_in_turn(
    first: Seq<MatchView>,
    more: Seq<MatchView>,
    first_spans: Seq<Seq<(usize, usize)>>,
    more_spans: Seq<Seq<(usize, usize)>>,
    files_only: bool,
    color: bool,
    has_context: bool,
)
    requires
        first.len() == first_spans.len(),
        more.len() == more_spans.len(),
        first.len() > 0,
        more.len() > 0,
    ensures
        render::rendered(
            first + more,
            first_spans + more_spans,
            files_only,
            color,
            has_context,
            (first + more).len(),
        ) == render::rendered(first, first_spans, files_only, color, has_context, first.len()) + (if has_context {
            seq!['-', '-', '\n']
        } else {
            Seq::empty()
        }) + render::rendered(more, more_spans, files_only, color, has_context, more.len()),
        first.len() == 1 ==> render::rendered(first, first_spans, files_only, color, has_context, 1)
            == render::match_block(first[0], first_spans[0], files_only, color, has_context),
{
    reveal_strlit("--\n");
    assert("--\n"@ =~= seq!['-', '-', '\n']);
    lemma_rendered_on(first, more, first_spans, more_spans, files_only, color, has_context, more.len());
    if first.len() == 1 {
        lemma_one_rendered(first, first_spans, files_only, color, has_context);
    }
}

proof fn lemma_one_rendered(
    matches: Seq<MatchView>,
    spans: Seq<Seq<(usize, usize)>>,
    files_only: bool,
    color: bool,
    has_context: bool,
)
    ensures
        render::rendered(matches, spans, files_only, color, has_context, 1) == render::match_block(
            matches[0],
            spans[0],
            files_only,
            color,
            has_context,
        ),
{
    let block = render::match_block(matches[0], spans[0], files_only, color, has_context);
    let earlier = render::rendered(matches, spans, files_only, color, has_context, 0);
    let none = Seq::<char>::empty();
    assert(earlier == none);
    assert(none + none + block =~= block);
}

proof fn lemma_regroup(a: Seq<char>, b: Seq<char>, c: Seq<char>, d: Seq<char>, e: Seq<char>)
    ensures
        a + b + c + d + e == a + b + (c + d + e),
{
    assert(a + b + c + d + e =~= a + b + (c + d + e));
}

proof fn lemma_rendered_on(
    first: Seq<MatchView>,
    more: Seq<MatchView>,
    first_spans: Seq<Seq<(usize, usize)>>,
    more_spans: Seq<Seq<(usize, usize)>>,
    files_only: bool,
    color: bool,
    has_context: bool,
    k: nat,
)
    requires
        first.len() == first_spans.len(),
        more.len() == more_spans.len(),
        first.len() > 0,
        0 < k <= more.len(),
    ensures
        render::rendered(
            first + more,
            first_spans + more_spans,
            files_only,
            color,
            has_context,
            first.len() + k,
        ) == render::rendered(first, first_spans, files_only, color, has_context, first.len()) + (if has_context {
            "--\n"@
        } else {
            Seq::empty()
        }) + render::rendered(more, more_spans, files_only, color, has_context, k),
    decreases k,
{
    let all = first + more;
    let spans = first_spans + more_spans;
    let n = first.len();
    let head = render::rendered(first, first_spans, files_only, color, has_context, n);
    let separator = if has_context {
        "--\n"@
    } else {
        Seq::empty()
    };
    let block = render::match_block(more[k - 1], more_spans[k - 1], files_only, color, has_context);
    assert(all[n + k - 1] == more[k - 1]);
    assert(spans[n + k - 1] == more_spans[k - 1]);
    let now = render::rendered(all, spans, files_only, color, has_context, n + k);
    if k == 1 {
        lemma_rendered_prefix(all, first, spans, first_spans, files_only, color, has_context, n);
        assert(now == head + separator + block);
        lemma_one_rendered(more, more_spans, files_only, color, has_context);
    } else {
        let p = (k - 1) as nat;
        lemma_rendered_on(first, more, first_spans, more_spans, files_only, color, has_context, p);
        let earlier = render::rendered(more, more_spans, files_only, color, has_context, p);
        assert(render::rendered(more, more_spans, files_only, color, has_context, k) == earlier + separator + block);
        assert(render::rendered(all, spans, files_only, color, has_context, (n + p) as nat) == head + separator
            + earlier);
        assert(now == head + separator + earlier + separator + block);
        lemma_regroup(head, separator, earlier, separator, block);
    }
}

proof fn lemma_rendered_prefix(
    a: Seq<MatchView>,
    b: Seq<MatchView>,
    a_spans: Seq<Seq<(usize, usize)>>,
    b_spans: Seq<Seq<(usize, usize)>>,
    files_only: bool,
    color: bool,
    has_context: bool,
    n: nat,
)
    requires
        forall|k: int| 0 <= k < n ==> #[trigger] a[k] == b[k],
        forall|k: int| 0 <= k < n ==> #[trigger] a_spans[k] == b_spans[k],
    ensures
        render::rendered(a, a_spans, files_only, color, has_context, n) == render::rendered(
            b,
            b_spans,
            files_only,
            color,
            has_context,
            n,
        ),
    decreases n,
{
    if n > 0 {
        lemma_rendered_prefix(a, b, a_spans, b_spans, files_only, color, has_context, (n - 1) as nat);
        assert(a[n - 1] == b[n - 1]);
        assert(a_spans[n - 1] == b_spans[n - 1]);
    }
}

/// Whatever stands in a path or a line, plain output gives it as it is: the path, the number
/// and the text with a sign between them, a colon for a match and a dash for context, or the
/// path alone where only names are wanted. Without context, a match is its line.
pub proof fn law_plain_output_is_plain(
    m: MatchView,
    spans: Seq<(usize, usize)>,
    number: nat,
    line: Seq<char>,
    has_context: bool,
)
    ensures
        render::match_block(m, spans, false, false, false) == m.path + seq![':'] + text::decimal(m.line_number as nat)
            + seq![':'] + m.line_text + seq!['\n'],
        render::context_line(m.path, number, line, false) == m.path + seq!['-'] + text::decimal(number) + seq!['-'] + line
            + seq!['\n'],
        render::match_block(m, spans, true, false, has_context) == m.path + seq!['\n'],
{
    lemma_signs();
}

proof fn lemma_lines_alone(
    lines: Seq<Option<Seq<char>>>,
    hits: Seq<bool>,
    path: Seq<char>,
    before: nat,
    after: nat,
    n: nat,
)
    requires
        n <= lines.len(),
    ensures
        scan::marked_lines(lines, hits, path, before, after, n).map_values(|m: MatchView| line_alone(m))
            == scan::marked_lines(lines, hits, path, 0, 0, n),
    decreases n,
{
    let f = |m: MatchView| line_alone(m);
    let with = scan::marked_lines(lines, hits, path, before, after, n);
    let without = scan::marked_lines(lines, hits, path, 0, 0, n);
    if n > 0 {
        lemma_lines_alone(lines, hits, path, before, after, (n - 1) as nat);
        let a = scan::match_at(lines, path, n - 1, before, after);
        let b = scan::match_at(lines, path, n - 1, 0, 0);
        assert(b.context_before =~= Seq::empty());
        assert(b.context_after =~= Seq::empty());
        assert(line_alone(a) == b);
    }
    assert(with.map_values(f) =~= without);
}

/// Context changes nothing about which lines match: where all lines of a file can be read, the
/// matches with context are those without, with the same numbers and texts, but for the lines
/// around them.
pub proof fn law_context_changes_no_line(
    contents: Seq<u8>,
    path: Seq<char>,
    source: (Seq<char>, bool),
    before: nat,
    after: nat,
)
    requires
        forall|k: int|
            0 <= k < matching::file_lines(contents).len() ==> (#[trigger] matching::file_lines(contents)[k]) is Some,
    ensures
        scan::file_matches(Some(contents), path, source, false, before, after).map_values(
            |m: MatchView|
                MatchView {
                    path: m.path,
                    line_number: m.line_number,
                    line_text: m.line_text,
                    context_before: Seq::empty(),
                    context_after: Seq::empty(),
                },
        ) == scan::file_matches(Some(contents), path, source, false, 0, 0),
{
    let lines = matching::file_lines(contents);
    let hits = scan::line_hits(source, lines);
    lemma_all_readable(lines, hits);
    lemma_lines_alone(lines, hits, path, before, after, lines.len());
    let with = scan::file_matches(Some(contents), path, source, false, before, after);
    assert(with.map_values(|m: MatchView| line_alone(m)) =~= with.map_values(
        |m: MatchView|
            MatchView {
                path: m.path,
                line_number: m.line_number,
                line_text: m.line_text,
                context_before: Seq::empty(),
                context_after: Seq::empty(),
            },
    ));
}

} // verus!
