//! Matches in the lines of a file.

use crate::matching;
use crate::matching::{is_match, split_file};
use crate::text;
use regex::Regex;
use vstd::prelude::*;

verus! {

/// A single search match.
#[derive(Debug, Clone)]
pub struct SearchMatch {
    pub path: String,
    pub line_number: u32,
    pub line_text: String,
    pub context_before: Vec<String>,
    pub context_after: Vec<String>,
}

/// A [`SearchMatch`] over texts.
#[verifier::ext_equal]
pub struct MatchView {
    pub path: Seq<char>,
    pub line_number: u32,
    pub line_text: Seq<char>,
    pub context_before: Seq<Seq<char>>,
    pub context_after: Seq<Seq<char>>,
}

impl View for SearchMatch {
    type V = MatchView;

    open spec fn view(&self) -> MatchView {
        MatchView {
            path: self.path@,
            line_number: self.line_number,
            line_text: self.line_text@,
            context_before: text::texts(self.context_before@),
            context_after: text::texts(self.context_after@),
        }
    }
}

/// Matches over texts.
pub open spec fn match_views(matches: Seq<SearchMatch>) -> Seq<MatchView> {
    matches.map_values(|m: SearchMatch| m@)
}

/// A match without context.
pub open spec fn plain_match(path: Seq<char>, line_number: u32, line_text: Seq<char>) -> MatchView {
    MatchView { path, line_number, line_text, context_before: Seq::empty(), context_after: Seq::empty() }
}

/// The match that stands for a whole file.
pub open spec fn file_match(path: Seq<char>) -> MatchView {
    plain_match(path, 0, Seq::empty())
}

/// The lines that can be read.
pub open spec fn readable(lines: Seq<Option<Seq<char>>>) -> Seq<Option<Seq<char>>>
    decreases lines.len(),
{
    if lines.len() == 0 {
        Seq::empty()
    } else if lines.last() is Some {
        readable(lines.drop_last()).push(lines.last())
    } else {
        readable(lines.drop_last())
    }
}

/// The marks of the lines that can be read.
pub open spec fn readable_hits(lines: Seq<Option<Seq<char>>>, hits: Seq<bool>) -> Seq<bool>
    decreases lines.len(),
{
    if lines.len() == 0 || lines.len() != hits.len() {
        Seq::empty()
    } else if lines.last() is Some {
        readable_hits(lines.drop_last(), hits.drop_last()).push(hits.last())
    } else {
        readable_hits(lines.drop_last(), hits.drop_last())
    }
}

/// The texts of lines that can be read.
pub open spec fn line_texts(lines: Seq<Option<Seq<char>>>) -> Seq<Seq<char>> {
    lines.map_values(|line: Option<Seq<char>>| line->0)
}

/// The match on line `i`, which is numbered from one, with up to `before` lines before
/// it and up to `after` lines after it.
pub open spec fn match_at(
    lines: Seq<Option<Seq<char>>>,
    path: Seq<char>,
    i: int,
    before: nat,
    after: nat,
) -> MatchView {
    let start = if i <= before {
        0
    } else {
        i - before
    };
    let end = if lines.len() <= i + 1 + after {
        lines.len() as int
    } else {
        i + 1 + after
    };
    MatchView {
        path,
        line_number: (i + 1) as u32,
        line_text: lines[i]->0,
        context_before: line_texts(lines.subrange(start, i)),
        context_after: line_texts(lines.subrange(i + 1, end)),
    }
}

/// The matches among the first `n` lines: those that can be read and are marked.
pub open spec fn marked_lines(
    lines: Seq<Option<Seq<char>>>,
    hits: Seq<bool>,
    path: Seq<char>,
    before: nat,
    after: nat,
    n: nat,
) -> Seq<MatchView>
    decreases n,
{
    if n == 0 {
        Seq::empty()
    } else if lines[n - 1] is Some && hits[n - 1] {
        marked_lines(lines, hits, path, before, after, (n - 1) as nat).push(
            match_at(lines, path, n - 1, before, after),
        )
    } else {
        marked_lines(lines, hits, path, before, after, (n - 1) as nat)
    }
}

/// The matches in a file. Lines that cannot be read are passed over; where context is
/// wanted, they are left out before the lines are numbered.
pub open spec fn line_matches(
    lines: Seq<Option<Seq<char>>>,
    hits: Seq<bool>,
    path: Seq<char>,
    before: nat,
    after: nat,
) -> Seq<MatchView> {
    if before == 0 && after == 0 {
        marked_lines(lines, hits, path, 0, 0, lines.len())
    } else {
        let left = readable(lines);
        marked_lines(left, readable_hits(lines, hits), path, before, after, left.len())
    }
}

/// Whether all lines can be read.
pub open spec fn all_readable(lines: Seq<Option<Seq<char>>>) -> bool {
    forall|i: int| 0 <= i < lines.len() ==> #[trigger] lines[i] is Some
}

/// Leaving out what cannot be read leaves what can be read, and nothing else out.
pub proof fn lemma_readable(lines: Seq<Option<Seq<char>>>, hits: Seq<bool>)
    requires
        lines.len() == hits.len(),
    ensures
        all_readable(readable(lines)),
        readable(lines).len() == readable_hits(lines, hits).len(),
        all_readable(lines) ==> readable(lines) == lines && readable_hits(lines, hits) == hits,
        forall|k: int|
            0 <= k < readable(lines).len() ==> has_mark(
                lines,
                hits,
                #[trigger] readable(lines)[k],
                readable_hits(lines, hits)[k],
            ),
    decreases lines.len(),
{
    if lines.len() > 0 {
        let before = lines.drop_last();
        let marks = hits.drop_last();
        let n = lines.len() - 1;
        lemma_readable(before, marks);
        if all_readable(lines) {
            assert forall|i: int| 0 <= i < before.len() implies #[trigger] before[i] is Some by {
                assert(lines[i] is Some);
            }
            assert(lines[n] is Some);
            assert(readable(lines) =~= lines);
            assert(readable_hits(lines, hits) =~= hits);
        }
        assert forall|k: int| 0 <= k < readable(lines).len() implies has_mark(
            lines,
            hits,
            #[trigger] readable(lines)[k],
            readable_hits(lines, hits)[k],
        ) by {
            if k < readable(before).len() {
                assert(has_mark(before, marks, readable(before)[k], readable_hits(before, marks)[k]));
                let i = choose|i: int|
                    0 <= i < before.len() && #[trigger] before[i] == readable(before)[k] && marks[i] == readable_hits(
                        before,
                        marks,
                    )[k];
                assert(lines[i] == readable(lines)[k]);
            } else {
                assert(lines[n] == readable(lines)[k]);
            }
        }
    } else {
        assert(readable(lines) =~= lines);
        assert(readable_hits(lines, hits) =~= hits);
    }
}

/// Whether a line with a mark is among lines with their marks.
pub open spec fn has_mark(lines: Seq<Option<Seq<char>>>, hits: Seq<bool>, line: Option<Seq<char>>, hit: bool) -> bool {
    exists|i: int| 0 <= i < lines.len() && #[trigger] lines[i] == line && hits[i] == hit
}

/// A string with the characters of another.
pub(crate) fn copy_str(s: &str) -> (out: String)
    ensures
        out@ == s@,
{
    let mut out = String::new();
    out.append(s);
    assert(out@ =~= s@);
    out
}

/// Copies the texts of the lines from `start` to before `end`.
fn copy_lines(lines: &[Option<String>], start: usize, end: usize) -> (out: Vec<String>)
    requires
        start <= end <= lines@.len(),
        forall|i: int| start <= i < end ==> #[trigger] matching::line_views(lines@)[i] is Some,
    ensures
        text::texts(out@) == line_texts(matching::line_views(lines@).subrange(start as int, end as int)),
{
    let ghost views = matching::line_views(lines@);
    let mut out: Vec<String> = Vec::new();
    let mut i: usize = start;
    assert(text::texts(out@) =~= line_texts(views.subrange(start as int, start as int)));
    while i < end
        invariant
            start <= i <= end <= lines@.len(),
            views == matching::line_views(lines@),
            forall|k: int| start <= k < end ==> #[trigger] views[k] is Some,
            text::texts(out@) == line_texts(views.subrange(start as int, i as int)),
        decreases end - i,
    {
        let ghost before = text::texts(out@);
        assert(views[i as int] is Some);
        match &lines[i] {
            Some(line) => {
                assert(views[i as int] == Some(line@));
                out.push(line.clone());
                proof {
                    assert(text::texts(out@) =~= before.push(line@));
                    assert(line_texts(views.subrange(start as int, i + 1)) =~= before.push(line@));
                }
            },
            None => {
                assert(false);
            },
        }
        i += 1;
    }
    out
}

/// Leaves out the lines that cannot be read, with their marks.
fn keep_readable(lines: &[Option<String>], hits: &[bool]) -> (out: (Vec<Option<String>>, Vec<bool>))
    requires
        lines@.len() == hits@.len(),
    ensures
        matching::line_views(out.0@) == readable(matching::line_views(lines@)),
        out.1@ == readable_hits(matching::line_views(lines@), hits@),
{
    let ghost views = matching::line_views(lines@);
    let mut left: Vec<Option<String>> = Vec::new();
    let mut marks: Vec<bool> = Vec::new();
    let mut i: usize = 0;
    assert(matching::line_views(left@) =~= readable(views.take(0)));
    while i < lines.len()
        invariant
            i <= lines@.len(),
            lines@.len() == hits@.len(),
            views == matching::line_views(lines@),
            matching::line_views(left@) == readable(views.take(i as int)),
            marks@ == readable_hits(views.take(i as int), hits@.take(i as int)),
        decreases lines@.len() - i,
    {
        let ghost before = matching::line_views(left@);
        proof {
            assert(views.take(i + 1).drop_last() =~= views.take(i as int));
            assert(hits@.take(i + 1).drop_last() =~= hits@.take(i as int));
            assert(views.take(i + 1).last() == views[i as int]);
        }
        match &lines[i] {
            Some(line) => {
                assert(views[i as int] == Some(line@));
                left.push(Some(line.clone()));
                marks.push(hits[i]);
                assert(matching::line_views(left@) =~= before.push(Some(line@)));
            },
            None => {
                assert(views[i as int] is None);
            },
        }
        i += 1;
    }
    proof {
        assert(views.take(i as int) =~= views);
        assert(hits@.take(i as int) =~= hits@);
    }
    (left, marks)
}

/// Collects the matches on marked lines, which can all be read where context is wanted.
fn collect_marked(
    lines: &[Option<String>],
    hits: &[bool],
    rel_path: &str,
    context_before: usize,
    context_after: usize,
) -> (out: Vec<SearchMatch>)
    requires
        lines@.len() == hits@.len(),
        (context_before == 0 && context_after == 0) || all_readable(matching::line_views(lines@)),
    ensures
        match_views(out@) == marked_lines(
            matching::line_views(lines@),
            hits@,
            rel_path@,
            context_before as nat,
            context_after as nat,
            lines@.len(),
        ),
{
    let ghost views = matching::line_views(lines@);
    let mut out: Vec<SearchMatch> = Vec::new();
    let mut i: usize = 0;
    assert(match_views(out@) =~= Seq::<MatchView>::empty());
    while i < lines.len()
        invariant
            i <= lines@.len(),
            lines@.len() == hits@.len(),
            views == matching::line_views(lines@),
            (context_before == 0 && context_after == 0) || all_readable(views),
            match_views(out@) == marked_lines(
                views,
                hits@,
                rel_path@,
                context_before as nat,
                context_after as nat,
                i as nat,
            ),
        decreases lines@.len() - i,
    {
        let ghost earlier = match_views(out@);
        match &lines[i] {
            Some(line) => {
                assert(views[i as int] == Some(line@));
                if hits[i] {
                    let start: usize = if i <= context_before {
                        0
                    } else {
                        i - context_before
                    };
                    let end: usize = if lines.len() - i - 1 <= context_after {
                        lines.len()
                    } else {
                        i + 1 + context_after
                    };
                    let found = SearchMatch {
                        path: copy_str(rel_path),
                        line_number: (i + 1) as u32,
                        line_text: line.clone(),
                        context_before: copy_lines(lines, start, i),
                        context_after: copy_lines(lines, i + 1, end),
                    };
                    assert(found@ =~= match_at(
                        views,
                        rel_path@,
                        i as int,
                        context_before as nat,
                        context_after as nat,
                    ));
                    out.push(found);
                    assert(match_views(out@) =~= earlier.push(found@));
                }
            },
            None => {
                assert(views[i as int] is None);
            },
        }
        i += 1;
    }
    out
}

/// Collects the matches in a file from its lines and from which of them match.
pub fn collect_matches(
    lines: &[Option<String>],
    hits: &[bool],
    rel_path: &str,
    context_before: usize,
    context_after: usize,
) -> (out: Vec<SearchMatch>)
    requires
        lines@.len() == hits@.len(),
    ensures
        match_views(out@) == line_matches(
            matching::line_views(lines@),
            hits@,
            rel_path@,
            context_before as nat,
            context_after as nat,
        ),
{
    if context_before == 0 && context_after == 0 {
        return collect_marked(lines, hits, rel_path, 0, 0);
    }
    proof {
        lemma_readable(matching::line_views(lines@), hits@);
    }
    let (left, marks) = keep_readable(lines, hits);
    assert(matching::line_views(left@).len() == left@.len());
    collect_marked(left.as_slice(), marks.as_slice(), rel_path, context_before, context_after)
}

/// Which lines a pattern matches in.
pub open spec fn line_hits(source: (Seq<char>, bool), lines: Seq<Option<Seq<char>>>) -> Seq<bool> {
    lines.map_values(
        |line: Option<Seq<char>>|
            match line {
                Some(t) => matching::matches(source, t),
                None => false,
            },
    )
}

/// Marks the lines that a compiled pattern matches in.
pub(crate) fn mark_lines(lines: &[Option<String>], re: &Regex) -> (hits: Vec<bool>)
    ensures
        hits@ == line_hits(matching::made_with(*re), matching::line_views(lines@)),
{
    let ghost views = matching::line_views(lines@);
    let ghost want = line_hits(matching::made_with(*re), views);
    let mut hits: Vec<bool> = Vec::new();
    let mut i: usize = 0;
    while i < lines.len()
        invariant
            i <= lines@.len(),
            views == matching::line_views(lines@),
            want == line_hits(matching::made_with(*re), views),
            hits@.len() == i,
            forall|k: int| 0 <= k < i ==> hits@[k] == want[k],
        decreases lines@.len() - i,
    {
        let hit: bool = match &lines[i] {
            Some(line) => is_match(re, line.as_str()),
            None => false,
        };
        hits.push(hit);
        i += 1;
    }
    assert(hits@ =~= want);
    hits
}

/// The matches of a pattern in a file: none where it could not be read, and one for
/// the whole file where only file names are wanted.
pub open spec fn file_matches(
    contents: Option<Seq<u8>>,
    path: Seq<char>,
    source: (Seq<char>, bool),
    files_only: bool,
    before: nat,
    after: nat,
) -> Seq<MatchView> {
    match contents {
        None => Seq::empty(),
        Some(bytes) => {
            let lines = matching::file_lines(bytes);
            let hits = line_hits(source, lines);
            if files_only {
                if line_matches(lines, hits, path, 0, 0).len() > 0 {
                    seq![file_match(path)]
                } else {
                    Seq::empty()
                }
            } else {
                line_matches(lines, hits, path, before, after)
            }
        },
    }
}

/// The bytes of contents that could be read.
pub open spec fn content_view(contents: Option<&[u8]>) -> Option<Seq<u8>> {
    match contents {
        Some(bytes) => Some(bytes@),
        None => None,
    }
}

/// A match that stands for a whole file.
pub(crate) fn whole_file(path: &str) -> (m: SearchMatch)
    ensures
        m@ == file_match(path@),
{
    let none_before: Vec<String> = Vec::new();
    let none_after: Vec<String> = Vec::new();
    let m = SearchMatch {
        path: copy_str(path),
        line_number: 0,
        line_text: String::new(),
        context_before: none_before,
        context_after: none_after,
    };
    assert(m@ =~= file_match(path@));
    m
}

/// Searches the contents of a file.
pub(crate) fn search_file(
    contents: Option<&[u8]>,
    rel_path: &str,
    re: &Regex,
    files_only: bool,
    context_before: usize,
    context_after: usize,
) -> (out: Vec<SearchMatch>)
    ensures
        match_views(out@) == file_matches(
            content_view(contents),
            rel_path@,
            matching::made_with(*re),
            files_only,
            context_before as nat,
            context_after as nat,
        ),
{
    match contents {
        None => {
            let none: Vec<SearchMatch> = Vec::new();
            assert(match_views(none@) =~= Seq::<MatchView>::empty());
            none
        },
        Some(bytes) => {
            let lines = split_file(bytes);
            let hits = mark_lines(lines.as_slice(), re);
            if files_only {
                let found = collect_matches(lines.as_slice(), hits.as_slice(), rel_path, 0, 0);
                assert(match_views(found@).len() == found@.len());
                let mut out: Vec<SearchMatch> = Vec::new();
                if found.len() > 0 {
                    out.push(whole_file(rel_path));
                    assert(match_views(out@) =~= seq![file_match(rel_path@)]);
                } else {
                    assert(match_views(out@) =~= Seq::<MatchView>::empty());
                }
                out
            } else {
                collect_matches(lines.as_slice(), hits.as_slice(), rel_path, context_before, context_after)
            }
        },
    }
}

/// The contents of files that could be read.
pub open spec fn content_views(contents: Seq<Option<&[u8]>>) -> Seq<Option<Seq<u8>>> {
    contents.map_values(|c: Option<&[u8]>| content_view(c))
}

/// Appends matches.
pub(crate) fn push_matches(out: &mut Vec<SearchMatch>, more: Vec<SearchMatch>)
    ensures
        match_views(final(out)@) == match_views(old(out)@) + match_views(more@),
{
    let mut rest = more;
    out.append(&mut rest);
    assert(match_views(out@) =~= match_views(old(out)@) + match_views(more@));
}

// ---------------------------------------------------------------------------
// What matches are
// ---------------------------------------------------------------------------

/// The matches on marked lines: one for each line that can be read and is marked, in the
/// order of the lines.
pub proof fn lemma_marked_lines(
    lines: Seq<Option<Seq<char>>>,
    hits: Seq<bool>,
    path: Seq<char>,
    before: nat,
    after: nat,
    n: nat,
)
    requires
        n <= lines.len() == hits.len(),
        lines.len() <= u32::MAX,
    ensures
        ({
            let out = marked_lines(lines, hits, path, before, after, n);
            &&& forall|k: int|
                0 <= k < out.len() ==> {
                    let i = (#[trigger] out[k]).line_number - 1;
                    0 <= i < n && lines[i] is Some && hits[i] && out[k] == match_at(lines, path, i, before, after)
                }
            &&& forall|j: int, k: int|
                0 <= j < k < out.len() ==> (#[trigger] out[j]).line_number < (#[trigger] out[k]).line_number
            &&& forall|i: int|
                0 <= i < n && (#[trigger] lines[i]) is Some && hits[i] ==> exists|k: int|
                    0 <= k < out.len() && (#[trigger] out[k]).line_number == i + 1
        }),
    decreases n,
{
    let out = marked_lines(lines, hits, path, before, after, n);
    if n > 0 {
        let m = (n - 1) as nat;
        lemma_marked_lines(lines, hits, path, before, after, m);
        let earlier = marked_lines(lines, hits, path, before, after, m);
        assert forall|k: int| 0 <= k < out.len() implies ({
            let i = (#[trigger] out[k]).line_number - 1;
            0 <= i < n && lines[i] is Some && hits[i] && out[k] == match_at(lines, path, i, before, after)
        }) by {
            if k < earlier.len() {
                assert(out[k] == earlier[k]);
            }
        }
        assert forall|j: int, k: int| 0 <= j < k < out.len() implies (#[trigger] out[j]).line_number < (
        #[trigger] out[k]).line_number by {
            assert(out[j] == earlier[j]);
            if k < earlier.len() {
                assert(out[k] == earlier[k]);
            }
        }
        assert forall|i: int| 0 <= i < n && (#[trigger] lines[i]) is Some && hits[i] implies exists|k: int|
            0 <= k < out.len() && (#[trigger] out[k]).line_number == i + 1 by {
            if i < m {
                let k = choose|k: int| 0 <= k < earlier.len() && (#[trigger] earlier[k]).line_number == i + 1;
                assert(out[k].line_number == i + 1);
            } else {
                assert(out[earlier.len() as int].line_number == i + 1);
            }
        }
    }
}

/// Without context, the matches in a file are its lines in which the pattern matches, all
/// of them and no others, in their order, each with the path, its number counted from one
/// over all lines, and its text.
pub proof fn law_matches_are_the_matching_lines(contents: Seq<u8>, path: Seq<char>, source: (Seq<char>, bool))
    requires
        matching::file_lines(contents).len() <= u32::MAX,
    ensures
        ({
            let lines = matching::file_lines(contents);
            let out = file_matches(Some(contents), path, source, false, 0, 0);
            &&& forall|k: int|
                0 <= k < out.len() ==> {
                    let m = #[trigger] out[k];
                    &&& m.path == path
                    &&& 1 <= m.line_number <= lines.len()
                    &&& lines[m.line_number - 1] == Some(m.line_text)
                    &&& matching::match_spans(source.0, source.1, m.line_text).len() > 0
                    &&& m.context_before.len() == 0
                    &&& m.context_after.len() == 0
                }
            &&& forall|j: int, k: int|
                0 <= j < k < out.len() ==> (#[trigger] out[j]).line_number < (#[trigger] out[k]).line_number
            &&& forall|i: int|
                0 <= i < lines.len() && (#[trigger] lines[i]) is Some && matching::match_spans(
                    source.0,
                    source.1,
                    lines[i]->0,
                ).len() > 0 ==> exists|k: int| 0 <= k < out.len() && (#[trigger] out[k]).line_number == i + 1
        }),
{
    let lines = matching::file_lines(contents);
    let hits = line_hits(source, lines);
    let out = file_matches(Some(contents), path, source, false, 0, 0);
    lemma_marked_lines(lines, hits, path, 0, 0, lines.len());
    assert forall|k: int| 0 <= k < out.len() implies ({
        let m = #[trigger] out[k];
        &&& m.path == path
        &&& 1 <= m.line_number <= lines.len()
        &&& lines[m.line_number - 1] == Some(m.line_text)
        &&& matching::match_spans(source.0, source.1, m.line_text).len() > 0
        &&& m.context_before.len() == 0
        &&& m.context_after.len() == 0
    }) by {
        let i = out[k].line_number - 1;
        assert(hits[i]);
    }
}

/// With context, the lines that cannot be read are left out first. The matches are the
/// lines left in which the pattern matches, in their order; each comes with as many lines
/// right before it and right after it as are wanted and there, in the order of the file.
pub proof fn law_context_is_the_lines_around(
    contents: Seq<u8>,
    path: Seq<char>,
    source: (Seq<char>, bool),
    before: nat,
    after: nat,
)
    requires
        matching::file_lines(contents).len() <= u32::MAX,
        before > 0 || after > 0,
    ensures
        ({
            let left = matching::file_lines(contents).filter(|line: Option<Seq<char>>| line is Some);
            let out = file_matches(Some(contents), path, source, false, before, after);
            &&& forall|k: int|
                0 <= k < out.len() ==> {
                    let m = #[trigger] out[k];
                    let b = m.context_before.len();
                    let a = m.context_after.len();
                    &&& m.path == path
                    &&& 1 <= m.line_number <= left.len()
                    &&& left[m.line_number - 1] == Some(m.line_text)
                    &&& matching::match_spans(source.0, source.1, m.line_text).len() > 0
                    &&& b == (if m.line_number - 1 < before {
                        m.line_number - 1
                    } else {
                        before as int
                    })
                    &&& a == (if left.len() - m.line_number < after {
                        left.len() - m.line_number
                    } else {
                        after as int
                    })
                    &&& forall|j: int| 0 <= j < b ==> left[m.line_number - 1 - b + j] == Some(#[trigger] m.context_before[j])
                    &&& forall|j: int| 0 <= j < a ==> left[m.line_number + j] == Some(#[trigger] m.context_after[j])
                }
            &&& forall|j: int, k: int|
                0 <= j < k < out.len() ==> (#[trigger] out[j]).line_number < (#[trigger] out[k]).line_number
            &&& forall|i: int|
                0 <= i < left.len() && matching::match_spans(source.0, source.1, (#[trigger] left[i])->0).len() > 0
                    ==> exists|k: int| 0 <= k < out.len() && (#[trigger] out[k]).line_number == i + 1
        }),
{
    let lines = matching::file_lines(contents);
    let hits = line_hits(source, lines);
    let left = lines.filter(|line: Option<Seq<char>>| line is Some);
    let marks = readable_hits(lines, hits);
    let out = file_matches(Some(contents), path, source, false, before, after);
    lemma_readable(lines, hits);
    lemma_readable_is_filter(lines);
    lemma_readable_shorter(lines);
    assert(readable(lines) == left);
    assert forall|k: int| 0 <= k < left.len() implies (#[trigger] left[k]) is Some && marks[k] == (
    matching::match_spans(source.0, source.1, left[k]->0).len() > 0) by {
        assert(has_mark(lines, hits, readable(lines)[k], marks[k]));
        let i = choose|i: int| 0 <= i < lines.len() && #[trigger] lines[i] == left[k] && hits[i] == marks[k];
        assert(readable(lines)[k] is Some);
    }
    lemma_marked_lines(left, marks, path, before, after, left.len());
    assert forall|k: int| 0 <= k < out.len() implies ({
        let m = #[trigger] out[k];
        let b = m.context_before.len();
        let a = m.context_after.len();
        &&& m.path == path
        &&& 1 <= m.line_number <= left.len()
        &&& left[m.line_number - 1] == Some(m.line_text)
        &&& matching::match_spans(source.0, source.1, m.line_text).len() > 0
        &&& b == (if m.line_number - 1 < before {
            m.line_number - 1
        } else {
            before as int
        })
        &&& a == (if left.len() - m.line_number < after {
            left.len() - m.line_number
        } else {
            after as int
        })
        &&& forall|j: int| 0 <= j < b ==> left[m.line_number - 1 - b + j] == Some(#[trigger] m.context_before[j])
        &&& forall|j: int| 0 <= j < a ==> left[m.line_number + j] == Some(#[trigger] m.context_after[j])
    }) by {
        let i = out[k].line_number - 1;
        assert(left[i] is Some);
        assert(out[k] == match_at(left, path, i, before, after));
        let m = out[k];
        let b = m.context_before.len();
        assert forall|j: int| 0 <= j < b implies left[m.line_number - 1 - b + j] == Some(
            #[trigger] m.context_before[j],
        ) by {
            assert(left[m.line_number - 1 - b + j] is Some);
        }
        assert forall|j: int| 0 <= j < m.context_after.len() implies left[m.line_number + j] == Some(
            #[trigger] m.context_after[j],
        ) by {
            assert(left[m.line_number + j] is Some);
        }
    }
}

proof fn lemma_readable_is_filter(lines: Seq<Option<Seq<char>>>)
    ensures
        readable(lines) == lines.filter(|line: Option<Seq<char>>| line is Some),
    decreases lines.len(),
{
    reveal(Seq::filter);
    if lines.len() > 0 {
        lemma_readable_is_filter(lines.drop_last());
    } else {
        assert(readable(lines) =~= lines.filter(|line: Option<Seq<char>>| line is Some));
    }
}

proof fn lemma_readable_shorter(lines: Seq<Option<Seq<char>>>)
    ensures
        readable(lines).len() <= lines.len(),
    decreases lines.len(),
{
    if lines.len() > 0 {
        lemma_readable_shorter(lines.drop_last());
    }
}

/// Where only file names are wanted, a file is named once, with no line, number or
/// context, exactly if the pattern matches in a line of it that can be read; the wanted
/// context does not matter. A file that could not be read has no match.
pub proof fn law_file_is_named_if_a_line_matches(
    contents: Seq<u8>,
    path: Seq<char>,
    source: (Seq<char>, bool),
    files_only: bool,
    before: nat,
    after: nat,
)
    requires
        matching::file_lines(contents).len() <= u32::MAX,
    ensures
        ({
            let lines = matching::file_lines(contents);
            let out = file_matches(Some(contents), path, source, true, before, after);
            &&& out.len() == (if exists|i: int|
                0 <= i < lines.len() && (#[trigger] lines[i]) is Some && matching::match_spans(
                    source.0,
                    source.1,
                    lines[i]->0,
                ).len() > 0 {
                1int
            } else {
                0
            })
            &&& forall|k: int|
                0 <= k < out.len() ==> {
                    let m = #[trigger] out[k];
                    m.path == path && m.line_number == 0 && m.line_text.len() == 0 && m.context_before.len() == 0
                        && m.context_after.len() == 0
                }
        }),
        file_matches(None, path, source, files_only, before, after).len() == 0,
{
    let lines = matching::file_lines(contents);
    let hits = line_hits(source, lines);
    let found = marked_lines(lines, hits, path, 0, 0, lines.len());
    lemma_marked_lines(lines, hits, path, 0, 0, lines.len());
    if found.len() > 0 {
        let i = found[0].line_number - 1;
        assert(lines[i] is Some && hits[i]);
    }
    if exists|i: int|
        0 <= i < lines.len() && (#[trigger] lines[i]) is Some && matching::match_spans(
            source.0,
            source.1,
            lines[i]->0,
        ).len() > 0 {
        let i = choose|i: int|
            0 <= i < lines.len() && (#[trigger] lines[i]) is Some && matching::match_spans(
                source.0,
                source.1,
                lines[i]->0,
            ).len() > 0;
        assert(hits[i]);
    }
}

/// A match is numbered by the newline bytes ahead of it in the file. A line that stands
/// between two newlines, or between a newline and an end of the file, less one carriage
/// return before its newline, gives a match exactly if it is UTF-8 and the pattern matches
/// in its text; that match has this text, and as number one more than the newlines ahead
/// of the line.
pub proof fn law_match_number_counts_newlines(
    contents: Seq<u8>,
    path: Seq<char>,
    source: (Seq<char>, bool),
    start: int,
    end: int,
)
    requires
        matching::file_lines(contents).len() <= u32::MAX,
        0 <= start <= end <= contents.len(),
        start < contents.len(),
        start == 0 || contents[start - 1] == 10,
        end == contents.len() || contents[end] == 10,
        forall|k: int| start <= k < end ==> #[trigger] contents[k] != 10,
    ensures
        ({
            let number = contents.take(start).to_multiset().count(10u8) + 1;
            let part = contents.subrange(start, end);
            let bytes = if end < contents.len() && part.len() > 0 && part.last() == 13 {
                part.drop_last()
            } else {
                part
            };
            let out = file_matches(Some(contents), path, source, false, 0, 0);
            &&& (exists|k: int| 0 <= k < out.len() && (#[trigger] out[k]).line_number == number) <==> (
            vstd::utf8::valid_utf8(bytes) && matching::match_spans(
                source.0,
                source.1,
                vstd::utf8::decode_utf8(bytes),
            ).len() > 0)
            &&& forall|k: int|
                0 <= k < out.len() && (#[trigger] out[k]).line_number == number ==> vstd::utf8::encode_utf8(
                    out[k].line_text,
                ) == bytes && out[k].path == path
        }),
{
    let n = contents.take(start).to_multiset().count(10u8) as int;
    let part = contents.subrange(start, end);
    let bytes = if end < contents.len() && part.len() > 0 && part.last() == 13 {
        part.drop_last()
    } else {
        part
    };
    let lines = matching::file_lines(contents);
    let out = file_matches(Some(contents), path, source, false, 0, 0);
    matching::law_file_line_between_newlines(contents, start, end);
    law_matches_are_the_matching_lines(contents, path, source);
    if lines[n] is Some {
        vstd::utf8::encode_utf8_decode_utf8(lines[n]->0);
        assert(vstd::utf8::decode_utf8(bytes) == lines[n]->0);
    }
    assert forall|k: int| 0 <= k < out.len() && (#[trigger] out[k]).line_number == n + 1 implies lines[n] == Some(
        out[k].line_text,
    ) by {
        assert(lines[out[k].line_number - 1] == Some(out[k].line_text));
    }
}

} // verus!
