//! Matching lines with a compiled regular expression.

use crate::narrowing;
use crate::pattern;
use crate::pattern::PatternView;
use crate::text;
use crate::text::utf8_text;
use regex::Regex;
use vstd::prelude::*;
use vstd::utf8::*;

verus! {

// ---------------------------------------------------------------------------
// Compiled regular expressions
// ---------------------------------------------------------------------------

/// `regex::Regex`: a compiled regular expression.
#[verifier::external_type_specification]
#[verifier::external_body]
pub struct ExRegex(Regex);

/// What a compiled regular expression was made with: the pattern, and whether case
/// is ignored.
pub uninterp spec fn made_with(re: Regex) -> (Seq<char>, bool);

/// The message with which the compiler refuses a pattern on a machine whose words
/// have so many bits, or `None` where the pattern compiles.
pub uninterp spec fn build_error(pattern: Seq<char>, case_insensitive: bool, word_bits: u32) -> Option<Seq<char>>;

/// The message with which a pattern is refused, or `None` where it compiles.
pub open spec fn refusal(pattern: Seq<char>, case_insensitive: bool) -> Option<Seq<char>> {
    build_error(pattern, case_insensitive, usize::BITS)
}

/// Where a pattern matches in a text: the starts and ends of the successive
/// matches, in bytes of the text's UTF-8 encoding.
pub uninterp spec fn match_spans(pattern: Seq<char>, case_insensitive: bool, text: Seq<char>) -> Seq<(usize, usize)>;

/// Whether a pattern, with or without regard to case, matches somewhere in a text.
pub open spec fn matches(source: (Seq<char>, bool), text: Seq<char>) -> bool {
    match_spans(source.0, source.1, text).len() > 0
}

/// Whether spans lie within a text on boundaries of its characters, each after the
/// one before.
pub open spec fn spans_fit(spans: Seq<(usize, usize)>, text: Seq<char>) -> bool {
    let bytes = encode_utf8(text);
    &&& forall|k: int|
        #![trigger spans[k]]
        0 <= k < spans.len() ==> spans[k].0 <= spans[k].1 <= bytes.len() && is_char_boundary(bytes, spans[k].0 as int)
            && is_char_boundary(bytes, spans[k].1 as int)
    &&& forall|j: int, k: int| 0 <= j < k < spans.len() ==> (#[trigger] spans[j]).1 <= (#[trigger] spans[k]).0
}

/// Whether a match is one that the tree of its pattern can have, up to case where
/// case is ignored.
pub open spec fn match_explained(tree: PatternView, case_insensitive: bool, s: Seq<u8>) -> bool {
    if case_insensitive {
        narrowing::may_match_folded(tree, s)
    } else {
        narrowing::may_match(tree, s)
    }
}

/// Whether every match of a pattern in a text is one that the tree can have.
pub open spec fn explained(tree: PatternView, pattern: Seq<char>, case_insensitive: bool, text: Seq<char>) -> bool {
    let spans = match_spans(pattern, case_insensitive, text);
    &&& spans_fit(spans, text)
    &&& forall|k: int|
        #![trigger spans[k]]
        0 <= k < spans.len() ==> match_explained(
            tree,
            case_insensitive,
            encode_utf8(text).subrange(spans[k].0 as int, spans[k].1 as int),
        )
}

/// Whether a pattern holds no bracket but escaped ones, and so no class in brackets.
pub open spec fn bracket_free(pattern: Seq<char>) -> bool
    decreases pattern.len(),
{
    if pattern.len() == 0 {
        true
    } else if pattern[0] == '\\' {
        pattern.len() == 1 || bracket_free(pattern.skip(2))
    } else {
        pattern[0] != '[' && bracket_free(pattern.drop_first())
    }
}

/// Whether no class of a pattern is an intersection, a difference or a complement:
/// none of their operators occurs, and a caret stands only at the start, after an
/// opening parenthesis or after a bar, where it is an anchor.
pub open spec fn only_unions(pattern: Seq<char>) -> bool {
    &&& forall|i: int|
        0 <= i < pattern.len() - 1 && #[trigger] pattern[i] == pattern[i + 1] ==> pattern[i] != '&' && pattern[i] != '-'
            && pattern[i] != '~'
    &&& forall|i: int|
        0 < i < pattern.len() && #[trigger] pattern[i] == '^' ==> pattern[i - 1] == '(' || pattern[i - 1] == '|'
}

/// How many characters open a class: the bracket, a caret that makes it a complement,
/// and a closing bracket right behind, which stands for itself.
pub open spec fn opening_len(pattern: Seq<char>) -> int {
    let n: int = if pattern.len() > 1 && pattern[1] == '^' {
        2
    } else {
        1
    };
    if n < pattern.len() && pattern[n] == ']' {
        n + 1
    } else {
        n
    }
}

/// Whether no class of a pattern is made from others but by union, and complements are
/// taken only of characters, ranges and escapes other than Unicode properties. `depth`
/// tells how many classes are open, and `complement` whether the open one is a complement.
pub open spec fn simple_classes(pattern: Seq<char>, depth: nat, complement: bool) -> bool
    decreases pattern.len(),
{
    if pattern.len() == 0 {
        true
    } else if pattern[0] == '\\' {
        pattern.len() == 1 || (!(complement && (pattern[1] == 'p' || pattern[1] == 'P')) && simple_classes(
            pattern.skip(2),
            depth,
            complement,
        ))
    } else if pattern[0] == '[' {
        let caret = pattern.len() > 1 && pattern[1] == '^';
        !complement && !(depth > 0 && caret) && simple_classes(pattern.skip(opening_len(pattern)), depth + 1, caret)
    } else if depth > 0 && pattern[0] == ']' {
        simple_classes(pattern.skip(1), (depth - 1) as nat, false)
    } else {
        let doubled = pattern.len() > 1 && pattern[0] == pattern[1];
        let operator = doubled && (pattern[0] == '&' || pattern[0] == '-' || pattern[0] == '~');
        !(depth > 0 && operator) && simple_classes(pattern.skip(1), depth, complement)
    }
}

/// Whether a character is a flag of a group, or the sign that clears the flags behind it.
pub open spec fn is_flag(c: char) -> bool {
    c == 'i' || c == 'm' || c == 's' || c == 'U' || c == 'u' || c == 'R' || c == 'x' || c == '-'
}

/// Whether a group of a pattern has the flag under which white space and comments are
/// passed over.
pub open spec fn sets_verbose(pattern: Seq<char>) -> bool {
    exists|i: int, j: int|
        0 <= i && i + 2 <= j < pattern.len() && #[trigger] pattern[i] == '(' && pattern[i + 1] == '?' && #[trigger] pattern[j]
            == 'x' && forall|k: int| i + 2 <= k < j ==> is_flag(#[trigger] pattern[k])
}

/// Whether the classes of a pattern match no more when case is ignored than the case
/// variants of what they match else. That is not so where a class is made from others by
/// more than union, since case is folded before the classes are combined. A complement of
/// plain members is smaller when case is ignored.
pub open spec fn folds_alike(pattern: Seq<char>) -> bool {
    ||| bracket_free(pattern)
    ||| only_unions(pattern)
    ||| !sets_verbose(pattern) && simple_classes(pattern, 0, false)
}

/// `regex::RegexBuilder::build` of a pattern with the other settings at their
/// defaults. Whether a pattern compiles is a matter of the pattern, of case, and of
/// how many bytes the compiled program takes, which goes by the width of a word. A
/// pattern that compiles is one that `regex_syntax` parses by default.
///
/// The compiled expression is that of the pattern as `regex_syntax` parses it by
/// default, so what it matches is a match of the parsed tree: a literal matches its
/// bytes, a concatenation its parts one after the other, an alternation one of its
/// parts, an assertion nothing. Where case is ignored and the classes of the pattern
/// fold alike, the characters of a literal match by simple case folding: an ASCII
/// letter matches either case, a `k` also the Kelvin sign, an `s` also the long s, and
/// any other ASCII character or character without case nothing but itself. Nothing is
/// said of the matches of other patterns where case is ignored.
#[verifier::external_body]
pub(crate) fn compile(pattern: &str, case_insensitive: bool) -> (r: Result<Regex, String>)
    ensures
        match r {
            Ok(re) => {
                &&& build_error(pattern@, case_insensitive, usize::BITS) is None
                &&& made_with(re) == (pattern@, case_insensitive)
                &&& pattern::parsed(pattern@) is Ok
                &&& !case_insensitive || folds_alike(pattern@) ==> forall|text: Seq<char>| #[trigger]
                    explained(pattern::parsed(pattern@)->Ok_0, pattern@, case_insensitive, text)
            },
            Err(message) => build_error(pattern@, case_insensitive, usize::BITS) == Some(message@),
        },
{
    let built = regex::RegexBuilder::new(pattern).case_insensitive(case_insensitive).build();
    built.map_err(|e| e.to_string())
}

/// `regex::Regex::is_match`: whether there is a match anywhere in the text.
#[verifier::external_body]
pub(crate) fn is_match(re: &Regex, text: &str) -> (r: bool)
    ensures
        r == matches(made_with(*re), text@),
{
    re.is_match(text)
}

/// `regex::Regex::find_iter`: the starts and ends of the successive matches, which
/// do not overlap and lie on boundaries of characters.
#[verifier::external_body]
pub(crate) fn find_spans(re: &Regex, text: &str) -> (spans: Vec<(usize, usize)>)
    ensures
        spans@ == match_spans(made_with(*re).0, made_with(*re).1, text@),
        spans_fit(spans@, text@),
{
    re.find_iter(text).map(|m| (m.start(), m.end())).collect()
}

// ---------------------------------------------------------------------------
// Lines of a file
// ---------------------------------------------------------------------------

/// The position of the first newline in bytes, or their number where there is none.
pub open spec fn newline(s: Seq<u8>) -> nat
    decreases s.len(),
{
    if s.len() == 0 || s[0] == 10 {
        0
    } else {
        1 + newline(s.drop_first())
    }
}

/// A line without the carriage return before its newline.
pub open spec fn without_return(line: Seq<u8>) -> Seq<u8> {
    if line.len() > 0 && line.last() == 13 {
        line.drop_last()
    } else {
        line
    }
}

/// The text of a line, where its bytes are UTF-8.
pub open spec fn line_text(line: Seq<u8>) -> Option<Seq<char>> {
    if valid_utf8(line) {
        Some(decode_utf8(line))
    } else {
        None
    }
}

/// The lines of a file: the stretches that end with a newline, without it and
/// without a carriage return before it, and what follows the last newline where
/// that is not empty. A line that is not UTF-8 cannot be read.
pub open spec fn file_lines(contents: Seq<u8>) -> Seq<Option<Seq<char>>>
    decreases contents.len(),
{
    let i = newline(contents) as int;
    if contents.len() == 0 {
        Seq::empty()
    } else if i >= contents.len() {
        seq![line_text(contents)]
    } else {
        seq![line_text(without_return(contents.take(i)))] + file_lines(contents.skip(i + 1))
    }
}

/// The texts of lines.
pub open spec fn line_views(lines: Seq<Option<String>>) -> Seq<Option<Seq<char>>> {
    lines.map_values(
        |line: Option<String>|
            match line {
                Some(s) => Some(s@),
                None => None,
            },
    )
}

proof fn lemma_newline(s: Seq<u8>, i: int)
    requires
        0 <= i <= s.len(),
        forall|k: int| 0 <= k < i ==> s[k] != 10,
        i < s.len() ==> s[i] == 10,
    ensures
        newline(s) == i,
    decreases s.len(),
{
    if s.len() > 0 && i > 0 {
        lemma_newline(s.drop_first(), i - 1);
    }
}

/// Splits the contents of a file into its lines.
pub fn split_file(contents: &[u8]) -> (lines: Vec<Option<String>>)
    ensures
        line_views(lines@) == file_lines(contents@),
{
    let mut lines: Vec<Option<String>> = Vec::new();
    let mut pos: usize = 0;
    proof {
        assert(contents@.skip(0) =~= contents@);
        assert(line_views(lines@) + file_lines(contents@) =~= file_lines(contents@));
    }
    while pos < contents.len()
        invariant
            pos <= contents@.len(),
            line_views(lines@) + file_lines(contents@.skip(pos as int)) == file_lines(contents@),
        decreases contents@.len() - pos,
    {
        let ghost before = line_views(lines@);
        let ghost tail = contents@.skip(pos as int);
        let mut end: usize = pos;
        while end < contents.len() && contents[end] != 10
            invariant
                pos <= end <= contents@.len(),
                forall|k: int| pos <= k < end ==> contents@[k] != 10,
            decreases contents@.len() - end,
        {
            end += 1;
        }
        let mut stop: usize = end;
        if end < contents.len() && end > pos && contents[end - 1] == 13 {
            stop = end - 1;
        }
        let bytes = vstd::slice::slice_subrange(contents, pos, stop);
        let line = utf8_text(bytes);
        proof {
            let i = end - pos;
            lemma_newline(tail, i);
            assert(tail.take(i) =~= contents@.subrange(pos as int, end as int));
            if end < contents@.len() {
                assert(without_return(tail.take(i)) =~= bytes@);
                assert(contents@.skip(end + 1) =~= tail.skip(i + 1));
            } else {
                assert(tail =~= bytes@);
            }
            if line is Some {
                encode_utf8_decode_utf8(line->0@);
            }
        }
        let ghost view = line_text(bytes@);
        lines.push(line);
        proof {
            let rest = if end < contents@.len() {
                file_lines(contents@.skip(end + 1))
            } else {
                Seq::<Option<Seq<char>>>::empty()
            };
            assert(file_lines(tail) =~= seq![view] + rest);
            assert(line_views(lines@) =~= before.push(view));
            assert(line_views(lines@) + rest =~= before + file_lines(tail));
        }
        if end < contents.len() {
            pos = end + 1;
        } else {
            pos = contents.len();
            assert(contents@.skip(pos as int) =~= Seq::<u8>::empty());
        }
    }
    proof {
        assert(contents@.skip(pos as int) =~= Seq::<u8>::empty());
        assert(line_views(lines@) =~= file_lines(contents@));
    }
    lines
}

/// Every line of a file that can be read occurs in the file.
pub proof fn law_lines_occur(contents: Seq<u8>, i: int)
    requires
        0 <= i < file_lines(contents).len(),
    ensures
        file_lines(contents)[i] matches Some(line) ==> narrowing::occurs(contents, encode_utf8(line)),
    decreases contents.len(),
{
    let n = newline(contents) as int;
    if n >= contents.len() {
        if valid_utf8(contents) {
            decode_utf8_encode_utf8(contents);
            assert(contents.subrange(0, contents.len() as int) =~= contents);
            assert(narrowing::occurs_at(contents, contents, 0));
        }
    } else if i == 0 {
        let line = without_return(contents.take(n));
        if valid_utf8(line) {
            decode_utf8_encode_utf8(line);
            assert(contents.subrange(0, line.len() as int) =~= line);
            assert(narrowing::occurs_at(contents, line, 0));
        }
    } else {
        let rest = contents.skip(n + 1);
        law_lines_occur(rest, i - 1);
        assert(file_lines(contents)[i] == file_lines(rest)[i - 1]);
        if let Some(line) = file_lines(rest)[i - 1] {
            let bytes = encode_utf8(line);
            let a = choose|a: int| narrowing::occurs_at(rest, bytes, a);
            assert(contents.subrange(a + n + 1, a + n + 1 + bytes.len()) =~= rest.subrange(a, a + bytes.len()));
            assert(narrowing::occurs_at(contents, bytes, a + n + 1));
        }
    }
}

/// The first newline of bytes, with none before it.
proof fn lemma_first_newline(s: Seq<u8>)
    ensures
        newline(s) <= s.len(),
        forall|k: int| 0 <= k < newline(s) ==> #[trigger] s[k] != 10,
        newline(s) < s.len() ==> s[newline(s) as int] == 10,
    decreases s.len(),
{
    if s.len() > 0 && s[0] != 10 {
        lemma_first_newline(s.drop_first());
        assert forall|k: int| 0 <= k < newline(s) implies #[trigger] s[k] != 10 by {
            if k > 0 {
                assert(s.drop_first()[k - 1] != 10);
            }
        }
    }
}

/// Splitting a file loses no line: there are as many lines as newline bytes, and one more
/// where bytes follow the last of them.
pub proof fn law_file_line_count(contents: Seq<u8>)
    ensures
        file_lines(contents).len() == contents.to_multiset().count(10u8) + (if contents.len() > 0 && contents.last()
            != 10 {
            1int
        } else {
            0
        }),
    decreases contents.len(),
{
    let s = contents;
    lemma_first_newline(s);
    let i = newline(s) as int;
    if s.len() == 0 {
        text::lemma_count_none(s, 10u8);
    } else if i >= s.len() {
        text::lemma_count_none(s, 10u8);
        assert(s.last() == s[s.len() - 1]);
    } else {
        let rest = s.skip(i + 1);
        law_file_line_count(rest);
        assert(s =~= s.take(i) + seq![10u8] + rest);
        text::lemma_count_none(s.take(i), 10u8);
        text::lemma_count_one(10u8, 10u8);
        text::lemma_count_parts(s.take(i), seq![10u8], 10u8);
        text::lemma_count_parts(s.take(i) + seq![10u8], rest, 10u8);
        if rest.len() > 0 {
            assert(rest.last() == s.last());
        } else {
            assert(s.last() == s[i]);
        }
    }
}

/// The line of a file with so many newline bytes ahead of it is the text of what stands
/// between two newlines, or between a newline and an end of the file, less one carriage
/// return before its newline; it cannot be read where that is not UTF-8.
pub proof fn law_file_line_between_newlines(contents: Seq<u8>, start: int, end: int)
    requires
        0 <= start <= end <= contents.len(),
        start < contents.len(),
        start == 0 || contents[start - 1] == 10,
        end == contents.len() || contents[end] == 10,
        forall|k: int| start <= k < end ==> #[trigger] contents[k] != 10,
    ensures
        ({
            let n = contents.take(start).to_multiset().count(10u8) as int;
            let part = contents.subrange(start, end);
            let bytes = if end < contents.len() && part.len() > 0 && part.last() == 13 {
                part.drop_last()
            } else {
                part
            };
            &&& n < file_lines(contents).len()
            &&& file_lines(contents)[n] is Some <==> valid_utf8(bytes)
            &&& file_lines(contents)[n] matches Some(t) ==> encode_utf8(t) == bytes
        }),
    decreases contents.len(),
{
    let s = contents;
    lemma_first_newline(s);
    let i = newline(s) as int;
    if start == 0 {
        lemma_newline(s, end);
        text::lemma_count_none(s.take(0), 10u8);
        assert(s.subrange(0, end) =~= s.take(end));
        let bytes = if end < s.len() {
            without_return(s.take(end))
        } else {
            s
        };
        if end == s.len() {
            assert(s.take(end) =~= s);
        }
        if valid_utf8(bytes) {
            decode_utf8_encode_utf8(bytes);
        }
    } else {
        assert(i < start) by {
            if i >= start {
                assert(s[start - 1] != 10);
            }
        }
        let rest = s.skip(i + 1);
        let from = start - i - 1;
        assert(from > 0 ==> rest[from - 1] == s[start - 1]);
        assert forall|k: int| from <= k < end - i - 1 implies #[trigger] rest[k] != 10 by {
            assert(rest[k] == s[k + i + 1]);
        }
        if end < s.len() {
            assert(rest[end - i - 1] == s[end]);
        }
        law_file_line_between_newlines(rest, from, end - i - 1);
        assert(rest.subrange(from, end - i - 1) =~= s.subrange(start, end));
        assert(s.take(start) =~= s.take(i) + seq![10u8] + rest.take(from));
        text::lemma_count_none(s.take(i), 10u8);
        text::lemma_count_one(10u8, 10u8);
        text::lemma_count_parts(s.take(i), seq![10u8], 10u8);
        text::lemma_count_parts(s.take(i) + seq![10u8], rest.take(from), 10u8);
    }
}

} // verus!
