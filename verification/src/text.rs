//! Text in characters: numbers in decimal and hexadecimal, lines, substring
//! search, trimming and number parsing.

use vstd::hash_set::StringHashSet;
use vstd::prelude::*;
use vstd::utf8::*;

verus! {

/// `String::push` of std: appends one character.
pub assume_specification[ String::push ](s: &mut String, c: char)
    ensures
        final(s)@ == old(s)@.push(c),
;

/// `std::str::from_utf8`, with the text copied out: the bytes are a text exactly
/// where they are valid UTF-8, and it is the text that they encode.
#[verifier::external_body]
pub(crate) fn utf8_text(bytes: &[u8]) -> (r: Option<String>)
    ensures
        r is Some <==> valid_utf8(bytes@),
        r matches Some(s) ==> encode_utf8(s@) == bytes@,
{
    std::str::from_utf8(bytes).ok().map(String::from)
}

/// What `String::from_utf8_lossy` makes of bytes.
pub uninterp spec fn utf8_lossy(bytes: Seq<u8>) -> Seq<char>;

/// `String::from_utf8_lossy`: the text of bytes, with a replacement character for
/// what is not UTF-8. It depends on the bytes alone, and valid UTF-8 is read as the
/// text that it encodes.
#[verifier::external_body]
pub(crate) fn lossy_text(bytes: &[u8]) -> (s: String)
    ensures
        s@ == utf8_lossy(bytes@),
        valid_utf8(bytes@) ==> encode_utf8(s@) == bytes@,
{
    String::from_utf8_lossy(bytes).into_owned()
}

/// The texts of a sequence of strings.
pub open spec fn texts(strings: Seq<String>) -> Seq<Seq<char>> {
    strings.map_values(|s: String| s@)
}

/// Appends copies of strings.
pub fn push_copies(out: &mut Vec<String>, more: &[String])
    ensures
        texts(final(out)@) == texts(old(out)@) + texts(more@),
{
    let ghost before = texts(out@);
    let ghost all = texts(more@);
    let mut i: usize = 0;
    assert(before + all.take(0) =~= before);
    while i < more.len()
        invariant
            i <= more@.len(),
            all == texts(more@),
            texts(out@) == before + all.take(i as int),
        decreases more@.len() - i,
    {
        let ghost now = texts(out@);
        out.push(more[i].clone());
        proof {
            assert(texts(out@) =~= now.push(more@[i as int]@));
            assert(before + all.take(i + 1) =~= now.push(all[i as int]));
        }
        i += 1;
    }
    assert(all.take(i as int) =~= all);
}

/// Copies the characters of a string out.
pub fn chars_of(s: &str) -> (out: Vec<char>)
    ensures
        out@ == s@,
{
    let mut out: Vec<char> = Vec::new();
    for c in it: s.chars()
        invariant
            it.seq() == s@,
            out@ == s@.take(it.index()),
    {
        proof {
            assert(s@.take(it.index() + 1) =~= s@.take(it.index()).push(s@[it.index()]));
        }
        out.push(c);
    }
    assert(s@.take(s@.len() as int) =~= s@);
    out
}

/// Appends characters to a string.
pub fn push_chars(out: &mut String, chars: &[char])
    ensures
        final(out)@ == old(out)@ + chars@,
{
    let mut i: usize = 0;
    while i < chars.len()
        invariant
            i <= chars@.len(),
            out@ == old(out)@ + chars@.take(i as int),
        decreases chars@.len() - i,
    {
        proof {
            assert(old(out)@ + chars@.take(i + 1) =~= (old(out)@ + chars@.take(i as int)).push(chars@[i as int]));
        }
        out.push(chars[i]);
        i += 1;
    }
    assert(chars@.take(chars@.len() as int) =~= chars@);
}

/// A string with the given characters.
pub fn string_of(chars: &[char]) -> (s: String)
    ensures
        s@ == chars@,
{
    let mut s = String::new();
    push_chars(&mut s, chars);
    assert(s@ =~= chars@);
    s
}

// ---------------------------------------------------------------------------
// Numbers
// ---------------------------------------------------------------------------

/// The decimal digits of a number, without leading zeros.
pub open spec fn decimal(n: nat) -> Seq<char>
    decreases n,
{
    if n < 10 {
        seq![(48 + n) as char]
    } else {
        decimal(n / 10).push((48 + n % 10) as char)
    }
}

/// The character of a hexadecimal digit, in lowercase.
pub open spec fn hex_digit(d: nat) -> char {
    if d < 10 {
        (48 + d) as char
    } else {
        (87 + d) as char
    }
}

/// The `width` lowest hexadecimal digits of a number, the highest first.
pub open spec fn hex(n: nat, width: nat) -> Seq<char>
    decreases width,
{
    if width == 0 {
        Seq::empty()
    } else {
        hex(n / 16, (width - 1) as nat).push(hex_digit(n % 16))
    }
}

/// Appends a number in decimal.
pub fn push_decimal(out: &mut String, n: u128)
    ensures
        final(out)@ == old(out)@ + decimal(n as nat),
    decreases n,
{
    let ghost before = out@;
    if n >= 10 {
        push_decimal(out, n / 10);
    }
    let digit: u8 = (n % 10) as u8;
    out.push((48 + digit) as char);
    assert(out@ =~= before + decimal(n as nat));
}

/// Appends the `width` lowest hexadecimal digits of a number.
pub fn push_hex(out: &mut String, n: u64, width: usize)
    ensures
        final(out)@ == old(out)@ + hex(n as nat, width as nat),
    decreases width,
{
    let ghost before = out@;
    if width > 0 {
        push_hex(out, n / 16, width - 1);
        let d: u8 = (n % 16) as u8;
        if d < 10 {
            out.push((48 + d) as char);
        } else {
            out.push((87 + d) as char);
        }
    }
    assert(out@ =~= before + hex(n as nat, width as nat));
}

// ---------------------------------------------------------------------------
// Lines
// ---------------------------------------------------------------------------

/// The position of the first `c` in `s`, or the length of `s` where there is none.
pub open spec fn position(s: Seq<char>, c: char) -> nat
    decreases s.len(),
{
    if s.len() == 0 || s[0] == c {
        0
    } else {
        1 + position(s.drop_first(), c)
    }
}

/// A line without the carriage return before its newline.
pub open spec fn strip_return(line: Seq<char>) -> Seq<char> {
    if line.len() > 0 && line.last() == '\r' {
        line.drop_last()
    } else {
        line
    }
}

/// The lines of a text: the stretches that end with a newline, without it and
/// without a carriage return before it, and what follows the last newline where
/// that is not empty.
pub open spec fn lines(s: Seq<char>) -> Seq<Seq<char>>
    decreases s.len(),
{
    let i = position(s, '\n') as int;
    if s.len() == 0 {
        Seq::empty()
    } else if i >= s.len() {
        seq![s]
    } else {
        seq![strip_return(s.take(i))] + lines(s.skip(i + 1))
    }
}

/// The first position of `c` in `s` is the one before which there is no `c`.
pub proof fn lemma_position(s: Seq<char>, c: char, i: int)
    requires
        0 <= i <= s.len(),
        forall|k: int| 0 <= k < i ==> s[k] != c,
    ensures
        position(s, c) <= s.len(),
        position(s, c) >= i,
        i < s.len() && s[i] == c ==> position(s, c) == i,
        forall|k: int| 0 <= k < position(s, c) ==> s[k] != c,
        position(s, c) < s.len() ==> s[position(s, c) as int] == c,
    decreases s.len(),
{
    if s.len() > 0 {
        if i > 0 {
            lemma_position(s.drop_first(), c, i - 1);
        } else if s[0] != c {
            lemma_position(s.drop_first(), c, 0);
        }
        assert forall|k: int| 0 <= k < position(s, c) implies s[k] != c by {
            if k > 0 {
                assert(s.drop_first()[k - 1] != c);
            }
        }
    }
}

/// Finds the first `c` at or after `from`.
pub fn find_char(s: &[char], c: char, from: usize) -> (r: usize)
    requires
        from <= s@.len(),
    ensures
        r == from + position(s@.skip(from as int), c),
        from <= r <= s@.len(),
        r < s@.len() ==> s@[r as int] == c,
        forall|k: int| from <= k < r ==> s@[k] != c,
{
    let mut i: usize = from;
    while i < s.len() && s[i] != c
        invariant
            from <= i <= s@.len(),
            forall|k: int| from <= k < i ==> s@[k] != c,
        decreases s@.len() - i,
    {
        i += 1;
    }
    proof {
        lemma_position(s@.skip(from as int), c, i - from);
    }
    i
}

/// Splits a text into its lines.
pub fn split_lines(s: &[char]) -> (out: Vec<String>)
    ensures
        texts(out@) == lines(s@),
{
    let mut out: Vec<String> = Vec::new();
    let mut pos: usize = 0;
    assert(s@.skip(0) =~= s@);
    assert(texts(out@) + lines(s@) =~= lines(s@));
    while pos < s.len()
        invariant
            pos <= s@.len(),
            texts(out@) + lines(s@.skip(pos as int)) == lines(s@),
        decreases s@.len() - pos,
    {
        let ghost before = out@;
        let ghost tail = s@.skip(pos as int);
        let end = find_char(s, '\n', pos);
        let mut stop: usize = end;
        if end < s.len() && end > pos && s[end - 1] == '\r' {
            stop = end - 1;
        }
        let line = string_of(vstd::slice::slice_subrange(s, pos, stop));
        proof {
            let i = end - pos;
            assert(tail.take(i) =~= s@.subrange(pos as int, end as int));
            if end < s@.len() {
                assert(strip_return(tail.take(i)) =~= line@);
                assert(s@.skip(end + 1) =~= tail.skip(i + 1));
            } else {
                assert(tail =~= line@);
            }
        }
        out.push(line);
        proof {
            let rest = if end < s@.len() {
                lines(s@.skip(end + 1))
            } else {
                Seq::<Seq<char>>::empty()
            };
            assert(lines(tail) =~= seq![line@] + rest);
            assert(texts(out@) =~= texts(before).push(line@));
            assert(texts(out@) + rest =~= texts(before) + lines(tail));
        }
        if end < s.len() {
            pos = end + 1;
        } else {
            pos = s.len();
            assert(s@.skip(pos as int) =~= Seq::<char>::empty());
        }
    }
    assert(s@.skip(pos as int) =~= Seq::<char>::empty());
    assert(texts(out@) =~= lines(s@));
    out
}

/// Texts with a newline between each two.
pub open spec fn joined(parts: Seq<Seq<char>>) -> Seq<char>
    decreases parts.len(),
{
    if parts.len() == 0 {
        Seq::empty()
    } else if parts.len() == 1 {
        parts[0]
    } else {
        parts[0].push('\n') + joined(parts.drop_first())
    }
}

/// Joins strings with newlines.
pub fn join_lines(parts: &[String]) -> (out: String)
    ensures
        out@ == joined(texts(parts@)),
{
    let mut out = String::new();
    let mut i: usize = 0;
    let ghost all = texts(parts@);
    assert(all.skip(0) =~= all);
    assert(out@ + joined(all) =~= joined(all));
    while i < parts.len()
        invariant
            i <= parts@.len(),
            all == texts(parts@),
            out@ + joined(all.skip(i as int)) == joined(all),
        decreases parts@.len() - i,
    {
        let ghost before = out@;
        let ghost tail = all.skip(i as int);
        out.append(parts[i].as_str());
        assert(tail[0] == parts@[i as int]@);
        if i + 1 < parts.len() {
            out.push('\n');
            assert(tail.drop_first() =~= all.skip(i + 1));
            assert(before + joined(tail) =~= out@ + joined(all.skip(i + 1)));
        } else {
            assert(all.skip(i + 1) =~= Seq::<Seq<char>>::empty());
            assert(before + joined(tail) =~= out@ + joined(all.skip(i + 1)));
        }
        i += 1;
    }
    assert(all.skip(i as int) =~= Seq::<Seq<char>>::empty());
    assert(out@ =~= joined(all));
    out
}

/// Whether texts can be told apart as lines: none holds a newline, none but the last
/// ends with a carriage return, and the last is not empty.
pub open spec fn separable(parts: Seq<Seq<char>>) -> bool {
    &&& forall|i: int, k: int| 0 <= i < parts.len() && 0 <= k < parts[i].len() ==> parts[i][k] != '\n'
    &&& forall|i: int| 0 <= i < parts.len() - 1 && parts[i].len() > 0 ==> (#[trigger] parts[i]).last() != '\r'
    &&& parts.len() > 0 ==> parts.last().len() > 0
}

/// Joining texts and taking the lines gives the texts back, where they can be told
/// apart as lines.
pub proof fn law_lines_of_joined(parts: Seq<Seq<char>>)
    requires
        separable(parts),
    ensures
        lines(joined(parts)) == parts,
    decreases parts.len(),
{
    let s = joined(parts);
    if parts.len() == 0 {
        assert(parts =~= Seq::<Seq<char>>::empty());
    } else if parts.len() == 1 {
        assert(parts[0] == parts.last());
        lemma_position(s, '\n', s.len() as int);
        assert(parts =~= seq![s]);
    } else {
        let rest = parts.drop_first();
        let n = parts[0].len() as int;
        assert forall|i: int| 0 <= i < rest.len() - 1 && rest[i].len() > 0 implies (#[trigger] rest[i]).last()
            != '\r' by {
            assert(rest[i] == parts[i + 1]);
        }
        assert forall|i: int, k: int| 0 <= i < rest.len() && 0 <= k < rest[i].len() implies rest[i][k]
            != '\n' by {
            assert(rest[i] == parts[i + 1]);
        }
        law_lines_of_joined(rest);
        assert forall|k: int| 0 <= k < n implies s[k] != '\n' by {
            assert(s[k] == parts[0][k]);
        }
        assert(s[n] == '\n');
        lemma_position(s, '\n', n);
        assert(s.take(n) =~= parts[0]);
        assert(s.skip(n + 1) =~= joined(rest));
        assert(parts[0].len() > 0 ==> parts[0].last() != '\r');
        assert(seq![parts[0]] + rest =~= parts);
    }
}

/// The lines of a text that ends with a newline, or is empty, and of what comes
/// after it, come one after the other.
pub proof fn lemma_lines_append(s: Seq<char>, t: Seq<char>)
    requires
        s.len() > 0 ==> s.last() == '\n',
    ensures
        lines(s + t) == lines(s) + lines(t),
    decreases s.len(),
{
    let all = s + t;
    if s.len() == 0 {
        assert(all =~= t);
    } else {
        lemma_position(s, '\n', 0);
        let i = position(s, '\n') as int;
        if i >= s.len() {
            assert(s[s.len() - 1] != '\n');
        }
        assert forall|k: int| 0 <= k < i implies all[k] != '\n' by {
            assert(all[k] == s[k]);
        }
        lemma_position(all, '\n', i);
        assert(all.take(i) =~= s.take(i));
        assert(all.skip(i + 1) =~= s.skip(i + 1) + t);
        lemma_lines_append(s.skip(i + 1), t);
        assert(lines(all) =~= lines(s) + lines(t));
    }
}

// ---------------------------------------------------------------------------
// White space
// ---------------------------------------------------------------------------

/// Whether a character has the Unicode property `White_Space`.
pub open spec fn is_space(c: char) -> bool {
    let n = c as int;
    ||| 0x09 <= n <= 0x0D
    ||| n == 0x20
    ||| n == 0x85
    ||| n == 0xA0
    ||| n == 0x1680
    ||| 0x2000 <= n <= 0x200A
    ||| n == 0x2028
    ||| n == 0x2029
    ||| n == 0x202F
    ||| n == 0x205F
    ||| n == 0x3000
}

/// Whether a character is white space.
fn char_is_space(c: char) -> (r: bool)
    ensures
        r == is_space(c),
{
    let n: u32 = c as u32;
    (0x09 <= n && n <= 0x0D) || n == 0x20 || n == 0x85 || n == 0xA0 || n == 0x1680 || (0x2000 <= n && n <= 0x200A)
        || n == 0x2028 || n == 0x2029 || n == 0x202F || n == 0x205F || n == 0x3000
}

/// A text without the white space at its start.
pub open spec fn trimmed_start(s: Seq<char>) -> Seq<char>
    decreases s.len(),
{
    if s.len() > 0 && is_space(s[0]) {
        trimmed_start(s.drop_first())
    } else {
        s
    }
}

/// A text without the white space at its end.
pub open spec fn trimmed_end(s: Seq<char>) -> Seq<char>
    decreases s.len(),
{
    if s.len() > 0 && is_space(s.last()) {
        trimmed_end(s.drop_last())
    } else {
        s
    }
}

/// A text without the white space around it.
pub open spec fn trimmed(s: Seq<char>) -> Seq<char> {
    trimmed_end(trimmed_start(s))
}

/// Leaves out the white space at the start of a text.
pub fn trim_start(s: &[char]) -> (r: &[char])
    ensures
        r@ == trimmed_start(s@),
{
    let mut i: usize = 0;
    assert(s@.skip(0) =~= s@);
    while i < s.len() && char_is_space(s[i])
        invariant
            i <= s@.len(),
            trimmed_start(s@.skip(i as int)) == trimmed_start(s@),
        decreases s@.len() - i,
    {
        assert(s@.skip(i as int).drop_first() =~= s@.skip(i + 1));
        i += 1;
    }
    assert(s@.subrange(i as int, s@.len() as int) =~= s@.skip(i as int));
    vstd::slice::slice_subrange(s, i, s.len())
}

/// Leaves out the white space around a text.
pub fn trim(s: &[char]) -> (r: &[char])
    ensures
        r@ == trimmed(s@),
{
    let t = trim_start(s);
    let mut n: usize = t.len();
    assert(t@.take(n as int) =~= t@);
    while n > 0 && char_is_space(t[n - 1])
        invariant
            n <= t@.len(),
            trimmed_end(t@.take(n as int)) == trimmed_end(t@),
        decreases n,
    {
        assert(t@.take(n as int).drop_last() =~= t@.take(n - 1));
        n -= 1;
    }
    assert(t@.subrange(0, n as int) =~= t@.take(n as int));
    vstd::slice::slice_subrange(t, 0, n)
}

// ---------------------------------------------------------------------------
// Substrings
// ---------------------------------------------------------------------------

/// Whether `part` stands in `s` at `i`.
pub open spec fn stands_at(s: Seq<char>, part: Seq<char>, i: int) -> bool {
    0 <= i && i + part.len() <= s.len() && s.subrange(i, i + part.len()) == part
}

/// The first position at or after `from` at which `part` stands in `s`.
pub open spec fn found_from(s: Seq<char>, part: Seq<char>, from: int) -> Option<int>
    decreases s.len() + 1 - from,
{
    if from < 0 || from + part.len() > s.len() {
        None
    } else if stands_at(s, part, from) {
        Some(from)
    } else {
        found_from(s, part, from + 1)
    }
}

/// What follows the first `part` in `s`.
pub open spec fn after_first(s: Seq<char>, part: Seq<char>) -> Option<Seq<char>> {
    match found_from(s, part, 0) {
        Some(i) => Some(s.skip(i + part.len())),
        None => None,
    }
}

/// Where `part` stands at `i` and nowhere before, it is found there.
pub proof fn lemma_found_first(s: Seq<char>, part: Seq<char>, i: int)
    requires
        stands_at(s, part, i),
        forall|k: int| 0 <= k < i ==> !stands_at(s, part, k),
    ensures
        found_from(s, part, 0) == Some(i),
{
    lemma_found_later(s, part, 0, i);
}

proof fn lemma_found_later(s: Seq<char>, part: Seq<char>, from: int, i: int)
    requires
        0 <= from <= i,
        stands_at(s, part, i),
        forall|k: int| 0 <= k < i ==> !stands_at(s, part, k),
    ensures
        found_from(s, part, from) == Some(i),
    decreases i - from,
{
    if from < i {
        lemma_found_later(s, part, from + 1, i);
    }
}

/// Whether `part` stands in `s` at `i`.
fn is_at(s: &[char], part: &[char], i: usize) -> (r: bool)
    requires
        i + part.len() <= s.len(),
    ensures
        r == stands_at(s@, part@, i as int),
{
    let mut k: usize = 0;
    while k < part.len()
        invariant
            k <= part@.len(),
            i + part.len() <= s.len(),
            forall|j: int| 0 <= j < k ==> s@[i + j] == part@[j],
        decreases part@.len() - k,
    {
        if s[i + k] != part[k] {
            assert(s@.subrange(i as int, i + part@.len())[k as int] != part@[k as int]);
            return false;
        }
        k += 1;
    }
    assert(s@.subrange(i as int, i + part@.len()) =~= part@);
    true
}

/// Finds what follows the first `part` in `s`.
pub fn find_after<'a>(s: &'a [char], part: &[char]) -> (r: Option<&'a [char]>)
    ensures
        match r {
            Some(rest) => after_first(s@, part@) == Some(rest@),
            None => after_first(s@, part@) is None,
        },
{
    if part.len() > s.len() {
        return None;
    }
    let last: usize = s.len() - part.len();
    let mut i: usize = 0;
    while i <= last
        invariant
            i <= last + 1,
            last == s.len() - part.len(),
            found_from(s@, part@, i as int) == found_from(s@, part@, 0),
        decreases last + 1 - i,
    {
        if is_at(s, part, i) {
            let start: usize = i + part.len();
            assert(s@.subrange(start as int, s@.len() as int) =~= s@.skip(start as int));
            return Some(vstd::slice::slice_subrange(s, start, s.len()));
        }
        if i == last {
            assert(found_from(s@, part@, i + 1) is None);
            return None;
        }
        i += 1;
    }
    None
}

// ---------------------------------------------------------------------------
// Reading numbers
// ---------------------------------------------------------------------------

/// Whether a character is a decimal digit.
pub open spec fn is_digit(c: char) -> bool {
    '0' <= c <= '9'
}

/// How many digits a text starts with.
pub open spec fn digit_run(s: Seq<char>) -> nat
    decreases s.len(),
{
    if s.len() == 0 || !is_digit(s[0]) {
        0
    } else {
        1 + digit_run(s.drop_first())
    }
}

/// The number that digits stand for.
pub open spec fn digits_value(s: Seq<char>) -> nat
    decreases s.len(),
{
    if s.len() == 0 {
        0
    } else {
        (10 * digits_value(s.drop_last()) + (s.last() as int - 48)) as nat
    }
}

/// A text without the plus sign at its start.
pub open spec fn without_plus(s: Seq<char>) -> Seq<char> {
    if s.len() > 0 && s[0] == '+' {
        s.drop_first()
    } else {
        s
    }
}

/// The number that a text stands for, as far as it is at most `max`: digits, at
/// least one, with or without a plus sign before them.
pub open spec fn number(s: Seq<char>, max: nat) -> Option<nat> {
    let digits = without_plus(s);
    if digits.len() == 0 || digit_run(digits) < digits.len() || digits_value(digits) > max {
        None
    } else {
        Some(digits_value(digits))
    }
}

/// A run of digits up to a character that is none, or to the end.
pub proof fn lemma_digit_run(s: Seq<char>, n: int)
    requires
        0 <= n <= s.len(),
        forall|k: int| 0 <= k < n ==> is_digit(#[trigger] s[k]),
    ensures
        n <= digit_run(s) <= s.len(),
        n < s.len() && !is_digit(s[n]) ==> digit_run(s) == n,
        n == s.len() ==> digit_run(s) == n,
    decreases s.len(),
{
    if s.len() > 0 {
        if n > 0 {
            let t = s.drop_first();
            assert(is_digit(s[0]));
            assert forall|k: int| 0 <= k < n - 1 implies is_digit(#[trigger] t[k]) by {
                assert(is_digit(s[k + 1]));
            }
            lemma_digit_run(t, n - 1);
        } else if is_digit(s[0]) {
            lemma_digit_run(s.drop_first(), 0);
        }
    }
}

/// A number in decimal is made of digits, which stand for it.
pub proof fn lemma_decimal_digits(n: nat)
    ensures
        decimal(n).len() > 0,
        forall|k: int| 0 <= k < decimal(n).len() ==> is_digit(#[trigger] decimal(n)[k]),
        digits_value(decimal(n)) == n,
    decreases n,
{
    let s = decimal(n);
    if n >= 10 {
        lemma_decimal_digits(n / 10);
        let before = decimal(n / 10);
        assert(s.drop_last() =~= before);
        assert forall|k: int| 0 <= k < s.len() implies is_digit(#[trigger] s[k]) by {
            if k < before.len() {
                assert(is_digit(before[k]));
            }
        }
    } else {
        assert(digits_value(s.drop_last()) == 0);
    }
}

/// The first digits stand for no more than all of them.
proof fn lemma_value_grows(s: Seq<char>, n: int)
    requires
        0 <= n <= s.len(),
        forall|k: int| 0 <= k < s.len() ==> is_digit(#[trigger] s[k]),
    ensures
        digits_value(s.take(n)) <= digits_value(s),
    decreases s.len(),
{
    if n == s.len() {
        assert(s.take(n) =~= s);
    } else {
        let t = s.drop_last();
        assert forall|k: int| 0 <= k < t.len() implies is_digit(#[trigger] t[k]) by {
            assert(t[k] == s[k]);
        }
        lemma_value_grows(t, n);
        assert(t.take(n) =~= s.take(n));
        assert(is_digit(s[s.len() - 1]));
    }
}

/// Finds how many digits a text starts with.
pub fn leading_digits(s: &[char]) -> (n: usize)
    ensures
        n == digit_run(s@),
        n <= s@.len(),
{
    let mut n: usize = 0;
    while n < s.len() && '0' <= s[n] && s[n] <= '9'
        invariant
            n <= s@.len(),
            forall|k: int| 0 <= k < n ==> is_digit(#[trigger] s@[k]),
        decreases s@.len() - n,
    {
        n += 1;
    }
    proof {
        lemma_digit_run(s@, n as int);
    }
    n
}

/// Reads a number of at most `max`.
pub fn parse_number(s: &[char], max: u64) -> (r: Option<u64>)
    ensures
        match r {
            Some(n) => number(s@, max as nat) == Some(n as nat),
            None => number(s@, max as nat) is None,
        },
{
    let digits = if s.len() > 0 && s[0] == '+' {
        vstd::slice::slice_subrange(s, 1, s.len())
    } else {
        s
    };
    assert(digits@ =~= without_plus(s@));
    if digits.len() == 0 || leading_digits(digits) < digits.len() {
        return None;
    }
    proof {
        lemma_all_digits(digits@);
    }
    let mut value: u64 = 0;
    let mut i: usize = 0;
    while i < digits.len()
        invariant
            i <= digits@.len(),
            digits@ == without_plus(s@),
            forall|k: int| 0 <= k < digits@.len() ==> is_digit(#[trigger] digits@[k]),
            value == digits_value(digits@.take(i as int)),
        decreases digits@.len() - i,
    {
        proof {
            assert(is_digit(digits@[i as int]));
            assert(digits@.take(i + 1).drop_last() =~= digits@.take(i as int));
            lemma_value_grows(digits@, i + 1);
        }
        let d: u64 = digit_value(digits[i]);
        let wide: u128 = value as u128 * 10 + d as u128;
        assert(digits_value(digits@.take(i + 1)) == wide);
        if wide > u64::MAX as u128 {
            return None;
        }
        value = wide as u64;
        i += 1;
    }
    assert(digits@.take(i as int) =~= digits@);
    if value > max {
        None
    } else {
        Some(value)
    }
}

/// The value of a digit.
fn digit_value(c: char) -> (d: u64)
    requires
        is_digit(c),
    ensures
        d == c as int - 48,
{
    (c as u32 - 48) as u64
}

proof fn lemma_all_digits(s: Seq<char>)
    requires
        digit_run(s) >= s.len(),
    ensures
        forall|k: int| 0 <= k < s.len() ==> is_digit(#[trigger] s[k]),
    decreases s.len(),
{
    if s.len() > 0 {
        let t = s.drop_first();
        lemma_all_digits(t);
        assert forall|k: int| 0 <= k < s.len() implies is_digit(#[trigger] s[k]) by {
            if k > 0 {
                assert(is_digit(t[k - 1]));
            }
        }
    }
}

/// What a sequence holds with one more text at its end.
pub proof fn lemma_push_contains(s: Seq<Seq<char>>, x: Seq<char>, p: Seq<char>)
    ensures
        s.push(x).contains(p) <==> s.contains(p) || p == x,
{
    if s.contains(p) {
        let k = choose|k: int| 0 <= k < s.len() && s[k] == p;
        assert(s.push(x)[k] == p);
    }
    if p == x {
        assert(s.push(x)[s.len() as int] == p);
    }
}

/// The set of texts.
pub(crate) fn text_set(strings: &[String]) -> (set: StringHashSet)
    ensures
        forall|t: Seq<char>| #[trigger] set@.contains(t) <==> texts(strings@).contains(t),
{
    let ghost all = texts(strings@);
    let mut set: StringHashSet = StringHashSet::new();
    let mut i: usize = 0;
    while i < strings.len()
        invariant
            i <= strings@.len(),
            all == texts(strings@),
            forall|t: Seq<char>| #[trigger] set@.contains(t) <==> all.take(i as int).contains(t),
        decreases strings@.len() - i,
    {
        set.insert(strings[i].clone());
        proof {
            let earlier = all.take(i as int);
            let now = all.take(i + 1);
            assert(now =~= earlier.push(strings@[i as int]@));
            assert forall|t: Seq<char>| #[trigger] set@.contains(t) <==> now.contains(t) by {
                lemma_push_contains(earlier, strings@[i as int]@, t);
            }
        }
        i += 1;
    }
    assert(all.take(i as int) =~= all);
    set
}

// ---------------------------------------------------------------------------
// What lines are
// ---------------------------------------------------------------------------

/// Items are counted in two parts as in the whole.
pub proof fn lemma_count_parts<T>(a: Seq<T>, b: Seq<T>, x: T)
    ensures
        (a + b).to_multiset().count(x) == a.to_multiset().count(x) + b.to_multiset().count(x),
{
    broadcast use vstd::multiset::group_multiset_axioms;

    vstd::seq_lib::lemma_multiset_commutative(a, b);
}

/// An item that does not occur is counted zero times.
pub proof fn lemma_count_none<T>(a: Seq<T>, x: T)
    requires
        forall|k: int| 0 <= k < a.len() ==> #[trigger] a[k] != x,
    ensures
        a.to_multiset().count(x) == 0,
{
    broadcast use vstd::seq_lib::group_to_multiset_ensures;

    if a.to_multiset().count(x) > 0 {
        assert(a.contains(x));
    }
}

/// One item is counted once where it is the one in question.
pub proof fn lemma_count_one<T>(y: T, x: T)
    ensures
        seq![y].to_multiset().count(x) == (if y == x {
            1nat
        } else {
            0
        }),
{
    broadcast use vstd::seq_lib::group_to_multiset_ensures;
    broadcast use vstd::multiset::group_multiset_axioms;

    assert(seq![y] =~= Seq::<T>::empty().push(y));
    assert(Seq::<T>::empty().to_multiset() =~= vstd::multiset::Multiset::empty());
}

/// Splitting a text loses no line: there are as many lines as newlines, and one more
/// where something follows the last of them.
pub proof fn law_line_count(s: Seq<char>)
    ensures
        lines(s).len() == s.to_multiset().count('\n') + (if s.len() > 0 && s.last() != '\n' {
            1int
        } else {
            0
        }),
    decreases s.len(),
{
    lemma_position(s, '\n', 0);
    let i = position(s, '\n') as int;
    if s.len() == 0 {
        lemma_count_none(s, '\n');
    } else if i >= s.len() {
        lemma_count_none(s, '\n');
        assert(s.last() == s[s.len() - 1]);
    } else {
        let rest = s.skip(i + 1);
        law_line_count(rest);
        assert(s =~= s.take(i) + seq!['\n'] + rest);
        lemma_count_none(s.take(i), '\n');
        lemma_count_one('\n', '\n');
        lemma_count_parts(s.take(i), seq!['\n'], '\n');
        lemma_count_parts(s.take(i) + seq!['\n'], rest, '\n');
        if rest.len() > 0 {
            assert(rest.last() == s.last());
        } else {
            assert(s.last() == s[i]);
        }
    }
}

/// The line of a text with so many newlines ahead of it is what stands between two
/// newlines, or between a newline and an end of the text, less one carriage return before
/// its newline.
pub proof fn law_line_between_newlines(s: Seq<char>, start: int, end: int)
    requires
        0 <= start <= end <= s.len(),
        start < s.len(),
        start == 0 || s[start - 1] == '\n',
        end == s.len() || s[end] == '\n',
        forall|k: int| start <= k < end ==> #[trigger] s[k] != '\n',
    ensures
        ({
            let n = s.take(start).to_multiset().count('\n') as int;
            let part = s.subrange(start, end);
            &&& n < lines(s).len()
            &&& lines(s)[n] == (if end < s.len() && part.len() > 0 && part.last() == '\r' {
                part.drop_last()
            } else {
                part
            })
        }),
    decreases s.len(),
{
    lemma_position(s, '\n', 0);
    let i = position(s, '\n') as int;
    if start == 0 {
        lemma_position(s, '\n', end);
        lemma_count_none(s.take(0), '\n');
        assert(i == end);
        assert(s.subrange(0, end) =~= s.take(end));
        if end == s.len() {
            assert(s.take(end) =~= s);
        }
    } else {
        assert(i < start) by {
            if i >= start {
                assert(s[start - 1] != '\n');
            }
        }
        let rest = s.skip(i + 1);
        let from = start - i - 1;
        assert(from > 0 ==> rest[from - 1] == s[start - 1]);
        assert forall|k: int| from <= k < end - i - 1 implies #[trigger] rest[k] != '\n' by {
            assert(rest[k] == s[k + i + 1]);
        }
        if end < s.len() {
            assert(rest[end - i - 1] == s[end]);
        }
        law_line_between_newlines(rest, from, end - i - 1);
        assert(rest.subrange(from, end - i - 1) =~= s.subrange(start, end));
        assert(s.take(start) =~= s.take(i) + seq!['\n'] + rest.take(from));
        lemma_count_none(s.take(i), '\n');
        lemma_count_one('\n', '\n');
        lemma_count_parts(s.take(i), seq!['\n'], '\n');
        lemma_count_parts(s.take(i) + seq!['\n'], rest.take(from), '\n');
    }
}

/// A line that holds no newline and does not end with a carriage return is the one line of
/// itself with a newline behind it.
pub proof fn lemma_one_line(x: Seq<char>)
    requires
        !x.contains('\n'),
        x.len() > 0 ==> x.last() != '\r',
    ensures
        lines(x + seq!['\n']) == seq![x],
{
    let s = x + seq!['\n'];
    let n = x.len() as int;
    assert forall|k: int| 0 <= k < n implies s[k] != '\n' by {
        assert(x.contains(x[k]));
    }
    lemma_position(s, '\n', n);
    assert(s.take(n) =~= x);
    assert(s.skip(n + 1) =~= Seq::<char>::empty());
    assert(lines(s.skip(n + 1)) =~= Seq::empty());
    assert(lines(s) =~= seq![x]);
}

proof fn lemma_value_is_fold(s: Seq<char>)
    requires
        forall|k: int| 0 <= k < s.len() ==> '0' <= #[trigger] s[k] <= '9',
    ensures
        digits_value(s) == s.fold_left(0int, |v: int, c: char| 10 * v + (c as int - 48)),
    decreases s.len(),
{
    reveal(Seq::fold_left);
    if s.len() > 0 {
        lemma_value_is_fold(s.drop_last());
        assert(s.last() == s[s.len() - 1]);
    }
}

/// The decimal digits of a number are digits, at least one and none but a single zero in
/// front, that give the number when each in turn is put behind those before it.
pub proof fn law_decimal(n: nat)
    ensures
        decimal(n).len() > 0,
        decimal(n).len() > 1 ==> decimal(n)[0] != '0',
        forall|k: int| 0 <= k < decimal(n).len() ==> '0' <= #[trigger] decimal(n)[k] <= '9',
        decimal(n).fold_left(0int, |v: int, c: char| 10 * v + (c as int - 48)) == n,
{
    lemma_decimal_digits(n);
    assert forall|k: int| 0 <= k < decimal(n).len() implies '0' <= #[trigger] decimal(n)[k] <= '9' by {
        assert(is_digit(decimal(n)[k]));
    }
    lemma_value_is_fold(decimal(n));
    lemma_no_leading_zero(n);
}

proof fn lemma_no_leading_zero(n: nat)
    ensures
        decimal(n).len() > 0,
        n > 0 ==> decimal(n)[0] != '0',
        n == 0 ==> decimal(n).len() == 1,
    decreases n,
{
    if n >= 10 {
        lemma_no_leading_zero(n / 10);
        assert(decimal(n)[0] == decimal(n / 10)[0]);
    }
}

/// A text is read as a number exactly if it is digits, at least one, behind at most one
/// plus sign, and stands for no more than is allowed; the number is that which the digits
/// give, each put behind those before it.
pub proof fn law_number(s: Seq<char>, digits: Seq<char>, max: nat)
    requires
        digits == (if s.len() > 0 && s[0] == '+' {
            s.skip(1)
        } else {
            s
        }),
    ensures
        number(s, max) is Some <==> digits.len() > 0 && (forall|k: int|
            0 <= k < digits.len() ==> '0' <= #[trigger] digits[k] <= '9') && digits.fold_left(
            0int,
            |v: int, c: char| 10 * v + (c as int - 48),
        ) <= max,
        number(s, max) is Some ==> number(s, max)->0 == digits.fold_left(
            0int,
            |v: int, c: char| 10 * v + (c as int - 48),
        ),
{
    if s.len() > 0 {
        assert(s.skip(1) =~= s.drop_first());
    }
    assert(digits == without_plus(s));
    if digits.len() > 0 && digit_run(digits) >= digits.len() {
        lemma_all_digits(digits);
        assert forall|k: int| 0 <= k < digits.len() implies '0' <= #[trigger] digits[k] <= '9' by {
            assert(is_digit(digits[k]));
        }
        lemma_value_is_fold(digits);
    }
    if forall|k: int| 0 <= k < digits.len() ==> '0' <= #[trigger] digits[k] <= '9' {
        lemma_digit_run(digits, digits.len() as int);
        lemma_value_is_fold(digits);
    }
}

proof fn lemma_trimmed_start(s: Seq<char>) -> (a: int)
    ensures
        0 <= a <= s.len(),
        trimmed_start(s) == s.skip(a),
        forall|k: int| 0 <= k < a ==> is_space(#[trigger] s[k]),
        a < s.len() ==> !is_space(s[a]),
    decreases s.len(),
{
    if s.len() > 0 && is_space(s[0]) {
        let t = s.drop_first();
        let b = lemma_trimmed_start(t);
        assert(t.skip(b) =~= s.skip(b + 1));
        assert forall|k: int| 0 <= k < b + 1 implies is_space(#[trigger] s[k]) by {
            if k > 0 {
                assert(is_space(t[k - 1]));
            }
        }
        b + 1
    } else {
        assert(s.skip(0) =~= s);
        0
    }
}

proof fn lemma_trimmed_end(s: Seq<char>) -> (b: int)
    ensures
        0 <= b <= s.len(),
        trimmed_end(s) == s.take(b),
        forall|k: int| b <= k < s.len() ==> is_space(#[trigger] s[k]),
        b > 0 ==> !is_space(s[b - 1]),
    decreases s.len(),
{
    if s.len() > 0 && is_space(s.last()) {
        let t = s.drop_last();
        let b = lemma_trimmed_end(t);
        assert(t.take(b) =~= s.take(b));
        assert forall|k: int| b <= k < s.len() implies is_space(#[trigger] s[k]) by {
            if k < t.len() {
                assert(is_space(t[k]));
            }
        }
        b
    } else {
        assert(s.take(s.len() as int) =~= s);
        s.len() as int
    }
}

/// Trimming takes away white space at both ends, all of it and nothing else: before the
/// first place and from the second on there is nothing but white space, and what is left
/// between them neither starts nor ends with it.
pub proof fn law_trimmed(s: Seq<char>) -> (ends: (int, int))
    ensures
        0 <= ends.0 <= ends.1 <= s.len(),
        trimmed(s) == s.subrange(ends.0, ends.1),
        forall|k: int| 0 <= k < ends.0 ==> is_space(#[trigger] s[k]),
        forall|k: int| ends.1 <= k < s.len() ==> is_space(#[trigger] s[k]),
        ends.0 < ends.1 ==> !is_space(s[ends.0]) && !is_space(s[ends.1 - 1]),
{
    let a = lemma_trimmed_start(s);
    let t = s.skip(a);
    let b = lemma_trimmed_end(t);
    assert(t.take(b) =~= s.subrange(a, a + b));
    assert forall|k: int| a + b <= k < s.len() implies is_space(#[trigger] s[k]) by {
        assert(is_space(t[k - a]));
    }
    (a, a + b)
}

/// White space is the tab, the characters from line feed to carriage return, the space and
/// the further characters that Unicode counts to it.
pub proof fn law_white_space(c: char)
    ensures
        is_space(c) <==> seq![
            0x09u32,
            0x0A,
            0x0B,
            0x0C,
            0x0D,
            0x20,
            0x85,
            0xA0,
            0x1680,
            0x2000,
            0x2001,
            0x2002,
            0x2003,
            0x2004,
            0x2005,
            0x2006,
            0x2007,
            0x2008,
            0x2009,
            0x200A,
            0x2028,
            0x2029,
            0x202F,
            0x205F,
            0x3000,
        ].contains(c as u32),
{
    let all = seq![
        0x09u32,
        0x0A,
        0x0B,
        0x0C,
        0x0D,
        0x20,
        0x85,
        0xA0,
        0x1680,
        0x2000,
        0x2001,
        0x2002,
        0x2003,
        0x2004,
        0x2005,
        0x2006,
        0x2007,
        0x2008,
        0x2009,
        0x200A,
        0x2028,
        0x2029,
        0x202F,
        0x205F,
        0x3000,
    ];
    let n = c as u32;
    if is_space(c) {
        if 0x09 <= n <= 0x0D {
            assert(all[n - 0x09] == n);
        } else if 0x2000 <= n <= 0x200A {
            assert(all[9 + (n - 0x2000)] == n);
        } else {
            assert(all[5] == 0x20 && all[6] == 0x85 && all[7] == 0xA0 && all[8] == 0x1680 && all[20] == 0x2028 && all[21]
                == 0x2029 && all[22] == 0x202F && all[23] == 0x205F && all[24] == 0x3000);
        }
    }
}

proof fn lemma_found_from(s: Seq<char>, part: Seq<char>, from: int)
    requires
        0 <= from,
    ensures
        match found_from(s, part, from) {
            Some(i) => from <= i && i + part.len() <= s.len() && s.subrange(i, i + part.len()) == part && forall|k: int|
                from <= k < i ==> #[trigger] s.subrange(k, k + part.len()) != part,
            None => forall|k: int|
                from <= k && k + part.len() <= s.len() ==> #[trigger] s.subrange(k, k + part.len()) != part,
        },
    decreases s.len() + 1 - from,
{
    if from + part.len() <= s.len() && !stands_at(s, part, from) {
        lemma_found_from(s, part, from + 1);
        assert(s.subrange(from, from + part.len()) != part);
    }
}

/// What follows a part in a text is what stands behind the first place of the part, where
/// there is one.
pub proof fn law_after_first(s: Seq<char>, part: Seq<char>) -> (at: int)
    ensures
        match after_first(s, part) {
            Some(rest) => {
                &&& 0 <= at <= s.len()
                &&& s == s.take(at) + part + rest
                &&& forall|k: int| 0 <= k < at ==> #[trigger] s.subrange(k, k + part.len()) != part
            },
            None => forall|k: int|
                0 <= k && k + part.len() <= s.len() ==> #[trigger] s.subrange(k, k + part.len()) != part,
        },
{
    lemma_found_from(s, part, 0);
    match found_from(s, part, 0) {
        Some(i) => {
            assert(s =~= s.take(i) + s.subrange(i, i + part.len()) + s.skip(i + part.len()));
            i
        },
        None => 0,
    }
}

/// The hexadecimal digits of a number are as many as are asked for, in lowercase, and give the
/// number up to what more digits would hold when each in turn is put behind those before it.
pub proof fn law_hex(n: nat, width: nat)
    ensures
        hex(n, width).len() == width,
        forall|k: int|
            0 <= k < width ==> '0' <= #[trigger] hex(n, width)[k] <= '9' || 'a' <= hex(n, width)[k] <= 'f',
        hex(n, width).fold_left(
            0int,
            |v: int, c: char|
                16 * v + (if c <= '9' {
                    c as int - 48
                } else {
                    c as int - 87
                }),
        ) == n % vstd::arithmetic::power::pow(16, width) as nat,
    decreases width,
{
    let f = |v: int, c: char|
        16 * v + (if c <= '9' {
            c as int - 48
        } else {
            c as int - 87
        });
    reveal(Seq::fold_left);
    reveal(vstd::arithmetic::power::pow);
    let s = hex(n, width);
    if width > 0 {
        let w = (width - 1) as nat;
        law_hex(n / 16, w);
        let t = hex(n / 16, w);
        assert(s.drop_last() =~= t);
        assert forall|k: int| 0 <= k < width implies '0' <= #[trigger] s[k] <= '9' || 'a' <= s[k] <= 'f' by {
            if k < w {
                assert(s[k] == t[k]);
            }
        }
        let p = vstd::arithmetic::power::pow(16, w);
        vstd::arithmetic::power::lemma_pow_positive(16, w);
        vstd::arithmetic::div_mod::lemma_breakdown(n as int, 16, p);
        assert(vstd::arithmetic::power::pow(16, width) == 16 * p);
        assert(n % (16 * p) as nat == 16 * ((n / 16) % p as nat) + n % 16);
    } else {
        assert(n % 1 == 0);
    }
}

/// Trimming the start of a text takes away the white space up to the first character that is
/// none, and nothing else.
pub proof fn law_trimmed_start(s: Seq<char>) -> (start: int)
    ensures
        0 <= start <= s.len(),
        trimmed_start(s) == s.skip(start),
        forall|k: int| 0 <= k < start ==> is_space(#[trigger] s[k]),
        start < s.len() ==> !is_space(s[start]),
{
    lemma_trimmed_start(s)
}

/// Joining puts a newline between texts and nowhere else: one more text comes behind all
/// others and a newline, and a single text is joined to itself.
pub proof fn law_joined(parts: Seq<Seq<char>>, x: Seq<char>)
    ensures
        joined(parts.push(x)) == (if parts.len() == 0 {
            x
        } else {
            joined(parts) + seq!['\n'] + x
        }),
        joined(Seq::empty()) == Seq::<char>::empty(),
    decreases parts.len(),
{
    let all = parts.push(x);
    if parts.len() > 0 {
        let rest = parts.drop_first();
        law_joined(rest, x);
        assert(all.drop_first() =~= rest.push(x));
        assert(all[0] == parts[0]);
        let a = parts[0];
        if rest.len() > 0 {
            let b = joined(rest);
            assert(a.push('\n') + (b + seq!['\n'] + x) =~= a.push('\n') + b + seq!['\n'] + x);
        } else {
            assert(a.push('\n') + x =~= a + seq!['\n'] + x);
        }
    }
}

} // verus!
