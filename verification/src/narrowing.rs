//! Why a search that a plan narrows down misses no match.

use crate::ngram;
use crate::pattern::PatternView;
use crate::query;
use crate::query::PlanView;
use vstd::prelude::*;
use vstd::utf8::*;

verus! {

// ---------------------------------------------------------------------------
// What a tree matches, what a plan asks for
// ---------------------------------------------------------------------------

/// Whether a stretch of bytes can be a match of a tree, as far as its literals
/// tell: a class and a repetition can match anything.
pub open spec fn may_match(tree: PatternView, s: Seq<u8>) -> bool
    decreases tree, 0nat,
{
    match tree {
        PatternView::Empty | PatternView::Look => s.len() == 0,
        PatternView::Literal(bytes) => s == bytes,
        PatternView::Class | PatternView::Repetition => true,
        PatternView::Capture(sub) => may_match(*sub, s),
        PatternView::Concat(parts) => may_match_all(parts, s),
        PatternView::Alternation(parts) => exists|i: int|
            0 <= i < parts.len() && may_match(#[trigger] parts[i], s),
    }
}

/// Whether a stretch of bytes can be cut into matches of trees, in their order.
pub open spec fn may_match_all(parts: Seq<PatternView>, s: Seq<u8>) -> bool
    decreases parts, 1nat,
{
    if parts.len() == 0 {
        s.len() == 0
    } else {
        exists|k: int|
            0 <= k <= s.len() && may_match(parts[0], #[trigger] s.take(k)) && may_match_all(
                parts.drop_first(),
                s.skip(k),
            )
    }
}

/// Whether all bytes are ASCII.
pub open spec fn ascii(s: Seq<u8>) -> bool {
    forall|i: int| 0 <= i < s.len() ==> #[trigger] s[i] < 128
}

/// Whether a character beyond ASCII is from a range of characters without case: those
/// of the scripts between Armenian and Georgian, of the Hangul letters and on to the
/// extensions of Cyrillic, of symbols, of East Asia, of the forms for presentation, and
/// of most of the planes above.
pub open spec fn caseless(c: char) -> bool {
    let n = c as int;
    ||| 0x0587 <= n <= 0x109F
    ||| 0x1100 <= n <= 0x139F
    ||| 0x13FE <= n <= 0x1C7F
    ||| 0x1FFD <= n <= 0x2125
    ||| 0x2185 <= n <= 0x24B5
    ||| 0x24EA <= n <= 0x2BFF
    ||| 0x2D2E <= n <= 0xA63F
    ||| 0xABC0 <= n <= 0xFB04
    ||| 0xFB07 <= n <= 0xFF20
    ||| 0xFF5B <= n <= 0x103FF
    ||| 0x118E0 <= n <= 0x16E3F
    ||| 0x16E80 <= n <= 0x1E8FF
    ||| 0x1E944 <= n <= 0x10FFFF
}

/// Whether bytes are those of a text whose characters beyond ASCII have no case.
pub open spec fn foldable(s: Seq<u8>) -> bool {
    ascii(s) || (valid_utf8(s) && forall|i: int|
        #![trigger decode_utf8(s)[i]]
        0 <= i < decode_utf8(s).len() ==> (decode_utf8(s)[i] as int) < 128 || caseless(decode_utf8(s)[i]))
}

/// The bytes of the Kelvin sign, which is a `k` where case is ignored.
pub open spec fn kelvin_sign() -> Seq<u8> {
    seq![0xE2, 0x84, 0xAA]
}

/// The bytes of the long s, which is an `s` where case is ignored.
pub open spec fn long_s() -> Seq<u8> {
    seq![0xC5, 0xBF]
}

/// Whether bytes are those of a text up to simple case folding of its ASCII letters:
/// they are its bytes with the letters in either case, or with the Kelvin sign in place
/// of a `k`, or with the long s in place of an `s`.
pub open spec fn folds_to(s: Seq<u8>, text: Seq<u8>) -> bool
    decreases text.len(),
{
    if text.len() == 0 {
        s.len() == 0
    } else {
        let b = ngram::lower_byte(text[0]);
        let rest = text.drop_first();
        ||| s.len() >= 1 && ngram::lower_byte(s[0]) == b && folds_to(s.skip(1), rest)
        ||| b == 107 && s.len() >= 3 && s.take(3) == kelvin_sign() && folds_to(s.skip(3), rest)
        ||| b == 115 && s.len() >= 2 && s.take(2) == long_s() && folds_to(s.skip(2), rest)
    }
}

/// Whether a stretch of bytes can be a match of a tree where case is ignored, as far
/// as those of its literals tell that have no case beyond ASCII.
pub open spec fn may_match_folded(tree: PatternView, s: Seq<u8>) -> bool
    decreases tree, 0nat,
{
    match tree {
        PatternView::Empty | PatternView::Look => s.len() == 0,
        PatternView::Literal(bytes) => foldable(bytes) ==> folds_to(s, bytes),
        PatternView::Class | PatternView::Repetition => true,
        PatternView::Capture(sub) => may_match_folded(*sub, s),
        PatternView::Concat(parts) => all_may_match_folded(parts, s),
        PatternView::Alternation(parts) => exists|i: int|
            0 <= i < parts.len() && may_match_folded(#[trigger] parts[i], s),
    }
}

/// Whether a stretch of bytes can be cut into matches of trees, in their order, where
/// case is ignored.
pub open spec fn all_may_match_folded(parts: Seq<PatternView>, s: Seq<u8>) -> bool
    decreases parts, 1nat,
{
    if parts.len() == 0 {
        s.len() == 0
    } else {
        exists|k: int|
            0 <= k <= s.len() && may_match_folded(parts[0], #[trigger] s.take(k)) && all_may_match_folded(
                parts.drop_first(),
                s.skip(k),
            )
    }
}

/// Whether `s` occurs in `text` at `a`.
pub open spec fn occurs_at(text: Seq<u8>, s: Seq<u8>, a: int) -> bool {
    0 <= a && a + s.len() <= text.len() && text.subrange(a, a + s.len()) == s
}

/// Whether `s` occurs in `text`.
pub open spec fn occurs(text: Seq<u8>, s: Seq<u8>) -> bool {
    exists|a: int| occurs_at(text, s, a)
}

/// Whether `s` occurs in `text` when the case of ASCII letters is ignored.
pub open spec fn occurs_folded(text: Seq<u8>, s: Seq<u8>) -> bool {
    occurs(ngram::lower(text), ngram::lower(s))
}

/// Whether a file with the given trigram hashes passes a plan.
pub open spec fn plan_holds(plan: PlanView, hashes: Set<u64>) -> bool
    decreases plan,
{
    match plan {
        PlanView::Lookup { hash, .. } => hashes.contains(hash),
        PlanView::And(subs) => forall|i: int| 0 <= i < subs.len() ==> plan_holds(#[trigger] subs[i], hashes),
        PlanView::Or(subs) => exists|i: int| 0 <= i < subs.len() && plan_holds(#[trigger] subs[i], hashes),
        PlanView::FullScan => true,
    }
}

// ---------------------------------------------------------------------------
// Literals
// ---------------------------------------------------------------------------

/// A stretch of a text that occurs in another occurs there too.
proof fn lemma_occurs_part(text: Seq<u8>, s: Seq<u8>, from: int, to: int)
    requires
        occurs_folded(text, s),
        0 <= from <= to <= s.len(),
    ensures
        occurs_folded(text, s.subrange(from, to)),
{
    let low = ngram::lower(text);
    let a = choose|a: int| occurs_at(low, ngram::lower(s), a);
    let part = s.subrange(from, to);
    assert(low.subrange(a + from, a + from + part.len()) =~= low.subrange(a, a + s.len()).subrange(from, to));
    assert(ngram::lower(s).subrange(from, to) =~= ngram::lower(part));
    assert(occurs_at(low, ngram::lower(part), a + from));
}

/// The lookups of a literal are lookups of its trigrams.
proof fn lemma_lookups_from(text: Seq<u8>, n: int, k: int)
    requires
        0 <= k < query::lookups(text, n).len(),
    ensures
        exists|i: int| 0 <= i < n && query::lookups(text, n)[k] == #[trigger] query::lookup_at(text, i),
    decreases n,
{
    if n > 0 {
        if query::first_with_hash(text, n - 1) && k == query::lookups(text, n - 1).len() {
            assert(query::lookups(text, n)[k] == query::lookup_at(text, n - 1));
        } else {
            lemma_lookups_from(text, n - 1, k);
            let i = choose|i: int|
                0 <= i < n - 1 && query::lookups(text, n - 1)[k] == #[trigger] query::lookup_at(text, i);
            assert(query::lookups(text, n)[k] == query::lookup_at(text, i));
        }
    }
}

/// A file that holds a literal, in whatever case, passes the literal's plan.
pub proof fn law_literal_plan_holds(text: Seq<u8>, bytes: Seq<u8>)
    requires
        occurs_folded(text, bytes),
    ensures
        plan_holds(query::literal_plan(bytes), ngram::content_hashes(text)),
{
    if bytes.len() >= 3 {
        let low = ngram::lower(text);
        let lit = ngram::lower(bytes);
        let a = choose|a: int| occurs_at(low, lit, a);
        let n = ngram::trigram_count(lit);
        let all = query::lookups(lit, n);
        assert forall|k: int| 0 <= k < all.len() implies plan_holds(#[trigger] all[k], ngram::content_hashes(text)) by {
            lemma_lookups_from(lit, n, k);
            let i = choose|i: int| 0 <= i < n && all[k] == #[trigger] query::lookup_at(lit, i);
            assert(lit.subrange(i, i + 3) =~= low.subrange(a + i, a + i + 3));
            assert(ngram::trigram_hash(lit, i) == ngram::trigram_hash(low, a + i));
        }
    }
}

// ---------------------------------------------------------------------------
// Trees
// ---------------------------------------------------------------------------

/// What a tree can match, a file that holds it passes the plan of its literals.
proof fn lemma_literals_hold(tree: PatternView, s: Seq<u8>, text: Seq<u8>)
    requires
        may_match(tree, s),
        occurs_folded(text, s),
    ensures
        plan_holds(query::literals_plan(query::literals(tree)), ngram::content_hashes(text)),
    decreases tree, 0nat,
{
    let hashes = ngram::content_hashes(text);
    let plan = query::literals_plan(query::literals(tree));
    match tree {
        PatternView::Literal(bytes) => {
            law_literal_plan_holds(text, bytes);
        },
        PatternView::Capture(sub) => {
            lemma_literals_hold(*sub, s, text);
        },
        PatternView::Concat(parts) => {
            lemma_all_literals_hold(parts, s, text);
            assert forall|i: int| 0 <= i < parts.len() implies plan_holds(#[trigger] plan->And_0[i], hashes) by {
                assert(plan->And_0[i] == query::literals_plan(query::literals(parts[i])));
            }
        },
        PatternView::Alternation(parts) => {
            let i = choose|i: int| 0 <= i < parts.len() && may_match(#[trigger] parts[i], s);
            lemma_literals_hold(parts[i], s, text);
            assert(plan_holds(plan->Or_0[i], hashes));
        },
        _ => {},
    }
}

proof fn lemma_all_literals_hold(parts: Seq<PatternView>, s: Seq<u8>, text: Seq<u8>)
    requires
        may_match_all(parts, s),
        occurs_folded(text, s),
    ensures
        forall|i: int|
            0 <= i < parts.len() ==> plan_holds(
                query::literals_plan(query::literals(#[trigger] parts[i])),
                ngram::content_hashes(text),
            ),
    decreases parts, 1nat,
{
    if parts.len() > 0 {
        let k = choose|k: int|
            0 <= k <= s.len() && may_match(parts[0], #[trigger] s.take(k)) && may_match_all(
                parts.drop_first(),
                s.skip(k),
            );
        lemma_occurs_part(text, s, 0, k);
        lemma_occurs_part(text, s, k, s.len() as int);
        assert(s.take(k) =~= s.subrange(0, k));
        assert(s.skip(k) =~= s.subrange(k, s.len() as int));
        lemma_literals_hold(parts[0], s.take(k), text);
        lemma_all_literals_hold(parts.drop_first(), s.skip(k), text);
        assert forall|i: int| 0 <= i < parts.len() implies plan_holds(
            query::literals_plan(query::literals(#[trigger] parts[i])),
            ngram::content_hashes(text),
        ) by {
            if i > 0 {
                assert(parts.drop_first()[i - 1] == parts[i]);
            }
        }
    }
}

/// A file passes the plan of a pattern whenever it holds something that the pattern
/// can match, in whatever case.
pub proof fn law_plan_keeps_matches(tree: PatternView, s: Seq<u8>, text: Seq<u8>)
    requires
        may_match(tree, s),
        occurs_folded(text, s),
    ensures
        plan_holds(query::tree_plan(tree), ngram::content_hashes(text)),
{
    lemma_literals_hold(tree, s, text);
    law_simplify_weakens(query::literals_plan(query::literals(tree)), ngram::content_hashes(text));
}

// ---------------------------------------------------------------------------
// Matches where case is ignored
// ---------------------------------------------------------------------------

/// Whether no literal of a tree has characters with case beyond ASCII.
pub open spec fn foldable_literals(tree: PatternView) -> bool
    decreases tree,
{
    match tree {
        PatternView::Literal(bytes) => foldable(bytes),
        PatternView::Capture(sub) => foldable_literals(*sub),
        PatternView::Concat(parts) => forall|i: int| 0 <= i < parts.len() ==> foldable_literals(#[trigger] parts[i]),
        PatternView::Alternation(parts) => forall|i: int|
            0 <= i < parts.len() ==> foldable_literals(#[trigger] parts[i]),
        _ => true,
    }
}

/// Whether some literal of a tree holds a letter, given in lowercase.
pub open spec fn literals_hold(tree: PatternView, b: u8) -> bool
    decreases tree,
{
    match tree {
        PatternView::Literal(bytes) => ngram::lower(bytes).contains(b),
        PatternView::Capture(sub) => literals_hold(*sub, b),
        PatternView::Concat(parts) => exists|i: int| 0 <= i < parts.len() && literals_hold(#[trigger] parts[i], b),
        PatternView::Alternation(parts) => exists|i: int|
            0 <= i < parts.len() && literals_hold(#[trigger] parts[i], b),
        _ => false,
    }
}

/// Whether a text has no Kelvin sign and no long s that a literal of the tree could
/// match.
pub open spec fn folds_plainly(tree: PatternView, text: Seq<u8>) -> bool {
    &&& literals_hold(tree, 107) ==> !occurs(text, kelvin_sign())
    &&& literals_hold(tree, 115) ==> !occurs(text, long_s())
}

/// What occurs in a stretch of a text occurs in the text.
pub proof fn lemma_occurs_in_stretch(text: Seq<u8>, from: int, to: int, s: Seq<u8>)
    requires
        0 <= from <= to <= text.len(),
        occurs(text.subrange(from, to), s),
    ensures
        occurs(text, s),
{
    let a = choose|a: int| occurs_at(text.subrange(from, to), s, a);
    assert(text.subrange(a + from, a + from + s.len()) =~= text.subrange(from, to).subrange(a, a + s.len()));
    assert(occurs_at(text, s, a + from));
}

/// A text that folds plainly does so in every stretch.
pub proof fn lemma_stretch_folds_plainly(tree: PatternView, text: Seq<u8>, from: int, to: int)
    requires
        0 <= from <= to <= text.len(),
        folds_plainly(tree, text),
    ensures
        folds_plainly(tree, text.subrange(from, to)),
{
    let part = text.subrange(from, to);
    if occurs(part, kelvin_sign()) {
        lemma_occurs_in_stretch(text, from, to, kelvin_sign());
    }
    if occurs(part, long_s()) {
        lemma_occurs_in_stretch(text, from, to, long_s());
    }
}

/// Without those two characters, folding is that of upper and lower case.
proof fn lemma_plain_folding(s: Seq<u8>, bytes: Seq<u8>)
    requires
        folds_to(s, bytes),
        ngram::lower(bytes).contains(107) ==> !occurs(s, kelvin_sign()),
        ngram::lower(bytes).contains(115) ==> !occurs(s, long_s()),
    ensures
        ngram::lower(s) == ngram::lower(bytes),
    decreases bytes.len(),
{
    let low = ngram::lower(bytes);
    if bytes.len() == 0 {
        assert(ngram::lower(s) =~= low);
    } else {
        let rest = bytes.drop_first();
        assert(low[0] == ngram::lower_byte(bytes[0]));
        assert(low.contains(low[0]));
        if s.len() >= 3 && s.take(3) == kelvin_sign() {
            assert(s.subrange(0, 3) =~= s.take(3));
            assert(occurs_at(s, kelvin_sign(), 0));
        }
        if s.len() >= 2 && s.take(2) == long_s() {
            assert(s.subrange(0, 2) =~= s.take(2));
            assert(occurs_at(s, long_s(), 0));
        }
        assert(s.len() >= 1 && ngram::lower_byte(s[0]) == low[0] && folds_to(s.skip(1), rest));
        let n = s.len() as int;
        assert(s.skip(1) =~= s.subrange(1, n));
        if occurs(s.skip(1), kelvin_sign()) {
            lemma_occurs_in_stretch(s, 1, n, kelvin_sign());
        }
        if occurs(s.skip(1), long_s()) {
            lemma_occurs_in_stretch(s, 1, n, long_s());
        }
        let low_rest = ngram::lower(rest);
        assert(low_rest =~= low.drop_first());
        assert forall|b: u8| low_rest.contains(b) implies low.contains(b) by {
            let k = choose|k: int| 0 <= k < low_rest.len() && low_rest[k] == b;
            assert(low[k + 1] == b);
        }
        lemma_plain_folding(s.skip(1), rest);
        assert(ngram::lower(s) =~= seq![low[0]] + ngram::lower(s.skip(1)));
        assert(low =~= seq![low[0]] + low_rest);
    }
}

/// A match where case is ignored is a match in some case.
proof fn lemma_unfolded(tree: PatternView, s: Seq<u8>)
    requires
        may_match_folded(tree, s),
        foldable_literals(tree),
        folds_plainly(tree, s),
    ensures
        exists|t: Seq<u8>| #[trigger] may_match(tree, t) && ngram::lower(t) == ngram::lower(s),
    decreases tree, 0nat,
{
    match tree {
        PatternView::Literal(bytes) => {
            lemma_plain_folding(s, bytes);
            assert(may_match(tree, bytes));
        },
        PatternView::Capture(sub) => {
            lemma_unfolded(*sub, s);
            let t = choose|t: Seq<u8>| #[trigger] may_match(*sub, t) && ngram::lower(t) == ngram::lower(s);
            assert(may_match(tree, t));
        },
        PatternView::Concat(parts) => {
            assert forall|i: int| 0 <= i < parts.len() implies folds_plainly(#[trigger] parts[i], s) by {
                if literals_hold(parts[i], 107) {
                    assert(literals_hold(tree, 107));
                }
                if literals_hold(parts[i], 115) {
                    assert(literals_hold(tree, 115));
                }
            }
            lemma_all_unfolded(parts, s);
            let t = choose|t: Seq<u8>| #[trigger] may_match_all(parts, t) && ngram::lower(t) == ngram::lower(s);
            assert(may_match(tree, t));
        },
        PatternView::Alternation(parts) => {
            let i = choose|i: int| 0 <= i < parts.len() && may_match_folded(#[trigger] parts[i], s);
            if literals_hold(parts[i], 107) {
                assert(literals_hold(tree, 107));
            }
            if literals_hold(parts[i], 115) {
                assert(literals_hold(tree, 115));
            }
            lemma_unfolded(parts[i], s);
            let t = choose|t: Seq<u8>| #[trigger] may_match(parts[i], t) && ngram::lower(t) == ngram::lower(s);
            assert(may_match(tree, t));
        },
        _ => {
            assert(may_match(tree, s));
        },
    }
}

proof fn lemma_all_unfolded(parts: Seq<PatternView>, s: Seq<u8>)
    requires
        all_may_match_folded(parts, s),
        forall|i: int| 0 <= i < parts.len() ==> foldable_literals(#[trigger] parts[i]),
        forall|i: int| 0 <= i < parts.len() ==> folds_plainly(#[trigger] parts[i], s),
    ensures
        exists|t: Seq<u8>| #[trigger] may_match_all(parts, t) && ngram::lower(t) == ngram::lower(s),
    decreases parts, 1nat,
{
    if parts.len() == 0 {
        assert(may_match_all(parts, s));
    } else {
        let k = choose|k: int|
            0 <= k <= s.len() && may_match_folded(parts[0], #[trigger] s.take(k)) && all_may_match_folded(
                parts.drop_first(),
                s.skip(k),
            );
        let n = s.len() as int;
        let rest = parts.drop_first();
        assert(s.take(k) =~= s.subrange(0, k));
        assert(s.skip(k) =~= s.subrange(k, n));
        lemma_stretch_folds_plainly(parts[0], s, 0, k);
        assert forall|i: int| 0 <= i < rest.len() implies folds_plainly(#[trigger] rest[i], s.skip(k)) by {
            assert(rest[i] == parts[i + 1]);
            lemma_stretch_folds_plainly(parts[i + 1], s, k, n);
        }
        assert forall|i: int| 0 <= i < rest.len() implies foldable_literals(#[trigger] rest[i]) by {
            assert(rest[i] == parts[i + 1]);
        }
        lemma_unfolded(parts[0], s.take(k));
        lemma_all_unfolded(rest, s.skip(k));
        let a = choose|t: Seq<u8>| #[trigger] may_match(parts[0], t) && ngram::lower(t) == ngram::lower(s.take(k));
        let b = choose|t: Seq<u8>| #[trigger] may_match_all(rest, t) && ngram::lower(t) == ngram::lower(s.skip(k));
        let t = a + b;
        assert(t.take(a.len() as int) =~= a);
        assert(t.skip(a.len() as int) =~= b);
        assert(may_match_all(parts, t));
        assert(ngram::lower(t) =~= ngram::lower(a) + ngram::lower(b));
        assert(ngram::lower(s) =~= ngram::lower(s.take(k)) + ngram::lower(s.skip(k)));
    }
}

/// A file passes the plan of a pattern whose literals have no case beyond ASCII whenever
/// it holds something that the pattern can match where case is ignored, and no Kelvin
/// sign or long s stands there for a letter.
pub proof fn law_plan_keeps_folded_matches(tree: PatternView, s: Seq<u8>, text: Seq<u8>)
    requires
        may_match_folded(tree, s),
        foldable_literals(tree),
        folds_plainly(tree, s),
        occurs_folded(text, s),
    ensures
        plan_holds(query::tree_plan(tree), ngram::content_hashes(text)),
{
    lemma_unfolded(tree, s);
    let t = choose|t: Seq<u8>| #[trigger] may_match(tree, t) && ngram::lower(t) == ngram::lower(s);
    law_plan_keeps_matches(tree, t, text);
}

// ---------------------------------------------------------------------------
// Simplification
// ---------------------------------------------------------------------------

/// Whether no OR of a plan is without sub-plans.
pub open spec fn no_empty_or(plan: PlanView) -> bool
    decreases plan,
{
    match plan {
        PlanView::And(subs) => forall|i: int| 0 <= i < subs.len() ==> no_empty_or(#[trigger] subs[i]),
        PlanView::Or(subs) => subs.len() > 0 && forall|i: int|
            0 <= i < subs.len() ==> no_empty_or(#[trigger] subs[i]),
        _ => true,
    }
}

/// Whether a plan filters, and every AND and OR in it has two sub-plans or more.
pub open spec fn filters(plan: PlanView) -> bool
    decreases plan,
{
    match plan {
        PlanView::Lookup { .. } => true,
        PlanView::And(subs) => subs.len() >= 2 && forall|i: int|
            0 <= i < subs.len() ==> filters(#[trigger] subs[i]),
        PlanView::Or(subs) => subs.len() >= 2 && forall|i: int|
            0 <= i < subs.len() ==> filters(#[trigger] subs[i]),
        PlanView::FullScan => false,
    }
}

/// Whether a plan is in the form that simplification leaves it in.
pub open spec fn normal(plan: PlanView) -> bool {
    plan is FullScan || filters(plan)
}

/// What the sub-plans that stay have in common with all of them.
proof fn lemma_kept(plans: Seq<PlanView>, drop_scans: bool)
    ensures
        forall|k: int|
            0 <= k < query::kept(plans, drop_scans).len() ==> query::stays(
                #[trigger] query::kept(plans, drop_scans)[k],
                drop_scans,
            ) && plans.contains(query::kept(plans, drop_scans)[k]),
        forall|i: int|
            0 <= i < plans.len() && query::stays(#[trigger] plans[i], drop_scans) ==> query::kept(
                plans,
                drop_scans,
            ).contains(plans[i]),
        query::kept(plans, drop_scans).len() <= plans.len(),
        (forall|i: int| 0 <= i < plans.len() ==> query::stays(#[trigger] plans[i], drop_scans)) ==> query::kept(
            plans,
            drop_scans,
        ) == plans,
    decreases plans.len(),
{
    reveal(Seq::filter);
    let left = query::kept(plans, drop_scans);
    if plans.len() > 0 {
        let before = plans.drop_last();
        let left_before = query::kept(before, drop_scans);
        lemma_kept(before, drop_scans);
        assert forall|k: int| 0 <= k < left.len() implies query::stays(#[trigger] left[k], drop_scans)
            && plans.contains(left[k]) by {
            if k < left_before.len() {
                assert(left[k] == left_before[k]);
                assert(before.contains(left_before[k]));
                let j = choose|j: int| 0 <= j < before.len() && before[j] == left[k];
                assert(plans[j] == left[k]);
            } else {
                assert(plans[plans.len() - 1] == left[k]);
            }
        }
        assert forall|i: int| 0 <= i < plans.len() && query::stays(
            #[trigger] plans[i],
            drop_scans,
        ) implies left.contains(plans[i]) by {
            if i < before.len() {
                assert(before[i] == plans[i]);
                assert(left_before.contains(plans[i]));
                let j = choose|j: int| 0 <= j < left_before.len() && left_before[j] == plans[i];
                assert(left[j] == plans[i]);
            } else {
                assert(left[left.len() - 1] == plans[i]);
            }
        }
        if forall|i: int| 0 <= i < plans.len() ==> query::stays(#[trigger] plans[i], drop_scans) {
            assert forall|i: int| 0 <= i < before.len() implies query::stays(#[trigger] before[i], drop_scans) by {
                assert(before[i] == plans[i]);
            }
            assert(query::stays(plans[plans.len() - 1], drop_scans));
            assert(left =~= plans);
        }
    } else {
        assert(left =~= plans);
    }
}

/// The simplified form of a plan is a full scan, or filters with two sub-plans or
/// more under every AND and OR.
pub proof fn law_simplified_is_normal(plan: PlanView)
    ensures
        normal(query::simplified(plan)),
    decreases plan,
{
    match plan {
        PlanView::And(subs) => {
            let all = query::simplified_each(subs);
            let left = query::kept(all, true);
            lemma_kept(all, true);
            assert forall|k: int| 0 <= k < left.len() implies filters(#[trigger] left[k]) by {
                assert(all.contains(left[k]));
                let i = choose|i: int| 0 <= i < all.len() && all[i] == left[k];
                law_simplified_is_normal(subs[i]);
            }
        },
        PlanView::Or(subs) => {
            let all = query::simplified_each(subs);
            let left = query::kept(all, false);
            lemma_kept(all, false);
            if !exists|i: int| 0 <= i < all.len() && #[trigger] all[i] is FullScan {
                assert forall|k: int| 0 <= k < left.len() implies filters(#[trigger] left[k]) by {
                    assert(all.contains(left[k]));
                    let i = choose|i: int| 0 <= i < all.len() && all[i] == left[k];
                    law_simplified_is_normal(subs[i]);
                }
            }
        },
        _ => {},
    }
}

/// A plan in that form stays as it is.
proof fn lemma_normal_stays(plan: PlanView)
    requires
        filters(plan),
    ensures
        query::simplified(plan) == plan,
    decreases plan,
{
    match plan {
        PlanView::And(subs) => {
            let all = query::simplified_each(subs);
            assert forall|i: int| 0 <= i < subs.len() implies #[trigger] all[i] == subs[i] by {
                lemma_normal_stays(subs[i]);
            }
            assert(all =~= subs);
            assert forall|i: int| 0 <= i < all.len() implies query::stays(#[trigger] all[i], true) by {
                assert(filters(subs[i]));
            }
            lemma_kept(all, true);
            assert(query::kept(all, true) == subs);
            assert(query::simplified(plan) == PlanView::And(subs));
        },
        PlanView::Or(subs) => {
            let all = query::simplified_each(subs);
            assert forall|i: int| 0 <= i < subs.len() implies #[trigger] all[i] == subs[i] by {
                lemma_normal_stays(subs[i]);
            }
            assert(all =~= subs);
            assert forall|i: int| 0 <= i < all.len() implies query::stays(#[trigger] all[i], false) && !(
            all[i] is FullScan) by {
                assert(filters(subs[i]));
            }
            lemma_kept(all, false);
            assert(query::kept(all, false) == subs);
            assert(query::simplified(plan) == PlanView::Or(subs));
        },
        _ => {},
    }
}

/// Simplifying twice is simplifying once.
pub proof fn law_simplify_idempotent(plan: PlanView)
    ensures
        query::simplified(query::simplified(plan)) == query::simplified(plan),
{
    law_simplified_is_normal(plan);
    if filters(query::simplified(plan)) {
        lemma_normal_stays(query::simplified(plan));
    }
}

/// What passes a plan passes its simplified form.
pub proof fn law_simplify_weakens(plan: PlanView, hashes: Set<u64>)
    requires
        plan_holds(plan, hashes),
    ensures
        plan_holds(query::simplified(plan), hashes),
    decreases plan,
{
    match plan {
        PlanView::And(subs) => {
            let all = query::simplified_each(subs);
            let left = query::kept(all, true);
            lemma_kept(all, true);
            assert forall|k: int| 0 <= k < left.len() implies plan_holds(#[trigger] left[k], hashes) by {
                assert(all.contains(left[k]));
                let i = choose|i: int| 0 <= i < all.len() && all[i] == left[k];
                assert(plan_holds(subs[i], hashes));
                law_simplify_weakens(subs[i], hashes);
            }
            let result = query::simplified(plan);
            if left.len() == 0 {
                assert(result is FullScan);
            } else if left.len() == 1 {
                assert(result == left[0]);
            } else {
                assert(result == PlanView::And(left));
                assert(plan_holds(result, hashes));
            }
        },
        PlanView::Or(subs) => {
            let all = query::simplified_each(subs);
            let left = query::kept(all, false);
            lemma_kept(all, false);
            let i = choose|i: int| 0 <= i < subs.len() && plan_holds(#[trigger] subs[i], hashes);
            law_simplify_weakens(subs[i], hashes);
            law_simplified_is_normal(subs[i]);
            assert(all[i] == query::simplified(subs[i]));
            if !(all[i] is FullScan) {
                assert(query::stays(all[i], false));
                assert(left.contains(all[i]));
                let k = choose|k: int| 0 <= k < left.len() && left[k] == all[i];
                assert(plan_holds(left[k], hashes));
                let result = query::simplified(plan);
                if left.len() >= 2 && !(result is FullScan) {
                    assert(result == PlanView::Or(left));
                    assert(plan_holds(result->Or_0[k], hashes));
                }
            }
        },
        _ => {},
    }
}

/// Where no OR of a plan is empty, simplification changes nothing about what
/// passes the plan.
pub proof fn law_simplify_equivalent(plan: PlanView, hashes: Set<u64>)
    requires
        no_empty_or(plan),
    ensures
        plan_holds(query::simplified(plan), hashes) == plan_holds(plan, hashes),
    decreases plan,
{
    if plan_holds(plan, hashes) {
        law_simplify_weakens(plan, hashes);
    } else {
        match plan {
            PlanView::And(subs) => {
                let all = query::simplified_each(subs);
                let left = query::kept(all, true);
                lemma_kept(all, true);
                let i = choose|i: int| 0 <= i < subs.len() && !plan_holds(#[trigger] subs[i], hashes);
                law_simplify_equivalent(subs[i], hashes);
                law_simplified_is_normal(subs[i]);
                assert(all[i] == query::simplified(subs[i]));
                assert(query::stays(all[i], true));
                assert(left.contains(all[i]));
                let k = choose|k: int| 0 <= k < left.len() && left[k] == all[i];
                assert(!plan_holds(left[k], hashes));
                let result = query::simplified(plan);
                if left.len() >= 2 {
                    assert(result == PlanView::And(left));
                    assert(!plan_holds(result->And_0[k], hashes));
                    assert(!plan_holds(result, hashes));
                } else {
                    assert(result == left[k]);
                }
            },
            PlanView::Or(subs) => {
                let all = query::simplified_each(subs);
                let left = query::kept(all, false);
                lemma_kept(all, false);
                assert forall|i: int| 0 <= i < all.len() implies !plan_holds(#[trigger] all[i], hashes) by {
                    assert(!plan_holds(subs[i], hashes));
                    law_simplify_equivalent(subs[i], hashes);
                }
                law_simplified_is_normal(subs[0]);
                assert(!plan_holds(all[0], hashes));
                assert(query::stays(all[0], false));
                assert(left.contains(all[0]));
                assert forall|k: int| 0 <= k < left.len() implies !plan_holds(#[trigger] left[k], hashes) by {
                    assert(all.contains(left[k]));
                }
                let result = query::simplified(plan);
                if left.len() >= 2 {
                    assert(result == PlanView::Or(left));
                    assert(!plan_holds(result, hashes));
                } else {
                    assert(result == left[0]);
                }
            },
            _ => {},
        }
    }
}

// ---------------------------------------------------------------------------
// Case
// ---------------------------------------------------------------------------

/// Whether two trees differ in nothing but the case of ASCII letters in literals.
pub open spec fn same_but_case(a: PatternView, b: PatternView) -> bool
    decreases a,
{
    match a {
        PatternView::Literal(x) => b is Literal && ngram::lower(x) == ngram::lower(b->Literal_0),
        PatternView::Capture(sub) => b is Capture && same_but_case(*sub, *b->Capture_0),
        PatternView::Concat(parts) => b is Concat && parts.len() == b->Concat_0.len() && forall|i: int|
            0 <= i < parts.len() ==> same_but_case(#[trigger] parts[i], b->Concat_0[i]),
        PatternView::Alternation(parts) => b is Alternation && parts.len() == b->Alternation_0.len() && forall|i: int|
            0 <= i < parts.len() ==> same_but_case(#[trigger] parts[i], b->Alternation_0[i]),
        _ => a == b,
    }
}

proof fn lemma_literals_ignore_case(a: PatternView, b: PatternView)
    requires
        same_but_case(a, b),
    ensures
        query::literals_plan(query::literals(a)) == query::literals_plan(query::literals(b)),
    decreases a,
{
    let plan_a = query::literals_plan(query::literals(a));
    let plan_b = query::literals_plan(query::literals(b));
    match a {
        PatternView::Literal(x) => {
            assert(ngram::lower(x).len() == x.len());
            assert(ngram::lower(b->Literal_0).len() == b->Literal_0.len());
        },
        PatternView::Capture(sub) => {
            lemma_literals_ignore_case(*sub, *b->Capture_0);
        },
        PatternView::Concat(parts) => {
            assert forall|i: int| 0 <= i < parts.len() implies #[trigger] plan_a->And_0[i] == plan_b->And_0[i] by {
                lemma_literals_ignore_case(parts[i], b->Concat_0[i]);
            }
            assert(plan_a->And_0 =~= plan_b->And_0);
        },
        PatternView::Alternation(parts) => {
            assert forall|i: int| 0 <= i < parts.len() implies #[trigger] plan_a->Or_0[i] == plan_b->Or_0[i] by {
                lemma_literals_ignore_case(parts[i], b->Alternation_0[i]);
            }
            assert(plan_a->Or_0 =~= plan_b->Or_0);
        },
        _ => {},
    }
}

/// Trees that differ in nothing but the case of ASCII letters have the same plan.
pub proof fn law_plan_ignores_case(a: PatternView, b: PatternView)
    requires
        same_but_case(a, b),
    ensures
        query::tree_plan(a) == query::tree_plan(b),
{
    lemma_literals_ignore_case(a, b);
}

// ---------------------------------------------------------------------------
// How much a plan narrows
// ---------------------------------------------------------------------------

/// Whether one of the lookups is that of a hash.
spec fn looks_up(all: Seq<PlanView>, h: u64) -> bool {
    exists|k: int| 0 <= k < all.len() && (#[trigger] all[k]) is Lookup && all[k]->hash == h
}

/// Every trigram is looked up.
proof fn lemma_lookups_all(text: Seq<u8>, n: int, i: int)
    requires
        0 <= i < n,
    ensures
        looks_up(query::lookups(text, n), ngram::trigram_hash(text, i)),
    decreases n,
{
    let all = query::lookups(text, n);
    let before = query::lookups(text, n - 1);
    let h = ngram::trigram_hash(text, i);
    if i < n - 1 {
        lemma_lookups_all(text, n - 1, i);
        let k = choose|k: int| 0 <= k < before.len() && (#[trigger] before[k]) is Lookup && before[k]->hash == h;
        assert(all[k] == before[k]);
    } else if query::first_with_hash(text, i) {
        assert(all[before.len() as int] == query::lookup_at(text, i));
    } else {
        let j = choose|j: int| 0 <= j < i && #[trigger] ngram::trigram_hash(text, j) == h;
        lemma_lookups_all(text, n - 1, j);
    }
}

/// A file passes the plan of a literal exactly if it is indexed under every hash under which
/// a file that holds just the literal is.
pub proof fn law_literal_plan_is_exact(bytes: Seq<u8>, hashes: Set<u64>)
    ensures
        plan_holds(query::literal_plan(bytes), hashes) <==> ngram::content_hashes(bytes).subset_of(hashes),
{
    let lit = ngram::lower(bytes);
    let n = ngram::trigram_count(lit);
    let all = query::lookups(lit, n);
    if bytes.len() >= 3 {
        if plan_holds(query::literal_plan(bytes), hashes) {
            assert forall|h: u64| ngram::content_hashes(bytes).contains(h) implies hashes.contains(h) by {
                let i = choose|i: int| 0 <= i < n && h == #[trigger] ngram::trigram_hash(lit, i);
                lemma_lookups_all(lit, n, i);
                let k = choose|k: int| 0 <= k < all.len() && (#[trigger] all[k]) is Lookup && all[k]->hash == h;
                let plan = query::literal_plan(bytes);
                if all.len() > 1 {
                    assert(plan == PlanView::And(all));
                    assert(plan_holds(plan->And_0[k], hashes));
                }
                assert(plan_holds(all[k], hashes));
            }
        }
        if ngram::content_hashes(bytes).subset_of(hashes) {
            assert forall|k: int| 0 <= k < all.len() implies plan_holds(#[trigger] all[k], hashes) by {
                lemma_lookups_from(lit, n, k);
                let i = choose|i: int| 0 <= i < n && all[k] == #[trigger] query::lookup_at(lit, i);
                assert(ngram::content_hashes(bytes).contains(ngram::trigram_hash(lit, i)));
            }
        }
    }
}

/// Whether every alternation in a tree has a part to choose.
pub open spec fn has_choices(tree: PatternView) -> bool
    decreases tree,
{
    match tree {
        PatternView::Capture(sub) => has_choices(*sub),
        PatternView::Concat(parts) => forall|i: int| 0 <= i < parts.len() ==> has_choices(#[trigger] parts[i]),
        PatternView::Alternation(parts) => parts.len() > 0 && forall|i: int|
            0 <= i < parts.len() ==> has_choices(#[trigger] parts[i]),
        _ => true,
    }
}

proof fn lemma_literal_no_empty_or(bytes: Seq<u8>)
    ensures
        no_empty_or(query::literal_plan(bytes)),
{
    let lit = ngram::lower(bytes);
    let n = ngram::trigram_count(lit);
    let all = query::lookups(lit, n);
    assert forall|k: int| 0 <= k < all.len() implies no_empty_or(#[trigger] all[k]) by {
        lemma_lookups_from(lit, n, k);
    }
}

proof fn lemma_choices(tree: PatternView)
    requires
        has_choices(tree),
    ensures
        no_empty_or(query::literals_plan(query::literals(tree))),
    decreases tree,
{
    let plan = query::literals_plan(query::literals(tree));
    match tree {
        PatternView::Literal(bytes) => {
            lemma_literal_no_empty_or(bytes);
        },
        PatternView::Capture(sub) => {
            lemma_choices(*sub);
        },
        PatternView::Concat(parts) => {
            assert forall|i: int| 0 <= i < parts.len() implies no_empty_or(#[trigger] plan->And_0[i]) by {
                lemma_choices(parts[i]);
                assert(plan->And_0[i] == query::literals_plan(query::literals(parts[i])));
            }
        },
        PatternView::Alternation(parts) => {
            assert forall|i: int| 0 <= i < parts.len() implies no_empty_or(#[trigger] plan->Or_0[i]) by {
                lemma_choices(parts[i]);
                assert(plan->Or_0[i] == query::literals_plan(query::literals(parts[i])));
            }
        },
        _ => {},
    }
}

/// What a file has to be indexed under to pass the plan of a pattern: of a literal, all of
/// the literal's hashes; of a concatenation, what every part asks for; of an alternation,
/// what one of the parts asks for; of a group, what it holds asks for. Anything else asks
/// for nothing.
pub proof fn law_plan_asks_for_the_literals(tree: PatternView, hashes: Set<u64>)
    requires
        has_choices(tree),
    ensures
        plan_holds(query::tree_plan(tree), hashes) <==> (match tree {
            PatternView::Literal(bytes) => ngram::content_hashes(bytes).subset_of(hashes),
            PatternView::Capture(sub) => plan_holds(query::tree_plan(*sub), hashes),
            PatternView::Concat(parts) => forall|i: int|
                0 <= i < parts.len() ==> plan_holds(query::tree_plan(#[trigger] parts[i]), hashes),
            PatternView::Alternation(parts) => exists|i: int|
                0 <= i < parts.len() && plan_holds(query::tree_plan(#[trigger] parts[i]), hashes),
            _ => true,
        }),
{
    let plan = query::literals_plan(query::literals(tree));
    lemma_choices(tree);
    law_simplify_equivalent(plan, hashes);
    match tree {
        PatternView::Literal(bytes) => {
            law_literal_plan_is_exact(bytes, hashes);
        },
        PatternView::Concat(parts) => {
            assert forall|i: int| 0 <= i < parts.len() implies plan_holds(query::tree_plan(#[trigger] parts[i]), hashes)
                == plan_holds(plan->And_0[i], hashes) by {
                lemma_choices(parts[i]);
                law_simplify_equivalent(query::literals_plan(query::literals(parts[i])), hashes);
                assert(plan->And_0[i] == query::literals_plan(query::literals(parts[i])));
            }
            if plan_holds(plan, hashes) {
                assert forall|i: int| 0 <= i < parts.len() implies plan_holds(
                    query::tree_plan(#[trigger] parts[i]),
                    hashes,
                ) by {
                    assert(plan_holds(plan->And_0[i], hashes));
                }
            }
            if forall|i: int| 0 <= i < parts.len() ==> plan_holds(query::tree_plan(#[trigger] parts[i]), hashes) {
                assert forall|i: int| 0 <= i < parts.len() implies plan_holds(#[trigger] plan->And_0[i], hashes) by {
                    assert(plan_holds(query::tree_plan(parts[i]), hashes));
                }
            }
        },
        PatternView::Alternation(parts) => {
            assert forall|i: int| 0 <= i < parts.len() implies plan_holds(query::tree_plan(#[trigger] parts[i]), hashes)
                == plan_holds(plan->Or_0[i], hashes) by {
                lemma_choices(parts[i]);
                law_simplify_equivalent(query::literals_plan(query::literals(parts[i])), hashes);
                assert(plan->Or_0[i] == query::literals_plan(query::literals(parts[i])));
            }
            if plan_holds(plan, hashes) {
                let i = choose|i: int| 0 <= i < parts.len() && plan_holds(#[trigger] plan->Or_0[i], hashes);
                assert(plan_holds(query::tree_plan(parts[i]), hashes));
            }
            if exists|i: int| 0 <= i < parts.len() && plan_holds(query::tree_plan(#[trigger] parts[i]), hashes) {
                let i = choose|i: int|
                    0 <= i < parts.len() && plan_holds(query::tree_plan(#[trigger] parts[i]), hashes);
                assert(plan_holds(plan->Or_0[i], hashes));
            }
        },
        _ => {},
    }
}

/// Whether every lookup of a plan is of three bytes, under their hash.
pub open spec fn looks_up_trigrams(plan: PlanView) -> bool
    decreases plan,
{
    match plan {
        PlanView::Lookup { hash, trigram } => trigram.len() == 3 && ngram::content_hashes(trigram) == set![hash]
            && ngram::lower(trigram) == trigram,
        PlanView::And(subs) => forall|i: int| 0 <= i < subs.len() ==> looks_up_trigrams(#[trigger] subs[i]),
        PlanView::Or(subs) => forall|i: int| 0 <= i < subs.len() ==> looks_up_trigrams(#[trigger] subs[i]),
        PlanView::FullScan => true,
    }
}

proof fn lemma_lookup_at(bytes: Seq<u8>, i: int)
    requires
        0 <= i < ngram::trigram_count(ngram::lower(bytes)),
    ensures
        looks_up_trigrams(query::lookup_at(ngram::lower(bytes), i)),
{
    let lit = ngram::lower(bytes);
    let t = lit.subrange(i, i + 3);
    assert(ngram::lower(t) =~= t);
    assert(t.subrange(0, 3) =~= t);
    let h = ngram::trigram_hash(lit, i);
    assert(ngram::trigram_hash(t, 0) == h);
    assert(ngram::content_hashes(t) =~= set![h]) by {
        assert forall|g: u64| ngram::content_hashes(t).contains(g) <==> g == h by {
            if ngram::content_hashes(t).contains(g) {
                let k = choose|k: int| 0 <= k < ngram::trigram_count(t) && g == #[trigger] ngram::trigram_hash(t, k);
                assert(k == 0);
            }
            assert(0 <= 0 < ngram::trigram_count(t));
        }
    }
}

proof fn lemma_literals_look_up(tree: PatternView)
    ensures
        looks_up_trigrams(query::literals_plan(query::literals(tree))),
    decreases tree,
{
    let plan = query::literals_plan(query::literals(tree));
    match tree {
        PatternView::Literal(bytes) => {
            let lit = ngram::lower(bytes);
            let n = ngram::trigram_count(lit);
            let all = query::lookups(lit, n);
            assert forall|k: int| 0 <= k < all.len() implies looks_up_trigrams(#[trigger] all[k]) by {
                lemma_lookups_from(lit, n, k);
                let i = choose|i: int| 0 <= i < n && all[k] == #[trigger] query::lookup_at(lit, i);
                lemma_lookup_at(bytes, i);
            }
        },
        PatternView::Capture(sub) => {
            lemma_literals_look_up(*sub);
        },
        PatternView::Concat(parts) => {
            assert forall|i: int| 0 <= i < parts.len() implies looks_up_trigrams(#[trigger] plan->And_0[i]) by {
                lemma_literals_look_up(parts[i]);
                assert(plan->And_0[i] == query::literals_plan(query::literals(parts[i])));
            }
        },
        PatternView::Alternation(parts) => {
            assert forall|i: int| 0 <= i < parts.len() implies looks_up_trigrams(#[trigger] plan->Or_0[i]) by {
                lemma_literals_look_up(parts[i]);
                assert(plan->Or_0[i] == query::literals_plan(query::literals(parts[i])));
            }
        },
        _ => {},
    }
}

proof fn lemma_simplified_looks_up(plan: PlanView)
    requires
        looks_up_trigrams(plan),
    ensures
        looks_up_trigrams(query::simplified(plan)),
    decreases plan,
{
    match plan {
        PlanView::And(subs) => {
            let all = query::simplified_each(subs);
            let left = query::kept(all, true);
            lemma_kept(all, true);
            assert forall|k: int| 0 <= k < left.len() implies looks_up_trigrams(#[trigger] left[k]) by {
                assert(all.contains(left[k]));
                let i = choose|i: int| 0 <= i < all.len() && all[i] == left[k];
                lemma_simplified_looks_up(subs[i]);
            }
        },
        PlanView::Or(subs) => {
            let all = query::simplified_each(subs);
            let left = query::kept(all, false);
            lemma_kept(all, false);
            assert forall|k: int| 0 <= k < left.len() implies looks_up_trigrams(#[trigger] left[k]) by {
                assert(all.contains(left[k]));
                let i = choose|i: int| 0 <= i < all.len() && all[i] == left[k];
                lemma_simplified_looks_up(subs[i]);
            }
        },
        _ => {},
    }
}

/// Every lookup in the plan of a pattern is of three bytes in lower case, and under the one
/// hash under which a file of just these bytes is indexed.
pub proof fn law_plans_look_up_trigrams(tree: PatternView)
    ensures
        looks_up_trigrams(query::tree_plan(tree)),
{
    lemma_literals_look_up(tree);
    lemma_simplified_looks_up(query::literals_plan(query::literals(tree)));
}

/// The lookups of a literal are of different hashes.
pub proof fn law_lookups_are_distinct(bytes: Seq<u8>, n: int)
    ensures
        forall|j: int, k: int|
            0 <= j < k < query::lookups(bytes, n).len() ==> (#[trigger] query::lookups(bytes, n)[j])->hash != (
            #[trigger] query::lookups(bytes, n)[k])->hash,
    decreases n,
{
    if n > 0 {
        let m = n - 1;
        let all = query::lookups(bytes, n);
        let before = query::lookups(bytes, m);
        law_lookups_are_distinct(bytes, m);
        assert forall|j: int, k: int| 0 <= j < k < all.len() implies (#[trigger] all[j])->hash != (
        #[trigger] all[k])->hash by {
            assert(all[j] == before[j]);
            if k < before.len() {
                assert(all[k] == before[k]);
            } else {
                lemma_lookups_from(bytes, m, j);
                let i = choose|i: int| 0 <= i < m && before[j] == #[trigger] query::lookup_at(bytes, i);
                assert(ngram::trigram_hash(bytes, i) != ngram::trigram_hash(bytes, m));
            }
        }
    }
}

/// When a simplified plan looks at all files: an AND does exactly if every part of it does, and
/// an OR exactly if one of its parts does or it has none.
pub proof fn law_when_all_files_are_looked_at(subs: Seq<PlanView>)
    ensures
        query::simplified(PlanView::And(subs)) is FullScan <==> forall|i: int|
            0 <= i < subs.len() ==> query::simplified(#[trigger] subs[i]) is FullScan,
        query::simplified(PlanView::Or(subs)) is FullScan <==> subs.len() == 0 || exists|i: int|
            0 <= i < subs.len() && query::simplified(#[trigger] subs[i]) is FullScan,
{
    let all = query::simplified_each(subs);
    let left = query::kept(all, true);
    let some = query::kept(all, false);
    lemma_kept(all, true);
    lemma_kept(all, false);
    assert forall|i: int| 0 <= i < subs.len() implies all[i] == query::simplified(#[trigger] subs[i]) && normal(all[i]) by {
        law_simplified_is_normal(subs[i]);
    }
    // An AND keeps a part exactly if that part does not look at all files.
    if forall|i: int| 0 <= i < subs.len() ==> query::simplified(#[trigger] subs[i]) is FullScan {
        if left.len() > 0 {
            assert(all.contains(left[0]));
            let i = choose|i: int| 0 <= i < all.len() && all[i] == left[0];
            assert(query::simplified(subs[i]) is FullScan);
            assert(query::stays(left[0], true));
        }
        assert(query::simplified(PlanView::And(subs)) is FullScan);
    } else {
        let i = choose|i: int| 0 <= i < subs.len() && !(query::simplified(#[trigger] subs[i]) is FullScan);
        assert(query::stays(all[i], true));
        assert(left.contains(all[i]));
        if left.len() == 1 {
            assert(query::stays(left[0], true));
        }
    }
    if subs.len() > 0 && forall|i: int| 0 <= i < subs.len() ==> !(query::simplified(#[trigger] subs[i]) is FullScan) {
        assert(!(query::simplified(subs[0]) is FullScan));
        assert(query::stays(all[0], false));
        assert(some.contains(all[0]));
        assert forall|k: int| 0 <= k < all.len() implies !(#[trigger] all[k] is FullScan) by {
            assert(!(query::simplified(subs[k]) is FullScan));
        }
        if some.len() == 1 {
            assert(all.contains(some[0]));
        }
    } else if subs.len() > 0 {
        let i = choose|i: int| 0 <= i < subs.len() && query::simplified(#[trigger] subs[i]) is FullScan;
        assert(all[i] is FullScan);
    } else {
        all.lemma_filter_len(|p: PlanView| query::stays(p, false));
    }
}

} // verus!
