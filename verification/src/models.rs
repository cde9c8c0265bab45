//! What the models say of the values they stand for: each item for item, and field for field.

use crate::filemeta;
use crate::filemeta::FileState;
use crate::filter;
use crate::freshness;
use crate::freshness::CurrentFile;
use crate::indexer::InMemoryIndex;
use crate::matching;
use crate::pattern::{PatternTree, PatternView};
use crate::query::{LiteralExpr, LiteralView, PlanView, QueryPlan};
use crate::render;
use crate::rg;
use crate::rg::RgEvent;
use crate::scan;
use crate::scan::SearchMatch;
use crate::search;
use crate::sorting;
use crate::storage;
use crate::text;
use crate::walk;
use vstd::prelude::*;

verus! {

/// The model of strings has the characters of each, in the same order.
pub proof fn law_texts(strings: Seq<String>, k: int)
    requires
        0 <= k < strings.len(),
    ensures
        text::texts(strings).len() == strings.len(),
        text::texts(strings)[k] == strings[k]@,
{
}

/// The model of matches has the path, the number, the text and the lines around of each, all
/// in the same order.
pub proof fn law_match_models(matches: Seq<SearchMatch>, k: int)
    requires
        0 <= k < matches.len(),
    ensures
        scan::match_views(matches).len() == matches.len(),
        scan::match_views(matches)[k].path == matches[k].path@,
        scan::match_views(matches)[k].line_number == matches[k].line_number,
        scan::match_views(matches)[k].line_text == matches[k].line_text@,
        scan::match_views(matches)[k].context_before.len() == matches[k].context_before@.len(),
        scan::match_views(matches)[k].context_after.len() == matches[k].context_after@.len(),
        forall|j: int|
            0 <= j < matches[k].context_before@.len() ==> scan::match_views(matches)[k].context_before[j]
                == #[trigger] matches[k].context_before@[j]@,
        forall|j: int|
            0 <= j < matches[k].context_after@.len() ==> scan::match_views(matches)[k].context_after[j]
                == #[trigger] matches[k].context_after@[j]@,
{
}

/// The model of reported lines has the kind, the path, the number and the text of each.
pub proof fn law_event_models(events: Seq<RgEvent>, k: int)
    requires
        0 <= k < events.len(),
    ensures
        rg::event_views(events).len() == events.len(),
        rg::event_views(events)[k].is_match == events[k].is_match,
        rg::event_views(events)[k].path == events[k].path@,
        rg::event_views(events)[k].line_number == events[k].line_number,
        rg::event_views(events)[k].text == events[k].text@,
{
}

/// The models of file states, of files on disk and of candidates have the fields of each.
pub proof fn law_file_models(
    states: Seq<FileState>,
    current: Seq<CurrentFile>,
    candidates: Seq<(u32, String)>,
    k: int,
)
    ensures
        filemeta::state_views(states).len() == states.len(),
        freshness::current_views(current).len() == current.len(),
        search::candidate_views(candidates).len() == candidates.len(),
        0 <= k < states.len() ==> filemeta::state_views(states)[k].path == states[k].path@ && filemeta::state_views(
            states,
        )[k].mtime == states[k].mtime && filemeta::state_views(states)[k].size == states[k].size,
        0 <= k < current.len() ==> freshness::current_views(current)[k].path == current[k].path@
            && freshness::current_views(current)[k].stat == current[k].stat,
        0 <= k < candidates.len() ==> search::candidate_views(candidates)[k] == (candidates[k].0, candidates[k].1@),
{
}

/// The models of lines and of contents have the text or the bytes of each that could be read,
/// and nothing for the others; those of spans and of entries have what each holds.
pub proof fn law_content_models(
    lines: Seq<Option<String>>,
    contents: Seq<Option<&[u8]>>,
    spans: Seq<Vec<(usize, usize)>>,
    entries: Seq<(u64, Vec<u32>)>,
    k: int,
)
    ensures
        matching::line_views(lines).len() == lines.len(),
        scan::content_views(contents).len() == contents.len(),
        render::span_views(spans).len() == spans.len(),
        storage::entry_views(entries).len() == entries.len(),
        0 <= k < lines.len() ==> (matching::line_views(lines)[k] is Some <==> lines[k] is Some) && (lines[k] is Some
            ==> matching::line_views(lines)[k] == Some(lines[k].unwrap()@)),
        0 <= k < contents.len() ==> (scan::content_views(contents)[k] is Some <==> contents[k] is Some) && (
        contents[k] is Some ==> scan::content_views(contents)[k] == Some(contents[k].unwrap()@)),
        0 <= k < spans.len() ==> render::span_views(spans)[k] == spans[k]@,
        0 <= k < entries.len() ==> storage::entry_views(entries)[k] == (entries[k].0, entries[k].1@),
{
}

/// The model of an index in memory has its posting lists, under the same hashes.
pub proof fn law_index_model(index: InMemoryIndex)
    ensures
        index.lists().dom() == index.postings@.dom(),
        forall|h: u64| #[trigger] index.postings@.dom().contains(h) ==> index.lists()[h] == index.postings@[h]@,
{
    assert(index.lists().dom() =~= index.postings@.dom());
}

/// The model of a plan has its lookups, and the models of the parts under the same node.
pub proof fn law_plan_model(plan: QueryPlan, k: int)
    ensures
        plan matches QueryPlan::Lookup { hash, trigram } ==> plan.tree() == (PlanView::Lookup {
            hash,
            trigram: trigram@,
        }),
        plan is FullScan ==> plan.tree() == PlanView::FullScan,
        plan matches QueryPlan::And(subs) ==> plan.tree() is And && plan.tree()->And_0.len() == subs@.len() && (0 <= k
            < subs@.len() ==> plan.tree()->And_0[k] == subs@[k].tree()),
        plan matches QueryPlan::Or(subs) ==> plan.tree() is Or && plan.tree()->Or_0.len() == subs@.len() && (0 <= k
            < subs@.len() ==> plan.tree()->Or_0[k] == subs@[k].tree()),
{
}

/// The models of a literal expression and of a tree have their bytes, and the models of the
/// parts under the same node.
pub proof fn law_tree_models(expr: LiteralExpr, tree: PatternTree, k: int)
    ensures
        expr matches LiteralExpr::Lit(bytes) ==> expr.tree() == LiteralView::Lit(bytes@),
        expr matches LiteralExpr::And(subs) ==> expr.tree() is And && expr.tree()->And_0.len() == subs@.len() && (0 <= k
            < subs@.len() ==> expr.tree()->And_0[k] == subs@[k].tree()),
        expr matches LiteralExpr::Or(subs) ==> expr.tree() is Or && expr.tree()->Or_0.len() == subs@.len() && (0 <= k
            < subs@.len() ==> expr.tree()->Or_0[k] == subs@[k].tree()),
        tree matches PatternTree::Literal(bytes) ==> tree.tree() == PatternView::Literal(bytes@),
        tree matches PatternTree::Capture(sub) ==> tree.tree() == PatternView::Capture(Box::new(sub.tree())),
        tree matches PatternTree::Concat(parts) ==> tree.tree() is Concat && tree.tree()->Concat_0.len() == parts@.len()
            && (0 <= k < parts@.len() ==> tree.tree()->Concat_0[k] == parts@[k].tree()),
        tree matches PatternTree::Alternation(parts) ==> tree.tree() is Alternation && tree.tree()->Alternation_0.len()
            == parts@.len() && (0 <= k < parts@.len() ==> tree.tree()->Alternation_0[k] == parts@[k].tree()),
{
}

/// The models of texts and bytes that may be missing have what is there; those of walked files
/// and of string slices have the text of each, in the same order.
pub proof fn law_optional_models(
    pattern: Option<&str>,
    bytes: Option<&[u8]>,
    walked: Seq<(String, u64)>,
    slices: Seq<&str>,
    k: int,
)
    ensures
        filter::optional_text(pattern) is Some <==> pattern is Some,
        pattern is Some ==> filter::optional_text(pattern) == Some(pattern.unwrap()@),
        freshness::optional_bytes(bytes) is Some <==> bytes is Some,
        bytes is Some ==> freshness::optional_bytes(bytes) == Some(bytes.unwrap()@),
        sorting::walked_paths(walked).len() == walked.len(),
        walk::str_texts(slices).len() == slices.len(),
        0 <= k < walked.len() ==> sorting::walked_paths(walked)[k] == walked[k].0@,
        0 <= k < slices.len() ==> walk::str_texts(slices)[k] == slices[k]@,
{
}

} // verus!
