//! Decomposition of a regular expression into trigram lookups.
//!
//! The literals of the expression's tree are turned into lookups of their
//! trigrams, combined by AND and OR as the tree combines the literals.

use crate::ngram;
use crate::ngram::{hash_ngram, to_lower};
use crate::pattern;
use crate::pattern::{parse_pattern, PatternTree, PatternView};
use crate::text;
use crate::text::{lossy_text, push_hex};
use std::collections::HashSet;
use vstd::prelude::*;

verus! {

broadcast use vstd::std_specs::hash::group_hash_axioms;

/// A query plan that describes which n-gram lookups to perform and how to
/// combine them.
#[derive(Debug)]
pub enum QueryPlan {
    /// Look up a single n-gram hash, with the bytes of the trigram for display.
    Lookup { hash: u64, trigram: Vec<u8> },
    /// All sub-plans must match.
    And(Vec<QueryPlan>),
    /// Any sub-plan must match.
    Or(Vec<QueryPlan>),
    /// No filtering is possible: all files have to be scanned.
    FullScan,
}

/// A [`QueryPlan`] over sequences.
pub enum PlanView {
    Lookup { hash: u64, trigram: Seq<u8> },
    And(Seq<PlanView>),
    Or(Seq<PlanView>),
    FullScan,
}

impl QueryPlan {
    /// The plan over sequences.
    pub open spec fn tree(self) -> PlanView
        decreases self,
    {
        match self {
            QueryPlan::Lookup { hash, trigram } => PlanView::Lookup { hash, trigram: trigram@ },
            QueryPlan::And(subs) => PlanView::And(
                Seq::new(
                    subs@.len(),
                    |i: int|
                        if 0 <= i < subs@.len() {
                            subs@[i].tree()
                        } else {
                            arbitrary()
                        },
                ),
            ),
            QueryPlan::Or(subs) => PlanView::Or(
                Seq::new(
                    subs@.len(),
                    |i: int|
                        if 0 <= i < subs@.len() {
                            subs@[i].tree()
                        } else {
                            arbitrary()
                        },
                ),
            ),
            QueryPlan::FullScan => PlanView::FullScan,
        }
    }
}

/// Plans over sequences.
pub open spec fn plan_trees(plans: Seq<QueryPlan>) -> Seq<PlanView> {
    plans.map_values(|p: QueryPlan| p.tree())
}

impl Clone for QueryPlan {
    fn clone(&self) -> (copy: QueryPlan)
        ensures
            copy.tree() == self.tree(),
    {
        copy_plan(self)
    }
}

/// Copies a plan.
fn copy_plan(plan: &QueryPlan) -> (copy: QueryPlan)
    ensures
        copy.tree() == plan.tree(),
    decreases *plan,
{
    match plan {
        QueryPlan::Lookup { hash, trigram } => {
            let mut bytes: Vec<u8> = Vec::new();
            bytes.extend_from_slice(trigram.as_slice());
            assert(bytes@ =~= trigram@);
            QueryPlan::Lookup { hash: *hash, trigram: bytes }
        },
        QueryPlan::And(subs) => {
            assert(decreases_to!(*plan => subs@));
            let copies = copy_plans(subs);
            let copy = QueryPlan::And(copies);
            assert(copy.tree()->And_0 =~= plan.tree()->And_0);
            copy
        },
        QueryPlan::Or(subs) => {
            assert(decreases_to!(*plan => subs@));
            let copies = copy_plans(subs);
            let copy = QueryPlan::Or(copies);
            assert(copy.tree()->Or_0 =~= plan.tree()->Or_0);
            copy
        },
        QueryPlan::FullScan => QueryPlan::FullScan,
    }
}

/// Copies plans.
fn copy_plans(plans: &Vec<QueryPlan>) -> (copies: Vec<QueryPlan>)
    ensures
        copies@.len() == plans@.len(),
        forall|i: int| 0 <= i < copies@.len() ==> (#[trigger] copies@[i]).tree() == plans@[i].tree(),
    decreases plans@,
{
    let mut copies: Vec<QueryPlan> = Vec::new();
    let mut i: usize = 0;
    while i < plans.len()
        invariant
            i <= plans@.len(),
            copies@.len() == i,
            forall|k: int| 0 <= k < copies@.len() ==> (#[trigger] copies@[k]).tree() == plans@[k].tree(),
        decreases plans@.len() - i,
    {
        copies.push(copy_plan(&plans[i]));
        i += 1;
    }
    copies
}

/// The literals of a regular expression, before they are turned into lookups.
pub enum LiteralExpr {
    /// A literal byte sequence.
    Lit(Vec<u8>),
    /// All sub-expressions have to be present.
    And(Vec<LiteralExpr>),
    /// Any sub-expression has to be present.
    Or(Vec<LiteralExpr>),
}

/// A [`LiteralExpr`] over sequences.
pub enum LiteralView {
    Lit(Seq<u8>),
    And(Seq<LiteralView>),
    Or(Seq<LiteralView>),
}

impl LiteralExpr {
    /// The expression over sequences.
    pub open spec fn tree(self) -> LiteralView
        decreases self,
    {
        match self {
            LiteralExpr::Lit(bytes) => LiteralView::Lit(bytes@),
            LiteralExpr::And(subs) => LiteralView::And(
                Seq::new(
                    subs@.len(),
                    |i: int|
                        if 0 <= i < subs@.len() {
                            subs@[i].tree()
                        } else {
                            arbitrary()
                        },
                ),
            ),
            LiteralExpr::Or(subs) => LiteralView::Or(
                Seq::new(
                    subs@.len(),
                    |i: int|
                        if 0 <= i < subs@.len() {
                            subs@[i].tree()
                        } else {
                            arbitrary()
                        },
                ),
            ),
        }
    }
}

// ---------------------------------------------------------------------------
// Literals of a tree
// ---------------------------------------------------------------------------

/// The literals of a tree: a concatenation needs those of all its parts, an
/// alternation those of one of its parts, a group those of what it holds, and
/// anything else needs none.
pub open spec fn literals(tree: PatternView) -> LiteralView
    decreases tree,
{
    match tree {
        PatternView::Literal(bytes) => LiteralView::Lit(bytes),
        PatternView::Concat(parts) => LiteralView::And(
            Seq::new(
                parts.len(),
                |i: int|
                    if 0 <= i < parts.len() {
                        literals(parts[i])
                    } else {
                        arbitrary()
                    },
            ),
        ),
        PatternView::Capture(sub) => literals(*sub),
        PatternView::Alternation(parts) => LiteralView::Or(
            Seq::new(
                parts.len(),
                |i: int|
                    if 0 <= i < parts.len() {
                        literals(parts[i])
                    } else {
                        arbitrary()
                    },
            ),
        ),
        _ => LiteralView::And(Seq::empty()),
    }
}

/// Extracts the literals of a tree.
pub fn extract_literal_expr(tree: &PatternTree) -> (expr: LiteralExpr)
    ensures
        expr.tree() == literals(tree.tree()),
    decreases *tree,
{
    match tree {
        PatternTree::Literal(bytes) => {
            let mut copy: Vec<u8> = Vec::new();
            copy.extend_from_slice(bytes.as_slice());
            assert(copy@ =~= bytes@);
            LiteralExpr::Lit(copy)
        },
        PatternTree::Concat(parts) => {
            assert(decreases_to!(*tree => parts@));
            let subs = extract_all(parts);
            let expr = LiteralExpr::And(subs);
            assert(expr.tree()->And_0 =~= literals(tree.tree())->And_0);
            expr
        },
        PatternTree::Capture(sub) => extract_literal_expr(sub),
        PatternTree::Alternation(parts) => {
            assert(decreases_to!(*tree => parts@));
            let subs = extract_all(parts);
            let expr = LiteralExpr::Or(subs);
            assert(expr.tree()->Or_0 =~= literals(tree.tree())->Or_0);
            expr
        },
        _ => {
            let none: Vec<LiteralExpr> = Vec::new();
            let expr = LiteralExpr::And(none);
            assert(expr.tree()->And_0 =~= Seq::<LiteralView>::empty());
            expr
        },
    }
}

/// Extracts the literals of each of several trees.
fn extract_all(parts: &Vec<PatternTree>) -> (subs: Vec<LiteralExpr>)
    ensures
        subs@.len() == parts@.len(),
        forall|i: int| 0 <= i < subs@.len() ==> (#[trigger] subs@[i]).tree() == literals(parts@[i].tree()),
    decreases parts@,
{
    let mut subs: Vec<LiteralExpr> = Vec::new();
    let mut i: usize = 0;
    while i < parts.len()
        invariant
            i <= parts@.len(),
            subs@.len() == i,
            forall|k: int| 0 <= k < subs@.len() ==> (#[trigger] subs@[k]).tree() == literals(parts@[k].tree()),
        decreases parts@.len() - i,
    {
        subs.push(extract_literal_expr(&parts[i]));
        i += 1;
    }
    subs
}

// ---------------------------------------------------------------------------
// Lookups of a literal
// ---------------------------------------------------------------------------

/// The lookup of the trigram of `text` at `i`.
pub open spec fn lookup_at(text: Seq<u8>, i: int) -> PlanView {
    PlanView::Lookup { hash: ngram::trigram_hash(text, i), trigram: text.subrange(i, i + 3) }
}

/// Whether the trigram of `text` at `i` is the first one with its hash.
pub open spec fn first_with_hash(text: Seq<u8>, i: int) -> bool {
    forall|k: int| 0 <= k < i ==> #[trigger] ngram::trigram_hash(text, k) != ngram::trigram_hash(text, i)
}

/// The lookups of the first `n` trigrams of `text`, one for each hash, where the
/// hash first occurs.
pub open spec fn lookups(text: Seq<u8>, n: int) -> Seq<PlanView>
    decreases n,
{
    if n <= 0 {
        Seq::empty()
    } else if first_with_hash(text, n - 1) {
        lookups(text, n - 1).push(lookup_at(text, n - 1))
    } else {
        lookups(text, n - 1)
    }
}

/// The plan of a literal: all lookups of its lowercased trigrams, or a full scan
/// where it has fewer than three bytes.
pub open spec fn literal_plan(bytes: Seq<u8>) -> PlanView {
    let lowered = ngram::lower(bytes);
    let all = lookups(lowered, ngram::trigram_count(lowered));
    if bytes.len() < 3 {
        PlanView::FullScan
    } else if all.len() == 1 {
        all[0]
    } else {
        PlanView::And(all)
    }
}

/// Some lookup is there as soon as there is a trigram.
proof fn lemma_lookups_some(text: Seq<u8>, n: int)
    requires
        n >= 1,
    ensures
        lookups(text, n).len() >= 1,
    decreases n,
{
    if n > 1 {
        lemma_lookups_some(text, n - 1);
    } else {
        assert(first_with_hash(text, 0));
    }
}

/// Turns a literal into a plan. Lookups are lowercased as the index is, so the
/// plan is the same whether case is ignored or not.
pub fn literal_to_plan(bytes: &[u8], _case_insensitive: bool) -> (plan: QueryPlan)
    ensures
        plan.tree() == literal_plan(bytes@),
{
    if bytes.len() < 3 {
        return QueryPlan::FullScan;
    }
    let lowered = to_lower(bytes);
    let n: usize = lowered.len() - 2;
    let mut seen: HashSet<u64> = HashSet::new();
    let mut found: Vec<QueryPlan> = Vec::new();
    let mut i: usize = 0;
    while i < n
        invariant
            i <= n,
            n == lowered.len() - 2,
            forall|h: u64|
                seen@.contains(h) <==> exists|k: int|
                    0 <= k < i && h == #[trigger] ngram::trigram_hash(lowered@, k),
            plan_trees(found@) == lookups(lowered@, i as int),
        decreases n - i,
    {
        let trigram = vstd::slice::slice_subrange(lowered.as_slice(), i, i + 3);
        let hash: u64 = hash_ngram(trigram);
        let ghost before = seen@;
        let ghost found_before = found@;
        assert(hash == ngram::trigram_hash(lowered@, i as int));
        let fresh: bool = seen.insert(hash);
        proof {
            assert forall|h: u64| seen@.contains(h) <==> exists|k: int|
                0 <= k < i + 1 && h == #[trigger] ngram::trigram_hash(lowered@, k) by {
                if h == hash {
                    assert(h == ngram::trigram_hash(lowered@, i as int));
                } else if before.contains(h) {
                    let k = choose|k: int| 0 <= k < i && h == #[trigger] ngram::trigram_hash(lowered@, k);
                    assert(0 <= k < i + 1);
                }
            }
            assert(fresh == first_with_hash(lowered@, i as int));
        }
        if fresh {
            let mut copy: Vec<u8> = Vec::new();
            copy.extend_from_slice(trigram);
            found.push(QueryPlan::Lookup { hash, trigram: copy });
            proof {
                assert(copy@ =~= lowered@.subrange(i as int, i + 3));
                assert(plan_trees(found@) =~= plan_trees(found_before).push(lookup_at(lowered@, i as int)));
            }
        }
        i += 1;
    }
    proof {
        lemma_lookups_some(lowered@, n as int);
        assert(plan_trees(found@).len() == found@.len());
    }
    if found.len() == 1 {
        match found.pop() {
            Some(only) => {
                assert(only.tree() == lookups(lowered@, n as int)[0]);
                only
            },
            None => QueryPlan::FullScan,
        }
    } else {
        let plan = QueryPlan::And(found);
        assert(plan.tree()->And_0 =~= plan_trees(found@));
        plan
    }
}

// ---------------------------------------------------------------------------
// Plans of literal expressions
// ---------------------------------------------------------------------------

/// The plan of a literal expression, node by node.
pub open spec fn literals_plan(expr: LiteralView) -> PlanView
    decreases expr,
{
    match expr {
        LiteralView::Lit(bytes) => literal_plan(bytes),
        LiteralView::And(subs) => PlanView::And(
            Seq::new(
                subs.len(),
                |i: int|
                    if 0 <= i < subs.len() {
                        literals_plan(subs[i])
                    } else {
                        arbitrary()
                    },
            ),
        ),
        LiteralView::Or(subs) => PlanView::Or(
            Seq::new(
                subs.len(),
                |i: int|
                    if 0 <= i < subs.len() {
                        literals_plan(subs[i])
                    } else {
                        arbitrary()
                    },
            ),
        ),
    }
}

/// Turns a literal expression into a plan.
pub fn literal_expr_to_plan(expr: LiteralExpr, case_insensitive: bool) -> (plan: QueryPlan)
    ensures
        plan.tree() == literals_plan(expr.tree()),
    decreases expr,
{
    match expr {
        LiteralExpr::Lit(bytes) => literal_to_plan(bytes.as_slice(), case_insensitive),
        LiteralExpr::And(subs) => {
            assert(decreases_to!(expr => subs@));
            let plans = plan_each(subs, case_insensitive);
            let plan = QueryPlan::And(plans);
            assert(plan.tree()->And_0 =~= literals_plan(expr.tree())->And_0);
            plan
        },
        LiteralExpr::Or(subs) => {
            assert(decreases_to!(expr => subs@));
            let plans = plan_each(subs, case_insensitive);
            let plan = QueryPlan::Or(plans);
            assert(plan.tree()->Or_0 =~= literals_plan(expr.tree())->Or_0);
            plan
        },
    }
}

/// Turns each of several literal expressions into a plan.
fn plan_each(subs: Vec<LiteralExpr>, case_insensitive: bool) -> (plans: Vec<QueryPlan>)
    ensures
        plans@.len() == subs@.len(),
        forall|i: int| 0 <= i < plans@.len() ==> (#[trigger] plans@[i]).tree() == literals_plan(subs@[i].tree()),
    decreases subs@,
{
    let mut plans: Vec<QueryPlan> = Vec::new();
    let ghost all = subs@;
    for s in it: subs.into_iter()
        invariant
            it.seq() == all,
            plans@.len() == it.index(),
            forall|k: int| 0 <= k < plans@.len() ==> (#[trigger] plans@[k]).tree() == literals_plan(all[k].tree()),
            all == subs@,
    {
        assert(decreases_to!(all => all[it.index()]));
        plans.push(literal_expr_to_plan(s, case_insensitive));
    }
    plans
}

// ---------------------------------------------------------------------------
// Simplification
// ---------------------------------------------------------------------------

/// Whether a sub-plan stays: an empty AND goes, and so does a full scan where
/// `drop_scans` says so.
pub open spec fn stays(plan: PlanView, drop_scans: bool) -> bool {
    match plan {
        PlanView::And(subs) => subs.len() > 0,
        PlanView::FullScan => !drop_scans,
        _ => true,
    }
}

/// The sub-plans that stay.
pub open spec fn kept(plans: Seq<PlanView>, drop_scans: bool) -> Seq<PlanView> {
    plans.filter(|p: PlanView| stays(p, drop_scans))
}

/// The simplified form of a plan. In an AND, sub-plans that do not constrain are
/// dropped; an OR with a full scan among its sub-plans is a full scan. What is
/// left with one sub-plan is that sub-plan, and with none a full scan.
pub open spec fn simplified(plan: PlanView) -> PlanView
    decreases plan, 0nat,
{
    match plan {
        PlanView::And(subs) => {
            let all = simplified_each(subs);
            let left = kept(all, true);
            if left.len() == 0 {
                PlanView::FullScan
            } else if left.len() == 1 {
                left[0]
            } else {
                PlanView::And(left)
            }
        },
        PlanView::Or(subs) => {
            let all = simplified_each(subs);
            let left = kept(all, false);
            if exists|i: int| 0 <= i < all.len() && #[trigger] all[i] is FullScan {
                PlanView::FullScan
            } else if left.len() == 0 {
                PlanView::FullScan
            } else if left.len() == 1 {
                left[0]
            } else {
                PlanView::Or(left)
            }
        },
        _ => plan,
    }
}

/// The simplified forms of several plans.
pub open spec fn simplified_each(plans: Seq<PlanView>) -> Seq<PlanView>
    decreases plans, 1nat,
{
    Seq::new(
        plans.len(),
        |i: int|
            if 0 <= i < plans.len() {
                simplified(plans[i])
            } else {
                arbitrary()
            },
    )
}

/// Simplifies each of several plans.
fn simplify_each(plans: Vec<QueryPlan>) -> (out: Vec<QueryPlan>)
    ensures
        out@.len() == plans@.len(),
        forall|i: int| 0 <= i < out@.len() ==> (#[trigger] out@[i]).tree() == simplified(plans@[i].tree()),
    decreases plans@,
{
    let mut out: Vec<QueryPlan> = Vec::new();
    let ghost all = plans@;
    for p in it: plans.into_iter()
        invariant
            it.seq() == all,
            out@.len() == it.index(),
            forall|k: int| 0 <= k < out@.len() ==> (#[trigger] out@[k]).tree() == simplified(all[k].tree()),
            all == plans@,
    {
        assert(decreases_to!(all => all[it.index()]));
        out.push(simplify(p));
    }
    out
}

/// Keeps the plans that stay.
fn keep_plans(plans: Vec<QueryPlan>, drop_scans: bool) -> (out: Vec<QueryPlan>)
    ensures
        plan_trees(out@) == kept(plan_trees(plans@), drop_scans),
{
    let mut out: Vec<QueryPlan> = Vec::new();
    let ghost all = plan_trees(plans@);
    assert(kept(all.take(0), drop_scans) =~= Seq::<PlanView>::empty());
    assert(plan_trees(out@) =~= Seq::<PlanView>::empty());
    for p in it: plans.into_iter()
        invariant
            it.seq() == plans@,
            all == plan_trees(plans@),
            plan_trees(out@) == kept(all.take(it.index()), drop_scans),
            it.index() == it.seq().len() ==> plan_trees(out@) == kept(all, drop_scans),
    {
        let ghost before = out@;
        let stay: bool = match &p {
            QueryPlan::And(subs) => subs.len() > 0,
            QueryPlan::FullScan => !drop_scans,
            _ => true,
        };
        proof {
            let n = it.index();
            assert(all.take(n + 1).drop_last() =~= all.take(n));
            assert(all.take(n + 1).last() == p.tree());
            assert(stay == stays(p.tree(), drop_scans));
            reveal(Seq::filter);
            lemma_take_all(all, n + 1);
        }
        if stay {
            out.push(p);
            assert(plan_trees(out@) =~= plan_trees(before).push(p.tree()));
        }
    }
    out
}

proof fn lemma_take_all(s: Seq<PlanView>, n: int)
    ensures
        n == s.len() ==> s.take(n) == s,
{
    if n == s.len() {
        assert(s.take(n) =~= s);
    }
}

/// Whether a full scan is among the plans.
fn has_full_scan(plans: &Vec<QueryPlan>) -> (r: bool)
    ensures
        r == exists|i: int| 0 <= i < plans@.len() && #[trigger] plan_trees(plans@)[i] is FullScan,
{
    let mut i: usize = 0;
    while i < plans.len()
        invariant
            i <= plans@.len(),
            forall|k: int| 0 <= k < i ==> !(#[trigger] plan_trees(plans@)[k] is FullScan),
        decreases plans@.len() - i,
    {
        let scan: bool = match &plans[i] {
            QueryPlan::FullScan => true,
            _ => false,
        };
        assert(plan_trees(plans@)[i as int] == plans@[i as int].tree());
        if scan {
            return true;
        }
        i += 1;
    }
    false
}

/// Simplifies a plan by dropping what does not constrain and flattening what is
/// left with one sub-plan.
pub fn simplify(plan: QueryPlan) -> (out: QueryPlan)
    ensures
        out.tree() == simplified(plan.tree()),
    decreases plan,
{
    match plan {
        QueryPlan::And(subs) => {
            assert(decreases_to!(plan => subs@));
            let all = simplify_each(subs);
            assert(plan_trees(all@) =~= simplified_each(plan.tree()->And_0));
            let mut left = keep_plans(all, true);
            assert(plan_trees(left@).len() == left@.len());
            if left.len() == 1 {
                match left.pop() {
                    Some(only) => {
                        assert(only.tree() == kept(plan_trees(all@), true)[0]);
                        only
                    },
                    None => QueryPlan::FullScan,
                }
            } else if left.len() == 0 {
                QueryPlan::FullScan
            } else {
                let out = QueryPlan::And(left);
                assert(out.tree()->And_0 =~= plan_trees(left@));
                out
            }
        },
        QueryPlan::Or(subs) => {
            assert(decreases_to!(plan => subs@));
            let all = simplify_each(subs);
            assert(plan_trees(all@) =~= simplified_each(plan.tree()->Or_0));
            if has_full_scan(&all) {
                return QueryPlan::FullScan;
            }
            let mut left = keep_plans(all, false);
            assert(plan_trees(left@).len() == left@.len());
            if left.len() == 1 {
                match left.pop() {
                    Some(only) => {
                        assert(only.tree() == kept(plan_trees(all@), false)[0]);
                        only
                    },
                    None => QueryPlan::FullScan,
                }
            } else if left.len() == 0 {
                QueryPlan::FullScan
            } else {
                let out = QueryPlan::Or(left);
                assert(out.tree()->Or_0 =~= plan_trees(left@));
                out
            }
        },
        other => other,
    }
}

// ---------------------------------------------------------------------------
// The plan of a pattern
// ---------------------------------------------------------------------------

/// The plan of a tree.
pub open spec fn tree_plan(tree: PatternView) -> PlanView {
    simplified(literals_plan(literals(tree)))
}

/// Builds the plan of a tree.
pub fn plan_of_tree(tree: &PatternTree, case_insensitive: bool) -> (plan: QueryPlan)
    ensures
        plan.tree() == tree_plan(tree.tree()),
{
    simplify(literal_expr_to_plan(extract_literal_expr(tree), case_insensitive))
}

/// A pattern that is no regular expression, with the parser's message.
#[derive(Debug)]
pub struct PatternError {
    pub message: String,
}

/// Builds a query plan from a regex pattern.
pub fn build_query_plan(pattern: &str, case_insensitive: bool) -> (r: Result<QueryPlan, PatternError>)
    ensures
        match pattern::parsed(pattern@) {
            Ok(tree) => r is Ok && r->Ok_0.tree() == tree_plan(tree),
            Err(message) => r is Err && r->Err_0.message@ == message,
        },
{
    match parse_pattern(pattern) {
        Ok(tree) => Ok(plan_of_tree(&tree, case_insensitive)),
        Err(message) => Err(PatternError { message }),
    }
}

// ---------------------------------------------------------------------------
// Explanation
// ---------------------------------------------------------------------------

/// The text of a plan behind a padding: a lookup or a full scan on one line, an AND
/// or an OR with every sub-plan on lines of its own, two blanks deeper.
pub open spec fn explained(plan: PlanView, pad: Seq<char>) -> Seq<char>
    decreases plan, 0nat,
{
    match plan {
        PlanView::Lookup { hash, trigram } => pad + "lookup \""@ + text::utf8_lossy(trigram) + "\" → 0x"@
            + text::hex(hash as nat, 16),
        PlanView::And(subs) => pad + "AND(\n"@ + explained_all(subs, subs.len(), pad + "  "@) + pad + ")"@,
        PlanView::Or(subs) => pad + "OR(\n"@ + explained_all(subs, subs.len(), pad + "  "@) + pad + ")"@,
        PlanView::FullScan => pad + "FULL_SCAN"@,
    }
}

/// The texts of the first `n` of several plans, each with a newline after it.
pub open spec fn explained_all(subs: Seq<PlanView>, n: nat, pad: Seq<char>) -> Seq<char>
    decreases subs, n,
{
    if n == 0 || n > subs.len() {
        Seq::empty()
    } else {
        explained_all(subs, (n - 1) as nat, pad) + explained(subs[n - 1], pad) + "\n"@
    }
}

/// Returns a human-readable explanation of the query plan.
pub fn explain_plan(plan: &QueryPlan) -> (out: String)
    ensures
        out@ == explained(plan.tree(), Seq::empty()),
{
    let mut out = String::new();
    let pad = String::new();
    push_explained(&mut out, plan, &pad);
    assert(pad@ =~= Seq::<char>::empty());
    assert(out@ =~= explained(plan.tree(), Seq::empty()));
    out
}

/// Appends the text of a plan behind a padding.
fn push_explained(out: &mut String, plan: &QueryPlan, pad: &String)
    ensures
        final(out)@ == old(out)@ + explained(plan.tree(), pad@),
    decreases *plan, 0nat,
{
    out.append(pad.as_str());
    match plan {
        QueryPlan::Lookup { hash, trigram } => {
            out.append("lookup \"");
            out.append(lossy_text(trigram.as_slice()).as_str());
            out.append("\" → 0x");
            push_hex(out, *hash, 16);
        },
        QueryPlan::And(subs) => {
            assert(decreases_to!(*plan => subs@));
            out.append("AND(\n");
            push_explained_all(out, subs, pad);
            assert(plan_trees(subs@) =~= plan.tree()->And_0);
            out.append(pad.as_str());
            out.append(")");
        },
        QueryPlan::Or(subs) => {
            assert(decreases_to!(*plan => subs@));
            out.append("OR(\n");
            push_explained_all(out, subs, pad);
            assert(plan_trees(subs@) =~= plan.tree()->Or_0);
            out.append(pad.as_str());
            out.append(")");
        },
        QueryPlan::FullScan => {
            out.append("FULL_SCAN");
        },
    }
    assert(out@ =~= old(out)@ + explained(plan.tree(), pad@));
}

/// Appends the texts of several plans, two blanks deeper than `pad`.
fn push_explained_all(out: &mut String, subs: &Vec<QueryPlan>, pad: &String)
    ensures
        final(out)@ == old(out)@ + explained_all(plan_trees(subs@), subs@.len(), pad@ + "  "@),
    decreases subs@, 1nat,
{
    let mut deeper = String::new();
    deeper.append(pad.as_str());
    deeper.append("  ");
    assert(deeper@ =~= pad@ + "  "@);
    let mut i: usize = 0;
    assert(out@ =~= old(out)@ + explained_all(plan_trees(subs@), 0, deeper@));
    while i < subs.len()
        invariant
            i <= subs@.len(),
            out@ == old(out)@ + explained_all(plan_trees(subs@), i as nat, deeper@),
        decreases subs@.len() - i,
    {
        push_explained(out, &subs[i], &deeper);
        out.append("\n");
        assert(plan_trees(subs@)[i as int] == subs@[i as int].tree());
        assert(out@ =~= old(out)@ + explained_all(plan_trees(subs@), (i + 1) as nat, deeper@));
        i += 1;
    }
}

} // verus!
