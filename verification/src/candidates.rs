//! Evaluation of a query plan against an index: which files can hold a match.

use crate::narrowing;
use crate::postings;
use crate::query::{PlanView, QueryPlan};
use crate::storage::{IndexView, MappedIndex};
use vstd::prelude::*;

verus! {

// ---------------------------------------------------------------------------
// Sorted-set operations on posting lists
// ---------------------------------------------------------------------------

/// The intersection of two ascending lists, by walking both at once: the smaller
/// head is dropped, and equal heads are taken once.
pub open spec fn intersected(a: Seq<u32>, b: Seq<u32>) -> Seq<u32>
    decreases a.len() + b.len(),
{
    if a.len() == 0 || b.len() == 0 {
        Seq::empty()
    } else if a[0] < b[0] {
        intersected(a.drop_first(), b)
    } else if a[0] > b[0] {
        intersected(a, b.drop_first())
    } else {
        seq![a[0]] + intersected(a.drop_first(), b.drop_first())
    }
}

/// The union of two ascending lists, by walking both at once: the smaller head is
/// taken, and equal heads are taken once.
pub open spec fn united(a: Seq<u32>, b: Seq<u32>) -> Seq<u32>
    decreases a.len() + b.len(),
{
    if a.len() == 0 {
        b
    } else if b.len() == 0 {
        a
    } else if a[0] < b[0] {
        seq![a[0]] + united(a.drop_first(), b)
    } else if a[0] > b[0] {
        seq![b[0]] + united(a, b.drop_first())
    } else {
        seq![a[0]] + united(a.drop_first(), b.drop_first())
    }
}

/// Intersects two ascending lists.
pub fn intersect_sorted(a: &[u32], b: &[u32]) -> (result: Vec<u32>)
    ensures
        result@ == intersected(a@, b@),
{
    let mut result: Vec<u32> = Vec::new();
    let mut i: usize = 0;
    let mut j: usize = 0;
    assert(a@.skip(0) =~= a@);
    assert(b@.skip(0) =~= b@);
    assert(result@ + intersected(a@, b@) =~= intersected(a@, b@));
    while i < a.len() && j < b.len()
        invariant
            i <= a@.len(),
            j <= b@.len(),
            result@ + intersected(a@.skip(i as int), b@.skip(j as int)) == intersected(a@, b@),
        decreases a@.len() - i + b@.len() - j,
    {
        let ghost before = result@;
        let ghost ta = a@.skip(i as int);
        let ghost tb = b@.skip(j as int);
        proof {
            assert(ta.drop_first() =~= a@.skip(i + 1));
            assert(tb.drop_first() =~= b@.skip(j + 1));
        }
        if a[i] < b[j] {
            i += 1;
        } else if a[i] > b[j] {
            j += 1;
        } else {
            result.push(a[i]);
            proof {
                let rest = intersected(ta.drop_first(), tb.drop_first());
                assert(before + (seq![ta[0]] + rest) =~= result@ + rest);
            }
            i += 1;
            j += 1;
        }
    }
    assert(result@ =~= intersected(a@, b@));
    result
}

/// Unites two ascending lists.
pub fn union_sorted(a: &[u32], b: &[u32]) -> (result: Vec<u32>)
    ensures
        result@ == united(a@, b@),
{
    let mut result: Vec<u32> = Vec::new();
    let mut i: usize = 0;
    let mut j: usize = 0;
    assert(a@.skip(0) =~= a@);
    assert(b@.skip(0) =~= b@);
    assert(result@ + united(a@, b@) =~= united(a@, b@));
    while i < a.len() && j < b.len()
        invariant
            i <= a@.len(),
            j <= b@.len(),
            result@ + united(a@.skip(i as int), b@.skip(j as int)) == united(a@, b@),
        decreases a@.len() - i + b@.len() - j,
    {
        let ghost before = result@;
        let ghost ta = a@.skip(i as int);
        let ghost tb = b@.skip(j as int);
        proof {
            assert(ta.drop_first() =~= a@.skip(i + 1));
            assert(tb.drop_first() =~= b@.skip(j + 1));
        }
        if a[i] < b[j] {
            result.push(a[i]);
            proof {
                let rest = united(ta.drop_first(), tb);
                assert(before + (seq![ta[0]] + rest) =~= result@ + rest);
            }
            i += 1;
        } else if a[i] > b[j] {
            result.push(b[j]);
            proof {
                let rest = united(ta, tb.drop_first());
                assert(before + (seq![tb[0]] + rest) =~= result@ + rest);
            }
            j += 1;
        } else {
            result.push(a[i]);
            proof {
                let rest = united(ta.drop_first(), tb.drop_first());
                assert(before + (seq![ta[0]] + rest) =~= result@ + rest);
            }
            i += 1;
            j += 1;
        }
    }
    let ghost before = result@;
    result.extend_from_slice(vstd::slice::slice_subrange(a, i, a.len()));
    result.extend_from_slice(vstd::slice::slice_subrange(b, j, b.len()));
    proof {
        assert(a@.subrange(i as int, a@.len() as int) =~= a@.skip(i as int));
        assert(b@.subrange(j as int, b@.len() as int) =~= b@.skip(j as int));
        assert(result@ =~= before + a@.skip(i as int) + b@.skip(j as int));
        if i == a@.len() {
            assert(result@ =~= before + b@.skip(j as int));
        } else {
            assert(result@ =~= before + a@.skip(i as int));
        }
    }
    result
}

/// The intersection of ascending lists is ascending and holds what both hold, each
/// once where neither list holds anything twice.
pub proof fn law_intersection(a: Seq<u32>, b: Seq<u32>)
    requires
        postings::ascending(a),
        postings::ascending(b),
    ensures
        postings::ascending(intersected(a, b)),
        postings::strictly_ascending(a) && postings::strictly_ascending(b) ==> postings::strictly_ascending(
            intersected(a, b),
        ),
        forall|x: u32| intersected(a, b).contains(x) <==> a.contains(x) && b.contains(x),
    decreases a.len() + b.len(),
{
    let r = intersected(a, b);
    if a.len() > 0 && b.len() > 0 {
        let ta = a.drop_first();
        let tb = b.drop_first();
        lemma_tail_ascending(a);
        lemma_tail_ascending(b);
        lemma_head_or_tail(a);
        lemma_head_or_tail(b);
        if a[0] < b[0] {
            law_intersection(ta, b);
            assert(!b.contains(a[0])) by {
                lemma_head_least(b, a[0]);
            }
        } else if a[0] > b[0] {
            law_intersection(a, tb);
            assert(!a.contains(b[0])) by {
                lemma_head_least(a, b[0]);
            }
        } else {
            law_intersection(ta, tb);
            let rest = intersected(ta, tb);
            assert forall|x: u32| rest.contains(x) implies a[0] <= x by {
                assert(ta.contains(x));
                assert(a.contains(x));
                lemma_head_least(a, x);
            }
            lemma_prepend(a[0], rest);
            if postings::strictly_ascending(a) && postings::strictly_ascending(b) {
                assert forall|x: u32| rest.contains(x) implies a[0] < x by {
                    assert(ta.contains(x));
                    lemma_head_strictly_least(a, x);
                }
                lemma_prepend_strictly(a[0], rest);
            }
        }
        assert forall|x: u32| r.contains(x) <==> a.contains(x) && b.contains(x) by {
            assert(a.contains(x) <==> x == a[0] || ta.contains(x));
            assert(b.contains(x) <==> x == b[0] || tb.contains(x));
            if a[0] < b[0] {
                assert(intersected(ta, b).contains(x) <==> ta.contains(x) && b.contains(x));
            } else if a[0] > b[0] {
                assert(intersected(a, tb).contains(x) <==> a.contains(x) && tb.contains(x));
            } else {
                assert(intersected(ta, tb).contains(x) <==> ta.contains(x) && tb.contains(x));
                assert(r.contains(x) <==> x == a[0] || intersected(ta, tb).contains(x));
            }
        }
    }
}

/// The union of ascending lists is ascending and holds what either holds, each once
/// where neither list holds anything twice.
pub proof fn law_union(a: Seq<u32>, b: Seq<u32>)
    requires
        postings::ascending(a),
        postings::ascending(b),
    ensures
        postings::ascending(united(a, b)),
        postings::strictly_ascending(a) && postings::strictly_ascending(b) ==> postings::strictly_ascending(
            united(a, b),
        ),
        forall|x: u32| united(a, b).contains(x) <==> a.contains(x) || b.contains(x),
    decreases a.len() + b.len(),
{
    if a.len() > 0 && b.len() > 0 {
        let ta = a.drop_first();
        let tb = b.drop_first();
        lemma_tail_ascending(a);
        lemma_tail_ascending(b);
        lemma_head_or_tail(a);
        lemma_head_or_tail(b);
        let (head, rest) = if a[0] < b[0] {
            law_union(ta, b);
            (a[0], united(ta, b))
        } else if a[0] > b[0] {
            law_union(a, tb);
            (b[0], united(a, tb))
        } else {
            law_union(ta, tb);
            (a[0], united(ta, tb))
        };
        assert forall|x: u32| rest.contains(x) implies head <= x by {
            if a.contains(x) {
                lemma_head_least(a, x);
            } else {
                assert(b.contains(x));
                lemma_head_least(b, x);
            }
        }
        lemma_prepend(head, rest);
        if postings::strictly_ascending(a) && postings::strictly_ascending(b) {
            assert forall|x: u32| rest.contains(x) implies head < x by {
                if a[0] <= b[0] && ta.contains(x) {
                    lemma_head_strictly_least(a, x);
                } else if b[0] <= a[0] && tb.contains(x) {
                    lemma_head_strictly_least(b, x);
                } else if a[0] < b[0] {
                    lemma_head_least(b, x);
                } else {
                    lemma_head_least(a, x);
                }
            }
            lemma_prepend_strictly(head, rest);
        }
        assert forall|x: u32| united(a, b).contains(x) <==> a.contains(x) || b.contains(x) by {
            assert(a.contains(x) <==> x == a[0] || ta.contains(x));
            assert(b.contains(x) <==> x == b[0] || tb.contains(x));
        }
    } else {
        assert forall|x: u32| united(a, b).contains(x) <==> a.contains(x) || b.contains(x) by {}
    }
}

proof fn lemma_tail_ascending(s: Seq<u32>)
    requires
        postings::ascending(s),
        s.len() > 0,
    ensures
        postings::ascending(s.drop_first()),
        postings::strictly_ascending(s) ==> postings::strictly_ascending(s.drop_first()),
{
    let t = s.drop_first();
    assert forall|i: int, j: int| 0 <= i <= j < t.len() implies t[i] <= t[j] by {
        assert(s[i + 1] <= s[j + 1]);
    }
    if postings::strictly_ascending(s) {
        assert forall|i: int, j: int| 0 <= i < j < t.len() implies t[i] < t[j] by {
            assert(s[i + 1] < s[j + 1]);
        }
    }
}

pub proof fn lemma_strictly_is_ascending(s: Seq<u32>)
    requires
        postings::strictly_ascending(s),
    ensures
        postings::ascending(s),
{
    assert forall|i: int, j: int| 0 <= i <= j < s.len() implies s[i] <= s[j] by {
        if i < j {
            assert(s[i] < s[j]);
        }
    }
}

proof fn lemma_head_or_tail(s: Seq<u32>)
    requires
        s.len() > 0,
    ensures
        forall|x: u32| s.contains(x) <==> x == s[0] || s.drop_first().contains(x),
{
    let t = s.drop_first();
    assert forall|x: u32| s.contains(x) <==> x == s[0] || t.contains(x) by {
        if s.contains(x) && x != s[0] {
            let k = choose|k: int| 0 <= k < s.len() && s[k] == x;
            assert(t[k - 1] == x);
        }
        if t.contains(x) {
            let k = choose|k: int| 0 <= k < t.len() && t[k] == x;
            assert(s[k + 1] == x);
        }
    }
}

proof fn lemma_head_least(s: Seq<u32>, x: u32)
    requires
        postings::ascending(s),
        s.len() > 0,
    ensures
        s.contains(x) ==> s[0] <= x,
{
    if s.contains(x) {
        let k = choose|k: int| 0 <= k < s.len() && s[k] == x;
        assert(s[0] <= s[k]);
    }
}

proof fn lemma_head_strictly_least(s: Seq<u32>, x: u32)
    requires
        postings::strictly_ascending(s),
        s.len() > 0,
    ensures
        s.drop_first().contains(x) ==> s[0] < x,
{
    let t = s.drop_first();
    if t.contains(x) {
        let k = choose|k: int| 0 <= k < t.len() && t[k] == x;
        assert(s[0] < s[k + 1]);
    }
}

proof fn lemma_prepend_strictly(head: u32, rest: Seq<u32>)
    requires
        postings::strictly_ascending(rest),
        forall|x: u32| rest.contains(x) ==> head < x,
    ensures
        postings::strictly_ascending(seq![head] + rest),
{
    let s = seq![head] + rest;
    assert forall|i: int, j: int| 0 <= i < j < s.len() implies s[i] < s[j] by {
        assert(rest.contains(rest[j - 1]));
        if i > 0 {
            assert(rest[i - 1] < rest[j - 1]);
        }
    }
}

proof fn lemma_prepend(head: u32, rest: Seq<u32>)
    requires
        postings::ascending(rest),
        forall|x: u32| rest.contains(x) ==> head <= x,
    ensures
        postings::ascending(seq![head] + rest),
        forall|x: u32| (seq![head] + rest).contains(x) <==> x == head || rest.contains(x),
{
    let s = seq![head] + rest;
    assert(s.drop_first() =~= rest);
    lemma_head_or_tail(s);
    assert forall|i: int, j: int| 0 <= i <= j < s.len() implies s[i] <= s[j] by {
        if j > 0 {
            assert(rest.contains(rest[j - 1]));
            if i > 0 {
                assert(rest[i - 1] <= rest[j - 1]);
            }
        }
    }
}

// ---------------------------------------------------------------------------
// Query plan evaluation
// ---------------------------------------------------------------------------

/// The file IDs that a plan gives on an index: a lookup its posting list, an AND
/// the intersection and an OR the union of what the sub-plans give, a full scan
/// all files. An AND or an OR without sub-plans gives none.
pub open spec fn evaluated(plan: PlanView, index: IndexView) -> Seq<u32>
    decreases plan, 0nat,
{
    match plan {
        PlanView::Lookup { hash, .. } => match index.ids_of(hash) {
            Some(ids) => ids,
            None => Seq::empty(),
        },
        PlanView::And(subs) => all_of(subs, subs.len(), index),
        PlanView::Or(subs) => any_of(subs, subs.len(), index),
        PlanView::FullScan => Seq::new((index.files.len() as u32) as nat, |i: int| i as u32),
    }
}

/// What the first `n` of several plans all give.
pub open spec fn all_of(subs: Seq<PlanView>, n: nat, index: IndexView) -> Seq<u32>
    decreases subs, n,
{
    if n == 0 || n > subs.len() {
        Seq::empty()
    } else if n == 1 {
        evaluated(subs[0], index)
    } else {
        intersected(all_of(subs, (n - 1) as nat, index), evaluated(subs[n - 1], index))
    }
}

/// What any of the first `n` of several plans gives.
pub open spec fn any_of(subs: Seq<PlanView>, n: nat, index: IndexView) -> Seq<u32>
    decreases subs, n,
{
    if n == 0 || n > subs.len() {
        Seq::empty()
    } else if n == 1 {
        evaluated(subs[0], index)
    } else {
        united(any_of(subs, (n - 1) as nat, index), evaluated(subs[n - 1], index))
    }
}

/// Evaluates a query plan against an index: the IDs of the candidate files.
pub fn evaluate_plan(plan: &QueryPlan, index: &MappedIndex) -> (ids: Vec<u32>)
    ensures
        ids@ == evaluated(plan.tree(), index@),
    decreases *plan,
{
    match plan {
        QueryPlan::Lookup { hash, .. } => match index.lookup(*hash) {
            Some(ids) => ids,
            None => Vec::new(),
        },
        QueryPlan::And(subs) => {
            assert(decreases_to!(*plan => subs@));
            let ghost trees = plan.tree()->And_0;
            if subs.len() == 0 {
                return Vec::new();
            }
            let mut acc = evaluate_plan(&subs[0], index);
            let mut i: usize = 1;
            while i < subs.len()
                invariant
                    1 <= i <= subs@.len(),
                    trees.len() == subs@.len(),
                    forall|k: int| 0 <= k < trees.len() ==> trees[k] == (#[trigger] subs@[k]).tree(),
                    acc@ == all_of(trees, i as nat, index@),
                    decreases_to!(*plan => subs@),
                decreases subs@.len() - i,
            {
                let next = evaluate_plan(&subs[i], index);
                acc = intersect_sorted(acc.as_slice(), next.as_slice());
                i += 1;
            }
            acc
        },
        QueryPlan::Or(subs) => {
            assert(decreases_to!(*plan => subs@));
            let ghost trees = plan.tree()->Or_0;
            if subs.len() == 0 {
                return Vec::new();
            }
            let mut acc = evaluate_plan(&subs[0], index);
            let mut i: usize = 1;
            while i < subs.len()
                invariant
                    1 <= i <= subs@.len(),
                    trees.len() == subs@.len(),
                    forall|k: int| 0 <= k < trees.len() ==> trees[k] == (#[trigger] subs@[k]).tree(),
                    acc@ == any_of(trees, i as nat, index@),
                    decreases_to!(*plan => subs@),
                decreases subs@.len() - i,
            {
                let next = evaluate_plan(&subs[i], index);
                acc = union_sorted(acc.as_slice(), next.as_slice());
                i += 1;
            }
            acc
        },
        QueryPlan::FullScan => {
            let n: u32 = index.file_count() as u32;
            let mut all: Vec<u32> = Vec::new();
            let mut i: u32 = 0;
            while i < n
                invariant
                    i <= n,
                    all@ == Seq::new(i as nat, |k: int| k as u32),
                decreases n - i,
            {
                all.push(i);
                i += 1;
                assert(all@ =~= Seq::new(i as nat, |k: int| k as u32));
            }
            all
        },
    }
}

// ---------------------------------------------------------------------------
// What the candidates are
// ---------------------------------------------------------------------------

/// Whether an index knows which file holds which hash: its posting lists ascend
/// and hold exactly the files that hold their hash, each once.
pub open spec fn faithful(index: IndexView, hashes: Seq<Set<u64>>) -> bool {
    &&& index.files.len() == hashes.len() <= u32::MAX
    &&& forall|h: u64| #[trigger] knows(index, hashes, h)
}

/// Whether an index knows which files hold a hash.
pub open spec fn knows(index: IndexView, hashes: Seq<Set<u64>>, h: u64) -> bool {
    match index.ids_of(h) {
        Some(ids) => postings::strictly_ascending(ids) && forall|id: u32|
            #[trigger] ids.contains(id) <==> id < hashes.len() && hashes[id as int].contains(h),
        None => forall|id: int| 0 <= id < hashes.len() ==> !(#[trigger] hashes[id]).contains(h),
    }
}

/// On an index that knows which file holds which hash, a plan gives exactly the
/// files that pass it, in ascending order and each once. The plan is one that simplification
/// leaves, so it has no AND and no OR without sub-plans.
pub proof fn law_candidates_pass_the_plan(plan: PlanView, index: IndexView, hashes: Seq<Set<u64>>)
    requires
        narrowing::normal(plan),
        faithful(index, hashes),
    ensures
        postings::strictly_ascending(evaluated(plan, index)),
        forall|id: u32|
            #[trigger] evaluated(plan, index).contains(id) <==> id < hashes.len() && narrowing::plan_holds(
                plan,
                hashes[id as int],
            ),
    decreases plan, 0nat,
{
    let ids = evaluated(plan, index);
    match plan {
        PlanView::Lookup { hash, .. } => {
            assert(knows(index, hashes, hash));
            if index.ids_of(hash) is None {
                assert(ids =~= Seq::<u32>::empty());
            }
        },
        PlanView::And(subs) => {
            lemma_all_of(subs, subs.len(), index, hashes);
        },
        PlanView::Or(subs) => {
            lemma_any_of(subs, subs.len(), index, hashes);
        },
        PlanView::FullScan => {
            assert forall|id: u32| #[trigger] ids.contains(id) <==> id < hashes.len() by {
                if id < hashes.len() {
                    assert(ids[id as int] == id);
                }
            }
        },
    }
}

proof fn lemma_all_of(subs: Seq<PlanView>, n: nat, index: IndexView, hashes: Seq<Set<u64>>)
    requires
        1 <= n <= subs.len(),
        forall|i: int| 0 <= i < subs.len() ==> narrowing::filters(#[trigger] subs[i]),
        faithful(index, hashes),
    ensures
        postings::strictly_ascending(all_of(subs, n, index)),
        forall|id: u32|
            #[trigger] all_of(subs, n, index).contains(id) <==> id < hashes.len() && forall|i: int|
                0 <= i < n ==> narrowing::plan_holds(#[trigger] subs[i], hashes[id as int]),
    decreases subs, n,
{
    let last = evaluated(subs[n - 1], index);
    assert(narrowing::filters(subs[n - 1]));
    law_candidates_pass_the_plan(subs[n - 1], index, hashes);
    if n > 1 {
        let before = all_of(subs, (n - 1) as nat, index);
        lemma_all_of(subs, (n - 1) as nat, index, hashes);
        lemma_strictly_is_ascending(before);
        lemma_strictly_is_ascending(last);
        law_intersection(before, last);
        assert forall|id: u32|
            #[trigger] all_of(subs, n, index).contains(id) <==> id < hashes.len() && forall|i: int|
                0 <= i < n ==> narrowing::plan_holds(#[trigger] subs[i], hashes[id as int]) by {
            assert(all_of(subs, n, index).contains(id) <==> before.contains(id) && last.contains(id));
            if before.contains(id) && last.contains(id) {
                assert forall|i: int| 0 <= i < n implies narrowing::plan_holds(
                    #[trigger] subs[i],
                    hashes[id as int],
                ) by {
                    if i < n - 1 {
                    }
                }
            }
        }
    }
}

proof fn lemma_any_of(subs: Seq<PlanView>, n: nat, index: IndexView, hashes: Seq<Set<u64>>)
    requires
        1 <= n <= subs.len(),
        forall|i: int| 0 <= i < subs.len() ==> narrowing::filters(#[trigger] subs[i]),
        faithful(index, hashes),
    ensures
        postings::strictly_ascending(any_of(subs, n, index)),
        forall|id: u32|
            #[trigger] any_of(subs, n, index).contains(id) <==> id < hashes.len() && exists|i: int|
                0 <= i < n && narrowing::plan_holds(#[trigger] subs[i], hashes[id as int]),
    decreases subs, n,
{
    let last = evaluated(subs[n - 1], index);
    assert(narrowing::filters(subs[n - 1]));
    law_candidates_pass_the_plan(subs[n - 1], index, hashes);
    if n > 1 {
        let before = any_of(subs, (n - 1) as nat, index);
        lemma_any_of(subs, (n - 1) as nat, index, hashes);
        lemma_strictly_is_ascending(before);
        lemma_strictly_is_ascending(last);
        law_union(before, last);
        assert forall|id: u32|
            #[trigger] any_of(subs, n, index).contains(id) <==> id < hashes.len() && exists|i: int|
                0 <= i < n && narrowing::plan_holds(#[trigger] subs[i], hashes[id as int]) by {
            assert(any_of(subs, n, index).contains(id) <==> before.contains(id) || last.contains(id));
            if before.contains(id) {
                let i = choose|i: int|
                    0 <= i < n - 1 && narrowing::plan_holds(#[trigger] subs[i], hashes[id as int]);
                assert(0 <= i < n);
            }
        }
    }
}

} // verus!
