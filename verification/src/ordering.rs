//! The order of matches, and how many of them are given.

use crate::scan;
use crate::scan::{MatchView, SearchMatch};
use crate::sorting;
use vstd::prelude::*;

verus! {

/// Where a match stands: its path and its line number.
pub open spec fn match_place(m: MatchView) -> (Seq<char>, int) {
    (m.path, m.line_number as int)
}

/// The places of matches.
pub open spec fn match_places(matches: Seq<MatchView>) -> Seq<(Seq<char>, int)> {
    matches.map_values(|m: MatchView| match_place(m))
}

/// Whether a match comes before another: by its path, then by its line number.
pub open spec fn match_before(a: MatchView, b: MatchView) -> bool {
    sorting::place_before(match_place(a), match_place(b))
}

/// Whether `out` holds the matches of `input` in their stable order by path and line
/// number.
pub open spec fn sorted_matches(out: Seq<MatchView>, input: Seq<MatchView>) -> bool {
    exists|order: Seq<int>| #[trigger]
        sorting::sorts_places(order, match_places(input)) && out == sorting::arranged(input, order)
}

/// `<[SearchMatch]>::sort_by_cached_key` of std with the path and the line number as
/// the key: a stable sort, by the bytes of the paths and then by the numbers.
#[verifier::external_body]
fn sort_matches(matches: &mut Vec<SearchMatch>)
    ensures
        sorted_matches(scan::match_views(final(matches)@), scan::match_views(old(matches)@)),
{
    matches.sort_by_cached_key(|m| (m.path.clone(), m.line_number));
}

/// The first `max_count` of matches, or all of them where there are fewer or there is
/// no limit.
pub open spec fn first_of(matches: Seq<MatchView>, max_count: Option<usize>) -> Seq<MatchView> {
    match max_count {
        Some(n) => if n < matches.len() {
            matches.take(n as int)
        } else {
            matches
        },
        None => matches,
    }
}

/// Whether `out` holds what a search gives from what was found: the first
/// `max_count` of the sorted matches, or all of them without a limit.
pub open spec fn selected(out: Seq<MatchView>, found: Seq<MatchView>, max_count: Option<usize>) -> bool {
    exists|all: Seq<MatchView>| #[trigger]
        sorted_matches(all, found) && out == first_of(all, max_count)
}

/// Sorts matches and keeps at most `max_count` of them.
pub fn select_matches(matches: Vec<SearchMatch>, max_count: Option<usize>) -> (out: Vec<SearchMatch>)
    ensures
        selected(scan::match_views(out@), scan::match_views(matches@), max_count),
{
    let mut out = matches;
    sort_matches(&mut out);
    let ghost all = scan::match_views(out@);
    match max_count {
        Some(n) => {
            if n < out.len() {
                out.truncate(n);
                assert(scan::match_views(out@) =~= all.take(n as int));
            }
        },
        None => {},
    }
    out
}

// ---------------------------------------------------------------------------
// There is one such order
// ---------------------------------------------------------------------------

/// Sorting leaves nothing open: there is one stable order of matches.
pub proof fn law_order_is_unique(a: Seq<MatchView>, b: Seq<MatchView>, input: Seq<MatchView>)
    requires
        sorted_matches(a, input),
        sorted_matches(b, input),
    ensures
        a == b,
{
    let places = match_places(input);
    let x = choose|order: Seq<int>| #[trigger]
        sorting::sorts_places(order, places) && a == sorting::arranged(input, order);
    let y = choose|order: Seq<int>| #[trigger]
        sorting::sorts_places(order, places) && b == sorting::arranged(input, order);
    sorting::lemma_one_order(x, y, places);
}

/// What a search gives is determined by what was found.
pub proof fn law_selection_is_unique(
    a: Seq<MatchView>,
    b: Seq<MatchView>,
    found: Seq<MatchView>,
    max_count: Option<usize>,
)
    requires
        selected(a, found, max_count),
        selected(b, found, max_count),
    ensures
        a == b,
{
    let x = choose|all: Seq<MatchView>| #[trigger] sorted_matches(all, found) && a == first_of(all, max_count);
    let y = choose|all: Seq<MatchView>| #[trigger] sorted_matches(all, found) && b == first_of(all, max_count);
    law_order_is_unique(x, y, found);
}

/// Whether matches hold all that are in a file, but for those that a limit leaves no room
/// for: with the limit reached, none that is given comes after one that is not.
pub open spec fn keeps_all(given: Seq<MatchView>, in_file: Seq<MatchView>, max_count: Option<usize>) -> bool {
    forall|m: MatchView|
        #[trigger] in_file.contains(m) ==> given.contains(m) || (max_count == Some(given.len() as usize) && forall|k: int|
            0 <= k < given.len() ==> !match_before(m, #[trigger] given[k]))
}

/// What a search gives holds all that was found, but for what a limit leaves no room for.
pub proof fn law_selection_keeps_all(
    given: Seq<MatchView>,
    found: Seq<MatchView>,
    in_file: Seq<MatchView>,
    max_count: Option<usize>,
)
    requires
        selected(given, found, max_count),
        forall|m: MatchView| #[trigger] in_file.contains(m) ==> found.contains(m),
    ensures
        keeps_all(given, in_file, max_count),
{
    let all = choose|all: Seq<MatchView>| #[trigger] sorted_matches(all, found) && given == first_of(all, max_count);
    let places = match_places(found);
    let order = choose|order: Seq<int>| #[trigger]
        sorting::sorts_places(order, places) && all == sorting::arranged(found, order);
    sorting::lemma_order_lists_all(order, places);
    assert forall|m: MatchView| #[trigger] in_file.contains(m) implies given.contains(m) || (max_count == Some(
        given.len() as usize,
    ) && forall|k: int| 0 <= k < given.len() ==> !match_before(m, #[trigger] given[k])) by {
        let p = choose|p: int| 0 <= p < found.len() && found[p] == m;
        assert(order.to_set().contains(p));
        let j = choose|j: int| 0 <= j < order.len() && order[j] == p;
        assert(all[j] == m);
        if j < given.len() {
            assert(given[j] == m);
        } else {
            assert forall|k: int| 0 <= k < given.len() implies !match_before(m, #[trigger] given[k]) by {
                assert(given[k] == all[k]);
                let (a, b) = (places[order[k]], places[order[j]]);
                assert(sorting::place_before(a, b) || (!sorting::place_before(b, a) && order[k] < order[j]));
                sorting::law_places_are_ordered(a, b, a);
            }
        }
    }
}

} // verus!
