//! The order of texts, and sorting by it.

use crate::text;
use vstd::prelude::*;
use vstd::relations::*;
use vstd::utf8::*;

verus! {

/// Whether a byte string comes before another: at the first byte in which they
/// differ its byte is the smaller one, or it is a proper prefix of the other.
pub open spec fn bytes_before(a: Seq<u8>, b: Seq<u8>) -> bool
    decreases a.len(),
{
    if b.len() == 0 {
        false
    } else if a.len() == 0 {
        true
    } else if a[0] != b[0] {
        a[0] < b[0]
    } else {
        bytes_before(a.drop_first(), b.drop_first())
    }
}

/// Whether a text comes before another, by the bytes of their UTF-8 encodings.
pub open spec fn text_before(a: Seq<char>, b: Seq<char>) -> bool {
    bytes_before(encode_utf8(a), encode_utf8(b))
}

/// Whether no text comes before one that stands ahead of it.
pub open spec fn in_order(s: Seq<Seq<char>>) -> bool {
    forall|i: int, j: int| 0 <= i < j < s.len() ==> !text_before(#[trigger] s[j], #[trigger] s[i])
}

/// Whether `out` holds the texts of `input`, each as often as there, in ascending
/// order.
pub open spec fn sorted_copy(out: Seq<Seq<char>>, input: Seq<Seq<char>>) -> bool {
    &&& in_order(out)
    &&& out.to_multiset() == input.to_multiset()
}

/// A text with a number, by which entries are ordered.
pub open spec fn place(entry: (String, u64)) -> (Seq<char>, int) {
    (entry.0@, entry.1 as int)
}

/// Whether a place comes before another: by its text, and then by its number.
pub open spec fn place_before(a: (Seq<char>, int), b: (Seq<char>, int)) -> bool {
    text_before(a.0, b.0) || (a.0 == b.0 && a.1 < b.1)
}

/// `<[(String, u64)]>::sort` of std: the pairs in ascending order, by the bytes of
/// the strings and then by the numbers, each as often as before.
#[verifier::external_body]
fn sort_pairs(pairs: &mut Vec<(String, u64)>)
    ensures
        final(pairs)@.to_multiset() == old(pairs)@.to_multiset(),
        forall|i: int, j: int|
            0 <= i < j < final(pairs)@.len() ==> !place_before(
                place(#[trigger] final(pairs)@[j]),
                place(#[trigger] final(pairs)@[i]),
            ),
{
    pairs.sort();
}

/// The paths of walked files.
pub open spec fn walked_paths(files: Seq<(String, u64)>) -> Seq<Seq<char>> {
    files.map_values(|file: (String, u64)| file.0@)
}

/// Brings the files of a walk into the order of their paths. With each path goes a
/// number, such as the size of the file.
pub fn sort_walked(files: Vec<(String, u64)>) -> (out: Vec<(String, u64)>)
    ensures
        in_order(walked_paths(out@)),
        out@.to_multiset() == files@.to_multiset(),
{
    let mut out = files;
    sort_pairs(&mut out);
    proof {
        let paths = walked_paths(out@);
        assert forall|i: int, j: int| 0 <= i < j < paths.len() implies !text_before(
            #[trigger] paths[j],
            #[trigger] paths[i],
        ) by {
            assert(!place_before(place(out@[j]), place(out@[i])));
        }
    }
    out
}

// ---------------------------------------------------------------------------
// Orders of positions
// ---------------------------------------------------------------------------

/// What stands at the positions of an order, one after the other.
pub open spec fn arranged<T>(s: Seq<T>, order: Seq<int>) -> Seq<T> {
    order.map_values(|i: int| s[i])
}

/// Whether an order lists the positions of all places, each once, so that no place
/// comes before one ahead of it, and places that are the same stay in their order.
pub open spec fn sorts_places(order: Seq<int>, places: Seq<(Seq<char>, int)>) -> bool {
    &&& order.len() == places.len()
    &&& forall|i: int| 0 <= i < order.len() ==> 0 <= #[trigger] order[i] < places.len()
    &&& forall|i: int, j: int|
        0 <= i < j < order.len() ==> {
            let a = places[#[trigger] order[i]];
            let b = places[#[trigger] order[j]];
            place_before(a, b) || (!place_before(b, a) && order[i] < order[j])
        }
}

/// Texts as places.
pub open spec fn text_places(texts: Seq<Seq<char>>) -> Seq<(Seq<char>, int)> {
    texts.map_values(|t: Seq<char>| (t, 0int))
}

/// The stable order of texts: the positions of all of them, each once, in ascending
/// order of the texts.
pub open spec fn text_order(texts: Seq<Seq<char>>) -> Seq<int> {
    choose|order: Seq<int>| sorts_places(order, text_places(texts))
}

/// The positions of texts, in their stable order.
pub(crate) fn order_texts(strings: &[String]) -> (order: Vec<usize>)
    ensures
        order@.map_values(|i: usize| i as int) == text_order(text::texts(strings@)),
{
    let ghost texts = text::texts(strings@);
    let mut pairs: Vec<(String, u64)> = Vec::new();
    let mut i: usize = 0;
    while i < strings.len()
        invariant
            i <= strings@.len(),
            pairs@.len() == i,
            forall|k: int| 0 <= k < i ==> (#[trigger] pairs@[k]).0@ == strings@[k]@ && pairs@[k].1 == k,
        decreases strings@.len() - i,
    {
        pairs.push((strings[i].clone(), i as u64));
        i += 1;
    }
    let ghost unsorted = pairs@;
    sort_pairs(&mut pairs);
    proof {
        lemma_pairs_order(unsorted, pairs@, texts);
    }
    let mut order: Vec<usize> = Vec::new();
    let mut j: usize = 0;
    while j < pairs.len()
        invariant
            j <= pairs@.len(),
            texts.len() <= usize::MAX,
            forall|k: int| 0 <= k < pairs@.len() ==> (#[trigger] pairs@[k]).1 < texts.len(),
            order@.len() == j,
            forall|k: int| 0 <= k < j ==> #[trigger] order@[k] == pairs@[k].1,
        decreases pairs@.len() - j,
    {
        order.push(pairs[j].1 as usize);
        j += 1;
    }
    proof {
        let got = order@.map_values(|i: usize| i as int);
        let numbers = pairs@.map_values(|p: (String, u64)| p.1 as int);
        assert(got =~= numbers);
        law_text_order_sorts(texts);
        lemma_one_order(got, text_order(texts), text_places(texts));
    }
    order
}

/// Numbered strings, once sorted, show the order of the strings.
proof fn lemma_pairs_order(unsorted: Seq<(String, u64)>, pairs: Seq<(String, u64)>, texts: Seq<Seq<char>>)
    requires
        unsorted.len() == texts.len(),
        forall|k: int| 0 <= k < texts.len() ==> (#[trigger] unsorted[k]).0@ == texts[k] && unsorted[k].1 == k,
        pairs.to_multiset() == unsorted.to_multiset(),
        forall|i: int, j: int|
            0 <= i < j < pairs.len() ==> !place_before(place(#[trigger] pairs[j]), place(#[trigger] pairs[i])),
    ensures
        pairs.len() == texts.len(),
        forall|k: int| 0 <= k < pairs.len() ==> (#[trigger] pairs[k]).1 < texts.len(),
        sorts_places(pairs.map_values(|p: (String, u64)| p.1 as int), text_places(texts)),
{
    broadcast use vstd::seq_lib::group_to_multiset_ensures;

    let places = text_places(texts);
    let order = pairs.map_values(|p: (String, u64)| p.1 as int);
    assert(pairs.len() == pairs.to_multiset().len());
    assert(unsorted.len() == unsorted.to_multiset().len());
    assert(unsorted.no_duplicates());
    unsorted.lemma_multiset_has_no_duplicates();
    pairs.lemma_multiset_has_no_duplicates_conv();
    assert forall|k: int| 0 <= k < pairs.len() implies (#[trigger] pairs[k]).1 < texts.len() && pairs[k]
        == unsorted[pairs[k].1 as int] by {
        assert(pairs.contains(pairs[k]));
        assert(pairs.to_multiset().count(pairs[k]) > 0);
        assert(unsorted.contains(pairs[k]));
        let i = choose|i: int| 0 <= i < unsorted.len() && unsorted[i] == pairs[k];
        assert(unsorted[i].1 == i);
    }
    assert forall|i: int, j: int| 0 <= i < j < order.len() implies ({
        let a = places[#[trigger] order[i]];
        let b = places[#[trigger] order[j]];
        place_before(a, b) || (!place_before(b, a) && order[i] < order[j])
    }) by {
        let x = pairs[i];
        let y = pairs[j];
        assert(x == unsorted[x.1 as int]);
        assert(y == unsorted[y.1 as int]);
        assert(x != y);
        assert(!place_before(place(y), place(x)));
        law_texts_are_ordered(x.0@, y.0@);
    }
}

/// Sorts strings by their bytes.
pub(crate) fn sort_texts(strings: &mut Vec<String>)
    ensures
        sorted_copy(text::texts(final(strings)@), text::texts(old(strings)@)),
{
    let ghost texts = text::texts(strings@);
    let order = order_texts(strings.as_slice());
    proof {
        law_text_order_sorts(texts);
    }
    let mut sorted: Vec<String> = Vec::new();
    let mut i: usize = 0;
    while i < order.len()
        invariant
            i <= order@.len(),
            texts == text::texts(strings@),
            order@.map_values(|i: usize| i as int) == text_order(texts),
            lists_positions(text_order(texts), texts.len()),
            sorted@.len() == i,
            forall|k: int| 0 <= k < i ==> (#[trigger] sorted@[k])@ == texts[text_order(texts)[k]],
        decreases order@.len() - i,
    {
        proof {
            assert(text_order(texts)[i as int] == order@[i as int]);
        }
        sorted.push(strings[order[i]].clone());
        i += 1;
    }
    *strings = sorted;
    assert(text::texts(strings@) =~= arranged(texts, text_order(texts)));
}

/// Of two different byte strings one comes before the other.
pub proof fn law_order_is_total(a: Seq<u8>, b: Seq<u8>)
    ensures
        a != b ==> bytes_before(a, b) || bytes_before(b, a),
        !(bytes_before(a, b) && bytes_before(b, a)),
        !bytes_before(a, a),
    decreases a.len(),
{
    if a.len() > 0 && b.len() > 0 && a[0] == b[0] {
        law_order_is_total(a.drop_first(), b.drop_first());
        if a.drop_first() == b.drop_first() {
            assert(a =~= seq![a[0]] + a.drop_first());
            assert(b =~= seq![b[0]] + b.drop_first());
        }
    } else if a.len() == 0 && b.len() == 0 {
        assert(a =~= b);
    }
    lemma_irreflexive(a);
}

/// What comes before a byte string comes before all that it comes before.
pub proof fn law_order_is_transitive(a: Seq<u8>, b: Seq<u8>, c: Seq<u8>)
    ensures
        bytes_before(a, b) && bytes_before(b, c) ==> bytes_before(a, c),
    decreases a.len(),
{
    if a.len() > 0 && b.len() > 0 && c.len() > 0 && a[0] == b[0] && b[0] == c[0] {
        law_order_is_transitive(a.drop_first(), b.drop_first(), c.drop_first());
    }
}

proof fn lemma_irreflexive(a: Seq<u8>)
    ensures
        !bytes_before(a, a),
    decreases a.len(),
{
    if a.len() > 0 {
        lemma_irreflexive(a.drop_first());
    }
}

/// Sorting keeps what is there: a text is in the sorted copy exactly if it was in
/// what was sorted, and both have as many texts.
pub proof fn lemma_sorted_copy_members(out: Seq<Seq<char>>, input: Seq<Seq<char>>)
    requires
        sorted_copy(out, input),
    ensures
        out.len() == input.len(),
        forall|t: Seq<char>| out.contains(t) <==> input.contains(t),
{
    broadcast use vstd::seq_lib::group_to_multiset_ensures;

    assert(out.to_multiset().len() == input.to_multiset().len());
    assert forall|t: Seq<char>| out.contains(t) <==> input.contains(t) by {
        assert(out.to_multiset().count(t) == input.to_multiset().count(t));
    }
}

/// Sorting texts that are all different leaves them all different.
pub proof fn lemma_sorted_copy_distinct(out: Seq<Seq<char>>, input: Seq<Seq<char>>)
    requires
        sorted_copy(out, input),
        input.no_duplicates(),
    ensures
        out.no_duplicates(),
{
    broadcast use vstd::seq_lib::group_to_multiset_ensures;

    input.lemma_multiset_has_no_duplicates();
    out.lemma_multiset_has_no_duplicates_conv();
}

/// Texts with the same encoding are the same.
proof fn lemma_encoding_tells(a: Seq<char>, b: Seq<char>)
    requires
        encode_utf8(a) == encode_utf8(b),
    ensures
        a == b,
{
    encode_utf8_decode_utf8(a);
    encode_utf8_decode_utf8(b);
}

/// Of two different texts one comes before the other, and no text before itself.
pub proof fn law_texts_are_ordered(a: Seq<char>, b: Seq<char>)
    ensures
        a != b ==> text_before(a, b) || text_before(b, a),
        !(text_before(a, b) && text_before(b, a)),
        !text_before(a, a),
{
    law_order_is_total(encode_utf8(a), encode_utf8(b));
    law_order_is_total(encode_utf8(a), encode_utf8(a));
    if encode_utf8(a) == encode_utf8(b) {
        lemma_encoding_tells(a, b);
    }
}

/// Places are ordered: none comes before itself, of two different ones one comes
/// before the other, and what comes before a place comes before what it comes before.
pub proof fn law_places_are_ordered(a: (Seq<char>, int), b: (Seq<char>, int), c: (Seq<char>, int))
    ensures
        !(place_before(a, b) && place_before(b, a)),
        !place_before(a, b) && !place_before(b, a) <==> a == b,
        place_before(a, b) && place_before(b, c) ==> place_before(a, c),
{
    law_texts_are_ordered(a.0, b.0);
    law_order_is_transitive(encode_utf8(a.0), encode_utf8(b.0), encode_utf8(c.0));
}

/// Whether the place at one position comes ahead of that at another.
spec fn ahead(places: Seq<(Seq<char>, int)>, p: int, q: int) -> bool {
    place_before(places[p], places[q]) || (!place_before(places[q], places[p]) && p < q)
}

/// The positions of places are totally ordered.
proof fn lemma_positions_ordered(places: Seq<(Seq<char>, int)>)
    ensures
        total_ordering(|p: int, q: int| p == q || ahead(places, p, q)),
{
    let leq = |p: int, q: int| p == q || ahead(places, p, q);
    assert forall|p: int, q: int| #[trigger] leq(p, q) && #[trigger] leq(q, p) implies p == q by {
        law_places_are_ordered(places[p], places[q], places[p]);
    }
    assert forall|p: int, q: int, r: int| #[trigger] leq(p, q) && #[trigger] leq(q, r) implies leq(p, r) by {
        let (a, b, c) = (places[p], places[q], places[r]);
        law_places_are_ordered(a, b, c);
        law_places_are_ordered(b, c, a);
        law_places_are_ordered(c, a, b);
        law_places_are_ordered(c, b, a);
        law_places_are_ordered(b, a, c);
        law_places_are_ordered(a, c, b);
    }
    assert forall|p: int, q: int| #[trigger] leq(p, q) || #[trigger] leq(q, p) by {
        law_places_are_ordered(places[p], places[q], places[p]);
    }
}

/// An order of places lists every position once.
pub proof fn lemma_order_lists_all(order: Seq<int>, places: Seq<(Seq<char>, int)>)
    requires
        sorts_places(order, places),
    ensures
        order.no_duplicates(),
        order.to_set() == vstd::set_lib::set_int_range(0, places.len() as int),
{
    let n = places.len() as int;
    assert forall|i: int, j: int| 0 <= i < order.len() && 0 <= j < order.len() && i != j implies order[i] != order[j] by {
        if order[i] == order[j] {
            let p = places[order[i]];
            law_places_are_ordered(p, p, p);
            if i < j {
                assert(place_before(p, p) || (!place_before(p, p) && order[i] < order[j]));
            } else {
                assert(place_before(p, p) || (!place_before(p, p) && order[j] < order[i]));
            }
        }
    }
    order.unique_seq_to_set();
    vstd::set_lib::lemma_int_range(0, n);
    assert(order.to_set().subset_of(vstd::set_lib::set_int_range(0, n)));
    vstd::set_lib::lemma_subset_equality(order.to_set(), vstd::set_lib::set_int_range(0, n));
}

/// There is one stable order of places.
pub proof fn lemma_one_order(x: Seq<int>, y: Seq<int>, places: Seq<(Seq<char>, int)>)
    requires
        sorts_places(x, places),
        sorts_places(y, places),
    ensures
        x == y,
{
    broadcast use vstd::seq_lib::group_to_multiset_ensures;
    broadcast use vstd::multiset::group_multiset_axioms;

    let leq = |p: int, q: int| p == q || ahead(places, p, q);
    lemma_positions_ordered(places);
    lemma_order_lists_all(x, places);
    lemma_order_lists_all(y, places);
    x.lemma_multiset_has_no_duplicates();
    y.lemma_multiset_has_no_duplicates();
    assert forall|p: int| x.to_multiset().count(p) == y.to_multiset().count(p) by {
        assert(x.to_set().contains(p) <==> y.to_set().contains(p));
        assert(x.contains(p) <==> y.contains(p));
    }
    assert(x.to_multiset() =~= y.to_multiset());
    assert(sorted_by(x, leq));
    assert(sorted_by(y, leq));
    vstd::seq_lib::lemma_sorted_unique(x, y, leq);
}

/// Whether an order lists the positions of a sequence, each once.
pub open spec fn lists_positions(order: Seq<int>, n: nat) -> bool {
    &&& order.len() == n
    &&& order.no_duplicates()
    &&& forall|i: int| 0 <= i < n ==> 0 <= #[trigger] order[i] < n
    &&& forall|p: int| 0 <= p < n ==> #[trigger] order.contains(p)
}

/// Arranging a sequence keeps what it holds, each item as often as before.
pub proof fn law_arranging_keeps_items<T>(s: Seq<T>, order: Seq<int>)
    requires
        lists_positions(order, s.len()),
    ensures
        arranged(s, order).to_multiset() == s.to_multiset(),
    decreases s.len(),
{
    broadcast use vstd::seq_lib::group_to_multiset_ensures;
    broadcast use vstd::multiset::group_multiset_axioms;

    let out = arranged(s, order);
    if s.len() == 0 {
        assert(out =~= s);
    } else {
        let n = s.len() - 1;
        assert(order.contains(n));
        let k = choose|k: int| 0 <= k < order.len() && order[k] == n;
        let rest = order.remove(k);
        let short = s.drop_last();
        assert forall|i: int| 0 <= i < rest.len() implies 0 <= #[trigger] rest[i] < n && short[rest[i]] == s[rest[i]] by {
            let from = if i < k {
                i
            } else {
                i + 1
            };
            assert(rest[i] == order[from]);
            assert(order[from] != order[k]);
        }
        assert forall|p: int| 0 <= p < n implies #[trigger] rest.contains(p) by {
            assert(order.contains(p));
            let i = choose|i: int| 0 <= i < order.len() && order[i] == p;
            assert(i != k);
            if i < k {
                assert(rest[i] == p);
            } else {
                assert(rest[i - 1] == p);
            }
        }
        assert(rest.no_duplicates());
        law_arranging_keeps_items(short, rest);
        assert(out.remove(k) =~= arranged(short, rest));
        assert(out[k] == s[n]);
        assert(s =~= short.push(s[n]));
        assert(out.contains(out[k]));
        assert(out.to_multiset().count(out[k]) > 0);
        assert(out.to_multiset() =~= out.to_multiset().remove(out[k]).insert(out[k]));
    }
}

/// Places have a stable order.
proof fn lemma_some_order(places: Seq<(Seq<char>, int)>)
    ensures
        exists|order: Seq<int>| sorts_places(order, places),
{
    broadcast use vstd::seq_lib::group_to_multiset_ensures;

    let leq = |p: int, q: int| p == q || ahead(places, p, q);
    let all = Seq::new(places.len(), |i: int| i);
    let order = all.sort_by(leq);
    lemma_positions_ordered(places);
    all.lemma_sort_by_ensures(leq);
    assert(all.no_duplicates());
    all.lemma_multiset_has_no_duplicates();
    order.lemma_multiset_has_no_duplicates_conv();
    assert(order.len() == order.to_multiset().len());
    assert(all.len() == all.to_multiset().len());
    assert forall|i: int| 0 <= i < order.len() implies 0 <= #[trigger] order[i] < places.len() by {
        assert(order.contains(order[i]));
        assert(order.to_multiset().count(order[i]) > 0);
        assert(all.contains(order[i]));
    }
    assert forall|i: int, j: int| 0 <= i < j < order.len() implies ({
        let a = places[#[trigger] order[i]];
        let b = places[#[trigger] order[j]];
        place_before(a, b) || (!place_before(b, a) && order[i] < order[j])
    }) by {
        assert(leq(order[i], order[j]));
    }
    assert(sorts_places(order, places));
}

/// Texts have one stable order; it lists every position once, and arranging the texts
/// by it sorts them.
pub proof fn law_text_order_sorts(texts: Seq<Seq<char>>)
    ensures
        sorts_places(text_order(texts), text_places(texts)),
        lists_positions(text_order(texts), texts.len()),
        sorted_copy(arranged(texts, text_order(texts)), texts),
{
    let order = text_order(texts);
    let places = text_places(texts);
    let out = arranged(texts, order);
    lemma_some_order(places);
    lemma_order_lists_all(order, places);
    assert forall|p: int| 0 <= p < texts.len() implies #[trigger] order.contains(p) by {
        assert(order.to_set().contains(p));
    }
    law_arranging_keeps_items(texts, order);
    assert forall|i: int, j: int| 0 <= i < j < out.len() implies !text_before(#[trigger] out[j], #[trigger] out[i]) by {
        let a = places[order[i]];
        let b = places[order[j]];
        assert(place_before(a, b) || (!place_before(b, a) && order[i] < order[j]));
        law_texts_are_ordered(a.0, b.0);
    }
}

/// Two sequences that ascend strictly and hold the same are the same.
pub proof fn lemma_ascending_unique<T>(a: Seq<T>, b: Seq<T>, before: spec_fn(T, T) -> bool)
    requires
        forall|x: T, y: T| !(#[trigger] before(x, y) && before(y, x)),
        forall|i: int, j: int| 0 <= i < j < a.len() ==> before(#[trigger] a[i], #[trigger] a[j]),
        forall|i: int, j: int| 0 <= i < j < b.len() ==> before(#[trigger] b[i], #[trigger] b[j]),
        forall|x: T| #[trigger] a.contains(x) <==> b.contains(x),
    ensures
        a == b,
    decreases a.len(),
{
    if a.len() == 0 {
        if b.len() > 0 {
            assert(b.contains(b[0]));
            assert(a.contains(b[0]));
        }
        assert(a =~= b);
    } else {
        let x = a.last();
        assert(a[a.len() - 1] == x);
        assert(a.contains(x));
        let k = choose|k: int| 0 <= k < b.len() && b[k] == x;
        let y = b.last();
        assert(b[b.len() - 1] == y);
        assert(b.contains(y));
        assert(a.contains(y));
        let m = choose|m: int| 0 <= m < a.len() && a[m] == y;
        if k < b.len() - 1 {
            assert(before(b[k], b[b.len() - 1]));
            if m < a.len() - 1 {
                assert(before(a[m], a[a.len() - 1]));
            }
        }
        assert(x == y);
        let ta = a.drop_last();
        let tb = b.drop_last();
        assert forall|z: T| #[trigger] ta.contains(z) <==> tb.contains(z) by {
            if ta.contains(z) {
                let i = choose|i: int| 0 <= i < ta.len() && ta[i] == z;
                assert(before(a[i], a[a.len() - 1]));
                assert(a.contains(z));
                let j = choose|j: int| 0 <= j < b.len() && b[j] == z;
                assert(tb[j] == z);
            }
            if tb.contains(z) {
                let j = choose|j: int| 0 <= j < tb.len() && tb[j] == z;
                assert(before(b[j], b[b.len() - 1]));
                assert(b.contains(z));
                assert(a.contains(z));
                let i = choose|i: int| 0 <= i < a.len() && a[i] == z;
                assert(ta[i] == z);
            }
        }
        lemma_ascending_unique(ta, tb, before);
        assert(a =~= ta.push(x));
        assert(b =~= tb.push(x));
    }
}

} // verus!
