//! Trigrams of file contents and of literals, and their hashes.

use std::collections::HashSet;
use vstd::prelude::*;

verus! {

broadcast use vstd::std_specs::hash::group_hash_axioms;

/// The FNV-1a 64-bit offset basis.
pub const FNV_OFFSET: u64 = 0xcbf29ce484222325;

/// The FNV-1a 64-bit prime.
pub const FNV_PRIME: u64 = 0x00000100000001B3;

/// The FNV-1a 64-bit hash of a byte string: starting from the offset basis, each
/// byte is mixed in by exclusive or and the result multiplied by the prime modulo
/// 2^64.
pub open spec fn fnv1a(text: Seq<u8>) -> u64
    decreases text.len(),
{
    if text.len() == 0 {
        FNV_OFFSET
    } else {
        (fnv1a(text.drop_last()) ^ (text.last() as u64)).wrapping_mul(FNV_PRIME)
    }
}

/// Hashes an n-gram with 64-bit FNV-1a.
///
/// The value depends on the bytes alone, so an index written by one build of the
/// program can be read by another.
pub fn hash_ngram(text: &[u8]) -> (hash: u64)
    ensures
        hash == fnv1a(text@),
{
    let mut hash: u64 = FNV_OFFSET;
    let mut i: usize = 0;
    while i < text.len()
        invariant
            i <= text@.len(),
            hash == fnv1a(text@.take(i as int)),
        decreases text@.len() - i,
    {
        proof {
            assert(text@.take(i + 1).drop_last() =~= text@.take(i as int));
        }
        hash = (hash ^ (text[i] as u64)).wrapping_mul(FNV_PRIME);
        i += 1;
    }
    assert(text@.take(text@.len() as int) =~= text@);
    hash
}

/// The ASCII lowercase of a byte: `A` to `Z` become `a` to `z`, every other byte
/// stays.
pub open spec fn lower_byte(b: u8) -> u8 {
    if 65 <= b <= 90 {
        (b + 32) as u8
    } else {
        b
    }
}

/// The ASCII lowercase of a byte string.
pub open spec fn lower(text: Seq<u8>) -> Seq<u8> {
    text.map_values(|b: u8| lower_byte(b))
}

/// Lowercases the ASCII letters of `text`.
pub fn to_lower(text: &[u8]) -> (out: Vec<u8>)
    ensures
        out@ == lower(text@),
{
    let mut out: Vec<u8> = Vec::new();
    let mut i: usize = 0;
    while i < text.len()
        invariant
            i <= text@.len(),
            out@.len() == i,
            forall|k: int| 0 <= k < i ==> out@[k] == lower_byte(text@[k]),
        decreases text@.len() - i,
    {
        let b = text[i];
        if 65 <= b && b <= 90 {
            out.push(b + 32);
        } else {
            out.push(b);
        }
        i += 1;
    }
    assert(out@ =~= lower(text@));
    out
}

/// The number of trigrams of a byte string, repetitions included.
pub open spec fn trigram_count(text: Seq<u8>) -> int {
    if text.len() < 3 {
        0
    } else {
        text.len() - 2
    }
}

/// The hash of the trigram of `text` that starts at `i`.
pub open spec fn trigram_hash(text: Seq<u8>, i: int) -> u64 {
    fnv1a(text.subrange(i, i + 3))
}

/// The hashes of all trigrams of `text`.
pub open spec fn trigram_set(text: Seq<u8>) -> Set<u64> {
    Set::new(|h: u64| exists|i: int| 0 <= i < trigram_count(text) && h == #[trigger] trigram_hash(text, i))
}

/// The trigram hashes under which a file with the given contents is indexed:
/// those of its lowercased bytes.
pub open spec fn content_hashes(contents: Seq<u8>) -> Set<u64> {
    trigram_set(lower(contents))
}

/// Collects the trigram hashes of a file's contents.
pub fn collect_hashes(contents: &[u8]) -> (hashes: HashSet<u64>)
    ensures
        hashes@ == content_hashes(contents@),
{
    let lowered = to_lower(contents);
    let mut hashes: HashSet<u64> = HashSet::new();
    if lowered.len() >= 3 {
        let n: usize = lowered.len() - 2;
        let mut i: usize = 0;
        while i < n
            invariant
                i <= n,
                n == lowered.len() - 2,
                n == trigram_count(lowered@),
                forall|h: u64|
                    hashes@.contains(h) <==> exists|k: int|
                        0 <= k < i && h == #[trigger] trigram_hash(lowered@, k),
            decreases n - i,
        {
            let ghost before = hashes@;
            let h = hash_ngram(vstd::slice::slice_subrange(lowered.as_slice(), i, i + 3));
            assert(h == trigram_hash(lowered@, i as int));
            hashes.insert(h);
            proof {
                assert forall|g: u64| hashes@.contains(g) implies exists|k: int|
                    0 <= k < i + 1 && g == #[trigger] trigram_hash(lowered@, k) by {
                    if g == h {
                        assert(g == trigram_hash(lowered@, i as int));
                    } else {
                        assert(before.contains(g));
                    }
                }
                assert forall|g: u64|
                    (exists|k: int| 0 <= k < i + 1 && g == #[trigger] trigram_hash(lowered@, k)) implies hashes@.contains(g) by {
                    let k = choose|k: int| 0 <= k < i + 1 && g == #[trigger] trigram_hash(lowered@, k);
                    if k < i {
                        assert(before.contains(g));
                    }
                }
            }
            i += 1;
        }
    }
    assert(hashes@ =~= trigram_set(lowered@));
    hashes
}

/// A file is indexed under a hash exactly if three bytes that stand one after another in
/// it, with upper-case ASCII letters made lower-case, mix to that hash: from the offset
/// basis of 64-bit FNV-1a, each byte in turn by exclusive or and by multiplication with
/// the prime, modulo 2^64.
pub proof fn law_content_hashes(contents: Seq<u8>, h: u64)
    ensures
        content_hashes(contents).contains(h) <==> exists|i: int|
            0 <= i && i + 2 < contents.len() && {
                let a: u8 = #[trigger] contents[i];
                let b: u8 = contents[i + 1];
                let c: u8 = contents[i + 2];
                let a: u8 = if 65 <= a <= 90 {
                    (a + 32) as u8
                } else {
                    a
                };
                let b: u8 = if 65 <= b <= 90 {
                    (b + 32) as u8
                } else {
                    b
                };
                let c: u8 = if 65 <= c <= 90 {
                    (c + 32) as u8
                } else {
                    c
                };
                let x: u64 = (0xcbf29ce484222325u64 ^ (a as u64)).wrapping_mul(0x100000001b3u64);
                let y: u64 = (x ^ (b as u64)).wrapping_mul(0x100000001b3u64);
                h == (y ^ (c as u64)).wrapping_mul(0x100000001b3u64)
            },
{
    let text = lower(contents);
    assert forall|i: int| 0 <= i && i + 2 < contents.len() implies #[trigger] trigram_hash(text, i) == {
        let x: u64 = (0xcbf29ce484222325u64 ^ (text[i] as u64)).wrapping_mul(0x100000001b3u64);
        let y: u64 = (x ^ (text[i + 1] as u64)).wrapping_mul(0x100000001b3u64);
        (y ^ (text[i + 2] as u64)).wrapping_mul(0x100000001b3u64)
    } by {
        let t = text.subrange(i, i + 3);
        reveal_with_fuel(fnv1a, 4);
        assert(t.drop_last().drop_last().drop_last().len() == 0);
    }
    if content_hashes(contents).contains(h) {
        let i = choose|i: int| 0 <= i < trigram_count(text) && h == #[trigger] trigram_hash(text, i);
        assert(contents[i] == contents[i]);
    }
    assert forall|i: int| 0 <= i && i + 2 < contents.len() implies content_hashes(contents).contains(
        #[trigger] trigram_hash(text, i),
    ) by {
        assert(0 <= i < trigram_count(text));
    }
    assert forall|i: int| 0 <= i && i + 2 < contents.len() && {
        let x: u64 = (0xcbf29ce484222325u64 ^ (lower_byte(#[trigger] contents[i]) as u64)).wrapping_mul(
            0x100000001b3u64,
        );
        let y: u64 = (x ^ (lower_byte(contents[i + 1]) as u64)).wrapping_mul(0x100000001b3u64);
        h == (y ^ (lower_byte(contents[i + 2]) as u64)).wrapping_mul(0x100000001b3u64)
    } implies content_hashes(contents).contains(h) by {
        assert(h == trigram_hash(text, i));
    }
}

/// A hash mixes in all bytes in their order, from the offset basis of 64-bit FNV-1a on.
pub proof fn law_hash_mixes_all_bytes(text: Seq<u8>)
    ensures
        fnv1a(text) == text.fold_left(
            0xcbf29ce484222325u64,
            |h: u64, b: u8| (h ^ (b as u64)).wrapping_mul(0x100000001b3u64),
        ),
    decreases text.len(),
{
    reveal(Seq::fold_left);
    if text.len() > 0 {
        law_hash_mixes_all_bytes(text.drop_last());
    }
}

/// Lowercasing changes the letters from `A` to `Z` to those from `a` to `z` and keeps every
/// other byte, at its place.
pub proof fn law_lowercase(text: Seq<u8>, i: int)
    requires
        0 <= i < text.len(),
    ensures
        lower(text).len() == text.len(),
        0x41 <= text[i] <= 0x5A ==> lower(text)[i] == text[i] + 0x20,
        !(0x41 <= text[i] <= 0x5A) ==> lower(text)[i] == text[i],
{
}

} // verus!
