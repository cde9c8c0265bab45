use ngi::ngram::{collect_hashes, hash_ngram, to_lower};

#[test]
fn fnv1a_deterministic() {
    // These exact values are pinned: changing them breaks existing indexes.
    assert_eq!(hash_ngram(b"abc"), 0xe71fa2190541574b);
    assert_eq!(hash_ngram(b"fn "), 0xdcb5d018fedca5ef);
}

#[test]
fn fnv1a_empty() {
    assert_eq!(hash_ngram(b""), 0xcbf29ce484222325);
}

#[test]
fn fnv1a_single_byte_differs() {
    assert_ne!(hash_ngram(b"a"), hash_ngram(b"b"));
}

#[test]
fn hash_ngram_deterministic() {
    let a = hash_ngram(b"hello");
    let b = hash_ngram(b"hello");
    assert_eq!(a, b);
}

#[test]
fn hash_ngram_different_inputs_differ() {
    let a = hash_ngram(b"abc");
    let b = hash_ngram(b"def");
    assert_ne!(a, b);
}

#[test]
fn hash_ngram_is_deterministic_across_calls() {
    let input = b"hello";
    let h1 = hash_ngram(input);
    let h2 = hash_ngram(input);
    let h3 = hash_ngram(input);
    assert_eq!(h1, h2);
    assert_eq!(h2, h3);
}

#[test]
fn hash_ngram_known_values() {
    let h_abc = hash_ngram(b"abc");
    let h_def = hash_ngram(b"def");
    let h_abc2 = hash_ngram(b"abc");
    assert_eq!(h_abc, h_abc2);
    assert_ne!(h_abc, h_def);
    assert_eq!(h_abc, 0xe71fa2190541574b, "hash_ngram(\"abc\") must match FNV-1a spec");
    assert_eq!(h_def, 0xca9a1a18f461e4cc, "hash_ngram(\"def\") must match FNV-1a spec");
}

#[test]
fn hash_ngram_empty_input() {
    let h = hash_ngram(b"");
    assert_eq!(h, 0xcbf29ce484222325);
}

#[test]
fn lowercase_touches_ascii_letters_only() {
    assert_eq!(to_lower(b"AbZ[@09\xC4"), b"abz[@09\xC4".to_vec());
    assert_eq!(to_lower(b""), Vec::<u8>::new());
}

#[test]
fn hashes_of_contents_are_those_of_lowercased_trigrams() {
    let hashes = collect_hashes(b"ABCabc");
    // abc, bca, cab
    assert_eq!(hashes.len(), 3);
    assert!(hashes.contains(&hash_ngram(b"abc")));
    assert!(hashes.contains(&hash_ngram(b"bca")));
    assert!(hashes.contains(&hash_ngram(b"cab")));
    assert!(collect_hashes(b"ab").is_empty());
}
