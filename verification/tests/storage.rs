use ngi::indexer::{InMemoryIndex, IndexStats};
use ngi::postings::{
    decode_posting_list, decode_posting_list_v2, decode_varint, encode_posting_list, encode_varint, is_ascending,
};
use ngi::storage::{
    is_writable, read_filemeta, read_header, write_filemeta, write_index, write_index_with_meta, FileState, MappedIndex,
    StorageError,
};
use std::collections::HashMap;

fn make_stats(file_count: usize, ngram_count: usize) -> IndexStats {
    IndexStats {
        file_count,
        ngram_count,
        total_ngrams: ngram_count,
        build_duration: 1_000_000,
        skipped_binary: 0,
        skipped_large: 0,
        skipped_errors: 0,
    }
}

#[test]
fn varint_roundtrip() {
    for v in [0u32, 1, 127, 128, 16383, 16384, u32::MAX] {
        let mut buf = Vec::new();
        encode_varint(v, &mut buf);
        let (decoded, consumed) = decode_varint(&buf).unwrap();
        assert_eq!(decoded, v);
        assert_eq!(consumed, buf.len());
    }
}

#[test]
fn varint_encoding_size() {
    let mut buf = Vec::new();
    encode_varint(127, &mut buf);
    assert_eq!(buf.len(), 1);

    buf.clear();
    encode_varint(128, &mut buf);
    assert_eq!(buf.len(), 2);

    buf.clear();
    encode_varint(u32::MAX, &mut buf);
    assert_eq!(buf.len(), 5);
}

#[test]
fn posting_list_roundtrip() {
    let cases: Vec<Vec<u32>> = vec![
        vec![3, 8, 9, 21],
        vec![],
        vec![42],
        vec![0, 100_000, 200_000],
        vec![0, 1, 2, 3, 4, 5],
    ];
    for file_ids in &cases {
        let encoded = encode_posting_list(file_ids);
        let decoded = decode_posting_list(&encoded).unwrap();
        assert_eq!(&decoded, file_ids);
    }
}

#[test]
fn posting_list_large_gaps() {
    let file_ids = vec![0, 1_000_000, 2_000_000, 2_000_001];
    let encoded = encode_posting_list(&file_ids);
    let decoded = decode_posting_list(&encoded).unwrap();
    assert_eq!(decoded, file_ids);
}

#[test]
fn write_then_read_basic() {
    let mut postings = HashMap::new();
    postings.insert(100u64, vec![0u32, 1, 2]);
    postings.insert(200u64, vec![1u32, 3]);
    postings.insert(300u64, vec![0u32]);

    let index = InMemoryIndex {
        files: vec!["src/main.rs".into(), "src/lib.rs".into(), "README.md".into(), "Cargo.toml".into()],
        postings: postings.clone(),
        stats: make_stats(4, 3),
    };

    let out = write_index(&index, "/project", 0);
    let mapped = MappedIndex::open(&out.lookup, &out.postings, &out.files).unwrap();

    let r100 = mapped.lookup(100).unwrap();
    assert_eq!(r100, vec![0u32, 1, 2]);
    let r200 = mapped.lookup(200).unwrap();
    assert_eq!(r200, vec![1u32, 3]);
    let r300 = mapped.lookup(300).unwrap();
    assert_eq!(r300, vec![0u32]);

    assert_eq!(mapped.file_count(), 4);
    assert_eq!(mapped.ngram_count(), 3);
}

#[test]
fn write_then_read_empty_index() {
    let index = InMemoryIndex { files: Vec::new(), postings: HashMap::new(), stats: make_stats(0, 0) };

    let out = write_index(&index, "/project", 0);
    let mapped = MappedIndex::open(&out.lookup, &out.postings, &out.files).unwrap();

    assert!(mapped.lookup(42).is_none());
    assert_eq!(mapped.file_count(), 0);
    assert_eq!(mapped.ngram_count(), 0);
}

#[test]
fn binary_search_many_ngrams() {
    let mut postings = HashMap::new();
    for i in 0u64..1000 {
        let fid = (i % 10) as u32;
        postings.insert(i * 7 + 13, vec![fid]);
    }

    let index = InMemoryIndex {
        files: (0..10).map(|i| format!("file_{i}.txt")).collect(),
        postings: postings.clone(),
        stats: make_stats(10, 1000),
    };

    let out = write_index(&index, "/project", 0);
    let mapped = MappedIndex::open(&out.lookup, &out.postings, &out.files).unwrap();

    for (&hash, expected) in &postings {
        let result = mapped.lookup(hash).expect(&format!("hash {hash} not found"));
        assert_eq!(&result, expected, "mismatch for hash {hash}");
    }
}

#[test]
fn missing_hash_returns_none() {
    let mut postings = HashMap::new();
    postings.insert(42u64, vec![0u32]);

    let index = InMemoryIndex { files: vec!["a.txt".into()], postings, stats: make_stats(1, 1) };

    let out = write_index(&index, "/project", 0);
    let mapped = MappedIndex::open(&out.lookup, &out.postings, &out.files).unwrap();

    assert!(mapped.lookup(0).is_none());
    assert!(mapped.lookup(999).is_none());
    assert!(mapped.lookup(u64::MAX).is_none());
}

#[test]
fn file_path_mapping() {
    let index = InMemoryIndex {
        files: vec!["src/main.rs".into(), "README.md".into()],
        postings: HashMap::new(),
        stats: make_stats(2, 0),
    };

    let out = write_index(&index, "/project", 0);
    let mapped = MappedIndex::open(&out.lookup, &out.postings, &out.files).unwrap();

    assert_eq!(mapped.file_path(0), Some("src/main.rs"));
    assert_eq!(mapped.file_path(1), Some("README.md"));
    assert_eq!(mapped.file_path(2), None);
}

#[test]
fn filemeta_roundtrip() {
    let states = vec![
        FileState { path: "src/main.rs".into(), mtime: 1711000000, size: 4096 },
        FileState { path: "README.md".into(), mtime: 1711000001, size: 256 },
        FileState { path: "dir/deep/file.txt".into(), mtime: 1711000002, size: 0 },
    ];

    let bytes = write_filemeta(&states);
    let loaded = read_filemeta(&bytes).unwrap();
    assert_eq!(loaded, states);
}

#[test]
fn filemeta_empty() {
    let bytes = write_filemeta(&[]);
    let loaded = read_filemeta(&bytes).unwrap();
    assert!(loaded.is_empty());
}

#[test]
fn all_postings_roundtrip() {
    let mut postings = HashMap::new();
    postings.insert(100u64, vec![0u32, 1]);
    postings.insert(200u64, vec![2u32]);

    let index = InMemoryIndex {
        files: vec!["a.txt".into(), "b.txt".into(), "c.txt".into()],
        postings: postings.clone(),
        stats: make_stats(3, 2),
    };

    let out = write_index(&index, "/project", 0);
    let mapped = MappedIndex::open(&out.lookup, &out.postings, &out.files).unwrap();

    let all = mapped.all_postings();
    assert_eq!(all.len(), 2);

    let all_map: HashMap<u64, Vec<u32>> = all.into_iter().collect();
    assert_eq!(all_map[&100], vec![0u32, 1]);
    assert_eq!(all_map[&200], vec![2u32]);

    assert_eq!(mapped.file_list(), &["a.txt", "b.txt", "c.txt"]);
}

// ---------------------------------------------------------------------------

#[test]
fn varint_bytes_are_pinned() {
    let mut buf = vec![9u8];
    encode_varint(300, &mut buf);
    assert_eq!(buf, vec![9, 0xAC, 0x02]);
}

#[test]
fn varint_errors() {
    assert_eq!(decode_varint(&[]), Err(StorageError::VarintTruncated));
    assert_eq!(decode_varint(&[0x80, 0x80]), Err(StorageError::VarintTruncated));
    // Five continuation bytes are the end of the data, a sixth byte is too much.
    assert_eq!(decode_varint(&[0x80; 5]), Err(StorageError::VarintTruncated));
    assert_eq!(decode_varint(&[0x80; 6]), Err(StorageError::VarintOverflow));
    // Bits beyond the thirty-second are dropped.
    assert_eq!(decode_varint(&[0xFF, 0xFF, 0xFF, 0xFF, 0x7F]), Ok((u32::MAX, 5)));
    assert_eq!(decode_varint(&[0x05, 0xFF]), Ok((5, 1)));
}

#[test]
fn posting_list_errors() {
    let mut buf = Vec::new();
    encode_varint(u32::MAX, &mut buf);
    encode_varint(1, &mut buf);
    assert_eq!(decode_posting_list(&buf), Err(StorageError::FileIdOverflow));
    assert_eq!(decode_posting_list(&[0x80]), Err(StorageError::VarintTruncated));
    assert_eq!(decode_posting_list_v2(&[3, 0, 0, 5, 0]), Err(StorageError::MasksTruncated));
}

#[test]
fn posting_list_with_masks_skips_them() {
    assert_eq!(decode_posting_list_v2(&[3, 0xAA, 0xBB, 5, 1, 2]), Ok(vec![3, 8]));
}

#[test]
fn ascending_lists() {
    assert!(is_ascending(&[]));
    assert!(is_ascending(&[1, 1, 2]));
    assert!(!is_ascending(&[1, 3, 2]));
}

#[test]
fn layout_of_a_small_index() {
    let mut postings = HashMap::new();
    postings.insert(0x0102030405060708u64, vec![0u32, 2]);
    postings.insert(7u64, vec![1u32]);
    let index = InMemoryIndex {
        files: vec!["a".into(), "b".into(), "c".into()],
        postings,
        stats: make_stats(3, 2),
    };
    assert!(is_writable(&index));
    let states = vec![FileState { path: "a".into(), mtime: 1, size: 2 }];
    let out = write_index_with_meta(&index, "C:\\dir \"x\"", 17, Some(&states), Some("abc123"));
    let mut lookup: Vec<u8> = Vec::new();
    lookup.extend_from_slice(b"NGI\x01");
    lookup.extend_from_slice(&[3, 0, 0, 0]);
    lookup.extend_from_slice(&[2, 0, 0, 0, 0, 0, 0, 0]);
    lookup.extend_from_slice(&[3, 0, 0, 0, 0, 0, 0, 0]);
    lookup.extend_from_slice(&[0; 8]);
    lookup.extend_from_slice(&[7, 0, 0, 0, 0, 0, 0, 0, 0, 0, 0, 0, 1, 0, 0, 0]);
    lookup.extend_from_slice(&[8, 7, 6, 5, 4, 3, 2, 1, 1, 0, 0, 0, 2, 0, 0, 0]);
    assert_eq!(out.lookup, lookup);
    assert_eq!(out.postings, vec![1, 0, 2]);
    assert_eq!(out.files, "a\nb\nc");
    assert_eq!(
        out.meta,
        "{\n  \"version\": 1,\n  \"root\": \"C:\\\\dir \\\"x\\\"\",\n  \"git_head\": \"abc123\",\n  \"file_count\": 3,\n  \"ngram_count\": 2,\n  \"built_at_unix\": 17,\n  \"build_duration_ms\": 1\n}\n"
    );
    let mut filemeta: Vec<u8> = vec![1, 0, 0, 0, 0, 0, 0, 0, 1, 0, 0, 0];
    filemeta.extend_from_slice(b"a");
    filemeta.extend_from_slice(&[1, 0, 0, 0, 0, 0, 0, 0, 2, 0, 0, 0, 0, 0, 0, 0]);
    assert_eq!(out.filemeta, Some(filemeta));

    let plain = write_index(&index, "/r", 17);
    assert!(plain.filemeta.is_none());
    assert!(!plain.meta.contains("git_head"));
}

#[test]
fn unsorted_posting_list_cannot_be_written() {
    let mut postings = HashMap::new();
    postings.insert(1u64, vec![2u32, 1]);
    let index = InMemoryIndex { files: vec![], postings, stats: make_stats(0, 1) };
    assert!(!is_writable(&index));
}

fn header(version: u32, entries: u64) -> Vec<u8> {
    let mut h = b"NGI\x01".to_vec();
    h.extend_from_slice(&version.to_le_bytes());
    h.extend_from_slice(&entries.to_le_bytes());
    h.extend_from_slice(&[0; 16]);
    h
}

#[test]
fn header_errors() {
    assert_eq!(read_header(&[0; 31]), Err(StorageError::LookupTooSmall));
    assert_eq!(read_header(&[0; 32]), Err(StorageError::BadMagic));
    assert_eq!(read_header(&header(4, 0)), Err(StorageError::UnsupportedVersion(4)));
    assert_eq!(
        read_header(&header(3, 1)),
        Err(StorageError::LookupTruncated { num_entries: 1, actual: 32 })
    );
    assert_eq!(
        read_header(&header(3, u64::MAX)),
        Err(StorageError::LookupTruncated { num_entries: u64::MAX, actual: 32 })
    );
    assert_eq!(read_header(&header(1, 0)), Ok((1, 0)));
    assert!(matches!(
        MappedIndex::open(&header(4, 0), &[], "").err(),
        Some(StorageError::UnsupportedVersion(4))
    ));
}

#[test]
fn older_versions_are_read() {
    let mut lookup = header(2, 1);
    lookup.extend_from_slice(&9u64.to_le_bytes());
    lookup.extend_from_slice(&0u32.to_le_bytes());
    lookup.extend_from_slice(&6u32.to_le_bytes());
    let postings = [3u8, 0xAA, 0xBB, 5, 1, 2];
    let v2 = MappedIndex::open(&lookup, &postings, "a\r\nb\n").unwrap();
    assert_eq!(v2.lookup(9), Some(vec![3, 8]));
    assert_eq!(v2.file_list(), &["a", "b"]);
    // The same bytes in the first version are six file IDs.
    lookup[4] = 1;
    let v1 = MappedIndex::open(&lookup, &postings, "").unwrap();
    assert!(v1.lookup(9).is_some());
    assert_eq!(v1.file_count(), 0);
}

#[test]
fn damaged_postings_give_nothing() {
    let mut lookup = header(3, 1);
    lookup.extend_from_slice(&9u64.to_le_bytes());
    lookup.extend_from_slice(&0u32.to_le_bytes());
    lookup.extend_from_slice(&4u32.to_le_bytes());
    let short = MappedIndex::open(&lookup, &[1, 2], "").unwrap();
    assert_eq!(short.lookup(9), None);
    assert_eq!(short.all_postings(), vec![(9, vec![])]);
    let bad = MappedIndex::open(&lookup, &[1, 2, 3, 0x80], "").unwrap();
    assert_eq!(bad.lookup(9), None);
    assert_eq!(bad.all_postings(), vec![(9, vec![])]);
    let none = MappedIndex::open(&lookup, &[], "").unwrap();
    assert_eq!(none.lookup(9), None);
}

#[test]
fn filemeta_errors() {
    assert_eq!(read_filemeta(&[0; 7]), Err(StorageError::FileMetaTooSmall));
    let whole = write_filemeta(&[FileState { path: "ab".into(), mtime: 1, size: 2 }]);
    assert_eq!(whole.len(), 30);
    assert_eq!(read_filemeta(&whole[..11]), Err(StorageError::PathLenTruncated));
    assert_eq!(read_filemeta(&whole[..13]), Err(StorageError::PathTruncated));
    assert_eq!(read_filemeta(&whole[..29]), Err(StorageError::StatTruncated));
    let mut bad = whole.clone();
    bad[12] = 0xFF;
    assert_eq!(read_filemeta(&bad), Err(StorageError::PathNotUtf8));
    // Bytes after the last state are not looked at.
    let mut longer = whole.clone();
    longer.push(9);
    assert_eq!(read_filemeta(&longer).unwrap().len(), 1);
}

#[test]
fn error_messages() {
    assert_eq!(StorageError::VarintOverflow.message(), "varint overflow");
    assert_eq!(StorageError::VarintTruncated.message(), "unexpected end of varint data");
    assert_eq!(StorageError::FileIdOverflow.message(), "file ID overflow");
    assert_eq!(StorageError::MasksTruncated.message(), "v2 posting list truncated: missing bloom masks");
    assert_eq!(StorageError::LookupTooSmall.message(), "lookup.ngi too small for header");
    assert_eq!(StorageError::BadMagic.message(), "invalid magic bytes in lookup.ngi");
    assert_eq!(StorageError::UnsupportedVersion(9).message(), "unsupported index version: 9");
    assert_eq!(
        StorageError::LookupTruncated { num_entries: 2, actual: 40 }.message(),
        "lookup.ngi truncated: expected at least 64 bytes, got 40"
    );
    assert_eq!(StorageError::FileMetaTooSmall.message(), "filemeta.bin too small");
    assert_eq!(StorageError::PathLenTruncated.message(), "filemeta.bin truncated (path_len)");
    assert_eq!(StorageError::PathTruncated.message(), "filemeta.bin truncated (path)");
    assert_eq!(StorageError::PathNotUtf8.message(), "invalid UTF-8 in filemeta path");
    assert_eq!(StorageError::StatTruncated.message(), "filemeta.bin truncated (mtime/size)");
}
