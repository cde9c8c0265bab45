//! Errors of reading an index and of searching.

use crate::text;
use crate::text::push_decimal;
use vstd::prelude::*;

verus! {

/// What can be wrong with the bytes of an index.
#[derive(Debug, Clone, Copy, PartialEq, Eq, Structural)]
pub enum StorageError {
    /// A variable-length integer goes on after its fifth byte.
    VarintOverflow,
    /// The data ends inside a variable-length integer.
    VarintTruncated,
    /// The file IDs of a posting list do not fit in 32 bits.
    FileIdOverflow,
    /// A posting of format version 2 lacks its two mask bytes.
    MasksTruncated,
    /// The lookup table is shorter than its header.
    LookupTooSmall,
    /// The lookup table does not start with the magic bytes.
    BadMagic,
    /// The lookup table has a format version that is not known.
    UnsupportedVersion(u32),
    /// The lookup table ends before its last entry.
    LookupTruncated { num_entries: u64, actual: usize },
    /// The file metadata is shorter than its count.
    FileMetaTooSmall,
    /// The file metadata ends inside the length of a path.
    PathLenTruncated,
    /// The file metadata ends inside a path.
    PathTruncated,
    /// A path in the file metadata is not UTF-8.
    PathNotUtf8,
    /// The file metadata ends inside a modification time or a size.
    StatTruncated,
}

impl StorageError {
    /// The text of an error.
    pub open spec fn text(self) -> Seq<char> {
        match self {
            StorageError::VarintOverflow => "varint overflow"@,
            StorageError::VarintTruncated => "unexpected end of varint data"@,
            StorageError::FileIdOverflow => "file ID overflow"@,
            StorageError::MasksTruncated => "v2 posting list truncated: missing bloom masks"@,
            StorageError::LookupTooSmall => "lookup.ngi too small for header"@,
            StorageError::BadMagic => "invalid magic bytes in lookup.ngi"@,
            StorageError::UnsupportedVersion(version) => "unsupported index version: "@ + text::decimal(
                version as nat,
            ),
            StorageError::LookupTruncated { num_entries, actual } => "lookup.ngi truncated: expected at least "@
                + text::decimal((32 + 16 * num_entries) as nat) + " bytes, got "@ + text::decimal(actual as nat),
            StorageError::FileMetaTooSmall => "filemeta.bin too small"@,
            StorageError::PathLenTruncated => "filemeta.bin truncated (path_len)"@,
            StorageError::PathTruncated => "filemeta.bin truncated (path)"@,
            StorageError::PathNotUtf8 => "invalid UTF-8 in filemeta path"@,
            StorageError::StatTruncated => "filemeta.bin truncated (mtime/size)"@,
        }
    }

    /// Tells what is wrong.
    pub fn message(&self) -> (out: String)
        ensures
            out@ == self.text(),
    {
        let mut out = String::new();
        match *self {
            StorageError::VarintOverflow => out.append("varint overflow"),
            StorageError::VarintTruncated => out.append("unexpected end of varint data"),
            StorageError::FileIdOverflow => out.append("file ID overflow"),
            StorageError::MasksTruncated => out.append("v2 posting list truncated: missing bloom masks"),
            StorageError::LookupTooSmall => out.append("lookup.ngi too small for header"),
            StorageError::BadMagic => out.append("invalid magic bytes in lookup.ngi"),
            StorageError::UnsupportedVersion(version) => {
                out.append("unsupported index version: ");
                push_decimal(&mut out, version as u128);
            },
            StorageError::LookupTruncated { num_entries, actual } => {
                out.append("lookup.ngi truncated: expected at least ");
                push_decimal(&mut out, 32 + 16 * num_entries as u128);
                out.append(" bytes, got ");
                push_decimal(&mut out, actual as u128);
            },
            StorageError::FileMetaTooSmall => out.append("filemeta.bin too small"),
            StorageError::PathLenTruncated => out.append("filemeta.bin truncated (path_len)"),
            StorageError::PathTruncated => out.append("filemeta.bin truncated (path)"),
            StorageError::PathNotUtf8 => out.append("invalid UTF-8 in filemeta path"),
            StorageError::StatTruncated => out.append("filemeta.bin truncated (mtime/size)"),
        }
        assert(out@ =~= self.text());
        out
    }
}

/// Why a search could not start.
#[derive(Debug)]
pub enum SearchError {
    /// The pattern is no regular expression, with the parser's message.
    Pattern(String),
    /// The file pattern could not be compiled, with the compiler's message.
    FilePattern(String),
}

} // verus!
