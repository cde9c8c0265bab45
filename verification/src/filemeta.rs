//! Per-file metadata in bytes: what the files looked like when they were indexed.

use crate::error::StorageError;
use crate::text::utf8_text;
use vstd::bytes::*;
use vstd::prelude::*;
use vstd::utf8::*;

verus! {

/// A file's path, modification time and size at the time of indexing.
#[derive(Debug, Clone, PartialEq, Eq)]
pub struct FileState {
    pub path: String,
    pub mtime: u64,
    pub size: u64,
}

/// A [`FileState`] with its path as text.
pub struct StateView {
    pub path: Seq<char>,
    pub mtime: u64,
    pub size: u64,
}

impl View for FileState {
    type V = StateView;

    open spec fn view(&self) -> StateView {
        StateView { path: self.path@, mtime: self.mtime, size: self.size }
    }
}

/// The models of a sequence of file states.
pub open spec fn state_views(states: Seq<FileState>) -> Seq<StateView> {
    states.map_values(|s: FileState| s@)
}

/// The bytes of one file state: the length of the path in UTF-8 as 32 bits, the
/// path, the modification time and the size as 64 bits each.
pub open spec fn state_bytes(s: StateView) -> Seq<u8> {
    let path = encode_utf8(s.path);
    spec_u32_to_le_bytes(path.len() as u32) + path + spec_u64_to_le_bytes(s.mtime) + spec_u64_to_le_bytes(s.size)
}

/// The bytes of file states, one after the other.
pub open spec fn states_bytes(states: Seq<StateView>) -> Seq<u8>
    decreases states.len(),
{
    if states.len() == 0 {
        Seq::empty()
    } else {
        state_bytes(states[0]) + states_bytes(states.drop_first())
    }
}

/// The file metadata of `states`: their number as 64 bits, then each of them.
pub open spec fn filemeta_bytes(states: Seq<StateView>) -> Seq<u8> {
    spec_u64_to_le_bytes(states.len() as u64) + states_bytes(states)
}

/// What reading `n` file states at the start of `data` gives. Bytes after the last
/// of them are not looked at.
pub open spec fn read_states(data: Seq<u8>, n: nat) -> Result<Seq<StateView>, StorageError>
    decreases n,
{
    if n == 0 {
        Ok(Seq::empty())
    } else if data.len() < 4 {
        Err(StorageError::PathLenTruncated)
    } else {
        let len = spec_u32_from_le_bytes(data.subrange(0, 4)) as int;
        if data.len() < 4 + len {
            Err(StorageError::PathTruncated)
        } else if !valid_utf8(data.subrange(4, 4 + len)) {
            Err(StorageError::PathNotUtf8)
        } else if data.len() < 20 + len {
            Err(StorageError::StatTruncated)
        } else {
            let state = StateView {
                path: decode_utf8(data.subrange(4, 4 + len)),
                mtime: spec_u64_from_le_bytes(data.subrange(4 + len, 12 + len)),
                size: spec_u64_from_le_bytes(data.subrange(12 + len, 20 + len)),
            };
            match read_states(data.skip(20 + len), (n - 1) as nat) {
                Ok(rest) => Ok(seq![state] + rest),
                Err(e) => Err(e),
            }
        }
    }
}

/// What reading file metadata gives.
pub open spec fn read_filemeta_bytes(data: Seq<u8>) -> Result<Seq<StateView>, StorageError> {
    if data.len() < 8 {
        Err(StorageError::FileMetaTooSmall)
    } else {
        read_states(data.skip(8), (spec_u64_from_le_bytes(data.subrange(0, 8)) as usize) as nat)
    }
}

/// Appends the bytes of `other` to `buf`.
pub(crate) fn push_bytes(buf: &mut Vec<u8>, other: &[u8])
    ensures
        final(buf)@ == old(buf)@ + other@,
{
    buf.extend_from_slice(other);
    assert(buf@ =~= old(buf)@ + other@);
}

/// Lays out file metadata in bytes.
pub fn write_filemeta(states: &[FileState]) -> (buf: Vec<u8>)
    ensures
        buf@ == filemeta_bytes(state_views(states@)),
{
    let mut buf: Vec<u8> = Vec::new();
    push_bytes(&mut buf, u64_to_le_bytes(states.len() as u64).as_slice());
    let ghost all = state_views(states@);
    let mut i: usize = 0;
    assert(all.skip(0) =~= all);
    assert(buf@ + states_bytes(all) =~= filemeta_bytes(all));
    while i < states.len()
        invariant
            i <= states@.len(),
            all == state_views(states@),
            buf@ + states_bytes(all.skip(i as int)) == filemeta_bytes(all),
        decreases states@.len() - i,
    {
        let ghost before = buf@;
        let ghost tail = all.skip(i as int);
        let s = &states[i];
        let path_bytes = s.path.as_str().as_bytes();
        push_bytes(&mut buf, u32_to_le_bytes(path_bytes.len() as u32).as_slice());
        push_bytes(&mut buf, path_bytes);
        push_bytes(&mut buf, u64_to_le_bytes(s.mtime).as_slice());
        push_bytes(&mut buf, u64_to_le_bytes(s.size).as_slice());
        proof {
            assert(tail[0] == s@);
            assert(tail.drop_first() =~= all.skip(i + 1));
            assert(buf@ + states_bytes(all.skip(i + 1)) =~= before + states_bytes(tail));
        }
        i += 1;
    }
    assert(all.skip(i as int).len() == 0);
    assert(buf@ =~= filemeta_bytes(all));
    buf
}

/// Reads file metadata back.
pub fn read_filemeta(data: &[u8]) -> (r: Result<Vec<FileState>, StorageError>)
    ensures
        match r {
            Ok(states) => read_filemeta_bytes(data@) == Ok::<Seq<StateView>, StorageError>(state_views(states@)),
            Err(e) => read_filemeta_bytes(data@) == Err::<Seq<StateView>, StorageError>(e),
        },
{
    if data.len() < 8 {
        return Err(StorageError::FileMetaTooSmall);
    }
    let num_files: usize = u64_from_le_bytes(vstd::slice::slice_subrange(data, 0, 8)) as usize;
    let ghost whole = read_filemeta_bytes(data@);
    let mut states: Vec<FileState> = Vec::new();
    let mut pos: usize = 8;
    let mut left: usize = num_files;
    assert(whole matches Ok(rest) ==> state_views(states@) + rest =~= rest);
    while left > 0
        invariant
            8 <= pos <= data@.len(),
            whole == read_filemeta_bytes(data@),
            match read_states(data@.skip(pos as int), left as nat) {
                Ok(rest) => whole == Ok::<Seq<StateView>, StorageError>(state_views(states@) + rest),
                Err(e) => whole == Err::<Seq<StateView>, StorageError>(e),
            },
        decreases left,
    {
        let ghost tail = data@.skip(pos as int);
        let avail: usize = data.len() - pos;
        if avail < 4 {
            return Err(StorageError::PathLenTruncated);
        }
        let path_len: usize = u32_from_le_bytes(vstd::slice::slice_subrange(data, pos, pos + 4)) as usize;
        assert(tail.subrange(0, 4) =~= data@.subrange(pos as int, pos + 4));
        if avail - 4 < path_len {
            return Err(StorageError::PathTruncated);
        }
        let start: usize = pos + 4;
        let end: usize = start + path_len;
        assert(tail.subrange(4, 4 + path_len) =~= data@.subrange(start as int, end as int));
        let path = match utf8_text(vstd::slice::slice_subrange(data, start, end)) {
            Some(p) => p,
            None => {
                return Err(StorageError::PathNotUtf8);
            },
        };
        if data.len() - end < 16 {
            return Err(StorageError::StatTruncated);
        }
        let mtime: u64 = u64_from_le_bytes(vstd::slice::slice_subrange(data, end, end + 8));
        let size: u64 = u64_from_le_bytes(vstd::slice::slice_subrange(data, end + 8, end + 16));
        let ghost before = states@;
        states.push(FileState { path, mtime, size });
        proof {
            let len = path_len as int;
            assert(tail.subrange(4 + len, 12 + len) =~= data@.subrange(end as int, end + 8));
            assert(tail.subrange(12 + len, 20 + len) =~= data@.subrange(end + 8, end + 16));
            encode_utf8_decode_utf8(path@);
            assert(path@ == decode_utf8(tail.subrange(4, 4 + len)));
            let state = StateView { path: path@, mtime, size };
            assert(tail.skip(20 + len) =~= data@.skip(end + 16));
            assert(state_views(states@) =~= state_views(before).push(state));
            if let Ok(rest) = read_states(data@.skip(end + 16), (left - 1) as nat) {
                assert(state_views(before) + (seq![state] + rest) =~= state_views(states@) + rest);
            }
        }
        pos = end + 16;
        left = left - 1;
    }
    assert(state_views(states@) + Seq::<StateView>::empty() =~= state_views(states@));
    Ok(states)
}

proof fn lemma_states_round_trip(states: Seq<StateView>, rest: Seq<u8>)
    requires
        forall|i: int| 0 <= i < states.len() ==> encode_utf8((#[trigger] states[i]).path).len() <= u32::MAX,
    ensures
        read_states(states_bytes(states) + rest, states.len()) == Ok::<Seq<StateView>, StorageError>(states),
    decreases states.len(),
{
    if states.len() == 0 {
        assert(states =~= Seq::<StateView>::empty());
    } else {
        let s = states[0];
        let tail = states.drop_first();
        let path = encode_utf8(s.path);
        let len = path.len() as int;
        let data = states_bytes(states) + rest;
        lemma_auto_spec_u32_to_from_le_bytes();
        lemma_auto_spec_u64_to_from_le_bytes();
        assert(data.subrange(0, 4) =~= spec_u32_to_le_bytes(path.len() as u32));
        assert(data.subrange(4, 4 + len) =~= path);
        assert(data.subrange(4 + len, 12 + len) =~= spec_u64_to_le_bytes(s.mtime));
        assert(data.subrange(12 + len, 20 + len) =~= spec_u64_to_le_bytes(s.size));
        assert(data.skip(20 + len) =~= states_bytes(tail) + rest);
        encode_utf8_valid_utf8(s.path);
        encode_utf8_decode_utf8(s.path);
        assert forall|i: int| 0 <= i < tail.len() implies encode_utf8((#[trigger] tail[i]).path).len()
            <= u32::MAX by {
            assert(tail[i] == states[i + 1]);
        }
        lemma_states_round_trip(tail, rest);
        assert(seq![s] + tail =~= states);
    }
}

/// Reading gives back the file states that were written, where every path takes
/// fewer than 2^32 bytes.
pub proof fn law_filemeta_round_trip(states: Seq<StateView>)
    requires
        states.len() <= usize::MAX,
        forall|i: int| 0 <= i < states.len() ==> encode_utf8((#[trigger] states[i]).path).len() <= u32::MAX,
    ensures
        read_filemeta_bytes(filemeta_bytes(states)) == Ok::<Seq<StateView>, StorageError>(states),
{
    let data = filemeta_bytes(states);
    lemma_auto_spec_u64_to_from_le_bytes();
    assert(data.subrange(0, 8) =~= spec_u64_to_le_bytes(states.len() as u64));
    assert(data.skip(8) =~= states_bytes(states) + Seq::<u8>::empty());
    lemma_states_round_trip(states, Seq::empty());
}

} // verus!
