//! Posting lists: file IDs as delta-encoded variable-length integers.

use crate::error::StorageError;
use vstd::prelude::*;

verus! {

// ---------------------------------------------------------------------------
// Variable-length integers (LEB128)
// ---------------------------------------------------------------------------

/// The LEB128 encoding of a number: seven bits to a byte, the lowest first, with
/// the high bit set on every byte but the last.
pub open spec fn varint(value: nat) -> Seq<u8>
    decreases value,
{
    if value < 128 {
        seq![value as u8]
    } else {
        seq![(128 + value % 128) as u8] + varint(value / 128)
    }
}

/// The number whose seven-bit digits, lowest first, are the low bits of `bytes`.
pub open spec fn varint_payload(bytes: Seq<u8>) -> nat
    decreases bytes.len(),
{
    if bytes.len() == 0 {
        0
    } else {
        (bytes[0] % 128) as nat + 128 * varint_payload(bytes.drop_first())
    }
}

/// How many bytes at the start of `data` have their high bit set.
pub open spec fn continuation_run(data: Seq<u8>) -> nat
    decreases data.len(),
{
    if data.len() == 0 || data[0] < 128 {
        0
    } else {
        1 + continuation_run(data.drop_first())
    }
}

/// What reading one variable-length integer at the start of `data` gives: its
/// value modulo 2^32 and the number of bytes it takes.
///
/// An integer ends with its first byte below 128 and takes at most five bytes.
pub open spec fn read_varint(data: Seq<u8>) -> Result<(u32, nat), StorageError> {
    let run = continuation_run(data);
    if run >= 5 && data.len() > 5 {
        Err(StorageError::VarintOverflow)
    } else if run >= data.len() {
        Err(StorageError::VarintTruncated)
    } else {
        Ok(((varint_payload(data.take(run as int + 1)) % 0x1_0000_0000) as u32, run + 1))
    }
}

/// Appends the LEB128 encoding of `value` to `buf`.
pub fn encode_varint(value: u32, buf: &mut Vec<u8>)
    ensures
        final(buf)@ == old(buf)@ + varint(value as nat),
{
    let mut v: u32 = value;
    loop
        invariant_except_break
            old(buf)@ + varint(value as nat) == buf@ + varint(v as nat),
        ensures
            buf@ == old(buf)@ + varint(value as nat),
        decreases v,
    {
        let low: u8 = (v & 0x7F) as u8;
        let rest: u32 = v >> 7;
        assert((v & 0x7F) as u8 == v % 128 && v >> 7 == v / 128) by (bit_vector);
        if rest != 0 {
            assert((low | 0x80) == low + 128) by (bit_vector)
                requires
                    low < 128,
            ;
            let ghost before = buf@;
            buf.push(low | 0x80);
            assert(buf@ + varint(rest as nat) =~= before + varint(v as nat));
            v = rest;
        } else {
            let ghost before = buf@;
            buf.push(low);
            assert(buf@ =~= before + varint(v as nat));
            break;
        }
    }
}

/// 128 to the power `n`.
spec fn pow128(n: nat) -> nat
    decreases n,
{
    if n == 0 {
        1
    } else {
        128 * pow128((n - 1) as nat)
    }
}

/// A further digit adds its low seven bits at the next power of 128.
proof fn lemma_payload_push(bytes: Seq<u8>, b: u8)
    ensures
        varint_payload(bytes.push(b)) == varint_payload(bytes) + (b % 128) * pow128(bytes.len()),
        varint_payload(bytes) < pow128(bytes.len()),
    decreases bytes.len(),
{
    let p = pow128(bytes.len());
    if bytes.len() == 0 {
        assert(bytes.push(b).drop_first() =~= bytes);
    } else {
        let rest = bytes.drop_first();
        lemma_payload_push(rest, b);
        assert(bytes.push(b).drop_first() =~= rest.push(b));
        assert(bytes.push(b)[0] == bytes[0]);
        let q = pow128(rest.len());
        let r = varint_payload(rest);
        let d = (b % 128) as nat;
        assert(128 * (r + d * q) == 128 * r + d * (128 * q)) by (nonlinear_arith);
    }
}

/// A run of continuation bytes before a terminator or the end of the data.
pub proof fn lemma_continuation_run(data: Seq<u8>, n: nat)
    requires
        n <= data.len(),
        forall|k: int| 0 <= k < n ==> data[k] >= 128,
    ensures
        continuation_run(data) >= n,
        n < data.len() && data[n as int] < 128 ==> continuation_run(data) == n,
        continuation_run(data) <= data.len(),
    decreases data.len(),
{
    if data.len() > 0 {
        if n > 0 {
            lemma_continuation_run(data.drop_first(), (n - 1) as nat);
        } else if data[0] >= 128 {
            lemma_continuation_run(data.drop_first(), 0);
        }
    }
}

/// Reads one variable-length integer at the start of `data`.
pub fn decode_varint(data: &[u8]) -> (r: Result<(u32, usize), StorageError>)
    ensures
        match r {
            Ok((value, consumed)) => read_varint(data@) == Ok::<(u32, nat), StorageError>((value, consumed as nat)),
            Err(e) => read_varint(data@) == Err::<(u32, nat), StorageError>(e),
        },
{
    let mut result: u32 = 0;
    let mut shift: u32 = 0;
    let mut i: usize = 0;
    while i < data.len()
        invariant
            i <= data@.len(),
            i <= 5,
            shift == 7 * i,
            forall|k: int| 0 <= k < i ==> data@[k] >= 128,
            i <= 4 ==> result == varint_payload(data@.take(i as int)),
        decreases data@.len() - i,
    {
        if shift >= 35 {
            proof {
                lemma_continuation_run(data@, 5);
            }
            return Err(StorageError::VarintOverflow);
        }
        let byte: u8 = data[i];
        let low: u32 = (byte & 0x7F) as u32;
        let ghost before = result;
        proof {
            assert((byte & 0x7F) as u32 == byte % 128) by (bit_vector);
            lemma_payload_push(data@.take(i as int), byte);
            assert(data@.take(i as int).push(byte) =~= data@.take(i + 1));
            let head = data@.take(i as int);
            let next = data@.take(i + 1);
            reveal_with_fuel(pow128, 6);
            if i == 0 {
                assert(before | (low << 0u32) == before + low) by (bit_vector)
                    requires
                        before < 1,
                        low < 128,
                ;
                assert(head.len() == 0 && pow128(head.len()) == 1);
                assert((byte % 128) * pow128(0) == byte % 128) by (nonlinear_arith)
                    requires
                        pow128(0) == 1,
                ;
                assert(varint_payload(next) == before + low);
            } else if i == 1 {
                assert(before | (low << 7u32) == before + low * 128) by (bit_vector)
                    requires
                        before < 128,
                        low < 128,
                ;
                assert(head.len() == 1 && pow128(head.len()) == 128);
                assert(varint_payload(next) == before + low * 128);
            } else if i == 2 {
                assert(before | (low << 14u32) == before + low * 16384) by (bit_vector)
                    requires
                        before < 16384,
                        low < 128,
                ;
                assert(head.len() == 2 && pow128(head.len()) == 16384);
                assert(varint_payload(next) == before + low * 16384);
            } else if i == 3 {
                assert(before | (low << 21u32) == before + low * 2097152) by (bit_vector)
                    requires
                        before < 2097152,
                        low < 128,
                ;
                assert(head.len() == 3 && pow128(head.len()) == 2097152);
                assert(varint_payload(next) == before + low * 2097152);
            } else {
                assert(before | (low << 28u32) == (before + low * 268435456) % 0x1_0000_0000) by (bit_vector)
                    requires
                        before < 268435456,
                        low < 128,
                ;
                assert(head.len() == 4 && pow128(head.len()) == 268435456);
                assert(varint_payload(next) == before + low * 268435456);
            }
        }
        result = result | (low << shift);
        shift = shift + 7;
        assert(byte & 0x80 == 0 <==> byte < 128) by (bit_vector);
        if byte & 0x80 == 0 {
            proof {
                lemma_continuation_run(data@, i as nat);
            }
            return Ok((result, i + 1));
        }
        i += 1;
    }
    proof {
        lemma_continuation_run(data@, data@.len());
    }
    Err(StorageError::VarintTruncated)
}

/// The shape of an encoding: continuation bytes, one terminator, and digits that
/// make up the number.
proof fn lemma_varint_shape(value: nat, digits: nat)
    requires
        digits >= 1,
        value < pow128(digits),
    ensures
        1 <= varint(value).len() <= digits,
        forall|k: int| 0 <= k < varint(value).len() - 1 ==> varint(value)[k] >= 128,
        varint(value).last() < 128,
        varint_payload(varint(value)) == value,
    decreases value,
{
    let bytes = varint(value);
    if value < 128 {
        assert(bytes.drop_first() =~= Seq::<u8>::empty());
        assert(varint_payload(bytes.drop_first()) == 0);
    } else {
        let rest = varint(value / 128);
        assert(digits >= 2) by {
            reveal_with_fuel(pow128, 2);
        }
        lemma_varint_shape(value / 128, (digits - 1) as nat);
        assert(bytes.drop_first() =~= rest);
        assert(bytes.last() == rest.last());
        assert forall|k: int| 0 <= k < bytes.len() - 1 implies bytes[k] >= 128 by {
            if k > 0 {
                assert(bytes[k] == rest[k - 1]);
            }
        }
    }
}

/// Reading gives back the number that was written, and takes its bytes and no
/// others.
pub proof fn law_varint_round_trip(value: u32, rest: Seq<u8>)
    ensures
        read_varint(varint(value as nat) + rest) == Ok::<(u32, nat), StorageError>(
            (value, varint(value as nat).len()),
        ),
{
    let bytes = varint(value as nat);
    let data = bytes + rest;
    assert(value < pow128(5)) by {
        reveal_with_fuel(pow128, 6);
    }
    lemma_varint_shape(value as nat, 5);
    let n = (bytes.len() - 1) as nat;
    assert forall|k: int| 0 <= k < n implies data[k] >= 128 by {
        assert(data[k] == bytes[k]);
    }
    assert(data[n as int] == bytes.last());
    lemma_continuation_run(data, n);
    assert(data.take(n as int + 1) =~= bytes);
}

// ---------------------------------------------------------------------------
// Posting lists
// ---------------------------------------------------------------------------

/// Whether file IDs are in ascending order, repetitions allowed.
pub open spec fn ascending(ids: Seq<u32>) -> bool {
    forall|i: int, j: int| 0 <= i <= j < ids.len() ==> ids[i] <= ids[j]
}

/// Whether file IDs are in ascending order, each once.
pub open spec fn strictly_ascending(ids: Seq<u32>) -> bool {
    forall|i: int, j: int| 0 <= i < j < ids.len() ==> ids[i] < ids[j]
}

/// The encoding of a posting list that goes on after the file ID `prev`: each ID
/// as the difference to the one before it.
pub open spec fn encoded_ids(ids: Seq<u32>, prev: u32) -> Seq<u8>
    decreases ids.len(),
{
    if ids.len() == 0 {
        Seq::empty()
    } else {
        varint((ids[0] - prev) as nat) + encoded_ids(ids.drop_first(), ids[0])
    }
}

/// What decoding a posting list that goes on after the file ID `prev` gives, where
/// every ID is followed by `mask_len` bytes that are skipped.
pub open spec fn decoded_ids(data: Seq<u8>, prev: u32, mask_len: nat) -> Result<Seq<u32>, StorageError>
    decreases data.len(),
{
    if data.len() == 0 {
        Ok(Seq::empty())
    } else {
        match read_varint(data) {
            Err(e) => Err(e),
            Ok((delta, n)) => if data.len() < n + mask_len {
                Err(StorageError::MasksTruncated)
            } else if prev + delta > u32::MAX {
                Err(StorageError::FileIdOverflow)
            } else {
                match decoded_ids(data.skip((n + mask_len) as int), (prev + delta) as u32, mask_len) {
                    Err(e) => Err(e),
                    Ok(rest) => Ok(seq![(prev + delta) as u32] + rest),
                }
            },
        }
    }
}

/// Encodes a posting list: the differences of successive file IDs as
/// variable-length integers.
pub fn encode_posting_list(file_ids: &[u32]) -> (buf: Vec<u8>)
    requires
        ascending(file_ids@),
    ensures
        buf@ == encoded_ids(file_ids@, 0),
{
    let mut buf: Vec<u8> = Vec::new();
    let mut prev: u32 = 0;
    let mut i: usize = 0;
    assert(file_ids@.skip(0) =~= file_ids@);
    while i < file_ids.len()
        invariant
            i <= file_ids@.len(),
            ascending(file_ids@),
            prev == (if i == 0 { 0 } else { file_ids@[i - 1] }),
            buf@ + encoded_ids(file_ids@.skip(i as int), prev) == encoded_ids(file_ids@, 0),
        decreases file_ids@.len() - i,
    {
        let fid: u32 = file_ids[i];
        let ghost before = buf@;
        encode_varint(fid - prev, &mut buf);
        proof {
            let tail = file_ids@.skip(i as int);
            assert(tail.drop_first() =~= file_ids@.skip(i + 1));
            assert(buf@ + encoded_ids(file_ids@.skip(i + 1), fid) =~= before + encoded_ids(tail, prev));
        }
        prev = fid;
        i += 1;
    }
    assert(buf@ =~= encoded_ids(file_ids@, 0));
    buf
}

/// Whether file IDs are in ascending order.
pub fn is_ascending(file_ids: &[u32]) -> (r: bool)
    ensures
        r == ascending(file_ids@),
{
    let mut i: usize = 1;
    while i < file_ids.len()
        invariant
            1 <= i,
            forall|a: int, b: int| 0 <= a <= b < file_ids@.len() && b < i ==> file_ids@[a] <= file_ids@[b],
        decreases file_ids@.len() - i,
    {
        if file_ids[i - 1] > file_ids[i] {
            return false;
        }
        i += 1;
    }
    true
}

/// Decodes a posting list whose IDs are each followed by `mask_len` bytes.
fn decode_ids(data: &[u8], mask_len: usize) -> (r: Result<Vec<u32>, StorageError>)
    ensures
        match r {
            Ok(ids) => decoded_ids(data@, 0, mask_len as nat) == Ok::<Seq<u32>, StorageError>(ids@),
            Err(e) => decoded_ids(data@, 0, mask_len as nat) == Err::<Seq<u32>, StorageError>(e),
        },
{
    let mut file_ids: Vec<u32> = Vec::new();
    let mut pos: usize = 0;
    let mut prev: u32 = 0;
    let ghost whole = decoded_ids(data@, 0, mask_len as nat);
    assert(data@.skip(0) =~= data@);
    assert(whole matches Ok(rest) ==> Seq::<u32>::empty() + rest =~= rest);
    while pos < data.len()
        invariant
            pos <= data@.len(),
            match decoded_ids(data@.skip(pos as int), prev, mask_len as nat) {
                Ok(rest) => whole == Ok::<Seq<u32>, StorageError>(file_ids@ + rest),
                Err(e) => whole == Err::<Seq<u32>, StorageError>(e),
            },
            whole == decoded_ids(data@, 0, mask_len as nat),
        decreases data@.len() - pos,
    {
        let ghost tail = data@.skip(pos as int);
        let (delta, consumed) = match decode_varint(vstd::slice::slice_subrange(data, pos, data.len())) {
            Ok(p) => p,
            Err(e) => {
                return Err(e);
            },
        };
        assert(data@.subrange(pos as int, data@.len() as int) =~= tail);
        if data.len() - pos - consumed < mask_len {
            return Err(StorageError::MasksTruncated);
        }
        let ghost old_ids = file_ids@;
        match prev.checked_add(delta) {
            None => {
                return Err(StorageError::FileIdOverflow);
            },
            Some(next) => {
                prev = next;
            },
        }
        file_ids.push(prev);
        pos = pos + consumed + mask_len;
        proof {
            assert(data@.skip(pos as int) =~= tail.skip(consumed + mask_len));
            match decoded_ids(data@.skip(pos as int), prev, mask_len as nat) {
                Ok(rest) => {
                    assert(old_ids + (seq![prev] + rest) =~= file_ids@ + rest);
                },
                Err(e) => {},
            }
        }
    }
    assert(data@.skip(pos as int).len() == 0);
    assert(file_ids@ + Seq::<u32>::empty() =~= file_ids@);
    Ok(file_ids)
}

/// Decodes a posting list of format version 1 or 3: file IDs alone.
pub fn decode_posting_list(data: &[u8]) -> (r: Result<Vec<u32>, StorageError>)
    ensures
        match r {
            Ok(ids) => decoded_ids(data@, 0, 0) == Ok::<Seq<u32>, StorageError>(ids@),
            Err(e) => decoded_ids(data@, 0, 0) == Err::<Seq<u32>, StorageError>(e),
        },
{
    decode_ids(data, 0)
}

/// Decodes a posting list of format version 2, which has two mask bytes after
/// every file ID. The masks are skipped.
pub fn decode_posting_list_v2(data: &[u8]) -> (r: Result<Vec<u32>, StorageError>)
    ensures
        match r {
            Ok(ids) => decoded_ids(data@, 0, 2) == Ok::<Seq<u32>, StorageError>(ids@),
            Err(e) => decoded_ids(data@, 0, 2) == Err::<Seq<u32>, StorageError>(e),
        },
{
    decode_ids(data, 2)
}

proof fn lemma_ids_round_trip(ids: Seq<u32>, prev: u32)
    requires
        ascending(ids),
        ids.len() > 0 ==> prev <= ids[0],
    ensures
        decoded_ids(encoded_ids(ids, prev), prev, 0) == Ok::<Seq<u32>, StorageError>(ids),
    decreases ids.len(),
{
    if ids.len() == 0 {
        assert(ids =~= Seq::<u32>::empty());
    } else {
        let delta = (ids[0] - prev) as u32;
        let rest_ids = ids.drop_first();
        let rest = encoded_ids(rest_ids, ids[0]);
        let head = varint(delta as nat);
        let data = encoded_ids(ids, prev);
        law_varint_round_trip(delta, rest);
        assert forall|i: int, j: int| 0 <= i <= j < rest_ids.len() implies rest_ids[i] <= rest_ids[j] by {
            assert(ids[i + 1] <= ids[j + 1]);
        }
        lemma_ids_round_trip(rest_ids, ids[0]);
        assert(data.skip(head.len() as int) =~= rest);
        assert(seq![ids[0]] + rest_ids =~= ids);
    }
}

/// Decoding gives back the posting list that was encoded.
pub proof fn law_posting_list_round_trip(ids: Seq<u32>)
    requires
        ascending(ids),
    ensures
        decoded_ids(encoded_ids(ids, 0), 0, 0) == Ok::<Seq<u32>, StorageError>(ids),
{
    lemma_ids_round_trip(ids, 0);
}

proof fn lemma_decoded_from(data: Seq<u8>, prev: u32, mask_len: nat)
    ensures
        decoded_ids(data, prev, mask_len) matches Ok(ids) ==> ascending(ids) && (forall|i: int|
            0 <= i < ids.len() ==> prev <= #[trigger] ids[i]),
    decreases data.len(),
{
    if data.len() > 0 {
        if let Ok((delta, n)) = read_varint(data) {
            if data.len() >= n + mask_len && prev + delta <= u32::MAX {
                let next = (prev + delta) as u32;
                lemma_decoded_from(data.skip((n + mask_len) as int), next, mask_len);
            }
        }
    }
}

/// A posting list that decodes is in ascending order, whatever bytes it came from.
pub proof fn law_decoded_ascending(data: Seq<u8>, mask_len: nat)
    ensures
        decoded_ids(data, 0, mask_len) matches Ok(ids) ==> ascending(ids),
{
    lemma_decoded_from(data, 0, mask_len);
}

} // verus!
