//! The on-disk record: a checksum, the two lengths, the key and the value.
//!
//! Every integer is written in fixed width, least significant byte first:
//! the checksum in four bytes, each length in eight.  The checksum covers
//! everything behind it.

use crate::types::{Entry, Error, Slot, WriteOp, WriteView};
use vstd::bytes::{
    lemma_auto_spec_u32_to_from_le_bytes, lemma_auto_spec_u64_to_from_le_bytes,
    spec_u32_from_le_bytes, spec_u32_to_le_bytes, spec_u64_from_le_bytes, spec_u64_to_le_bytes,
};
use vstd::prelude::*;
use vstd::slice::slice_subrange;

verus! {

/// The error type of `bincode`, which the codec calls below return.
#[verifier::external_type_specification]
#[verifier::external_body]
pub struct ExErrorKind(bincode::ErrorKind);

/// The CRC-32/CKSUM checksum of `data`, as the `crc` crate computes it.
pub uninterp spec fn cksum(data: Seq<u8>) -> u32;

/// Bytes that precede the key in every record.
pub const HEADER_LEN: u64 = 20;

/// What the checksum of a record covers: both lengths, the key, the value.
pub open spec fn record_image(key: Seq<u8>, value: Seq<u8>) -> Seq<u8> {
    spec_u64_to_le_bytes(key.len() as u64) + spec_u64_to_le_bytes(value.len() as u64) + key
        + value
}

/// The complete record for `key` and `value`.
pub open spec fn record_bytes(key: Seq<u8>, value: Seq<u8>) -> Seq<u8> {
    spec_u32_to_le_bytes(cksum(record_image(key, value))) + record_image(key, value)
}

/// Length in bytes of a record with a key of `key_len` and a value of
/// `value_len` bytes.
pub open spec fn record_len(key_len: nat, value_len: nat) -> nat {
    20 + key_len + value_len
}

/// The entry of a record for a key of `key_len` and a value of `value_len`
/// bytes that starts at `start` in segment `file_id`: the value is the last
/// part of the record.
pub open spec fn entry_at(file_id: u64, start: u64, key_len: nat, value_len: nat) -> Entry {
    Entry {
        file_id,
        value_len: value_len as usize,
        value_pos: (start + 20 + key_len) as u64,
        slot: Slot { file_id, start, end: (start + record_len(key_len, value_len)) as u64 },
    }
}

/// The checksum that the first four bytes of `bytes` give.
pub open spec fn stored_sum(bytes: Seq<u8>) -> u32 {
    spec_u32_from_le_bytes(bytes.subrange(0, 4))
}

/// The key length that the header of `bytes` gives.
pub open spec fn stored_key_len(bytes: Seq<u8>) -> u64 {
    spec_u64_from_le_bytes(bytes.subrange(4, 12))
}

/// The value length that the header of `bytes` gives.
pub open spec fn stored_value_len(bytes: Seq<u8>) -> u64 {
    spec_u64_from_le_bytes(bytes.subrange(12, 20))
}

/// `bytes` consists of a header and of a key and a value of the lengths
/// that the header gives, with nothing missing and nothing left over.
pub open spec fn framed(bytes: Seq<u8>) -> bool {
    &&& bytes.len() >= 20
    &&& bytes.len() == 20 + stored_key_len(bytes) + stored_value_len(bytes)
}

/// The key that `bytes` frames.
pub open spec fn key_of(bytes: Seq<u8>) -> Seq<u8> {
    bytes.subrange(20, 20 + stored_key_len(bytes))
}

/// The value that `bytes` frames.
pub open spec fn value_of(bytes: Seq<u8>) -> Seq<u8> {
    bytes.subrange(20 + stored_key_len(bytes), bytes.len() as int)
}

/// `bytes` is a well-formed record whose checksum verifies.
pub open spec fn is_record(bytes: Seq<u8>) -> bool {
    &&& framed(bytes)
    &&& stored_sum(bytes) == cksum(bytes.subrange(4, bytes.len() as int))
}

/// A record is as long as `record_len` says, its key starts behind the
/// header of 20 bytes, and its value is its last part.
pub proof fn lemma_record_layout(key: Seq<u8>, value: Seq<u8>)
    ensures
        record_bytes(key, value).len() == record_len(key.len(), value.len()),
        record_bytes(key, value).subrange(4, record_len(key.len(), value.len()) as int)
            == record_image(key, value),
        record_bytes(key, value).subrange(20, 20 + key.len() as int) == key,
        record_bytes(key, value).subrange(
            20 + key.len() as int,
            record_len(key.len(), value.len()) as int,
        ) == value,
{
    lemma_auto_spec_u32_to_from_le_bytes();
    lemma_auto_spec_u64_to_from_le_bytes();
    let sum = spec_u32_to_le_bytes(cksum(record_image(key, value)));
    let key_len = spec_u64_to_le_bytes(key.len() as u64);
    let value_len = spec_u64_to_le_bytes(value.len() as u64);
    assert(sum.len() == 4 && key_len.len() == 8 && value_len.len() == 8);
    assert(record_bytes(key, value).subrange(4, record_len(key.len(), value.len()) as int)
        =~= record_image(key, value));
    assert(record_bytes(key, value).subrange(20, 20 + key.len() as int) =~= key);
    assert(record_bytes(key, value).subrange(
        20 + key.len() as int,
        record_len(key.len(), value.len()) as int,
    ) =~= value);
}

/// Encoding then decoding: the record of a key and a value is well formed
/// and frames that key and that value.
pub proof fn lemma_record_round_trip(key: Seq<u8>, value: Seq<u8>)
    requires
        key.len() <= u64::MAX,
        value.len() <= u64::MAX,
    ensures
        is_record(record_bytes(key, value)),
        key_of(record_bytes(key, value)) == key,
        value_of(record_bytes(key, value)) == value,
{
    lemma_auto_spec_u32_to_from_le_bytes();
    lemma_auto_spec_u64_to_from_le_bytes();
    lemma_record_layout(key, value);
    let bytes = record_bytes(key, value);
    let sum = spec_u32_to_le_bytes(cksum(record_image(key, value)));
    let key_len = spec_u64_to_le_bytes(key.len() as u64);
    let value_len = spec_u64_to_le_bytes(value.len() as u64);
    assert(bytes.subrange(0, 4) =~= sum);
    assert(bytes.subrange(4, 12) =~= key_len);
    assert(bytes.subrange(12, 20) =~= value_len);
}

/// Decoding then encoding: a well-formed record is the record of the key
/// and the value that it frames.
pub proof fn lemma_record_unique(bytes: Seq<u8>)
    requires
        is_record(bytes),
    ensures
        bytes == record_bytes(key_of(bytes), value_of(bytes)),
{
    lemma_auto_spec_u32_to_from_le_bytes();
    lemma_auto_spec_u64_to_from_le_bytes();
    let key = key_of(bytes);
    let value = value_of(bytes);
    assert(key.len() == stored_key_len(bytes));
    assert(value.len() == stored_value_len(bytes));
    assert(spec_u64_to_le_bytes(key.len() as u64) == bytes.subrange(4, 12));
    assert(spec_u64_to_le_bytes(value.len() as u64) == bytes.subrange(12, 20));
    assert(record_image(key, value) =~= bytes.subrange(4, bytes.len() as int));
    assert(spec_u32_to_le_bytes(cksum(record_image(key, value))) == bytes.subrange(0, 4));
    assert(bytes =~= record_bytes(key, value));
}

/// Calls `bincode::serialize` on a length.  With bincode's default
/// configuration a `usize` is written as a `u64` in eight bytes, least
/// significant first, and nothing on that path can fail.
#[verifier::external_body]
fn encode_len(n: usize) -> (res: Result<Vec<u8>, Box<bincode::ErrorKind>>)
    ensures
        res is Ok,
        res matches Ok(bytes) ==> bytes@ == spec_u64_to_le_bytes(n as u64),
{
    bincode::serialize(&n)
}

/// Calls `bincode::serialize` on a checksum.  With bincode's default
/// configuration a `u32` is written in four bytes, least significant first,
/// and nothing on that path can fail.
#[verifier::external_body]
fn encode_checksum(sum: u32) -> (res: Result<Vec<u8>, Box<bincode::ErrorKind>>)
    ensures
        res is Ok,
        res matches Ok(bytes) ==> bytes@ == spec_u32_to_le_bytes(sum),
{
    bincode::serialize(&sum)
}

/// Calls `bincode::deserialize` for a length.  With bincode's default
/// configuration a `u64` is read from the first eight bytes, least
/// significant first; what follows them is ignored, and the call fails
/// exactly when there are fewer than eight.
#[verifier::external_body]
fn decode_len(bytes: &[u8]) -> (res: Result<u64, Box<bincode::ErrorKind>>)
    ensures
        res is Ok <==> bytes@.len() >= 8,
        res matches Ok(n) ==> n == spec_u64_from_le_bytes(bytes@.subrange(0, 8)),
{
    bincode::deserialize::<u64>(bytes)
}

/// Calls `bincode::deserialize` for a checksum.  With bincode's default
/// configuration a `u32` is read from the first four bytes, least
/// significant first; what follows them is ignored, and the call fails
/// exactly when there are fewer than four.
#[verifier::external_body]
fn decode_checksum(bytes: &[u8]) -> (res: Result<u32, Box<bincode::ErrorKind>>)
    ensures
        res is Ok <==> bytes@.len() >= 4,
        res matches Ok(n) ==> n == spec_u32_from_le_bytes(bytes@.subrange(0, 4)),
{
    bincode::deserialize::<u32>(bytes)
}

/// Calls `crc::Crc::<u32>::checksum` with the CRC-32/CKSUM algorithm.
#[verifier::external_body]
fn checksum(data: &[u8]) -> (sum: u32)
    ensures
        sum == cksum(data@),
{
    crc::Crc::<u32>::new(&crc::CRC_32_CKSUM).checksum(data)
}

/// Appends a copy of `src` to `dst`.
fn append_bytes(dst: &mut Vec<u8>, src: &[u8])
    ensures
        final(dst)@ == old(dst)@ + src@,
{
    let mut i: usize = 0;
    while i < src.len()
        invariant
            i <= src@.len(),
            dst@ == old(dst)@ + src@.subrange(0, i as int),
        decreases src@.len() - i,
    {
        dst.push(src[i]);
        i = i + 1;
    }
    assert(src@.subrange(0, src@.len() as int) =~= src@);
}

/// Builds what the checksum of the record for `key` and `value` covers.
/// Never fails.
pub fn frame(key: &[u8], value: &[u8]) -> (res: Result<Vec<u8>, Error>)
    ensures
        res is Ok,
        res matches Ok(image) ==> image@ == record_image(key@, value@),
{
    let key_len = match encode_len(key.len()) {
        Ok(bytes) => bytes,
        Err(_) => {
            return Err(Error::Encode);
        },
    };
    let value_len = match encode_len(value.len()) {
        Ok(bytes) => bytes,
        Err(_) => {
            return Err(Error::Encode);
        },
    };
    let mut image = key_len;
    append_bytes(&mut image, value_len.as_slice());
    append_bytes(&mut image, key);
    append_bytes(&mut image, value);
    Ok(image)
}

/// Puts the checksum `sum` in front of `image`.  Never fails.
pub fn seal(sum: u32, image: &[u8]) -> (res: Result<Vec<u8>, Error>)
    ensures
        res is Ok,
        res matches Ok(bytes) ==> bytes@ == spec_u32_to_le_bytes(sum) + image@,
{
    let mut record = match encode_checksum(sum) {
        Ok(bytes) => bytes,
        Err(_) => {
            return Err(Error::Encode);
        },
    };
    append_bytes(&mut record, image);
    Ok(record)
}

/// Builds the record for `key` and `value`.  Never fails.
pub fn encode_record(key: &[u8], value: &[u8]) -> (res: Result<Vec<u8>, Error>)
    ensures
        res is Ok,
        res matches Ok(bytes) ==> bytes@ == record_bytes(key@, value@),
{
    let image = match frame(key, value) {
        Ok(image) => image,
        Err(e) => {
            return Err(e);
        },
    };
    let sum = checksum(image.as_slice());
    seal(sum, image.as_slice())
}

/// Takes `bytes` apart as a record whose checksum has to be `sum`.
///
/// Returns the key and the value if `bytes` is framed as a record and
/// stores `sum` as its checksum; fails with `Error::Decode` otherwise.
pub fn split(bytes: &[u8], sum: u32) -> (res: Result<(Vec<u8>, Vec<u8>), Error>)
    ensures
        framed(bytes@) && stored_sum(bytes@) == sum ==> res is Ok,
        !(framed(bytes@) && stored_sum(bytes@) == sum) ==> res == Err::<(Vec<u8>, Vec<u8>), Error>(
            Error::Decode,
        ),
        res matches Ok((key, value)) ==> key@ == key_of(bytes@) && value@ == value_of(bytes@),
{
    let len = bytes.len();
    if len < 20 {
        return Err(Error::Decode);
    }
    let stored = match decode_checksum(bytes) {
        Ok(stored) => stored,
        Err(_) => {
            return Err(Error::Decode);
        },
    };
    let key_len = match decode_len(slice_subrange(bytes, 4, len)) {
        Ok(n) => n,
        Err(_) => {
            return Err(Error::Decode);
        },
    };
    let value_len = match decode_len(slice_subrange(bytes, 12, len)) {
        Ok(n) => n,
        Err(_) => {
            return Err(Error::Decode);
        },
    };
    assert(bytes@.subrange(4, len as int).subrange(0, 8) =~= bytes@.subrange(4, 12));
    assert(bytes@.subrange(12, len as int).subrange(0, 8) =~= bytes@.subrange(12, 20));
    let body: u64 = (len - 20) as u64;
    if key_len > body || value_len != body - key_len || stored != sum {
        return Err(Error::Decode);
    }
    let key_end: usize = 20 + key_len as usize;
    let mut key: Vec<u8> = Vec::new();
    append_bytes(&mut key, slice_subrange(bytes, 20, key_end));
    let mut value: Vec<u8> = Vec::new();
    append_bytes(&mut value, slice_subrange(bytes, key_end, len));
    Ok((key, value))
}

/// Takes a record apart after checking its checksum.
///
/// Returns the key and the value if `bytes` is a well-formed record whose
/// checksum verifies; fails with `Error::Decode` otherwise.
pub fn decode_record(bytes: &[u8]) -> (res: Result<(Vec<u8>, Vec<u8>), Error>)
    ensures
        is_record(bytes@) ==> res is Ok,
        !is_record(bytes@) ==> res == Err::<(Vec<u8>, Vec<u8>), Error>(Error::Decode),
        res matches Ok((key, value)) ==> bytes@ == record_bytes(key@, value@),
{
    let len = bytes.len();
    if len < 20 {
        return Err(Error::Decode);
    }
    let sum = checksum(slice_subrange(bytes, 4, len));
    proof {
        if is_record(bytes@) {
            lemma_record_unique(bytes@);
        }
    }
    split(bytes, sum)
}

/// Length of the record for a key of `key_len` and a value of `value_len`
/// bytes, unless it is more than a file offset can express.
pub fn record_size(key_len: usize, value_len: usize) -> (r: Option<u64>)
    ensures
        r == if record_len(key_len as nat, value_len as nat) <= u64::MAX {
            Some(record_len(key_len as nat, value_len as nat) as u64)
        } else {
            None
        },
{
    match (key_len as u64).checked_add(value_len as u64) {
        Some(both) => both.checked_add(HEADER_LEN),
        None => None,
    }
}

/// The entry of the record for a key of `key_len` and a value of
/// `value_len` bytes that starts at `start` in segment `file_id`.
pub fn entry_for(file_id: u64, start: u64, key_len: usize, value_len: usize) -> (e: Entry)
    requires
        start + record_len(key_len as nat, value_len as nat) <= u64::MAX,
    ensures
        e == entry_at(file_id, start, key_len as nat, value_len as nat),
{
    let value_pos: u64 = start + HEADER_LEN + key_len as u64;
    Entry {
        file_id,
        value_len,
        value_pos,
        slot: Slot { file_id, start, end: value_pos + value_len as u64 },
    }
}

/// Frames `key` and `value` as a record that starts at `start` in segment
/// `file_id`: returns the entry that points at the value and the write that
/// puts the record there.
///
/// Fails with `Error::Io`, and only then, when the record would end beyond
/// the largest file offset.
pub fn serialize_to_file(file_id: u64, start: u64, key: &[u8], value: &[u8]) -> (res: Result<
    (Entry, WriteOp),
    Error,
>)
    ensures
        start + record_len(key@.len(), value@.len()) > u64::MAX ==> res == Err::<
            (Entry, WriteOp),
            Error,
        >(Error::Io),
        start + record_len(key@.len(), value@.len()) <= u64::MAX ==> res is Ok,
        res matches Ok((entry, write)) ==> {
            &&& entry == entry_at(file_id, start, key@.len(), value@.len())
            &&& write@ == WriteView { file_id, offset: start, bytes: record_bytes(key@, value@) }
        },
{
    let need = match record_size(key.len(), value.len()) {
        Some(need) => need,
        None => {
            return Err(Error::Io);
        },
    };
    if need > u64::MAX - start {
        return Err(Error::Io);
    }
    let bytes = match encode_record(key, value) {
        Ok(bytes) => bytes,
        Err(e) => {
            return Err(e);
        },
    };
    let entry = entry_for(file_id, start, key.len(), value.len());
    Ok((entry, WriteOp { file_id, offset: start, bytes }))
}

} // verus!
