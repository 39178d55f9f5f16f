//! The binary layout of one log record and the primitives that encode and
//! decode its fields.

use byteorder::ByteOrder;
use vstd::prelude::*;
use vstd::slice::slice_subrange;

verus! {

/// Number of bytes in front of the key of every record: checksum, key
/// length and value length, four bytes each.
pub const HEADER_LEN: usize = 12;

/// The four bytes of `n`, least significant byte first.
pub open spec fn le_bytes(n: u32) -> Seq<u8> {
    seq![
        (n % 256) as u8,
        ((n / 256) % 256) as u8,
        ((n / 65536) % 256) as u8,
        (n / 16777216) as u8,
    ]
}

/// The number whose little-endian encoding is the first four bytes of `b`.
pub open spec fn le_value(b: Seq<u8>) -> u32
    recommends
        b.len() >= 4,
{
    (b[0] + 256 * b[1] + 65536 * b[2] + 16777216 * b[3]) as u32
}

/// Decoding undoes encoding.
pub proof fn lemma_le_roundtrip(n: u32)
    ensures
        le_bytes(n).len() == 4,
        le_value(le_bytes(n)) == n,
{
}

/// Calls `byteorder::LittleEndian::read_u32`, which reads the first four
/// bytes of `buf` as a little-endian number and panics on a shorter buffer.
#[verifier::external_body]
pub(crate) fn read_u32_le(buf: &[u8]) -> (n: u32)
    requires
        buf@.len() >= 4,
    ensures
        n == le_value(buf@),
{
    byteorder::LittleEndian::read_u32(buf)
}

/// Calls `byteorder::LittleEndian::write_u32` on a fresh four-byte buffer,
/// which it fills with the little-endian encoding of `n`.
#[verifier::external_body]
pub(crate) fn write_u32_le(n: u32) -> (buf: [u8; 4])
    ensures
        buf@ == le_bytes(n),
{
    let mut buf: [u8; 4] = [0; 4];
    byteorder::LittleEndian::write_u32(&mut buf, n);
    buf
}

/// The CRC-32 (IEEE) checksum of a byte sequence, as `crc::crc32::checksum_ieee`
/// computes it.
pub uninterp spec fn crc32_ieee(bytes: Seq<u8>) -> u32;

/// Calls `crc::crc32::checksum_ieee`, a function of the bytes alone.
#[verifier::external_body]
pub(crate) fn checksum_ieee(bytes: &[u8]) -> (sum: u32)
    ensures
        sum == crc32_ieee(bytes@),
{
    crc::crc32::checksum_ieee(bytes)
}

/// Why a read, a replay or an append failed.
#[derive(Debug, Clone, Copy, PartialEq, Eq, Structural)]
pub enum StoreError {
    /// A record is cut off inside its header or its key and value bytes.
    Truncation,
    /// A complete record whose stored checksum is not that of its bytes.
    ChecksumMismatch,
    /// A key or a value too long for the 32-bit length fields of a record.
    RecordTooLarge,
}

/// A key with its value, as one record holds them.
#[derive(Debug, Clone, PartialEq, Eq)]
pub struct KeyValuePair {
    pub key: Vec<u8>,
    pub value: Vec<u8>,
}

impl View for KeyValuePair {
    type V = (Seq<u8>, Seq<u8>);

    open spec fn view(&self) -> (Seq<u8>, Seq<u8>) {
        (self.key@, self.value@)
    }
}

/// The three fields in front of the key of a record.
#[derive(Debug, Clone, Copy, PartialEq, Eq, Structural)]
pub struct Header {
    /// The checksum that was stored with the record.
    pub checksum: u32,
    /// The number of bytes of the key.
    pub key_len: u32,
    /// The number of bytes of the value.
    pub val_len: u32,
}

/// What a read gave, with the key and the value as sequences of bytes.
pub open spec fn outcome_view(outcome: Result<Option<KeyValuePair>, StoreError>) -> Result<
    Option<(Seq<u8>, Seq<u8>)>,
    StoreError,
> {
    match outcome {
        Ok(Some(kv)) => Ok(Some(kv@)),
        Ok(None) => Ok(None),
        Err(e) => Err(e),
    }
}

/// Whether the lengths of `key` and `value` can be written in a header.
pub open spec fn fits(key: Seq<u8>, value: Seq<u8>) -> bool {
    key.len() <= u32::MAX && value.len() <= u32::MAX
}

/// Number of bytes that the record of `key` and `value` takes in the log.
pub open spec fn record_len(key: Seq<u8>, value: Seq<u8>) -> nat {
    12 + key.len() + value.len()
}

/// A header that stores `checksum`, followed by `key` and `value`.
pub open spec fn frame(checksum: u32, key: Seq<u8>, value: Seq<u8>) -> Seq<u8> {
    le_bytes(checksum) + le_bytes(key.len() as u32) + le_bytes(value.len() as u32) + key + value
}

/// The bytes that appending `key` with `value` adds to the log.
pub open spec fn record_bytes(key: Seq<u8>, value: Seq<u8>) -> Seq<u8> {
    frame(crc32_ieee(key + value), key, value)
}

/// The checksum field of the record that starts `bytes`.
pub open spec fn stored_checksum(bytes: Seq<u8>) -> u32
    recommends
        bytes.len() >= 12,
{
    le_value(bytes.subrange(0, 4))
}

/// The key length field of the record that starts `bytes`.
pub open spec fn stored_key_len(bytes: Seq<u8>) -> int
    recommends
        bytes.len() >= 12,
{
    le_value(bytes.subrange(4, 8)) as int
}

/// The value length field of the record that starts `bytes`.
pub open spec fn stored_val_len(bytes: Seq<u8>) -> int
    recommends
        bytes.len() >= 12,
{
    le_value(bytes.subrange(8, 12)) as int
}

/// The header of the record that starts `bytes`: `None` where no byte is
/// left, and `Truncation` where the bytes end inside the header or before
/// the end of the value that the header announces.
pub open spec fn header_of(bytes: Seq<u8>) -> Result<Option<Header>, StoreError> {
    if bytes.len() == 0 {
        Ok(None)
    } else if bytes.len() < 12 {
        Err(StoreError::Truncation)
    } else if bytes.len() - 12 < stored_key_len(bytes) + stored_val_len(bytes) {
        Err(StoreError::Truncation)
    } else {
        Ok(
            Some(
                Header {
                    checksum: stored_checksum(bytes),
                    key_len: stored_key_len(bytes) as u32,
                    val_len: stored_val_len(bytes) as u32,
                },
            ),
        )
    }
}

/// The key and value bytes of the record that starts `bytes`, as one
/// sequence.
pub open spec fn payload_of(bytes: Seq<u8>, header: Header) -> Seq<u8> {
    bytes.subrange(12, 12 + header.key_len + header.val_len)
}

/// What a read makes of key and value bytes `data` that came with `header`
/// and have the checksum `computed`: a checksum mismatch where `computed`
/// is not the stored checksum, `Truncation` where `data` has not the
/// length that the header announces, and else the key and the value.
pub open spec fn checked(header: Header, computed: u32, data: Seq<u8>) -> Result<
    (Seq<u8>, Seq<u8>),
    StoreError,
> {
    if computed != header.checksum {
        Err(StoreError::ChecksumMismatch)
    } else if data.len() != header.key_len + header.val_len {
        Err(StoreError::Truncation)
    } else {
        Ok((data.take(header.key_len as int), data.skip(header.key_len as int)))
    }
}

/// What reading one record from the start of `bytes` gives: the key and
/// value of a complete record with a matching checksum, `None` where no
/// byte is left, and an error for every other content.
pub open spec fn decode(bytes: Seq<u8>) -> Result<Option<(Seq<u8>, Seq<u8>)>, StoreError> {
    match header_of(bytes) {
        Ok(Some(header)) => {
            let data = payload_of(bytes, header);
            match checked(header, crc32_ieee(data), data) {
                Ok(kv) => Ok(Some(kv)),
                Err(e) => Err(e),
            }
        },
        Ok(None) => Ok(None),
        Err(e) => Err(e),
    }
}

/// What reading one record at offset `pos` of `log` gives. At or behind the
/// end of the log nothing is left to read.
pub open spec fn decode_at(log: Seq<u8>, pos: int) -> Result<Option<(Seq<u8>, Seq<u8>)>, StoreError> {
    if 0 <= pos < log.len() {
        decode(log.skip(pos))
    } else {
        Ok(None)
    }
}

impl Header {
    /// Reads the header of the record that starts `bytes`: `None` where no
    /// byte is left, `Truncation` where the bytes end inside the header
    /// or before the end of the value that the header announces.
    pub fn read(bytes: &[u8]) -> (r: Result<Option<Header>, StoreError>)
        ensures
            r == header_of(bytes@),
    {
        let n = bytes.len();
        if n == 0 {
            return Ok(None);
        }
        if n < HEADER_LEN {
            return Err(StoreError::Truncation);
        }
        let checksum = read_u32_le(slice_subrange(bytes, 0, 4));
        let key_len = read_u32_le(slice_subrange(bytes, 4, 8));
        let val_len = read_u32_le(slice_subrange(bytes, 8, 12));
        let header = Header { checksum, key_len, val_len };
        if ((n - HEADER_LEN) as u64) < header.data_len() {
            return Err(StoreError::Truncation);
        }
        Ok(Some(header))
    }

    /// The number of key and value bytes that the header announces.
    pub fn data_len(&self) -> (n: u64)
        ensures
            n == self.key_len + self.val_len,
    {
        self.key_len as u64 + self.val_len as u64
    }

    /// Parts `data`, the key and value bytes that came with this header
    /// and have the checksum `check_sum`, into key and value. Where
    /// `check_sum` is not the stored checksum, that is a checksum
    /// mismatch; where `data` has not the length that the header
    /// announces, a truncation.
    pub fn split(&self, check_sum: u32, data: Vec<u8>) -> (r: Result<KeyValuePair, StoreError>)
        ensures
            match checked(*self, check_sum, data@) {
                Ok(kv) => r is Ok && r->Ok_0@ == kv,
                Err(e) => r == Err::<KeyValuePair, StoreError>(e),
            },
    {
        if check_sum != self.checksum {
            return Err(StoreError::ChecksumMismatch);
        }
        if data.len() as u64 != self.data_len() {
            return Err(StoreError::Truncation);
        }
        let ghost whole = data@;
        let mut data = data;
        let value = data.split_off(self.key_len as usize);
        let key = data;
        proof {
            assert(key@ =~= whole.take(self.key_len as int));
            assert(value@ =~= whole.skip(self.key_len as int));
        }
        Ok(KeyValuePair { key, value })
    }
}

/// The fields of a frame are where the layout puts them.
pub proof fn lemma_frame_layout(checksum: u32, key: Seq<u8>, value: Seq<u8>, rest: Seq<u8>)
    requires
        fits(key, value),
    ensures
        frame(checksum, key, value).len() == record_len(key, value),
        header_of(frame(checksum, key, value) + rest) == Ok::<Option<Header>, StoreError>(
            Some(
                Header { checksum, key_len: key.len() as u32, val_len: value.len() as u32 },
            ),
        ),
        payload_of(
            frame(checksum, key, value) + rest,
            Header { checksum, key_len: key.len() as u32, val_len: value.len() as u32 },
        ) == key + value,
{
    let b = frame(checksum, key, value) + rest;
    lemma_le_roundtrip(checksum);
    lemma_le_roundtrip(key.len() as u32);
    lemma_le_roundtrip(value.len() as u32);
    assert(b.subrange(0, 4) =~= le_bytes(checksum));
    assert(b.subrange(4, 8) =~= le_bytes(key.len() as u32));
    assert(b.subrange(8, 12) =~= le_bytes(value.len() as u32));
    assert(b.subrange(12, 12 + key.len() as int + value.len() as int) =~= key + value);
}

/// A frame decodes to its key and value where the stored checksum is that
/// of its bytes, and to a checksum mismatch where it is not, whatever
/// follows the frame.
pub proof fn lemma_decode_frame(checksum: u32, key: Seq<u8>, value: Seq<u8>, rest: Seq<u8>)
    requires
        fits(key, value),
    ensures
        decode(frame(checksum, key, value) + rest) == if crc32_ieee(key + value) == checksum {
            Ok::<Option<(Seq<u8>, Seq<u8>)>, StoreError>(Some((key, value)))
        } else {
            Err(StoreError::ChecksumMismatch)
        },
{
    lemma_frame_layout(checksum, key, value, rest);
    assert((key + value).take(key.len() as int) =~= key);
    assert((key + value).skip(key.len() as int) =~= value);
}

/// Round trip: the record written for a key and a value reads back as that
/// key and value, whatever follows it in the log.
pub proof fn lemma_decode_record(key: Seq<u8>, value: Seq<u8>, rest: Seq<u8>)
    requires
        fits(key, value),
    ensures
        decode(record_bytes(key, value) + rest) == Ok::<Option<(Seq<u8>, Seq<u8>)>, StoreError>(
            Some((key, value)),
        ),
        stored_checksum(record_bytes(key, value) + rest) == crc32_ieee(key + value),
{
    lemma_decode_frame(crc32_ieee(key + value), key, value, rest);
    lemma_frame_layout(crc32_ieee(key + value), key, value, rest);
}

} // verus!
